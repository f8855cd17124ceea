use vstd::prelude::*;
use super::{
    Frame, Rgb, min3, room, grid_offset, byte_offset, rgb_at, covers, blit, in_rect,
    lemma_grid_offset_unique, lemma_grid_offset_bound, lemma_covers_bound, lemma_blit_from_pointwise,
    lemma_not_in_rect, write_rgb, lemma_blit_at,
};

verus! {

/// One terminal cell to repaint: move to `(x, y)` and print a full block
/// in `color`.
#[derive(Clone, Copy, Debug, PartialEq, Eq, Structural)]
pub struct Paint {
    pub x: u16,
    pub y: u16,
    pub color: Rgb,
}

/// A canvas after a repaint: the cell of the repaint holds its colour.
pub open spec fn paint_cell(canvas: Seq<u8>, cw: int, p: Paint) -> Seq<u8> {
    let o = grid_offset(cw, p.x as int, p.y as int, 3);
    canvas.update(o, p.color.r).update(o + 1, p.color.g).update(o + 2, p.color.b)
}

/// A canvas after a list of repaints, applied in order.
pub open spec fn apply_paints(canvas: Seq<u8>, cw: int, ops: Seq<Paint>) -> Seq<u8>
    decreases ops.len(),
{
    if ops.len() == 0 {
        canvas
    } else {
        paint_cell(apply_paints(canvas, cw, ops.drop_last()), cw, ops.last())
    }
}

/// Frame pixel `(x, y)`, drawn at `(x + ox, y + oy)`, differs from the
/// colour last drawn there.
pub open spec fn cell_changed(
    canvas: Seq<u8>,
    cw: int,
    pixels: Seq<u8>,
    fw: int,
    ox: int,
    oy: int,
    x: int,
    y: int,
) -> bool {
    rgb_at(pixels, fw, x, y) != rgb_at(canvas, cw, x + ox, y + oy)
}

/// The repaints of the first `n` pixels of frame row `y`, left to right.
pub open spec fn row_paints(
    canvas: Seq<u8>,
    cw: int,
    pixels: Seq<u8>,
    fw: int,
    ox: int,
    oy: int,
    y: int,
    n: int,
) -> Seq<Paint>
    decreases n,
{
    if n <= 0 {
        seq![]
    } else {
        let x = n - 1;
        let rest = row_paints(canvas, cw, pixels, fw, ox, oy, y, x);
        if cell_changed(canvas, cw, pixels, fw, ox, oy, x, y) {
            rest.push(Paint { x: (x + ox) as u16, y: (y + oy) as u16, color: rgb_at(pixels, fw, x, y) })
        } else {
            rest
        }
    }
}

/// The repaints of the rectangle `[0, w) x [0, h)` of the frame drawn at
/// `(ox, oy)`, row after row: one for each pixel whose colour differs from
/// the colour that the canvas holds for its cell.
pub open spec fn paints(
    canvas: Seq<u8>,
    cw: int,
    pixels: Seq<u8>,
    fw: int,
    ox: int,
    oy: int,
    w: int,
    h: int,
) -> Seq<Paint>
    decreases h,
{
    if h <= 0 {
        seq![]
    } else {
        paints(canvas, cw, pixels, fw, ox, oy, w, h - 1) + row_paints(
            canvas,
            cw,
            pixels,
            fw,
            ox,
            oy,
            h - 1,
            w,
        )
    }
}

/// Full-block renderer: one terminal cell per frame pixel, painted with a
/// full block in the pixel's colour. It remembers the colour of every
/// cell it has drawn (the canvas, `RGB` per cell) and repaints only the
/// cells whose colour changes.
pub struct AnsiRenderer {
    width: u16,
    height: u16,
    previous_frame: Vec<u8>,
}

impl AnsiRenderer {
    /// Width of the terminal, in cells.
    pub closed spec fn columns(&self) -> int {
        self.width as int
    }

    /// Height of the terminal, in cells.
    pub closed spec fn rows(&self) -> int {
        self.height as int
    }

    /// The colour last drawn in each cell, `RGB` per cell, row after row.
    pub closed spec fn canvas(&self) -> Seq<u8> {
        self.previous_frame@
    }

    /// The canvas holds one colour per cell.
    pub open spec fn inv(&self) -> bool {
        self.canvas().len() == self.columns() * self.rows() * 3
    }

    /// Columns of a frame `frame_width` pixels wide that a draw at
    /// `offset_x` limited to `cells_w` cells shows.
    pub open spec fn shown_columns(&self, frame_width: int, cells_w: int, offset_x: int) -> int {
        min3(frame_width, cells_w, room(self.columns(), offset_x))
    }

    /// Rows of a frame `frame_height` pixels high that a draw at
    /// `offset_y` limited to `cells_h` cells shows.
    pub open spec fn shown_rows(&self, frame_height: int, cells_h: int, offset_y: int) -> int {
        min3(frame_height, cells_h, room(self.rows(), offset_y))
    }

    /// A renderer for an empty terminal.
    pub fn new() -> (r: Self)
        ensures
            r.columns() == 0,
            r.rows() == 0,
            r.canvas() == Seq::<u8>::empty(),
            r.inv(),
    {
        AnsiRenderer { width: 0, height: 0, previous_frame: Vec::new() }
    }

    /// Starts drawing on a terminal of `width x height` cells, all black.
    pub fn init(&mut self, width: u16, height: u16)
        requires
            width * height * 3 <= usize::MAX,
        ensures
            final(self).columns() == width,
            final(self).rows() == height,
            final(self).canvas() == Seq::new((width * height * 3) as nat, |i: int| 0u8),
            final(self).inv(),
    {
        self.resize(width, height);
    }

    /// Takes the new size of the terminal; every cell counts as black.
    pub fn resize(&mut self, width: u16, height: u16)
        requires
            width * height * 3 <= usize::MAX,
        ensures
            final(self).columns() == width,
            final(self).rows() == height,
            final(self).canvas() == Seq::new((width * height * 3) as nat, |i: int| 0u8),
            final(self).inv(),
    {
        self.width = width;
        self.height = height;
        let cells: usize = width as usize * height as usize;
        let v: Vec<u8> = vec![0u8; cells * 3];
        assert(v@ =~= Seq::new((width * height * 3) as nat, |i: int| 0u8));
        self.previous_frame = v;
    }

    /// Whether the terminal can show this renderer's output: always.
    pub fn supported() -> (r: bool)
        ensures
            r,
    {
        true
    }

    /// The resolution, in frame pixels, to decode for a terminal of
    /// `term_width x term_height` cells: one pixel per cell.
    pub fn get_logical_size(&self, term_width: u16, term_height: u16) -> (r: (u16, u16))
        ensures
            r == (term_width, term_height),
    {
        (term_width, term_height)
    }

    /// Draws `frame` with its top-left pixel at cell `(offset_x, offset_y)`,
    /// showing at most `cells_w x cells_h` of its pixels and none past the
    /// terminal's edge. Returns the cells to repaint, in row-major order:
    /// those whose colour differs from the canvas; the canvas then holds
    /// the frame over the shown rectangle and is unchanged elsewhere.
    pub fn render_frame(
        &mut self,
        frame: &Frame,
        offset_x: u16,
        offset_y: u16,
        cells_w: u16,
        cells_h: u16,
    ) -> (out: Vec<Paint>)
        requires
            old(self).inv(),
            covers(
                frame.pixels@.len() as int,
                frame.width as int,
                old(self).shown_columns(frame.width as int, cells_w as int, offset_x as int),
                old(self).shown_rows(frame.height as int, cells_h as int, offset_y as int),
                3,
            ),
        ensures
            final(self).columns() == old(self).columns(),
            final(self).rows() == old(self).rows(),
            final(self).inv(),
            final(self).canvas() == blit(
                old(self).canvas(),
                old(self).columns(),
                frame.pixels@,
                frame.width as int,
                offset_x as int,
                offset_y as int,
                old(self).shown_columns(frame.width as int, cells_w as int, offset_x as int),
                old(self).shown_rows(frame.height as int, cells_h as int, offset_y as int),
                3,
            ),
            final(self).canvas() == apply_paints(old(self).canvas(), old(self).columns(), out@),
            forall|k: int|
                0 <= k < out@.len() ==> offset_x <= #[trigger] out@[k].x < offset_x + old(self).shown_columns(
                    frame.width as int,
                    cells_w as int,
                    offset_x as int,
                ) && offset_y <= out@[k].y < offset_y + old(self).shown_rows(
                    frame.height as int,
                    cells_h as int,
                    offset_y as int,
                ),
            out@ == paints(
                old(self).canvas(),
                old(self).columns(),
                frame.pixels@,
                frame.width as int,
                offset_x as int,
                offset_y as int,
                old(self).shown_columns(frame.width as int, cells_w as int, offset_x as int),
                old(self).shown_rows(frame.height as int, cells_h as int, offset_y as int),
            ),
    {
        let ghost before = self.previous_frame@;
        let ghost cw = self.width as int;
        let ghost ch = self.height as int;
        let ghost fw = frame.width as int;
        let ghost pixels = frame.pixels@;
        let available_w: u16 = self.width.saturating_sub(offset_x);
        let available_h: u16 = self.height.saturating_sub(offset_y);
        let mut render_w: u16 = if frame.width < cells_w { frame.width } else { cells_w };
        if available_w < render_w {
            render_w = available_w;
        }
        let mut render_h: u16 = if frame.height < cells_h { frame.height } else { cells_h };
        if available_h < render_h {
            render_h = available_h;
        }
        let ghost ox = offset_x as int;
        let ghost oy = offset_y as int;
        let ghost rw = render_w as int;
        let ghost rh = render_h as int;
        assert(rw == self.shown_columns(fw, cells_w as int, ox));
        assert(rh == self.shown_rows(frame.height as int, cells_h as int, oy));
        let mut out: Vec<Paint> = Vec::new();
        let mut y: u16 = 0;
        while y < render_h
            invariant
                self.width == cw,
                self.height == ch,
                frame.pixels@ == pixels,
                frame.width == fw,
                offset_x == ox,
                offset_y == oy,
                render_w == rw,
                render_h == rh,
                before.len() == cw * ch * 3,
                rw > 0 && rh > 0 ==> ox + rw <= cw && oy + rh <= ch,
                rw <= fw,
                covers(pixels.len() as int, fw, rw, rh, 3),
                0 <= y <= rh,
                self.previous_frame@.len() == before.len(),
                self.previous_frame@ == apply_paints(before, cw, out@),
                forall|k: int| 0 <= k < out@.len() ==> ox <= #[trigger] out@[k].x < ox + rw,
                forall|k: int| 0 <= k < out@.len() ==> oy <= #[trigger] out@[k].y < oy + rh,
                forall|tx: int, ty: int, c: int|
                    ox <= tx < ox + rw && oy <= ty < oy + y && 0 <= c < 3
                        ==> #[trigger] self.previous_frame@[byte_offset(cw, tx, ty, 3, c)]
                        == pixels[byte_offset(fw, tx - ox, ty - oy, 3, c)],
                forall|i: int|
                    0 <= i < before.len() && self.previous_frame@[i] != before[i] ==> in_rect(
                        i,
                        cw,
                        ox,
                        oy,
                        rw,
                        y as int,
                        3,
                    ),
                out@ == paints(before, cw, pixels, fw, ox, oy, rw, y as int),
            decreases rh - y,
        {
            let mut x: u16 = 0;
            while x < render_w
                invariant
                    self.width == cw,
                    self.height == ch,
                    frame.pixels@ == pixels,
                    frame.width == fw,
                    offset_x == ox,
                    offset_y == oy,
                    render_w == rw,
                    render_h == rh,
                    before.len() == cw * ch * 3,
                    rw > 0 ==> ox + rw <= cw && oy + rh <= ch,
                    rw <= fw,
                    covers(pixels.len() as int, fw, rw, rh, 3),
                    0 <= y < rh,
                    0 <= x <= rw,
                    self.previous_frame@.len() == before.len(),
                    self.previous_frame@ == apply_paints(before, cw, out@),
                    forall|k: int| 0 <= k < out@.len() ==> ox <= #[trigger] out@[k].x < ox + rw,
                forall|k: int| 0 <= k < out@.len() ==> oy <= #[trigger] out@[k].y < oy + rh,
                    forall|tx: int, ty: int, c: int|
                        ox <= tx < ox + rw && oy <= ty < oy + y && 0 <= c < 3
                            ==> #[trigger] self.previous_frame@[byte_offset(cw, tx, ty, 3, c)]
                            == pixels[byte_offset(fw, tx - ox, ty - oy, 3, c)],
                    forall|tx: int, c: int|
                        ox <= tx < ox + x && 0 <= c < 3
                            ==> #[trigger] self.previous_frame@[byte_offset(cw, tx, oy + y, 3, c)]
                            == pixels[byte_offset(fw, tx - ox, y as int, 3, c)],
                    forall|i: int|
                        0 <= i < before.len() && self.previous_frame@[i] != before[i] ==> in_rect(
                            i,
                            cw,
                            ox,
                            oy,
                            rw,
                            y as int,
                            3,
                        ) || in_rect(i, cw, ox, oy + y, x as int, 1, 3),
                    out@ == paints(before, cw, pixels, fw, ox, oy, rw, y as int) + row_paints(
                        before,
                        cw,
                        pixels,
                        fw,
                        ox,
                        oy,
                        y as int,
                        x as int,
                    ),
                decreases rw - x,
            {
                // Both buffers are held in memory, so their lengths bound the offsets below.
                let _frame_len: usize = frame.pixels.len();
                let _canvas_len: usize = self.previous_frame.len();
                let tx: u16 = x + offset_x;
                let ty: u16 = y + offset_y;
                proof {
                    lemma_covers_bound(pixels.len() as int, fw, rw, rh, 3, x as int, y as int, 2);
                    lemma_grid_offset_bound(cw, ch, 3, tx as int, ty as int, 2);
                    assert(0 <= (y as int) * fw) by (nonlinear_arith)
                        requires
                            y >= 0,
                            fw >= 0,
                    ;
                    assert(0 <= (ty as int) * cw) by (nonlinear_arith)
                        requires
                            ty >= 0,
                            cw >= 0,
                    ;
                    assert forall|c: int| 0 <= c < 3 implies self.previous_frame@[byte_offset(cw, tx as int, ty as int, 3, c)]
                        == before[byte_offset(cw, tx as int, ty as int, 3, c)] by {
                        lemma_grid_offset_bound(cw, ch, 3, tx as int, ty as int, c);
                        lemma_not_in_rect(cw, ox, oy, rw, y as int, 3, tx as int, ty as int, c);
                        lemma_not_in_rect(cw, ox, oy + y, x as int, 1, 3, tx as int, ty as int, c);
                    }
                }
                let fi: usize = (y as usize * frame.width as usize + x as usize) * 3;
                let ci: usize = (ty as usize * self.width as usize + tx as usize) * 3;
                let color = Rgb { r: frame.pixels[fi], g: frame.pixels[fi + 1], b: frame.pixels[fi + 2] };
                let ghost prev = self.previous_frame@;
                assert(color == rgb_at(pixels, fw, x as int, y as int));
                assert(byte_offset(cw, tx as int, ty as int, 3, 0) == ci);
                assert(byte_offset(cw, tx as int, ty as int, 3, 1) == ci + 1);
                assert(byte_offset(cw, tx as int, ty as int, 3, 2) == ci + 2);
                if color.r != self.previous_frame[ci] || color.g != self.previous_frame[ci + 1]
                    || color.b != self.previous_frame[ci + 2] {
                    let ghost ops = out@;
                    out.push(Paint { x: tx, y: ty, color });
                    write_rgb(&mut self.previous_frame, ci, color);
                    assert(out@.drop_last() =~= ops);
                }
                proof {
                    let now = self.previous_frame@;
                    assert forall|tx2: int, ty2: int, c: int|
                        ox <= tx2 < ox + rw && oy <= ty2 < oy + y && 0 <= c < 3
                            implies #[trigger] now[byte_offset(cw, tx2, ty2, 3, c)]
                            == pixels[byte_offset(fw, tx2 - ox, ty2 - oy, 3, c)] by {
                        let j = byte_offset(cw, tx2, ty2, 3, c);
                        lemma_grid_offset_bound(cw, ch, 3, tx2, ty2, c);
                        assert(prev[j] == pixels[byte_offset(fw, tx2 - ox, ty2 - oy, 3, c)]);
                        if ci <= j < ci + 3 {
                            lemma_grid_offset_unique(cw, 3, tx2, ty2, c, tx as int, ty as int, j - ci);
                        }
                    }
                    assert forall|tx2: int, c: int|
                        ox <= tx2 < ox + x + 1 && 0 <= c < 3
                            implies #[trigger] now[byte_offset(cw, tx2, oy + y, 3, c)]
                            == pixels[byte_offset(fw, tx2 - ox, y as int, 3, c)] by {
                        let j = byte_offset(cw, tx2, oy + y, 3, c);
                        lemma_grid_offset_bound(cw, ch, 3, tx2, oy + y, c);
                        if tx2 < ox + x {
                            assert(prev[j] == pixels[byte_offset(fw, tx2 - ox, y as int, 3, c)]);
                            if ci <= j < ci + 3 {
                                lemma_grid_offset_unique(cw, 3, tx2, oy + y, c, tx as int, ty as int, j - ci);
                            }
                        } else {
                            assert(tx2 == tx);
                        }
                    }
                    assert forall|i: int|
                        0 <= i < before.len() && now[i] != before[i] implies in_rect(i, cw, ox, oy, rw, y as int, 3)
                            || in_rect(i, cw, ox, oy + y, x + 1, 1, 3) by {
                        if ci <= i < ci + 3 {
                            assert(i == byte_offset(cw, tx as int, oy + y, 3, i - ci));
                        } else {
                            assert(now[i] == prev[i]);
                            if !in_rect(i, cw, ox, oy, rw, y as int, 3) {
                                assert(in_rect(i, cw, ox, oy + y, x as int, 1, 3));
                                let (x2, y2, c2) = choose|x2: int, y2: int, c2: int|
                                    ox <= x2 < ox + x && oy + y <= y2 < oy + y + 1 && 0 <= c2 < 3 && i
                                        == #[trigger] byte_offset(cw, x2, y2, 3, c2);
                                assert(i == byte_offset(cw, x2, y2, 3, c2));
                            }
                        }
                    }
                    assert(out@ == paints(before, cw, pixels, fw, ox, oy, rw, y as int) + row_paints(
                        before,
                        cw,
                        pixels,
                        fw,
                        ox,
                        oy,
                        y as int,
                        x + 1,
                    ));
                }
                x = x + 1;
            }
            proof {
                let now = self.previous_frame@;
                assert forall|tx2: int, ty2: int, c: int|
                    ox <= tx2 < ox + rw && oy <= ty2 < oy + y + 1 && 0 <= c < 3
                        implies #[trigger] now[byte_offset(cw, tx2, ty2, 3, c)]
                        == pixels[byte_offset(fw, tx2 - ox, ty2 - oy, 3, c)] by {
                    if ty2 == oy + y {
                        assert(now[byte_offset(cw, tx2, oy + y, 3, c)] == pixels[byte_offset(fw, tx2 - ox, y as int, 3, c)]);
                    }
                }
                assert forall|i: int|
                    0 <= i < before.len() && now[i] != before[i] implies in_rect(i, cw, ox, oy, rw, y + 1, 3) by {
                    if in_rect(i, cw, ox, oy, rw, y as int, 3) {
                        let (x2, y2, c2) = choose|x2: int, y2: int, c2: int|
                            ox <= x2 < ox + rw && oy <= y2 < oy + y && 0 <= c2 < 3 && i
                                == #[trigger] byte_offset(cw, x2, y2, 3, c2);
                        assert(i == byte_offset(cw, x2, y2, 3, c2));
                    } else {
                        let (x2, y2, c2) = choose|x2: int, y2: int, c2: int|
                            ox <= x2 < ox + x && oy + y <= y2 < oy + y + 1 && 0 <= c2 < 3 && i
                                == #[trigger] byte_offset(cw, x2, y2, 3, c2);
                        assert(i == byte_offset(cw, x2, y2, 3, c2));
                    }
                }
            }
            y = y + 1;
        }
        proof {
            lemma_blit_from_pointwise(before, self.previous_frame@, cw, ch, pixels, fw, ox, oy, rw, rh, 3);
            assert(rw == old(self).shown_columns(fw, cells_w as int, ox));
            assert(rh == old(self).shown_rows(frame.height as int, cells_h as int, oy));
            assert forall|k: int| 0 <= k < out@.len() implies ox <= #[trigger] out@[k].x < ox + rw by {}
            assert forall|k: int| 0 <= k < out@.len() implies oy <= #[trigger] out@[k].y < oy + rh by {}
        }
        out
    }
}

/// Once the canvas holds the frame over a rectangle, drawing the frame
/// there again repaints no cell of the first `n` of row `y`.
proof fn lemma_row_paints_of_blit(
    canvas: Seq<u8>,
    cw: int,
    ch: int,
    pixels: Seq<u8>,
    fw: int,
    ox: int,
    oy: int,
    w: int,
    h: int,
    y: int,
    n: int,
)
    requires
        canvas.len() == cw * ch * 3,
        0 <= ox,
        0 <= oy,
        ox + w <= cw,
        oy + h <= ch,
        0 <= y < h,
        n <= w,
    ensures
        row_paints(blit(canvas, cw, pixels, fw, ox, oy, w, h, 3), cw, pixels, fw, ox, oy, y, n)
            == Seq::<Paint>::empty(),
    decreases n,
{
    if n > 0 {
        let x = n - 1;
        lemma_row_paints_of_blit(canvas, cw, ch, pixels, fw, ox, oy, w, h, y, x);
        lemma_blit_at(canvas, cw, ch, pixels, fw, ox, oy, w, h, 3, x, y, 0);
        lemma_blit_at(canvas, cw, ch, pixels, fw, ox, oy, w, h, 3, x, y, 1);
        lemma_blit_at(canvas, cw, ch, pixels, fw, ox, oy, w, h, 3, x, y, 2);
    }
}

/// Once the canvas holds the frame over a rectangle, drawing the frame
/// there again repaints none of the first `n` rows.
proof fn lemma_paints_of_blit(
    canvas: Seq<u8>,
    cw: int,
    ch: int,
    pixels: Seq<u8>,
    fw: int,
    ox: int,
    oy: int,
    w: int,
    h: int,
    n: int,
)
    requires
        canvas.len() == cw * ch * 3,
        0 <= ox,
        0 <= oy,
        ox + w <= cw,
        oy + h <= ch,
        n <= h,
    ensures
        paints(blit(canvas, cw, pixels, fw, ox, oy, w, h, 3), cw, pixels, fw, ox, oy, w, n)
            == Seq::<Paint>::empty(),
    decreases n,
{
    if n > 0 {
        lemma_paints_of_blit(canvas, cw, ch, pixels, fw, ox, oy, w, h, n - 1);
        lemma_row_paints_of_blit(canvas, cw, ch, pixels, fw, ox, oy, w, h, n - 1, w);
    }
}

/// Drawing a frame twice in a row at the same place repaints nothing the
/// second time: the first draw leaves the canvas holding exactly what the
/// second would paint.
pub proof fn lemma_redraw_paints_nothing(
    r: AnsiRenderer,
    frame: Frame,
    offset_x: u16,
    offset_y: u16,
    cells_w: u16,
    cells_h: u16,
)
    requires
        r.inv(),
    ensures
        ({
            let w = r.shown_columns(frame.width as int, cells_w as int, offset_x as int);
            let h = r.shown_rows(frame.height as int, cells_h as int, offset_y as int);
            let drawn = blit(
                r.canvas(),
                r.columns(),
                frame.pixels@,
                frame.width as int,
                offset_x as int,
                offset_y as int,
                w,
                h,
                3,
            );
            paints(drawn, r.columns(), frame.pixels@, frame.width as int, offset_x as int, offset_y as int, w, h)
                == Seq::<Paint>::empty()
        }),
{
    let w = r.shown_columns(frame.width as int, cells_w as int, offset_x as int);
    let h = r.shown_rows(frame.height as int, cells_h as int, offset_y as int);
    if w > 0 && h > 0 {
        lemma_paints_of_blit(
            r.canvas(),
            r.columns(),
            r.rows(),
            frame.pixels@,
            frame.width as int,
            offset_x as int,
            offset_y as int,
            w,
            h,
            h,
        );
    } else if h <= 0 {
    } else {
        let drawn = blit(
            r.canvas(),
            r.columns(),
            frame.pixels@,
            frame.width as int,
            offset_x as int,
            offset_y as int,
            w,
            h,
            3,
        );
        assert forall|n: int| n <= h implies #[trigger] paints(drawn, r.columns(), frame.pixels@, frame.width as int, offset_x as int, offset_y as int, w, n) == Seq::<Paint>::empty() by {
            lemma_paints_of_empty_rows(drawn, r.columns(), frame.pixels@, frame.width as int, offset_x as int, offset_y as int, w, n);
        }
    }
}

/// Rows of no pixel repaint nothing.
proof fn lemma_paints_of_empty_rows(
    canvas: Seq<u8>,
    cw: int,
    pixels: Seq<u8>,
    fw: int,
    ox: int,
    oy: int,
    w: int,
    n: int,
)
    requires
        w <= 0,
    ensures
        paints(canvas, cw, pixels, fw, ox, oy, w, n) == Seq::<Paint>::empty(),
    decreases n,
{
    if n > 0 {
        lemma_paints_of_empty_rows(canvas, cw, pixels, fw, ox, oy, w, n - 1);
        assert(row_paints(canvas, cw, pixels, fw, ox, oy, n - 1, w) == Seq::<Paint>::empty());
        assert(Seq::<Paint>::empty() + Seq::<Paint>::empty() =~= Seq::<Paint>::empty());
    }
}

/// A draw whose `cells_w x cells_h` cells fit both the frame and the
/// terminal shows every one of them: afterwards each cell of that block at
/// `(offset_x, offset_y)` holds the frame's pixel.
pub proof fn lemma_fitting_draw_shows_every_cell(
    r: AnsiRenderer,
    frame: Frame,
    offset_x: u16,
    offset_y: u16,
    cells_w: u16,
    cells_h: u16,
)
    requires
        r.inv(),
        cells_w <= frame.width,
        cells_h <= frame.height,
        offset_x + cells_w <= r.columns(),
        offset_y + cells_h <= r.rows(),
    ensures
        forall|x: int, y: int, c: int|
            0 <= x < cells_w && 0 <= y < cells_h as int && 0 <= c < 3 ==> #[trigger] blit(
                r.canvas(),
                r.columns(),
                frame.pixels@,
                frame.width as int,
                offset_x as int,
                offset_y as int,
                r.shown_columns(frame.width as int, cells_w as int, offset_x as int),
                r.shown_rows(frame.height as int, cells_h as int, offset_y as int),
                3,
            )[byte_offset(r.columns(), x + offset_x, y + offset_y as int, 3, c)] == frame.pixels@[byte_offset(
                frame.width as int,
                x,
                y,
                3,
                c,
            )],
{
    assert(r.shown_columns(frame.width as int, cells_w as int, offset_x as int) == cells_w);
    assert(r.shown_rows(frame.height as int, cells_h as int, offset_y as int) == cells_h);
    assert forall|x: int, y: int, c: int| 0 <= x < cells_w && 0 <= y < cells_h as int && 0 <= c < 3 implies #[trigger] blit(
        r.canvas(),
        r.columns(),
        frame.pixels@,
        frame.width as int,
        offset_x as int,
        offset_y as int,
        r.shown_columns(frame.width as int, cells_w as int, offset_x as int),
        r.shown_rows(frame.height as int, cells_h as int, offset_y as int),
        3,
    )[byte_offset(r.columns(), x + offset_x, y + offset_y as int, 3, c)] == frame.pixels@[byte_offset(
        frame.width as int,
        x,
        y,
        3,
        c,
    )] by {
        lemma_blit_at(
            r.canvas(),
            r.columns(),
            r.rows(),
            frame.pixels@,
            frame.width as int,
            offset_x as int,
            offset_y as int,
            cells_w as int,
            cells_h as int,
            3,
            x,
            y,
            c,
        );
    }
}

} // verus!
