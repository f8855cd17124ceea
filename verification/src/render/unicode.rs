use vstd::prelude::*;
use super::{
    Frame, Rgb, min3, room, grid_offset, byte_offset, rgb_at, covers, blit, in_rect, lemma_grid_offset_unique,
    lemma_grid_offset_bound, lemma_covers_bound, lemma_blit_from_pointwise, lemma_not_in_rect,
    write_rgb, lemma_blit_at,
};

verus! {

/// One terminal cell to repaint: move to `(x, y)` and print an upper half
/// block with foreground `top` and background `bottom`.
#[derive(Clone, Copy, Debug, PartialEq, Eq, Structural)]
pub struct HalfBlock {
    pub x: u16,
    pub y: u16,
    pub top: Rgb,
    pub bottom: Rgb,
}

/// A canvas after a repaint: the top and bottom pixels of the cell hold
/// its two colours.
pub open spec fn paint_block(canvas: Seq<u8>, cw: int, b: HalfBlock) -> Seq<u8> {
    let top = grid_offset(cw, b.x as int, 2 * b.y, 3);
    let bottom = grid_offset(cw, b.x as int, 2 * b.y + 1, 3);
    canvas.update(top, b.top.r).update(top + 1, b.top.g).update(top + 2, b.top.b).update(
        bottom,
        b.bottom.r,
    ).update(bottom + 1, b.bottom.g).update(bottom + 2, b.bottom.b)
}

/// A canvas after a list of repaints, applied in order.
pub open spec fn apply_blocks(canvas: Seq<u8>, cw: int, ops: Seq<HalfBlock>) -> Seq<u8>
    decreases ops.len(),
{
    if ops.len() == 0 {
        canvas
    } else {
        paint_block(apply_blocks(canvas, cw, ops.drop_last()), cw, ops.last())
    }
}

/// Cell `(x, y)` of the frame (its pixels `(x, 2y)` and `(x, 2y + 1)`),
/// drawn at cell `(x + ox, y + oy)`, differs in either half from what was
/// last drawn there. The canvas holds two pixel rows per terminal row.
pub open spec fn cell_changed(
    canvas: Seq<u8>,
    cw: int,
    pixels: Seq<u8>,
    fw: int,
    ox: int,
    oy: int,
    x: int,
    y: int,
) -> bool {
    rgb_at(pixels, fw, x, 2 * y) != rgb_at(canvas, cw, x + ox, 2 * (y + oy)) || rgb_at(
        pixels,
        fw,
        x,
        2 * y + 1,
    ) != rgb_at(canvas, cw, x + ox, 2 * (y + oy) + 1)
}

/// The repaints of the first `n` cells of row `y` of the frame, left to
/// right.
pub open spec fn row_blocks(
    canvas: Seq<u8>,
    cw: int,
    pixels: Seq<u8>,
    fw: int,
    ox: int,
    oy: int,
    y: int,
    n: int,
) -> Seq<HalfBlock>
    decreases n,
{
    if n <= 0 {
        seq![]
    } else {
        let x = n - 1;
        let rest = row_blocks(canvas, cw, pixels, fw, ox, oy, y, x);
        if cell_changed(canvas, cw, pixels, fw, ox, oy, x, y) {
            rest.push(
                HalfBlock {
                    x: (x + ox) as u16,
                    y: (y + oy) as u16,
                    top: rgb_at(pixels, fw, x, 2 * y),
                    bottom: rgb_at(pixels, fw, x, 2 * y + 1),
                },
            )
        } else {
            rest
        }
    }
}

/// The repaints of the cells `[0, w) x [0, h)` of the frame drawn at cell
/// `(ox, oy)`, row after row: one for each cell whose two pixels are not
/// both what the canvas holds for it.
pub open spec fn blocks(
    canvas: Seq<u8>,
    cw: int,
    pixels: Seq<u8>,
    fw: int,
    ox: int,
    oy: int,
    w: int,
    h: int,
) -> Seq<HalfBlock>
    decreases h,
{
    if h <= 0 {
        seq![]
    } else {
        blocks(canvas, cw, pixels, fw, ox, oy, w, h - 1) + row_blocks(canvas, cw, pixels, fw, ox, oy, h - 1, w)
    }
}

/// Half-block renderer: each terminal cell shows two frame pixels, one
/// above the other, as an upper half block. It remembers the two colours
/// of every cell it has drawn (the canvas: `RGB` per pixel, two pixel rows
/// per terminal row) and repaints only the cells where one of them
/// changes.
pub struct UnicodeRenderer {
    width: u16,
    height: u16,
    previous_frame: Vec<u8>,
}

impl UnicodeRenderer {
    /// Width of the terminal, in cells.
    pub closed spec fn columns(&self) -> int {
        self.width as int
    }

    /// Height of the terminal, in cells.
    pub closed spec fn rows(&self) -> int {
        self.height as int
    }

    /// The colours last drawn, `RGB` per pixel, `2 * rows()` pixel rows of
    /// `columns()` pixels.
    pub closed spec fn canvas(&self) -> Seq<u8> {
        self.previous_frame@
    }

    /// The canvas holds two pixels per cell, and the pixel rows can be
    /// counted in a `u16`.
    pub open spec fn inv(&self) -> bool {
        &&& self.canvas().len() == self.columns() * (2 * self.rows()) * 3
        &&& 2 * self.rows() <= u16::MAX
    }

    /// Columns of a frame `frame_width` pixels wide that a draw at
    /// `offset_x` limited to `cells_w` cells shows.
    pub open spec fn shown_columns(&self, frame_width: int, cells_w: int, offset_x: int) -> int {
        min3(frame_width, cells_w, room(self.columns(), offset_x))
    }

    /// Terminal rows (two pixel rows each) of a frame `frame_height` pixels
    /// high that a draw at `offset_y` limited to `cells_h` rows shows.
    pub open spec fn shown_rows(&self, frame_height: int, cells_h: int, offset_y: int) -> int {
        min3(frame_height / 2, cells_h, room(self.rows(), offset_y))
    }

    /// A renderer for an empty terminal.
    pub fn new() -> (r: Self)
        ensures
            r.columns() == 0,
            r.rows() == 0,
            r.canvas() == Seq::<u8>::empty(),
            r.inv(),
    {
        UnicodeRenderer { width: 0, height: 0, previous_frame: Vec::new() }
    }

    /// Starts drawing on a terminal of `width x height` cells, all black.
    pub fn init(&mut self, width: u16, height: u16)
        requires
            2 * height <= u16::MAX,
            width * (2 * height) * 3 <= usize::MAX,
        ensures
            final(self).columns() == width,
            final(self).rows() == height,
            final(self).canvas() == Seq::new((width * (2 * height) * 3) as nat, |i: int| 0u8),
            final(self).inv(),
    {
        self.resize(width, height);
    }

    /// Takes the new size of the terminal; every pixel counts as black.
    pub fn resize(&mut self, width: u16, height: u16)
        requires
            2 * height <= u16::MAX,
            width * (2 * height) * 3 <= usize::MAX,
        ensures
            final(self).columns() == width,
            final(self).rows() == height,
            final(self).canvas() == Seq::new((width * (2 * height) * 3) as nat, |i: int| 0u8),
            final(self).inv(),
    {
        self.width = width;
        self.height = height;
        let pixel_rows: u16 = height * 2;
        let cells: usize = width as usize * pixel_rows as usize;
        let v: Vec<u8> = vec![0u8; cells * 3];
        assert(v@ =~= Seq::new((width * (2 * height) * 3) as nat, |i: int| 0u8));
        self.previous_frame = v;
    }

    /// Whether the terminal can show this renderer's output: always.
    pub fn supported() -> (r: bool)
        ensures
            r,
    {
        true
    }

    /// The resolution, in frame pixels, to decode for a terminal of
    /// `term_width x term_height` cells: two pixels per cell, one above the
    /// other.
    pub fn get_logical_size(&self, term_width: u16, term_height: u16) -> (r: (u16, u16))
        requires
            2 * term_height <= u16::MAX,
        ensures
            r == (term_width, (2 * term_height) as u16),
    {
        (term_width, term_height * 2)
    }

    /// Draws `frame` with its top-left pixel pair at cell
    /// `(offset_x, offset_y)`, showing at most `cells_w x cells_h` cells and
    /// none past the terminal's edge; frame row `2y` fills the top halves
    /// and row `2y + 1` the bottom halves of terminal row `y`. Returns the
    /// cells to repaint, in row-major order; the canvas then holds the
    /// frame's pixels over the shown cells and is unchanged elsewhere.
    #[verifier::rlimit(40)]
    pub fn render_frame(
        &mut self,
        frame: &Frame,
        offset_x: u16,
        offset_y: u16,
        cells_w: u16,
        cells_h: u16,
    ) -> (out: Vec<HalfBlock>)
        requires
            old(self).inv(),
            covers(
                frame.pixels@.len() as int,
                frame.width as int,
                old(self).shown_columns(frame.width as int, cells_w as int, offset_x as int),
                2 * old(self).shown_rows(frame.height as int, cells_h as int, offset_y as int),
                3,
            ),
        ensures
            final(self).columns() == old(self).columns(),
            final(self).rows() == old(self).rows(),
            final(self).inv(),
            final(self).canvas() == blit(
                old(self).canvas(),
                old(self).columns(),
                frame.pixels@,
                frame.width as int,
                offset_x as int,
                2 * offset_y,
                old(self).shown_columns(frame.width as int, cells_w as int, offset_x as int),
                2 * old(self).shown_rows(frame.height as int, cells_h as int, offset_y as int),
                3,
            ),
            final(self).canvas() == apply_blocks(old(self).canvas(), old(self).columns(), out@),
            forall|k: int|
                0 <= k < out@.len() ==> offset_x <= #[trigger] out@[k].x < offset_x + old(self).shown_columns(
                    frame.width as int,
                    cells_w as int,
                    offset_x as int,
                ) && offset_y <= out@[k].y < offset_y + old(self).shown_rows(
                    frame.height as int,
                    cells_h as int,
                    offset_y as int,
                ),
            out@ == blocks(
                old(self).canvas(),
                old(self).columns(),
                frame.pixels@,
                frame.width as int,
                offset_x as int,
                offset_y as int,
                old(self).shown_columns(frame.width as int, cells_w as int, offset_x as int),
                old(self).shown_rows(frame.height as int, cells_h as int, offset_y as int),
            ),
    {
        let ghost before = self.previous_frame@;
        let ghost cw = self.width as int;
        let ghost ch = 2 * self.height;
        let ghost fw = frame.width as int;
        let ghost pixels = frame.pixels@;
        let available_w: u16 = self.width.saturating_sub(offset_x);
        let available_rows: u16 = self.height.saturating_sub(offset_y);
        let mut render_w: u16 = if frame.width < cells_w { frame.width } else { cells_w };
        if available_w < render_w {
            render_w = available_w;
        }
        let half_height: u16 = frame.height / 2;
        let mut render_rows: u16 = if half_height < cells_h { half_height } else { cells_h };
        if available_rows < render_rows {
            render_rows = available_rows;
        }
        let ghost ox = offset_x as int;
        let ghost oy = offset_y as int;
        let ghost rw = render_w as int;
        let ghost rh = render_rows as int;
        assert(rw == self.shown_columns(fw, cells_w as int, ox));
        assert(rh == self.shown_rows(frame.height as int, cells_h as int, oy));
        let mut out: Vec<HalfBlock> = Vec::new();
        let mut y: u16 = 0;
        while y < render_rows
            invariant
                self.width == cw,
                2 * self.height == ch,
                ch <= u16::MAX,
                frame.pixels@ == pixels,
                frame.width == fw,
                offset_x == ox,
                offset_y == oy,
                render_w == rw,
                render_rows == rh,
                before.len() == cw * ch * 3,
                rw > 0 && rh > 0 ==> ox + rw <= cw && 2 * (oy + rh) <= ch,
                rw <= fw,
                covers(pixels.len() as int, fw, rw, 2 * rh, 3),
                0 <= y <= rh,
                self.previous_frame@.len() == before.len(),
                self.previous_frame@ == apply_blocks(before, cw, out@),
                forall|k: int| 0 <= k < out@.len() ==> ox <= #[trigger] out@[k].x < ox + rw,
                forall|k: int| 0 <= k < out@.len() ==> oy <= #[trigger] out@[k].y < oy + rh,
                forall|tx: int, py: int, c: int|
                    ox <= tx < ox + rw && 2 * oy <= py < 2 * oy + 2 * y && 0 <= c < 3
                        ==> #[trigger] self.previous_frame@[byte_offset(cw, tx, py, 3, c)]
                        == pixels[byte_offset(fw, tx - ox, py - 2 * oy, 3, c)],
                forall|i: int|
                    0 <= i < before.len() && self.previous_frame@[i] != before[i] ==> in_rect(
                        i,
                        cw,
                        ox,
                        2 * oy,
                        rw,
                        2 * y,
                        3,
                    ),
                out@ == blocks(before, cw, pixels, fw, ox, oy, rw, y as int),
            decreases rh - y,
        {
            let mut x: u16 = 0;
            while x < render_w
                invariant
                    self.width == cw,
                    2 * self.height == ch,
                    ch <= u16::MAX,
                    frame.pixels@ == pixels,
                    frame.width == fw,
                    offset_x == ox,
                    offset_y == oy,
                    render_w == rw,
                    render_rows == rh,
                    before.len() == cw * ch * 3,
                    rw > 0 ==> ox + rw <= cw && 2 * (oy + rh) <= ch,
                    rw <= fw,
                    covers(pixels.len() as int, fw, rw, 2 * rh, 3),
                    0 <= y < rh,
                    0 <= x <= rw,
                    self.previous_frame@.len() == before.len(),
                    self.previous_frame@ == apply_blocks(before, cw, out@),
                    forall|k: int| 0 <= k < out@.len() ==> ox <= #[trigger] out@[k].x < ox + rw,
                forall|k: int| 0 <= k < out@.len() ==> oy <= #[trigger] out@[k].y < oy + rh,
                    forall|tx: int, py: int, c: int|
                        ox <= tx < ox + rw && 2 * oy <= py < 2 * oy + 2 * y && 0 <= c < 3
                            ==> #[trigger] self.previous_frame@[byte_offset(cw, tx, py, 3, c)]
                            == pixels[byte_offset(fw, tx - ox, py - 2 * oy, 3, c)],
                    forall|tx: int, py: int, c: int|
                        ox <= tx < ox + x && 2 * (oy + y) <= py < 2 * (oy + y) + 2 && 0 <= c < 3
                            ==> #[trigger] self.previous_frame@[byte_offset(cw, tx, py, 3, c)]
                            == pixels[byte_offset(fw, tx - ox, py - 2 * oy, 3, c)],
                    forall|i: int|
                        0 <= i < before.len() && self.previous_frame@[i] != before[i] ==> in_rect(
                            i,
                            cw,
                            ox,
                            2 * oy,
                            rw,
                            2 * y,
                            3,
                        ) || in_rect(i, cw, ox, 2 * (oy + y), x as int, 2, 3),
                    out@ == blocks(before, cw, pixels, fw, ox, oy, rw, y as int) + row_blocks(
                        before,
                        cw,
                        pixels,
                        fw,
                        ox,
                        oy,
                        y as int,
                        x as int,
                    ),
                decreases rw - x,
            {
                // Both buffers are held in memory, so their lengths bound the offsets below.
                let _frame_len: usize = frame.pixels.len();
                let _canvas_len: usize = self.previous_frame.len();
                let tx: u16 = x + offset_x;
                let ty: u16 = y + offset_y;
                let top_row: u16 = ty * 2;
                let fy: u16 = y * 2;
                proof {
                    lemma_covers_bound(pixels.len() as int, fw, rw, 2 * rh, 3, x as int, 2 * y + 1, 2);
                    lemma_grid_offset_bound(cw, ch, 3, tx as int, 2 * ty + 1, 2);
                    assert(0 <= (fy as int) * fw) by (nonlinear_arith)
                        requires
                            fy >= 0,
                            fw >= 0,
                    ;
                    assert(0 <= (fy + 1) * fw) by (nonlinear_arith)
                        requires
                            fy >= 0,
                            fw >= 0,
                    ;
                    assert(0 <= (top_row as int) * cw) by (nonlinear_arith)
                        requires
                            top_row >= 0,
                            cw >= 0,
                    ;
                    assert(0 <= (top_row + 1) * cw) by (nonlinear_arith)
                        requires
                            top_row >= 0,
                            cw >= 0,
                    ;
                    lemma_covers_bound(pixels.len() as int, fw, rw, 2 * rh, 3, x as int, 2 * y, 2);
                    lemma_grid_offset_bound(cw, ch, 3, tx as int, 2 * ty, 2);
                    assert forall|py: int, c: int| 2 * ty <= py < 2 * ty + 2 && 0 <= c < 3 implies #[trigger] self.previous_frame@[byte_offset(
                        cw,
                        tx as int,
                        py,
                        3,
                        c,
                    )] == before[byte_offset(cw, tx as int, py, 3, c)] by {
                        lemma_grid_offset_bound(cw, ch, 3, tx as int, py, c);
                        lemma_not_in_rect(cw, ox, 2 * oy, rw, 2 * y, 3, tx as int, py, c);
                        lemma_not_in_rect(cw, ox, 2 * (oy + y), x as int, 2, 3, tx as int, py, c);
                    }
                    assert(self.previous_frame@[byte_offset(cw, tx as int, 2 * ty, 3, 0)] == before[byte_offset(cw, tx as int, 2 * ty, 3, 0)]);
                    assert(self.previous_frame@[byte_offset(cw, tx as int, 2 * ty, 3, 1)] == before[byte_offset(cw, tx as int, 2 * ty, 3, 1)]);
                    assert(self.previous_frame@[byte_offset(cw, tx as int, 2 * ty, 3, 2)] == before[byte_offset(cw, tx as int, 2 * ty, 3, 2)]);
                    assert(self.previous_frame@[byte_offset(cw, tx as int, 2 * ty + 1, 3, 0)] == before[byte_offset(cw, tx as int, 2 * ty + 1, 3, 0)]);
                    assert(self.previous_frame@[byte_offset(cw, tx as int, 2 * ty + 1, 3, 1)] == before[byte_offset(cw, tx as int, 2 * ty + 1, 3, 1)]);
                    assert(self.previous_frame@[byte_offset(cw, tx as int, 2 * ty + 1, 3, 2)] == before[byte_offset(cw, tx as int, 2 * ty + 1, 3, 2)]);
                }
                let fi_top: usize = (fy as usize * frame.width as usize + x as usize) * 3;
                let fi_bottom: usize = ((fy + 1) as usize * frame.width as usize + x as usize) * 3;
                let ci_top: usize = (top_row as usize * self.width as usize + tx as usize) * 3;
                let ci_bottom: usize = ((top_row + 1) as usize * self.width as usize + tx as usize) * 3;
                let top = Rgb { r: frame.pixels[fi_top], g: frame.pixels[fi_top + 1], b: frame.pixels[fi_top + 2] };
                let bottom = Rgb {
                    r: frame.pixels[fi_bottom],
                    g: frame.pixels[fi_bottom + 1],
                    b: frame.pixels[fi_bottom + 2],
                };
                let ghost prev = self.previous_frame@;
                assert(ci_bottom == ci_top + 3 * cw) by (nonlinear_arith)
                    requires
                        ci_top == ((2 * ty) * cw + tx) * 3,
                        ci_bottom == ((2 * ty + 1) * cw + tx) * 3,
                ;
                assert(top == rgb_at(pixels, fw, x as int, 2 * y));
                assert(bottom == rgb_at(pixels, fw, x as int, 2 * y + 1));
                assert(byte_offset(cw, tx as int, 2 * ty, 3, 0) == ci_top);
                assert(byte_offset(cw, tx as int, 2 * ty, 3, 1) == ci_top + 1);
                assert(byte_offset(cw, tx as int, 2 * ty, 3, 2) == ci_top + 2);
                assert(byte_offset(cw, tx as int, 2 * ty + 1, 3, 0) == ci_bottom);
                assert(byte_offset(cw, tx as int, 2 * ty + 1, 3, 1) == ci_bottom + 1);
                assert(byte_offset(cw, tx as int, 2 * ty + 1, 3, 2) == ci_bottom + 2);
                if top.r != self.previous_frame[ci_top] || top.g != self.previous_frame[ci_top + 1]
                    || top.b != self.previous_frame[ci_top + 2] || bottom.r != self.previous_frame[ci_bottom]
                    || bottom.g != self.previous_frame[ci_bottom + 1] || bottom.b
                    != self.previous_frame[ci_bottom + 2] {
                    let ghost ops = out@;
                    out.push(HalfBlock { x: tx, y: ty, top, bottom });
                    write_rgb(&mut self.previous_frame, ci_top, top);
                    write_rgb(&mut self.previous_frame, ci_bottom, bottom);
                    assert(out@.drop_last() =~= ops);
                    assert(self.previous_frame@ == paint_block(prev, cw, out@.last()));
                }
                proof {
                    let now = self.previous_frame@;
                    assert forall|j: int|
                        0 <= j < now.len() && !(ci_top <= j < ci_top + 3) && !(ci_bottom <= j < ci_bottom + 3)
                            implies now[j] == prev[j] by {}
                    assert forall|tx2: int, py: int, c: int|
                        ox <= tx2 < ox + rw && 2 * oy <= py < 2 * oy + 2 * y && 0 <= c < 3
                            implies #[trigger] now[byte_offset(cw, tx2, py, 3, c)]
                            == pixels[byte_offset(fw, tx2 - ox, py - 2 * oy, 3, c)] by {
                        let j = byte_offset(cw, tx2, py, 3, c);
                        lemma_grid_offset_bound(cw, ch, 3, tx2, py, c);
                        assert(prev[j] == pixels[byte_offset(fw, tx2 - ox, py - 2 * oy, 3, c)]);
                        if ci_top <= j < ci_top + 3 {
                            lemma_grid_offset_unique(cw, 3, tx2, py, c, tx as int, 2 * ty, j - ci_top);
                        }
                        if ci_bottom <= j < ci_bottom + 3 {
                            lemma_grid_offset_unique(cw, 3, tx2, py, c, tx as int, 2 * ty + 1, j - ci_bottom);
                        }
                    }
                    assert forall|tx2: int, py: int, c: int|
                        ox <= tx2 < ox + x + 1 && 2 * (oy + y) <= py < 2 * (oy + y) + 2 && 0 <= c < 3
                            implies #[trigger] now[byte_offset(cw, tx2, py, 3, c)]
                            == pixels[byte_offset(fw, tx2 - ox, py - 2 * oy, 3, c)] by {
                        let j = byte_offset(cw, tx2, py, 3, c);
                        lemma_grid_offset_bound(cw, ch, 3, tx2, py, c);
                        if tx2 < ox + x {
                            assert(prev[j] == pixels[byte_offset(fw, tx2 - ox, py - 2 * oy, 3, c)]);
                            if ci_top <= j < ci_top + 3 {
                                lemma_grid_offset_unique(cw, 3, tx2, py, c, tx as int, 2 * ty, j - ci_top);
                            }
                            if ci_bottom <= j < ci_bottom + 3 {
                                lemma_grid_offset_unique(cw, 3, tx2, py, c, tx as int, 2 * ty + 1, j - ci_bottom);
                            }
                        } else {
                            assert(tx2 == tx);
                            if py == 2 * ty {
                                assert(j == ci_top + c);
                            } else {
                                assert(j == ci_bottom + c);
                            }
                        }
                    }
                    assert forall|i: int|
                        0 <= i < before.len() && now[i] != before[i] implies in_rect(i, cw, ox, 2 * oy, rw, 2 * y, 3)
                            || in_rect(i, cw, ox, 2 * (oy + y), x + 1, 2, 3) by {
                        if ci_top <= i < ci_top + 3 {
                            assert(i == byte_offset(cw, tx as int, 2 * (oy + y), 3, i - ci_top));
                        } else if ci_bottom <= i < ci_bottom + 3 {
                            assert(i == byte_offset(cw, tx as int, 2 * (oy + y) + 1, 3, i - ci_bottom));
                        } else {
                            assert(now[i] == prev[i]);
                            if !in_rect(i, cw, ox, 2 * oy, rw, 2 * y, 3) {
                                assert(in_rect(i, cw, ox, 2 * (oy + y), x as int, 2, 3));
                                let (x2, y2, c2) = choose|x2: int, y2: int, c2: int|
                                    ox <= x2 < ox + x && 2 * (oy + y) <= y2 < 2 * (oy + y) + 2 && 0 <= c2 < 3 && i
                                        == #[trigger] byte_offset(cw, x2, y2, 3, c2);
                                assert(i == byte_offset(cw, x2, y2, 3, c2));
                            }
                        }
                    }
                    assert(out@ == blocks(before, cw, pixels, fw, ox, oy, rw, y as int) + row_blocks(
                        before,
                        cw,
                        pixels,
                        fw,
                        ox,
                        oy,
                        y as int,
                        x + 1,
                    ));
                }
                x = x + 1;
            }
            proof {
                let now = self.previous_frame@;
                assert forall|tx2: int, py: int, c: int|
                    ox <= tx2 < ox + rw && 2 * oy <= py < 2 * oy + 2 * (y + 1) && 0 <= c < 3
                        implies #[trigger] now[byte_offset(cw, tx2, py, 3, c)]
                        == pixels[byte_offset(fw, tx2 - ox, py - 2 * oy, 3, c)] by {
                    if py >= 2 * (oy + y) {
                        assert(now[byte_offset(cw, tx2, py, 3, c)] == pixels[byte_offset(fw, tx2 - ox, py - 2 * oy, 3, c)]);
                    }
                }
                assert forall|i: int|
                    0 <= i < before.len() && now[i] != before[i] implies in_rect(i, cw, ox, 2 * oy, rw, 2 * (y + 1), 3) by {
                    if in_rect(i, cw, ox, 2 * oy, rw, 2 * y, 3) {
                        let (x2, y2, c2) = choose|x2: int, y2: int, c2: int|
                            ox <= x2 < ox + rw && 2 * oy <= y2 < 2 * oy + 2 * y && 0 <= c2 < 3 && i
                                == #[trigger] byte_offset(cw, x2, y2, 3, c2);
                        assert(i == byte_offset(cw, x2, y2, 3, c2));
                    } else {
                        let (x2, y2, c2) = choose|x2: int, y2: int, c2: int|
                            ox <= x2 < ox + x && 2 * (oy + y) <= y2 < 2 * (oy + y) + 2 && 0 <= c2 < 3 && i
                                == #[trigger] byte_offset(cw, x2, y2, 3, c2);
                        assert(i == byte_offset(cw, x2, y2, 3, c2));
                    }
                }
            }
            y = y + 1;
        }
        proof {
            lemma_blit_from_pointwise(before, self.previous_frame@, cw, ch, pixels, fw, ox, 2 * oy, rw, 2 * rh, 3);
        }
        out
    }
}

/// Once the canvas holds the frame over a rectangle, drawing the frame
/// there again repaints none of the first `n` cells of row `y`.
proof fn lemma_row_blocks_of_blit(
    canvas: Seq<u8>,
    cw: int,
    ch: int,
    pixels: Seq<u8>,
    fw: int,
    ox: int,
    oy: int,
    w: int,
    h: int,
    y: int,
    n: int,
)
    requires
        canvas.len() == cw * ch * 3,
        0 <= ox,
        0 <= oy,
        ox + w <= cw,
        2 * (oy + h) <= ch,
        0 <= y < h,
        n <= w,
    ensures
        row_blocks(blit(canvas, cw, pixels, fw, ox, 2 * oy, w, 2 * h, 3), cw, pixels, fw, ox, oy, y, n)
            == Seq::<HalfBlock>::empty(),
    decreases n,
{
    if n > 0 {
        let x = n - 1;
        lemma_row_blocks_of_blit(canvas, cw, ch, pixels, fw, ox, oy, w, h, y, x);
        lemma_blit_at(canvas, cw, ch, pixels, fw, ox, 2 * oy, w, 2 * h, 3, x, 2 * y, 0);
        lemma_blit_at(canvas, cw, ch, pixels, fw, ox, 2 * oy, w, 2 * h, 3, x, 2 * y, 1);
        lemma_blit_at(canvas, cw, ch, pixels, fw, ox, 2 * oy, w, 2 * h, 3, x, 2 * y, 2);
        lemma_blit_at(canvas, cw, ch, pixels, fw, ox, 2 * oy, w, 2 * h, 3, x, 2 * y + 1, 0);
        lemma_blit_at(canvas, cw, ch, pixels, fw, ox, 2 * oy, w, 2 * h, 3, x, 2 * y + 1, 1);
        lemma_blit_at(canvas, cw, ch, pixels, fw, ox, 2 * oy, w, 2 * h, 3, x, 2 * y + 1, 2);
        assert(2 * y + 2 * oy == 2 * (y + oy));
    }
}

/// Once the canvas holds the frame over a rectangle, drawing the frame
/// there again repaints none of the first `n` rows.
proof fn lemma_blocks_of_blit(
    canvas: Seq<u8>,
    cw: int,
    ch: int,
    pixels: Seq<u8>,
    fw: int,
    ox: int,
    oy: int,
    w: int,
    h: int,
    n: int,
)
    requires
        canvas.len() == cw * ch * 3,
        0 <= ox,
        0 <= oy,
        ox + w <= cw,
        2 * (oy + h) <= ch,
        n <= h,
    ensures
        blocks(blit(canvas, cw, pixels, fw, ox, 2 * oy, w, 2 * h, 3), cw, pixels, fw, ox, oy, w, n)
            == Seq::<HalfBlock>::empty(),
    decreases n,
{
    if n > 0 {
        lemma_blocks_of_blit(canvas, cw, ch, pixels, fw, ox, oy, w, h, n - 1);
        lemma_row_blocks_of_blit(canvas, cw, ch, pixels, fw, ox, oy, w, h, n - 1, w);
    }
}

/// Rows of no cell repaint nothing.
proof fn lemma_blocks_of_empty_rows(
    canvas: Seq<u8>,
    cw: int,
    pixels: Seq<u8>,
    fw: int,
    ox: int,
    oy: int,
    w: int,
    n: int,
)
    requires
        w <= 0,
    ensures
        blocks(canvas, cw, pixels, fw, ox, oy, w, n) == Seq::<HalfBlock>::empty(),
    decreases n,
{
    if n > 0 {
        lemma_blocks_of_empty_rows(canvas, cw, pixels, fw, ox, oy, w, n - 1);
        assert(row_blocks(canvas, cw, pixels, fw, ox, oy, n - 1, w) == Seq::<HalfBlock>::empty());
        assert(Seq::<HalfBlock>::empty() + Seq::<HalfBlock>::empty() =~= Seq::<HalfBlock>::empty());
    }
}

/// Drawing a frame twice in a row at the same place repaints nothing the
/// second time: the first draw leaves the canvas holding exactly what the
/// second would paint.
pub proof fn lemma_redraw_paints_nothing(
    r: UnicodeRenderer,
    frame: Frame,
    offset_x: u16,
    offset_y: u16,
    cells_w: u16,
    cells_h: u16,
)
    requires
        r.inv(),
    ensures
        ({
            let w = r.shown_columns(frame.width as int, cells_w as int, offset_x as int);
            let h = r.shown_rows(frame.height as int, cells_h as int, offset_y as int);
            let drawn = blit(
                r.canvas(),
                r.columns(),
                frame.pixels@,
                frame.width as int,
                offset_x as int,
                2 * offset_y,
                w,
                2 * h,
                3,
            );
            blocks(drawn, r.columns(), frame.pixels@, frame.width as int, offset_x as int, offset_y as int, w, h)
                == Seq::<HalfBlock>::empty()
        }),
{
    let w = r.shown_columns(frame.width as int, cells_w as int, offset_x as int);
    let h = r.shown_rows(frame.height as int, cells_h as int, offset_y as int);
    let drawn = blit(
        r.canvas(),
        r.columns(),
        frame.pixels@,
        frame.width as int,
        offset_x as int,
        2 * offset_y,
        w,
        2 * h,
        3,
    );
    if w > 0 && h > 0 {
        lemma_blocks_of_blit(
            r.canvas(),
            r.columns(),
            2 * r.rows(),
            frame.pixels@,
            frame.width as int,
            offset_x as int,
            offset_y as int,
            w,
            h,
            h,
        );
    } else if w <= 0 {
        lemma_blocks_of_empty_rows(drawn, r.columns(), frame.pixels@, frame.width as int, offset_x as int, offset_y as int, w, h);
    }
}

/// A draw whose `cells_w x cells_h` cells fit both the frame and the
/// terminal shows every one of them: afterwards each cell of that block at
/// `(offset_x, offset_y)` holds the frame's two pixels.
pub proof fn lemma_fitting_draw_shows_every_cell(
    r: UnicodeRenderer,
    frame: Frame,
    offset_x: u16,
    offset_y: u16,
    cells_w: u16,
    cells_h: u16,
)
    requires
        r.inv(),
        cells_w <= frame.width,
        2 * cells_h <= frame.height,
        offset_x + cells_w <= r.columns(),
        offset_y + cells_h <= r.rows(),
    ensures
        forall|x: int, y: int, c: int|
            0 <= x < cells_w && 0 <= y < 2 * cells_h && 0 <= c < 3 ==> #[trigger] blit(
                r.canvas(),
                r.columns(),
                frame.pixels@,
                frame.width as int,
                offset_x as int,
                2 * offset_y,
                r.shown_columns(frame.width as int, cells_w as int, offset_x as int),
                2 * r.shown_rows(frame.height as int, cells_h as int, offset_y as int),
                3,
            )[byte_offset(r.columns(), x + offset_x, y + 2 * offset_y, 3, c)] == frame.pixels@[byte_offset(
                frame.width as int,
                x,
                y,
                3,
                c,
            )],
{
    assert(r.shown_columns(frame.width as int, cells_w as int, offset_x as int) == cells_w);
    assert(r.shown_rows(frame.height as int, cells_h as int, offset_y as int) == cells_h);
    assert forall|x: int, y: int, c: int| 0 <= x < cells_w && 0 <= y < 2 * cells_h && 0 <= c < 3 implies #[trigger] blit(
        r.canvas(),
        r.columns(),
        frame.pixels@,
        frame.width as int,
        offset_x as int,
        2 * offset_y,
        r.shown_columns(frame.width as int, cells_w as int, offset_x as int),
        2 * r.shown_rows(frame.height as int, cells_h as int, offset_y as int),
        3,
    )[byte_offset(r.columns(), x + offset_x, y + 2 * offset_y, 3, c)] == frame.pixels@[byte_offset(
        frame.width as int,
        x,
        y,
        3,
        c,
    )] by {
        lemma_blit_at(
            r.canvas(),
            r.columns(),
            2 * r.rows(),
            frame.pixels@,
            frame.width as int,
            offset_x as int,
            2 * offset_y,
            cells_w as int,
            2 * cells_h,
            3,
            x,
            y,
            c,
        );
    }
}

} // verus!
