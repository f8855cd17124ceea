use vstd::prelude::*;
use super::{
    min3, room, grid_offset, byte_offset, covers, blit, in_rect, lemma_grid_offset_unique, lemma_grid_offset_bound,
    lemma_covers_bound, lemma_blit_from_pointwise, lemma_not_in_rect, lemma_blit_at,
};

verus! {

/// Position in the ramp `" .:-=+*#%@"` of the glyph drawn for a luminance.
pub open spec fn ramp_index(luminance: u8) -> int {
    luminance as int * 9 / 255
}

/// The glyph at a position of the ramp `" .:-=+*#%@"`, dark to light.
pub open spec fn ramp_glyph(index: int) -> Seq<char> {
    if index == 0 { seq![' '] }
    else if index == 1 { seq!['.'] }
    else if index == 2 { seq![':'] }
    else if index == 3 { seq!['-'] }
    else if index == 4 { seq!['='] }
    else if index == 5 { seq!['+'] }
    else if index == 6 { seq!['*'] }
    else if index == 7 { seq!['#'] }
    else if index == 8 { seq!['%'] }
    else { seq!['@'] }
}

/// A frame reduced to one luminance level per pixel: `width * height`
/// levels, row after row.
pub struct LumaFrame {
    pub width: u16,
    pub height: u16,
    pub levels: Vec<u8>,
}

/// One terminal cell to redraw: move to `(x, y)` and print the ramp glyph
/// of `luminance` (see `AsciiRenderer::get_char`).
#[derive(Clone, Copy, Debug, PartialEq, Eq, Structural)]
pub struct Glyph {
    pub x: u16,
    pub y: u16,
    pub luminance: u8,
}

/// A canvas after a redraw: the cell of the redraw holds its luminance.
pub open spec fn draw_glyph(canvas: Seq<u8>, cw: int, g: Glyph) -> Seq<u8> {
    canvas.update(grid_offset(cw, g.x as int, g.y as int, 1), g.luminance)
}

/// A canvas after a list of redraws, applied in order.
pub open spec fn apply_glyphs(canvas: Seq<u8>, cw: int, ops: Seq<Glyph>) -> Seq<u8>
    decreases ops.len(),
{
    if ops.len() == 0 {
        canvas
    } else {
        draw_glyph(apply_glyphs(canvas, cw, ops.drop_last()), cw, ops.last())
    }
}

/// Frame pixel `(x, y)`, drawn at `(x + ox, y + oy)`, has a luminance
/// other than the one last drawn there.
pub open spec fn cell_changed(
    canvas: Seq<u8>,
    cw: int,
    levels: Seq<u8>,
    fw: int,
    ox: int,
    oy: int,
    x: int,
    y: int,
) -> bool {
    levels[byte_offset(fw, x, y, 1, 0)] != canvas[byte_offset(cw, x + ox, y + oy, 1, 0)]
}

/// The redraws of the first `n` pixels of frame row `y`, left to right.
pub open spec fn row_glyphs(
    canvas: Seq<u8>,
    cw: int,
    levels: Seq<u8>,
    fw: int,
    ox: int,
    oy: int,
    y: int,
    n: int,
) -> Seq<Glyph>
    decreases n,
{
    if n <= 0 {
        seq![]
    } else {
        let x = n - 1;
        let rest = row_glyphs(canvas, cw, levels, fw, ox, oy, y, x);
        if cell_changed(canvas, cw, levels, fw, ox, oy, x, y) {
            rest.push(
                Glyph { x: (x + ox) as u16, y: (y + oy) as u16, luminance: levels[byte_offset(fw, x, y, 1, 0)] },
            )
        } else {
            rest
        }
    }
}

/// The redraws of the rectangle `[0, w) x [0, h)` of the frame drawn at
/// `(ox, oy)`, row after row: one for each pixel whose luminance differs
/// from the one that the canvas holds for its cell.
pub open spec fn glyphs(
    canvas: Seq<u8>,
    cw: int,
    levels: Seq<u8>,
    fw: int,
    ox: int,
    oy: int,
    w: int,
    h: int,
) -> Seq<Glyph>
    decreases h,
{
    if h <= 0 {
        seq![]
    } else {
        glyphs(canvas, cw, levels, fw, ox, oy, w, h - 1) + row_glyphs(canvas, cw, levels, fw, ox, oy, h - 1, w)
    }
}

/// Character-ramp renderer: one terminal cell per frame pixel, drawn as a
/// character of the ramp `" .:-=+*#%@"` chosen by the pixel's luminance.
/// It remembers the luminance last drawn in every cell (the canvas) and
/// redraws only the cells whose luminance changes.
pub struct AsciiRenderer {
    width: u16,
    height: u16,
    previous_frame: Vec<u8>,
}

impl AsciiRenderer {
    /// Width of the terminal, in cells.
    pub closed spec fn columns(&self) -> int {
        self.width as int
    }

    /// Height of the terminal, in cells.
    pub closed spec fn rows(&self) -> int {
        self.height as int
    }

    /// The luminance last drawn in each cell, row after row.
    pub closed spec fn canvas(&self) -> Seq<u8> {
        self.previous_frame@
    }

    /// The canvas holds one luminance per cell.
    pub open spec fn inv(&self) -> bool {
        self.canvas().len() == self.columns() * self.rows()
    }

    /// Columns of a frame `frame_width` pixels wide that a draw at
    /// `offset_x` limited to `cells_w` cells shows.
    pub open spec fn shown_columns(&self, frame_width: int, cells_w: int, offset_x: int) -> int {
        min3(frame_width, cells_w, room(self.columns(), offset_x))
    }

    /// Rows of a frame `frame_height` pixels high that a draw at
    /// `offset_y` limited to `cells_h` cells shows.
    pub open spec fn shown_rows(&self, frame_height: int, cells_h: int, offset_y: int) -> int {
        min3(frame_height, cells_h, room(self.rows(), offset_y))
    }

    /// A renderer for an empty terminal.
    pub fn new() -> (r: Self)
        ensures
            r.columns() == 0,
            r.rows() == 0,
            r.canvas() == Seq::<u8>::empty(),
            r.inv(),
    {
        AsciiRenderer { width: 0, height: 0, previous_frame: Vec::new() }
    }

    /// The glyph of the ramp that stands for a luminance.
    pub fn get_char(luminance: u8) -> (glyph: &'static str)
        ensures
            glyph@ == ramp_glyph(ramp_index(luminance)),
            glyph@ == seq![seq![' ', '.', ':', '-', '=', '+', '*', '#', '%', '@'][ramp_index(luminance)]],
    {
        proof {
            lemma_glyph_is_ramp_character(luminance);
        }
        let idx: usize = (luminance as usize * 9) / 255;
        if idx == 0 {
            proof { reveal_strlit(" "); }
            " "
        } else if idx == 1 {
            proof { reveal_strlit("."); }
            "."
        } else if idx == 2 {
            proof { reveal_strlit(":"); }
            ":"
        } else if idx == 3 {
            proof { reveal_strlit("-"); }
            "-"
        } else if idx == 4 {
            proof { reveal_strlit("="); }
            "="
        } else if idx == 5 {
            proof { reveal_strlit("+"); }
            "+"
        } else if idx == 6 {
            proof { reveal_strlit("*"); }
            "*"
        } else if idx == 7 {
            proof { reveal_strlit("#"); }
            "#"
        } else if idx == 8 {
            proof { reveal_strlit("%"); }
            "%"
        } else {
            proof { reveal_strlit("@"); }
            "@"
        }
    }

    /// Starts drawing on a terminal of `width x height` cells, all of
    /// luminance zero.
    pub fn init(&mut self, width: u16, height: u16)
        requires
            width * height <= usize::MAX,
        ensures
            final(self).columns() == width,
            final(self).rows() == height,
            final(self).canvas() == Seq::new((width * height) as nat, |i: int| 0u8),
            final(self).inv(),
    {
        self.resize(width, height);
    }

    /// Takes the new size of the terminal; every cell counts as luminance
    /// zero.
    pub fn resize(&mut self, width: u16, height: u16)
        requires
            width * height <= usize::MAX,
        ensures
            final(self).columns() == width,
            final(self).rows() == height,
            final(self).canvas() == Seq::new((width * height) as nat, |i: int| 0u8),
            final(self).inv(),
    {
        self.width = width;
        self.height = height;
        let v: Vec<u8> = vec![0u8; width as usize * height as usize];
        assert(v@ =~= Seq::new((width * height) as nat, |i: int| 0u8));
        self.previous_frame = v;
    }

    /// Whether the terminal can show this renderer's output: always.
    pub fn supported() -> (r: bool)
        ensures
            r,
    {
        true
    }

    /// The resolution, in frame pixels, to decode for a terminal of
    /// `term_width x term_height` cells: one pixel per cell.
    pub fn get_logical_size(&self, term_width: u16, term_height: u16) -> (r: (u16, u16))
        ensures
            r == (term_width, term_height),
    {
        (term_width, term_height)
    }

    /// Draws `frame` with its top-left pixel at cell `(offset_x, offset_y)`,
    /// showing at most `cells_w x cells_h` of its pixels and none past the
    /// terminal's edge. Returns the cells to redraw, in row-major order:
    /// those whose luminance differs from the canvas; the canvas then holds
    /// the frame over the shown rectangle and is unchanged elsewhere.
    pub fn render_frame(
        &mut self,
        frame: &LumaFrame,
        offset_x: u16,
        offset_y: u16,
        cells_w: u16,
        cells_h: u16,
    ) -> (out: Vec<Glyph>)
        requires
            old(self).inv(),
            covers(
                frame.levels@.len() as int,
                frame.width as int,
                old(self).shown_columns(frame.width as int, cells_w as int, offset_x as int),
                old(self).shown_rows(frame.height as int, cells_h as int, offset_y as int),
                1,
            ),
        ensures
            final(self).columns() == old(self).columns(),
            final(self).rows() == old(self).rows(),
            final(self).inv(),
            final(self).canvas() == blit(
                old(self).canvas(),
                old(self).columns(),
                frame.levels@,
                frame.width as int,
                offset_x as int,
                offset_y as int,
                old(self).shown_columns(frame.width as int, cells_w as int, offset_x as int),
                old(self).shown_rows(frame.height as int, cells_h as int, offset_y as int),
                1,
            ),
            final(self).canvas() == apply_glyphs(old(self).canvas(), old(self).columns(), out@),
            forall|k: int|
                0 <= k < out@.len() ==> offset_x <= #[trigger] out@[k].x < offset_x + old(self).shown_columns(
                    frame.width as int,
                    cells_w as int,
                    offset_x as int,
                ) && offset_y <= out@[k].y < offset_y + old(self).shown_rows(
                    frame.height as int,
                    cells_h as int,
                    offset_y as int,
                ),
            out@ == glyphs(
                old(self).canvas(),
                old(self).columns(),
                frame.levels@,
                frame.width as int,
                offset_x as int,
                offset_y as int,
                old(self).shown_columns(frame.width as int, cells_w as int, offset_x as int),
                old(self).shown_rows(frame.height as int, cells_h as int, offset_y as int),
            ),
    {
        let ghost before = self.previous_frame@;
        let ghost cw = self.width as int;
        let ghost ch = self.height as int;
        let ghost fw = frame.width as int;
        let ghost levels = frame.levels@;
        let available_w: u16 = self.width.saturating_sub(offset_x);
        let available_h: u16 = self.height.saturating_sub(offset_y);
        let mut render_w: u16 = if frame.width < cells_w { frame.width } else { cells_w };
        if available_w < render_w {
            render_w = available_w;
        }
        let mut render_h: u16 = if frame.height < cells_h { frame.height } else { cells_h };
        if available_h < render_h {
            render_h = available_h;
        }
        let ghost ox = offset_x as int;
        let ghost oy = offset_y as int;
        let ghost rw = render_w as int;
        let ghost rh = render_h as int;
        assert(rw == self.shown_columns(fw, cells_w as int, ox));
        assert(rh == self.shown_rows(frame.height as int, cells_h as int, oy));
        assert(before.len() == cw * ch * 1);
        let mut out: Vec<Glyph> = Vec::new();
        let mut y: u16 = 0;
        while y < render_h
            invariant
                self.width == cw,
                self.height == ch,
                frame.levels@ == levels,
                frame.width == fw,
                offset_x == ox,
                offset_y == oy,
                render_w == rw,
                render_h == rh,
                before.len() == cw * ch * 1,
                rw > 0 && rh > 0 ==> ox + rw <= cw && oy + rh <= ch,
                rw <= fw,
                covers(levels.len() as int, fw, rw, rh, 1),
                0 <= y <= rh,
                self.previous_frame@.len() == before.len(),
                self.previous_frame@ == apply_glyphs(before, cw, out@),
                forall|k: int| 0 <= k < out@.len() ==> ox <= #[trigger] out@[k].x < ox + rw,
                forall|k: int| 0 <= k < out@.len() ==> oy <= #[trigger] out@[k].y < oy + rh,
                forall|tx: int, ty: int, c: int|
                    ox <= tx < ox + rw && oy <= ty < oy + y && 0 <= c < 1
                        ==> #[trigger] self.previous_frame@[byte_offset(cw, tx, ty, 1, c)]
                        == levels[byte_offset(fw, tx - ox, ty - oy, 1, c)],
                forall|i: int|
                    0 <= i < before.len() && self.previous_frame@[i] != before[i] ==> in_rect(
                        i,
                        cw,
                        ox,
                        oy,
                        rw,
                        y as int,
                        1,
                    ),
                out@ == glyphs(before, cw, levels, fw, ox, oy, rw, y as int),
            decreases rh - y,
        {
            let mut x: u16 = 0;
            while x < render_w
                invariant
                    self.width == cw,
                    self.height == ch,
                    frame.levels@ == levels,
                    frame.width == fw,
                    offset_x == ox,
                    offset_y == oy,
                    render_w == rw,
                    render_h == rh,
                    before.len() == cw * ch * 1,
                    rw > 0 ==> ox + rw <= cw && oy + rh <= ch,
                    rw <= fw,
                    covers(levels.len() as int, fw, rw, rh, 1),
                    0 <= y < rh,
                    0 <= x <= rw,
                    self.previous_frame@.len() == before.len(),
                    self.previous_frame@ == apply_glyphs(before, cw, out@),
                    forall|k: int| 0 <= k < out@.len() ==> ox <= #[trigger] out@[k].x < ox + rw,
                forall|k: int| 0 <= k < out@.len() ==> oy <= #[trigger] out@[k].y < oy + rh,
                    forall|tx: int, ty: int, c: int|
                        ox <= tx < ox + rw && oy <= ty < oy + y && 0 <= c < 1
                            ==> #[trigger] self.previous_frame@[byte_offset(cw, tx, ty, 1, c)]
                            == levels[byte_offset(fw, tx - ox, ty - oy, 1, c)],
                    forall|tx: int, ty: int, c: int|
                        ox <= tx < ox + x && oy + y <= ty < oy + y + 1 && 0 <= c < 1
                            ==> #[trigger] self.previous_frame@[byte_offset(cw, tx, ty, 1, c)]
                            == levels[byte_offset(fw, tx - ox, ty - oy, 1, c)],
                    forall|i: int|
                        0 <= i < before.len() && self.previous_frame@[i] != before[i] ==> in_rect(
                            i,
                            cw,
                            ox,
                            oy,
                            rw,
                            y as int,
                            1,
                        ) || in_rect(i, cw, ox, oy + y, x as int, 1, 1),
                    out@ == glyphs(before, cw, levels, fw, ox, oy, rw, y as int) + row_glyphs(
                        before,
                        cw,
                        levels,
                        fw,
                        ox,
                        oy,
                        y as int,
                        x as int,
                    ),
                decreases rw - x,
            {
                // Both buffers are held in memory, so their lengths bound the offsets below.
                let _frame_len: usize = frame.levels.len();
                let _canvas_len: usize = self.previous_frame.len();
                let tx: u16 = x + offset_x;
                let ty: u16 = y + offset_y;
                proof {
                    lemma_covers_bound(levels.len() as int, fw, rw, rh, 1, x as int, y as int, 0);
                    lemma_grid_offset_bound(cw, ch, 1, tx as int, ty as int, 0);
                    assert(0 <= (y as int) * fw) by (nonlinear_arith)
                        requires
                            y >= 0,
                            fw >= 0,
                    ;
                    assert(0 <= (ty as int) * cw) by (nonlinear_arith)
                        requires
                            ty >= 0,
                            cw >= 0,
                    ;
                    lemma_not_in_rect(cw, ox, oy, rw, y as int, 1, tx as int, ty as int, 0);
                    lemma_not_in_rect(cw, ox, oy + y, x as int, 1, 1, tx as int, ty as int, 0);
                }
                let fi: usize = y as usize * frame.width as usize + x as usize;
                let ci: usize = ty as usize * self.width as usize + tx as usize;
                assert(byte_offset(fw, x as int, y as int, 1, 0) == fi);
                assert(byte_offset(cw, tx as int, ty as int, 1, 0) == ci);
                let luminance: u8 = frame.levels[fi];
                let ghost prev = self.previous_frame@;
                if luminance != self.previous_frame[ci] {
                    let ghost ops = out@;
                    out.push(Glyph { x: tx, y: ty, luminance });
                    self.previous_frame.set(ci, luminance);
                    assert(out@.drop_last() =~= ops);
                }
                proof {
                    let now = self.previous_frame@;
                    assert forall|tx2: int, ty2: int, c: int|
                        ox <= tx2 < ox + rw && oy <= ty2 < oy + y && 0 <= c < 1
                            implies #[trigger] now[byte_offset(cw, tx2, ty2, 1, c)]
                            == levels[byte_offset(fw, tx2 - ox, ty2 - oy, 1, c)] by {
                        let j = byte_offset(cw, tx2, ty2, 1, c);
                        lemma_grid_offset_bound(cw, ch, 1, tx2, ty2, c);
                        assert(prev[j] == levels[byte_offset(fw, tx2 - ox, ty2 - oy, 1, c)]);
                        if j == ci {
                            lemma_grid_offset_unique(cw, 1, tx2, ty2, c, tx as int, ty as int, 0);
                        }
                    }
                    assert forall|tx2: int, ty2: int, c: int|
                        ox <= tx2 < ox + x + 1 && oy + y <= ty2 < oy + y + 1 && 0 <= c < 1
                            implies #[trigger] now[byte_offset(cw, tx2, ty2, 1, c)]
                            == levels[byte_offset(fw, tx2 - ox, ty2 - oy, 1, c)] by {
                        let j = byte_offset(cw, tx2, ty2, 1, c);
                        lemma_grid_offset_bound(cw, ch, 1, tx2, ty2, c);
                        if tx2 < ox + x {
                            assert(prev[j] == levels[byte_offset(fw, tx2 - ox, ty2 - oy, 1, c)]);
                            if j == ci {
                                lemma_grid_offset_unique(cw, 1, tx2, ty2, c, tx as int, ty as int, 0);
                            }
                        } else {
                            assert(j == ci);
                        }
                    }
                    assert forall|i: int|
                        0 <= i < before.len() && now[i] != before[i] implies in_rect(i, cw, ox, oy, rw, y as int, 1)
                            || in_rect(i, cw, ox, oy + y, x + 1, 1, 1) by {
                        if i == ci {
                            assert(i == byte_offset(cw, tx as int, oy + y, 1, 0));
                        } else {
                            assert(now[i] == prev[i]);
                            if !in_rect(i, cw, ox, oy, rw, y as int, 1) {
                                assert(in_rect(i, cw, ox, oy + y, x as int, 1, 1));
                                let (x2, y2, c2) = choose|x2: int, y2: int, c2: int|
                                    ox <= x2 < ox + x && oy + y <= y2 < oy + y + 1 && 0 <= c2 < 1 && i
                                        == #[trigger] byte_offset(cw, x2, y2, 1, c2);
                                assert(i == byte_offset(cw, x2, y2, 1, c2));
                            }
                        }
                    }
                    assert(out@ == glyphs(before, cw, levels, fw, ox, oy, rw, y as int) + row_glyphs(
                        before,
                        cw,
                        levels,
                        fw,
                        ox,
                        oy,
                        y as int,
                        x + 1,
                    ));
                }
                x = x + 1;
            }
            proof {
                let now = self.previous_frame@;
                assert forall|tx2: int, ty2: int, c: int|
                    ox <= tx2 < ox + rw && oy <= ty2 < oy + y + 1 && 0 <= c < 1
                        implies #[trigger] now[byte_offset(cw, tx2, ty2, 1, c)]
                        == levels[byte_offset(fw, tx2 - ox, ty2 - oy, 1, c)] by {
                    if ty2 == oy + y {
                        assert(now[byte_offset(cw, tx2, ty2, 1, c)] == levels[byte_offset(fw, tx2 - ox, ty2 - oy, 1, c)]);
                    }
                }
                assert forall|i: int|
                    0 <= i < before.len() && now[i] != before[i] implies in_rect(i, cw, ox, oy, rw, y + 1, 1) by {
                    if in_rect(i, cw, ox, oy, rw, y as int, 1) {
                        let (x2, y2, c2) = choose|x2: int, y2: int, c2: int|
                            ox <= x2 < ox + rw && oy <= y2 < oy + y && 0 <= c2 < 1 && i
                                == #[trigger] byte_offset(cw, x2, y2, 1, c2);
                        assert(i == byte_offset(cw, x2, y2, 1, c2));
                    } else {
                        let (x2, y2, c2) = choose|x2: int, y2: int, c2: int|
                            ox <= x2 < ox + x && oy + y <= y2 < oy + y + 1 && 0 <= c2 < 1 && i
                                == #[trigger] byte_offset(cw, x2, y2, 1, c2);
                        assert(i == byte_offset(cw, x2, y2, 1, c2));
                    }
                }
            }
            y = y + 1;
        }
        proof {
            lemma_blit_from_pointwise(before, self.previous_frame@, cw, ch, levels, fw, ox, oy, rw, rh, 1);
        }
        out
    }
}

/// The ramp runs from dark to light: a brighter pixel never gets a darker
/// glyph; black gets the blank and full white the `@`.
pub proof fn lemma_ramp_is_monotonic(dark: u8, light: u8)
    requires
        dark <= light,
    ensures
        0 <= ramp_index(dark) <= ramp_index(light) <= 9,
        ramp_index(0) == 0,
        ramp_index(255) == 9,
{
    vstd::arithmetic::div_mod::lemma_div_is_ordered(dark as int * 9, light as int * 9, 255);
    vstd::arithmetic::div_mod::lemma_div_is_ordered(light as int * 9, 2295int, 255);
    vstd::arithmetic::div_mod::lemma_div_pos_is_pos(dark as int * 9, 255);
}

/// The glyph of a luminance `l` is the one character at position
/// `floor(l * 9 / 255)` of the ramp `" .:-=+*#%@"`.
pub proof fn lemma_glyph_is_ramp_character(l: u8)
    ensures
        0 <= ramp_index(l) < 10,
        ramp_glyph(ramp_index(l)) == seq![seq![' ', '.', ':', '-', '=', '+', '*', '#', '%', '@'][ramp_index(l)]],
{
    lemma_ramp_is_monotonic(l, 255);
    let ramp = seq![' ', '.', ':', '-', '=', '+', '*', '#', '%', '@'];
    let k = ramp_index(l);
    assert(ramp_glyph(k) =~= seq![ramp[k]]);
}

/// The ten glyphs are all different, and each one is drawn for some
/// luminance: the glyph tells the ramp position apart.
pub proof fn lemma_ramp_positions_distinct(i: int, j: int)
    requires
        0 <= i < 10,
        0 <= j < 10,
    ensures
        ramp_glyph(i) == ramp_glyph(j) <==> i == j,
        exists|l: u8| ramp_index(l) == i,
{
    if ramp_glyph(i) == ramp_glyph(j) {
        assert(ramp_glyph(i)[0] == ramp_glyph(j)[0]);
    }
    let witnesses = seq![0u8, 29u8, 57u8, 85u8, 114u8, 142u8, 170u8, 199u8, 227u8, 255u8];
    let l = witnesses[i];
    assert(ramp_index(l) == i) by {
        if i == 0 {} else if i == 1 {} else if i == 2 {} else if i == 3 {} else if i == 4 {}
        else if i == 5 {} else if i == 6 {} else if i == 7 {} else if i == 8 {} else {}
    }
}

/// Once the canvas holds the frame over a rectangle, drawing the frame
/// there again redraws none of the first `n` cells of row `y`.
proof fn lemma_row_glyphs_of_blit(
    canvas: Seq<u8>,
    cw: int,
    ch: int,
    levels: Seq<u8>,
    fw: int,
    ox: int,
    oy: int,
    w: int,
    h: int,
    y: int,
    n: int,
)
    requires
        canvas.len() == cw * ch * 1,
        0 <= ox,
        0 <= oy,
        ox + w <= cw,
        oy + h <= ch,
        0 <= y < h,
        n <= w,
    ensures
        row_glyphs(blit(canvas, cw, levels, fw, ox, oy, w, h, 1), cw, levels, fw, ox, oy, y, n)
            == Seq::<Glyph>::empty(),
    decreases n,
{
    if n > 0 {
        let x = n - 1;
        lemma_row_glyphs_of_blit(canvas, cw, ch, levels, fw, ox, oy, w, h, y, x);
        lemma_blit_at(canvas, cw, ch, levels, fw, ox, oy, w, h, 1, x, y, 0);
    }
}

/// Once the canvas holds the frame over a rectangle, drawing the frame
/// there again redraws none of the first `n` rows.
proof fn lemma_glyphs_of_blit(
    canvas: Seq<u8>,
    cw: int,
    ch: int,
    levels: Seq<u8>,
    fw: int,
    ox: int,
    oy: int,
    w: int,
    h: int,
    n: int,
)
    requires
        canvas.len() == cw * ch * 1,
        0 <= ox,
        0 <= oy,
        ox + w <= cw,
        oy + h <= ch,
        n <= h,
    ensures
        glyphs(blit(canvas, cw, levels, fw, ox, oy, w, h, 1), cw, levels, fw, ox, oy, w, n)
            == Seq::<Glyph>::empty(),
    decreases n,
{
    if n > 0 {
        lemma_glyphs_of_blit(canvas, cw, ch, levels, fw, ox, oy, w, h, n - 1);
        lemma_row_glyphs_of_blit(canvas, cw, ch, levels, fw, ox, oy, w, h, n - 1, w);
    }
}

/// Rows of no pixel redraw nothing.
proof fn lemma_glyphs_of_empty_rows(
    canvas: Seq<u8>,
    cw: int,
    levels: Seq<u8>,
    fw: int,
    ox: int,
    oy: int,
    w: int,
    n: int,
)
    requires
        w <= 0,
    ensures
        glyphs(canvas, cw, levels, fw, ox, oy, w, n) == Seq::<Glyph>::empty(),
    decreases n,
{
    if n > 0 {
        lemma_glyphs_of_empty_rows(canvas, cw, levels, fw, ox, oy, w, n - 1);
        assert(row_glyphs(canvas, cw, levels, fw, ox, oy, n - 1, w) == Seq::<Glyph>::empty());
        assert(Seq::<Glyph>::empty() + Seq::<Glyph>::empty() =~= Seq::<Glyph>::empty());
    }
}

/// Drawing a frame twice in a row at the same place redraws nothing the
/// second time: the first draw leaves the canvas holding exactly what the
/// second would draw.
pub proof fn lemma_redraw_paints_nothing(
    r: AsciiRenderer,
    frame: LumaFrame,
    offset_x: u16,
    offset_y: u16,
    cells_w: u16,
    cells_h: u16,
)
    requires
        r.inv(),
    ensures
        ({
            let w = r.shown_columns(frame.width as int, cells_w as int, offset_x as int);
            let h = r.shown_rows(frame.height as int, cells_h as int, offset_y as int);
            let drawn = blit(
                r.canvas(),
                r.columns(),
                frame.levels@,
                frame.width as int,
                offset_x as int,
                offset_y as int,
                w,
                h,
                1,
            );
            glyphs(drawn, r.columns(), frame.levels@, frame.width as int, offset_x as int, offset_y as int, w, h)
                == Seq::<Glyph>::empty()
        }),
{
    let w = r.shown_columns(frame.width as int, cells_w as int, offset_x as int);
    let h = r.shown_rows(frame.height as int, cells_h as int, offset_y as int);
    let drawn = blit(
        r.canvas(),
        r.columns(),
        frame.levels@,
        frame.width as int,
        offset_x as int,
        offset_y as int,
        w,
        h,
        1,
    );
    if w > 0 && h > 0 {
        lemma_glyphs_of_blit(
            r.canvas(),
            r.columns(),
            r.rows(),
            frame.levels@,
            frame.width as int,
            offset_x as int,
            offset_y as int,
            w,
            h,
            h,
        );
    } else if w <= 0 {
        lemma_glyphs_of_empty_rows(drawn, r.columns(), frame.levels@, frame.width as int, offset_x as int, offset_y as int, w, h);
    }
}

/// A draw whose `cells_w x cells_h` cells fit both the frame and the
/// terminal shows every one of them: afterwards each cell of that block at
/// `(offset_x, offset_y)` holds the frame's luminance.
pub proof fn lemma_fitting_draw_shows_every_cell(
    r: AsciiRenderer,
    frame: LumaFrame,
    offset_x: u16,
    offset_y: u16,
    cells_w: u16,
    cells_h: u16,
)
    requires
        r.inv(),
        cells_w <= frame.width,
        cells_h <= frame.height,
        offset_x + cells_w <= r.columns(),
        offset_y + cells_h <= r.rows(),
    ensures
        forall|x: int, y: int, c: int|
            0 <= x < cells_w && 0 <= y < cells_h as int && 0 <= c < 1 ==> #[trigger] blit(
                r.canvas(),
                r.columns(),
                frame.levels@,
                frame.width as int,
                offset_x as int,
                offset_y as int,
                r.shown_columns(frame.width as int, cells_w as int, offset_x as int),
                r.shown_rows(frame.height as int, cells_h as int, offset_y as int),
                1,
            )[byte_offset(r.columns(), x + offset_x, y + offset_y as int, 1, c)] == frame.levels@[byte_offset(
                frame.width as int,
                x,
                y,
                1,
                c,
            )],
{
    assert(r.shown_columns(frame.width as int, cells_w as int, offset_x as int) == cells_w);
    assert(r.shown_rows(frame.height as int, cells_h as int, offset_y as int) == cells_h);
    assert forall|x: int, y: int, c: int| 0 <= x < cells_w && 0 <= y < cells_h as int && 0 <= c < 1 implies #[trigger] blit(
        r.canvas(),
        r.columns(),
        frame.levels@,
        frame.width as int,
        offset_x as int,
        offset_y as int,
        r.shown_columns(frame.width as int, cells_w as int, offset_x as int),
        r.shown_rows(frame.height as int, cells_h as int, offset_y as int),
        1,
    )[byte_offset(r.columns(), x + offset_x, y + offset_y as int, 1, c)] == frame.levels@[byte_offset(
        frame.width as int,
        x,
        y,
        1,
        c,
    )] by {
        lemma_blit_at(
            r.canvas(),
            r.columns(),
            r.rows(),
            frame.levels@,
            frame.width as int,
            offset_x as int,
            offset_y as int,
            cells_w as int,
            cells_h as int,
            1,
            x,
            y,
            c,
        );
    }
}

} // verus!
