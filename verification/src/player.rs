use vstd::prelude::*;
use crate::render::{RenderMode, room};

verus! {

/// The size, in logical pixels, to scale a video to on a screen of
/// `screen_w x screen_h`, given the two sizes that keep the video's aspect
/// ratio: the full width with `height_at_full_width` rows, or the full
/// height with `width_at_full_height` columns. The full width is taken
/// when its height fits the screen.
pub fn fit_dimensions(
    screen_w: u16,
    screen_h: u16,
    height_at_full_width: u16,
    width_at_full_height: u16,
) -> (r: (u16, u16))
    ensures
        r == if height_at_full_width <= screen_h {
            (screen_w, height_at_full_width)
        } else {
            (width_at_full_height, screen_h)
        },
        r.1 <= screen_h,
{
    if height_at_full_width <= screen_h {
        (screen_w, height_at_full_width)
    } else {
        (width_at_full_height, screen_h)
    }
}

/// The height to decode frames at for a mode: the half-block renderer
/// draws two pixel rows per cell, so it drops an odd last row; the other
/// modes keep the height.
pub fn fit_height(mode: RenderMode, height: u16) -> (h: u16)
    ensures
        h == if mode == RenderMode::Unicode && height % 2 == 1 { height - 1 } else { height as int },
        mode == RenderMode::Unicode ==> h % 2 == 0,
        h <= height,
{
    if mode == RenderMode::Unicode && height % 2 != 0 {
        height - 1
    } else {
        height
    }
}

/// Where a frame goes on the terminal: its top-left cell, and how many
/// cells it may cover.
#[derive(Clone, Copy, Debug, PartialEq, Eq, Structural)]
pub struct Placement {
    pub offset_x: u16,
    pub offset_y: u16,
    pub cells_w: u16,
    pub cells_h: u16,
}

/// Frame pixels per terminal cell along one axis: the renderer's logical
/// size over the terminal's, and at least one.
pub open spec fn pixels_per_cell(logical: int, term: int) -> int {
    if logical / term >= 1 { logical / term } else { 1 }
}

/// A frame `target` logical pixels long covers as many cells as whole
/// groups of `logical / term` pixels fit in it (floor division), or one
/// cell per pixel when the renderer has fewer logical pixels than cells.
pub proof fn lemma_cells_of_target(target: int, logical: int, term: int)
    requires
        0 <= target,
        0 <= logical,
        0 < term,
    ensures
        logical >= term ==> logical / term >= 1 && (target / pixels_per_cell(logical, term)) * (logical / term)
            <= target < (target / pixels_per_cell(logical, term) + 1) * (logical / term),
        logical < term ==> target / pixels_per_cell(logical, term) == target,
{
    if logical >= term {
        vstd::arithmetic::div_mod::lemma_div_is_ordered(term, logical, term);
        vstd::arithmetic::div_mod::lemma_div_by_self(term);
        let k = logical / term;
        vstd::arithmetic::div_mod::lemma_fundamental_div_mod(target, k);
        assert(target % k < k) by {
            vstd::arithmetic::div_mod::lemma_mod_bound(target, k);
        }
        assert((target / k) * k <= target < (target / k + 1) * k) by (nonlinear_arith)
            requires
                target == k * (target / k) + target % k,
                0 <= target % k < k,
        ;
    } else {
        vstd::arithmetic::div_mod::lemma_basic_div(logical, term);
    }
}

/// Centres a frame decoded at `target_w x target_h` pixels on a terminal
/// of `term_w x term_h` cells, for a renderer whose logical resolution is
/// `logical_w x logical_h`: the frame covers `target / pixels_per_cell`
/// cells along each axis, and the offset splits the room left over in
/// two, the odd cell going to the right or bottom.
pub fn place_frame(
    term_w: u16,
    term_h: u16,
    logical_w: u16,
    logical_h: u16,
    target_w: u16,
    target_h: u16,
) -> (p: Placement)
    requires
        term_w > 0,
        term_h > 0,
    ensures
        p.cells_w == target_w as int / pixels_per_cell(logical_w as int, term_w as int),
        p.cells_h == target_h as int / pixels_per_cell(logical_h as int, term_h as int),
        p.offset_x == room(term_w as int, p.cells_w as int) / 2,
        p.offset_y == room(term_h as int, p.cells_h as int) / 2,
        logical_w >= term_w ==> p.cells_w * (logical_w / term_w) <= target_w < (p.cells_w + 1) * (logical_w
            / term_w),
        logical_w < term_w ==> p.cells_w == target_w,
        logical_h >= term_h ==> p.cells_h * (logical_h / term_h) <= target_h < (p.cells_h + 1) * (logical_h
            / term_h),
        logical_h < term_h ==> p.cells_h == target_h,
        p.cells_w <= term_w ==> 2 * p.offset_x + p.cells_w <= term_w <= 2 * p.offset_x + p.cells_w + 1,
        p.cells_h <= term_h ==> 2 * p.offset_y + p.cells_h <= term_h <= 2 * p.offset_y + p.cells_h + 1,
{
    let ratio_w: u16 = logical_w / term_w;
    let multiplier_w: u16 = if ratio_w >= 1 { ratio_w } else { 1 };
    let ratio_h: u16 = logical_h / term_h;
    let multiplier_h: u16 = if ratio_h >= 1 { ratio_h } else { 1 };
    let cells_w: u16 = target_w / multiplier_w;
    let cells_h: u16 = target_h / multiplier_h;
    let offset_x: u16 = term_w.saturating_sub(cells_w) / 2;
    let offset_y: u16 = term_h.saturating_sub(cells_h) / 2;
    proof {
        lemma_cells_of_target(target_w as int, logical_w as int, term_w as int);
        lemma_cells_of_target(target_h as int, logical_h as int, term_h as int);
    }
    Placement { offset_x, offset_y, cells_w, cells_h }
}

/// A key press, as far as the player tells keys apart.
#[derive(Clone, Copy, Debug, PartialEq, Eq, Structural)]
pub enum Key {
    Char(char),
    Esc,
    Other,
}

/// Whether a key press ends playback: `q` or Escape.
pub fn quits(key: Key) -> (r: bool)
    ensures
        r == (key == Key::Char('q') || key == Key::Esc),
{
    match key {
        Key::Char(c) => c == 'q',
        Key::Esc => true,
        Key::Other => false,
    }
}

} // verus!
