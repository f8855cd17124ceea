use vstd::prelude::*;
use vstd::arithmetic::div_mod::{lemma_fundamental_div_mod, lemma_fundamental_div_mod_converse};
use vstd::string::StrSliceExecFns;
use self::ansi::AnsiRenderer;
use self::unicode::UnicodeRenderer;
use self::kitty::KittyRenderer;
use self::ascii::AsciiRenderer;

pub mod ascii;
pub mod ansi;
pub mod unicode;
pub mod kitty;

verus! {

/// A decoded video frame: `width * height` pixels, packed as `RGBRGB...`
/// row after row.
pub struct Frame {
    pub width: u16,
    pub height: u16,
    pub pixels: Vec<u8>,
}

/// A colour, one byte per channel.
#[derive(Clone, Copy, Debug, PartialEq, Eq, Structural)]
pub struct Rgb {
    pub r: u8,
    pub g: u8,
    pub b: u8,
}

/// A way of drawing video in the terminal.
#[derive(Clone, Copy, Debug, PartialEq, Eq, Structural)]
pub enum RenderMode {
    /// Full blocks, one pixel per cell (`ansi`).
    Ansi,
    /// Upper half blocks, two pixels per cell (`unicode`).
    Unicode,
    /// Images through the Kitty graphics protocol (`kitty`).
    Kitty,
    /// Characters of a luminance ramp (`ascii`).
    Ascii,
}

/// The name by which a mode is chosen.
pub open spec fn mode_name(mode: RenderMode) -> Seq<char> {
    match mode {
        RenderMode::Ansi => seq!['a', 'n', 's', 'i'],
        RenderMode::Unicode => seq!['u', 'n', 'i', 'c', 'o', 'd', 'e'],
        RenderMode::Kitty => seq!['k', 'i', 't', 't', 'y'],
        RenderMode::Ascii => seq!['a', 's', 'c', 'i', 'i'],
    }
}

/// The mode whose name is `name`, if any.
pub open spec fn mode_named(name: Seq<char>) -> Option<RenderMode> {
    if name == mode_name(RenderMode::Ansi) {
        Some(RenderMode::Ansi)
    } else if name == mode_name(RenderMode::Unicode) {
        Some(RenderMode::Unicode)
    } else if name == mode_name(RenderMode::Kitty) {
        Some(RenderMode::Kitty)
    } else if name == mode_name(RenderMode::Ascii) {
        Some(RenderMode::Ascii)
    } else {
        None
    }
}

/// The characters of an ASCII byte string.
pub open spec fn ascii_chars(word: Seq<u8>) -> Seq<char> {
    word.map_values(|b: u8| b as char)
}

/// Whether `s` is exactly the ASCII word `word`.
fn equals_ascii_word(s: &str, word: &[u8]) -> (r: bool)
    requires
        forall|i: int| 0 <= i < word@.len() ==> word@[i] < 128,
    ensures
        r == (s@ == ascii_chars(word@)),
{
    if !s.is_ascii() {
        proof {
            if s@ == ascii_chars(word@) {
                assert(vstd::utf8::is_ascii_chars(s@));
            }
        }
        return false;
    }
    let n: usize = s.unicode_len();
    if n != word.len() {
        return false;
    }
    let mut i: usize = 0;
    while i < n
        invariant
            n == s@.len(),
            n == word@.len(),
            s.is_ascii(),
            forall|k: int| 0 <= k < word@.len() ==> word@[k] < 128,
            0 <= i <= n,
            forall|k: int| 0 <= k < i ==> s@[k] == #[trigger] ascii_chars(word@)[k],
        decreases n - i,
    {
        let b: u8 = s.get_ascii(i);
        if b != word[i] {
            assert(s@[i as int] != ascii_chars(word@)[i as int]);
            return false;
        }
        i = i + 1;
    }
    assert(s@ =~= ascii_chars(word@));
    true
}

/// The mode named `name`, if any.
pub fn parse_mode(name: &str) -> (mode: Option<RenderMode>)
    ensures
        mode == mode_named(name@),
{
    let ansi: [u8; 4] = [0x61, 0x6e, 0x73, 0x69];
    let unicode: [u8; 7] = [0x75, 0x6e, 0x69, 0x63, 0x6f, 0x64, 0x65];
    let kitty: [u8; 5] = [0x6b, 0x69, 0x74, 0x74, 0x79];
    let ascii: [u8; 5] = [0x61, 0x73, 0x63, 0x69, 0x69];
    assert(ascii_chars(ansi@) =~= mode_name(RenderMode::Ansi));
    assert(ascii_chars(unicode@) =~= mode_name(RenderMode::Unicode));
    assert(ascii_chars(kitty@) =~= mode_name(RenderMode::Kitty));
    assert(ascii_chars(ascii@) =~= mode_name(RenderMode::Ascii));
    if equals_ascii_word(name, ansi.as_slice()) {
        Some(RenderMode::Ansi)
    } else if equals_ascii_word(name, unicode.as_slice()) {
        Some(RenderMode::Unicode)
    } else if equals_ascii_word(name, kitty.as_slice()) {
        Some(RenderMode::Kitty)
    } else if equals_ascii_word(name, ascii.as_slice()) {
        Some(RenderMode::Ascii)
    } else {
        None
    }
}

/// One renderer of each mode.
pub enum AnyRenderer {
    Ansi(AnsiRenderer),
    Unicode(UnicodeRenderer),
    Kitty(KittyRenderer),
    Ascii(AsciiRenderer),
}

/// The renderer of mode `mode` as a fresh one comes: sized for an empty
/// terminal, and for Kitty at the lower resolution when `low` holds.
pub open spec fn fresh_renderer(r: AnyRenderer, mode: RenderMode, low: bool) -> bool {
    match r {
        AnyRenderer::Ansi(a) => mode == RenderMode::Ansi && a.columns() == 0 && a.rows() == 0 && a.inv(),
        AnyRenderer::Unicode(u) => mode == RenderMode::Unicode && u.columns() == 0 && u.rows() == 0 && u.inv(),
        AnyRenderer::Kitty(k) => mode == RenderMode::Kitty && k.columns() == 0 && k.rows() == 0 && k.is_low_res()
            == low,
        AnyRenderer::Ascii(a) => mode == RenderMode::Ascii && a.columns() == 0 && a.rows() == 0 && a.inv(),
    }
}

/// The mode that was asked for names no renderer.
#[derive(Debug)]
pub struct UnknownMode {
    pub mode: String,
}

/// A fresh renderer for the mode named `mode` (`ansi`, `unicode`, `kitty`
/// or `ascii`); the Kitty renderer decodes at the lower resolution when
/// `low` holds. Any other name is refused, and the refusal carries it.
pub fn create_renderer(mode: &str, low: bool) -> (r: Result<AnyRenderer, UnknownMode>)
    ensures
        match r {
            Ok(renderer) => mode_named(mode@) matches Some(m) && fresh_renderer(renderer, m, low),
            Err(e) => mode_named(mode@) is None && e.mode@ == mode@,
        },
{
    match parse_mode(mode) {
        Some(RenderMode::Ansi) => {
            let r = AnyRenderer::Ansi(AnsiRenderer::new());
            assert(fresh_renderer(r, RenderMode::Ansi, low));
            Ok(r)
        },
        Some(RenderMode::Unicode) => {
            let r = AnyRenderer::Unicode(UnicodeRenderer::new());
            assert(fresh_renderer(r, RenderMode::Unicode, low));
            Ok(r)
        },
        Some(RenderMode::Kitty) => {
            let r = AnyRenderer::Kitty(KittyRenderer::new(low));
            assert(fresh_renderer(r, RenderMode::Kitty, low));
            Ok(r)
        },
        Some(RenderMode::Ascii) => {
            let r = AnyRenderer::Ascii(AsciiRenderer::new());
            assert(fresh_renderer(r, RenderMode::Ascii, low));
            Ok(r)
        },
        None => Err(UnknownMode { mode: mode.to_owned() }),
    }
}

/// The smallest of three integers.
pub open spec fn min3(a: int, b: int, c: int) -> int {
    let ab = if a <= b { a } else { b };
    if ab <= c { ab } else { c }
}

/// `screen - offset`, or zero when the offset lies past the screen.
pub open spec fn room(screen: int, offset: int) -> int {
    if screen > offset { screen - offset } else { 0 }
}

/// Offset of the first byte of pixel `(x, y)` in an image `width` pixels
/// wide that stores `bpp` bytes per pixel, row after row.
pub open spec fn grid_offset(width: int, x: int, y: int, bpp: int) -> int {
    (y * width + x) * bpp
}

/// Offset of byte `c` of pixel `(x, y)` (see `grid_offset`).
pub open spec fn byte_offset(width: int, x: int, y: int, bpp: int, c: int) -> int {
    grid_offset(width, x, y, bpp) + c
}

/// The colour stored for pixel `(x, y)` of a packed RGB image.
pub open spec fn rgb_at(bytes: Seq<u8>, width: int, x: int, y: int) -> Rgb {
    let o = grid_offset(width, x, y, 3);
    Rgb { r: bytes[o], g: bytes[o + 1], b: bytes[o + 2] }
}

/// An image `width` pixels wide of `len` bytes holds every pixel of the
/// rectangle `[0, w) x [0, h)`.
pub open spec fn covers(len: int, width: int, w: int, h: int, bpp: int) -> bool {
    w <= 0 || h <= 0 || grid_offset(width, w, h - 1, bpp) <= len
}

/// The canvas `canvas` (`cw` pixels wide, `bpp` bytes per pixel) after
/// the rectangle `[0, w) x [0, h)` of the image `src` (`sw` pixels wide)
/// has been copied onto it with its corner at `(dx, dy)`.
pub open spec fn blit(
    canvas: Seq<u8>,
    cw: int,
    src: Seq<u8>,
    sw: int,
    dx: int,
    dy: int,
    w: int,
    h: int,
    bpp: int,
) -> Seq<u8> {
    Seq::new(
        canvas.len(),
        |i: int|
            {
                let p = i / bpp;
                let cx = p % cw;
                let cy = p / cw;
                if dx <= cx < dx + w && dy <= cy < dy + h {
                    src[grid_offset(sw, cx - dx, cy - dy, bpp) + i % bpp]
                } else {
                    canvas[i]
                }
            },
    )
}

/// Byte `i` of the canvas belongs to a pixel of the rectangle
/// `[dx, dx + w) x [dy, dy + h)`.
pub open spec fn in_rect(i: int, cw: int, dx: int, dy: int, w: int, h: int, bpp: int) -> bool {
    exists|x: int, y: int, c: int|
        dx <= x < dx + w && dy <= y < dy + h && 0 <= c < bpp && i == #[trigger] byte_offset(cw, x, y, bpp, c)
}

/// A byte of a pixel outside the rectangle `[dx, dx + w) x [dy, dy + h)`
/// is no byte of the rectangle.
pub proof fn lemma_not_in_rect(cw: int, dx: int, dy: int, w: int, h: int, bpp: int, x: int, y: int, c: int)
    requires
        0 <= x < cw,
        0 <= c < bpp,
        0 <= dx,
        dx + w <= cw,
        !(dx <= x < dx + w && dy <= y < dy + h),
    ensures
        !in_rect(byte_offset(cw, x, y, bpp, c), cw, dx, dy, w, h, bpp),
{
    if in_rect(byte_offset(cw, x, y, bpp, c), cw, dx, dy, w, h, bpp) {
        let (x2, y2, c2) = choose|x2: int, y2: int, c2: int|
            dx <= x2 < dx + w && dy <= y2 < dy + h && 0 <= c2 < bpp && byte_offset(cw, x, y, bpp, c)
                == #[trigger] byte_offset(cw, x2, y2, bpp, c2);
        lemma_grid_offset_unique(cw, bpp, x, y, c, x2, y2, c2);
    }
}

/// Stores a colour as the three bytes at `at`.
pub(crate) fn write_rgb(canvas: &mut Vec<u8>, at: usize, color: Rgb)
    requires
        at + 3 <= old(canvas)@.len(),
    ensures
        final(canvas)@ == old(canvas)@.update(at as int, color.r).update(at + 1, color.g).update(
            at + 2,
            color.b,
        ),
{
    assert(canvas@.len() == canvas.len());
    canvas.set(at, color.r);
    canvas.set(at + 1, color.g);
    canvas.set(at + 2, color.b);
}

/// `q * d + r` with `0 <= r < d` determines `q` and `r`.
pub proof fn lemma_mixed_radix_unique(q1: int, r1: int, q2: int, r2: int, d: int)
    requires
        0 <= r1 < d,
        0 <= r2 < d,
        q1 * d + r1 == q2 * d + r2,
    ensures
        q1 == q2,
        r1 == r2,
{
    let x = q1 * d + r1;
    lemma_fundamental_div_mod_converse(x, d, q1, r1);
    lemma_fundamental_div_mod_converse(x, d, q2, r2);
}

/// Distinct bytes of distinct pixels have distinct offsets.
pub proof fn lemma_grid_offset_unique(
    width: int,
    bpp: int,
    x1: int,
    y1: int,
    c1: int,
    x2: int,
    y2: int,
    c2: int,
)
    requires
        0 <= x1 < width,
        0 <= x2 < width,
        0 <= c1 < bpp,
        0 <= c2 < bpp,
        grid_offset(width, x1, y1, bpp) + c1 == grid_offset(width, x2, y2, bpp) + c2,
    ensures
        x1 == x2,
        y1 == y2,
        c1 == c2,
{
    lemma_mixed_radix_unique(y1 * width + x1, c1, y2 * width + x2, c2, bpp);
    lemma_mixed_radix_unique(y1, x1, y2, x2, width);
}

/// Every byte of a pixel inside a `width x height` image lies inside it.
pub proof fn lemma_grid_offset_bound(width: int, height: int, bpp: int, x: int, y: int, c: int)
    requires
        0 <= x < width,
        0 <= y < height,
        0 <= c < bpp,
    ensures
        0 <= grid_offset(width, x, y, bpp) + c < width * height * bpp,
{
    assert(0 <= y * width + x < height * width) by (nonlinear_arith)
        requires
            0 <= x < width,
            0 <= y < height,
    ;
    assert(0 <= (y * width + x) * bpp + c < (height * width) * bpp) by (nonlinear_arith)
        requires
            0 <= y * width + x < height * width,
            0 <= c < bpp,
    ;
    assert(width * height * bpp == (height * width) * bpp) by (nonlinear_arith);
}

/// A pixel of the covered rectangle lies inside the image.
pub proof fn lemma_covers_bound(len: int, width: int, w: int, h: int, bpp: int, x: int, y: int, c: int)
    requires
        covers(len, width, w, h, bpp),
        0 <= x < w,
        0 <= y < h,
        w <= width,
        0 <= c < bpp,
    ensures
        0 <= grid_offset(width, x, y, bpp) + c < len,
{
    assert(0 <= y * width + x < (h - 1) * width + w) by (nonlinear_arith)
        requires
            0 <= x < w,
            0 <= y < h,
            w <= width,
    ;
    assert(0 <= (y * width + x) * bpp + c < ((h - 1) * width + w) * bpp) by (nonlinear_arith)
        requires
            0 <= y * width + x < (h - 1) * width + w,
            0 <= c < bpp,
    ;
}

/// After a `blit`, each byte of the copied rectangle holds the matching
/// byte of the source.
pub proof fn lemma_blit_at(
    canvas: Seq<u8>,
    cw: int,
    ch: int,
    src: Seq<u8>,
    sw: int,
    dx: int,
    dy: int,
    w: int,
    h: int,
    bpp: int,
    x: int,
    y: int,
    c: int,
)
    requires
        canvas.len() == cw * ch * bpp,
        0 <= dx,
        0 <= dy,
        dx + w <= cw,
        dy + h <= ch,
        0 <= x < w,
        0 <= y < h,
        0 <= c < bpp,
    ensures
        0 <= byte_offset(cw, x + dx, y + dy, bpp, c) < canvas.len(),
        blit(canvas, cw, src, sw, dx, dy, w, h, bpp)[byte_offset(cw, x + dx, y + dy, bpp, c)]
            == src[byte_offset(sw, x, y, bpp, c)],
{
    let i = byte_offset(cw, x + dx, y + dy, bpp, c);
    lemma_grid_offset_bound(cw, ch, bpp, x + dx, y + dy, c);
    let p = (y + dy) * cw + (x + dx);
    assert(i == p * bpp + c);
    lemma_fundamental_div_mod_converse(i, bpp, p, c);
    lemma_fundamental_div_mod_converse(p, cw, y + dy, x + dx);
}

/// A canvas whose bytes match `src` on the copied rectangle and keep
/// their old value elsewhere is the `blit` of `src` onto the old canvas.
pub proof fn lemma_blit_from_pointwise(
    before: Seq<u8>,
    after: Seq<u8>,
    cw: int,
    ch: int,
    src: Seq<u8>,
    sw: int,
    dx: int,
    dy: int,
    w: int,
    h: int,
    bpp: int,
)
    requires
        0 < bpp,
        0 <= dx,
        0 <= dy,
        0 <= w,
        0 <= h,
        0 <= cw,
        0 <= ch,
        w > 0 && h > 0 ==> dx + w <= cw && dy + h <= ch,
        before.len() == cw * ch * bpp,
        after.len() == before.len(),
        forall|x: int, y: int, c: int|
            dx <= x < dx + w && dy <= y < dy + h && 0 <= c < bpp ==> #[trigger] after[byte_offset(cw, x, y, bpp, c)]
                == src[byte_offset(sw, x - dx, y - dy, bpp, c)],
        forall|i: int|
            0 <= i < after.len() && after[i] != before[i] ==> in_rect(i, cw, dx, dy, w, h, bpp),
    ensures
        after == blit(before, cw, src, sw, dx, dy, w, h, bpp),
{
    let b = blit(before, cw, src, sw, dx, dy, w, h, bpp);
    assert forall|i: int| 0 <= i < after.len() implies after[i] == b[i] by {
        if cw == 0 {
            assert(cw * ch * bpp == 0) by (nonlinear_arith)
                requires
                    cw == 0,
            ;
        }
        assert(cw > 0);
        let p = i / bpp;
        let c = i % bpp;
        let cx = p % cw;
        let cy = p / cw;
        lemma_fundamental_div_mod(i, bpp);
        lemma_fundamental_div_mod(p, cw);
        assert(0 <= p) by {
            vstd::arithmetic::div_mod::lemma_div_pos_is_pos(i, bpp);
        }
        assert(0 <= cy) by {
            vstd::arithmetic::div_mod::lemma_div_pos_is_pos(p, cw);
        }
        assert(i == grid_offset(cw, cx, cy, bpp) + c) by (nonlinear_arith)
            requires
                i == bpp * p + c,
                p == cw * cy + cx,
        ;
        if dx <= cx < dx + w && dy <= cy < dy + h {
            assert(after[byte_offset(cw, cx, cy, bpp, c)] == src[byte_offset(sw, cx - dx, cy - dy, bpp, c)]);
        } else {
            if after[i] != before[i] {
                assert(in_rect(i, cw, dx, dy, w, h, bpp));
                let (x, y, c2) = choose|x: int, y: int, c2: int|
                    dx <= x < dx + w && dy <= y < dy + h && 0 <= c2 < bpp && i == #[trigger] byte_offset(cw, x, y, bpp, c2);
                lemma_grid_offset_unique(cw, bpp, x, y, c2, cx, cy, c);
            }
        }
    }
    assert(after =~= b);
}

} // verus!
