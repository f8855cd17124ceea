use vstd::prelude::*;
use base64::Engine;
use vstd::string::StringSliceAdditionalSpecFns;
use super::Frame;

verus! {

/// Names the standard base64 text (RFC 4648 alphabet, `=` padding) of a
/// byte string, as the `base64` crate's `STANDARD` engine writes it.
pub uninterp spec fn standard_base64(bytes: Seq<u8>) -> Seq<u8>;

/// `base64::engine::general_purpose::STANDARD.encode`, as bytes. The
/// contract claims that the text depends on the input bytes alone; it
/// states no more of the encoding than that name. The crate panics when
/// the length of the text overflows `usize`, which `requires` rules out.
#[verifier::external_body]
fn encode_standard_base64(bytes: &[u8]) -> (text: Vec<u8>)
    requires
        (bytes@.len() + 2) / 3 * 4 <= usize::MAX,
    ensures
        text@ == standard_base64(bytes@),
{
    base64::engine::general_purpose::STANDARD.encode(bytes).into_bytes()
}

/// The decimal digits of `n`, most significant first, in ASCII.
pub open spec fn decimal(n: nat) -> Seq<u8>
    decreases n,
{
    if n < 10 {
        seq![(48 + n) as u8]
    } else {
        decimal(n / 10).push((48 + n % 10) as u8)
    }
}

/// The number that a string of ASCII decimal digits stands for, most
/// significant digit first.
pub open spec fn digits_value(digits: Seq<u8>) -> int
    decreases digits.len(),
{
    if digits.len() == 0 {
        0
    } else {
        digits_value(digits.drop_last()) * 10 + (digits.last() - 48)
    }
}

/// `decimal(n)` is the base-10 numeral of `n`: one or more ASCII digits,
/// without leading zero unless `n` is zero, that read back as `n`.
pub proof fn lemma_decimal_is_numeral(n: nat)
    ensures
        decimal(n).len() > 0,
        forall|i: int| 0 <= i < decimal(n).len() ==> 48 <= #[trigger] decimal(n)[i] <= 57,
        n > 0 ==> decimal(n)[0] != 48,
        digits_value(decimal(n)) == n,
    decreases n,
{
    if n >= 10 {
        lemma_decimal_is_numeral(n / 10);
        let d = decimal(n);
        assert(d.drop_last() =~= decimal(n / 10));
        assert(d[0] == decimal(n / 10)[0]);
        vstd::arithmetic::div_mod::lemma_fundamental_div_mod(n as int, 10);
        assert forall|i: int| 0 <= i < d.len() implies 48 <= #[trigger] d[i] <= 57 by {
            if i < d.len() - 1 {
                assert(d[i] == decimal(n / 10)[i]);
            }
        }
    } else {
        assert(digits_value(decimal(n)) == digits_value(decimal(n).drop_last()) * 10 + (decimal(n).last() - 48));
        assert(decimal(n).drop_last() =~= Seq::<u8>::empty());
    }
}

/// The escape sequence of the Kitty graphics protocol that shows an RGB
/// image of `width x height` pixels, scaled to `columns x rows` cells,
/// read from the file whose base64-encoded path is `payload`:
/// `ESC _G a=T,f=24,s=<width>,v=<height>,c=<columns>,r=<rows>,i=1,q=2,t=t;<payload> ESC \`
/// (without the spaces).
pub open spec fn graphics_command(width: nat, height: nat, columns: nat, rows: nat, payload: Seq<u8>) -> Seq<u8> {
    seq![0x1bu8, 0x5fu8, 0x47u8, 0x61u8, 0x3du8, 0x54u8, 0x2cu8, 0x66u8, 0x3du8, 0x32u8, 0x34u8, 0x2cu8, 0x73u8, 0x3du8]
        + decimal(width) + seq![0x2cu8, 0x76u8, 0x3du8] + decimal(height) + seq![0x2cu8, 0x63u8, 0x3du8]
        + decimal(columns) + seq![0x2cu8, 0x72u8, 0x3du8] + decimal(rows) + seq![
        0x2cu8,
        0x69u8,
        0x3du8,
        0x31u8,
        0x2cu8,
        0x71u8,
        0x3du8,
        0x32u8,
        0x2cu8,
        0x74u8,
        0x3du8,
        0x74u8,
        0x3bu8,
    ] + payload + seq![0x1bu8, 0x5cu8]
}

/// Appends the decimal digits of `n`.
fn push_decimal(out: &mut Vec<u8>, n: u16)
    ensures
        final(out)@ == old(out)@ + decimal(n as nat),
    decreases n,
{
    if n >= 10 {
        push_decimal(out, n / 10);
    }
    out.push(48u8 + (n % 10) as u8);
    assert(out@ =~= old(out)@ + decimal(n as nat));
}

/// Appends every byte of `bytes`.
fn push_all(out: &mut Vec<u8>, bytes: &[u8])
    ensures
        final(out)@ == old(out)@ + bytes@,
{
    let mut i: usize = 0;
    while i < bytes.len()
        invariant
            0 <= i <= bytes@.len(),
            out@ == old(out)@ + bytes@.subrange(0, i as int),
        decreases bytes@.len() - i,
    {
        out.push(bytes[i]);
        assert(bytes@.subrange(0, i + 1) =~= bytes@.subrange(0, i as int).push(bytes@[i as int]));
        i = i + 1;
    }
    assert(bytes@.subrange(0, bytes@.len() as int) =~= bytes@);
}

/// The escape sequence that shows a `width x height` RGB image, scaled to
/// `columns x rows` cells, read from the file whose base64-encoded path
/// is `payload` (see `graphics_command`).
pub fn graphics_command_bytes(width: u16, height: u16, columns: u16, rows: u16, payload: &[u8]) -> (out: Vec<u8>)
    ensures
        out@ == graphics_command(width as nat, height as nat, columns as nat, rows as nat, payload@),
{
    let mut out: Vec<u8> = Vec::new();
    let head: [u8; 14] = [0x1b, 0x5f, 0x47, 0x61, 0x3d, 0x54, 0x2c, 0x66, 0x3d, 0x32, 0x34, 0x2c, 0x73, 0x3d];
    push_all(&mut out, head.as_slice());
    push_decimal(&mut out, width);
    let v_key: [u8; 3] = [0x2c, 0x76, 0x3d];
    push_all(&mut out, v_key.as_slice());
    push_decimal(&mut out, height);
    let c_key: [u8; 3] = [0x2c, 0x63, 0x3d];
    push_all(&mut out, c_key.as_slice());
    push_decimal(&mut out, columns);
    let r_key: [u8; 3] = [0x2c, 0x72, 0x3d];
    push_all(&mut out, r_key.as_slice());
    push_decimal(&mut out, rows);
    let tail: [u8; 13] = [0x2c, 0x69, 0x3d, 0x31, 0x2c, 0x71, 0x3d, 0x32, 0x2c, 0x74, 0x3d, 0x74, 0x3b];
    push_all(&mut out, tail.as_slice());
    push_all(&mut out, payload);
    let end: [u8; 2] = [0x1b, 0x5c];
    push_all(&mut out, end.as_slice());
    assert(out@ =~= graphics_command(width as nat, height as nat, columns as nat, rows as nat, payload@));
    out
}

/// A byte in ASCII lower case: `A`-`Z` become `a`-`z`, other bytes stay.
pub open spec fn ascii_lower(b: u8) -> u8 {
    if 65 <= b <= 90 {
        (b + 32) as u8
    } else {
        b
    }
}

/// The bytes of `kitty`.
pub open spec fn kitty_word() -> Seq<u8> {
    seq![0x6bu8, 0x69u8, 0x74u8, 0x74u8, 0x79u8]
}

/// `kitty`, in any mix of cases, starts at byte `i` of `bytes`.
pub open spec fn kitty_at(bytes: Seq<u8>, i: int) -> bool {
    &&& 0 <= i
    &&& i + 5 <= bytes.len()
    &&& forall|j: int| 0 <= j < 5 ==> ascii_lower(#[trigger] bytes[i + j]) == kitty_word()[j]
}

/// `bytes`, lowered to ASCII lower case, contains `kitty`.
pub open spec fn names_kitty(bytes: Seq<u8>) -> bool {
    exists|i: int| kitty_at(bytes, i)
}

/// Whether `kitty`, in any case, occurs in `term`.
fn mentions_kitty(term: &str) -> (found: bool)
    ensures
        found == names_kitty(term.spec_bytes()),
{
    let bytes = term.as_bytes();
    let word: [u8; 5] = [0x6b, 0x69, 0x74, 0x74, 0x79];
    assert(word@ == kitty_word());
    if bytes.len() < 5 {
        assert forall|i: int| !kitty_at(bytes@, i) by {}
        return false;
    }
    let n: usize = bytes.len();
    let mut i: usize = 0;
    while i <= n - 5
        invariant
            n == bytes@.len(),
            bytes@ == term.spec_bytes(),
            word@ == kitty_word(),
            bytes@.len() >= 5,
            i <= bytes@.len() - 4,
            forall|k: int| 0 <= k < i ==> !kitty_at(bytes@, k),
        decreases bytes@.len() - i,
    {
        let mut j: usize = 0;
        let mut same = true;
        while j < 5
            invariant
                0 <= j <= 5,
                n == bytes@.len(),
                i + 5 <= n,
                word@ == kitty_word(),
                same == forall|m: int| 0 <= m < j ==> ascii_lower(#[trigger] bytes@[i + m]) == kitty_word()[m],
            decreases 5 - j,
        {
            let b: u8 = bytes[i + j];
            let lower: u8 = if 65 <= b && b <= 90 { b + 32 } else { b };
            if lower != word[j] {
                same = false;
            }
            j = j + 1;
        }
        if same {
            assert(kitty_at(bytes@, i as int));
            return true;
        }
        i = i + 1;
    }
    assert forall|k: int| !kitty_at(bytes@, k) by {
        if 0 <= k < i {
        }
    }
    false
}

/// Renderer for the Kitty graphics protocol: each frame goes to the
/// terminal as one image, scaled into the cells it covers.
pub struct KittyRenderer {
    width: u16,
    height: u16,
    low_res: bool,
}

impl KittyRenderer {
    /// Width of the terminal, in cells.
    pub closed spec fn columns(&self) -> int {
        self.width as int
    }

    /// Height of the terminal, in cells.
    pub closed spec fn rows(&self) -> int {
        self.height as int
    }

    /// Whether frames are decoded at the lower resolution.
    pub closed spec fn is_low_res(&self) -> bool {
        self.low_res
    }

    /// A renderer for an empty terminal, decoding at the lower resolution
    /// when `low_res` holds.
    pub fn new(low_res: bool) -> (r: Self)
        ensures
            r.columns() == 0,
            r.rows() == 0,
            r.is_low_res() == low_res,
    {
        KittyRenderer { width: 0, height: 0, low_res }
    }

    /// Starts drawing on a terminal of `width x height` cells.
    pub fn init(&mut self, width: u16, height: u16)
        ensures
            final(self).columns() == width,
            final(self).rows() == height,
            final(self).is_low_res() == old(self).is_low_res(),
    {
        self.resize(width, height);
    }

    /// Takes the new size of the terminal.
    pub fn resize(&mut self, width: u16, height: u16)
        ensures
            final(self).columns() == width,
            final(self).rows() == height,
            final(self).is_low_res() == old(self).is_low_res(),
    {
        self.width = width;
        self.height = height;
    }

    /// Whether the terminal speaks the Kitty graphics protocol, given
    /// whether `KITTY_WINDOW_ID` is set and the value of `TERM` (`None`
    /// when it is unset or not Unicode): it does when the window id is set
    /// or `TERM` contains `kitty` in any case.
    pub fn supported(window_id_set: bool, term: Option<&str>) -> (r: bool)
        ensures
            r == (window_id_set || match term {
                Some(t) => names_kitty(t.spec_bytes()),
                None => false,
            }),
    {
        if window_id_set {
            return true;
        }
        match term {
            Some(t) => mentions_kitty(t),
            None => false,
        }
    }

    /// The resolution, in frame pixels, to decode for a terminal of
    /// `term_width x term_height` cells: 15 x 30 pixels per cell, at most
    /// 1280 x 720, or at the lower resolution 5 x 10 pixels per cell, at
    /// most 640 x 360.
    pub fn get_logical_size(&self, term_width: u16, term_height: u16) -> (r: (u16, u16))
        requires
            self.is_low_res() ==> term_width * 5 <= u16::MAX && term_height * 10 <= u16::MAX,
            !self.is_low_res() ==> term_width * 15 <= u16::MAX && term_height * 30 <= u16::MAX,
        ensures
            self.is_low_res() ==> r.0 == vstd::math::min(640, term_width * 5) && r.1 == vstd::math::min(360, term_height * 10),
            !self.is_low_res() ==> r.0 == vstd::math::min(1280, term_width * 15) && r.1 == vstd::math::min(720, term_height * 30),
    {
        if self.low_res {
            let target_w: u16 = if term_width * 5 < 640 { term_width * 5 } else { 640 };
            let target_h: u16 = if term_height * 10 < 360 { term_height * 10 } else { 360 };
            (target_w, target_h)
        } else {
            let target_w: u16 = if term_width * 15 < 1280 { term_width * 15 } else { 1280 };
            let target_h: u16 = if term_height * 30 < 720 { term_height * 30 } else { 720 };
            (target_w, target_h)
        }
    }

    /// `get_logical_size`, or `None` where the pixel counts would overflow
    /// a `u16`.
    pub fn checked_logical_size(&self, term_width: u16, term_height: u16) -> (r: Option<(u16, u16)>)
        ensures
            r is Some <==> (if self.is_low_res() {
                term_width * 5 <= u16::MAX && term_height * 10 <= u16::MAX
            } else {
                term_width * 15 <= u16::MAX && term_height * 30 <= u16::MAX
            }),
            r matches Some(size) ==> (self.is_low_res() ==> size.0 == vstd::math::min(640, term_width * 5)
                && size.1 == vstd::math::min(360, term_height * 10)) && (!self.is_low_res() ==> size.0
                == vstd::math::min(1280, term_width * 15) && size.1 == vstd::math::min(720, term_height * 30)),
    {
        let (per_w, per_h): (u16, u16) = if self.low_res { (5, 10) } else { (15, 30) };
        if term_width > u16::MAX / per_w || term_height > u16::MAX / per_h {
            None
        } else {
            Some(self.get_logical_size(term_width, term_height))
        }
    }

    /// The escape sequence that shows `frame`, whose pixels have been
    /// written to the file at `frame_path`, scaled to `cells_w x cells_h`
    /// cells at the cursor: the frame's size, the cells, and the path in
    /// standard base64 (see `graphics_command`).
    pub fn render_frame(&self, frame: &Frame, cells_w: u16, cells_h: u16, frame_path: &str) -> (out: Vec<u8>)
        requires
            (frame_path.spec_bytes().len() + 2) / 3 * 4 <= usize::MAX,
        ensures
            out@ == graphics_command(
                frame.width as nat,
                frame.height as nat,
                cells_w as nat,
                cells_h as nat,
                standard_base64(frame_path.spec_bytes()),
            ),
    {
        let payload = encode_standard_base64(frame_path.as_bytes());
        graphics_command_bytes(frame.width, frame.height, cells_w, cells_h, payload.as_slice())
    }
}

} // verus!
