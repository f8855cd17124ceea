use vstd::prelude::*;

verus! {

/// The first `height` rows of an image whose rows start every `stride`
/// bytes, each cut to its first `row_len` bytes and laid end to end.
pub open spec fn packed_rows(data: Seq<u8>, stride: int, row_len: int, height: int) -> Seq<u8>
    decreases height,
{
    if height <= 0 {
        seq![]
    } else {
        packed_rows(data, stride, row_len, height - 1) + data.subrange(
            (height - 1) * stride,
            (height - 1) * stride + row_len,
        )
    }
}

/// Packing keeps each row where it belongs: byte `j` of row `y` of the
/// packed image is byte `j` of the row that starts at `y * stride`.
pub proof fn lemma_packed_rows_at(data: Seq<u8>, stride: int, row_len: int, height: int)
    requires
        0 <= stride,
        0 <= row_len,
        0 <= height,
        height == 0 || (height - 1) * stride + row_len <= data.len(),
    ensures
        packed_rows(data, stride, row_len, height).len() == row_len * height,
        forall|y: int, j: int|
            0 <= y < height && 0 <= j < row_len ==> #[trigger] packed_rows(data, stride, row_len, height)[y
                * row_len + j] == data[y * stride + j],
    decreases height,
{
    if height > 0 {
        let h = height - 1;
        if h > 0 {
            assert((h - 1) * stride <= h * stride) by (nonlinear_arith)
                requires
                    stride >= 0,
                    h >= 1,
            ;
        }
        lemma_packed_rows_at(data, stride, row_len, h);
        assert(0 <= h * stride) by (nonlinear_arith)
            requires
                stride >= 0,
                h >= 0,
        ;
        assert(row_len * height == row_len * h + row_len) by (nonlinear_arith)
            requires
                height == h + 1,
        ;
        let prefix = packed_rows(data, stride, row_len, h);
        let whole = packed_rows(data, stride, row_len, height);
        let row = data.subrange(h * stride, h * stride + row_len);
        assert(whole == prefix + row);
        assert(prefix.len() == row_len * h);
        assert forall|y: int, j: int| 0 <= y < height && 0 <= j < row_len implies #[trigger] whole[y * row_len + j]
            == data[y * stride + j] by {
            if y < h {
                assert(y * row_len + j < h * row_len) by (nonlinear_arith)
                    requires
                        0 <= y < h,
                        0 <= j < row_len,
                ;
                assert(0 <= y * row_len) by (nonlinear_arith)
                    requires
                        0 <= y,
                        0 <= row_len,
                ;
                assert(whole[y * row_len + j] == prefix[y * row_len + j]);
            } else {
                assert(y == h);
                assert(whole[h * row_len + j] == row[j]);
            }
        }
    }
}

/// The pixels of a `width x height` RGB image whose rows start every
/// `stride` bytes of `data` (a scaler's output plane, padded rows and
/// all), packed row after row with no padding.
pub fn pack_rows(data: &[u8], stride: usize, width: u16, height: u16) -> (pixels: Vec<u8>)
    requires
        height == 0 || (height - 1) * stride + width * 3 <= data@.len(),
        width * height * 3 <= usize::MAX,
    ensures
        pixels@ == packed_rows(data@, stride as int, width * 3, height as int),
        pixels@.len() == width * height * 3,
        forall|y: int, j: int|
            0 <= y < height && 0 <= j < width * 3 ==> #[trigger] pixels@[y * (width * 3) + j] == data@[y
                * stride + j],
{
    let n: usize = data.len();
    let row_len: usize = width as usize * 3;
    let mut pixels: Vec<u8> = Vec::with_capacity(width as usize * height as usize * 3);
    let mut y: u16 = 0;
    while y < height
        invariant
            0 <= y <= height,
            row_len == width * 3,
            n == data@.len(),
            height == 0 || (height - 1) * stride + row_len <= data@.len(),
            pixels@ == packed_rows(data@, stride as int, row_len as int, y as int),
            pixels@.len() == row_len * y,
        decreases height - y,
    {
        assert((y as int) * stride <= (height - 1) * stride) by (nonlinear_arith)
            requires
                y < height,
        ;
        assert(0 <= (y as int) * stride) by (nonlinear_arith);
        let row_start: usize = y as usize * stride;
        let mut i: usize = 0;
        let ghost start = pixels@;
        while i < row_len
            invariant
                0 <= i <= row_len,
                n == data@.len(),
                row_start + row_len <= data@.len(),
                pixels@ == start + data@.subrange(row_start as int, row_start + i),
            decreases row_len - i,
        {
            pixels.push(data[row_start + i]);
            assert(data@.subrange(row_start as int, row_start + i + 1) =~= data@.subrange(
                row_start as int,
                row_start + i,
            ).push(data@[row_start + i]));
            i = i + 1;
        }
        assert(row_len * (y + 1) == row_len * y + row_len) by (nonlinear_arith);
        y = y + 1;
    }
    assert(row_len * height == width * height * 3) by (nonlinear_arith)
        requires
            row_len == width * 3,
    ;
    proof {
        lemma_packed_rows_at(data@, stride as int, row_len as int, height as int);
    }
    pixels
}

} // verus!
