use vstd::prelude::*;

verus! {

/// The pixel formats an image may arrive in before it is copied into the
/// texture atlas, which stores 8-bit RGBA (sRGB).
#[derive(Clone, Copy, Debug, PartialEq, Eq, Structural)]
pub enum SourceFormat {
    /// One 8-bit channel per pixel.
    R8Unorm,
    /// Two 8-bit channels per pixel.
    Rg8Unorm,
    /// Four 8-bit channels per pixel, already in the atlas format.
    Rgba8UnormSrgb,
    /// Any other format: it is not converted.
    Unsupported,
}

/// Bytes per pixel of the atlas format.
pub const ATLAS_BLOCK_SIZE: u32 = 4;

/// Rows copied into a texture must start at multiples of this many bytes.
pub const ROW_ALIGNMENT: u32 = 256;

/// The first `n` bytes of `d`, each widened to an RGBA pixel `[r, 0, 0, 255]`.
pub open spec fn r8_pixels(d: Seq<u8>, n: nat) -> Seq<u8>
    decreases n,
{
    if n == 0 {
        Seq::empty()
    } else {
        r8_pixels(d, (n - 1) as nat) + seq![d[n - 1], 0u8, 0u8, 255u8]
    }
}

/// The first `n` byte pairs of `d`, each widened to an RGBA pixel
/// `[r, g, 0, 255]`.
pub open spec fn rg8_pixels(d: Seq<u8>, n: nat) -> Seq<u8>
    decreases n,
{
    if n == 0 {
        Seq::empty()
    } else {
        rg8_pixels(d, (n - 1) as nat) + seq![d[2 * (n - 1)], d[2 * (n - 1) + 1], 0u8, 255u8]
    }
}

/// `data`, read as pixels of `format`, in the atlas format; a trailing byte
/// that makes no whole pixel is dropped, and an unsupported format gives
/// nothing.
pub open spec fn converted(data: Seq<u8>, format: SourceFormat) -> Seq<u8> {
    match format {
        SourceFormat::R8Unorm => r8_pixels(data, data.len()),
        SourceFormat::Rg8Unorm => rg8_pixels(data, data.len() / 2),
        SourceFormat::Rgba8UnormSrgb => data,
        SourceFormat::Unsupported => Seq::empty(),
    }
}

/// Zero bytes that bring a row of `width` atlas pixels to a multiple of
/// the row alignment.
pub open spec fn row_padding(width: nat) -> nat {
    ((256 - (4 * width) % 256) % 256) as nat
}

/// `data` cut into rows of `row_len` bytes, each followed by `pad` zero
/// bytes; bytes after the last whole row are dropped.
pub open spec fn padded_rows(data: Seq<u8>, row_len: nat, pad: nat) -> Seq<u8>
    decreases data.len(),
{
    if row_len == 0 || data.len() < row_len {
        Seq::empty()
    } else {
        data.take(row_len as int) + Seq::new(pad, |i: int| 0u8) + padded_rows(
            data.skip(row_len as int),
            row_len,
            pad,
        )
    }
}

/// The bytes of a `width`-pixel-wide image in the atlas format, laid out as
/// they are copied into the atlas: unchanged when rows are already aligned,
/// else every row padded with zeros.
pub open spec fn aligned_rows(data: Seq<u8>, width: nat) -> Seq<u8> {
    if row_padding(width) == 0 {
        data
    } else {
        padded_rows(data, 4 * width, row_padding(width))
    }
}

/// Converts `data`, `width` by `height` pixels of `src_format`, to the atlas
/// format.
pub fn convert_to_rgba8unorm_srgb(data: &[u8], src_format: SourceFormat, width: u32, height: u32) -> (r: Vec<u8>)
    requires
        width * height <= u32::MAX,
        width * height * 4 <= usize::MAX,
    ensures
        r@ == converted(data@, src_format),
{
    let pixel_count = (width * height) as usize;
    let mut converted_data: Vec<u8> = Vec::with_capacity(pixel_count * 4);

    match src_format {
        SourceFormat::R8Unorm => {
            let mut i: usize = 0;
            while i < data.len()
                invariant
                    i <= data.len(),
                    converted_data@ == r8_pixels(data@, i as nat),
                decreases data.len() - i,
            {
                let r = data[i];
                converted_data.push(r);
                converted_data.push(0);
                converted_data.push(0);
                converted_data.push(255);
                proof {
                    assert(converted_data@ =~= r8_pixels(data@, (i + 1) as nat));
                }
                i += 1;
            }
        },
        SourceFormat::Rg8Unorm => {
            let pairs = data.len() / 2;
            let mut i: usize = 0;
            while i < pairs
                invariant
                    pairs == data.len() / 2,
                    i <= pairs,
                    converted_data@ == rg8_pixels(data@, i as nat),
                decreases pairs - i,
            {
                let r = data[2 * i];
                let g = data[2 * i + 1];
                converted_data.push(r);
                converted_data.push(g);
                converted_data.push(0);
                converted_data.push(255);
                proof {
                    assert(converted_data@ =~= rg8_pixels(data@, (i + 1) as nat));
                }
                i += 1;
            }
        },
        SourceFormat::Rgba8UnormSrgb => {
            let mut i: usize = 0;
            while i < data.len()
                invariant
                    i <= data.len(),
                    converted_data@ == data@.take(i as int),
                decreases data.len() - i,
            {
                converted_data.push(data[i]);
                proof {
                    assert(converted_data@ =~= data@.take(i + 1));
                }
                i += 1;
            }
            proof {
                assert(data@.take(data.len() as int) =~= data@);
            }
        },
        SourceFormat::Unsupported => {},
    }

    converted_data
}

/// Bytes per atlas row of a `width`-pixel-wide image once padded to the row
/// alignment.
pub fn padded_bytes_per_row(width: u32) -> (r: u32)
    requires
        4 * width + row_padding(width as nat) <= u32::MAX,
    ensures
        r == 4 * width + row_padding(width as nat),
{
    let unpadded_bytes_per_row = width * ATLAS_BLOCK_SIZE;
    let padding = (ROW_ALIGNMENT - (unpadded_bytes_per_row % ROW_ALIGNMENT)) % ROW_ALIGNMENT;
    unpadded_bytes_per_row + padding
}

/// Lays out `converted_data`, `width` by `height` atlas pixels, for the copy
/// into the atlas: rows that are not aligned get zero bytes appended.
pub fn pad_rows(converted_data: Vec<u8>, width: u32, height: u32) -> (r: Vec<u8>)
    requires
        4 * width + row_padding(width as nat) <= u32::MAX,
        (4 * width + row_padding(width as nat)) * height <= u32::MAX,
    ensures
        r@ == aligned_rows(converted_data@, width as nat),
{
    let unpadded_bytes_per_row = width * ATLAS_BLOCK_SIZE;
    let padding = (ROW_ALIGNMENT - (unpadded_bytes_per_row % ROW_ALIGNMENT)) % ROW_ALIGNMENT;
    let padded_bytes_per_row = unpadded_bytes_per_row + padding;

    let mut padded_data: Vec<u8> = Vec::with_capacity((padded_bytes_per_row * height) as usize);
    if padding == 0 {
        padded_data = converted_data;
    } else {
        let row_length = unpadded_bytes_per_row as usize;
        let ghost d = converted_data@;
        let ghost pad = padding as nat;
        let mut pos: usize = 0;
        proof {
            assert(padded_data@ + padded_rows(d.skip(0), row_length as nat, pad) =~= padded_rows(
                d,
                row_length as nat,
                pad,
            )) by {
                assert(d.skip(0) =~= d);
            }
        }
        while row_length <= converted_data.len() - pos
            invariant
                d == converted_data@,
                row_length > 0,
                pad == padding,
                pos <= converted_data.len(),
                padded_data@ + padded_rows(d.skip(pos as int), row_length as nat, pad) == padded_rows(
                    d,
                    row_length as nat,
                    pad,
                ),
            decreases converted_data.len() - pos,
        {
            let ghost before = padded_data@;
            let mut k: usize = 0;
            while k < row_length
                invariant
                    d == converted_data@,
                    pos + row_length <= converted_data.len(),
                    k <= row_length,
                    padded_data@ == before + d.subrange(pos as int, pos + k),
                decreases row_length - k,
            {
                padded_data.push(converted_data[pos + k]);
                proof {
                    assert(padded_data@ =~= before + d.subrange(pos as int, pos + k + 1));
                }
                k += 1;
            }
            let mut z: u32 = 0;
            while z < padding
                invariant
                    d == converted_data@,
                    pos + row_length <= converted_data.len(),
                    z <= padding,
                    padded_data@ == before + d.subrange(pos as int, pos + row_length) + Seq::new(
                        z as nat,
                        |i: int| 0u8,
                    ),
                decreases padding - z,
            {
                padded_data.push(0);
                proof {
                    assert(padded_data@ =~= before + d.subrange(pos as int, pos + row_length)
                        + Seq::new((z + 1) as nat, |i: int| 0u8));
                }
                z += 1;
            }
            proof {
                let rest = d.skip(pos as int);
                assert(rest.take(row_length as int) =~= d.subrange(pos as int, pos + row_length));
                assert(rest.skip(row_length as int) =~= d.skip(pos + row_length));
                assert(padded_rows(rest, row_length as nat, pad) == rest.take(row_length as int)
                    + Seq::new(pad, |i: int| 0u8) + padded_rows(
                    rest.skip(row_length as int),
                    row_length as nat,
                    pad,
                ));
                assert(padded_data@ + padded_rows(d.skip(pos + row_length), row_length as nat, pad)
                    =~= before + padded_rows(rest, row_length as nat, pad));
            }
            pos += row_length;
        }
        proof {
            assert(padded_rows(d.skip(pos as int), row_length as nat, pad) =~= Seq::<u8>::empty());
            assert(padded_data@ + Seq::<u8>::empty() =~= padded_data@);
        }
    }

    padded_data
}


/// A padded row is a multiple of the row alignment, and less than one
/// alignment longer than the unpadded row.
pub proof fn law_padded_row_is_aligned(width: nat)
    ensures
        (4 * width + row_padding(width)) % 256 == 0,
        row_padding(width) < 256,
{
    let u = 4 * width;
    assert((u + (256 - u % 256) % 256) % 256 == 0) by (nonlinear_arith);
}

/// Each single-channel byte becomes the pixel `[r, 0, 0, 255]`, in order.
pub proof fn law_r8_pixels(d: Seq<u8>, n: nat)
    requires
        n <= d.len(),
    ensures
        r8_pixels(d, n).len() == 4 * n,
        forall|k: int|
            0 <= k < n ==> {
                &&& #[trigger] r8_pixels(d, n)[4 * k] == d[k]
                &&& r8_pixels(d, n)[4 * k + 1] == 0
                &&& r8_pixels(d, n)[4 * k + 2] == 0
                &&& r8_pixels(d, n)[4 * k + 3] == 255
            },
    decreases n,
{
    if n > 0 {
        law_r8_pixels(d, (n - 1) as nat);
        let p = r8_pixels(d, (n - 1) as nat);
        assert forall|k: int| 0 <= k < n implies {
            &&& #[trigger] r8_pixels(d, n)[4 * k] == d[k]
            &&& r8_pixels(d, n)[4 * k + 1] == 0
            &&& r8_pixels(d, n)[4 * k + 2] == 0
            &&& r8_pixels(d, n)[4 * k + 3] == 255
        } by {
            if k < n - 1 {
                assert(p[4 * k] == d[k]);
            }
        }
    }
}

/// Each two-channel byte pair becomes the pixel `[r, g, 0, 255]`, in order.
pub proof fn law_rg8_pixels(d: Seq<u8>, n: nat)
    requires
        2 * n <= d.len(),
    ensures
        rg8_pixels(d, n).len() == 4 * n,
        forall|k: int|
            0 <= k < n ==> {
                &&& #[trigger] rg8_pixels(d, n)[4 * k] == d[2 * k]
                &&& rg8_pixels(d, n)[4 * k + 1] == d[2 * k + 1]
                &&& rg8_pixels(d, n)[4 * k + 2] == 0
                &&& rg8_pixels(d, n)[4 * k + 3] == 255
            },
    decreases n,
{
    if n > 0 {
        law_rg8_pixels(d, (n - 1) as nat);
        let p = rg8_pixels(d, (n - 1) as nat);
        assert forall|k: int| 0 <= k < n implies {
            &&& #[trigger] rg8_pixels(d, n)[4 * k] == d[2 * k]
            &&& rg8_pixels(d, n)[4 * k + 1] == d[2 * k + 1]
            &&& rg8_pixels(d, n)[4 * k + 2] == 0
            &&& rg8_pixels(d, n)[4 * k + 3] == 255
        } by {
            if k < n - 1 {
                assert(p[4 * k] == d[2 * k]);
            }
        }
    }
}

/// Padding keeps every whole row, in order, each followed by `pad` zero
/// bytes: the output holds one padded row per whole input row.
pub proof fn law_padded_rows(d: Seq<u8>, row_len: nat, pad: nat)
    requires
        row_len > 0,
    ensures
        padded_rows(d, row_len, pad).len() == (d.len() / row_len) * (row_len + pad),
        forall|k: int, b: int|
            0 <= k < d.len() / row_len && 0 <= b < row_len ==> #[trigger] padded_rows(
                d,
                row_len,
                pad,
            )[k * (row_len + pad) + b] == d[k * row_len + b],
        forall|k: int, b: int|
            0 <= k < d.len() / row_len && row_len <= b < row_len + pad ==> #[trigger] padded_rows(
                d,
                row_len,
                pad,
            )[k * (row_len + pad) + b] == 0,
    decreases d.len(),
{
    let out = padded_rows(d, row_len, pad);
    let w = row_len + pad;
    if d.len() < row_len {
        assert(d.len() / row_len == 0) by (nonlinear_arith)
            requires
                d.len() < row_len,
                row_len > 0,
        ;
    } else {
        let rest = d.skip(row_len as int);
        law_padded_rows(rest, row_len, pad);
        let tail = padded_rows(rest, row_len, pad);
        let head = d.take(row_len as int) + Seq::new(pad, |i: int| 0u8);
        assert(out == head + tail);
        assert(rest.len() / row_len + 1 == d.len() / row_len) by (nonlinear_arith)
            requires
                rest.len() == d.len() - row_len,
                d.len() >= row_len,
                row_len > 0,
        ;
        assert(head.len() == w);
        assert(out.len() == w + (rest.len() / row_len) * w);
        let q = rest.len() / row_len;
        let qq = d.len() / row_len;
        assert(out.len() == qq * w) by (nonlinear_arith)
            requires
                out.len() == w + q * w,
                q + 1 == qq,
        ;
        assert forall|k: int, b: int| 0 <= k < d.len() / row_len && 0 <= b < w implies
            #[trigger] out[k * w + b] == (if b < row_len { d[k * row_len + b] } else { 0u8 }) by {
            if k == 0 {
                assert(out[b] == head[b]);
            } else {
                let k1 = k - 1;
                assert(k * w + b == w + (k1 * w + b)) by (nonlinear_arith)
                    requires
                        k1 == k - 1,
                ;
                assert(k * row_len + b == row_len + (k1 * row_len + b)) by (nonlinear_arith)
                    requires
                        k1 == k - 1,
                ;
                assert(0 <= k1 * w + b < tail.len()) by (nonlinear_arith)
                    requires
                        0 <= k1 < rest.len() / row_len,
                        0 <= b < w,
                        tail.len() == (rest.len() / row_len) * w,
                ;
                assert(out[k * w + b] == tail[k1 * w + b]);
                if b < row_len {
                    assert(tail[k1 * w + b] == rest[k1 * row_len + b]);
                    assert(0 <= k1 * row_len + b < rest.len()) by (nonlinear_arith)
                        requires
                            0 <= k1 < rest.len() / row_len,
                            0 <= b < row_len,
                            row_len > 0,
                    ;
                } else {
                    assert(tail[k1 * w + b] == 0);
                }
            }
        }
    }
}

/// The layout for the atlas upload: when a row of `width` pixels is already
/// a multiple of 256 bytes the bytes stay as they are; otherwise every whole
/// input row `k` starts at byte `k * stride` of the output, where the stride
/// is the least multiple of 256 that holds a row, followed by zero bytes up
/// to the next row; the output holds exactly the whole rows.
pub proof fn law_aligned_rows(data: Seq<u8>, width: nat)
    requires
        width > 0,
    ensures
        ({
            let row = 4 * width;
            let stride = 4 * width + row_padding(width);
            let out = aligned_rows(data, width);
            &&& stride % 256 == 0
            &&& row <= stride < row + 256
            &&& row % 256 == 0 ==> out == data
            &&& row % 256 != 0 ==> {
                &&& out.len() == (data.len() / row) * stride
                &&& forall|k: int, b: int|
                    0 <= k < data.len() / row && 0 <= b < row ==> #[trigger] out[k * stride + b]
                        == data[k * row + b]
                &&& forall|k: int, b: int|
                    0 <= k < data.len() / row && row <= b < stride ==> #[trigger] out[k * stride
                        + b] == 0
            }
        }),
{
    law_padded_row_is_aligned(width);
    let row = 4 * width;
    if row % 256 != 0 {
        assert(row_padding(width) != 0);
        law_padded_rows(data, row, row_padding(width));
    } else {
        assert(row_padding(width) == 0);
    }
}

} // verus!
