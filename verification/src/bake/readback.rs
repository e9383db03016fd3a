//! Reading a baked image back from a buffer whose rows are padded.

use bevy::image::TextureFormatPixelInfo;
use vstd::prelude::*;

use crate::raster::Raster;

verus! {

/// Rows of a copied texture start at multiples of this many bytes.
pub open spec fn alignment() -> int {
    256
}

/// A texel of the baked image has this many bytes.
pub open spec fn texel_bytes() -> int {
    8
}

/// `wgpu::COPY_BYTES_PER_ROW_ALIGNMENT`, which is 256.
#[verifier::external_body]
fn row_alignment() -> (bytes: u32)
    ensures
        bytes == alignment(),
{
    wgpu::COPY_BYTES_PER_ROW_ALIGNMENT
}

/// The bytes of a texel of two 32-bit integers, by
/// `TextureFormatPixelInfo::pixel_size`: eight.
#[verifier::external_body]
pub(crate) fn pixel_size() -> (bytes: usize)
    ensures
        bytes == texel_bytes(),
{
    wgpu::TextureFormat::Rg32Uint.pixel_size().unwrap()
}

/// A row of `value` bytes with its padding. A row that needs none still gets a
/// whole step of it.
pub open spec fn aligned(value: int) -> int {
    value + (alignment() - value % alignment())
}

/// How many bytes a row of `value` bytes takes up in a buffer.
pub fn align_byte_size(value: u32) -> (size: u32)
    requires
        aligned(value as int) <= u32::MAX,
    ensures
        size == aligned(value as int),
{
    let step: u32 = row_alignment();
    value + (step - value % step)
}

/// How many bytes `height` rows of `width` texels take up in a buffer.
pub fn get_aligned_size(width: u32, height: u32, pixel_size: u32) -> (size: u32)
    requires
        aligned(width * pixel_size) <= u32::MAX,
        height * aligned(width * pixel_size) <= u32::MAX,
    ensures
        size == height * aligned(width * pixel_size),
{
    proof {
        assert(0 <= width * pixel_size) by (nonlinear_arith);
    }
    height * align_byte_size(width * pixel_size)
}

/// Byte `b` of row `y` of an image of `size` texels to a side, in a buffer with
/// padded rows.
pub open spec fn padded_pos(size: int, y: int, b: int) -> int {
    y * aligned(size * texel_bytes()) + b
}

/// Byte `b` of row `y` of an image of `size` texels to a side.
pub open spec fn dense_pos(size: int, y: int, b: int) -> int {
    y * (size * texel_bytes()) + b
}

/// `data` is `buffer` without the padding of its rows.
pub open spec fn is_unpadded(buffer: Seq<u8>, size: int, data: Seq<u8>) -> bool {
    &&& data.len() == size * size * texel_bytes()
    &&& forall|y: int, b: int|
        0 <= y < size && 0 <= b < size * texel_bytes() ==> #[trigger] data[dense_pos(size, y, b)]
            == buffer[padded_pos(size, y, b)]
}

/// The square image of `size` texels to a side that was copied to `buffer`.
pub fn copy_back(buffer: Vec<u8>, size: u32) -> (image: Raster)
    requires
        size * size <= u32::MAX,
        size * size * texel_bytes() <= usize::MAX,
        aligned(size * texel_bytes()) <= u32::MAX,
        buffer@.len() == size * size * texel_bytes() || buffer@.len() >= size * aligned(
            size * texel_bytes(),
        ),
    ensures
        image.width == size,
        image.height == size,
        image.wf(),
        buffer@.len() == size * size * texel_bytes() ==> image.data@ == buffer@,
        buffer@.len() != size * size * texel_bytes() ==> is_unpadded(
            buffer@,
            size as int,
            image.data@,
        ),
{
    let texel: usize = pixel_size();
    let total: usize = (size * size) as usize * texel;
    let held: usize = buffer.len();
    if held == total {
        return Raster { width: size, height: size, data: buffer };
    }
    let row: usize = size as usize * texel;
    let stride: usize = align_byte_size(size * texel as u32) as usize;
    let mut data: Vec<u8> = Vec::with_capacity(total);
    let mut y: u32 = 0;
    while y < size
        invariant
            y <= size,
            row == size * texel_bytes(),
            stride == aligned(size * texel_bytes()),
            size * stride <= buffer@.len() <= usize::MAX,
            data@.len() == y * row,
            forall|v: int, b: int|
                0 <= v < y && 0 <= b < row ==> #[trigger] data@[dense_pos(size as int, v, b)]
                    == buffer@[padded_pos(size as int, v, b)],
        decreases size - y,
    {
        let mut b: usize = 0;
        proof {
            assert(y * stride + stride <= size * stride) by (nonlinear_arith)
                requires
                    y + 1 <= size,
                    0 <= stride,
            ;
            assert(0 <= y * stride) by (nonlinear_arith)
                requires
                    0 <= stride,
                    0 <= y,
            ;
        }
        while b < row
            invariant
                b <= row <= stride,
                y < size,
                row == size * texel_bytes(),
                stride == aligned(size * texel_bytes()),
                0 <= y * stride,
                y * stride + stride <= buffer@.len() <= usize::MAX,
                data@.len() == y * row + b,
                forall|v: int, c: int|
                    (0 <= v < y && 0 <= c < row) || (v == y && 0 <= c < b)
                        ==> #[trigger] data@[dense_pos(size as int, v, c)] == buffer@[padded_pos(
                        size as int,
                        v,
                        c,
                    )],
            decreases row - b,
        {
            let ghost before = data@;
            data.push(buffer[y as usize * stride + b]);
            proof {
                assert forall|v: int, c: int|
                    (0 <= v < y && 0 <= c < row) || (v == y && 0 <= c < b + 1) implies
                    #[trigger] data@[dense_pos(size as int, v, c)] == buffer@[padded_pos(
                    size as int,
                    v,
                    c,
                )] by {
                    if v < y {
                        assert(v * row + c < y * row && 0 <= v * row) by (nonlinear_arith)
                            requires
                                0 <= v < y,
                                0 <= c < row,
                        ;
                        assert(before[dense_pos(size as int, v, c)] == buffer@[padded_pos(
                            size as int,
                            v,
                            c,
                        )]);
                    } else if c < b {
                        assert(before[dense_pos(size as int, v, c)] == buffer@[padded_pos(
                            size as int,
                            v,
                            c,
                        )]);
                    }
                }
            }
            b += 1;
        }
        proof {
            assert((y + 1) * row == y * row + row) by (nonlinear_arith);
        }
        y += 1;
    }
    proof {
        assert(size * (size * 8) == size * size * 8) by (nonlinear_arith);
    }
    Raster { width: size, height: size, data }
}

/// What one row takes up holds the row, starts the next at a multiple of the
/// step, and wastes no more than one step.
pub proof fn law_rows_are_aligned(value: int)
    requires
        0 <= value,
    ensures
        aligned(value) % alignment() == 0,
        value < aligned(value) <= value + alignment(),
{
}

/// An image of `size` texels to a side comes back from a buffer of the size that
/// is made for it, filled row by row at the distance that is announced for it.
pub proof fn law_image_comes_back(image: Seq<u8>, size: int, buffer: Seq<u8>, data: Seq<u8>)
    requires
        0 <= size,
        image.len() == size * size * texel_bytes(),
        buffer.len() == size * aligned(size * texel_bytes()),
        forall|y: int, b: int|
            0 <= y < size && 0 <= b < size * texel_bytes()
                ==> #[trigger] buffer[padded_pos(size, y, b)] == image[dense_pos(size, y, b)],
        buffer.len() == size * size * texel_bytes() ==> data == buffer,
        buffer.len() != size * size * texel_bytes() ==> is_unpadded(buffer, size, data),
    ensures
        data == image,
{
    let row = size * texel_bytes();
    let stride = aligned(row);
    assert(size * row == size * size * 8) by (nonlinear_arith)
        requires
            row == size * 8,
    ;
    if size > 0 {
        assert(size * stride > size * row) by (nonlinear_arith)
            requires
                size > 0,
                stride > row,
        ;
        assert forall|i: int| 0 <= i < data.len() implies data[i] == image[i] by {
            let y = i / row;
            let b = i % row;
            assert(row > 0);
            assert(i == y * row + b && 0 <= b < row && 0 <= y < size) by (nonlinear_arith)
                requires
                    row > 0,
                    y == i / row,
                    b == i % row,
                    0 <= i < size * row,
            ;
            assert(dense_pos(size, y, b) == i);
            assert(data[dense_pos(size, y, b)] == buffer[padded_pos(size, y, b)]);
        }
    }
    assert(data =~= image);
}

/// A buffer for some rows of texels has the same room for each of them: enough for its
/// texels, to the next multiple of 256 bytes.
pub proof fn law_buffers_have_room_for_their_rows(
    width: u32,
    height: u32,
    pixel_size: u32,
    row: u32,
    size: u32,
)
    requires
        call_ensures(get_aligned_size, (width, 1, pixel_size), row),
        call_ensures(get_aligned_size, (width, height, pixel_size), size),
    ensures
        size == height * row,
        row % 256 == 0,
        width * pixel_size < row <= width * pixel_size + 256,
{
    let bytes = width * pixel_size;
    assert(1 * aligned(bytes) == aligned(bytes));
}

} // verus!
