//! Reading and writing one RGBA pixel of a row-major byte buffer.
use vstd::prelude::*;

verus! {

/// Byte offset of pixel `(x, y)` in a buffer whose rows are `width` pixels
/// wide, four bytes per pixel.
pub open spec fn pixel_offset(width: int, x: int, y: int) -> int {
    (y * width + x) * 4
}

/// The RGB colour stored at byte offset `off`.
pub open spec fn color_at_offset(data: Seq<u8>, off: int) -> (u8, u8, u8) {
    (data[off], data[off + 1], data[off + 2])
}

/// The RGB colour of pixel `(x, y)`.
pub open spec fn color_at(data: Seq<u8>, width: int, x: int, y: int) -> (u8, u8, u8) {
    color_at_offset(data, pixel_offset(width, x, y))
}

/// Channel `k` (0 = red, 1 = green, 2 = blue, 3 = alpha) of an RGBA value.
pub open spec fn channel(r: u8, g: u8, b: u8, a: u8, k: int) -> u8 {
    if k == 0 {
        r
    } else if k == 1 {
        g
    } else if k == 2 {
        b
    } else {
        a
    }
}

/// The offset of an in-range pixel is computed without overflow and leaves
/// room for its four bytes.
proof fn lemma_offset_fits(width: int, x: int, y: int, len: int)
    requires
        0 <= x < width,
        0 <= y,
        pixel_offset(width, x, y) + 4 <= len,
    ensures
        0 <= y * width,
{
    assert(0 <= y * width) by (nonlinear_arith)
        requires
            0 <= y,
            0 <= width,
    ;
}

/// Reads the four channels of pixel `(x, y)`.
pub fn get_pixel(data: &Vec<u8>, width: u32, x: u32, y: u32) -> (r: (u8, u8, u8, u8))
    requires
        x < width,
        pixel_offset(width as int, x as int, y as int) + 4 <= data@.len(),
    ensures
        ({
            let off = pixel_offset(width as int, x as int, y as int);
            r == (data@[off], data@[off + 1], data@[off + 2], data@[off + 3])
        }),
{
    proof {
        lemma_offset_fits(width as int, x as int, y as int, data@.len() as int);
    }
    let len: usize = data.len();
    let row: usize = y as usize;
    let w: usize = width as usize;
    assert(row * w + x + 4 <= len) by (nonlinear_arith)
        requires
            (row * w + x) * 4 + 4 <= len,
            0 <= row * w,
    ;
    let offset: usize = (row * w + x as usize) * 4;
    (data[offset], data[offset + 1], data[offset + 2], data[offset + 3])
}

/// Writes the four channels of pixel `(x, y)`; every other byte is kept.
pub fn set_pixel(data: &mut Vec<u8>, width: u32, x: u32, y: u32, r: u8, g: u8, b: u8, a: u8)
    requires
        x < width,
        pixel_offset(width as int, x as int, y as int) + 4 <= old(data)@.len(),
    ensures
        final(data)@.len() == old(data)@.len(),
        forall|i: int|
            0 <= i < old(data)@.len() ==> #[trigger] final(data)@[i] == {
                let off = pixel_offset(width as int, x as int, y as int);
                if off <= i < off + 4 {
                    channel(r, g, b, a, i - off)
                } else {
                    old(data)@[i]
                }
            },
{
    proof {
        lemma_offset_fits(width as int, x as int, y as int, data@.len() as int);
    }
    let len: usize = data.len();
    let row: usize = y as usize;
    let w: usize = width as usize;
    assert(row * w + x + 4 <= len) by (nonlinear_arith)
        requires
            (row * w + x) * 4 + 4 <= len,
            0 <= row * w,
    ;
    let offset: usize = (row * w + x as usize) * 4;
    data.set(offset, r);
    data.set(offset + 1, g);
    data.set(offset + 2, b);
    data.set(offset + 3, a);
}

} // verus!
