//! Facts about every fill, stated over the model that `flood_fill`'s
//! contract uses.
use vstd::prelude::*;
use crate::color::{same_color, similar};
use crate::fill::buffer_fits;
use crate::pixel::{channel, color_at};
use crate::region::{
    adjacent, filled_image, fillable, in_grid, in_region, is_fill_path, lemma_pixel_index,
    lemma_seed_in_region, pixel_index, pixel_of_byte, seed_color,
};

verus! {

/// When the seed already has the fill colour, the fill returns the buffer
/// unchanged.
pub proof fn lemma_seed_match_is_noop(
    data: Seq<u8>,
    width: u32,
    height: u32,
    start_x: u32,
    start_y: u32,
    r: u8,
    g: u8,
    b: u8,
    tolerance: u8,
)
    requires
        same_color(color_at(data, width as int, start_x as int, start_y as int), (r, g, b)),
    ensures
        filled_image(
            data,
            width as int,
            height as int,
            (start_x as int, start_y as int),
            (r, g, b),
            tolerance,
        ) == data,
{
    let seed = (start_x as int, start_y as int);
    lemma_seed_in_region(data, width as int, height as int, seed, (r, g, b), tolerance);
    assert(filled_image(data, width as int, height as int, seed, (r, g, b), tolerance) =~= data);
}

/// Filling the result of a fill again, with the same arguments, changes
/// nothing.
pub proof fn lemma_fill_idempotent(
    data: Seq<u8>,
    width: u32,
    height: u32,
    start_x: u32,
    start_y: u32,
    r: u8,
    g: u8,
    b: u8,
    tolerance: u8,
)
    requires
        start_x < width,
        start_y < height,
        buffer_fits(data.len() as int, width as int, height as int),
    ensures
        ({
            let once = filled_image(
                data,
                width as int,
                height as int,
                (start_x as int, start_y as int),
                (r, g, b),
                tolerance,
            );
            filled_image(
                once,
                width as int,
                height as int,
                (start_x as int, start_y as int),
                (r, g, b),
                tolerance,
            ) == once
        }),
{
    let w = width as int;
    let h = height as int;
    let seed = (start_x as int, start_y as int);
    let fill = (r, g, b);
    let once = filled_image(data, w, h, seed, fill, tolerance);
    lemma_seed_in_region(data, w, h, seed, fill, tolerance);
    if fillable(data, w, h, seed, fill, tolerance, seed) {
        lemma_pixel_index(w, h, seed);
        let k = pixel_index(w, seed);
        assert(k * 4 + 4 <= data.len()) by (nonlinear_arith)
            requires
                0 <= k < w * h,
                data.len() == w * h * 4,
        ;
        assert forall|i: int| k * 4 <= i < k * 4 + 4 implies #[trigger] once[i] == channel(
            r,
            g,
            b,
            255,
            i - k * 4,
        ) by {
            assert(i / 4 == k);
            assert(pixel_of_byte(w, i) == seed);
        }
        assert(color_at(once, w, seed.0, seed.1) == fill);
        lemma_seed_match_is_noop(once, width, height, start_x, start_y, r, g, b, tolerance);
    } else {
        assert(once =~= data);
    }
}

/// A fill changes only bytes of pixels in the region: those joined to the
/// seed by a 4-connected path of pixels similar to the seed's colour.
pub proof fn lemma_fill_contained(
    data: Seq<u8>,
    width: u32,
    height: u32,
    start_x: u32,
    start_y: u32,
    r: u8,
    g: u8,
    b: u8,
    tolerance: u8,
)
    ensures
        ({
            let w = width as int;
            let h = height as int;
            let seed = (start_x as int, start_y as int);
            let out = filled_image(data, w, h, seed, (r, g, b), tolerance);
            &&& out.len() == data.len()
            &&& forall|i: int|
                0 <= i < data.len() && #[trigger] out[i] != data[i] ==> in_region(
                    data,
                    w,
                    h,
                    seed,
                    (r, g, b),
                    tolerance,
                    pixel_of_byte(w, i),
                )
        }),
{
}

/// Position of a pixel along one axis: its column, or its row.
pub open spec fn along(p: (int, int), rows: bool) -> int {
    if rows {
        p.1
    } else {
        p.0
    }
}

/// Every pixel of a fill path stays on the seed's side of a line of
/// dissimilar pixels.
proof fn lemma_path_stays_on_side(
    data: Seq<u8>,
    width: int,
    height: int,
    seed: (int, int),
    fill: (u8, u8, u8),
    tolerance: u8,
    rows: bool,
    line: int,
    path: Seq<(int, int)>,
    i: int,
)
    requires
        along(seed, rows) != line,
        forall|p: (int, int)|
            in_grid(width, height, p) && along(p, rows) == line ==> !similar(
                seed_color(data, width, seed),
                #[trigger] color_at(data, width, p.0, p.1),
                tolerance,
            ),
        is_fill_path(data, width, height, seed, fill, tolerance, path),
        0 <= i < path.len(),
    ensures
        along(path[i], rows) != line,
        (along(path[i], rows) < line) == (along(seed, rows) < line),
    decreases i,
{
    assert(fillable(data, width, height, seed, fill, tolerance, path[i]));
    if i > 0 {
        lemma_path_stays_on_side(data, width, height, seed, fill, tolerance, rows, line, path, i - 1);
        assert(adjacent(path[i - 1], path[i]));
    }
}

/// A full column (`rows == false`) or row (`rows == true`) of pixels that
/// are not similar to the seed's colour contains the fill: no pixel on that
/// line or on its far side from the seed is changed.
pub proof fn lemma_boundary_contains_fill(
    data: Seq<u8>,
    width: u32,
    height: u32,
    start_x: u32,
    start_y: u32,
    r: u8,
    g: u8,
    b: u8,
    tolerance: u8,
    rows: bool,
    line: int,
)
    requires
        0 < width,
        along((start_x as int, start_y as int), rows) != line,
        forall|p: (int, int)|
            in_grid(width as int, height as int, p) && along(p, rows) == line ==> !similar(
                color_at(data, width as int, start_x as int, start_y as int),
                #[trigger] color_at(data, width as int, p.0, p.1),
                tolerance,
            ),
    ensures
        ({
            let w = width as int;
            let h = height as int;
            let seed = (start_x as int, start_y as int);
            let out = filled_image(data, w, h, seed, (r, g, b), tolerance);
            forall|i: int|
                0 <= i < data.len() && ({
                    let q = pixel_of_byte(w, i);
                    along(q, rows) == line || (along(q, rows) < line) != (along(seed, rows)
                        < line)
                }) ==> #[trigger] out[i] == data[i]
        }),
{
    let w = width as int;
    let h = height as int;
    let seed = (start_x as int, start_y as int);
    let fill = (r, g, b);
    let out = filled_image(data, w, h, seed, fill, tolerance);
    assert forall|i: int|
        0 <= i < data.len() && ({
            let q = pixel_of_byte(w, i);
            along(q, rows) == line || (along(q, rows) < line) != (along(seed, rows) < line)
        }) implies #[trigger] out[i] == data[i] by {
        let q = pixel_of_byte(w, i);
        if in_region(data, w, h, seed, fill, tolerance, q) {
            let path = choose|path: Seq<(int, int)>|
                #[trigger] is_fill_path(data, w, h, seed, fill, tolerance, path) && path.last()
                    == q;
            lemma_path_stays_on_side(data, w, h, seed, fill, tolerance, rows, line, path, path.len() - 1);
        }
    }
}

} // verus!
