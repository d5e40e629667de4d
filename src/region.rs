//! The mathematical model of a fill: which pixels the seed reaches through
//! similar neighbours, and the image that results from painting them.
use vstd::prelude::*;
use vstd::arithmetic::div_mod::{lemma_fundamental_div_mod, lemma_fundamental_div_mod_converse};
use crate::color::{same_color, similar};
use crate::pixel::{channel, color_at};

verus! {

/// A coordinate lies inside a `width` by `height` image.
pub open spec fn in_grid(width: int, height: int, p: (int, int)) -> bool {
    0 <= p.0 < width && 0 <= p.1 < height
}

/// Row-major index of pixel `p`.
pub open spec fn pixel_index(width: int, p: (int, int)) -> int {
    p.1 * width + p.0
}

/// The pixel with row-major index `k`.
pub open spec fn pixel_at_index(width: int, k: int) -> (int, int) {
    (k % width, k / width)
}

/// The pixel that byte `i` of the buffer belongs to.
pub open spec fn pixel_of_byte(width: int, i: int) -> (int, int) {
    pixel_at_index(width, i / 4)
}

/// 4-connectivity: the two pixels differ by one step along one axis.
pub open spec fn adjacent(p: (int, int), q: (int, int)) -> bool {
    (p.0 == q.0 && (p.1 - q.1 == 1 || q.1 - p.1 == 1)) || (p.1 == q.1 && (p.0 - q.0 == 1
        || q.0 - p.0 == 1))
}

/// The reference colour of a fill: that of the seed pixel before any change.
pub open spec fn seed_color(data: Seq<u8>, width: int, seed: (int, int)) -> (u8, u8, u8) {
    color_at(data, width, seed.0, seed.1)
}

/// A pixel the fill may paint: inside the image, not already of the fill
/// colour, and similar to the reference colour.
pub open spec fn fillable(
    data: Seq<u8>,
    width: int,
    height: int,
    seed: (int, int),
    fill: (u8, u8, u8),
    tolerance: u8,
    p: (int, int),
) -> bool {
    let c = color_at(data, width, p.0, p.1);
    in_grid(width, height, p) && !same_color(c, fill) && similar(
        seed_color(data, width, seed),
        c,
        tolerance,
    )
}

/// A 4-connected path of fillable pixels that starts at the seed.
pub open spec fn is_fill_path(
    data: Seq<u8>,
    width: int,
    height: int,
    seed: (int, int),
    fill: (u8, u8, u8),
    tolerance: u8,
    path: Seq<(int, int)>,
) -> bool {
    &&& path.len() > 0
    &&& path[0] == seed
    &&& forall|i: int|
        0 <= i < path.len() ==> fillable(data, width, height, seed, fill, tolerance, #[trigger] path[i])
    &&& forall|i: int| 0 <= i < path.len() - 1 ==> adjacent(#[trigger] path[i], path[i + 1])
}

/// The region of a fill: the pixels at the end of some fill path.
pub open spec fn in_region(
    data: Seq<u8>,
    width: int,
    height: int,
    seed: (int, int),
    fill: (u8, u8, u8),
    tolerance: u8,
    p: (int, int),
) -> bool {
    exists|path: Seq<(int, int)>|
        #[trigger] is_fill_path(data, width, height, seed, fill, tolerance, path) && path.last()
            == p
}

/// The buffer after the fill: every pixel of the region takes the fill
/// colour with an opaque alpha, every other byte is kept.
pub open spec fn filled_image(
    data: Seq<u8>,
    width: int,
    height: int,
    seed: (int, int),
    fill: (u8, u8, u8),
    tolerance: u8,
) -> Seq<u8> {
    Seq::new(
        data.len(),
        |i: int|
            if in_region(data, width, height, seed, fill, tolerance, pixel_of_byte(width, i)) {
                channel(fill.0, fill.1, fill.2, 255, i % 4)
            } else {
                data[i]
            },
    )
}

/// An in-grid pixel has an index below `width * height` from which it is
/// recovered.
pub proof fn lemma_pixel_index(width: int, height: int, p: (int, int))
    requires
        in_grid(width, height, p),
    ensures
        0 <= pixel_index(width, p) < width * height,
        pixel_at_index(width, pixel_index(width, p)) == p,
{
    let k = pixel_index(width, p);
    assert(0 <= p.1 * width) by (nonlinear_arith)
        requires
            0 <= p.1,
            0 < width,
    ;
    assert(p.1 * width + p.0 < width * height) by (nonlinear_arith)
        requires
            0 <= p.0 < width,
            0 <= p.1 < height,
    ;
    lemma_fundamental_div_mod_converse(k, width, p.1, p.0);
}

/// An index below `width * height` names an in-grid pixel whose index it is.
pub proof fn lemma_index_pixel(width: int, height: int, k: int)
    requires
        0 < width,
        0 <= k < width * height,
    ensures
        in_grid(width, height, pixel_at_index(width, k)),
        pixel_index(width, pixel_at_index(width, k)) == k,
{
    lemma_fundamental_div_mod(k, width);
    assert(k / width < height) by (nonlinear_arith)
        requires
            0 < width,
            0 <= k < width * height,
            k == width * (k / width) + (k % width),
            0 <= k % width,
    ;
    assert(0 <= k / width) by (nonlinear_arith)
        requires
            0 < width,
            0 <= k,
    ;
    assert(k / width * width == width * (k / width)) by (nonlinear_arith);
}

/// A fillable neighbour of a region pixel is in the region.
pub proof fn lemma_region_grows(
    data: Seq<u8>,
    width: int,
    height: int,
    seed: (int, int),
    fill: (u8, u8, u8),
    tolerance: u8,
    p: (int, int),
    q: (int, int),
)
    requires
        in_region(data, width, height, seed, fill, tolerance, p),
        adjacent(p, q),
        fillable(data, width, height, seed, fill, tolerance, q),
    ensures
        in_region(data, width, height, seed, fill, tolerance, q),
{
    let path = choose|path: Seq<(int, int)>|
        #[trigger] is_fill_path(data, width, height, seed, fill, tolerance, path) && path.last()
            == p;
    let longer = path.push(q);
    assert forall|i: int| 0 <= i < longer.len() - 1 implies adjacent(
        #[trigger] longer[i],
        longer[i + 1],
    ) by {
        if i < path.len() - 1 {
            assert(adjacent(path[i], path[i + 1]));
        }
    }
    assert(is_fill_path(data, width, height, seed, fill, tolerance, longer));
}

/// The seed is in the region exactly when it is fillable.
pub proof fn lemma_seed_in_region(
    data: Seq<u8>,
    width: int,
    height: int,
    seed: (int, int),
    fill: (u8, u8, u8),
    tolerance: u8,
)
    ensures
        fillable(data, width, height, seed, fill, tolerance, seed) ==> in_region(
            data,
            width,
            height,
            seed,
            fill,
            tolerance,
            seed,
        ),
        !fillable(data, width, height, seed, fill, tolerance, seed) ==> forall|p: (int, int)|
            !in_region(data, width, height, seed, fill, tolerance, p),
{
    if fillable(data, width, height, seed, fill, tolerance, seed) {
        let path = seq![seed];
        assert(is_fill_path(data, width, height, seed, fill, tolerance, path));
    } else {
        assert forall|p: (int, int)| !in_region(data, width, height, seed, fill, tolerance, p) by {
            if in_region(data, width, height, seed, fill, tolerance, p) {
                let path = choose|path: Seq<(int, int)>|
                    #[trigger] is_fill_path(data, width, height, seed, fill, tolerance, path)
                        && path.last() == p;
                assert(fillable(data, width, height, seed, fill, tolerance, path[0]));
            }
        }
    }
}

/// A set of pixel indices that holds the seed (when fillable) and every
/// fillable neighbour of its members holds every pixel of the region.
pub proof fn lemma_closed_set_covers_region(
    data: Seq<u8>,
    width: int,
    height: int,
    seed: (int, int),
    fill: (u8, u8, u8),
    tolerance: u8,
    marked: Set<int>,
    q: (int, int),
)
    requires
        fillable(data, width, height, seed, fill, tolerance, seed) ==> marked.contains(
            pixel_index(width, seed),
        ),
        forall|p: (int, int), r: (int, int)|
            in_grid(width, height, p) && marked.contains(pixel_index(width, p)) && #[trigger] adjacent(
                p,
                r,
            ) && fillable(data, width, height, seed, fill, tolerance, r) ==> marked.contains(
                pixel_index(width, r),
            ),
        in_region(data, width, height, seed, fill, tolerance, q),
    ensures
        marked.contains(pixel_index(width, q)),
{
    let path = choose|path: Seq<(int, int)>|
        #[trigger] is_fill_path(data, width, height, seed, fill, tolerance, path) && path.last()
            == q;
    lemma_path_marked(data, width, height, seed, fill, tolerance, marked, path, path.len() - 1);
}

proof fn lemma_path_marked(
    data: Seq<u8>,
    width: int,
    height: int,
    seed: (int, int),
    fill: (u8, u8, u8),
    tolerance: u8,
    marked: Set<int>,
    path: Seq<(int, int)>,
    i: int,
)
    requires
        fillable(data, width, height, seed, fill, tolerance, seed) ==> marked.contains(
            pixel_index(width, seed),
        ),
        forall|p: (int, int), r: (int, int)|
            in_grid(width, height, p) && marked.contains(pixel_index(width, p)) && #[trigger] adjacent(
                p,
                r,
            ) && fillable(data, width, height, seed, fill, tolerance, r) ==> marked.contains(
                pixel_index(width, r),
            ),
        is_fill_path(data, width, height, seed, fill, tolerance, path),
        0 <= i < path.len(),
    ensures
        marked.contains(pixel_index(width, path[i])),
    decreases i,
{
    assert(fillable(data, width, height, seed, fill, tolerance, path[i]));
    if i > 0 {
        lemma_path_marked(data, width, height, seed, fill, tolerance, marked, path, i - 1);
        assert(fillable(data, width, height, seed, fill, tolerance, path[i - 1]));
        assert(adjacent(path[i - 1], path[i]));
    }
}

} // verus!
