//! The fill driver: validates the request, then grows the region from the
//! seed with an explicit stack of pending coordinates.
use vstd::prelude::*;
use vstd::set_lib::{lemma_int_range, lemma_len_subset, set_int_range};
use crate::color::{match_colors, match_tolerance};
use crate::pixel::{channel, color_at, get_pixel, set_pixel};
use crate::region::{
    adjacent, filled_image, fillable, in_grid, in_region, lemma_closed_set_covers_region,
    lemma_index_pixel, lemma_pixel_index, lemma_region_grows, lemma_seed_in_region, pixel_at_index,
    pixel_index, seed_color,
};

verus! {

/// Why a fill request was refused.
#[derive(Debug, Clone, Copy, PartialEq, Eq, Structural)]
pub enum FillError {
    /// The rendering surface could not report its size.
    InvalidSurface,
    /// The seed lies outside the image.
    OutOfBounds,
    /// The buffer length is not `width * height * 4`.
    DimensionMismatch,
}

/// Some entry of the stack holds coordinate `q`.
pub open spec fn on_stack(stack: Seq<(u32, u32)>, q: (int, int)) -> bool {
    exists|j: int| 0 <= j < stack.len() && (#[trigger] stack[j]).0 as int == q.0 && stack[j].1 as int == q.1
}

/// `data` is `orig` with the pixels whose indices are in `marked` painted.
pub open spec fn painted(data: Seq<u8>, orig: Seq<u8>, marked: Set<int>, fill: (u8, u8, u8)) -> bool {
    &&& data.len() == orig.len()
    &&& forall|i: int|
        0 <= i < orig.len() ==> #[trigger] data[i] == if marked.contains(i / 4) {
            channel(fill.0, fill.1, fill.2, 255, i % 4)
        } else {
            orig[i]
        }
}

proof fn lemma_byte_of_pixel(k: int, i: int)
    requires
        0 <= k,
    ensures
        (k * 4 <= i < k * 4 + 4) <==> (i / 4 == k),
        k * 4 <= i < k * 4 + 4 ==> i % 4 == i - k * 4,
{
}

proof fn lemma_stack_kept(old_stack: Seq<(u32, u32)>, new_stack: Seq<(u32, u32)>, q: (int, int))
    requires
        on_stack(old_stack, q),
        old_stack.len() > 0,
        !(old_stack.last().0 as int == q.0 && old_stack.last().1 as int == q.1),
        new_stack.len() >= old_stack.len() - 1,
        forall|j: int| 0 <= j < old_stack.len() - 1 ==> new_stack[j] == old_stack[j],
    ensures
        on_stack(new_stack, q),
{
    let j = choose|j: int|
        0 <= j < old_stack.len() && (#[trigger] old_stack[j]).0 as int == q.0 && old_stack[j].1 as int
            == q.1;
    assert(j < old_stack.len() - 1);
    assert(new_stack[j] == old_stack[j]);
}

proof fn lemma_stack_top(stack: Seq<(u32, u32)>, j: int, q: (int, int))
    requires
        0 <= j < stack.len(),
        stack[j].0 as int == q.0,
        stack[j].1 as int == q.1,
    ensures
        on_stack(stack, q),
{
}

/// Every marked pixel is in the region.
#[verifier::opaque]
spec fn marked_in_region(
    orig: Seq<u8>,
    w: int,
    h: int,
    seed: (int, int),
    fill: (u8, u8, u8),
    tolerance: u8,
    marked: Set<int>,
) -> bool {
    forall|k: int|
        #[trigger] marked.contains(k) ==> in_region(
            orig,
            w,
            h,
            seed,
            fill,
            tolerance,
            pixel_at_index(w, k),
        )
}

/// Every fillable stack entry is in the region.
#[verifier::opaque]
spec fn stack_in_region(
    orig: Seq<u8>,
    w: int,
    h: int,
    seed: (int, int),
    fill: (u8, u8, u8),
    tolerance: u8,
    stack: Seq<(u32, u32)>,
) -> bool {
    forall|j: int|
        0 <= j < stack.len() && fillable(
            orig,
            w,
            h,
            seed,
            fill,
            tolerance,
            ((#[trigger] stack[j]).0 as int, stack[j].1 as int),
        ) ==> in_region(orig, w, h, seed, fill, tolerance, (stack[j].0 as int, stack[j].1 as int))
}

/// Nothing fillable is lost: the seed and every fillable neighbour of a
/// marked pixel are marked or still waiting on the stack.
#[verifier::opaque]
spec fn nothing_lost(
    orig: Seq<u8>,
    w: int,
    h: int,
    seed: (int, int),
    fill: (u8, u8, u8),
    tolerance: u8,
    marked: Set<int>,
    stack: Seq<(u32, u32)>,
) -> bool {
    &&& fillable(orig, w, h, seed, fill, tolerance, seed) ==> marked.contains(pixel_index(w, seed))
        || on_stack(stack, seed)
    &&& forall|p: (int, int), q: (int, int)|
        in_grid(w, h, p) && marked.contains(pixel_index(w, p)) && #[trigger] adjacent(p, q)
            && fillable(orig, w, h, seed, fill, tolerance, q) ==> marked.contains(
            pixel_index(w, q),
        ) || on_stack(stack, q)
}

/// Popping an entry that needs no painting keeps the invariants.
proof fn lemma_skip_step(
    orig: Seq<u8>,
    w: int,
    h: int,
    seed: (int, int),
    fill: (u8, u8, u8),
    tolerance: u8,
    marked: Set<int>,
    before: Seq<(u32, u32)>,
)
    requires
        before.len() > 0,
        ({
            let e = (before.last().0 as int, before.last().1 as int);
            !(fillable(orig, w, h, seed, fill, tolerance, e) && !marked.contains(pixel_index(w, e)))
        }),
        nothing_lost(orig, w, h, seed, fill, tolerance, marked, before),
        stack_in_region(orig, w, h, seed, fill, tolerance, before),
    ensures
        nothing_lost(orig, w, h, seed, fill, tolerance, marked, before.drop_last()),
        stack_in_region(orig, w, h, seed, fill, tolerance, before.drop_last()),
{
    reveal(nothing_lost);
    reveal(stack_in_region);
    let after = before.drop_last();
    let e = (before.last().0 as int, before.last().1 as int);
    assert forall|j: int| 0 <= j < before.len() - 1 implies after[j] == before[j] by {}
    if fillable(orig, w, h, seed, fill, tolerance, seed) && !marked.contains(pixel_index(w, seed)) {
        lemma_stack_kept(before, after, seed);
    }
    assert forall|p: (int, int), q: (int, int)|
        in_grid(w, h, p) && marked.contains(pixel_index(w, p)) && #[trigger] adjacent(p, q)
            && fillable(orig, w, h, seed, fill, tolerance, q) implies marked.contains(
            pixel_index(w, q),
        ) || on_stack(after, q) by {
        if !marked.contains(pixel_index(w, q)) {
            lemma_stack_kept(before, after, q);
        }
    }
    assert forall|j: int|
        0 <= j < after.len() && fillable(
            orig,
            w,
            h,
            seed,
            fill,
            tolerance,
            ((#[trigger] after[j]).0 as int, after[j].1 as int),
        ) implies in_region(orig, w, h, seed, fill, tolerance, (after[j].0 as int, after[j].1 as int)) by {
        assert(after[j] == before[j]);
    }
}

/// Painting the popped entry and pushing its neighbours keeps the invariants.
proof fn lemma_paint_step(
    orig: Seq<u8>,
    w: int,
    h: int,
    seed: (int, int),
    fill: (u8, u8, u8),
    tolerance: u8,
    marked: Set<int>,
    before: Seq<(u32, u32)>,
    after: Seq<(u32, u32)>,
)
    requires
        0 < w,
        before.len() > 0,
        after.len() >= before.len() - 1,
        forall|j: int| 0 <= j < before.len() - 1 ==> after[j] == before[j],
        ({
            let e = (before.last().0 as int, before.last().1 as int);
            &&& fillable(orig, w, h, seed, fill, tolerance, e)
            &&& !marked.contains(pixel_index(w, e))
            &&& forall|q: (int, int)| #[trigger] adjacent(e, q) && in_grid(w, h, q) ==> on_stack(after, q)
            &&& forall|j: int|
                before.len() - 1 <= j < after.len() ==> adjacent(
                    e,
                    ((#[trigger] after[j]).0 as int, after[j].1 as int),
                )
        }),
        nothing_lost(orig, w, h, seed, fill, tolerance, marked, before),
        stack_in_region(orig, w, h, seed, fill, tolerance, before),
        marked_in_region(orig, w, h, seed, fill, tolerance, marked),
    ensures
        ({
            let e = (before.last().0 as int, before.last().1 as int);
            let next = marked.insert(pixel_index(w, e));
            &&& nothing_lost(orig, w, h, seed, fill, tolerance, next, after)
            &&& stack_in_region(orig, w, h, seed, fill, tolerance, after)
            &&& marked_in_region(orig, w, h, seed, fill, tolerance, next)
        }),
{
    reveal(nothing_lost);
    reveal(stack_in_region);
    reveal(marked_in_region);
    let e = (before.last().0 as int, before.last().1 as int);
    let k = pixel_index(w, e);
    let next = marked.insert(k);
    lemma_pixel_index(w, h, e);
    assert(in_region(orig, w, h, seed, fill, tolerance, e)) by {
        let j = before.len() - 1;
        assert(before[j] == before.last());
    }
    assert forall|m: int| #[trigger] next.contains(m) implies in_region(
        orig,
        w,
        h,
        seed,
        fill,
        tolerance,
        pixel_at_index(w, m),
    ) by {
        if m != k {
            assert(marked.contains(m));
        }
    }
    if fillable(orig, w, h, seed, fill, tolerance, seed) && !next.contains(pixel_index(w, seed)) {
        assert(on_stack(before, seed));
        lemma_stack_kept(before, after, seed);
    }
    assert forall|p: (int, int), q: (int, int)|
        in_grid(w, h, p) && next.contains(pixel_index(w, p)) && #[trigger] adjacent(p, q)
            && fillable(orig, w, h, seed, fill, tolerance, q) implies next.contains(
            pixel_index(w, q),
        ) || on_stack(after, q) by {
        if pixel_index(w, p) == k {
            lemma_pixel_index(w, h, p);
            assert(p == e);
            assert(on_stack(after, q));
        } else if !next.contains(pixel_index(w, q)) {
            assert(marked.contains(pixel_index(w, p)));
            assert(on_stack(before, q));
            lemma_stack_kept(before, after, q);
        }
    }
    assert forall|j: int|
        0 <= j < after.len() && fillable(
            orig,
            w,
            h,
            seed,
            fill,
            tolerance,
            ((#[trigger] after[j]).0 as int, after[j].1 as int),
        ) implies in_region(orig, w, h, seed, fill, tolerance, (after[j].0 as int, after[j].1 as int)) by {
        if j < before.len() - 1 {
            assert(after[j] == before[j]);
        } else {
            lemma_region_grows(orig, w, h, seed, fill, tolerance, e, (after[j].0 as int, after[j].1 as int));
        }
    }
}

/// Paints the region of the seed in place.
#[verifier::rlimit(40)]
fn fill_from_seed(
    data: &mut Vec<u8>,
    width: u32,
    height: u32,
    start_x: u32,
    start_y: u32,
    r: u8,
    g: u8,
    b: u8,
    tolerance: u8,
)
    requires
        start_x < width,
        start_y < height,
        old(data)@.len() == width * height * 4,
    ensures
        final(data)@ == filled_image(
            old(data)@,
            width as int,
            height as int,
            (start_x as int, start_y as int),
            (r, g, b),
            tolerance,
        ),
{
    let ghost orig = data@;
    let ghost w = width as int;
    let ghost h = height as int;
    let ghost n = w * h;
    let ghost seed = (start_x as int, start_y as int);
    let ghost fill = (r, g, b);
    proof {
        lemma_pixel_index(w, h, seed);
    }
    let (tr, tg, tb, _ta) = get_pixel(data, width, start_x, start_y);
    if match_colors(r, g, b, tr, tg, tb) {
        proof {
            lemma_seed_in_region(orig, w, h, seed, fill, tolerance);
            assert(data@ =~= filled_image(orig, w, h, seed, fill, tolerance));
        }
        return;
    }
    let mut stack: Vec<(u32, u32)> = Vec::new();
    stack.push((start_x, start_y));
    let ghost mut marked: Set<int> = Set::empty();
    proof {
        lemma_int_range(0, n);
        lemma_seed_in_region(orig, w, h, seed, fill, tolerance);
        lemma_stack_top(stack@, 0, seed);
        reveal(nothing_lost);
        reveal(stack_in_region);
        reveal(marked_in_region);
        assert(painted(data@, orig, marked, fill));
    }
    while stack.len() > 0
        invariant
            w == width as int,
            h == height as int,
            n == w * h,
            seed == (start_x as int, start_y as int),
            fill == (r, g, b),
            start_x < width,
            start_y < height,
            orig.len() == n * 4,
            (tr, tg, tb) == seed_color(orig, w, seed),
            painted(data@, orig, marked, fill),
            marked.finite(),
            marked.subset_of(set_int_range(0, n)),
            set_int_range(0, n).finite(),
            set_int_range(0, n).len() == n,
            marked_in_region(orig, w, h, seed, fill, tolerance, marked),
            nothing_lost(orig, w, h, seed, fill, tolerance, marked, stack@),
            stack_in_region(orig, w, h, seed, fill, tolerance, stack@),
        decreases n - marked.len(), stack@.len(),
    {
        proof {
            lemma_len_subset(marked, set_int_range(0, n));
        }
        let ghost before = stack@;
        let (x, y) = stack.pop().unwrap();
        let ghost e = (x as int, y as int);
        let ghost k = pixel_index(w, e);
        let mut paint = false;
        if x < width && y < height {
            proof {
                lemma_pixel_index(w, h, e);
                lemma_byte_of_pixel(k, k * 4);
                lemma_byte_of_pixel(k, k * 4 + 1);
                lemma_byte_of_pixel(k, k * 4 + 2);
            }
            let (cr, cg, cb, _ca) = get_pixel(data, width, x, y);
            proof {
                if !marked.contains(k) {
                    assert((cr, cg, cb) == color_at(orig, w, e.0, e.1));
                }
            }
            paint = !match_colors(r, g, b, cr, cg, cb) && match_tolerance(
                tr,
                tg,
                tb,
                cr,
                cg,
                cb,
                tolerance,
            );
        }
        assert(paint <==> fillable(orig, w, h, seed, fill, tolerance, e) && !marked.contains(k));
        if paint {
            set_pixel(data, width, x, y, r, g, b, 255);
            proof {
                let next = marked.insert(k);
                assert forall|i: int| 0 <= i < orig.len() implies #[trigger] data@[i] == if next.contains(i / 4) {
                    channel(fill.0, fill.1, fill.2, 255, i % 4)
                } else {
                    orig[i]
                } by {
                    lemma_byte_of_pixel(k, i);
                }
                assert(next.subset_of(set_int_range(0, n)));
                lemma_len_subset(next, set_int_range(0, n));
            }
            let ghost base = stack@.len() as int;
            stack.push((x + 1, y));
            if x > 0 {
                stack.push((x - 1, y));
            }
            let ghost below = stack@.len() as int;
            stack.push((x, y + 1));
            if y > 0 {
                stack.push((x, y - 1));
            }
            proof {
                let after = stack@;
                assert forall|q: (int, int)| #[trigger] adjacent(e, q) && in_grid(w, h, q) implies on_stack(after, q) by {
                    if q == (e.0 + 1, e.1) {
                        lemma_stack_top(after, base, q);
                    } else if q == (e.0 - 1, e.1) {
                        lemma_stack_top(after, base + 1, q);
                    } else if q == (e.0, e.1 + 1) {
                        lemma_stack_top(after, below, q);
                    } else {
                        lemma_stack_top(after, below + 1, q);
                    }
                }
                assert forall|j: int| 0 <= j < before.len() - 1 implies after[j] == before[j] by {}
                assert(before.last() == (x, y));
                lemma_paint_step(orig, w, h, seed, fill, tolerance, marked, before, after);
                marked = marked.insert(k);
            }
        } else {
            proof {
                assert(before.last() == (x, y));
                lemma_skip_step(orig, w, h, seed, fill, tolerance, marked, before);
                assert(stack@ == before.drop_last());
            }
        }
    }
    proof {
        reveal(nothing_lost);
        reveal(marked_in_region);
        let out = data@;
        let expected = filled_image(orig, w, h, seed, fill, tolerance);
        assert forall|i: int| 0 <= i < out.len() implies out[i] == expected[i] by {
            let m = i / 4;
            assert(0 <= m < n);
            lemma_index_pixel(w, h, m);
            let q = pixel_at_index(w, m);
            if in_region(orig, w, h, seed, fill, tolerance, q) {
                lemma_closed_set_covers_region(orig, w, h, seed, fill, tolerance, marked, q);
            }
        }
        assert(out =~= expected);
    }
}

/// The pixel buffer of a `width` by `height` image has four bytes per pixel.
pub open spec fn buffer_fits(len: int, width: int, height: int) -> bool {
    len == width * height * 4
}

/// Flood-fills the region of the seed `(start_x, start_y)` with the colour
/// `(r, g, b)` and an opaque alpha, and hands the buffer back.
///
/// A seed outside the image gives `OutOfBounds`; otherwise a buffer whose
/// length is not `width * height * 4` gives `DimensionMismatch`. Nothing is
/// written before either check.
pub fn flood_fill(
    data: Vec<u8>,
    width: u32,
    height: u32,
    start_x: u32,
    start_y: u32,
    r: u8,
    g: u8,
    b: u8,
    tolerance: u8,
) -> (res: Result<Vec<u8>, FillError>)
    ensures
        match res {
            Ok(out) => {
                &&& start_x < width && start_y < height
                &&& buffer_fits(data@.len() as int, width as int, height as int)
                &&& out@ == filled_image(
                    data@,
                    width as int,
                    height as int,
                    (start_x as int, start_y as int),
                    (r, g, b),
                    tolerance,
                )
            },
            Err(e) => if !(start_x < width && start_y < height) {
                e == FillError::OutOfBounds
            } else {
                e == FillError::DimensionMismatch && !buffer_fits(
                    data@.len() as int,
                    width as int,
                    height as int,
                )
            },
        },
{
    if start_x >= width || start_y >= height {
        return Err(FillError::OutOfBounds);
    }
    let len: usize = data.len();
    let fits = match (width as usize).checked_mul(height as usize) {
        Some(pixels) => match pixels.checked_mul(4) {
            Some(bytes) => bytes == len,
            None => false,
        },
        None => false,
    };
    if !fits {
        proof {
            let wh = width as int * height as int;
            if wh > usize::MAX {
                assert(wh * 4 > len) by (nonlinear_arith)
                    requires
                        wh > usize::MAX,
                        len <= usize::MAX,
                ;
            }
        }
        return Err(FillError::DimensionMismatch);
    }
    let mut data = data;
    fill_from_seed(&mut data, width, height, start_x, start_y, r, g, b, tolerance);
    Ok(data)
}

} // verus!
