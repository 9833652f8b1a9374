//! Counting the tiles of a grid that have a property.

use vstd::prelude::*;

verus! {

/// How many of the first `x` tiles of row `y` are among the given.
pub open spec fn row_count(tiles: spec_fn(int, int) -> bool, y: int, x: int) -> nat
    decreases x,
{
    if x <= 0 {
        0
    } else {
        row_count(tiles, y, x - 1) + (if tiles(x - 1, y) {
            1nat
        } else {
            0nat
        })
    }
}

/// How many tiles of the first `y` rows of a floor `w` wide are among the
/// given.
pub open spec fn grid_count(tiles: spec_fn(int, int) -> bool, w: int, y: int) -> nat
    decreases y,
{
    if y <= 0 {
        0
    } else {
        grid_count(tiles, w, y - 1) + row_count(tiles, y - 1, w)
    }
}

/// Fewer tiles of a row are counted among fewer.
pub proof fn lemma_row_le(f: spec_fn(int, int) -> bool, g: spec_fn(int, int) -> bool, y: int, x: int)
    requires
        forall|i: int| 0 <= i < x && #[trigger] f(i, y) ==> g(i, y),
    ensures
        row_count(f, y, x) <= row_count(g, y, x),
    decreases x,
{
    if x > 0 {
        lemma_row_le(f, g, y, x - 1);
    }
}

/// Fewer tiles are counted among fewer.
pub proof fn lemma_count_le(f: spec_fn(int, int) -> bool, g: spec_fn(int, int) -> bool, w: int, y: int)
    requires
        forall|i: int, j: int| 0 <= i < w && 0 <= j < y && #[trigger] f(i, j) ==> g(i, j),
    ensures
        grid_count(f, w, y) <= grid_count(g, w, y),
    decreases y,
{
    if y > 0 {
        lemma_count_le(f, g, w, y - 1);
        lemma_row_le(f, g, y - 1, w);
    }
}

/// One tile more of a row among the given is counted as one more.
pub proof fn lemma_row_step(f: spec_fn(int, int) -> bool, g: spec_fn(int, int) -> bool, y: int, x: int, x0: int)
    requires
        !f(x0, y),
        g(x0, y),
        forall|i: int| 0 <= i < x && i != x0 ==> #[trigger] f(i, y) == g(i, y),
    ensures
        row_count(g, y, x) == row_count(f, y, x) + (if 0 <= x0 < x {
            1nat
        } else {
            0nat
        }),
    decreases x,
{
    if x > 0 {
        lemma_row_step(f, g, y, x - 1, x0);
        if x - 1 != x0 {
            assert(f(x - 1, y) == g(x - 1, y));
        }
    }
}

/// One tile more among the given is counted as one more.
pub proof fn lemma_count_step(
    f: spec_fn(int, int) -> bool,
    g: spec_fn(int, int) -> bool,
    w: int,
    y: int,
    x0: int,
    y0: int,
)
    requires
        0 <= x0 < w,
        !f(x0, y0),
        g(x0, y0),
        forall|i: int, j: int|
            0 <= i < w && 0 <= j < y && !(i == x0 && j == y0) ==> #[trigger] f(i, j) == g(i, j),
    ensures
        grid_count(g, w, y) == grid_count(f, w, y) + (if 0 <= y0 < y {
            1nat
        } else {
            0nat
        }),
    decreases y,
{
    if y > 0 {
        lemma_count_step(f, g, w, y - 1, x0, y0);
        if y - 1 == y0 {
            lemma_row_step(f, g, y - 1, w, x0);
        } else {
            assert forall|i: int| 0 <= i < w implies #[trigger] f(i, y - 1) == g(i, y - 1) by {}
            lemma_row_le(f, g, y - 1, w);
            lemma_row_le(g, f, y - 1, w);
        }
    }
}

/// No more tiles of a row are counted than it has.
pub proof fn lemma_row_bound(f: spec_fn(int, int) -> bool, y: int, x: int)
    requires
        0 <= x,
    ensures
        row_count(f, y, x) <= x,
    decreases x,
{
    if x > 0 {
        lemma_row_bound(f, y, x - 1);
    }
}

/// No more tiles are counted than the floor has.
pub proof fn lemma_count_bound(f: spec_fn(int, int) -> bool, w: int, y: int)
    requires
        0 <= w,
        0 <= y,
    ensures
        grid_count(f, w, y) <= w * y,
    decreases y,
{
    if y > 0 {
        lemma_count_bound(f, w, y - 1);
        lemma_row_bound(f, y - 1, w);
        assert(w * y == w * (y - 1) + w) by (nonlinear_arith);
    } else {
        assert(w * y == 0) by (nonlinear_arith)
            requires
                y == 0,
        ;
    }
}

/// Among more tiles, of which one is not among the fewer, more are
/// counted.
pub proof fn lemma_count_more(
    f: spec_fn(int, int) -> bool,
    g: spec_fn(int, int) -> bool,
    w: int,
    h: int,
    x0: int,
    y0: int,
)
    requires
        0 <= x0 < w,
        0 <= y0 < h,
        !f(x0, y0),
        g(x0, y0),
        forall|i: int, j: int| 0 <= i < w && 0 <= j < h && #[trigger] f(i, j) ==> g(i, j),
    ensures
        grid_count(g, w, h) >= grid_count(f, w, h) + 1,
{
    let one_more = |i: int, j: int| f(i, j) || (i == x0 && j == y0);
    lemma_count_step(f, one_more, w, h, x0, y0);
    lemma_count_le(one_more, g, w, h);
}

} // verus!
