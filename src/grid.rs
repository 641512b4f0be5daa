//! Toroidal grid geometry and integer sums over grids stored flat,
//! column `x` holding cells `x * h .. x * h + h`.
use vstd::prelude::*;
use vstd::arithmetic::div_mod::lemma_fundamental_div_mod_converse;

verus! {

/// Flat position of cell `(x, y)` on a grid of height `h`.
pub open spec fn flat(x: int, y: int, h: int) -> int {
    x * h + y
}

/// The cell reached by one unit move in direction `dir` from `(x, y)` on a
/// `w` by `h` torus: 0 north (y + 1), 1 east (x + 1), 2 south (y - 1),
/// 3 west (x - 1), wrapping at the edges.
pub open spec fn moved(x: int, y: int, dir: int, w: int, h: int) -> (int, int) {
    if dir == 0 {
        (x, if y == h - 1 { 0 } else { y + 1 })
    } else if dir == 1 {
        (if x == w - 1 { 0 } else { x + 1 }, y)
    } else if dir == 2 {
        (x, if y == 0 { h - 1 } else { y - 1 })
    } else {
        (if x == 0 { w - 1 } else { x - 1 }, y)
    }
}

/// Moves wrap around the torus: east from the last column lands on column
/// 0, west from column 0 on the last column, north from the last row on row
/// 0, south from row 0 on the last row; the other coordinate stays.
pub proof fn lemma_wrap_at_edges(w: int, h: int)
    requires
        w >= 1,
        h >= 1,
    ensures
        forall|y: int| #[trigger] moved(w - 1, y, 1, w, h) == (0int, y),
        forall|y: int| #[trigger] moved(0, y, 3, w, h) == (w - 1, y),
        forall|x: int| #[trigger] moved(x, h - 1, 0, w, h) == (x, 0int),
        forall|x: int| #[trigger] moved(x, 0, 2, w, h) == (x, h - 1),
{
}

/// Where the unit moves in directions `dirs`, one after the other, lead
/// from `(x, y)` on the `w` by `h` torus.
pub open spec fn walk_spec(x: int, y: int, dirs: Seq<u64>, w: int, h: int) -> (int, int)
    decreases dirs.len(),
{
    if dirs.len() == 0 {
        (x, y)
    } else {
        let p = walk_spec(x, y, dirs.drop_last(), w, h);
        moved(p.0, p.1, dirs.last() as int, w, h)
    }
}

/// Distance between positions `a` and `b` on a ring of `n` positions.
pub open spec fn ring_dist(a: int, b: int, n: int) -> int {
    let d = if a >= b { a - b } else { b - a };
    if d <= n - d { d } else { n - d }
}

/// Manhattan distance on the `w` by `h` torus.
pub open spec fn torus_dist(x1: int, y1: int, x2: int, y2: int, w: int, h: int) -> int {
    ring_dist(x1, x2, w) + ring_dist(y1, y2, h)
}

/// Sum of a sequence of counts.
pub open spec fn total(s: Seq<u64>) -> int
    decreases s.len(),
{
    if s.len() == 0 {
        0
    } else {
        total(s.drop_last()) + s.last()
    }
}

pub proof fn lemma_flat_in_bounds(x: int, y: int, w: int, h: int)
    requires
        0 <= x < w,
        0 <= y < h,
    ensures
        0 <= flat(x, y, h) < w * h,
{
    assert(0 <= x * h) by (nonlinear_arith)
        requires
            0 <= x,
            0 <= h,
    ;
    assert(x * h + y < w * h) by (nonlinear_arith)
        requires
            0 <= x < w,
            0 <= y < h,
    ;
}

/// Distinct cells have distinct flat positions.
pub proof fn lemma_flat_injective(x1: int, y1: int, x2: int, y2: int, h: int)
    requires
        0 <= y1 < h,
        0 <= y2 < h,
        flat(x1, y1, h) == flat(x2, y2, h),
    ensures
        x1 == x2,
        y1 == y2,
{
    if x1 < x2 {
        assert(x1 * h + h <= x2 * h) by (nonlinear_arith)
            requires
                x1 < x2,
                0 <= h,
        ;
    } else if x2 < x1 {
        assert(x2 * h + h <= x1 * h) by (nonlinear_arith)
            requires
                x2 < x1,
                0 <= h,
        ;
    }
}

/// The column and row of flat position `i`.
pub proof fn lemma_unflat(i: int, x: int, y: int, h: int)
    requires
        0 <= y < h,
        i == flat(x, y, h),
    ensures
        i / h == x,
        i % h == y,
{
    lemma_fundamental_div_mod_converse(i, h, x, y);
}

/// A flat position below `w * h` lies in a column below `w`.
pub proof fn lemma_flat_column(x: int, y: int, w: int, h: int)
    requires
        0 <= x,
        0 <= y < h,
        flat(x, y, h) < w * h,
    ensures
        x < w,
{
    if x >= w {
        assert(w * h <= x * h) by (nonlinear_arith)
            requires
                w <= x,
                0 <= h,
        ;
    }
}

/// Moving on from flat position `flat(x, y, h)` to the next one.
pub proof fn lemma_flat_next(x: int, y: int, h: int)
    ensures
        flat(x, y, h) + 1 == if y + 1 == h { flat(x + 1, 0, h) } else { flat(x, y + 1, h) },
{
    assert((x + 1) * h == x * h + h) by (nonlinear_arith);
}

pub proof fn lemma_total_update(s: Seq<u64>, i: int, v: u64)
    requires
        0 <= i < s.len(),
    ensures
        total(s.update(i, v)) == total(s) - s[i] + v,
    decreases s.len(),
{
    let t = s.update(i, v);
    if i == s.len() - 1 {
        assert(t.drop_last() =~= s.drop_last());
    } else {
        assert(t.drop_last() =~= s.drop_last().update(i, v));
        lemma_total_update(s.drop_last(), i, v);
    }
}

pub proof fn lemma_total_take(s: Seq<u64>, i: int)
    requires
        0 <= i < s.len(),
    ensures
        total(s.take(i + 1)) == total(s.take(i)) + s[i],
{
    assert(s.take(i + 1).drop_last() =~= s.take(i));
}

pub proof fn lemma_total_nonneg(s: Seq<u64>)
    ensures
        total(s) >= 0,
    decreases s.len(),
{
    if s.len() > 0 {
        lemma_total_nonneg(s.drop_last());
    }
}

/// Each count is at most the sum, and every prefix sums to at most the sum.
pub proof fn lemma_total_bounds(s: Seq<u64>)
    ensures
        forall|i: int| 0 <= i < s.len() ==> s[i] <= total(s),
        forall|i: int| 0 <= i <= s.len() ==> total(#[trigger] s.take(i)) <= total(s),
    decreases s.len(),
{
    if s.len() > 0 {
        let p = s.drop_last();
        lemma_total_bounds(p);
        lemma_total_nonneg(p);
        assert forall|i: int| 0 <= i < s.len() implies s[i] <= total(s) by {
            if i < p.len() {
                assert(s[i] == p[i]);
            }
        }
        assert forall|i: int| 0 <= i <= s.len() implies total(#[trigger] s.take(i)) <= total(s) by {
            if i < s.len() {
                assert(s.take(i) =~= p.take(i));
            } else {
                assert(s.take(i) =~= s);
            }
        }
    }
}

pub proof fn lemma_total_zeros(n: nat)
    ensures
        total(Seq::new(n, |i: int| 0u64)) == 0,
    decreases n,
{
    if n > 0 {
        assert(Seq::new(n, |i: int| 0u64).drop_last() =~= Seq::new((n - 1) as nat, |i: int| 0u64));
        lemma_total_zeros((n - 1) as nat);
    }
}

/// One unit move in direction `dir` (0 north, 1 east, 2 south, 3 west) from
/// `(x, y)` on the `w` by `h` torus.
pub fn step(x: usize, y: usize, dir: u64, w: usize, h: usize) -> (r: (usize, usize))
    requires
        x < w,
        y < h,
        dir < 4,
    ensures
        r.0 < w,
        r.1 < h,
        (r.0 as int, r.1 as int) == moved(x as int, y as int, dir as int, w as int, h as int),
{
    if dir == 0 {
        if y == h - 1 { (x, 0) } else { (x, y + 1) }
    } else if dir == 1 {
        if x == w - 1 { (0, y) } else { (x + 1, y) }
    } else if dir == 2 {
        if y == 0 { (x, h - 1) } else { (x, y - 1) }
    } else {
        if x == 0 { (w - 1, y) } else { (x - 1, y) }
    }
}

/// Distance between `a` and `b` on a ring of `n` positions.
pub fn ring_distance(a: usize, b: usize, n: usize) -> (r: usize)
    requires
        a < n,
        b < n,
    ensures
        r == ring_dist(a as int, b as int, n as int),
{
    let d = if a >= b { a - b } else { b - a };
    if d <= n - d { d } else { n - d }
}

} // verus!
