//! The population: a count of individuals on every cell, and a running
//! time average of those counts over a window of generations.
use vstd::prelude::*;
use crate::gpm::Gpmap;
use crate::grid::{
    flat, lemma_flat_column, lemma_flat_in_bounds, lemma_flat_next, lemma_total_bounds, lemma_total_take,
    lemma_total_update, lemma_total_zeros, lemma_unflat, total,
};
use crate::rng::random_below;

verus! {

/// Counts of a `w` by `h` torus stored flat (see `flat`). The time average
/// is kept exactly, as the sum of the counts of each cell over the
/// `avgcount` generations averaged so far; the average is their quotient.
pub struct Population {
    pub w: usize,
    pub h: usize,
    pub pop: Vec<u64>,
    pub avgsum: Vec<u128>,
    pub avgcount: u64,
}

/// `n` zero counts.
pub fn zero_counts(n: usize) -> (r: Vec<u64>)
    ensures
        r@ == Seq::new(n as nat, |i: int| 0u64),
{
    let mut v: Vec<u64> = Vec::new();
    while v.len() < n
        invariant
            v.len() <= n,
            forall|i: int| 0 <= i < v.len() ==> v[i] == 0,
        decreases n - v.len(),
    {
        v.push(0);
    }
    assert(v@ =~= Seq::new(n as nat, |i: int| 0u64));
    v
}

/// How many times `i` occurs in `s`.
pub open spec fn occurrences(s: Seq<usize>, i: int) -> int
    decreases s.len(),
{
    if s.len() == 0 {
        0
    } else {
        occurrences(s.drop_last(), i) + if s.last() == i { 1int } else { 0 }
    }
}

/// The counts of `n` flat cells holding one individual for each entry of
/// `placed`, the flat position it was placed on.
pub fn tally(n: usize, placed: &Vec<usize>) -> (r: Vec<u64>)
    requires
        forall|k: int| 0 <= k < placed.len() ==> #[trigger] placed[k] < n,
        placed.len() <= u64::MAX,
    ensures
        r.len() == n,
        forall|i: int| 0 <= i < n ==> #[trigger] r[i] == occurrences(placed@, i),
        total(r@) == placed.len(),
{
    let mut r = zero_counts(n);
    proof {
        lemma_total_zeros(n as nat);
    }
    let mut k: usize = 0;
    while k < placed.len()
        invariant
            forall|q: int| 0 <= q < placed.len() ==> #[trigger] placed[q] < n,
            placed.len() <= u64::MAX,
            k <= placed.len(),
            r.len() == n,
            forall|i: int| 0 <= i < n ==> #[trigger] r[i] == occurrences(placed@.take(k as int), i),
            total(r@) == k,
        decreases placed.len() - k,
    {
        let j = placed[k];
        proof {
            lemma_total_bounds(r@);
            lemma_total_update(r@, j as int, (r[j as int] + 1) as u64);
            assert(placed@.take(k + 1).drop_last() =~= placed@.take(k as int));
        }
        let c = r[j] + 1;
        r.set(j, c);
        k += 1;
    }
    assert(placed@.take(placed.len() as int) =~= placed@);
    r
}

/// `n` zero sums.
pub fn zero_sums(n: usize) -> (r: Vec<u128>)
    ensures
        r.len() == n,
        forall|i: int| 0 <= i < n ==> r[i] == 0,
{
    let mut v: Vec<u128> = Vec::new();
    while v.len() < n
        invariant
            v.len() <= n,
            forall|i: int| 0 <= i < v.len() ==> v[i] == 0,
        decreases n - v.len(),
    {
        v.push(0);
    }
    v
}

/// The time-average accumulator after the population `cells` of
/// generation `time` is offered to it, for the window `[start, end]`: the
/// window's first generation seeds it, each later one in the window adds
/// to it (while the generation count fits), any other leaves it alone.
/// Offered at generation `time` after `time - start` generations were
/// averaged, the new quotient `(sum + cells) / (n + 1)` is the running mean
/// `(avg * e + cells) / (e + 1)` with `e = time - start`.
pub open spec fn avg_step(sum: Seq<int>, n: int, cells: Seq<u64>, time: int, start: int, end: int) -> (Seq<int>, int) {
    if time == start && start <= end {
        (Seq::new(cells.len(), |i: int| cells[i] as int), 1)
    } else if start < time <= end && n < u64::MAX {
        (Seq::new(cells.len(), |i: int| sum[i] + cells[i]), n + 1)
    } else {
        (sum, n)
    }
}

/// The accumulator after the same population is offered at the `k`
/// generations `t`, `t + 1`, ..., `t + k - 1`.
pub open spec fn avg_run(sum: Seq<int>, n: int, cells: Seq<u64>, t: int, k: nat, start: int, end: int) -> (Seq<int>, int)
    decreases k,
{
    if k == 0 {
        (sum, n)
    } else {
        let next = avg_step(sum, n, cells, t, start, end);
        avg_run(next.0, next.1, cells, t + 1, (k - 1) as nat, start, end)
    }
}

proof fn lemma_avg_run_after_seed(cells: Seq<u64>, t: int, k: nat, start: int, end: int)
    requires
        start < t,
        t + k - 1 <= end,
        t - start + k < u64::MAX,
    ensures
        ({
            let m = t - start;
            let r = avg_run(Seq::new(cells.len(), |i: int| m * cells[i]), m, cells, t, k, start, end);
            r.0 =~= Seq::new(cells.len(), |i: int| (m + k) * cells[i]) && r.1 == m + k
        }),
    decreases k,
{
    let m = t - start;
    if k > 0 {
        let sum = Seq::new(cells.len(), |i: int| m * cells[i]);
        let next = avg_step(sum, m, cells, t, start, end);
        assert(next.0 =~= Seq::new(cells.len(), |i: int| (m + 1) * cells[i])) by {
            assert forall|i: int| 0 <= i < cells.len() implies next.0[i] == (m + 1) * cells[i] by {
                assert(m * cells[i] + cells[i] == (m + 1) * cells[i]) by (nonlinear_arith);
            }
        }
        lemma_avg_run_after_seed(cells, t + 1, (k - 1) as nat, start, end);
    }
}

/// A stationary population averages to itself: offered unchanged at every
/// generation of the window `[start, end]`, from its first generation on,
/// the accumulator holds for each cell the number of generations times its
/// count, so the time average equals the population exactly.
pub proof fn lemma_stationary_average(sum: Seq<int>, n: int, cells: Seq<u64>, start: int, end: int)
    requires
        start <= end,
        end - start + 1 < u64::MAX,
    ensures
        ({
            let k = end - start + 1;
            let r = avg_run(sum, n, cells, start, k as nat, start, end);
            r.1 == k && forall|i: int| 0 <= i < cells.len() ==> #[trigger] r.0[i] == k * cells[i]
        }),
{
    let seeded = avg_step(sum, n, cells, start, start, end);
    assert(seeded.0 =~= Seq::new(cells.len(), |i: int| 1 * cells[i]));
    lemma_avg_run_after_seed(cells, start + 1, (end - start) as nat, start, end);
}

impl Population {
    pub open spec fn wf(&self) -> bool {
        &&& self.w >= 1
        &&& self.h >= 1
        &&& self.pop.len() == self.w * self.h
        &&& self.avgsum.len() == self.pop.len()
        &&& total(self.pop@) <= u64::MAX
        &&& forall|i: int| 0 <= i < self.avgsum.len() ==> #[trigger] self.avgsum[i] <= self.avgcount * u64::MAX
    }

    /// Number of individuals on cell `(x, y)`.
    pub open spec fn count(&self, x: int, y: int) -> u64 {
        self.pop@[flat(x, y, self.h as int)]
    }

    /// Number of individuals in all.
    pub open spec fn size(&self) -> int {
        total(self.pop@)
    }

    /// The time-average sums, as integers.
    pub open spec fn avg_view(&self) -> Seq<int> {
        self.avgsum@.map_values(|v: u128| v as int)
    }

    /// A population of `popsize` individuals, all on one cell of `gpmap`
    /// drawn at random among those whose phenotype is one of `ids`; None
    /// when no cell has such a phenotype.
    pub fn gen_initpop(popsize: u64, ids: &Vec<u64>, gpmap: &Gpmap) -> (r: Option<Population>)
        requires
            gpmap.wf(),
        ensures
            r.is_none() <==> forall|x: int, y: int|
                0 <= x < gpmap.w && 0 <= y < gpmap.h ==> !ids@.contains(#[trigger] gpmap.pid(x, y)),
            r.is_some() ==> {
                let p = r.unwrap();
                &&& p.wf()
                &&& p.w == gpmap.w
                &&& p.h == gpmap.h
                &&& p.size() == popsize
                &&& p.avgcount == 0
                &&& exists|x: int, y: int|
                    0 <= x < p.w && 0 <= y < p.h && ids@.contains(gpmap.pid(x, y)) && #[trigger] p.count(x, y)
                        == popsize
            },
    {
        match gpmap.get_random_xy(ids) {
            None => None,
            Some((x, y)) => {
                let n = gpmap.gpmap.len();
                let mut pop = zero_counts(n);
                proof {
                    lemma_flat_in_bounds(x as int, y as int, gpmap.w as int, gpmap.h as int);
                    lemma_total_zeros(n as nat);
                    lemma_total_update(pop@, flat(x as int, y as int, gpmap.h as int), popsize);
                }
                pop.set(x * gpmap.h + y, popsize);
                let avgsum = zero_sums(n);
                let p = Population { w: gpmap.w, h: gpmap.h, pop, avgsum, avgcount: 0 };
                assert(p.count(x as int, y as int) == popsize);
                Some(p)
            },
        }
    }

    /// A population of `popsize` individuals on a `w` by `h` torus, each
    /// put on a cell drawn uniformly at random.
    pub fn gen_uniform(w: usize, h: usize, popsize: u64) -> (r: Population)
        requires
            w >= 1,
            h >= 1,
            w * h <= usize::MAX,
        ensures
            r.wf(),
            r.w == w,
            r.h == h,
            r.size() == popsize,
            r.avgcount == 0,
    {
        let n = w * h;
        let mut pop = zero_counts(n);
        proof {
            lemma_total_zeros(n as nat);
        }
        let mut k: u64 = 0;
        while k < popsize
            invariant
                pop.len() == n,
                n == w * h,
                w >= 1,
                h >= 1,
                k <= popsize,
                total(pop@) == k,
            decreases popsize - k,
        {
            let x = random_below(w as u64) as usize;
            let y = random_below(h as u64) as usize;
            proof {
                lemma_flat_in_bounds(x as int, y as int, w as int, h as int);
                lemma_total_bounds(pop@);
            }
            let i = x * h + y;
            proof {
                lemma_total_update(pop@, i as int, (pop[i as int] + 1) as u64);
            }
            let c = pop[i] + 1;
            pop.set(i, c);
            k += 1;
        }
        let avgsum = zero_sums(n);
        Population { w, h, pop, avgsum, avgcount: 0 }
    }

    /// The most populated cell and its count: the first in flat order among
    /// those with the largest count.
    pub fn get_dominance_info(&self) -> (r: (usize, usize, u64))
        requires
            self.wf(),
        ensures
            r.0 < self.w,
            r.1 < self.h,
            r.2 == self.count(r.0 as int, r.1 as int),
            forall|i: int| 0 <= i < self.pop.len() ==> #[trigger] self.pop[i] <= r.2,
            forall|i: int| 0 <= i < flat(r.0 as int, r.1 as int, self.h as int) ==> #[trigger] self.pop[i] < r.2,
    {
        let n = self.pop.len();
        let h = self.h;
        let mut max_x: usize = 0;
        let mut max_y: usize = 0;
        let mut max_abund: u64 = 0;
        assert(n >= 1) by (nonlinear_arith)
            requires
                n == self.w * self.h,
                self.w >= 1,
                self.h >= 1,
        ;
        let mut i: usize = 0;
        let mut x: usize = 0;
        let mut y: usize = 0;
        while i < n
            invariant
                self.wf(),
                n == self.w * self.h,
                h == self.h,
                i <= n,
                y < h,
                i == flat(x as int, y as int, h as int),
                max_x < self.w,
                max_y < h,
                i == 0 ==> max_x == 0 && max_y == 0 && max_abund == 0,
                i > 0 ==> flat(max_x as int, max_y as int, h as int) < i && max_abund == self.pop[flat(
                    max_x as int,
                    max_y as int,
                    h as int,
                )],
                forall|j: int| 0 <= j < i ==> #[trigger] self.pop[j] <= max_abund,
                forall|j: int| 0 <= j < flat(max_x as int, max_y as int, h as int) ==> #[trigger] self.pop[j] < max_abund,
            decreases n - i,
        {
            proof {
                lemma_flat_column(x as int, y as int, self.w as int, h as int);
                lemma_flat_next(x as int, y as int, h as int);
            }
            if self.pop[i] > max_abund {
                max_x = x;
                max_y = y;
                max_abund = self.pop[i];
            }
            i += 1;
            if y + 1 == h {
                y = 0;
                x += 1;
            } else {
                y += 1;
            }
        }
        (max_x, max_y, max_abund)
    }

    /// Number of individuals in all.
    pub fn total_count(&self) -> (r: u128)
        requires
            self.wf(),
        ensures
            r == self.size(),
    {
        let mut sum: u128 = 0;
        let mut i: usize = 0;
        proof {
            lemma_total_bounds(self.pop@);
        }
        while i < self.pop.len()
            invariant
                self.wf(),
                i <= self.pop.len(),
                sum == total(self.pop@.take(i as int)),
                forall|j: int| 0 <= j <= self.pop.len() ==> total(#[trigger] self.pop@.take(j)) <= total(self.pop@),
            decreases self.pop.len() - i,
        {
            proof {
                lemma_total_take(self.pop@, i as int);
            }
            sum = sum + self.pop[i] as u128;
            i += 1;
        }
        assert(self.pop@.take(self.pop.len() as int) =~= self.pop@);
        sum
    }

    /// Sum over the first `i` flat positions of the count times the number
    /// of differing neighbours (see `Gpmap::diff_neighbours`).
    pub open spec fn diversity_upto(&self, gpmap: &Gpmap, i: int) -> int
        decreases i,
    {
        if i <= 0 {
            0
        } else {
            let j = i - 1;
            let h = self.h as int;
            self.diversity_upto(gpmap, j) + self.pop@[j] * gpmap.diff_neighbours(j / h, j % h)
        }
    }

    /// Sum over all cells of the count times the number of neighbours with
    /// another phenotype. Over `4 * size()` it is the evolvability: the
    /// population-weighted mean neighbour diversity.
    pub fn evolvability_sum(&self, gpmap: &Gpmap) -> (r: u128)
        requires
            self.wf(),
            gpmap.wf(),
            gpmap.w == self.w,
            gpmap.h == self.h,
        ensures
            r == self.diversity_upto(gpmap, self.pop.len() as int),
            r <= 4 * self.size(),
    {
        let n = self.pop.len();
        let h = self.h;
        let mut sum: u128 = 0;
        let mut i: usize = 0;
        let mut x: usize = 0;
        let mut y: usize = 0;
        proof {
            lemma_total_bounds(self.pop@);
        }
        while i < n
            invariant
                self.wf(),
                gpmap.wf(),
                gpmap.w == self.w,
                gpmap.h == self.h,
                n == self.pop.len(),
                n == self.w * self.h,
                h == self.h,
                i <= n,
                y < h,
                i == flat(x as int, y as int, h as int),
                forall|j: int| 0 <= j <= n ==> total(#[trigger] self.pop@.take(j)) <= total(self.pop@),
                sum == self.diversity_upto(gpmap, i as int),
                sum <= 4 * total(self.pop@.take(i as int)),
            decreases n - i,
        {
            proof {
                lemma_flat_column(x as int, y as int, self.w as int, h as int);
                lemma_unflat(i as int, x as int, y as int, h as int);
                lemma_total_take(self.pop@, i as int);
            }
            let d = gpmap.get_evol_at(x, y);
            let c = self.pop[i];
            assert(c * d <= 4 * c) by (nonlinear_arith)
                requires
                    d <= 4,
            ;
            sum = sum + (c as u128) * (d as u128);
            proof {
                lemma_flat_next(x as int, y as int, h as int);
            }
            i += 1;
            if y + 1 == h {
                y = 0;
                x += 1;
            } else {
                y += 1;
            }
        }
        assert(self.pop@.take(n as int) =~= self.pop@);
        sum
    }

    /// A copy of this population.
    pub fn duplicate(&self) -> (r: Population)
        ensures
            r.w == self.w,
            r.h == self.h,
            r.pop@ == self.pop@,
            r.avgsum@ == self.avgsum@,
            r.avgcount == self.avgcount,
    {
        let pop = self.pop.clone();
        let avgsum = self.avgsum.clone();
        assert(pop@ =~= self.pop@);
        assert(avgsum@ =~= self.avgsum@);
        Population { w: self.w, h: self.h, pop, avgsum, avgcount: self.avgcount }
    }

    /// Number of individuals on cell `(x, y)`.
    pub fn get_at(&self, x: usize, y: usize) -> (r: u64)
        requires
            self.wf(),
            x < self.w,
            y < self.h,
        ensures
            r == self.count(x as int, y as int),
    {
        proof {
            lemma_flat_in_bounds(x as int, y as int, self.w as int, self.h as int);
        }
        self.pop[x * self.h + y]
    }

    /// The time average of cell `(x, y)` as a fraction: the sum of its
    /// counts over the generations averaged, and their number.
    pub fn avg_get_at(&self, x: usize, y: usize) -> (r: (u128, u64))
        requires
            self.wf(),
            x < self.w,
            y < self.h,
        ensures
            r.0 == self.avgsum@[flat(x as int, y as int, self.h as int)],
            r.1 == self.avgcount,
    {
        proof {
            lemma_flat_in_bounds(x as int, y as int, self.w as int, self.h as int);
        }
        (self.avgsum[x * self.h + y], self.avgcount)
    }

    /// Replaces the counts wholesale by `new_pop`, stored flat.
    pub fn set_pop(&mut self, new_pop: Vec<u64>)
        requires
            old(self).wf(),
            new_pop.len() == old(self).pop.len(),
            total(new_pop@) <= u64::MAX,
        ensures
            final(self).wf(),
            final(self).pop@ == new_pop@,
            final(self).w == old(self).w,
            final(self).h == old(self).h,
            final(self).avgsum@ == old(self).avgsum@,
            final(self).avgcount == old(self).avgcount,
    {
        self.pop = new_pop;
    }

    /// Offers the population of generation `time` to the time average over
    /// the window `[start, end]` (see `avg_step`).
    pub fn add_to_average(&mut self, time: u64, start: u64, end: u64)
        requires
            old(self).wf(),
            start < time <= end ==> old(self).avgcount == time - start,
        ensures
            final(self).wf(),
            final(self).pop@ == old(self).pop@,
            final(self).w == old(self).w,
            final(self).h == old(self).h,
            (final(self).avg_view(), final(self).avgcount as int) == avg_step(
                old(self).avg_view(),
                old(self).avgcount as int,
                old(self).pop@,
                time as int,
                start as int,
                end as int,
            ),
    {
        let n = self.pop.len();
        let ghost old_sum = self.avgsum@;
        proof {
            lemma_total_bounds(self.pop@);
        }
        if time == start && start <= end {
            let mut i: usize = 0;
            while i < n
                invariant
                    n == self.pop.len(),
                    n == self.avgsum.len(),
                    self.pop@ == old(self).pop@,
                    self.w == old(self).w,
                    self.h == old(self).h,
                    self.avgcount == old(self).avgcount,
                    i <= n,
                    total(self.pop@) <= u64::MAX,
                    forall|j: int| 0 <= j < i ==> #[trigger] self.avgsum[j] == self.pop[j] as u128,
                decreases n - i,
            {
                let c = self.pop[i] as u128;
                self.avgsum.set(i, c);
                i += 1;
            }
            self.avgcount = 1;
            assert(self.avg_view() =~= Seq::new(self.pop@.len(), |j: int| self.pop@[j] as int));
        } else if start < time && time <= end && self.avgcount < u64::MAX {
            let m = self.avgcount;
            let mut i: usize = 0;
            while i < n
                invariant
                    n == self.pop.len(),
                    n == self.avgsum.len(),
                    n == old_sum.len(),
                    self.pop@ == old(self).pop@,
                    self.w == old(self).w,
                    self.h == old(self).h,
                    self.avgcount == old(self).avgcount,
                    i <= n,
                    m < u64::MAX,
                    forall|j: int| 0 <= j < n ==> #[trigger] self.pop[j] <= u64::MAX,
                    forall|j: int| 0 <= j < n ==> #[trigger] old_sum[j] <= m * u64::MAX,
                    forall|j: int| 0 <= j < i ==> #[trigger] self.avgsum[j] == old_sum[j] + self.pop[j],
                    forall|j: int| i <= j < n ==> #[trigger] self.avgsum[j] == old_sum[j],
                decreases n - i,
            {
                let s = self.avgsum[i];
                let c = self.pop[i] as u128;
                assert(s + c <= (m + 1) * u64::MAX) by (nonlinear_arith)
                    requires
                        s <= m * u64::MAX,
                        c <= u64::MAX,
                ;
                assert((m + 1) * u64::MAX <= u128::MAX) by (nonlinear_arith)
                    requires
                        m < u64::MAX,
                ;
                self.avgsum.set(i, s + c);
                i += 1;
            }
            self.avgcount = m + 1;
            assert forall|j: int| 0 <= j < self.avgsum.len() implies #[trigger] self.avgsum[j]
                <= self.avgcount * u64::MAX by {
                assert(old_sum[j] + self.pop[j] <= (m + 1) * u64::MAX) by (nonlinear_arith)
                    requires
                        old_sum[j] <= m * u64::MAX,
                        self.pop[j] <= u64::MAX,
                ;
            }
            assert(self.avg_view() =~= Seq::new(
                self.pop@.len(),
                |j: int| old_sum.map_values(|v: u128| v as int)[j] + self.pop@[j],
            ));
        }
    }
}

} // verus!
