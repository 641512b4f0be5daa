//! The simulation: per-generation selection and mutation, the environment
//! and the time average advanced generation by generation.
use vstd::prelude::*;
use crate::environment::Environment;
use crate::gpm::Gpmap;
use crate::grid::{
    flat, lemma_flat_column, lemma_flat_in_bounds, lemma_flat_next, lemma_total_bounds,
    lemma_total_take, moved, step, total, walk_spec,
};
use crate::pop::{avg_step, occurrences, tally, Population};
use crate::rng::{poisson_sample, random_below, weighted_sample, weight_total};
use crate::text::{rate_ok, rate_text_ok};

verus! {

/// Why a generation could not be drawn.
#[derive(PartialEq, Eq, Structural, Debug, Clone, Copy)]
pub enum SimError {
    /// No occupied cell has positive fitness: every selection weight is zero.
    AllWeightsZero,
}

/// Why the parts of a simulation do not fit together.
#[derive(PartialEq, Eq, Structural, Debug, Clone, Copy)]
pub enum SetupError {
    /// The population's grid differs from the map's.
    GridMismatch,
    /// The population does not hold `popsize` individuals.
    SizeMismatch,
    /// Some environment gives no fitness to some phenotype of the map.
    MissingFitness,
    /// The output interval is zero.
    ZeroInterval,
    /// The step rate text is not of the accepted form (see `rate_ok`).
    BadRate,
}

/// The plain parameters of a run.
#[derive(Clone, Copy, Debug)]
pub struct Settings {
    /// Fixed population size.
    pub popsize: u64,
    /// Last generation.
    pub maxgens: u64,
    /// Generations between two outputs.
    pub saveevery: u64,
    /// First generation of the time-average window.
    pub timeavgstart: u64,
    /// Last generation of the time-average window.
    pub timeavgend: u64,
}

/// Everything a run needs. The number of unit steps an individual takes per
/// generation has a Poisson distribution of rate `ln(1 / (1 - m))` for a
/// mutation probability `m`; `mutation` holds that rate as decimal text
/// (see `rate_ok`), and is None when the mutation probability is zero and
/// nobody ever moves.
pub struct Simulation {
    pub settings: Settings,
    pub mutation: Option<Vec<u8>>,
    pub env: Environment,
    pub gpmap: Gpmap,
    pub initpop: Population,
}

/// The state between two generations.
pub struct SimState {
    pub time: u64,
    pub envid: i32,
    pub pop: Population,
    pub gfmap: Vec<u64>,
}

/// An entry that occurs in a sequence stands at some position of it.
proof fn lemma_occurs(s: Seq<usize>, i: int)
    requires
        occurrences(s, i) > 0,
    ensures
        exists|k: int| 0 <= k < s.len() && s[k] == i,
    decreases s.len(),
{
    if s.last() != i {
        lemma_occurs(s.drop_last(), i);
        let k = choose|k: int| 0 <= k < s.drop_last().len() && s.drop_last()[k] == i;
        assert(s[k] == i);
    } else {
        assert(s[s.len() - 1] == i);
    }
}

/// Flat positions reached by the walks `moves[k]` from the cells
/// `origins[k]`.
pub open spec fn placements(origins: Seq<(int, int)>, moves: Seq<Seq<u64>>, w: int, h: int) -> Seq<usize> {
    Seq::new(
        origins.len(),
        |k: int|
            {
                let p = walk_spec(origins[k].0, origins[k].1, moves[k], w, h);
                flat(p.0, p.1, h) as usize
            },
    )
}

proof fn lemma_weight_total_push(s: Seq<u128>, v: u128)
    ensures
        weight_total(s.push(v)) == weight_total(s) + v,
{
    assert(s.push(v).drop_last() =~= s);
}

impl Simulation {
    /// Whether the counts `new` can come out of one generation from the
    /// counts `old` under the fitness grid `gfmap`: `popsize` individuals,
    /// each selected on an occupied cell of positive fitness, each moved
    /// along a walk of unit moves (none without mutation), then counted per
    /// cell.
    pub open spec fn resampled(&self, old: Seq<u64>, gfmap: Seq<u64>, new: Seq<u64>) -> bool {
        let w = self.gpmap.w as int;
        let h = self.gpmap.h as int;
        exists|origins: Seq<(int, int)>, moves: Seq<Seq<u64>>|
            #[trigger] placements(origins, moves, w, h).len() == self.settings.popsize && moves.len() == origins.len()
                && (forall|k: int|
                0 <= k < origins.len() ==> {
                    let o = #[trigger] origins[k];
                    &&& 0 <= o.0 < w
                    &&& 0 <= o.1 < h
                    &&& old[flat(o.0, o.1, h)] > 0
                    &&& gfmap[flat(o.0, o.1, h)] > 0
                    &&& forall|j: int| 0 <= j < moves[k].len() ==> #[trigger] moves[k][j] < 4
                    &&& (self.mutation.is_none() ==> moves[k].len() == 0)
                }) && new.len() == old.len() && forall|i: int|
                0 <= i < new.len() ==> #[trigger] new[i] == occurrences(placements(origins, moves, w, h), i)
    }

    /// Without mutation nobody moves: after a generation only cells that
    /// were occupied and of positive fitness are occupied.
    pub proof fn lemma_no_mutation_no_spread(&self, old: Seq<u64>, gfmap: Seq<u64>, new: Seq<u64>)
        requires
            self.gpmap.wf(),
            self.resampled(old, gfmap, new),
            self.mutation.is_none(),
            old.len() == self.gpmap.gpmap.len(),
        ensures
            forall|i: int| 0 <= i < new.len() && #[trigger] new[i] > 0 ==> old[i] > 0 && gfmap[i] > 0,
    {
        let w = self.gpmap.w as int;
        let h = self.gpmap.h as int;
        let (origins, moves) = choose|origins: Seq<(int, int)>, moves: Seq<Seq<u64>>|
            #[trigger] placements(origins, moves, w, h).len() == self.settings.popsize && moves.len() == origins.len()
                && (forall|k: int|
                0 <= k < origins.len() ==> {
                    let o = #[trigger] origins[k];
                    &&& 0 <= o.0 < w
                    &&& 0 <= o.1 < h
                    &&& old[flat(o.0, o.1, h)] > 0
                    &&& gfmap[flat(o.0, o.1, h)] > 0
                    &&& forall|j: int| 0 <= j < moves[k].len() ==> #[trigger] moves[k][j] < 4
                    &&& (self.mutation.is_none() ==> moves[k].len() == 0)
                }) && new.len() == old.len() && forall|i: int|
                0 <= i < new.len() ==> #[trigger] new[i] == occurrences(placements(origins, moves, w, h), i);
        let pl = placements(origins, moves, w, h);
        assert forall|i: int| 0 <= i < new.len() && #[trigger] new[i] > 0 implies old[i] > 0 && gfmap[i] > 0 by {
            lemma_occurs(pl, i);
            let k = choose|k: int| 0 <= k < pl.len() && pl[k] == i;
            let o = origins[k];
            assert(moves[k].len() == 0);
            assert(walk_spec(o.0, o.1, moves[k], w, h) == o);
            lemma_flat_in_bounds(o.0, o.1, w, h);
            assert(pl[k] == flat(o.0, o.1, h) as usize);
        }
    }

    pub open spec fn wf(&self) -> bool {
        &&& self.env.wf()
        &&& self.gpmap.wf()
        &&& self.initpop.wf()
        &&& self.initpop.w == self.gpmap.w
        &&& self.initpop.h == self.gpmap.h
        &&& self.initpop.size() == self.settings.popsize
        &&& self.settings.saveevery >= 1
        &&& (self.mutation matches Some(b) ==> rate_ok(b@))
        &&& forall|e: int, i: int|
            0 <= e < self.env.pfmaps.len() && 0 <= i < self.gpmap.gpmap.len() ==> #[trigger] self.gpmap.gpmap[i]
                < #[trigger] self.env.pfmaps[e].len()
    }

    /// A population fit to run on: same grid as the map, `popsize`
    /// individuals.
    pub open spec fn fits(&self, p: Population) -> bool {
        &&& p.wf()
        &&& p.w == self.gpmap.w
        &&& p.h == self.gpmap.h
        &&& p.size() == self.settings.popsize
    }

    /// A state fit to run on: a fitting population, a valid environment and
    /// the fitness grid of that environment.
    pub open spec fn state_wf(&self, st: &SimState) -> bool {
        &&& self.fits(st.pop)
        &&& 0 <= st.envid < self.env.count()
        &&& (self.settings.timeavgstart <= st.time <= self.settings.timeavgend ==> st.pop.avgcount == st.time
            - self.settings.timeavgstart + 1)
        &&& st.gfmap.len() == self.gpmap.gpmap.len()
        &&& forall|i: int|
            0 <= i < st.gfmap.len() ==> #[trigger] st.gfmap[i] == self.env.pfmaps[st.envid as int][self.gpmap.gpmap[i] as int]
    }

    /// Puts a run together. It fails when the population's grid differs
    /// from the map's, when it does not hold `popsize` individuals, when
    /// some environment gives no fitness to a phenotype of the map, or when
    /// the output interval is zero, in that order.
    pub fn setup(settings: Settings, mutation: Option<Vec<u8>>, env: Environment, gpm: Gpmap, pop: Population) -> (r:
        Result<Simulation, SetupError>)
        requires
            env.wf(),
            gpm.wf(),
            pop.wf(),
        ensures
            (pop.w != gpm.w || pop.h != gpm.h) ==> r == Err::<Simulation, SetupError>(SetupError::GridMismatch),
            (pop.w == gpm.w && pop.h == gpm.h && pop.size() != settings.popsize) ==> r == Err::<
                Simulation,
                SetupError,
            >(SetupError::SizeMismatch),
            (pop.w == gpm.w && pop.h == gpm.h && pop.size() == settings.popsize && exists|e: int, i: int|
                0 <= e < env.pfmaps.len() && 0 <= i < gpm.gpmap.len() && #[trigger] gpm.gpmap[i]
                    >= #[trigger] env.pfmaps[e].len()) ==> r == Err::<Simulation, SetupError>(
                SetupError::MissingFitness,
            ),
            r is Err && r->Err_0 == SetupError::ZeroInterval ==> settings.saveevery == 0,
            r is Err && r->Err_0 == SetupError::BadRate ==> (mutation matches Some(b) && !rate_ok(b@)),
            r is Ok <==> (pop.w == gpm.w && pop.h == gpm.h && pop.size() == settings.popsize && settings.saveevery
                >= 1 && (mutation matches Some(b) ==> rate_ok(b@)) && forall|e: int, i: int|
                0 <= e < env.pfmaps.len() && 0 <= i < gpm.gpmap.len() ==> #[trigger] gpm.gpmap[i]
                    < #[trigger] env.pfmaps[e].len()),
            r is Ok ==> {
                let s = r->Ok_0;
                &&& s.wf()
                &&& s.settings == settings
                &&& s.mutation == mutation
                &&& s.env == env
                &&& s.gpmap == gpm
                &&& s.initpop == pop
            },
    {
        if pop.w != gpm.w || pop.h != gpm.h {
            return Err(SetupError::GridMismatch);
        }
        if pop.total_count() != settings.popsize as u128 {
            return Err(SetupError::SizeMismatch);
        }
        let mut e: usize = 0;
        while e < env.pfmaps.len()
            invariant
                pop.w == gpm.w,
                pop.h == gpm.h,
                pop.size() == settings.popsize,
                e <= env.pfmaps.len(),
                forall|f: int, i: int|
                    0 <= f < e && 0 <= i < gpm.gpmap.len() ==> #[trigger] gpm.gpmap[i] < #[trigger] env.pfmaps[f].len(),
            decreases env.pfmaps.len() - e,
        {
            let mut i: usize = 0;
            while i < gpm.gpmap.len()
                invariant
                    pop.w == gpm.w,
                    pop.h == gpm.h,
                    pop.size() == settings.popsize,
                    e < env.pfmaps.len(),
                    i <= gpm.gpmap.len(),
                    forall|f: int, j: int|
                        0 <= f < e && 0 <= j < gpm.gpmap.len() ==> #[trigger] gpm.gpmap[j] < #[trigger] env.pfmaps[f].len(),
                    forall|j: int| 0 <= j < i ==> #[trigger] gpm.gpmap[j] < env.pfmaps[e as int].len(),
                decreases gpm.gpmap.len() - i,
            {
                if gpm.gpmap[i] >= env.pfmaps[e].len() as u64 {
                    return Err(SetupError::MissingFitness);
                }
                i += 1;
            }
            e += 1;
        }
        if settings.saveevery == 0 {
            return Err(SetupError::ZeroInterval);
        }
        let rate_fine = match &mutation {
            None => true,
            Some(b) => rate_text_ok(b),
        };
        if !rate_fine {
            return Err(SetupError::BadRate);
        }
        Ok(Simulation { settings, mutation, env, gpmap: gpm, initpop: pop })
    }

    /// One unit move of `(x, y)` in a direction drawn uniformly at random.
    pub fn mutate_xy(&self, x: &mut usize, y: &mut usize)
        requires
            self.gpmap.wf(),
            *old(x) < self.gpmap.w,
            *old(y) < self.gpmap.h,
        ensures
            exists|dir: int|
                0 <= dir < 4 && (*final(x) as int, *final(y) as int) == #[trigger] moved(
                    *old(x) as int,
                    *old(y) as int,
                    dir,
                    self.gpmap.w as int,
                    self.gpmap.h as int,
                ),
            *final(x) < self.gpmap.w,
            *final(y) < self.gpmap.h,
    {
        let dir = random_below(4);
        let (a, b) = step(*x, *y, dir, self.gpmap.w, self.gpmap.h);
        *x = a;
        *y = b;
    }

    /// Where the unit moves in directions `dirs` lead from `(x, y)`.
    pub fn walk(&self, x: usize, y: usize, dirs: &Vec<u64>) -> (r: (usize, usize))
        requires
            self.gpmap.wf(),
            x < self.gpmap.w,
            y < self.gpmap.h,
            forall|j: int| 0 <= j < dirs.len() ==> #[trigger] dirs[j] < 4,
        ensures
            r.0 < self.gpmap.w,
            r.1 < self.gpmap.h,
            (r.0 as int, r.1 as int) == walk_spec(x as int, y as int, dirs@, self.gpmap.w as int, self.gpmap.h as int),
    {
        let mut a = x;
        let mut b = y;
        let mut i: usize = 0;
        while i < dirs.len()
            invariant
                self.gpmap.wf(),
                forall|j: int| 0 <= j < dirs.len() ==> #[trigger] dirs[j] < 4,
                i <= dirs.len(),
                a < self.gpmap.w,
                b < self.gpmap.h,
                (a as int, b as int) == walk_spec(
                    x as int,
                    y as int,
                    dirs@.take(i as int),
                    self.gpmap.w as int,
                    self.gpmap.h as int,
                ),
            decreases dirs.len() - i,
        {
            assert(dirs@.take(i + 1).drop_last() =~= dirs@.take(i as int));
            let (a2, b2) = step(a, b, dirs[i], self.gpmap.w, self.gpmap.h);
            a = a2;
            b = b2;
            i += 1;
        }
        assert(dirs@.take(dirs.len() as int) =~= dirs@);
        (a, b)
    }

    /// The unit moves one individual makes in a generation: a number drawn
    /// from the step distribution, none when there is none, each in a
    /// direction drawn uniformly.
    pub fn draw_moves(&self) -> (r: Vec<u64>)
        requires
            self.mutation matches Some(b) ==> rate_ok(b@),
        ensures
            forall|j: int| 0 <= j < r.len() ==> #[trigger] r[j] < 4,
            self.mutation.is_none() ==> r.len() == 0,
    {
        let k = match &self.mutation {
            None => 0,
            Some(b) => poisson_sample(b),
        };
        let mut dirs: Vec<u64> = Vec::new();
        let mut s: u64 = 0;
        while s < k
            invariant
                s <= k,
                dirs.len() == s,
                forall|j: int| 0 <= j < dirs.len() ==> #[trigger] dirs[j] < 4,
            decreases k - s,
        {
            dirs.push(random_below(4));
            s += 1;
        }
        dirs
    }

    /// Where an individual selected on `(x, y)` ends up: the walk of the
    /// moves drawn for it (see `draw_moves`).
    pub fn displace(&self, x: usize, y: usize) -> (r: (usize, usize))
        requires
            self.wf(),
            x < self.gpmap.w,
            y < self.gpmap.h,
        ensures
            r.0 < self.gpmap.w,
            r.1 < self.gpmap.h,
            exists|dirs: Seq<u64>|
                (forall|j: int| 0 <= j < dirs.len() ==> #[trigger] dirs[j] < 4) && (self.mutation.is_none() ==> dirs.len()
                    == 0) && (r.0 as int, r.1 as int) == #[trigger] walk_spec(
                    x as int,
                    y as int,
                    dirs,
                    self.gpmap.w as int,
                    self.gpmap.h as int,
                ),
            self.mutation.is_none() ==> r == (x, y),
    {
        let dirs = self.draw_moves();
        let r = self.walk(x, y, &dirs);
        proof {
            if self.mutation.is_none() {
                assert(dirs@.len() == 0);
            }
        }
        r
    }

    /// Draws the next generation into `pop`: `popsize` individuals drawn
    /// independently, each occupied cell with probability proportional to
    /// its fitness times its count, each then displaced (see `displace`).
    /// Fails, leaving `pop` as it was, when no occupied cell has positive
    /// fitness.
    pub fn select_mutate(&self, pop: &mut Population, gfmap: &Vec<u64>) -> (r: Result<(), SimError>)
        requires
            self.wf(),
            self.fits(*old(pop)),
            gfmap.len() == old(pop).pop.len(),
        ensures
            r is Err <==> forall|i: int|
                0 <= i < gfmap.len() ==> !(old(pop).pop[i] > 0 && #[trigger] gfmap[i] > 0),
            r is Err ==> r == Err::<(), SimError>(SimError::AllWeightsZero) && *final(pop) == *old(pop),
            r is Ok ==> {
                &&& self.fits(*final(pop))
                &&& final(pop).avgsum@ == old(pop).avgsum@
                &&& final(pop).avgcount == old(pop).avgcount
            },
            r is Ok ==> self.resampled(old(pop).pop@, gfmap@, final(pop).pop@),
            r is Ok && self.mutation.is_none() ==> forall|i: int|
                0 <= i < gfmap.len() && #[trigger] final(pop).pop[i] > 0 ==> old(pop).pop[i] > 0 && gfmap[i] > 0,
    {
        let n = pop.pop.len();
        let h = pop.h;
        let ghost cells = pop.pop@;
        let mut gtypes: Vec<(usize, usize)> = Vec::new();
        let mut weights: Vec<u128> = Vec::new();
        let mut sum: u128 = 0;
        let mut i: usize = 0;
        let mut x: usize = 0;
        let mut y: usize = 0;
        proof {
            lemma_total_bounds(cells);
        }
        while i < n
            invariant
                self.gpmap.wf(),
                self.fits(*pop),
                cells == pop.pop@,
                n == pop.pop.len(),
                n == gfmap.len(),
                h == pop.h,
                i <= n,
                y < h,
                i == flat(x as int, y as int, h as int),
                forall|j: int| 0 <= j <= n ==> total(#[trigger] cells.take(j)) <= total(cells),
                gtypes.len() == weights.len(),
                sum == weight_total(weights@),
                sum <= u64::MAX * total(cells.take(i as int)),
                (sum == 0) <==> forall|j: int| 0 <= j < i ==> !(cells[j] > 0 && #[trigger] gfmap[j] > 0),
                forall|t: int|
                    0 <= t < gtypes.len() ==> {
                        let (a, b) = #[trigger] gtypes[t];
                        &&& a < pop.w
                        &&& b < h
                        &&& flat(a as int, b as int, h as int) < i
                        &&& cells[flat(a as int, b as int, h as int)] > 0
                        &&& weights[t] == gfmap[flat(a as int, b as int, h as int)] * cells[flat(
                            a as int,
                            b as int,
                            h as int,
                        )]
                    },
            decreases n - i,
        {
            proof {
                lemma_flat_column(x as int, y as int, pop.w as int, h as int);
                lemma_flat_next(x as int, y as int, h as int);
                lemma_total_take(cells, i as int);
            }
            let c = pop.pop[i];
            if c != 0 {
                let f = gfmap[i];
                assert(f * c <= u64::MAX * u64::MAX) by (nonlinear_arith)
                    requires
                        f <= u64::MAX,
                        c <= u64::MAX,
                ;
                let wt = (f as u128) * (c as u128);
                assert(wt <= u64::MAX * c) by (nonlinear_arith)
                    requires
                        wt == f * c,
                        f <= u64::MAX,
                ;
                assert(u64::MAX * total(cells.take(i as int)) + u64::MAX * c == u64::MAX * total(cells.take(i + 1)))
                    by (nonlinear_arith)
                    requires
                        total(cells.take(i + 1)) == total(cells.take(i as int)) + c,
                ;
                assert(u64::MAX * total(cells.take(i + 1)) <= u64::MAX * u64::MAX) by (nonlinear_arith)
                    requires
                        total(cells.take(i + 1)) <= u64::MAX,
                ;
                assert(wt > 0 <==> f > 0) by (nonlinear_arith)
                    requires
                        wt == f * c,
                        c > 0,
                ;
                proof {
                    lemma_weight_total_push(weights@, wt);
                }
                gtypes.push((x, y));
                weights.push(wt);
                sum = sum + wt;
            } else {
                assert(u64::MAX * total(cells.take(i as int)) == u64::MAX * total(cells.take(i + 1)));
            }
            i += 1;
            if y + 1 == h {
                y = 0;
                x += 1;
            } else {
                y += 1;
            }
        }
        if sum == 0 {
            return Err(SimError::AllWeightsZero);
        }
        let samples = weighted_sample(&weights, self.settings.popsize);
        let ghost w = pop.w as int;
        let ghost mut origins: Seq<(int, int)> = Seq::empty();
        let ghost mut moves: Seq<Seq<u64>> = Seq::empty();
        let mut placed: Vec<usize> = Vec::new();
        let mut k: usize = 0;
        while k < samples.len()
            invariant
                self.wf(),
                self.fits(*pop),
                w == pop.w,
                cells == pop.pop@,
                n == pop.pop.len(),
                n == gfmap.len(),
                h == pop.h,
                k <= samples.len(),
                placed.len() == k,
                origins.len() == k,
                moves.len() == k,
                samples.len() == self.settings.popsize,
                forall|t: int| 0 <= t < samples.len() ==> #[trigger] samples[t] < weights.len() && weights[samples[t] as int] > 0,
                gtypes.len() == weights.len(),
                forall|t: int|
                    0 <= t < gtypes.len() ==> {
                        let (a, b) = #[trigger] gtypes[t];
                        &&& a < pop.w
                        &&& b < h
                        &&& cells[flat(a as int, b as int, h as int)] > 0
                        &&& weights[t] == gfmap[flat(a as int, b as int, h as int)] * cells[flat(
                            a as int,
                            b as int,
                            h as int,
                        )]
                    },
                forall|q: int| 0 <= q < k ==> #[trigger] placed[q] < n,
                placed@ == placements(origins, moves, w, h as int),
                forall|q: int|
                    0 <= q < k ==> {
                        let o = #[trigger] origins[q];
                        &&& 0 <= o.0 < w
                        &&& 0 <= o.1 < h
                        &&& cells[flat(o.0, o.1, h as int)] > 0
                        &&& gfmap[flat(o.0, o.1, h as int)] > 0
                        &&& forall|j: int| 0 <= j < moves[q].len() ==> #[trigger] moves[q][j] < 4
                        &&& (self.mutation.is_none() ==> moves[q].len() == 0)
                    },
            decreases samples.len() - k,
        {
            let t = samples[k];
            let (a, b) = gtypes[t];
            let dirs = self.draw_moves();
            let (x2, y2) = self.walk(a, b, &dirs);
            proof {
                lemma_flat_in_bounds(x2 as int, y2 as int, pop.w as int, h as int);
                let fa = gfmap[flat(a as int, b as int, h as int)];
                let ca = cells[flat(a as int, b as int, h as int)];
                assert(fa > 0) by (nonlinear_arith)
                    requires
                        weights[t as int] == fa * ca,
                        weights[t as int] > 0,
                        fa >= 0,
                ;
            }
            let ghost before = placed@;
            placed.push(x2 * h + y2);
            proof {
                origins = origins.push((a as int, b as int));
                moves = moves.push(dirs@);
                assert(placed@ =~= placements(origins, moves, w, h as int));
            }
            k += 1;
        }
        let fresh = tally(n, &placed);
        pop.set_pop(fresh);
        proof {
            assert(placements(origins, moves, w, h as int).len() == self.settings.popsize);
            assert(self.resampled(cells, gfmap@, pop.pop@));
            if self.mutation.is_none() {
                self.lemma_no_mutation_no_spread(cells, gfmap@, pop.pop@);
            }
        }
        Ok(())
    }

    /// The fitness of every cell in environment `envid`, stored flat.
    pub fn fitness_grid(&self, envid: i32) -> (r: Vec<u64>)
        requires
            self.wf(),
            0 <= envid < self.env.count(),
        ensures
            r.len() == self.gpmap.gpmap.len(),
            forall|i: int|
                0 <= i < r.len() ==> #[trigger] r[i] == self.env.pfmaps[envid as int][self.gpmap.gpmap[i] as int],
    {
        let pfmap = self.env.get_pfmap(envid);
        match self.gpmap.get_gfmap(pfmap) {
            Some(g) => g,
            None => {
                proof {
                    let i = choose|i: int| 0 <= i < self.gpmap.gpmap.len() && #[trigger] self.gpmap.gpmap[i] >= pfmap.len();
                    assert(self.gpmap.gpmap[i] < self.env.pfmaps[envid as int].len());
                }
                Vec::new()
            },
        }
    }

    /// The state at generation 0: the initial population, offered to the
    /// time average, the first environment and its fitness grid.
    pub fn start(&self) -> (r: SimState)
        requires
            self.wf(),
        ensures
            self.state_wf(&r),
            r.time == 0,
            r.pop.pop@ == self.initpop.pop@,
            r.pop.size() == self.settings.popsize,
            (r.pop.avg_view(), r.pop.avgcount as int) == avg_step(
                self.initpop.avg_view(),
                self.initpop.avgcount as int,
                self.initpop.pop@,
                0,
                self.settings.timeavgstart as int,
                self.settings.timeavgend as int,
            ),
            self.env.next_ok(0, -1i32, r.envid),
    {
        let envid = self.env.get_envid(0, -1);
        let gfmap = self.fitness_grid(envid);
        let mut pop = self.initpop.duplicate();
        assert(pop.avg_view() =~= self.initpop.avg_view());
        pop.add_to_average(0, self.settings.timeavgstart, self.settings.timeavgend);
        SimState { time: 0, envid, pop, gfmap }
    }

    /// Runs one generation: selection and mutation on the fitness grid of
    /// the generation before, the time average, then the environment and
    /// its fitness grid. The population keeps `popsize` individuals. Fails,
    /// leaving the state as it was, when every selection weight is zero.
    pub fn advance(&self, st: &mut SimState) -> (r: Result<(), SimError>)
        requires
            self.wf(),
            self.state_wf(old(st)),
            old(st).time + 1 < u64::MAX,
        ensures
            r is Err <==> forall|i: int|
                0 <= i < old(st).gfmap.len() ==> !(old(st).pop.pop[i] > 0 && #[trigger] old(st).gfmap[i] > 0),
            r is Err ==> *final(st) == *old(st),
            r is Ok ==> {
                &&& self.state_wf(final(st))
                &&& final(st).time == old(st).time + 1
                &&& final(st).pop.size() == self.settings.popsize
                &&& self.resampled(old(st).pop.pop@, old(st).gfmap@, final(st).pop.pop@)
                &&& (final(st).pop.avg_view(), final(st).pop.avgcount as int) == avg_step(
                    old(st).pop.avg_view(),
                    old(st).pop.avgcount as int,
                    final(st).pop.pop@,
                    final(st).time as int,
                    self.settings.timeavgstart as int,
                    self.settings.timeavgend as int,
                )
                &&& self.env.next_ok(final(st).time, old(st).envid, final(st).envid)
            },
            r is Ok && self.mutation.is_none() ==> forall|i: int|
                0 <= i < old(st).gfmap.len() && #[trigger] final(st).pop.pop[i] > 0 ==> old(st).pop.pop[i] > 0
                    && old(st).gfmap[i] > 0,
    {
        let time = st.time + 1;
        match self.select_mutate(&mut st.pop, &st.gfmap) {
            Err(e) => {
                return Err(e);
            },
            Ok(()) => {},
        }
        let ghost mid = st.pop;
        assert(mid.avg_view() =~= old(st).pop.avg_view());
        st.pop.add_to_average(time, self.settings.timeavgstart, self.settings.timeavgend);
        let envid = self.env.get_envid(time, st.envid);
        st.envid = envid;
        st.gfmap = self.fitness_grid(envid);
        st.time = time;
        Ok(())
    }

    /// Whether generation `time` is written out: every `saveevery`
    /// generations, and the last one.
    pub fn should_output(&self, time: u64) -> (r: bool)
        requires
            self.settings.saveevery >= 1,
        ensures
            r == (time % self.settings.saveevery == 0 || time == self.settings.maxgens),
    {
        time % self.settings.saveevery == 0 || time == self.settings.maxgens
    }
}

} // verus!
