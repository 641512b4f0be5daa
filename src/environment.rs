//! Environment regimes: which environment is active at each generation,
//! and the phenotype fitness vector of each environment.
use vstd::prelude::*;
use crate::rng::random_below;
use vstd::arithmetic::div_mod::lemma_fundamental_div_mod_converse_mod;

verus! {

/// A fitness of one, in the units fitness values are given in: fitness is
/// a non-negative fixed-point number with this many units per whole.
pub const FITNESS_SCALE: u64 = 1_000_000_000;

/// A switching probability of one, in the units switching probabilities
/// are given in.
pub const SWITCH_SCALE: u64 = 1_000_000_000;

/// How the active environment changes over generations.
pub enum EnvRegimeType {
    /// Environment 0, forever.
    Constant,
    /// Each environment in turn, environment `i` for `durations[i]`
    /// generations, the whole cycle repeating.
    DetCyclic(Vec<u64>),
    /// At each generation, environment `i` gives way to the next one (the
    /// last to the first) with probability `weights[i] / SWITCH_SCALE`.
    ProbSwitch(Vec<u64>),
}

/// A regime and the phenotype fitness vector of each environment:
/// `pfmaps[e][p]` is the fitness of phenotype `p` in environment `e`.
pub struct Environment {
    pub regimetype: EnvRegimeType,
    pub pfmaps: Vec<Vec<u64>>,
}

/// Total length of a cycle of durations.
pub open spec fn dur_sum(d: Seq<u64>) -> int
    decreases d.len(),
{
    if d.len() == 0 {
        0
    } else {
        d[0] + dur_sum(d.drop_first())
    }
}

/// The slot of a cycle of durations `d` that covers `phase` generations
/// after the cycle began.
pub open spec fn cycle_slot(d: Seq<u64>, phase: int) -> int
    decreases d.len(),
{
    if d.len() == 0 {
        0
    } else if phase < d[0] {
        0
    } else {
        1 + cycle_slot(d.drop_first(), phase - d[0])
    }
}

/// The environment after `e` in cyclic order among `count`.
pub open spec fn next_env(e: int, count: int) -> int {
    if e + 1 < count {
        e + 1
    } else {
        0
    }
}

/// Environments reached by always advancing, `k` steps from `e`.
pub open spec fn advanced(e: int, count: int, k: nat) -> int
    decreases k,
{
    if k == 0 {
        e
    } else {
        next_env(advanced(e, count, (k - 1) as nat), count)
    }
}

/// With every switching probability one, the state advances by exactly one
/// environment per generation: `k` steps from `e` lead to `(e + k) % count`.
pub proof fn lemma_certain_switch_walk(e: int, count: int, k: nat)
    requires
        0 <= e < count,
    ensures
        advanced(e, count, k) == (e + k) % count,
    decreases k,
{
    if k > 0 {
        lemma_certain_switch_walk(e, count, (k - 1) as nat);
        let x = e + k - 1;
        let p = x % count;
        let q = x / count;
        vstd::arithmetic::div_mod::lemma_fundamental_div_mod(x, count);
        vstd::arithmetic::div_mod::lemma_mod_bound(x, count);
        assert(x == q * count + p) by (nonlinear_arith)
            requires
                x == count * q + p,
        ;
        if p + 1 < count {
            lemma_fundamental_div_mod_converse_mod(x + 1, count, q, p + 1);
        } else {
            assert(x + 1 == (q + 1) * count + 0) by (nonlinear_arith)
                requires
                    x == q * count + p,
                    p + 1 == count,
            ;
            lemma_fundamental_div_mod_converse_mod(x + 1, count, q + 1, 0);
        }
    } else {
        vstd::arithmetic::div_mod::lemma_small_mod(e as nat, count as nat);
    }
}

proof fn lemma_dur_sum_nonneg(d: Seq<u64>)
    ensures
        dur_sum(d) >= 0,
    decreases d.len(),
{
    if d.len() > 0 {
        lemma_dur_sum_nonneg(d.drop_first());
    }
}

proof fn lemma_dur_sum_push(d: Seq<u64>, v: u64)
    ensures
        dur_sum(d.push(v)) == dur_sum(d) + v,
    decreases d.len(),
{
    if d.len() > 0 {
        assert(d.push(v).drop_first() =~= d.drop_first().push(v));
        lemma_dur_sum_push(d.drop_first(), v);
    } else {
        assert(d.push(v).drop_first() =~= d);
    }
}

/// The switching rule: from `last`, advance to the next of `count`
/// environments when the draw `u` is below the switching weight `w`, else
/// stay.
pub open spec fn switched(last: int, count: int, w: u64, u: u64) -> int {
    if u < w {
        next_env(last, count)
    } else {
        last
    }
}

/// One switching decision (see `switched`).
pub fn switch_step(last: i32, count: usize, w: u64, u: u64) -> (r: i32)
    requires
        0 <= last < count,
        count <= i32::MAX,
    ensures
        r == switched(last as int, count as int, w, u),
{
    if u < w {
        if (last as usize) + 1 < count { last + 1 } else { 0 }
    } else {
        last
    }
}

impl Environment {
    /// Number of environments.
    pub open spec fn count(&self) -> int {
        self.pfmaps.len() as int
    }

    pub open spec fn wf(&self) -> bool {
        &&& self.pfmaps.len() >= 1
        &&& self.pfmaps.len() <= i32::MAX
        &&& match self.regimetype {
            EnvRegimeType::Constant => true,
            EnvRegimeType::DetCyclic(d) => d.len() == self.pfmaps.len() && 0 < dur_sum(d@) <= u64::MAX,
            EnvRegimeType::ProbSwitch(ws) => ws.len() == self.pfmaps.len() && forall|i: int|
                0 <= i < ws.len() ==> #[trigger] ws[i] <= SWITCH_SCALE,
        }
    }

    /// Puts a regime together with its fitness vectors. None unless there is
    /// at least one environment and no more than `i32::MAX`, and the regime
    /// fits them: one duration per environment, with a total that is
    /// positive and fits in `u64`, or one switching probability per
    /// environment, none above `SWITCH_SCALE`.
    pub fn new(regimetype: EnvRegimeType, pfmaps: Vec<Vec<u64>>) -> (r: Option<Environment>)
        ensures
            r.is_some() <==> (Environment { regimetype, pfmaps }).wf(),
            r.is_some() ==> r.unwrap() == (Environment { regimetype, pfmaps }),
    {
        if pfmaps.len() == 0 || pfmaps.len() > i32::MAX as usize {
            return None;
        }
        let ok = match &regimetype {
            EnvRegimeType::Constant => true,
            EnvRegimeType::DetCyclic(d) => {
                if d.len() != pfmaps.len() {
                    false
                } else {
                    let mut sum: u64 = 0;
                    let mut i: usize = 0;
                    let mut fits = true;
                    while i < d.len()
                        invariant
                            i <= d.len(),
                            fits ==> sum == dur_sum(d@.take(i as int)),
                            !fits ==> dur_sum(d@) > u64::MAX,
                        decreases d.len() - i,
                    {
                        proof {
                            assert(d@.take(i + 1) =~= d@.take(i as int).push(d[i as int]));
                            lemma_dur_sum_push(d@.take(i as int), d[i as int]);
                        }
                        if fits {
                            if sum > u64::MAX - d[i] {
                                fits = false;
                                proof {
                                    lemma_dur_sum_split(d@, i + 1);
                                    lemma_dur_sum_nonneg(d@.skip(i + 1));
                                }
                            } else {
                                sum = sum + d[i];
                            }
                        }
                        i += 1;
                    }
                    assert(d@.take(d.len() as int) =~= d@);
                    fits && sum > 0
                }
            },
            EnvRegimeType::ProbSwitch(ws) => {
                if ws.len() != pfmaps.len() {
                    false
                } else {
                    let mut i: usize = 0;
                    let mut fine = true;
                    while i < ws.len()
                        invariant
                            i <= ws.len(),
                            fine <==> forall|j: int| 0 <= j < i ==> #[trigger] ws[j] <= SWITCH_SCALE,
                        decreases ws.len() - i,
                    {
                        if ws[i] > SWITCH_SCALE {
                            fine = false;
                        }
                        i += 1;
                    }
                    fine
                }
            },
        };
        if ok {
            Some(Environment { regimetype, pfmaps })
        } else {
            None
        }
    }

    /// Whether `r` may be the environment of generation `time` after
    /// `last_envid` (-1 before the first generation): an environment; 0 for
    /// the constant regime; for the cyclic one the slot covering `time`
    /// modulo the cycle's length; for the switching one, after a first
    /// environment, the outcome of `switch_step` for some uniform draw below
    /// `SWITCH_SCALE`.
    pub open spec fn next_ok(&self, time: u64, last_envid: i32, r: i32) -> bool {
        &&& 0 <= r < self.count()
        &&& (self.regimetype is Constant ==> r == 0)
        &&& (self.regimetype is DetCyclic ==> r == cycle_slot(
            self.regimetype->DetCyclic_0@,
            time as int % dur_sum(self.regimetype->DetCyclic_0@),
        ))
        &&& (self.regimetype is ProbSwitch && last_envid != -1 ==> {
            let w = self.regimetype->ProbSwitch_0[last_envid as int];
            let next = next_env(last_envid as int, self.count());
            &&& exists|u: u64| u < SWITCH_SCALE && r == #[trigger] switched(last_envid as int, self.count(), w, u)
            &&& (w == SWITCH_SCALE ==> r == next)
            &&& (w == 0 ==> r == last_envid)
        })
    }

    /// The environment active at generation `time`, after `last_envid` (-1
    /// before the first generation).
    ///
    /// Constant: 0. Cyclic: the slot of the cycle that covers `time` modulo
    /// the cycle's length. Switching: at first an environment drawn
    /// uniformly; later `last_envid` or the next one, the next with the
    /// switching probability of `last_envid`.
    pub fn get_envid(&self, time: u64, last_envid: i32) -> (r: i32)
        requires
            self.wf(),
            last_envid == -1 || 0 <= last_envid < self.count(),
        ensures
            self.next_ok(time, last_envid, r),
    {
        match &self.regimetype {
            EnvRegimeType::Constant => 0,
            EnvRegimeType::DetCyclic(d) => {
                let ghost ds = d@;
                let mut total: u64 = 0;
                let mut i: usize = 0;
                while i < d.len()
                    invariant
                        ds == d@,
                        0 < dur_sum(ds) <= u64::MAX,
                        i <= d.len(),
                        total == dur_sum(ds.take(i as int)),
                    decreases d.len() - i,
                {
                    proof {
                        assert(ds.take(i + 1) =~= ds.take(i as int).push(ds[i as int]));
                        lemma_dur_sum_push(ds.take(i as int), ds[i as int]);
                        lemma_dur_sum_split(ds, i + 1);
                        lemma_dur_sum_nonneg(ds.skip(i + 1));
                    }
                    total = total + d[i];
                    i += 1;
                }
                assert(ds.take(d.len() as int) =~= ds);
                let phase = time % total;
                let mut acc: u64 = phase;
                let mut j: usize = 0;
                assert(ds.skip(0) =~= ds);
                while acc >= d[j]
                    invariant
                        ds == d@,
                        j < d.len(),
                        acc < dur_sum(ds.skip(j as int)),
                        cycle_slot(ds, phase as int) == j + cycle_slot(ds.skip(j as int), acc as int),
                    decreases d.len() - j,
                {
                    assert(ds.skip(j as int).drop_first() =~= ds.skip(j + 1));
                    proof {
                        lemma_dur_sum_nonneg(ds.skip(j + 1));
                    }
                    acc = acc - d[j];
                    if j + 1 == d.len() {
                        assert(ds.skip(j + 1).len() == 0);
                    }
                    j += 1;
                }
                j as i32
            },
            EnvRegimeType::ProbSwitch(ws) => {
                let count = self.pfmaps.len();
                if last_envid == -1 {
                    random_below(count as u64) as i32
                } else {
                    let u = random_below(SWITCH_SCALE);
                    switch_step(last_envid, count, ws[last_envid as usize], u)
                }
            },
        }
    }

    /// The phenotype fitness vector of environment `envid`.
    pub fn get_pfmap(&self, envid: i32) -> (r: &Vec<u64>)
        requires
            0 <= envid < self.pfmaps.len(),
        ensures
            r == &self.pfmaps[envid as int],
    {
        &self.pfmaps[envid as usize]
    }
}

proof fn lemma_dur_sum_split(d: Seq<u64>, i: int)
    requires
        0 <= i <= d.len(),
    ensures
        dur_sum(d) == dur_sum(d.take(i)) + dur_sum(d.skip(i)),
    decreases i,
{
    if i > 0 {
        lemma_dur_sum_split(d.drop_first(), i - 1);
        assert(d.drop_first().take(i - 1) =~= d.take(i).drop_first());
        assert(d.drop_first().skip(i - 1) =~= d.skip(i));
    } else {
        assert(d.skip(0) =~= d);
    }
}

} // verus!
