use vstd::prelude::*;

use crate::error::SimError;
use crate::random::random_at_most;

verus! {

/// Any group of people, counted by health state.
#[derive(Debug, Clone, Copy, PartialEq, Eq, Structural)]
pub struct Population {
    pub healthy: u32,
    pub infected: u32,
    pub dead: u32,
    pub recovered: u32,
}

/// The four counts of a population as mathematical integers, in the order
/// healthy, infected, dead, recovered.
pub type Counts = (int, int, int, int);

pub open spec fn add_counts(a: Counts, b: Counts) -> Counts {
    (a.0 + b.0, a.1 + b.1, a.2 + b.2, a.3 + b.3)
}

pub open spec fn counts_total(c: Counts) -> int {
    c.0 + c.1 + c.2 + c.3
}

/// The per-state sum of a sequence of populations.
pub open spec fn sum_counts(s: Seq<Population>) -> Counts
    decreases s.len(),
{
    if s.len() == 0 {
        (0, 0, 0, 0)
    } else {
        add_counts(sum_counts(s.drop_last()), s.last().counts())
    }
}

/// `c` is at most `u32::MAX` in every state.
pub open spec fn counts_fit(c: Counts) -> bool {
    0 <= c.0 <= u32::MAX && 0 <= c.1 <= u32::MAX && 0 <= c.2 <= u32::MAX && 0 <= c.3 <= u32::MAX
}

/// `count * num / den`, rounded down, saturated at `u32::MAX`.
pub open spec fn scaled_down(count: u32, num: u32, den: u32) -> int {
    let v = (count as int) * (num as int) / (den as int);
    if v > u32::MAX {
        u32::MAX as int
    } else {
        v
    }
}

/// `count * num / den`, rounded to the nearest integer with halves rounded
/// up, saturated at `u32::MAX`.
pub open spec fn scaled_nearest(count: u32, num: u32, den: u32) -> int {
    let v = (2 * (count as int) * (num as int) + den as int) / (2 * (den as int));
    if v > u32::MAX {
        u32::MAX as int
    } else {
        v
    }
}

impl Population {
    pub open spec fn counts(&self) -> Counts {
        (self.healthy as int, self.infected as int, self.dead as int, self.recovered as int)
    }

    pub open spec fn total(&self) -> int {
        counts_total(self.counts())
    }

    pub open spec fn alive(&self) -> int {
        self.healthy + self.infected + self.recovered
    }

    /// Every state of `self` holds at most as many people as in `other`.
    pub open spec fn fits_within(&self, other: Population) -> bool {
        self.healthy <= other.healthy && self.infected <= other.infected && self.dead
            <= other.dead && self.recovered <= other.recovered
    }

    pub open spec fn from_counts(c: Counts) -> Population {
        Population {
            healthy: c.0 as u32,
            infected: c.1 as u32,
            dead: c.2 as u32,
            recovered: c.3 as u32,
        }
    }

    /// Creates a population of `initial_pop` healthy people.
    pub fn new(initial_pop: u32) -> (r: Population)
        ensures
            r == (Population { healthy: initial_pop, infected: 0, dead: 0, recovered: 0 }),
    {
        Population { healthy: initial_pop, infected: 0, dead: 0, recovered: 0 }
    }

    /// Creates a population of `size` people split at random between the
    /// health states: healthy draws uniformly from all of them, then dead
    /// from what is left, then infected, and recovered takes the rest.
    pub fn new_random(size: u32) -> (r: Population)
        ensures
            r.total() == size,
            r.healthy <= size,
            r.dead <= size - r.healthy,
            r.infected <= size - r.healthy - r.dead,
            r.recovered == size - r.healthy - r.dead - r.infected,
    {
        let healthy = random_at_most(size);
        let dead = random_at_most(size - healthy);
        let infected = random_at_most(size - healthy - dead);
        Population::from_draws(size, healthy, dead, infected)
    }

    /// The population of `size` people with `healthy` healthy, `dead` dead
    /// and `infected` infected people, the rest recovered.
    pub fn from_draws(size: u32, healthy: u32, dead: u32, infected: u32) -> (r: Population)
        requires
            healthy <= size,
            dead <= size - healthy,
            infected <= size - healthy - dead,
        ensures
            r == (Population {
                healthy,
                infected,
                dead,
                recovered: (size - healthy - dead - infected) as u32,
            }),
    {
        Population { healthy, infected, dead, recovered: size - healthy - dead - infected }
    }

    /// The population obtained by adding `rhs` state by state.
    pub fn add(self, rhs: Population) -> (r: Population)
        requires
            counts_fit(add_counts(self.counts(), rhs.counts())),
        ensures
            r.counts() == add_counts(self.counts(), rhs.counts()),
    {
        Population {
            healthy: self.healthy + rhs.healthy,
            infected: self.infected + rhs.infected,
            dead: self.dead + rhs.dead,
            recovered: self.recovered + rhs.recovered,
        }
    }

    /// Scales every state by `numerator / denominator`, rounding each count down.
    pub fn scale_truncate(&self, numerator: u32, denominator: u32) -> (r: Population)
        requires
            denominator > 0,
        ensures
            r.healthy == scaled_down(self.healthy, numerator, denominator),
            r.infected == scaled_down(self.infected, numerator, denominator),
            r.dead == scaled_down(self.dead, numerator, denominator),
            r.recovered == scaled_down(self.recovered, numerator, denominator),
    {
        Population {
            healthy: scale_count_down(self.healthy, numerator, denominator),
            infected: scale_count_down(self.infected, numerator, denominator),
            dead: scale_count_down(self.dead, numerator, denominator),
            recovered: scale_count_down(self.recovered, numerator, denominator),
        }
    }

    /// Scales every state by `numerator / denominator`, rounding each count
    /// to the nearest integer.
    pub fn scale(&self, numerator: u32, denominator: u32) -> (r: Population)
        requires
            denominator > 0,
        ensures
            r.healthy == scaled_nearest(self.healthy, numerator, denominator),
            r.infected == scaled_nearest(self.infected, numerator, denominator),
            r.dead == scaled_nearest(self.dead, numerator, denominator),
            r.recovered == scaled_nearest(self.recovered, numerator, denominator),
    {
        Population {
            healthy: scale_count_nearest(self.healthy, numerator, denominator),
            infected: scale_count_nearest(self.infected, numerator, denominator),
            dead: scale_count_nearest(self.dead, numerator, denominator),
            recovered: scale_count_nearest(self.recovered, numerator, denominator),
        }
    }

    /// Number of people who are not dead.
    pub fn get_alive(&self) -> (r: u32)
        requires
            self.alive() <= u32::MAX,
        ensures
            r == self.alive(),
    {
        self.healthy + self.infected + self.recovered
    }

    /// Number of people in every state, dead included.
    pub fn get_total(&self) -> (r: u32)
        requires
            self.total() <= u32::MAX,
        ensures
            r == self.total(),
    {
        self.dead + self.healthy + self.recovered + self.infected
    }

    /// The population left after `group` leaves this one; fails when some
    /// state of `group` outnumbers the same state here.
    pub fn emigrate(&self, group: Population) -> (r: Result<Population, SimError>)
        ensures
            r is Err <==> !group.fits_within(*self),
            r matches Err(e) ==> e == SimError::InsufficientPopulation,
            r matches Ok(p) ==> add_counts(p.counts(), group.counts()) == self.counts(),
    {
        if group.healthy > self.healthy || group.dead > self.dead || group.recovered
            > self.recovered || group.infected > self.infected {
            Err(SimError::InsufficientPopulation)
        } else {
            Ok(
                Population {
                    healthy: self.healthy - group.healthy,
                    infected: self.infected - group.infected,
                    dead: self.dead - group.dead,
                    recovered: self.recovered - group.recovered,
                },
            )
        }
    }
}

/// A value that carries a population which can be read and replaced.
pub trait PopulationType {
    spec fn spec_population(&self) -> Population;

    fn population(&self) -> (r: Population)
        ensures
            r == self.spec_population(),
    ;

    fn set_population(&mut self, population: Population)
        ensures
            final(self).spec_population() == population,
    ;
}

impl PopulationType for Population {
    open spec fn spec_population(&self) -> Population {
        *self
    }

    fn population(&self) -> (r: Population) {
        *self
    }

    fn set_population(&mut self, population: Population) {
        *self = population;
    }
}

fn scale_count_down(count: u32, num: u32, den: u32) -> (r: u32)
    requires
        den > 0,
    ensures
        r == scaled_down(count, num, den),
{
    assert((count as int) * (num as int) <= (u32::MAX as int) * (u32::MAX as int))
        by (nonlinear_arith);
    let prod: u64 = count as u64 * num as u64;
    let q: u64 = prod / den as u64;
    if q > u32::MAX as u64 {
        u32::MAX
    } else {
        q as u32
    }
}

fn scale_count_nearest(count: u32, num: u32, den: u32) -> (r: u32)
    requires
        den > 0,
    ensures
        r == scaled_nearest(count, num, den),
{
    assert((count as int) * (num as int) <= (u32::MAX as int) * (u32::MAX as int))
        by (nonlinear_arith);
    let prod: u128 = count as u128 * num as u128;
    let q: u128 = (2 * prod + den as u128) / (2 * den as u128);
    assert(2 * (count as int) * (num as int) == 2 * prod) by (nonlinear_arith)
        requires
            prod == (count as int) * (num as int),
    ;
    if q > u32::MAX as u128 {
        u32::MAX
    } else {
        q as u32
    }
}

/// `a` is at most `b` in every state.
pub open spec fn counts_le(a: Counts, b: Counts) -> bool {
    a.0 <= b.0 && a.1 <= b.1 && a.2 <= b.2 && a.3 <= b.3
}

/// Extending a prefix by one element adds that element's counts.
pub proof fn lemma_sum_take(s: Seq<Population>, k: int)
    requires
        0 <= k < s.len(),
    ensures
        sum_counts(s.take(k + 1)) == add_counts(sum_counts(s.take(k)), s[k].counts()),
{
    assert(s.take(k + 1).drop_last() =~= s.take(k));
}

/// A prefix sums to no more than the whole sequence.
pub proof fn lemma_sum_take_le(s: Seq<Population>, k: int)
    requires
        0 <= k <= s.len(),
    ensures
        counts_le(sum_counts(s.take(k)), sum_counts(s)),
    decreases s.len() - k,
{
    if k < s.len() {
        lemma_sum_take_le(s, k + 1);
        lemma_sum_take(s, k);
    } else {
        assert(s.take(k) =~= s);
    }
}

/// Adding one more population to a sequence adds its counts to the sum.
pub proof fn lemma_sum_push(s: Seq<Population>, p: Population)
    ensures
        sum_counts(s.push(p)) == add_counts(sum_counts(s), p.counts()),
{
    assert(s.push(p).drop_last() =~= s);
}

/// Every sum of populations is non-negative in each state.
pub proof fn lemma_sum_nonneg(s: Seq<Population>)
    ensures
        sum_counts(s).0 >= 0 && sum_counts(s).1 >= 0 && sum_counts(s).2 >= 0 && sum_counts(s).3
            >= 0,
    decreases s.len(),
{
    if s.len() > 0 {
        lemma_sum_nonneg(s.drop_last());
    }
}

/// Replacing one element changes the sum by the difference of the counts.
pub proof fn lemma_sum_update(s: Seq<Population>, i: int, p: Population)
    requires
        0 <= i < s.len(),
    ensures
        add_counts(sum_counts(s.update(i, p)), s[i].counts()) == add_counts(
            sum_counts(s),
            p.counts(),
        ),
    decreases s.len(),
{
    if i == s.len() - 1 {
        assert(s.update(i, p).drop_last() =~= s.drop_last());
    } else {
        lemma_sum_update(s.drop_last(), i, p);
        assert(s.update(i, p).drop_last() =~= s.drop_last().update(i, p));
    }
}

/// Removing one element subtracts its counts from the sum.
pub proof fn lemma_sum_remove(s: Seq<Population>, i: int)
    requires
        0 <= i < s.len(),
    ensures
        add_counts(sum_counts(s.remove(i)), s[i].counts()) == sum_counts(s),
    decreases s.len(),
{
    if i == s.len() - 1 {
        assert(s.remove(i) =~= s.drop_last());
    } else {
        lemma_sum_remove(s.drop_last(), i);
        assert(s.remove(i).drop_last() =~= s.drop_last().remove(i));
    }
}

/// Each element is bounded by the sum, state by state.
pub proof fn lemma_element_within_sum(s: Seq<Population>, i: int)
    requires
        0 <= i < s.len(),
    ensures
        s[i].healthy <= sum_counts(s).0,
        s[i].infected <= sum_counts(s).1,
        s[i].dead <= sum_counts(s).2,
        s[i].recovered <= sum_counts(s).3,
{
    lemma_sum_remove(s, i);
    lemma_sum_nonneg(s.remove(i));
}

} // verus!
