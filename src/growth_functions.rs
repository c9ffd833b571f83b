use vstd::prelude::*;

use crate::population::Population;

verus! {

/// How many people linear growth moves from healthy to infected: `amount`,
/// or fewer when there are not enough healthy people or the infected count
/// would pass `u32::MAX`.
pub open spec fn linear_growth_step(init_pop: Population, amount: u32) -> int {
    let room = u32::MAX - init_pop.infected;
    if amount <= init_pop.healthy && amount <= room {
        amount as int
    } else if init_pop.healthy <= room {
        init_pop.healthy as int
    } else {
        room
    }
}

/// Infects `amount` healthy people, or as many as possible; the other
/// states are left as they are.
pub fn linear_growth(init_pop: Population, amount: u32) -> (r: Population)
    ensures
        r.healthy == init_pop.healthy - linear_growth_step(init_pop, amount),
        r.infected == init_pop.infected + linear_growth_step(init_pop, amount),
        r.dead == init_pop.dead,
        r.recovered == init_pop.recovered,
{
    let room = u32::MAX - init_pop.infected;
    let moved = if amount <= init_pop.healthy && amount <= room {
        amount
    } else if init_pop.healthy <= room {
        init_pop.healthy
    } else {
        room
    };
    Population {
        healthy: init_pop.healthy - moved,
        infected: init_pop.infected + moved,
        dead: init_pop.dead,
        recovered: init_pop.recovered,
    }
}

} // verus!
