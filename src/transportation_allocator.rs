use vstd::prelude::*;

use crate::location::{is_floor_sqrt, squared_distance, Location};
use crate::population::{counts_le, scaled_nearest, sum_counts, Population};
use crate::random::{random_at_most, random_index};
use crate::region::{Port, PortID, Region, RegionID};

verus! {

/// A group of people travelling from one port to another.
#[derive(Debug, Clone, Copy, PartialEq, Eq, Structural)]
pub struct TransportJob {
    pub start_port: PortID,
    pub start_region: RegionID,
    pub end_port: PortID,
    pub end_region: RegionID,
    pub population: Population,
    /// Ticks left before the group arrives.
    pub time: u64,
}

/// The populations carried by `jobs`, in order.
pub open spec fn job_populations(jobs: Seq<TransportJob>) -> Seq<Population> {
    jobs.map_values(|j: TransportJob| j.population)
}

/// Jobs that an allocator may hand back for a departure from `start_port`
/// of `start_region` towards one of `choices`: together they carry no more
/// people of any state than the region holds, each leaves from that port
/// and region, and each goes to one of the choices and its owning region.
pub open spec fn valid_jobs(
    jobs: Seq<TransportJob>,
    start_port: Port,
    start_region: Region,
    choices: Seq<Port>,
) -> bool {
    &&& counts_le(sum_counts(job_populations(jobs)), start_region.population.counts())
    &&& forall|k: int|
        0 <= k < jobs.len() ==> {
            &&& (#[trigger] jobs[k]).start_region == start_region.id
            &&& jobs[k].start_port == start_port.id
            &&& exists|d: int|
                0 <= d < choices.len() && (#[trigger] choices[d]).id == jobs[k].end_port
                    && choices[d].region == jobs[k].end_region
        }
}

/// Decides how many people leave a port, and where they go.
pub trait TransportAllocator {
    /// Jobs for one departure from `start_port` of `start_region` towards one
    /// of `destination_port_choices`; `None` when nobody leaves.
    fn calculate_transport(
        &self,
        start_port: &Port,
        start_region: &Region,
        destination_port_choices: Vec<Port>,
    ) -> (r: Option<Vec<TransportJob>>)
        requires
            start_region.population.total() <= u32::MAX,
        ensures
            r matches Some(jobs) ==> valid_jobs(
                jobs@,
                *start_port,
                *start_region,
                destination_port_choices@,
            ),
    ;
}

/// The share of `pop` that a departure of `magnitude` people takes: all of
/// it when `magnitude` reaches its total, else `pop` scaled by
/// `magnitude / total` with each state rounded to the nearest integer.
pub open spec fn transport_share(pop: Population, magnitude: u32) -> Population {
    if magnitude >= pop.total() {
        pop
    } else {
        Population {
            healthy: scaled_nearest(pop.healthy, magnitude, pop.total() as u32) as u32,
            infected: scaled_nearest(pop.infected, magnitude, pop.total() as u32) as u32,
            dead: scaled_nearest(pop.dead, magnitude, pop.total() as u32) as u32,
            recovered: scaled_nearest(pop.recovered, magnitude, pop.total() as u32) as u32,
        }
    }
}

/// Rounding a share below the whole never rounds past the whole.
proof fn lemma_scaled_nearest_within(c: u32, m: u32, t: u32)
    requires
        m < t,
    ensures
        scaled_nearest(c, m, t) <= c,
{
    let x = 2 * (c as int) * (m as int) + t as int;
    let d = 2 * (t as int);
    assert(x < d * (c as int + 1)) by (nonlinear_arith)
        requires
            x == 2 * (c as int) * (m as int) + t as int,
            d == 2 * (t as int),
            0 <= m < t,
            c >= 0,
    ;
    assert(x / d <= c as int) by (nonlinear_arith)
        requires
            0 <= x < d * (c as int + 1),
            d > 0,
    ;
}

/// `job` moves the share of `start_region`'s population that `magnitude`
/// people take from `start_port` to `dest`, and takes as many ticks as the
/// distance between the two ports, rounded down.
pub open spec fn is_planned_job(
    job: TransportJob,
    start_port: Port,
    start_region: Region,
    dest: Port,
    magnitude: u32,
) -> bool {
    &&& job.start_port == start_port.id
    &&& job.start_region == start_region.id
    &&& job.end_port == dest.id
    &&& job.end_region == dest.region
    &&& job.population == transport_share(start_region.population, magnitude)
    &&& is_floor_sqrt(job.time as int, squared_distance(start_port.pos, dest.pos))
}

/// The job that moves `magnitude` people (or the whole population, if it has
/// fewer) from `start_port` of `start_region` to `dest`, taking as many ticks
/// as the distance between the two ports, rounded down; `None` when
/// `magnitude` is zero.
pub fn plan_transport(start_port: &Port, start_region: &Region, dest: &Port, magnitude: u32) -> (r:
    Option<TransportJob>)
    requires
        start_region.population.total() <= u32::MAX,
    ensures
        r.is_none() <==> magnitude == 0,
        r matches Some(job) ==> is_planned_job(job, *start_port, *start_region, *dest, magnitude)
            && job.population.fits_within(start_region.population),
{
    if magnitude == 0 {
        return None;
    }
    let current = start_region.population;
    let total = current.get_total();
    let transported = if magnitude >= total {
        current
    } else {
        proof {
            lemma_scaled_nearest_within(current.healthy, magnitude, total);
            lemma_scaled_nearest_within(current.infected, magnitude, total);
            lemma_scaled_nearest_within(current.dead, magnitude, total);
            lemma_scaled_nearest_within(current.recovered, magnitude, total);
        }
        current.scale(magnitude, total)
    };
    let time = start_port.pos.distance(&dest.pos);
    Some(
        TransportJob {
            start_port: start_port.id,
            start_region: start_region.id,
            end_port: dest.id,
            end_region: dest.region,
            population: transported,
            time,
        },
    )
}

/// Sends, with a given probability, a random number of people up to the
/// port's capacity to one destination picked at random; the group keeps
/// the make-up of the region it leaves.
pub struct RandomTransportAllocator {
    /// The chance of a departure is `transport_numerator / transport_denominator`;
    /// a zero denominator means no departures.
    pub transport_numerator: u32,
    pub transport_denominator: u32,
}

impl RandomTransportAllocator {
    /// An allocator that starts a departure with probability
    /// `numerator / denominator`.
    pub fn new(numerator: u32, denominator: u32) -> (r: RandomTransportAllocator)
        ensures
            r.transport_numerator == numerator,
            r.transport_denominator == denominator,
    {
        RandomTransportAllocator { transport_numerator: numerator, transport_denominator: denominator }
    }
}

impl TransportAllocator for RandomTransportAllocator {
    fn calculate_transport(
        &self,
        start_port: &Port,
        start_region: &Region,
        destination_port_choices: Vec<Port>,
    ) -> (r: Option<Vec<TransportJob>>)
        ensures
            self.transport_numerator == 0 || self.transport_denominator == 0
                || destination_port_choices@.len() == 0 || start_port.capacity == 0 ==> r is None,
            r matches Some(jobs) ==> jobs@.len() == 1,
            r matches Some(jobs) ==> exists|m: u32|
                1 <= m <= start_port.capacity && jobs@[0].population == #[trigger] transport_share(
                    start_region.population,
                    m,
                ) && exists|d: int|
                    0 <= d < destination_port_choices@.len() && is_planned_job(
                        jobs@[0],
                        *start_port,
                        *start_region,
                        #[trigger] destination_port_choices@[d],
                        m,
                    ),
    {
        if self.transport_denominator == 0 || random_at_most(self.transport_denominator - 1)
            >= self.transport_numerator {
            return None;
        }
        let choice = random_index(destination_port_choices.len());
        match choice {
            None => None,
            Some(i) => {
                let dest = destination_port_choices[i];
                let magnitude = random_at_most(start_port.capacity);
                match plan_transport(start_port, start_region, &dest, magnitude) {
                    None => None,
                    Some(job) => {
                        let jobs = vec![job];
                        proof {
                            let pops = job_populations(jobs@);
                            assert(pops.drop_last() =~= Seq::<Population>::empty());
                            assert(pops.last() == job.population);
                            assert(sum_counts(pops.drop_last()) == (0int, 0int, 0int, 0int));
                            assert(jobs@[0] == job);
                            assert(destination_port_choices@[i as int] == dest);
                            assert(is_planned_job(
                                jobs@[0],
                                *start_port,
                                *start_region,
                                destination_port_choices@[i as int],
                                magnitude,
                            ));
                            assert(1 <= magnitude <= start_port.capacity);
                            assert(0 <= i < destination_port_choices@.len());
                        }
                        Some(jobs)
                    },
                }
            },
        }
    }
}

} // verus!
