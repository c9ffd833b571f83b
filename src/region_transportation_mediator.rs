use vstd::prelude::*;

use crate::error::SimError;
use crate::population::{
    add_counts,
    counts_fit,
    counts_le,
    counts_total,
    lemma_element_within_sum,
    lemma_sum_nonneg,
    lemma_sum_push,
    lemma_sum_take,
    lemma_sum_take_le,
    lemma_sum_update,
    sum_counts,
    Counts,
    Population,
};
use crate::region::{Port, PortID, Region, RegionID};
use crate::simulation_geography::{
    add_outcome,
    geography_consistent,
    has_region,
    lemma_port_region_exists,
    lemma_region_index_unique,
    lemma_same_structure_regions,
    region_index,
    region_has_port,
    region_populations,
    same_structure,
    subtract_outcome,
    SimulationGeography,
};
use crate::transportation_allocator::{job_populations, valid_jobs, TransportAllocator, TransportJob};
use crate::transportation_graph::{
    dest_ids,
    dest_ports,
    graph_wf,
    has_port,
    is_open,
    lemma_index_of_in_range,
    open_dest_ports,
    GraphView,
    PortGraph,
};

verus! {

/// Figures about the simulation's population that observers may read.
#[derive(Debug, Clone, Copy, PartialEq, Eq, Structural)]
pub struct MediatorStatistics {
    /// Everyone currently travelling.
    pub in_transit: Population,
    /// Everyone currently living in a region.
    pub region_population: Population,
}

impl MediatorStatistics {
    /// Statistics with nobody in transit.
    pub fn new(region_population: Population) -> (r: MediatorStatistics)
        ensures
            r.in_transit == (Population { healthy: 0, infected: 0, dead: 0, recovered: 0 }),
            r.region_population == region_population,
    {
        MediatorStatistics { in_transit: Population::new(0), region_population }
    }
}

/// A job under way, with the duration it started with.
#[derive(Debug, Clone, Copy, PartialEq, Eq, Structural)]
pub struct InProgressJob {
    pub job: TransportJob,
    pub expected_time: u64,
}

impl InProgressJob {
    pub fn new(job: TransportJob) -> (r: InProgressJob)
        ensures
            r.job == job,
            r.expected_time == job.time,
    {
        InProgressJob { expected_time: job.time, job }
    }

    /// Ticks travelled so far; with `expected_time`, the share of the
    /// journey that is done.
    pub fn elapsed(&self) -> (r: u64)
        requires
            self.job.time <= self.expected_time,
        ensures
            r == self.expected_time - self.job.time,
    {
        self.expected_time - self.job.time
    }
}

/// The populations carried by the jobs, in order.
pub open spec fn in_progress_populations(jobs: Seq<InProgressJob>) -> Seq<Population> {
    jobs.map_values(|j: InProgressJob| j.job.population)
}

/// The jobs `js`, each starting with its full duration ahead.
pub open spec fn as_in_progress(js: Seq<TransportJob>) -> Seq<InProgressJob> {
    js.map_values(|j: TransportJob| InProgressJob { job: j, expected_time: j.time })
}

/// `j` one tick closer to arrival.
pub open spec fn advanced(j: InProgressJob) -> InProgressJob {
    InProgressJob { job: TransportJob { time: (j.job.time - 1) as u64, ..j.job }, ..j }
}

/// The jobs that are still travelling after one tick, each one tick closer
/// to arrival; jobs with no time left have arrived and are gone.
pub open spec fn still_travelling(jobs: Seq<InProgressJob>) -> Seq<InProgressJob>
    decreases jobs.len(),
{
    if jobs.len() == 0 {
        jobs
    } else {
        let rest = still_travelling(jobs.drop_last());
        if jobs.last().job.time == 0 {
            rest
        } else {
            rest.push(advanced(jobs.last()))
        }
    }
}

/// What the jobs of `js` that leave region `id` carry, by state.
pub open spec fn departed_from(js: Seq<TransportJob>, id: RegionID) -> Counts
    decreases js.len(),
{
    if js.len() == 0 {
        (0, 0, 0, 0)
    } else {
        let rest = departed_from(js.drop_last(), id);
        if js.last().start_region == id {
            add_counts(rest, js.last().population.counts())
        } else {
            rest
        }
    }
}

/// What the jobs of `jobs` with no time left deliver to region `id`, by state.
pub open spec fn arrived_at(jobs: Seq<InProgressJob>, id: RegionID) -> Counts
    decreases jobs.len(),
{
    if jobs.len() == 0 {
        (0, 0, 0, 0)
    } else {
        let rest = arrived_at(jobs.drop_last(), id);
        if jobs.last().job.time == 0 && jobs.last().job.end_region == id {
            add_counts(rest, jobs.last().job.population.counts())
        } else {
            rest
        }
    }
}

/// Job `j` leaves from a port of its start region, towards one of that
/// port's open destinations in graph `g` and the region owning it.
pub open spec fn departs_validly(j: TransportJob, g: GraphView, rs: Seq<Region>) -> bool {
    &&& has_region(rs, j.start_region)
    &&& region_has_port(rs[region_index(rs, j.start_region)], j.start_port)
    &&& exists|d: int|
        0 <= d < open_dest_ports(g, j.start_port).len() && (#[trigger] open_dest_ports(
            g,
            j.start_port,
        )[d]).id == j.end_port && open_dest_ports(g, j.start_port)[d].region == j.end_region
}

/// One tick took regions `rs` and jobs `jobs` of graph `g` to regions `rs2`
/// and jobs `jobs2`, starting the jobs `departed`: the jobs still travelling
/// came one tick closer and the new jobs follow them; each new job leaves a
/// port of its region towards an open destination of that port; and each
/// region received what arrived for it and lost what left it.
pub open spec fn tick_result(
    g: GraphView,
    rs: Seq<Region>,
    jobs: Seq<InProgressJob>,
    rs2: Seq<Region>,
    jobs2: Seq<InProgressJob>,
    departed: Seq<TransportJob>,
) -> bool {
    &&& jobs2 == still_travelling(jobs) + as_in_progress(departed)
    &&& forall|m: int| 0 <= m < departed.len() ==> departs_validly(#[trigger] departed[m], g, rs)
    &&& rs2.len() == rs.len()
    &&& forall|a: int|
        0 <= a < rs.len() ==> add_counts(
            (#[trigger] rs2[a]).population.counts(),
            departed_from(departed, rs[a].id),
        ) == add_counts(rs[a].population.counts(), arrived_at(jobs, rs[a].id))
}

proof fn lemma_departed_from_append(a: Seq<TransportJob>, b: Seq<TransportJob>, id: RegionID)
    ensures
        departed_from(a + b, id) == add_counts(departed_from(a, id), departed_from(b, id)),
    decreases b.len(),
{
    if b.len() == 0 {
        assert(a + b =~= a);
    } else {
        lemma_departed_from_append(a, b.drop_last(), id);
        assert((a + b).drop_last() =~= a + b.drop_last());
        assert((a + b).last() == b.last());
    }
}

/// Jobs that all leave one region take their whole load from it, and nothing
/// from any other region.
proof fn lemma_departed_from_one_region(js: Seq<TransportJob>, id: RegionID, other: RegionID)
    requires
        forall|m: int| 0 <= m < js.len() ==> (#[trigger] js[m]).start_region == id,
        other != id,
    ensures
        departed_from(js, id) == sum_counts(job_populations(js)),
        departed_from(js, other) == (0int, 0int, 0int, 0int),
    decreases js.len(),
{
    if js.len() > 0 {
        lemma_departed_from_one_region(js.drop_last(), id, other);
        assert(job_populations(js).drop_last() =~= job_populations(js.drop_last()));
        assert(js[js.len() - 1] == js.last());
    }
}

/// Moves people between the regions of a geography, one tick at a time.
pub struct RegionTransportationMediator<T: TransportAllocator> {
    geography: SimulationGeography,
    allocator: T,
    ongoing_transport: Vec<InProgressJob>,
    statistics: MediatorStatistics,
}

impl<T: TransportAllocator> RegionTransportationMediator<T> {
    pub closed spec fn spec_geography(&self) -> SimulationGeography {
        self.geography
    }

    pub closed spec fn spec_jobs(&self) -> Seq<InProgressJob> {
        self.ongoing_transport@
    }

    pub closed spec fn spec_statistics(&self) -> MediatorStatistics {
        self.statistics
    }

    pub open spec fn spec_regions(&self) -> Seq<Region> {
        self.spec_geography().spec_regions()
    }

    /// Everyone living in a region, by state.
    pub open spec fn regions_sum(&self) -> Counts {
        sum_counts(region_populations(self.spec_regions()))
    }

    /// Everyone travelling, by state.
    pub open spec fn transit_sum(&self) -> Counts {
        sum_counts(in_progress_populations(self.spec_jobs()))
    }

    /// Everyone in the simulation, by state.
    pub open spec fn population_sum(&self) -> Counts {
        add_counts(self.regions_sum(), self.transit_sum())
    }

    /// The geography is consistent, every job heads for a region that
    /// exists and has no more time left than it started with, and the whole
    /// population fits in a 32-bit count.
    pub open spec fn state_ok(&self) -> bool {
        &&& self.spec_geography().wf()
        &&& forall|k: int|
            0 <= k < self.spec_jobs().len() ==> has_region(
                self.spec_regions(),
                (#[trigger] self.spec_jobs()[k]).job.end_region,
            ) && self.spec_jobs()[k].job.time <= self.spec_jobs()[k].expected_time
        &&& counts_total(self.population_sum()) <= u32::MAX
    }

    /// `state_ok`, and the statistics describe the current state.
    pub open spec fn wf(&self) -> bool {
        &&& self.state_ok()
        &&& self.spec_statistics().region_population.counts() == self.regions_sum()
        &&& self.spec_statistics().in_transit.counts() == self.transit_sum()
    }

    /// A mediator over the regions and graph given, with nobody travelling.
    /// Fails if the regions and the graph disagree, or if the regions hold
    /// more than `u32::MAX` people in all.
    pub fn new(port_graph: PortGraph, regions: Vec<Region>, allocator: T) -> (r: Result<
        RegionTransportationMediator<T>,
        SimError,
    >)
        requires
            port_graph.wf(),
        ensures
            r matches Err(e) ==> (e == SimError::InconsistentGeography <==> !geography_consistent(
                port_graph@,
                regions@,
            )) && (e == SimError::PopulationOverflow <==> geography_consistent(
                port_graph@,
                regions@,
            ) && counts_total(sum_counts(region_populations(regions@))) > u32::MAX),
            r is Ok <==> geography_consistent(port_graph@, regions@) && counts_total(
                sum_counts(region_populations(regions@)),
            ) <= u32::MAX,
            r matches Ok(m) ==> {
                &&& m.wf()
                &&& m.spec_geography().spec_graph() == port_graph@
                &&& m.spec_regions() == regions@
                &&& m.spec_jobs().len() == 0
            },
    {
        let geography = match SimulationGeography::new(port_graph, regions) {
            Ok(g) => g,
            Err(e) => {
                return Err(e);
            },
        };
        match sum_region_populations(geography.get_regions()) {
            None => Err(SimError::PopulationOverflow),
            Some(total) => {
                let m = RegionTransportationMediator {
                    geography,
                    allocator,
                    ongoing_transport: Vec::new(),
                    statistics: MediatorStatistics::new(total),
                };
                proof {
                    assert(in_progress_populations(m.spec_jobs()) =~= Seq::<Population>::empty());
                    assert(m.transit_sum() == (0int, 0int, 0int, 0int));
                }
                Ok(m)
            },
        }
    }

    /// The geography, for observers.
    pub fn geography(&self) -> (r: &SimulationGeography)
        ensures
            *r == self.spec_geography(),
    {
        &self.geography
    }

    /// The jobs under way, in the order they started.
    pub fn ongoing_transport(&self) -> (r: &Vec<InProgressJob>)
        ensures
            r@ == self.spec_jobs(),
    {
        &self.ongoing_transport
    }

    pub fn statistics(&self) -> (r: MediatorStatistics)
        ensures
            r == self.spec_statistics(),
    {
        self.statistics
    }

    /// Advances the simulation by one tick: jobs with no time left deliver
    /// their people and end, the others come one tick closer; then every port
    /// of every region may send people off towards its open destinations;
    /// then the statistics are recomputed. Nobody is created or lost.
    pub fn update(&mut self)
        requires
            old(self).wf(),
        ensures
            final(self).wf(),
            add_counts(
                final(self).spec_statistics().in_transit.counts(),
                final(self).spec_statistics().region_population.counts(),
            ) == add_counts(
                old(self).spec_statistics().in_transit.counts(),
                old(self).spec_statistics().region_population.counts(),
            ),
            final(self).population_sum() == old(self).population_sum(),
            final(self).spec_geography().spec_graph() == old(self).spec_geography().spec_graph(),
            same_structure(old(self).spec_regions(), final(self).spec_regions()),
            exists|departed: Seq<TransportJob>|
                #[trigger] tick_result(
                    old(self).spec_geography().spec_graph(),
                    old(self).spec_regions(),
                    old(self).spec_jobs(),
                    final(self).spec_regions(),
                    final(self).spec_jobs(),
                    departed,
                ),
    {
        let ghost g0 = self.geography.spec_graph();
        let ghost regs0 = self.spec_regions();
        let ghost jobs0 = self.spec_jobs();
        self.resolve_arrivals();
        let ghost mid = self.spec_regions();
        let departed = self.dispatch_departures();
        self.update_statistics();
        proof {
            let rs2 = self.spec_regions();
            assert forall|m: int| 0 <= m < departed@.len() implies departs_validly(
                #[trigger] departed@[m],
                g0,
                regs0,
            ) by {
                let j = departed@[m];
                assert(departs_validly(j, g0, mid));
                lemma_same_structure_regions(regs0, mid, j.start_region);
                assert(mid[region_index(mid, j.start_region)].ports@ == regs0[region_index(
                    regs0,
                    j.start_region,
                )].ports@);
            }
            assert forall|a: int| 0 <= a < regs0.len() implies add_counts(
                (#[trigger] rs2[a]).population.counts(),
                departed_from(departed@, regs0[a].id),
            ) == add_counts(regs0[a].population.counts(), arrived_at(jobs0, regs0[a].id)) by {
                assert(mid[a].id == regs0[a].id);
                assert(mid[a].population.counts() == add_counts(
                    regs0[a].population.counts(),
                    arrived_at(jobs0, regs0[a].id),
                ));
            }
            assert(tick_result(g0, regs0, jobs0, rs2, self.spec_jobs(), departed@));
        }
    }

    /// Delivers the jobs with no time left and brings the others one tick closer.
    fn resolve_arrivals(&mut self)
        requires
            old(self).state_ok(),
        ensures
            final(self).state_ok(),
            final(self).population_sum() == old(self).population_sum(),
            final(self).spec_geography().spec_graph() == old(self).spec_geography().spec_graph(),
            same_structure(old(self).spec_regions(), final(self).spec_regions()),
            final(self).spec_jobs() == still_travelling(old(self).spec_jobs()),
            forall|a: int|
                0 <= a < old(self).spec_regions().len()
                    ==> (#[trigger] final(self).spec_regions()[a]).population.counts() == add_counts(
                    old(self).spec_regions()[a].population.counts(),
                    arrived_at(old(self).spec_jobs(), old(self).spec_regions()[a].id),
                ),
    {
        let ghost g0 = self.geography.spec_graph();
        let ghost regs0 = self.geography.spec_regions();
        let ghost rp0 = sum_counts(region_populations(regs0));
        let mut jobs: Vec<InProgressJob> = Vec::new();
        std::mem::swap(&mut jobs, &mut self.ongoing_transport);
        let ghost all = in_progress_populations(jobs@);
        proof {
            assert(self.ongoing_transport@ =~= still_travelling(jobs@.take(0)));
            assert(in_progress_populations(self.ongoing_transport@) =~= Seq::<Population>::empty());
            assert(all.take(0) =~= Seq::<Population>::empty());
            assert(jobs@.take(0) =~= Seq::<InProgressJob>::empty());
            lemma_sum_nonneg(region_populations(regs0));
            lemma_sum_nonneg(all);
        }
        let mut i: usize = 0;
        while i < jobs.len()
            invariant
                0 <= i <= jobs@.len(),
                all == in_progress_populations(jobs@),
                self.geography.wf(),
                self.geography.spec_graph() == g0,
                same_structure(regs0, self.geography.spec_regions()),
                forall|a: int, b: int|
                    0 <= a < regs0.len() && 0 <= b < regs0.len() && (#[trigger] regs0[a]).id == (
                    #[trigger] regs0[b]).id ==> a == b,
                forall|k: int|
                    0 <= k < jobs@.len() ==> has_region(regs0, (#[trigger] jobs@[k]).job.end_region)
                        && jobs@[k].job.time <= jobs@[k].expected_time,
                forall|k: int|
                    0 <= k < self.ongoing_transport@.len() ==> has_region(
                        regs0,
                        (#[trigger] self.ongoing_transport@[k]).job.end_region,
                    ) && self.ongoing_transport@[k].job.time
                        <= self.ongoing_transport@[k].expected_time,
                self.ongoing_transport@ == still_travelling(jobs@.take(i as int)),
                add_counts(
                    sum_counts(region_populations(self.geography.spec_regions())),
                    sum_counts(in_progress_populations(self.ongoing_transport@)),
                ) == add_counts(rp0, sum_counts(all.take(i as int))),
                counts_total(add_counts(rp0, sum_counts(all))) <= u32::MAX,
                rp0.0 >= 0 && rp0.1 >= 0 && rp0.2 >= 0 && rp0.3 >= 0,
                forall|a: int|
                    0 <= a < regs0.len() ==> (#[trigger] self.geography.spec_regions()[a]).population.counts()
                        == add_counts(
                        regs0[a].population.counts(),
                        arrived_at(jobs@.take(i as int), regs0[a].id),
                    ),
            decreases jobs@.len() - i,
        {
            let ip = jobs[i];
            let ghost regs = self.geography.spec_regions();
            let ghost transit = in_progress_populations(self.ongoing_transport@);
            proof {
                assert(jobs@.take(i + 1).drop_last() =~= jobs@.take(i as int));
                assert(all.take(i + 1) =~= in_progress_populations(jobs@.take(i + 1)));
                lemma_sum_take(all, i as int);
                lemma_sum_take_le(all, i + 1);
                lemma_sum_nonneg(transit);
                lemma_sum_nonneg(all.take(i as int));
            }
            if ip.job.time == 0 {
                proof {
                    assert(has_region(regs0, jobs@[i as int].job.end_region));
                    lemma_same_structure_regions(regs0, regs, ip.job.end_region);
                    let ix = region_index(regs, ip.job.end_region);
                    lemma_element_within_sum(region_populations(regs), ix);
                    assert(region_populations(regs)[ix] == regs[ix].population);
                    assert(counts_fit(
                        add_counts(regs[ix].population.counts(), ip.job.population.counts()),
                    ));
                }
                let arrived = self.geography.add_population(ip.job.end_region, ip.job.population);
                proof {
                    let ix = region_index(regs, ip.job.end_region);
                    assert(arrived is Ok);
                    let p = arrived.unwrap();
                    lemma_sum_update(region_populations(regs), ix, p);
                    assert(still_travelling(jobs@.take(i + 1)) == still_travelling(
                        jobs@.take(i as int),
                    ));
                    assert forall|a: int| 0 <= a < regs0.len() implies {
                        &&& (#[trigger] self.geography.spec_regions()[a]).id == regs0[a].id
                        &&& self.geography.spec_regions()[a].name == regs0[a].name
                        &&& self.geography.spec_regions()[a].ports@ == regs0[a].ports@
                    } by {
                        assert(regs[a].id == regs0[a].id);
                    }
                    assert(jobs@.take(i + 1).last() == ip);
                    assert forall|a: int| 0 <= a < regs0.len() implies (
                    #[trigger] self.geography.spec_regions()[a]).population.counts() == add_counts(
                        regs0[a].population.counts(),
                        arrived_at(jobs@.take(i + 1), regs0[a].id),
                    ) by {
                        if a != ix {
                            assert(regs0[a].id != ip.job.end_region);
                            assert(self.geography.spec_regions()[a] == regs[a]);
                        }
                    }
                }
            } else {
                let mut next = ip;
                next.job.time = ip.job.time - 1;
                self.ongoing_transport.push(next);
                proof {
                    assert(next == advanced(jobs@[i as int]));
                    assert(in_progress_populations(self.ongoing_transport@) =~= transit.push(
                        ip.job.population,
                    ));
                    lemma_sum_push(transit, ip.job.population);
                    assert(jobs@.take(i + 1).last() == ip);
                }
            }
            i = i + 1;
        }
        proof {
            assert(jobs@.take(i as int) =~= jobs@);
            assert(all.take(i as int) =~= all);
            assert forall|k: int| 0 <= k < self.ongoing_transport@.len() implies has_region(
                self.geography.spec_regions(),
                (#[trigger] self.ongoing_transport@[k]).job.end_region,
            ) by {
                lemma_same_structure_regions(
                    regs0,
                    self.geography.spec_regions(),
                    self.ongoing_transport@[k].job.end_region,
                );
            }
        }
    }

    /// Lets every port of every region send people off, region by region and
    /// port by port; returns the jobs started, in order.
    fn dispatch_departures(&mut self) -> (departed: Ghost<Seq<TransportJob>>)
        requires
            old(self).state_ok(),
        ensures
            final(self).state_ok(),
            final(self).population_sum() == old(self).population_sum(),
            final(self).spec_geography().spec_graph() == old(self).spec_geography().spec_graph(),
            same_structure(old(self).spec_regions(), final(self).spec_regions()),
            final(self).spec_jobs() == old(self).spec_jobs() + as_in_progress(departed@),
            forall|m: int|
                0 <= m < departed@.len() ==> departs_validly(
                    #[trigger] departed@[m],
                    old(self).spec_geography().spec_graph(),
                    old(self).spec_regions(),
                ),
            forall|a: int|
                0 <= a < old(self).spec_regions().len() ==> add_counts(
                    (#[trigger] final(self).spec_regions()[a]).population.counts(),
                    departed_from(departed@, old(self).spec_regions()[a].id),
                ) == old(self).spec_regions()[a].population.counts(),
    {
        let ghost g0 = self.geography.spec_graph();
        let ghost regs0 = self.geography.spec_regions();
        let ghost jobs0 = self.ongoing_transport@;
        let ghost total = self.population_sum();
        let ghost mut acc: Seq<TransportJob> = Seq::empty();
        proof {
            assert(jobs0 + as_in_progress(acc) =~= jobs0);
        }
        let n = self.geography.get_regions().len();
        let mut ri: usize = 0;
        while ri < n
            invariant
                n == regs0.len(),
                0 <= ri <= n,
                self.state_ok(),
                self.population_sum() == total,
                self.geography.spec_graph() == g0,
                same_structure(regs0, self.spec_regions()),
                forall|a: int, b: int|
                    0 <= a < regs0.len() && 0 <= b < regs0.len() && (#[trigger] regs0[a]).id == (
                    #[trigger] regs0[b]).id ==> a == b,
                self.ongoing_transport@ == jobs0 + as_in_progress(acc),
                forall|m: int| 0 <= m < acc.len() ==> departs_validly(#[trigger] acc[m], g0, regs0),
                forall|a: int|
                    0 <= a < regs0.len() ==> add_counts(
                        (#[trigger] self.spec_regions()[a]).population.counts(),
                        departed_from(acc, regs0[a].id),
                    ) == regs0[a].population.counts(),
            decreases n - ri,
        {
            let nports = self.geography.get_regions()[ri].ports.len();
            let mut k: usize = 0;
            while k < nports
                invariant
                    n == regs0.len(),
                    0 <= ri < n,
                    nports == regs0[ri as int].ports@.len(),
                    0 <= k <= nports,
                    self.state_ok(),
                    self.population_sum() == total,
                    self.geography.spec_graph() == g0,
                    same_structure(regs0, self.spec_regions()),
                    forall|a: int, b: int|
                        0 <= a < regs0.len() && 0 <= b < regs0.len() && (#[trigger] regs0[a]).id == (
                        #[trigger] regs0[b]).id ==> a == b,
                    self.ongoing_transport@ == jobs0 + as_in_progress(acc),
                    forall|m: int| 0 <= m < acc.len() ==> departs_validly(#[trigger] acc[m], g0, regs0),
                    forall|a: int|
                        0 <= a < regs0.len() ==> add_counts(
                            (#[trigger] self.spec_regions()[a]).population.counts(),
                            departed_from(acc, regs0[a].id),
                        ) == regs0[a].population.counts(),
                decreases nports - k,
            {
                let ghost regs_b = self.spec_regions();
                let ghost acc_b = acc;
                let js = self.dispatch_port(ri, k);
                proof {
                    let regs = self.spec_regions();
                    let port = regs_b[ri as int].ports@[k as int];
                    let id = regs0[ri as int].id;
                    acc = acc_b + js@;
                    assert(as_in_progress(acc_b) + as_in_progress(js@) =~= as_in_progress(acc));
                    assert(self.ongoing_transport@ =~= jobs0 + as_in_progress(acc));
                    assert forall|a: int| 0 <= a < regs0.len() implies {
                        &&& (#[trigger] regs[a]).id == regs0[a].id
                        &&& regs[a].name == regs0[a].name
                        &&& regs[a].ports@ == regs0[a].ports@
                    } by {
                        assert(regs_b[a].id == regs0[a].id);
                    }
                    assert forall|m: int| 0 <= m < js@.len() implies (#[trigger] js@[m]).start_region
                        == id by {}
                    assert forall|a: int| 0 <= a < regs0.len() implies add_counts(
                        (#[trigger] self.spec_regions()[a]).population.counts(),
                        departed_from(acc, regs0[a].id),
                    ) == regs0[a].population.counts() by {
                        lemma_departed_from_append(acc_b, js@, regs0[a].id);
                        if a == ri {
                            lemma_departed_from_one_region(js@, id, RegionID(if id.0 == 0 { 1u32 } else { 0u32 }));
                        } else {
                            assert(regs0[a].id != id);
                            lemma_departed_from_one_region(js@, id, regs0[a].id);
                            assert(regs[a] == regs_b[a]);
                        }
                    }
                    lemma_region_index_unique(regs0, id, ri as int);
                    assert(region_has_port(regs0[ri as int], port.id)) by {
                        assert(regs0[ri as int].ports@[k as int] == port);
                    }
                    assert forall|m: int| 0 <= m < acc.len() implies departs_validly(
                        #[trigger] acc[m],
                        g0,
                        regs0,
                    ) by {
                        if m < acc_b.len() {
                            assert(acc[m] == acc_b[m]);
                        } else {
                            let j = js@[m - acc_b.len()];
                            assert(acc[m] == j);
                            assert(j.start_region == id && j.start_port == port.id);
                            assert(has_region(regs0, id)) by {
                                assert(regs0[ri as int].id == id);
                            }
                            let choices = open_dest_ports(g0, port.id);
                            let d = choose|d: int|
                                0 <= d < choices.len() && (#[trigger] choices[d]).id == j.end_port
                                    && choices[d].region == j.end_region;
                            assert(open_dest_ports(g0, j.start_port)[d].id == j.end_port);
                        }
                    }
                }
                k = k + 1;
            }
            ri = ri + 1;
        }
        Ghost(acc)
    }

    /// Lets port `k` of region `ri` send people off; returns the jobs that
    /// the allocator handed back, now started.
    fn dispatch_port(&mut self, ri: usize, k: usize) -> (departed: Ghost<Seq<TransportJob>>)
        requires
            old(self).state_ok(),
            ri < old(self).spec_regions().len(),
            k < old(self).spec_regions()[ri as int].ports@.len(),
        ensures
            final(self).state_ok(),
            final(self).population_sum() == old(self).population_sum(),
            final(self).spec_geography().spec_graph() == old(self).spec_geography().spec_graph(),
            same_structure(old(self).spec_regions(), final(self).spec_regions()),
            valid_jobs(
                departed@,
                old(self).spec_regions()[ri as int].ports@[k as int],
                old(self).spec_regions()[ri as int],
                open_dest_ports(
                    old(self).spec_geography().spec_graph(),
                    old(self).spec_regions()[ri as int].ports@[k as int].id,
                ),
            ),
            final(self).spec_jobs() == old(self).spec_jobs() + as_in_progress(departed@),
            add_counts(
                final(self).spec_regions()[ri as int].population.counts(),
                sum_counts(job_populations(departed@)),
            ) == old(self).spec_regions()[ri as int].population.counts(),
            forall|a: int|
                0 <= a < old(self).spec_regions().len() && a != ri
                    ==> #[trigger] final(self).spec_regions()[a] == old(self).spec_regions()[a],
    {
        let ghost g = self.geography.spec_graph();
        let ghost regs = self.spec_regions();
        let ghost jobs0 = self.spec_jobs();
        let port = self.geography.get_regions()[ri].ports[k];
        proof {
            assert(regs[ri as int].ports@[k as int] == port);
            assert(has_port(g, port.id));
            assert(job_populations(Seq::<TransportJob>::empty()) =~= Seq::<Population>::empty());
            assert(jobs0 + as_in_progress(Seq::<TransportJob>::empty()) =~= jobs0);
            assert(same_structure(regs, regs));
        }
        // The port is registered, so the graph always answers.
        let choices = match self.geography.get_open_dest_ports(port.id) {
            Some(v) => v,
            None => {
                return Ghost(Seq::empty());
            },
        };
        let ghost choice_seq = choices@;
        proof {
            let rp = region_populations(regs);
            lemma_element_within_sum(rp, ri as int);
            assert(rp[ri as int] == regs[ri as int].population);
            lemma_sum_nonneg(in_progress_populations(self.spec_jobs()));
        }
        let planned = self.allocator.calculate_transport(
            &port,
            &self.geography.get_regions()[ri],
            choices,
        );
        match planned {
            None => Ghost(Seq::empty()),
            Some(jobs) => {
                proof {
                    assert forall|d: int| 0 <= d < choice_seq.len() implies has_region(
                        regs,
                        (#[trigger] choice_seq[d]).region,
                    ) by {
                        lemma_choice_region_exists(g, regs, port.id, choice_seq[d]);
                    }
                }
                let ghost js = jobs@;
                self.depart(ri, port, jobs, Ghost(choice_seq));
                Ghost(js)
            },
        }
    }

    /// Removes the people of `jobs` from region `ri` and starts the jobs.
    fn depart(
        &mut self,
        ri: usize,
        port: Port,
        jobs: Vec<TransportJob>,
        choices: Ghost<Seq<Port>>,
    )
        requires
            old(self).state_ok(),
            ri < old(self).spec_regions().len(),
            valid_jobs(jobs@, port, old(self).spec_regions()[ri as int], choices@),
            forall|d: int|
                0 <= d < choices@.len() ==> has_region(
                    old(self).spec_regions(),
                    (#[trigger] choices@[d]).region,
                ),
        ensures
            final(self).state_ok(),
            final(self).population_sum() == old(self).population_sum(),
            final(self).spec_geography().spec_graph() == old(self).spec_geography().spec_graph(),
            same_structure(old(self).spec_regions(), final(self).spec_regions()),
            final(self).spec_jobs() == old(self).spec_jobs() + as_in_progress(jobs@),
            add_counts(
                final(self).spec_regions()[ri as int].population.counts(),
                sum_counts(job_populations(jobs@)),
            ) == old(self).spec_regions()[ri as int].population.counts(),
            forall|a: int|
                0 <= a < old(self).spec_regions().len() && a != ri
                    ==> #[trigger] final(self).spec_regions()[a] == old(self).spec_regions()[a],
    {
        let ghost regs0 = self.spec_regions();
        let ghost g0 = self.geography.spec_graph();
        let ghost jobs0 = self.ongoing_transport@;
        let ghost total = self.population_sum();
        let ghost start = regs0[ri as int].population;
        let ghost pops = job_populations(jobs@);
        proof {
            assert(pops.take(0) =~= Seq::<Population>::empty());
            assert(jobs0.take(jobs0.len() as int) =~= jobs0);
            assert(jobs0 + as_in_progress(jobs@.take(0)) =~= jobs0);
        }
        let mut j: usize = 0;
        while j < jobs.len()
            invariant
                0 <= j <= jobs@.len(),
                ri < regs0.len(),
                pops == job_populations(jobs@),
                valid_jobs(jobs@, port, regs0[ri as int], choices@),
                forall|d: int|
                    0 <= d < choices@.len() ==> has_region(regs0, (#[trigger] choices@[d]).region),
                forall|a: int, b: int|
                    0 <= a < regs0.len() && 0 <= b < regs0.len() && (#[trigger] regs0[a]).id == (
                    #[trigger] regs0[b]).id ==> a == b,
                start == regs0[ri as int].population,
                self.state_ok(),
                self.population_sum() == total,
                self.geography.spec_graph() == g0,
                same_structure(regs0, self.spec_regions()),
                add_counts(
                    self.spec_regions()[ri as int].population.counts(),
                    sum_counts(pops.take(j as int)),
                ) == start.counts(),
                self.ongoing_transport@.len() >= jobs0.len(),
                self.ongoing_transport@.take(jobs0.len() as int) == jobs0,
                self.ongoing_transport@ == jobs0 + as_in_progress(jobs@.take(j as int)),
                forall|a: int|
                    0 <= a < regs0.len() && a != ri ==> #[trigger] self.spec_regions()[a] == regs0[a],
            decreases jobs@.len() - j,
        {
            let job = jobs[j];
            let ghost regs = self.spec_regions();
            let ghost transit = in_progress_populations(self.ongoing_transport@);
            proof {
                assert(jobs@[j as int] == job);
                assert(job.start_region == regs0[ri as int].id);
                lemma_same_structure_regions(regs0, regs, job.start_region);
                assert(regs0[ri as int].id == job.start_region);
                lemma_region_index_unique(regs0, job.start_region, ri as int);
                lemma_sum_take(pops, j as int);
                lemma_sum_take_le(pops, j + 1);
                lemma_sum_nonneg(pops.take(j as int));
                assert(pops[j as int] == job.population);
            }
            let left = self.geography.subtract_population(job.start_region, job.population);
            proof {
                assert(left is Ok);
                let p = left.unwrap();
                lemma_sum_update(region_populations(regs), ri as int, p);
                assert(region_populations(regs)[ri as int] == regs[ri as int].population);
            }
            let ghost before_push = self.ongoing_transport@;
            self.ongoing_transport.push(InProgressJob::new(job));
            proof {
                assert(in_progress_populations(self.ongoing_transport@) =~= transit.push(
                    job.population,
                ));
                lemma_sum_push(transit, job.population);
                assert(self.ongoing_transport@.take(jobs0.len() as int) =~= before_push.take(
                    jobs0.len() as int,
                ));
                assert(jobs@.take(j + 1) =~= jobs@.take(j as int).push(job));
                assert(self.ongoing_transport@ =~= jobs0 + as_in_progress(jobs@.take(j + 1)));
                assert forall|a: int|
                    0 <= a < regs0.len() && a != ri implies #[trigger] self.spec_regions()[a]
                    == regs0[a] by {
                    assert(regs[a] == regs0[a]);
                }
                let d = choose|d: int|
                    0 <= d < choices@.len() && (#[trigger] choices@[d]).id == jobs@[j as int].end_port
                        && choices@[d].region == jobs@[j as int].end_region;
                assert(has_region(regs0, job.end_region));
                let regs2 = self.spec_regions();
                assert forall|a: int| 0 <= a < regs0.len() implies {
                    &&& (#[trigger] regs2[a]).id == regs0[a].id
                    &&& regs2[a].name == regs0[a].name
                    &&& regs2[a].ports@ == regs0[a].ports@
                } by {
                    assert(regs[a].id == regs0[a].id);
                }
                assert forall|m: int| 0 <= m < self.spec_jobs().len() implies has_region(
                    regs2,
                    (#[trigger] self.spec_jobs()[m]).job.end_region,
                ) by {
                    lemma_same_structure_regions(regs0, regs2, self.spec_jobs()[m].job.end_region);
                    if m < before_push.len() {
                        assert(self.spec_jobs()[m] == before_push[m]);
                        lemma_same_structure_regions(regs0, regs, before_push[m].job.end_region);
                    }
                }
            }
            j = j + 1;
        }
        proof {
            assert(jobs@.take(j as int) =~= jobs@);
            assert(pops.take(j as int) =~= pops);
        }
    }

    /// Recomputes the statistics from the current state.
    fn update_statistics(&mut self)
        requires
            old(self).state_ok(),
        ensures
            final(self).wf(),
            final(self).spec_geography() == old(self).spec_geography(),
            final(self).spec_jobs() == old(self).spec_jobs(),
    {
        proof {
            lemma_sum_nonneg(region_populations(self.spec_regions()));
            lemma_sum_nonneg(in_progress_populations(self.spec_jobs()));
        }
        let in_transit = sum_job_populations(&self.ongoing_transport);
        // The whole population fits in a 32-bit count, so the sum is always there.
        match sum_region_populations(self.geography.get_regions()) {
            Some(region_population) => {
                self.statistics = MediatorStatistics { in_transit, region_population };
            },
            None => {},
        }
    }
}

/// Every open destination of a registered port belongs to a region that exists.
proof fn lemma_choice_region_exists(
    g: GraphView,
    rs: Seq<Region>,
    id: PortID,
    p: Port,
)
    requires
        graph_wf(g),
        geography_consistent(g, rs),
        has_port(g, id),
        open_dest_ports(g, id).contains(p),
    ensures
        has_region(rs, p.region),
{
    dest_ports(g, id).lemma_filter_contains_rev(|q: Port| is_open(q), p);
    let m = choose|m: int| 0 <= m < dest_ports(g, id).len() && dest_ports(g, id)[m] == p;
    lemma_index_of_in_range(g, id);
    let d = dest_ids(g, id)[m];
    assert(has_port(g, d));
    lemma_port_region_exists(g, rs, d);
}

/// The sum of the regions' populations, or `None` if it exceeds `u32::MAX` people.
fn sum_region_populations(regions: &Vec<Region>) -> (r: Option<Population>)
    ensures
        r is None <==> counts_total(sum_counts(region_populations(regions@))) > u32::MAX,
        r matches Some(p) ==> p.counts() == sum_counts(region_populations(regions@)),
{
    let ghost all = region_populations(regions@);
    let mut h: u64 = 0;
    let mut inf: u64 = 0;
    let mut d: u64 = 0;
    let mut rec: u64 = 0;
    let mut i: usize = 0;
    proof {
        assert(all.take(0) =~= Seq::<Population>::empty());
    }
    while i < regions.len()
        invariant
            all == region_populations(regions@),
            0 <= i <= regions@.len(),
            (h as int, inf as int, d as int, rec as int) == sum_counts(all.take(i as int)),
            h + inf + d + rec <= u32::MAX,
        decreases regions@.len() - i,
    {
        let p = regions[i].population;
        proof {
            lemma_sum_take(all, i as int);
            assert(all[i as int] == p);
        }
        h = h + p.healthy as u64;
        inf = inf + p.infected as u64;
        d = d + p.dead as u64;
        rec = rec + p.recovered as u64;
        i = i + 1;
        if h + inf + d + rec > u32::MAX as u64 {
            proof {
                lemma_sum_take_le(all, i as int);
            }
            return None;
        }
    }
    proof {
        assert(all.take(i as int) =~= all);
    }
    Some(
        Population { healthy: h as u32, infected: inf as u32, dead: d as u32, recovered: rec as u32 },
    )
}

/// The sum of the populations carried by the jobs.
fn sum_job_populations(jobs: &Vec<InProgressJob>) -> (r: Population)
    requires
        counts_total(sum_counts(in_progress_populations(jobs@))) <= u32::MAX,
    ensures
        r.counts() == sum_counts(in_progress_populations(jobs@)),
{
    let ghost all = in_progress_populations(jobs@);
    let mut acc = Population::new(0);
    let mut i: usize = 0;
    proof {
        assert(all.take(0) =~= Seq::<Population>::empty());
        lemma_sum_nonneg(all);
    }
    while i < jobs.len()
        invariant
            all == in_progress_populations(jobs@),
            0 <= i <= jobs@.len(),
            acc.counts() == sum_counts(all.take(i as int)),
            counts_total(sum_counts(all)) <= u32::MAX,
            sum_counts(all).0 >= 0 && sum_counts(all).1 >= 0 && sum_counts(all).2 >= 0
                && sum_counts(all).3 >= 0,
        decreases jobs@.len() - i,
    {
        let p = jobs[i].job.population;
        proof {
            lemma_sum_take(all, i as int);
            lemma_sum_take_le(all, i + 1);
            assert(all[i as int] == p);
        }
        acc = acc.add(p);
        i = i + 1;
    }
    proof {
        assert(all.take(i as int) =~= all);
    }
    acc
}

} // verus!
