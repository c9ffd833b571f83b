use vstd::prelude::*;

use crate::error::SimError;
use crate::population::{add_counts, counts_fit, Population};
use crate::region::{set_status_of, with_status, Port, PortID, PortStatus, Region, RegionID};
use crate::transportation_graph::{
    dest_ports,
    graph_set_status,
    graph_wf,
    has_port,
    index_of,
    lemma_index_of_in_range,
    lemma_index_of_unique,
    open_dest_ports,
    port_of,
    GraphView,
    PortGraph,
};

verus! {

/// Some region of `rs` has identifier `id`.
pub open spec fn has_region(rs: Seq<Region>, id: RegionID) -> bool {
    exists|i: int| 0 <= i < rs.len() && (#[trigger] rs[i]).id == id
}

/// Index of the first region of `rs` with identifier `id`.
pub open spec fn region_index(rs: Seq<Region>, id: RegionID) -> int
    decreases rs.len(),
{
    if rs.len() == 0 {
        0
    } else if rs[0].id == id {
        0
    } else {
        1 + region_index(rs.drop_first(), id)
    }
}

/// Region `r` owns a port with identifier `id`.
pub open spec fn region_has_port(r: Region, id: PortID) -> bool {
    exists|k: int| 0 <= k < r.ports@.len() && (#[trigger] r.ports@[k]).id == id
}

/// The populations of the regions, in order.
pub open spec fn region_populations(rs: Seq<Region>) -> Seq<Population> {
    rs.map_values(|r: Region| r.population)
}

/// The regions agree with the graph: each region's ports name it as owner,
/// region identifiers are unique, every port of a region is registered in
/// the graph with the same attributes, and every port of the graph belongs
/// to some region.
pub open spec fn geography_consistent(g: GraphView, rs: Seq<Region>) -> bool {
    &&& forall|i: int| 0 <= i < rs.len() ==> (#[trigger] rs[i]).wf()
    &&& forall|i: int, j: int|
        0 <= i < rs.len() && 0 <= j < rs.len() && (#[trigger] rs[i]).id == (#[trigger] rs[j]).id
            ==> i == j
    &&& forall|i: int, k: int|
        0 <= i < rs.len() && 0 <= k < rs[i].ports@.len() ==> has_port(
            g,
            (#[trigger] rs[i].ports@[k]).id,
        ) && port_of(g, rs[i].ports@[k].id) == rs[i].ports@[k]
    &&& forall|n: int|
        0 <= n < g.len() ==> exists|i: int|
            0 <= i < rs.len() && #[trigger] region_has_port(rs[i], (#[trigger] g[n]).0.id)
}

/// Every port of a consistent geography belongs to a region that exists.
pub proof fn lemma_port_region_exists(g: GraphView, rs: Seq<Region>, id: PortID)
    requires
        graph_wf(g),
        geography_consistent(g, rs),
        has_port(g, id),
    ensures
        has_region(rs, port_of(g, id).region),
{
    lemma_index_of_in_range(g, id);
    let n = index_of(g, id);
    assert(g[n] == g[n]);
    let i = choose|i: int| 0 <= i < rs.len() && #[trigger] region_has_port(rs[i], g[n].0.id);
    let k = choose|k: int| 0 <= k < rs[i].ports@.len() && (#[trigger] rs[i].ports@[k]).id == id;
    assert(rs[i].ports@[k] == rs[i].ports@[k]);
    assert(rs[i].wf());
}

pub proof fn lemma_region_index_unique(rs: Seq<Region>, id: RegionID, i: int)
    requires
        forall|a: int, b: int|
            0 <= a < rs.len() && 0 <= b < rs.len() && (#[trigger] rs[a]).id == (#[trigger] rs[b]).id
                ==> a == b,
        0 <= i < rs.len(),
        rs[i].id == id,
    ensures
        region_index(rs, id) == i,
    decreases i,
{
    if i > 0 {
        assert(rs[0].id != id);
        assert forall|a: int, b: int|
            0 <= a < rs.drop_first().len() && 0 <= b < rs.drop_first().len() && (
            #[trigger] rs.drop_first()[a]).id == (#[trigger] rs.drop_first()[b]).id implies a
            == b by {
            assert(rs[a + 1].id == rs[b + 1].id);
        }
        lemma_region_index_unique(rs.drop_first(), id, i - 1);
    }
}

/// `rs2` holds the same regions as `rs`, with the same identifiers, names
/// and ports, in the same order; only populations may differ.
pub open spec fn same_structure(rs: Seq<Region>, rs2: Seq<Region>) -> bool {
    &&& rs2.len() == rs.len()
    &&& forall|i: int|
        0 <= i < rs.len() ==> {
            &&& (#[trigger] rs2[i]).id == rs[i].id
            &&& rs2[i].name == rs[i].name
            &&& rs2[i].ports@ == rs[i].ports@
        }
}

/// Regions of the same structure know the same identifiers, at the same places.
pub proof fn lemma_same_structure_regions(rs: Seq<Region>, rs2: Seq<Region>, id: RegionID)
    requires
        same_structure(rs, rs2),
        forall|a: int, b: int|
            0 <= a < rs.len() && 0 <= b < rs.len() && (#[trigger] rs[a]).id == (#[trigger] rs[b]).id
                ==> a == b,
    ensures
        has_region(rs, id) == has_region(rs2, id),
        has_region(rs, id) ==> region_index(rs, id) == region_index(rs2, id) && 0 <= region_index(
            rs,
            id,
        ) < rs.len() && rs[region_index(rs, id)].id == id,
{
    if has_region(rs, id) {
        let i = choose|i: int| 0 <= i < rs.len() && (#[trigger] rs[i]).id == id;
        assert(rs2[i].id == id);
        lemma_region_index_unique(rs, id, i);
        assert forall|a: int, b: int|
            0 <= a < rs2.len() && 0 <= b < rs2.len() && (#[trigger] rs2[a]).id == (
            #[trigger] rs2[b]).id implies a == b by {
            assert(rs[a].id == rs[b].id);
        }
        lemma_region_index_unique(rs2, id, i);
    }
    if has_region(rs2, id) {
        let i = choose|i: int| 0 <= i < rs2.len() && (#[trigger] rs2[i]).id == id;
        assert(rs[i].id == id);
    }
}

/// The regions of `rs` with the population of region `i` replaced.
pub open spec fn population_updated(rs: Seq<Region>, rs2: Seq<Region>, i: int, p: Population) -> bool {
    &&& rs2.len() == rs.len()
    &&& rs2[i].population == p
    &&& rs2[i].id == rs[i].id
    &&& rs2[i].name == rs[i].name
    &&& rs2[i].ports@ == rs[i].ports@
    &&& forall|j: int| 0 <= j < rs.len() && j != i ==> #[trigger] rs2[j] == rs[j]
}

/// The regions of `rs` with the status of every port with identifier `id` set.
pub open spec fn ports_status_updated(
    rs: Seq<Region>,
    rs2: Seq<Region>,
    id: PortID,
    status: PortStatus,
) -> bool {
    &&& rs2.len() == rs.len()
    &&& forall|j: int|
        0 <= j < rs.len() ==> {
            &&& (#[trigger] rs2[j]).id == rs[j].id
            &&& rs2[j].name == rs[j].name
            &&& rs2[j].population == rs[j].population
            &&& rs2[j].ports@ == set_status_of(rs[j].ports@, id, status)
        }
}

proof fn lemma_population_update_consistent(
    g: GraphView,
    rs: Seq<Region>,
    rs2: Seq<Region>,
    i: int,
    p: Population,
)
    requires
        geography_consistent(g, rs),
        0 <= i < rs.len(),
        population_updated(rs, rs2, i, p),
    ensures
        geography_consistent(g, rs2),
        region_populations(rs2) == region_populations(rs).update(i, p),
{
    assert forall|a: int| 0 <= a < rs2.len() implies (#[trigger] rs2[a]).wf() by {
        assert(rs[a].wf());
    }
    assert forall|a: int, b: int|
        0 <= a < rs2.len() && 0 <= b < rs2.len() && (#[trigger] rs2[a]).id == (
        #[trigger] rs2[b]).id implies a == b by {
        assert(rs[a].id == rs[b].id);
    }
    assert forall|a: int, k: int|
        0 <= a < rs2.len() && 0 <= k < rs2[a].ports@.len() implies has_port(
        g,
        (#[trigger] rs2[a].ports@[k]).id,
    ) && port_of(g, rs2[a].ports@[k].id) == rs2[a].ports@[k] by {
        assert(rs2[a].ports@[k] == rs[a].ports@[k]);
    }
    assert forall|n: int| 0 <= n < g.len() implies exists|a: int|
        0 <= a < rs2.len() && #[trigger] region_has_port(rs2[a], (#[trigger] g[n]).0.id) by {
        let a = choose|a: int| 0 <= a < rs.len() && #[trigger] region_has_port(rs[a], g[n].0.id);
        assert(rs2[a].ports@ == rs[a].ports@);
        assert(region_has_port(rs2[a], g[n].0.id));
    }
    assert(region_populations(rs2) =~= region_populations(rs).update(i, p));
}

/// The regions of a simulation and the graph of their ports, kept in agreement.
pub struct SimulationGeography {
    graph: PortGraph,
    regions: Vec<Region>,
}

impl SimulationGeography {
    pub closed spec fn spec_graph(&self) -> GraphView {
        self.graph@
    }

    pub closed spec fn spec_regions(&self) -> Seq<Region> {
        self.regions@
    }

    pub open spec fn wf(&self) -> bool {
        graph_wf(self.spec_graph()) && geography_consistent(self.spec_graph(), self.spec_regions())
    }

    /// Builds a geography from a graph and the regions that own its ports;
    /// fails if the two do not agree.
    pub fn new(graph: PortGraph, regions: Vec<Region>) -> (r: Result<SimulationGeography, SimError>)
        requires
            graph.wf(),
        ensures
            r is Ok <==> geography_consistent(graph@, regions@),
            r matches Err(e) ==> e == SimError::InconsistentGeography,
            r matches Ok(geo) ==> geo.spec_graph() == graph@ && geo.spec_regions() == regions@
                && geo.wf(),
    {
        let ghost g = graph@;
        let ghost rs = regions@;
        let mut i: usize = 0;
        while i < regions.len()
            invariant
                g == graph@,
                rs == regions@,
                graph.wf(),
                0 <= i <= rs.len(),
                forall|a: int| 0 <= a < i ==> (#[trigger] rs[a]).wf(),
                forall|a: int, b: int|
                    0 <= a < i && 0 <= b < i && (#[trigger] rs[a]).id == (#[trigger] rs[b]).id
                        ==> a == b,
                forall|a: int, k: int|
                    0 <= a < i && 0 <= k < rs[a].ports@.len() ==> has_port(
                        g,
                        (#[trigger] rs[a].ports@[k]).id,
                    ) && port_of(g, rs[a].ports@[k].id) == rs[a].ports@[k],
            decreases rs.len() - i,
        {
            let region = &regions[i];
            let mut j: usize = 0;
            while j < i
                invariant
                    rs == regions@,
                    0 <= j <= i < rs.len(),
                    *region == rs[i as int],
                    forall|b: int| 0 <= b < j ==> rs[b].id != rs[i as int].id,
                decreases i - j,
            {
                if regions[j].id == region.id {
                    proof {
                        assert(rs[j as int].id == rs[i as int].id);
                    }
                    return Err(SimError::InconsistentGeography);
                }
                j = j + 1;
            }
            let mut k: usize = 0;
            while k < region.ports.len()
                invariant
                    g == graph@,
                    rs == regions@,
                    graph.wf(),
                    0 <= i < rs.len(),
                    *region == rs[i as int],
                    0 <= k <= region.ports@.len(),
                    forall|c: int|
                        0 <= c < k ==> (#[trigger] region.ports@[c]).region == region.id && has_port(
                            g,
                            region.ports@[c].id,
                        ) && port_of(g, region.ports@[c].id) == region.ports@[c],
                decreases region.ports@.len() - k,
            {
                let p = region.ports[k];
                if p.region != region.id {
                    proof {
                        assert(rs[i as int].ports@[k as int] == p);
                    }
                    return Err(SimError::InconsistentGeography);
                }
                match graph.get_port(p.id) {
                    None => {
                        proof {
                            assert(rs[i as int].ports@[k as int] == p);
                        }
                        return Err(SimError::InconsistentGeography);
                    },
                    Some(q) => {
                        if *q != p {
                            proof {
                                assert(rs[i as int].ports@[k as int] == p);
                            }
                            return Err(SimError::InconsistentGeography);
                        }
                    },
                }
                k = k + 1;
            }
            i = i + 1;
        }
        let ports = graph.get_ports();
        let mut n: usize = 0;
        while n < ports.len()
            invariant
                g == graph@,
                rs == regions@,
                graph.wf(),
                ports@ == g.map_values(|x: (Port, Seq<PortID>)| x.0),
                0 <= n <= ports@.len(),
                forall|m: int|
                    0 <= m < n ==> exists|a: int|
                        0 <= a < rs.len() && #[trigger] region_has_port(rs[a], (#[trigger] g[m]).0.id),
            decreases ports@.len() - n,
        {
            let id = ports[n].id;
            let mut a: usize = 0;
            let mut found = false;
            while a < regions.len() && !found
                invariant
                    rs == regions@,
                    0 <= a <= rs.len(),
                    found ==> a < rs.len() && region_has_port(rs[a as int], id),
                    !found ==> forall|b: int| 0 <= b < a ==> !region_has_port(rs[b], id),
                decreases rs.len() - a + (if found { 0int } else { 1int }),
            {
                if regions[a].get_port(id).is_some() {
                    found = true;
                } else {
                    a = a + 1;
                }
            }
            if !found {
                proof {
                    assert(g[n as int].0.id == id);
                    assert(!(exists|b: int|
                        0 <= b < rs.len() && #[trigger] region_has_port(rs[b], g[n as int].0.id)));
                }
                return Err(SimError::InconsistentGeography);
            }
            proof {
                assert(region_has_port(rs[a as int], g[n as int].0.id));
            }
            n = n + 1;
        }
        Ok(SimulationGeography { graph, regions })
    }

    /// Index of the region with identifier `id`, if there is one.
    fn find_region(&self, id: RegionID) -> (r: Option<usize>)
        requires
            self.wf(),
        ensures
            r.is_none() <==> !has_region(self.spec_regions(), id),
            r matches Some(i) ==> i == region_index(self.spec_regions(), id) && i
                < self.spec_regions().len() && self.spec_regions()[i as int].id == id,
    {
        let mut i: usize = 0;
        while i < self.regions.len()
            invariant
                self.wf(),
                0 <= i <= self.regions@.len(),
                forall|j: int| 0 <= j < i ==> self.regions@[j].id != id,
            decreases self.regions@.len() - i,
        {
            if self.regions[i].id == id {
                proof {
                    lemma_region_index_unique(self.regions@, id, i as int);
                }
                return Some(i);
            }
            i = i + 1;
        }
        None
    }

    /// The region with identifier `region_id`, if there is one.
    pub fn get_region(&self, region_id: RegionID) -> (r: Option<&Region>)
        requires
            self.wf(),
        ensures
            r.is_none() <==> !has_region(self.spec_regions(), region_id),
            r matches Some(reg) ==> *reg == self.spec_regions()[region_index(
                self.spec_regions(),
                region_id,
            )] && reg.id == region_id,
    {
        match self.find_region(region_id) {
            Some(i) => Some(&self.regions[i]),
            None => None,
        }
    }

    /// The port with identifier `port_id`, if there is one.
    pub fn get_port(&self, port_id: PortID) -> (r: Option<&Port>)
        requires
            self.wf(),
        ensures
            r.is_none() <==> !has_port(self.spec_graph(), port_id),
            r matches Some(p) ==> *p == port_of(self.spec_graph(), port_id),
    {
        self.graph.get_port(port_id)
    }

    /// The population of region `region_id`, if there is such a region.
    pub fn get_population(&self, region_id: RegionID) -> (r: Option<Population>)
        requires
            self.wf(),
        ensures
            r == (if has_region(self.spec_regions(), region_id) {
                Some(self.spec_regions()[region_index(self.spec_regions(), region_id)].population)
            } else {
                None
            }),
    {
        match self.find_region(region_id) {
            Some(i) => Some(self.regions[i].population),
            None => None,
        }
    }

    /// Replaces the population of region `region_id`; fails if there is no
    /// such region.
    pub fn set_population(&mut self, region_id: RegionID, population: Population) -> (r: Result<
        (),
        SimError,
    >)
        requires
            old(self).wf(),
        ensures
            final(self).wf(),
            final(self).spec_graph() == old(self).spec_graph(),
            r is Err <==> !has_region(old(self).spec_regions(), region_id),
            r matches Err(e) ==> e == SimError::UnknownRegion(region_id.0),
            r is Err ==> final(self).spec_regions() == old(self).spec_regions(),
            r is Ok ==> population_updated(
                old(self).spec_regions(),
                final(self).spec_regions(),
                region_index(old(self).spec_regions(), region_id),
                population,
            ),
    {
        match self.find_region(region_id) {
            None => Err(SimError::UnknownRegion(region_id.0)),
            Some(i) => {
                self.store_population(i, population);
                Ok(())
            },
        }
    }

    fn store_population(&mut self, i: usize, population: Population)
        requires
            old(self).wf(),
            i < old(self).spec_regions().len(),
        ensures
            final(self).wf(),
            final(self).spec_graph() == old(self).spec_graph(),
            population_updated(
                old(self).spec_regions(),
                final(self).spec_regions(),
                i as int,
                population,
            ),
            region_populations(final(self).spec_regions()) == region_populations(
                old(self).spec_regions(),
            ).update(i as int, population),
    {
        let ghost rs = self.regions@;
        self.regions[i].population = population;
        proof {
            lemma_population_update_consistent(self.graph@, rs, self.regions@, i as int, population);
        }
    }

    /// Adds `population` to region `region_id` and returns the region's new
    /// population. Fails if there is no such region, or if a count of the
    /// sum would not fit in 32 bits.
    pub fn add_population(&mut self, region_id: RegionID, population: Population) -> (r: Result<
        Population,
        SimError,
    >)
        requires
            old(self).wf(),
        ensures
            final(self).wf(),
            final(self).spec_graph() == old(self).spec_graph(),
            r == add_outcome(old(self).spec_regions(), region_id, population),
            r is Err ==> final(self).spec_regions() == old(self).spec_regions(),
            r matches Ok(p) ==> population_updated(
                old(self).spec_regions(),
                final(self).spec_regions(),
                region_index(old(self).spec_regions(), region_id),
                p,
            ) && region_populations(final(self).spec_regions()) == region_populations(
                old(self).spec_regions(),
            ).update(region_index(old(self).spec_regions(), region_id), p),
    {
        match self.find_region(region_id) {
            None => Err(SimError::UnknownRegion(region_id.0)),
            Some(i) => {
                let cur = self.regions[i].population;
                if cur.healthy as u64 + population.healthy as u64 > u32::MAX as u64
                    || cur.infected as u64 + population.infected as u64 > u32::MAX as u64
                    || cur.dead as u64 + population.dead as u64 > u32::MAX as u64
                    || cur.recovered as u64 + population.recovered as u64 > u32::MAX as u64 {
                    Err(SimError::PopulationOverflow)
                } else {
                    let new_pop = cur.add(population);
                    self.store_population(i, new_pop);
                    Ok(new_pop)
                }
            },
        }
    }

    /// Removes `population` from region `region_id` and returns the region's
    /// new population. Fails if there is no such region, or if the region
    /// does not hold that many people of some health state.
    pub fn subtract_population(&mut self, region_id: RegionID, population: Population) -> (r:
        Result<Population, SimError>)
        requires
            old(self).wf(),
        ensures
            final(self).wf(),
            final(self).spec_graph() == old(self).spec_graph(),
            r == subtract_outcome(old(self).spec_regions(), region_id, population),
            r is Err ==> final(self).spec_regions() == old(self).spec_regions(),
            r matches Ok(p) ==> population_updated(
                old(self).spec_regions(),
                final(self).spec_regions(),
                region_index(old(self).spec_regions(), region_id),
                p,
            ) && region_populations(final(self).spec_regions()) == region_populations(
                old(self).spec_regions(),
            ).update(region_index(old(self).spec_regions(), region_id), p),
    {
        match self.find_region(region_id) {
            None => Err(SimError::UnknownRegion(region_id.0)),
            Some(i) => {
                let cur = self.regions[i].population;
                match cur.emigrate(population) {
                    Err(e) => Err(e),
                    Ok(new_pop) => {
                        proof {
                            assert(new_pop.total() + population.total() == cur.total());
                        }
                        self.store_population(i, new_pop);
                        Ok(new_pop)
                    },
                }
            },
        }
    }

    /// The regions, in the order they were given.
    pub fn get_regions(&self) -> (r: &Vec<Region>)
        ensures
            r@ == self.spec_regions(),
    {
        &self.regions
    }

    /// The identifiers of the regions, in order.
    pub fn get_region_ids(&self) -> (r: Vec<RegionID>)
        ensures
            r@ == self.spec_regions().map_values(|x: Region| x.id),
    {
        let mut out: Vec<RegionID> = Vec::new();
        let mut i: usize = 0;
        while i < self.regions.len()
            invariant
                0 <= i <= self.regions@.len(),
                out@ == self.regions@.take(i as int).map_values(|x: Region| x.id),
            decreases self.regions@.len() - i,
        {
            out.push(self.regions[i].id);
            i = i + 1;
            proof {
                assert(out@ =~= self.regions@.take(i as int).map_values(|x: Region| x.id));
            }
        }
        proof {
            assert(self.regions@.take(i as int) =~= self.regions@);
        }
        out
    }

    /// Copies of all ports, in the order the graph registered them.
    pub fn get_ports(&self) -> (r: Vec<Port>)
        ensures
            r@ == self.spec_graph().map_values(|n: (Port, Seq<PortID>)| n.0),
    {
        self.graph.get_ports()
    }

    /// The destination ports of port `id`, open or closed; `None` if there is
    /// no such port.
    pub fn get_all_dest_ports(&self, id: PortID) -> (r: Option<Vec<Port>>)
        requires
            self.wf(),
        ensures
            r.is_none() <==> !has_port(self.spec_graph(), id),
            r matches Some(v) ==> v@ == dest_ports(self.spec_graph(), id),
    {
        self.graph.get_dest_ports(id)
    }

    /// The open destination ports of port `id`; `None` if there is no such port.
    pub fn get_open_dest_ports(&self, id: PortID) -> (r: Option<Vec<Port>>)
        requires
            self.wf(),
        ensures
            r.is_none() <==> !has_port(self.spec_graph(), id),
            r matches Some(v) ==> v@ == open_dest_ports(self.spec_graph(), id),
    {
        self.graph.get_open_dest_ports(id)
    }

    /// Closes port `port_id` both in the graph and in the region that owns
    /// it; fails if there is no such port.
    pub fn close_port(&mut self, port_id: PortID) -> (r: Result<(), SimError>)
        requires
            old(self).wf(),
        ensures
            final(self).wf(),
            r is Err <==> !has_port(old(self).spec_graph(), port_id),
            r matches Err(e) ==> e == SimError::UnknownPort(port_id.0),
            r is Err ==> final(self).spec_graph() == old(self).spec_graph()
                && final(self).spec_regions() == old(self).spec_regions(),
            r is Ok ==> final(self).spec_graph() == graph_set_status(
                old(self).spec_graph(),
                port_id,
                PortStatus::Closed,
            ) && ports_status_updated(
                old(self).spec_regions(),
                final(self).spec_regions(),
                port_id,
                PortStatus::Closed,
            ),
            region_populations(final(self).spec_regions()) == region_populations(
                old(self).spec_regions(),
            ),
    {
        if !self.graph.in_graph(port_id) {
            return Err(SimError::UnknownPort(port_id.0));
        }
        let ghost g = self.graph@;
        let ghost rs = self.regions@;
        self.graph.set_port_status(port_id, PortStatus::Closed);
        let mut i: usize = 0;
        while i < self.regions.len()
            invariant
                self.graph@ == graph_set_status(g, port_id, PortStatus::Closed),
                self.graph.wf(),
                rs.len() == self.regions@.len(),
                0 <= i <= rs.len(),
                forall|a: int| 0 <= a < rs.len() ==> (#[trigger] rs[a]).wf(),
                forall|j: int|
                    0 <= j < i ==> {
                        &&& (#[trigger] self.regions@[j]).id == rs[j].id
                        &&& self.regions@[j].name == rs[j].name
                        &&& self.regions@[j].population == rs[j].population
                        &&& self.regions@[j].ports@ == set_status_of(
                            rs[j].ports@,
                            port_id,
                            PortStatus::Closed,
                        )
                    },
                forall|j: int| i <= j < rs.len() ==> #[trigger] self.regions@[j] == rs[j],
            decreases rs.len() - i,
        {
            proof {
                assert(rs[i as int].wf());
            }
            self.regions[i].set_port_status(port_id, PortStatus::Closed);
            i = i + 1;
        }
        proof {
            lemma_close_consistent(g, rs, self.graph@, self.regions@, port_id);
            assert(region_populations(self.regions@) =~= region_populations(rs));
        }
        Ok(())
    }
}

/// What adding `p` to region `id` returns.
pub open spec fn add_outcome(rs: Seq<Region>, id: RegionID, p: Population) -> Result<
    Population,
    SimError,
> {
    if !has_region(rs, id) {
        Err(SimError::UnknownRegion(id.0))
    } else {
        let cur = rs[region_index(rs, id)].population;
        if counts_fit(add_counts(cur.counts(), p.counts())) {
            Ok(Population::from_counts(add_counts(cur.counts(), p.counts())))
        } else {
            Err(SimError::PopulationOverflow)
        }
    }
}

/// What removing `p` from region `id` returns.
pub open spec fn subtract_outcome(rs: Seq<Region>, id: RegionID, p: Population) -> Result<
    Population,
    SimError,
> {
    if !has_region(rs, id) {
        Err(SimError::UnknownRegion(id.0))
    } else {
        let cur = rs[region_index(rs, id)].population;
        if p.fits_within(cur) {
            Ok(
                Population {
                    healthy: (cur.healthy - p.healthy) as u32,
                    infected: (cur.infected - p.infected) as u32,
                    dead: (cur.dead - p.dead) as u32,
                    recovered: (cur.recovered - p.recovered) as u32,
                },
            )
        } else {
            Err(SimError::InsufficientPopulation)
        }
    }
}

proof fn lemma_close_consistent(
    g: GraphView,
    rs: Seq<Region>,
    g2: GraphView,
    rs2: Seq<Region>,
    id: PortID,
)
    requires
        graph_wf(g),
        geography_consistent(g, rs),
        has_port(g, id),
        graph_wf(g2),
        g2 == graph_set_status(g, id, PortStatus::Closed),
        ports_status_updated(rs, rs2, id, PortStatus::Closed),
    ensures
        geography_consistent(g2, rs2),
{
    lemma_index_of_in_range(g, id);
    let ix = index_of(g, id);
    assert(g2.len() == g.len());
    assert forall|n: int| 0 <= n < g.len() implies (#[trigger] g2[n]).0.id == g[n].0.id by {}
    assert forall|x: PortID| has_port(g, x) implies has_port(g2, x) && index_of(g2, x) == index_of(
        g,
        x,
    ) by {
        lemma_index_of_in_range(g, x);
        let n = index_of(g, x);
        assert(g2[n].0.id == x);
        lemma_index_of_unique(g2, x, n);
    }
    assert forall|a: int, k: int|
        0 <= a < rs2.len() && 0 <= k < rs2[a].ports@.len() implies (#[trigger] rs2[a].ports@[k])
        == (if rs[a].ports@[k].id == id {
        with_status(rs[a].ports@[k], PortStatus::Closed)
    } else {
        rs[a].ports@[k]
    }) by {}
    assert forall|a: int| 0 <= a < rs2.len() implies (#[trigger] rs2[a]).wf() by {
        assert(rs[a].wf());
        assert forall|k: int| 0 <= k < rs2[a].ports@.len() implies #[trigger] rs2[a].ports@[k].region
            == rs2[a].id by {
            assert(rs[a].ports@[k].region == rs[a].id);
        }
    }
    assert forall|a: int, b: int|
        0 <= a < rs2.len() && 0 <= b < rs2.len() && (#[trigger] rs2[a]).id == (
        #[trigger] rs2[b]).id implies a == b by {
        assert(rs[a].id == rs[b].id);
    }
    assert forall|a: int, k: int|
        0 <= a < rs2.len() && 0 <= k < rs2[a].ports@.len() implies has_port(
        g2,
        (#[trigger] rs2[a].ports@[k]).id,
    ) && port_of(g2, rs2[a].ports@[k].id) == rs2[a].ports@[k] by {
        let p = rs[a].ports@[k];
        assert(has_port(g, p.id) && port_of(g, p.id) == p);
        if p.id == id {
            assert(index_of(g2, id) == ix);
        } else {
            lemma_index_of_in_range(g, p.id);
            assert(index_of(g, p.id) != ix);
        }
    }
    assert forall|n: int| 0 <= n < g2.len() implies exists|a: int|
        0 <= a < rs2.len() && #[trigger] region_has_port(rs2[a], (#[trigger] g2[n]).0.id) by {
        assert(g[n] == g[n]);
        let a = choose|a: int| 0 <= a < rs.len() && #[trigger] region_has_port(rs[a], g[n].0.id);
        let k = choose|k: int|
            0 <= k < rs[a].ports@.len() && (#[trigger] rs[a].ports@[k]).id == g[n].0.id;
        assert(rs2[a].ports@[k].id == g2[n].0.id);
        assert(region_has_port(rs2[a], g2[n].0.id));
    }
}

} // verus!
