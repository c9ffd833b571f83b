use vstd::prelude::*;

use crate::location::Point2D;
use crate::population::Population;

verus! {

/// Identifier of a port, chosen by whoever builds the geography.
#[derive(Debug, Clone, Copy, Default, PartialEq, Eq, Hash, Structural)]
pub struct PortID(pub u32);

impl PortID {
    pub fn new(id: u32) -> (r: PortID)
        ensures
            r == PortID(id),
    {
        PortID(id)
    }
}

/// Whether a port currently operates.
#[derive(Debug, Clone, Copy, Default, PartialEq, Eq, Hash, Structural)]
pub enum PortStatus {
    #[default]
    Open,
    Closed,
}

/// A site of travel, such as an airport or a seaport.
#[derive(Debug, Clone, Copy, PartialEq, Eq, Structural)]
pub struct Port {
    /// Most people that may leave through this port in one departure.
    pub capacity: u32,
    pub status: PortStatus,
    /// The region that owns this port.
    pub region: RegionID,
    pub id: PortID,
    pub pos: Point2D,
}

/// `p` with its status set to `status`, everything else kept.
pub open spec fn with_status(p: Port, status: PortStatus) -> Port {
    Port { status, ..p }
}

impl Port {
    /// An open port of the given region.
    fn new(id: PortID, region: RegionID, capacity: u32, pos: Point2D) -> (r: Port)
        ensures
            r == (Port { capacity, status: PortStatus::Open, region, id, pos }),
    {
        Port { capacity, status: PortStatus::Open, region, id, pos }
    }

    pub fn close_port(&mut self)
        ensures
            *final(self) == with_status(*old(self), PortStatus::Closed),
    {
        self.status = PortStatus::Closed;
    }

    pub fn port_status(&self) -> (r: PortStatus)
        ensures
            r == self.status,
    {
        self.status
    }

    pub fn set_status(&mut self, status: PortStatus)
        ensures
            *final(self) == with_status(*old(self), status),
    {
        self.status = status;
    }

    pub fn get_capacity(&self) -> (r: u32)
        ensures
            r == self.capacity,
    {
        self.capacity
    }

    pub fn region(&self) -> (r: RegionID)
        ensures
            r == self.region,
    {
        self.region
    }
}

/// Identifier of a region, handed out by a [`RegionIdCounter`].
#[derive(Debug, Clone, Copy, PartialEq, Eq, Hash, PartialOrd, Ord, Structural)]
pub struct RegionID(pub u32);

/// Hands out region identifiers in increasing order, so that no two regions
/// made from one counter share an identifier.
pub struct RegionIdCounter {
    next: u32,
}

impl RegionIdCounter {
    /// The identifier that the next allocation returns.
    pub closed spec fn spec_next(&self) -> u32 {
        self.next
    }

    pub fn new() -> (r: RegionIdCounter)
        ensures
            r.spec_next() == 0,
    {
        RegionIdCounter { next: 0 }
    }

    /// Whether another identifier can still be handed out.
    pub fn can_allocate(&self) -> (r: bool)
        ensures
            r == (self.spec_next() < u32::MAX),
    {
        self.next < u32::MAX
    }
}

impl RegionID {
    /// Takes the next identifier from `ids`.
    pub fn new(ids: &mut RegionIdCounter) -> (r: RegionID)
        requires
            old(ids).spec_next() < u32::MAX,
        ensures
            r == RegionID(old(ids).spec_next()),
            final(ids).spec_next() == old(ids).spec_next() + 1,
    {
        let id = RegionID(ids.next);
        ids.next = ids.next + 1;
        id
    }
}

/// A region of the world with a population and the ports it owns.
#[derive(Debug, Clone)]
pub struct Region {
    pub id: RegionID,
    pub name: String,
    pub population: Population,
    /// The ports of this region, in the order they were added.
    pub ports: Vec<Port>,
}

impl Region {
    /// Every port of the region names the region as its owner.
    pub open spec fn wf(&self) -> bool {
        forall|i: int|
            0 <= i < self.ports@.len() ==> #[trigger] self.ports@[i].region
                == self.id
    }

    /// Index of the first port with identifier `id`, if any.
    pub open spec fn first_port_index(&self, id: PortID) -> int {
        first_index_of(self.ports@, id)
    }

    /// A region without ports, with an identifier taken from `ids`.
    pub fn new(name: String, initial_pop: Population, ids: &mut RegionIdCounter) -> (r: Region)
        requires
            old(ids).spec_next() < u32::MAX,
        ensures
            r.id == RegionID(old(ids).spec_next()),
            final(ids).spec_next() == old(ids).spec_next() + 1,
            r.name == name,
            r.population == initial_pop,
            r.ports@.len() == 0,
            r.wf(),
    {
        let id = RegionID::new(ids);
        Region { id, name, population: initial_pop, ports: Vec::new() }
    }

    pub fn id(&self) -> (r: RegionID)
        ensures
            r == self.id,
    {
        self.id
    }

    pub fn get_ports(&self) -> (r: &Vec<Port>)
        ensures
            r@ == self.ports@,
    {
        &self.ports
    }

    /// Adds an open port owned by this region and returns a copy of it.
    pub fn add_port(&mut self, port_id: PortID, capacity: u32, pos: Point2D) -> (r: Port)
        requires
            old(self).wf(),
        ensures
            r == (Port {
                capacity,
                status: PortStatus::Open,
                region: old(self).id,
                id: port_id,
                pos,
            }),
            final(self).ports@ == old(self).ports@.push(r),
            final(self).id == old(self).id,
            final(self).name == old(self).name,
            final(self).population == old(self).population,
            final(self).wf(),
    {
        let port = Port::new(port_id, self.id, capacity, pos);
        self.ports.push(port);
        port
    }

    /// The first port of this region with identifier `id`, if there is one.
    pub fn get_port(&self, id: PortID) -> (r: Option<&Port>)
        ensures
            r.is_none() <==> (forall|i: int|
                0 <= i < self.ports@.len() ==> self.ports@[i].id != id),
            r matches Some(p) ==> 0 <= self.first_port_index(id) < self.ports@.len()
                && *p == self.ports@[self.first_port_index(id)],
    {
        let mut i: usize = 0;
        while i < self.ports.len()
            invariant
                0 <= i <= self.ports@.len(),
                forall|j: int| 0 <= j < i ==> self.ports@[j].id != id,
            decreases self.ports@.len() - i,
        {
            if self.ports[i].id == id {
                proof {
                    lemma_first_index_of(self.ports@, id, i as int);
                }
                return Some(&self.ports[i]);
            }
            i = i + 1;
        }
        None
    }

    /// Closes every port of this region.
    pub fn close_ports(&mut self)
        requires
            old(self).wf(),
        ensures
            final(self).ports@.len() == old(self).ports@.len(),
            forall|i: int|
                0 <= i < old(self).ports@.len() ==> #[trigger] final(self).ports@[i]
                    == with_status(old(self).ports@[i], PortStatus::Closed),
            final(self).id == old(self).id,
            final(self).name == old(self).name,
            final(self).population == old(self).population,
            final(self).wf(),
    {
        let ghost old_ports = self.ports@;
        let mut i: usize = 0;
        while i < self.ports.len()
            invariant
                0 <= i <= self.ports@.len(),
                self.ports@.len() == old_ports.len(),
                old_ports == old(self).ports@,
                old(self).wf(),
                self.id == old(self).id,
                self.name == old(self).name,
                self.population == old(self).population,
                forall|j: int|
                    0 <= j < i ==> #[trigger] self.ports@[j] == with_status(
                        old_ports[j],
                        PortStatus::Closed,
                    ),
                forall|j: int| i <= j < self.ports@.len() ==> #[trigger] self.ports@[j] == old_ports[j],
            decreases self.ports@.len() - i,
        {
            let mut p = self.ports[i];
            p.close_port();
            self.ports.set(i, p);
            i = i + 1;
        }
    }

    /// Sets the status of every port of this region with identifier `id`.
    pub(crate) fn set_port_status(&mut self, id: PortID, status: PortStatus)
        requires
            old(self).wf(),
        ensures
            final(self).ports@ == set_status_of(old(self).ports@, id, status),
            final(self).id == old(self).id,
            final(self).name == old(self).name,
            final(self).population == old(self).population,
            final(self).wf(),
    {
        let ghost old_ports = self.ports@;
        let mut i: usize = 0;
        while i < self.ports.len()
            invariant
                0 <= i <= self.ports@.len(),
                self.ports@.len() == old_ports.len(),
                old_ports == old(self).ports@,
                old(self).wf(),
                self.id == old(self).id,
                self.name == old(self).name,
                self.population == old(self).population,
                forall|j: int|
                    0 <= j < i ==> #[trigger] self.ports@[j] == set_status_of(
                        old_ports,
                        id,
                        status,
                    )[j],
                forall|j: int| i <= j < self.ports@.len() ==> #[trigger] self.ports@[j] == old_ports[j],
            decreases self.ports@.len() - i,
        {
            if self.ports[i].id == id {
                let mut p = self.ports[i];
                p.set_status(status);
                self.ports.set(i, p);
            }
            i = i + 1;
        }
        proof {
            assert(self.ports@ =~= set_status_of(old_ports, id, status));
        }
    }
}

/// Index of the first port in `s` with identifier `id`, or `s.len()` if none.
pub open spec fn first_index_of(s: Seq<Port>, id: PortID) -> int
    decreases s.len(),
{
    if s.len() == 0 {
        0
    } else if s[0].id == id {
        0
    } else {
        1 + first_index_of(s.drop_first(), id)
    }
}

/// `s` with the status of every port with identifier `id` set to `status`.
pub open spec fn set_status_of(s: Seq<Port>, id: PortID, status: PortStatus) -> Seq<Port> {
    s.map_values(|p: Port| if p.id == id { with_status(p, status) } else { p })
}

proof fn lemma_first_index_of(s: Seq<Port>, id: PortID, i: int)
    requires
        0 <= i < s.len(),
        s[i].id == id,
        forall|j: int| 0 <= j < i ==> s[j].id != id,
    ensures
        first_index_of(s, id) == i,
    decreases i,
{
    if i > 0 {
        lemma_first_index_of(s.drop_first(), id, i - 1);
    }
}

} // verus!
