use vstd::prelude::*;

use crate::error::SimError;
use crate::region::{with_status, Port, PortID, PortStatus};

verus! {

/// A port of the graph together with the ports it leads to.
#[derive(Debug, Clone)]
pub struct PortNode {
    pub port: Port,
    pub dests: Vec<PortID>,
}

impl PortNode {
    pub fn new(port: Port) -> (r: PortNode)
        ensures
            r.port == port,
            r.dests@ == Seq::<PortID>::empty(),
    {
        PortNode { port, dests: Vec::new() }
    }
}

/// The nodes of a port graph in the order they were added: each port with
/// the identifiers of its destinations, in the order the connections were made.
pub type GraphView = Seq<(Port, Seq<PortID>)>;

/// Some node of `g` holds a port with identifier `id`.
pub open spec fn has_port(g: GraphView, id: PortID) -> bool {
    exists|i: int| 0 <= i < g.len() && (#[trigger] g[i]).0.id == id
}

/// Index of the first node of `g` whose port has identifier `id`.
pub open spec fn index_of(g: GraphView, id: PortID) -> int
    decreases g.len(),
{
    if g.len() == 0 {
        0
    } else if g[0].0.id == id {
        0
    } else {
        1 + index_of(g.drop_first(), id)
    }
}

/// The port of `g` with identifier `id`.
pub open spec fn port_of(g: GraphView, id: PortID) -> Port {
    g[index_of(g, id)].0
}

/// The identifiers of the destinations of port `id`.
pub open spec fn dest_ids(g: GraphView, id: PortID) -> Seq<PortID> {
    g[index_of(g, id)].1
}

/// The connection from `start` to `end` exists.
pub open spec fn has_edge(g: GraphView, start: PortID, end: PortID) -> bool {
    has_port(g, start) && dest_ids(g, start).contains(end)
}

/// The destination ports of port `id`, in connection order.
pub open spec fn dest_ports(g: GraphView, id: PortID) -> Seq<Port> {
    dest_ids(g, id).map_values(|d: PortID| port_of(g, d))
}

pub open spec fn is_open(p: Port) -> bool {
    p.status == PortStatus::Open
}

/// The open destination ports of port `id`, in connection order.
pub open spec fn open_dest_ports(g: GraphView, id: PortID) -> Seq<Port> {
    dest_ports(g, id).filter(|p: Port| is_open(p))
}

/// `g` with a connection from `start` to `end` appended.
pub open spec fn add_edge(g: GraphView, start: PortID, end: PortID) -> GraphView {
    let i = index_of(g, start);
    g.update(i, (g[i].0, g[i].1.push(end)))
}

/// What adding the connection from `start` to `end` returns.
pub open spec fn directed_outcome(g: GraphView, start: PortID, end: PortID) -> Result<(), SimError> {
    if start == end {
        Err(SimError::SelfLoop(start.0))
    } else if !has_port(g, start) {
        Err(SimError::UnknownPort(start.0))
    } else if !has_port(g, end) {
        Err(SimError::UnknownPort(end.0))
    } else if has_edge(g, start, end) {
        Err(SimError::DuplicateConnection(start.0, end.0))
    } else {
        Ok(())
    }
}

/// What adding the connections between `port1` and `port2` returns.
pub open spec fn undirected_outcome(g: GraphView, port1: PortID, port2: PortID) -> Result<
    (),
    SimError,
> {
    if port1 == port2 {
        Err(SimError::SelfLoop(port1.0))
    } else if !has_port(g, port1) {
        Err(SimError::UnknownPort(port1.0))
    } else if !has_port(g, port2) {
        Err(SimError::UnknownPort(port2.0))
    } else if has_edge(g, port1, port2) {
        Err(SimError::DuplicateConnection(port1.0, port2.0))
    } else if has_edge(g, port2, port1) {
        Err(SimError::DuplicateConnection(port2.0, port1.0))
    } else {
        Ok(())
    }
}

/// `g` with the status of port `id` set to `status`; `g` itself if `id` is
/// not registered.
pub open spec fn graph_set_status(g: GraphView, id: PortID, status: PortStatus) -> GraphView {
    if has_port(g, id) {
        let i = index_of(g, id);
        g.update(i, (with_status(g[i].0, status), g[i].1))
    } else {
        g
    }
}

/// Port identifiers are unique, every connection joins two registered and
/// different ports, and no connection is listed twice.
pub open spec fn graph_wf(g: GraphView) -> bool {
    &&& forall|i: int, j: int|
        0 <= i < g.len() && 0 <= j < g.len() && (#[trigger] g[i]).0.id == (#[trigger] g[j]).0.id
            ==> i == j
    &&& forall|i: int, k: int|
        0 <= i < g.len() && 0 <= k < g[i].1.len() ==> has_port(g, #[trigger] g[i].1[k])
    &&& forall|i: int, k: int|
        0 <= i < g.len() && 0 <= k < g[i].1.len() ==> #[trigger] g[i].1[k] != g[i].0.id
    &&& forall|i: int| 0 <= i < g.len() ==> (#[trigger] g[i]).1.no_duplicates()
}

/// A directed graph of ports.
pub struct PortGraph {
    nodes: Vec<PortNode>,
}

impl View for PortGraph {
    type V = GraphView;

    closed spec fn view(&self) -> GraphView {
        self.nodes@.map_values(|n: PortNode| (n.port, n.dests@))
    }
}

/// With unique identifiers, the node that holds `id` is the one `index_of` finds.
pub proof fn lemma_index_of_unique(g: GraphView, id: PortID, i: int)
    requires
        graph_wf(g),
        0 <= i < g.len(),
        g[i].0.id == id,
    ensures
        index_of(g, id) == i,
{
    assert forall|j: int| 0 <= j < i implies g[j].0.id != id by {
        if g[j].0.id == id {
            assert(g[j].0.id == g[i].0.id);
        }
    }
    lemma_index_of_first(g, id, i);
}

proof fn lemma_index_of_first(g: GraphView, id: PortID, i: int)
    requires
        0 <= i < g.len(),
        g[i].0.id == id,
        forall|j: int| 0 <= j < i ==> g[j].0.id != id,
    ensures
        index_of(g, id) == i,
    decreases i,
{
    if i > 0 {
        lemma_index_of_first(g.drop_first(), id, i - 1);
    }
}

/// A registered port sits at the index that `index_of` gives.
pub proof fn lemma_index_of_in_range(g: GraphView, id: PortID)
    requires
        has_port(g, id),
    ensures
        0 <= index_of(g, id) < g.len(),
        g[index_of(g, id)].0.id == id,
    decreases g.len(),
{
    if g[0].0.id != id {
        let i = choose|i: int| 0 <= i < g.len() && (#[trigger] g[i]).0.id == id;
        assert(g.drop_first()[i - 1] == g[i]);
        lemma_index_of_in_range(g.drop_first(), id);
    }
}

impl PortGraph {
    pub open spec fn wf(&self) -> bool {
        graph_wf(self@)
    }

    /// An empty graph.
    pub fn new() -> (r: PortGraph)
        ensures
            r@ == GraphView::empty(),
            r.wf(),
    {
        PortGraph { nodes: Vec::new() }
    }

    /// Index of the node of port `id`, if it is registered.
    fn find_index(&self, id: PortID) -> (r: Option<usize>)
        requires
            self.wf(),
        ensures
            r.is_none() <==> !has_port(self@, id),
            r matches Some(i) ==> i == index_of(self@, id) && i < self@.len(),
    {
        let mut i: usize = 0;
        while i < self.nodes.len()
            invariant
                0 <= i <= self.nodes@.len(),
                self@.len() == self.nodes@.len(),
                self.wf(),
                forall|j: int| 0 <= j < i ==> self@[j].0.id != id,
            decreases self.nodes@.len() - i,
        {
            if self.nodes[i].port.id == id {
                proof {
                    lemma_index_of_unique(self@, id, i as int);
                }
                return Some(i);
            }
            i = i + 1;
        }
        None
    }

    /// Whether the node at index `i` already lists `end` as a destination.
    fn lists_dest(&self, i: usize, end: PortID) -> (r: bool)
        requires
            i < self@.len(),
        ensures
            r == self@[i as int].1.contains(end),
    {
        let dests = &self.nodes[i].dests;
        let mut k: usize = 0;
        while k < dests.len()
            invariant
                i < self@.len(),
                dests@ == self@[i as int].1,
                0 <= k <= dests@.len(),
                forall|j: int| 0 <= j < k ==> dests@[j] != end,
            decreases dests@.len() - k,
        {
            if dests[k] == end {
                return true;
            }
            k = k + 1;
        }
        false
    }

    /// Appends `end` to the destinations of the node at index `i`.
    fn push_dest(&mut self, i: usize, end: PortID)
        requires
            old(self).wf(),
            i < old(self)@.len(),
            has_port(old(self)@, end),
            end != old(self)@[i as int].0.id,
            !old(self)@[i as int].1.contains(end),
        ensures
            final(self)@ == old(self)@.update(
                i as int,
                (old(self)@[i as int].0, old(self)@[i as int].1.push(end)),
            ),
            final(self).wf(),
    {
        let ghost g = self@;
        self.nodes[i].dests.push(end);
        proof {
            let g2 = self@;
            assert(g2 =~= g.update(i as int, (g[i as int].0, g[i as int].1.push(end))));
            assert forall|x: PortID| has_port(g, x) implies has_port(g2, x) by {
                let j = choose|j: int| 0 <= j < g.len() && (#[trigger] g[j]).0.id == x;
                assert(g2[j].0.id == x);
            }
            assert forall|a: int, b: int|
                0 <= a < g2.len() && 0 <= b < g2.len() && (#[trigger] g2[a]).0.id == (
                #[trigger] g2[b]).0.id implies a == b by {
                assert(g[a].0.id == g[b].0.id);
            }
            assert forall|a: int, k: int|
                0 <= a < g2.len() && 0 <= k < g2[a].1.len() implies has_port(
                g2,
                #[trigger] g2[a].1[k],
            ) by {
                if a != i || k < g[a].1.len() {
                    assert(g2[a].1[k] == g[a].1[k]);
                }
            }
            assert forall|a: int, k: int|
                0 <= a < g2.len() && 0 <= k < g2[a].1.len() implies #[trigger] g2[a].1[k]
                != g2[a].0.id by {
                if a != i || k < g[a].1.len() {
                    assert(g2[a].1[k] == g[a].1[k]);
                }
            }
            assert forall|a: int| 0 <= a < g2.len() implies (#[trigger] g2[a]).1.no_duplicates() by {
                if a == i {
                    assert(g[a].1.no_duplicates());
                    assert forall|x: int, y: int|
                        0 <= x < y < g2[a].1.len() implies g2[a].1[x] != g2[a].1[y] by {
                        if y == g[a].1.len() {
                            assert(g[a].1.contains(g[a].1[x]));
                        }
                    }
                }
            }
        }
    }

    /// Adds the connection from `start` to `end`. Fails, leaving the graph
    /// unchanged, if the two are equal, if either is not registered, or if
    /// the connection already exists.
    pub fn add_directed_connection(&mut self, start: PortID, end: PortID) -> (r: Result<
        (),
        SimError,
    >)
        requires
            old(self).wf(),
        ensures
            final(self).wf(),
            r == directed_outcome(old(self)@, start, end),
            r is Ok ==> final(self)@ == add_edge(old(self)@, start, end),
            r is Err ==> final(self)@ == old(self)@,
    {
        if start == end {
            Err(SimError::SelfLoop(start.0))
        } else {
            match self.find_index(start) {
                None => Err(SimError::UnknownPort(start.0)),
                Some(i) => {
                    if !self.in_graph(end) {
                        Err(SimError::UnknownPort(end.0))
                    } else if self.lists_dest(i, end) {
                        Err(SimError::DuplicateConnection(start.0, end.0))
                    } else {
                        proof {
                            lemma_index_of_in_range(self@, start);
                        }
                        self.push_dest(i, end);
                        Ok(())
                    }
                },
            }
        }
    }

    /// Adds the connections from `port1` to `port2` and back. Fails, leaving
    /// the graph unchanged, if the two are equal, if either is not
    /// registered, or if either connection already exists.
    pub fn add_undirected_connection(&mut self, port1: PortID, port2: PortID) -> (r: Result<
        (),
        SimError,
    >)
        requires
            old(self).wf(),
        ensures
            final(self).wf(),
            r == undirected_outcome(old(self)@, port1, port2),
            r is Ok ==> final(self)@ == add_edge(add_edge(old(self)@, port2, port1), port1, port2),
            r is Err ==> final(self)@ == old(self)@,
    {
        if port1 == port2 {
            Err(SimError::SelfLoop(port1.0))
        } else {
            match self.find_index(port1) {
                None => Err(SimError::UnknownPort(port1.0)),
                Some(i) => {
                    match self.find_index(port2) {
                        None => Err(SimError::UnknownPort(port2.0)),
                        Some(j) => {
                            if self.lists_dest(i, port2) {
                                Err(SimError::DuplicateConnection(port1.0, port2.0))
                            } else if self.lists_dest(j, port1) {
                                Err(SimError::DuplicateConnection(port2.0, port1.0))
                            } else {
                                proof {
                                    lemma_index_of_in_range(self@, port1);
                                    lemma_index_of_in_range(self@, port2);
                                }
                                let ghost g = self@;
                                self.push_dest(j, port1);
                                proof {
                                    assert(self@[i as int] == g[i as int]);
                                    assert(self@[i as int].0.id == port1);
                                    lemma_index_of_unique(self@, port1, i as int);
                                    assert(has_port(self@, port2)) by {
                                        assert(self@[j as int].0.id == port2);
                                    }
                                }
                                self.push_dest(i, port2);
                                Ok(())
                            }
                        },
                    }
                },
            }
        }
    }

    /// Sets the status of port `id`, if it is registered.
    pub(crate) fn set_port_status(&mut self, id: PortID, status: PortStatus)
        requires
            old(self).wf(),
        ensures
            final(self)@ == graph_set_status(old(self)@, id, status),
            final(self).wf(),
    {
        match self.find_index(id) {
            None => {},
            Some(i) => {
                let ghost g = self@;
                proof {
                    lemma_index_of_in_range(g, id);
                }
                self.nodes[i].port.status = status;
                proof {
                    let g2 = self@;
                    assert(g2 =~= g.update(i as int, (with_status(g[i as int].0, status), g[i as int].1)));
                    assert forall|x: PortID| has_port(g, x) implies has_port(g2, x) by {
                        let j = choose|j: int| 0 <= j < g.len() && (#[trigger] g[j]).0.id == x;
                        assert(g2[j].0.id == x);
                    }
                    assert forall|a: int, b: int|
                        0 <= a < g2.len() && 0 <= b < g2.len() && (#[trigger] g2[a]).0.id == (
                        #[trigger] g2[b]).0.id implies a == b by {
                        assert(g[a].0.id == g[b].0.id);
                    }
                    assert forall|a: int, k: int|
                        0 <= a < g2.len() && 0 <= k < g2[a].1.len() implies has_port(
                        g2,
                        #[trigger] g2[a].1[k],
                    ) by {
                        assert(g2[a].1[k] == g[a].1[k]);
                    }
                    assert forall|a: int, k: int|
                        0 <= a < g2.len() && 0 <= k < g2[a].1.len() implies #[trigger] g2[a].1[k]
                        != g2[a].0.id by {
                        assert(g2[a].1[k] == g[a].1[k]);
                    }
                    assert forall|a: int| 0 <= a < g2.len() implies (#[trigger] g2[a]).1.no_duplicates() by {
                        assert(g2[a].1 == g[a].1);
                    }
                }
            },
        }
    }

    /// Copies of all ports of the graph, in the order they were added.
    pub fn get_ports(&self) -> (r: Vec<Port>)
        ensures
            r@ == self@.map_values(|n: (Port, Seq<PortID>)| n.0),
    {
        let mut out: Vec<Port> = Vec::new();
        let mut i: usize = 0;
        while i < self.nodes.len()
            invariant
                0 <= i <= self.nodes@.len(),
                self@.len() == self.nodes@.len(),
                out@ == self@.take(i as int).map_values(|n: (Port, Seq<PortID>)| n.0),
            decreases self.nodes@.len() - i,
        {
            out.push(self.nodes[i].port);
            i = i + 1;
            proof {
                assert(out@ =~= self@.take(i as int).map_values(|n: (Port, Seq<PortID>)| n.0));
            }
        }
        proof {
            assert(self@.take(i as int) =~= self@);
        }
        out
    }

    /// Registers `port`; fails if a port with the same identifier is registered.
    pub fn add_port(&mut self, port: Port) -> (r: Result<(), SimError>)
        requires
            old(self).wf(),
        ensures
            final(self).wf(),
            r is Err <==> has_port(old(self)@, port.id),
            r matches Err(e) ==> e == SimError::DuplicatePort(port.id.0),
            r is Err ==> final(self)@ == old(self)@,
            r is Ok ==> final(self)@ == old(self)@.push((port, Seq::<PortID>::empty())),
    {
        if self.in_graph(port.id) {
            Err(SimError::DuplicatePort(port.id.0))
        } else {
            let ghost g = self@;
            self.nodes.push(PortNode::new(port));
            proof {
                assert(self@ =~= g.push((port, Seq::<PortID>::empty())));
                assert forall|i: int, k: int|
                    0 <= i < self@.len() && 0 <= k < self@[i].1.len() implies has_port(
                    self@,
                    #[trigger] self@[i].1[k],
                ) by {
                    let d = self@[i].1[k];
                    assert(has_port(g, d));
                    let j = choose|j: int| 0 <= j < g.len() && (#[trigger] g[j]).0.id == d;
                    assert(self@[j] == g[j]);
                }
            }
            Ok(())
        }
    }

    /// Whether a port with identifier `id` is registered.
    pub fn in_graph(&self, id: PortID) -> (r: bool)
        requires
            self.wf(),
        ensures
            r == has_port(self@, id),
    {
        self.find_index(id).is_some()
    }

    /// The registered port with identifier `id`, if any.
    pub fn get_port(&self, id: PortID) -> (r: Option<&Port>)
        requires
            self.wf(),
        ensures
            r.is_none() <==> !has_port(self@, id),
            r matches Some(p) ==> *p == port_of(self@, id),
    {
        match self.find_index(id) {
            Some(i) => Some(&self.nodes[i].port),
            None => None,
        }
    }

    /// The destination ports of port `id`, open or closed, in connection
    /// order; `None` if `id` is not registered.
    pub fn get_dest_ports(&self, id: PortID) -> (r: Option<Vec<Port>>)
        requires
            self.wf(),
        ensures
            r.is_none() <==> !has_port(self@, id),
            r matches Some(v) ==> v@ == dest_ports(self@, id),
    {
        match self.find_index(id) {
            None => None,
            Some(i) => {
                let dests = &self.nodes[i].dests;
                let ghost ds = self@[i as int].1;
                let mut out: Vec<Port> = Vec::new();
                let mut k: usize = 0;
                while k < dests.len()
                    invariant
                        self.wf(),
                        i == index_of(self@, id),
                        0 <= i < self@.len(),
                        dests@ == ds,
                        ds == dest_ids(self@, id),
                        0 <= k <= ds.len(),
                        out@ == ds.take(k as int).map_values(|d: PortID| port_of(self@, d)),
                    decreases ds.len() - k,
                {
                    let p = self.get_port(dests[k]);
                    proof {
                        assert(has_port(self@, ds[k as int]));
                    }
                    out.push(*p.unwrap());
                    k = k + 1;
                    proof {
                        assert(out@ =~= ds.take(k as int).map_values(
                            |d: PortID| port_of(self@, d),
                        ));
                    }
                }
                proof {
                    assert(ds.take(k as int) =~= ds);
                }
                Some(out)
            },
        }
    }

    /// The open destination ports of port `id`, in connection order; `None`
    /// if `id` is not registered.
    pub fn get_open_dest_ports(&self, id: PortID) -> (r: Option<Vec<Port>>)
        requires
            self.wf(),
        ensures
            r.is_none() <==> !has_port(self@, id),
            r matches Some(v) ==> v@ == open_dest_ports(self@, id),
    {
        match self.get_dest_ports(id) {
            None => None,
            Some(dests) => {
                let ghost all = dest_ports(self@, id);
                let mut out: Vec<Port> = Vec::new();
                let mut k: usize = 0;
                while k < dests.len()
                    invariant
                        dests@ == all,
                        0 <= k <= all.len(),
                        out@ == all.take(k as int).filter(|p: Port| is_open(p)),
                    decreases all.len() - k,
                {
                    let p = dests[k];
                    proof {
                        assert(all.take(k + 1) =~= all.take(k as int).push(p));
                        all.take(k as int).lemma_filter_push(p, |p: Port| is_open(p));
                    }
                    if p.status == PortStatus::Open {
                        out.push(p);
                    }
                    k = k + 1;
                }
                proof {
                    assert(all.take(k as int) =~= all);
                }
                Some(out)
            },
        }
    }
}

/// A connection from a port to itself always fails; so does one with an
/// unregistered end; and an undirected connection fails whenever either
/// direction already exists. (A failing call leaves the graph unchanged.)
pub proof fn lemma_connection_failures(g: GraphView, a: PortID, b: PortID)
    ensures
        directed_outcome(g, a, a) is Err,
        undirected_outcome(g, a, a) is Err,
        !has_port(g, a) || !has_port(g, b) ==> directed_outcome(g, a, b) is Err
            && undirected_outcome(g, a, b) is Err,
        has_edge(g, a, b) || has_edge(g, b, a) ==> undirected_outcome(g, a, b) is Err,
{
}

/// Once port `closed` is closed, it is no longer among the open destinations
/// of a port that leads to it, but it is still among all its destinations;
/// the other open destinations stay, in their order.
pub proof fn lemma_closed_port_filtered(g: GraphView, from: PortID, closed: PortID)
    requires
        graph_wf(g),
        has_edge(g, from, closed),
    ensures
        dest_ports(graph_set_status(g, closed, PortStatus::Closed), from).contains(
            port_of(graph_set_status(g, closed, PortStatus::Closed), closed),
        ),
        forall|p: Port|
            #[trigger] open_dest_ports(graph_set_status(g, closed, PortStatus::Closed), from).contains(
                p,
            ) ==> p.id != closed,
        open_dest_ports(graph_set_status(g, closed, PortStatus::Closed), from) == dest_ports(
            g,
            from,
        ).filter(|p: Port| is_open(p) && p.id != closed),
{
    let g2 = graph_set_status(g, closed, PortStatus::Closed);
    lemma_index_of_in_range(g, from);
    let fi = index_of(g, from);
    let m = choose|m: int| 0 <= m < g[fi].1.len() && g[fi].1[m] == closed;
    assert(has_port(g, g[fi].1[m]));
    lemma_index_of_in_range(g, closed);
    let ci = index_of(g, closed);
    assert(g2.len() == g.len());
    assert forall|n: int| 0 <= n < g.len() implies (#[trigger] g2[n]).0.id == g[n].0.id
        && g2[n].1 == g[n].1 by {}
    assert(graph_wf(g2)) by {
        assert forall|x: PortID| has_port(g, x) implies has_port(g2, x) by {
            let n = choose|n: int| 0 <= n < g.len() && (#[trigger] g[n]).0.id == x;
            assert(g2[n].0.id == x);
        }
        assert forall|a: int, b: int|
            0 <= a < g2.len() && 0 <= b < g2.len() && (#[trigger] g2[a]).0.id == (
            #[trigger] g2[b]).0.id implies a == b by {
            assert(g[a].0.id == g[b].0.id);
        }
        assert forall|a: int, k: int|
            0 <= a < g2.len() && 0 <= k < g2[a].1.len() implies has_port(
            g2,
            #[trigger] g2[a].1[k],
        ) by {
            assert(has_port(g, g[a].1[k]));
        }
    }
    assert forall|x: PortID| has_port(g, x) implies index_of(g2, x) == index_of(g, x) by {
        lemma_index_of_in_range(g, x);
        let n = index_of(g, x);
        assert(g2[n].0.id == x);
        lemma_index_of_unique(g2, x, n);
    }
    assert(index_of(g2, from) == fi);
    assert(dest_ids(g2, from) == g[fi].1);
    assert(dest_ports(g2, from)[m] == port_of(g2, closed));
    assert forall|p: Port| #[trigger] open_dest_ports(g2, from).contains(p) implies p.id != closed by {
        let ds = dest_ports(g2, from);
        ds.lemma_filter_contains_rev(|q: Port| is_open(q), p);
        let k = choose|k: int| 0 <= k < ds.len() && ds[k] == p;
        let d = g[fi].1[k];
        assert(has_port(g, d));
        lemma_index_of_in_range(g, d);
        assert(p == g2[index_of(g, d)].0);
        if p.id == closed {
            assert(index_of(g, d) == ci) by {
                lemma_index_of_unique(g, closed, index_of(g, d));
            }
            let fs = ds.filter(|q: Port| is_open(q));
            let t = choose|t: int| 0 <= t < fs.len() && fs[t] == p;
            ds.lemma_filter_pred(|q: Port| is_open(q), t);
        }
    }
    let s1 = dest_ports(g2, from);
    let s2 = dest_ports(g, from);
    assert forall|k: int| 0 <= k < s1.len() implies is_open(s1[k]) == (is_open(s2[k]) && s2[k].id
        != closed) && (is_open(s1[k]) ==> s1[k] == s2[k]) by {
        let d = g[fi].1[k];
        assert(has_port(g, d));
        lemma_index_of_in_range(g, d);
        if d == closed {
            assert(s1[k] == with_status(g[ci].0, PortStatus::Closed));
        } else {
            assert(index_of(g, d) != ci);
            assert(s1[k] == s2[k]);
        }
    }
    lemma_filter_congruent(s1, s2, |p: Port| is_open(p), |p: Port| is_open(p) && p.id != closed);
}


/// Filters agree on two sequences that agree wherever the first filter keeps
/// an element, and whose filters decide alike at each place.
proof fn lemma_filter_congruent(
    s1: Seq<Port>,
    s2: Seq<Port>,
    p1: spec_fn(Port) -> bool,
    p2: spec_fn(Port) -> bool,
)
    requires
        s1.len() == s2.len(),
        forall|k: int| 0 <= k < s1.len() ==> p1(s1[k]) == p2(s2[k]),
        forall|k: int| 0 <= k < s1.len() && p1(s1[k]) ==> s1[k] == s2[k],
    ensures
        s1.filter(p1) == s2.filter(p2),
    decreases s1.len(),
{
    reveal(Seq::filter);
    if s1.len() > 0 {
        lemma_filter_congruent(s1.drop_last(), s2.drop_last(), p1, p2);
        assert(p1(s1[s1.len() - 1]) == p2(s2[s2.len() - 1]));
    }
}

} // verus!
