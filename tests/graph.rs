use plague_sim::error::SimError;
use plague_sim::location::Point2D;
use plague_sim::population::Population;
use plague_sim::region::{Port, PortID, PortStatus, Region, RegionIdCounter};
use plague_sim::simulation_geography::SimulationGeography;
use plague_sim::transportation_graph::{PortGraph, PortNode};

#[test]
fn it_works() {
    let mut ids = RegionIdCounter::new();
    let mut us = Region::new("United States".to_string(), Population::new(1000), &mut ids);
    let mut us_ports = vec![];
    let us_port1 = us.add_port(PortID::new(0), 100, Point2D::default());
    let us_port2 = us.add_port(PortID::new(1), 200, Point2D::default());
    us_ports.push(us_port1);
    us_ports.push(us_port2);

    let mut china = Region::new("China".to_string(), Population::new(10000), &mut ids);
    let mut china_ports = vec![];
    let china_port1 = china.add_port(PortID::new(2), 100, Point2D::default());
    let china_port2 = china.add_port(PortID::new(3), 200, Point2D::default());
    let china_port3 = china.add_port(PortID::new(4), 200, Point2D::default());
    china_ports.push(china_port1);
    china_ports.push(china_port2);
    china_ports.push(china_port3);

    let mut port_graph = PortGraph::new();

    for port in china.get_ports() {
        let _ = port_graph.add_port(*port);
    }

    for port in us.get_ports() {
        let _ = port_graph.add_port(*port);
    }

    for china_port in china.get_ports() {
        for amer_port in us.get_ports() {
            let _ = port_graph.add_directed_connection(china_port.id, amer_port.id);
            let _ = port_graph.add_directed_connection(amer_port.id, china_port.id);
        }
    }

    let first_us_airport = us.get_ports().get(0).unwrap();

    let us_airport_dests = port_graph.get_dest_ports(first_us_airport.id).unwrap();
    let all_china_ports: Vec<Port> = china.get_ports().clone();
    assert_eq!(us_airport_dests, all_china_ports);
}

#[test]
fn graph_add_ports() {
    let mut ids = RegionIdCounter::new();
    let mut america = Region::new("America".to_owned(), Population::new(3000), &mut ids);
    let mut europe = Region::new("Europe".to_owned(), Population::new(5000), &mut ids);
    let mut american_ports: Vec<Port> = vec![];
    let mut europe_ports: Vec<Port> = vec![];

    let amer1 = america.add_port(PortID::new(0), 150, Point2D::default());
    let amer2 = america.add_port(PortID::new(1), 170, Point2D::default());

    let eu1 = europe.add_port(PortID::new(2), 190, Point2D::default());
    let eu2 = europe.add_port(PortID::new(3), 300, Point2D::default());
    let eu3 = europe.add_port(PortID::new(4), 500, Point2D::default());
    let eu4 = europe.add_port(PortID::new(5), 800, Point2D::default());

    american_ports.push(amer1);
    american_ports.push(amer2);

    europe_ports.push(eu1);
    europe_ports.push(eu2);
    europe_ports.push(eu3);
    europe_ports.push(eu4);

    let mut graph = PortGraph::new();

    assert!(!graph.in_graph(PortID(0)));
    assert!(!graph.in_graph(PortID(1)));
    assert!(!graph.in_graph(PortID(2)));
    assert!(!graph.in_graph(PortID(3)));
    assert!(!graph.in_graph(PortID(4)));
    assert!(!graph.in_graph(PortID(5)));

    for amer_port in &american_ports {
        let _ = graph.add_port(*amer_port);
    }

    assert!(graph.in_graph(PortID(0)));
    assert!(graph.in_graph(PortID(1)));
    assert!(!graph.in_graph(PortID(2)));
    assert!(!graph.in_graph(PortID(3)));
    assert!(!graph.in_graph(PortID(4)));
    assert!(!graph.in_graph(PortID(5)));

    for eu_port in &europe_ports {
        let _ = graph.add_port(*eu_port);
    }

    assert!(graph.in_graph(PortID(0)));
    assert!(graph.in_graph(PortID(1)));
    assert!(graph.in_graph(PortID(2)));
    assert!(graph.in_graph(PortID(3)));
    assert!(graph.in_graph(PortID(4)));
    assert!(graph.in_graph(PortID(5)));

    assert_eq!(graph.get_dest_ports(PortID(0)), Some(vec![]));
    assert_eq!(graph.get_dest_ports(PortID(3)), Some(vec![]));

    for eu_port in europe_ports.iter() {
        for am_port in american_ports.iter() {
            let _ = graph.add_directed_connection(eu_port.id, am_port.id);
        }
    }

    assert!(graph.add_directed_connection(PortID(2), PortID(0)).is_err());
    assert!(graph.add_directed_connection(PortID(2), PortID(0)).is_err());
    assert!(graph.add_directed_connection(PortID(3), PortID(0)).is_err());
    assert!(graph.add_directed_connection(PortID(4), PortID(0)).is_err());
    assert!(graph.add_directed_connection(PortID(5), PortID(0)).is_err());

    assert!(graph.add_undirected_connection(PortID(0), PortID(5)).is_err());

    assert!(graph.add_directed_connection(PortID(55), PortID(0)).is_err());
    assert!(graph.add_directed_connection(PortID(0), PortID(59)).is_err());
    assert!(graph.add_directed_connection(PortID(509), PortID(99)).is_err());

    assert_eq!(graph.get_dest_ports(PortID(0)), Some(vec![]));
    assert_eq!(
        graph.get_dest_ports(PortID(3)),
        Some(vec![*graph.get_port(PortID(0)).unwrap(), *graph.get_port(PortID(1)).unwrap()])
    );

    for eu_port in europe_ports.iter() {
        for am_port in american_ports.iter() {
            let _ = graph.add_directed_connection(am_port.id, eu_port.id);
        }
    }

    assert_eq!(
        graph.get_dest_ports(PortID(0)),
        Some(vec![
            *graph.get_port(PortID(2)).unwrap(),
            *graph.get_port(PortID(3)).unwrap(),
            *graph.get_port(PortID(4)).unwrap(),
            *graph.get_port(PortID(5)).unwrap()
        ])
    );
    assert_eq!(
        graph.get_dest_ports(PortID(3)),
        Some(vec![*graph.get_port(PortID(0)).unwrap(), *graph.get_port(PortID(1)).unwrap()])
    );
}

fn two_port_graph() -> (Region, PortGraph) {
    let mut ids = RegionIdCounter::new();
    let mut r = Region::new("R".to_owned(), Population::new(10), &mut ids);
    let a = r.add_port(PortID(1), 10, Point2D::default());
    let b = r.add_port(PortID(2), 10, Point2D::default());
    let mut g = PortGraph::new();
    assert_eq!(g.add_port(a), Ok(()));
    assert_eq!(g.add_port(b), Ok(()));
    (r, g)
}

#[test]
fn add_port_rejects_duplicate_id() {
    let (r, mut g) = two_port_graph();
    assert_eq!(g.add_port(r.get_ports()[0]), Err(SimError::DuplicatePort(1)));
    assert_eq!(g.get_ports().len(), 2);
}

#[test]
fn directed_connection_errors() {
    let (_r, mut g) = two_port_graph();
    assert_eq!(g.add_directed_connection(PortID(1), PortID(1)), Err(SimError::SelfLoop(1)));
    assert_eq!(g.add_directed_connection(PortID(9), PortID(1)), Err(SimError::UnknownPort(9)));
    assert_eq!(g.add_directed_connection(PortID(1), PortID(9)), Err(SimError::UnknownPort(9)));
    assert_eq!(g.add_directed_connection(PortID(1), PortID(2)), Ok(()));
    assert_eq!(
        g.add_directed_connection(PortID(1), PortID(2)),
        Err(SimError::DuplicateConnection(1, 2))
    );
    assert_eq!(g.get_dest_ports(PortID(1)).unwrap().len(), 1);
    assert_eq!(g.get_dest_ports(PortID(9)), None);
}

#[test]
fn undirected_connection_is_atomic() {
    let (_r, mut g) = two_port_graph();
    assert_eq!(g.add_directed_connection(PortID(2), PortID(1)), Ok(()));
    assert_eq!(
        g.add_undirected_connection(PortID(1), PortID(2)),
        Err(SimError::DuplicateConnection(2, 1))
    );
    assert_eq!(g.get_dest_ports(PortID(1)), Some(vec![]));
    assert_eq!(g.get_dest_ports(PortID(2)).unwrap().len(), 1);
    assert_eq!(g.add_undirected_connection(PortID(1), PortID(1)), Err(SimError::SelfLoop(1)));
    assert_eq!(g.add_undirected_connection(PortID(1), PortID(8)), Err(SimError::UnknownPort(8)));
}

#[test]
fn undirected_connection_adds_both_directions() {
    let (_r, mut g) = two_port_graph();
    assert_eq!(g.add_undirected_connection(PortID(1), PortID(2)), Ok(()));
    assert_eq!(g.get_dest_ports(PortID(1)), Some(vec![*g.get_port(PortID(2)).unwrap()]));
    assert_eq!(g.get_dest_ports(PortID(2)), Some(vec![*g.get_port(PortID(1)).unwrap()]));
    assert_eq!(
        g.add_undirected_connection(PortID(2), PortID(1)),
        Err(SimError::DuplicateConnection(2, 1))
    );
}

#[test]
fn port_node_starts_without_destinations() {
    let (r, _g) = two_port_graph();
    let node = PortNode::new(r.get_ports()[0]);
    assert_eq!(node.port, r.get_ports()[0]);
    assert!(node.dests.is_empty());
}

#[test]
fn closed_port_leaves_open_destinations() {
    let (r, mut g) = two_port_graph();
    assert_eq!(g.add_undirected_connection(PortID(1), PortID(2)), Ok(()));
    let region_id = r.id();
    let mut geo = SimulationGeography::new(g, vec![r]).unwrap();
    assert_eq!(geo.get_open_dest_ports(PortID(1)).unwrap().len(), 1);
    assert_eq!(geo.close_port(PortID(2)), Ok(()));
    assert_eq!(geo.get_open_dest_ports(PortID(1)), Some(vec![]));
    let all = geo.get_all_dest_ports(PortID(1)).unwrap();
    assert_eq!(all.len(), 1);
    assert_eq!(all[0].id, PortID(2));
    assert_eq!(all[0].port_status(), PortStatus::Closed);
    assert_eq!(geo.get_port(PortID(2)).unwrap().port_status(), PortStatus::Closed);
    let region = geo.get_region(region_id).unwrap();
    assert_eq!(region.get_port(PortID(2)).unwrap().port_status(), PortStatus::Closed);
    assert_eq!(region.get_port(PortID(1)).unwrap().port_status(), PortStatus::Open);
    assert_eq!(geo.close_port(PortID(5)), Err(SimError::UnknownPort(5)));
}

#[test]
fn geography_population_changes() {
    let (r, g) = two_port_graph();
    let region_id = r.id();
    let mut geo = SimulationGeography::new(g, vec![r]).unwrap();
    let add = Population { healthy: 1, infected: 2, dead: 3, recovered: 4 };
    assert_eq!(geo.add_population(region_id, add), Ok(Population { healthy: 11, infected: 2, dead: 3, recovered: 4 }));
    assert_eq!(geo.get_population(region_id), Some(Population { healthy: 11, infected: 2, dead: 3, recovered: 4 }));
    assert_eq!(
        geo.subtract_population(region_id, Population { healthy: 5, infected: 2, dead: 0, recovered: 1 }),
        Ok(Population { healthy: 6, infected: 0, dead: 3, recovered: 3 })
    );
    assert_eq!(
        geo.subtract_population(region_id, Population { healthy: 7, infected: 0, dead: 0, recovered: 0 }),
        Err(SimError::InsufficientPopulation)
    );
    assert_eq!(geo.get_population(region_id).unwrap().get_total(), 12);
    let missing = plague_sim::region::RegionID(99);
    assert_eq!(geo.add_population(missing, add), Err(SimError::UnknownRegion(99)));
    assert_eq!(geo.subtract_population(missing, add), Err(SimError::UnknownRegion(99)));
    assert_eq!(geo.set_population(missing, add), Err(SimError::UnknownRegion(99)));
    assert_eq!(geo.get_population(missing), None);
    assert_eq!(
        geo.add_population(region_id, Population { healthy: u32::MAX, infected: 0, dead: 0, recovered: 0 }),
        Err(SimError::PopulationOverflow)
    );
    assert_eq!(geo.set_population(region_id, add), Ok(()));
    assert_eq!(geo.get_population(region_id), Some(add));
    assert_eq!(geo.get_region_ids(), vec![region_id]);
    assert_eq!(geo.get_regions().len(), 1);
    assert_eq!(geo.get_ports().len(), 2);
}

#[test]
fn geography_rejects_mismatched_ports() {
    let (r, mut g) = two_port_graph();
    let mut ids = RegionIdCounter::new();
    let mut other = Region::new("Other".to_owned(), Population::new(1), &mut ids);
    other.id = plague_sim::region::RegionID(50);
    let extra = other.add_port(PortID(3), 5, Point2D::default());
    assert_eq!(g.add_port(extra), Ok(()));
    assert!(matches!(
        SimulationGeography::new(g, vec![r]),
        Err(SimError::InconsistentGeography)
    ));
}

#[test]
fn closing_keeps_other_open_destinations_in_order() {
    let mut ids = RegionIdCounter::new();
    let mut r = Region::new("R".to_owned(), Population::new(10), &mut ids);
    let ports: Vec<Port> = (0..4).map(|i| r.add_port(PortID(i), 10, Point2D::default())).collect();
    let mut g = PortGraph::new();
    for p in &ports {
        g.add_port(*p).unwrap();
    }
    for i in 1..4 {
        g.add_directed_connection(PortID(0), PortID(i)).unwrap();
    }
    let mut geo = SimulationGeography::new(g, vec![r]).unwrap();
    geo.close_port(PortID(2)).unwrap();
    let open: Vec<PortID> = geo.get_open_dest_ports(PortID(0)).unwrap().iter().map(|p| p.id).collect();
    assert_eq!(open, vec![PortID(1), PortID(3)]);
    let all: Vec<PortID> = geo.get_all_dest_ports(PortID(0)).unwrap().iter().map(|p| p.id).collect();
    assert_eq!(all, vec![PortID(1), PortID(2), PortID(3)]);
}
