use plague_sim::error::SimError;
use plague_sim::location::Point2D;
use plague_sim::population::Population;
use plague_sim::region::{PortID, Region, RegionIdCounter};
use plague_sim::region_transportation_mediator::{
    InProgressJob, MediatorStatistics, RegionTransportationMediator,
};
use plague_sim::transportation_allocator::{
    plan_transport, RandomTransportAllocator, TransportAllocator, TransportJob,
};
use plague_sim::transportation_graph::PortGraph;

fn statistics_sum(s: &MediatorStatistics) -> Population {
    s.in_transit.add(s.region_population)
}

#[test]
fn test_mediator_intra_country_transport() {
    let china_pop = 5000;
    let mut ids = RegionIdCounter::new();
    let mut china = Region::new("China".to_owned(), Population::new(china_pop), &mut ids);
    let port1 = china.add_port(PortID(1), 100, Point2D::default());
    let port2 = china.add_port(PortID(2), 200, Point2D::default());
    let port3 = china.add_port(PortID(3), 500, Point2D::default());
    let port4 = china.add_port(PortID(4), 50, Point2D::default());

    let mut graph = PortGraph::new();
    let _ = graph.add_port(port1);
    let _ = graph.add_port(port2);
    let _ = graph.add_port(port3);
    let _ = graph.add_port(port4);

    let _ = graph.add_directed_connection(PortID(1), PortID(2));
    let _ = graph.add_directed_connection(PortID(2), PortID(3));
    let _ = graph.add_directed_connection(PortID(3), PortID(4));
    let _ = graph.add_directed_connection(PortID(4), PortID(1));
    let _ = graph.add_directed_connection(PortID(3), PortID(1));

    let mut med =
        RegionTransportationMediator::new(graph, vec![china], RandomTransportAllocator::new(1, 1))
            .unwrap();

    let total = statistics_sum(&med.statistics());
    for _ in 0..=20 {
        med.update();
        assert_eq!(statistics_sum(&med.statistics()), total);
    }
}

#[test]
fn mediator_moves_people_between_regions() {
    let mut ids = RegionIdCounter::new();
    let mut a = Region::new("A".to_owned(), Population::new_random(4000), &mut ids);
    let mut b = Region::new("B".to_owned(), Population::new(0), &mut ids);
    let pa = a.add_port(PortID(0), 300, Point2D::new(0, 0));
    let pb = b.add_port(PortID(1), 300, Point2D::new(3, 4));
    let b_id = b.id();
    let mut graph = PortGraph::new();
    let _ = graph.add_port(pa);
    let _ = graph.add_port(pb);
    let _ = graph.add_undirected_connection(PortID(0), PortID(1));
    let mut med =
        RegionTransportationMediator::new(graph, vec![a, b], RandomTransportAllocator::new(1, 1))
            .unwrap();
    let total = statistics_sum(&med.statistics());
    assert_eq!(total.get_total(), 4000);
    for _ in 0..40 {
        med.update();
        assert_eq!(statistics_sum(&med.statistics()), total);
        for job in med.ongoing_transport() {
            assert!(job.job.time <= 5);
            assert_eq!(job.expected_time, 5);
            assert_eq!(job.elapsed() + job.job.time, 5);
        }
    }
    let arrived = med.geography().get_population(b_id).unwrap().get_total();
    let travelling = med.statistics().in_transit.get_total();
    assert!(arrived + travelling > 0);
}

#[test]
fn mediator_with_closed_ports_moves_nobody() {
    let mut ids = RegionIdCounter::new();
    let mut a = Region::new("A".to_owned(), Population::new(100), &mut ids);
    let pa = a.add_port(PortID(0), 300, Point2D::new(0, 0));
    let pb = a.add_port(PortID(1), 300, Point2D::new(0, 1));
    let mut graph = PortGraph::new();
    let _ = graph.add_port(pa);
    let _ = graph.add_port(pb);
    let _ = graph.add_undirected_connection(PortID(0), PortID(1));
    let mut never =
        RegionTransportationMediator::new(graph, vec![a], RandomTransportAllocator::new(0, 1))
            .unwrap();
    for _ in 0..10 {
        never.update();
        assert_eq!(never.statistics().in_transit, Population::new(0));
        assert!(never.ongoing_transport().is_empty());
    }
}

#[test]
fn mediator_rejects_overflowing_population() {
    let mut ids = RegionIdCounter::new();
    let a = Region::new("A".to_owned(), Population::new(u32::MAX), &mut ids);
    let b = Region::new("B".to_owned(), Population::new(1), &mut ids);
    let result = RegionTransportationMediator::new(
        PortGraph::new(),
        vec![a, b],
        RandomTransportAllocator::new(1, 1),
    );
    assert!(matches!(result, Err(SimError::PopulationOverflow)));
}

#[test]
fn mediator_statistics_start_empty() {
    let s = MediatorStatistics::new(Population::new(7));
    assert_eq!(s.in_transit, Population::new(0));
    assert_eq!(s.region_population, Population::new(7));
}

#[test]
fn random_transport_allocator() {
    let mut ids = RegionIdCounter::new();
    let mut brazil = Region::new("Brazil".to_owned(), Population::new(50000), &mut ids);
    brazil.population = Population::new_random(50000);
    let braz_port = brazil.add_port(PortID(0), 500, Point2D::new(0, 0));

    let mut benin = Region::new("Benin".to_owned(), Population::new(30000), &mut ids);
    let benin_port = benin.add_port(PortID(1), 500, Point2D::new(10, 2));
    benin.population = Population::new_random(30000);

    let random_alloc = RandomTransportAllocator::new(1, 1);
    for i in 0..=30 {
        let brazil_curr_pop = brazil.population;
        let brasil_to_benin_jobs =
            random_alloc.calculate_transport(&braz_port, &brazil, vec![benin_port]);

        for job in brasil_to_benin_jobs.into_iter().flatten() {
            let transport_pop = job.population;
            let result = brazil_curr_pop.emigrate(transport_pop);
            assert!(result.is_ok(), "{}", format!("Error on update {}: {:?}", i + 1, result.err()));
            assert_eq!(job.end_port, PortID(1));
            assert_eq!(job.end_region, benin.id());
            assert_eq!(job.time, 10);
        }
    }
}

#[test]
fn allocator_without_destinations_sends_nobody() {
    let mut ids = RegionIdCounter::new();
    let mut r = Region::new("R".to_owned(), Population::new(100), &mut ids);
    let p = r.add_port(PortID(0), 50, Point2D::default());
    let alloc = RandomTransportAllocator::new(1, 1);
    assert!(alloc.calculate_transport(&p, &r, vec![]).is_none());
}

#[test]
fn plan_transport_scales_population() {
    let mut ids = RegionIdCounter::new();
    let mut r = Region::new("R".to_owned(), Population::new(0), &mut ids);
    r.population = Population { healthy: 150, infected: 75, dead: 111, recovered: 2 };
    let start = r.add_port(PortID(0), 500, Point2D::new(0, 0));
    let mut other = Region::new("O".to_owned(), Population::new(0), &mut ids);
    let dest = other.add_port(PortID(9), 10, Point2D::new(6, 8));

    assert_eq!(plan_transport(&start, &r, &dest, 0), None);

    let half = plan_transport(&start, &r, &dest, 169).unwrap();
    assert_eq!(half.population, Population { healthy: 75, infected: 38, dead: 56, recovered: 1 });
    assert_eq!(half.time, 10);
    assert_eq!(half.start_port, PortID(0));
    assert_eq!(half.start_region, r.id());
    assert_eq!(half.end_port, PortID(9));
    assert_eq!(half.end_region, other.id());

    let all = plan_transport(&start, &r, &dest, 338).unwrap();
    assert_eq!(all.population, r.population);
    let more = plan_transport(&start, &r, &dest, 1000).unwrap();
    assert_eq!(more.population, r.population);
}

#[test]
fn in_progress_job_keeps_duration() {
    let job = TransportJob {
        start_port: PortID(0),
        start_region: plague_sim::region::RegionID(0),
        end_port: PortID(1),
        end_region: plague_sim::region::RegionID(1),
        population: Population::new(3),
        time: 12,
    };
    let ip = InProgressJob::new(job);
    assert_eq!(ip.expected_time, 12);
    assert_eq!(ip.job, job);
    assert_eq!(ip.elapsed(), 0);
    let mut later = ip;
    later.job.time = 4;
    assert_eq!(later.elapsed(), 8);
}

#[test]
fn pick_random() {
    let values = vec![1, 2, 3, 4];
    let rand_val = plague_sim::random::pick_random(&values).unwrap();
    assert!((1..=4).contains(rand_val));

    assert_eq!(values.len(), 4);
    let empty: Vec<u8> = vec![];
    assert!(plague_sim::random::pick_random(&empty).is_none());
}

/// Three regions with two ports each, the ports joined in a ring
/// 0 -> 1 -> 2 -> 3 -> 4 -> 5 -> 0.
fn three_region_world() -> (PortGraph, Vec<Region>) {
    let mut ids = RegionIdCounter::new();
    let mut us = Region::new("United States".to_owned(), Population::new(3000), &mut ids);
    let mut europe = Region::new("Europe".to_owned(), Population::new(5000), &mut ids);
    let mut china = Region::new("China".to_owned(), Population::new(10000), &mut ids);
    let ports = vec![
        us.add_port(PortID(0), 100, Point2D::new(0, 0)),
        us.add_port(PortID(1), 200, Point2D::new(3, 4)),
        europe.add_port(PortID(2), 300, Point2D::new(10, 0)),
        europe.add_port(PortID(3), 400, Point2D::new(10, 10)),
        china.add_port(PortID(4), 500, Point2D::new(20, 5)),
        china.add_port(PortID(5), 600, Point2D::new(25, 5)),
    ];
    let mut graph = PortGraph::new();
    for p in ports {
        graph.add_port(p).unwrap();
    }
    for i in 0..6 {
        graph.add_directed_connection(PortID(i), PortID((i + 1) % 6)).unwrap();
    }
    (graph, vec![us, europe, china])
}

#[test]
fn test_mediator_inter_country_transport() {
    let (graph, regions) = three_region_world();
    let mut med =
        RegionTransportationMediator::new(graph, regions, RandomTransportAllocator::new(1, 1))
            .unwrap();

    let total = statistics_sum(&med.statistics());
    for _ in 0..=20 {
        med.update();
        assert_eq!(statistics_sum(&med.statistics()), total);
    }
}

#[test]
fn test_mediator_all_transport() {
    let (mut graph, regions) = three_region_world();
    for start_id in 0..=10 {
        for end_id in 0..=10 {
            let _ = graph.add_directed_connection(PortID(start_id), PortID(end_id));
        }
    }

    let mut med =
        RegionTransportationMediator::new(graph, regions, RandomTransportAllocator::new(1, 1))
            .unwrap();

    let total = statistics_sum(&med.statistics());
    for _ in 0..=20 {
        med.update();
        assert_eq!(statistics_sum(&med.statistics()), total);
    }
}

#[test]
fn allocator_sends_nobody_without_chance_or_capacity() {
    let mut ids = RegionIdCounter::new();
    let mut r = Region::new("R".to_owned(), Population::new(100), &mut ids);
    let p = r.add_port(PortID(0), 50, Point2D::default());
    let empty_port = r.add_port(PortID(1), 0, Point2D::default());
    let mut o = Region::new("O".to_owned(), Population::new(0), &mut ids);
    let dest = o.add_port(PortID(2), 50, Point2D::new(3, 4));
    for _ in 0..20 {
        assert!(RandomTransportAllocator::new(0, 1).calculate_transport(&p, &r, vec![dest]).is_none());
        assert!(RandomTransportAllocator::new(1, 0).calculate_transport(&p, &r, vec![dest]).is_none());
        assert!(RandomTransportAllocator::new(1, 1)
            .calculate_transport(&empty_port, &r, vec![dest])
            .is_none());
        if let Some(jobs) = RandomTransportAllocator::new(1, 1).calculate_transport(&p, &r, vec![dest]) {
            assert_eq!(jobs.len(), 1);
            assert!(jobs[0].population.get_total() >= 1 && jobs[0].population.get_total() <= 50);
            assert_eq!(jobs[0].time, 5);
            assert_eq!(jobs[0].end_region, o.id());
        }
    }
}

#[test]
fn arrivals_reach_their_region() {
    let mut ids = RegionIdCounter::new();
    let mut a = Region::new("A".to_owned(), Population::new(50), &mut ids);
    let mut b = Region::new("B".to_owned(), Population::new(0), &mut ids);
    let pa = a.add_port(PortID(0), 500, Point2D::new(0, 0));
    let pb = b.add_port(PortID(1), 500, Point2D::new(0, 0));
    let (a_id, b_id) = (a.id(), b.id());
    let mut graph = PortGraph::new();
    graph.add_port(pa).unwrap();
    graph.add_port(pb).unwrap();
    graph.add_directed_connection(PortID(0), PortID(1)).unwrap();
    let mut med =
        RegionTransportationMediator::new(graph, vec![a, b], RandomTransportAllocator::new(1, 1))
            .unwrap();
    let mut before_b = 0;
    for _ in 0..60 {
        let in_transit = med.statistics().in_transit.get_total();
        med.update();
        let geo = med.geography();
        let now_b = geo.get_population(b_id).unwrap().get_total();
        // Jobs take no time on this route: whatever travelled lands in B on the next tick.
        assert_eq!(now_b, before_b + in_transit);
        before_b = now_b;
        assert_eq!(geo.get_population(a_id).unwrap().get_total() + now_b + med.statistics().in_transit.get_total(), 50);
    }
}
