use plague_sim::error::SimError;
use plague_sim::growth_functions::linear_growth;
use plague_sim::population::{Population, PopulationType};

fn pop(healthy: u32, infected: u32, dead: u32, recovered: u32) -> Population {
    Population { healthy, infected, dead, recovered }
}

#[test]
fn scale_truncate() {
    let population = pop(150, 75, 111, 2);
    let halved_population = population.scale_truncate(1, 2);
    let expected_population = pop(75, 37, 55, 1);
    assert_eq!(halved_population, expected_population);

    let trisected_population = population.scale_truncate(333333, 1000000);
    let expected_population = pop(49, 24, 36, 0);
    assert_eq!(trisected_population, expected_population);
}

#[test]
fn scale() {
    let population = pop(150, 75, 111, 2);
    let halved_population = population.scale(1, 2);
    let expected_population = pop(75, 38, 56, 1);
    assert_eq!(halved_population, expected_population);

    let trisected_population = population.scale(333333, 1000000);
    let expected_population = pop(50, 25, 37, 1);
    assert_eq!(trisected_population, expected_population);
}

#[test]
fn scale_and_truncate_differ_by_rounding() {
    let population = pop(150, 75, 111, 2);
    let rounded = population.scale(1, 2);
    let truncated = population.scale_truncate(1, 2);
    assert_eq!(rounded.healthy, truncated.healthy);
    assert_eq!(rounded.infected, truncated.infected + 1);
    assert_eq!(rounded.dead, truncated.dead + 1);
    assert_eq!(rounded.recovered, truncated.recovered);
}

#[test]
fn scale_saturates_above_u32() {
    let population = pop(u32::MAX, 10, 0, 1);
    assert_eq!(population.scale(3, 1), pop(u32::MAX, 30, 0, 3));
    assert_eq!(population.scale_truncate(3, 1), pop(u32::MAX, 30, 0, 3));
}

#[test]
fn new_random() {
    let initial_sizes: [u32; 9] = [0, 1, 3, 50, 100, 700, 15000, 8300000, 4_000_000_000];
    for size in initial_sizes {
        for _ in 0..30 {
            let random_pop = Population::new_random(size);
            assert_eq!(random_pop.get_total(), size);
        }
    }
}

#[test]
fn new_random_largest_size() {
    for _ in 0..30 {
        assert_eq!(Population::new_random(u32::MAX).get_total(), u32::MAX);
    }
}

#[test]
fn new_random_splits_the_population() {
    let mut all_healthy = true;
    for _ in 0..30 {
        let p = Population::new_random(1000);
        if p.healthy != 1000 {
            all_healthy = false;
        }
    }
    assert!(!all_healthy);
}

#[test]
fn new_is_all_healthy() {
    assert_eq!(Population::new(42), pop(42, 0, 0, 0));
}

#[test]
fn totals() {
    let p = pop(150, 75, 111, 2);
    assert_eq!(p.get_total(), 338);
    assert_eq!(p.get_alive(), 227);
    assert_eq!(p.add(pop(1, 2, 3, 4)), pop(151, 77, 114, 6));
}

#[test]
fn emigrate_succeeds() {
    let p = pop(20, 0, 0, 0);
    assert_eq!(p.emigrate(pop(5, 0, 0, 0)), Ok(pop(15, 0, 0, 0)));
    assert_eq!(pop(5, 6, 7, 8).emigrate(pop(5, 6, 7, 8)), Ok(pop(0, 0, 0, 0)));
}

#[test]
fn emigrate_insufficient() {
    let p = pop(10, 0, 0, 0);
    assert_eq!(p.emigrate(pop(15, 0, 0, 0)), Err(SimError::InsufficientPopulation));
    assert_eq!(pop(10, 3, 3, 3).emigrate(pop(0, 0, 0, 4)), Err(SimError::InsufficientPopulation));
    assert_eq!(pop(10, 3, 3, 3).emigrate(pop(0, 0, 4, 0)), Err(SimError::InsufficientPopulation));
    assert_eq!(pop(10, 3, 3, 3).emigrate(pop(0, 4, 0, 0)), Err(SimError::InsufficientPopulation));
}

#[test]
fn linear_growth_moves_healthy_to_infected() {
    assert_eq!(linear_growth(pop(10, 1, 2, 3), 4), pop(6, 5, 2, 3));
    assert_eq!(linear_growth(pop(3, 1, 2, 3), 4), pop(0, 4, 2, 3));
    assert_eq!(linear_growth(pop(10, u32::MAX - 2, 0, 0), 5), pop(8, u32::MAX, 0, 0));
}

#[test]
fn population_type_reads_and_replaces() {
    let mut p = pop(1, 2, 3, 4);
    assert_eq!(p.population(), pop(1, 2, 3, 4));
    p.set_population(pop(5, 6, 7, 8));
    assert_eq!(p, pop(5, 6, 7, 8));
}

#[test]
fn from_draws_fills_states_in_order() {
    assert_eq!(Population::from_draws(10, 4, 3, 2), pop(4, 2, 3, 1));
    assert_eq!(Population::from_draws(10, 10, 0, 0), pop(10, 0, 0, 0));
    assert_eq!(Population::from_draws(0, 0, 0, 0), pop(0, 0, 0, 0));
}

#[test]
fn new_random_draws_stay_within_what_is_left() {
    for _ in 0..30 {
        let p = Population::new_random(100);
        assert!(p.healthy <= 100);
        assert!(p.dead <= 100 - p.healthy);
        assert!(p.infected <= 100 - p.healthy - p.dead);
        assert_eq!(p.recovered, 100 - p.healthy - p.dead - p.infected);
    }
}
