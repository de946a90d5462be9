use protein_folding_2dhp::conformation::{Conformation, Direction};
use protein_folding_2dhp::config::ACOConfig;
use protein_folding_2dhp::pheromones::Pheromones;
use protein_folding_2dhp::protein::parse_protein_sequence;

fn config_with(evaporation: u32, alpha: u32, beta: u32) -> ACOConfig {
    ACOConfig {
        ant_count: 5,
        max_iter: 10,
        no_impr_max: 5,
        evaporation,
        alpha,
        beta,
        neutral_mutation_rate: 0,
    }
}

#[test]
fn new_table_starts_at_initial_level() {
    let p = parse_protein_sequence("HHPHH").unwrap();
    let ph = Pheromones::new(&p, config_with(500_000, 1, 1));
    assert_eq!(ph.rows(), 3);
    for i in 0..3 {
        for d in [Direction::Straight, Direction::Left, Direction::Right] {
            assert_eq!(ph.get(i, d), 300_000);
        }
    }
}

#[test]
fn get_weight_multiplies_pheromone_and_heuristic() {
    let p = parse_protein_sequence("HHPHH").unwrap();
    let ph = Pheromones::new(&p, config_with(500_000, 1, 1));
    // 0.3 (in millionths) times h = 2: 600_000
    assert_eq!(ph.get_weight(0, Direction::Left, 2), 600_000);
    // alpha = 2: 0.3^2 = 0.09, times h = 1
    let ph2 = Pheromones::new(&p, config_with(500_000, 2, 1));
    assert_eq!(ph2.get_weight(1, Direction::Straight, 1), 90_000);
    // beta = 0: the heuristic is ignored
    let ph3 = Pheromones::new(&p, config_with(500_000, 1, 0));
    assert_eq!(ph3.get_weight(2, Direction::Right, 7), 300_000);
}

#[test]
fn get_weight_with_capped_exponents() {
    let p = parse_protein_sequence("HHPHH").unwrap();
    // alpha = 0: pheromone part is one, weight is h^beta
    let ph = Pheromones::new(&p, config_with(500_000, 0, 2));
    assert_eq!(ph.get_weight(0, Direction::Left, 3), 9_000_000);
}

#[test]
fn update_with_empty_population_only_evaporates() {
    let p = parse_protein_sequence("HHPHH").unwrap();
    let mut ph = Pheromones::new(&p, config_with(500_000, 1, 1));
    let none: Vec<Conformation> = Vec::new();
    ph.update(&none);
    for i in 0..3 {
        for d in [Direction::Straight, Direction::Left, Direction::Right] {
            // 0.3 times (1 - 0.5), exactly
            assert_eq!(ph.get(i, d), 150_000);
        }
    }
}

#[test]
fn update_deposits_normalised_fitness_on_used_moves() {
    let p = parse_protein_sequence("HHPHH").unwrap();
    let config = config_with(500_000, 1, 1);
    let mut ph = Pheromones::new(&p, config);
    let mut conf = Conformation::new(&p, config);
    assert!(conf.place_move(Direction::Left));
    assert!(conf.place_move(Direction::Left));
    assert!(conf.place_move(Direction::Straight));
    assert_eq!(conf.evaluate(), 1);
    ph.update(&[conf]);
    // evaporated to 150_000 everywhere; the fold has fitness 1 and the
    // sequence has 4 hydrophobic residues, so its moves receive 250_000.
    assert_eq!(ph.get(0, Direction::Left), 400_000);
    assert_eq!(ph.get(1, Direction::Left), 400_000);
    assert_eq!(ph.get(2, Direction::Straight), 400_000);
    // every other entry is left at the evaporated level
    assert_eq!(ph.get(0, Direction::Straight), 150_000);
    assert_eq!(ph.get(0, Direction::Right), 150_000);
    assert_eq!(ph.get(1, Direction::Straight), 150_000);
    assert_eq!(ph.get(1, Direction::Right), 150_000);
    assert_eq!(ph.get(2, Direction::Left), 150_000);
    assert_eq!(ph.get(2, Direction::Right), 150_000);
}

#[test]
fn update_keeps_entries_nonnegative_under_full_evaporation() {
    let p = parse_protein_sequence("HHPHH").unwrap();
    let config = config_with(1_000_000, 1, 1);
    let mut ph = Pheromones::new(&p, config);
    let none: Vec<Conformation> = Vec::new();
    ph.update(&none);
    for i in 0..3 {
        for d in [Direction::Straight, Direction::Left, Direction::Right] {
            assert_eq!(ph.get(i, d), 0);
        }
    }
    // a second update must keep every entry at a non-negative level
    ph.update(&none);
    for i in 0..3 {
        for d in [Direction::Straight, Direction::Left, Direction::Right] {
            assert_eq!(ph.get(i, d), 0);
        }
    }
}

#[test]
fn update_with_no_hydrophobic_residues_deposits_nothing() {
    let p = parse_protein_sequence("PPPP").unwrap();
    let config = config_with(500_000, 1, 1);
    let mut ph = Pheromones::new(&p, config);
    let mut conf = Conformation::new(&p, config);
    assert!(conf.place_move(Direction::Straight));
    assert!(conf.place_move(Direction::Left));
    ph.update(&[conf]);
    for i in 0..2 {
        for d in [Direction::Straight, Direction::Left, Direction::Right] {
            assert_eq!(ph.get(i, d), 150_000);
        }
    }
}
