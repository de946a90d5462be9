use protein_folding_2dhp::aco::SilentLogger;
use protein_folding_2dhp::aco::{aco_protein_folding_2dhp, build_ant, local_search_loop};
use protein_folding_2dhp::conformation::{Conformation, Direction};
use protein_folding_2dhp::config::ACOConfig;
use protein_folding_2dhp::pheromones::Pheromones;
use protein_folding_2dhp::protein::{parse_protein_sequence, AminoAcid};

fn config_zero_neutral() -> ACOConfig {
    ACOConfig {
        ant_count: 5,
        max_iter: 10,
        no_impr_max: 5,
        evaporation: 500_000,
        alpha: 1,
        beta: 1,
        neutral_mutation_rate: 0,
    }
}

#[test]
fn direction_as_index() {
    assert_eq!(Direction::Straight.as_index(), 0);
    assert_eq!(Direction::Left.as_index(), 1);
    assert_eq!(Direction::Right.as_index(), 2);
}

#[test]
fn direction_char() {
    assert_eq!(Direction::Straight.char(), 'S');
    assert_eq!(Direction::Left.char(), 'L');
    assert_eq!(Direction::Right.char(), 'R');
}

#[test]
fn direction_iter_and_vec() {
    let i = Direction::iter();
    let v = Direction::vec();
    assert_eq!(i, v);
    assert_eq!(v.len(), 3);
    assert_eq!(v[0], Direction::Straight);
    assert_eq!(v[1], Direction::Left);
    assert_eq!(v[2], Direction::Right);
}

#[test]
fn parse_accepts_h_and_p() {
    let p = parse_protein_sequence("HHPHH").unwrap();
    assert_eq!(
        p,
        vec![
            AminoAcid::Hydrophobic,
            AminoAcid::Hydrophobic,
            AminoAcid::Polar,
            AminoAcid::Hydrophobic,
            AminoAcid::Hydrophobic
        ]
    );
}

#[test]
fn parse_rejects_unknown_symbol() {
    assert!(parse_protein_sequence("HHXPH").is_err());
    assert!(parse_protein_sequence("hp").is_err());
}

#[test]
fn new_conformation_is_empty() {
    let p = parse_protein_sequence("HHPHH").unwrap();
    let conf = Conformation::new(&p, config_zero_neutral());
    assert!(!conf.is_fully_grown());
    assert_eq!(conf.get(0), None);
    assert_eq!(conf.get(1), None);
    assert_eq!(conf.get(2), None);
    assert_eq!(conf.evaluate(), 0);
}

#[test]
fn evaluate_exact_contact_count() {
    // r0 (0,0) H, r1 (1,0) H, then L -> r2 (1,1), L -> r3 (0,1), S -> r4 (-1,1).
    // The only non-sequential H-H adjacency is r0-r3... r3 is polar, so check:
    // H H P H H -> hydrophobic at 0, 1, 3, 4; r3 (0,1) is residue 3 (H),
    // adjacent to r0 (0,0) with |3 - 0| > 1: exactly one contact.
    let p = parse_protein_sequence("HHPHH").unwrap();
    let mut conf = Conformation::new(&p, config_zero_neutral());
    assert!(conf.place_move(Direction::Left));
    assert!(conf.place_move(Direction::Left));
    assert!(conf.place_move(Direction::Straight));
    assert!(conf.is_fully_grown());
    assert_eq!(conf.evaluate(), 1);
}

#[test]
fn evaluate_straight_line_has_no_contacts() {
    let p = parse_protein_sequence("HHHHH").unwrap();
    let mut conf = Conformation::new(&p, config_zero_neutral());
    assert!(conf.place_move(Direction::Straight));
    assert!(conf.place_move(Direction::Straight));
    assert!(conf.place_move(Direction::Straight));
    assert_eq!(conf.evaluate(), 0);
}

#[test]
fn evaluate_counts_each_contact_pair_once() {
    // A U-shaped fold of six hydrophobic residues: S, L, L, S walks
    // through (2,0), (2,1), (1,1), (0,1).  Exactly two non-sequential
    // adjacencies arise, r1 (1,0) with r4 (1,1) and r0 (0,0) with r5 (0,1),
    // and each pair is counted once.
    let p = parse_protein_sequence("HHHHHH").unwrap();
    let mut conf = Conformation::new(&p, config_zero_neutral());
    for d in [Direction::Straight, Direction::Left, Direction::Left, Direction::Straight] {
        assert!(conf.place_move(d));
    }
    assert_eq!(conf.evaluate(), 2);
}

#[test]
fn place_move_rejects_overlap() {
    // L, L, L would put residue 4 back on (0,0), already held by residue 0.
    let p = parse_protein_sequence("HHPHH").unwrap();
    let mut conf = Conformation::new(&p, config_zero_neutral());
    assert!(conf.place_move(Direction::Left));
    assert!(conf.place_move(Direction::Left));
    assert!(!conf.place_move(Direction::Left));
    assert!(!conf.is_fully_grown());
    assert_eq!(conf.get(2), None);
}

#[test]
fn place_move_rejects_dead_end_for_non_final_residue() {
    // L,S,L,S,L walks to (-1,1); the next L would step into (0,1), whose
    // four neighbours (1,1), (-1,1), (0,2), (0,0) are all occupied by
    // earlier residues.  With nine residues that cell is not the final one,
    // so the move must be rejected as a dead end.
    let p = parse_protein_sequence("HHHHHHHHH").unwrap();
    let mut conf = Conformation::new(&p, config_zero_neutral());
    for d in [
        Direction::Left,
        Direction::Straight,
        Direction::Left,
        Direction::Straight,
        Direction::Left,
    ] {
        assert!(conf.place_move(d));
    }
    assert!(!conf.place_move(Direction::Left));
}

#[test]
fn place_move_allows_walled_cell_for_final_residue() {
    // The same walk, but with eight residues the walled cell holds the last
    // residue of the chain, where the dead-end rule does not apply.
    let p = parse_protein_sequence("HHHHHHHH").unwrap();
    let mut conf = Conformation::new(&p, config_zero_neutral());
    for d in [
        Direction::Left,
        Direction::Straight,
        Direction::Left,
        Direction::Straight,
        Direction::Left,
    ] {
        assert!(conf.place_move(d));
    }
    assert!(conf.place_move(Direction::Left));
    assert!(conf.is_fully_grown());
}

#[test]
fn is_valid_is_idempotent() {
    let p = parse_protein_sequence("HHPHH").unwrap();
    let mut conf = Conformation::new(&p, config_zero_neutral());
    assert!(conf.place_move(Direction::Left));
    assert!(conf.place_move(Direction::Left));
    let first = conf.is_valid();
    let second = conf.is_valid();
    assert_eq!(first, second);
    assert!(first);
}

#[test]
fn to_string_encodes_moves() {
    let p = parse_protein_sequence("HHPHH").unwrap();
    let mut conf = Conformation::new(&p, config_zero_neutral());
    assert!(conf.place_move(Direction::Left));
    assert!(conf.place_move(Direction::Left));
    assert!(conf.place_move(Direction::Straight));
    assert_eq!(conf.to_string(), "LLS".to_string());
}

#[test]
fn rewind_halves_cursor_and_clears_tail() {
    let p = parse_protein_sequence("HHPHH").unwrap();
    let mut conf = Conformation::new(&p, config_zero_neutral());
    assert!(conf.place_move(Direction::Left));
    assert!(conf.place_move(Direction::Left));
    assert!(conf.place_move(Direction::Straight));
    conf.rewind();
    // cursor 3 -> 1: slot 0 kept, slots 1 and 2 cleared
    assert_eq!(conf.get(0), Some(Direction::Left));
    assert_eq!(conf.get(1), None);
    assert_eq!(conf.get(2), None);
    conf.rewind();
    // cursor 1 -> 0: everything cleared
    assert_eq!(conf.get(0), None);
}

#[test]
fn rewind_of_empty_conformation_is_a_no_op() {
    let p = parse_protein_sequence("HHPHH").unwrap();
    let mut conf = Conformation::new(&p, config_zero_neutral());
    conf.rewind();
    assert_eq!(conf.get(0), None);
    assert_eq!(conf.get(1), None);
    assert_eq!(conf.get(2), None);
    assert!(!conf.is_fully_grown());
}

#[test]
fn grow_completes_single_free_residue() {
    let p = parse_protein_sequence("HPH").unwrap();
    let config = config_zero_neutral();
    let pheromones = Pheromones::new(&p, config);
    let mut conf = Conformation::new(&p, config);
    assert!(conf.grow(&pheromones));
    assert!(conf.is_fully_grown());
    let s = conf.to_string();
    assert!(s == "S" || s == "L" || s == "R");
    assert_eq!(conf.evaluate(), 0);
    // growing a fully grown conformation succeeds and changes nothing
    assert!(conf.grow(&pheromones));
    assert_eq!(conf.to_string(), s);
}

#[test]
fn local_search_never_decreases_fitness() {
    let p = parse_protein_sequence("HHPHH").unwrap();
    let mut conf = Conformation::new(&p, config_zero_neutral());
    assert!(conf.place_move(Direction::Straight));
    assert!(conf.place_move(Direction::Straight));
    assert!(conf.place_move(Direction::Straight));
    let before = conf.evaluate();
    let improved = conf.local_search();
    let after = conf.evaluate();
    assert!(after >= before);
    assert_eq!(improved, after > before);
    let mid = after;
    let improved_again = conf.point_mutation();
    let after_point = conf.evaluate();
    assert!(after_point >= mid);
    assert_eq!(improved_again, after_point > mid);
    let before_macro = after_point;
    conf.macro_mutation_neightbourhood();
    assert!(conf.evaluate() >= before_macro);
}

#[test]
fn local_search_loop_keeps_fitness_monotone() {
    let p = parse_protein_sequence("HHPHH").unwrap();
    let mut conf = Conformation::new(&p, config_zero_neutral());
    assert!(conf.place_move(Direction::Straight));
    assert!(conf.place_move(Direction::Straight));
    assert!(conf.place_move(Direction::Straight));
    let before = conf.evaluate();
    local_search_loop(&mut conf, 5);
    assert!(conf.evaluate() >= before);
}

#[test]
fn build_ant_returns_complete_conformation() {
    let p = parse_protein_sequence("HHPHH").unwrap();
    let config = config_zero_neutral();
    let pheromones = Pheromones::new(&p, config);
    let (conf, fit) = build_ant(&p, config, &pheromones);
    assert!(conf.is_fully_grown());
    assert!(conf.is_valid());
    assert_eq!(conf.evaluate(), fit);
}

#[test]
fn colony_on_hhphh_reaches_one_contact() {
    let p = parse_protein_sequence("HHPHH").unwrap();
    let (best, fit) = aco_protein_folding_2dhp(&p, config_zero_neutral(), SilentLogger);
    let fit = fit.unwrap();
    assert!(fit >= 1);
    assert!(best.is_fully_grown());
    assert_eq!(best.evaluate(), fit);
}

#[test]
fn colony_on_three_residues_terminates_with_zero_fitness() {
    let p = parse_protein_sequence("HPH").unwrap();
    let (best, fit) = aco_protein_folding_2dhp(&p, config_zero_neutral(), SilentLogger);
    assert_eq!(fit, Some(0));
    assert!(best.is_fully_grown());
    let s = best.to_string();
    assert!(s == "S" || s == "L" || s == "R");
}

#[test]
fn colony_without_iterations_returns_no_fitness() {
    let p = parse_protein_sequence("HPH").unwrap();
    let mut config = config_zero_neutral();
    config.max_iter = 0;
    let (_, fit) = aco_protein_folding_2dhp(&p, config, SilentLogger);
    assert_eq!(fit, None);
}
