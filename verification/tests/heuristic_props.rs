use rubik::cube::Cube;
use rubik::cube::Face;
use rubik::cube::RotationDirection;
use rubik::heuristic::PatternDB;
use rubik::heuristic::combined_heuristic;
use rubik::heuristic::corner_orientation_heuristic;
use rubik::heuristic::corner_permutation_heuristic;
use rubik::heuristic::edge_orientation_heuristic;
use rubik::heuristic::edge_permutation_heuristic;
use rubik::heuristic::heuristic_pdb;
use rubik::heuristic::manhattan_distance;
use rubik::heuristic::misplaced_edges;
use rubik::heuristic::misplaced_stickers;
use rubik::heuristic::parity_heuristic;
use rubik::heuristic::unfinished_faces;

fn solved() -> Cube {
    Cube::new(None).unwrap()
}

fn up_clockwise() -> Cube {
    solved().apply_move(Face::U, RotationDirection::Clockwise)
}

#[test]
fn estimators_vanish_on_solved() {
    let c = solved();
    assert_eq!(misplaced_stickers(&c), 0);
    assert_eq!(manhattan_distance(&c), 0);
    assert_eq!(unfinished_faces(&c), 0);
    assert_eq!(misplaced_edges(&c), 0);
    assert_eq!(edge_orientation_heuristic(&c), 0);
    assert_eq!(corner_orientation_heuristic(&c), 0);
    assert_eq!(edge_permutation_heuristic(&c), 0);
    assert_eq!(corner_permutation_heuristic(&c), 0);
    assert_eq!(parity_heuristic(&c), 0);
}

#[test]
fn combined_heuristic_zero_on_solved() {
    let db = PatternDB::generate_pdb_to_depth(1);
    assert_eq!(combined_heuristic(&solved(), &db), 0);
}

#[test]
fn estimators_on_one_quarter_turn() {
    let c = up_clockwise();
    assert_eq!(misplaced_stickers(&c), 12);
    assert_eq!(manhattan_distance(&c), 24);
    assert_eq!(unfinished_faces(&c), 4);
    assert_eq!(misplaced_edges(&c), 8);
    assert_eq!(edge_orientation_heuristic(&c), 0);
    assert_eq!(corner_orientation_heuristic(&c), 16);
    assert_eq!(edge_permutation_heuristic(&c), 8);
    assert_eq!(corner_permutation_heuristic(&c), 16);
}

#[test]
fn combined_heuristic_positive_off_solved() {
    let db = PatternDB::generate_pdb_to_depth(1);
    let c = up_clockwise();
    let h = combined_heuristic(&c, &db);
    assert!(h > 0);
    assert_eq!(h, 24);
}

#[test]
fn estimators_on_single_odd_sticker() {
    let mut arr = [0u8; 54];
    arr[0] = 1;
    let c = Cube::new(Some(&arr[..])).unwrap();
    assert_eq!(misplaced_stickers(&c), 46);
    assert_eq!(manhattan_distance(&c), 136);
    assert_eq!(unfinished_faces(&c), 1);
    assert_eq!(parity_heuristic(&c), 1);
}

#[test]
fn estimators_accept_out_of_range_colors() {
    // Construction does not validate the color distribution; estimators
    // still evaluate. A color of 9 falls outside every face group, so the
    // two edge pairs sampling position 1 disagree in group and in color.
    let mut arr = [0u8; 54];
    arr[1] = 9;
    let c = Cube::new(Some(&arr[..])).unwrap();
    assert_eq!(edge_orientation_heuristic(&c), 2);
    assert_eq!(misplaced_edges(&c), 2);
}

#[test]
fn pdb_records_solved_at_depth_zero() {
    let db = PatternDB::generate_pdb_to_depth(0);
    assert_eq!(heuristic_pdb(&solved(), &db), 0);
    assert_eq!(heuristic_pdb(&up_clockwise(), &db), 10);
}

#[test]
fn pdb_records_first_seen_depths() {
    let db = PatternDB::generate_pdb_to_depth(2);
    assert_eq!(heuristic_pdb(&solved(), &db), 0);
    assert_eq!(heuristic_pdb(&up_clockwise(), &db), 1);
    let two_moves = up_clockwise().apply_move(Face::R, RotationDirection::Clockwise);
    assert_eq!(heuristic_pdb(&two_moves, &db), 2);
}

#[test]
fn pdb_absent_state_yields_default() {
    let db = PatternDB::generate_pdb_to_depth(1);
    // A state two moves out is not recorded at depth bound 1.
    let two_moves = up_clockwise().apply_move(Face::R, RotationDirection::Clockwise);
    assert_eq!(heuristic_pdb(&two_moves, &db), 10);
    // A color distribution no move sequence produces is never recorded.
    let mut arr = [0u8; 54];
    arr[0] = 1;
    let odd = Cube::new(Some(&arr[..])).unwrap();
    assert_eq!(heuristic_pdb(&odd, &db), 10);
}
