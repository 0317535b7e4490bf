use rubik::cube::Cube;
use rubik::cube::Face;
use rubik::cube::RotationDirection;
use rubik::heuristic::PatternDB;
use rubik::heuristic::combined_heuristic;
use rubik::ida_star::ida_star;
use rubik::ida_star::search;

fn solved() -> Cube {
    Cube::new(None).unwrap()
}

fn replay(start: &Cube, moves: &Vec<(Face, RotationDirection)>) -> Cube {
    let mut c = start.clone();
    for &(f, d) in moves.iter() {
        c.rotate(f, d);
    }
    c
}

#[test]
fn solve_solved_returns_empty_sequence() {
    let db = PatternDB::generate_pdb_to_depth(1);
    let solution = ida_star(&solved(), &db);
    assert!(solution.is_some());
    assert_eq!(solution.unwrap().len(), 0);
}

#[test]
fn solve_one_quarter_turn() {
    let db = PatternDB::generate_pdb_to_depth(1);
    let scrambled = solved().apply_move(Face::U, RotationDirection::Clockwise);
    assert!(combined_heuristic(&scrambled, &db) > 0);
    let solution = ida_star(&scrambled, &db).unwrap();
    assert_eq!(solution.len(), 1);
    assert!(replay(&scrambled, &solution).is_solved());
}

#[test]
fn search_never_expands_a_visited_state() {
    // One move from solved, with a generous bound and a depth cap of 1: the
    // only way to succeed is the direct undoing move. Marking the solved
    // state as already visited must therefore make the search fail, while
    // an empty visited set finds the one-move solution.
    let db = PatternDB::generate_pdb_to_depth(1);
    let scrambled = solved().apply_move(Face::U, RotationDirection::Clockwise);

    let mut path: Vec<(Face, RotationDirection)> = Vec::new();
    let mut visited = vec![solved()];
    let blocked = search(&scrambled, 0, 100000, &mut path, &mut visited, 1, &db);
    assert_eq!(blocked, usize::MAX);
    assert_eq!(path.len(), 0);

    let mut fresh: Vec<rubik::cube::Cube> = Vec::new();
    let found = search(&scrambled, 0, 100000, &mut path, &mut fresh, 1, &db);
    assert_eq!(found, 0);
    assert_eq!(path.len(), 1);
    assert!(replay(&scrambled, &path).is_solved());
}

#[test]
fn solve_after_three_move_scramble() {
    let db = PatternDB::generate_pdb_to_depth(1);
    let mut scrambled = solved();
    scrambled.rotate(Face::U, RotationDirection::Clockwise);
    scrambled.rotate(Face::R, RotationDirection::Clockwise);
    scrambled.rotate(Face::F, RotationDirection::CounterClockwise);
    let solution = ida_star(&scrambled, &db).unwrap();
    assert!(solution.len() <= 5);
    for w in solution.windows(2) {
        assert_ne!(w[0].0, w[1].0);
    }
    assert!(replay(&scrambled, &solution).is_solved());
}

#[test]
fn solve_after_short_fixed_scramble() {
    let db = PatternDB::generate_pdb_to_depth(1);
    let mut scrambled = solved();
    scrambled.rotate(Face::U, RotationDirection::Clockwise);
    scrambled.rotate(Face::R, RotationDirection::Clockwise);
    scrambled.rotate(Face::R, RotationDirection::CounterClockwise);
    let solution = ida_star(&scrambled, &db).unwrap();
    assert!(solution.len() <= 5);
    assert!(replay(&scrambled, &solution).is_solved());
}
