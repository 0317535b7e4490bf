use rubik::cube::Cube;
use rubik::cube::CubeError;
use rubik::cube::Face;
use rubik::cube::RotationDirection;

const FACES: [Face; 6] = [Face::U, Face::D, Face::R, Face::L, Face::F, Face::B];
const AMOUNTS: [RotationDirection; 3] = [
    RotationDirection::Clockwise,
    RotationDirection::CounterClockwise,
    RotationDirection::DoubleTurn,
];

fn scrambled() -> Cube {
    let mut c = Cube::new(None).unwrap();
    c.rotate(Face::U, RotationDirection::Clockwise);
    c.rotate(Face::R, RotationDirection::DoubleTurn);
    c.rotate(Face::F, RotationDirection::CounterClockwise);
    c.rotate(Face::D, RotationDirection::Clockwise);
    c
}

#[test]
fn solved_cube_is_solved() {
    let c = Cube::new(None).unwrap();
    assert!(c.is_solved());
    for i in 0..54 {
        assert_eq!(c.state[i], (i / 9) as u8);
    }
}

#[test]
fn uniform_but_permuted_blocks_count_as_solved() {
    // The solved check only asks each block to be internally uniform; a
    // state whose uniform blocks do not sit on their canonical faces still
    // reports solved.
    let all_zero = [0u8; 54];
    let c = Cube::new(Some(&all_zero[..])).unwrap();
    assert!(c.is_solved());
}

#[test]
fn construct_rejects_wrong_lengths() {
    let short = [0u8; 53];
    let long = [0u8; 55];
    assert!(matches!(
        Cube::new(Some(&short[..])),
        Err(CubeError::InvalidStateLength)
    ));
    assert!(matches!(
        Cube::new(Some(&long[..])),
        Err(CubeError::InvalidStateLength)
    ));
}

#[test]
fn construct_copies_verbatim() {
    let mut arr = [0u8; 54];
    for i in 0..54 {
        arr[i] = (i % 6) as u8;
    }
    let c = Cube::new(Some(&arr[..])).unwrap();
    for i in 0..54 {
        assert_eq!(c.state[i], arr[i]);
    }
}

#[test]
fn opposite_amounts() {
    assert_eq!(
        RotationDirection::Clockwise.opposite(),
        RotationDirection::CounterClockwise
    );
    assert_eq!(
        RotationDirection::CounterClockwise.opposite(),
        RotationDirection::Clockwise
    );
    assert_eq!(
        RotationDirection::DoubleTurn.opposite(),
        RotationDirection::DoubleTurn
    );
}

#[test]
fn move_then_opposite_round_trips() {
    for &f in FACES.iter() {
        for &a in AMOUNTS.iter() {
            let start = scrambled();
            let once = start.apply_move(f, a);
            let back = once.apply_move(f, a.opposite());
            assert_eq!(back.state, start.state);
        }
    }
}

#[test]
fn four_clockwise_turns_restore_state() {
    for &f in FACES.iter() {
        let start = scrambled();
        let mut c = start.clone();
        for _ in 0..4 {
            c.rotate(f, RotationDirection::Clockwise);
        }
        assert_eq!(c.state, start.state);
    }
}

#[test]
fn apply_move_leaves_receiver_unchanged() {
    let start = scrambled();
    let snapshot = start.state.clone();
    let turned = start.apply_move(Face::B, RotationDirection::Clockwise);
    assert_eq!(start.state, snapshot);
    assert_ne!(turned.state, snapshot);

    let mut in_place = start.clone();
    in_place.rotate(Face::B, RotationDirection::Clockwise);
    assert_eq!(in_place.state, turned.state);
}

#[test]
fn quarter_turn_moves_expected_strips() {
    let mut c = Cube::new(None).unwrap();
    c.rotate(Face::U, RotationDirection::Clockwise);
    // The top rows of the side faces cycle: Front takes Right's color,
    // Left takes Front's, Back takes Left's, Right takes Back's.
    for p in 0..3 {
        assert_eq!(c.state[36 + p], 2);
        assert_eq!(c.state[27 + p], 4);
        assert_eq!(c.state[45 + p], 3);
        assert_eq!(c.state[18 + p], 5);
    }
    // The turned face itself and the Down face keep their colors.
    for p in 0..9 {
        assert_eq!(c.state[p], 0);
        assert_eq!(c.state[9 + p], 1);
    }
}
