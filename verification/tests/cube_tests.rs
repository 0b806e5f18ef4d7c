use fm_chain::cube::{Cube, Move};

fn all_moves() -> Vec<Move> {
    let mut moves = Vec::new();
    for n in 1..=3u8 {
        moves.push(Move::U(n));
        moves.push(Move::D(n));
        moves.push(Move::L(n));
        moves.push(Move::R(n));
        moves.push(Move::F(n));
        moves.push(Move::B(n));
    }
    moves
}

#[test]
fn move_then_inverse_returns_to_solved() {
    for m in all_moves() {
        let mut cube = Cube::solved();
        cube.apply_move(m);
        cube.apply_move(m.inverse());
        assert!(cube.is_solved(), "move then inverse should solve the cube");
    }
    assert_eq!(all_moves().len(), 18);
}

#[test]
fn quarter_turn_four_times_returns_to_solved_and_only_then() {
    let quarters = [
        Move::U(1),
        Move::D(1),
        Move::L(1),
        Move::R(1),
        Move::F(1),
        Move::B(1),
    ];
    for m in quarters {
        let mut cube = Cube::solved();
        for step in 1..=4 {
            cube.apply_move(m);
            if step < 4 {
                assert!(!cube.is_solved(), "solved too early at step {}", step);
            } else {
                assert!(cube.is_solved(), "not solved after four quarter turns");
            }
        }
    }
}

#[test]
fn inverse_swaps_quarter_turns_and_keeps_half_turns() {
    assert_eq!(Move::U(1).inverse(), Move::U(3));
    assert_eq!(Move::U(3).inverse(), Move::U(1));
    assert_eq!(Move::F(2).inverse(), Move::F(2));
    assert_eq!(Move::R(1).inverse(), Move::R(3));
}

#[test]
fn combine_merges_same_face_only() {
    assert_eq!(Move::U(1).combine(&Move::U(1)), Some(Move::U(2)));
    assert_eq!(Move::U(1).combine(&Move::U(3)), Some(Move::U(0)));
    assert_eq!(Move::U(2).combine(&Move::U(3)), Some(Move::U(1)));
    assert_eq!(Move::U(1).combine(&Move::D(1)), None);
}

#[test]
fn half_turn_twice_returns_to_solved() {
    let mut cube = Cube::solved();
    cube.apply_move(Move::R(2));
    assert!(!cube.is_solved());
    cube.apply_move(Move::R(2));
    assert!(cube.is_solved());
}

#[test]
fn sexy_move_has_order_six() {
    let mut cube = Cube::solved();
    for rep in 1..=6 {
        cube.apply_move(Move::R(1));
        cube.apply_move(Move::U(1));
        cube.apply_move(Move::R(3));
        cube.apply_move(Move::U(3));
        if rep < 6 {
            assert!(!cube.is_solved(), "solved too early at repetition {}", rep);
        }
    }
    assert!(cube.is_solved());
}
