use fm_chain::cube::Move;
use fm_chain::utils::{
    calculate_hash, cleanup_scramble, format_data, format_moves, invert_sequence, parse_moves,
    scramble_from_hash, verify_solution,
};
use sha2::Digest;

#[test]
fn test_cleanup_scramble() {
    let mut scramble = vec![
        Move::R(1),
        Move::U(1),
        Move::U(2),
        Move::F(2),
        Move::F(2),
        Move::L(1),
        Move::L(3),
        Move::B(2),
        Move::B(3),
    ];

    cleanup_scramble(&mut scramble);

    let expected = vec![Move::R(1), Move::U(3), Move::B(1)];

    assert_eq!(scramble, expected);
}

#[test]
fn test_verify_solution_ok() {
    let scramble_raw = "R' U' F L2 B2 L2 F2 D U L2 U F2 U' R D2 U' F' L D2 F D' U2 B2 U' R' U' F";
    let scramble = parse_moves(scramble_raw);
    let solves_raw = [
        "D L' U F2 B2 L2 U2 B2 D' L2 F2 U2 B2 F' U' L2 F2 U B' U R D'",
        "F2 D2 F2 L R2 U2 L B2 U2 L B2 L' B2 U2 F' L R2 F2 D2 L F D' L' B2 U",
        "B D' R' D L' D' R F' D B2 D' F D' B L' B' L2 B R' U2 D2 R D' B2 L' U",
        "B' U' L R F D' R2 D L2 F2 U' B2 L R D2 L' R B2 U' R' U L2 U D' R2 D2 F2",
        "D2 F2 U D B2 U' D F2 B D2 R2 B D2 R2 F D2 L B R2 D2 F' L' F' D' L' B2 U",
        "B L' B2 D2 L F' L B L' F L' B' L B L2 R' U2 D2 R2 U2 R' D' R U2 R' B2 L' U",
        "L F' L' B' L F L' D2 L U R B L U' L' D2 L U D' L2 B2 R' B L B' R2 D R'",
        "L F2 L' D2 F2 L' B2 U2 R' U2 B2 L2 R2 U2 B2 F' R2 L U D' L2 U' D' L F D' L' B2 U",
        "B' L U2 R F D2 R U2 R2 U B2 R2 U' R2 U2 R2 U' R2 U' F2 U R' F2 R U2 D R2 B2 U2",
    ];

    for solve_raw in solves_raw {
        let mut solve = parse_moves(solve_raw);
        assert!(
            verify_solution(&scramble, &solve),
            "[{}] Moves should solve cube",
            solve_raw
        );

        solve.extend(vec![Move::U(1)]);
        assert!(
            !verify_solution(&scramble, &solve),
            "[{} U] Moves should not solve cube",
            solve_raw
        );
    }
}

#[test]
fn verify_solution_agrees_with_reference_solver() {
    let scramble_raw = "R' U' F L2 B2 L2 F2 D U L2 U F2 U' R D2 U' F' L D2 F D' U2 B2 U' R' U' F";
    let good = "D L' U F2 B2 L2 U2 B2 D' L2 F2 U2 B2 F' U' L2 F2 U B' U R D'";
    let bad = "D L' U F2 B2 L2 U2 B2 D' L2 F2 U2 B2 F' U' L2 F2 U B' U R D' U";

    for solution_raw in [good, bad] {
        let ours = verify_solution(&parse_moves(scramble_raw), &parse_moves(solution_raw));
        let scramble = rubiks_moves::moves::Algorithm::from(scramble_raw).unwrap();
        let solution = rubiks_moves::moves::Algorithm::from(solution_raw).unwrap();
        assert_eq!(ours, solution.solves(&scramble));
    }
}

#[test]
fn cleanup_scramble_is_idempotent() {
    let mut first = vec![
        Move::R(1),
        Move::U(1),
        Move::U(2),
        Move::F(2),
        Move::F(2),
        Move::L(1),
        Move::L(3),
        Move::B(2),
        Move::B(3),
        Move::D(1),
        Move::D(1),
        Move::D(1),
    ];
    cleanup_scramble(&mut first);
    let mut second = first.clone();
    cleanup_scramble(&mut second);
    assert_eq!(first, second);
}

#[test]
fn scramble_from_hash_is_deterministic() {
    let hash = "A0C1E2G3ZZ9";
    let first = scramble_from_hash(hash);
    let second = scramble_from_hash(hash);
    assert_eq!(first, second);
}

#[test]
fn scramble_from_hash_maps_the_full_alphabet() {
    let moves = scramble_from_hash("0123456789ABCDEFGH");
    let expected = vec![
        Move::U(1),
        Move::U(2),
        Move::U(3),
        Move::D(1),
        Move::D(2),
        Move::D(3),
        Move::L(1),
        Move::L(2),
        Move::L(3),
        Move::R(1),
        Move::R(2),
        Move::R(3),
        Move::F(1),
        Move::F(2),
        Move::F(3),
        Move::B(1),
        Move::B(2),
        Move::B(3),
    ];
    assert_eq!(moves, expected);
}

#[test]
fn scramble_from_hash_skips_inadmissible_characters() {
    assert_eq!(
        scramble_from_hash("0zI!8"),
        vec![Move::U(1), Move::L(3)]
    );
    assert_eq!(scramble_from_hash(""), vec![]);
    assert_eq!(scramble_from_hash("xyz"), vec![]);
}

#[test]
fn parse_and_format_round_trip() {
    let text = "R' U F2 B D' L2";
    let moves = parse_moves(text);
    assert_eq!(
        moves,
        vec![
            Move::R(3),
            Move::U(1),
            Move::F(2),
            Move::B(1),
            Move::D(3),
            Move::L(2)
        ]
    );
    assert_eq!(format_moves(&moves), text);
}

#[test]
fn parse_moves_skips_unrecognized_characters() {
    assert_eq!(parse_moves("xyRq'7U2!"), vec![Move::R(1), Move::U(2)]);
    assert_eq!(parse_moves("R'x"), vec![Move::R(3)]);
    assert_eq!(parse_moves(""), vec![]);
    assert_eq!(format_moves(&[]), "");
}

#[test]
fn format_data_joins_with_pipes() {
    assert_eq!(
        format_data("parent", "alice", "hello"),
        b"parent|alice|hello".to_vec()
    );
    assert_eq!(format_data("", "a", ""), b"|a|".to_vec());
}

#[test]
fn calculate_hash_matches_a_direct_digest() {
    let data = format_data("", "Nootr", "Let the solves begin!");
    let digest = sha2::Sha256::digest(&data);
    let mut n = u128::from_be_bytes(digest[0..16].try_into().unwrap());
    let alphabet = b"0123456789ABCDEFGH";
    let mut expected = String::new();
    while n > 0 {
        expected.insert(0, alphabet[(n % 18) as usize] as char);
        n /= 18;
    }
    assert_eq!(calculate_hash(&data), expected);
    assert!(!expected.is_empty());
}

#[test]
fn calculate_hash_uses_only_the_base18_alphabet() {
    let hash = calculate_hash(b"");
    assert!(!hash.is_empty());
    assert!(hash.chars().all(|c| c.is_ascii_digit() || ('A'..='H').contains(&c)));
}

#[test]
fn inverted_sequence_solves_its_own_scramble() {
    let scramble = scramble_from_hash("A0C1E2G3");
    let solution = invert_sequence(&scramble);
    assert!(verify_solution(&scramble, &solution));
    assert_eq!(
        invert_sequence(&[Move::R(1), Move::U(2)]),
        vec![Move::U(2), Move::R(3)]
    );
}

#[test]
fn cleaned_scramble_accepts_the_same_solutions() {
    let raw = parse_moves("R R U U' F2 F2 L");
    let mut cleaned = raw.clone();
    cleanup_scramble(&mut cleaned);
    assert_ne!(raw, cleaned);
    let solution = invert_sequence(&raw);
    assert!(verify_solution(&raw, &solution));
    assert!(verify_solution(&cleaned, &solution));
}
