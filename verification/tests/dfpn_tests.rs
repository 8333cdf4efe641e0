use shogi_core::dfpn::{
    hand_dominates, hand_union, has_mate_at_depth, is_mate_in_1, is_mate_in_3, validate_tsume_dfpn,
    validate_tsume_dfpn_staged, DfpnSolver,
};
use shogi_core::pieces::{BoardPiece, Owner, PieceType, Pos};
use shogi_core::state::State;

fn make_1mate_state() -> State {
    let mut state = State::new();
    state.set(Pos::new(1, 1), Some(BoardPiece { owner: Owner::Defender, piece_type: PieceType::K }));
    state.hands.add(Owner::Attacker, PieceType::G, 1);
    state.set(Pos::new(2, 1), Some(BoardPiece { owner: Owner::Attacker, piece_type: PieceType::G }));
    state.set(Pos::new(2, 2), Some(BoardPiece { owner: Owner::Attacker, piece_type: PieceType::S }));
    state.side_to_move = Owner::Attacker;
    state.compute_zobrist();
    state
}

#[test]
fn test_dfpn_1mate() {
    let mut state = make_1mate_state();
    let mut solver = DfpnSolver::new();
    assert!(solver.solve(&mut state, 1), "a mate in one should be found");
    assert!(!solver.solve(&mut state, 0), "nothing mates in zero plies");
}

#[test]
fn test_is_mate_in_1() {
    let mut state = make_1mate_state();
    assert!(is_mate_in_1(&mut state), "the mate-in-one routine should find the mate");
}

#[test]
fn test_is_mate_in_1_no_mate() {
    let mut state = State::new();
    state.set(Pos::new(5, 5), Some(BoardPiece { owner: Owner::Defender, piece_type: PieceType::K }));
    state.hands.add(Owner::Attacker, PieceType::P, 1);
    state.side_to_move = Owner::Attacker;
    state.compute_zobrist();
    assert!(!is_mate_in_1(&mut state), "no mate here");
}

#[test]
fn test_is_mate_in_3() {
    let mut state = State::new();
    state.set(Pos::new(1, 2), Some(BoardPiece { owner: Owner::Defender, piece_type: PieceType::K }));
    state.hands.add(Owner::Attacker, PieceType::G, 2);
    state.side_to_move = Owner::Attacker;
    state.compute_zobrist();
    let mut solver = DfpnSolver::new();
    let is_3mate = solver.solve(&mut state, 3);
    if is_3mate {
        assert!(is_mate_in_3(&mut state), "the mate-in-three routine should find the mate too");
    }
}

#[test]
fn test_dfpn_no_mate() {
    let mut state = State::new();
    state.set(Pos::new(5, 1), Some(BoardPiece { owner: Owner::Defender, piece_type: PieceType::K }));
    state.hands.add(Owner::Attacker, PieceType::P, 1);
    state.side_to_move = Owner::Attacker;
    state.compute_zobrist();
    let mut solver = DfpnSolver::new().with_node_limit(100_000);
    assert!(!solver.solve(&mut state, 1), "there is no mate");
    assert!(!solver.solve(&mut state, 3), "there is no mate");
}

#[test]
fn test_proof_pieces_dominance() {
    let mut state = make_1mate_state();
    let mut solver = DfpnSolver::new();
    assert!(solver.solve(&mut state, 1));
    let mut state2 = state.clone();
    state2.hands.add(Owner::Attacker, PieceType::P, 3);
    state2.zobrist_hash = state2.compute_zobrist();
    assert!(solver.solve(&mut state2, 1));
}

#[test]
fn test_hand_dominates() {
    assert!(hand_dominates(&[1, 1, 1, 1, 1, 1, 1], &[0, 0, 0, 0, 0, 0, 0]));
    assert!(hand_dominates(&[1, 1, 1, 1, 1, 1, 1], &[1, 1, 1, 1, 1, 1, 1]));
    assert!(!hand_dominates(&[0, 1, 1, 1, 1, 1, 1], &[1, 0, 0, 0, 0, 0, 0]));
}

#[test]
fn hand_union_takes_the_larger_count_of_each_kind() {
    assert_eq!(hand_union(&[1, 0, 3, 0, 2, 0, 7], &[0, 2, 1, 0, 5, 1, 7]), [1, 2, 3, 0, 5, 1, 7]);
    let u = hand_union(&[4, 0, 0, 1, 0, 0, 0], &[0, 0, 2, 0, 0, 0, 0]);
    assert!(hand_dominates(&u, &[4, 0, 0, 1, 0, 0, 0]));
    assert!(hand_dominates(&u, &[0, 0, 2, 0, 0, 0, 0]));
}

#[test]
fn node_limit_is_kept_and_counted() {
    let mut solver = DfpnSolver::new().with_node_limit(10);
    let mut state = make_1mate_state();
    solver.solve(&mut state, 5);
    assert!(solver.node_count() <= 10);
    let mut starved = DfpnSolver::new().with_node_limit(0);
    assert!(!starved.solve(&mut state, 1));
    assert_eq!(starved.node_count(), 0);
    starved.set_node_limit(1000);
    assert!(starved.solve(&mut state, 1));
}

#[test]
fn dfpn_validation_finds_the_unique_mate_in_one() {
    let mut state = State::new();
    state.set(Pos::new(1, 1), Some(BoardPiece { owner: Owner::Defender, piece_type: PieceType::K }));
    state.set(Pos::new(2, 1), Some(BoardPiece { owner: Owner::Attacker, piece_type: PieceType::S }));
    state.hands.add(Owner::Attacker, PieceType::G, 1);
    let before = state;
    let line = validate_tsume_dfpn(&mut state, 1);
    assert_eq!(state, before);
    let line = line.expect("a unique mate in one");
    assert_eq!(line.len(), 1);
    assert_eq!(line[0].to, [1, 2]);
    let staged = validate_tsume_dfpn_staged(&mut state, 1).expect("the staged check agrees");
    assert_eq!(staged, line);
    assert!(has_mate_at_depth(&mut state, 1));
}

#[test]
fn dfpn_validation_rejects_even_lengths() {
    let mut state = make_1mate_state();
    assert!(validate_tsume_dfpn(&mut state, 2).is_none());
    assert!(validate_tsume_dfpn(&mut state, 0).is_none());
}

#[test]
fn an_extracted_line_ends_with_the_defender_in_check() {
    let mut state = State::new();
    state.set(Pos::new(1, 1), Some(BoardPiece { owner: Owner::Defender, piece_type: PieceType::K }));
    state.set(Pos::new(2, 1), Some(BoardPiece { owner: Owner::Attacker, piece_type: PieceType::S }));
    state.hands.add(Owner::Attacker, PieceType::G, 1);
    let mut solver = DfpnSolver::new();
    assert!(solver.solve(&mut state, 1));
    let line = solver.extract_unique_solution(&mut state, 1).expect("the mate is unique");
    assert_eq!(line.len(), 1);
    let mut end = state.clone();
    for m in &line {
        end = shogi_core::state::apply_move(&end, m);
    }
    assert_eq!(end.side_to_move, Owner::Defender);
    assert!(shogi_core::attacks::is_in_check(&end, Owner::Defender));
}

#[test]
fn a_fresh_shallow_search_answers_as_the_direct_searches() {
    let mut mate1 = make_1mate_state();
    assert_eq!(DfpnSolver::new().solve(&mut mate1, 1), is_mate_in_1(&mut mate1));
    assert!(!DfpnSolver::new().solve(&mut mate1, 0));
    let mut two_golds = State::new();
    two_golds.set(Pos::new(1, 2), Some(BoardPiece { owner: Owner::Defender, piece_type: PieceType::K }));
    two_golds.hands.add(Owner::Attacker, PieceType::G, 2);
    two_golds.side_to_move = Owner::Attacker;
    two_golds.compute_zobrist();
    let direct = is_mate_in_3(&mut two_golds);
    assert_eq!(DfpnSolver::new().solve(&mut two_golds, 3), direct);
    assert_eq!(has_mate_at_depth(&mut two_golds, 3), direct);
}

#[test]
fn a_mate_in_one_is_too_short_for_a_three_ply_problem() {
    let mut state = make_1mate_state();
    assert!(shogi_core::dfpn::has_shorter_mate(&mut state, 3));
    assert!(validate_tsume_dfpn(&mut state, 3).is_none());
    assert!(!shogi_core::dfpn::has_shorter_mate(&mut state, 1));
}

#[test]
fn a_mated_defender_is_answered_with_an_empty_line() {
    let mut state = State::new();
    state.set(Pos::new(1, 1), Some(BoardPiece { owner: Owner::Defender, piece_type: PieceType::K }));
    state.set(Pos::new(2, 1), Some(BoardPiece { owner: Owner::Attacker, piece_type: PieceType::S }));
    state.hands.add(Owner::Attacker, PieceType::G, 1);
    let mut solver = DfpnSolver::new();
    assert!(solver.solve(&mut state, 1));
    let line = solver.extract_unique_solution(&mut state, 1).expect("the mate is unique");
    let mut mated = shogi_core::state::apply_move(&state, &line[0]);
    let rest = DfpnSolver::new().extract_unique_solution(&mut mated, 0).expect("the defender is mated");
    assert!(rest.is_empty());
}
