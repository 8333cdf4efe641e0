use shogi_core::attacks::{find_checkers, is_in_check};
use shogi_core::initial::{HandCount, HandsData, InitialData, PieceData};
use shogi_core::legal::legal_moves;
use shogi_core::movegen::{pseudo_drops, pseudo_moves_from};
use shogi_core::pieces::{Move, Owner, PieceType, Pos};
use shogi_core::state::{apply_move, make_move, undo_move, State};

fn empty_hands_data() -> HandsData {
    HandsData { attacker: HandCount::default(), defender: HandCount::default() }
}

fn make_state_with_hands(ak: (i8, i8), dk: (i8, i8), extra: &[(i8, i8, Owner, PieceType)], hands: HandsData) -> State {
    let mut pieces = vec![
        PieceData { x: ak.0, y: ak.1, owner: Owner::Attacker, piece_type: PieceType::K },
        PieceData { x: dk.0, y: dk.1, owner: Owner::Defender, piece_type: PieceType::K },
    ];
    for &(x, y, owner, pt) in extra {
        pieces.push(PieceData { x, y, owner, piece_type: pt });
    }
    let init = InitialData { pieces, hands, side_to_move: Owner::Attacker };
    init.to_state()
}

fn make_state(ak: (i8, i8), dk: (i8, i8), extra: &[(i8, i8, Owner, PieceType)]) -> State {
    make_state_with_hands(ak, dk, extra, empty_hands_data())
}

fn targets_of(moves: &[Move]) -> Vec<(i8, i8)> {
    moves.iter().map(|m| (m.to[0], m.to[1])).collect()
}

#[test]
fn shogi_test_gold_moves() {
    let state = make_state((5, 9), (5, 1), &[(5, 5, Owner::Attacker, PieceType::G)]);
    let piece = state.get(Pos::new(5, 5)).unwrap();
    let moves = pseudo_moves_from(&state, Pos::new(5, 5), piece);
    assert_eq!(moves.len(), 6);
}

#[test]
fn shogi_test_silver_moves() {
    let state = make_state((5, 9), (5, 1), &[(5, 5, Owner::Attacker, PieceType::S)]);
    let piece = state.get(Pos::new(5, 5)).unwrap();
    let moves = pseudo_moves_from(&state, Pos::new(5, 5), piece);
    assert_eq!(moves.len(), 5);
}

#[test]
fn shogi_test_knight_moves() {
    let state = make_state((5, 9), (5, 1), &[(5, 5, Owner::Attacker, PieceType::N)]);
    let piece = state.get(Pos::new(5, 5)).unwrap();
    let moves = pseudo_moves_from(&state, Pos::new(5, 5), piece);
    let targets = targets_of(&moves);
    assert!(targets.contains(&(4, 3)));
    assert!(targets.contains(&(6, 3)));
    assert!(moves.iter().any(|m| m.promote));
}

#[test]
fn shogi_test_knight_must_promote_at_1_2_row() {
    let state = make_state((5, 9), (5, 1), &[(5, 4, Owner::Attacker, PieceType::N)]);
    let piece = state.get(Pos::new(5, 4)).unwrap();
    let moves = pseudo_moves_from(&state, Pos::new(5, 4), piece);
    for m in &moves {
        assert!(m.promote, "a knight reached the second row unpromoted: {:?}", m);
    }
}

#[test]
fn shogi_test_lance_slides_forward() {
    let state = make_state((5, 9), (5, 1), &[(5, 5, Owner::Attacker, PieceType::L)]);
    let piece = state.get(Pos::new(5, 5)).unwrap();
    let moves = pseudo_moves_from(&state, Pos::new(5, 5), piece);
    let targets = targets_of(&moves);
    assert!(targets.contains(&(5, 4)));
    assert!(targets.contains(&(5, 3)));
    assert!(targets.contains(&(5, 2)));
    assert!(targets.contains(&(5, 1)));
    assert!(!targets.contains(&(5, 6)));
}

#[test]
fn shogi_test_lance_must_promote_at_row_1() {
    let state = make_state((5, 9), (9, 1), &[(5, 2, Owner::Attacker, PieceType::L)]);
    let piece = state.get(Pos::new(5, 2)).unwrap();
    let moves = pseudo_moves_from(&state, Pos::new(5, 2), piece);
    let to_1 = moves.iter().filter(|m| m.to[1] == 1).collect::<Vec<_>>();
    assert!(!to_1.is_empty());
    for m in &to_1 {
        assert!(m.promote, "a lance reached the first row unpromoted");
    }
}

#[test]
fn shogi_test_lance_blocked_by_piece() {
    let state = make_state((5, 9), (5, 1), &[
        (5, 5, Owner::Attacker, PieceType::L),
        (5, 3, Owner::Attacker, PieceType::P),
    ]);
    let piece = state.get(Pos::new(5, 5)).unwrap();
    let moves = pseudo_moves_from(&state, Pos::new(5, 5), piece);
    let targets = targets_of(&moves);
    assert!(targets.contains(&(5, 4)));
    assert!(!targets.contains(&(5, 3)));
}

#[test]
fn shogi_test_rook_slides() {
    let state = make_state((5, 9), (5, 1), &[(5, 5, Owner::Attacker, PieceType::R)]);
    let piece = state.get(Pos::new(5, 5)).unwrap();
    let moves = pseudo_moves_from(&state, Pos::new(5, 5), piece);
    assert!(moves.len() >= 15);
}

#[test]
fn shogi_test_promoted_rook_has_diagonal_steps() {
    let state = make_state((1, 9), (9, 1), &[(5, 5, Owner::Attacker, PieceType::PR)]);
    let piece = state.get(Pos::new(5, 5)).unwrap();
    let moves = pseudo_moves_from(&state, Pos::new(5, 5), piece);
    let targets = targets_of(&moves);
    assert!(targets.contains(&(4, 4)));
    assert!(targets.contains(&(6, 4)));
    assert!(targets.contains(&(4, 6)));
    assert!(targets.contains(&(6, 6)));
}

#[test]
fn shogi_test_promoted_bishop_has_orthogonal_steps() {
    let state = make_state((1, 9), (9, 1), &[(5, 5, Owner::Attacker, PieceType::PB)]);
    let piece = state.get(Pos::new(5, 5)).unwrap();
    let moves = pseudo_moves_from(&state, Pos::new(5, 5), piece);
    let targets = targets_of(&moves);
    assert!(targets.contains(&(5, 4)));
    assert!(targets.contains(&(5, 6)));
    assert!(targets.contains(&(4, 5)));
    assert!(targets.contains(&(6, 5)));
}

#[test]
fn shogi_test_promoted_knight_moves_like_gold() {
    let state = make_state((5, 9), (5, 1), &[(5, 5, Owner::Attacker, PieceType::PN)]);
    let piece = state.get(Pos::new(5, 5)).unwrap();
    let moves = pseudo_moves_from(&state, Pos::new(5, 5), piece);
    assert_eq!(moves.len(), 6);
}

#[test]
fn shogi_test_promoted_lance_moves_like_gold() {
    let state = make_state((5, 9), (5, 1), &[(5, 5, Owner::Attacker, PieceType::PL)]);
    let piece = state.get(Pos::new(5, 5)).unwrap();
    let moves = pseudo_moves_from(&state, Pos::new(5, 5), piece);
    assert_eq!(moves.len(), 6);
}

#[test]
fn shogi_test_pawn_moves_forward() {
    let state = make_state((5, 9), (5, 1), &[(5, 5, Owner::Attacker, PieceType::P)]);
    let piece = state.get(Pos::new(5, 5)).unwrap();
    let moves = pseudo_moves_from(&state, Pos::new(5, 5), piece);
    assert_eq!(moves.len(), 1);
    assert_eq!(moves[0].to, [5, 4]);
}

#[test]
fn shogi_test_is_in_check() {
    let state = make_state((5, 9), (5, 1), &[(5, 5, Owner::Attacker, PieceType::R)]);
    assert!(is_in_check(&state, Owner::Defender));
    assert!(!is_in_check(&state, Owner::Attacker));
}

#[test]
fn shogi_test_not_in_check() {
    let state = make_state((5, 9), (5, 1), &[(3, 5, Owner::Attacker, PieceType::G)]);
    assert!(!is_in_check(&state, Owner::Defender));
}

#[test]
fn shogi_test_knight_check() {
    let state = make_state((5, 9), (5, 1), &[(6, 3, Owner::Attacker, PieceType::N)]);
    assert!(is_in_check(&state, Owner::Defender));
}

#[test]
fn shogi_test_lance_check() {
    let state = make_state((5, 9), (5, 1), &[(5, 5, Owner::Attacker, PieceType::L)]);
    assert!(is_in_check(&state, Owner::Defender));
}

#[test]
fn shogi_test_legal_moves_no_self_check() {
    let mut state = make_state((5, 9), (5, 1), &[(5, 5, Owner::Attacker, PieceType::G)]);
    let moves = legal_moves(&mut state);
    for m in &moves {
        let next = apply_move(&state, m);
        assert!(!is_in_check(&next, Owner::Attacker));
    }
}

#[test]
fn shogi_test_capture_adds_to_hand() {
    let state = make_state((5, 9), (5, 1), &[
        (5, 5, Owner::Attacker, PieceType::G),
        (5, 4, Owner::Defender, PieceType::S),
    ]);
    let m = Move { from: Some([5, 5]), to: [5, 4], drop: None, promote: false };
    let next = apply_move(&state, &m);
    assert_eq!(next.hands.get(Owner::Attacker, PieceType::S), 1);
}

#[test]
fn shogi_test_capture_promoted_adds_unpromoted() {
    let state = make_state((5, 9), (5, 1), &[
        (5, 5, Owner::Attacker, PieceType::G),
        (5, 4, Owner::Defender, PieceType::PS),
    ]);
    let m = Move { from: Some([5, 5]), to: [5, 4], drop: None, promote: false };
    let next = apply_move(&state, &m);
    assert_eq!(next.hands.get(Owner::Attacker, PieceType::S), 1);
}

#[test]
fn shogi_test_drop_pawn_restrictions() {
    let mut hands = empty_hands_data();
    hands.attacker.P = 1;
    let state = make_state_with_hands((5, 9), (5, 1), &[], hands);
    let drops = pseudo_drops(&state, Owner::Attacker);
    let pawn_drops: Vec<_> = drops.iter().filter(|m| m.drop == Some(PieceType::P)).collect();
    assert!(pawn_drops.iter().all(|m| m.to[1] != 1), "a pawn was dropped on the first row");
}

#[test]
fn shogi_test_drop_lance_restrictions() {
    let mut hands = empty_hands_data();
    hands.attacker.L = 1;
    let state = make_state_with_hands((5, 9), (5, 1), &[], hands);
    let drops = pseudo_drops(&state, Owner::Attacker);
    let lance_drops: Vec<_> = drops.iter().filter(|m| m.drop == Some(PieceType::L)).collect();
    assert!(lance_drops.iter().all(|m| m.to[1] != 1), "a lance was dropped on the first row");
}

#[test]
fn shogi_test_drop_knight_restrictions() {
    let mut hands = empty_hands_data();
    hands.attacker.N = 1;
    let state = make_state_with_hands((5, 9), (5, 1), &[], hands);
    let drops = pseudo_drops(&state, Owner::Attacker);
    let knight_drops: Vec<_> = drops.iter().filter(|m| m.drop == Some(PieceType::N)).collect();
    assert!(knight_drops.iter().all(|m| m.to[1] > 2), "a knight was dropped on the first two rows");
}

#[test]
fn shogi_test_nifu_prohibition() {
    let mut hands = empty_hands_data();
    hands.attacker.P = 1;
    let state = make_state_with_hands((5, 9), (5, 1), &[(3, 5, Owner::Attacker, PieceType::P)], hands);
    let drops = pseudo_drops(&state, Owner::Attacker);
    let pawn_3 = drops.iter().filter(|m| m.drop == Some(PieceType::P) && m.to[0] == 3).count();
    assert_eq!(pawn_3, 0, "a second pawn was allowed on the file");
}

#[test]
fn shogi_test_pawn_drop_mate_forbidden() {
    let mut hands = empty_hands_data();
    hands.attacker.P = 1;
    let mut state = make_state_with_hands(
        (5, 9),
        (5, 1),
        &[
            (4, 1, Owner::Attacker, PieceType::G),
            (6, 1, Owner::Attacker, PieceType::G),
            (4, 2, Owner::Attacker, PieceType::G),
            (6, 2, Owner::Attacker, PieceType::G),
        ],
        hands,
    );
    let legal = legal_moves(&mut state);
    let pawn_drop_52 = legal.iter().find(|m| m.drop == Some(PieceType::P) && m.to == [5, 2]);
    assert!(pawn_drop_52.is_none(), "a mating pawn drop was allowed");
}

#[test]
fn shogi_test_apply_move_changes_side() {
    let state = make_state((5, 9), (5, 1), &[(5, 5, Owner::Attacker, PieceType::G)]);
    let m = Move { from: Some([5, 5]), to: [5, 4], drop: None, promote: false };
    let next = apply_move(&state, &m);
    assert_eq!(next.side_to_move, Owner::Defender);
}

#[test]
fn shogi_test_apply_move_promotion() {
    let state = make_state((5, 9), (5, 1), &[(5, 4, Owner::Attacker, PieceType::S)]);
    let m = Move { from: Some([5, 4]), to: [5, 3], drop: None, promote: true };
    let next = apply_move(&state, &m);
    let piece = next.get(Pos::new(5, 3)).unwrap();
    assert_eq!(piece.piece_type, PieceType::PS);
}

#[test]
fn shogi_test_apply_drop() {
    let mut hands = empty_hands_data();
    hands.attacker.G = 1;
    let state = make_state_with_hands((5, 9), (5, 1), &[], hands);
    let m = Move { from: None, to: [5, 5], drop: Some(PieceType::G), promote: false };
    let next = apply_move(&state, &m);
    assert_eq!(next.hands.get(Owner::Attacker, PieceType::G), 0);
    let piece = next.get(Pos::new(5, 5)).unwrap();
    assert_eq!(piece.piece_type, PieceType::G);
    assert_eq!(piece.owner, Owner::Attacker);
}

#[test]
fn test_find_checkers() {
    let state = make_state((5, 9), (5, 1), &[(5, 5, Owner::Attacker, PieceType::R)]);
    let checkers = find_checkers(&state, Owner::Defender);
    assert_eq!(checkers.len(), 1);
    assert_eq!(checkers[0].0, Pos::new(5, 5));
    assert_eq!(checkers[0].1.piece_type, PieceType::R);
}

#[test]
fn shogi_test_defender_pawn_moves_down() {
    let mut state = make_state((5, 9), (5, 1), &[(3, 5, Owner::Defender, PieceType::P)]);
    state.side_to_move = Owner::Defender;
    let piece = state.get(Pos::new(3, 5)).unwrap();
    let moves = pseudo_moves_from(&state, Pos::new(3, 5), piece);
    assert_eq!(moves.len(), 1);
    assert_eq!(moves[0].to, [3, 6]);
}

#[test]
fn shogi_test_defender_knight_jumps_down() {
    let mut state = make_state((5, 9), (5, 1), &[(5, 5, Owner::Defender, PieceType::N)]);
    state.side_to_move = Owner::Defender;
    let piece = state.get(Pos::new(5, 5)).unwrap();
    let moves = pseudo_moves_from(&state, Pos::new(5, 5), piece);
    let targets = targets_of(&moves);
    assert!(targets.contains(&(4, 7)));
    assert!(targets.contains(&(6, 7)));
}

#[test]
fn test_zobrist_make_undo_consistency() {
    let mut state = make_state((5, 9), (1, 1), &[
        (2, 2, Owner::Attacker, PieceType::G),
        (3, 3, Owner::Attacker, PieceType::R),
        (2, 1, Owner::Defender, PieceType::S),
    ]);
    let original_hash = state.zobrist_hash;
    let moves = legal_moves(&mut state);
    for m in &moves {
        let undo = make_move(&mut state, m);
        undo_move(&mut state, m, &undo);
        assert_eq!(state.zobrist_hash, original_hash, "make then undo changed the hash: {:?}", m);
    }
}

#[test]
fn test_zobrist_same_position_same_hash() {
    let state1 = make_state((5, 9), (5, 1), &[(3, 3, Owner::Attacker, PieceType::G)]);
    let state2 = make_state((5, 9), (5, 1), &[(3, 3, Owner::Attacker, PieceType::G)]);
    assert_eq!(state1.zobrist_hash, state2.zobrist_hash);
}

#[test]
fn test_zobrist_different_position_different_hash() {
    let state1 = make_state((5, 9), (5, 1), &[(3, 3, Owner::Attacker, PieceType::G)]);
    let state2 = make_state((5, 9), (5, 1), &[(4, 3, Owner::Attacker, PieceType::G)]);
    assert_ne!(state1.zobrist_hash, state2.zobrist_hash);
}

#[test]
fn test_zobrist_incremental_matches_full() {
    let mut state = make_state((5, 9), (1, 1), &[
        (2, 2, Owner::Attacker, PieceType::G),
        (1, 2, Owner::Defender, PieceType::P),
    ]);
    let moves = legal_moves(&mut state);
    for m in &moves {
        let undo = make_move(&mut state, m);
        let incremental = state.zobrist_hash;
        let full = state.compute_zobrist();
        assert_eq!(incremental, full, "incremental and full hashes differ: {:?}", m);
        undo_move(&mut state, m, &undo);
    }
}

#[test]
fn make_then_undo_restores_the_whole_state() {
    let mut state = make_state((5, 9), (1, 1), &[
        (2, 2, Owner::Attacker, PieceType::G),
        (1, 3, Owner::Defender, PieceType::PS),
    ]);
    let before = state;
    let moves = legal_moves(&mut state);
    assert!(!moves.is_empty());
    for m in &moves {
        let undo = make_move(&mut state, m);
        undo_move(&mut state, m, &undo);
        assert_eq!(state, before);
    }
}

#[test]
fn empty_board_state_has_no_kings() {
    let s = State::new();
    assert_eq!(s.king_pos(Owner::Attacker), None);
    assert_eq!(s.king_pos(Owner::Defender), None);
    assert_eq!(s.side_to_move, Owner::Attacker);
}

#[test]
fn every_attacker_of_the_king_is_listed_once() {
    let state = make_state(
        (9, 9),
        (5, 1),
        &[
            (5, 2, Owner::Attacker, PieceType::G),
            (4, 3, Owner::Attacker, PieceType::N),
            (8, 4, Owner::Attacker, PieceType::B),
            (5, 7, Owner::Attacker, PieceType::R),
            (4, 1, Owner::Defender, PieceType::G),
        ],
    );
    let checkers = find_checkers(&state, Owner::Defender);
    let squares: Vec<Pos> = checkers.iter().map(|c| c.0).collect();
    assert_eq!(squares, vec![Pos::new(5, 2), Pos::new(4, 3), Pos::new(8, 4)]);
    assert!(is_in_check(&state, Owner::Defender));
}
