use rustc_hash::FxHashMap;
use shogi_core::attacks::is_in_check;
use shogi_core::initial::{HandCount, HandsData, InitialData, PieceData};
use shogi_core::pieces::{Move, Owner, PieceType};
use shogi_core::search::{forced_mate_within, forced_mate_within_full};
use shogi_core::state::{apply_move, make_move, undo_move, State};
use shogi_core::validate::{find_best_defense, validate_tsume_puzzle, validate_tsume_puzzle_full, validate_tsume_puzzle_js};

fn empty_hands_data() -> HandsData {
    HandsData { attacker: HandCount::default(), defender: HandCount::default() }
}

fn make_state_with_hands(ak: (i8, i8), dk: (i8, i8), extra: &[(i8, i8, Owner, PieceType)], hands: HandsData) -> State {
    let mut pieces = vec![
        PieceData { x: ak.0, y: ak.1, owner: Owner::Attacker, piece_type: PieceType::K },
        PieceData { x: dk.0, y: dk.1, owner: Owner::Defender, piece_type: PieceType::K },
    ];
    for &(x, y, owner, pt) in extra {
        pieces.push(PieceData { x, y, owner, piece_type: pt });
    }
    InitialData { pieces, hands, side_to_move: Owner::Attacker }.to_state()
}

fn make_state(ak: (i8, i8), dk: (i8, i8), extra: &[(i8, i8, Owner, PieceType)]) -> State {
    make_state_with_hands(ak, dk, extra, empty_hands_data())
}

#[test]
fn shogi_test_validate_one_move_mate() {
    let mut hands = empty_hands_data();
    hands.attacker.G = 1;
    let mut state = make_state_with_hands((5, 9), (1, 1), &[(2, 1, Owner::Attacker, PieceType::S)], hands);
    assert!(!is_in_check(&state, Owner::Defender), "the initial position is already check");
    let result = validate_tsume_puzzle_full(&mut state, 1);
    assert!(result.is_some(), "the mate in one was not found");
}

#[test]
fn shogi_test_validate_rejects_already_in_check() {
    let mut state = make_state((5, 9), (5, 1), &[(5, 5, Owner::Attacker, PieceType::R)]);
    assert!(is_in_check(&state, Owner::Defender));
    let result = validate_tsume_puzzle_full(&mut state, 1);
    assert!(result.is_none(), "a problem that starts in check was accepted");
}

#[test]
fn shogi_test_validate_rejects_even_mate_length() {
    let mut state = make_state((5, 9), (5, 1), &[]);
    assert!(validate_tsume_puzzle_full(&mut state, 2).is_none());
    assert!(validate_tsume_puzzle_full(&mut state, 0).is_none());
}

#[test]
fn test_futile_drop_skipped() {
    let pieces = vec![
        PieceData { x: 1, y: 1, owner: Owner::Defender, piece_type: PieceType::K },
        PieceData { x: 2, y: 1, owner: Owner::Defender, piece_type: PieceType::P },
        PieceData { x: 2, y: 2, owner: Owner::Defender, piece_type: PieceType::P },
        PieceData { x: 1, y: 4, owner: Owner::Attacker, piece_type: PieceType::R },
        PieceData { x: 2, y: 4, owner: Owner::Attacker, piece_type: PieceType::N },
    ];
    let init = InitialData { pieces, hands: empty_hands_data(), side_to_move: Owner::Defender };
    let mut state = init.to_state();
    assert!(is_in_check(&state, Owner::Defender));
    let mut memo = FxHashMap::default();
    let result = forced_mate_within(&mut state, 4, &mut memo);
    assert!(result.mate, "futile interpositions should be skipped and the position found mated");
    assert!(result.line.is_empty(), "with only futile interpositions the line should be empty");
}

#[test]
fn test_futile_move_interposition_skipped() {
    let pieces = vec![
        PieceData { x: 1, y: 1, owner: Owner::Defender, piece_type: PieceType::K },
        PieceData { x: 2, y: 1, owner: Owner::Attacker, piece_type: PieceType::G },
        PieceData { x: 2, y: 2, owner: Owner::Attacker, piece_type: PieceType::G },
        PieceData { x: 1, y: 5, owner: Owner::Attacker, piece_type: PieceType::R },
    ];
    let init = InitialData { pieces, hands: empty_hands_data(), side_to_move: Owner::Defender };
    let mut state = init.to_state();
    assert!(is_in_check(&state, Owner::Defender));
    let mut memo = FxHashMap::default();
    let result = forced_mate_within(&mut state, 4, &mut memo);
    assert!(result.mate, "futile interpositions should be skipped and the position found mated");
    assert!(result.line.is_empty(), "with only futile interpositions the line should be empty");
}

#[test]
fn test_futile_move_interposition_with_board_piece() {
    let pieces2 = vec![
        PieceData { x: 1, y: 1, owner: Owner::Defender, piece_type: PieceType::K },
        PieceData { x: 2, y: 3, owner: Owner::Defender, piece_type: PieceType::S },
        PieceData { x: 2, y: 1, owner: Owner::Attacker, piece_type: PieceType::G },
        PieceData { x: 2, y: 2, owner: Owner::Attacker, piece_type: PieceType::G },
        PieceData { x: 1, y: 5, owner: Owner::Attacker, piece_type: PieceType::R },
    ];
    let init2 = InitialData { pieces: pieces2, hands: empty_hands_data(), side_to_move: Owner::Defender };
    let mut state2 = init2.to_state();
    assert!(is_in_check(&state2, Owner::Defender));
    let mut memo = FxHashMap::default();
    let result = forced_mate_within(&mut state2, 4, &mut memo);
    assert!(result.mate, "a futile interposition by a board piece should be skipped");
}

#[test]
fn test_find_best_defense_returns_some() {
    let init = InitialData {
        pieces: vec![
            PieceData { x: 5, y: 1, owner: Owner::Defender, piece_type: PieceType::P },
            PieceData { x: 7, y: 1, owner: Owner::Defender, piece_type: PieceType::K },
            PieceData { x: 9, y: 1, owner: Owner::Defender, piece_type: PieceType::G },
            PieceData { x: 9, y: 3, owner: Owner::Attacker, piece_type: PieceType::R },
            PieceData { x: 6, y: 4, owner: Owner::Attacker, piece_type: PieceType::N },
        ],
        hands: HandsData { attacker: HandCount::default(), defender: HandCount::default() },
        side_to_move: Owner::Attacker,
    };
    let mut state = init.to_state();
    let m1 = Move { from: Some([9, 3]), to: [7, 3], promote: true, drop: None };
    let undo = make_move(&mut state, &m1);
    assert!(is_in_check(&state, Owner::Defender));
    let defense = find_best_defense(&mut state, 2);
    assert!(defense.is_some());
    let def = defense.unwrap();
    assert!(def.drop.is_none(), "the defender should move the king, not interpose: {:?}", def);
    undo_move(&mut state, &m1, &undo);
}

#[test]
fn test_validate_tsume_puzzle_js_rejects_dead_end_pieces() {
    let init = InitialData {
        pieces: vec![
            PieceData { x: 5, y: 1, owner: Owner::Defender, piece_type: PieceType::K },
            PieceData { x: 1, y: 2, owner: Owner::Attacker, piece_type: PieceType::N },
        ],
        hands: HandsData { attacker: HandCount::default(), defender: HandCount::default() },
        side_to_move: Owner::Attacker,
    };
    let mut state = init.to_state();
    assert!(validate_tsume_puzzle_js(&mut state, 1).is_none());
}

#[test]
fn validated_line_is_replayable_and_leaves_the_state_unchanged() {
    let mut hands = empty_hands_data();
    hands.attacker.G = 1;
    let mut state = make_state_with_hands((5, 9), (1, 1), &[(2, 1, Owner::Attacker, PieceType::S)], hands);
    let before = state;
    let line = validate_tsume_puzzle(&mut state, 1).unwrap();
    assert_eq!(state, before);
    assert_eq!(line.len(), 1);
    let after = apply_move(&state, &line[0]);
    assert!(is_in_check(&after, Owner::Defender));
    assert_eq!(line[0].drop, Some(PieceType::G));
    assert_eq!(line[0].to, [1, 2]);
}

#[test]
fn forced_mate_within_zero_plies_is_not_mate_for_the_attacker() {
    let mut state = make_state((5, 9), (5, 1), &[]);
    let mut memo = FxHashMap::default();
    let r = forced_mate_within(&mut state, 0, &mut memo);
    assert!(!r.mate);
}

#[test]
fn js_validation_agrees_on_a_plain_mate_in_one() {
    let mut hands = empty_hands_data();
    hands.attacker.G = 1;
    let mut state = make_state_with_hands((5, 9), (1, 1), &[(2, 1, Owner::Attacker, PieceType::S)], hands);
    let a = validate_tsume_puzzle(&mut state, 1);
    let b = validate_tsume_puzzle_js(&mut state, 1);
    assert_eq!(a, b);
}

#[test]
fn the_full_search_plays_out_futile_interpositions() {
    let pieces = vec![
        PieceData { x: 1, y: 1, owner: Owner::Defender, piece_type: PieceType::K },
        PieceData { x: 2, y: 1, owner: Owner::Defender, piece_type: PieceType::P },
        PieceData { x: 2, y: 2, owner: Owner::Defender, piece_type: PieceType::P },
        PieceData { x: 1, y: 4, owner: Owner::Attacker, piece_type: PieceType::R },
        PieceData { x: 2, y: 4, owner: Owner::Attacker, piece_type: PieceType::N },
    ];
    let init = InitialData { pieces, hands: empty_hands_data(), side_to_move: Owner::Defender };
    let mut state = init.to_state();
    let before = state;
    let mut memo = FxHashMap::default();
    let result = forced_mate_within_full(&mut state, 4, &mut memo);
    assert_eq!(state, before);
    assert!(result.mate, "every interposition is mated within the plies left");
    assert_eq!(result.line.len(), 4, "the line follows the longest resistance, an interposition that is taken twice");
    let mut memo = FxHashMap::default();
    assert!(!forced_mate_within_full(&mut state, 0, &mut memo).mate);
}

#[test]
fn the_full_validator_needs_both_kings() {
    let mut hands = empty_hands_data();
    hands.attacker.G = 1;
    let pieces = vec![
        PieceData { x: 1, y: 1, owner: Owner::Defender, piece_type: PieceType::K },
        PieceData { x: 2, y: 1, owner: Owner::Attacker, piece_type: PieceType::S },
    ];
    let mut state = InitialData { pieces, hands, side_to_move: Owner::Attacker }.to_state();
    assert!(validate_tsume_puzzle_full(&mut state, 1).is_none());
    let line = validate_tsume_puzzle(&mut state, 1).expect("the engine's validator needs only the defender's king");
    assert_eq!(line[0].to, [1, 2]);
}

#[test]
fn the_best_reply_is_also_found_for_the_attacker() {
    let mut hands = empty_hands_data();
    hands.attacker.G = 1;
    let mut state = make_state_with_hands((5, 9), (1, 1), &[(2, 1, Owner::Attacker, PieceType::S)], hands);
    let before = state;
    let m = find_best_defense(&mut state, 2);
    assert_eq!(state, before);
    assert!(m.is_some(), "the attacker has legal moves");
}
