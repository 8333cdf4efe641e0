use shogi_core::initial::{HandCount, HandsData, InitialData, PieceData};
use shogi_core::pieces::{Move, Owner, PieceType, Pos};
use shogi_core::rng::Rng;

fn empty_hands_data() -> HandsData {
    HandsData { attacker: HandCount::default(), defender: HandCount::default() }
}

#[test]
fn test_rng_deterministic() {
    let mut rng1 = Rng::new(42);
    let mut rng2 = Rng::new(42);
    for _ in 0..10 {
        assert_eq!(rng1.next_u64(), rng2.next_u64());
    }
}

#[test]
fn test_rng_different_seeds() {
    let mut rng1 = Rng::new(1);
    let mut rng2 = Rng::new(2);
    assert_ne!(rng1.next_u64(), rng2.next_u64());
}

#[test]
fn rng_step_is_xorshift64() {
    let mut r = Rng::new(1);
    assert_eq!(r.next_u64(), 1082269761);
    assert_eq!(r.next_u64(), 1152992998833853505);
    let mut z = Rng::new(0);
    assert_eq!(z.next_u64(), 132100702508589007);
}

#[test]
fn rng_ranges_and_picks() {
    let mut r = Rng::new(42);
    let v = r.ri(3, 7);
    assert_eq!(v as i64, (45454805674u64 % 5) as i64 + 3);
    let mut r = Rng::new(1);
    let arr = [10, 20, 30];
    assert_eq!(*r.pick(&arr), arr[(1082269761u64 % 3) as usize]);
    for _ in 0..100 {
        let w = r.ri(-2, 2);
        assert!((-2..=2).contains(&w));
    }
}

#[test]
fn rng_shuffle_keeps_the_elements() {
    let mut r = Rng::new(7);
    let mut v: Vec<u32> = (0..20).collect();
    r.shuffle(&mut v);
    let mut sorted = v.clone();
    sorted.sort();
    assert_eq!(sorted, (0..20).collect::<Vec<u32>>());
    let mut empty: Vec<u32> = Vec::new();
    r.shuffle(&mut empty);
    assert!(empty.is_empty());
}

#[test]
fn shogi_test_state_roundtrip() {
    let init = InitialData {
        pieces: vec![
            PieceData { x: 5, y: 9, owner: Owner::Attacker, piece_type: PieceType::K },
            PieceData { x: 5, y: 1, owner: Owner::Defender, piece_type: PieceType::K },
            PieceData { x: 3, y: 5, owner: Owner::Attacker, piece_type: PieceType::N },
        ],
        hands: empty_hands_data(),
        side_to_move: Owner::Attacker,
    };
    let state = init.to_state();
    let back = InitialData::from_state(&state);
    assert_eq!(back.pieces.len(), 3);
    assert_eq!(back.side_to_move, Owner::Attacker);
}

#[test]
fn shogi_test_mirror() {
    let init = InitialData {
        pieces: vec![
            PieceData { x: 2, y: 1, owner: Owner::Defender, piece_type: PieceType::K },
            PieceData { x: 5, y: 9, owner: Owner::Attacker, piece_type: PieceType::K },
        ],
        hands: empty_hands_data(),
        side_to_move: Owner::Attacker,
    };
    let mirrored = init.mirror();
    let dk = mirrored.pieces.iter().find(|p| p.owner == Owner::Defender && p.piece_type == PieceType::K).unwrap();
    assert_eq!(dk.x, 8);
    assert_eq!(dk.y, 1);
}

#[test]
fn mirror_twice_gives_back_the_pieces() {
    let init = InitialData {
        pieces: vec![
            PieceData { x: 2, y: 1, owner: Owner::Defender, piece_type: PieceType::K },
            PieceData { x: 7, y: 4, owner: Owner::Attacker, piece_type: PieceType::PB },
        ],
        hands: empty_hands_data(),
        side_to_move: Owner::Attacker,
    };
    let back = init.mirror().mirror();
    assert_eq!(back.pieces, init.pieces);
}

#[test]
fn hand_count_arrays_round_trip() {
    let h = HandCount::from_array(&[1, 2, 3, 4, 5, 6, 7]);
    assert_eq!(h.R, 1);
    assert_eq!(h.P, 7);
    assert_eq!(h.to_array(), [1, 2, 3, 4, 5, 6, 7]);
    assert_eq!(h.total(), 28);
    assert_eq!(HandCount::default().total(), 0);
}

#[test]
fn excess_pieces_are_detected() {
    let mut init = InitialData {
        pieces: vec![
            PieceData { x: 5, y: 1, owner: Owner::Defender, piece_type: PieceType::K },
            PieceData { x: 1, y: 5, owner: Owner::Attacker, piece_type: PieceType::B },
            PieceData { x: 2, y: 5, owner: Owner::Attacker, piece_type: PieceType::PB },
        ],
        hands: empty_hands_data(),
        side_to_move: Owner::Attacker,
    };
    assert!(!init.has_excess_pieces());
    init.hands.defender.B = 1;
    assert!(!init.has_excess_pieces());
    init.hands.attacker.B = 1;
    assert!(init.has_excess_pieces());
}

#[test]
fn to_state_places_the_pieces_and_hands() {
    let mut hands = empty_hands_data();
    hands.attacker.G = 2;
    let init = InitialData {
        pieces: vec![PieceData { x: 4, y: 2, owner: Owner::Defender, piece_type: PieceType::K }],
        hands,
        side_to_move: Owner::Attacker,
    };
    let s = init.to_state();
    assert_eq!(s.king_pos(Owner::Defender), Some(Pos::new(4, 2)));
    assert_eq!(s.hands.get(Owner::Attacker, PieceType::G), 2);
    assert_eq!(s.zobrist_hash, s.compute_zobrist());
}

#[test]
fn move_keys_are_written_as_text() {
    let drop = Move { from: None, to: [1, 2], drop: Some(PieceType::G), promote: false };
    assert_eq!(drop.to_string_key(), "G*12");
    let board = Move { from: Some([9, 3]), to: [7, 3], drop: None, promote: true };
    assert_eq!(board.to_string_key(), "93-73+");
    let plain = Move { from: Some([5, 5]), to: [5, 4], drop: None, promote: false };
    assert_eq!(plain.to_string_key(), "55-54");
    let none = Move { from: None, to: [5, 4], drop: None, promote: false };
    assert_eq!(none.to_string_key(), "");
}
