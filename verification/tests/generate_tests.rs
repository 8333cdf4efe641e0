use shogi_core::generate::{
    basic_validity, candidate_params, count_sacrifices, difficulty_score, diversify_order, mutate_initial,
    piece_count_valid, random_candidate, score_puzzle,
};
use shogi_core::initial::{HandCount, HandsData, InitialData, PieceData};
use shogi_core::keys::{composition_key, structural_signature};
use shogi_core::pieces::{Move, Owner, PieceType};
use shogi_core::rng::Rng;
use shogi_core::collect::{backward_attempts, random_attempts, GenerateMethod};

fn mk_hands() -> HandsData {
    HandsData { attacker: HandCount::default(), defender: HandCount::default() }
}

fn mk_initial(pieces: Vec<PieceData>) -> InitialData {
    InitialData { pieces, hands: mk_hands(), side_to_move: Owner::Attacker }
}

#[test]
fn test_basic_validity_ok() {
    let init = mk_initial(vec![
        PieceData { x: 5, y: 9, owner: Owner::Attacker, piece_type: PieceType::K },
        PieceData { x: 5, y: 1, owner: Owner::Defender, piece_type: PieceType::K },
        PieceData { x: 3, y: 5, owner: Owner::Attacker, piece_type: PieceType::G },
    ]);
    assert!(basic_validity(&init));
}

#[test]
fn test_basic_validity_empty() {
    let init = mk_initial(vec![]);
    assert!(!basic_validity(&init));
}

#[test]
fn test_basic_validity_no_attacker_king() {
    
    let init = mk_initial(vec![
        PieceData { x: 5, y: 1, owner: Owner::Defender, piece_type: PieceType::K },
        PieceData { x: 3, y: 5, owner: Owner::Attacker, piece_type: PieceType::G },
    ]);
    assert!(basic_validity(&init));
}

#[test]
fn test_basic_validity_no_defender_king() {
    
    let init = mk_initial(vec![
        PieceData { x: 5, y: 5, owner: Owner::Attacker, piece_type: PieceType::G },
    ]);
    assert!(!basic_validity(&init));
}

#[test]
fn test_basic_validity_out_of_bounds() {
    let init = mk_initial(vec![
        PieceData { x: 5, y: 9, owner: Owner::Attacker, piece_type: PieceType::K },
        PieceData { x: 5, y: 1, owner: Owner::Defender, piece_type: PieceType::K },
        PieceData { x: 0, y: 5, owner: Owner::Attacker, piece_type: PieceType::G },
    ]);
    assert!(!basic_validity(&init));
}

#[test]
fn test_basic_validity_duplicate_positions() {
    let init = mk_initial(vec![
        PieceData { x: 5, y: 9, owner: Owner::Attacker, piece_type: PieceType::K },
        PieceData { x: 5, y: 1, owner: Owner::Defender, piece_type: PieceType::K },
        PieceData { x: 3, y: 5, owner: Owner::Attacker, piece_type: PieceType::G },
        PieceData { x: 3, y: 5, owner: Owner::Defender, piece_type: PieceType::S },
    ]);
    assert!(!basic_validity(&init));
}

#[test]
fn test_basic_validity_dead_end_pieces() {
    let attacker_knight = mk_initial(vec![
        PieceData { x: 5, y: 1, owner: Owner::Defender, piece_type: PieceType::K },
        PieceData { x: 1, y: 2, owner: Owner::Attacker, piece_type: PieceType::N },
    ]);
    assert!(!basic_validity(&attacker_knight));

    let attacker_pawn = mk_initial(vec![
        PieceData { x: 5, y: 1, owner: Owner::Defender, piece_type: PieceType::K },
        PieceData { x: 2, y: 1, owner: Owner::Attacker, piece_type: PieceType::P },
    ]);
    assert!(!basic_validity(&attacker_pawn));

    let defender_knight = mk_initial(vec![
        PieceData { x: 5, y: 9, owner: Owner::Attacker, piece_type: PieceType::K },
        PieceData { x: 5, y: 1, owner: Owner::Defender, piece_type: PieceType::K },
        PieceData { x: 3, y: 8, owner: Owner::Defender, piece_type: PieceType::N },
    ]);
    assert!(!basic_validity(&defender_knight));
}



#[test]
fn test_piece_count_valid_ok() {
    let init = mk_initial(vec![
        PieceData { x: 5, y: 9, owner: Owner::Attacker, piece_type: PieceType::K },
        PieceData { x: 5, y: 1, owner: Owner::Defender, piece_type: PieceType::K },
        PieceData { x: 3, y: 5, owner: Owner::Attacker, piece_type: PieceType::R },
        PieceData { x: 7, y: 5, owner: Owner::Defender, piece_type: PieceType::R },
    ]);
    assert!(piece_count_valid(&init)); 
}

#[test]
fn test_piece_count_valid_too_many_rooks() {
    let init = mk_initial(vec![
        PieceData { x: 5, y: 9, owner: Owner::Attacker, piece_type: PieceType::K },
        PieceData { x: 5, y: 1, owner: Owner::Defender, piece_type: PieceType::K },
        PieceData { x: 3, y: 5, owner: Owner::Attacker, piece_type: PieceType::R },
        PieceData { x: 7, y: 5, owner: Owner::Defender, piece_type: PieceType::R },
        PieceData { x: 1, y: 5, owner: Owner::Attacker, piece_type: PieceType::R },
    ]);
    assert!(!piece_count_valid(&init)); 
}

#[test]
fn test_piece_count_valid_promoted_counts_as_base() {
    let init = mk_initial(vec![
        PieceData { x: 5, y: 9, owner: Owner::Attacker, piece_type: PieceType::K },
        PieceData { x: 5, y: 1, owner: Owner::Defender, piece_type: PieceType::K },
        PieceData { x: 3, y: 5, owner: Owner::Attacker, piece_type: PieceType::PR },
        PieceData { x: 7, y: 5, owner: Owner::Defender, piece_type: PieceType::R },
        PieceData { x: 1, y: 5, owner: Owner::Attacker, piece_type: PieceType::R },
    ]);
    assert!(!piece_count_valid(&init)); 
}

#[test]
fn test_piece_count_valid_hand_included() {
    let mut init = mk_initial(vec![
        PieceData { x: 5, y: 9, owner: Owner::Attacker, piece_type: PieceType::K },
        PieceData { x: 5, y: 1, owner: Owner::Defender, piece_type: PieceType::K },
        PieceData { x: 3, y: 5, owner: Owner::Attacker, piece_type: PieceType::R },
        PieceData { x: 7, y: 5, owner: Owner::Defender, piece_type: PieceType::R },
    ]);
    init.hands.attacker.R = 1;
    assert!(!piece_count_valid(&init)); 
}

#[test]
fn test_piece_count_valid_knights_and_lances() {
    let init = mk_initial(vec![
        PieceData { x: 5, y: 9, owner: Owner::Attacker, piece_type: PieceType::K },
        PieceData { x: 5, y: 1, owner: Owner::Defender, piece_type: PieceType::K },
        PieceData { x: 1, y: 5, owner: Owner::Attacker, piece_type: PieceType::N },
        PieceData { x: 2, y: 5, owner: Owner::Attacker, piece_type: PieceType::N },
        PieceData { x: 3, y: 5, owner: Owner::Defender, piece_type: PieceType::N },
        PieceData { x: 4, y: 5, owner: Owner::Defender, piece_type: PieceType::N },
    ]);
    assert!(piece_count_valid(&init)); 
}



#[test]
fn test_structural_signature_mirror_equal() {
    let init = mk_initial(vec![
        PieceData { x: 3, y: 1, owner: Owner::Defender, piece_type: PieceType::K },
        PieceData { x: 5, y: 9, owner: Owner::Attacker, piece_type: PieceType::K },
        PieceData { x: 2, y: 2, owner: Owner::Attacker, piece_type: PieceType::G },
    ]);
    let mirrored = init.mirror();
    assert_eq!(structural_signature(&init), structural_signature(&mirrored));
}

#[test]
fn test_structural_signature_different_positions() {
    let init1 = mk_initial(vec![
        PieceData { x: 5, y: 1, owner: Owner::Defender, piece_type: PieceType::K },
        PieceData { x: 5, y: 9, owner: Owner::Attacker, piece_type: PieceType::K },
        PieceData { x: 4, y: 2, owner: Owner::Attacker, piece_type: PieceType::G },
    ]);
    let init2 = mk_initial(vec![
        PieceData { x: 5, y: 1, owner: Owner::Defender, piece_type: PieceType::K },
        PieceData { x: 5, y: 9, owner: Owner::Attacker, piece_type: PieceType::K },
        PieceData { x: 6, y: 3, owner: Owner::Attacker, piece_type: PieceType::G },
    ]);
    assert_ne!(structural_signature(&init1), structural_signature(&init2));
}

#[test]
fn test_structural_signature_slider_distance_ignored() {
    
    let init1 = mk_initial(vec![
        PieceData { x: 5, y: 1, owner: Owner::Defender, piece_type: PieceType::K },
        PieceData { x: 5, y: 9, owner: Owner::Attacker, piece_type: PieceType::K },
        PieceData { x: 3, y: 3, owner: Owner::Attacker, piece_type: PieceType::B },
    ]);
    let init2 = mk_initial(vec![
        PieceData { x: 5, y: 1, owner: Owner::Defender, piece_type: PieceType::K },
        PieceData { x: 5, y: 9, owner: Owner::Attacker, piece_type: PieceType::K },
        PieceData { x: 2, y: 4, owner: Owner::Attacker, piece_type: PieceType::B },
    ]);
    assert_eq!(structural_signature(&init1), structural_signature(&init2));
}

#[test]
fn test_structural_signature_slider_different_direction() {
    
    let init1 = mk_initial(vec![
        PieceData { x: 5, y: 1, owner: Owner::Defender, piece_type: PieceType::K },
        PieceData { x: 5, y: 9, owner: Owner::Attacker, piece_type: PieceType::K },
        PieceData { x: 3, y: 3, owner: Owner::Attacker, piece_type: PieceType::B },
    ]);
    
    let init2 = mk_initial(vec![
        PieceData { x: 5, y: 1, owner: Owner::Defender, piece_type: PieceType::K },
        PieceData { x: 5, y: 9, owner: Owner::Attacker, piece_type: PieceType::K },
        PieceData { x: 5, y: 3, owner: Owner::Attacker, piece_type: PieceType::B },
    ]);
    assert_ne!(structural_signature(&init1), structural_signature(&init2));
}

#[test]
fn test_structural_signature_non_slider_position_matters() {
    
    let init1 = mk_initial(vec![
        PieceData { x: 5, y: 1, owner: Owner::Defender, piece_type: PieceType::K },
        PieceData { x: 5, y: 9, owner: Owner::Attacker, piece_type: PieceType::K },
        PieceData { x: 4, y: 2, owner: Owner::Attacker, piece_type: PieceType::G },
    ]);
    let init2 = mk_initial(vec![
        PieceData { x: 5, y: 1, owner: Owner::Defender, piece_type: PieceType::K },
        PieceData { x: 5, y: 9, owner: Owner::Attacker, piece_type: PieceType::K },
        PieceData { x: 3, y: 3, owner: Owner::Attacker, piece_type: PieceType::G },
    ]);
    assert_ne!(structural_signature(&init1), structural_signature(&init2));
}



#[test]
fn test_difficulty_score_no_hand_easier() {
    let init_easy = mk_initial(vec![
        PieceData { x: 5, y: 9, owner: Owner::Attacker, piece_type: PieceType::K },
        PieceData { x: 5, y: 1, owner: Owner::Defender, piece_type: PieceType::K },
        PieceData { x: 5, y: 3, owner: Owner::Attacker, piece_type: PieceType::G },
    ]);
    let sol_easy = vec![Move { from: Some([5, 3]), to: [5, 2], drop: None, promote: false }];

    let mut init_hard = init_easy.clone();
    init_hard.hands.attacker.R = 1;
    let sol_hard = vec![Move { from: None, to: [5, 2], drop: Some(PieceType::R), promote: false }];

    let easy = difficulty_score(&init_easy, &sol_easy);
    let hard = difficulty_score(&init_hard, &sol_hard);
    assert!(hard > easy, "a rook in hand should make it harder: easy={}, hard={}", easy, hard);
}



#[test]
fn test_score_puzzle_positive() {
    let init = mk_initial(vec![
        PieceData { x: 5, y: 9, owner: Owner::Attacker, piece_type: PieceType::K },
        PieceData { x: 5, y: 1, owner: Owner::Defender, piece_type: PieceType::K },
        PieceData { x: 5, y: 3, owner: Owner::Attacker, piece_type: PieceType::G },
    ]);
    let sol = vec![Move { from: Some([5, 3]), to: [5, 2], drop: None, promote: false }];
    let score = score_puzzle(&init, &sol);
    assert!(score > 0);
}



#[test]
fn test_composition_key_same_pieces_same_key() {
    let init1 = mk_initial(vec![
        PieceData { x: 5, y: 9, owner: Owner::Attacker, piece_type: PieceType::K },
        PieceData { x: 5, y: 1, owner: Owner::Defender, piece_type: PieceType::K },
        PieceData { x: 3, y: 5, owner: Owner::Attacker, piece_type: PieceType::G },
    ]);
    let init2 = mk_initial(vec![
        PieceData { x: 5, y: 9, owner: Owner::Attacker, piece_type: PieceType::K },
        PieceData { x: 5, y: 1, owner: Owner::Defender, piece_type: PieceType::K },
        PieceData { x: 7, y: 3, owner: Owner::Attacker, piece_type: PieceType::G },
    ]);
    assert_eq!(composition_key(&init1), composition_key(&init2));
}

#[test]
fn test_composition_key_different_pieces() {
    let init1 = mk_initial(vec![
        PieceData { x: 5, y: 9, owner: Owner::Attacker, piece_type: PieceType::K },
        PieceData { x: 5, y: 1, owner: Owner::Defender, piece_type: PieceType::K },
        PieceData { x: 3, y: 5, owner: Owner::Attacker, piece_type: PieceType::G },
    ]);
    let init2 = mk_initial(vec![
        PieceData { x: 5, y: 9, owner: Owner::Attacker, piece_type: PieceType::K },
        PieceData { x: 5, y: 1, owner: Owner::Defender, piece_type: PieceType::K },
        PieceData { x: 3, y: 5, owner: Owner::Attacker, piece_type: PieceType::S },
    ]);
    assert_ne!(composition_key(&init1), composition_key(&init2));
}



#[test]
fn test_random_candidate_1_generates_valid() {
    let mut rng = Rng::new(42);
    let params = candidate_params(1);
    let mut found = false;
    for _ in 0..100 {
        if let Some(init) = random_candidate(&mut rng, &params) {
            assert!(basic_validity(&init));
            found = true;
            break;
        }
    }
    assert!(found, "no mate-in-one candidate in 100 tries");
}

#[test]
fn test_random_candidate_3_generates_valid() {
    let mut rng = Rng::new(42);
    let params = candidate_params(3);
    let mut found = false;
    for _ in 0..100 {
        if let Some(init) = random_candidate(&mut rng, &params) {
            assert!(basic_validity(&init));
            found = true;
            break;
        }
    }
    assert!(found, "no mate-in-three candidate in 100 tries");
}

#[test]
fn test_random_candidate_5_generates_valid() {
    let mut rng = Rng::new(42);
    let params = candidate_params(5);
    let mut found = false;
    for _ in 0..100 {
        if let Some(init) = random_candidate(&mut rng, &params) {
            assert!(basic_validity(&init));
            found = true;
            break;
        }
    }
    assert!(found, "no mate-in-five candidate in 100 tries");
}



#[test]
fn test_mutate_produces_valid_or_none() {
    let base = mk_initial(vec![
        PieceData { x: 5, y: 9, owner: Owner::Attacker, piece_type: PieceType::K },
        PieceData { x: 5, y: 1, owner: Owner::Defender, piece_type: PieceType::K },
        PieceData { x: 3, y: 3, owner: Owner::Attacker, piece_type: PieceType::G },
        PieceData { x: 7, y: 3, owner: Owner::Attacker, piece_type: PieceType::S },
    ]);
    let mut rng = Rng::new(42);
    for _ in 0..50 {
        if let Some(mutated) = mutate_initial(&mut rng, &base) {
            assert!(basic_validity(&mutated), "a variation failed the basic check");
        }
    }
}



#[test]
fn test_diversify_order_keeps_all() {
    let pool: Vec<(InitialData, Vec<Move>, i32)> = (0..10).map(|i| {
        let init = mk_initial(vec![
            PieceData { x: 5, y: 9, owner: Owner::Attacker, piece_type: PieceType::K },
            PieceData { x: (i % 8 + 1) as i8, y: 1, owner: Owner::Defender, piece_type: PieceType::K },
            PieceData { x: 3, y: 5, owner: Owner::Attacker, piece_type: PieceType::G },
        ]);
        let sol = vec![Move { from: Some([3, 5]), to: [3, 4], drop: None, promote: false }];
        (init, sol, i)
    }).collect();
    let result = diversify_order(pool);
    assert_eq!(result.len(), 10);
}

#[test]
fn test_diversify_order_empty() {
    let result = diversify_order(vec![]);
    assert!(result.is_empty());
}



#[test]
fn test_count_sacrifices_none() {
    
    let sol = vec![
        Move { from: Some([3, 3]), to: [3, 2], drop: None, promote: false },
    ];
    assert_eq!(count_sacrifices(&sol), 0);
}

#[test]
fn test_count_sacrifices_one() {
    
    let sol = vec![
        Move { from: None, to: [5, 3], drop: Some(PieceType::G), promote: false },
        Move { from: Some([5, 1]), to: [5, 3], drop: None, promote: false },
        Move { from: Some([3, 2]), to: [4, 2], drop: None, promote: false },
    ];
    assert_eq!(count_sacrifices(&sol), 1);
}

#[test]
fn test_count_sacrifices_not_same_square() {
    
    let sol = vec![
        Move { from: Some([3, 3]), to: [3, 2], drop: None, promote: false },
        Move { from: Some([5, 1]), to: [4, 1], drop: None, promote: false },
        Move { from: Some([3, 2]), to: [4, 2], drop: None, promote: true },
    ];
    assert_eq!(count_sacrifices(&sol), 0);
}

#[test]
fn test_score_puzzle_includes_sacrifice() {
    let init = mk_initial(vec![
        PieceData { x: 5, y: 1, owner: Owner::Defender, piece_type: PieceType::K },
        PieceData { x: 3, y: 3, owner: Owner::Attacker, piece_type: PieceType::G },
        PieceData { x: 3, y: 2, owner: Owner::Attacker, piece_type: PieceType::S },
    ]);
    
    let sol_with = vec![
        Move { from: Some([3, 3]), to: [5, 3], drop: None, promote: false },
        Move { from: Some([5, 1]), to: [5, 3], drop: None, promote: false },
        Move { from: Some([3, 2]), to: [4, 2], drop: None, promote: false },
    ];
    
    let sol_without = vec![
        Move { from: Some([3, 3]), to: [4, 2], drop: None, promote: false },
        Move { from: Some([5, 1]), to: [4, 1], drop: None, promote: false },
        Move { from: Some([3, 2]), to: [4, 1], drop: None, promote: false },
    ];
    let score_with = score_puzzle(&init, &sol_with);
    let score_without = score_puzzle(&init, &sol_without);
    assert!(score_with > score_without, "a sacrifice should score higher");
}


#[test]
fn composition_keys_are_written_in_full() {
    let mut init = mk_initial(vec![
        PieceData { x: 5, y: 1, owner: Owner::Defender, piece_type: PieceType::K },
        PieceData { x: 3, y: 5, owner: Owner::Attacker, piece_type: PieceType::PS },
        PieceData { x: 4, y: 5, owner: Owner::Attacker, piece_type: PieceType::G },
        PieceData { x: 6, y: 2, owner: Owner::Defender, piece_type: PieceType::P },
    ]);
    init.hands.attacker.R = 1;
    init.hands.attacker.P = 12;
    assert_eq!(composition_key(&init), "a:GS d:P h:R1B0G0S0N0L0P12");
    assert_eq!(shogi_core::keys::attacker_composition_key(&init), "a:GS h:R1B0G0S0N0L0P12");
}

#[test]
fn problem_identifier_is_djb2_in_hex() {
    assert_eq!(shogi_core::keys::djb2_hex(b""), "00001505");
    assert_eq!(shogi_core::keys::djb2_hex(b"a"), "0002b606");
}

#[test]
fn score_and_difficulty_have_exact_values() {
    let mut init = mk_initial(vec![
        PieceData { x: 5, y: 1, owner: Owner::Defender, piece_type: PieceType::K },
        PieceData { x: 3, y: 3, owner: Owner::Attacker, piece_type: PieceType::G },
        PieceData { x: 3, y: 2, owner: Owner::Attacker, piece_type: PieceType::S },
        PieceData { x: 6, y: 2, owner: Owner::Defender, piece_type: PieceType::P },
    ]);
    let sol = vec![
        Move { from: None, to: [5, 3], drop: Some(PieceType::G), promote: false },
        Move { from: Some([5, 1]), to: [5, 3], drop: None, promote: false },
        Move { from: Some([3, 2]), to: [4, 2], drop: None, promote: true },
    ];
    assert_eq!(score_puzzle(&init, &sol), 2 * 2 + 5 + 3 + 6 + 2 * 2);
    init.hands.attacker.G = 1;
    assert_eq!(difficulty_score(&init, &sol), 10 + 5 + 3 + 4 + 2 + 2);
}

#[test]
fn validate_and_prune_finds_a_mate_in_one() {
    let mut init = mk_initial(vec![
        PieceData { x: 1, y: 1, owner: Owner::Defender, piece_type: PieceType::K },
        PieceData { x: 2, y: 1, owner: Owner::Attacker, piece_type: PieceType::S },
        PieceData { x: 5, y: 9, owner: Owner::Attacker, piece_type: PieceType::K },
    ]);
    init.hands.attacker.G = 1;
    let (fin, sol, score) = shogi_core::generate::validate_and_prune(&init, 1).expect("a mate in one");
    assert_eq!(sol.len(), 1);
    assert_eq!(score, score_puzzle(&fin, &sol));
    assert!(fin.pieces.iter().all(|p| !(p.owner == Owner::Attacker && p.piece_type == PieceType::K)));
}

#[test]
fn quick_reject_turns_down_a_position_already_in_check() {
    let init = mk_initial(vec![
        PieceData { x: 5, y: 1, owner: Owner::Defender, piece_type: PieceType::K },
        PieceData { x: 5, y: 5, owner: Owner::Attacker, piece_type: PieceType::R },
    ]);
    assert!(shogi_core::generate::quick_reject(&init, 1));
}

#[test]
fn normalize_right_mirrors_a_king_on_the_left() {
    let init = mk_initial(vec![PieceData { x: 8, y: 1, owner: Owner::Defender, piece_type: PieceType::K }]);
    let sol = vec![Move { from: Some([7, 3]), to: [8, 2], drop: None, promote: false }];
    let (d, l) = shogi_core::generate::normalize_right(init, sol);
    assert_eq!(d.pieces[0].x, 2);
    assert_eq!(l[0].to, [2, 2]);
    assert_eq!(l[0].from, Some([3, 3]));
}

#[test]
fn puzzle_set_drops_repeats_and_caps_make_ups() {
    let mut set = shogi_core::collect::PuzzleSet::new();
    let mk = |x: i8| mk_initial(vec![
        PieceData { x: 1, y: 1, owner: Owner::Defender, piece_type: PieceType::K },
        PieceData { x, y: 5, owner: Owner::Attacker, piece_type: PieceType::G },
    ]);
    assert!(set.add_new(mk(3), vec![], 1));
    assert!(!set.add_new(mk(3), vec![], 1));
    assert!(set.add_new(mk(4), vec![], 1));
    assert!(set.add_new(mk(5), vec![], 1));
    assert!(!set.add_new(mk(6), vec![], 1));
    assert!(set.keep(mk(7), vec![], 1));
    assert_eq!(set.len(), 4);
    assert_eq!(set.into_results().len(), 4);
}

fn mate_in_one_with(extra_pawn: bool) -> InitialData {
    let mut init = mk_initial(vec![
        PieceData { x: 1, y: 1, owner: Owner::Defender, piece_type: PieceType::K },
        PieceData { x: 2, y: 1, owner: Owner::Attacker, piece_type: PieceType::S },
    ]);
    init.hands.attacker.G = 1;
    if extra_pawn {
        init.hands.attacker.P = 1;
    }
    init
}

#[test]
fn unused_pieces_in_hand_are_found_and_taken_out() {
    let sol = vec![Move { from: None, to: [1, 2], drop: Some(PieceType::G), promote: false }];
    assert!(shogi_core::generate::has_leftover_pieces(&mate_in_one_with(true), &sol));
    assert!(!shogi_core::generate::has_leftover_pieces(&mate_in_one_with(false), &sol));
    let (d, l) = shogi_core::generate::strip_unused_hand(mate_in_one_with(true), sol.clone(), 1).expect("still a problem");
    assert_eq!(d.hands.attacker.P, 0);
    assert_eq!(d.hands.attacker.G, 1);
    assert_eq!(l, sol);
    let (d2, l2) = shogi_core::generate::strip_unused_hand(mate_in_one_with(false), sol.clone(), 1).unwrap();
    assert_eq!(d2.hands.attacker.G, 1);
    assert_eq!(l2, sol);
}

#[test]
fn pruning_drops_a_piece_the_problem_does_not_need() {
    let mut init = mate_in_one_with(false);
    init.pieces.push(PieceData { x: 9, y: 5, owner: Owner::Defender, piece_type: PieceType::P });
    let pruned = shogi_core::generate::prune_initial(&init, 1);
    assert_eq!(pruned.pieces.len(), 2);
    assert!(pruned.pieces.iter().all(|p| !(p.owner == Owner::Defender && p.piece_type == PieceType::P)));
}

#[test]
fn earlier_problems_are_checked_again() {
    let (d, l) = shogi_core::collect::check_existing(&mate_in_one_with(false), 1).expect("a valid problem");
    assert_eq!(l.len(), 1);
    assert_eq!(d.pieces.len(), 2);
    assert!(shogi_core::collect::check_existing(&mate_in_one_with(true), 1).is_none());
}

#[test]
fn random_attempts_yield_problems_of_the_asked_length() {
    for i in 0..300 {
        if let Some((d, sol, score)) = shogi_core::collect::attempt_random(7, i, 1) {
            assert_eq!(sol.len(), 1);
            assert_eq!(score, score_puzzle(&d, &sol));
        }
    }
}

#[test]
fn phases_share_the_attempts_by_method() {
    assert_eq!(backward_attempts(GenerateMethod::Both, 1001), 500);
    assert_eq!(backward_attempts(GenerateMethod::Random, 1001), 0);
    assert_eq!(random_attempts(GenerateMethod::Backward, 1001), 0);
    assert_eq!(random_attempts(GenerateMethod::Both, 1001), 1001);
    assert_eq!(shogi_core::collect::extend_steps(9, 5), 2);
    assert_eq!(shogi_core::collect::batch_bounds(2, 1000, 2500), (2000, 2500));
}

#[test]
fn a_problem_and_its_mirror_share_their_signature_but_not_a_moved_gold() {
    let a = mk_initial(vec![
        PieceData { x: 2, y: 1, owner: Owner::Defender, piece_type: PieceType::K },
        PieceData { x: 4, y: 3, owner: Owner::Attacker, piece_type: PieceType::G },
        PieceData { x: 3, y: 5, owner: Owner::Attacker, piece_type: PieceType::R },
    ]);
    assert_eq!(structural_signature(&a), structural_signature(&a.mirror()));
    let mut b = a.clone();
    b.pieces[1].y = 4;
    assert_ne!(structural_signature(&a), structural_signature(&b));
    assert_eq!(structural_signature(&mk_initial(vec![])), "");
}

#[test]
fn canonical_piece_order_puts_the_attacker_first() {
    let init = mk_initial(vec![
        PieceData { x: 5, y: 1, owner: Owner::Defender, piece_type: PieceType::K },
        PieceData { x: 3, y: 5, owner: Owner::Attacker, piece_type: PieceType::S },
        PieceData { x: 3, y: 2, owner: Owner::Attacker, piece_type: PieceType::G },
    ]);
    let ordered = shogi_core::keys::hash_order(&init);
    assert_eq!(ordered.pieces[0], PieceData { x: 3, y: 2, owner: Owner::Attacker, piece_type: PieceType::G });
    assert_eq!(ordered.pieces[1], PieceData { x: 3, y: 5, owner: Owner::Attacker, piece_type: PieceType::S });
    assert_eq!(ordered.pieces[2].owner, Owner::Defender);
}

#[test]
fn easier_problems_come_first_after_ordering() {
    let pool: Vec<(InitialData, Vec<Move>, i32)> = (0..8)
        .map(|i| {
            let mut init = mk_initial(vec![
                PieceData { x: 5, y: 1, owner: Owner::Defender, piece_type: PieceType::K },
                PieceData { x: 3, y: 5, owner: Owner::Attacker, piece_type: PieceType::G },
            ]);
            init.hands.attacker.P = (7 - i) as u8;
            (init, vec![], i)
        })
        .collect();
    let result = diversify_order(pool);
    assert_eq!(result.len(), 8);
    let hand = |e: &(InitialData, Vec<Move>, i32)| e.0.hands.attacker.P;
    for a in 0..8 {
        for b in 0..8 {
            if a / 2 < b / 2 {
                assert!(hand(&result[a]) <= hand(&result[b]));
            }
        }
    }
}

#[test]
fn a_far_rook_is_brought_to_four_squares_from_the_king() {
    let mut init = mk_initial(vec![
        PieceData { x: 1, y: 1, owner: Owner::Defender, piece_type: PieceType::K },
        PieceData { x: 2, y: 1, owner: Owner::Attacker, piece_type: PieceType::S },
        PieceData { x: 9, y: 1, owner: Owner::Attacker, piece_type: PieceType::R },
    ]);
    init.hands.attacker.G = 1;
    let sol = vec![Move { from: None, to: [1, 2], drop: Some(PieceType::G), promote: false }];
    let (d, l) = shogi_core::generate::normalize_slider_distance(init.clone(), sol.clone(), 1);
    assert_eq!(d.pieces.len(), 3);
    assert_eq!((d.pieces[0].x, d.pieces[0].y), (1, 1));
    assert_eq!((d.pieces[1].x, d.pieces[1].y), (2, 1));
    assert_eq!((d.pieces[2].x, d.pieces[2].y, d.pieces[2].piece_type), (5, 1, PieceType::R));
    assert_eq!(l, sol);
    assert_eq!(d.hands.attacker.G, 1);
}

#[test]
fn a_rook_within_four_squares_of_the_king_stays() {
    let init = mk_initial(vec![
        PieceData { x: 1, y: 1, owner: Owner::Defender, piece_type: PieceType::K },
        PieceData { x: 1, y: 4, owner: Owner::Attacker, piece_type: PieceType::R },
    ]);
    let sol: Vec<Move> = Vec::new();
    let (d, l) = shogi_core::generate::normalize_slider_distance(init.clone(), sol.clone(), 1);
    assert_eq!((d.pieces[1].x, d.pieces[1].y), (1, 4));
    assert!(l.is_empty());
}
