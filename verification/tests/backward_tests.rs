use std::collections::HashSet;

use shogi_core::attacks::is_in_check;
use shogi_core::backward::{backward_candidate, extend_candidate, generate_mated_position, unwind_defender_interpose};
use shogi_core::legal::has_any_legal_move;
use shogi_core::pieces::{Owner, PieceType};
use shogi_core::rng::Rng;

#[test]
fn test_generate_mated_position() {
    let mut found = 0;
    for seed in 0..100 {
        let mut rng = Rng::new(seed + 1);
        if generate_mated_position(&mut rng).is_some() {
            found += 1;
        }
    }
    assert!(found > 0, "no mated position in 100 seeds");
}

#[test]
fn test_backward_candidate_1mate() {
    let mut found = 0;
    for seed in 0..200 {
        if backward_candidate(seed + 1, 1).is_some() {
            found += 1;
        }
    }
    assert!(found > 0, "no mate-in-one candidate in 200 seeds");
}

#[test]
fn test_backward_candidate_3mate() {
    let mut found = 0;
    for seed in 0..500 {
        if backward_candidate(seed + 1, 3).is_some() {
            found += 1;
        }
    }
    assert!(found > 0, "no mate-in-three candidate in 500 seeds");
}

#[test]
fn test_backward_candidate_5mate() {
    let mut found = 0;
    for seed in 0..1000 {
        if backward_candidate(seed + 1, 5).is_some() {
            found += 1;
        }
    }
    assert!(found > 0, "no mate-in-five candidate in 1000 seeds");
}

#[test]
fn test_backward_candidate_produces_valid_board() {
    for seed in 0..100 {
        if let Some(init) = backward_candidate(seed + 1, 1) {
            let dk = init.pieces.iter().find(|p| p.owner == Owner::Defender && p.piece_type == PieceType::K);
            assert!(dk.is_some(), "no defender king");
            for p in &init.pieces {
                assert!(p.x >= 1 && p.x <= 9, "x out of range: {}", p.x);
                assert!(p.y >= 1 && p.y <= 9, "y out of range: {}", p.y);
            }
            let mut pos_set = HashSet::new();
            for p in &init.pieces {
                assert!(pos_set.insert((p.x, p.y)), "two pieces on ({}, {})", p.x, p.y);
            }
        }
    }
}

#[test]
fn test_extend_candidate() {
    let mut sources = Vec::new();
    for seed in 0..500 {
        if let Some(init) = backward_candidate(seed + 1, 1) {
            sources.push(init);
            if sources.len() >= 10 {
                break;
            }
        }
    }
    assert!(!sources.is_empty(), "no source candidate");
    let mut found = 0;
    for (i, src) in sources.iter().enumerate() {
        for attempt in 0..50 {
            let rng_seed = (i * 100 + attempt) as u64 + 1;
            if extend_candidate(rng_seed, src).is_some() {
                found += 1;
                break;
            }
        }
    }
    assert!(found > 0, "the extension found no candidate");
}

#[test]
fn test_interpose_unwind() {
    let mut found = 0;
    for seed in 0..200 {
        let mut rng = Rng::new(seed + 1);
        if let Some(mated) = generate_mated_position(&mut rng) {
            let dk_pos = mated.king_pos(Owner::Defender).unwrap();
            if let Some(_s) = unwind_defender_interpose(&mut rng, &mated, dk_pos) {
                found += 1;
            }
        }
    }
    assert!(found <= 200);
}

#[test]
fn generated_mated_positions_are_checkmate() {
    for seed in 0..50 {
        let mut rng = Rng::new(seed + 1);
        if let Some(mut s) = generate_mated_position(&mut rng) {
            assert!(is_in_check(&s, Owner::Defender));
            assert_eq!(s.side_to_move, Owner::Attacker);
            s.side_to_move = Owner::Defender;
            assert!(!has_any_legal_move(&mut s));
        }
    }
}

#[test]
fn backward_candidates_start_with_the_attacker_to_move() {
    for seed in 0..100 {
        if let Some(init) = backward_candidate(seed + 1, 3) {
            assert_eq!(init.side_to_move, Owner::Attacker);
        }
    }
}

#[test]
fn mated_positions_keep_the_king_on_the_first_two_rows() {
    let mut found = 0;
    for seed in 1..300u64 {
        let mut rng = Rng::new(seed);
        if let Some(s) = generate_mated_position(&mut rng) {
            found += 1;
            let k = s.king_pos(Owner::Defender).expect("the defender's king");
            assert!(k.y == 1 || k.y == 2);
            assert!(!shogi_core::legal::state_has_dead_end_pieces(&s));
            assert!(is_in_check(&s, Owner::Defender));
        }
    }
    assert!(found > 0);
}
