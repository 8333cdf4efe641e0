use shogi_core::attacks::is_between;
use shogi_core::pieces::{Hands, Owner, PieceType, Pos, HAND_TYPES};

#[test]
fn shogi_test_promote_unpromote() {
    let promotable = [PieceType::R, PieceType::B, PieceType::S, PieceType::N, PieceType::L, PieceType::P];
    let promoted = [PieceType::PR, PieceType::PB, PieceType::PS, PieceType::PN, PieceType::PL, PieceType::PP];
    for (base, prom) in promotable.iter().zip(promoted.iter()) {
        assert!(base.is_promotable());
        assert_eq!(base.promote(), *prom);
        assert_eq!(prom.unpromote(), *base);
        assert!(!base.is_promoted());
        assert!(prom.is_promoted());
    }
}

#[test]
fn shogi_test_non_promotable() {
    assert!(!PieceType::K.is_promotable());
    assert!(!PieceType::G.is_promotable());
    assert_eq!(PieceType::K.promote(), PieceType::K);
    assert_eq!(PieceType::G.promote(), PieceType::G);
}

#[test]
fn shogi_test_is_hand_type() {
    for &t in &HAND_TYPES {
        assert!(t.is_hand_type());
    }
    assert!(!PieceType::K.is_hand_type());
    assert!(!PieceType::PR.is_hand_type());
}

#[test]
fn shogi_test_owner_opposite() {
    assert_eq!(Owner::Attacker.opposite(), Owner::Defender);
    assert_eq!(Owner::Defender.opposite(), Owner::Attacker);
}

#[test]
fn shogi_test_pos_validity() {
    assert!(Pos::new(1, 1).is_valid());
    assert!(Pos::new(9, 9).is_valid());
    assert!(!Pos::new(0, 1).is_valid());
    assert!(!Pos::new(1, 10).is_valid());
}

#[test]
fn shogi_test_hands_operations() {
    let mut h = Hands::empty();
    assert_eq!(h.get(Owner::Attacker, PieceType::P), 0);
    h.add(Owner::Attacker, PieceType::P, 3);
    assert_eq!(h.get(Owner::Attacker, PieceType::P), 3);
    h.sub(Owner::Attacker, PieceType::P, 1);
    assert_eq!(h.get(Owner::Attacker, PieceType::P), 2);
    h.sub(Owner::Attacker, PieceType::P, 10);
    assert_eq!(h.get(Owner::Attacker, PieceType::P), 0);
}

#[test]
fn shogi_test_hands_each_type() {
    let mut h = Hands::empty();
    for &t in &HAND_TYPES {
        h.add(Owner::Attacker, t, 1);
        assert_eq!(h.get(Owner::Attacker, t), 1);
        assert_eq!(h.get(Owner::Defender, t), 0);
    }
}

#[test]
fn test_is_between() {
    assert!(is_between(Pos::new(5, 5), Pos::new(5, 1), Pos::new(5, 3)));
    assert!(is_between(Pos::new(5, 5), Pos::new(5, 1), Pos::new(5, 2)));
    assert!(!is_between(Pos::new(5, 5), Pos::new(5, 1), Pos::new(5, 5)));
    assert!(!is_between(Pos::new(5, 5), Pos::new(5, 1), Pos::new(5, 1)));
    assert!(!is_between(Pos::new(5, 5), Pos::new(5, 1), Pos::new(4, 3)));
    assert!(is_between(Pos::new(1, 5), Pos::new(5, 5), Pos::new(3, 5)));
    assert!(!is_between(Pos::new(1, 5), Pos::new(5, 5), Pos::new(3, 4)));
    assert!(is_between(Pos::new(1, 1), Pos::new(5, 5), Pos::new(3, 3)));
    assert!(!is_between(Pos::new(1, 1), Pos::new(5, 5), Pos::new(3, 4)));
}

#[test]
fn promoted_kinds_are_not_hand_kinds_and_unpromote_is_identity_on_base() {
    for &t in &HAND_TYPES {
        assert_eq!(t.unpromote(), t);
    }
    assert_eq!(PieceType::K.unpromote(), PieceType::K);
    assert_eq!(PieceType::PP.unpromote(), PieceType::P);
}
