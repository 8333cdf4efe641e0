use vstd::prelude::*;
use crate::pieces::{BoardPiece, Owner, PieceType, spec_hand_idx};

verus! {

/// One xorshift64 step (13, 7, 17).
pub open spec fn xorshift64(x: u64) -> u64 {
    let a = x ^ (x << 13u64);
    let b = a ^ (a >> 7u64);
    b ^ (b << 17u64)
}

pub fn xorshift64_exec(x: u64) -> (r: u64)
    ensures
        r == xorshift64(x),
{
    let a = x ^ (x << 13u64);
    let b = a ^ (a >> 7u64);
    b ^ (b << 17u64)
}

/// The pseudo-random Zobrist key with number `i`.
pub open spec fn zobrist_key(i: u64) -> u64 {
    xorshift64(xorshift64(xorshift64(0xDEAD_BEEF_CAFE_BABEu64 ^ (i << 32u64) ^ i)))
}

fn zobrist_key_exec(i: u64) -> (r: u64)
    ensures
        r == zobrist_key(i),
{
    xorshift64_exec(xorshift64_exec(xorshift64_exec(0xDEAD_BEEF_CAFE_BABEu64 ^ (i << 32u64) ^ i)))
}

pub open spec fn owner_index(o: Owner) -> int {
    match o {
        Owner::Attacker => 0,
        Owner::Defender => 1,
    }
}

pub open spec fn piece_type_index(t: PieceType) -> int {
    match t {
        PieceType::K => 0,
        PieceType::R => 1,
        PieceType::B => 2,
        PieceType::G => 3,
        PieceType::S => 4,
        PieceType::N => 5,
        PieceType::L => 6,
        PieceType::P => 7,
        PieceType::PR => 8,
        PieceType::PB => 9,
        PieceType::PS => 10,
        PieceType::PN => 11,
        PieceType::PL => 12,
        PieceType::PP => 13,
    }
}

fn owner_index_exec(o: Owner) -> (r: u64)
    ensures
        r as int == owner_index(o),
{
    match o {
        Owner::Attacker => 0,
        Owner::Defender => 1,
    }
}

fn piece_type_index_exec(t: PieceType) -> (r: u64)
    ensures
        r as int == piece_type_index(t),
{
    match t {
        PieceType::K => 0,
        PieceType::R => 1,
        PieceType::B => 2,
        PieceType::G => 3,
        PieceType::S => 4,
        PieceType::N => 5,
        PieceType::L => 6,
        PieceType::P => 7,
        PieceType::PR => 8,
        PieceType::PB => 9,
        PieceType::PS => 10,
        PieceType::PN => 11,
        PieceType::PL => 12,
        PieceType::PP => 13,
    }
}

/// Key of a piece standing on square `sq` (0..81).
pub open spec fn board_key(bp: BoardPiece, sq: int) -> u64 {
    zobrist_key(((owner_index(bp.owner) * 14 + piece_type_index(bp.piece_type)) * 81 + sq) as u64)
}

/// Key of `count` pieces of hand kind `t` held by `owner`.
pub open spec fn hand_key(owner: Owner, t: PieceType, count: u8) -> u64 {
    zobrist_key((2268 + (owner_index(owner) * 7 + spec_hand_idx(t)) * 256 + count) as u64)
}

/// Key mixed in while the attacker is to move.
pub open spec fn side_key() -> u64 {
    zobrist_key(5852u64)
}

/// Contribution of one square to the hash.
pub open spec fn sq_hash(p: Option<BoardPiece>, sq: int) -> u64 {
    match p {
        Some(bp) => board_key(bp, sq),
        None => 0,
    }
}

pub fn board_key_exec(bp: BoardPiece, sq: usize) -> (r: u64)
    requires
        sq < 81,
    ensures
        r == board_key(bp, sq as int),
{
    let o = owner_index_exec(bp.owner);
    let t = piece_type_index_exec(bp.piece_type);
    zobrist_key_exec((o * 14 + t) * 81 + sq as u64)
}

pub fn sq_hash_exec(p: Option<BoardPiece>, sq: usize) -> (r: u64)
    requires
        sq < 81,
    ensures
        r == sq_hash(p, sq as int),
{
    match p {
        Some(bp) => board_key_exec(bp, sq),
        None => 0,
    }
}

pub fn hand_key_exec(owner: Owner, hand_idx: usize, count: u8) -> (r: u64)
    requires
        hand_idx < 7,
    ensures
        forall|t: PieceType| spec_hand_idx(t) == hand_idx as int ==> r == hand_key(owner, t, count),
{
    let o = owner_index_exec(owner);
    zobrist_key_exec(2268 + (o * 7 + hand_idx as u64) * 256 + count as u64)
}

pub fn side_key_exec() -> (r: u64)
    ensures
        r == side_key(),
{
    zobrist_key_exec(5852u64)
}

pub proof fn lemma_xor_assoc(a: u64, b: u64, c: u64)
    ensures
        (a ^ b) ^ c == a ^ (b ^ c),
        a ^ b == b ^ a,
        a ^ 0 == a,
        a ^ a == 0,
        0 ^ a == a,
{
    assert((a ^ b) ^ c == a ^ (b ^ c)) by (bit_vector);
    assert(a ^ b == b ^ a) by (bit_vector);
    assert(a ^ 0 == a) by (bit_vector);
    assert(a ^ a == 0) by (bit_vector);
    assert(0 ^ a == a) by (bit_vector);
}

} // verus!
