use vstd::prelude::*;
use crate::pieces::{Owner, PieceType};
use crate::initial::{HandCount, HandsData, InitialData, PieceData, piece_pos};
use crate::generate::{count_where, is_dk, has_dk, on_board, find_dk, one_if, lemma_count_where_le};
use crate::notation::{kind_name, nat_chars, push_kind, push_u8, push_u32};

verus! {

/// `s` repeated `n` times.
pub open spec fn rep(s: Seq<char>, n: nat) -> Seq<char>
    decreases n,
{
    if n == 0 {
        seq![]
    } else {
        rep(s, (n - 1) as nat) + s
    }
}

/// Pieces of `owner` (kings aside) whose unpromoted kind is `t`.
pub open spec fn base_kind_at(ps: Seq<PieceData>, owner: Owner, t: PieceType) -> spec_fn(int) -> bool {
    |i: int| 0 <= i < ps.len() && ps[i].owner == owner && ps[i].piece_type != PieceType::K
        && ps[i].piece_type.spec_unpromote() == t
}

/// The number of pieces of `owner` of unpromoted kind `t`.
pub open spec fn base_count(ps: Seq<PieceData>, owner: Owner, t: PieceType) -> nat {
    count_where(ps.len(), base_kind_at(ps, owner, t))
}

/// `pre` followed by the letters of the kinds of `owner`'s pieces (kings
/// aside, promoted pieces by their base kind) in alphabetical order.
pub open spec fn kind_letters_after(pre: Seq<char>, ps: Seq<PieceData>, owner: Owner) -> Seq<char> {
    pre + rep(kind_name(PieceType::B), base_count(ps, owner, PieceType::B)) + rep(
        kind_name(PieceType::G),
        base_count(ps, owner, PieceType::G),
    ) + rep(kind_name(PieceType::L), base_count(ps, owner, PieceType::L)) + rep(
        kind_name(PieceType::N),
        base_count(ps, owner, PieceType::N),
    ) + rep(kind_name(PieceType::P), base_count(ps, owner, PieceType::P)) + rep(
        kind_name(PieceType::R),
        base_count(ps, owner, PieceType::R),
    ) + rep(kind_name(PieceType::S), base_count(ps, owner, PieceType::S))
}

/// `pre` followed by the attacker's hand written `R..B..G..S..N..L..P..`
/// with the counts.
pub open spec fn hand_text_after(pre: Seq<char>, h: HandCount) -> Seq<char> {
    pre + seq!['R'] + nat_chars(h.R as nat) + seq!['B'] + nat_chars(h.B as nat) + seq!['G'] + nat_chars(h.G as nat)
        + seq!['S'] + nat_chars(h.S as nat) + seq!['N'] + nat_chars(h.N as nat) + seq!['L'] + nat_chars(
        h.L as nat,
    ) + seq!['P'] + nat_chars(h.P as nat)
}

/// The composition key: `a:` and the attacker's kind letters, ` d:` and the
/// defender's, ` h:` and the attacker's hand.
pub open spec fn composition_chars(d: InitialData) -> Seq<char> {
    hand_text_after(
        kind_letters_after(kind_letters_after(seq!['a', ':'], d.pieces@, Owner::Attacker) + seq![' ', 'd', ':'], d.pieces@, Owner::Defender)
            + seq![' ', 'h', ':'],
        d.hands.attacker,
    )
}

/// The attacker's composition key: `a:` and the attacker's kind letters,
/// ` h:` and the attacker's hand.
pub open spec fn attacker_composition_chars(d: InitialData) -> Seq<char> {
    hand_text_after(kind_letters_after(seq!['a', ':'], d.pieces@, Owner::Attacker) + seq![' ', 'h', ':'], d.hands.attacker)
}

/// Law: where the pieces stand does not change a problem's composition keys
/// (the same owners and kinds in the same order, the same attacker hand).
pub proof fn lemma_composition_ignores_squares(a: InitialData, b: InitialData)
    requires
        a.pieces@.len() == b.pieces@.len(),
        forall|i: int| 0 <= i < a.pieces@.len() ==> (#[trigger] a.pieces@[i]).owner == b.pieces@[i].owner
            && a.pieces@[i].piece_type == b.pieces@[i].piece_type,
        a.hands.attacker == b.hands.attacker,
    ensures
        composition_chars(a) == composition_chars(b),
        attacker_composition_chars(a) == attacker_composition_chars(b),
{
    assert forall|o: Owner, t: PieceType| base_count(a.pieces@, o, t) == #[trigger] base_count(b.pieces@, o, t) by {
        assert forall|i: int| 0 <= i < a.pieces@.len() implies #[trigger] base_kind_at(a.pieces@, o, t)(i) == base_kind_at(b.pieces@, o, t)(i) by {
            assert(a.pieces@[i].owner == b.pieces@[i].owner);
        }
        crate::generate::lemma_count_where_ext(a.pieces@.len(), base_kind_at(a.pieces@, o, t), base_kind_at(b.pieces@, o, t));
    }
}

fn base_count_exec(ps: &Vec<PieceData>, owner: Owner, t: PieceType) -> (r: u32)
    requires
        ps@.len() <= 0xFFFF_FFFF,
    ensures
        r == base_count(ps@, owner, t),
{
    let ghost p = base_kind_at(ps@, owner, t);
    let mut c: u32 = 0;
    let mut i: usize = 0;
    while i < ps.len()
        invariant
            i <= ps@.len(),
            ps@.len() <= 0xFFFF_FFFF,
            p == base_kind_at(ps@, owner, t),
            c == count_where(i as nat, p),
        decreases ps.len() - i,
    {
        proof {
            lemma_count_where_le(i as nat, p);
        }
        let q = ps[i];
        if q.owner == owner && q.piece_type != PieceType::K && q.piece_type.unpromote() == t {
            c = c + 1;
        }
        i = i + 1;
    }
    c
}

/// Append the letter of `t` as many times as `owner` has pieces of that base kind.
fn push_letters(out: &mut String, ps: &Vec<PieceData>, owner: Owner, t: PieceType)
    requires
        ps@.len() <= 0xFFFF_FFFF,
        t == PieceType::B || t == PieceType::G || t == PieceType::L || t == PieceType::N || t == PieceType::P
            || t == PieceType::R || t == PieceType::S,
    ensures
        final(out)@ == old(out)@ + rep(kind_name(t), base_count(ps@, owner, t)),
{
    let n = base_count_exec(ps, owner, t);
    let ghost base = out@;
    let mut k: u32 = 0;
    while k < n
        invariant
            k <= n,
            out@ == base + rep(kind_name(t), k as nat),
        decreases n - k,
    {
        push_kind(out, t);
        proof {
            assert(base + rep(kind_name(t), (k + 1) as nat) =~= base + rep(kind_name(t), k as nat) + kind_name(t));
        }
        k = k + 1;
    }
}

fn push_kind_letters(out: &mut String, ps: &Vec<PieceData>, owner: Owner)
    requires
        ps@.len() <= 0xFFFF_FFFF,
    ensures
        final(out)@ == kind_letters_after(old(out)@, ps@, owner),
{
    push_letters(out, ps, owner, PieceType::B);
    push_letters(out, ps, owner, PieceType::G);
    push_letters(out, ps, owner, PieceType::L);
    push_letters(out, ps, owner, PieceType::N);
    push_letters(out, ps, owner, PieceType::P);
    push_letters(out, ps, owner, PieceType::R);
    push_letters(out, ps, owner, PieceType::S);
}

fn push_hand_text(out: &mut String, h: &HandCount)
    ensures
        final(out)@ == hand_text_after(old(out)@, *h),
{
    proof {
        reveal_strlit("R");
        reveal_strlit("B");
        reveal_strlit("G");
        reveal_strlit("S");
        reveal_strlit("N");
        reveal_strlit("L");
        reveal_strlit("P");
    }
    out.append("R");
    push_u8(out, h.R);
    out.append("B");
    push_u8(out, h.B);
    out.append("G");
    push_u8(out, h.G);
    out.append("S");
    push_u8(out, h.S);
    out.append("N");
    push_u8(out, h.N);
    out.append("L");
    push_u8(out, h.L);
    out.append("P");
    push_u8(out, h.P);
}

/// The key of a problem's make-up: its kinds of pieces (positions aside) and
/// the attacker's hand (see `composition_chars`).
#[verifier::rlimit(40)]
pub fn composition_key(initial: &InitialData) -> (r: String)
    requires
        initial.pieces@.len() <= 0xFFFF_FFFF,
    ensures
        r@ == composition_chars(*initial),
{
    let mut out = String::new();
    assert(out@ == Seq::<char>::empty());
    proof {
        reveal_strlit("a:");
        reveal_strlit(" d:");
        reveal_strlit(" h:");
    }
    out.append("a:");
    push_kind_letters(&mut out, &initial.pieces, Owner::Attacker);
    out.append(" d:");
    push_kind_letters(&mut out, &initial.pieces, Owner::Defender);
    out.append(" h:");
    push_hand_text(&mut out, &initial.hands.attacker);
    out
}

/// The key of the attacker's make-up alone (see `attacker_composition_chars`).
#[verifier::rlimit(40)]
pub fn attacker_composition_key(initial: &InitialData) -> (r: String)
    requires
        initial.pieces@.len() <= 0xFFFF_FFFF,
    ensures
        r@ == attacker_composition_chars(*initial),
{
    let mut out = String::new();
    assert(out@ == Seq::<char>::empty());
    proof {
        reveal_strlit("a:");
        reveal_strlit(" h:");
    }
    out.append("a:");
    push_kind_letters(&mut out, &initial.pieces, Owner::Attacker);
    out.append(" h:");
    push_hand_text(&mut out, &initial.hands.attacker);
    out
}

/// The djb2 hash of the first `n` bytes: start at 5381, then for each byte
/// multiply by 33 and add the byte, wrapping at 64 bits.
pub open spec fn djb2(bytes: Seq<u8>, n: nat) -> u64
    decreases n,
{
    if n == 0 || n > bytes.len() {
        5381
    } else {
        vstd::wrapping::u64_specs::wrapping_add(
            vstd::wrapping::u64_specs::wrapping_mul(djb2(bytes, (n - 1) as nat), 33),
            bytes[n - 1] as u64,
        )
    }
}

pub open spec fn hex_char(d: int) -> char {
    if d < 10 {
        crate::notation::digit_char(d)
    } else if d == 10 {
        'a'
    } else if d == 11 {
        'b'
    } else if d == 12 {
        'c'
    } else if d == 13 {
        'd'
    } else if d == 14 {
        'e'
    } else {
        'f'
    }
}

pub open spec fn pow16(k: nat) -> nat
    decreases k,
{
    if k == 0 {
        1
    } else {
        16 * pow16((k - 1) as nat)
    }
}

/// `v` written as eight lower-case hexadecimal digits.
pub open spec fn hex8(v: u32) -> Seq<char> {
    Seq::new(8, |k: int| hex_char(((v as nat / pow16((7 - k) as nat)) % 16) as int))
}

fn push_hex_digit(out: &mut String, d: u32)
    requires
        d < 16,
    ensures
        final(out)@ == old(out)@ + seq![hex_char(d as int)],
{
    if d < 10 {
        crate::notation::push_digit(out, d as u8);
    } else if d == 10 {
        proof {
            reveal_strlit("a");
        }
        out.append("a");
    } else if d == 11 {
        proof {
            reveal_strlit("b");
        }
        out.append("b");
    } else if d == 12 {
        proof {
            reveal_strlit("c");
        }
        out.append("c");
    } else if d == 13 {
        proof {
            reveal_strlit("d");
        }
        out.append("d");
    } else if d == 14 {
        proof {
            reveal_strlit("e");
        }
        out.append("e");
    } else {
        proof {
            reveal_strlit("f");
        }
        out.append("f");
    }
}

/// The djb2 hash of `bytes`, its low 32 bits written as eight lower-case
/// hexadecimal digits (a problem's identifier when `bytes` is its text).
pub fn djb2_hex(bytes: &[u8]) -> (r: String)
    ensures
        r@ == hex8((djb2(bytes@, bytes@.len()) % 0x1_0000_0000) as u32),
{
    let mut hash: u64 = 5381;
    let mut i: usize = 0;
    while i < bytes.len()
        invariant
            i <= bytes@.len(),
            hash == djb2(bytes@, i as nat),
        decreases bytes.len() - i,
    {
        hash = hash.wrapping_mul(33).wrapping_add(bytes[i] as u64);
        i = i + 1;
    }
    let v: u32 = (hash % 0x1_0000_0000) as u32;
    let pows: [u32; 8] = [0x1000_0000, 0x100_0000, 0x10_0000, 0x1_0000, 0x1000, 0x100, 0x10, 1];
    proof {
        reveal_with_fuel(pow16, 8);
    }
    let mut out = String::new();
    let mut k: usize = 0;
    while k < 8
        invariant
            k <= 8,
            pows@ == seq![0x1000_0000u32, 0x100_0000u32, 0x10_0000u32, 0x1_0000u32, 0x1000u32, 0x100u32, 0x10u32, 1u32],
            forall|j: int| 0 <= j < 8 ==> pows@[j] as nat == #[trigger] pow16((7 - j) as nat),
            out@ == hex8(v).take(k as int),
        decreases 8 - k,
    {
        let d = (v / pows[k]) % 16;
        push_hex_digit(&mut out, d);
        proof {
            assert(hex8(v).take(k as int + 1) =~= hex8(v).take(k as int).push(hex8(v)[k as int]));
        }
        k = k + 1;
    }
    proof {
        assert(hex8(v).take(8) =~= hex8(v));
    }
    out
}

/// The place of a kind's name in alphabetical order (`B` first, `S` last).
pub open spec fn name_rank(t: PieceType) -> int {
    match t {
        PieceType::B => 0,
        PieceType::G => 1,
        PieceType::K => 2,
        PieceType::L => 3,
        PieceType::N => 4,
        PieceType::P => 5,
        PieceType::PB => 6,
        PieceType::PL => 7,
        PieceType::PN => 8,
        PieceType::PP => 9,
        PieceType::PR => 10,
        PieceType::PS => 11,
        PieceType::R => 12,
        PieceType::S => 13,
    }
}

fn name_rank_exec(t: PieceType) -> (r: i32)
    ensures
        r == name_rank(t),
{
    match t {
        PieceType::B => 0,
        PieceType::G => 1,
        PieceType::K => 2,
        PieceType::L => 3,
        PieceType::N => 4,
        PieceType::P => 5,
        PieceType::PB => 6,
        PieceType::PL => 7,
        PieceType::PN => 8,
        PieceType::PP => 9,
        PieceType::PR => 10,
        PieceType::PS => 11,
        PieceType::R => 12,
        PieceType::S => 13,
    }
}

/// The order of pieces in a problem's canonical text: the attacker's
/// pieces first, then by file, row and kind name.
pub open spec fn hash_key(p: PieceData) -> int {
    (if p.owner == Owner::Attacker { 0int } else { 1int }) * 0x10_0000 + (p.x + 128) * 0x1000 + (p.y + 128) * 0x10
        + name_rank(p.piece_type)
}

/// The problem with its pieces in canonical order (see `hash_key`; equal
/// pieces keep their order), the form whose text gives its identifier.
pub fn hash_order(initial: &InitialData) -> (r: InitialData)
    ensures
        r.hands == initial.hands,
        r.side_to_move == initial.side_to_move,
        exists|idx: Seq<usize>|
            crate::generate::is_permutation(idx, initial.pieces@.len()) && r.pieces@.len() == idx.len() && forall|k: int|
                0 <= k < idx.len() ==> #[trigger] r.pieces@[k] == initial.pieces@[idx[k] as int],
        forall|a: int, b: int| 0 <= a < b < r.pieces@.len() ==> hash_key(#[trigger] r.pieces@[a]) <= hash_key(#[trigger] r.pieces@[b]),
{
    let ps = &initial.pieces;
    let mut keys: Vec<i32> = Vec::new();
    let mut i: usize = 0;
    while i < ps.len()
        invariant
            i <= ps@.len(),
            keys@.len() == i,
            forall|j: int| 0 <= j < i ==> keys@[j] == #[trigger] hash_key(ps@[j]),
        decreases ps.len() - i,
    {
        let p = ps[i];
        let o: i32 = if p.owner == Owner::Attacker { 0 } else { 1 };
        keys.push(o * 0x10_0000 + (p.x as i32 + 128) * 0x1000 + (p.y as i32 + 128) * 0x10 + name_rank_exec(p.piece_type));
        i = i + 1;
    }
    let order = crate::generate::order_by_key(&keys);
    let mut pieces: Vec<PieceData> = Vec::new();
    let mut k: usize = 0;
    while k < order.len()
        invariant
            k <= order@.len(),
            order@.len() == ps@.len(),
            crate::generate::is_permutation(order@, keys@.len()),
            keys@.len() == ps@.len(),
            pieces@.len() == k,
            forall|j: int| 0 <= j < k ==> #[trigger] pieces@[j] == ps@[order@[j] as int],
        decreases order.len() - k,
    {
        pieces.push(ps[order[k]]);
        k = k + 1;
    }
    proof {
        assert forall|a: int, b: int| 0 <= a < b < pieces@.len() implies hash_key(#[trigger] pieces@[a]) <= hash_key(#[trigger] pieces@[b]) by {
            assert(keys@[order@[a] as int] <= keys@[order@[b] as int]);
        }
    }
    InitialData { pieces, hands: initial.hands, side_to_move: initial.side_to_move }
}

pub open spec fn sgn(v: int) -> int {
    if v > 0 {
        1
    } else if v < 0 {
        -1
    } else {
        0
    }
}

/// Rooks, bishops and lances: pieces whose distance from the king the
/// signature leaves out.
pub open spec fn is_slider(t: PieceType) -> bool {
    t == PieceType::R || t == PieceType::B || t == PieceType::L
}

/// The file of piece `p` relative to the king's file `kx` (negated when
/// mirrored), only its sign for sliders.
pub open spec fn rel_x(p: PieceData, kx: int, mirror: bool) -> int {
    let rx = if mirror { -(p.x - kx) } else { p.x - kx };
    if is_slider(p.piece_type) { sgn(rx) } else { rx }
}

/// The row of piece `p` relative to the king's row `ky`, only its sign for sliders.
pub open spec fn rel_y(p: PieceData, ky: int) -> int {
    let ry = p.y - ky;
    if is_slider(p.piece_type) { sgn(ry) } else { ry }
}

/// The number of slots: owner, kind, relative file and relative row.
pub open spec fn n_slots() -> nat {
    8092
}

/// The slot of a piece: its owner, its kind and its place relative to the king.
pub open spec fn slot_of(p: PieceData, kx: int, ky: int, mirror: bool) -> int {
    (((if p.owner == Owner::Attacker { 0int } else { 1int }) * 14 + name_rank(p.piece_type)) * 17 + (rel_x(p, kx, mirror)
        + 8)) * 17 + (rel_y(p, ky) + 8)
}

pub open spec fn slot_at(ps: Seq<PieceData>, kx: int, ky: int, mirror: bool, q: int) -> spec_fn(int) -> bool {
    |i: int| 0 <= i < ps.len() && slot_of(ps[i], kx, ky, mirror) == q
}

/// How many pieces fall in each slot.
pub open spec fn slot_counts(ps: Seq<PieceData>, kx: int, ky: int, mirror: bool) -> Seq<nat> {
    Seq::new(n_slots(), |q: int| count_where(ps.len(), slot_at(ps, kx, ky, mirror, q)))
}

/// `a` comes no later than `b` in lexicographic order from place `i` on.
pub open spec fn lex_le_from(a: Seq<nat>, b: Seq<nat>, i: int) -> bool
    decreases n_slots() - i,
{
    if i < 0 || i >= n_slots() || i >= a.len() || i >= b.len() {
        true
    } else if a[i] < b[i] {
        true
    } else if a[i] > b[i] {
        false
    } else {
        lex_le_from(a, b, i + 1)
    }
}

/// The slots in use, written `slot:count;` in slot order.
pub open spec fn counts_text(c: Seq<nat>, n: nat) -> Seq<char>
    decreases n,
{
    if n == 0 {
        seq![]
    } else {
        counts_text(c, (n - 1) as nat) + if c[n - 1] > 0 {
            nat_chars((n - 1) as nat) + seq![':'] + nat_chars(c[n - 1]) + seq![';']
        } else {
            seq![]
        }
    }
}

/// `pre` followed by `|` and both hands' counts, each followed by a comma.
pub open spec fn hands_after(pre: Seq<char>, h: HandsData) -> Seq<char> {
    pre + seq!['|'] + nat_chars(h.attacker.R as nat) + seq![','] + nat_chars(h.attacker.B as nat) + seq![',']
        + nat_chars(h.attacker.G as nat) + seq![','] + nat_chars(h.attacker.S as nat) + seq![','] + nat_chars(
        h.attacker.N as nat,
    ) + seq![','] + nat_chars(h.attacker.L as nat) + seq![','] + nat_chars(h.attacker.P as nat) + seq![',']
        + nat_chars(h.defender.R as nat) + seq![','] + nat_chars(h.defender.B as nat) + seq![','] + nat_chars(
        h.defender.G as nat,
    ) + seq![','] + nat_chars(h.defender.S as nat) + seq![','] + nat_chars(h.defender.N as nat) + seq![',']
        + nat_chars(h.defender.L as nat) + seq![','] + nat_chars(h.defender.P as nat) + seq![',']
}

/// The structural signature of a problem: empty without a defender king;
/// otherwise how many pieces of each owner and kind stand at each place
/// relative to the king (sliders by direction only), read on the board as it
/// is and mirrored, the smaller of the two in lexicographic order, then
/// the hands. Problems that differ only by a mirror image or by how far a
/// slider stands from the king have the same signature.
pub open spec fn signature_chars(d: InitialData) -> Seq<char> {
    if !has_dk(d.pieces@) {
        seq![]
    } else {
        let k = crate::generate::dk_square(d.pieces@);
        let cb = slot_counts(d.pieces@, k.0, k.1, false);
        let cm = slot_counts(d.pieces@, k.0, k.1, true);
        hands_after(if lex_le_from(cb, cm, 0) { counts_text(cb, n_slots()) } else { counts_text(cm, n_slots()) }, d.hands)
    }
}

fn sgn8(v: i8) -> (r: i8)
    ensures
        r == sgn(v as int),
{
    if v > 0 {
        1
    } else if v < 0 {
        -1
    } else {
        0
    }
}

fn slot_exec(p: PieceData, kx: i8, ky: i8, mirror: bool) -> (r: usize)
    requires
        piece_pos(p).spec_valid(),
        1 <= kx <= 9,
        1 <= ky <= 9,
    ensures
        r == slot_of(p, kx as int, ky as int, mirror),
        r < n_slots(),
{
    let rx0: i8 = if mirror { kx - p.x } else { p.x - kx };
    let ry0: i8 = p.y - ky;
    let slider = p.piece_type == PieceType::R || p.piece_type == PieceType::B || p.piece_type == PieceType::L;
    let rx: i8 = if slider { sgn8(rx0) } else { rx0 };
    let ry: i8 = if slider { sgn8(ry0) } else { ry0 };
    let o: usize = if p.owner == Owner::Attacker { 0 } else { 1 };
    let t = name_rank_exec(p.piece_type) as usize;
    ((o * 14 + t) * 17 + (rx + 8) as usize) * 17 + (ry + 8) as usize
}

fn slot_counts_exec(ps: &Vec<PieceData>, kx: i8, ky: i8, mirror: bool) -> (r: Vec<u32>)
    requires
        on_board(ps@),
        ps@.len() <= 0xFFFF_FFFF,
        1 <= kx <= 9,
        1 <= ky <= 9,
    ensures
        r@.len() == n_slots(),
        forall|q: int| 0 <= q < n_slots() ==> r@[q] as nat == #[trigger] slot_counts(ps@, kx as int, ky as int, mirror)[q],
{
    let mut c: Vec<u32> = Vec::new();
    let mut q: usize = 0;
    while q < 8092
        invariant
            q <= 8092,
            c@.len() == q,
            forall|j: int| 0 <= j < q ==> c@[j] == 0,
        decreases 8092 - q,
    {
        c.push(0);
        q = q + 1;
    }
    let mut i: usize = 0;
    while i < ps.len()
        invariant
            i <= ps@.len(),
            ps@.len() <= 0xFFFF_FFFF,
            on_board(ps@),
            1 <= kx <= 9,
            1 <= ky <= 9,
            c@.len() == n_slots(),
            forall|j: int| 0 <= j < n_slots() ==> #[trigger] c@[j] as nat == count_where(i as nat, slot_at(ps@, kx as int, ky as int, mirror, j)),
        decreases ps.len() - i,
    {
        assert(piece_pos(ps@[i as int]).spec_valid());
        let s = slot_exec(ps[i], kx, ky, mirror);
        proof {
            lemma_count_where_le(i as nat, slot_at(ps@, kx as int, ky as int, mirror, s as int));
        }
        let v = c[s];
        c.set(s, v + 1);
        proof {
            assert forall|j: int| 0 <= j < n_slots() implies #[trigger] c@[j] as nat == count_where((i + 1) as nat, slot_at(ps@, kx as int, ky as int, mirror, j)) by {
                assert(count_where((i + 1) as nat, slot_at(ps@, kx as int, ky as int, mirror, j)) == count_where(i as nat, slot_at(ps@, kx as int, ky as int, mirror, j))
                    + one_if(slot_at(ps@, kx as int, ky as int, mirror, j)(i as int)));
            }
        }
        i = i + 1;
    }
    c
}

fn lex_le_exec(a: &Vec<u32>, b: &Vec<u32>, ga: Ghost<Seq<nat>>, gb: Ghost<Seq<nat>>) -> (r: bool)
    requires
        a@.len() == n_slots(),
        b@.len() == n_slots(),
        ga@.len() == n_slots(),
        gb@.len() == n_slots(),
        forall|q: int| 0 <= q < n_slots() ==> a@[q] as nat == #[trigger] ga@[q],
        forall|q: int| 0 <= q < n_slots() ==> b@[q] as nat == #[trigger] gb@[q],
    ensures
        r == lex_le_from(ga@, gb@, 0),
{
    let mut i: usize = 0;
    while i < 8092
        invariant
            i <= 8092,
            a@.len() == n_slots(),
            b@.len() == n_slots(),
            ga@.len() == n_slots(),
            gb@.len() == n_slots(),
            forall|q: int| 0 <= q < n_slots() ==> a@[q] as nat == #[trigger] ga@[q],
            forall|q: int| 0 <= q < n_slots() ==> b@[q] as nat == #[trigger] gb@[q],
            lex_le_from(ga@, gb@, 0) == lex_le_from(ga@, gb@, i as int),
        decreases 8092 - i,
    {
        assert(a@[i as int] as nat == ga@[i as int]);
        assert(b@[i as int] as nat == gb@[i as int]);
        if a[i] < b[i] {
            return true;
        }
        if a[i] > b[i] {
            return false;
        }
        i = i + 1;
    }
    true
}

fn push_counts_text(out: &mut String, c: &Vec<u32>, gc: Ghost<Seq<nat>>)
    requires
        c@.len() == n_slots(),
        gc@.len() == n_slots(),
        forall|q: int| 0 <= q < n_slots() ==> c@[q] as nat == #[trigger] gc@[q],
    ensures
        final(out)@ == old(out)@ + counts_text(gc@, n_slots()),
{
    let ghost base = out@;
    proof {
        reveal_strlit(":");
        reveal_strlit(";");
        assert(base + counts_text(gc@, 0) =~= base);
    }
    let mut q: usize = 0;
    while q < 8092
        invariant
            q <= 8092,
            c@.len() == n_slots(),
            gc@.len() == n_slots(),
            forall|j: int| 0 <= j < n_slots() ==> c@[j] as nat == #[trigger] gc@[j],
            out@ == base + counts_text(gc@, q as nat),
        decreases 8092 - q,
    {
        assert(c@[q as int] as nat == gc@[q as int]);
        if c[q] > 0 {
            proof {
                reveal_strlit(":");
                reveal_strlit(";");
            }
            let ghost o0 = out@;
            push_u32(out, q as u32);
            assert((q as u32) as nat == q as nat);
            assert(out@ == o0 + nat_chars(q as nat));
            out.append(":");
            assert(out@ == o0 + nat_chars(q as nat) + seq![':']);
            push_u32(out, c[q]);
            assert(out@ == o0 + nat_chars(q as nat) + seq![':'] + nat_chars(gc@[q as int]));
            out.append(";");
            assert(out@ == o0 + nat_chars(q as nat) + seq![':'] + nat_chars(gc@[q as int]) + seq![';']);
            proof {
                assert(counts_text(gc@, (q + 1) as nat) == counts_text(gc@, q as nat) + (nat_chars(q as nat) + seq![':'] + nat_chars(gc@[q as int]) + seq![';']));
                assert(out@ =~= base + counts_text(gc@, (q + 1) as nat));
            }
        } else {
            proof {
                assert(base + counts_text(gc@, (q + 1) as nat) =~= base + counts_text(gc@, q as nat));
            }
        }
        q = q + 1;
    }
}

fn push_num_comma(out: &mut String, v: u8)
    ensures
        final(out)@ == old(out)@ + nat_chars(v as nat) + seq![','],
{
    proof {
        reveal_strlit(",");
    }
    push_u8(out, v);
    out.append(",");
}

fn push_hands(out: &mut String, h: &HandsData)
    ensures
        final(out)@ == hands_after(old(out)@, *h),
{
    proof {
        reveal_strlit("|");
    }
    out.append("|");
    push_num_comma(out, h.attacker.R);
    push_num_comma(out, h.attacker.B);
    push_num_comma(out, h.attacker.G);
    push_num_comma(out, h.attacker.S);
    push_num_comma(out, h.attacker.N);
    push_num_comma(out, h.attacker.L);
    push_num_comma(out, h.attacker.P);
    push_num_comma(out, h.defender.R);
    push_num_comma(out, h.defender.B);
    push_num_comma(out, h.defender.G);
    push_num_comma(out, h.defender.S);
    push_num_comma(out, h.defender.N);
    push_num_comma(out, h.defender.L);
    push_num_comma(out, h.defender.P);
}

/// The structural signature of a problem (see `signature_chars`).
pub fn structural_signature(initial: &InitialData) -> (r: String)
    requires
        on_board(initial.pieces@),
        initial.pieces@.len() <= 0xFFFF_FFFF,
    ensures
        r@ == signature_chars(*initial),
{
    let mut out = String::new();
    if find_dk(&initial.pieces).is_none() {
        return out;
    }
    let (kx, ky) = crate::generate::dk_xy(&initial.pieces);
    let ghost gb = slot_counts(initial.pieces@, kx as int, ky as int, false);
    let ghost gm = slot_counts(initial.pieces@, kx as int, ky as int, true);
    let base = slot_counts_exec(&initial.pieces, kx, ky, false);
    let mirrored = slot_counts_exec(&initial.pieces, kx, ky, true);
    if lex_le_exec(&base, &mirrored, Ghost(gb), Ghost(gm)) {
        push_counts_text(&mut out, &base, Ghost(gb));
    } else {
        push_counts_text(&mut out, &mirrored, Ghost(gm));
    }
    push_hands(&mut out, &initial.hands);
    out
}

/// Lexicographic order from place `i` on is total, and antisymmetric up to
/// the places from `i` on.
proof fn lemma_lex_total(a: Seq<nat>, b: Seq<nat>, i: int)
    requires
        a.len() == n_slots(),
        b.len() == n_slots(),
        0 <= i,
    ensures
        lex_le_from(a, b, i) || lex_le_from(b, a, i),
        lex_le_from(a, b, i) && lex_le_from(b, a, i) ==> forall|j: int| i <= j < n_slots() ==> a[j] == b[j],
    decreases n_slots() - i,
{
    if i < n_slots() {
        lemma_lex_total(a, b, i + 1);
    }
}

/// The mirror image of the first defender king is the first defender king of
/// the mirror image.
#[verifier::rlimit(60)]
proof fn lemma_dk_square_mirror(ps: Seq<PieceData>, ms: Seq<PieceData>)
    requires
        on_board(ps),
        ms == ps.map_values(|p: PieceData| crate::initial::mirror_piece(p)),
    ensures
        has_dk(ms) == has_dk(ps),
        has_dk(ps) ==> crate::generate::dk_square(ms) == (10 - crate::generate::dk_square(ps).0, crate::generate::dk_square(ps).1),
{
    assert(ms.len() == ps.len());
    assert forall|i: int| 0 <= i < ps.len() implies #[trigger] is_dk(ms[i]) == is_dk(ps[i]) && ms[i].x == 10 - ps[i].x
        && ms[i].y == ps[i].y by {
        assert(ms[i] == crate::initial::mirror_piece(ps[i]));
        assert(crate::initial::piece_pos(ps[i]).spec_valid());
    }
    if has_dk(ps) {
        let w = choose|w: int| 0 <= w < ps.len() && #[trigger] is_dk(ps[w]);
        assert(is_dk(ms[w]));
        let i = first_dk(ps);
        let k = first_dk(ms);
        lemma_first_dk(ps);
        lemma_first_dk(ms);
        if k < i {
            assert(is_dk(ps[k]));
        } else if i < k {
            assert(is_dk(ms[i]));
        }
    } else {
        if has_dk(ms) {
            let w = choose|w: int| 0 <= w < ms.len() && #[trigger] is_dk(ms[w]);
            assert(is_dk(ps[w]));
        }
    }
}

/// The index of the first defender king.
spec fn first_dk(ps: Seq<PieceData>) -> int {
    choose|i: int| 0 <= i < ps.len() && is_dk(ps[i]) && forall|j: int| 0 <= j < i ==> !#[trigger] is_dk(ps[j])
}

proof fn lemma_first_dk(ps: Seq<PieceData>)
    requires
        has_dk(ps),
    ensures
        0 <= first_dk(ps) < ps.len(),
        is_dk(ps[first_dk(ps)]),
        forall|j: int| 0 <= j < first_dk(ps) ==> !#[trigger] is_dk(ps[j]),
        crate::generate::dk_square(ps) == (ps[first_dk(ps)].x as int, ps[first_dk(ps)].y as int),
{
    let w = choose|w: int| 0 <= w < ps.len() && #[trigger] is_dk(ps[w]);
    lemma_least_dk(ps, w);
}

/// Some defender king has no defender king before it.
proof fn lemma_least_dk(ps: Seq<PieceData>, w: int)
    requires
        0 <= w < ps.len(),
        is_dk(ps[w]),
    ensures
        exists|i: int| 0 <= i < ps.len() && is_dk(ps[i]) && forall|j: int| 0 <= j < i ==> !#[trigger] is_dk(ps[j]),
    decreases w,
{
    if exists|j: int| 0 <= j < w && #[trigger] is_dk(ps[j]) {
        let j = choose|j: int| 0 <= j < w && #[trigger] is_dk(ps[j]);
        lemma_least_dk(ps, j);
    } else {
        assert(forall|j: int| 0 <= j < w ==> !#[trigger] is_dk(ps[j]));
    }
}

/// Mirroring the pieces and the king swaps the two readings of the board.
proof fn lemma_slot_counts_mirror(ps: Seq<PieceData>, ms: Seq<PieceData>, kx: int, ky: int, mirror: bool)
    requires
        on_board(ps),
        ms == ps.map_values(|p: PieceData| crate::initial::mirror_piece(p)),
    ensures
        slot_counts(ms, 10 - kx, ky, mirror) == slot_counts(ps, kx, ky, !mirror),
{
    assert forall|q: int| 0 <= q < n_slots() implies #[trigger] slot_counts(ms, 10 - kx, ky, mirror)[q] == slot_counts(ps, kx, ky, !mirror)[q] by {
        assert forall|i: int| 0 <= i < ps.len() implies #[trigger] slot_at(ms, 10 - kx, ky, mirror, q)(i) == slot_at(ps, kx, ky, !mirror, q)(i) by {
            assert(ms[i] == crate::initial::mirror_piece(ps[i]));
            assert(crate::initial::piece_pos(ps[i]).spec_valid());
            assert(rel_x(ms[i], 10 - kx, mirror) == rel_x(ps[i], kx, !mirror));
        }
        crate::generate::lemma_count_where_ext(ps.len(), slot_at(ms, 10 - kx, ky, mirror, q), slot_at(ps, kx, ky, !mirror, q));
    }
    assert(slot_counts(ms, 10 - kx, ky, mirror) =~= slot_counts(ps, kx, ky, !mirror));
}

/// Law: a problem and its mirror image across the centre file have the same
/// structural signature.
pub proof fn lemma_signature_mirror(d: InitialData, m: InitialData)
    requires
        on_board(d.pieces@),
        m.pieces@ == d.pieces@.map_values(|p: PieceData| crate::initial::mirror_piece(p)),
        m.hands == d.hands,
    ensures
        signature_chars(m) == signature_chars(d),
{
    lemma_dk_square_mirror(d.pieces@, m.pieces@);
    if has_dk(d.pieces@) {
        let k = crate::generate::dk_square(d.pieces@);
        lemma_slot_counts_mirror(d.pieces@, m.pieces@, k.0, k.1, false);
        lemma_slot_counts_mirror(d.pieces@, m.pieces@, k.0, k.1, true);
        let a = slot_counts(d.pieces@, k.0, k.1, false);
        let b = slot_counts(d.pieces@, k.0, k.1, true);
        lemma_lex_total(a, b, 0);
        if lex_le_from(a, b, 0) && lex_le_from(b, a, 0) {
            assert(a =~= b);
        }
    }
}

} // verus!
