use vstd::prelude::*;
use vstd::string::StringExecFns;
use crate::pieces::{Move, PieceType};

verus! {

/// The decimal digit `d` (0..=9) as a character.
pub open spec fn digit_char(d: int) -> char {
    if d == 0 {
        '0'
    } else if d == 1 {
        '1'
    } else if d == 2 {
        '2'
    } else if d == 3 {
        '3'
    } else if d == 4 {
        '4'
    } else if d == 5 {
        '5'
    } else if d == 6 {
        '6'
    } else if d == 7 {
        '7'
    } else if d == 8 {
        '8'
    } else {
        '9'
    }
}

/// The decimal digits of a non-negative number.
pub open spec fn nat_chars(v: nat) -> Seq<char>
    decreases v,
{
    if v < 10 {
        seq![digit_char(v as int)]
    } else {
        nat_chars(v / 10) + seq![digit_char((v % 10) as int)]
    }
}

/// A number written in decimal, with a minus sign when negative.
pub open spec fn int_chars(v: int) -> Seq<char> {
    if v < 0 {
        seq!['-'] + nat_chars((-v) as nat)
    } else {
        nat_chars(v as nat)
    }
}

/// The name of a piece kind.
pub open spec fn kind_name(t: PieceType) -> Seq<char> {
    match t {
        PieceType::K => seq!['K'],
        PieceType::R => seq!['R'],
        PieceType::B => seq!['B'],
        PieceType::G => seq!['G'],
        PieceType::S => seq!['S'],
        PieceType::N => seq!['N'],
        PieceType::L => seq!['L'],
        PieceType::P => seq!['P'],
        PieceType::PR => seq!['P', 'R'],
        PieceType::PB => seq!['P', 'B'],
        PieceType::PS => seq!['P', 'S'],
        PieceType::PN => seq!['P', 'N'],
        PieceType::PL => seq!['P', 'L'],
        PieceType::PP => seq!['P', 'P'],
    }
}

/// The text key of a move: `T*xy` for a drop of kind `T` on `(x, y)`,
/// `fxfy-txty` for a board move with `+` added when it promotes, and empty
/// for a move that is neither.
pub open spec fn key_chars(m: Move) -> Seq<char> {
    match m.drop {
        Some(d) => kind_name(d) + seq!['*'] + int_chars(m.to[0] as int) + int_chars(m.to[1] as int),
        None => match m.from {
            Some(f) => int_chars(f[0] as int) + int_chars(f[1] as int) + seq!['-'] + int_chars(
                m.to[0] as int,
            ) + int_chars(m.to[1] as int) + if m.promote {
                seq!['+']
            } else {
                seq![]
            },
            None => seq![],
        },
    }
}

pub(crate) fn push_digit(out: &mut String, d: u8)
    requires
        d < 10,
    ensures
        final(out)@ == old(out)@ + seq![digit_char(d as int)],
{
    match d {
        0 => {
            proof {
                reveal_strlit("0");
            }
            out.append("0");
        },
        1 => {
            proof {
                reveal_strlit("1");
            }
            out.append("1");
        },
        2 => {
            proof {
                reveal_strlit("2");
            }
            out.append("2");
        },
        3 => {
            proof {
                reveal_strlit("3");
            }
            out.append("3");
        },
        4 => {
            proof {
                reveal_strlit("4");
            }
            out.append("4");
        },
        5 => {
            proof {
                reveal_strlit("5");
            }
            out.append("5");
        },
        6 => {
            proof {
                reveal_strlit("6");
            }
            out.append("6");
        },
        7 => {
            proof {
                reveal_strlit("7");
            }
            out.append("7");
        },
        8 => {
            proof {
                reveal_strlit("8");
            }
            out.append("8");
        },
        _ => {
            proof {
                reveal_strlit("9");
            }
            out.append("9");
        },
    }
}

/// Append `v` in decimal.
fn push_int(out: &mut String, v: i8)
    ensures
        final(out)@ == old(out)@ + int_chars(v as int),
{
    let n: u8 = if v < 0 {
        proof {
            reveal_strlit("-");
        }
        out.append("-");
        (0i16 - v as i16) as u8
    } else {
        v as u8
    };
    push_u8(out, n);
}

/// Append `n` in decimal.
pub(crate) fn push_u8(out: &mut String, n: u8)
    ensures
        final(out)@ == old(out)@ + nat_chars(n as nat),
{
    let ghost base = out@;
    if n >= 100 {
        push_digit(out, n / 100);
        push_digit(out, (n / 10) % 10);
        push_digit(out, n % 10);
        proof {
            let m = n as nat;
            assert(nat_chars(m / 10) == nat_chars(m / 100) + seq![digit_char(((m / 10) % 10) as int)]);
            assert(nat_chars(m / 100) == seq![digit_char((m / 100) as int)]);
            assert(out@ =~= base + nat_chars(m));
        }
    } else if n >= 10 {
        push_digit(out, n / 10);
        push_digit(out, n % 10);
        proof {
            let m = n as nat;
            assert(nat_chars(m / 10) == seq![digit_char((m / 10) as int)]);
            assert(out@ =~= base + nat_chars(m));
        }
    } else {
        push_digit(out, n);
        proof {
            assert(out@ =~= base + nat_chars(n as nat));
        }
    }
}

pub(crate) fn push_kind(out: &mut String, t: PieceType)
    ensures
        final(out)@ == old(out)@ + kind_name(t),
{
    match t {
        PieceType::K => {
            proof {
                reveal_strlit("K");
            }
            out.append("K");
        },
        PieceType::R => {
            proof {
                reveal_strlit("R");
            }
            out.append("R");
        },
        PieceType::B => {
            proof {
                reveal_strlit("B");
            }
            out.append("B");
        },
        PieceType::G => {
            proof {
                reveal_strlit("G");
            }
            out.append("G");
        },
        PieceType::S => {
            proof {
                reveal_strlit("S");
            }
            out.append("S");
        },
        PieceType::N => {
            proof {
                reveal_strlit("N");
            }
            out.append("N");
        },
        PieceType::L => {
            proof {
                reveal_strlit("L");
            }
            out.append("L");
        },
        PieceType::P => {
            proof {
                reveal_strlit("P");
            }
            out.append("P");
        },
        PieceType::PR => {
            proof {
                reveal_strlit("PR");
            }
            out.append("PR");
        },
        PieceType::PB => {
            proof {
                reveal_strlit("PB");
            }
            out.append("PB");
        },
        PieceType::PS => {
            proof {
                reveal_strlit("PS");
            }
            out.append("PS");
        },
        PieceType::PN => {
            proof {
                reveal_strlit("PN");
            }
            out.append("PN");
        },
        PieceType::PL => {
            proof {
                reveal_strlit("PL");
            }
            out.append("PL");
        },
        PieceType::PP => {
            proof {
                reveal_strlit("PP");
            }
            out.append("PP");
        },
    }
}

impl Move {
    /// The text key of the move (see `key_chars`).
    pub fn to_string_key(&self) -> (r: String)
        ensures
            r@ == key_chars(*self),
    {
        let mut out = String::new();
        match self.drop {
            Some(d) => {
                push_kind(&mut out, d);
                proof {
                reveal_strlit("*");
            }
                out.append("*");
                push_int(&mut out, self.to[0]);
                push_int(&mut out, self.to[1]);
                assert(out@ =~= key_chars(*self));
            },
            None => match self.from {
                Some(f) => {
                    push_int(&mut out, f[0]);
                    push_int(&mut out, f[1]);
                    proof {
                reveal_strlit("-");
            }
                    out.append("-");
                    push_int(&mut out, self.to[0]);
                    push_int(&mut out, self.to[1]);
                    if self.promote {
                        proof {
                reveal_strlit("+");
            }
                        out.append("+");
                    }
                    assert(out@ =~= key_chars(*self));
                },
                None => {
                    assert(out@ =~= key_chars(*self));
                },
            },
        }
        out
    }
}

/// Append `n` in decimal.
pub(crate) fn push_u32(out: &mut String, n: u32)
    ensures
        final(out)@ == old(out)@ + nat_chars(n as nat),
    decreases n,
{
    if n >= 10 {
        push_u32(out, n / 10);
        push_digit(out, (n % 10) as u8);
        proof {
            let m = n as nat;
            assert(nat_chars(m) == nat_chars(m / 10) + seq![digit_char((m % 10) as int)]);
        }
    } else {
        push_digit(out, n as u8);
        proof {
            assert(nat_chars(n as nat) == seq![digit_char(n as int)]);
        }
    }
}

} // verus!
