use crate::error::DecodeError;
use crate::insn::Insn;
use vstd::prelude::*;
use vstd::string::StringExecFns;

verus! {

/// The character for one decimal digit value.
pub open spec fn dec_digit(d: nat) -> char {
    if d == 0 {
        '0'
    } else if d == 1 {
        '1'
    } else if d == 2 {
        '2'
    } else if d == 3 {
        '3'
    } else if d == 4 {
        '4'
    } else if d == 5 {
        '5'
    } else if d == 6 {
        '6'
    } else if d == 7 {
        '7'
    } else if d == 8 {
        '8'
    } else {
        '9'
    }
}

/// The character for one hexadecimal digit value, lower case.
pub open spec fn hex_digit(d: nat) -> char {
    if d < 10 {
        dec_digit(d)
    } else if d == 10 {
        'a'
    } else if d == 11 {
        'b'
    } else if d == 12 {
        'c'
    } else if d == 13 {
        'd'
    } else if d == 14 {
        'e'
    } else {
        'f'
    }
}

/// The decimal rendering of a number, most significant digit first, with no
/// leading zero except for zero itself.
pub open spec fn dec_seq(n: nat) -> Seq<char>
    decreases n,
{
    if n < 10 {
        seq![dec_digit(n)]
    } else {
        dec_seq(n / 10).push(dec_digit(n % 10))
    }
}

/// The hexadecimal rendering of a number, most significant digit first, with
/// no leading zero except for zero itself.
pub open spec fn hex_seq(n: nat) -> Seq<char>
    decreases n,
{
    if n < 16 {
        seq![hex_digit(n)]
    } else {
        hex_seq(n / 16).push(hex_digit(n % 16))
    }
}

/// One decimal digit as text.
fn dec_digit_str(d: u64) -> (s: &'static str)
    requires
        d < 10,
    ensures
        s@ =~= seq![dec_digit(d as nat)],
{
    proof {
        reveal_strlit("0");
        reveal_strlit("1");
        reveal_strlit("2");
        reveal_strlit("3");
        reveal_strlit("4");
        reveal_strlit("5");
        reveal_strlit("6");
        reveal_strlit("7");
        reveal_strlit("8");
        reveal_strlit("9");
    }
    match d {
        0 => "0",
        1 => "1",
        2 => "2",
        3 => "3",
        4 => "4",
        5 => "5",
        6 => "6",
        7 => "7",
        8 => "8",
        _ => "9",
    }
}

/// One hexadecimal digit as text.
fn hex_digit_str(d: u64) -> (s: &'static str)
    requires
        d < 16,
    ensures
        s@ =~= seq![hex_digit(d as nat)],
{
    proof {
        reveal_strlit("a");
        reveal_strlit("b");
        reveal_strlit("c");
        reveal_strlit("d");
        reveal_strlit("e");
        reveal_strlit("f");
    }
    if d < 10 {
        dec_digit_str(d)
    } else {
        match d {
            10 => "a",
            11 => "b",
            12 => "c",
            13 => "d",
            14 => "e",
            _ => "f",
        }
    }
}

/// Renders a number in decimal.
pub fn u64_to_dec(n: u64) -> (s: String)
    ensures
        s@ == dec_seq(n as nat),
    decreases n,
{
    if n < 10 {
        dec_digit_str(n).to_owned()
    } else {
        let mut s = u64_to_dec(n / 10);
        s.append(dec_digit_str(n % 10));
        s
    }
}

/// Renders a number in hexadecimal, lower case, without a prefix.
pub fn u64_to_hex(n: u64) -> (s: String)
    ensures
        s@ == hex_seq(n as nat),
    decreases n,
{
    if n < 16 {
        hex_digit_str(n).to_owned()
    } else {
        let mut s = u64_to_hex(n / 16);
        s.append(hex_digit_str(n % 16));
        s
    }
}

/// The rendering of a decoded instruction, or the error kind when a field's
/// value falls outside every renderable range.  The register-list push has
/// four forms: one value for the single-register form, one for the
/// two-register form, a contiguous range for the inclusive-range form, the
/// maximum for the full-range form, and a signed magnitude suffix of the
/// scaled second field; nothing is fabricated for an unmapped value.
pub open spec fn spec_render(i: Insn) -> Result<Seq<char>, DecodeError> {
    match i {
        Insn::CmPush { urlist, spimm } => {
            let suffix = seq!['-'] + dec_seq(16 * spimm as nat);
            if urlist == 4 {
                Ok("CmPush {ra},"@ + suffix)
            } else if urlist == 5 {
                Ok("CmPush {ra, s0},"@ + suffix)
            } else if 6 <= urlist && urlist < 15 {
                Ok("CmPush {ra, s0-s"@ + dec_seq((urlist - 5) as nat) + "},"@ + suffix)
            } else if urlist == 15 {
                Ok("CmPush {ra, s0-s11},"@ + suffix)
            } else {
                Err(DecodeError::FormatError)
            }
        },
        Insn::Insbi { rd, imm, shift, width } => Ok(
            "insbi x"@ + dec_seq(rd as nat) + ", #0x"@ + hex_seq(imm as nat) + ", #0x"@ + hex_seq(
                shift as nat,
            ) + ", #0x"@ + hex_seq(width as nat),
        ),
        Insn::XqciELi { rd, imm } => Ok(
            "xqci.e.li "@ + dec_seq(rd as nat) + ", "@ + dec_seq(imm as nat),
        ),
        Insn::Fake64 => Ok("Fake64"@),
    }
}

/// The view of a rendering result: the text's characters on success.
pub open spec fn render_view(r: Result<String, DecodeError>) -> Result<Seq<char>, DecodeError> {
    match r {
        Ok(s) => Ok(s@),
        Err(e) => Err(e),
    }
}

impl Insn {
    /// Renders the instruction as display text, variant by variant; fails
    /// with `FormatError` instead of fabricating text for an unmapped value.
    pub fn render(&self) -> (r: Result<String, DecodeError>)
        ensures
            render_view(r) == spec_render(*self),
    {
        match *self {
            Insn::CmPush { urlist, spimm } => {
                let mut s: String;
                if urlist == 4 {
                    s = "CmPush {ra},".to_owned();
                } else if urlist == 5 {
                    s = "CmPush {ra, s0},".to_owned();
                } else if 6 <= urlist && urlist < 15 {
                    s = "CmPush {ra, s0-s".to_owned();
                    let d = u64_to_dec((urlist - 5) as u64);
                    s.append(d.as_str());
                    s.append("},");
                } else if urlist == 15 {
                    s = "CmPush {ra, s0-s11},".to_owned();
                } else {
                    return Err(DecodeError::FormatError);
                }
                s.append("-");
                let m = u64_to_dec(16 * spimm as u64);
                s.append(m.as_str());
                proof {
                    reveal_strlit("-");
                    assert("-"@ =~= seq!['-']);
                    assert(spec_render(*self) is Ok);
                    assert(s@ =~= spec_render(*self)->Ok_0);
                }
                Ok(s)
            },
            Insn::Insbi { rd, imm, shift, width } => {
                let mut s = "insbi x".to_owned();
                let a = u64_to_dec(rd as u64);
                s.append(a.as_str());
                s.append(", #0x");
                let b = u64_to_hex(imm as u64);
                s.append(b.as_str());
                s.append(", #0x");
                let c = u64_to_hex(shift as u64);
                s.append(c.as_str());
                s.append(", #0x");
                let d = u64_to_hex(width as u64);
                s.append(d.as_str());
                proof {
                    assert(s@ =~= spec_render(*self)->Ok_0);
                }
                Ok(s)
            },
            Insn::XqciELi { rd, imm } => {
                let mut s = "xqci.e.li ".to_owned();
                let a = u64_to_dec(rd as u64);
                s.append(a.as_str());
                s.append(", ");
                let b = u64_to_dec(imm as u64);
                s.append(b.as_str());
                proof {
                    assert(s@ =~= spec_render(*self)->Ok_0);
                }
                Ok(s)
            },
            Insn::Fake64 => Ok("Fake64".to_owned()),
        }
    }
}

} // verus!
