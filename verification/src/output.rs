//! Text output: appending to strings, hexadecimal and decimal numbers.
use vstd::prelude::*;
use vstd::string::StringExecFns;
use vstd::utf8::{is_ascii_chars, is_ascii_chars_encode_utf8};

use crate::policy::local_marker;
use crate::text::{bytes, lemma_bytes_concat};

verus! {

/// The UTF-8 bytes of ASCII characters are the characters themselves.
pub proof fn lemma_ascii_bytes(s: Seq<char>)
    requires
        is_ascii_chars(s),
    ensures
        bytes(s) == s.map_values(|c: char| c as u8),
{
    is_ascii_chars_encode_utf8(s);
    assert(bytes(s) =~= s.map_values(|c: char| c as u8));
}

/// Appends `s` to `out`.
pub fn push_str(out: &mut String, s: &str)
    ensures
        bytes(final(out)@) == bytes(old(out)@) + bytes(s@),
{
    out.append(s);
    proof {
        lemma_bytes_concat(old(out)@, s@);
    }
}

/// `a` followed by `b`.
pub fn concat2(a: &str, b: &str) -> (res: String)
    ensures
        bytes(res@) == bytes(a@) + bytes(b@),
{
    let mut out = String::new();
    push_str(&mut out, a);
    push_str(&mut out, b);
    assert(bytes(out@) =~= bytes(a@) + bytes(b@));
    out
}

/// `a`, `b` and `c` in turn.
pub fn concat3(a: &str, b: &str, c: &str) -> (res: String)
    ensures
        bytes(res@) == bytes(a@) + bytes(b@) + bytes(c@),
{
    let mut out = concat2(a, b);
    push_str(&mut out, c);
    out
}

/// A copy of `s`.
pub fn owned(s: &str) -> (res: String)
    ensures
        res@ == s@,
{
    s.to_owned()
}

/// The local marker `local` as a new string.
pub fn local_text() -> (res: String)
    ensures
        bytes(res@) == local_marker(),
{
    let res = "local".to_owned();
    proof {
        reveal_strlit("local");
        lemma_ascii_bytes(res@);
        assert(bytes(res@) =~= local_marker());
    }
    res
}

/// The lowercase hexadecimal digit for `d < 16`.
pub open spec fn hex_byte(d: int) -> u8 {
    if d < 10 {
        (48 + d) as u8
    } else {
        (87 + d) as u8
    }
}

/// The last `n` hexadecimal digits of `x`, most significant first.
pub open spec fn hex_digits(x: nat, n: nat) -> Seq<u8>
    decreases n,
{
    if n == 0 {
        seq![]
    } else {
        hex_digits(x / 16, (n - 1) as nat) + seq![hex_byte((x % 16) as int)]
    }
}

/// The decimal digits of `x`, most significant first, with no leading zero.
pub open spec fn decimal(x: nat) -> Seq<u8>
    decreases x,
{
    if x < 10 {
        seq![(48 + x) as u8]
    } else {
        decimal(x / 10) + seq![(48 + x % 10) as u8]
    }
}

/// The one-digit string of `d < 16`.
fn digit_str(d: u32) -> (res: &'static str)
    requires
        d < 16,
    ensures
        bytes(res@) == seq![hex_byte(d as int)],
{
    let res = match d {
        0 => {
            proof {
                reveal_strlit("0");
            }
            "0"
        },
        1 => {
            proof {
                reveal_strlit("1");
            }
            "1"
        },
        2 => {
            proof {
                reveal_strlit("2");
            }
            "2"
        },
        3 => {
            proof {
                reveal_strlit("3");
            }
            "3"
        },
        4 => {
            proof {
                reveal_strlit("4");
            }
            "4"
        },
        5 => {
            proof {
                reveal_strlit("5");
            }
            "5"
        },
        6 => {
            proof {
                reveal_strlit("6");
            }
            "6"
        },
        7 => {
            proof {
                reveal_strlit("7");
            }
            "7"
        },
        8 => {
            proof {
                reveal_strlit("8");
            }
            "8"
        },
        9 => {
            proof {
                reveal_strlit("9");
            }
            "9"
        },
        10 => {
            proof {
                reveal_strlit("a");
            }
            "a"
        },
        11 => {
            proof {
                reveal_strlit("b");
            }
            "b"
        },
        12 => {
            proof {
                reveal_strlit("c");
            }
            "c"
        },
        13 => {
            proof {
                reveal_strlit("d");
            }
            "d"
        },
        14 => {
            proof {
                reveal_strlit("e");
            }
            "e"
        },
        _ => {
            proof {
                reveal_strlit("f");
            }
            "f"
        },
    };
    proof {
        lemma_ascii_bytes(res@);
        assert(bytes(res@) =~= seq![hex_byte(d as int)]);
    }
    res
}

/// Appends the last `n` hexadecimal digits of `x`.
pub fn push_hex(out: &mut String, x: u32, n: u32)
    ensures
        bytes(final(out)@) == bytes(old(out)@) + hex_digits(x as nat, n as nat),
    decreases n,
{
    if n == 0 {
        assert(bytes(old(out)@) + hex_digits(x as nat, 0) =~= bytes(old(out)@));
        return;
    }
    push_hex(out, x / 16, n - 1);
    let ghost mid = bytes(out@);
    push_str(out, digit_str(x % 16));
    assert(bytes(out@) =~= bytes(old(out)@) + hex_digits(x as nat, n as nat));
}

/// Appends the decimal digits of `x`.
pub fn push_decimal(out: &mut String, x: u32)
    ensures
        bytes(final(out)@) == bytes(old(out)@) + decimal(x as nat),
    decreases x,
{
    if x >= 10 {
        push_decimal(out, x / 10);
    }
    push_str(out, digit_str(x % 10));
    assert(bytes(out@) =~= bytes(old(out)@) + decimal(x as nat));
}

} // verus!
