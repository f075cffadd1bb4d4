//! UTF-8 text as bytes: boundaries, slicing, whitespace trimming, line splitting.
use vstd::prelude::*;
use vstd::utf8::*;

verus! {

broadcast use encode_utf8_valid_utf8;

/// The UTF-8 bytes of a character sequence.
pub open spec fn bytes(s: Seq<char>) -> Seq<u8> {
    encode_utf8(s)
}

/// The encoding of a concatenation is the concatenation of the encodings.
pub proof fn lemma_bytes_concat(a: Seq<char>, b: Seq<char>)
    ensures
        bytes(a + b) == bytes(a) + bytes(b),
    decreases a.len(),
{
    if a.len() == 0 {
        assert(a + b =~= b);
        assert(bytes(a) + bytes(b) =~= bytes(b));
    } else {
        assert((a + b).drop_first() =~= a.drop_first() + b);
        lemma_bytes_concat(a.drop_first(), b);
        assert(bytes(a + b) =~= bytes(a) + bytes(b));
    }
}

/// The first byte of non-empty valid UTF-8 starts a character.
pub proof fn lemma_valid_first_byte(b: Seq<u8>)
    requires
        valid_utf8(b),
        b.len() > 0,
    ensures
        !is_continuation_byte(b[0]),
{
}

/// An index that holds no continuation byte is a character boundary.
pub proof fn lemma_boundary(b: Seq<u8>, i: int)
    requires
        valid_utf8(b),
        0 <= i <= b.len(),
        i == b.len() || !is_continuation_byte(b[i]),
    ensures
        is_char_boundary(b, i),
{
    if i == b.len() {
        is_char_boundary_start_end_of_seq(b);
    } else {
        is_char_boundary_iff_not_is_continuation_byte(b, i);
    }
}

/// Width of the character that a leading byte starts.
pub open spec fn lead_width(x: u8) -> int {
    if x < 0x80 {
        1
    } else if 0xc0 <= x <= 0xdf {
        2
    } else if 0xe0 <= x <= 0xef {
        3
    } else {
        4
    }
}

/// The index just past a whole character that starts at a boundary is a
/// boundary too.
pub proof fn lemma_boundary_after(b: Seq<u8>, i: int)
    requires
        valid_utf8(b),
        0 <= i < b.len(),
        !is_continuation_byte(b[i]),
        i + lead_width(b[i]) <= b.len(),
    ensures
        is_char_boundary(b, i + lead_width(b[i])),
        i + lead_width(b[i]) == b.len() || !is_continuation_byte(b[i + lead_width(b[i])]),
{
    let k = lead_width(b[i]);
    lemma_boundary(b, i);
    valid_utf8_split(b, i);
    let s2 = b.subrange(i, b.len() as int);
    assert(s2[0] == b[i]);
    assert(valid_first_scalar(s2));
    assert(length_of_first_scalar(s2) == k);
    let rest = pop_first_scalar(s2);
    assert(rest =~= b.subrange(i + k, b.len() as int));
    if i + k < b.len() {
        lemma_valid_first_byte(rest);
        assert(rest[0] == b[i + k]);
    }
    lemma_boundary(b, i + k);
}

/// The number of bytes of `s`.
pub fn byte_len(s: &str) -> (n: usize)
    ensures
        n == bytes(s@).len(),
{
    s.as_bytes().len()
}

/// Splits `s` at byte `mid`, a character boundary.
pub fn split_str(s: &str, mid: usize) -> (res: (&str, &str))
    requires
        mid <= bytes(s@).len(),
        is_char_boundary(bytes(s@), mid as int),
    ensures
        bytes(res.0@) == bytes(s@).take(mid as int),
        bytes(res.1@) == bytes(s@).skip(mid as int),
{
    let res = s.split_at(mid);
    assert(bytes(s@).take(mid as int) =~= bytes(s@).subrange(0, mid as int));
    res
}

/// ASCII whitespace: tab, line feed, vertical tab, form feed, carriage
/// return, space.
pub open spec fn is_ascii_space(b: u8) -> bool {
    (9 <= b <= 13) || b == 32
}

/// Whether `x y z` encodes one of the three-byte Unicode whitespace
/// characters: U+1680, U+2000 to U+200A, U+2028, U+2029, U+202F, U+205F,
/// U+3000.
pub open spec fn is_space3(x: u8, y: u8, z: u8) -> bool {
    ||| (x == 0xe1 && y == 0x9a && z == 0x80)
    ||| (x == 0xe2 && y == 0x80 && ((0x80 <= z <= 0x8a) || z == 0xa8 || z == 0xa9 || z == 0xaf))
    ||| (x == 0xe2 && y == 0x81 && z == 0x9f)
    ||| (x == 0xe3 && y == 0x80 && z == 0x80)
}

/// Whether `x y` encodes U+0085 or U+00A0.
pub open spec fn is_space2(x: u8, y: u8) -> bool {
    x == 0xc2 && (y == 0x85 || y == 0xa0)
}

/// The byte length of the Unicode whitespace character that `b` starts with,
/// or 0.
pub open spec fn space_prefix_len(b: Seq<u8>) -> int {
    if b.len() >= 1 && is_ascii_space(b[0]) {
        1
    } else if b.len() >= 2 && is_space2(b[0], b[1]) {
        2
    } else if b.len() >= 3 && is_space3(b[0], b[1], b[2]) {
        3
    } else {
        0
    }
}

/// The byte length of the Unicode whitespace character that `b` ends with,
/// or 0.
pub open spec fn space_suffix_len(b: Seq<u8>) -> int {
    let n = b.len() as int;
    if n >= 1 && is_ascii_space(b[n - 1]) {
        1
    } else if n >= 2 && is_space2(b[n - 2], b[n - 1]) {
        2
    } else if n >= 3 && is_space3(b[n - 3], b[n - 2], b[n - 1]) {
        3
    } else {
        0
    }
}

/// `b` without its leading whitespace characters.
pub open spec fn trim_start(b: Seq<u8>) -> Seq<u8>
    decreases b.len(),
{
    if space_prefix_len(b) > 0 {
        trim_start(b.skip(space_prefix_len(b)))
    } else {
        b
    }
}

/// `b` without its trailing whitespace characters.
pub open spec fn trim_end(b: Seq<u8>) -> Seq<u8>
    decreases b.len(),
{
    if space_suffix_len(b) > 0 {
        trim_end(b.take(b.len() - space_suffix_len(b)))
    } else {
        b
    }
}

/// `b` without leading and trailing whitespace characters.
pub open spec fn trim(b: Seq<u8>) -> Seq<u8> {
    trim_end(trim_start(b))
}

fn space_prefix_len_exec(b: &[u8]) -> (res: usize)
    ensures
        res == space_prefix_len(b@),
{
    let n = b.len();
    if n >= 1 && ((9 <= b[0] && b[0] <= 13) || b[0] == 32) {
        1
    } else if n >= 2 && b[0] == 0xc2 && (b[1] == 0x85 || b[1] == 0xa0) {
        2
    } else if n >= 3 && ((b[0] == 0xe1 && b[1] == 0x9a && b[2] == 0x80) || (b[0] == 0xe2 && b[1]
        == 0x80 && ((0x80 <= b[2] && b[2] <= 0x8a) || b[2] == 0xa8 || b[2] == 0xa9 || b[2] == 0xaf))
        || (b[0] == 0xe2 && b[1] == 0x81 && b[2] == 0x9f) || (b[0] == 0xe3 && b[1] == 0x80 && b[2]
        == 0x80)) {
        3
    } else {
        0
    }
}

fn space_suffix_len_exec(b: &[u8]) -> (res: usize)
    ensures
        res == space_suffix_len(b@),
{
    let n = b.len();
    if n >= 1 && ((9 <= b[n - 1] && b[n - 1] <= 13) || b[n - 1] == 32) {
        1
    } else if n >= 2 && b[n - 2] == 0xc2 && (b[n - 1] == 0x85 || b[n - 1] == 0xa0) {
        2
    } else if n >= 3 && ((b[n - 3] == 0xe1 && b[n - 2] == 0x9a && b[n - 1] == 0x80) || (b[n - 3]
        == 0xe2 && b[n - 2] == 0x80 && ((0x80 <= b[n - 1] && b[n - 1] <= 0x8a) || b[n - 1] == 0xa8
        || b[n - 1] == 0xa9 || b[n - 1] == 0xaf)) || (b[n - 3] == 0xe2 && b[n - 2] == 0x81 && b[n
        - 1] == 0x9f) || (b[n - 3] == 0xe3 && b[n - 2] == 0x80 && b[n - 1] == 0x80)) {
        3
    } else {
        0
    }
}

/// `s` without leading and trailing whitespace.
pub fn trim_str(s: &str) -> (res: &str)
    ensures
        bytes(res@) == trim(bytes(s@)),
{
    let mut cur = s;
    loop
        invariant
            trim_start(bytes(s@)) == trim_start(bytes(cur@)),
        ensures
            trim_start(bytes(s@)) == bytes(cur@),
        decreases bytes(cur@).len(),
    {
        let b = cur.as_bytes();
        let k = space_prefix_len_exec(b);
        if k == 0 {
            break;
        }
        proof {
            let bb = bytes(cur@);
            assert(lead_width(bb[0]) == k);
            lemma_valid_first_byte(bb);
            lemma_boundary_after(bb, 0);
        }
        let (_, rest) = split_str(cur, k);
        cur = rest;
    }
    assert(trim_start(bytes(s@)) == bytes(cur@));
    loop
        invariant
            trim(bytes(s@)) == trim_end(bytes(cur@)),
        ensures
            trim(bytes(s@)) == bytes(cur@),
        decreases bytes(cur@).len(),
    {
        let b = cur.as_bytes();
        let k = space_suffix_len_exec(b);
        if k == 0 {
            break;
        }
        proof {
            let bb = bytes(cur@);
            lemma_boundary(bb, bb.len() - k);
        }
        let (front, _) = split_str(cur, b.len() - k);
        cur = front;
    }
    cur
}

/// The index of the first line feed of `t`, or its length.
pub open spec fn first_newline(t: Seq<u8>) -> int
    decreases t.len(),
{
    if t.len() == 0 {
        0
    } else if t[0] == 10u8 {
        0
    } else {
        1 + first_newline(t.drop_first())
    }
}

pub proof fn lemma_first_newline(t: Seq<u8>)
    ensures
        0 <= first_newline(t) <= t.len(),
        first_newline(t) < t.len() ==> t[first_newline(t)] == 10u8,
        forall|i: int| 0 <= i < first_newline(t) ==> t[i] != 10u8,
    decreases t.len(),
{
    if t.len() > 0 && t[0] != 10u8 {
        lemma_first_newline(t.drop_first());
        assert forall|i: int| 0 <= i < first_newline(t) implies t[i] != 10u8 by {
            if i > 0 {
                assert(t[i] == t.drop_first()[i - 1]);
            }
        }
    }
}

/// The index of the first `x` in `t`, or its length.
pub open spec fn first_index(t: Seq<u8>, x: u8) -> int
    decreases t.len(),
{
    if t.len() == 0 {
        0
    } else if t[0] == x {
        0
    } else {
        1 + first_index(t.drop_first(), x)
    }
}

pub proof fn lemma_first_index(t: Seq<u8>, x: u8)
    ensures
        0 <= first_index(t, x) <= t.len(),
        first_index(t, x) < t.len() ==> t[first_index(t, x)] == x,
        forall|i: int| 0 <= i < first_index(t, x) ==> t[i] != x,
        x == 10u8 ==> first_index(t, x) == first_newline(t),
    decreases t.len(),
{
    if t.len() > 0 && t[0] != x {
        lemma_first_index(t.drop_first(), x);
        assert forall|i: int| 0 <= i < first_index(t, x) implies t[i] != x by {
            if i > 0 {
                assert(t[i] == t.drop_first()[i - 1]);
            }
        }
    }
}

/// Splits `s` at its first ASCII byte `x`: the text before it, the text after
/// it, and whether there was one.
pub fn split_once(s: &str, x: u8) -> (res: (&str, &str, bool))
    requires
        x < 128,
    ensures
        bytes(res.0@) == bytes(s@).take(first_index(bytes(s@), x)),
        res.2 == (first_index(bytes(s@), x) < bytes(s@).len()),
        res.2 ==> bytes(res.1@) == bytes(s@).skip(first_index(bytes(s@), x) + 1),
        !res.2 ==> bytes(res.1@).len() == 0,
{
    let b = s.as_bytes();
    let ghost t = bytes(s@);
    proof {
        lemma_first_index(t, x);
    }
    let mut i: usize = 0;
    while i < b.len() && b[i] != x
        invariant
            i <= first_index(t, x),
            first_index(t, x) <= t.len(),
            first_index(t, x) < t.len() ==> t[first_index(t, x)] == x,
            b@ == t,
        decreases b@.len() - i,
    {
        i = i + 1;
    }
    assert(i == first_index(t, x));
    proof {
        lemma_boundary(t, i as int);
    }
    let (before, rest) = split_str(s, i);
    if i < b.len() {
        proof {
            let r = bytes(rest@);
            assert(r[0] == x);
            lemma_boundary_after(r, 0);
        }
        let (_, after) = split_str(rest, 1);
        assert(bytes(after@) =~= t.skip(i + 1));
        (before, after, true)
    } else {
        (before, rest, false)
    }
}

/// Splits off the first line of `s`: the text before the first line feed,
/// the text after it, and whether there was one.
pub fn next_line(s: &str) -> (res: (&str, &str, bool))
    ensures
        bytes(res.0@) == bytes(s@).take(first_newline(bytes(s@))),
        res.2 == (first_newline(bytes(s@)) < bytes(s@).len()),
        res.2 ==> bytes(res.1@) == bytes(s@).skip(first_newline(bytes(s@)) + 1),
        !res.2 ==> bytes(res.1@).len() == 0,
{
    proof {
        lemma_first_index(bytes(s@), 10u8);
    }
    split_once(s, 10)
}

} // verus!

