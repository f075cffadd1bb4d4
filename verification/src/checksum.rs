//! Deterministic source checksums.
use vstd::prelude::*;

use crate::bounded::{kept_len, BoundedString, Text};
use crate::output::{hex_byte, hex_digits, push_hex};
use crate::policy::{is_lower_hex, spec_checksum_valid};
use crate::text::bytes;

verus! {

/// One step of the 32-bit FNV-1a hash.
pub open spec fn fnv_step(h: u32, b: u8) -> u32 {
    (h ^ (b as u32)).wrapping_mul(16777619u32)
}

/// The 32-bit FNV-1a hash of `data`, starting from state `h`.
pub open spec fn fnv(h: u32, data: Seq<u8>) -> u32
    decreases data.len(),
{
    if data.len() == 0 {
        h
    } else {
        fnv(fnv_step(h, data[0]), data.drop_first())
    }
}

/// `b` cut or padded with zero bytes to length `n`.
pub open spec fn padded(b: Seq<u8>, n: nat) -> Seq<u8> {
    Seq::new(n, |i: int| if i < b.len() { b[i] } else { 0u8 })
}

/// The initial states of the two hash lanes.
pub open spec fn initial_state() -> (u32, u32) {
    (1u32, 0x1234_5678u32)
}

/// The checksum text of a byte stream: both lanes as eight lowercase
/// hexadecimal digits each.
pub open spec fn checksum_text(data: Seq<u8>) -> Seq<u8> {
    hex_digits(fnv(initial_state().0, data) as nat, 8) + hex_digits(
        fnv(initial_state().1, data) as nat,
        8,
    )
}

/// Hashing a stream in pieces gives the hash of the whole stream: the state
/// after `a` continued over `b` is the state over `a + b`.
pub proof fn lemma_fnv_concat(h: u32, a: Seq<u8>, b: Seq<u8>)
    ensures
        fnv(h, a + b) == fnv(fnv(h, a), b),
    decreases a.len(),
{
    if a.len() == 0 {
        assert(a + b =~= b);
    } else {
        assert((a + b).drop_first() =~= a.drop_first() + b);
        assert((a + b)[0] == a[0]);
        lemma_fnv_concat(fnv_step(h, a[0]), a.drop_first(), b);
    }
}

/// Multiplying by the FNV prime modulo 2^32 loses nothing: the prime is odd,
/// so distinct 32-bit values stay distinct.
proof fn lemma_prime_product_injective(x: u32, y: u32)
    requires
        (x as int * 16777619) % 4294967296 == (y as int * 16777619) % 4294967296,
    ensures
        x == y,
{
    let qx = (x as int * 16777619) / 4294967296;
    let qy = (y as int * 16777619) / 4294967296;
    let d = x as int - y as int;
    let j = qx - qy;
    assert(x as int * 16777619 == qx * 4294967296 + (x as int * 16777619) % 4294967296);
    assert(y as int * 16777619 == qy * 4294967296 + (y as int * 16777619) % 4294967296);
    assert(d * 16777619 == j * 4294967296);
    // 16777619 * 899433627 == 1 + 3513497 * 2^32.
    assert(d == 4294967296 * (j * 899433627 - d * 3513497)) by (nonlinear_arith)
        requires
            d * 16777619 == j * 4294967296,
    ;
    let t = j * 899433627 - d * 3513497;
    assert(-4294967296 < d < 4294967296);
    assert(t == 0) by (nonlinear_arith)
        requires
            d == 4294967296 * t,
            -4294967296 < d < 4294967296,
    ;
}

/// One step of the hash folds in the whole byte: it is the FNV-1a step, the
/// state XOR the byte, times 16777619, modulo 2^32; so from one state,
/// different bytes lead to different states.
pub proof fn lemma_fnv_step(h: u32, b: u8, c: u8)
    ensures
        fnv_step(h, b) as int == ((h ^ (b as u32)) as int * 16777619) % 4294967296,
        b != c ==> fnv_step(h, b) != fnv_step(h, c),
{
    let x = h ^ (b as u32);
    let y = h ^ (c as u32);
    assert(b != c ==> x != y) by (bit_vector)
        requires
            x == h ^ (b as u32),
            y == h ^ (c as u32),
    ;
    if b != c && fnv_step(h, b) == fnv_step(h, c) {
        lemma_prime_product_injective(x, y);
    }
}

/// The core chunk hash: folds the first `len` bytes of `chunk` (zero past its
/// end) into `state`.
pub fn kally_checksum_chunk(chunk: BoundedString<512>, len: u32, state: u32) -> (res: u32)
    ensures
        res == fnv(state, padded(chunk@, len as nat)),
{
    let ghost data = padded(chunk@, len as nat);
    let mut h = state;
    let mut i: u32 = 0;
    assert(data.skip(0) =~= data);
    while i < len
        invariant
            i <= len,
            data == padded(chunk@, len as nat),
            fnv(state, data) == fnv(h, data.skip(i as int)),
        decreases len - i,
    {
        let b = Text::byte_at(chunk, i);
        assert(data.skip(i as int)[0] == b);
        assert(data.skip(i as int).drop_first() =~= data.skip(i + 1));
        h = (h ^ (b as u32)).wrapping_mul(16777619u32);
        i = i + 1;
    }
    assert(data.skip(len as int) =~= Seq::<u8>::empty());
    h
}

/// Folds `data` into both hash lanes, 512 bytes at a time.
pub fn checksum_bytes(state: [u32; 2], data: &[u8]) -> (res: [u32; 2])
    ensures
        res@ == seq![fnv(state@[0], data@), fnv(state@[1], data@)],
{
    broadcast use vstd::array::group_array_axioms;
    let mut st = state;
    let mut off: usize = 0;
    assert(data@.skip(0) =~= data@);
    while off < data.len()
        invariant
            off <= data@.len(),
            st@.len() == 2,
            fnv(state@[0], data@) == fnv(st@[0], data@.skip(off as int)),
            fnv(state@[1], data@) == fnv(st@[1], data@.skip(off as int)),
        decreases data@.len() - off,
    {
        let end = if data.len() - off > 512 {
            off + 512
        } else {
            data.len()
        };
        let chunk = &data[off..end];
        let bounded = BoundedString::<512>::from_bytes(chunk);
        proof {
            assert(chunk@.take(kept_len(chunk@, 512)) =~= chunk@);
            assert(padded(bounded@, chunk@.len()) =~= chunk@);
            assert(data@.skip(off as int) =~= chunk@ + data@.skip(end as int));
            lemma_fnv_concat(st@[0], chunk@, data@.skip(end as int));
            lemma_fnv_concat(st@[1], chunk@, data@.skip(end as int));
        }
        let h0 = kally_checksum_chunk(bounded, chunk.len() as u32, st[0]);
        let h1 = kally_checksum_chunk(bounded, chunk.len() as u32, st[1]);
        st[0] = h0;
        st[1] = h1;
        off = end;
    }
    assert(data@.skip(off as int) =~= Seq::<u8>::empty());
    assert(st@ =~= seq![fnv(state@[0], data@), fnv(state@[1], data@)]);
    st
}

/// The checksum of `data`: sixteen lowercase hexadecimal digits.
pub fn checksum(data: &[u8]) -> (res: String)
    ensures
        bytes(res@) == checksum_text(data@),
{
    let state = checksum_bytes([1u32, 0x1234_5678u32], data);
    let mut out = String::new();
    push_hex(&mut out, state[0], 8);
    push_hex(&mut out, state[1], 8);
    out
}

proof fn lemma_hex_digits_shape(x: nat, n: nat)
    ensures
        hex_digits(x, n).len() == n,
        forall|i: int| 0 <= i < n ==> is_lower_hex(#[trigger] hex_digits(x, n)[i]),
    decreases n,
{
    if n > 0 {
        lemma_hex_digits_shape(x / 16, (n - 1) as nat);
        let d = x % 16;
        assert(is_lower_hex(hex_byte(d as int)));
        let s = hex_digits(x, n);
        assert forall|i: int| 0 <= i < n implies is_lower_hex(#[trigger] s[i]) by {
            if i < n - 1 {
                assert(s[i] == hex_digits(x / 16, (n - 1) as nat)[i]);
            }
        }
    }
}

/// Every checksum has the shape that lockfiles accept for checksums.
pub proof fn lemma_checksum_text_valid(data: Seq<u8>)
    ensures
        spec_checksum_valid(checksum_text(data)),
{
    let a = hex_digits(fnv(initial_state().0, data) as nat, 8);
    let b = hex_digits(fnv(initial_state().1, data) as nat, 8);
    lemma_hex_digits_shape(fnv(initial_state().0, data) as nat, 8);
    lemma_hex_digits_shape(fnv(initial_state().1, data) as nat, 8);
    let t = checksum_text(data);
    assert forall|i: int| 0 <= i < t.len() implies is_lower_hex(#[trigger] t[i]) by {
        if i < 8 {
            assert(t[i] == a[i]);
        } else {
            assert(t[i] == b[i - 8]);
        }
    }
}

} // verus!
