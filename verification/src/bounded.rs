//! Fixed-capacity byte strings: the value type that the policy core reads.
use vstd::prelude::*;
use vstd::utf8::encode_utf8;

verus! {

/// The number of bytes that a bounded string of capacity `n` keeps from `b`:
/// at most `n`, and at most what a `u16` length can record.
pub open spec fn kept_len(b: Seq<u8>, n: int) -> int {
    let m = if b.len() < n { b.len() as int } else { n };
    if m < 65535 { m } else { 65535 }
}

/// A byte string of at most `N` bytes, stored inline.
#[derive(Clone, Copy)]
pub struct BoundedString<const N: usize> {
    len: u16,
    bytes: [u8; N],
}

/// The `N` stored bytes of a bounded string made from `b`: the kept bytes of
/// `b`, then zeros.
pub open spec fn zero_padded(b: Seq<u8>, n: int) -> Seq<u8> {
    Seq::new(n as nat, |i: int| if i < kept_len(b, n) { b[i] } else { 0u8 })
}

impl<const N: usize> View for BoundedString<N> {
    type V = Seq<u8>;

    closed spec fn view(&self) -> Seq<u8> {
        self.bytes@.take(self.len as int)
    }
}

impl<const N: usize> BoundedString<N> {
    #[verifier::type_invariant]
    closed spec fn inv(self) -> bool {
        &&& self.len as int <= N
        &&& forall|i: int| self.len <= i < N ==> #[trigger] self.bytes@[i] == 0u8
    }

    /// The whole value: the length and all `N` stored bytes.
    pub closed spec fn parts(&self) -> (nat, Seq<u8>) {
        (self.len as nat, self.bytes@)
    }

    /// Bounded strings with the same length and the same stored bytes are the
    /// same value.
    pub proof fn lemma_parts_determine(a: Self, b: Self)
        requires
            a.parts() == b.parts(),
        ensures
            a == b,
    {
        broadcast use vstd::array::axiom_array_ext_equal;

        assert(a.bytes =~= b.bytes) by {
            assert forall|i: int| 0 <= i < N implies a.bytes[i] == b.bytes[i] by {
                vstd::array::lemma_array_index(a.bytes, i);
                vstd::array::lemma_array_index(b.bytes, i);
            }
        }
    }

    /// Copies the first `count` bytes of `value` into a fresh string.
    fn copy_prefix(value: &[u8], count: usize) -> (res: Self)
        requires
            count <= N,
            count <= value@.len(),
            count <= 65535,
        ensures
            res@ == value@.take(count as int),
            res.parts() == (count as nat, Seq::new(
                N as nat,
                |i: int| if i < count { value@[i] } else { 0u8 },
            )),
    {
        broadcast use vstd::array::group_array_axioms;
        let mut bytes: [u8; N] = [0u8; N];
        let mut i: usize = 0;
        while i < count
            invariant
                i <= count,
                count <= N,
                count <= value@.len(),
                bytes@.len() == N,
                forall|j: int| 0 <= j < i ==> bytes@[j] == value@[j],
                forall|j: int| count <= j < N ==> bytes@[j] == 0u8,
            decreases count - i,
        {
            bytes[i] = value[i];
            i = i + 1;
        }
        let res = BoundedString { len: count as u16, bytes };
        assert(res@ =~= value@.take(count as int));
        assert(bytes@ =~= Seq::new(N as nat, |i: int| if i < count { value@[i] } else { 0u8 }));
        res
    }

    /// Keeps the first `min(len, N, 65535)` bytes of `value`.
    pub fn from_str(value: &str) -> (res: Self)
        ensures
            res@ == encode_utf8(value@).take(kept_len(encode_utf8(value@), N as int)),
            res.parts() == (
                kept_len(encode_utf8(value@), N as int) as nat,
                zero_padded(encode_utf8(value@), N as int),
            ),
    {
        Self::from_bytes(value.as_bytes())
    }

    /// Keeps the first `min(len, N, 65535)` bytes of `value`.
    pub fn from_bytes(value: &[u8]) -> (res: Self)
        ensures
            res@ == value@.take(kept_len(value@, N as int)),
            res.parts() == (kept_len(value@, N as int) as nat, zero_padded(value@, N as int)),
    {
        let mut count = value.len();
        if N < count {
            count = N;
        }
        if 65535 < count {
            count = 65535;
        }
        let res = Self::copy_prefix(value, count);
        assert(res.parts().1 =~= zero_padded(value@, N as int));
        res
    }

    /// The number of bytes held.
    pub fn length(&self) -> (res: u32)
        ensures
            res == self@.len(),
            res <= N,
    {
        proof {
            use_type_invariant(self);
            vstd::array::array_len_matches_n(&self.bytes);
        }
        self.len as u32
    }

    /// The byte at `index`, or 0 past the end.
    pub fn byte_at(&self, index: u32) -> (res: u8)
        ensures
            res == (if index < self@.len() { self@[index as int] } else { 0u8 }),
    {
        proof {
            use_type_invariant(self);
            vstd::array::array_len_matches_n(&self.bytes);
        }
        if index < self.len as u32 {
            self.bytes[index as usize]
        } else {
            0
        }
    }
}

/// The text intrinsics that the policy core is written against.
pub struct Text;

impl Text {
    /// The number of bytes held by `value`.
    pub fn length<const N: usize>(value: BoundedString<N>) -> (res: u32)
        ensures
            res == value@.len(),
            res <= N,
    {
        value.length()
    }

    /// The byte at `index` of `value`, or 0 past the end.
    pub fn byte_at<const N: usize>(value: BoundedString<N>, index: u32) -> (res: u8)
        ensures
            res == (if index < value@.len() { value@[index as int] } else { 0u8 }),
    {
        value.byte_at(index)
    }

    /// The byte at `index` of `value`, widened to `u32`, or 0 past the end.
    pub fn byte_at_u32<const N: usize>(value: BoundedString<N>, index: u32) -> (res: u32)
        ensures
            res == (if index < value@.len() { value@[index as int] as u32 } else { 0u32 }),
    {
        value.byte_at(index) as u32
    }
}

} // verus!
