//! The byte-level rules for package names, sources, references, revisions and
//! checksums, and the decisions of the resolver.
use vstd::prelude::*;

use crate::bounded::{BoundedString, Text};

verus! {

pub open spec fn is_digit(b: u8) -> bool {
    48 <= b <= 57
}

pub open spec fn is_lower_hex(b: u8) -> bool {
    is_digit(b) || (97 <= b <= 102)
}

pub open spec fn is_alpha(b: u8) -> bool {
    (65 <= b <= 90) || (97 <= b <= 122)
}

/// ASCII letters, digits, `-` and `_`.
pub open spec fn is_name_byte(b: u8) -> bool {
    is_alpha(b) || is_digit(b) || b == 45 || b == 95
}

/// Printable ASCII other than space.
pub open spec fn is_visible(b: u8) -> bool {
    33 <= b <= 126
}

/// ASCII letters, digits, `.`, `_`, `-` and `/`.
pub open spec fn is_reference_byte(b: u8) -> bool {
    is_alpha(b) || is_digit(b) || b == 46 || b == 95 || b == 45 || b == 47
}

pub open spec fn has_prefix(s: Seq<u8>, p: Seq<u8>) -> bool {
    p.len() <= s.len() && s.take(p.len() as int) == p
}

/// `git:`
pub open spec fn git_tag() -> Seq<u8> {
    seq![103u8, 105, 116, 58]
}

/// `path:`
pub open spec fn path_tag() -> Seq<u8> {
    seq![112u8, 97, 116, 104, 58]
}

/// `local`, the reference and revision marker of a local package.
pub open spec fn local_marker() -> Seq<u8> {
    seq![108u8, 111, 99, 97, 108]
}

/// A package name: 1 to 64 ASCII letters, digits, `-` or `_`.
pub open spec fn spec_valid_name(s: Seq<u8>) -> bool {
    &&& 1 <= s.len() <= 64
    &&& forall|i: int| 0 <= i < s.len() ==> is_name_byte(#[trigger] s[i])
}

/// 1 for a `git:` source, 2 for a `path:` source, each with a non-empty value;
/// 0 otherwise.
pub open spec fn spec_source_kind(s: Seq<u8>) -> u32 {
    if s.len() > 4 && has_prefix(s, git_tag()) {
        1
    } else if s.len() > 5 && has_prefix(s, path_tag()) {
        2
    } else {
        0
    }
}

/// A `..` path segment starting at `i`.
pub open spec fn dotdot_segment_at(d: Seq<u8>, i: int) -> bool {
    &&& 0 <= i
    &&& i + 1 < d.len()
    &&& d[i] == 46u8
    &&& d[i + 1] == 46u8
    &&& (i == 0 || d[i - 1] == 47u8)
    &&& (i + 2 == d.len() || d[i + 2] == 47u8)
}

/// A relative subdirectory that cannot leave its repository: non-empty, not
/// absolute, no backslash, no `..` segment.
pub open spec fn safe_subdir(d: Seq<u8>) -> bool {
    &&& d.len() > 0
    &&& d[0] != 47u8
    &&& forall|i: int| 0 <= i < d.len() ==> #[trigger] d[i] != 92u8
    &&& forall|i: int| !dotdot_segment_at(d, i)
}

/// `git:URL[#SUBDIR]`: visible ASCII only, a non-empty URL, at most one `#`,
/// and a safe subdirectory after it.
pub open spec fn spec_git_source_valid(s: Seq<u8>) -> bool {
    spec_source_kind(s) == 1 && {
        let p = s.skip(4);
        &&& forall|i: int| 0 <= i < p.len() ==> is_visible(#[trigger] p[i])
        &&& forall|h: int|
            0 <= h < p.len() && #[trigger] p[h] == 35u8 ==> {
                &&& 0 < h
                &&& safe_subdir(p.skip(h + 1))
                &&& forall|k: int| 0 <= k < p.len() && #[trigger] p[k] == 35u8 ==> k == h
            }
    }
}

/// `path:PATH`: a relative path without control bytes or backslashes.
pub open spec fn spec_path_source_valid(s: Seq<u8>) -> bool {
    spec_source_kind(s) == 2 && {
        let p = s.skip(5);
        &&& p[0] != 47u8
        &&& forall|i: int|
            0 <= i < p.len() ==> {
                let b = #[trigger] p[i];
                32 <= b && b != 127 && b != 92
            }
    }
}

/// An immutable Git commit: 7 to 64 lowercase hexadecimal digits.
pub open spec fn spec_revision_valid(s: Seq<u8>) -> bool {
    &&& 7 <= s.len() <= 64
    &&& forall|i: int| 0 <= i < s.len() ==> is_lower_hex(#[trigger] s[i])
}

/// A source checksum: exactly 16 lowercase hexadecimal digits.
pub open spec fn spec_checksum_valid(s: Seq<u8>) -> bool {
    &&& s.len() == 16
    &&& forall|i: int| 0 <= i < s.len() ==> is_lower_hex(#[trigger] s[i])
}

/// A Git branch or tag: 1 to 256 letters, digits, `.`, `_`, `-` or `/`, not
/// starting with `-`, `.` or `/`, not ending with `.` or `/`, with no `..` and
/// no `//`.
pub open spec fn spec_reference_valid(s: Seq<u8>) -> bool {
    &&& 1 <= s.len() <= 256
    &&& forall|i: int| 0 <= i < s.len() ==> is_reference_byte(#[trigger] s[i])
    &&& s[0] != 45u8 && s[0] != 46u8 && s[0] != 47u8
    &&& s[s.len() - 1] != 46u8 && s[s.len() - 1] != 47u8
    &&& forall|i: int|
        0 <= i < s.len() - 1 ==> !((#[trigger] s[i] == 46u8 && s[i + 1] == 46u8) || (s[i] == 47u8
            && s[i + 1] == 47u8))
}

/// Whether `s` is exactly the local marker `local`.
pub open spec fn spec_local_reference(s: Seq<u8>) -> bool {
    s == local_marker()
}

/// Whether bytes `s[start..start + p.len()]` equal `p`.
pub open spec fn matches_at(s: Seq<u8>, start: int, p: Seq<u8>) -> bool {
    start + p.len() <= s.len() && s.subrange(start, start + p.len()) == p
}

/// Whether the bytes of `s` from `start` equal those of `p`.
pub(crate) fn bounded_matches_at<const N: usize>(s: BoundedString<N>, start: u32, p: &[u8]) -> (res: bool)
    ensures
        res == matches_at(s@, start as int, p@),
{
    let len = Text::length(s);
    if (len as usize) < p.len() {
        return false;
    }
    if start > len - p.len() as u32 {
        return false;
    }
    let mut i: usize = 0;
    while i < p.len()
        invariant
            i <= p@.len(),
            start + p@.len() <= s@.len(),
            len == s@.len(),
            forall|j: int| 0 <= j < i ==> s@[start + j] == p@[j],
        decreases p@.len() - i,
    {
        if Text::byte_at(s, start + i as u32) != p[i] {
            assert(s@.subrange(start as int, start + p@.len())[i as int] != p@[i as int]);
            return false;
        }
        i = i + 1;
    }
    assert(s@.subrange(start as int, start + p@.len()) =~= p@);
    true
}

/// The core name rule.
pub fn kally_valid_name<const N: usize>(name: BoundedString<N>) -> (res: bool)
    ensures
        res == spec_valid_name(name@),
{
    let len = Text::length(name);
    if len < 1 || len > 64 {
        return false;
    }
    let mut i: u32 = 0;
    while i < len
        invariant
            i <= len,
            len == name@.len(),
            forall|j: int| 0 <= j < i ==> is_name_byte(#[trigger] name@[j]),
        decreases len - i,
    {
        let b = Text::byte_at(name, i);
        if !((65 <= b && b <= 90) || (97 <= b && b <= 122) || (48 <= b && b <= 57) || b == 45 || b
            == 95) {
            return false;
        }
        i = i + 1;
    }
    true
}

/// The core source classification.
pub fn kally_source_kind<const N: usize>(source: BoundedString<N>) -> (res: u32)
    ensures
        res == spec_source_kind(source@),
{
    let len = Text::length(source);
    let git: [u8; 4] = [103u8, 105, 116, 58];
    let path: [u8; 5] = [112u8, 97, 116, 104, 58];
    proof {
        assert(git@ =~= git_tag());
        assert(path@ =~= path_tag());
    }
    if len > 4 && bounded_matches_at(source, 0, git.as_slice()) {
        assert(source@.subrange(0, 4) =~= source@.take(4));
        1
    } else if len > 5 && bounded_matches_at(source, 0, path.as_slice()) {
        assert(source@.subrange(0, 5) =~= source@.take(5));
        2
    } else {
        assert(source@.subrange(0, 4) =~= source@.take(4));
        assert(source@.subrange(0, 5) =~= source@.take(5));
        0
    }
}

/// Whether `s[start..]` is a safe subdirectory.
fn kally_subdir_safe<const N: usize>(s: BoundedString<N>, start: u32) -> (res: bool)
    requires
        start <= s@.len(),
    ensures
        res == safe_subdir(s@.skip(start as int)),
{
    let len = Text::length(s);
    let ghost d = s@.skip(start as int);
    if start >= len || Text::byte_at(s, start) == 47 {
        return false;
    }
    let mut i: u32 = start;
    while i < len
        invariant
            start <= i <= len,
            len == s@.len(),
            d == s@.skip(start as int),
            forall|j: int| 0 <= j < i - start ==> #[trigger] d[j] != 92u8,
            forall|j: int| 0 <= j < i - start ==> !dotdot_segment_at(d, j),
        decreases len - i,
    {
        let b = Text::byte_at(s, i);
        if b == 92 {
            assert(d[i - start] == 92u8);
            return false;
        }
        if b == 46 && i + 1 < len && Text::byte_at(s, i + 1) == 46 && (i == start || Text::byte_at(
            s,
            i - 1,
        ) == 47) && (i + 2 == len || Text::byte_at(s, i + 2) == 47) {
            assert(dotdot_segment_at(d, i - start));
            return false;
        }
        assert(!dotdot_segment_at(d, i - start));
        i = i + 1;
    }
    assert forall|j: int| !dotdot_segment_at(d, j) by {
        if 0 <= j && j + 1 < d.len() {
            assert(j < i - start);
        }
    }
    true
}

/// The core `git:URL[#SUBDIR]` rule.
pub fn kally_git_source_valid<const N: usize>(source: BoundedString<N>) -> (res: bool)
    ensures
        res == spec_git_source_valid(source@),
{
    if kally_source_kind(source) != 1 {
        return false;
    }
    let len = Text::length(source);
    let ghost p = source@.skip(4);
    let mut hash_at: u32 = 0;
    let mut i: u32 = 4;
    while i < len
        invariant
            4 <= i <= len,
            len == source@.len(),
            p == source@.skip(4),
            hash_at == 0 || 4 <= hash_at < i,
            hash_at != 0 ==> p[hash_at - 4] == 35u8,
            forall|j: int| 0 <= j < i - 4 ==> is_visible(#[trigger] p[j]),
            forall|j: int|
                0 <= j < i - 4 && #[trigger] p[j] == 35u8 ==> hash_at != 0 && j == hash_at - 4,
        decreases len - i,
    {
        let b = Text::byte_at(source, i);
        if !(33 <= b && b <= 126) {
            assert(!is_visible(p[i - 4]));
            return false;
        }
        if b == 35 {
            if hash_at != 0 {
                assert(p[i - 4] == 35u8 && p[hash_at - 4] == 35u8);
                return false;
            }
            hash_at = i;
        }
        i = i + 1;
    }
    if hash_at == 0 {
        return true;
    }
    if hash_at == 4 {
        assert(p[0] == 35u8);
        return false;
    }
    let safe = kally_subdir_safe(source, hash_at + 1);
    proof {
        assert(p.skip(hash_at - 4 + 1) =~= source@.skip(hash_at + 1));
        if safe {
            assert forall|h: int| 0 <= h < p.len() && #[trigger] p[h] == 35u8 implies {
                &&& 0 < h
                &&& safe_subdir(p.skip(h + 1))
                &&& forall|k: int| 0 <= k < p.len() && #[trigger] p[k] == 35u8 ==> k == h
            } by {
                assert(h == hash_at - 4);
            }
        } else {
            assert(p[hash_at - 4] == 35u8);
        }
    }
    safe
}

/// The core `path:PATH` rule.
pub fn kally_path_source_valid<const N: usize>(source: BoundedString<N>) -> (res: bool)
    ensures
        res == spec_path_source_valid(source@),
{
    if kally_source_kind(source) != 2 {
        return false;
    }
    let len = Text::length(source);
    let ghost p = source@.skip(5);
    if Text::byte_at(source, 5) == 47 {
        return false;
    }
    let mut i: u32 = 5;
    while i < len
        invariant
            5 <= i <= len,
            len == source@.len(),
            p == source@.skip(5),
            forall|j: int|
                0 <= j < i - 5 ==> {
                    let b = #[trigger] p[j];
                    32 <= b && b != 127 && b != 92
                },
        decreases len - i,
    {
        let b = Text::byte_at(source, i);
        if b < 32 || b == 127 || b == 92 {
            assert(p[i - 5] == b);
            return false;
        }
        i = i + 1;
    }
    true
}

/// Whether every byte of `s` is a lowercase hexadecimal digit.
fn kally_all_lower_hex<const N: usize>(s: BoundedString<N>) -> (res: bool)
    ensures
        res == forall|i: int| 0 <= i < s@.len() ==> is_lower_hex(#[trigger] s@[i]),
{
    let len = Text::length(s);
    let mut i: u32 = 0;
    while i < len
        invariant
            i <= len,
            len == s@.len(),
            forall|j: int| 0 <= j < i ==> is_lower_hex(#[trigger] s@[j]),
        decreases len - i,
    {
        let b = Text::byte_at(s, i);
        if !((48 <= b && b <= 57) || (97 <= b && b <= 102)) {
            return false;
        }
        i = i + 1;
    }
    true
}

/// The core revision rule.
pub fn kally_revision_valid<const N: usize>(revision: BoundedString<N>) -> (res: bool)
    ensures
        res == spec_revision_valid(revision@),
{
    let len = Text::length(revision);
    7 <= len && len <= 64 && kally_all_lower_hex(revision)
}

/// The core checksum rule.
pub fn kally_checksum_valid<const N: usize>(checksum: BoundedString<N>) -> (res: bool)
    ensures
        res == spec_checksum_valid(checksum@),
{
    Text::length(checksum) == 16 && kally_all_lower_hex(checksum)
}

/// The core branch-or-tag rule.
pub fn kally_reference_valid<const N: usize>(reference: BoundedString<N>) -> (res: bool)
    ensures
        res == spec_reference_valid(reference@),
{
    let len = Text::length(reference);
    if len < 1 || len > 256 {
        return false;
    }
    let first = Text::byte_at(reference, 0);
    let last = Text::byte_at(reference, len - 1);
    if first == 45 || first == 46 || first == 47 || last == 46 || last == 47 {
        return false;
    }
    let mut i: u32 = 0;
    while i < len
        invariant
            i <= len,
            1 <= len <= 256,
            len == reference@.len(),
            forall|j: int| 0 <= j < i ==> is_reference_byte(#[trigger] reference@[j]),
            forall|j: int|
                0 <= j < i && j < len - 1 ==> !((#[trigger] reference@[j] == 46u8 && reference@[j
                    + 1] == 46u8) || (reference@[j] == 47u8 && reference@[j + 1] == 47u8)),
        decreases len - i,
    {
        let b = Text::byte_at(reference, i);
        if !((65 <= b && b <= 90) || (97 <= b && b <= 122) || (48 <= b && b <= 57) || b == 46 || b
            == 95 || b == 45 || b == 47) {
            return false;
        }
        if i + 1 < len {
            let next = Text::byte_at(reference, i + 1);
            if (b == 46 && next == 46) || (b == 47 && next == 47) {
                return false;
            }
        }
        i = i + 1;
    }
    true
}

/// The core local-marker rule.
pub fn kally_local_reference_valid<const N: usize>(reference: BoundedString<N>) -> (res: bool)
    ensures
        res == spec_local_reference(reference@),
{
    let local: [u8; 5] = [108u8, 111, 99, 97, 108];
    assert(local@ =~= local_marker());
    let res = Text::length(reference) == 5 && bounded_matches_at(reference, 0, local.as_slice());
    assert(reference@.len() == 5 ==> reference@.subrange(0, 5) =~= reference@);
    res
}

/// Whether two bounded strings hold the same bytes.
pub fn kally_text_equals<const N: usize>(a: BoundedString<N>, b: BoundedString<N>) -> (res: bool)
    ensures
        res == (a@ == b@),
{
    let len = Text::length(a);
    if len != Text::length(b) {
        return false;
    }
    let mut i: u32 = 0;
    while i < len
        invariant
            i <= len,
            len == a@.len(),
            len == b@.len(),
            forall|j: int| 0 <= j < i ==> a@[j] == b@[j],
        decreases len - i,
    {
        if Text::byte_at(a, i) != Text::byte_at(b, i) {
            return false;
        }
        i = i + 1;
    }
    assert(a@ =~= b@);
    true
}

} // verus!
