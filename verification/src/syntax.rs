//! The line grammar shared by `kally.lock` and `kally.toml`: line kinds,
//! property values, and the section state machines.
use vstd::prelude::*;

use crate::bounded::{BoundedString, Text};
use crate::policy::{bounded_matches_at, has_prefix, matches_at};

verus! {

/// `version=1`
pub open spec fn version_line() -> Seq<u8> {
    seq![118u8, 101, 114, 115, 105, 111, 110, 61, 49]
}

/// `source=`
pub open spec fn source_key() -> Seq<u8> {
    seq![115u8, 111, 117, 114, 99, 101, 61]
}

/// `reference=`
pub open spec fn reference_key() -> Seq<u8> {
    seq![114u8, 101, 102, 101, 114, 101, 110, 99, 101, 61]
}

/// `revision=`
pub open spec fn revision_key() -> Seq<u8> {
    seq![114u8, 101, 118, 105, 115, 105, 111, 110, 61]
}

/// `checksum=`
pub open spec fn checksum_key() -> Seq<u8> {
    seq![99u8, 104, 101, 99, 107, 115, 117, 109, 61]
}

/// The kind of a trimmed line: 0 blank or comment, 1 `version=1`, 2 section
/// header `[..]`, 3 `source=`, 4 `reference=`, 5 `revision=`, 6 `checksum=`,
/// 7 anything else.
pub open spec fn spec_line_kind(l: Seq<u8>) -> u32 {
    if l.len() == 0 || l[0] == 35u8 {
        0
    } else if l == version_line() {
        1
    } else if l.len() >= 2 && l[0] == 91u8 && l[l.len() - 1] == 93u8 {
        2
    } else if has_prefix(l, source_key()) {
        3
    } else if has_prefix(l, reference_key()) {
        4
    } else if has_prefix(l, revision_key()) {
        5
    } else if has_prefix(l, checksum_key()) {
        6
    } else {
        7
    }
}

/// Where the value of a property line of kind `kind` starts; 0 for other
/// kinds.
pub open spec fn spec_value_start(kind: u32) -> u32 {
    if kind == 3 {
        7
    } else if kind == 4 {
        10
    } else if kind == 5 || kind == 6 {
        9
    } else {
        0
    }
}

/// The bit that property kind `kind` (3 to 6) sets in a section's mask.
pub open spec fn property_bit(kind: u32) -> u32 {
    if kind == 3 {
        1
    } else if kind == 4 {
        2
    } else if kind == 5 {
        4
    } else {
        8
    }
}

/// Whether `bit` (1, 2, 4 or 8) is set in `mask` (below 16).
pub open spec fn has_bit(mask: u32, bit: u32) -> bool {
    (mask / bit) % 2 == 1
}

/// The state machine of a file whose sections need the properties of kinds
/// 3 to `last_kind`: 0 before anything, 1 after `version=1`, 16 plus the mask
/// of seen properties inside a section, 255 on a structural error. A section
/// header needs the previous section complete; each property may occur once
/// per section.
pub open spec fn spec_transition(last_kind: u32, state: u32, kind: u32) -> u32 {
    let full: u32 = if last_kind == 6 { 31 } else { 19 };
    if kind == 1 {
        if state == 0 {
            1
        } else {
            255
        }
    } else if kind == 2 {
        if state == 1 || state == full {
            16
        } else {
            255
        }
    } else if 3 <= kind <= last_kind {
        if 16 <= state <= full && !has_bit((state - 16) as u32, property_bit(kind)) {
            (state + property_bit(kind)) as u32
        } else {
            255
        }
    } else {
        255
    }
}

/// Lockfile transitions: sections need `source`, `reference`, `revision` and
/// `checksum`.
pub open spec fn spec_lock_transition(state: u32, kind: u32) -> u32 {
    spec_transition(6, state, kind)
}

/// Manifest transitions: sections need `source` and `reference`.
pub open spec fn spec_manifest_transition(state: u32, kind: u32) -> u32 {
    spec_transition(4, state, kind)
}

/// A lockfile is complete when empty, or when its last section has all four
/// properties.
pub open spec fn spec_lock_complete(state: u32) -> bool {
    state == 0 || state == 1 || state == 31
}

/// A manifest is complete when empty, or when its last section has both
/// properties.
pub open spec fn spec_manifest_complete(state: u32) -> bool {
    state == 0 || state == 1 || state == 19
}

/// The properties that the section being read already has.
pub open spec fn seen_properties(state: u32) -> Set<u32> {
    Set::new(
        |k: u32| 3 <= k <= 6 && 16 <= state < 32 && has_bit((state - 16) as u32, property_bit(k)),
    )
}

/// Whether the section being read has every property of kinds 3 to
/// `last_kind`.
pub open spec fn all_seen(last_kind: u32, state: u32) -> bool {
    forall|k: u32| 3 <= k <= last_kind ==> #[trigger] seen_properties(state).contains(k)
}

/// The states of reading a file whose sections need the properties of kinds
/// 3 to `last_kind` (4 or 6): before anything, after the version line, or
/// inside a section.
pub open spec fn readable_state(last_kind: u32, state: u32) -> bool {
    state == 0 || state == 1 || 16 <= state <= (if last_kind == 6 { 31u32 } else { 19u32 })
}

proof fn lemma_add_bit(m: u32, b: u32, c: u32)
    by (bit_vector)
    requires
        m < 16,
        b == 1 || b == 2 || b == 4 || b == 8,
        c == 1 || c == 2 || c == 4 || c == 8,
        (m / b) % 2 == 0,
    ensures
        (((m + b) as u32) / c) % 2 == 1 <==> ((m / c) % 2 == 1 || c == b),
        m + b < 16,
{
}

proof fn lemma_full_mask(m: u32)
    by (bit_vector)
    requires
        m < 16,
    ensures
        ((m / 1) % 2 == 1 && (m / 2) % 2 == 1 && (m / 4) % 2 == 1 && (m / 8) % 2 == 1) <==> m == 15,
        ((m / 1) % 2 == 1 && (m / 2) % 2 == 1 && m < 4) <==> m == 3,
{
}

/// The file grammar that the state machine checks, for files whose sections
/// need the properties of kinds 3 to `last_kind` (4 for manifests, 6 for
/// lockfiles): `version=1` only first; a section header only after the
/// version line or after a section that has all its properties, starting a
/// section with none; each property at most once per section, and nothing
/// else.
proof fn lemma_grammar(last_kind: u32, state: u32, kind: u32)
    requires
        last_kind == 4 || last_kind == 6,
        readable_state(last_kind, state),
    ensures
        (spec_transition(last_kind, state, kind) != 255) == ((kind == 1 && state == 0) || (kind == 2
            && (state == 1 || (16 <= state && all_seen(last_kind, state)))) || (3 <= kind
            <= last_kind && 16 <= state && !seen_properties(state).contains(kind))),
        spec_transition(last_kind, state, kind) != 255 ==> readable_state(
            last_kind,
            spec_transition(last_kind, state, kind),
        ),
        kind == 2 && spec_transition(last_kind, state, kind) != 255 ==> seen_properties(
            spec_transition(last_kind, state, kind),
        ) == Set::<u32>::empty(),
        3 <= kind <= last_kind && spec_transition(last_kind, state, kind) != 255 ==> seen_properties(
            spec_transition(last_kind, state, kind),
        ) == seen_properties(state).insert(kind),
        (state == 0 || state == 1 || state == (if last_kind == 6 { 31u32 } else { 19u32 })) <==> (
        state <= 1 || all_seen(last_kind, state)),
{
    let full: u32 = if last_kind == 6 { 31 } else { 19 };
    if 16 <= state {
        let m = (state - 16) as u32;
        lemma_full_mask(m);
        assert(has_bit(m, 1) == seen_properties(state).contains(3));
        assert(has_bit(m, 2) == seen_properties(state).contains(4));
        assert(has_bit(m, 4) == seen_properties(state).contains(5));
        assert(has_bit(m, 8) == seen_properties(state).contains(6));
        if last_kind == 6 {
            assert(all_seen(last_kind, state) <==> (has_bit(m, 1) && has_bit(m, 2) && has_bit(m, 4)
                && has_bit(m, 8))) by {
                if has_bit(m, 1) && has_bit(m, 2) && has_bit(m, 4) && has_bit(m, 8) {
                    assert forall|k: u32| 3 <= k <= last_kind implies #[trigger] seen_properties(
                        state,
                    ).contains(k) by {
                        assert(k == 3 || k == 4 || k == 5 || k == 6);
                    }
                }
            }
        } else {
            assert(m < 4);
            assert(all_seen(last_kind, state) <==> (has_bit(m, 1) && has_bit(m, 2))) by {
                if has_bit(m, 1) && has_bit(m, 2) {
                    assert forall|k: u32| 3 <= k <= last_kind implies #[trigger] seen_properties(
                        state,
                    ).contains(k) by {
                        assert(k == 3 || k == 4);
                    }
                }
            }
        }
        if 3 <= kind <= last_kind {
            let b = property_bit(kind);
            if !has_bit(m, b) {
                let t = (state + b) as u32;
                assert forall|k: u32| #[trigger] seen_properties(t).contains(k) == seen_properties(
                    state,
                ).insert(kind).contains(k) by {
                    if 3 <= k <= 6 {
                        lemma_add_bit(m, b, property_bit(k));
                        assert((t - 16) as u32 == m + b);
                    }
                }
                assert(seen_properties(t) =~= seen_properties(state).insert(kind));
                lemma_add_bit(m, b, b);
                if last_kind == 4 {
                    lemma_add_bit(m, b, 4);
                    lemma_add_bit(m, b, 8);
                }
            }
        }
    }
    if kind == 2 && spec_transition(last_kind, state, kind) != 255 {
        assert(seen_properties(16) =~= Set::<u32>::empty());
    }
}

/// The lockfile grammar: `version=1` only first; a section header only
/// after the version line or after a section that has its source, reference,
/// revision and checksum, starting a section with none of them; each of these
/// properties at most once per section; nothing else. A lockfile is complete
/// when it has no section or its last section has all four properties.
pub proof fn lemma_lock_grammar(state: u32, kind: u32)
    requires
        readable_state(6, state),
    ensures
        (spec_lock_transition(state, kind) != 255) == ((kind == 1 && state == 0) || (kind == 2
            && (state == 1 || (16 <= state && all_seen(6, state)))) || (3 <= kind <= 6 && 16
            <= state && !seen_properties(state).contains(kind))),
        spec_lock_transition(state, kind) != 255 ==> readable_state(
            6,
            spec_lock_transition(state, kind),
        ),
        kind == 2 && spec_lock_transition(state, kind) != 255 ==> seen_properties(
            spec_lock_transition(state, kind),
        ) == Set::<u32>::empty(),
        3 <= kind <= 6 && spec_lock_transition(state, kind) != 255 ==> seen_properties(
            spec_lock_transition(state, kind),
        ) == seen_properties(state).insert(kind),
        spec_lock_complete(state) <==> (state <= 1 || all_seen(6, state)),
{
    lemma_grammar(6, state, kind);
}

/// The manifest grammar: as for lockfiles, with sections that need exactly
/// a source and a reference.
pub proof fn lemma_manifest_grammar(state: u32, kind: u32)
    requires
        readable_state(4, state),
    ensures
        (spec_manifest_transition(state, kind) != 255) == ((kind == 1 && state == 0) || (kind == 2
            && (state == 1 || (16 <= state && all_seen(4, state)))) || (3 <= kind <= 4 && 16
            <= state && !seen_properties(state).contains(kind))),
        spec_manifest_transition(state, kind) != 255 ==> readable_state(
            4,
            spec_manifest_transition(state, kind),
        ),
        kind == 2 && spec_manifest_transition(state, kind) != 255 ==> seen_properties(
            spec_manifest_transition(state, kind),
        ) == Set::<u32>::empty(),
        3 <= kind <= 4 && spec_manifest_transition(state, kind) != 255 ==> seen_properties(
            spec_manifest_transition(state, kind),
        ) == seen_properties(state).insert(kind),
        spec_manifest_complete(state) <==> (state <= 1 || all_seen(4, state)),
{
    lemma_grammar(4, state, kind);
}

/// The only supported file version.
pub open spec fn spec_version_supported(version: u32) -> bool {
    version == 1
}

proof fn lemma_prefix_matches(l: Seq<u8>, p: Seq<u8>)
    ensures
        has_prefix(l, p) == matches_at(l, 0, p),
{
    if p.len() <= l.len() {
        assert(l.subrange(0, p.len() as int) =~= l.take(p.len() as int));
    }
}

/// The core line classifier.
pub fn kally_lock_line_kind(line: BoundedString<512>) -> (res: u32)
    ensures
        res == spec_line_kind(line@),
{
    let len = Text::length(line);
    if len == 0 || Text::byte_at(line, 0) == 35 {
        return 0;
    }
    let version: [u8; 9] = [118u8, 101, 114, 115, 105, 111, 110, 61, 49];
    let source: [u8; 7] = [115u8, 111, 117, 114, 99, 101, 61];
    let reference: [u8; 10] = [114u8, 101, 102, 101, 114, 101, 110, 99, 101, 61];
    let revision: [u8; 9] = [114u8, 101, 118, 105, 115, 105, 111, 110, 61];
    let checksum: [u8; 9] = [99u8, 104, 101, 99, 107, 115, 117, 109, 61];
    proof {
        assert(version@ =~= version_line());
        assert(source@ =~= source_key());
        assert(reference@ =~= reference_key());
        assert(revision@ =~= revision_key());
        assert(checksum@ =~= checksum_key());
        lemma_prefix_matches(line@, source_key());
        lemma_prefix_matches(line@, reference_key());
        lemma_prefix_matches(line@, revision_key());
        lemma_prefix_matches(line@, checksum_key());
        assert(line@.len() == 9 ==> line@.subrange(0, 9) =~= line@);
    }
    if len == 9 && bounded_matches_at(line, 0, version.as_slice()) {
        1
    } else if len >= 2 && Text::byte_at(line, 0) == 91 && Text::byte_at(line, len - 1) == 93 {
        2
    } else if bounded_matches_at(line, 0, source.as_slice()) {
        3
    } else if bounded_matches_at(line, 0, reference.as_slice()) {
        4
    } else if bounded_matches_at(line, 0, revision.as_slice()) {
        5
    } else if bounded_matches_at(line, 0, checksum.as_slice()) {
        6
    } else {
        7
    }
}

/// The core value locator: where the value of a property line starts, or 0.
pub fn kally_lock_value_start(line: BoundedString<512>) -> (res: u32)
    ensures
        res == spec_value_start(spec_line_kind(line@)),
{
    let kind = kally_lock_line_kind(line);
    if kind == 3 {
        7
    } else if kind == 4 {
        10
    } else if kind == 5 || kind == 6 {
        9
    } else {
        0
    }
}

fn kally_transition(last_kind: u32, state: u32, kind: u32) -> (res: u32)
    requires
        last_kind == 4 || last_kind == 6,
    ensures
        res == spec_transition(last_kind, state, kind),
{
    let full: u32 = if last_kind == 6 {
        31
    } else {
        19
    };
    if kind == 1 {
        if state == 0 {
            1
        } else {
            255
        }
    } else if kind == 2 {
        if state == 1 || state == full {
            16
        } else {
            255
        }
    } else if 3 <= kind && kind <= last_kind {
        let bit: u32 = if kind == 3 {
            1
        } else if kind == 4 {
            2
        } else if kind == 5 {
            4
        } else {
            8
        };
        if 16 <= state && state <= full && ((state - 16) / bit) % 2 != 1 {
            state + bit
        } else {
            255
        }
    } else {
        255
    }
}

/// The core lockfile state machine.
pub fn kally_lock_transition(state: u32, kind: u32) -> (res: u32)
    ensures
        res == spec_lock_transition(state, kind),
{
    kally_transition(6, state, kind)
}

/// The core manifest state machine.
pub fn kally_manifest_transition(state: u32, kind: u32) -> (res: u32)
    ensures
        res == spec_manifest_transition(state, kind),
{
    kally_transition(4, state, kind)
}

/// Whether a lockfile may end in `state`.
pub fn kally_lock_complete(state: u32) -> (res: bool)
    ensures
        res == spec_lock_complete(state),
{
    state == 0 || state == 1 || state == 31
}

/// Whether a manifest may end in `state`.
pub fn kally_manifest_complete(state: u32) -> (res: bool)
    ensures
        res == spec_manifest_complete(state),
{
    state == 0 || state == 1 || state == 19
}

/// Whether `version` is a supported file version.
pub fn kally_lock_version_supported(version: u32) -> (res: bool)
    ensures
        res == spec_version_supported(version),
{
    version == 1
}

} // verus!
