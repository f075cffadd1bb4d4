//! What writing a file and reading it back gives.
use vstd::prelude::*;

use crate::output::{decimal, lemma_ascii_bytes};
use crate::lockfile::{
    committed, empty_package, first_bad_name, lock_finish, lock_header, lock_line_step, lock_lines,
    lock_section, lock_sections, lock_start, set_property, spec_parse_lock, spec_render_lock,
    LockParse,
};
use crate::package_map::entries_map;
use crate::manifest::{first_bad_entry, first_invalid_request, manifest_committed, manifest_header, manifest_line_step, manifest_lines, manifest_section, manifest_sections, manifest_start, spec_parse_manifest, spec_render_manifest, ManifestParse};
use crate::model::{Lock, Manifest, ManifestPackageView, PackageView};
use crate::rules::spec_manifest_package_valid;
use crate::policy::spec_valid_name;
use crate::rules::spec_source_kind_outcome;
use crate::syntax::{
    checksum_key, reference_key, revision_key, source_key, spec_line_kind, version_line,
};
use crate::text::{
    bytes, first_newline, space_prefix_len, space_suffix_len, trim, trim_end, trim_start,
};

verus! {

/// Whether `b` holds no line feed.
pub open spec fn no_newline(b: Seq<u8>) -> bool {
    forall|i: int| 0 <= i < b.len() ==> #[trigger] b[i] != 10u8
}

proof fn lemma_first_newline_concat(a: Seq<u8>, b: Seq<u8>)
    requires
        no_newline(a),
        b.len() > 0,
        b[0] == 10u8,
    ensures
        first_newline(a + b) == a.len(),
    decreases a.len(),
{
    if a.len() == 0 {
        assert(a + b =~= b);
    } else {
        assert((a + b).drop_first() =~= a.drop_first() + b);
        assert(a[0] != 10u8);
        lemma_first_newline_concat(a.drop_first(), b);
    }
}

/// Reading `line`, a line feed and `rest` reads `line`, then `rest`.
proof fn lemma_lock_lines_cons(p: LockParse, line: Seq<u8>, rest: Seq<u8>)
    requires
        no_newline(line),
    ensures
        lock_lines(p, line + seq![10u8] + rest) == match lock_line_step(p, trim(line)) {
            Err(e) => Err(e),
            Ok(q) => lock_lines(q, rest),
        },
{
    let t = line + seq![10u8] + rest;
    assert(t =~= line + (seq![10u8] + rest));
    lemma_first_newline_concat(line, seq![10u8] + rest);
    assert(t.take(line.len() as int) =~= line);
    assert(t.skip(line.len() as int + 1) =~= rest);
}

proof fn lemma_trim_lengths(b: Seq<u8>)
    ensures
        trim_start(b).len() <= b.len(),
        trim_end(b).len() <= b.len(),
    decreases b.len(),
{
    if space_prefix_len(b) > 0 {
        lemma_trim_lengths(b.skip(space_prefix_len(b)));
    }
    if space_suffix_len(b) > 0 {
        lemma_trim_lengths(b.take(b.len() - space_suffix_len(b)));
    }
}

/// A trimmed value neither starts nor ends with whitespace.
proof fn lemma_trimmed(v: Seq<u8>)
    requires
        trim(v) == v,
    ensures
        space_prefix_len(v) == 0,
        space_suffix_len(v) == 0,
{
    lemma_trim_lengths(v);
    if space_prefix_len(v) > 0 {
        lemma_trim_lengths(v.skip(space_prefix_len(v)));
        lemma_trim_lengths(trim_start(v));
        assert(false);
    }
    if space_suffix_len(v) > 0 {
        lemma_trim_lengths(v.take(v.len() - space_suffix_len(v)));
        assert(false);
    }
}

/// A key ending in `=`, followed by a trimmed value, is a trimmed line.
proof fn lemma_trim_property(key: Seq<u8>, v: Seq<u8>)
    requires
        key.len() > 0,
        97 <= key[0] <= 122,
        key[key.len() - 1] == 61u8,
        trim(v) == v,
    ensures
        trim(key + v) == key + v,
{
    lemma_trimmed(v);
    let l = key + v;
    assert(l[0] == key[0]);
    assert(space_prefix_len(l) == 0);
    assert(trim_start(l) == l);
    let n = l.len() as int;
    assert(l[n - 1 - v.len()] == 61u8);
    if v.len() >= 3 {
        assert(l[n - 1] == v[v.len() - 1]);
        assert(l[n - 2] == v[v.len() - 2]);
        assert(l[n - 3] == v[v.len() - 3]);
    } else if v.len() == 2 {
        assert(l[n - 1] == v[1]);
        assert(l[n - 2] == v[0]);
    } else if v.len() == 1 {
        assert(l[n - 1] == v[0]);
    }
    assert(space_suffix_len(l) == 0);
}

/// Whether `v` can stand as the value of a property line whose key has
/// `key_len` bytes: no line feed, no surrounding whitespace, and the line fits.
pub open spec fn line_value_ok(key_len: int, v: Seq<u8>) -> bool {
    &&& no_newline(v)
    &&& trim(v) == v
    &&& key_len + v.len() <= 512
}

/// Whether a package can be written to a lockfile and read back: an
/// acceptable name, an accepted source, and line-shaped values.
pub open spec fn storable_package(name: Seq<u8>, p: PackageView) -> bool {
    &&& spec_valid_name(name)
    &&& line_value_ok(7, p.source)
    &&& spec_source_kind_outcome(p.source) is Ok
    &&& line_value_ok(10, p.reference)
    &&& line_value_ok(9, p.revision)
    &&& line_value_ok(9, p.checksum)
}

proof fn lemma_lock_literals()
    ensures
        bytes("\n"@) == seq![10u8],
        bytes("\n["@) == seq![10u8, 91u8],
        bytes("]\nsource="@) == seq![93u8, 10u8] + source_key(),
        bytes("\nreference="@) == seq![10u8] + reference_key(),
        bytes("\nrevision="@) == seq![10u8] + revision_key(),
        bytes("\nchecksum="@) == seq![10u8] + checksum_key(),
        bytes("# Kally lockfile - generated, do not edit\nversion="@) == lock_comment() + seq![10u8]
            + seq![118u8, 101, 114, 115, 105, 111, 110, 61],
{
    reveal_strlit("\n");
    reveal_strlit("\n[");
    reveal_strlit("]\nsource=");
    reveal_strlit("\nreference=");
    reveal_strlit("\nrevision=");
    reveal_strlit("\nchecksum=");
    reveal_strlit("# Kally lockfile - generated, do not edit\nversion=");
    lemma_ascii_bytes("\n"@);
    lemma_ascii_bytes("\n["@);
    lemma_ascii_bytes("]\nsource="@);
    lemma_ascii_bytes("\nreference="@);
    lemma_ascii_bytes("\nrevision="@);
    lemma_ascii_bytes("\nchecksum="@);
    lemma_ascii_bytes("# Kally lockfile - generated, do not edit\nversion="@);
    assert(bytes("\n"@) =~= seq![10u8]);
    assert(bytes("\n["@) =~= seq![10u8, 91u8]);
    assert(bytes("]\nsource="@) =~= seq![93u8, 10u8] + source_key());
    assert(bytes("\nreference="@) =~= seq![10u8] + reference_key());
    assert(bytes("\nrevision="@) =~= seq![10u8] + revision_key());
    assert(bytes("\nchecksum="@) =~= seq![10u8] + checksum_key());
    assert(bytes("# Kally lockfile - generated, do not edit\nversion="@) =~= lock_comment() + seq![
        10u8,
    ] + seq![118u8, 101, 114, 115, 105, 111, 110, 61]);
}

/// `# Kally lockfile - generated, do not edit`
pub open spec fn lock_comment() -> Seq<u8> {
    seq![
        35u8, 32, 75, 97, 108, 108, 121, 32, 108, 111, 99, 107, 102, 105, 108, 101, 32, 45, 32,
        103, 101, 110, 101, 114, 97, 116, 101, 100, 44, 32, 100, 111, 32, 110, 111, 116, 32, 101,
        100, 105, 116,
    ]
}

/// Reading one property line of a section that is being read.
proof fn lemma_property_step(p: LockParse, key: Seq<u8>, kind: u32, v: Seq<u8>)
    requires
        3 <= kind <= 6,
        key == (if kind == 3 {
            source_key()
        } else if kind == 4 {
            reference_key()
        } else if kind == 5 {
            revision_key()
        } else {
            checksum_key()
        }),
        line_value_ok(key.len() as int, v),
        kind == 3 ==> spec_source_kind_outcome(v) is Ok,
        p.current is Some,
        16 <= p.state <= 31,
        p.state == 16 + (if kind == 3 {
            0u32
        } else if kind == 4 {
            1u32
        } else if kind == 5 {
            3u32
        } else {
            7u32
        }),
    ensures
        lock_line_step(p, trim(key + v)) == Ok::<LockParse, Seq<u8>>(
            LockParse {
                state: (p.state * 2 - 15) as u32,
                done: p.done,
                current: Some((p.current.unwrap().0, set_property(p.current.unwrap().1, kind, v))),
            },
        ),
{
    lemma_trim_property(key, v);
    let l = key + v;
    assert(l.take(key.len() as int) =~= key);
    assert(l.skip(key.len() as int) =~= v);
    assert(l[0] == key[0]);
    assert(l[1] == key[1]);
    assert(l[2] == key[2]);
    assert(l[key.len() - 1] == key[key.len() - 1]);
    if kind == 3 {
        assert(spec_line_kind(l) == 3);
    } else if kind == 4 {
        assert(l.take(7) != source_key());
        assert(spec_line_kind(l) == 4);
    } else if kind == 5 {
        assert(l.take(7) != source_key());
        if l.len() >= 10 {
            assert(l.take(10)[2] != reference_key()[2]);
        }
        assert(spec_line_kind(l) == 5);
    } else {
        assert(l.take(7) != source_key());
        if l.len() >= 10 {
            assert(l.take(10)[0] != reference_key()[0]);
        }
        assert(l.take(9) != revision_key());
        assert(spec_line_kind(l) == 6);
    }
}

/// Reading a section header starts a fresh section.
proof fn lemma_header_step(p: LockParse, name: Seq<u8>)
    requires
        p.state == 1 || p.state == 31,
        spec_valid_name(name),
    ensures
        lock_line_step(p, trim(seq![91u8] + name + seq![93u8])) == Ok::<LockParse, Seq<u8>>(
            LockParse { state: 16, done: committed(p), current: Some((name, empty_package())) },
        ),
{
    let l = seq![91u8] + name + seq![93u8];
    let n = l.len() as int;
    assert(l[0] == 91u8);
    assert(l[n - 1] == 93u8);
    assert(space_prefix_len(l) == 0);
    assert(trim_start(l) == l);
    assert(space_suffix_len(l) == 0);
    assert(trim(l) == l);
    assert(l.subrange(1, n - 1) =~= name);
    assert(spec_line_kind(l) == 2);
}

/// Reading the written section of a package, after the version line or a
/// complete section, finishes with that package as the current section.
#[verifier::spinoff_prover]
#[verifier::rlimit(40)]
proof fn lemma_section_parse(p: LockParse, name: Seq<u8>, v: PackageView, rest: Seq<u8>)
    requires
        p.state == 1 || p.state == 31,
        storable_package(name, v),
    ensures
        lock_lines(p, lock_section(name, v) + rest) == lock_lines(
            LockParse { state: 31, done: committed(p), current: Some((name, v)) },
            rest,
        ),
{
    lemma_lock_literals();
    let header = seq![91u8] + name + seq![93u8];
    let ls = source_key() + v.source;
    let lr = reference_key() + v.reference;
    let lv = revision_key() + v.revision;
    let lc = checksum_key() + v.checksum;
    let nl = seq![10u8];
    let t5 = lc + nl + rest;
    let t4 = lv + nl + t5;
    let t3 = lr + nl + t4;
    let t2 = ls + nl + t3;
    let t1 = header + nl + t2;
    let empty = Seq::<u8>::empty();
    assert(lock_section(name, v) + rest =~= empty + nl + t1);
    assert(no_newline(empty));
    assert(no_newline(header)) by {
        assert forall|i: int| 0 <= i < header.len() implies #[trigger] header[i] != 10u8 by {
            if 0 < i < header.len() - 1 {
                assert(header[i] == name[i - 1]);
            }
        }
    }
    assert(no_newline(ls)) by {
        assert forall|i: int| 0 <= i < ls.len() implies #[trigger] ls[i] != 10u8 by {
            if i >= 7 {
                assert(ls[i] == v.source[i - 7]);
            }
        }
    }
    assert(no_newline(lr)) by {
        assert forall|i: int| 0 <= i < lr.len() implies #[trigger] lr[i] != 10u8 by {
            if i >= 10 {
                assert(lr[i] == v.reference[i - 10]);
            }
        }
    }
    assert(no_newline(lv)) by {
        assert forall|i: int| 0 <= i < lv.len() implies #[trigger] lv[i] != 10u8 by {
            if i >= 9 {
                assert(lv[i] == v.revision[i - 9]);
            }
        }
    }
    assert(no_newline(lc)) by {
        assert forall|i: int| 0 <= i < lc.len() implies #[trigger] lc[i] != 10u8 by {
            if i >= 9 {
                assert(lc[i] == v.checksum[i - 9]);
            }
        }
    }
    // The blank line before the header.
    lemma_lock_lines_cons(p, empty, t1);
    assert(trim(empty) =~= empty);
    assert(lock_line_step(p, trim(empty)) == Ok::<LockParse, Seq<u8>>(p));
    // The header.
    lemma_lock_lines_cons(p, header, t2);
    lemma_header_step(p, name);
    let q1 = LockParse { state: 16, done: committed(p), current: Some((name, empty_package())) };
    // The four properties.
    lemma_lock_lines_cons(q1, ls, t3);
    lemma_property_step(q1, source_key(), 3, v.source);
    let q2 = LockParse {
        state: 17,
        done: committed(p),
        current: Some((name, set_property(empty_package(), 3, v.source))),
    };
    lemma_lock_lines_cons(q2, lr, t4);
    lemma_property_step(q2, reference_key(), 4, v.reference);
    let q3 = LockParse {
        state: 19,
        done: committed(p),
        current: Some((name, set_property(q2.current.unwrap().1, 4, v.reference))),
    };
    lemma_lock_lines_cons(q3, lv, t5);
    lemma_property_step(q3, revision_key(), 5, v.revision);
    let q4 = LockParse {
        state: 23,
        done: committed(p),
        current: Some((name, set_property(q3.current.unwrap().1, 5, v.revision))),
    };
    lemma_lock_lines_cons(q4, lc, rest);
    lemma_property_step(q4, checksum_key(), 6, v.checksum);
    assert(set_property(q4.current.unwrap().1, 6, v.checksum) == v);
}

/// The map from inserting the entries of `e` into `m`, in order.
pub open spec fn insert_all<V>(m: Map<Seq<u8>, V>, e: Seq<(Seq<u8>, V)>) -> Map<Seq<u8>, V>
    decreases e.len(),
{
    if e.len() == 0 {
        m
    } else {
        insert_all(m.insert(e[0].0, e[0].1), e.drop_first())
    }
}

proof fn lemma_insert_all_push<V>(m: Map<Seq<u8>, V>, e: Seq<(Seq<u8>, V)>, x: (Seq<u8>, V))
    ensures
        insert_all(m, e.push(x)) == insert_all(m, e).insert(x.0, x.1),
    decreases e.len(),
{
    if e.len() == 0 {
        assert(e.push(x).drop_first() =~= e);
        assert(e.push(x)[0] == x);
        assert(insert_all(m.insert(x.0, x.1), e) == m.insert(x.0, x.1));
        assert(insert_all(m, e) == m);
    } else {
        assert(e.push(x).drop_first() =~= e.drop_first().push(x));
        assert(e.push(x)[0] == e[0]);
        lemma_insert_all_push(m.insert(e[0].0, e[0].1), e.drop_first(), x);
    }
}

proof fn lemma_insert_all_entries<V>(e: Seq<(Seq<u8>, V)>)
    ensures
        insert_all(Map::empty(), e) == entries_map(e),
    decreases e.len(),
{
    if e.len() > 0 {
        lemma_insert_all_entries(e.drop_last());
        lemma_insert_all_push(Map::empty(), e.drop_last(), e.last());
        assert(e.drop_last().push(e.last()) =~= e);
    }
}

proof fn lemma_no_bad_name<V>(e: Seq<(Seq<u8>, V)>)
    requires
        forall|i: int| 0 <= i < e.len() ==> spec_valid_name(#[trigger] e[i].0),
    ensures
        first_bad_name(e) is None,
    decreases e.len(),
{
    if e.len() > 0 {
        assert(spec_valid_name(e[0].0));
        assert forall|i: int| 0 <= i < e.drop_first().len() implies spec_valid_name(
            #[trigger] e.drop_first()[i].0,
        ) by {
            assert(e.drop_first()[i] == e[i + 1]);
        }
        lemma_no_bad_name(e.drop_first());
    }
}

/// Reading the written sections of `e` after the version line or a complete
/// section adds the packages of `e` in order.
proof fn lemma_sections_parse(p: LockParse, e: Seq<(Seq<u8>, PackageView)>)
    requires
        p.state == 1 || p.state == 31,
        forall|i: int| 0 <= i < e.len() ==> storable_package(#[trigger] e[i].0, e[i].1),
    ensures
        lock_finish(lock_lines(p, lock_sections(e))) == Ok::<Map<Seq<u8>, PackageView>, Seq<u8>>(
            insert_all(committed(p), e),
        ),
    decreases e.len(),
{
    if e.len() == 0 {
        let empty = Seq::<u8>::empty();
        assert(lock_sections(e) =~= empty);
        assert(empty.take(0) =~= empty);
        assert(trim(empty) =~= empty);
    } else {
        let rest = lock_sections(e.drop_first());
        assert(storable_package(e[0].0, e[0].1));
        lemma_section_parse(p, e[0].0, e[0].1, rest);
        let p1 = LockParse { state: 31, done: committed(p), current: Some((e[0].0, e[0].1)) };
        assert forall|i: int| 0 <= i < e.drop_first().len() implies storable_package(
            #[trigger] e.drop_first()[i].0,
            e.drop_first()[i].1,
        ) by {
            assert(e.drop_first()[i] == e[i + 1]);
        }
        lemma_sections_parse(p1, e.drop_first());
    }
}

/// Writing a lockfile and reading it back gives its packages again: for a
/// file version of at most 1 and packages that can be written (an acceptable
/// name, an accepted source, values without line feeds or surrounding
/// whitespace, lines of at most 512 bytes), the written text reads back as
/// exactly the map that was written.
#[verifier::spinoff_prover]
pub proof fn lemma_lock_round_trip(version: u32, e: Seq<(Seq<u8>, PackageView)>)
    requires
        version <= 1,
        forall|i: int| 0 <= i < e.len() ==> storable_package(#[trigger] e[i].0, e[i].1),
    ensures
        spec_render_lock(version, e) == Ok::<Seq<u8>, Seq<u8>>(
            lock_header(version) + lock_sections(e),
        ),
        spec_parse_lock(lock_header(version) + lock_sections(e)) == Ok::<
            Map<Seq<u8>, PackageView>,
            Seq<u8>,
        >(entries_map(e)),
{
    assert forall|i: int| 0 <= i < e.len() implies spec_valid_name(#[trigger] e[i].0) by {
        assert(storable_package(e[i].0, e[i].1));
    }
    lemma_no_bad_name(e);
    lemma_lock_literals();
    let comment = lock_comment();
    let vline = version_line();
    let nl = seq![10u8];
    let body = lock_sections(e);
    assert(decimal(1) =~= seq![49u8]);
    assert(lock_header(version) + body =~= comment + nl + (vline + nl + body));
    assert(no_newline(comment));
    assert(no_newline(vline));
    let start = lock_start();
    lemma_lock_lines_cons(start, comment, vline + nl + body);
    assert(space_prefix_len(comment) == 0);
    assert(space_suffix_len(comment) == 0);
    assert(trim(comment) == comment);
    assert(lock_line_step(start, trim(comment)) == Ok::<LockParse, Seq<u8>>(start));
    lemma_lock_lines_cons(start, vline, body);
    assert(space_prefix_len(vline) == 0);
    assert(space_suffix_len(vline) == 0);
    assert(trim(vline) == vline);
    assert(spec_line_kind(vline) == 1);
    let p1 = LockParse { state: 1, done: Map::empty(), current: None };
    assert(lock_line_step(start, trim(vline)) == Ok::<LockParse, Seq<u8>>(p1));
    lemma_sections_parse(p1, e);
    assert(committed(p1) == Map::<Seq<u8>, PackageView>::empty());
    lemma_insert_all_entries(e);
}

/// For a lock: writing it and reading the text back gives its packages again
/// (under the conditions of `lemma_lock_round_trip`).
pub proof fn lemma_lock_file_round_trip(lock: Lock)
    requires
        lock.version <= 1,
        forall|i: int|
            0 <= i < lock.packages.entries().len() ==> storable_package(
                #[trigger] lock.packages.entries()[i].0,
                lock.packages.entries()[i].1,
            ),
    ensures
        spec_render_lock(lock.version, lock.packages.entries()) matches Ok(t) && spec_parse_lock(t)
            == Ok::<Map<Seq<u8>, PackageView>, Seq<u8>>(lock.packages.map()),
{
    lemma_lock_round_trip(lock.version, lock.packages.entries());
}

/// `# Kally manifest - requested dependencies`
pub open spec fn manifest_comment() -> Seq<u8> {
    seq![
        35u8, 32, 75, 97, 108, 108, 121, 32, 109, 97, 110, 105, 102, 101, 115, 116, 32, 45, 32,
        114, 101, 113, 117, 101, 115, 116, 101, 100, 32, 100, 101, 112, 101, 110, 100, 101, 110,
        99, 105, 101, 115,
    ]
}

proof fn lemma_manifest_literal()
    ensures
        bytes("# Kally manifest - requested dependencies\nversion="@) == manifest_comment() + seq![
            10u8,
        ] + seq![118u8, 101, 114, 115, 105, 111, 110, 61],
{
    reveal_strlit("# Kally manifest - requested dependencies\nversion=");
    lemma_ascii_bytes("# Kally manifest - requested dependencies\nversion="@);
    assert(bytes("# Kally manifest - requested dependencies\nversion="@) =~= manifest_comment()
        + seq![10u8] + seq![118u8, 101, 114, 115, 105, 111, 110, 61]);
}

/// Whether a request can be written to a manifest and read back: an
/// acceptable name, a request the resolver accepts, and line-shaped values.
pub open spec fn storable_request(name: Seq<u8>, p: ManifestPackageView) -> bool {
    &&& spec_valid_name(name)
    &&& spec_manifest_package_valid(p)
    &&& line_value_ok(7, p.source)
    &&& line_value_ok(10, p.reference)
}

proof fn lemma_manifest_lines_cons(p: ManifestParse, line: Seq<u8>, rest: Seq<u8>)
    requires
        no_newline(line),
    ensures
        manifest_lines(p, line + seq![10u8] + rest) == match manifest_line_step(p, trim(line)) {
            Err(e) => Err(e),
            Ok(q) => manifest_lines(q, rest),
        },
{
    let t = line + seq![10u8] + rest;
    assert(t =~= line + (seq![10u8] + rest));
    lemma_first_newline_concat(line, seq![10u8] + rest);
    assert(t.take(line.len() as int) =~= line);
    assert(t.skip(line.len() as int + 1) =~= rest);
}

proof fn lemma_no_newline_after(key: Seq<u8>, v: Seq<u8>)
    requires
        no_newline(key),
        no_newline(v),
    ensures
        no_newline(key + v),
{
    assert forall|i: int| 0 <= i < (key + v).len() implies #[trigger] (key + v)[i] != 10u8 by {
        if i >= key.len() {
            assert((key + v)[i] == v[i - key.len()]);
        }
    }
}

/// Reading the written section of a request, after the version line or a
/// complete section, finishes with that request as the current section.
#[verifier::spinoff_prover]
#[verifier::rlimit(40)]
proof fn lemma_manifest_section_parse(
    p: ManifestParse,
    name: Seq<u8>,
    v: ManifestPackageView,
    rest: Seq<u8>,
)
    requires
        p.state == 1 || p.state == 19,
        storable_request(name, v),
    ensures
        manifest_lines(p, manifest_section(name, v) + rest) == manifest_lines(
            ManifestParse { state: 19, done: manifest_committed(p), current: Some((name, v)) },
            rest,
        ),
{
    lemma_lock_literals();
    let header = seq![91u8] + name + seq![93u8];
    let ls = source_key() + v.source;
    let lr = reference_key() + v.reference;
    let nl = seq![10u8];
    let t3 = lr + nl + rest;
    let t2 = ls + nl + t3;
    let t1 = header + nl + t2;
    let empty = Seq::<u8>::empty();
    assert(manifest_section(name, v) + rest =~= empty + nl + t1);
    assert(no_newline(empty));
    assert(no_newline(header)) by {
        assert forall|i: int| 0 <= i < header.len() implies #[trigger] header[i] != 10u8 by {
            if 0 < i < header.len() - 1 {
                assert(header[i] == name[i - 1]);
            }
        }
    }
    lemma_no_newline_after(source_key(), v.source);
    lemma_no_newline_after(reference_key(), v.reference);
    lemma_manifest_lines_cons(p, empty, t1);
    assert(trim(empty) =~= empty);
    lemma_manifest_lines_cons(p, header, t2);
    // The header starts a fresh section.
    let l = header;
    let n = l.len() as int;
    assert(l[0] == 91u8);
    assert(l[n - 1] == 93u8);
    assert(space_prefix_len(l) == 0);
    assert(trim_start(l) == l);
    assert(space_suffix_len(l) == 0);
    assert(trim(l) == l);
    assert(l.subrange(1, n - 1) =~= name);
    assert(spec_line_kind(l) == 2);
    let q1 = ManifestParse {
        state: 16,
        done: manifest_committed(p),
        current: Some((name, ManifestPackageView { source: Seq::empty(), reference: Seq::empty() })),
    };
    assert(manifest_line_step(p, trim(header)) == Ok::<ManifestParse, Seq<u8>>(q1));
    // The source.
    lemma_manifest_lines_cons(q1, ls, t3);
    lemma_trim_property(source_key(), v.source);
    assert(ls.take(7) =~= source_key());
    assert(ls.skip(7) =~= v.source);
    assert(ls[0] == 115u8);
    assert(spec_line_kind(ls) == 3);
    let q2 = ManifestParse {
        state: 17,
        done: manifest_committed(p),
        current: Some((name, ManifestPackageView { source: v.source, reference: Seq::empty() })),
    };
    assert(manifest_line_step(q1, trim(ls)) == Ok::<ManifestParse, Seq<u8>>(q2));
    // The reference.
    lemma_manifest_lines_cons(q2, lr, rest);
    lemma_trim_property(reference_key(), v.reference);
    assert(lr.take(10) =~= reference_key());
    assert(lr.skip(10) =~= v.reference);
    assert(lr[0] == 114u8);
    assert(lr[2] == 102u8);
    assert(lr.take(7) != source_key());
    assert(spec_line_kind(lr) == 4);
    assert(manifest_line_step(q2, trim(lr)) == Ok::<ManifestParse, Seq<u8>>(
        ManifestParse { state: 19, done: manifest_committed(p), current: Some((name, v)) },
    ));
}

proof fn lemma_manifest_sections_parse(p: ManifestParse, e: Seq<(Seq<u8>, ManifestPackageView)>)
    requires
        p.state == 1 || p.state == 19,
        forall|i: int| 0 <= i < e.len() ==> storable_request(#[trigger] e[i].0, e[i].1),
    ensures
        manifest_lines(p, manifest_sections(e)) == Ok::<ManifestParse, Seq<u8>>(
            if e.len() == 0 {
                p
            } else {
                ManifestParse {
                    state: 19,
                    done: insert_all(manifest_committed(p), e.drop_last()),
                    current: Some((e.last().0, e.last().1)),
                }
            },
        ),
    decreases e.len(),
{
    if e.len() == 0 {
        let empty = Seq::<u8>::empty();
        assert(manifest_sections(e) =~= empty);
        assert(empty.take(0) =~= empty);
        assert(trim(empty) =~= empty);
    } else {
        let rest = manifest_sections(e.drop_first());
        assert(storable_request(e[0].0, e[0].1));
        lemma_manifest_section_parse(p, e[0].0, e[0].1, rest);
        let p1 = ManifestParse {
            state: 19,
            done: manifest_committed(p),
            current: Some((e[0].0, e[0].1)),
        };
        assert forall|i: int| 0 <= i < e.drop_first().len() implies storable_request(
            #[trigger] e.drop_first()[i].0,
            e.drop_first()[i].1,
        ) by {
            assert(e.drop_first()[i] == e[i + 1]);
        }
        lemma_manifest_sections_parse(p1, e.drop_first());
        if e.len() > 1 {
            assert(e.drop_first().drop_last() =~= e.drop_last().drop_first());
            assert(e.drop_last()[0] == e[0]);
            assert(e.drop_first().last() == e.last());
        } else {
            assert(e.drop_last() =~= Seq::<(Seq<u8>, ManifestPackageView)>::empty());
        }
    }
}

proof fn lemma_no_bad_entry(e: Seq<(Seq<u8>, ManifestPackageView)>)
    requires
        forall|i: int| 0 <= i < e.len() ==> storable_request(#[trigger] e[i].0, e[i].1),
    ensures
        first_bad_entry(e) is None,
    decreases e.len(),
{
    if e.len() > 0 {
        assert(storable_request(e[0].0, e[0].1));
        assert forall|i: int| 0 <= i < e.drop_first().len() implies storable_request(
            #[trigger] e.drop_first()[i].0,
            e.drop_first()[i].1,
        ) by {
            assert(e.drop_first()[i] == e[i + 1]);
        }
        lemma_no_bad_entry(e.drop_first());
    }
}

/// Writing a manifest and reading it back gives its requests again: for a
/// file version of at most 1 and requests that can be written (an acceptable
/// name, a request the resolver accepts, values without line feeds or
/// surrounding whitespace, lines of at most 512 bytes), the written text
/// reads back as exactly the map that was written.
#[verifier::spinoff_prover]
#[verifier::rlimit(30)]
pub proof fn lemma_manifest_round_trip(version: u32, e: Seq<(Seq<u8>, ManifestPackageView)>)
    requires
        version <= 1,
        forall|i: int| 0 <= i < e.len() ==> storable_request(#[trigger] e[i].0, e[i].1),
    ensures
        spec_render_manifest(version, e) == Ok::<Seq<u8>, Seq<u8>>(
            manifest_header(version) + manifest_sections(e),
        ),
        spec_parse_manifest(manifest_header(version) + manifest_sections(e)) == Ok::<
            Map<Seq<u8>, ManifestPackageView>,
            Seq<u8>,
        >(entries_map(e)),
{
    lemma_no_bad_entry(e);
    lemma_lock_literals();
    lemma_manifest_literal();
    let comment = manifest_comment();
    let vline = version_line();
    let nl = seq![10u8];
    let body = manifest_sections(e);
    assert(decimal(1) =~= seq![49u8]);
    assert(manifest_header(version) + body =~= comment + nl + (vline + nl + body));
    assert(no_newline(comment));
    assert(no_newline(vline));
    let start = manifest_start();
    lemma_manifest_lines_cons(start, comment, vline + nl + body);
    assert(space_prefix_len(comment) == 0);
    assert(space_suffix_len(comment) == 0);
    assert(trim(comment) == comment);
    assert(manifest_line_step(start, trim(comment)) == Ok::<ManifestParse, Seq<u8>>(start));
    lemma_manifest_lines_cons(start, vline, body);
    assert(space_prefix_len(vline) == 0);
    assert(space_suffix_len(vline) == 0);
    assert(trim(vline) == vline);
    assert(spec_line_kind(vline) == 1);
    let p1 = ManifestParse { state: 1, done: Map::empty(), current: None };
    assert(manifest_line_step(start, trim(vline)) == Ok::<ManifestParse, Seq<u8>>(p1));
    lemma_manifest_sections_parse(p1, e);
    let m = entries_map(e);
    lemma_insert_all_entries(e);
    if e.len() > 0 {
        lemma_insert_all_entries(e.drop_last());
        assert(manifest_committed(p1) == Map::<Seq<u8>, ManifestPackageView>::empty());
        assert(e.drop_last().push(e.last()) =~= e);
    }
    assert forall|n: Seq<u8>| m.dom().contains(n) implies spec_manifest_package_valid(m[n]) by {
        lemma_entries_map_values(e, n);
    }
    assert(first_invalid_request(m) is None);
}

/// Each value of the map of `e` is the value of some entry of `e`.
proof fn lemma_entries_map_values<V>(e: Seq<(Seq<u8>, V)>, k: Seq<u8>)
    requires
        entries_map(e).contains_key(k),
    ensures
        exists|i: int| 0 <= i < e.len() && e[i].0 == k && e[i].1 == entries_map(e)[k],
    decreases e.len(),
{
    if e.last().0 != k {
        lemma_entries_map_values(e.drop_last(), k);
        let i = choose|i: int|
            0 <= i < e.drop_last().len() && e.drop_last()[i].0 == k && e.drop_last()[i].1
                == entries_map(e.drop_last())[k];
        assert(e[i] == e.drop_last()[i]);
    } else {
        assert(e[e.len() - 1].0 == k);
    }
}

/// For a manifest: writing it and reading the text back gives its requests
/// again (under the conditions of `lemma_manifest_round_trip`).
pub proof fn lemma_manifest_file_round_trip(manifest: Manifest)
    requires
        manifest.version <= 1,
        forall|i: int|
            0 <= i < manifest.packages.entries().len() ==> storable_request(
                #[trigger] manifest.packages.entries()[i].0,
                manifest.packages.entries()[i].1,
            ),
    ensures
        spec_render_manifest(manifest.version, manifest.packages.entries()) matches Ok(t)
            && spec_parse_manifest(t) == Ok::<Map<Seq<u8>, ManifestPackageView>, Seq<u8>>(
            manifest.packages.map(),
        ),
{
    lemma_manifest_round_trip(manifest.version, manifest.packages.entries());
}

} // verus!

