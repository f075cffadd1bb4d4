//! `kally.toml`: the declared dependency intent, without resolved commits or
//! checksums.
use vstd::prelude::*;

use crate::bounded::{kept_len, BoundedString};
use crate::output::{concat2, concat3, decimal, owned, push_decimal, push_str};
use crate::lockfile::{name_msg, outside_msg, written_version};
use crate::package_map::{bytes_lt, entries_map, lemma_lt_asymmetric, lemma_lt_irreflexive, lemma_lt_total, strictly_sorted, PackageMap};
use crate::model::{Manifest, ManifestPackage, ManifestPackageView};
use crate::policy::{spec_reference_valid, spec_valid_name};
use crate::rules::{
    manifest_package_valid, reference_valid, source_kind, spec_manifest_package_valid,
    spec_source_kind_outcome, valid_name,
};
use crate::syntax::{
    kally_lock_line_kind, kally_lock_value_start, kally_lock_version_supported,
    kally_manifest_complete, kally_manifest_transition, spec_line_kind, spec_manifest_complete,
    spec_manifest_transition, spec_value_start, spec_version_supported,
};
use crate::text::{
    byte_len, bytes, first_newline, lemma_boundary, lemma_boundary_after, lemma_first_newline,
    next_line, split_str, trim, trim_str,
};

verus! {

broadcast use vstd::utf8::encode_utf8_valid_utf8;

/// A request with both properties empty.
pub open spec fn empty_request() -> ManifestPackageView {
    ManifestPackageView { source: Seq::empty(), reference: Seq::empty() }
}

/// The state of reading a manifest.
pub struct ManifestParse {
    pub state: u32,
    pub done: Map<Seq<u8>, ManifestPackageView>,
    pub current: Option<(Seq<u8>, ManifestPackageView)>,
}

/// All requests read so far; a later section of the same name replaces an
/// earlier one.
pub open spec fn manifest_committed(p: ManifestParse) -> Map<Seq<u8>, ManifestPackageView> {
    match p.current {
        Some((name, v)) => p.done.insert(name, v),
        None => p.done,
    }
}

pub open spec fn manifest_limit_msg() -> Seq<u8> {
    bytes("manifest line exceeds Kally's 512-byte limit"@)
}

pub open spec fn manifest_structure_msg(line: Seq<u8>) -> Seq<u8> {
    bytes("invalid manifest structure near: "@) + line
}

pub open spec fn bad_reference_msg(name: Seq<u8>) -> Seq<u8> {
    bytes("invalid reference for `"@) + name + bytes("`"@)
}

pub open spec fn manifest_incomplete_msg() -> Seq<u8> {
    bytes("manifest package is missing source or reference"@)
}

pub open spec fn bad_request_msg(name: Seq<u8>) -> Seq<u8> {
    bytes("invalid dependency request for `"@) + name + bytes("`"@)
}

pub open spec fn unsupported_version_msg(version: u32) -> Seq<u8> {
    bytes("unsupported manifest version "@) + decimal(version as nat)
}

/// Reads one trimmed manifest line.
pub open spec fn manifest_line_step(p: ManifestParse, l: Seq<u8>) -> Result<ManifestParse, Seq<u8>> {
    if l.len() > 512 {
        Err(manifest_limit_msg())
    } else {
        let kind = spec_line_kind(l);
        let state = spec_manifest_transition(p.state, kind);
        if kind == 0 {
            Ok(p)
        } else if state == 255 {
            Err(manifest_structure_msg(l))
        } else if kind == 1 {
            Ok(ManifestParse { state, done: p.done, current: p.current })
        } else if kind == 2 {
            let name = l.subrange(1, l.len() - 1);
            if !spec_valid_name(name) {
                Err(name_msg(name))
            } else {
                Ok(
                    ManifestParse {
                        state,
                        done: manifest_committed(p),
                        current: Some((name, empty_request())),
                    },
                )
            }
        } else {
            let value = trim(l.skip(spec_value_start(kind) as int));
            match p.current {
                None => Err(outside_msg()),
                Some((name, v)) => if kind == 3 {
                    match spec_source_kind_outcome(value) {
                        Err(e) => Err(bytes(e)),
                        Ok(_) => Ok(
                            ManifestParse {
                                state,
                                done: p.done,
                                current: Some(
                                    (name, ManifestPackageView { source: value, reference: v.reference }),
                                ),
                            },
                        ),
                    }
                } else if !spec_reference_valid(value) {
                    Err(bad_reference_msg(name))
                } else {
                    Ok(
                        ManifestParse {
                            state,
                            done: p.done,
                            current: Some(
                                (name, ManifestPackageView { source: v.source, reference: value }),
                            ),
                        },
                    )
                },
            }
        }
    }
}

/// Reads the lines of `t`, each trimmed, in order; the first error stops.
pub open spec fn manifest_lines(p: ManifestParse, t: Seq<u8>) -> Result<ManifestParse, Seq<u8>>
    decreases t.len(),
{
    let i = first_newline(t);
    match manifest_line_step(p, trim(t.take(i))) {
        Err(e) => Err(e),
        Ok(q) => if 0 <= i < t.len() {
            manifest_lines(q, t.skip(i + 1))
        } else {
            Ok(q)
        },
    }
}

pub open spec fn manifest_start() -> ManifestParse {
    ManifestParse { state: 0, done: Map::empty(), current: None }
}

/// The least name, in byte order, of a request of `m` that the resolver does
/// not accept.
pub open spec fn first_invalid_request(m: Map<Seq<u8>, ManifestPackageView>) -> Option<Seq<u8>> {
    if exists|n: Seq<u8>| m.dom().contains(n) && !spec_manifest_package_valid(m[n]) {
        Some(
            choose|n: Seq<u8>|
                m.dom().contains(n) && !spec_manifest_package_valid(m[n]) && forall|k: Seq<u8>|
                    m.dom().contains(k) && !spec_manifest_package_valid(m[k]) ==> !bytes_lt(k, n),
        )
    } else {
        None
    }
}

/// The requests of a read manifest, once its last section is complete and
/// every request is acceptable.
pub open spec fn manifest_finish(r: Result<ManifestParse, Seq<u8>>) -> Result<
    Map<Seq<u8>, ManifestPackageView>,
    Seq<u8>,
> {
    match r {
        Err(e) => Err(e),
        Ok(p) => if !spec_manifest_complete(p.state) {
            Err(manifest_incomplete_msg())
        } else {
            match first_invalid_request(manifest_committed(p)) {
                Some(name) => Err(bad_request_msg(name)),
                None => Ok(manifest_committed(p)),
            }
        },
    }
}

/// What reading the manifest text `t` gives: its requests, or an error.
pub open spec fn spec_parse_manifest(t: Seq<u8>) -> Result<
    Map<Seq<u8>, ManifestPackageView>,
    Seq<u8>,
> {
    manifest_finish(manifest_lines(manifest_start(), t))
}

/// Whether every package name read so far is acceptable.
pub open spec fn manifest_names_valid(p: ManifestParse) -> bool {
    &&& forall|k: Seq<u8>| #[trigger] p.done.contains_key(k) ==> spec_valid_name(k)
    &&& (p.current matches Some(c) ==> spec_valid_name(c.0))
}

proof fn lemma_manifest_step_names(p: ManifestParse, l: Seq<u8>)
    requires
        manifest_names_valid(p),
    ensures
        manifest_line_step(p, l) matches Ok(q) ==> manifest_names_valid(q),
{
}

proof fn lemma_manifest_lines_names(p: ManifestParse, t: Seq<u8>)
    requires
        manifest_names_valid(p),
    ensures
        manifest_lines(p, t) matches Ok(q) ==> manifest_names_valid(q),
    decreases t.len(),
{
    let i = first_newline(t);
    lemma_first_newline(t);
    lemma_manifest_step_names(p, trim(t.take(i)));
    if let Ok(q) = manifest_line_step(p, trim(t.take(i))) {
        if 0 <= i < t.len() {
            lemma_manifest_lines_names(q, t.skip(i + 1));
        }
    }
}

/// Every request of a manifest that reads without error has an acceptable
/// name and is a request that the resolver accepts.
pub proof fn lemma_parsed_manifest_valid(t: Seq<u8>)
    ensures
        spec_parse_manifest(t) matches Ok(m) ==> forall|k: Seq<u8>|
            #[trigger] m.contains_key(k) ==> spec_valid_name(k) && spec_manifest_package_valid(m[k]),
{
    lemma_manifest_lines_names(manifest_start(), t);
}

struct ManifestParser {
    state: u32,
    done: PackageMap<ManifestPackage>,
    has_current: bool,
    name: String,
    package: ManifestPackage,
}

impl ManifestParser {
    spec fn view(&self) -> ManifestParse {
        ManifestParse {
            state: self.state,
            done: self.done.map(),
            current: if self.has_current {
                Some((bytes(self.name@), self.package@))
            } else {
                None
            },
        }
    }

    fn new() -> (res: Self)
        ensures
            res.view() == manifest_start(),
    {
        ManifestParser {
            state: 0,
            done: PackageMap::new(),
            has_current: false,
            name: String::new(),
            package: ManifestPackage::default(),
        }
    }

    fn commit(&mut self)
        ensures
            final(self).done.map() == manifest_committed(old(self).view()),
            !final(self).has_current,
            final(self).state == old(self).state,
    {
        if self.has_current {
            let mut name = String::new();
            std::mem::swap(&mut name, &mut self.name);
            let mut package = ManifestPackage::default();
            std::mem::swap(&mut package, &mut self.package);
            self.done.insert(name, package);
            self.has_current = false;
        }
    }

    fn step(&mut self, line: &str) -> (res: Result<(), String>)
        ensures
            match manifest_line_step(old(self).view(), bytes(line@)) {
                Ok(q) => res is Ok && final(self).view() == q,
                Err(e) => res matches Err(m) && bytes(m@) == e,
            },
    {
        let ghost l = bytes(line@);
        let len = byte_len(line);
        if len > 512 {
            return Err(owned("manifest line exceeds Kally's 512-byte limit"));
        }
        let bounded = BoundedString::<512>::from_str(line);
        assert(l.take(kept_len(l, 512)) =~= l);
        let kind = kally_lock_line_kind(bounded);
        if kind == 0 {
            return Ok(());
        }
        let state = kally_manifest_transition(self.state, kind);
        if state == 255 {
            return Err(concat2("invalid manifest structure near: ", line));
        }
        if kind == 1 {
            self.state = state;
            return Ok(());
        }
        if kind == 2 {
            proof {
                lemma_boundary_after(l, 0);
            }
            let (_, tail) = split_str(line, 1);
            proof {
                let t = bytes(tail@);
                assert(t[len - 2] == 93u8);
                lemma_boundary(t, len - 2);
            }
            let (name, _) = split_str(tail, len - 2);
            assert(bytes(name@) =~= l.subrange(1, l.len() - 1));
            if !valid_name(name) {
                return Err(concat3("invalid package name `", name, "`"));
            }
            self.commit();
            self.state = state;
            self.has_current = true;
            self.name = owned(name);
            self.package = ManifestPackage::default();
            return Ok(());
        }
        let value_start = kally_lock_value_start(bounded);
        if value_start == 0 || value_start as usize > len {
            return Err(concat2("invalid manifest line: ", line));
        }
        proof {
            lemma_boundary_after(l, value_start - 1);
        }
        let (_, raw) = split_str(line, value_start as usize);
        let value = trim_str(raw);
        if !self.has_current {
            return Err(owned("package property outside package section"));
        }
        if kind == 3 {
            source_kind(value)?;
            self.package.source = owned(value);
        } else if kind == 4 {
            if !reference_valid(value) {
                return Err(concat3("invalid reference for `", self.name.as_str(), "`"));
            }
            self.package.reference = owned(value);
        } else {
            return Err(concat2("invalid manifest property near: ", line));
        }
        self.state = state;
        Ok(())
    }
}

/// The first entry in order that `manifest_package_valid` rejects is the least
/// rejected name.
proof fn lemma_first_invalid(e: Seq<(Seq<u8>, ManifestPackageView)>, i: int)
    requires
        strictly_sorted(e.map_values(|x: (Seq<u8>, ManifestPackageView)| x.0)),
        0 <= i <= e.len(),
        forall|j: int| 0 <= j < i ==> spec_manifest_package_valid(#[trigger] e[j].1),
        i < e.len() ==> !spec_manifest_package_valid(e[i].1),
    ensures
        first_invalid_request(entries_map(e)) == (if i < e.len() {
            Some(e[i].0)
        } else {
            None::<Seq<u8>>
        }),
{
    crate::package_map::lemma_sorted_distinct(e);
    crate::package_map::lemma_entries_map(e);
    let m = entries_map(e);
    let keys = e.map_values(|x: (Seq<u8>, ManifestPackageView)| x.0);
    if i < e.len() {
        let n = e[i].0;
        assert(m.dom().contains(n) && !spec_manifest_package_valid(m[n]));
        assert forall|k: Seq<u8>| m.dom().contains(k) && !spec_manifest_package_valid(m[k]) implies !bytes_lt(k, n) by {
            let j = choose|j: int| 0 <= j < e.len() && e[j].0 == k;
            assert(m[e[j].0] == e[j].1);
            if j < i {
                assert(false);
            } else if j > i {
                assert(bytes_lt(keys[i], keys[j]));
                lemma_lt_asymmetric(n, k);
            } else {
                lemma_lt_irreflexive(n);
            }
        }
        let c = choose|c: Seq<u8>|
            m.dom().contains(c) && !spec_manifest_package_valid(m[c]) && forall|k: Seq<u8>|
                m.dom().contains(k) && !spec_manifest_package_valid(m[k]) ==> !bytes_lt(k, c);
        assert(!bytes_lt(n, c));
        assert(!bytes_lt(c, n));
        lemma_lt_total(n, c);
    } else {
        assert forall|n: Seq<u8>| m.dom().contains(n) implies spec_manifest_package_valid(m[n]) by {
            let j = choose|j: int| 0 <= j < e.len() && e[j].0 == n;
            assert(m[e[j].0] == e[j].1);
        }
    }
}

/// Reads the text of a manifest.
pub fn parse_manifest(text: &str) -> (res: Result<Manifest, String>)
    ensures
        match spec_parse_manifest(bytes(text@)) {
            Ok(m) => res matches Ok(manifest) && manifest.version == 1 && manifest.packages.map() == m,
            Err(e) => res matches Err(s) && bytes(s@) == e,
        },
        res matches Ok(manifest) ==> forall|k: Seq<u8>|
            #[trigger] manifest.packages.map().contains_key(k) ==> spec_valid_name(k)
                && spec_manifest_package_valid(manifest.packages.map()[k]),
{
    proof {
        lemma_parsed_manifest_valid(bytes(text@));
    }
    let mut parser = ManifestParser::new();
    let mut rest = text;
    loop
        invariant_except_break
            spec_parse_manifest(bytes(text@)) == manifest_finish(
                manifest_lines(parser.view(), bytes(rest@)),
            ),
        ensures
            spec_parse_manifest(bytes(text@)) == manifest_finish(Ok(parser.view())),
        decreases bytes(rest@).len(),
    {
        proof {
            lemma_first_newline(bytes(rest@));
        }
        let (raw, next, more) = next_line(rest);
        let line = trim_str(raw);
        parser.step(line)?;
        if !more {
            break;
        }
        rest = next;
    }
    if !kally_manifest_complete(parser.state) {
        return Err(owned("manifest package is missing source or reference"));
    }
    if !kally_lock_version_supported(1) {
        return Err(owned("unsupported manifest version 1"));
    }
    let ghost final_view = parser.view();
    parser.commit();
    let packages = parser.done;
    let n = packages.len();
    let ghost e = packages.entries();
    let mut i: usize = 0;
    proof {
        assert(packages.keys() =~= e.map_values(|x: (Seq<u8>, ManifestPackageView)| x.0));
    }
    while i < n
        invariant
            i <= n,
            n == e.len(),
            e == packages.entries(),
            strictly_sorted(e.map_values(|x: (Seq<u8>, ManifestPackageView)| x.0)),
            packages.map() == entries_map(e),
            packages.map() == manifest_committed(final_view),
            spec_parse_manifest(bytes(text@)) == manifest_finish(Ok(final_view)),
            spec_manifest_complete(final_view.state),
            forall|j: int| 0 <= j < i ==> spec_manifest_package_valid(#[trigger] e[j].1),
        decreases n - i,
    {
        if !manifest_package_valid(packages.value_at(i)) {
            proof {
                lemma_first_invalid(e, i as int);
            }
            return Err(concat3("invalid dependency request for `", packages.key_at(i).as_str(), "`"));
        }
        i = i + 1;
    }
    proof {
        lemma_first_invalid(e, n as int);
    }
    Ok(Manifest { version: 1, packages })
}

/// The first error that writing the requests `e` meets, in order: an
/// unacceptable name, or a request the resolver rejects.
pub open spec fn first_bad_entry(e: Seq<(Seq<u8>, ManifestPackageView)>) -> Option<Seq<u8>>
    decreases e.len(),
{
    if e.len() == 0 {
        None
    } else if !spec_valid_name(e[0].0) {
        Some(name_msg(e[0].0))
    } else if !spec_manifest_package_valid(e[0].1) {
        Some(bad_request_msg(e[0].0))
    } else {
        first_bad_entry(e.drop_first())
    }
}

/// The first lines of a written manifest.
pub open spec fn manifest_header(version: u32) -> Seq<u8> {
    bytes("# Kally manifest - requested dependencies\nversion="@) + decimal(
        written_version(version) as nat,
    ) + bytes("\n"@)
}

/// The section of one request in a written manifest.
pub open spec fn manifest_section(name: Seq<u8>, p: ManifestPackageView) -> Seq<u8> {
    bytes("\n["@) + name + bytes("]\nsource="@) + p.source + bytes("\nreference="@) + p.reference
        + bytes("\n"@)
}

/// The sections of the requests `e`, in order.
pub open spec fn manifest_sections(e: Seq<(Seq<u8>, ManifestPackageView)>) -> Seq<u8>
    decreases e.len(),
{
    if e.len() == 0 {
        Seq::empty()
    } else {
        manifest_section(e[0].0, e[0].1) + manifest_sections(e.drop_first())
    }
}

/// What writing a manifest gives: its text, or the first error.
pub open spec fn spec_render_manifest(version: u32, e: Seq<(Seq<u8>, ManifestPackageView)>) -> Result<
    Seq<u8>,
    Seq<u8>,
> {
    if !spec_version_supported(written_version(version)) {
        Err(unsupported_version_msg(version))
    } else {
        match first_bad_entry(e) {
            Some(m) => Err(m),
            None => Ok(manifest_header(version) + manifest_sections(e)),
        }
    }
}

proof fn lemma_manifest_sections_push(
    e: Seq<(Seq<u8>, ManifestPackageView)>,
    x: (Seq<u8>, ManifestPackageView),
)
    ensures
        manifest_sections(e.push(x)) == manifest_sections(e) + manifest_section(x.0, x.1),
    decreases e.len(),
{
    if e.len() == 0 {
        assert(e.push(x).drop_first() =~= Seq::<(Seq<u8>, ManifestPackageView)>::empty());
        assert(e.push(x)[0] == x);
        assert(manifest_sections(Seq::<(Seq<u8>, ManifestPackageView)>::empty()) =~= Seq::<
            u8,
        >::empty());
        assert(manifest_sections(e.push(x)) =~= manifest_sections(e) + manifest_section(x.0, x.1));
    } else {
        assert(e.push(x).drop_first() =~= e.drop_first().push(x));
        lemma_manifest_sections_push(e.drop_first(), x);
        assert(manifest_sections(e.push(x)) =~= manifest_sections(e) + manifest_section(x.0, x.1));
    }
}

proof fn lemma_first_bad_entry_split(e: Seq<(Seq<u8>, ManifestPackageView)>, i: int)
    requires
        0 <= i <= e.len(),
        forall|j: int| 0 <= j < i ==> spec_valid_name(#[trigger] e[j].0),
        forall|j: int| 0 <= j < i ==> spec_manifest_package_valid(#[trigger] e[j].1),
    ensures
        first_bad_entry(e) == first_bad_entry(e.skip(i)),
    decreases i,
{
    if i > 0 {
        assert(e.skip(1).skip(i - 1) =~= e.skip(i));
        assert forall|j: int| 0 <= j < i - 1 implies spec_valid_name(#[trigger] e.drop_first()[j].0) by {
            assert(e.drop_first()[j] == e[j + 1]);
        }
        assert forall|j: int| 0 <= j < i - 1 implies spec_manifest_package_valid(#[trigger] e.drop_first()[j].1) by {
            assert(e.drop_first()[j] == e[j + 1]);
        }
        assert(spec_valid_name(e[0].0));
        assert(spec_manifest_package_valid(e[0].1));
        lemma_first_bad_entry_split(e.drop_first(), i - 1);
        assert(e.drop_first() =~= e.skip(1));
    } else {
        assert(e.skip(0) =~= e);
    }
}

fn push_manifest_section(out: &mut String, name: &String, p: &ManifestPackage)
    ensures
        bytes(final(out)@) == bytes(old(out)@) + manifest_section(bytes(name@), p@),
{
    let ghost o = bytes(out@);
    push_str(out, "\n[");
    push_str(out, name.as_str());
    push_str(out, "]\nsource=");
    push_str(out, p.source.as_str());
    push_str(out, "\nreference=");
    push_str(out, p.reference.as_str());
    push_str(out, "\n");
    assert(bytes(out@) =~= o + manifest_section(bytes(name@), p@));
}

/// Writes the text of a manifest: a header, then one section per request in
/// name order.
pub fn render_manifest(manifest: &Manifest) -> (res: Result<String, String>)
    ensures
        match spec_render_manifest(manifest.version, manifest.packages.entries()) {
            Ok(t) => res matches Ok(s) && bytes(s@) == t,
            Err(e) => res matches Err(m) && bytes(m@) == e,
        },
{
    let ghost e = manifest.packages.entries();
    let version = if manifest.version < 1 {
        1
    } else {
        manifest.version
    };
    if !kally_lock_version_supported(version) {
        let mut message = owned("unsupported manifest version ");
        push_decimal(&mut message, manifest.version);
        return Err(message);
    }
    let mut out = String::new();
    push_str(&mut out, "# Kally manifest - requested dependencies\nversion=");
    push_decimal(&mut out, version);
    push_str(&mut out, "\n");
    assert(bytes(out@) =~= manifest_header(manifest.version));
    let n = manifest.packages.len();
    let mut i: usize = 0;
    assert(e.take(0) =~= Seq::<(Seq<u8>, ManifestPackageView)>::empty());
    while i < n
        invariant
            i <= n,
            n == e.len(),
            e == manifest.packages.entries(),
            spec_version_supported(written_version(manifest.version)),
            forall|j: int| 0 <= j < i ==> spec_valid_name(#[trigger] e[j].0),
            forall|j: int| 0 <= j < i ==> spec_manifest_package_valid(#[trigger] e[j].1),
            bytes(out@) == manifest_header(manifest.version) + manifest_sections(e.take(i as int)),
        decreases n - i,
    {
        let name = manifest.packages.key_at(i);
        let p = manifest.packages.value_at(i);
        if !valid_name(name.as_str()) {
            proof {
                lemma_first_bad_entry_split(e, i as int);
            }
            return Err(concat3("invalid package name `", name.as_str(), "`"));
        }
        if !manifest_package_valid(p) {
            proof {
                lemma_first_bad_entry_split(e, i as int);
            }
            return Err(concat3("invalid dependency request for `", name.as_str(), "`"));
        }
        assert(spec_valid_name(e[i as int].0) && spec_manifest_package_valid(e[i as int].1));
        push_manifest_section(&mut out, name, p);
        proof {
            assert(e.take(i + 1) =~= e.take(i as int).push(e[i as int]));
            lemma_manifest_sections_push(e.take(i as int), e[i as int]);
        }
        i = i + 1;
    }
    proof {
        lemma_first_bad_entry_split(e, n as int);
        assert(e.skip(n as int) =~= Seq::<(Seq<u8>, ManifestPackageView)>::empty());
        assert(e.take(n as int) =~= e);
    }
    Ok(out)
}

} // verus!

