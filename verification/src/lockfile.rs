//! `kally.lock`: the resolved, reproducible record of every package.
use vstd::prelude::*;

use crate::bounded::{kept_len, BoundedString};
use crate::output::{concat2, concat3, decimal, owned, push_decimal, push_str};
use crate::package_map::PackageMap;
use crate::model::{Lock, Package, PackageView};
use crate::policy::spec_valid_name;
use crate::rules::{source_kind, spec_source_kind_outcome, valid_name};
use crate::syntax::{
    kally_lock_complete, kally_lock_line_kind, kally_lock_transition, kally_lock_value_start,
    spec_line_kind, spec_lock_complete, spec_lock_transition, spec_value_start,
};
use crate::text::{
    byte_len, bytes, first_newline, lemma_boundary, lemma_boundary_after, lemma_first_newline,
    next_line, split_str, trim, trim_str,
};

verus! {

broadcast use vstd::utf8::encode_utf8_valid_utf8;

/// A package with every property empty.
pub open spec fn empty_package() -> PackageView {
    PackageView {
        source: Seq::empty(),
        reference: Seq::empty(),
        revision: Seq::empty(),
        checksum: Seq::empty(),
    }
}

/// `v` with the property of line kind `kind` (3 to 6) set to `value`.
pub open spec fn set_property(v: PackageView, kind: u32, value: Seq<u8>) -> PackageView {
    if kind == 3 {
        PackageView { source: value, reference: v.reference, revision: v.revision, checksum: v.checksum }
    } else if kind == 4 {
        PackageView { source: v.source, reference: value, revision: v.revision, checksum: v.checksum }
    } else if kind == 5 {
        PackageView { source: v.source, reference: v.reference, revision: value, checksum: v.checksum }
    } else {
        PackageView { source: v.source, reference: v.reference, revision: v.revision, checksum: value }
    }
}

/// The state of reading a lockfile: the structural state, the packages of
/// finished sections, and the section being read.
pub struct LockParse {
    pub state: u32,
    pub done: Map<Seq<u8>, PackageView>,
    pub current: Option<(Seq<u8>, PackageView)>,
}

/// All packages read so far; a later section of the same name replaces an
/// earlier one.
pub open spec fn committed(p: LockParse) -> Map<Seq<u8>, PackageView> {
    match p.current {
        Some((name, v)) => p.done.insert(name, v),
        None => p.done,
    }
}

pub open spec fn lock_limit_msg() -> Seq<u8> {
    bytes("lockfile line exceeds Kally's 512-byte limit"@)
}

pub open spec fn lock_structure_msg(line: Seq<u8>) -> Seq<u8> {
    bytes("invalid lockfile structure near: "@) + line
}

pub open spec fn name_msg(name: Seq<u8>) -> Seq<u8> {
    bytes("invalid package name `"@) + name + bytes("`"@)
}

pub open spec fn outside_msg() -> Seq<u8> {
    bytes("package property outside package section"@)
}

pub open spec fn lock_incomplete_msg() -> Seq<u8> {
    bytes("lockfile package is missing required properties"@)
}

/// Reads one trimmed line.
pub open spec fn lock_line_step(p: LockParse, l: Seq<u8>) -> Result<LockParse, Seq<u8>> {
    if l.len() > 512 {
        Err(lock_limit_msg())
    } else {
        let kind = spec_line_kind(l);
        let state = spec_lock_transition(p.state, kind);
        if kind == 0 {
            Ok(p)
        } else if state == 255 {
            Err(lock_structure_msg(l))
        } else if kind == 1 {
            Ok(LockParse { state, done: p.done, current: p.current })
        } else if kind == 2 {
            let name = l.subrange(1, l.len() - 1);
            if !spec_valid_name(name) {
                Err(name_msg(name))
            } else {
                Ok(LockParse { state, done: committed(p), current: Some((name, empty_package())) })
            }
        } else {
            match p.current {
                None => Err(outside_msg()),
                Some((name, v)) => {
                    let value = trim(l.skip(spec_value_start(kind) as int));
                    let next = LockParse {
                        state,
                        done: p.done,
                        current: Some((name, set_property(v, kind, value))),
                    };
                    if kind == 3 {
                        match spec_source_kind_outcome(value) {
                            Err(e) => Err(bytes(e)),
                            Ok(_) => Ok(next),
                        }
                    } else {
                        Ok(next)
                    }
                },
            }
        }
    }
}

/// Reads the lines of `t`, each trimmed, in order; the first error stops.
pub open spec fn lock_lines(p: LockParse, t: Seq<u8>) -> Result<LockParse, Seq<u8>>
    decreases t.len(),
{
    let i = first_newline(t);
    match lock_line_step(p, trim(t.take(i))) {
        Err(e) => Err(e),
        Ok(q) => if 0 <= i < t.len() {
            lock_lines(q, t.skip(i + 1))
        } else {
            Ok(q)
        },
    }
}

pub open spec fn lock_start() -> LockParse {
    LockParse { state: 0, done: Map::empty(), current: None }
}

/// The packages of a read lockfile, once its last section is complete.
pub open spec fn lock_finish(r: Result<LockParse, Seq<u8>>) -> Result<
    Map<Seq<u8>, PackageView>,
    Seq<u8>,
> {
    match r {
        Err(e) => Err(e),
        Ok(p) => if spec_lock_complete(p.state) {
            Ok(committed(p))
        } else {
            Err(lock_incomplete_msg())
        },
    }
}

/// What reading the lockfile text `t` gives: its packages, or an error.
pub open spec fn spec_parse_lock(t: Seq<u8>) -> Result<Map<Seq<u8>, PackageView>, Seq<u8>> {
    lock_finish(lock_lines(lock_start(), t))
}

/// Whether every package name read so far is acceptable.
pub open spec fn lock_names_valid(p: LockParse) -> bool {
    &&& forall|k: Seq<u8>| #[trigger] p.done.contains_key(k) ==> spec_valid_name(k)
    &&& (p.current matches Some(c) ==> spec_valid_name(c.0))
}

proof fn lemma_lock_step_names(p: LockParse, l: Seq<u8>)
    requires
        lock_names_valid(p),
    ensures
        lock_line_step(p, l) matches Ok(q) ==> lock_names_valid(q),
{
}

proof fn lemma_lock_lines_names(p: LockParse, t: Seq<u8>)
    requires
        lock_names_valid(p),
    ensures
        lock_lines(p, t) matches Ok(q) ==> lock_names_valid(q),
    decreases t.len(),
{
    let i = first_newline(t);
    lemma_first_newline(t);
    lemma_lock_step_names(p, trim(t.take(i)));
    if let Ok(q) = lock_line_step(p, trim(t.take(i))) {
        if 0 <= i < t.len() {
            lemma_lock_lines_names(q, t.skip(i + 1));
        }
    }
}

/// Every package of a lockfile that reads without error has an acceptable
/// name.
pub proof fn lemma_parsed_lock_names(t: Seq<u8>)
    ensures
        spec_parse_lock(t) matches Ok(m) ==> forall|k: Seq<u8>|
            #[trigger] m.contains_key(k) ==> spec_valid_name(k),
{
    lemma_lock_lines_names(lock_start(), t);
}

struct LockParser {
    state: u32,
    done: PackageMap<Package>,
    has_current: bool,
    name: String,
    package: Package,
}

impl LockParser {
    spec fn view(&self) -> LockParse {
        LockParse {
            state: self.state,
            done: self.done.map(),
            current: if self.has_current {
                Some((bytes(self.name@), self.package@))
            } else {
                None
            },
        }
    }

    fn new() -> (res: Self)
        ensures
            res.view() == lock_start(),
    {
        LockParser {
            state: 0,
            done: PackageMap::new(),
            has_current: false,
            name: String::new(),
            package: Package::default(),
        }
    }

    /// Moves the section being read into the finished packages.
    fn commit(&mut self)
        ensures
            final(self).done.map() == committed(old(self).view()),
            !final(self).has_current,
            final(self).state == old(self).state,
    {
        if self.has_current {
            let mut name = String::new();
            std::mem::swap(&mut name, &mut self.name);
            let mut package = Package::default();
            std::mem::swap(&mut package, &mut self.package);
            self.done.insert(name, package);
            self.has_current = false;
        }
    }

    /// Reads one trimmed line.
    fn step(&mut self, line: &str) -> (res: Result<(), String>)
        ensures
            match lock_line_step(old(self).view(), bytes(line@)) {
                Ok(q) => res is Ok && final(self).view() == q,
                Err(e) => res matches Err(m) && bytes(m@) == e,
            },
    {
        let ghost l = bytes(line@);
        let len = byte_len(line);
        if len > 512 {
            return Err(owned("lockfile line exceeds Kally's 512-byte limit"));
        }
        let bounded = BoundedString::<512>::from_str(line);
        assert(l.take(kept_len(l, 512)) =~= l);
        let kind = kally_lock_line_kind(bounded);
        if kind == 0 {
            return Ok(());
        }
        let state = kally_lock_transition(self.state, kind);
        if state == 255 {
            return Err(concat2("invalid lockfile structure near: ", line));
        }
        if kind == 1 {
            self.state = state;
            return Ok(());
        }
        if kind == 2 {
            proof {
                lemma_boundary_after(l, 0);
            }
            let (_, tail) = split_str(line, 1);
            proof {
                let t = bytes(tail@);
                assert(t[len - 2] == 93u8);
                lemma_boundary(t, len - 2);
            }
            let (name, _) = split_str(tail, len - 2);
            assert(bytes(name@) =~= l.subrange(1, l.len() - 1));
            if !valid_name(name) {
                return Err(concat3("invalid package name `", name, "`"));
            }
            self.commit();
            self.state = state;
            self.has_current = true;
            self.name = owned(name);
            self.package = Package::default();
            return Ok(());
        }
        let value_start = kally_lock_value_start(bounded);
        if value_start == 0 || value_start as usize > len {
            return Err(concat2("invalid lockfile line: ", line));
        }
        if !self.has_current {
            return Err(owned("package property outside package section"));
        }
        proof {
            lemma_boundary_after(l, value_start - 1);
        }
        let (_, raw) = split_str(line, value_start as usize);
        let value = trim_str(raw);
        if kind == 3 {
            source_kind(value)?;
            self.package.source = owned(value);
        } else if kind == 4 {
            self.package.reference = owned(value);
        } else if kind == 5 {
            self.package.revision = owned(value);
        } else {
            self.package.checksum = owned(value);
        }
        self.state = state;
        Ok(())
    }
}

/// Reads the text of a lockfile.
pub fn parse_lock(text: &str) -> (res: Result<Lock, String>)
    ensures
        match spec_parse_lock(bytes(text@)) {
            Ok(m) => res matches Ok(lock) && lock.version == 1 && lock.packages.map() == m,
            Err(e) => res matches Err(s) && bytes(s@) == e,
        },
        res matches Ok(lock) ==> forall|k: Seq<u8>|
            #[trigger] lock.packages.map().contains_key(k) ==> spec_valid_name(k),
{
    let mut parser = LockParser::new();
    let mut rest = text;
    loop
        invariant_except_break
            spec_parse_lock(bytes(text@)) == lock_finish(lock_lines(parser.view(), bytes(rest@))),
        ensures
            spec_parse_lock(bytes(text@)) == lock_finish(Ok(parser.view())),
        decreases bytes(rest@).len(),
    {
        proof {
            lemma_first_newline(bytes(rest@));
        }
        let (raw, next, more) = next_line(rest);
        let line = trim_str(raw);
        parser.step(line)?;
        if !more {
            break;
        }
        rest = next;
    }
    if !kally_lock_complete(parser.state) {
        return Err(owned("lockfile package is missing required properties"));
    }
    parser.commit();
    proof {
        lemma_parsed_lock_names(bytes(text@));
        assert(spec_parse_lock(bytes(text@)) == Ok::<Map<Seq<u8>, PackageView>, Seq<u8>>(
            parser.done.map(),
        ));
    }
    Ok(Lock { version: 1, packages: parser.done })
}

/// The first package name of `e` that is not acceptable, in order.
pub open spec fn first_bad_name<V>(e: Seq<(Seq<u8>, V)>) -> Option<Seq<u8>>
    decreases e.len(),
{
    if e.len() == 0 {
        None
    } else if !spec_valid_name(e[0].0) {
        Some(e[0].0)
    } else {
        first_bad_name(e.drop_first())
    }
}

/// The version that a file records: at least 1.
pub open spec fn written_version(v: u32) -> u32 {
    if v < 1 {
        1
    } else {
        v
    }
}

/// The first lines of a written lockfile.
pub open spec fn lock_header(version: u32) -> Seq<u8> {
    bytes("# Kally lockfile - generated, do not edit\nversion="@) + decimal(
        written_version(version) as nat,
    ) + bytes("\n"@)
}

/// The section of one package in a written lockfile.
pub open spec fn lock_section(name: Seq<u8>, p: PackageView) -> Seq<u8> {
    bytes("\n["@) + name + bytes("]\nsource="@) + p.source + bytes("\nreference="@) + p.reference
        + bytes("\nrevision="@) + p.revision + bytes("\nchecksum="@) + p.checksum + bytes("\n"@)
}

/// The sections of the packages `e`, in order.
pub open spec fn lock_sections(e: Seq<(Seq<u8>, PackageView)>) -> Seq<u8>
    decreases e.len(),
{
    if e.len() == 0 {
        Seq::empty()
    } else {
        lock_section(e[0].0, e[0].1) + lock_sections(e.drop_first())
    }
}

/// What writing a lockfile gives: its text, or the error for the first
/// unacceptable package name.
pub open spec fn spec_render_lock(version: u32, e: Seq<(Seq<u8>, PackageView)>) -> Result<
    Seq<u8>,
    Seq<u8>,
> {
    match first_bad_name(e) {
        Some(name) => Err(name_msg(name)),
        None => Ok(lock_header(version) + lock_sections(e)),
    }
}

proof fn lemma_sections_push(e: Seq<(Seq<u8>, PackageView)>, x: (Seq<u8>, PackageView))
    ensures
        lock_sections(e.push(x)) == lock_sections(e) + lock_section(x.0, x.1),
    decreases e.len(),
{
    if e.len() == 0 {
        assert(e.push(x).drop_first() =~= Seq::<(Seq<u8>, PackageView)>::empty());
        assert(e.push(x)[0] == x);
        assert(lock_sections(Seq::<(Seq<u8>, PackageView)>::empty()) =~= Seq::<u8>::empty());
        assert(lock_sections(e.push(x)) =~= lock_sections(e) + lock_section(x.0, x.1));
    } else {
        assert(e.push(x).drop_first() =~= e.drop_first().push(x));
        lemma_sections_push(e.drop_first(), x);
        assert(lock_sections(e.push(x)) =~= lock_sections(e) + lock_section(x.0, x.1));
    }
}

proof fn lemma_first_bad_split<V>(e: Seq<(Seq<u8>, V)>, i: int)
    requires
        0 <= i <= e.len(),
        forall|j: int| 0 <= j < i ==> spec_valid_name(#[trigger] e[j].0),
    ensures
        first_bad_name(e) == first_bad_name(e.skip(i)),
    decreases i,
{
    if i > 0 {
        assert(e.skip(1).skip(i - 1) =~= e.skip(i));
        assert forall|j: int| 0 <= j < i - 1 implies spec_valid_name(#[trigger] e.drop_first()[j].0) by {
            assert(e.drop_first()[j] == e[j + 1]);
        }
        lemma_first_bad_split(e.drop_first(), i - 1);
        assert(e.drop_first() =~= e.skip(1));
    } else {
        assert(e.skip(0) =~= e);
    }
}

fn push_lock_section(out: &mut String, name: &String, p: &Package)
    ensures
        bytes(final(out)@) == bytes(old(out)@) + lock_section(bytes(name@), p@),
{
    let ghost o = bytes(out@);
    let ghost v = p@;
    let ghost n = bytes(name@);
    push_str(out, "\n[");
    push_str(out, name.as_str());
    push_str(out, "]\nsource=");
    push_str(out, p.source.as_str());
    let ghost a = bytes("\n["@) + n + bytes("]\nsource="@) + v.source;
    assert(bytes(out@) =~= o + a);
    push_str(out, "\nreference=");
    push_str(out, p.reference.as_str());
    push_str(out, "\nrevision=");
    push_str(out, p.revision.as_str());
    let ghost b = a + bytes("\nreference="@) + v.reference + bytes("\nrevision="@) + v.revision;
    assert(bytes(out@) =~= o + b);
    push_str(out, "\nchecksum=");
    push_str(out, p.checksum.as_str());
    push_str(out, "\n");
    let ghost c = b + bytes("\nchecksum="@) + v.checksum + bytes("\n"@);
    assert(bytes(out@) =~= o + c);
    assert(c == lock_section(n, v));
}

/// Writes the text of a lockfile: a header, then one section per package in
/// name order.
pub fn render_lock(lock: &Lock) -> (res: Result<String, String>)
    ensures
        match spec_render_lock(lock.version, lock.packages.entries()) {
            Ok(t) => res matches Ok(s) && bytes(s@) == t,
            Err(e) => res matches Err(m) && bytes(m@) == e,
        },
{
    let ghost e = lock.packages.entries();
    let mut out = String::new();
    push_str(&mut out, "# Kally lockfile - generated, do not edit\nversion=");
    let version = if lock.version < 1 {
        1
    } else {
        lock.version
    };
    push_decimal(&mut out, version);
    push_str(&mut out, "\n");
    assert(bytes(out@) =~= lock_header(lock.version));
    let n = lock.packages.len();
    let mut i: usize = 0;
    assert(e.take(0) =~= Seq::<(Seq<u8>, PackageView)>::empty());
    while i < n
        invariant
            i <= n,
            n == e.len(),
            e == lock.packages.entries(),
            forall|j: int| 0 <= j < i ==> spec_valid_name(#[trigger] e[j].0),
            bytes(out@) == lock_header(lock.version) + lock_sections(e.take(i as int)),
        decreases n - i,
    {
        let name = lock.packages.key_at(i);
        let p = lock.packages.value_at(i);
        if !valid_name(name.as_str()) {
            proof {
                lemma_first_bad_split(e, i as int);
            }
            return Err(concat3("invalid package name `", name.as_str(), "`"));
        }
        push_lock_section(&mut out, name, p);
        proof {
            assert(e.take(i + 1) =~= e.take(i as int).push(e[i as int]));
            lemma_sections_push(e.take(i as int), e[i as int]);
        }
        i = i + 1;
    }
    proof {
        lemma_first_bad_split(e, n as int);
        assert(e.skip(n as int) =~= Seq::<(Seq<u8>, PackageView)>::empty());
        assert(e.take(n as int) =~= e);
    }
    Ok(out)
}

} // verus!

