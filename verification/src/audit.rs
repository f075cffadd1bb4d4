//! Checking a lockfile against the rules and against the package cache.
use vstd::prelude::*;

use crate::output::{concat3, decimal, owned, push_decimal};
use crate::package_map::bytes_equal;
use crate::model::{Lock, Package, PackageView, SourceKind};
use crate::policy::{local_marker, spec_checksum_valid, spec_revision_valid};
use crate::rules::{
    checksum_valid, git_source_ok, git_source_valid, revision_valid, source_kind,
    spec_source_kind_outcome,
};
use crate::syntax::{kally_lock_version_supported, spec_version_supported};
use crate::text::{byte_len, bytes};

verus! {

/// What the package cache holds under a package's name: nothing, a file or
/// a directory, each with the checksum of its tree or the reason why it could
/// not be hashed.
#[derive(Debug)]
pub enum CachedTree {
    Absent,
    File(Result<String, String>),
    Directory(Result<String, String>),
}

/// The checksum outcome of a cached tree, as bytes, if anything is cached.
pub open spec fn cached_checksum(c: CachedTree) -> Option<Result<Seq<u8>, Seq<u8>>> {
    match c {
        CachedTree::Absent => None,
        CachedTree::File(r) => Some(
            match r {
                Ok(sum) => Ok(bytes(sum@)),
                Err(why) => Err(bytes(why@)),
            },
        ),
        CachedTree::Directory(r) => Some(
            match r {
                Ok(sum) => Ok(bytes(sum@)),
                Err(why) => Err(bytes(why@)),
            },
        ),
    }
}

pub open spec fn unsupported_lock_msg(version: u32) -> Seq<u8> {
    bytes("unsupported lockfile version "@) + decimal(version as nat)
}

/// `package `NAME`` followed by `tail`.
pub open spec fn package_msg(name: Seq<u8>, tail: Seq<char>) -> Seq<u8> {
    bytes("package `"@) + name + bytes(tail)
}

pub open spec fn invalid_git_tail() -> Seq<char> {
    "` has an invalid Git source"@
}

pub open spec fn unpinned_tail() -> Seq<char> {
    "` is not pinned to an immutable Git revision"@
}

pub open spec fn local_marker_msg(name: Seq<u8>) -> Seq<u8> {
    bytes("local package `"@) + name + bytes("` must use the local revision marker"@)
}

pub open spec fn invalid_checksum_tail() -> Seq<char> {
    "` has an invalid checksum"@
}

pub open spec fn mismatch_msg(name: Seq<u8>) -> Seq<u8> {
    bytes("checksum mismatch for `"@) + name + bytes("`"@)
}

/// The first problem of one locked package, if any: a rejected source, an
/// unsafe Git source, an unpinned Git revision, a local package without the
/// local marker, a malformed checksum, an unreadable cached tree, or a cached
/// tree whose checksum differs from the locked one.
pub open spec fn package_problem(name: Seq<u8>, p: PackageView, cached: CachedTree) -> Option<
    Seq<u8>,
> {
    match spec_source_kind_outcome(p.source) {
        Err(e) => Some(bytes(e)),
        Ok(kind) => if kind == SourceKind::Git && !git_source_ok(p.source) {
            Some(package_msg(name, invalid_git_tail()))
        } else if kind == SourceKind::Git && !spec_revision_valid(p.revision) {
            Some(package_msg(name, unpinned_tail()))
        } else if kind == SourceKind::Path && p.revision != local_marker() {
            Some(local_marker_msg(name))
        } else if p.checksum.len() > 0 && !spec_checksum_valid(p.checksum) {
            Some(package_msg(name, invalid_checksum_tail()))
        } else if p.checksum.len() == 0 {
            None
        } else {
            match cached_checksum(cached) {
                None => None,
                Some(Err(why)) => Some(why),
                Some(Ok(sum)) => if sum != p.checksum {
                    Some(mismatch_msg(name))
                } else {
                    None
                },
            }
        },
    }
}

/// The first problem among the packages `e` from position `i` on.
pub open spec fn first_problem(
    e: Seq<(Seq<u8>, PackageView)>,
    cached: Seq<CachedTree>,
    i: int,
) -> Option<Seq<u8>>
    decreases e.len() - i,
{
    if i < 0 || i >= e.len() {
        None
    } else {
        match package_problem(e[i].0, e[i].1, cached[i]) {
            Some(m) => Some(m),
            None => first_problem(e, cached, i + 1),
        }
    }
}

/// What checking a lock gives: nothing, or the first problem.
pub open spec fn spec_verify(lock: &Lock, cached: Seq<CachedTree>) -> Result<(), Seq<u8>> {
    if !spec_version_supported(lock.version) {
        Err(unsupported_lock_msg(lock.version))
    } else {
        match first_problem(lock.packages.entries(), cached, 0) {
            Some(m) => Err(m),
            None => Ok(()),
        }
    }
}

/// Whether `s` is the local marker `local`.
fn is_local_marker(s: &String) -> (res: bool)
    ensures
        res == (bytes(s@) == local_marker()),
{
    let local: [u8; 5] = [108u8, 111, 99, 97, 108];
    assert(local@ =~= local_marker());
    bytes_equal(s.as_str().as_bytes(), local.as_slice())
}

fn check_package(name: &String, p: &Package, cached: &CachedTree) -> (res: Result<(), String>)
    ensures
        match package_problem(bytes(name@), p@, *cached) {
            Some(m) => res matches Err(e) && bytes(e@) == m,
            None => res is Ok,
        },
{
    match source_kind(p.source.as_str())? {
        SourceKind::Git => {
            if !git_source_valid(p.source.as_str()) {
                return Err(concat3("package `", name.as_str(), "` has an invalid Git source"));
            }
            if !revision_valid(p.revision.as_str()) {
                return Err(
                    concat3(
                        "package `",
                        name.as_str(),
                        "` is not pinned to an immutable Git revision",
                    ),
                );
            }
        },
        SourceKind::Path => {
            if !is_local_marker(&p.revision) {
                return Err(
                    concat3(
                        "local package `",
                        name.as_str(),
                        "` must use the local revision marker",
                    ),
                );
            }
        },
    }
    let has_checksum = byte_len(p.checksum.as_str()) > 0;
    if has_checksum && !checksum_valid(p.checksum.as_str()) {
        return Err(concat3("package `", name.as_str(), "` has an invalid checksum"));
    }
    if has_checksum {
        let outcome = match cached {
            CachedTree::Absent => None,
            CachedTree::File(r) => Some(r),
            CachedTree::Directory(r) => Some(r),
        };
        match outcome {
            None => {},
            Some(Err(why)) => {
                return Err(owned(why.as_str()));
            },
            Some(Ok(sum)) => {
                if !bytes_equal(sum.as_str().as_bytes(), p.checksum.as_str().as_bytes()) {
                    return Err(concat3("checksum mismatch for `", name.as_str(), "`"));
                }
            },
        }
    }
    assert(bytes(p.checksum@).len() == 0 ==> package_problem(bytes(name@), p@, *cached) is None);
    Ok(())
}

/// Checks a lock: its version, and for each package in name order its source,
/// pinned revision, checksum shape, and the checksum of its cached tree.
/// `cached[i]` is what the cache holds for the `i`-th package.
pub fn verify(lock: &Lock, cached: &Vec<CachedTree>) -> (res: Result<(), String>)
    requires
        cached@.len() == lock.packages.entries().len(),
    ensures
        match spec_verify(lock, cached@) {
            Ok(()) => res is Ok,
            Err(m) => res matches Err(e) && bytes(e@) == m,
        },
{
    if !kally_lock_version_supported(lock.version) {
        let mut message = owned("unsupported lockfile version ");
        push_decimal(&mut message, lock.version);
        return Err(message);
    }
    let ghost e = lock.packages.entries();
    let n = lock.packages.len();
    let mut i: usize = 0;
    while i < n
        invariant
            i <= n,
            n == e.len(),
            e == lock.packages.entries(),
            cached@.len() == n,
            spec_version_supported(lock.version),
            first_problem(e, cached@, 0) == first_problem(e, cached@, i as int),
        decreases n - i,
    {
        let name = lock.packages.key_at(i);
        let package = lock.packages.value_at(i);
        let tree = &cached[i];
        assert(*tree == cached@[i as int]);
        let checked = check_package(name, package, tree);
        assert(first_problem(e, cached@, i as int) == match package_problem(
            e[i as int].0,
            e[i as int].1,
            cached@[i as int],
        ) {
            Some(m) => Some(m),
            None => first_problem(e, cached@, i + 1),
        });
        if let Err(message) = checked {
            return Err(message);
        }
        i = i + 1;
    }
    assert(first_problem(e, cached@, n as int) is None);
    Ok(())
}

proof fn lemma_problem_none(
    e: Seq<(Seq<u8>, PackageView)>,
    cached: Seq<CachedTree>,
    from: int,
    i: int,
)
    requires
        0 <= from <= i < e.len(),
        first_problem(e, cached, from) is None,
    ensures
        package_problem(e[i].0, e[i].1, cached[i]) is None,
    decreases i - from,
{
    if from < i {
        lemma_problem_none(e, cached, from + 1, i);
    }
}

/// A lock that passes `verify` has version 1, and each of its packages has an
/// accepted source: a safe Git source pinned to an immutable revision, or a
/// local source with the `local` revision; its checksum is empty or has the
/// checksum shape, and a cached tree of a package with a checksum has that
/// checksum.
pub proof fn lemma_verified_lock(lock: &Lock, cached: Seq<CachedTree>)
    requires
        spec_verify(lock, cached) is Ok,
    ensures
        lock.version == 1,
        forall|i: int|
            0 <= i < lock.packages.entries().len() ==> {
                let p = (#[trigger] lock.packages.entries()[i]).1;
                &&& spec_source_kind_outcome(p.source) is Ok
                &&& spec_source_kind_outcome(p.source) == Ok::<SourceKind, Seq<char>>(
                    SourceKind::Git,
                ) ==> git_source_ok(p.source) && spec_revision_valid(p.revision)
                &&& spec_source_kind_outcome(p.source) == Ok::<SourceKind, Seq<char>>(
                    SourceKind::Path,
                ) ==> p.revision == local_marker()
                &&& p.checksum.len() == 0 || spec_checksum_valid(p.checksum)
                &&& p.checksum.len() > 0 && cached_checksum(cached[i]) is Some ==> cached_checksum(
                    cached[i],
                ) == Some(Ok::<Seq<u8>, Seq<u8>>(p.checksum))
            },
{
    assert forall|i: int| 0 <= i < lock.packages.entries().len() implies {
        let p = (#[trigger] lock.packages.entries()[i]).1;
        &&& spec_source_kind_outcome(p.source) is Ok
        &&& spec_source_kind_outcome(p.source) == Ok::<SourceKind, Seq<char>>(SourceKind::Git)
            ==> git_source_ok(p.source) && spec_revision_valid(p.revision)
        &&& spec_source_kind_outcome(p.source) == Ok::<SourceKind, Seq<char>>(SourceKind::Path)
            ==> p.revision == local_marker()
        &&& p.checksum.len() == 0 || spec_checksum_valid(p.checksum)
        &&& p.checksum.len() > 0 && cached_checksum(cached[i]) is Some ==> cached_checksum(
            cached[i],
        ) == Some(Ok::<Seq<u8>, Seq<u8>>(p.checksum))
    } by {
        lemma_problem_none(lock.packages.entries(), cached, 0, i);
    }
}

/// A lowercase hexadecimal digit: `0` to `9` or `a` to `f`.
pub open spec fn lower_hex_digit(b: u8) -> bool {
    (48 <= b && b <= 57) || (97 <= b && b <= 102)
}

/// Whether a locked package is acceptable: an accepted source; for a Git
/// source a safe one and a commit of 7 to 64 lowercase hexadecimal digits;
/// for a local source the revision `local`; an empty checksum or one of 16
/// lowercase hexadecimal digits; and, when it has a checksum and something
/// is cached, a cached tree with that checksum.
pub open spec fn acceptable_package(p: PackageView, cached: CachedTree) -> bool {
    &&& spec_source_kind_outcome(p.source) is Ok
    &&& spec_source_kind_outcome(p.source) == Ok::<SourceKind, Seq<char>>(SourceKind::Git) ==> {
        &&& git_source_ok(p.source)
        &&& 7 <= p.revision.len() <= 64
        &&& forall|j: int| 0 <= j < p.revision.len() ==> lower_hex_digit(#[trigger] p.revision[j])
    }
    &&& spec_source_kind_outcome(p.source) == Ok::<SourceKind, Seq<char>>(SourceKind::Path)
        ==> p.revision == seq![108u8, 111, 99, 97, 108]
    &&& p.checksum.len() == 0 || (p.checksum.len() == 16 && forall|j: int|
        0 <= j < p.checksum.len() ==> lower_hex_digit(#[trigger] p.checksum[j]))
    &&& p.checksum.len() > 0 && cached_checksum(cached) is Some ==> cached_checksum(cached) == Some(
        Ok::<Seq<u8>, Seq<u8>>(p.checksum),
    )
}

proof fn lemma_no_problem_from(e: Seq<(Seq<u8>, PackageView)>, cached: Seq<CachedTree>, i: int)
    requires
        0 <= i,
        forall|k: int| 0 <= k < e.len() ==> acceptable_package(#[trigger] e[k].1, cached[k]),
    ensures
        first_problem(e, cached, i) is None,
    decreases e.len() - i,
{
    if i < e.len() {
        lemma_no_problem_from(e, cached, i + 1);
        let p = e[i].1;
        assert(acceptable_package(p, cached[i]));
        assert(p.revision == seq![108u8, 111, 99, 97, 108] ==> p.revision == local_marker());
        assert(package_problem(e[i].0, p, cached[i]) is None);
    }
}

/// `verify` accepts every lock of version 1 whose packages are all
/// acceptable, as `acceptable_package` says: with a full Git commit as
/// `git rev-parse` records it, a local revision marker, and a cache that
/// agrees with the locked checksums.
pub proof fn lemma_verify_accepts(lock: &Lock, cached: Seq<CachedTree>)
    requires
        lock.version == 1,
        forall|i: int|
            0 <= i < lock.packages.entries().len() ==> acceptable_package(
                #[trigger] lock.packages.entries()[i].1,
                cached[i],
            ),
    ensures
        spec_verify(lock, cached) is Ok,
{
    lemma_no_problem_from(lock.packages.entries(), cached, 0);
}

} // verus!
