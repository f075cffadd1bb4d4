//! What `kally sync` demands of the package cache: the offline check of an
//! exactly cached set, the tolerance of a stale cache before materializing,
//! and the checksums recorded after it.
use vstd::prelude::*;

use crate::audit::{spec_verify, verify, CachedTree};
use crate::output::{concat2, concat3, push_str};
use crate::package_map::bytes_equal;
use crate::model::{Lock, Package, PackageView, SourceKind};
use crate::rules::{source_kind, spec_source_kind_outcome};
use crate::sync::named;
use crate::text::{byte_len, bytes};

verus! {

/// `lockfile: ` before a lock problem.
pub open spec fn lockfile_msg(m: Seq<u8>) -> Seq<u8> {
    bytes("lockfile: "@) + m
}

/// `package `NAME`: ` before `why`.
pub open spec fn package_error(name: Seq<u8>, why: Seq<u8>) -> Seq<u8> {
    named(name, "`: "@) + why
}

pub open spec fn offline_checksum_msg(name: Seq<u8>) -> Seq<u8> {
    named(
        name,
        "` is missing its locked checksum; offline sync requires a complete lockfile"@,
    )
}

pub open spec fn not_cached_msg(name: Seq<u8>) -> Seq<u8> {
    named(
        name,
        "` is not present in the local cache; run `kally sync --locked` while online"@,
    )
}

pub open spec fn locked_checksum_msg(name: Seq<u8>) -> Seq<u8> {
    named(name, "` is missing its locked checksum; run `kally sync` once"@)
}

pub open spec fn cache_mismatch_msg(name: Seq<u8>) -> Seq<u8> {
    named(name, "`: checksum mismatch"@)
}

/// The bytes of `checksum mismatch`.
pub open spec fn mismatch_words() -> Seq<u8> {
    seq![99u8, 104, 101, 99, 107, 115, 117, 109, 32, 109, 105, 115, 109, 97, 116, 99, 104]
}

/// Why a package cannot be used offline: it has no locked checksum, no cached
/// directory, or a cached directory whose checksum cannot be computed or
/// differs from the locked one.
pub open spec fn offline_problem(name: Seq<u8>, p: PackageView, cached: CachedTree) -> Option<
    Seq<u8>,
> {
    if p.checksum.len() == 0 {
        Some(offline_checksum_msg(name))
    } else {
        match cached {
            CachedTree::Directory(Err(why)) => Some(package_error(name, bytes(why@))),
            CachedTree::Directory(Ok(sum)) => if bytes(sum@) != p.checksum {
                Some(cache_mismatch_msg(name))
            } else {
                None
            },
            _ => Some(not_cached_msg(name)),
        }
    }
}

/// The first package, from position `i` on, that cannot be used offline.
pub open spec fn first_offline_problem(
    e: Seq<(Seq<u8>, PackageView)>,
    cached: Seq<CachedTree>,
    i: int,
) -> Option<Seq<u8>>
    decreases e.len() - i,
{
    if i < 0 || i >= e.len() {
        None
    } else {
        match offline_problem(e[i].0, e[i].1, cached[i]) {
            Some(m) => Some(m),
            None => first_offline_problem(e, cached, i + 1),
        }
    }
}

/// What the offline check gives: the lock problem, then the first package that
/// cannot be used offline, else the number of packages.
pub open spec fn spec_check_offline(lock: &Lock, cached: Seq<CachedTree>) -> Result<nat, Seq<u8>> {
    match spec_verify(lock, cached) {
        Err(m) => Err(lockfile_msg(m)),
        Ok(()) => match first_offline_problem(lock.packages.entries(), cached, 0) {
            Some(m) => Err(m),
            None => Ok(lock.packages.entries().len()),
        },
    }
}

/// Checks an exactly locked set against the cache without changing anything:
/// the lock must pass `verify`, and every package needs a locked checksum and
/// a cached directory with that checksum. `cached[i]` is what the cache holds
/// for the `i`-th package. Gives the number of packages.
pub fn check_offline(lock: &Lock, cached: &Vec<CachedTree>) -> (res: Result<usize, String>)
    requires
        cached@.len() == lock.packages.entries().len(),
    ensures
        match spec_check_offline(lock, cached@) {
            Ok(n) => res == Ok::<usize, String>(n as usize),
            Err(m) => res matches Err(e) && bytes(e@) == m,
        },
{
    if let Err(e) = verify(lock, cached) {
        return Err(concat2("lockfile: ", e.as_str()));
    }
    let ghost e = lock.packages.entries();
    let n = lock.packages.len();
    let mut i: usize = 0;
    while i < n
        invariant
            i <= n,
            n == e.len(),
            e == lock.packages.entries(),
            cached@.len() == n,
            spec_verify(lock, cached@) is Ok,
            first_offline_problem(e, cached@, 0) == first_offline_problem(e, cached@, i as int),
        decreases n - i,
    {
        let name = lock.packages.key_at(i);
        let p = lock.packages.value_at(i);
        let tree = &cached[i];
        assert(*tree == cached@[i as int]);
        if byte_len(p.checksum.as_str()) == 0 {
            return Err(
                concat3(
                    "package `",
                    name.as_str(),
                    "` is missing its locked checksum; offline sync requires a complete lockfile",
                ),
            );
        }
        match tree {
            CachedTree::Directory(Err(why)) => {
                let mut message = concat3("package `", name.as_str(), "`: ");
                push_str(&mut message, why.as_str());
                return Err(message);
            },
            CachedTree::Directory(Ok(sum)) => {
                if !bytes_equal(sum.as_str().as_bytes(), p.checksum.as_str().as_bytes()) {
                    return Err(concat3("package `", name.as_str(), "`: checksum mismatch"));
                }
            },
            _ => {
                return Err(
                    concat3(
                        "package `",
                        name.as_str(),
                        "` is not present in the local cache; run `kally sync --locked` while online",
                    ),
                );
            },
        }
        i = i + 1;
    }
    Ok(n)
}

/// Whether `needle` occurs in `hay`.
pub open spec fn occurs(hay: Seq<u8>, needle: Seq<u8>) -> bool {
    exists|i: int|
        0 <= i && i + needle.len() <= hay.len() && #[trigger] hay.subrange(i, i + needle.len())
            == needle
}

/// Whether `needle` occurs in `hay` at `at`.
fn occurs_at(hay: &[u8], at: usize, needle: &[u8]) -> (res: bool)
    requires
        at + needle@.len() <= hay@.len(),
    ensures
        res == (hay@.subrange(at as int, at + needle@.len()) == needle@),
{
    let size = hay.len();
    let mut j: usize = 0;
    while j < needle.len()
        invariant
            j <= needle@.len(),
            at + needle@.len() <= hay@.len(),
            size == hay@.len(),
            forall|k: int| 0 <= k < j ==> hay@[at + k] == needle@[k],
        decreases needle@.len() - j,
    {
        if hay[at + j] != needle[j] {
            assert(hay@.subrange(at as int, at + needle@.len())[j as int] != needle@[j as int]);
            return false;
        }
        j = j + 1;
    }
    assert(hay@.subrange(at as int, at + needle@.len()) =~= needle@);
    true
}

/// Whether `needle` occurs anywhere in `hay`.
fn occurs_in(hay: &[u8], needle: &[u8]) -> (res: bool)
    ensures
        res == occurs(hay@, needle@),
{
    if needle.len() > hay.len() {
        return false;
    }
    let last = hay.len() - needle.len();
    let mut at: usize = 0;
    while at < last
        invariant
            at <= last,
            last + needle@.len() == hay@.len(),
            forall|i: int| 0 <= i < at ==> #[trigger] hay@.subrange(i, i + needle@.len()) != needle@,
        decreases last - at,
    {
        if occurs_at(hay, at, needle) {
            return true;
        }
        at = at + 1;
    }
    occurs_at(hay, last, needle)
}

/// What checking the lock before materializing gives: a stale cache (a
/// checksum mismatch) is tolerated, since materializing replaces it; any other
/// lock problem is reported.
pub open spec fn spec_sync_preflight(lock: &Lock, cached: Seq<CachedTree>) -> Result<(), Seq<u8>> {
    match spec_verify(lock, cached) {
        Ok(()) => Ok(()),
        Err(m) => if occurs(m, mismatch_words()) {
            Ok(())
        } else {
            Err(lockfile_msg(m))
        },
    }
}

/// Checks the lock before materializing, tolerating a checksum mismatch of
/// the cache. `cached[i]` is what the cache holds for the `i`-th package.
pub fn sync_preflight(lock: &Lock, cached: &Vec<CachedTree>) -> (res: Result<(), String>)
    requires
        cached@.len() == lock.packages.entries().len(),
    ensures
        match spec_sync_preflight(lock, cached@) {
            Ok(()) => res is Ok,
            Err(m) => res matches Err(e) && bytes(e@) == m,
        },
{
    match verify(lock, cached) {
        Ok(()) => Ok(()),
        Err(e) => {
            let words: [u8; 17] = [
                99u8,
                104,
                101,
                99,
                107,
                115,
                117,
                109,
                32,
                109,
                105,
                115,
                109,
                97,
                116,
                99,
                104,
            ];
            assert(words@ =~= mismatch_words());
            if occurs_in(e.as_str().as_bytes(), words.as_slice()) {
                Ok(())
            } else {
                Err(concat2("lockfile: ", e.as_str()))
            }
        },
    }
}

/// The source kind under which a locked package is materialized. Locked sync
/// refuses a package without a locked checksum first.
pub fn sync_source(name: &str, p: &Package, locked: bool) -> (res: Result<SourceKind, String>)
    ensures
        if locked && p@.checksum.len() == 0 {
            res matches Err(e) && bytes(e@) == locked_checksum_msg(bytes(name@))
        } else {
            match spec_source_kind_outcome(p@.source) {
                Ok(k) => res == Ok::<SourceKind, String>(k),
                Err(why) => res matches Err(e) && bytes(e@) == package_error(bytes(name@), bytes(why)),
            }
        },
{
    if locked && byte_len(p.checksum.as_str()) == 0 {
        return Err(
            concat3("package `", name, "` is missing its locked checksum; run `kally sync` once"),
        );
    }
    match source_kind(p.source.as_str()) {
        Ok(kind) => Ok(kind),
        Err(why) => {
            let mut message = concat3("package `", name, "`: ");
            push_str(&mut message, why.as_str());
            Err(message)
        },
    }
}

/// Compares a materialized tree's checksum `got` with the locked `expected`
/// one; an empty locked checksum accepts any tree.
pub fn check_materialized(name: &str, expected: &str, got: &str) -> (res: Result<(), String>)
    ensures
        res is Ok <==> (bytes(expected@).len() == 0 || bytes(got@) == bytes(expected@)),
        res matches Err(e) ==> bytes(e@) == cache_mismatch_msg(bytes(name@)),
{
    if byte_len(expected) > 0 && !bytes_equal(got.as_bytes(), expected.as_bytes()) {
        return Err(concat3("package `", name, "`: checksum mismatch"));
    }
    Ok(())
}

/// The first package, from position `i` on, whose cached directory cannot be
/// hashed.
pub open spec fn first_unhashable(
    e: Seq<(Seq<u8>, PackageView)>,
    cached: Seq<CachedTree>,
    i: int,
) -> Option<Seq<u8>>
    decreases e.len() - i,
{
    if i < 0 || i >= e.len() {
        None
    } else {
        match cached[i] {
            CachedTree::Directory(Err(why)) => Some(package_error(e[i].0, bytes(why@))),
            _ => first_unhashable(e, cached, i + 1),
        }
    }
}

/// A lock entry with the checksum of its cached directory, if there is one.
pub open spec fn recorded(p: PackageView, cached: CachedTree) -> PackageView {
    match cached {
        CachedTree::Directory(Ok(sum)) => PackageView { checksum: bytes(sum@), ..p },
        _ => p,
    }
}

/// Whether any package has a cached directory.
pub open spec fn any_directory(cached: Seq<CachedTree>) -> bool {
    exists|i: int| 0 <= i < cached.len() && #[trigger] cached[i] is Directory
}

/// Records the checksum of each package's cached directory in the lock, and
/// tells whether there was any. When a directory cannot be hashed, the lock
/// stays as it was and the error names the package. `cached[i]` is what the
/// cache holds for the `i`-th package.
pub fn record_checksums(lock: &mut Lock, cached: &Vec<CachedTree>) -> (res: Result<bool, String>)
    requires
        cached@.len() == old(lock).packages.entries().len(),
    ensures
        final(lock).version == old(lock).version,
        match first_unhashable(old(lock).packages.entries(), cached@, 0) {
            Some(m) => res matches Err(e) && bytes(e@) == m && final(lock).packages.entries()
                == old(lock).packages.entries(),
            None => res == Ok::<bool, String>(any_directory(cached@))
                && final(lock).packages.entries() == Seq::new(
                old(lock).packages.entries().len(),
                |i: int|
                    (
                        old(lock).packages.entries()[i].0,
                        recorded(old(lock).packages.entries()[i].1, cached@[i]),
                    ),
            ),
        },
{
    let ghost e = lock.packages.entries();
    let n = lock.packages.len();
    let mut i: usize = 0;
    while i < n
        invariant
            i <= n,
            n == e.len(),
            e == lock.packages.entries(),
            cached@.len() == n,
            first_unhashable(e, cached@, 0) == first_unhashable(e, cached@, i as int),
        decreases n - i,
    {
        let tree = &cached[i];
        assert(*tree == cached@[i as int]);
        if let CachedTree::Directory(Err(why)) = tree {
            let mut message = concat3("package `", lock.packages.key_at(i).as_str(), "`: ");
            push_str(&mut message, why.as_str());
            return Err(message);
        }
        i = i + 1;
    }
    let mut changed = false;
    let mut i: usize = 0;
    while i < n
        invariant
            i <= n,
            n == e.len(),
            cached@.len() == n,
            lock.version == old(lock).version,
            lock.packages.entries().len() == n,
            forall|j: int|
                0 <= j < n ==> #[trigger] lock.packages.entries()[j] == (if j < i {
                    (e[j].0, recorded(e[j].1, cached@[j]))
                } else {
                    e[j]
                }),
            changed == exists|j: int| 0 <= j < i && #[trigger] cached@[j] is Directory,
        decreases n - i,
    {
        let tree = &cached[i];
        assert(*tree == cached@[i as int]);
        if let CachedTree::Directory(outcome) = tree {
            if let Ok(sum) = outcome {
                let p = lock.packages.value_at(i);
                let updated = Package {
                    source: p.source.clone(),
                    reference: p.reference.clone(),
                    revision: p.revision.clone(),
                    checksum: sum.clone(),
                };
                lock.packages.replace_at(i, updated);
            }
            changed = true;
        }
        proof {
            if cached@[i as int] is Directory {
                assert(exists|j: int| 0 <= j < i + 1 && #[trigger] cached@[j] is Directory);
            } else if exists|j: int| 0 <= j < i + 1 && #[trigger] cached@[j] is Directory {
                let j = choose|j: int| 0 <= j < i + 1 && #[trigger] cached@[j] is Directory;
                assert(j < i);
            }
        }
        i = i + 1;
    }
    assert(lock.packages.entries() =~= Seq::new(
        e.len(),
        |i: int| (e[i].0, recorded(e[i].1, cached@[i])),
    ));
    Ok(changed)
}

proof fn lemma_offline_none(
    e: Seq<(Seq<u8>, PackageView)>,
    cached: Seq<CachedTree>,
    from: int,
    i: int,
)
    requires
        0 <= from <= i < e.len(),
        first_offline_problem(e, cached, from) is None,
    ensures
        offline_problem(e[i].0, e[i].1, cached[i]) is None,
    decreases i - from,
{
    if from < i {
        lemma_offline_none(e, cached, from + 1, i);
    }
}

/// An offline sync succeeds only when the lock passes `verify` and every
/// locked package has a checksum and a cached directory with exactly that
/// checksum; it then reports every package.
pub proof fn lemma_offline_means_cached(lock: &Lock, cached: Seq<CachedTree>)
    requires
        spec_check_offline(lock, cached) is Ok,
    ensures
        spec_verify(lock, cached) is Ok,
        spec_check_offline(lock, cached) == Ok::<nat, Seq<u8>>(lock.packages.entries().len()),
        forall|i: int|
            0 <= i < lock.packages.entries().len() ==> {
                &&& (#[trigger] lock.packages.entries()[i]).1.checksum.len() > 0
                &&& cached[i] matches CachedTree::Directory(Ok(sum)) && bytes(sum@)
                    == lock.packages.entries()[i].1.checksum
            },
{
    assert forall|i: int| 0 <= i < lock.packages.entries().len() implies {
        &&& (#[trigger] lock.packages.entries()[i]).1.checksum.len() > 0
        &&& cached[i] matches CachedTree::Directory(Ok(sum)) && bytes(sum@)
            == lock.packages.entries()[i].1.checksum
    } by {
        lemma_offline_none(lock.packages.entries(), cached, 0, i);
    }
}

} // verus!
