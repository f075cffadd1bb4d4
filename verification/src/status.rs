//! Package health, as `kally status` reports it for each declared or locked
//! package.
use vstd::prelude::*;

use crate::audit::CachedTree;
use crate::package_map::{
    bytes_equal, bytes_lt, lemma_lt_irreflexive, lemma_sorted_entries, strictly_sorted, PackageMap,
};
use crate::model::{
    Lock, Manifest, ManifestPackage, ManifestPackageView, Package, PackageView, ResolutionAction,
};
use crate::rules::{
    lemma_keep_iff_same, resolution_action, spec_resolution, spec_source_kind_outcome,
};
use crate::text::{byte_len, bytes};

verus! {

/// The health of one package.
#[derive(Clone, Copy, Debug, PartialEq, Eq, Structural)]
pub enum PackageStatus {
    Ready,
    Missing,
    ChecksumMismatch,
    Unresolved,
    Diverged,
    Stale,
}

impl PackageStatus {
    /// The word that `kally status` prints.
    pub open spec fn label_text(self) -> Seq<char> {
        match self {
            PackageStatus::Ready => "ready"@,
            PackageStatus::Missing => "missing"@,
            PackageStatus::ChecksumMismatch => "checksum-mismatch"@,
            PackageStatus::Unresolved => "unresolved"@,
            PackageStatus::Diverged => "diverged"@,
            PackageStatus::Stale => "stale"@,
        }
    }

    /// The word that `kally status` prints for this status.
    pub fn label(self) -> (res: &'static str)
        ensures
            res@ == self.label_text(),
    {
        match self {
            PackageStatus::Ready => "ready",
            PackageStatus::Missing => "missing",
            PackageStatus::ChecksumMismatch => "checksum-mismatch",
            PackageStatus::Unresolved => "unresolved",
            PackageStatus::Diverged => "diverged",
            PackageStatus::Stale => "stale",
        }
    }

    /// Whether nothing needs to be done for the package.
    pub fn healthy(self) -> (res: bool)
        ensures
            res == (self == PackageStatus::Ready),
    {
        self == PackageStatus::Ready
    }
}

/// The view of an optional request.
pub open spec fn request_view(r: Option<&ManifestPackage>) -> Option<ManifestPackageView> {
    match r {
        Some(p) => Some(p@),
        None => None,
    }
}

/// The view of an optional lock entry.
pub open spec fn package_view(l: Option<&Package>) -> Option<PackageView> {
    match l {
        Some(p) => Some(p@),
        None => None,
    }
}

/// The health of a package: stale when only locked, unresolved when only
/// requested, diverged when the request and the lock entry disagree (or the
/// resolver refuses them); otherwise missing without a cached directory, a
/// checksum mismatch without a locked checksum or with a cached tree whose
/// checksum differs or cannot be computed, and ready when it matches.
pub open spec fn spec_package_status(
    requested: Option<ManifestPackageView>,
    locked: Option<PackageView>,
    cached: CachedTree,
) -> PackageStatus {
    match requested {
        None => PackageStatus::Stale,
        Some(r) => match locked {
            None => PackageStatus::Unresolved,
            Some(l) => match spec_resolution(r, Some(l)) {
                Ok(ResolutionAction::Keep) => match cached {
                    CachedTree::Directory(outcome) => if l.checksum.len() == 0 {
                        PackageStatus::ChecksumMismatch
                    } else {
                        match outcome {
                            Ok(sum) => if bytes(sum@) == l.checksum {
                                PackageStatus::Ready
                            } else {
                                PackageStatus::ChecksumMismatch
                            },
                            Err(_) => PackageStatus::ChecksumMismatch,
                        }
                    },
                    _ => PackageStatus::Missing,
                },
                Ok(ResolutionAction::Resolve) => PackageStatus::Unresolved,
                _ => PackageStatus::Diverged,
            },
        },
    }
}

/// The health of a package from its request, its lock entry and what the
/// cache holds under its name.
pub fn package_status(
    requested: Option<&ManifestPackage>,
    locked: Option<&Package>,
    cached: &CachedTree,
) -> (res: PackageStatus)
    ensures
        res == spec_package_status(request_view(requested), package_view(locked), *cached),
{
    let (requested, locked) = match (requested, locked) {
        (Some(r), Some(l)) => (r, l),
        (Some(_), None) => {
            return PackageStatus::Unresolved;
        },
        _ => {
            return PackageStatus::Stale;
        },
    };
    match resolution_action(requested, Some(locked)) {
        Ok(ResolutionAction::Keep) => {},
        Ok(ResolutionAction::Resolve) => {
            return PackageStatus::Unresolved;
        },
        _ => {
            return PackageStatus::Diverged;
        },
    }
    match cached {
        CachedTree::Directory(outcome) => {
            if byte_len(locked.checksum.as_str()) == 0 {
                return PackageStatus::ChecksumMismatch;
            }
            match outcome {
                Ok(sum) => {
                    if bytes_equal(sum.as_str().as_bytes(), locked.checksum.as_str().as_bytes()) {
                        PackageStatus::Ready
                    } else {
                        PackageStatus::ChecksumMismatch
                    }
                },
                Err(_) => PackageStatus::ChecksumMismatch,
            }
        },
        _ => PackageStatus::Missing,
    }
}

/// The names of `PackageMap` as byte strings.
pub open spec fn name_bytes(names: Seq<String>) -> Seq<Seq<u8>> {
    names.map_values(|s: String| bytes(s@))
}

/// Every package name that the manifest or the lock knows, each once, in
/// byte order.
pub fn declared_names(manifest: &Manifest, lock: &Lock) -> (res: Vec<String>)
    ensures
        strictly_sorted(name_bytes(res@)),
        forall|k: Seq<u8>|
            name_bytes(res@).contains(k) <==> (manifest.packages.map().contains_key(k)
                || lock.packages.map().contains_key(k)),
{
    let mut all: PackageMap<()> = PackageMap::new();
    let n = manifest.packages.len();
    let mut i: usize = 0;
    while i < n
        invariant
            i <= n,
            n == manifest.packages.entries().len(),
            forall|k: Seq<u8>|
                all.map().contains_key(k) <==> exists|j: int|
                    0 <= j < i && #[trigger] manifest.packages.entries()[j].0 == k,
        decreases n - i,
    {
        let name = manifest.packages.key_at(i);
        all.insert(name.clone(), ());
        proof {
            assert forall|k: Seq<u8>| all.map().contains_key(k) <==> exists|j: int|
                0 <= j < i + 1 && #[trigger] manifest.packages.entries()[j].0 == k by {
                if k == manifest.packages.entries()[i as int].0 {
                    assert(all.map().contains_key(k));
                }
            }
        }
        i = i + 1;
    }
    let m = lock.packages.len();
    let mut i: usize = 0;
    while i < m
        invariant
            i <= m,
            m == lock.packages.entries().len(),
            n == manifest.packages.entries().len(),
            forall|k: Seq<u8>|
                all.map().contains_key(k) <==> (exists|j: int|
                    0 <= j < n && #[trigger] manifest.packages.entries()[j].0 == k) || (exists|j: int|
                    0 <= j < i && #[trigger] lock.packages.entries()[j].0 == k),
        decreases m - i,
    {
        let name = lock.packages.key_at(i);
        all.insert(name.clone(), ());
        proof {
            assert forall|k: Seq<u8>| all.map().contains_key(k) <==> (exists|j: int|
                0 <= j < n && #[trigger] manifest.packages.entries()[j].0 == k) || (exists|j: int|
                0 <= j < i + 1 && #[trigger] lock.packages.entries()[j].0 == k) by {
                if k == lock.packages.entries()[i as int].0 {
                    assert(all.map().contains_key(k));
                }
            }
        }
        i = i + 1;
    }
    let names = all.names();
    proof {
        lemma_sorted_entries(manifest.packages.entries());
        lemma_sorted_entries(lock.packages.entries());
        lemma_sorted_entries(all.entries());
        assert(name_bytes(names@) == all.keys());
        assert forall|k: Seq<u8>| name_bytes(names@).contains(k) <==> (manifest.packages.map().contains_key(k)
            || lock.packages.map().contains_key(k)) by {
            if name_bytes(names@).contains(k) {
                let j = choose|j: int| 0 <= j < name_bytes(names@).len() && name_bytes(names@)[j] == k;
                assert(all.map().contains_key(all.entries()[j].0));
            }
            if manifest.packages.map().contains_key(k) || lock.packages.map().contains_key(k) {
                assert(all.map().contains_key(k));
                let j = choose|j: int| 0 <= j < all.entries().len() && all.entries()[j].0 == k;
                assert(name_bytes(names@)[j] == k);
            }
        }
    }
    names
}

/// A package is ready only when it is both requested and locked, the
/// resolver keeps its exact lock entry, and its cached directory has the
/// locked, non-empty checksum.
pub proof fn lemma_ready_means_exact(
    requested: Option<ManifestPackageView>,
    locked: Option<PackageView>,
    cached: CachedTree,
)
    requires
        spec_package_status(requested, locked, cached) == PackageStatus::Ready,
    ensures
        requested is Some,
        locked is Some,
        spec_resolution(requested->0, locked) == Ok::<ResolutionAction, Seq<char>>(
            ResolutionAction::Keep,
        ),
        locked->0.checksum.len() > 0,
        cached matches CachedTree::Directory(Ok(sum)) && bytes(sum@) == locked->0.checksum,
{
}

/// Whether every package is ready; `kally status` succeeds exactly then.
pub fn all_healthy(statuses: &Vec<PackageStatus>) -> (res: bool)
    ensures
        res == forall|i: int| 0 <= i < statuses@.len() ==> #[trigger] statuses@[i] == PackageStatus::Ready,
{
    let mut i: usize = 0;
    while i < statuses.len()
        invariant
            i <= statuses@.len(),
            forall|j: int| 0 <= j < i ==> #[trigger] statuses@[j] == PackageStatus::Ready,
        decreases statuses@.len() - i,
    {
        if !statuses[i].healthy() {
            return false;
        }
        i = i + 1;
    }
    true
}

/// The value of `name` in `m`, if any.
pub open spec fn lookup<V>(m: Map<Seq<u8>, V>, name: Seq<u8>) -> Option<V> {
    if m.contains_key(name) {
        Some(m[name])
    } else {
        None
    }
}

/// The health of each named package, from the manifest, the lock and what
/// the cache holds under each name (`cached[i]` for `names[i]`).
pub fn package_statuses(
    manifest: &Manifest,
    lock: &Lock,
    names: &Vec<String>,
    cached: &Vec<CachedTree>,
) -> (res: Vec<PackageStatus>)
    requires
        names@.len() == cached@.len(),
    ensures
        res@.len() == names@.len(),
        forall|i: int|
            0 <= i < names@.len() ==> #[trigger] res@[i] == spec_package_status(
                lookup(manifest.packages.map(), bytes(names@[i]@)),
                lookup(lock.packages.map(), bytes(names@[i]@)),
                cached@[i],
            ),
{
    let mut out: Vec<PackageStatus> = Vec::new();
    let mut i: usize = 0;
    while i < names.len()
        invariant
            i <= names@.len(),
            names@.len() == cached@.len(),
            out@.len() == i,
            forall|j: int|
                0 <= j < i ==> #[trigger] out@[j] == spec_package_status(
                    lookup(manifest.packages.map(), bytes(names@[j]@)),
                    lookup(lock.packages.map(), bytes(names@[j]@)),
                    cached@[j],
                ),
        decreases names@.len() - i,
    {
        let name = names[i].as_str();
        let requested = manifest.packages.get(name);
        let locked = lock.packages.get(name);
        assert(request_view(requested) == lookup(manifest.packages.map(), bytes(names@[i as int]@)));
        assert(package_view(locked) == lookup(lock.packages.map(), bytes(names@[i as int]@)));
        out.push(package_status(requested, locked, &cached[i]));
        i = i + 1;
    }
    out
}

/// `kally status` succeeds exactly when every package that the manifest or
/// the lock names is ready: for the names that `declared_names` gives, each
/// once, and their statuses (as `package_statuses` gives them), all statuses
/// are ready exactly when each declared name has a ready status.
pub proof fn lemma_status_success(
    manifest: &Manifest,
    lock: &Lock,
    names: Seq<String>,
    statuses: Seq<PackageStatus>,
)
    requires
        strictly_sorted(name_bytes(names)),
        forall|k: Seq<u8>|
            name_bytes(names).contains(k) <==> (manifest.packages.map().contains_key(k)
                || lock.packages.map().contains_key(k)),
        statuses.len() == names.len(),
    ensures
        (forall|i: int| 0 <= i < statuses.len() ==> #[trigger] statuses[i] == PackageStatus::Ready)
            <==> (forall|k: Seq<u8>|
            manifest.packages.map().contains_key(k) || lock.packages.map().contains_key(k)
                ==> exists|i: int|
                0 <= i < names.len() && bytes(names[i]@) == k && #[trigger] statuses[i]
                    == PackageStatus::Ready),
{
    let nb = name_bytes(names);
    if forall|i: int| 0 <= i < statuses.len() ==> #[trigger] statuses[i] == PackageStatus::Ready {
        assert forall|k: Seq<u8>|
            manifest.packages.map().contains_key(k) || lock.packages.map().contains_key(k)
                implies exists|i: int|
            0 <= i < names.len() && bytes(names[i]@) == k && #[trigger] statuses[i]
                == PackageStatus::Ready by {
            assert(nb.contains(k));
            let i = choose|i: int| 0 <= i < nb.len() && nb[i] == k;
            assert(statuses[i] == PackageStatus::Ready);
        }
    }
    if forall|k: Seq<u8>|
        manifest.packages.map().contains_key(k) || lock.packages.map().contains_key(k)
            ==> exists|i: int|
            0 <= i < names.len() && bytes(names[i]@) == k && #[trigger] statuses[i]
                == PackageStatus::Ready {
        assert forall|i: int| 0 <= i < statuses.len() implies #[trigger] statuses[i]
            == PackageStatus::Ready by {
            let k = nb[i];
            assert(nb.contains(k));
            let j = choose|j: int|
                0 <= j < names.len() && bytes(names[j]@) == k && #[trigger] statuses[j]
                    == PackageStatus::Ready;
            if j != i {
                assert(nb[j] == k);
                if i < j {
                    assert(bytes_lt(nb[i], nb[j]));
                } else {
                    assert(bytes_lt(nb[j], nb[i]));
                }
                lemma_lt_irreflexive(k);
            }
        }
    }
}

/// A package that is requested with exactly its locked source and reference
/// (an accepted source, a reference of at most 256 bytes), and whose cached
/// directory has its non-empty locked checksum, is ready.
pub proof fn lemma_exact_is_ready(requested: ManifestPackageView, locked: PackageView, sum: String)
    requires
        requested.source == locked.source,
        requested.reference == locked.reference,
        spec_source_kind_outcome(locked.source) is Ok,
        locked.reference.len() <= 256,
        locked.checksum.len() > 0,
        bytes(sum@) == locked.checksum,
    ensures
        spec_package_status(Some(requested), Some(locked), CachedTree::Directory(Ok(sum)))
            == PackageStatus::Ready,
{
    lemma_keep_iff_same(requested, locked);
}

} // verus!
