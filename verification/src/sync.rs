//! The decisions of `kally sync`: reconciling the manifest with the lock,
//! accepting only an exactly locked set, checking the cache, and recording
//! the checksums of materialized trees.
use vstd::prelude::*;

use crate::output::{concat3, local_text, owned, push_str};
use crate::package_map::{lemma_sorted_entries, PackageMap};
use crate::model::{
    Lock, Manifest, ManifestPackage, ManifestPackageView, Package, PackageView, ResolutionAction,
    SourceKind,
};
use crate::policy::local_marker;
use crate::rules::{resolution_action, source_kind, spec_resolution, spec_source_kind_outcome};
use crate::status::package_view;
use crate::text::bytes;

verus! {

/// The lock entry of `name` in a lock map, if any.
pub open spec fn lock_entry(locked: Map<Seq<u8>, PackageView>, name: Seq<u8>) -> Option<PackageView> {
    if locked.contains_key(name) {
        Some(locked[name])
    } else {
        None
    }
}

/// `package `NAME`` followed by `tail`.
pub open spec fn named(name: Seq<u8>, tail: Seq<char>) -> Seq<u8> {
    bytes("package `"@) + name + bytes(tail)
}

pub open spec fn not_locked_msg(name: Seq<u8>) -> Seq<u8> {
    named(name, "` is not exactly locked; run `kally sync` or `kally update "@) + name + bytes(
        "`"@,
    )
}

pub open spec fn lock_only_msg(name: Seq<u8>) -> Seq<u8> {
    named(name, "` is only present in kally.lock; run `kally sync` to reconcile it"@)
}

pub open spec fn diverged_msg(name: Seq<u8>) -> Seq<u8> {
    named(name, "` differs from kally.toml; run `kally update "@) + name + bytes("`"@)
}

/// The first request, from position `i` on, that the resolver refuses or does
/// not keep as locked.
pub open spec fn first_unlocked(
    m: Seq<(Seq<u8>, ManifestPackageView)>,
    locked: Map<Seq<u8>, PackageView>,
    i: int,
) -> Option<Seq<u8>>
    decreases m.len() - i,
{
    if i < 0 || i >= m.len() {
        None
    } else {
        match spec_resolution(m[i].1, lock_entry(locked, m[i].0)) {
            Err(e) => Some(bytes(e)),
            Ok(ResolutionAction::Keep) => first_unlocked(m, locked, i + 1),
            Ok(_) => Some(not_locked_msg(m[i].0)),
        }
    }
}

/// The first lock entry, from position `i` on, that the manifest does not
/// request.
pub open spec fn first_lock_only(
    l: Seq<(Seq<u8>, PackageView)>,
    declared: Map<Seq<u8>, ManifestPackageView>,
    i: int,
) -> Option<Seq<u8>>
    decreases l.len() - i,
{
    if i < 0 || i >= l.len() {
        None
    } else if !declared.contains_key(l[i].0) {
        Some(lock_only_msg(l[i].0))
    } else {
        first_lock_only(l, declared, i + 1)
    }
}

/// What checking an exactly locked set gives: the first request that is not
/// kept as locked, then the first lock entry that nothing requests.
pub open spec fn spec_check_locked(manifest: &Manifest, lock: &Lock) -> Result<(), Seq<u8>> {
    match first_unlocked(manifest.packages.entries(), lock.packages.map(), 0) {
        Some(m) => Err(m),
        None => match first_lock_only(lock.packages.entries(), manifest.packages.map(), 0) {
            Some(m) => Err(m),
            None => Ok(()),
        },
    }
}

/// Accepts a lock for `sync --locked` only when every request of the manifest
/// keeps its exact lock entry and the lock holds nothing else; never resolves.
pub fn check_locked(manifest: &Manifest, lock: &Lock) -> (res: Result<(), String>)
    ensures
        match spec_check_locked(manifest, lock) {
            Ok(()) => res is Ok,
            Err(m) => res matches Err(e) && bytes(e@) == m,
        },
{
    let ghost me = manifest.packages.entries();
    let ghost lm = lock.packages.map();
    let n = manifest.packages.len();
    let mut i: usize = 0;
    while i < n
        invariant
            i <= n,
            n == me.len(),
            me == manifest.packages.entries(),
            lm == lock.packages.map(),
            first_unlocked(me, lm, 0) == first_unlocked(me, lm, i as int),
        decreases n - i,
    {
        let name = manifest.packages.key_at(i);
        let requested = manifest.packages.value_at(i);
        let locked = lock.packages.get(name.as_str());
        assert(package_view(locked) == lock_entry(lm, me[i as int].0));
        match resolution_action(requested, locked) {
            Err(e) => {
                return Err(e);
            },
            Ok(ResolutionAction::Keep) => {},
            Ok(_) => {
                let mut message = concat3(
                    "package `",
                    name.as_str(),
                    "` is not exactly locked; run `kally sync` or `kally update ",
                );
                push_str(&mut message, name.as_str());
                push_str(&mut message, "`");
                return Err(message);
            },
        }
        i = i + 1;
    }
    let ghost le = lock.packages.entries();
    let ghost mm = manifest.packages.map();
    let m = lock.packages.len();
    let mut j: usize = 0;
    while j < m
        invariant
            j <= m,
            m == le.len(),
            le == lock.packages.entries(),
            mm == manifest.packages.map(),
            first_unlocked(me, lm, 0) is None,
            me == manifest.packages.entries(),
            lm == lock.packages.map(),
            first_lock_only(le, mm, 0) == first_lock_only(le, mm, j as int),
        decreases m - j,
    {
        let name = lock.packages.key_at(j);
        if !manifest.packages.contains_key(name.as_str()) {
            return Err(
                concat3(
                    "package `",
                    name.as_str(),
                    "` is only present in kally.lock; run `kally sync` to reconcile it",
                ),
            );
        }
        j = j + 1;
    }
    Ok(())
}

/// Locked sync accepts a manifest only when both files name the same
/// packages and the resolver keeps every request's exact lock entry.
pub proof fn lemma_locked_means_exact(manifest: &Manifest, lock: &Lock)
    requires
        manifest.packages.wf(),
        lock.packages.wf(),
        spec_check_locked(manifest, lock) is Ok,
    ensures
        manifest.packages.map().dom() == lock.packages.map().dom(),
        forall|name: Seq<u8>|
            #[trigger] manifest.packages.map().contains_key(name) ==> spec_resolution(
                manifest.packages.map()[name],
                Some(lock.packages.map()[name]),
            ) == Ok::<ResolutionAction, Seq<char>>(ResolutionAction::Keep),
{
    let me = manifest.packages.entries();
    let le = lock.packages.entries();
    let lm = lock.packages.map();
    let mm = manifest.packages.map();
    lemma_sorted_entries(me);
    lemma_sorted_entries(le);
    assert forall|i: int| 0 <= i < me.len() implies spec_resolution(
        me[i].1,
        lock_entry(lm, me[i].0),
    ) == Ok::<ResolutionAction, Seq<char>>(ResolutionAction::Keep) by {
        lemma_unlocked_none(me, lm, 0, i);
    }
    assert forall|i: int| 0 <= i < le.len() implies mm.contains_key(le[i].0) by {
        lemma_lock_only_none(le, mm, 0, i);
    }
    assert forall|name: Seq<u8>| #[trigger] mm.contains_key(name) implies lm.contains_key(name)
        && spec_resolution(mm[name], Some(lm[name])) == Ok::<ResolutionAction, Seq<char>>(
        ResolutionAction::Keep,
    ) by {
        let i = choose|i: int| 0 <= i < me.len() && me[i].0 == name;
        assert(spec_resolution(me[i].1, lock_entry(lm, me[i].0)) == Ok::<
            ResolutionAction,
            Seq<char>,
        >(ResolutionAction::Keep));
        assert(mm[name] == me[i].1);
    }
    assert forall|name: Seq<u8>| #[trigger] lm.contains_key(name) implies mm.contains_key(name) by {
        let i = choose|i: int| 0 <= i < le.len() && le[i].0 == name;
    }
    assert(mm.dom() =~= lm.dom());
}

proof fn lemma_unlocked_none(
    m: Seq<(Seq<u8>, ManifestPackageView)>,
    locked: Map<Seq<u8>, PackageView>,
    from: int,
    i: int,
)
    requires
        0 <= from <= i < m.len(),
        first_unlocked(m, locked, from) is None,
    ensures
        spec_resolution(m[i].1, lock_entry(locked, m[i].0)) == Ok::<ResolutionAction, Seq<char>>(
            ResolutionAction::Keep,
        ),
    decreases i - from,
{
    if from < i {
        lemma_unlocked_none(m, locked, from + 1, i);
    }
}

proof fn lemma_lock_only_none(
    l: Seq<(Seq<u8>, PackageView)>,
    declared: Map<Seq<u8>, ManifestPackageView>,
    from: int,
    i: int,
)
    requires
        0 <= from <= i < l.len(),
        first_lock_only(l, declared, from) is None,
    ensures
        declared.contains_key(l[i].0),
    decreases i - from,
{
    if from < i {
        lemma_lock_only_none(l, declared, from + 1, i);
    }
}

/// What reconciling does with one request.
#[derive(Debug)]
pub enum ReconcileStep {
    /// The lock entry is kept as it is.
    Keep,
    /// The request is resolved for the first time; its source has this kind.
    Resolve(SourceKind),
    /// Reconciling stops with this error.
    Fail(String),
}

/// The reconciling decision for a request and its lock entry: keep it,
/// resolve it, or stop because the resolver refuses it or because it diverges
/// from its lock entry (only an explicit update may change a locked package).
pub fn reconcile_step(name: &str, requested: &ManifestPackage, locked: Option<&Package>) -> (res:
    ReconcileStep)
    ensures
        match spec_resolution(requested@, package_view(locked)) {
            Err(e) => res matches ReconcileStep::Fail(m) && m@ == e,
            Ok(ResolutionAction::Keep) => res is Keep,
            Ok(ResolutionAction::Resolve) => res matches ReconcileStep::Resolve(k)
                && spec_source_kind_outcome(requested@.source) == Ok::<SourceKind, Seq<char>>(k),
            Ok(ResolutionAction::Diverged) => res matches ReconcileStep::Fail(m) && bytes(m@)
                == diverged_msg(bytes(name@)),
        },
{
    match resolution_action(requested, locked) {
        Err(e) => ReconcileStep::Fail(e),
        Ok(ResolutionAction::Keep) => ReconcileStep::Keep,
        Ok(ResolutionAction::Resolve) => match source_kind(requested.source.as_str()) {
            Ok(kind) => ReconcileStep::Resolve(kind),
            Err(e) => ReconcileStep::Fail(e),
        },
        Ok(ResolutionAction::Diverged) => {
            let mut message = concat3(
                "package `",
                name,
                "` differs from kally.toml; run `kally update ",
            );
            push_str(&mut message, name);
            push_str(&mut message, "`");
            ReconcileStep::Fail(message)
        },
    }
}

/// The lock entry that resolving a request gives. A local source is locked
/// with the `local` reference and revision and the checksum of its tree; a
/// Git source with its reference, the resolved commit and no checksum yet.
pub open spec fn spec_resolved(
    source: Seq<u8>,
    reference: Seq<u8>,
    kind: SourceKind,
    resolved: Seq<u8>,
) -> PackageView {
    match kind {
        SourceKind::Path => PackageView {
            source,
            reference: local_marker(),
            revision: local_marker(),
            checksum: resolved,
        },
        SourceKind::Git => PackageView {
            source,
            reference,
            revision: resolved,
            checksum: Seq::empty(),
        },
    }
}

/// The lock entry for a request of `kind` whose resolution gave `resolved`:
/// the tree checksum of a local source, the commit of a Git source.
pub fn resolved_package(source: &str, reference: &str, kind: SourceKind, resolved: String) -> (res:
    Package)
    ensures
        res@ == spec_resolved(bytes(source@), bytes(reference@), kind, bytes(resolved@)),
{
    match kind {
        SourceKind::Path => Package {
            source: owned(source),
            reference: local_text(),
            revision: local_text(),
            checksum: resolved,
        },
        SourceKind::Git => {
            let checksum = String::new();
            assert(bytes(checksum@) =~= Seq::<u8>::empty());
            Package { source: owned(source), reference: owned(reference), revision: resolved, checksum }
        },
    }
}

/// Drops the lock entries that the manifest no longer requests, and tells
/// whether any was dropped.
pub fn retain_declared(lock: &mut Lock, manifest: &Manifest) -> (changed: bool)
    ensures
        final(lock).version == old(lock).version,
        final(lock).packages.map() == old(lock).packages.map().restrict(
            manifest.packages.map().dom(),
        ),
        changed == exists|name: Seq<u8>|
            old(lock).packages.map().contains_key(name) && !manifest.packages.map().contains_key(
                name,
            ),
{
    let ghost before = lock.packages.map();
    let ghost le = lock.packages.entries();
    let ghost declared = manifest.packages.map();
    let n = lock.packages.len();
    let mut kept: PackageMap<Package> = PackageMap::new();
    let mut changed = false;
    let mut i: usize = 0;
    while i < n
        invariant
            i <= n,
            n == le.len(),
            le == lock.packages.entries(),
            before == lock.packages.map(),
            declared == manifest.packages.map(),
            lock.packages.wf(),
            forall|k: Seq<u8>|
                #[trigger] kept.map().contains_key(k) <==> (exists|j: int|
                    0 <= j < i && le[j].0 == k && declared.contains_key(k)),
            forall|k: Seq<u8>| #[trigger] kept.map().contains_key(k) ==> kept.map()[k] == before[k],
            changed == exists|j: int| 0 <= j < i && !declared.contains_key(#[trigger] le[j].0),
        decreases n - i,
    {
        proof {
            lemma_sorted_entries(le);
        }
        let name = lock.packages.key_at(i);
        if manifest.packages.contains_key(name.as_str()) {
            let value = lock.packages.value_at(i).clone();
            let key = name.clone();
            proof {
                lemma_sorted_entries(le);
                assert(before.contains_key(le[i as int].0));
                assert(value@ == before[bytes(key@)]);
            }
            kept.insert(key, value);
        } else {
            changed = true;
        }
        proof {
            assert forall|k: Seq<u8>| #[trigger] kept.map().contains_key(k) <==> (exists|j: int|
                0 <= j < i + 1 && le[j].0 == k && declared.contains_key(k)) by {
                if exists|j: int| 0 <= j < i + 1 && le[j].0 == k && declared.contains_key(k) {
                    let j = choose|j: int| 0 <= j < i + 1 && le[j].0 == k && declared.contains_key(k);
                    if j < i {
                        assert(exists|j: int| 0 <= j < i && le[j].0 == k && declared.contains_key(k));
                    }
                }
            }
        }
        i = i + 1;
    }
    proof {
        lemma_sorted_entries(le);
        assert forall|k: Seq<u8>| #[trigger] before.contains_key(k) && declared.contains_key(k)
            implies kept.map().contains_key(k) by {
            let j = choose|j: int| 0 <= j < le.len() && le[j].0 == k;
        }
        assert(kept.map() =~= before.restrict(declared.dom()));
        if exists|name: Seq<u8>| before.contains_key(name) && !declared.contains_key(name) {
            let name = choose|name: Seq<u8>| before.contains_key(name) && !declared.contains_key(name);
            let j = choose|j: int| 0 <= j < le.len() && le[j].0 == name;
            assert(!declared.contains_key(le[j].0));
        }
    }
    lock.packages = kept;
    changed
}

/// The resolver decision for the `i`-th request of `m` against the lock map
/// `old`.
pub open spec fn request_decision(
    m: Seq<(Seq<u8>, ManifestPackageView)>,
    old: Map<Seq<u8>, PackageView>,
    i: int,
) -> Result<ResolutionAction, Seq<char>> {
    spec_resolution(m[i].1, lock_entry(old, m[i].0))
}

/// The first request, from position `i` on, that stops reconciling: one that
/// the resolver refuses, or one that diverges from its lock entry.
pub open spec fn first_unreconciled(
    m: Seq<(Seq<u8>, ManifestPackageView)>,
    old: Map<Seq<u8>, PackageView>,
    i: int,
) -> Option<Seq<u8>>
    decreases m.len() - i,
{
    if i < 0 || i >= m.len() {
        None
    } else {
        match request_decision(m, old, i) {
            Err(e) => Some(bytes(e)),
            Ok(ResolutionAction::Diverged) => Some(diverged_msg(m[i].0)),
            Ok(_) => first_unreconciled(m, old, i + 1),
        }
    }
}

/// The kind of an accepted source.
pub open spec fn kind_of(source: Seq<u8>) -> SourceKind {
    match spec_source_kind_outcome(source) {
        Ok(k) => k,
        Err(_) => SourceKind::Git,
    }
}

/// The lock entry that reconciling gives the `i`-th request: its kept lock
/// entry, or the entry that its resolution `resolved` gives.
pub open spec fn reconciled_entry(
    m: Seq<(Seq<u8>, ManifestPackageView)>,
    old: Map<Seq<u8>, PackageView>,
    i: int,
    resolved: Option<String>,
) -> PackageView {
    if request_decision(m, old, i) == Ok::<ResolutionAction, Seq<char>>(ResolutionAction::Keep) {
        old[m[i].0]
    } else {
        spec_resolved(
            m[i].1.source,
            m[i].1.reference,
            kind_of(m[i].1.source),
            match resolved {
                Some(r) => bytes(r@),
                None => Seq::empty(),
            },
        )
    }
}

/// Reconciles the lock with the manifest. `resolved[i]` is what resolving the
/// `i`-th request gave (the tree checksum of a local source, the commit of a
/// Git source) when the resolver decides to resolve it. When a request is
/// refused or diverges, the lock stays as it was and the first such request
/// is reported. Otherwise the lock holds exactly the requested packages: each
/// kept entry unchanged, each resolved request with its new entry; the result
/// tells whether anything was resolved or dropped.
pub fn reconcile_lock(manifest: &Manifest, lock: &mut Lock, resolved: &Vec<Option<String>>) -> (res:
    Result<bool, String>)
    requires
        resolved@.len() == manifest.packages.entries().len(),
        forall|i: int|
            0 <= i < resolved@.len() && request_decision(
                manifest.packages.entries(),
                old(lock).packages.map(),
                i,
            ) == Ok::<ResolutionAction, Seq<char>>(ResolutionAction::Resolve) ==> #[trigger] resolved@[i]
                is Some,
    ensures
        final(lock).version == old(lock).version,
        match first_unreconciled(manifest.packages.entries(), old(lock).packages.map(), 0) {
            Some(m) => res matches Err(e) && bytes(e@) == m && final(lock).packages.map() == old(
                lock,
            ).packages.map(),
            None => res matches Ok(changed) && final(lock).packages.map().dom()
                == manifest.packages.map().dom() && (forall|i: int|
                0 <= i < manifest.packages.entries().len() ==> final(lock).packages.map()[#[trigger] manifest.packages.entries()[i].0]
                    == reconciled_entry(
                    manifest.packages.entries(),
                    old(lock).packages.map(),
                    i,
                    resolved@[i],
                )) && changed == ((exists|i: int|
                0 <= i < manifest.packages.entries().len() && request_decision(
                    manifest.packages.entries(),
                    old(lock).packages.map(),
                    i,
                ) == Ok::<ResolutionAction, Seq<char>>(ResolutionAction::Resolve)) || (exists|
                name: Seq<u8>,
            |
                old(lock).packages.map().contains_key(name) && !manifest.packages.map().contains_key(
                    name,
                ))),
        },
{
    let ghost me = manifest.packages.entries();
    let ghost old_map = lock.packages.map();
    let n = manifest.packages.len();
    proof {
        lemma_sorted_entries(me);
    }
    let mut plan: Vec<Option<SourceKind>> = Vec::new();
    let mut i: usize = 0;
    while i < n
        invariant
            i <= n,
            n == me.len(),
            me == manifest.packages.entries(),
            old_map == lock.packages.map(),
            plan@.len() == i,
            forall|j: int|
                0 <= j < i ==> #[trigger] plan@[j] == (if request_decision(me, old_map, j) == Ok::<
                    ResolutionAction,
                    Seq<char>,
                >(ResolutionAction::Resolve) {
                    Some(kind_of(me[j].1.source))
                } else {
                    None
                }),
            first_unreconciled(me, old_map, 0) == first_unreconciled(me, old_map, i as int),
        decreases n - i,
    {
        let name = manifest.packages.key_at(i);
        let requested = manifest.packages.value_at(i);
        let locked = lock.packages.get(name.as_str());
        assert(package_view(locked) == lock_entry(old_map, me[i as int].0));
        match reconcile_step(name.as_str(), requested, locked) {
            ReconcileStep::Fail(e) => {
                return Err(e);
            },
            ReconcileStep::Resolve(kind) => {
                plan.push(Some(kind));
            },
            ReconcileStep::Keep => {
                plan.push(None);
            },
        }
        i = i + 1;
    }
    let mut changed = false;
    let mut i: usize = 0;
    while i < n
        invariant
            i <= n,
            n == me.len(),
            me == manifest.packages.entries(),
            plan@.len() == n,
            resolved@.len() == n,
            lock.version == old(lock).version,
            manifest.packages.wf(),
            forall|j: int|
                0 <= j < n ==> #[trigger] plan@[j] == (if request_decision(me, old_map, j) == Ok::<
                    ResolutionAction,
                    Seq<char>,
                >(ResolutionAction::Resolve) {
                    Some(kind_of(me[j].1.source))
                } else {
                    None
                }),
            forall|j: int|
                0 <= j < n && request_decision(me, old_map, j) == Ok::<ResolutionAction, Seq<char>>(
                    ResolutionAction::Resolve,
                ) ==> #[trigger] resolved@[j] is Some,
            forall|k: Seq<u8>|
                #[trigger] lock.packages.map().contains_key(k) <==> (old_map.contains_key(k) || exists|
                    j: int,
                |
                    0 <= j < i && me[j].0 == k && plan@[j] is Some),
            forall|k: Seq<u8>| #[trigger]
                old_map.contains_key(k) ==> lock.packages.map()[k] == old_map[k],
            forall|j: int|
                0 <= j < i && (#[trigger] plan@[j]) is Some ==> lock.packages.map()[me[j].0]
                    == reconciled_entry(me, old_map, j, resolved@[j]),
            changed == exists|j: int| 0 <= j < i && (#[trigger] plan@[j]) is Some,
        decreases n - i,
    {
        proof {
            lemma_sorted_entries(me);
        }
        if let Some(kind) = plan[i] {
            let name = manifest.packages.key_at(i);
            let requested = manifest.packages.value_at(i);
            assert(request_decision(me, old_map, i as int) == Ok::<ResolutionAction, Seq<char>>(
                ResolutionAction::Resolve,
            ));
            assert(resolved@[i as int] is Some);
            if let Some(r) = &resolved[i] {
                let entry = resolved_package(
                    requested.source.as_str(),
                    requested.reference.as_str(),
                    kind,
                    r.clone(),
                );
                let ghost before = lock.packages.map();
                lock.packages.insert(name.clone(), entry);
                proof {
                    let k = me[i as int].0;
                    assert(!old_map.contains_key(k));
                    assert(lock.packages.map()[k] == reconciled_entry(me, old_map, i as int, resolved@[i as int]));
                    assert forall|j: int|
                        0 <= j < i + 1 && (#[trigger] plan@[j]) is Some implies lock.packages.map()[me[j].0]
                        == reconciled_entry(me, old_map, j, resolved@[j]) by {
                        if j < i {
                            assert(me[j].0 != k);
                            assert(before[me[j].0] == reconciled_entry(me, old_map, j, resolved@[j]));
                        }
                    }
                    assert forall|kk: Seq<u8>| #[trigger] lock.packages.map().contains_key(kk) <==> (
                    old_map.contains_key(kk) || exists|j: int|
                        0 <= j < i + 1 && me[j].0 == kk && plan@[j] is Some) by {
                        if kk == k {
                            assert(me[i as int].0 == kk && plan@[i as int] is Some);
                        }
                        if exists|j: int| 0 <= j < i + 1 && me[j].0 == kk && plan@[j] is Some {
                            let j = choose|j: int| 0 <= j < i + 1 && me[j].0 == kk && plan@[j] is Some;
                            if j < i {
                                assert(exists|j: int| 0 <= j < i && me[j].0 == kk && plan@[j] is Some);
                            }
                        }
                    }
                    assert(exists|j: int| 0 <= j < i + 1 && (#[trigger] plan@[j]) is Some) by {
                        assert(plan@[i as int] is Some);
                    }
                }
                changed = true;
            }
        } else {
            proof {
                assert forall|kk: Seq<u8>| #[trigger] lock.packages.map().contains_key(kk) <==> (
                old_map.contains_key(kk) || exists|j: int|
                    0 <= j < i + 1 && me[j].0 == kk && plan@[j] is Some) by {
                    if exists|j: int| 0 <= j < i + 1 && me[j].0 == kk && plan@[j] is Some {
                        let j = choose|j: int| 0 <= j < i + 1 && me[j].0 == kk && plan@[j] is Some;
                        assert(j != i);
                        assert(exists|j: int| 0 <= j < i && me[j].0 == kk && plan@[j] is Some);
                    }
                }
                if exists|j: int| 0 <= j < i + 1 && (#[trigger] plan@[j]) is Some {
                    let j = choose|j: int| 0 <= j < i + 1 && (#[trigger] plan@[j]) is Some;
                    assert(j != i);
                }
            }
        }
        i = i + 1;
    }
    let ghost mid = lock.packages.map();
    let dropped = retain_declared(lock, manifest);
    proof {
        lemma_sorted_entries(me);
        let mm = manifest.packages.map();
        let fin = lock.packages.map();
        assert forall|k: Seq<u8>| mm.contains_key(k) implies mid.contains_key(k) by {
            let j = choose|j: int| 0 <= j < me.len() && me[j].0 == k;
            lemma_unreconciled_none(me, old_map, 0, j);
            if plan@[j] is None {
                assert(old_map.contains_key(k));
            }
        }
        assert(fin.dom() =~= mm.dom());
        assert forall|j: int| 0 <= j < me.len() implies fin[#[trigger] me[j].0] == reconciled_entry(
            me,
            old_map,
            j,
            resolved@[j],
        ) by {
            lemma_unreconciled_none(me, old_map, 0, j);
            assert(mm.contains_key(me[j].0));
            if plan@[j] is None {
                assert(old_map.contains_key(me[j].0));
            }
        }
        if exists|j: int|
            0 <= j < me.len() && request_decision(me, old_map, j) == Ok::<ResolutionAction, Seq<char>>(
                ResolutionAction::Resolve,
            ) {
            let j = choose|j: int|
                0 <= j < me.len() && request_decision(me, old_map, j) == Ok::<
                    ResolutionAction,
                    Seq<char>,
                >(ResolutionAction::Resolve);
            assert(plan@[j] is Some);
        }
        if changed {
            let j = choose|j: int| 0 <= j < n && (#[trigger] plan@[j]) is Some;
            assert(request_decision(me, old_map, j) == Ok::<ResolutionAction, Seq<char>>(
                ResolutionAction::Resolve,
            ));
        }
        if exists|name: Seq<u8>| old_map.contains_key(name) && !mm.contains_key(name) {
            let name = choose|name: Seq<u8>| old_map.contains_key(name) && !mm.contains_key(name);
            assert(mid.contains_key(name));
        }
        if dropped {
            let name = choose|name: Seq<u8>| mid.contains_key(name) && !mm.contains_key(name);
            if !old_map.contains_key(name) {
                let j = choose|j: int| 0 <= j < n && me[j].0 == name && plan@[j] is Some;
                assert(mm.contains_key(me[j].0));
            }
        }
    }
    Ok(changed || dropped)
}

proof fn lemma_unreconciled_none(
    m: Seq<(Seq<u8>, ManifestPackageView)>,
    old: Map<Seq<u8>, PackageView>,
    from: int,
    i: int,
)
    requires
        0 <= from <= i < m.len(),
        first_unreconciled(m, old, from) is None,
    ensures
        request_decision(m, old, i) is Ok,
        request_decision(m, old, i) != Ok::<ResolutionAction, Seq<char>>(ResolutionAction::Diverged),
    decreases i - from,
{
    if from < i {
        lemma_unreconciled_none(m, old, from + 1, i);
    }
}

/// The steps that `kally sync` takes.
#[derive(Debug)]
pub struct SyncPlan {
    /// Reconcile the manifest with the lock: resolve new requests, drop
    /// undeclared entries and save the lock if it changed. Otherwise the lock
    /// must already hold exactly the manifest's requests.
    pub resolve: bool,
    /// Create the package cache and materialize every locked package into it.
    /// Otherwise the cache is only checked.
    pub materialize: bool,
    /// Refuse a locked package without a checksum before materializing it.
    pub require_checksums: bool,
    /// Record the checksums of the materialized trees and save the lock.
    pub record_checksums: bool,
}

pub open spec fn offline_needs_locked_msg() -> Seq<char> {
    "`kally sync --offline` requires --locked"@
}

/// The steps of `kally sync` with `--locked` and `--offline` as given. An
/// offline sync must be locked. A locked sync never resolves a reference nor
/// rewrites the lock; an offline sync writes nothing at all and only checks
/// the cache.
pub fn sync_plan(locked: bool, offline: bool) -> (res: Result<SyncPlan, String>)
    ensures
        offline && !locked ==> (res matches Err(e) && e@ == offline_needs_locked_msg()),
        !(offline && !locked) ==> (res matches Ok(plan) && plan.resolve == !locked
            && plan.materialize == !offline && plan.require_checksums == locked
            && plan.record_checksums == !locked),
        locked ==> (res matches Ok(plan) ==> !plan.resolve && !plan.record_checksums),
        offline ==> (res matches Ok(plan) ==> !plan.resolve && !plan.materialize
            && !plan.record_checksums),
{
    if offline && !locked {
        return Err("`kally sync --offline` requires --locked".to_owned());
    }
    Ok(
        SyncPlan {
            resolve: !locked,
            materialize: !offline,
            require_checksums: locked,
            record_checksums: !locked,
        },
    )
}

} // verus!
