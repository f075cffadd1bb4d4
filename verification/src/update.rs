//! The decisions of `kally add` and `kally update`: what is requested, which
//! locked packages an update resolves again, and the entries that result.
use vstd::prelude::*;

use crate::output::{concat3, lemma_ascii_bytes, owned};
use crate::package_map::bytes_equal;
use crate::model::{ManifestPackage, ManifestPackageView, Package, PackageView, SourceKind};
use crate::policy::local_marker;
use crate::rules::{source_kind, spec_source_kind_outcome};
use crate::status::request_view;
use crate::sync::{resolved_package, spec_resolved};
use crate::text::{byte_len, bytes};

verus! {

/// `main`, the reference requested when none is given.
pub open spec fn main_branch() -> Seq<u8> {
    seq![109u8, 97, 105, 110]
}

/// The reference that `kally add` requests: the given one, unless it is
/// missing or starts with `-` (an option), in which case `main`.
pub open spec fn spec_requested_reference(given: Option<Seq<u8>>) -> Seq<u8> {
    match given {
        Some(r) => if r.len() > 0 && r[0] == 45u8 {
            main_branch()
        } else {
            r
        },
        None => main_branch(),
    }
}

/// The reference that `kally add` requests for the optional argument `given`.
pub fn requested_reference(given: Option<&str>) -> (res: String)
    ensures
        bytes(res@) == spec_requested_reference(
            match given {
                Some(r) => Some(bytes(r@)),
                None => None,
            },
        ),
{
    if let Some(r) = given {
        let b = r.as_bytes();
        if !(b.len() > 0 && b[0] == 45) {
            return owned(r);
        }
    }
    let main = "main".to_owned();
    proof {
        reveal_strlit("main");
        lemma_ascii_bytes(main@);
        assert(bytes(main@) =~= main_branch());
    }
    main
}

/// The reference locked for a source: `local` for a local source, the
/// requested one for a Git source.
pub open spec fn locked_reference(kind: SourceKind, reference: Seq<u8>) -> Seq<u8> {
    match kind {
        SourceKind::Path => local_marker(),
        SourceKind::Git => reference,
    }
}

/// The manifest request and the lock entry that `kally add` records for a
/// source of `kind` requested at `reference`, whose resolution gave
/// `resolved` (the tree checksum of a local source, the commit of a Git one).
pub fn added_package(source: &str, reference: &str, kind: SourceKind, resolved: String) -> (res: (
    ManifestPackage,
    Package,
))
    ensures
        res.0@ == (ManifestPackageView {
            source: bytes(source@),
            reference: locked_reference(kind, bytes(reference@)),
        }),
        res.1@ == spec_resolved(bytes(source@), bytes(reference@), kind, bytes(resolved@)),
{
    let package = resolved_package(source, reference, kind, resolved);
    let request = ManifestPackage { source: owned(source), reference: package.reference.clone() };
    (request, package)
}

/// What an update of one lock entry writes and resolves.
#[derive(Debug)]
pub struct UpdatePlan {
    /// The source recorded in the lock entry.
    pub source: String,
    /// The reference recorded in the lock entry.
    pub reference: String,
    /// The branch, tag or commit that is resolved again.
    pub target: String,
}

/// The source, reference and resolution target of an update, if the update
/// touches the lock entry: only the wanted package (every package when none
/// is named), and only when its source (the requested one, else the locked
/// one) is a Git source. A requested package takes its request's source and
/// reference; an unrequested one keeps its own and resolves its reference, or
/// its revision when it has no reference.
pub open spec fn spec_plan_update(
    name: Seq<u8>,
    wanted: Option<Seq<u8>>,
    locked: PackageView,
    requested: Option<ManifestPackageView>,
) -> Option<(Seq<u8>, Seq<u8>, Seq<u8>)> {
    let source = match requested {
        Some(r) => r.source,
        None => locked.source,
    };
    if wanted matches Some(w) && w != name {
        None
    } else if spec_source_kind_outcome(source) != Ok::<SourceKind, Seq<char>>(SourceKind::Git) {
        None
    } else {
        match requested {
            Some(r) => Some((r.source, r.reference, r.reference)),
            None => Some(
                (
                    locked.source,
                    locked.reference,
                    if locked.reference.len() == 0 {
                        locked.revision
                    } else {
                        locked.reference
                    },
                ),
            ),
        }
    }
}

/// An update that touches a requested package moves it to its request: the
/// plan records the requested source and reference and resolves the
/// requested reference; it touches the package exactly when it is wanted and
/// the requested source is a Git source.
pub proof fn lemma_update_follows_request(
    name: Seq<u8>,
    wanted: Option<Seq<u8>>,
    locked: PackageView,
    r: ManifestPackageView,
)
    ensures
        match spec_plan_update(name, wanted, locked, Some(r)) {
            Some(plan) => plan.0 == r.source && plan.1 == r.reference && plan.2 == r.reference,
            None => true,
        },
        spec_plan_update(name, wanted, locked, Some(r)) is Some <==> ((match wanted {
            Some(w) => w == name,
            None => true,
        }) && spec_source_kind_outcome(r.source) == Ok::<SourceKind, Seq<char>>(SourceKind::Git)),
{
}

/// The update plan for the lock entry `locked` of `name`, given the wanted
/// package and the manifest's request for `name`.
pub fn plan_update(
    name: &str,
    wanted: Option<&str>,
    locked: &Package,
    requested: Option<&ManifestPackage>,
) -> (res: Option<UpdatePlan>)
    ensures
        match spec_plan_update(
            bytes(name@),
            match wanted {
                Some(w) => Some(bytes(w@)),
                None => None,
            },
            locked@,
            request_view(requested),
        ) {
            Some(plan) => res matches Some(p) && bytes(p.source@) == plan.0 && bytes(p.reference@)
                == plan.1 && bytes(p.target@) == plan.2,
            None => res is None,
        },
        match (res, requested) {
            (Some(p), Some(r)) => p.source@ == r.source@ && p.reference@ == r.reference@
                && p.target@ == r.reference@,
            (Some(p), None) => p.source@ == locked.source@ && p.reference@ == locked.reference@
                && p.target@ == (if locked.reference@.len() == 0 {
                locked.revision@
            } else {
                locked.reference@
            }),
            (None, _) => true,
        },
        res is Some <==> (match wanted {
            Some(w) => bytes(w@) == bytes(name@),
            None => true,
        } && spec_source_kind_outcome(
            match requested {
                Some(r) => bytes(r.source@),
                None => bytes(locked.source@),
            },
        ) == Ok::<SourceKind, Seq<char>>(SourceKind::Git)),
{
    if let Some(w) = wanted {
        if !bytes_equal(w.as_bytes(), name.as_bytes()) {
            return None;
        }
    }
    let source = match requested {
        Some(r) => r.source.as_str(),
        None => locked.source.as_str(),
    };
    match source_kind(source) {
        Ok(SourceKind::Git) => {},
        _ => {
            return None;
        },
    }
    match requested {
        Some(r) => Some(
            UpdatePlan {
                source: r.source.clone(),
                reference: r.reference.clone(),
                target: r.reference.clone(),
            },
        ),
        None => {
            let target = if byte_len(locked.reference.as_str()) == 0 {
                locked.revision.clone()
            } else {
                locked.reference.clone()
            };
            Some(
                UpdatePlan {
                    source: locked.source.clone(),
                    reference: locked.reference.clone(),
                    target,
                },
            )
        },
    }
}

/// The lock entry after an update resolved `plan` to `revision`: its checksum
/// is cleared until the new tree is materialized.
pub fn updated_package(plan: UpdatePlan, revision: String) -> (res: Package)
    ensures
        res@ == (PackageView {
            source: bytes(plan.source@),
            reference: bytes(plan.reference@),
            revision: bytes(revision@),
            checksum: Seq::empty(),
        }),
{
    let checksum = String::new();
    assert(bytes(checksum@) =~= Seq::<u8>::empty());
    Package { source: plan.source, reference: plan.reference, revision, checksum }
}

pub open spec fn no_git_package_msg(wanted: Seq<u8>) -> Seq<u8> {
    bytes("no Git package named `"@) + wanted + bytes("`"@)
}

/// The outcome of an update that resolved `updated` packages: naming a
/// package that no update touched is an error.
pub fn finish_update(updated: usize, wanted: Option<&str>) -> (res: Result<(), String>)
    ensures
        match wanted {
            Some(w) if updated == 0 => res matches Err(e) && bytes(e@) == no_git_package_msg(
                bytes(w@),
            ),
            _ => res is Ok,
        },
{
    match wanted {
        Some(w) if updated == 0 => Err(concat3("no Git package named `", w, "`")),
        _ => Ok(()),
    }
}

} // verus!
