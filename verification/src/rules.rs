//! The public validation rules and the resolver decision.
use vstd::prelude::*;
use vstd::utf8::*;

use crate::bounded::{kept_len, BoundedString};
use crate::model::{ManifestPackage, ManifestPackageView, Package, PackageView, ResolutionAction, SourceKind};
use crate::policy::{
    git_tag, kally_checksum_valid, kally_git_source_valid, kally_local_reference_valid,
    kally_path_source_valid, kally_reference_valid, kally_revision_valid, kally_text_equals,
    kally_valid_name, path_tag, spec_checksum_valid, spec_git_source_valid, spec_local_reference,
    spec_path_source_valid, spec_reference_valid, spec_revision_valid, spec_source_kind,
    spec_valid_name,
};
use crate::text::{
    byte_len, bytes, first_index, lemma_boundary_after, lemma_first_index, lemma_valid_first_byte,
    split_once, split_str,
};

verus! {

broadcast use encode_utf8_valid_utf8;

pub open spec fn source_limit_msg() -> Seq<char> {
    "package source exceeds Kally's 512-byte limit"@
}

pub open spec fn source_prefix_msg() -> Seq<char> {
    "source must start with `git:` or `path:` and include a value"@
}

pub open spec fn resolver_bound_msg() -> Seq<char> {
    "dependency source or reference exceeds Kally's bounded resolver input"@
}

/// Whether an outcome with a `String` error matches one with the error's
/// characters.
pub open spec fn same_outcome<T>(res: Result<T, String>, want: Result<T, Seq<char>>) -> bool {
    match res {
        Ok(v) => want == Ok::<T, Seq<char>>(v),
        Err(e) => want == Err::<T, Seq<char>>(e@),
    }
}

/// The classification of a source, with its error.
pub open spec fn spec_source_kind_outcome(s: Seq<u8>) -> Result<SourceKind, Seq<char>> {
    if s.len() > 512 {
        Err(source_limit_msg())
    } else if spec_source_kind(s) == 1 {
        Ok(SourceKind::Git)
    } else if spec_source_kind(s) == 2 {
        Ok(SourceKind::Path)
    } else {
        Err(source_prefix_msg())
    }
}

/// A valid `git:` source of at most 512 bytes.
pub open spec fn git_source_ok(s: Seq<u8>) -> bool {
    s.len() <= 512 && spec_git_source_valid(s)
}

/// A valid `path:` source of at most 512 bytes.
pub open spec fn path_source_ok(s: Seq<u8>) -> bool {
    s.len() <= 512 && spec_path_source_valid(s)
}

/// A request that the resolver accepts: a valid reference, and either a valid
/// Git source or a valid local source with the `local` reference.
pub open spec fn spec_manifest_package_valid(p: ManifestPackageView) -> bool {
    &&& spec_reference_valid(p.reference)
    &&& match spec_source_kind_outcome(p.source) {
        Ok(SourceKind::Git) => git_source_ok(p.source),
        Ok(SourceKind::Path) => path_source_ok(p.source) && spec_local_reference(p.reference),
        Err(_) => false,
    }
}

/// The resolver decision for a request and its lock entry, if any.
pub open spec fn spec_resolution(req: ManifestPackageView, locked: Option<PackageView>) -> Result<
    ResolutionAction,
    Seq<char>,
> {
    match spec_source_kind_outcome(req.source) {
        Err(e) => Err(e),
        Ok(rk) => match locked {
            None => Ok(ResolutionAction::Resolve),
            Some(l) => match spec_source_kind_outcome(l.source) {
                Err(e) => Err(e),
                Ok(lk) => if req.source.len() > 512 || l.source.len() > 512 || req.reference.len()
                    > 256 || l.reference.len() > 256 {
                    Err(resolver_bound_msg())
                } else if rk == lk && req.source == l.source && req.reference == l.reference {
                    Ok(ResolutionAction::Keep)
                } else {
                    Ok(ResolutionAction::Diverged)
                },
            },
        },
    }
}

/// Bytes of a string that fit a bounded string are kept whole.
proof fn lemma_kept_whole(b: Seq<u8>, n: int)
    requires
        b.len() <= n,
        n <= 65535,
    ensures
        b.take(kept_len(b, n)) == b,
{
    assert(b.take(b.len() as int) =~= b);
}

/// Classifies a package source.
pub fn source_kind(source: &str) -> (res: Result<SourceKind, String>)
    ensures
        same_outcome(res, spec_source_kind_outcome(bytes(source@))),
{
    if byte_len(source) > 512 {
        return Err("package source exceeds Kally's 512-byte limit".to_owned());
    }
    let bounded = BoundedString::<512>::from_str(source);
    proof {
        lemma_kept_whole(bytes(source@), 512);
    }
    let kind = crate::policy::kally_source_kind(bounded);
    if kind == 1 {
        Ok(SourceKind::Git)
    } else if kind == 2 {
        Ok(SourceKind::Path)
    } else {
        Err("source must start with `git:` or `path:` and include a value".to_owned())
    }
}

/// Source-prefix decoding is deliberately kept separate from policy: the
/// prefix has already been accepted, while this just lends bytes to I/O code.
pub fn source_payload(source: &str) -> (res: Result<&str, String>)
    ensures
        match spec_source_kind_outcome(bytes(source@)) {
            Ok(SourceKind::Git) => res matches Ok(p) && bytes(p@) == bytes(source@).skip(4),
            Ok(SourceKind::Path) => res matches Ok(p) && bytes(p@) == bytes(source@).skip(5),
            Err(e) => res matches Err(m) && m@ == e,
        },
{
    let kind = source_kind(source)?;
    let ghost b = bytes(source@);
    match kind {
        SourceKind::Git => {
            proof {
                assert(b[3] == git_tag()[3]);
                lemma_valid_first_byte(b);
                lemma_boundary_after(b, 3);
            }
            let (_, payload) = split_str(source, 4);
            Ok(payload)
        },
        SourceKind::Path => {
            proof {
                assert(b[4] == path_tag()[4]);
                lemma_boundary_after(b, 4);
            }
            let (_, payload) = split_str(source, 5);
            Ok(payload)
        },
    }
}

/// Whether `source` is a safe `git:URL[#SUBDIR]` source.
pub fn git_source_valid(source: &str) -> (res: bool)
    ensures
        res == git_source_ok(bytes(source@)),
{
    if byte_len(source) > 512 {
        return false;
    }
    proof {
        lemma_kept_whole(bytes(source@), 512);
    }
    kally_git_source_valid(BoundedString::<512>::from_str(source))
}

/// Whether `source` is a safe `path:PATH` source.
pub fn path_source_valid(source: &str) -> (res: bool)
    ensures
        res == path_source_ok(bytes(source@)),
{
    if byte_len(source) > 512 {
        return false;
    }
    proof {
        lemma_kept_whole(bytes(source@), 512);
    }
    kally_path_source_valid(BoundedString::<512>::from_str(source))
}

/// Whether `revision` names an immutable Git commit.
pub fn revision_valid(revision: &str) -> (res: bool)
    ensures
        res == spec_revision_valid(bytes(revision@)),
{
    if byte_len(revision) > 128 {
        return false;
    }
    proof {
        lemma_kept_whole(bytes(revision@), 128);
    }
    kally_revision_valid(BoundedString::<128>::from_str(revision))
}

/// Whether `checksum` has the shape of a source checksum.
pub fn checksum_valid(checksum: &str) -> (res: bool)
    ensures
        res == spec_checksum_valid(bytes(checksum@)),
{
    if byte_len(checksum) > 17 {
        return false;
    }
    proof {
        lemma_kept_whole(bytes(checksum@), 17);
    }
    kally_checksum_valid(BoundedString::<17>::from_str(checksum))
}

/// Whether `reference` is an acceptable Git branch or tag.
pub fn reference_valid(reference: &str) -> (res: bool)
    ensures
        res == spec_reference_valid(bytes(reference@)),
{
    if byte_len(reference) > 256 {
        return false;
    }
    proof {
        lemma_kept_whole(bytes(reference@), 256);
    }
    kally_reference_valid(BoundedString::<256>::from_str(reference))
}

/// Whether `name` is an acceptable package name.
pub fn valid_name(name: &str) -> (res: bool)
    ensures
        res == spec_valid_name(bytes(name@)),
{
    let bounded = BoundedString::<65>::from_str(name);
    proof {
        let b = bytes(name@);
        if b.len() <= 65 {
            lemma_kept_whole(b, 65);
        } else {
            assert(bounded@.len() == 65);
        }
    }
    kally_valid_name(bounded)
}

/// Whether a manifest request is acceptable.
pub fn manifest_package_valid(package: &ManifestPackage) -> (res: bool)
    ensures
        res == spec_manifest_package_valid(package@),
{
    if !reference_valid(package.reference.as_str()) {
        return false;
    }
    match source_kind(package.source.as_str()) {
        Ok(SourceKind::Git) => git_source_valid(package.source.as_str()),
        Ok(SourceKind::Path) => {
            proof {
                lemma_kept_whole(bytes(package.reference@), 256);
            }
            path_source_valid(package.source.as_str()) && kally_local_reference_valid(
                BoundedString::<256>::from_str(package.reference.as_str()),
            )
        },
        Err(_) => false,
    }
}

/// The core resolver decision: 1 resolves a package that has no lock entry;
/// 0 keeps an entry whose source kind, source and reference all match; 2
/// reports any other divergence.
pub fn kally_resolution_action(
    requested_kind: u32,
    locked_kind: u32,
    has_lock: bool,
    source_matches: bool,
    reference_matches: bool,
) -> (res: u32)
    ensures
        res == (if !has_lock {
            1u32
        } else if requested_kind == locked_kind && source_matches && reference_matches {
            0u32
        } else {
            2u32
        }),
{
    if !has_lock {
        1
    } else if requested_kind == locked_kind && source_matches && reference_matches {
        0
    } else {
        2
    }
}

/// Decides whether a requested package keeps its lock entry, needs its first
/// resolution, or diverges from what is locked.
pub fn resolution_action(requested: &ManifestPackage, locked: Option<&Package>) -> (res: Result<
    ResolutionAction,
    String,
>)
    ensures
        same_outcome(
            res,
            spec_resolution(
                requested@,
                match locked {
                    Some(l) => Some(l@),
                    None => None,
                },
            ),
        ),
{
    let requested_kind: u32 = match source_kind(requested.source.as_str())? {
        SourceKind::Git => 1,
        SourceKind::Path => 2,
    };
    let (locked_kind, has_lock, source_matches, reference_matches) = if let Some(locked) = locked {
        let kind: u32 = match source_kind(locked.source.as_str())? {
            SourceKind::Git => 1,
            SourceKind::Path => 2,
        };
        if byte_len(requested.source.as_str()) > 512 || byte_len(locked.source.as_str()) > 512
            || byte_len(requested.reference.as_str()) > 256 || byte_len(locked.reference.as_str()) > 256 {
            return Err(
                "dependency source or reference exceeds Kally's bounded resolver input".to_owned(),
            );
        }
        proof {
            lemma_kept_whole(bytes(requested.source@), 512);
            lemma_kept_whole(bytes(locked.source@), 512);
            lemma_kept_whole(bytes(requested.reference@), 256);
            lemma_kept_whole(bytes(locked.reference@), 256);
        }
        (
            kind,
            true,
            kally_text_equals(
                BoundedString::<512>::from_str(requested.source.as_str()),
                BoundedString::<512>::from_str(locked.source.as_str()),
            ),
            kally_text_equals(
                BoundedString::<256>::from_str(requested.reference.as_str()),
                BoundedString::<256>::from_str(locked.reference.as_str()),
            ),
        )
    } else {
        (0, false, false, false)
    };
    match kally_resolution_action(
        requested_kind,
        locked_kind,
        has_lock,
        source_matches,
        reference_matches,
    ) {
        0 => Ok(ResolutionAction::Keep),
        1 => Ok(ResolutionAction::Resolve),
        2 => Ok(ResolutionAction::Diverged),
        _ => Err("invalid Kally dependency resolution state".to_owned()),
    }
}

pub open spec fn unsafe_git_msg() -> Seq<char> {
    "Git source must be a safe `git:URL[#SUBDIR]` value"@
}

/// The repository URL and the subdirectory of a safe Git source: the value
/// after `git:` up to its first `#`, and what follows that `#` (nothing when
/// there is none).
pub open spec fn spec_git_parts(source: Seq<u8>) -> Result<(Seq<u8>, Seq<u8>), Seq<char>> {
    if !git_source_ok(source) {
        Err(unsafe_git_msg())
    } else {
        let v = source.skip(4);
        let k = first_index(v, 35u8);
        if k < v.len() {
            Ok((v.take(k), v.skip(k + 1)))
        } else {
            Ok((v, Seq::empty()))
        }
    }
}

/// Splits a safe `git:URL[#SUBDIR]` source into its URL and subdirectory.
pub fn git_source(source: &str) -> (res: Result<(&str, &str), String>)
    ensures
        match spec_git_parts(bytes(source@)) {
            Ok(parts) => res matches Ok(got) && bytes(got.0@) == parts.0 && bytes(got.1@)
                == parts.1,
            Err(m) => res matches Err(e) && e@ == m,
        },
{
    if !git_source_valid(source) {
        return Err("Git source must be a safe `git:URL[#SUBDIR]` value".to_owned());
    }
    let value = source_payload(source)?;
    let (url, subdir, found) = split_once(value, 35);
    proof {
        let v = bytes(value@);
        lemma_first_index(v, 35u8);
        if !found {
            assert(v.take(first_index(v, 35u8)) =~= v);
        }
    }
    Ok((url, subdir))
}

/// A request without a lock entry is resolved for the first time, once its
/// source is accepted; a request with a lock entry is never resolved again:
/// the resolver keeps the entry or reports a divergence.
pub proof fn lemma_resolve_only_unlocked(requested: ManifestPackageView, locked: Option<PackageView>)
    ensures
        spec_resolution(requested, locked) == Ok::<ResolutionAction, Seq<char>>(
            ResolutionAction::Resolve,
        ) <==> (locked is None && spec_source_kind_outcome(requested.source) is Ok),
{
}

/// The resolver keeps a lock entry exactly when the request has the same
/// source and the same reference, both sources are accepted, and both fit
/// the resolver's bounds.
pub proof fn lemma_keep_iff_same(requested: ManifestPackageView, locked: PackageView)
    ensures
        spec_resolution(requested, Some(locked)) == Ok::<ResolutionAction, Seq<char>>(
            ResolutionAction::Keep,
        ) <==> {
            &&& spec_source_kind_outcome(requested.source) is Ok
            &&& spec_source_kind_outcome(locked.source) is Ok
            &&& requested.reference.len() <= 256
            &&& locked.reference.len() <= 256
            &&& requested.source == locked.source
            &&& requested.reference == locked.reference
        },
{
}

} // verus!
