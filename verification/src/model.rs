//! Package records of the lockfile and the manifest.
use vstd::prelude::*;

use crate::package_map::PackageMap;
use crate::text::bytes;

verus! {

/// A locked package, as bytes.
pub struct PackageView {
    pub source: Seq<u8>,
    pub reference: Seq<u8>,
    pub revision: Seq<u8>,
    pub checksum: Seq<u8>,
}

/// A requested package, as bytes.
pub struct ManifestPackageView {
    pub source: Seq<u8>,
    pub reference: Seq<u8>,
}

/// A package entry of `kally.lock`.
#[derive(Debug)]
pub struct Package {
    pub source: String,
    /// The mutable Git branch or tag requested by the manifest/CLI. `revision`
    /// is always the immutable commit selected from this reference.
    pub reference: String,
    pub revision: String,
    pub checksum: String,
}

impl View for Package {
    type V = PackageView;

    open spec fn view(&self) -> PackageView {
        PackageView {
            source: bytes(self.source@),
            reference: bytes(self.reference@),
            revision: bytes(self.revision@),
            checksum: bytes(self.checksum@),
        }
    }
}

impl Clone for Package {
    fn clone(&self) -> (res: Self)
        ensures
            res == *self,
    {
        Package {
            source: self.source.clone(),
            reference: self.reference.clone(),
            revision: self.revision.clone(),
            checksum: self.checksum.clone(),
        }
    }
}

impl Default for Package {
    fn default() -> (res: Self)
        ensures
            res@ == (PackageView {
                source: Seq::empty(),
                reference: Seq::empty(),
                revision: Seq::empty(),
                checksum: Seq::empty(),
            }),
    {
        Package {
            source: String::new(),
            reference: String::new(),
            revision: String::new(),
            checksum: String::new(),
        }
    }
}

/// A package entry of `kally.toml`.
#[derive(Debug)]
pub struct ManifestPackage {
    pub source: String,
    pub reference: String,
}

impl View for ManifestPackage {
    type V = ManifestPackageView;

    open spec fn view(&self) -> ManifestPackageView {
        ManifestPackageView { source: bytes(self.source@), reference: bytes(self.reference@) }
    }
}

impl Clone for ManifestPackage {
    fn clone(&self) -> (res: Self)
        ensures
            res == *self,
    {
        ManifestPackage { source: self.source.clone(), reference: self.reference.clone() }
    }
}

impl Default for ManifestPackage {
    fn default() -> (res: Self)
        ensures
            res@ == (ManifestPackageView { source: Seq::empty(), reference: Seq::empty() }),
    {
        ManifestPackage { source: String::new(), reference: String::new() }
    }
}

/// The resolved dependency set of `kally.lock`.
#[derive(Debug)]
pub struct Lock {
    pub version: u32,
    pub packages: PackageMap<Package>,
}

impl Default for Lock {
    fn default() -> (res: Self)
        ensures
            res.version == 0,
            res.packages.entries().len() == 0,
            res.packages.map() == Map::<Seq<u8>, PackageView>::empty(),
    {
        Lock { version: 0, packages: PackageMap::new() }
    }
}

/// The requested dependency set of `kally.toml`.
#[derive(Debug)]
pub struct Manifest {
    pub version: u32,
    pub packages: PackageMap<ManifestPackage>,
}

impl Default for Manifest {
    fn default() -> (res: Self)
        ensures
            res.version == 0,
            res.packages.entries().len() == 0,
            res.packages.map() == Map::<Seq<u8>, ManifestPackageView>::empty(),
    {
        Manifest { version: 0, packages: PackageMap::new() }
    }
}

/// Where a package comes from.
#[derive(Clone, Copy, Debug, PartialEq, Eq, Structural)]
pub enum SourceKind {
    Git,
    Path,
}

/// What the resolver does with a requested package.
#[derive(Clone, Copy, Debug, PartialEq, Eq, Structural)]
pub enum ResolutionAction {
    /// Reuse the exact locked entry.
    Keep,
    /// Resolve the request for the first time.
    Resolve,
    /// The request differs from its lock entry; only an explicit update may
    /// change it.
    Diverged,
}

} // verus!
