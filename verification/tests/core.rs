use kally::{
    checksum, checksum_valid, git_source_valid, parse_lock, parse_manifest, path_source_valid,
    relative_name, render_lock, render_manifest, resolution_action, revision_valid, source_kind,
    tree_checksum, valid_name, Lock, Manifest, ManifestPackage, Package, PackageMap,
    ResolutionAction, SourceKind,
};

fn lock_with(name: &str, package: Package) -> Lock {
    let mut lock = Lock::default();
    lock.packages.insert(name.to_string(), package);
    lock
}

#[test]
fn hash_stable() {
    assert_eq!(checksum(b"abc"), checksum(b"abc"));
    assert_ne!(checksum(b"abc"), checksum(b"abd"));
    assert!(checksum_valid(&checksum(b"abc")));
}

#[test]
fn directory_hash_and_materialization_are_deterministic() {
    let before = tree_checksum(vec![(relative_name("scripts/a.klc"), b"class A {}".to_vec())]);
    // A materialized copy holds the same file; a host with `\` separators
    // names it the same way.
    let copied = tree_checksum(vec![(relative_name("scripts\\a.klc"), b"class A {}".to_vec())]);
    assert_eq!(before, copied);
    assert_eq!(before, "cee82e2ebc03a703");
}

#[test]
fn lockfile_preserves_git_reference_and_commit() {
    let lock = lock_with(
        "ui",
        Package {
            source: "git:https://example.invalid/kalcite-packages.git#packages/ui".into(),
            reference: "v0.3.0".into(),
            revision: "0123456789abcdef".into(),
            checksum: "deadbeef".into(),
        },
    );
    let text = render_lock(&lock).unwrap();
    let restored = parse_lock(&text).unwrap();
    let package = restored.packages.get("ui").unwrap();
    assert_eq!(package.reference, "v0.3.0");
    assert_eq!(package.revision, "0123456789abcdef");
}

#[test]
fn manifest_is_kc_validated_and_round_trips() {
    let mut manifest = Manifest { version: 1, packages: PackageMap::new() };
    manifest.packages.insert(
        "ui".into(),
        ManifestPackage {
            source: "git:https://example.invalid/packages.git#ui".into(),
            reference: "v1.2.3".into(),
        },
    );
    let text = render_manifest(&manifest).unwrap();
    let restored = parse_manifest(&text).unwrap();
    assert_eq!(restored.packages.get("ui").unwrap().reference, "v1.2.3");
    assert!(parse_manifest("version=1\n[ui]\nsource=path:ui\n").is_err());
    assert!(parse_manifest("version=1\n[ui]\nsource=path:ui\nreference=main\n").is_err());
}

#[test]
fn klc_resolver_distinguishes_initial_lock_and_divergence() {
    let requested = ManifestPackage {
        source: "git:https://example.invalid/p.git".into(),
        reference: "main".into(),
    };
    assert_eq!(resolution_action(&requested, None).unwrap(), ResolutionAction::Resolve);
    let locked = Package {
        source: requested.source.clone(),
        reference: requested.reference.clone(),
        revision: "0123456789abcdef".into(),
        checksum: String::new(),
    };
    assert_eq!(resolution_action(&requested, Some(&locked)).unwrap(), ResolutionAction::Keep);
    let changed = ManifestPackage { source: requested.source.clone(), reference: "next".into() };
    assert_eq!(resolution_action(&changed, Some(&locked)).unwrap(), ResolutionAction::Diverged);
}

#[test]
fn klc_core_rejects_invalid_package_names_and_lock_keys() {
    assert!(valid_name("package-42"));
    assert!(!valid_name("package/name"));
    assert!(!valid_name(&"a".repeat(65)));
    assert_eq!(source_kind("git:https://example.invalid/p.git").unwrap(), SourceKind::Git);
    assert_eq!(source_kind("path:packages/demo").unwrap(), SourceKind::Path);
    assert!(source_kind("https://example.invalid/p.git").is_err());
    assert!(git_source_valid("git:https://example.invalid/p.git#packages/demo"));
    assert!(!git_source_valid("git:https://example.invalid/p.git#../outside"));
    assert!(!git_source_valid("git:https://example.invalid/p.git#/absolute"));
    assert!(path_source_valid("path:../packages/demo"));
    assert!(!path_source_valid("path:/absolute"));
    assert!(revision_valid("0123456789abcdef"));
    assert!(!revision_valid("branch/main"));
    assert!(checksum_valid("0123456789abcdef"));
    assert!(!checksum_valid("not-a-checksum"));

    assert!(parse_lock("version=1\n[demo]\nunknown=value\n").is_err());
    assert!(parse_lock("version=1\n[demo]\nsource=https://example.invalid/demo\n").is_err());
    assert!(parse_lock(
        "version=1\n[demo]\nsource=path:demo\nsource=path:again\nreference=local\nrevision=local\nchecksum=0123456789abcdef\n",
    )
    .is_err());
    assert!(parse_lock("version=1\n[demo]\nsource=path:demo\nreference=local\nrevision=local\n").is_err());
}

#[test]
fn relative_names_use_forward_slashes() {
    assert_eq!(relative_name("scripts\\a.klc"), "scripts/a.klc");
    assert_eq!(relative_name("scripts/a.klc"), "scripts/a.klc");
    assert_eq!(relative_name(""), ".");
}
