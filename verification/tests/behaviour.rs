use kally::{
    added_package, all_healthy, package_statuses, reconcile_lock, sync_plan, check_locked, check_materialized, checksum, checksum_bytes, declared_names,
    finish_update, git_source, manifest_package_valid, package_status, parse_lock,
    parse_manifest, plan_update, reconcile_step, record_checksums, reference_valid,
    render_lock, render_manifest, requested_reference, resolution_action, resolved_package,
    retain_declared, source_payload, sync_preflight, sync_source, tree_checksum, updated_package,
    verify, BoundedString, CachedTree, Lock, Manifest, ManifestPackage, Package, PackageMap,
    PackageStatus, ReconcileStep, ResolutionAction, SourceKind, Text,
};

const COMMIT: &str = "0123456789abcdef0123456789abcdef01234567";
const SUM: &str = "0123456789abcdef";

fn git(reference: &str) -> ManifestPackage {
    ManifestPackage { source: "git:https://example.invalid/p.git".into(), reference: reference.into() }
}

fn git_package(reference: &str, revision: &str, checksum: &str) -> Package {
    Package {
        source: "git:https://example.invalid/p.git".into(),
        reference: reference.into(),
        revision: revision.into(),
        checksum: checksum.into(),
    }
}

fn local(source: &str, revision: &str, checksum: &str) -> Package {
    Package {
        source: source.into(),
        reference: "local".into(),
        revision: revision.into(),
        checksum: checksum.into(),
    }
}

fn lock_of(entries: Vec<(&str, Package)>) -> Lock {
    let mut lock = Lock::default();
    lock.version = 1;
    for (name, package) in entries {
        lock.packages.insert(name.to_string(), package);
    }
    lock
}

fn manifest_of(entries: Vec<(&str, ManifestPackage)>) -> Manifest {
    let mut manifest = Manifest::default();
    manifest.version = 1;
    for (name, package) in entries {
        manifest.packages.insert(name.to_string(), package);
    }
    manifest
}

#[test]
fn checksum_has_exact_fnv_lanes() {
    assert_eq!(checksum(b"abc"), "41d6e55f66aaa008");
    assert_eq!(checksum(b"abd"), "3ed6e0a66daaab0d");
    assert_eq!(checksum(b""), "0000000112345678");
    // Longer than one 512-byte chunk: chunking does not change the hash.
    assert_eq!(checksum(&[b'a'; 1000]), "bbe0f0c9feb1ce90");
    assert_eq!(checksum_bytes([1, 0x1234_5678], b"abc"), [0x41d6e55f, 0x66aaa008]);
}

#[test]
fn checksum_in_pieces_equals_checksum_of_whole() {
    let whole = checksum_bytes([1, 0x1234_5678], b"hello world");
    let first = checksum_bytes([1, 0x1234_5678], b"hello ");
    assert_eq!(checksum_bytes(first, b"world"), whole);
}

#[test]
fn tree_checksum_ignores_listing_order() {
    let forward = vec![("a".to_string(), b"1".to_vec()), ("b".to_string(), b"2".to_vec())];
    let backward = vec![("b".to_string(), b"2".to_vec()), ("a".to_string(), b"1".to_vec())];
    assert_eq!(tree_checksum(forward), "385b6fa1ed5db710");
    assert_eq!(tree_checksum(backward), "385b6fa1ed5db710");
}

#[test]
fn tree_checksum_of_single_file_uses_dot_name() {
    assert_eq!(tree_checksum(vec![(kally::relative_name(""), b"class A {}".to_vec())]), "f62e822ac7a3d6d7");
}

#[test]
fn bounded_strings_keep_a_prefix() {
    let s = BoundedString::<4>::from_str("abcdef");
    assert_eq!(s.length(), 4);
    assert_eq!(s.byte_at(3), b'd');
    assert_eq!(s.byte_at(4), 0);
    assert_eq!(Text::length(s), 4);
    assert_eq!(Text::byte_at(s, 0), b'a');
    assert_eq!(Text::byte_at_u32(s, 1), b'b' as u32);
    let t = BoundedString::<8>::from_bytes(b"xy");
    assert_eq!(t.length(), 2);
    assert_eq!(t.byte_at(2), 0);
}

#[test]
fn source_errors_and_payloads() {
    let long = format!("git:{}", "a".repeat(600));
    assert_eq!(kally::source_kind(&long).unwrap_err(), "package source exceeds Kally's 512-byte limit");
    assert_eq!(
        kally::source_kind("git:").unwrap_err(),
        "source must start with `git:` or `path:` and include a value"
    );
    assert_eq!(source_payload("git:https://x.invalid/r.git").unwrap(), "https://x.invalid/r.git");
    assert_eq!(source_payload("path:pkgs/ui").unwrap(), "pkgs/ui");
    assert!(source_payload("ftp:x").is_err());
}

#[test]
fn git_sources_split_into_url_and_subdirectory() {
    assert_eq!(
        git_source("git:https://example.invalid/p.git#packages/demo").unwrap(),
        ("https://example.invalid/p.git", "packages/demo")
    );
    assert_eq!(git_source("git:https://example.invalid/p.git").unwrap(), ("https://example.invalid/p.git", ""));
    assert_eq!(
        git_source("git:https://example.invalid/p.git#../up").unwrap_err(),
        "Git source must be a safe `git:URL[#SUBDIR]` value"
    );
    assert!(!kally::git_source_valid("git:https://example.invalid/a#b#c"));
    assert!(!kally::git_source_valid("git:#sub"));
}

#[test]
fn references_and_requests() {
    assert!(reference_valid("v1.2.3"));
    assert!(reference_valid("feature/x"));
    assert!(!reference_valid("-x"));
    assert!(!reference_valid("a..b"));
    assert!(!reference_valid("a/"));
    assert!(!reference_valid(""));
    assert!(manifest_package_valid(&git("main")));
    assert!(manifest_package_valid(&ManifestPackage { source: "path:ui".into(), reference: "local".into() }));
    assert!(!manifest_package_valid(&ManifestPackage { source: "path:ui".into(), reference: "main".into() }));
    assert!(!manifest_package_valid(&ManifestPackage { source: "ui".into(), reference: "main".into() }));
}

#[test]
fn resolver_never_resolves_a_locked_package() {
    let locked = git_package("main", COMMIT, "");
    for reference in ["main", "next", "v1"] {
        let action = resolution_action(&git(reference), Some(&locked)).unwrap();
        assert_ne!(action, ResolutionAction::Resolve);
    }
    let moved = ManifestPackage { source: "git:https://example.invalid/q.git".into(), reference: "main".into() };
    assert_eq!(resolution_action(&moved, Some(&locked)).unwrap(), ResolutionAction::Diverged);
    let path = local("path:demo", "local", "");
    assert_eq!(resolution_action(&git("main"), Some(&path)).unwrap(), ResolutionAction::Diverged);
    let bad = ManifestPackage { source: "demo".into(), reference: "main".into() };
    assert!(resolution_action(&bad, None).is_err());
    let long_ref = git(&"r".repeat(300));
    assert_eq!(
        resolution_action(&long_ref, Some(&locked)).unwrap_err(),
        "dependency source or reference exceeds Kally's bounded resolver input"
    );
}

#[test]
fn lockfile_text_round_trips() {
    let lock = lock_of(vec![
        ("zeta", git_package("main", COMMIT, "")),
        ("alpha", local("path:pkgs/alpha", "local", SUM)),
    ]);
    let text = render_lock(&lock).unwrap();
    assert_eq!(
        text,
        format!(
            "# Kally lockfile - generated, do not edit\nversion=1\n\n[alpha]\nsource=path:pkgs/alpha\nreference=local\nrevision=local\nchecksum={SUM}\n\n[zeta]\nsource=git:https://example.invalid/p.git\nreference=main\nrevision={COMMIT}\nchecksum=\n"
        )
    );
    let back = parse_lock(&text).unwrap();
    assert_eq!(back.version, 1);
    assert_eq!(back.packages.len(), 2);
    assert_eq!(back.packages.get("zeta").unwrap().revision, COMMIT);
    assert_eq!(back.packages.get("zeta").unwrap().checksum, "");
    assert_eq!(back.packages.get("alpha").unwrap().checksum, SUM);
}

#[test]
fn lockfile_errors() {
    let long = format!("version=1\n[a]\nsource=git:{}\n", "x".repeat(600));
    assert_eq!(parse_lock(&long).unwrap_err(), "lockfile line exceeds Kally's 512-byte limit");
    assert_eq!(parse_lock("[a]\n").unwrap_err(), "invalid lockfile structure near: [a]");
    assert_eq!(parse_lock("version=1\n[a/b]\n").unwrap_err(), "invalid package name `a/b`");
    assert_eq!(parse_lock("version=1\n[a]\n").unwrap_err(), "lockfile package is missing required properties");
    assert_eq!(parse_lock("").unwrap().packages.len(), 0);
    assert_eq!(parse_lock("  # comment\n\nversion=1\n").unwrap().packages.len(), 0);
    let bad_name = lock_of(vec![("bad name", git_package("main", COMMIT, ""))]);
    assert_eq!(render_lock(&bad_name).unwrap_err(), "invalid package name `bad name`");
}

#[test]
fn manifest_text_round_trips_and_errors() {
    let manifest = manifest_of(vec![("ui", git("v1.2.3")), ("core", ManifestPackage { source: "path:core".into(), reference: "local".into() })]);
    let text = render_manifest(&manifest).unwrap();
    assert_eq!(
        text,
        "# Kally manifest - requested dependencies\nversion=1\n\n[core]\nsource=path:core\nreference=local\n\n[ui]\nsource=git:https://example.invalid/p.git\nreference=v1.2.3\n"
    );
    let back = parse_manifest(&text).unwrap();
    assert_eq!(back.packages.len(), 2);
    assert_eq!(back.packages.get("core").unwrap().source, "path:core");
    assert_eq!(
        parse_manifest("version=1\n[ui]\nsource=path:ui\nreference=bad..ref\n").unwrap_err(),
        "invalid reference for `ui`"
    );
    assert_eq!(
        parse_manifest("version=1\n[ui]\nsource=path:ui\nreference=main\n").unwrap_err(),
        "invalid dependency request for `ui`"
    );
    assert_eq!(
        parse_manifest("version=1\n[ui]\nsource=path:ui\n").unwrap_err(),
        "manifest package is missing source or reference"
    );
    assert_eq!(
        parse_manifest("version=1\n[ui]\nrevision=abc\n").unwrap_err(),
        "invalid manifest structure near: revision=abc"
    );
    let mut future = manifest_of(vec![]);
    future.version = 2;
    assert_eq!(render_manifest(&future).unwrap_err(), "unsupported manifest version 2");
    let bad = manifest_of(vec![("ui", ManifestPackage { source: "path:ui".into(), reference: "main".into() })]);
    assert_eq!(render_manifest(&bad).unwrap_err(), "invalid dependency request for `ui`");
}

#[test]
fn verify_reports_each_problem() {
    let none = |n: usize| (0..n).map(|_| CachedTree::Absent).collect::<Vec<_>>();
    let mut old = lock_of(vec![]);
    old.version = 0;
    assert_eq!(verify(&old, &none(0)).unwrap_err(), "unsupported lockfile version 0");
    let unsafe_git = lock_of(vec![("a", Package { source: "git:https://x.invalid/r#../up".into(), ..git_package("main", COMMIT, "") })]);
    assert_eq!(verify(&unsafe_git, &none(1)).unwrap_err(), "package `a` has an invalid Git source");
    let unpinned = lock_of(vec![("a", git_package("main", "main", ""))]);
    assert_eq!(verify(&unpinned, &none(1)).unwrap_err(), "package `a` is not pinned to an immutable Git revision");
    let marker = lock_of(vec![("a", local("path:a", "branch", ""))]);
    assert_eq!(verify(&marker, &none(1)).unwrap_err(), "local package `a` must use the local revision marker");
    let bad_sum = lock_of(vec![("a", local("path:a", "local", "xyz"))]);
    assert_eq!(verify(&bad_sum, &none(1)).unwrap_err(), "package `a` has an invalid checksum");
    let bad_source = lock_of(vec![("a", local("a", "local", ""))]);
    assert_eq!(
        verify(&bad_source, &none(1)).unwrap_err(),
        "source must start with `git:` or `path:` and include a value"
    );
    let good = lock_of(vec![("a", local("path:a", "local", SUM))]);
    assert!(verify(&good, &none(1)).is_ok());
    assert!(verify(&good, &vec![CachedTree::Directory(Ok(SUM.into()))]).is_ok());
    assert!(verify(&good, &vec![CachedTree::File(Ok(SUM.into()))]).is_ok());
    assert_eq!(
        verify(&good, &vec![CachedTree::Directory(Ok("ffffffffffffffff".into()))]).unwrap_err(),
        "checksum mismatch for `a`"
    );
    assert_eq!(verify(&good, &vec![CachedTree::Directory(Err("unreadable".into()))]).unwrap_err(), "unreadable");
    let unsummed = lock_of(vec![("a", local("path:a", "local", ""))]);
    assert!(verify(&unsummed, &vec![CachedTree::Directory(Ok("ffffffffffffffff".into()))]).is_ok());
}

#[test]
fn package_status_covers_every_state() {
    let requested = ManifestPackage { source: "path:a".into(), reference: "local".into() };
    let locked = local("path:a", "local", SUM);
    let here = CachedTree::Directory(Ok(SUM.into()));
    assert_eq!(package_status(Some(&requested), Some(&locked), &here), PackageStatus::Ready);
    assert_eq!(package_status(Some(&requested), None, &here), PackageStatus::Unresolved);
    assert_eq!(package_status(None, Some(&locked), &here), PackageStatus::Stale);
    assert_eq!(package_status(Some(&git("main")), Some(&locked), &here), PackageStatus::Diverged);
    assert_eq!(package_status(Some(&requested), Some(&locked), &CachedTree::Absent), PackageStatus::Missing);
    assert_eq!(package_status(Some(&requested), Some(&locked), &CachedTree::File(Ok(SUM.into()))), PackageStatus::Missing);
    let unsummed = local("path:a", "local", "");
    assert_eq!(package_status(Some(&requested), Some(&unsummed), &here), PackageStatus::ChecksumMismatch);
    let other = CachedTree::Directory(Ok("ffffffffffffffff".into()));
    assert_eq!(package_status(Some(&requested), Some(&locked), &other), PackageStatus::ChecksumMismatch);
    let broken = CachedTree::Directory(Err("denied".into()));
    assert_eq!(package_status(Some(&requested), Some(&locked), &broken), PackageStatus::ChecksumMismatch);
    let labels: Vec<&str> = [
        PackageStatus::Ready,
        PackageStatus::Missing,
        PackageStatus::ChecksumMismatch,
        PackageStatus::Unresolved,
        PackageStatus::Diverged,
        PackageStatus::Stale,
    ]
    .iter()
    .map(|s| s.label())
    .collect();
    assert_eq!(labels, ["ready", "missing", "checksum-mismatch", "unresolved", "diverged", "stale"]);
    assert!(PackageStatus::Ready.healthy());
    assert!(!PackageStatus::Stale.healthy());
}

#[test]
fn declared_names_are_sorted_and_unique() {
    let manifest = manifest_of(vec![("b", git("main")), ("a", git("main"))]);
    let lock = lock_of(vec![("c", git_package("main", COMMIT, "")), ("a", git_package("main", COMMIT, ""))]);
    assert_eq!(declared_names(&manifest, &lock), ["a", "b", "c"]);
}

#[test]
fn locked_sync_accepts_only_an_exact_lock() {
    let manifest = manifest_of(vec![("a", git("main"))]);
    let exact = lock_of(vec![("a", git_package("main", COMMIT, SUM))]);
    assert!(check_locked(&manifest, &exact).is_ok());
    let extra = lock_of(vec![("a", git_package("main", COMMIT, SUM)), ("b", git_package("main", COMMIT, SUM))]);
    assert_eq!(
        check_locked(&manifest, &extra).unwrap_err(),
        "package `b` is only present in kally.lock; run `kally sync` to reconcile it"
    );
    let missing = lock_of(vec![]);
    assert_eq!(
        check_locked(&manifest, &missing).unwrap_err(),
        "package `a` is not exactly locked; run `kally sync` or `kally update a`"
    );
}

#[test]
fn reconcile_steps() {
    let locked = git_package("main", COMMIT, "");
    assert!(matches!(reconcile_step("a", &git("main"), Some(&locked)), ReconcileStep::Keep));
    assert!(matches!(reconcile_step("a", &git("main"), None), ReconcileStep::Resolve(SourceKind::Git)));
    let path = ManifestPackage { source: "path:a".into(), reference: "local".into() };
    assert!(matches!(reconcile_step("a", &path, None), ReconcileStep::Resolve(SourceKind::Path)));
    match reconcile_step("a", &git("next"), Some(&locked)) {
        ReconcileStep::Fail(message) => {
            assert_eq!(message, "package `a` differs from kally.toml; run `kally update a`")
        }
        _ => panic!("a diverged request must fail"),
    }
    let bad = ManifestPackage { source: "a".into(), reference: "local".into() };
    match reconcile_step("a", &bad, None) {
        ReconcileStep::Fail(message) => {
            assert_eq!(message, "source must start with `git:` or `path:` and include a value")
        }
        _ => panic!("a rejected source must fail"),
    }
}

#[test]
fn resolved_and_added_entries() {
    let path = resolved_package("path:a", "main", SourceKind::Path, SUM.into());
    assert_eq!((path.reference.as_str(), path.revision.as_str(), path.checksum.as_str()), ("local", "local", SUM));
    let git_entry = resolved_package("git:https://example.invalid/p.git", "v2", SourceKind::Git, COMMIT.into());
    assert_eq!((git_entry.reference.as_str(), git_entry.revision.as_str(), git_entry.checksum.as_str()), ("v2", COMMIT, ""));
    let (request, package) = added_package("path:a", "main", SourceKind::Path, SUM.into());
    assert_eq!(request.reference, "local");
    assert_eq!(package.checksum, SUM);
    let (request, package) = added_package("git:https://example.invalid/p.git", "v2", SourceKind::Git, COMMIT.into());
    assert_eq!(request.reference, "v2");
    assert_eq!(package.revision, COMMIT);
}

#[test]
fn reconcile_drops_undeclared_lock_entries() {
    let manifest = manifest_of(vec![("a", git("main"))]);
    let mut lock = lock_of(vec![("a", git_package("main", COMMIT, "")), ("b", git_package("main", COMMIT, ""))]);
    assert!(retain_declared(&mut lock, &manifest));
    assert_eq!(lock.packages.len(), 1);
    assert!(lock.packages.contains_key("a"));
    assert!(!retain_declared(&mut lock, &manifest));
    assert_eq!(lock.version, 1);
}

#[test]
fn sync_checks_around_materializing() {
    let lock = lock_of(vec![("a", local("path:a", "local", SUM))]);
    let stale = vec![CachedTree::Directory(Ok("ffffffffffffffff".into()))];
    assert!(sync_preflight(&lock, &stale).is_ok());
    let broken = lock_of(vec![("a", local("path:a", "branch", SUM))]);
    assert_eq!(
        sync_preflight(&broken, &vec![CachedTree::Absent]).unwrap_err(),
        "lockfile: local package `a` must use the local revision marker"
    );
    assert_eq!(sync_source("a", lock.packages.get("a").unwrap(), true).unwrap(), SourceKind::Path);
    let odd = local("a", "local", SUM);
    assert_eq!(
        sync_source("a", &odd, false).unwrap_err(),
        "package `a`: source must start with `git:` or `path:` and include a value"
    );
    assert!(check_materialized("a", "", "anything").is_ok());
    assert!(check_materialized("a", SUM, SUM).is_ok());
    assert_eq!(check_materialized("a", SUM, "ffffffffffffffff").unwrap_err(), "package `a`: checksum mismatch");
}

#[test]
fn offline_sync_problems() {
    let lock = lock_of(vec![("a", local("path:a", "local", SUM))]);
    assert_eq!(
        kally::check_offline(&lock, &vec![CachedTree::Absent]).unwrap_err(),
        "package `a` is not present in the local cache; run `kally sync --locked` while online"
    );
    assert_eq!(
        kally::check_offline(&lock, &vec![CachedTree::Directory(Err("denied".into()))]).unwrap_err(),
        "lockfile: denied"
    );
    let unsummed = lock_of(vec![("a", local("path:a", "local", ""))]);
    assert_eq!(
        kally::check_offline(&unsummed, &vec![CachedTree::Absent]).unwrap_err(),
        "package `a` is missing its locked checksum; offline sync requires a complete lockfile"
    );
}

#[test]
fn recording_checksums() {
    let mut lock = lock_of(vec![("a", local("path:a", "local", "")), ("b", local("path:b", "local", ""))]);
    let cached = vec![CachedTree::Directory(Ok(SUM.into())), CachedTree::Absent];
    assert_eq!(record_checksums(&mut lock, &cached).unwrap(), true);
    assert_eq!(lock.packages.get("a").unwrap().checksum, SUM);
    assert_eq!(lock.packages.get("b").unwrap().checksum, "");
    let failing = vec![CachedTree::Directory(Ok("ffffffffffffffff".into())), CachedTree::Directory(Err("denied".into()))];
    assert_eq!(record_checksums(&mut lock, &failing).unwrap_err(), "package `b`: denied");
    assert_eq!(lock.packages.get("a").unwrap().checksum, SUM);
    assert_eq!(record_checksums(&mut lock, &vec![CachedTree::Absent, CachedTree::Absent]).unwrap(), false);
}

#[test]
fn add_and_update_decisions() {
    assert_eq!(requested_reference(None), "main");
    assert_eq!(requested_reference(Some("--dir")), "main");
    assert_eq!(requested_reference(Some("v1.0")), "v1.0");
    let locked = git_package("", COMMIT, SUM);
    assert!(plan_update("a", Some("b"), &locked, None).is_none());
    let plan = plan_update("a", None, &locked, None).unwrap();
    assert_eq!((plan.reference.as_str(), plan.target.as_str()), ("", COMMIT));
    let plan = plan_update("a", Some("a"), &locked, Some(&git("next"))).unwrap();
    assert_eq!((plan.source.as_str(), plan.reference.as_str(), plan.target.as_str()), ("git:https://example.invalid/p.git", "next", "next"));
    let path = local("path:a", "local", SUM);
    assert!(plan_update("a", None, &path, None).is_none());
    let updated = updated_package(plan, "fedcba9876543210".into());
    assert_eq!((updated.reference.as_str(), updated.revision.as_str(), updated.checksum.as_str()), ("next", "fedcba9876543210", ""));
    assert_eq!(finish_update(0, Some("ui")).unwrap_err(), "no Git package named `ui`");
    assert!(finish_update(0, None).is_ok());
    assert!(finish_update(1, Some("ui")).is_ok());
}

#[test]
fn package_map_keeps_name_order() {
    let mut map: PackageMap<u32> = PackageMap::new();
    map.insert("b".into(), 2);
    map.insert("a".into(), 1);
    map.insert("b".into(), 3);
    assert_eq!(map.len(), 2);
    assert_eq!(map.names(), ["a", "b"]);
    assert_eq!(map.get("b"), Some(&3));
    assert_eq!(map.remove("a"), Some(1));
    assert_eq!(map.remove("a"), None);
    assert_eq!(map.key_at(0), "b");
    assert_eq!(*map.value_at(0), 3);
}

#[test]
fn reconcile_lock_keeps_resolves_and_drops() {
    let manifest = manifest_of(vec![
        ("kept", git("main")),
        ("new", ManifestPackage { source: "path:new".into(), reference: "local".into() }),
    ]);
    let mut lock = lock_of(vec![
        ("kept", git_package("main", COMMIT, SUM)),
        ("gone", git_package("main", COMMIT, "")),
    ]);
    let resolved = vec![None, Some(SUM.to_string())];
    assert_eq!(reconcile_lock(&manifest, &mut lock, &resolved).unwrap(), true);
    assert_eq!(lock.packages.names(), ["kept", "new"]);
    let kept = lock.packages.get("kept").unwrap();
    assert_eq!((kept.revision.as_str(), kept.checksum.as_str()), (COMMIT, SUM));
    let new = lock.packages.get("new").unwrap();
    assert_eq!((new.reference.as_str(), new.revision.as_str(), new.checksum.as_str()), ("local", "local", SUM));
    assert_eq!(reconcile_lock(&manifest, &mut lock, &vec![None, None]).unwrap(), false);
}

#[test]
fn reconcile_lock_stops_on_divergence_and_keeps_the_lock() {
    let manifest = manifest_of(vec![("a", git("next"))]);
    let mut lock = lock_of(vec![("a", git_package("main", COMMIT, "")), ("b", git_package("main", COMMIT, ""))]);
    assert_eq!(
        reconcile_lock(&manifest, &mut lock, &vec![None]).unwrap_err(),
        "package `a` differs from kally.toml; run `kally update a`"
    );
    assert_eq!(lock.packages.names(), ["a", "b"]);
    assert_eq!(lock.packages.get("a").unwrap().reference, "main");
}

#[test]
fn status_succeeds_only_when_all_ready() {
    assert!(all_healthy(&vec![]));
    assert!(all_healthy(&vec![PackageStatus::Ready, PackageStatus::Ready]));
    assert!(!all_healthy(&vec![PackageStatus::Ready, PackageStatus::Missing]));
}

#[test]
fn bounded_strings_from_text_and_bytes_agree() {
    let a = BoundedString::<8>::from_str("abc");
    let b = BoundedString::<8>::from_bytes(b"abc");
    assert_eq!(a.length(), b.length());
    for i in 0..8 {
        assert_eq!(a.byte_at(i), b.byte_at(i));
    }
}

#[test]
fn sync_plans_follow_the_flags() {
    let plain = sync_plan(false, false).unwrap();
    assert!(plain.resolve && plain.materialize && !plain.require_checksums && plain.record_checksums);
    let locked = sync_plan(true, false).unwrap();
    assert!(!locked.resolve && locked.materialize && locked.require_checksums && !locked.record_checksums);
    let offline = sync_plan(true, true).unwrap();
    assert!(!offline.resolve && !offline.materialize && !offline.record_checksums);
    assert_eq!(sync_plan(false, true).unwrap_err(), "`kally sync --offline` requires --locked");
}

#[test]
fn statuses_of_declared_names() {
    let manifest = manifest_of(vec![("a", ManifestPackage { source: "path:a".into(), reference: "local".into() })]);
    let lock = lock_of(vec![("a", local("path:a", "local", SUM)), ("b", local("path:b", "local", SUM))]);
    let names = declared_names(&manifest, &lock);
    let cached = vec![CachedTree::Directory(Ok(SUM.into())), CachedTree::Absent];
    let statuses = package_statuses(&manifest, &lock, &names, &cached);
    assert_eq!(statuses, [PackageStatus::Ready, PackageStatus::Stale]);
    assert!(!all_healthy(&statuses));
}
