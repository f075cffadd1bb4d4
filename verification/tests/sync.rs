use kally::{
    check_locked, check_offline, sync_source, CachedTree, Lock, Manifest, ManifestPackage,
    Package,
};

fn request(source: &str) -> ManifestPackage {
    ManifestPackage { source: source.into(), reference: "local".into() }
}

fn local_package(source: &str, checksum: &str) -> Package {
    Package {
        source: source.into(),
        reference: "local".into(),
        revision: "local".into(),
        checksum: checksum.into(),
    }
}

#[test]
fn locked_sync_rejects_manifest_divergence_without_rewriting_the_lock() {
    let mut manifest = Manifest::default();
    manifest.packages.insert("demo".into(), request("path:changed"));
    let mut lock = Lock::default();
    lock.packages.insert("demo".into(), local_package("path:original", "0123456789abcdef"));
    let error = check_locked(&manifest, &lock).unwrap_err();
    assert!(error.contains("not exactly locked"));
}

#[test]
fn locked_sync_requires_a_checksum_before_materializing() {
    let mut manifest = Manifest::default();
    manifest.packages.insert("demo".into(), request("path:demo"));
    let mut lock = Lock::default();
    lock.packages.insert("demo".into(), local_package("path:demo", ""));
    assert!(check_locked(&manifest, &lock).is_ok());
    let package = lock.packages.get("demo").unwrap();
    let error = sync_source("demo", package, true).unwrap_err();
    assert!(error.contains("missing its locked checksum"));
}

#[test]
fn offline_locked_sync_requires_an_exact_cached_package() {
    // The checksum of a cache holding `package.klc` with `class Package {}\n`.
    let checksum = kally::tree_checksum(vec![(
        "package.klc".to_string(),
        b"class Package {}\n".to_vec(),
    )]);
    let mut manifest = Manifest::default();
    manifest.packages.insert("demo".into(), request("path:demo"));
    let mut lock = Lock::default();
    lock.version = 1;
    lock.packages.insert("demo".into(), local_package("path:demo", &checksum));
    assert!(check_locked(&manifest, &lock).is_ok());
    let cached = vec![CachedTree::Directory(Ok(checksum.clone()))];
    assert_eq!(check_offline(&lock, &cached).unwrap(), 1);

    let mut branch = local_package("path:demo", &checksum);
    branch.revision = "branch".into();
    lock.packages.insert("demo".into(), branch);
    let error = check_offline(&lock, &cached).unwrap_err();
    assert!(error.contains("local revision marker"));

    lock.packages.insert("demo".into(), local_package("path:demo", &checksum));
    let changed = kally::tree_checksum(vec![(
        "package.klc".to_string(),
        b"class Changed {}\n".to_vec(),
    )]);
    let error = check_offline(&lock, &vec![CachedTree::Directory(Ok(changed))]).unwrap_err();
    assert!(error.contains("checksum mismatch"));
}
