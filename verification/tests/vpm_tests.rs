use std::io::Write;
use std::collections::HashMap;
use std::path::PathBuf;
use indexmap::IndexMap;
use vrc_get::cli::query::{install_prompt, installing_lines, outdated_packages, package_matches, search_packages, InstallPrompt};
use vrc_get::version::{Version, VersionRange};
use vrc_get::vpm::cache::{
    check_cached_digest, check_path, parse_hex, sha256_digest, sha_file_content, to_hex,
    extraction_plan, plan_extraction, zip_file_name, ExtractError, PathComponent, ZipEntry,
};
use vrc_get::vpm::listing::{listing_order, unlocked_requirements};
use vrc_get::vpm::repos::{repos_with_name, repos_with_url, undefined_repo_files};
use vrc_get::vpm::manifest::VpmManifest;
use vrc_get::vpm::package::{
    latest_stable, newest_version, select_package, PackageJson, VersionSelector, VpmDependency, VpmLockedDependency,
};
use vrc_get::vpm::project::{AddPackageErr, AddPackageRequest, RemovePackageErr, UnityProject};
use vrc_get::vpm::resolution::{add_pending_package, ResolveStep, Resolver};
use vrc_get::vpm::setting::{repository_defaults, unlocked_package_entry, UserRepoSetting};

fn version(text: &str) -> Version {
    Version::from_str(text).expect(text)
}

fn range(text: &str) -> VersionRange {
    VersionRange::from_str(text).expect(text)
}

fn package(name: &str, v: &str, deps: &[(&str, &str)]) -> PackageJson {
    let mut vpm_dependencies = IndexMap::new();
    for (n, r) in deps {
        vpm_dependencies.insert(n.to_string(), range(r));
    }
    PackageJson {
        name: name.to_string(),
        display_name: None,
        description: None,
        version: version(v),
        vpm_dependencies,
        url: format!("https://example.com/{name}-{v}.zip"),
        legacy_folders: HashMap::new(),
        legacy_files: HashMap::new(),
    }
}

fn locked(v: &str, deps: &[(&str, &str)]) -> VpmLockedDependency {
    let mut map = IndexMap::new();
    for (n, r) in deps {
        map.insert(n.to_string(), range(r));
    }
    VpmLockedDependency::new(version(v), map)
}

fn manifest(deps: &[(&str, &str)], locked_entries: Vec<(&str, VpmLockedDependency)>) -> VpmManifest {
    let mut dependencies = IndexMap::new();
    for (n, v) in deps {
        dependencies.insert(n.to_string(), VpmDependency::new(version(v)));
    }
    let mut locked = IndexMap::new();
    for (n, l) in locked_entries {
        locked.insert(n.to_string(), l);
    }
    VpmManifest::new(dependencies, locked)
}

fn project(m: VpmManifest) -> UnityProject {
    UnityProject { packages_dir: PathBuf::from("Packages"), manifest: m, unlocked_packages: vec![] }
}

#[test]
fn selector_accepts() {
    let stable = version("1.0.0");
    let pre = version("1.1.0-beta");
    assert!(VersionSelector::Latest.satisfies(&stable));
    assert!(!VersionSelector::Latest.satisfies(&pre));
    assert!(VersionSelector::LatestIncluidingPrerelease.satisfies(&pre));
    assert!(VersionSelector::Specific(&stable).satisfies(&version("1.0.0")));
    assert!(!VersionSelector::Specific(&stable).satisfies(&version("1.0.0+build")));
    let r1 = range(">=1.0.0");
    let r2 = range("<1.1.0");
    assert!(VersionSelector::Range(&r1).satisfies(&stable));
    let both = [&r1, &r2];
    assert!(VersionSelector::Ranges(&both).satisfies(&version("1.0.5")));
    assert!(!VersionSelector::Ranges(&both).satisfies(&version("1.1.0")));
}

#[test]
fn select_picks_newest_accepted_first_of_equals() {
    let candidates = vec![
        package("com.a", "1.0.0", &[]),
        package("com.a", "1.2.0+first", &[]),
        package("com.a", "2.0.0-beta", &[]),
        package("com.a", "1.2.0+second", &[]),
    ];
    let picked = select_package(candidates, &VersionSelector::Latest).unwrap();
    assert_eq!(picked.version.to_string(), "1.2.0+first");
    let candidates = vec![package("com.a", "1.0.0", &[]), package("com.a", "2.0.0-beta", &[])];
    let picked = select_package(candidates, &VersionSelector::LatestIncluidingPrerelease).unwrap();
    assert_eq!(picked.version.to_string(), "2.0.0-beta");
    let r = range(">=3");
    assert!(select_package(vec![package("com.a", "1.0.0", &[])], &VersionSelector::Range(&r)).is_none());
}

#[test]
fn mark_and_sweep_keeps_what_dependencies_need() {
    let mut m = manifest(
        &[("com.root", "1.0.0")],
        vec![
            ("com.root", locked("1.0.0", &[("com.mid", ">=1.0.0")])),
            ("com.mid", locked("1.0.0", &[("com.leaf", ">=1.0.0")])),
            ("com.leaf", locked("1.0.0", &[])),
            ("com.orphan", locked("1.0.0", &[("com.leaf", ">=1.0.0")])),
        ],
    );
    let removed = m.mark_and_sweep_packages();
    assert_eq!(removed, vec!["com.orphan".to_string()]);
    let kept: Vec<&String> = m.locked.keys().collect();
    assert_eq!(kept, vec!["com.root", "com.mid", "com.leaf"]);
    assert!(!m.changed);
}

#[test]
fn marking_passes_over_names_that_are_not_locked() {
    // com.unlocked comes first and is not locked; com.root after it is still followed
    let mut m = manifest(
        &[("com.unlocked", "1.0.0"), ("com.root", "1.0.0")],
        vec![
            ("com.root", locked("1.0.0", &[("com.gone", ">=1.0.0"), ("com.leaf", ">=1.0.0")])),
            ("com.leaf", locked("1.0.0", &[])),
            ("com.orphan", locked("1.0.0", &[])),
        ],
    );
    let removed = m.mark_and_sweep_packages();
    assert_eq!(removed, vec!["com.orphan".to_string()]);
    let kept: Vec<&String> = m.locked.keys().collect();
    assert_eq!(kept, vec!["com.root", "com.leaf"]);
}

#[test]
fn remove_checks_installation_and_conflicts() {
    let m = manifest(
        &[("com.root", "1.0.0")],
        vec![
            ("com.root", locked("1.0.0", &[("com.leaf", ">=1.0.0")])),
            ("com.leaf", locked("1.0.0", &[])),
        ],
    );
    let mut p = project(m);
    match p.remove(&["com.missing", "com.leaf"]) {
        Err(RemovePackageErr::NotInstalled(names)) => assert_eq!(names, vec!["com.missing".to_string()]),
        _ => panic!("expected NotInstalled"),
    }
    match p.remove(&["com.leaf"]) {
        Err(e @ RemovePackageErr::ConflictsWith(_)) => {
            assert_eq!(e.to_string(), "removing packages conflicts with the following packages: com.root");
        },
        _ => panic!("expected ConflictsWith"),
    }
    assert!(p.remove(&["com.root", "com.leaf"]).is_ok());
    assert_eq!(p.manifest.locked.len(), 0);
    assert_eq!(p.manifest.dependencies.len(), 0);
    assert!(p.manifest.changed);
}

#[test]
fn add_request_splits_requests() {
    let m = manifest(
        &[("com.a", "1.0.0")],
        vec![("com.a", locked("1.0.0", &[])), ("com.b", locked("2.0.0", &[]))],
    );
    let p = project(m);
    match p.prepare_add_package_request(vec![package("com.a", "1.0.0", &[])], true) {
        Err(AddPackageErr::AlreadyNewerPackageInstalled) => {},
        _ => panic!("expected AlreadyNewerPackageInstalled"),
    }
    let (deps, lock) = p
        .prepare_add_package_request(vec![package("com.b", "1.5.0", &[]), package("com.c", "1.0.0", &[])], true)
        .ok()
        .unwrap();
    assert_eq!(deps.len(), 1);
    assert_eq!(deps[0].0, "com.b");
    assert_eq!(deps[0].1.version.to_string(), "1.5.0");
    assert_eq!(lock.len(), 1);
    assert_eq!(lock[0].name, "com.c");
    match p.prepare_add_package_request(vec![package("com.b", "1.5.0", &[])], false) {
        Err(AddPackageErr::AlreadyNewerPackageInstalled) => {},
        _ => panic!("expected AlreadyNewerPackageInstalled"),
    }
    // upgrading adds no dependency: com.b is locked at a newer version but no dependency
    let (deps, lock) = p
        .prepare_add_package_request(vec![package("com.b", "1.5.0", &[]), package("com.c", "1.0.0", &[])], false)
        .ok()
        .unwrap();
    assert!(deps.is_empty());
    assert_eq!(lock.len(), 1);
    assert_eq!(AddPackageErr::AlreadyNewerPackageInstalled.to_string(), "already newer package installed");
}

#[test]
fn applying_a_request_writes_the_manifest() {
    let mut p = project(manifest(&[], vec![]));
    let request = AddPackageRequest {
        dependencies: vec![("com.a".to_string(), VpmDependency::new(version("1.0.0")))],
        locked: vec![package("com.a", "1.0.0", &[("com.b", "^1")])],
    };
    let to_download = p.apply_add_package_request(request);
    assert_eq!(to_download.len(), 1);
    assert_eq!(p.manifest.dependencies["com.a"].version.to_string(), "1.0.0");
    assert_eq!(p.manifest.locked["com.a"].dependencies["com.b"].to_string(), "^1");
    assert!(p.manifest.changed);
}

#[test]
fn resolver_asks_for_missing_dependencies_and_checks_conflicts() {
    let m = manifest(&[], vec![]);
    let mut resolver = Resolver::new(&m, vec![package("com.a", "1.0.0", &[("com.b", ">=1.0.0")])]);
    match resolver.next() {
        ResolveStep::Lookup { name, range } => {
            assert_eq!(name, "com.b");
            assert_eq!(range.to_string(), ">=1.0.0");
        },
        _ => panic!("expected a lookup"),
    }
    assert!(resolver.found(Some(package("com.b", "1.2.0", &[]))).is_ok());
    match resolver.next() {
        ResolveStep::Done(Ok(())) => {},
        _ => panic!("expected success"),
    }
    let chosen: Vec<String> = resolver.finish().into_iter().map(|p| p.name).collect();
    assert_eq!(chosen, vec!["com.a".to_string(), "com.b".to_string()]);
}

#[test]
fn resolver_reports_missing_and_conflicting_packages() {
    let m = manifest(&[], vec![]);
    let mut resolver = Resolver::new(&m, vec![package("com.a", "1.0.0", &[("com.b", ">=1.0.0")])]);
    assert!(matches!(resolver.next(), ResolveStep::Lookup { .. }));
    match resolver.found(None) {
        Err(e @ AddPackageErr::DependencyNotFound { .. }) => {
            assert_eq!(e.to_string(), "Package com.b (maybe dependencies of the package) not found");
        },
        _ => panic!("expected DependencyNotFound"),
    }

    let m = manifest(
        &[],
        vec![("com.user", locked("1.0.0", &[("com.b", "<2.0.0")])), ("com.b", locked("1.0.0", &[]))],
    );
    let mut resolver = Resolver::new(&m, vec![package("com.b", "2.0.0", &[])]);
    match resolver.next() {
        ResolveStep::Done(Err(AddPackageErr::ConflictWithDependencies { conflict, dependency_name })) => {
            assert_eq!(conflict, "com.b");
            assert_eq!(dependency_name, "com.user");
        },
        _ => panic!("expected a conflict"),
    }
}

#[test]
fn replacing_a_package_drops_the_ranges_its_old_version_needed() {
    // com.a 1.0.0 needed com.b <2.0.0; com.a 2.0.0 needs nothing, so com.b may move to 2.0.0
    let m = manifest(
        &[],
        vec![("com.a", locked("1.0.0", &[("com.b", "<2.0.0")])), ("com.b", locked("1.0.0", &[]))],
    );
    let mut resolver = Resolver::new(&m, vec![package("com.a", "2.0.0", &[]), package("com.b", "2.0.0", &[])]);
    match resolver.next() {
        ResolveStep::Done(Ok(())) => {},
        _ => panic!("expected success"),
    }
    let chosen: Vec<String> = resolver.finish().into_iter().map(|p| p.version.to_string()).collect();
    assert_eq!(chosen, vec!["2.0.0".to_string(), "2.0.0".to_string()]);
}

#[test]
fn resolver_keeps_a_waiting_package_that_matches() {
    // com.b waits in the queue at a version com.a accepts: nothing is looked up
    let m = manifest(&[], vec![]);
    let mut resolver = Resolver::new(
        &m,
        vec![package("com.a", "1.0.0", &[("com.b", ">=1.0.0")]), package("com.b", "1.5.0", &[])],
    );
    match resolver.next() {
        ResolveStep::Done(Ok(())) => {},
        _ => panic!("expected success"),
    }
    let chosen: Vec<String> = resolver.finish().into_iter().map(|p| p.name).collect();
    assert_eq!(chosen, vec!["com.a".to_string(), "com.b".to_string()]);
}

#[test]
fn a_found_package_replaces_the_waiting_one_of_its_name() {
    let m = manifest(&[], vec![]);
    let mut resolver = Resolver::new(
        &m,
        vec![package("com.a", "1.0.0", &[("com.b", ">=2.0.0")]), package("com.b", "1.0.0", &[]), package("com.c", "1.0.0", &[])],
    );
    match resolver.next() {
        ResolveStep::Lookup { name, .. } => assert_eq!(name, "com.b"),
        _ => panic!("expected a lookup"),
    }
    assert!(resolver.found(Some(package("com.b", "2.0.0", &[]))).is_ok());
    let waiting: Vec<String> = resolver.queue.iter().map(|p| format!("{}@{}", p.name, p.version.to_string())).collect();
    assert_eq!(waiting, vec!["com.c@1.0.0".to_string(), "com.b@2.0.0".to_string()]);
    match resolver.next() {
        ResolveStep::Done(Ok(())) => {},
        _ => panic!("expected success"),
    }
    let chosen: Vec<String> = resolver.finish().into_iter().map(|p| format!("{}@{}", p.name, p.version.to_string())).collect();
    assert_eq!(chosen, vec!["com.a@1.0.0".to_string(), "com.b@2.0.0".to_string(), "com.c@1.0.0".to_string()]);
}

#[test]
fn search_lists_newest_stable_and_folder_prereleases() {
    let make = || {
        let repos = vec![
            vec![package("com.a", "1.0.0", &[]), package("com.a", "1.1.0", &[]), package("com.a", "2.0.0-beta", &[])],
            vec![package("com.b", "0.1.0-pre", &[])],
            vec![package("com.e", "3.0.0", &[])],
        ];
        let user = vec![package("com.c", "1.0.0-dev", &[]), package("com.d", "1.0.0", &[])];
        (repos, user)
    };
    let (repos, user) = make();
    let found: Vec<String> = search_packages(repos, user, &[])
        .into_iter()
        .map(|p| format!("{}@{}", p.name, p.version.to_string()))
        .collect();
    assert_eq!(found, vec!["com.e@3.0.0".to_string(), "com.a@1.1.0".to_string(), "com.c@1.0.0-dev".to_string()]);
    let (repos, user) = make();
    let found: Vec<String> = search_packages(repos, user, &["COM.A".to_string()]).into_iter().map(|p| p.name).collect();
    assert_eq!(found, vec!["com.a".to_string()]);
}

#[test]
fn hex_round_trip_and_digest_check() {
    assert_eq!(to_hex(&[0x01, 0xab, 0xff]), "01abff");
    let digest = sha256_digest(b"abc");
    let hex = to_hex(&digest);
    assert_eq!(hex, "ba7816bf8f01cfea414140de5dae2223b00361a396177a9cb410ff61f20015ad");
    let mut head = [0u8; 64];
    head.copy_from_slice(hex.as_bytes());
    assert_eq!(parse_hex(head), Some(digest));
    assert!(check_cached_digest(b"abc", head));
    assert!(!check_cached_digest(b"abd", head));
    let upper = hex.to_ascii_uppercase();
    head.copy_from_slice(upper.as_bytes());
    assert!(check_cached_digest(b"abc", head));
    head[0] = b'g';
    assert_eq!(parse_hex(head), None);
    assert!(!check_cached_digest(b"abc", head));
}

#[test]
fn cache_file_names() {
    let name = zip_file_name("com.vrchat.base", &version("3.5.0"));
    assert_eq!(name, "vrc-get-com.vrchat.base-3.5.0.zip");
    let content = sha_file_content(b"abc", &name);
    assert_eq!(
        content,
        "ba7816bf8f01cfea414140de5dae2223b00361a396177a9cb410ff61f20015ad vrc-get-com.vrchat.base-3.5.0.zip\n"
    );
    let mut head = [0u8; 64];
    head.copy_from_slice(&content.as_bytes()[..64]);
    assert!(check_cached_digest(b"abc", head));
}

#[test]
fn archive_paths_stay_inside() {
    let n = PathComponent::Normal;
    assert!(check_path(&[n, PathComponent::CurDir, n]));
    assert!(check_path(&[]));
    assert!(!check_path(&[n, PathComponent::ParentDir, n]));
    assert!(!check_path(&[PathComponent::RootDir, n]));
    assert!(!check_path(&[PathComponent::Prefix, PathComponent::RootDir]));
}

#[test]
fn repository_settings() {
    let s = UserRepoSetting::new(PathBuf::from("a.json"), None, Some("https://x/vpm.json".to_string()), None);
    assert_eq!(s.id.as_deref(), Some("https://x/vpm.json"));
    let s = UserRepoSetting::new(PathBuf::from("a.json"), Some("n".into()), Some("https://x".into()), Some("id".into()));
    assert_eq!(s.id.as_deref(), Some("id"));
    assert_eq!(s.name.as_deref(), Some("n"));
    let (url, id) = repository_defaults(None, Some("https://x".into()), false, false);
    assert_eq!(url.as_deref(), Some("https://x"));
    assert_eq!(id.as_deref(), Some("https://x"));
    let (url, id) = repository_defaults(Some("i".into()), Some("https://x".into()), true, true);
    assert_eq!(url, None);
    assert_eq!(id, None);
}

#[test]
fn unlocked_folders() {
    let m = manifest(&[], vec![("com.a", locked("1.0.0", &[]))]);
    assert!(unlocked_package_entry("com.a".into(), Some(package("com.a", "1.0.0", &[])), &m).is_none());
    assert!(unlocked_package_entry("other".into(), Some(package("com.a", "1.0.0", &[])), &m).is_some());
    assert!(unlocked_package_entry("com.b".into(), None, &m).is_some());
}

#[test]
fn search_queries_match_name_display_name_or_description() {
    let mut p = package("com.vrchat.avatars", "3.5.0", &[]);
    p.display_name = Some("VRChat SDK - Avatars".to_string());
    p.description = Some("Build and upload avatars".to_string());
    let q = |v: &[&str]| v.iter().map(|s| s.to_string()).collect::<Vec<_>>();
    assert!(package_matches(&p, &q(&["avatars"])));
    assert!(package_matches(&p, &q(&["SDK", "UPLOAD"])));
    assert!(package_matches(&p, &q(&["vrchat", ""])));
    assert!(!package_matches(&p, &q(&["avatars", "worlds"])));
    assert!(package_matches(&p, &q(&[])));
    let bare = package("com.example.tool", "1.0.0", &[]);
    assert!(!package_matches(&bare, &q(&["upload"])));
}

#[test]
fn outdated_packages_respect_dependency_ranges() {
    let m = manifest(
        &[("com.a", "1.0.0")],
        vec![
            ("com.a", locked("1.0.0", &[("com.b", ">=1.0.0 <1.2.0")])),
            ("com.b", locked("1.0.0", &[])),
            ("com.c", locked("2.0.0", &[])),
            ("com.d", locked("1.0.0", &[])),
        ],
    );
    let p = project(m);
    let found = vec![
        Some(package("com.a", "1.1.0", &[])),
        Some(package("com.b", "1.5.0", &[])),
        Some(package("com.c", "2.0.0", &[])),
        None,
    ];
    let out = outdated_packages(&p, &found);
    // com.b is newer but com.a only allows below 1.2.0; com.c is not newer; com.d was not found
    assert_eq!(out.len(), 1);
    assert_eq!(out[0].name, "com.a");
    assert_eq!(out[0].installed.to_string(), "1.0.0");
    assert_eq!(out[0].found.to_string(), "1.1.0");

    let found = vec![
        Some(package("com.a", "1.1.0", &[])),
        Some(package("com.b", "1.1.5", &[])),
        None,
        None,
    ];
    let names: Vec<String> = outdated_packages(&p, &found).into_iter().map(|o| o.name).collect();
    assert_eq!(names, vec!["com.a".to_string(), "com.b".to_string()]);
}

#[test]
fn latest_stable_version_of_a_package() {
    let versions = vec![
        package("com.a", "1.0.0", &[]),
        package("com.a", "2.0.0-beta", &[]),
        package("com.a", "1.2.0+a", &[]),
        package("com.a", "1.1.0", &[]),
        package("com.a", "1.2.0+b", &[]),
    ];
    // the last of the equally new ones
    assert_eq!(latest_stable(&versions), Some(4));
    assert_eq!(latest_stable(&vec![package("com.a", "1.0.0-rc", &[])]), None);
    assert_eq!(latest_stable(&vec![]), None);
    assert_eq!(newest_version(&versions), Some(1));
    assert_eq!(newest_version(&vec![package("com.a", "1.0.0+a", &[]), package("com.a", "1.0.0+b", &[])]), Some(1));
    assert_eq!(newest_version(&vec![]), None);
}

#[test]
fn install_prompts() {
    assert_eq!(install_prompt(0, 0, 0, false), InstallPrompt::NothingToDo);
    assert_eq!(install_prompt(0, 1, 0, false), InstallPrompt::Proceed);
    assert_eq!(install_prompt(1, 1, 0, false), InstallPrompt::Proceed);
    assert_eq!(install_prompt(2, 1, 0, false), InstallPrompt::Confirm);
    assert_eq!(install_prompt(2, 1, 0, true), InstallPrompt::ConfirmSkipped);
    assert_eq!(install_prompt(1, 0, 3, false), InstallPrompt::Confirm);
    let lines = installing_lines(&[package("com.a", "1.0.0", &[]), package("com.b", "2.1.0-beta.1", &[])]);
    assert_eq!(lines, vec!["- com.a version 1.0.0".to_string(), "- com.b version 2.1.0-beta.1".to_string()]);
}

#[test]
fn packages_are_listed_newest_first_once() {
    let list = vec![
        package("com.a", "1.0.0", &[]),
        package("com.b", "2.0.0", &[]),
        package("com.c", "1.0.0+x", &[]),
        package("com.a", "1.0.0", &[]),
        package("com.d", "2.0.0", &[]),
        package("com.c", "1.0.0+y", &[]),
    ];
    let out: Vec<(String, String)> = listing_order(list).into_iter().map(|p| (p.name, p.version.to_string())).collect();
    assert_eq!(
        out,
        vec![
            ("com.b".to_string(), "2.0.0".to_string()),
            ("com.d".to_string(), "2.0.0".to_string()),
            ("com.a".to_string(), "1.0.0".to_string()),
            ("com.c".to_string(), "1.0.0+x".to_string()),
            ("com.c".to_string(), "1.0.0+y".to_string()),
        ]
    );
}

#[test]
fn needs_of_unlocked_packages_are_grouped() {
    let m = manifest(&[], vec![("com.locked", locked("1.0.0", &[]))]);
    let mut p = project(m);
    p.unlocked_packages = vec![
        ("com.x".to_string(), Some(package("com.x", "1.0.0", &[("com.y", ">=1.0.0"), ("com.locked", "^1.0.0")]))),
        ("broken".to_string(), None),
        ("com.z".to_string(), Some(package("com.z", "1.0.0", &[("com.w", "1.x"), ("com.y", "<2.0.0")]))),
    ];
    let groups = unlocked_requirements(&p);
    let names: Vec<&str> = groups.iter().map(|(n, _)| n.as_str()).collect();
    assert_eq!(names, vec!["com.y", "com.w"]);
    assert_eq!(groups[0].1.len(), 2);
    assert!(groups[0].1[1].matches(&version("1.5.0")));
    assert!(!groups[0].1[1].matches(&version("2.0.0")));
    assert_eq!(groups[1].1.len(), 1);
}

#[test]
fn stray_repository_files_are_found() {
    let user_files = vec!["mine.json".to_string(), "other.json".to_string()];
    let entries: Vec<(String, bool)> = [
        ("vrc-official.json", true),
        ("abc.json", true),
        ("folder.json", false),
        (".json", true),
        ("readme.txt", true),
        ("mine.json", true),
        ("vrc-curated.json", true),
        ("..json", true),
        ("upper.JSON", true),
        ("zz.json", true),
    ]
    .iter()
    .map(|(n, f)| (n.to_string(), *f))
    .collect();
    assert_eq!(undefined_repo_files(&user_files, &entries), vec!["abc.json".to_string(), "..json".to_string(), "zz.json".to_string()]);
    assert!(undefined_repo_files(&user_files, &[]).is_empty());
}

#[test]
fn user_repositories_are_found_by_url_and_name() {
    let repos = vec![
        UserRepoSetting::new(PathBuf::from("a.json"), Some("A".to_string()), Some("https://a.example/index.json".to_string()), None),
        UserRepoSetting::new(PathBuf::from("b.json"), None, Some("https://b.example/index.json".to_string()), None),
        UserRepoSetting::new(PathBuf::from("c.json"), Some("A".to_string()), None, None),
    ];
    assert_eq!(repos_with_url(&repos, "https://b.example/index.json"), vec![1]);
    assert_eq!(repos_with_url(&repos, "https://c.example/index.json"), Vec::<usize>::new());
    assert_eq!(repos_with_name(&repos, "A"), vec![0, 2]);
    assert_eq!(repos_with_name(&repos, "B"), Vec::<usize>::new());
}

fn archive(files: &[(&str, &[u8])]) -> Vec<u8> {
    let mut writer = zip::ZipWriter::new(std::io::Cursor::new(Vec::new()));
    for (name, data) in files {
        let options = zip::write::SimpleFileOptions::default().compression_method(zip::CompressionMethod::Stored);
        writer.start_file(*name, options).unwrap();
        writer.write_all(data).unwrap();
    }
    writer.finish().unwrap().into_inner()
}

#[test]
fn archives_are_planned_for_extraction() {
    let bytes = archive(&[("package.json", b"{}"), ("Runtime/a.cs", b"class A {}")]);
    match plan_extraction(&bytes) {
        Ok((entries, n)) => {
            assert_eq!(n, 2);
            assert_eq!(entries[0].name, "package.json");
            assert_eq!(entries[1].data, b"class A {}".to_vec());
            assert!(!entries[1].is_dir);
        }
        Err(_) => panic!("archive refused"),
    }
    let bytes = archive(&[("ok.txt", b"1"), ("../evil.txt", b"2"), ("late.txt", b"3")]);
    match plan_extraction(&bytes) {
        Err((entries, ExtractError::Traversal(i))) => {
            assert_eq!(i, 1);
            assert_eq!(entries[i].name, "../evil.txt");
        }
        _ => panic!("traversal not found"),
    }
    assert!(matches!(plan_extraction(b"not a zip"), Err((_, ExtractError::BadArchive))));
    // a damaged second entry: the first is still extracted
    let mut bytes = archive(&[("a.txt", b"first-data"), ("b.txt", b"second-data")]);
    let at = bytes.windows(11).position(|w| w == b"second-data").unwrap();
    bytes[at] = b'S';
    match plan_extraction(&bytes) {
        Err((entries, ExtractError::BadEntry(i))) => {
            assert_eq!(i, 1);
            assert_eq!(entries.len(), 1);
            assert_eq!(entries[0].name, "a.txt");
        }
        _ => panic!("damaged entry not found"),
    }
    let bytes = archive(&[("a/b.txt", b"1"), ("a/../../up.txt", b"2")]);
    assert!(matches!(plan_extraction(&bytes), Err((_, ExtractError::Traversal(1)))));
    let bytes = archive(&[("/etc/passwd", b"1")]);
    assert!(matches!(plan_extraction(&bytes), Err((_, ExtractError::Traversal(0)))));
    let bytes = archive(&[("a/..b/c.txt", b"1"), ("x/y..", b"2")]);
    assert!(matches!(plan_extraction(&bytes), Ok((_, 2))));
    let entries = vec![ZipEntry { name: "a".to_string(), is_dir: false, data: vec![] }];
    assert_eq!(extraction_plan(&entries, &[vec![PathComponent::Normal]]), Ok(1));
    assert_eq!(extraction_plan(&entries, &[vec![PathComponent::RootDir, PathComponent::Normal]]), Err(0));
}

#[test]
fn a_pending_package_replaces_those_of_its_name() {
    let mut queue = vec![package("com.a", "1.0.0", &[]), package("com.b", "1.0.0", &[]), package("com.a", "1.1.0", &[])];
    add_pending_package(&mut queue, package("com.a", "2.0.0", &[]));
    let waiting: Vec<String> = queue.iter().map(|p| format!("{}@{}", p.name, p.version.to_string())).collect();
    assert_eq!(waiting, vec!["com.b@1.0.0".to_string(), "com.a@2.0.0".to_string()]);
    add_pending_package(&mut queue, package("com.c", "1.0.0", &[]));
    assert_eq!(queue.len(), 3);
    assert_eq!(queue[2].name, "com.c");
}
