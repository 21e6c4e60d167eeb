//! End-to-end scenarios: walking a manifest against scripted registry
//! and host responses, resolving, and serializing the lockfile.

use mops_core::error::Error;
use mops_core::github::{parse_github_url, pin_repo, branch_from_response, sha_from_response};
use mops_core::lockfile::{serialize_lock, parse_mops_lock};
use mops_core::model::{Mops, Package, RepoInfo, join_key};
use mops_core::resolver::resolve_versions;
use mops_core::walker::{PackageDetails, RegistryDep, Walker, registry_package, repo_package,
    local_package};

fn details(storage: &str, base_dir: &str, deps: Vec<(&str, &str, &str)>) -> PackageDetails {
    PackageDetails {
        storage: storage.to_string(),
        base_dir: base_dir.to_string(),
        dependencies: deps
            .into_iter()
            .map(|(n, v, r)| RegistryDep {
                name: n.to_string(),
                version: v.to_string(),
                repo: r.to_string(),
            })
            .collect(),
    }
}

/// Drive one registry dependency through the walker, as the
/// application's loop does, against a scripted response.
fn step_registry(w: &mut Walker, name: String, version: String, det: PackageDetails) {
    let key = join_key(&name, &version);
    if w.has_package(&key) {
        return;
    }
    let (pkg, subs) = registry_package(name, version, det);
    assert!(!w.has_package(&pkg.get_key()));
    w.insert_package(pkg, subs);
}

#[test]
fn registry_only_no_transitive() {
    let mut w = Walker::new();
    w.enqueue(Mops::Mops { name: "a".to_string(), version: "1.0.0".to_string() });
    let dep = w.pop_dep().unwrap();
    match dep {
        Mops::Mops { name, version } => {
            step_registry(&mut w, name, version, details("S", "src", vec![]));
        },
        _ => panic!("expected a registry reference"),
    }
    assert!(w.pop_dep().is_none());
    let pkgs = resolve_versions(w.map).unwrap();
    assert_eq!(pkgs.len(), 1);
    assert_eq!(pkgs[0].name, "a");
    assert_eq!(pkgs[0].version.as_deref(), Some("1.0.0"));
    assert_eq!(pkgs[0].source, "S");
    assert_eq!(pkgs[0].base_dir, "src");
    assert!(pkgs[0].repo.is_none());
    assert!(pkgs[0].dependencies.is_empty());
}

#[test]
fn transitive_diamond() {
    let mut w = Walker::new();
    w.enqueue(Mops::Mops { name: "a".to_string(), version: "1.0.0".to_string() });
    w.enqueue(Mops::Mops { name: "b".to_string(), version: "1.0.0".to_string() });
    while let Some(dep) = w.pop_dep() {
        match dep {
            Mops::Mops { name, version } => {
                let det = match name.as_str() {
                    "a" => details("SA", "src", vec![("c", "2.0.0", "")]),
                    "b" => details("SB", "src", vec![("c", "2.0.0", "")]),
                    "c" => details("SC", "src", vec![]),
                    _ => panic!("unexpected package"),
                };
                step_registry(&mut w, name, version, det);
            },
            _ => panic!("expected registry references only"),
        }
    }
    let pkgs = resolve_versions(w.map).unwrap();
    assert_eq!(pkgs.len(), 3);
    let c_count = pkgs.iter().filter(|p| p.name == "c").count();
    assert_eq!(c_count, 1);
    for n in ["a", "b"] {
        let p = pkgs.iter().find(|p| p.name == n).unwrap();
        assert_eq!(p.dependencies, vec!["c-2.0.0".to_string()]);
    }
}

#[test]
fn version_conflict_newer_parseable_version_wins() {
    // two registry pins of c with parseable versions collapse to the
    // newer one; only an unparseable or missing version aborts
    let mut w = Walker::new();
    w.enqueue(Mops::Mops { name: "a".to_string(), version: "1.0.0".to_string() });
    w.enqueue(Mops::Mops { name: "b".to_string(), version: "1.0.0".to_string() });
    while let Some(dep) = w.pop_dep() {
        match dep {
            Mops::Mops { name, version } => {
                let det = match (name.as_str(), version.as_str()) {
                    ("a", _) => details("SA", "src", vec![("c", "1.0.0", "")]),
                    ("b", _) => details("SB", "src", vec![("c", "2.0.0", "")]),
                    ("c", "1.0.0") => details("SC1", "src", vec![]),
                    ("c", "2.0.0") => details("SC2", "src", vec![]),
                    _ => panic!("unexpected package"),
                };
                step_registry(&mut w, name, version, det);
            },
            _ => panic!("expected registry references only"),
        }
    }
    let pkgs = resolve_versions(w.map).unwrap();
    let c: Vec<&Package> = pkgs.iter().filter(|p| p.name == "c").collect();
    assert_eq!(c.len(), 1);
    assert_eq!(c[0].version.as_deref(), Some("2.0.0"));
}

#[test]
fn version_conflict_aborts_on_unparseable() {
    let mut w = Walker::new();
    w.enqueue(Mops::Mops { name: "a".to_string(), version: "1.0.0".to_string() });
    w.enqueue(Mops::Mops { name: "b".to_string(), version: "1.0.0".to_string() });
    while let Some(dep) = w.pop_dep() {
        match dep {
            Mops::Mops { name, version } => {
                let det = match (name.as_str(), version.as_str()) {
                    ("a", _) => details("SA", "src", vec![("c", "1.0.0", "")]),
                    ("b", _) => details("SB", "src", vec![("c", "latest", "")]),
                    ("c", "1.0.0") => details("SC1", "src", vec![]),
                    ("c", "latest") => details("SC2", "src", vec![]),
                    _ => panic!("unexpected package"),
                };
                step_registry(&mut w, name, version, det);
            },
            _ => panic!("expected registry references only"),
        }
    }
    match resolve_versions(w.map) {
        Err(Error::VersionConflict(a, b)) => {
            assert!(a.contains("name = \"c\""));
            assert!(b.contains("name = \"c\""));
        },
        _ => panic!("expected a version conflict"),
    }
}

#[test]
fn repo_dependency_fully_pinned() {
    let url = "https://github.com/owner/lib#v0.3.0@907a4e7363aac6c6a4e114ebc73e3d3f21e138af";
    let parts = parse_github_url(url).unwrap();
    assert_eq!(parts.repo, "owner/lib");
    assert_eq!(parts.tag.as_deref(), Some("v0.3.0"));
    assert_eq!(
        parts.commit.as_deref(),
        Some("907a4e7363aac6c6a4e114ebc73e3d3f21e138af")
    );
    // both parts are pinned: no host-API responses are needed
    let info = pin_repo(parts, None, None).unwrap();
    assert_eq!(info.repo, "owner/lib");
    assert_eq!(info.tag, "v0.3.0");
    assert_eq!(info.commit, "907a4e7363aac6c6a4e114ebc73e3d3f21e138af");
    assert_eq!(info.base_dir, "src");
    assert_eq!(info.guess_version().as_deref(), Some("0.3.0"));
    let (pkg, subs) = repo_package("lib".to_string(), info, None);
    assert!(subs.is_empty());
    assert_eq!(pkg.source, "github");
    assert_eq!(pkg.version.as_deref(), Some("0.3.0"));
}

#[test]
fn repo_dependency_unresolved_ref() {
    let parts = parse_github_url("https://github.com/owner/lib").unwrap();
    assert_eq!(parts.repo, "owner/lib");
    assert!(parts.tag.is_none());
    assert!(parts.commit.is_none());
    // the application must now call the two host endpoints; their
    // responses decode here
    let branch = branch_from_response("{\"default_branch\": \"main\"}").unwrap();
    assert_eq!(branch, "main");
    let sha =
        sha_from_response("{\"sha\": \"907a4e7363aac6c6a4e114ebc73e3d3f21e138af\"}").unwrap();
    let info = pin_repo(parts, Some(branch), Some(sha)).unwrap();
    assert_eq!(info.tag, "main");
    assert_eq!(info.commit, "907a4e7363aac6c6a4e114ebc73e3d3f21e138af");
}

#[test]
fn local_dependency() {
    let text = "[package]\nversion = \"0.1.0\"\n\n[dependencies]\na = \"1.0.0\"\n";
    let raw = mops_core::manifest::parse_mops_toml(text).unwrap();
    assert_eq!(raw.version.as_deref(), Some("0.1.0"));
    let exists = vec![false; raw.entries.len()];
    let cfg = mops_core::manifest::manifest_config(raw, &exists);
    let (pkg, subs) = local_package("local".to_string(), "/work/vendor/foo".to_string(), Some(cfg));
    assert_eq!(pkg.source, "file:///work/vendor/foo");
    assert_eq!(pkg.version.as_deref(), Some("0.1.0"));
    assert_eq!(pkg.dependencies, vec!["a-1.0.0".to_string()]);
    assert_eq!(subs.len(), 1);
}

#[test]
fn lockfile_bytes_are_deterministic() {
    let mk = || {
        let mut w = Walker::new();
        w.enqueue(Mops::Mops { name: "a".to_string(), version: "1.0.0".to_string() });
        let dep = w.pop_dep().unwrap();
        match dep {
            Mops::Mops { name, version } => {
                step_registry(&mut w, name, version, details("S", "src", vec![]));
            },
            _ => unreachable!(),
        }
        serialize_lock(&resolve_versions(w.map).unwrap())
    };
    assert_eq!(mk(), mk());
}

#[test]
fn lockfile_exact_bytes() {
    let pkgs = vec![Package {
        name: "a".to_string(),
        version: Some("1.0.0".to_string()),
        source: "S".to_string(),
        base_dir: "src".to_string(),
        repo: None,
        dependencies: vec![],
    }];
    let text = serialize_lock(&pkgs);
    let expected = "# This file is auto-generated by mops.\n\
                    # It is not intended for manual editing.\n\
                    \n\
                    [[package]]\n\
                    name = \"a\"\n\
                    version = \"1.0.0\"\n\
                    source = \"S\"\n\
                    base_dir = \"src\"\n\
                    dependencies = []\n";
    assert_eq!(text, expected);
}

#[test]
fn lockfile_round_trip() {
    let pkgs = vec![
        Package {
            name: "a".to_string(),
            version: Some("1.0.0".to_string()),
            source: "S".to_string(),
            base_dir: "src".to_string(),
            repo: None,
            dependencies: vec!["c-2.0.0".to_string(), "lib-x".to_string()],
        },
        Package {
            name: "lib".to_string(),
            version: None,
            source: "github".to_string(),
            base_dir: "lib".to_string(),
            repo: Some(RepoInfo {
                repo: "owner/lib".to_string(),
                tag: "main".to_string(),
                commit: "907a4e7363aac6c6a4e114ebc73e3d3f21e138af".to_string(),
                base_dir: "src".to_string(),
            }),
            dependencies: vec![],
        },
        Package {
            name: "local".to_string(),
            version: Some("0.1.0".to_string()),
            source: "file:///work/vendor/foo".to_string(),
            base_dir: "src".to_string(),
            repo: None,
            dependencies: vec![],
        },
    ];
    let text = serialize_lock(&pkgs);
    let back = parse_mops_lock(&text).unwrap();
    assert_eq!(back.len(), pkgs.len());
    for (x, y) in back.iter().zip(pkgs.iter()) {
        assert_eq!(x.name, y.name);
        assert_eq!(x.version, y.version);
        assert_eq!(x.source, y.source);
        assert_eq!(x.base_dir, y.base_dir);
        assert_eq!(x.dependencies, y.dependencies);
        match (&x.repo, &y.repo) {
            (None, None) => {},
            (Some(a), Some(b)) => {
                assert_eq!(a.repo, b.repo);
                assert_eq!(a.tag, b.tag);
                assert_eq!(a.commit, b.commit);
                assert_eq!(a.base_dir, b.base_dir);
            },
            _ => panic!("repo mismatch"),
        }
    }
}

#[test]
fn corrupt_lockfile_is_fatal() {
    match parse_mops_lock("this is not a lockfile") {
        Err(Error::Decode(m)) => assert_eq!(m, "invalid lockfile"),
        _ => panic!("expected a decode error"),
    }
}

#[test]
fn resolver_keeps_newer_semver() {
    // 1.10.0 is newer than 1.2.3 under semver precedence, though it is
    // smaller in text order
    let mut w = Walker::new();
    for (v, s) in [("1.2.3", "S1"), ("1.10.0", "S2")] {
        let (pkg, subs) =
            registry_package("a".to_string(), v.to_string(), details(s, "src", vec![]));
        w.insert_package(pkg, subs);
    }
    let pkgs = resolve_versions(w.map).unwrap();
    assert_eq!(pkgs.len(), 1);
    assert_eq!(pkgs[0].version.as_deref(), Some("1.10.0"));
}

#[test]
fn resolver_conflict_on_missing_version() {
    let mut w = Walker::new();
    let (p1, s1) =
        registry_package("a".to_string(), "1.0.0".to_string(), details("S1", "src", vec![]));
    w.insert_package(p1, s1);
    let info = RepoInfo {
        repo: "owner/a".to_string(),
        tag: "main".to_string(),
        commit: "0123456789012345678901234567890123456789".to_string(),
        base_dir: "src".to_string(),
    };
    let (p2, s2) = repo_package("a".to_string(), info, None);
    assert!(p2.version.is_none());
    w.insert_package(p2, s2);
    assert!(matches!(resolve_versions(w.map), Err(Error::VersionConflict(_, _))));
}

#[test]
fn registry_subdep_with_empty_version_reads_as_repo() {
    let det = details("S", "src", vec![("lib", "", "https://github.com/owner/lib")]);
    let (pkg, subs) = registry_package("a".to_string(), "1.0.0".to_string(), det);
    assert_eq!(pkg.dependencies, vec!["lib-https://github.com/owner/lib".to_string()]);
    match &subs[0] {
        Mops::Repo { name, repo } => {
            assert_eq!(name, "lib");
            assert_eq!(repo, "https://github.com/owner/lib");
        },
        _ => panic!("expected a repository reference"),
    }
}

#[test]
fn cyclic_graph_terminates() {
    // a and b depend on each other; the dedup check bounds the walk
    let mut w = Walker::new();
    w.enqueue(Mops::Mops { name: "a".to_string(), version: "1.0.0".to_string() });
    let mut steps = 0;
    while let Some(dep) = w.pop_dep() {
        steps += 1;
        assert!(steps <= 16, "the walker must terminate on a cycle");
        match dep {
            Mops::Mops { name, version } => {
                let det = match name.as_str() {
                    "a" => details("SA", "src", vec![("b", "1.0.0", "")]),
                    "b" => details("SB", "src", vec![("a", "1.0.0", "")]),
                    _ => panic!("unexpected package"),
                };
                step_registry(&mut w, name, version, det);
            },
            _ => panic!("expected registry references only"),
        }
    }
    let pkgs = resolve_versions(w.map).unwrap();
    assert_eq!(pkgs.len(), 2);
}
