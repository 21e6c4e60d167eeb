//! Unit tests of the parsers, keys, cache paths, the fetch planner,
//! and chunk assembly.

use mops_core::error::Error;
use mops_core::fetcher::{assemble_chunks, fetch_plan, generate_moc_args, join_path};
use mops_core::github::{body_or_not_found, branch_api_url, branch_from_response, commits_api_url,
    parse_github_url, pin_repo, raw_file_url, sha_from_response};
use mops_core::manifest::{classify_dep, manifest_config, parse_mops_toml};
use mops_core::model::{Mops, Package, PackageType, RepoInfo};

fn repo_pkg() -> Package {
    Package {
        name: "lib".to_string(),
        version: Some("0.3.0".to_string()),
        source: "github".to_string(),
        base_dir: "lib/src".to_string(),
        repo: Some(RepoInfo {
            repo: "owner/lib".to_string(),
            tag: "v0.3.0".to_string(),
            commit: "907a4e7363aac6c6a4e114ebc73e3d3f21e138af".to_string(),
            base_dir: "src".to_string(),
        }),
        dependencies: vec![],
    }
}

#[test]
fn classification_truth_table() {
    // URL prefix wins over everything
    for exists in [false, true] {
        let m = classify_dep(
            "x".to_string(),
            "https://github.com/o/r".to_string(),
            exists,
        );
        assert!(matches!(m, Mops::Repo { .. }));
    }
    // an existing path is local
    let m = classify_dep("x".to_string(), "./vendor/foo".to_string(), true);
    assert!(matches!(m, Mops::Local { .. }));
    // anything else is a registry pin
    let m = classify_dep("x".to_string(), "./vendor/foo".to_string(), false);
    assert!(matches!(m, Mops::Mops { .. }));
    let m = classify_dep("x".to_string(), "1.0.0".to_string(), false);
    assert!(matches!(m, Mops::Mops { .. }));
}

#[test]
fn display_keys_record_what_was_written() {
    let m = Mops::Mops { name: "a".to_string(), version: "1.0.0".to_string() };
    assert_eq!(m.get_display_key(), "a-1.0.0");
    let m = Mops::Repo {
        name: "lib".to_string(),
        repo: "https://github.com/owner/lib".to_string(),
    };
    assert_eq!(m.get_display_key(), "lib-https://github.com/owner/lib");
    let m = Mops::Local { name: "l".to_string(), path: "./vendor/foo".to_string() };
    assert_eq!(m.get_display_key(), "l-./vendor/foo");
}

#[test]
fn package_keys_and_paths() {
    let p = repo_pkg();
    assert!(matches!(p.get_type(), PackageType::Repo(_)));
    assert_eq!(p.get_key(), "lib-907a4e7363aac6c6a4e114ebc73e3d3f21e138af");
    assert_eq!(p.get_path(), "git/owner-lib/907a4e73");
    assert_eq!(p.get_done_file(), ".mops-done");

    let p = Package {
        name: "a".to_string(),
        version: Some("1.0.0".to_string()),
        source: "S".to_string(),
        base_dir: "src".to_string(),
        repo: None,
        dependencies: vec![],
    };
    assert_eq!(p.get_key(), "a-1.0.0");
    assert_eq!(p.get_path(), "mops/a-1.0.0");
    assert_eq!(p.get_done_file(), "DONE");

    let p = Package {
        name: "l".to_string(),
        version: None,
        source: "file:///work/vendor/foo".to_string(),
        base_dir: "src".to_string(),
        repo: None,
        dependencies: vec![],
    };
    assert_eq!(p.get_key(), "l-/work/vendor/foo");
    assert_eq!(p.get_path(), "/work/vendor/foo");
    assert_eq!(p.get_done_file(), "");
}

#[test]
fn moc_args_follow_lockfile_order() {
    let pkgs = vec![
        Package {
            name: "a".to_string(),
            version: Some("1.0.0".to_string()),
            source: "S".to_string(),
            base_dir: "src".to_string(),
            repo: None,
            dependencies: vec![],
        },
        Package {
            name: "l".to_string(),
            version: None,
            source: "file:///work/vendor/foo".to_string(),
            base_dir: "src".to_string(),
            repo: None,
            dependencies: vec![],
        },
    ];
    let args = generate_moc_args(".mops", &pkgs);
    assert_eq!(args, vec![
        "--package".to_string(),
        "a".to_string(),
        ".mops/mops/a-1.0.0/src".to_string(),
        "--package".to_string(),
        "l".to_string(),
        "/work/vendor/foo/src".to_string(),
    ]);
}

#[test]
fn join_path_keeps_absolute_right_side() {
    assert_eq!(join_path("base", "mops/a-1.0.0"), "base/mops/a-1.0.0");
    assert_eq!(join_path("base", "/abs/p"), "/abs/p");
}

#[test]
fn fetch_plan_skips_done_and_local() {
    let pkgs = vec![
        Package {
            name: "a".to_string(),
            version: Some("1.0.0".to_string()),
            source: "S".to_string(),
            base_dir: "src".to_string(),
            repo: None,
            dependencies: vec![],
        },
        repo_pkg(),
        Package {
            name: "l".to_string(),
            version: None,
            source: "file:///work/vendor/foo".to_string(),
            base_dir: "src".to_string(),
            repo: None,
            dependencies: vec![],
        },
    ];
    // nothing fetched yet: both remote packages are planned, the local
    // one never is
    let plan = fetch_plan(&pkgs, &vec![false, false, false]);
    assert_eq!(plan.mops, vec![0]);
    assert_eq!(plan.repos, vec![1]);
    // all sentinels present: the second run performs no reads
    let plan = fetch_plan(&pkgs, &vec![true, true, true]);
    assert!(plan.mops.is_empty());
    assert!(plan.repos.is_empty());
    // one deleted package is restored alone
    let plan = fetch_plan(&pkgs, &vec![true, false, true]);
    assert!(plan.mops.is_empty());
    assert_eq!(plan.repos, vec![1]);
}

#[test]
fn chunks_concatenate_in_index_order() {
    let blob = assemble_chunks(vec![vec![1u8, 2], vec![], vec![3, 4, 5]]);
    assert_eq!(blob, vec![1u8, 2, 3, 4, 5]);
}

#[test]
fn url_parsing_accepted_forms() {
    let p = parse_github_url("https://github.com/chenyan2002/motoko-splay.git").unwrap();
    assert_eq!(p.repo, "chenyan2002/motoko-splay");
    assert!(p.tag.is_none());
    assert!(p.commit.is_none());

    let p = parse_github_url("https://github.com/owner/lib#v0.3.0").unwrap();
    assert_eq!(p.repo, "owner/lib");
    assert_eq!(p.tag.as_deref(), Some("v0.3.0"));
    assert!(p.commit.is_none());

    // the .git suffix is stripped from the name even when a ref follows
    let p = parse_github_url(
        "https://github.com/owner/lib.git#v0.3.0@907a4e7363aac6c6a4e114ebc73e3d3f21e138af",
    )
    .unwrap();
    assert_eq!(p.repo, "owner/lib");
    assert_eq!(p.tag.as_deref(), Some("v0.3.0"));
    assert_eq!(p.commit.as_deref(), Some("907a4e7363aac6c6a4e114ebc73e3d3f21e138af"));
}

#[test]
fn url_parsing_rejects_malformed() {
    assert!(matches!(
        parse_github_url("https://example.com/owner/lib"),
        Err(Error::MalformedUrl)
    ));
    assert!(matches!(parse_github_url("https://github.com/owneronly"), Err(Error::MalformedUrl)));
}

#[test]
fn pin_repo_rejects_short_commit() {
    let parts = parse_github_url("https://github.com/owner/lib#v1@deadbeef").unwrap();
    assert!(matches!(pin_repo(parts, None, None), Err(Error::MalformedUrl)));
}

#[test]
fn pin_repo_rejects_non_hex_commit() {
    let url = "https://github.com/owner/lib#v1@zzzzzzzzzzzzzzzzzzzzzzzzzzzzzzzzzzzzzzzz";
    let parts = parse_github_url(url).unwrap();
    assert_eq!(parts.commit.as_deref().map(str::len), Some(40));
    assert!(matches!(pin_repo(parts, None, None), Err(Error::MalformedUrl)));
}

#[test]
fn guess_version_strips_leading_v_on_triples() {
    let mk = |tag: &str| RepoInfo {
        repo: "o/r".to_string(),
        tag: tag.to_string(),
        commit: "0123456789012345678901234567890123456789".to_string(),
        base_dir: "src".to_string(),
    };
    assert_eq!(mk("v0.3.0").guess_version().as_deref(), Some("0.3.0"));
    assert_eq!(mk("1.2.3").guess_version().as_deref(), Some("1.2.3"));
    assert_eq!(mk("main").guess_version(), None);
    assert_eq!(mk("v1.2").guess_version(), None);
    assert_eq!(mk("v1.2.x").guess_version(), None);
}

#[test]
fn api_urls() {
    assert_eq!(branch_api_url("owner/lib"), "https://api.github.com/repos/owner/lib");
    assert_eq!(
        commits_api_url("owner/lib", "main"),
        "https://api.github.com/repos/owner/lib/commits/main"
    );
    let info = RepoInfo {
        repo: "owner/lib".to_string(),
        tag: "main".to_string(),
        commit: "907a4e7363aac6c6a4e114ebc73e3d3f21e138af".to_string(),
        base_dir: "src".to_string(),
    };
    assert_eq!(
        raw_file_url(&info, "mops.toml"),
        "https://raw.githubusercontent.com/owner/lib/907a4e7363aac6c6a4e114ebc73e3d3f21e138af/mops.toml"
    );
}

#[test]
fn response_decoding() {
    // the field is read out of the JSON shape, not echoed back
    assert_eq!(
        branch_from_response("{\"default_branch\": \"main\", \"id\": 7}").unwrap(),
        "main"
    );
    match branch_from_response("not json at all") {
        Err(Error::Decode(m)) => assert_eq!(m, "not json at all"),
        _ => panic!("expected a decode error"),
    }
    assert_eq!(
        sha_from_response("{\"sha\": \"907a4e7363aac6c6a4e114ebc73e3d3f21e138af\"}").unwrap(),
        "907a4e7363aac6c6a4e114ebc73e3d3f21e138af"
    );
    match sha_from_response("{\"message\": \"Not Found\"}") {
        Err(Error::Decode(_)) => {},
        _ => panic!("expected a decode error"),
    }
}

#[test]
fn raw_file_bodies() {
    match body_or_not_found("404: Not Found anywhere".to_string()) {
        Err(Error::NotFound(m)) => assert_eq!(m, "file not found"),
        _ => panic!("expected not-found"),
    }
    assert_eq!(body_or_not_found("[package]".to_string()).unwrap(), "[package]");
}

#[test]
fn manifest_parsing_reads_version_and_deps() {
    let text = "# a manifest\n\
                [package]\n\
                name = \"me\"\n\
                version = \"0.1.0\"\n\
                \n\
                [dependencies]\n\
                a = \"1.0.0\"\n\
                lib = \"https://github.com/owner/lib\"\n\
                \n\
                [toolchain]\n\
                moc = \"0.10.0\"\n";
    let raw = parse_mops_toml(text).unwrap();
    assert_eq!(raw.version.as_deref(), Some("0.1.0"));
    assert_eq!(raw.entries, vec![
        ("a".to_string(), "1.0.0".to_string()),
        ("lib".to_string(), "https://github.com/owner/lib".to_string()),
    ]);
    let cfg = manifest_config(raw, &vec![false, false]);
    assert_eq!(cfg.version.as_deref(), Some("0.1.0"));
    assert!(matches!(cfg.dependencies[0], Mops::Mops { .. }));
    assert!(matches!(cfg.dependencies[1], Mops::Repo { .. }));
}

#[test]
fn manifest_rejects_bad_shapes() {
    // dependencies value that is not a quoted string
    match parse_mops_toml("[dependencies]\na = 1\n") {
        Err(Error::Decode(m)) => assert_eq!(m, "invalid manifest"),
        _ => panic!("expected a decode error"),
    }
    // a version that is not a string
    assert!(parse_mops_toml("[package]\nversion = 3\n").is_err());
    // a line of no known shape
    assert!(parse_mops_toml("what is this\n").is_err());
    // an unclosed section header
    assert!(parse_mops_toml("[package\n").is_err());
}

#[test]
fn manifest_tolerates_unknown_sections_and_keys() {
    let text = "[package]\nname = \"me\"\n[unknown]\nkey = \"v\"\n";
    let raw = parse_mops_toml(text).unwrap();
    assert!(raw.version.is_none());
    assert!(raw.entries.is_empty());
}

#[test]
fn manifest_accepts_trailing_comments_and_string_forms() {
    let text = "[package] # metadata\n\
                version = \"0.1.0\"  # pinned\n\
                [dependencies]\n\
                a = \"1.0.0\" # registry pin\n\
                b = 'https://github.com/o/r#v1'\n";
    let raw = parse_mops_toml(text).unwrap();
    assert_eq!(raw.version.as_deref(), Some("0.1.0"));
    assert_eq!(raw.entries, vec![
        ("a".to_string(), "1.0.0".to_string()),
        ("b".to_string(), "https://github.com/o/r#v1".to_string()),
    ]);
}

#[test]
fn manifest_reads_dotted_top_level_keys() {
    let text = "package.version = \"0.2.0\"\ndependencies.a = \"1.0.0\"\nother.key = 3\n";
    let raw = parse_mops_toml(text).unwrap();
    assert_eq!(raw.version.as_deref(), Some("0.2.0"));
    assert_eq!(raw.entries, vec![("a".to_string(), "1.0.0".to_string())]);
}

#[test]
fn manifest_rejects_nested_dependency_tables_and_trailing_junk() {
    // a dotted key inside [dependencies] makes the entry a table
    assert!(parse_mops_toml("[dependencies]\na.b = \"1.0.0\"\n").is_err());
    // text after the closing quote that is not a comment
    assert!(parse_mops_toml("[dependencies]\na = \"1.0.0\" junk\n").is_err());
    // a deeper dotted top-level dependency key
    assert!(parse_mops_toml("dependencies.a.b = \"1.0.0\"\n").is_err());
}

#[test]
fn error_messages() {
    assert_eq!(Error::MalformedUrl.message(), "invalid url");
    assert_eq!(Error::NotFound("file not found".to_string()).message(), "file not found");
    assert_eq!(
        Error::VersionConflict("A".to_string(), "B".to_string()).message(),
        "Version conflict:\nA\nand\n\nB"
    );
}
