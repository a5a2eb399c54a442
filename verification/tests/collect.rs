use yoctofy::collect::{
    collect_git_crates, collect_git_crates_from_lock, collect_git_repos,
    collect_git_repos_from_lock, collect_other_registry_crates, collect_registry_crates,
    collect_runtime_licenses,
};
use yoctofy::error::RecipeError;
use yoctofy::model::{
    CrateId, CrateInfo, GitCrate, GitRepo, LockPackage, LockSource, Package, SourceKind,
};
use yoctofy::order::{OrderedMap, OrderedSet};
use yoctofy::plan::index_packages;

fn package(name: &str, version: &str, source: Option<&str>) -> Package {
    Package {
        id: format!("{name} {version}"),
        name: name.to_string(),
        version: version.to_string(),
        source: source.map(|s| s.to_string()),
        manifest_path: format!("/c/checkouts/repo-1/abc/crates/{name}/Cargo.toml"),
        license: None,
    }
}

fn ids(crates: &[(&str, &str)]) -> OrderedSet<CrateId> {
    let mut set: OrderedSet<CrateId> = OrderedSet::new();
    for (name, version) in crates {
        set.insert(CrateId::new(name, version));
    }
    set
}

fn sums(entries: &[(&str, &str, &str)]) -> OrderedMap<CrateId, String> {
    let mut map: OrderedMap<CrateId, String> = OrderedMap::new();
    for (name, version, checksum) in entries {
        map.insert(CrateId::new(name, version), checksum.to_string());
    }
    map
}

fn locked(name: &str, version: &str, kind: SourceKind, url: &str, sum: Option<&str>) -> LockPackage {
    LockPackage {
        name: name.to_string(),
        version: version.to_string(),
        source: Some(LockSource {
            kind,
            url: url.to_string(),
            precise: Some("locked".to_string()),
        }),
        checksum: sum.map(|s| s.to_string()),
    }
}

fn info(name: &str, version: &str, checksum: &str) -> CrateInfo {
    CrateInfo {
        name: name.to_string(),
        version: version.to_string(),
        checksum: checksum.to_string(),
    }
}

fn repo(url: &str, rev: &str, name: &str) -> GitRepo {
    GitRepo { url: url.to_string(), rev: rev.to_string(), name: name.to_string() }
}

fn git_crate(name: &str, repo_name: &str, path_in_repo: &str) -> GitCrate {
    GitCrate {
        name: name.to_string(),
        repo_name: repo_name.to_string(),
        path_in_repo: path_in_repo.to_string(),
    }
}

const REGISTRY: &str = "registry+https://github.com/rust-lang/crates.io-index";

#[test]
fn sources_of_packages() {
    assert!(package("a", "1", Some("git+https://h/a#1")).is_git_source());
    assert!(!package("a", "1", Some(REGISTRY)).is_git_source());
    assert!(!package("a", "1", None).is_git_source());
    assert!(package("a", "1", Some(REGISTRY)).is_registry_source());
    assert!(!package("a", "1", Some("sparse+https://h/")).is_registry_source());
    assert!(!package("a", "1", None).is_registry_source());
}

#[test]
fn registry_crates_have_their_checksums() {
    let packages = vec![
        package("b", "1", Some(REGISTRY)),
        package("a", "2", Some(REGISTRY)),
        package("a", "1", Some(REGISTRY)),
        package("g", "1", Some("git+https://h/g#1")),
        package("own", "1", None),
        package("s", "1", Some("sparse+https://h/")),
        package("unasked", "1", Some(REGISTRY)),
    ];
    let mut warnings: Vec<String> = vec!["before".to_string()];
    let crates = collect_registry_crates(
        &ids(&[("b", "1"), ("a", "2"), ("a", "1"), ("g", "1"), ("own", "1"), ("s", "1"), ("x", "1")]),
        &index_packages(&packages),
        &sums(&[("a", "1", "11"), ("a", "2", "22"), ("b", "1", "33")]),
        &mut warnings,
    );
    assert_eq!(crates, Ok(vec![info("a", "1", "11"), info("a", "2", "22"), info("b", "1", "33")]));
    assert_eq!(warnings, vec!["before", "skipping unknown source s 1: sparse+https://h/"]);
}

#[test]
fn registry_crate_without_checksum() {
    let packages = vec![
        package("a", "1", Some("alternative+x")),
        package("b", "1", Some(REGISTRY)),
        package("c", "1", Some("alternative+y")),
        package("d", "1", Some(REGISTRY)),
    ];
    let mut warnings: Vec<String> = Vec::new();
    let error = collect_registry_crates(
        &ids(&[("a", "1"), ("b", "1"), ("c", "1"), ("d", "1")]),
        &index_packages(&packages),
        &sums(&[("a", "1", "11")]),
        &mut warnings,
    )
    .unwrap_err();
    assert_eq!(
        error,
        RecipeError::MissingChecksum { name: "b".to_string(), version: "1".to_string() }
    );
    assert_eq!(error.message(), "missing checksum for b 1 (not in Cargo.lock?)");
    assert_eq!(warnings, vec!["skipping unknown source a 1: alternative+x"]);
}

#[test]
fn other_registry_crates_come_from_the_lock_file() {
    let mut path = locked("p", "1", SourceKind::Registry, "", Some("44"));
    path.source = None;
    let lock = vec![
        locked("z", "1", SourceKind::SparseRegistry, "https://h/", Some("11")),
        locked("a", "1", SourceKind::Registry, "https://h/", Some("22")),
        locked("a", "1", SourceKind::Registry, "https://other/", Some("33")),
        locked("g", "1", SourceKind::Git, "https://h/g", Some("55")),
        locked("o", "1", SourceKind::Other, "https://h/o", Some("66")),
        locked("n", "1", SourceKind::Registry, "https://h/", None),
        locked("unasked", "1", SourceKind::Registry, "https://h/", Some("77")),
        path,
    ];
    let wanted = ids(&[("z", "1"), ("a", "1"), ("g", "1"), ("o", "1"), ("n", "1"), ("p", "1")]);
    assert_eq!(
        collect_other_registry_crates(&wanted, &lock),
        Ok(vec![info("a", "1", "22"), info("z", "1", "11")])
    );
}

#[test]
fn repositories_once_for_each_address() {
    let packages = vec![
        package("a", "1", Some("git+https://h/zeta.git?rev=1#r1")),
        package("b", "1", Some("git+https://h/zeta.git?rev=2#r2")),
        package("c", "1", Some("git+https://h/alpha#r3")),
        package("d", "1", Some(REGISTRY)),
        package("e", "1", Some("git+https://h/broken")),
        package("f", "1", None),
    ];
    let wanted = ids(&[("b", "1"), ("a", "1"), ("c", "1"), ("d", "1"), ("e", "1"), ("f", "1")]);
    assert_eq!(
        collect_git_repos(&wanted, &index_packages(&packages)),
        vec![
            repo("https://h/alpha", "r3", "alpha"),
            repo("https://h/zeta.git", "r1", "zeta"),
        ]
    );
}

#[test]
fn repositories_of_the_lock_file() {
    let mut bare = locked("c", "1", SourceKind::Git, "https://h/alpha/", None);
    bare.source.as_mut().unwrap().precise = None;
    let lock = vec![
        locked("a", "1", SourceKind::Git, "https://h/zeta.git", None),
        locked("b", "1", SourceKind::Registry, "https://h/b", Some("1")),
        bare,
        locked("d", "1", SourceKind::Git, "https://h/zeta.git", None),
        locked("unasked", "1", SourceKind::Git, "https://h/unasked", None),
    ];
    let wanted = ids(&[("a", "1"), ("b", "1"), ("c", "1"), ("d", "1")]);
    assert_eq!(
        collect_git_repos_from_lock(&wanted, &lock),
        vec![repo("https://h/alpha/", "", "alpha"), repo("https://h/zeta.git", "locked", "zeta")]
    );
}

#[test]
fn git_crates_know_their_place() {
    let mut top = package("b", "1", Some("git+https://h/tools.git#r"));
    top.manifest_path = "/c/checkouts/tools-1/abc/Cargo.toml".to_string();
    let packages = vec![
        package("z", "1", Some("git+https://h/tools.git#r")),
        top,
        package("d", "1", Some(REGISTRY)),
    ];
    assert_eq!(
        collect_git_crates(&ids(&[("b", "1"), ("d", "1"), ("z", "1")]), &index_packages(&packages)),
        vec![git_crate("b", "tools", ""), git_crate("z", "tools", "crates/z")]
    );
}

#[test]
fn git_crates_of_the_lock_file() {
    let lock = vec![
        locked("z", "1", SourceKind::Git, "https://h/tools.git", None),
        locked("tools", "1", SourceKind::Git, "https://h/tools.git", None),
        locked("z", "2", SourceKind::Git, "https://h/more", None),
        locked("b", "1", SourceKind::Registry, "https://h/b", Some("1")),
    ];
    assert_eq!(
        collect_git_crates_from_lock(
            &ids(&[("z", "1"), ("z", "2"), ("tools", "1"), ("b", "1")]),
            &lock
        ),
        vec![
            git_crate("tools", "tools", ""),
            git_crate("z", "tools", "z"),
            git_crate("z", "more", "z"),
        ]
    );
}

#[test]
fn place_of_a_git_crate() {
    assert_eq!(git_crate("a", "tools", "").local_path(), "../tools");
    assert_eq!(git_crate("a", "tools", "crates/a").local_path(), "../tools/crates/a");
}

#[test]
fn licenses_of_crates() {
    let mut mit = package("a", "1", Some(REGISTRY));
    mit.license = Some("MIT".to_string());
    let packages = vec![
        mit,
        package("b", "1", Some("git+https://h/b.git?branch=main#r1")),
        package("c", "1", Some("git+https://h/c")),
        package("d", "1", Some("sparse+https://h/")),
        package("e", "1", None),
    ];
    let wanted = ids(&[("a", "1"), ("b", "1"), ("c", "1"), ("d", "1"), ("e", "1"), ("x", "1")]);
    let told = collect_runtime_licenses(&wanted, &index_packages(&packages));
    assert_eq!(
        *told.keys(),
        vec!["crate://crates.io/a/1", "git+https://h/b.git@r1", "git+https://h/c"]
    );
    assert_eq!(*told.values(), vec!["MIT", "UNKNOWN", "UNKNOWN"]);
}

#[test]
fn last_license_of_a_repository_counts() {
    let mut first = package("a", "1", Some("git+https://h/b#r1"));
    first.license = Some("MIT".to_string());
    let mut second = package("b", "1", Some("git+https://h/b?tag=x#r1"));
    second.license = Some("BSD".to_string());
    let packages = vec![second, first];
    let told = collect_runtime_licenses(&ids(&[("a", "1"), ("b", "1")]), &index_packages(&packages));
    assert_eq!(*told.keys(), vec!["git+https://h/b@r1"]);
    assert_eq!(*told.values(), vec!["BSD"]);
}
