use yoctofy::error::RecipeError;
use yoctofy::license::licenses_json;
use yoctofy::lock::parse_lockfile;
use yoctofy::model::{
    CrateInfo, Dep, DepKind, GitCrate, GitRepo, LockPackage, Metadata, Node, Package, Resolve,
};
use yoctofy::output::{file_name, make_fragments, Output};
use yoctofy::plan::collect_dependencies;
use yoctofy::root::select_root;

const LOCK: &str = r#"version = 3

[[package]]
name = "whatever"
version = "0.1.0"
dependencies = ["serde", "tool", "cc"]

[[package]]
name = "serde"
version = "1.0.0"
source = "registry+https://github.com/rust-lang/crates.io-index"
checksum = "1111111111111111111111111111111111111111111111111111111111111111"

[[package]]
name = "tool"
version = "0.2.0"
source = "git+https://github.com/acme/tools.git?branch=main#0123abcd"

[[package]]
name = "helper"
version = "0.2.0"
source = "git+https://github.com/acme/tools.git?branch=main#0123abcd"

[[package]]
name = "gen"
version = "0.3.0"
source = "git+https://github.com/acme/gen#4567"

[[package]]
name = "cc"
version = "1.2.0"
source = "registry+https://github.com/rust-lang/crates.io-index"
checksum = "2222222222222222222222222222222222222222222222222222222222222222"
"#;

fn package(name: &str, version: &str, source: Option<&str>, license: Option<&str>) -> Package {
    Package {
        id: format!("{name}#{version}"),
        name: name.to_string(),
        version: version.to_string(),
        source: source.map(|s| s.to_string()),
        manifest_path: format!("/home/u/.cargo/git/checkouts/x-1/2/crates/{name}/Cargo.toml"),
        license: license.map(|s| s.to_string()),
    }
}

fn dep(pkg: &str, kind: Option<&str>) -> Dep {
    Dep { pkg: pkg.to_string(), dep_kinds: vec![DepKind { kind: kind.map(|s| s.to_string()) }] }
}

fn metadata() -> Metadata {
    let registry = Some("registry+https://github.com/rust-lang/crates.io-index");
    let tools = Some("git+https://github.com/acme/tools.git?branch=main#0123abcd");
    Metadata {
        packages: vec![
            package("whatever", "0.1.0", None, Some("MPL-2.0")),
            package("serde", "1.0.0", registry, Some("MIT OR Apache-2.0")),
            package("tool", "0.2.0", tools, None),
            package("helper", "0.2.0", tools, None),
            package("gen", "0.3.0", Some("git+https://github.com/acme/gen#4567"), None),
            package("cc", "1.2.0", registry, Some("MIT")),
        ],
        resolve: Some(Resolve {
            nodes: vec![
                Node {
                    id: "whatever#0.1.0".to_string(),
                    deps: vec![
                        dep("serde#1.0.0", None),
                        dep("tool#0.2.0", None),
                        dep("cc#1.2.0", Some("build")),
                    ],
                },
                Node { id: "cc#1.2.0".to_string(), deps: vec![dep("gen#0.3.0", None)] },
                Node { id: "tool#0.2.0".to_string(), deps: vec![dep("helper#0.2.0", Some("dev"))] },
            ],
        }),
        workspace_members: vec!["whatever#0.1.0".to_string()],
    }
}

fn lock() -> Vec<LockPackage> {
    parse_lockfile(LOCK).unwrap()
}

fn info(name: &str, version: &str, digit: &str) -> CrateInfo {
    CrateInfo { name: name.to_string(), version: version.to_string(), checksum: digit.repeat(64) }
}

fn repo(url: &str, rev: &str, name: &str) -> GitRepo {
    GitRepo { url: url.to_string(), rev: rev.to_string(), name: name.to_string() }
}

fn git_crate(name: &str, repo_name: &str, path_in_repo: &str) -> GitCrate {
    GitCrate {
        name: name.to_string(),
        repo_name: repo_name.to_string(),
        path_in_repo: path_in_repo.to_string(),
    }
}

#[test]
fn dependencies_of_a_package() {
    let meta = metadata();
    let root = select_root(&meta, "whatever").unwrap();
    assert_eq!(root, "whatever#0.1.0");
    let mut warnings: Vec<String> = Vec::new();
    let deps = collect_dependencies(&meta, &root, &lock(), &mut warnings).unwrap();
    assert!(warnings.is_empty());
    assert_eq!(deps.runtime_crates, vec![info("serde", "1.0.0", "1")]);
    assert_eq!(deps.other_crates, vec![info("cc", "1.2.0", "2")]);
    assert_eq!(
        deps.runtime_git,
        vec![repo("https://github.com/acme/tools.git", "0123abcd", "tools")]
    );
    assert_eq!(deps.other_git, vec![repo("https://github.com/acme/gen", "4567", "gen")]);
    assert_eq!(deps.runtime_git_crates, vec![git_crate("tool", "tools", "crates/tool")]);
    assert_eq!(
        deps.other_git_crates,
        vec![git_crate("gen", "gen", ""), git_crate("helper", "tools", "helper")]
    );
    assert_eq!(
        licenses_json(&deps.licenses),
        "{\n  \"crate://crates.io/serde/1.0.0\": \"MIT OR Apache-2.0\",\n  \"git+https://github.com/acme/tools.git@0123abcd\": \"UNKNOWN\"\n}"
    );
}

#[test]
fn dependencies_warn_of_unknown_sources() {
    let mut meta = metadata();
    meta.packages[1].source = Some("alternative+https://h/".to_string());
    let mut warnings: Vec<String> = Vec::new();
    let deps = collect_dependencies(&meta, "whatever#0.1.0", &lock(), &mut warnings).unwrap();
    assert_eq!(warnings, vec!["skipping unknown source serde 1.0.0: alternative+https://h/"]);
    assert!(deps.runtime_crates.is_empty());
    assert_eq!(deps.other_crates, vec![info("cc", "1.2.0", "2")]);
}

#[test]
fn dependencies_need_checksums() {
    let mut locked = lock();
    locked[1].checksum = None;
    let mut warnings: Vec<String> = Vec::new();
    let error = collect_dependencies(&metadata(), "whatever#0.1.0", &locked, &mut warnings).err();
    assert_eq!(
        error,
        Some(RecipeError::MissingChecksum { name: "serde".to_string(), version: "1.0.0".to_string() })
    );
}

#[test]
fn dependencies_need_the_graph() {
    let mut meta = metadata();
    meta.resolve = None;
    let mut warnings: Vec<String> = Vec::new();
    let error = collect_dependencies(&meta, "whatever#0.1.0", &lock(), &mut warnings).err();
    assert_eq!(error, Some(RecipeError::NoResolve));
}

#[test]
fn nothing_is_listed_twice() {
    let mut warnings: Vec<String> = Vec::new();
    let deps = collect_dependencies(&metadata(), "whatever#0.1.0", &lock(), &mut warnings).unwrap();
    for a in &deps.runtime_crates {
        assert!(!deps.other_crates.iter().any(|b| b.name == a.name && b.version == a.version));
    }
    for a in &deps.runtime_git {
        assert!(!deps.other_git.iter().any(|b| b.url == a.url));
    }
}

#[test]
fn fragments_of_a_package() {
    let mut warnings: Vec<String> = Vec::new();
    let deps = collect_dependencies(&metadata(), "whatever#0.1.0", &lock(), &mut warnings).unwrap();
    let fragments = make_fragments("whatever", &deps);
    let runtime = r#"# Autogenerated for 'whatever' (runtime)

SRC_URI += " \
    crate://crates.io/serde/1.0.0 \
"

SRC_URI[serde-1.0.0.sha256sum] = "1111111111111111111111111111111111111111111111111111111111111111"

SRC_URI += " \
    git://github.com/acme/tools.git;protocol=https;nobranch=1;name=tools;destsuffix=tools \
"

SRCREV_FORMAT .= "_tools"
SRCREV_tools = "0123abcd"

do_compile:prepend() {
    cfg="${WORKDIR}/cargo_home/config.toml"

    # Remove autogenerated [patch."..."] blocks that break workspace crates
    sed -i \
      -e '/^\[patch\."https:\/\/github\.com\/acme\/tools\.git"\]/,/^$/d' \
      "$cfg"

    # Rewrite git dependencies to local paths for offline build
    sed -i \
      -e 's/\(tool = {[^}]*\)git = "[^"]*"/\1path = "..\/tools\/crates\/tool"/g' \
      -e 's/\(tool = {[^}]*\), *rev = "[^"]*"/\1/g' \
      -e 's/\(tool = {[^}]*\), *branch = "[^"]*"/\1/g' \
      -e 's/\(tool = {[^}]*\), *tag = "[^"]*"/\1/g' \
      "${S}/Cargo.toml"
}
"#;
    assert_eq!(fragments.runtime, runtime);
    let other_start = r#"# Autogenerated for 'whatever' (other)

SRC_URI += " \
    crate://crates.io/cc/1.2.0 \
"

SRC_URI[cc-1.2.0.sha256sum] = "2222222222222222222222222222222222222222222222222222222222222222"

SRC_URI += " \
    git://github.com/acme/gen;protocol=https;nobranch=1;name=gen;destsuffix=gen \
"

SRCREV_FORMAT .= "_gen"
SRCREV_gen = "4567"

do_compile:prepend() {
"#;
    assert!(fragments.other.starts_with(other_start));
    assert!(fragments.other.contains("\\1path = \"..\\/tools\\/helper\"/g"));
    assert!(fragments.other.contains("\\1path = \"..\\/gen\"/g"));
}

#[test]
fn names_of_files() {
    assert_eq!(file_name("whatever", Output::Runtime), "whatever-crates-runtime.inc");
    assert_eq!(file_name("whatever", Output::Other), "whatever-crates-other.inc");
    assert_eq!(file_name("whatever", Output::Licenses), "whatever-licenses.json");
}
