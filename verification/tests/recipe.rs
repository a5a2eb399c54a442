use yoctofy::model::{CrateInfo, GitCrate, GitRepo};
use yoctofy::recipe::{
    inc_file_text, write_cargo_rewrite_section, write_config_patch_section, write_crates_section,
    write_do_compile_prepend, write_git_repos_section,
};

fn info(name: &str, version: &str, checksum: &str) -> CrateInfo {
    CrateInfo {
        name: name.to_string(),
        version: version.to_string(),
        checksum: checksum.to_string(),
    }
}

fn repo(url: &str, rev: &str, name: &str) -> GitRepo {
    GitRepo { url: url.to_string(), rev: rev.to_string(), name: name.to_string() }
}

fn git_crate(name: &str, repo_name: &str, path_in_repo: &str) -> GitCrate {
    GitCrate {
        name: name.to_string(),
        repo_name: repo_name.to_string(),
        path_in_repo: path_in_repo.to_string(),
    }
}

const CRATES: &str = r#"SRC_URI += " \
    crate://crates.io/serde/1.0.0 \
    crate://crates.io/url/2.5.0 \
"

SRC_URI[serde-1.0.0.sha256sum] = "aa11"
SRC_URI[url-2.5.0.sha256sum] = "bb22"

"#;

const REPOS: &str = r#"SRC_URI += " \
    git://github.com/acme/tools.git;protocol=https;nobranch=1;name=tools;destsuffix=tools \
    ssh://h/x;protocol=https;nobranch=1;name=x;destsuffix=x \
"

SRCREV_FORMAT .= "_tools"
SRCREV_tools = "abc"

SRCREV_FORMAT .= "_x"
SRCREV_x = "def"

"#;

const PATCH: &str = r#"    cfg="${WORKDIR}/cargo_home/config.toml"

    # Remove autogenerated [patch."..."] blocks that break workspace crates
    sed -i \
      -e '/^\[patch\."https:\/\/github\.com\/acme\/tools\.git"\]/,/^$/d' \
      "$cfg"

"#;

const REWRITE: &str = r#"    # Rewrite git dependencies to local paths for offline build
    sed -i \
      -e 's/\(one = {[^}]*\)git = "[^"]*"/\1path = "..\/tools\/crates\/one"/g' \
      -e 's/\(one = {[^}]*\), *rev = "[^"]*"/\1/g' \
      -e 's/\(one = {[^}]*\), *branch = "[^"]*"/\1/g' \
      -e 's/\(one = {[^}]*\), *tag = "[^"]*"/\1/g' \
      "${S}/Cargo.toml"
"#;

#[test]
fn crates_are_fetched() {
    let mut out = String::from("before\n");
    write_crates_section(&mut out, &[info("serde", "1.0.0", "aa11"), info("url", "2.5.0", "bb22")]);
    assert_eq!(out, format!("before\n{CRATES}"));
}

#[test]
fn no_crates_are_fetched() {
    let mut out = String::from("before\n");
    write_crates_section(&mut out, &[]);
    assert_eq!(out, "before\n");
}

#[test]
fn repositories_are_fetched() {
    let mut out = String::new();
    write_git_repos_section(
        &mut out,
        &[
            repo("https://github.com/acme/tools.git", "abc", "tools"),
            repo("ssh://h/x", "def", "x"),
        ],
    );
    assert_eq!(out, REPOS);
}

#[test]
fn no_repositories_are_fetched() {
    let mut out = String::new();
    write_git_repos_section(&mut out, &[]);
    assert_eq!(out, "");
}

#[test]
fn patch_blocks_are_removed() {
    let tools = repo("https://github.com/acme/tools.git", "abc", "tools");
    let mut out = String::new();
    write_config_patch_section(&mut out, &[&tools]);
    assert_eq!(out, PATCH);
}

#[test]
fn dependencies_are_rewritten() {
    let mut out = String::new();
    write_cargo_rewrite_section(&mut out, &[git_crate("one", "tools", "crates/one")]);
    assert_eq!(out, REWRITE);
}

#[test]
fn steps_before_the_build() {
    let tools = repo("https://github.com/acme/tools.git", "abc", "tools");
    let one = [git_crate("one", "tools", "crates/one")];
    let repos = [&tools];
    let mut both = String::new();
    write_do_compile_prepend(&mut both, Some(&repos), Some(&one));
    assert_eq!(both, format!("do_compile:prepend() {{\n{PATCH}{REWRITE}}}\n"));
    let mut patch = String::new();
    write_do_compile_prepend(&mut patch, Some(&repos), None);
    assert_eq!(patch, format!("do_compile:prepend() {{\n{PATCH}}}\n"));
    let mut rewrite = String::new();
    write_do_compile_prepend(&mut rewrite, Some(&[]), Some(&one));
    assert_eq!(rewrite, format!("do_compile:prepend() {{\n{REWRITE}}}\n"));
}

#[test]
fn no_steps_before_the_build() {
    let mut out = String::from("x");
    write_do_compile_prepend(&mut out, None, None);
    write_do_compile_prepend(&mut out, Some(&[]), Some(&[]));
    assert_eq!(out, "x");
}

#[test]
fn whole_fragment() {
    let crates = [info("serde", "1.0.0", "aa11"), info("url", "2.5.0", "bb22")];
    let repos =
        [repo("https://github.com/acme/tools.git", "abc", "tools"), repo("ssh://h/x", "def", "x")];
    let one = [git_crate("one", "tools", "crates/one")];
    let text =
        inc_file_text("whatever", "runtime", &crates, &repos, Some(&[&repos[0]]), Some(&one));
    assert_eq!(
        text,
        format!(
            "# Autogenerated for 'whatever' (runtime)\n\n{CRATES}{REPOS}do_compile:prepend() {{\n{PATCH}{REWRITE}}}\n"
        )
    );
}

#[test]
fn fragment_of_nothing() {
    assert_eq!(
        inc_file_text("whatever", "other", &[], &[], Some(&[]), Some(&[])),
        "# Autogenerated for 'whatever' (other)\n\n"
    );
}
