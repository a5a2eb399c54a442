use yoctofy::git::{extract_path_in_repo, parse_git_source, repo_name_of};

#[test]
fn git_source_with_query() {
    let repo = parse_git_source("git+https://github.com/a/b.git?branch=main#abc").unwrap();
    assert_eq!(repo.url, "https://github.com/a/b.git");
    assert_eq!(repo.rev, "abc");
    assert_eq!(repo.name, "b");
}

#[test]
fn git_source_without_query() {
    let repo = parse_git_source("git+https://github.com/a/b#abc").unwrap();
    assert_eq!(repo.url, "https://github.com/a/b");
    assert_eq!(repo.rev, "abc");
    assert_eq!(repo.name, "b");
}

#[test]
fn git_source_reads_back_what_was_written() {
    let url = "https://example.com/x/y.git";
    let rev = "0123456789abcdef";
    let repo = parse_git_source(&format!("git+{url}#{rev}")).unwrap();
    assert_eq!(repo.url, url);
    assert_eq!(repo.rev, rev);
    assert_eq!(repo.name, "y");
}

#[test]
fn git_source_splits_at_the_last_hash() {
    let repo = parse_git_source("git+https://h/a?tag=x#y#z").unwrap();
    assert_eq!(repo.url, "https://h/a");
    assert_eq!(repo.rev, "z");
}

#[test]
fn git_source_of_another_kind() {
    assert_eq!(parse_git_source("registry+https://h/a#z"), None);
    assert_eq!(parse_git_source(""), None);
    assert_eq!(parse_git_source("git"), None);
}

#[test]
fn git_source_without_revision() {
    assert_eq!(parse_git_source("git+https://h/a?rev=1"), None);
}

#[test]
fn git_source_with_empty_parts() {
    let repo = parse_git_source("git+#").unwrap();
    assert_eq!(repo.url, "");
    assert_eq!(repo.rev, "");
    assert_eq!(repo.name, "");
}

#[test]
fn repo_name_is_the_last_part() {
    assert_eq!(repo_name_of("https://github.com/acme/tools.git"), "tools");
    assert_eq!(repo_name_of("https://github.com/acme/tools"), "tools");
    assert_eq!(repo_name_of("https://github.com/acme/tools.git//"), "tools");
    assert_eq!(repo_name_of("tools"), "tools");
    assert_eq!(repo_name_of("///"), "");
}

#[test]
fn repo_name_drops_every_git_at_the_end() {
    assert_eq!(repo_name_of("https://h/a.git.git"), "a");
    assert_eq!(repo_name_of("https://h/a.gitx"), "a.gitx");
    assert_eq!(repo_name_of("https://h/.git"), "");
}

#[test]
fn path_in_a_checkout() {
    assert_eq!(
        extract_path_in_repo("/home/u/.cargo/git/checkouts/tools-1a2b/9f8e/crates/one/Cargo.toml"),
        "crates/one"
    );
    assert_eq!(extract_path_in_repo("/c/checkouts/tools-1a2b/9f8e/one/Cargo.toml"), "one");
}

#[test]
fn path_at_the_top_of_a_checkout() {
    assert_eq!(extract_path_in_repo("/c/checkouts/tools-1a2b/9f8e/Cargo.toml"), "");
}

#[test]
fn path_of_a_short_checkout() {
    assert_eq!(extract_path_in_repo("/c/checkouts/tools-1a2b/Cargo.toml"), "");
    assert_eq!(extract_path_in_repo("checkouts"), "");
}

#[test]
fn path_outside_a_checkout() {
    assert_eq!(extract_path_in_repo("/home/u/project/a/b/c/d/Cargo.toml"), "");
    assert_eq!(extract_path_in_repo(""), "");
}

#[test]
fn path_counts_from_the_first_checkouts() {
    assert_eq!(
        extract_path_in_repo("/checkouts/r/c/checkouts/x/y/Cargo.toml"),
        "checkouts/x/y"
    );
}
