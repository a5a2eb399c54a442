//! The files that are written.
use crate::collect::{
    git_crate_of, has_url, ids_of, is_listed, is_registry_crate, lemma_locked_sums,
    license_key, locked_git_crate, locked_sums, repo_of,
};
use crate::license::{json_member, json_of, json_string, lemma_json_has_each};
use crate::lock::checksums;
use crate::model::{
    CrateIdView, CrateInfoView, GitCrateView, GitRepo, GitRepoView, LockPackageView, MetadataView,
};
use crate::order::{keys_of, lemma_map_of_entry};
use crate::plan::{other_ids, package_map, runtime_ids, Dependencies};
use crate::recipe::{
    checksum_line, crate_line, inc_file_text, inc_text, lemma_fragment_has_crate,
    lemma_fragment_has_patch, lemma_fragment_has_repo, lemma_fragment_has_rewrite, patch_line,
    repo_line, revision_lines, rewrite_lines,
};
use crate::text::has_text;
use vstd::prelude::*;

verus! {

/// The files that are written for a package.
#[derive(Clone, Copy, Debug, PartialEq, Eq, Structural)]
pub enum Output {
    /// The fragment for what is needed at run time.
    Runtime,
    /// The fragment for what is not.
    Other,
    /// The licenses.
    Licenses,
}

impl Output {
    /// What follows the name of the package in the name of the file.
    pub open spec fn suffix(self) -> Seq<char> {
        match self {
            Output::Runtime => "-crates-runtime.inc"@,
            Output::Other => "-crates-other.inc"@,
            Output::Licenses => "-licenses.json"@,
        }
    }
}

/// The name of a file for a package.
pub fn file_name(package: &str, output: Output) -> (r: String)
    ensures
        r@ == package@ + output.suffix(),
{
    let mut out: String = package.to_string();
    match output {
        Output::Runtime => out.append("-crates-runtime.inc"),
        Output::Other => out.append("-crates-other.inc"),
        Output::Licenses => out.append("-licenses.json"),
    }
    out
}

/// The two fragments of a package.
#[derive(Debug, PartialEq, Eq)]
pub struct Fragments {
    pub runtime: String,
    pub other: String,
}

/// The text of a fragment whose repositories are all patched, and whose crates from repositories
/// are all rewritten.
pub open spec fn fragment_text(
    package: Seq<char>,
    kind: Seq<char>,
    crates: Seq<CrateInfoView>,
    repos: Seq<GitRepoView>,
    git_crates: Seq<GitCrateView>,
) -> Seq<char> {
    inc_text(package, kind, crates, repos, Some(repos), Some(git_crates))
}

/// The text of the fragment for what is needed at run time.
pub open spec fn runtime_text(package: Seq<char>, deps: &Dependencies) -> Seq<char> {
    fragment_text(
        package,
        "runtime"@,
        deps.runtime_crates.deep_view(),
        deps.runtime_git.deep_view(),
        deps.runtime_git_crates.deep_view(),
    )
}

/// The text of the fragment for what is not.
pub open spec fn other_text(package: Seq<char>, deps: &Dependencies) -> Seq<char> {
    fragment_text(
        package,
        "other"@,
        deps.other_crates.deep_view(),
        deps.other_git.deep_view(),
        deps.other_git_crates.deep_view(),
    )
}

fn references<'a>(repos: &'a Vec<GitRepo>) -> (r: Vec<&'a GitRepo>)
    ensures
        r.deep_view() == repos.deep_view(),
{
    let ghost all = repos.deep_view();
    let mut out: Vec<&'a GitRepo> = Vec::new();
    let mut i: usize = 0;
    while i < repos.len()
        invariant
            all == repos.deep_view(),
            all.len() == repos@.len(),
            i <= repos@.len(),
            out.deep_view() == all.take(i as int),
        decreases repos@.len() - i,
    {
        let ghost before = out.deep_view();
        out.push(&repos[i]);
        assert(out.deep_view() =~= before.push(all[i as int]));
        assert(all.take(i + 1) =~= all.take(i as int).push(all[i as int]));
        i = i + 1;
    }
    assert(all.take(i as int) =~= all);
    out
}

/// The two fragments for the dependencies of a package.
pub fn make_fragments(package: &str, deps: &Dependencies) -> (r: Fragments)
    ensures
        r.runtime@ == runtime_text(package@, deps),
        r.other@ == other_text(package@, deps),
{
    let runtime_repos = references(&deps.runtime_git);
    let other_repos = references(&deps.other_git);
    let runtime: String = inc_file_text(
        package,
        "runtime",
        deps.runtime_crates.as_slice(),
        deps.runtime_git.as_slice(),
        Some(runtime_repos.as_slice()),
        Some(deps.runtime_git_crates.as_slice()),
    );
    let other: String = inc_file_text(
        package,
        "other",
        deps.other_crates.as_slice(),
        deps.other_git.as_slice(),
        Some(other_repos.as_slice()),
        Some(deps.other_git_crates.as_slice()),
    );
    Fragments { runtime, other }
}

/// The files of a package have different names.
pub proof fn lemma_file_names_differ(package: Seq<char>, a: Output, b: Output)
    requires
        a != b,
    ensures
        package + a.suffix() != package + b.suffix(),
{
    reveal_strlit("-crates-runtime.inc");
    reveal_strlit("-crates-other.inc");
    reveal_strlit("-licenses.json");
    let s = package + a.suffix();
    let t = package + b.suffix();
    assert(a.suffix().len() != b.suffix().len());
    assert(s.len() != t.len());
}

/// The text fetches the crate, and tells what it must hash to.
pub open spec fn fetches_crate(text: Seq<char>, c: CrateInfoView) -> bool {
    has_text(text, crate_line()(c)) && has_text(text, checksum_line()(c))
}

/// The text fetches the repository at its revision, and removes its patch block.
pub open spec fn fetches_repo(text: Seq<char>, r: GitRepoView) -> bool {
    &&& has_text(text, repo_line()(r))
    &&& has_text(text, revision_lines()(r))
    &&& has_text(text, patch_line()(r))
}

/// The text fetches a repository with that address.
pub open spec fn fetches_url(text: Seq<char>, url: Seq<char>) -> bool {
    exists|r: GitRepoView| r.url == url && #[trigger] fetches_repo(text, r)
}

proof fn lemma_fragment_fetches_crate(
    package: Seq<char>,
    kind: Seq<char>,
    crates: Seq<CrateInfoView>,
    repos: Seq<GitRepoView>,
    git_crates: Seq<GitCrateView>,
    c: CrateInfoView,
)
    requires
        crates.contains(c),
    ensures
        fetches_crate(fragment_text(package, kind, crates, repos, git_crates), c),
{
    let i: int = choose|i: int| 0 <= i < crates.len() && crates[i] == c;
    lemma_fragment_has_crate(package, kind, crates, repos, Some(repos), Some(git_crates), i);
}

proof fn lemma_fragment_fetches_url(
    package: Seq<char>,
    kind: Seq<char>,
    crates: Seq<CrateInfoView>,
    repos: Seq<GitRepoView>,
    git_crates: Seq<GitCrateView>,
    url: Seq<char>,
)
    requires
        has_url(repos, url),
    ensures
        fetches_url(fragment_text(package, kind, crates, repos, git_crates), url),
{
    let i: int = choose|i: int| 0 <= i < repos.len() && (#[trigger] repos[i]).url == url;
    lemma_fragment_has_repo(package, kind, crates, repos, Some(repos), Some(git_crates), i);
    lemma_fragment_has_patch(package, kind, crates, repos, repos, Some(git_crates), i);
    assert(fetches_repo(fragment_text(package, kind, crates, repos, git_crates), repos[i]));
}

proof fn lemma_fragment_rewrites(
    package: Seq<char>,
    kind: Seq<char>,
    crates: Seq<CrateInfoView>,
    repos: Seq<GitRepoView>,
    git_crates: Seq<GitCrateView>,
    c: GitCrateView,
)
    requires
        git_crates.contains(c),
    ensures
        has_text(
            fragment_text(package, kind, crates, repos, git_crates),
            rewrite_lines()(c),
        ),
{
    let i: int = choose|i: int| 0 <= i < git_crates.len() && git_crates[i] == c;
    lemma_fragment_has_rewrite(package, kind, crates, repos, Some(repos), git_crates, i);
}

/// Each registry crate that is needed at run time is fetched by the fragment for run time, and
/// must hash to the checksum of the lock file.
pub proof fn lemma_runtime_crate_is_fetched(
    package: Seq<char>,
    deps: &Dependencies,
    meta: MetadataView,
    root: Seq<char>,
    lock: Seq<LockPackageView>,
    id: CrateIdView,
)
    requires
        deps.are_of(meta, root, lock),
        runtime_ids(meta, root).contains(id),
        is_registry_crate(package_map(meta.packages), id),
    ensures
        fetches_crate(
            runtime_text(package, deps),
            (CrateInfoView { name: id.name, version: id.version, checksum: checksums(lock)[id] }),
        ),
{
    deps.lemma_runtime_crate_is_listed(meta, root, lock, id);
    lemma_fragment_fetches_crate(
        package,
        "runtime"@,
        deps.runtime_crates.deep_view(),
        deps.runtime_git.deep_view(),
        deps.runtime_git_crates.deep_view(),
        CrateInfoView { name: id.name, version: id.version, checksum: checksums(lock)[id] },
    );
}

/// Each registry crate of the lock file that has a checksum and is not needed at run time is
/// fetched by the other fragment, and must hash to a checksum that the lock file has for it.
pub proof fn lemma_other_crate_is_fetched(
    package: Seq<char>,
    deps: &Dependencies,
    meta: MetadataView,
    root: Seq<char>,
    lock: Seq<LockPackageView>,
    i: int,
)
    requires
        deps.are_of(meta, root, lock),
        0 <= i < lock.len(),
        lock[i].is_registry(),
        lock[i].checksum is Some,
        !runtime_ids(meta, root).contains(lock[i].crate_id()),
    ensures
        exists|j: int|
            0 <= j < lock.len() && (#[trigger] lock[j]).crate_id() == lock[i].crate_id()
                && lock[j].checksum is Some && fetches_crate(
                other_text(package, deps),
                (CrateInfoView {
                    name: lock[j].name,
                    version: lock[j].version,
                    checksum: lock[j].checksum->Some_0,
                }),
            ),
{
    let id = lock[i].crate_id();
    let other = other_ids(meta, root, lock);
    let crates = deps.other_crates.deep_view();
    deps.lemma_other_crate_is_listed(meta, root, lock, i);
    let k: int = choose|k: int| 0 <= k < ids_of(crates).len() && ids_of(crates)[k] == id;
    assert(crates[k].crate_id() == id);
    lemma_locked_sums(other, lock);
    assert(locked_sums(other, lock).contains_key(id));
    let j: int = choose|j: int|
        0 <= j < lock.len() && is_listed(other, #[trigger] lock[j]) && lock[j].crate_id() == id
            && lock[j].checksum == Some(locked_sums(other, lock)[id]);
    assert(crates.contains(crates[k]));
    lemma_fragment_fetches_crate(
        package,
        "other"@,
        crates,
        deps.other_git.deep_view(),
        deps.other_git_crates.deep_view(),
        crates[k],
    );
    assert(crates[k] == CrateInfoView {
        name: lock[j].name,
        version: lock[j].version,
        checksum: lock[j].checksum->Some_0,
    });
}

/// The repository of each crate that is needed at run time is fetched by the fragment for run
/// time, and the dependency on the crate is turned into one on its place on disk.
pub proof fn lemma_runtime_repo_is_fetched(
    package: Seq<char>,
    deps: &Dependencies,
    meta: MetadataView,
    root: Seq<char>,
    lock: Seq<LockPackageView>,
    id: CrateIdView,
)
    requires
        deps.are_of(meta, root, lock),
        runtime_ids(meta, root).contains(id),
        repo_of(package_map(meta.packages))(id) is Some,
    ensures
        fetches_url(
            runtime_text(package, deps),
            repo_of(package_map(meta.packages))(id)->Some_0.url,
        ),
        has_text(
            runtime_text(package, deps),
            rewrite_lines()(git_crate_of(package_map(meta.packages))(id)->Some_0),
        ),
{
    deps.lemma_runtime_repo_is_listed(meta, root, lock, id);
    lemma_fragment_fetches_url(
        package,
        "runtime"@,
        deps.runtime_crates.deep_view(),
        deps.runtime_git.deep_view(),
        deps.runtime_git_crates.deep_view(),
        repo_of(package_map(meta.packages))(id)->Some_0.url,
    );
    lemma_fragment_rewrites(
        package,
        "runtime"@,
        deps.runtime_crates.deep_view(),
        deps.runtime_git.deep_view(),
        deps.runtime_git_crates.deep_view(),
        git_crate_of(package_map(meta.packages))(id)->Some_0,
    );
}

/// The repository of each package of the lock file that is not needed at run time is fetched by
/// one of the fragments, and the dependency on the package is turned into one on a place on disk.
pub proof fn lemma_other_repo_is_fetched(
    package: Seq<char>,
    deps: &Dependencies,
    meta: MetadataView,
    root: Seq<char>,
    lock: Seq<LockPackageView>,
    i: int,
)
    requires
        deps.are_of(meta, root, lock),
        0 <= i < lock.len(),
        lock[i].is_git(),
        !runtime_ids(meta, root).contains(lock[i].crate_id()),
    ensures
        fetches_url(runtime_text(package, deps), lock[i].source->Some_0.url) || fetches_url(
            other_text(package, deps),
            lock[i].source->Some_0.url,
        ),
        has_text(
            other_text(package, deps),
            rewrite_lines()(locked_git_crate(other_ids(meta, root, lock))(lock[i])->Some_0),
        ),
{
    let url = lock[i].source->Some_0.url;
    deps.lemma_other_repo_is_listed(meta, root, lock, i);
    if has_url(deps.runtime_git.deep_view(), url) {
        lemma_fragment_fetches_url(
            package,
            "runtime"@,
            deps.runtime_crates.deep_view(),
            deps.runtime_git.deep_view(),
            deps.runtime_git_crates.deep_view(),
            url,
        );
    } else {
        lemma_fragment_fetches_url(
            package,
            "other"@,
            deps.other_crates.deep_view(),
            deps.other_git.deep_view(),
            deps.other_git_crates.deep_view(),
            url,
        );
    }
    lemma_fragment_rewrites(
        package,
        "other"@,
        deps.other_crates.deep_view(),
        deps.other_git.deep_view(),
        deps.other_git_crates.deep_view(),
        locked_git_crate(other_ids(meta, root, lock))(lock[i])->Some_0,
    );
}

/// The license of each crate that is needed at run time and comes from a registry or a repository
/// is written.
pub proof fn lemma_runtime_license_is_written(
    deps: &Dependencies,
    meta: MetadataView,
    root: Seq<char>,
    lock: Seq<LockPackageView>,
    id: CrateIdView,
    key: Seq<char>,
)
    requires
        deps.are_of(meta, root, lock),
        runtime_ids(meta, root).contains(id),
        package_map(meta.packages).contains_key(id),
        license_key(package_map(meta.packages)[id]) == Some(key),
    ensures
        has_text(
            json_of(deps.licenses.deep_view()),
            json_member(json_string(key), json_string(deps.licenses.as_map()[key])),
        ),
{
    let entries = deps.licenses.deep_view();
    let keys = keys_of(entries);
    deps.lemma_runtime_license_is_told(meta, root, lock, id);
    deps.licenses.lemma_entries();
    assert(keys.contains(key));
    let i: int = choose|i: int| 0 <= i < keys.len() && keys[i] == key;
    lemma_map_of_entry(entries, i);
    lemma_json_has_each(entries, i);
}

} // verus!
