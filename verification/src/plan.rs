//! From the metadata and the lock file to everything that has to be fetched.
use crate::closure::{compute_runtime_closure, lemma_reaches_itself, reachable};
use crate::collect::{
    collect_git_crates, collect_git_crates_from_lock, collect_git_repos,
    collect_git_repos_from_lock, collect_other_registry_crates, collect_registry_crates,
    collect_runtime_licenses, first_lacking, git_crate_of, has_url, ids_of, is_by_id, is_listed,
    is_registry_crate, lacks_checksum, lemma_filter_map_has, lemma_first_lacking,
    lemma_licenses_tell_each, lemma_locked_sums, lemma_registry_sums, lemma_repo_list, lemma_repo_list_is_distinct,
    license_key, licenses, lists, locked_git_crate, locked_repo, locked_sums, registry_sums, repo_list, repo_of,
    unknown_source_warning,
};
use crate::error::RecipeError;
use crate::lock::{build_checksum_map, checksums};
use crate::model::{
    CrateId, CrateIdView, CrateInfo, CrateInfoView, GitCrate, GitRepo, GitRepoView, LockPackage,
    LockPackageView, Metadata, MetadataView, Node, NodeView, Package, PackageView,
};
use crate::order::{
    ascending, lemma_ascending_exists, lemma_ascending_unique, text_before, OrderedMap,
    OrderedSet,
};
use crate::sorted::{
    crate_key, is_sorted, lemma_filter_keeps_order, lemma_sort_contains, repo_key, sort_by,
};
use crate::text::same_text;
use vstd::prelude::*;

verus! {

/// The nodes by their ids. The last one counts where two have the same id.
pub open spec fn node_map(nodes: Seq<NodeView>) -> Map<Seq<char>, NodeView>
    decreases nodes.len(),
{
    if nodes.len() == 0 {
        Map::empty()
    } else {
        node_map(nodes.drop_last()).insert(nodes.last().id, nodes.last())
    }
}

/// The packages by their ids. The last one counts where two have the same id.
pub open spec fn package_by_full_id(packages: Seq<PackageView>) -> Map<Seq<char>, PackageView>
    decreases packages.len(),
{
    if packages.len() == 0 {
        Map::empty()
    } else {
        package_by_full_id(packages.drop_last()).insert(packages.last().id, packages.last())
    }
}

/// The packages by name and version. The last one counts where two have the same.
pub open spec fn package_map(packages: Seq<PackageView>) -> Map<CrateIdView, PackageView>
    decreases packages.len(),
{
    if packages.len() == 0 {
        Map::empty()
    } else {
        package_map(packages.drop_last()).insert(packages.last().crate_id(), packages.last())
    }
}

/// The nodes by their ids.
pub fn index_nodes<'a>(nodes: &'a Vec<Node>) -> (r: OrderedMap<String, &'a Node>)
    ensures
        r.wf(),
        r.as_map() == node_map(nodes.deep_view()),
{
    let ghost all = nodes.deep_view();
    let mut found: OrderedMap<String, &'a Node> = OrderedMap::new();
    let mut i: usize = 0;
    assert(all.take(0) =~= Seq::<NodeView>::empty());
    while i < nodes.len()
        invariant
            all == nodes.deep_view(),
            all.len() == nodes@.len(),
            i <= nodes@.len(),
            found.wf(),
            found.as_map() == node_map(all.take(i as int)),
        decreases nodes@.len() - i,
    {
        proof {
            assert(all[i as int] == nodes@[i as int].deep_view());
            assert(all.take(i + 1).drop_last() =~= all.take(i as int));
            assert(all.take(i + 1).last() == all[i as int]);
        }
        found.insert(nodes[i].id.clone(), &nodes[i]);
        i = i + 1;
    }
    assert(all.take(i as int) =~= all);
    found
}

/// The packages by their ids.
pub fn index_packages_by_full_id<'a>(packages: &'a Vec<Package>) -> (r: OrderedMap<
    String,
    &'a Package,
>)
    ensures
        r.wf(),
        r.as_map() == package_by_full_id(packages.deep_view()),
{
    let ghost all = packages.deep_view();
    let mut found: OrderedMap<String, &'a Package> = OrderedMap::new();
    let mut i: usize = 0;
    assert(all.take(0) =~= Seq::<PackageView>::empty());
    while i < packages.len()
        invariant
            all == packages.deep_view(),
            all.len() == packages@.len(),
            i <= packages@.len(),
            found.wf(),
            found.as_map() == package_by_full_id(all.take(i as int)),
        decreases packages@.len() - i,
    {
        proof {
            assert(all[i as int] == packages@[i as int].deep_view());
            assert(all.take(i + 1).drop_last() =~= all.take(i as int));
            assert(all.take(i + 1).last() == all[i as int]);
        }
        found.insert(packages[i].id.clone(), &packages[i]);
        i = i + 1;
    }
    assert(all.take(i as int) =~= all);
    found
}

/// The packages by name and version.
pub fn index_packages<'a>(packages: &'a Vec<Package>) -> (r: OrderedMap<CrateId, &'a Package>)
    ensures
        r.wf(),
        r.as_map() == package_map(packages.deep_view()),
{
    let ghost all = packages.deep_view();
    let mut found: OrderedMap<CrateId, &'a Package> = OrderedMap::new();
    let mut i: usize = 0;
    assert(all.take(0) =~= Seq::<PackageView>::empty());
    while i < packages.len()
        invariant
            all == packages.deep_view(),
            all.len() == packages@.len(),
            i <= packages@.len(),
            found.wf(),
            found.as_map() == package_map(all.take(i as int)),
        decreases packages@.len() - i,
    {
        proof {
            assert(all[i as int] == packages@[i as int].deep_view());
            assert(all.take(i + 1).drop_last() =~= all.take(i as int));
            assert(all.take(i + 1).last() == all[i as int]);
        }
        found.insert(packages[i].crate_id(), &packages[i]);
        i = i + 1;
    }
    assert(all.take(i as int) =~= all);
    found
}

/// The identities of which `p` holds, in ascending order.
pub open spec fn ids_where(p: spec_fn(CrateIdView) -> bool) -> Seq<CrateIdView> {
    choose|ids: Seq<CrateIdView>| is_ids_where(ids, p)
}

/// These are the identities of which `p` holds, in ascending order.
pub open spec fn is_ids_where(ids: Seq<CrateIdView>, p: spec_fn(CrateIdView) -> bool) -> bool {
    &&& ascending::<CrateId>(ids)
    &&& forall|id: CrateIdView| ids.contains(id) <==> #[trigger] p(id)
}

/// There is only one list of the identities of which `p` holds, in ascending order.
pub proof fn lemma_ids_where(ids: Seq<CrateIdView>, p: spec_fn(CrateIdView) -> bool)
    requires
        is_ids_where(ids, p),
    ensures
        ids_where(p) == ids,
{
    let other = ids_where(p);
    assert(is_ids_where(other, p));
    assert forall|id: CrateIdView| other.contains(id) <==> ids.contains(id) by {
        assert(p(id) == ids.contains(id));
        assert(p(id) == other.contains(id));
    }
    lemma_ascending_unique::<CrateId>(other, ids);
}

/// The crate is of a package that `root` needs when it runs.
pub open spec fn is_runtime(meta: MetadataView, root: Seq<char>) -> spec_fn(CrateIdView) -> bool {
    |id: CrateIdView|
        exists|full_id: Seq<char>|
            {
                &&& reachable(node_map(meta.nodes()), root, full_id)
                &&& #[trigger] package_by_full_id(meta.packages).contains_key(full_id)
                &&& package_by_full_id(meta.packages)[full_id].crate_id() == id
            }
}

/// The crates that `root` needs when it runs, in ascending order.
pub open spec fn runtime_ids(meta: MetadataView, root: Seq<char>) -> Seq<CrateIdView> {
    ids_where(is_runtime(meta, root))
}

/// The crate is of a package of the lock file that is not needed at run time.
pub open spec fn is_other(
    meta: MetadataView,
    root: Seq<char>,
    lock: Seq<LockPackageView>,
) -> spec_fn(CrateIdView) -> bool {
    |id: CrateIdView|
        !is_runtime(meta, root)(id) && exists|i: int|
            0 <= i < lock.len() && (#[trigger] lock[i]).crate_id() == id
}

/// The crates of the lock file that are not needed at run time, in ascending order.
pub open spec fn other_ids(
    meta: MetadataView,
    root: Seq<char>,
    lock: Seq<LockPackageView>,
) -> Seq<CrateIdView> {
    ids_where(is_other(meta, root, lock))
}

/// The crates of some packages, in ascending order.
fn crate_ids_of(
    full_ids: &OrderedSet<String>,
    pkgs_by_full_id: &OrderedMap<String, &Package>,
) -> (r: OrderedSet<CrateId>)
    requires
        pkgs_by_full_id.wf(),
    ensures
        r.wf(),
        forall|id: CrateIdView|
            r.deep_view().contains(id) <==> exists|full_id: Seq<char>|
                {
                    &&& full_ids.deep_view().contains(full_id)
                    &&& #[trigger] pkgs_by_full_id.as_map().contains_key(full_id)
                    &&& pkgs_by_full_id.as_map()[full_id].crate_id() == id
                },
{
    let ghost all = full_ids.deep_view();
    let ghost pkgs = pkgs_by_full_id.as_map();
    let keys = full_ids.keys();
    let mut found: OrderedSet<CrateId> = OrderedSet::new();
    let mut i: usize = 0;
    while i < keys.len()
        invariant
            pkgs_by_full_id.wf(),
            pkgs == pkgs_by_full_id.as_map(),
            all == keys.deep_view(),
            all.len() == keys@.len(),
            i <= keys@.len(),
            found.wf(),
            forall|id: CrateIdView| #[trigger]
                found.deep_view().contains(id) ==> exists|j: int|
                    0 <= j < i && pkgs.contains_key(#[trigger] all[j]) && pkgs[all[j]].crate_id()
                        == id,
            forall|j: int|
                0 <= j < i && pkgs.contains_key(#[trigger] all[j]) ==> found.deep_view().contains(
                    pkgs[all[j]].crate_id(),
                ),
        decreases keys@.len() - i,
    {
        let key = &keys[i];
        assert(key.deep_view() == all[i as int]);
        let ghost before = found.deep_view();
        if let Some(pkg) = pkgs_by_full_id.get(key) {
            let _ = found.insert(pkg.crate_id());
        }
        assert forall|id: CrateIdView| #[trigger]
            found.deep_view().contains(id) implies exists|j: int|
            0 <= j < i + 1 && pkgs.contains_key(#[trigger] all[j]) && pkgs[all[j]].crate_id()
                == id by {
            if before.contains(id) {
                let j: int = choose|j: int|
                    0 <= j < i && pkgs.contains_key(#[trigger] all[j]) && pkgs[all[j]].crate_id()
                        == id;
                assert(0 <= j < i + 1 && pkgs.contains_key(all[j]));
            } else {
                assert(pkgs.contains_key(all[i as int]) && pkgs[all[i as int]].crate_id() == id);
            }
        }
        i = i + 1;
    }
    proof {
        assert forall|id: CrateIdView|
            found.deep_view().contains(id) <==> exists|full_id: Seq<char>|
                {
                    &&& all.contains(full_id)
                    &&& #[trigger] pkgs.contains_key(full_id)
                    &&& pkgs[full_id].crate_id() == id
                } by {
            if found.deep_view().contains(id) {
                let j: int = choose|j: int|
                    0 <= j < i && pkgs.contains_key(#[trigger] all[j]) && pkgs[all[j]].crate_id()
                        == id;
                assert(all.contains(all[j]) && pkgs.contains_key(all[j]));
            }
            if exists|full_id: Seq<char>|
                {
                    &&& all.contains(full_id)
                    &&& #[trigger] pkgs.contains_key(full_id)
                    &&& pkgs[full_id].crate_id() == id
                } {
                let full_id = choose|full_id: Seq<char>|
                    {
                        &&& all.contains(full_id)
                        &&& #[trigger] pkgs.contains_key(full_id)
                        &&& pkgs[full_id].crate_id() == id
                    };
                let j: int = choose|j: int| 0 <= j < all.len() && all[j] == full_id;
                assert(pkgs.contains_key(all[j]));
            }
        }
    }
    found
}

/// The crates of the lock file that are not among `runtime`, in ascending order.
fn crate_ids_besides(runtime: &OrderedSet<CrateId>, lock: &Vec<LockPackage>) -> (r: OrderedSet<
    CrateId,
>)
    requires
        runtime.wf(),
    ensures
        r.wf(),
        forall|id: CrateIdView|
            r.deep_view().contains(id) <==> !runtime.deep_view().contains(id) && exists|i: int|
                0 <= i < lock.deep_view().len() && (#[trigger] lock.deep_view()[i]).crate_id()
                    == id,
{
    let ghost all = lock.deep_view();
    let mut found: OrderedSet<CrateId> = OrderedSet::new();
    let mut i: usize = 0;
    while i < lock.len()
        invariant
            runtime.wf(),
            all == lock.deep_view(),
            all.len() == lock@.len(),
            i <= lock@.len(),
            found.wf(),
            forall|id: CrateIdView| #[trigger]
                found.deep_view().contains(id) ==> !runtime.deep_view().contains(id) && exists|
                    j: int,
                |
                    0 <= j < i && (#[trigger] all[j]).crate_id() == id,
            forall|j: int|
                0 <= j < i && !runtime.deep_view().contains((#[trigger] all[j]).crate_id())
                    ==> found.deep_view().contains(all[j].crate_id()),
        decreases lock@.len() - i,
    {
        assert(lock@[i as int].deep_view() == all[i as int]);
        let ghost before = found.deep_view();
        let id: CrateId = CrateId::from_lock_package(&lock[i]);
        if !runtime.contains(&id) {
            let _ = found.insert(id);
        }
        assert forall|id: CrateIdView| #[trigger]
            found.deep_view().contains(id) implies !runtime.deep_view().contains(id) && exists|
            j: int,
        |
            0 <= j < i + 1 && (#[trigger] all[j]).crate_id() == id by {
            if before.contains(id) {
                let j: int = choose|j: int| 0 <= j < i && (#[trigger] all[j]).crate_id() == id;
                assert(0 <= j < i + 1 && all[j].crate_id() == id);
            } else {
                assert(all[i as int].crate_id() == id);
            }
        }
        i = i + 1;
    }
    found
}

/// Everything that has to be fetched, apart what is needed at run time and what is not.
pub struct Dependencies {
    pub runtime_crates: Vec<CrateInfo>,
    pub other_crates: Vec<CrateInfo>,
    pub runtime_git: Vec<GitRepo>,
    pub other_git: Vec<GitRepo>,
    pub runtime_git_crates: Vec<GitCrate>,
    pub other_git_crates: Vec<GitCrate>,
    pub licenses: OrderedMap<String, String>,
}

/// The repository has an address that is not among those of `repos`.
pub open spec fn not_among(repos: Seq<GitRepoView>) -> spec_fn(GitRepoView) -> bool {
    |r: GitRepoView| !has_url(repos, r.url)
}

/// The repositories of crates that are needed at run time.
pub open spec fn runtime_repos(meta: MetadataView, root: Seq<char>) -> Seq<GitRepoView> {
    repo_list(runtime_ids(meta, root).filter_map(repo_of(package_map(meta.packages))))
}

/// The repositories of the other crates of the lock file, without those of run time.
pub open spec fn other_repos(
    meta: MetadataView,
    root: Seq<char>,
    lock: Seq<LockPackageView>,
) -> Seq<GitRepoView> {
    repo_list(lock.filter_map(locked_repo(other_ids(meta, root, lock)))).filter(
        not_among(runtime_repos(meta, root)),
    )
}

impl Dependencies {
    /// These are the dependencies of `root`, as the metadata and the lock file tell them.
    pub open spec fn are_of(
        &self,
        meta: MetadataView,
        root: Seq<char>,
        lock: Seq<LockPackageView>,
    ) -> bool {
        let pkgs = package_map(meta.packages);
        let runtime = runtime_ids(meta, root);
        let other = other_ids(meta, root, lock);
        &&& first_lacking(runtime, pkgs, checksums(lock)) == runtime.len()
        &&& lists(
            self.runtime_crates.deep_view(),
            registry_sums(runtime, pkgs, checksums(lock)),
        )
        &&& lists(self.other_crates.deep_view(), locked_sums(other, lock))
        &&& self.runtime_git.deep_view() == runtime_repos(meta, root)
        &&& self.other_git.deep_view() == other_repos(meta, root, lock)
        &&& self.runtime_git_crates.deep_view() == sort_by(
            runtime.filter_map(git_crate_of(pkgs)),
            crate_key(),
        )
        &&& self.other_git_crates.deep_view() == sort_by(
            lock.filter_map(locked_git_crate(other)),
            crate_key(),
        )
        &&& self.licenses.wf()
        &&& self.licenses.as_map() == licenses(runtime, pkgs)
    }
}

fn has_url_in(repos: &Vec<GitRepo>, url: &str) -> (r: bool)
    ensures
        r == has_url(repos.deep_view(), url@),
{
    let ghost all = repos.deep_view();
    let mut i: usize = 0;
    while i < repos.len()
        invariant
            all == repos.deep_view(),
            all.len() == repos@.len(),
            i <= repos@.len(),
            forall|j: int| 0 <= j < i ==> (#[trigger] all[j]).url != url@,
        decreases repos@.len() - i,
    {
        assert(all[i as int] == repos@[i as int].deep_view());
        if same_text(repos[i].url.as_str(), url) {
            return true;
        }
        i = i + 1;
    }
    false
}

/// The repositories of `repos` whose addresses are not among those of `taken`.
fn without_urls(repos: Vec<GitRepo>, taken: &Vec<GitRepo>) -> (r: Vec<GitRepo>)
    ensures
        r.deep_view() == repos.deep_view().filter(not_among(taken.deep_view())),
{
    let ghost all = repos.deep_view();
    let ghost p = not_among(taken.deep_view());
    let mut out: Vec<GitRepo> = Vec::new();
    let mut i: usize = 0;
    proof {
        reveal(Seq::filter);
        assert(all.take(0) =~= Seq::<GitRepoView>::empty());
        assert(out.deep_view() =~= Seq::<GitRepoView>::empty());
    }
    while i < repos.len()
        invariant
            all == repos.deep_view(),
            all.len() == repos@.len(),
            p == not_among(taken.deep_view()),
            i <= repos@.len(),
            out.deep_view() == all.take(i as int).filter(p),
        decreases repos@.len() - i,
    {
        let ghost before = out.deep_view();
        proof {
            assert(all[i as int] == repos@[i as int].deep_view());
            assert(all.take(i + 1) =~= all.take(i as int).push(all[i as int]));
            all.take(i as int).lemma_filter_push(all[i as int], p);
        }
        if !has_url_in(taken, repos[i].url.as_str()) {
            let repo = GitRepo {
                url: repos[i].url.clone(),
                rev: repos[i].rev.clone(),
                name: repos[i].name.clone(),
            };
            out.push(repo);
            assert(out.deep_view() =~= before.push(all[i as int]));
        }
        i = i + 1;
    }
    assert(all.take(i as int) =~= all);
    out
}

/// Collects the dependencies of the package `root_id`. Crates whose source is unknown are left
/// out, and `warnings` tells so.
pub fn collect_dependencies(
    meta: &Metadata,
    root_id: &str,
    lock: &Vec<LockPackage>,
    warnings: &mut Vec<String>,
) -> (r: Result<Dependencies, RecipeError>)
    ensures
        ({
            let m = meta.deep_view();
            let pkgs = package_map(m.packages);
            let runtime = runtime_ids(m, root_id@);
            let lacking = first_lacking(runtime, pkgs, checksums(lock.deep_view()));
            &&& match r {
                Ok(deps) => m.resolve is Some && deps.are_of(m, root_id@, lock.deep_view()),
                Err(RecipeError::NoResolve) => m.resolve is None,
                Err(e) => m.resolve is Some && lacking < runtime.len() && (
                e matches RecipeError::MissingChecksum { name, version } && name@
                    == pkgs[runtime[lacking]].name && version@ == pkgs[runtime[lacking]].version),
            }
            &&& final(warnings).deep_view() == old(warnings).deep_view() + (if m.resolve is Some {
                runtime.take(lacking).filter_map(unknown_source_warning(pkgs))
            } else {
                Seq::empty()
            })
        }),
{
    let ghost m = meta.deep_view();
    let ghost root = root_id@;
    let nodes: &Vec<Node> = match &meta.resolve {
        Some(resolve) => &resolve.nodes,
        None => {
            assert(warnings.deep_view() =~= old(warnings).deep_view() + Seq::<Seq<char>>::empty());
            return Err(RecipeError::NoResolve);
        },
    };
    let pkgs_by_full_id = index_packages_by_full_id(&meta.packages);
    let nodes_by_full_id = index_nodes(nodes);
    let pkgs_by_crate_id = index_packages(&meta.packages);
    let checksum_by_id = build_checksum_map(lock);
    let runtime_full_ids = compute_runtime_closure(root_id, &nodes_by_full_id);
    let runtime = crate_ids_of(&runtime_full_ids, &pkgs_by_full_id);
    proof {
        let p = is_runtime(m, root);
        assert forall|id: CrateIdView| runtime.deep_view().contains(id) <==> #[trigger] p(id) by {
            if runtime.deep_view().contains(id) {
                let full_id = choose|full_id: Seq<char>|
                    {
                        &&& runtime_full_ids.deep_view().contains(full_id)
                        &&& #[trigger] pkgs_by_full_id.as_map().contains_key(full_id)
                        &&& pkgs_by_full_id.as_map()[full_id].crate_id() == id
                    };
                assert(package_by_full_id(m.packages).contains_key(full_id));
            }
            if p(id) {
                let full_id = choose|full_id: Seq<char>|
                    {
                        &&& reachable(node_map(m.nodes()), root, full_id)
                        &&& #[trigger] package_by_full_id(m.packages).contains_key(full_id)
                        &&& package_by_full_id(m.packages)[full_id].crate_id() == id
                    };
                assert(runtime_full_ids.deep_view().contains(full_id));
                assert(pkgs_by_full_id.as_map().contains_key(full_id));
            }
        }
        lemma_ids_where(runtime.deep_view(), p);
    }
    let other = crate_ids_besides(&runtime, lock);
    proof {
        let p = is_runtime(m, root);
        let q = is_other(m, root, lock.deep_view());
        assert forall|id: CrateIdView| other.deep_view().contains(id) <==> #[trigger] q(id) by {
            assert(runtime.deep_view().contains(id) == p(id));
        }
        lemma_ids_where(other.deep_view(), q);
    }
    let runtime_crates = match collect_registry_crates(
        &runtime,
        &pkgs_by_crate_id,
        &checksum_by_id,
        warnings,
    ) {
        Ok(crates) => crates,
        Err(e) => return Err(e),
    };
    let other_crates = match collect_other_registry_crates(&other, lock) {
        Ok(crates) => crates,
        Err(e) => return Err(e),
    };
    let runtime_git = collect_git_repos(&runtime, &pkgs_by_crate_id);
    let other_git = without_urls(collect_git_repos_from_lock(&other, lock), &runtime_git);
    Ok(
        Dependencies {
            runtime_crates,
            other_crates,
            runtime_git,
            other_git,
            runtime_git_crates: collect_git_crates(&runtime, &pkgs_by_crate_id),
            other_git_crates: collect_git_crates_from_lock(&other, lock),
            licenses: collect_runtime_licenses(&runtime, &pkgs_by_crate_id),
        },
    )
}

/// The packages by name and version stand each under its own.
pub proof fn lemma_package_map(packages: Seq<PackageView>)
    ensures
        is_by_id(package_map(packages)),
        forall|id: CrateIdView| #[trigger]
            package_map(packages).contains_key(id) ==> packages.contains(package_map(packages)[id]),
        forall|i: int|
            0 <= i < packages.len() ==> package_map(packages).contains_key(
                (#[trigger] packages[i]).crate_id(),
            ),
    decreases packages.len(),
{
    if packages.len() > 0 {
        let front = packages.drop_last();
        lemma_package_map(front);
        assert forall|id: CrateIdView| #[trigger]
            package_map(packages).contains_key(id) implies packages.contains(
            package_map(packages)[id],
        ) by {
            if id == packages.last().crate_id() {
                assert(packages[packages.len() - 1] == packages.last());
            } else {
                assert(package_map(front).contains_key(id));
                assert(front.contains(package_map(front)[id]));
                let k: int = choose|k: int|
                    0 <= k < front.len() && front[k] == package_map(front)[id];
                assert(packages[k] == front[k]);
            }
        }
        assert forall|i: int| 0 <= i < packages.len() implies package_map(packages).contains_key(
            (#[trigger] packages[i]).crate_id(),
        ) by {
            if i < front.len() {
                assert(front[i] == packages[i]);
            }
        }
    }
}

proof fn lemma_full_ids_are_of_packages(packages: Seq<PackageView>, full_id: Seq<char>)
    requires
        package_by_full_id(packages).contains_key(full_id),
    ensures
        packages.contains(package_by_full_id(packages)[full_id]),
    decreases packages.len(),
{
    let front = packages.drop_last();
    if full_id == packages.last().id {
        assert(packages[packages.len() - 1] == packages.last());
    } else {
        lemma_full_ids_are_of_packages(front, full_id);
        let k: int = choose|k: int|
            0 <= k < front.len() && front[k] == package_by_full_id(front)[full_id];
        assert(packages[k] == front[k]);
    }
}

/// The crates that are needed at run time are those of reachable packages, in ascending order.
pub proof fn lemma_runtime_ids(meta: MetadataView, root: Seq<char>)
    ensures
        is_ids_where(runtime_ids(meta, root), is_runtime(meta, root)),
{
    let p = is_runtime(meta, root);
    let all = meta.packages.map_values(|x: PackageView| x.crate_id());
    let ids = lemma_ascending_exists::<CrateId>(all, p);
    assert forall|id: CrateIdView| ids.contains(id) <==> #[trigger] p(id) by {
        if p(id) {
            let full_id = choose|full_id: Seq<char>|
                {
                    &&& reachable(node_map(meta.nodes()), root, full_id)
                    &&& #[trigger] package_by_full_id(meta.packages).contains_key(full_id)
                    &&& package_by_full_id(meta.packages)[full_id].crate_id() == id
                };
            lemma_full_ids_are_of_packages(meta.packages, full_id);
            let x = package_by_full_id(meta.packages)[full_id];
            let k: int = choose|k: int| 0 <= k < meta.packages.len() && meta.packages[k] == x;
            assert(all[k] == id);
            assert(all.contains(id));
        }
    }
    assert(is_ids_where(ids, p));
}

/// The other crates are those of the lock file that are not needed at run time, in ascending
/// order.
pub proof fn lemma_other_ids(meta: MetadataView, root: Seq<char>, lock: Seq<LockPackageView>)
    ensures
        is_ids_where(other_ids(meta, root, lock), is_other(meta, root, lock)),
{
    let p = is_other(meta, root, lock);
    let all = lock.map_values(|x: LockPackageView| x.crate_id());
    let ids = lemma_ascending_exists::<CrateId>(all, p);
    assert forall|id: CrateIdView| ids.contains(id) <==> #[trigger] p(id) by {
        if p(id) {
            let k: int = choose|k: int| 0 <= k < lock.len() && (#[trigger] lock[k]).crate_id() == id;
            assert(all[k] == id);
            assert(all.contains(id));
        }
    }
    assert(is_ids_where(ids, p));
}

/// Each crate of the lock file is needed at run time or is one of the others, and none is both.
pub proof fn lemma_runtime_or_other(
    meta: MetadataView,
    root: Seq<char>,
    lock: Seq<LockPackageView>,
    i: int,
)
    requires
        0 <= i < lock.len(),
    ensures
        runtime_ids(meta, root).contains(lock[i].crate_id()) != other_ids(
            meta,
            root,
            lock,
        ).contains(lock[i].crate_id()),
{
    lemma_runtime_ids(meta, root);
    lemma_other_ids(meta, root, lock);
    let id = lock[i].crate_id();
    assert(is_runtime(meta, root)(id) == runtime_ids(meta, root).contains(id));
    assert(is_other(meta, root, lock)(id) == other_ids(meta, root, lock).contains(id));
}

/// The package that the recipe is for is needed at run time itself.
pub proof fn lemma_root_is_runtime(meta: MetadataView, root: Seq<char>)
    requires
        package_by_full_id(meta.packages).contains_key(root),
    ensures
        runtime_ids(meta, root).contains(package_by_full_id(meta.packages)[root].crate_id()),
{
    lemma_reaches_itself(node_map(meta.nodes()), root);
    lemma_runtime_ids(meta, root);
    let id = package_by_full_id(meta.packages)[root].crate_id();
    assert(is_runtime(meta, root)(id));
}

impl Dependencies {
    /// Each registry crate that is needed at run time is listed, with the checksum of the lock
    /// file.
    pub proof fn lemma_runtime_crate_is_listed(
        &self,
        meta: MetadataView,
        root: Seq<char>,
        lock: Seq<LockPackageView>,
        id: CrateIdView,
    )
        requires
            self.are_of(meta, root, lock),
            runtime_ids(meta, root).contains(id),
            is_registry_crate(package_map(meta.packages), id),
        ensures
            checksums(lock).contains_key(id),
            self.runtime_crates.deep_view().contains(
                (CrateInfoView {
                    name: id.name,
                    version: id.version,
                    checksum: checksums(lock)[id],
                }),
            ),
    {
        let pkgs = package_map(meta.packages);
        let runtime = runtime_ids(meta, root);
        let sums = checksums(lock);
        let crates = self.runtime_crates.deep_view();
        lemma_package_map(meta.packages);
        lemma_registry_sums(runtime, pkgs, sums, id);
        lemma_first_lacking(runtime, pkgs, sums);
        let k: int = choose|k: int| 0 <= k < runtime.len() && runtime[k] == id;
        assert(!lacks_checksum(pkgs, sums, runtime[k]));
        assert(ids_of(crates).contains(id));
        let i: int = choose|i: int| 0 <= i < ids_of(crates).len() && ids_of(crates)[i] == id;
        assert(crates[i].crate_id() == id);
    }

    /// What is listed for run time is a registry crate that is needed at run time.
    pub proof fn lemma_listed_runtime_crate(
        &self,
        meta: MetadataView,
        root: Seq<char>,
        lock: Seq<LockPackageView>,
        i: int,
    )
        requires
            self.are_of(meta, root, lock),
            0 <= i < self.runtime_crates.deep_view().len(),
        ensures
            runtime_ids(meta, root).contains(self.runtime_crates.deep_view()[i].crate_id()),
            is_registry_crate(
                package_map(meta.packages),
                self.runtime_crates.deep_view()[i].crate_id(),
            ),
    {
        lemma_package_map(meta.packages);
        lemma_registry_sums(
            runtime_ids(meta, root),
            package_map(meta.packages),
            checksums(lock),
            self.runtime_crates.deep_view()[i].crate_id(),
        );
    }

    /// Each registry crate of the lock file that has a checksum and is not needed at run time is
    /// listed with the others.
    pub proof fn lemma_other_crate_is_listed(
        &self,
        meta: MetadataView,
        root: Seq<char>,
        lock: Seq<LockPackageView>,
        i: int,
    )
        requires
            self.are_of(meta, root, lock),
            0 <= i < lock.len(),
            lock[i].is_registry(),
            lock[i].checksum is Some,
            !runtime_ids(meta, root).contains(lock[i].crate_id()),
        ensures
            ids_of(self.other_crates.deep_view()).contains(lock[i].crate_id()),
    {
        let other = other_ids(meta, root, lock);
        lemma_runtime_or_other(meta, root, lock, i);
        lemma_locked_sums(other, lock);
        assert(is_listed(other, lock[i]));
    }

    /// No crate is listed both for run time and with the others.
    pub proof fn lemma_crates_are_apart(
        &self,
        meta: MetadataView,
        root: Seq<char>,
        lock: Seq<LockPackageView>,
        id: CrateIdView,
    )
        requires
            self.are_of(meta, root, lock),
        ensures
            !(ids_of(self.runtime_crates.deep_view()).contains(id) && ids_of(
                self.other_crates.deep_view(),
            ).contains(id)),
    {
        let a = self.runtime_crates.deep_view();
        let b = self.other_crates.deep_view();
        if ids_of(a).contains(id) && ids_of(b).contains(id) {
            let i: int = choose|i: int| 0 <= i < ids_of(a).len() && ids_of(a)[i] == id;
            let j: int = choose|j: int| 0 <= j < ids_of(b).len() && ids_of(b)[j] == id;
            self.lemma_listed_runtime_crate(meta, root, lock, i);
            assert(a[i].crate_id() == id);
            assert(b[j].crate_id() == id);
            let other = other_ids(meta, root, lock);
            lemma_locked_sums(other, lock);
            assert(locked_sums(other, lock).contains_key(id));
            let k: int = choose|k: int|
                0 <= k < lock.len() && is_listed(other, #[trigger] lock[k]) && lock[k].crate_id()
                    == id && lock[k].checksum == Some(locked_sums(other, lock)[id]);
            lemma_runtime_or_other(meta, root, lock, k);
        }
    }

    /// The repository of each crate that is needed at run time is listed, and so is the place of
    /// the crate in it.
    pub proof fn lemma_runtime_repo_is_listed(
        &self,
        meta: MetadataView,
        root: Seq<char>,
        lock: Seq<LockPackageView>,
        id: CrateIdView,
    )
        requires
            self.are_of(meta, root, lock),
            runtime_ids(meta, root).contains(id),
            repo_of(package_map(meta.packages))(id) is Some,
        ensures
            has_url(
                self.runtime_git.deep_view(),
                repo_of(package_map(meta.packages))(id)->Some_0.url,
            ),
            self.runtime_git_crates.deep_view().contains(
                git_crate_of(package_map(meta.packages))(id)->Some_0,
            ),
    {
        let pkgs = package_map(meta.packages);
        let runtime = runtime_ids(meta, root);
        let k: int = choose|k: int| 0 <= k < runtime.len() && runtime[k] == id;
        let repos = runtime.filter_map(repo_of(pkgs));
        let repo = repo_of(pkgs)(id)->Some_0;
        lemma_filter_map_has(runtime, repo_of(pkgs), k);
        let i: int = choose|i: int| 0 <= i < repos.len() && repos[i] == repo;
        assert(repos[i].url == repo.url);
        assert(has_url(repos, repo.url));
        lemma_repo_list(repos);
        assert(has_url(repo_list(repos), repo.url));
        lemma_filter_map_has(runtime, git_crate_of(pkgs), k);
        lemma_sort_contains(
            runtime.filter_map(git_crate_of(pkgs)),
            crate_key(),
            git_crate_of(pkgs)(id)->Some_0,
        );
    }

    /// The repository of each package of the lock file that is not needed at run time is listed,
    /// for run time or with the others, and so is the place of the package in it.
    pub proof fn lemma_other_repo_is_listed(
        &self,
        meta: MetadataView,
        root: Seq<char>,
        lock: Seq<LockPackageView>,
        i: int,
    )
        requires
            self.are_of(meta, root, lock),
            0 <= i < lock.len(),
            lock[i].is_git(),
            !runtime_ids(meta, root).contains(lock[i].crate_id()),
        ensures
            has_url(self.runtime_git.deep_view(), lock[i].source->Some_0.url) || has_url(
                self.other_git.deep_view(),
                lock[i].source->Some_0.url,
            ),
            self.other_git_crates.deep_view().contains(
                locked_git_crate(other_ids(meta, root, lock))(lock[i])->Some_0,
            ),
    {
        let other = other_ids(meta, root, lock);
        let url = lock[i].source->Some_0.url;
        lemma_runtime_or_other(meta, root, lock, i);
        let found = lock.filter_map(locked_repo(other));
        let repo = locked_repo(other)(lock[i])->Some_0;
        lemma_filter_map_has(lock, locked_repo(other), i);
        let k: int = choose|k: int| 0 <= k < found.len() && found[k] == repo;
        assert(found[k].url == url);
        assert(has_url(found, url));
        lemma_repo_list(found);
        let listed = repo_list(found);
        assert(has_url(listed, url));
        let p = not_among(runtime_repos(meta, root));
        let j: int = choose|j: int| 0 <= j < listed.len() && (#[trigger] listed[j]).url == url;
        if !has_url(self.runtime_git.deep_view(), url) {
            assert(p(listed[j]));
            listed.lemma_filter_contains(p, j);
            let kept = listed.filter(p);
            let n: int = choose|n: int| 0 <= n < kept.len() && kept[n] == listed[j];
            assert(kept[n].url == url);
        }
        lemma_filter_map_has(lock, locked_git_crate(other), i);
        lemma_sort_contains(
            lock.filter_map(locked_git_crate(other)),
            crate_key(),
            locked_git_crate(other)(lock[i])->Some_0,
        );
    }

    /// No address of a repository is listed both for run time and with the others.
    pub proof fn lemma_repos_are_apart(
        &self,
        meta: MetadataView,
        root: Seq<char>,
        lock: Seq<LockPackageView>,
        url: Seq<char>,
    )
        requires
            self.are_of(meta, root, lock),
        ensures
            !(has_url(self.runtime_git.deep_view(), url) && has_url(
                self.other_git.deep_view(),
                url,
            )),
    {
        let kept = self.other_git.deep_view();
        let listed = repo_list(lock.filter_map(locked_repo(other_ids(meta, root, lock))));
        let p = not_among(runtime_repos(meta, root));
        if has_url(kept, url) {
            let n: int = choose|n: int| 0 <= n < kept.len() && (#[trigger] kept[n]).url == url;
            listed.lemma_filter_pred(p, n);
        }
    }

    /// The license of each crate that is needed at run time and comes from a registry or a
    /// repository is told.
    pub proof fn lemma_runtime_license_is_told(
        &self,
        meta: MetadataView,
        root: Seq<char>,
        lock: Seq<LockPackageView>,
        id: CrateIdView,
    )
        requires
            self.are_of(meta, root, lock),
            runtime_ids(meta, root).contains(id),
            package_map(meta.packages).contains_key(id),
            license_key(package_map(meta.packages)[id]) is Some,
        ensures
            self.licenses.as_map().contains_key(
                license_key(package_map(meta.packages)[id])->Some_0,
            ),
    {
        let runtime = runtime_ids(meta, root);
        let k: int = choose|k: int| 0 <= k < runtime.len() && runtime[k] == id;
        lemma_licenses_tell_each(runtime, package_map(meta.packages), k);
    }

    /// What is listed with the others is a registry crate of the lock file that is not needed at
    /// run time.
    pub proof fn lemma_listed_other_crate(
        &self,
        meta: MetadataView,
        root: Seq<char>,
        lock: Seq<LockPackageView>,
        i: int,
    )
        requires
            self.are_of(meta, root, lock),
            0 <= i < self.other_crates.deep_view().len(),
        ensures
            !runtime_ids(meta, root).contains(self.other_crates.deep_view()[i].crate_id()),
            exists|k: int|
                0 <= k < lock.len() && (#[trigger] lock[k]).is_registry() && lock[k].crate_id()
                    == self.other_crates.deep_view()[i].crate_id() && lock[k].checksum == Some(
                    self.other_crates.deep_view()[i].checksum,
                ),
    {
        let other = other_ids(meta, root, lock);
        let id = self.other_crates.deep_view()[i].crate_id();
        lemma_locked_sums(other, lock);
        assert(locked_sums(other, lock).contains_key(id));
        let k: int = choose|k: int|
            0 <= k < lock.len() && is_listed(other, #[trigger] lock[k]) && lock[k].crate_id() == id
                && lock[k].checksum == Some(locked_sums(other, lock)[id]);
        lemma_runtime_or_other(meta, root, lock, k);
    }

    /// A repository that is listed for run time is that of a crate that is needed at run time.
    pub proof fn lemma_listed_runtime_repo(
        &self,
        meta: MetadataView,
        root: Seq<char>,
        lock: Seq<LockPackageView>,
        i: int,
    )
        requires
            self.are_of(meta, root, lock),
            0 <= i < self.runtime_git.deep_view().len(),
        ensures
            exists|id: CrateIdView| #[trigger]
                runtime_ids(meta, root).contains(id) && repo_of(package_map(meta.packages))(id)
                    == Some(self.runtime_git.deep_view()[i]),
    {
        let runtime = runtime_ids(meta, root);
        let f = repo_of(package_map(meta.packages));
        let listed = self.runtime_git.deep_view();
        lemma_repo_list(runtime.filter_map(f));
        assert(listed.contains(listed[i]));
        runtime.lemma_filter_map_contains(f, listed[i]);
    }

    /// A repository that is listed with the others is that of a package of the lock file that is
    /// not needed at run time.
    pub proof fn lemma_listed_other_repo(
        &self,
        meta: MetadataView,
        root: Seq<char>,
        lock: Seq<LockPackageView>,
        i: int,
    )
        requires
            self.are_of(meta, root, lock),
            0 <= i < self.other_git.deep_view().len(),
        ensures
            exists|p: LockPackageView| #[trigger]
                lock.contains(p) && !runtime_ids(meta, root).contains(p.crate_id())
                    && locked_repo(other_ids(meta, root, lock))(p) == Some(
                    self.other_git.deep_view()[i],
                ),
    {
        let other = other_ids(meta, root, lock);
        let f = locked_repo(other);
        let kept = self.other_git.deep_view();
        let found = lock.filter_map(f);
        assert(kept.contains(kept[i]));
        repo_list(found).lemma_filter_contains_rev(
            not_among(runtime_repos(meta, root)),
            kept[i],
        );
        lemma_repo_list(found);
        lock.lemma_filter_map_contains(f, kept[i]);
        let p = choose|p: LockPackageView| #[trigger] lock.contains(p) && f(p) == Some(kept[i]);
        let k: int = choose|k: int| 0 <= k < lock.len() && lock[k] == p;
        lemma_runtime_or_other(meta, root, lock, k);
    }

    /// The repositories stand in the order of their names, and no two have the same address.
    pub proof fn lemma_repos_are_in_order(
        &self,
        meta: MetadataView,
        root: Seq<char>,
        lock: Seq<LockPackageView>,
    )
        requires
            self.are_of(meta, root, lock),
        ensures
            is_sorted(self.runtime_git.deep_view(), repo_key()),
            is_sorted(self.other_git.deep_view(), repo_key()),
            forall|i: int, j: int|
                0 <= i < j < self.runtime_git.deep_view().len()
                    ==> (#[trigger] self.runtime_git.deep_view()[i]).url != (
                #[trigger] self.runtime_git.deep_view()[j]).url,
            forall|i: int, j: int|
                0 <= i < j < self.other_git.deep_view().len()
                    ==> (#[trigger] self.other_git.deep_view()[i]).url != (
                #[trigger] self.other_git.deep_view()[j]).url,
    {
        let runtime = runtime_ids(meta, root).filter_map(repo_of(package_map(meta.packages)));
        let other = lock.filter_map(locked_repo(other_ids(meta, root, lock)));
        let a = self.runtime_git.deep_view();
        let b = self.other_git.deep_view();
        let all = repo_list(other);
        let p = not_among(runtime_repos(meta, root));
        lemma_repo_list(runtime);
        lemma_repo_list(other);
        assert forall|i: int, j: int| 0 <= i < j < a.len() implies (#[trigger] a[i]).url != (
        #[trigger] a[j]).url by {
            lemma_repo_list_is_distinct(runtime, i, j);
        }
        assert forall|i: int, j: int| 0 <= i < j < b.len() implies (#[trigger] b[i]).url != (
        #[trigger] b[j]).url && !text_before(repo_key()(b[j]), repo_key()(b[i])) by {
            lemma_filter_keeps_order(all, p, i, j);
            let (x, y): (int, int) = choose|x: int, y: int|
                0 <= x < y < all.len() && #[trigger] all[x] == b[i] && #[trigger] all[y] == b[j];
            lemma_repo_list_is_distinct(other, x, y);
        }
    }
}

} // verus!
