//! Laws on what a package needs, and on what is fetched for it.
use crate::closure::{
    lemma_closed_set_has_reachable, lemma_reaches_itself, lemma_reaches_needs, needs, reachable,
};
use crate::collect::{
    git_crate_of, has_url, license_key, locked_git_crate, locked_repo, repo_list, repo_of,
};
use crate::laws::collect::{
    law_first_of_each_address_is_listed, law_list_of_crates, law_locked_crates_are_listed,
    law_each_listed_locked_crate_is_of_a_package, law_each_told_license_is_of_a_crate,
    law_told_license_is_the_stated_one,
};
use crate::lock::checksums;
use crate::model::{
    CrateId, CrateIdView, CrateInfoView, GitRepoView, LockPackageView, MetadataView, NodeView,
    PackageView,
};
use crate::order::{ascending, text_before};
use crate::plan::{
    is_other, is_runtime, lemma_other_ids, lemma_package_map, lemma_runtime_ids, node_map,
    not_among, other_ids, package_by_full_id, package_map, runtime_ids, runtime_repos, Dependencies,
};
use crate::sorted::{crate_key, lemma_sort_is_sorted, lemma_sort_keeps_items};
use vstd::prelude::*;

verus! {

/// The last node of an id is found under it, and nothing else is.
pub proof fn law_last_node_of_an_id_is_found(nodes: Seq<NodeView>, i: int)
    requires
        0 <= i < nodes.len(),
        forall|j: int| i < j < nodes.len() ==> (#[trigger] nodes[j]).id != nodes[i].id,
    ensures
        node_map(nodes).contains_key(nodes[i].id),
        node_map(nodes)[nodes[i].id] == nodes[i],
    decreases nodes.len(),
{
    let front = nodes.drop_last();
    assert(nodes[nodes.len() - 1] == nodes.last());
    if i < nodes.len() - 1 {
        assert(front[i] == nodes[i]);
        assert forall|j: int| i < j < front.len() implies (#[trigger] front[j]).id
            != front[i].id by {
            assert(nodes[j] == front[j]);
        }
        law_last_node_of_an_id_is_found(front, i);
    }
}

/// A node that is found under an id is one of the nodes, and has that id.
pub proof fn law_each_found_node_is_one_of_them(nodes: Seq<NodeView>, id: Seq<char>)
    requires
        node_map(nodes).contains_key(id),
    ensures
        nodes.contains(node_map(nodes)[id]),
        node_map(nodes)[id].id == id,
    decreases nodes.len(),
{
    let front = nodes.drop_last();
    if nodes.last().id == id {
        assert(nodes[nodes.len() - 1] == nodes.last());
    } else {
        law_each_found_node_is_one_of_them(front, id);
        let k: int = choose|k: int| 0 <= k < front.len() && front[k] == node_map(front)[id];
        assert(nodes[k] == front[k]);
    }
}

/// The last package of an id is found under it.
pub proof fn law_last_package_of_an_id_is_found(packages: Seq<PackageView>, i: int)
    requires
        0 <= i < packages.len(),
        forall|j: int| i < j < packages.len() ==> (#[trigger] packages[j]).id != packages[i].id,
    ensures
        package_by_full_id(packages).contains_key(packages[i].id),
        package_by_full_id(packages)[packages[i].id] == packages[i],
    decreases packages.len(),
{
    let front = packages.drop_last();
    assert(packages[packages.len() - 1] == packages.last());
    if i < packages.len() - 1 {
        assert(front[i] == packages[i]);
        assert forall|j: int| i < j < front.len() implies (#[trigger] front[j]).id
            != front[i].id by {
            assert(packages[j] == front[j]);
        }
        law_last_package_of_an_id_is_found(front, i);
    }
}

/// A package that is found under an id is one of the packages, and has that id.
pub proof fn law_each_found_package_is_one_of_them(packages: Seq<PackageView>, id: Seq<char>)
    requires
        package_by_full_id(packages).contains_key(id),
    ensures
        packages.contains(package_by_full_id(packages)[id]),
        package_by_full_id(packages)[id].id == id,
    decreases packages.len(),
{
    let front = packages.drop_last();
    if packages.last().id == id {
        assert(packages[packages.len() - 1] == packages.last());
    } else {
        law_each_found_package_is_one_of_them(front, id);
        let k: int = choose|k: int|
            0 <= k < front.len() && front[k] == package_by_full_id(front)[id];
        assert(packages[k] == front[k]);
    }
}

/// The last package of a name and version is found under them, and what is found under a name and
/// version is a package that has them.
pub proof fn law_last_package_of_a_version_is_found(packages: Seq<PackageView>, i: int)
    requires
        0 <= i < packages.len(),
        forall|j: int|
            i < j < packages.len() ==> (#[trigger] packages[j]).name != packages[i].name
                || packages[j].version != packages[i].version,
    ensures
        package_map(packages).contains_key(
            (CrateIdView { name: packages[i].name, version: packages[i].version }),
        ),
        package_map(packages)[CrateIdView { name: packages[i].name, version: packages[i].version }]
            == packages[i],
    decreases packages.len(),
{
    let front = packages.drop_last();
    assert(packages[packages.len() - 1] == packages.last());
    if i < packages.len() - 1 {
        assert(front[i] == packages[i]);
        assert forall|j: int| i < j < front.len() implies (#[trigger] front[j]).name
            != front[i].name || front[j].version != front[i].version by {
            assert(packages[j] == front[j]);
        }
        law_last_package_of_a_version_is_found(front, i);
    }
}

/// A package needs another directly exactly when one of its dependencies is on it and has a kind
/// without a name, whatever other kinds it has.
pub proof fn law_needs_are_normal_dependencies(
    graph: Map<Seq<char>, NodeView>,
    a: Seq<char>,
    b: Seq<char>,
)
    ensures
        needs(graph, a, b) <==> graph.contains_key(a) && exists|i: int, k: int|
            0 <= i < graph[a].deps.len() && #[trigger] graph[a].deps[i].pkg == b && 0 <= k
                < graph[a].deps[i].dep_kinds.len() && (
            #[trigger] graph[a].deps[i].dep_kinds[k]) is None,
{
    if graph.contains_key(a) {
        let deps = graph[a].deps;
        if needs(graph, a, b) {
            let i: int = choose|i: int|
                0 <= i < deps.len() && #[trigger] deps[i].pkg == b && deps[i].has_normal();
            let k: int = choose|k: int|
                0 <= k < deps[i].dep_kinds.len() && deps[i].dep_kinds[k] is None;
            assert(deps[i].pkg == b && deps[i].dep_kinds[k] is None);
        }
        if exists|i: int, k: int|
            0 <= i < deps.len() && #[trigger] deps[i].pkg == b && 0 <= k < deps[i].dep_kinds.len()
                && (#[trigger] deps[i].dep_kinds[k]) is None {
            let (i, k): (int, int) = choose|i: int, k: int|
                0 <= i < deps.len() && #[trigger] deps[i].pkg == b && 0 <= k
                    < deps[i].dep_kinds.len() && (#[trigger] deps[i].dep_kinds[k]) is None;
            assert(deps[i].has_normal());
        }
    }
}

/// The root is needed, and so is whatever a needed package has a normal dependency on.
pub proof fn law_normal_dependencies_are_needed(
    graph: Map<Seq<char>, NodeView>,
    root: Seq<char>,
    a: Seq<char>,
    i: int,
    k: int,
)
    requires
        a == root || reachable(graph, root, a),
        graph.contains_key(a),
        0 <= i < graph[a].deps.len(),
        0 <= k < graph[a].deps[i].dep_kinds.len(),
        graph[a].deps[i].dep_kinds[k] is None,
    ensures
        reachable(graph, root, root),
        reachable(graph, root, graph[a].deps[i].pkg),
{
    lemma_reaches_itself(graph, root);
    law_needs_are_normal_dependencies(graph, a, graph[a].deps[i].pkg);
    lemma_reaches_needs(graph, root, a, graph[a].deps[i].pkg);
}

/// Nothing else is needed: whatever ids have the root, and lack nothing that one of them has a
/// normal dependency on, have all that is needed.
pub proof fn law_nothing_else_is_needed(
    graph: Map<Seq<char>, NodeView>,
    root: Seq<char>,
    ids: Seq<Seq<char>>,
    id: Seq<char>,
)
    requires
        ids.contains(root),
        forall|a: Seq<char>, i: int, k: int|
            ids.contains(a) && graph.contains_key(a) && 0 <= i < graph[a].deps.len() && 0 <= k
                < graph[a].deps[i].dep_kinds.len() && (
            #[trigger] graph[a].deps[i].dep_kinds[k]) is None ==> ids.contains(
                graph[a].deps[i].pkg,
            ),
        reachable(graph, root, id),
    ensures
        ids.contains(id),
{
    assert forall|a: Seq<char>, b: Seq<char>|
        ids.contains(a) && #[trigger] needs(graph, a, b) implies ids.contains(b) by {
        law_needs_are_normal_dependencies(graph, a, b);
        let (i, k): (int, int) = choose|i: int, k: int|
            0 <= i < graph[a].deps.len() && #[trigger] graph[a].deps[i].pkg == b && 0 <= k
                < graph[a].deps[i].dep_kinds.len() && (
            #[trigger] graph[a].deps[i].dep_kinds[k]) is None;
    }
    lemma_closed_set_has_reachable(graph, root, ids, id);
}

/// A crate is needed at run time when a package of its name and version is reached, and only then.
pub proof fn law_runtime_crates_are_of_reached_packages(
    meta: MetadataView,
    root: Seq<char>,
    i: int,
    id: CrateIdView,
)
    requires
        0 <= i < meta.packages.len(),
        forall|j: int|
            i < j < meta.packages.len() ==> (#[trigger] meta.packages[j]).id != meta.packages[i].id,
    ensures
        reachable(node_map(meta.nodes()), root, meta.packages[i].id) ==> runtime_ids(
            meta,
            root,
        ).contains(
            (CrateIdView { name: meta.packages[i].name, version: meta.packages[i].version }),
        ),
        runtime_ids(meta, root).contains(id) ==> exists|k: int|
            0 <= k < meta.packages.len() && (#[trigger] meta.packages[k]).name == id.name
                && meta.packages[k].version == id.version && reachable(
                node_map(meta.nodes()),
                root,
                meta.packages[k].id,
            ),
        ascending::<CrateId>(runtime_ids(meta, root)),
{
    let p = is_runtime(meta, root);
    let graph = node_map(meta.nodes());
    lemma_runtime_ids(meta, root);
    law_last_package_of_an_id_is_found(meta.packages, i);
    if reachable(graph, root, meta.packages[i].id) {
        let own = meta.packages[i].crate_id();
        assert(package_by_full_id(meta.packages).contains_key(meta.packages[i].id));
        assert(p(own));
        assert(own == CrateIdView {
            name: meta.packages[i].name,
            version: meta.packages[i].version,
        });
    }
    if runtime_ids(meta, root).contains(id) {
        assert(p(id));
        let full_id = choose|full_id: Seq<char>|
            {
                &&& reachable(graph, root, full_id)
                &&& #[trigger] package_by_full_id(meta.packages).contains_key(full_id)
                &&& package_by_full_id(meta.packages)[full_id].crate_id() == id
            };
        law_each_found_package_is_one_of_them(meta.packages, full_id);
        let found = package_by_full_id(meta.packages)[full_id];
        let k: int = choose|k: int| 0 <= k < meta.packages.len() && meta.packages[k] == found;
        assert(meta.packages[k].name == id.name);
    }
}

/// The other crates are exactly those of the lock file that are not needed at run time.
pub proof fn law_other_crates_are_the_rest_of_the_lock_file(
    meta: MetadataView,
    root: Seq<char>,
    lock: Seq<LockPackageView>,
    id: CrateIdView,
)
    ensures
        other_ids(meta, root, lock).contains(id) <==> !runtime_ids(meta, root).contains(id)
            && exists|i: int|
            0 <= i < lock.len() && (#[trigger] lock[i]).name == id.name && lock[i].version
                == id.version,
        ascending::<CrateId>(other_ids(meta, root, lock)),
{
    let p = is_runtime(meta, root);
    let q = is_other(meta, root, lock);
    lemma_runtime_ids(meta, root);
    lemma_other_ids(meta, root, lock);
    assert(p(id) == runtime_ids(meta, root).contains(id));
    assert(q(id) == other_ids(meta, root, lock).contains(id));
    if exists|i: int|
        0 <= i < lock.len() && (#[trigger] lock[i]).name == id.name && lock[i].version
            == id.version {
        let i: int = choose|i: int|
            0 <= i < lock.len() && (#[trigger] lock[i]).name == id.name && lock[i].version
                == id.version;
        assert(lock[i].crate_id() == id);
    }
    if exists|i: int| 0 <= i < lock.len() && (#[trigger] lock[i]).crate_id() == id {
        let i: int = choose|i: int| 0 <= i < lock.len() && (#[trigger] lock[i]).crate_id() == id;
        assert(lock[i].name == id.name);
    }
}

/// Each registry crate that is needed at run time has a checksum in the lock file and is listed
/// with it; nothing else is listed for run time.
pub proof fn law_crates_for_run_time(
    deps: &Dependencies,
    meta: MetadataView,
    root: Seq<char>,
    lock: Seq<LockPackageView>,
    id: CrateIdView,
    i: int,
)
    requires
        deps.are_of(meta, root, lock),
    ensures
        runtime_ids(meta, root).contains(id) && package_map(meta.packages).contains_key(id)
            && package_map(meta.packages)[id].is_registry_source() ==> checksums(lock).contains_key(
            id,
        ) && deps.runtime_crates.deep_view().contains(
            (CrateInfoView { name: id.name, version: id.version, checksum: checksums(lock)[id] }),
        ),
        0 <= i < deps.runtime_crates.deep_view().len() ==> {
            let c = deps.runtime_crates.deep_view()[i];
            let own = CrateIdView { name: c.name, version: c.version };
            &&& runtime_ids(meta, root).contains(own)
            &&& package_map(meta.packages).contains_key(own)
            &&& package_map(meta.packages)[own].is_registry_source()
            &&& checksums(lock).contains_key(own)
            &&& c.checksum == checksums(lock)[own]
        },
{
    let pkgs = package_map(meta.packages);
    if runtime_ids(meta, root).contains(id) && pkgs.contains_key(id)
        && pkgs[id].is_registry_source() {
        deps.lemma_runtime_crate_is_listed(meta, root, lock, id);
    }
    if 0 <= i < deps.runtime_crates.deep_view().len() {
        let c = deps.runtime_crates.deep_view()[i];
        let own = c.crate_id();
        deps.lemma_listed_runtime_crate(meta, root, lock, i);
        deps.lemma_runtime_crate_is_listed(meta, root, lock, own);
        lemma_package_map(meta.packages);
        crate::collect::lemma_registry_sums(
            runtime_ids(meta, root),
            pkgs,
            checksums(lock),
            own,
        );
    }
}

/// A registry crate of the lock file that has a checksum and is not needed at run time is listed
/// with the others, with the first checksum that the lock file has for it; nothing else is.
pub proof fn law_crates_besides_run_time(
    deps: &Dependencies,
    meta: MetadataView,
    root: Seq<char>,
    lock: Seq<LockPackageView>,
    i: int,
    n: int,
)
    requires
        deps.are_of(meta, root, lock),
        0 <= i < lock.len(),
        lock[i].source is Some,
        lock[i].source->Some_0.kind is Registry || lock[i].source->Some_0.kind is SparseRegistry,
        lock[i].checksum is Some,
        !runtime_ids(meta, root).contains(
            CrateIdView { name: lock[i].name, version: lock[i].version },
        ),
        forall|j: int|
            0 <= j < i ==> (#[trigger] lock[j]).name != lock[i].name || lock[j].version
                != lock[i].version,
    ensures
        deps.other_crates.deep_view().contains(
            (CrateInfoView {
                name: lock[i].name,
                version: lock[i].version,
                checksum: lock[i].checksum->Some_0,
            }),
        ),
        0 <= n < deps.other_crates.deep_view().len() ==> {
            let c = deps.other_crates.deep_view()[n];
            &&& !runtime_ids(meta, root).contains(
                CrateIdView { name: c.name, version: c.version },
            )
            &&& exists|j: int|
                0 <= j < lock.len() && (#[trigger] lock[j]).name == c.name && lock[j].version
                    == c.version && lock[j].checksum == Some(c.checksum) && lock[j].source is Some
                    && (lock[j].source->Some_0.kind is Registry
                    || lock[j].source->Some_0.kind is SparseRegistry)
        },
{
    let other = other_ids(meta, root, lock);
    let id = CrateIdView { name: lock[i].name, version: lock[i].version };
    let sums = crate::collect::locked_sums(other, lock);
    law_other_crates_are_the_rest_of_the_lock_file(meta, root, lock, id);
    law_locked_crates_are_listed(other, lock, i);
    law_list_of_crates(deps.other_crates.deep_view(), sums);
    if 0 <= n < deps.other_crates.deep_view().len() {
        let c = deps.other_crates.deep_view()[n];
        let own = CrateIdView { name: c.name, version: c.version };
        assert(sums.contains_key(own));
        law_each_listed_locked_crate_is_of_a_package(other, lock, own);
        law_other_crates_are_the_rest_of_the_lock_file(meta, root, lock, own);
    }
}

/// The crates of repositories are neither more nor less than those that were found, each as often
/// as it was found, and stand in the order of their names.
pub proof fn law_crates_of_repositories(
    deps: &Dependencies,
    meta: MetadataView,
    root: Seq<char>,
    lock: Seq<LockPackageView>,
    i: int,
    j: int,
)
    requires
        deps.are_of(meta, root, lock),
    ensures
        deps.runtime_git_crates.deep_view().to_multiset() == runtime_ids(meta, root).filter_map(
            git_crate_of(package_map(meta.packages)),
        ).to_multiset(),
        deps.other_git_crates.deep_view().to_multiset() == lock.filter_map(
            locked_git_crate(other_ids(meta, root, lock)),
        ).to_multiset(),
        0 <= i < j < deps.runtime_git_crates.deep_view().len() ==> !text_before(
            deps.runtime_git_crates.deep_view()[j].name,
            deps.runtime_git_crates.deep_view()[i].name,
        ),
        0 <= i < j < deps.other_git_crates.deep_view().len() ==> !text_before(
            deps.other_git_crates.deep_view()[j].name,
            deps.other_git_crates.deep_view()[i].name,
        ),
{
    let a = runtime_ids(meta, root).filter_map(git_crate_of(package_map(meta.packages)));
    let b = lock.filter_map(locked_git_crate(other_ids(meta, root, lock)));
    lemma_sort_keeps_items(a, crate_key());
    lemma_sort_keeps_items(b, crate_key());
    lemma_sort_is_sorted(a, crate_key());
    lemma_sort_is_sorted(b, crate_key());
}

proof fn lemma_filter_map_of_both<A, B>(s: Seq<A>, t: Seq<A>, f: spec_fn(A) -> Option<B>)
    ensures
        (s + t).filter_map(f) == s.filter_map(f) + t.filter_map(f),
    decreases t.len(),
{
    let all = s + t;
    if t.len() == 0 {
        assert(all =~= s);
        assert(s.filter_map(f) + t.filter_map(f) =~= s.filter_map(f));
    } else {
        assert(all.drop_last() =~= s + t.drop_last());
        assert(all.last() == t.last());
        lemma_filter_map_of_both(s, t.drop_last(), f);
        assert(all.filter_map(f) =~= s.filter_map(f) + t.filter_map(f));
    }
}

/// What is made of an item that no earlier item makes the same address of is listed.
proof fn lemma_first_found_is_listed<A>(s: Seq<A>, f: spec_fn(A) -> Option<GitRepoView>, k: int)
    requires
        0 <= k < s.len(),
        f(s[k]) is Some,
        forall|j: int|
            0 <= j < k && f(#[trigger] s[j]) is Some ==> f(s[j])->Some_0.url
                != f(s[k])->Some_0.url,
    ensures
        repo_list(s.filter_map(f)).contains(f(s[k])->Some_0),
{
    let before = s.take(k);
    let found = s.filter_map(f);
    let n = before.filter_map(f).len() as int;
    lemma_filter_map_of_both(before, s.skip(k), f);
    assert(s =~= before + s.skip(k));
    lemma_filter_map_of_both(s.subrange(k, k + 1), s.skip(k + 1), f);
    assert(s.skip(k) =~= s.subrange(k, k + 1) + s.skip(k + 1));
    let one = s.subrange(k, k + 1);
    assert(one.filter_map(f) =~= seq![f(s[k])->Some_0]) by {
        assert(one.drop_last() =~= Seq::<A>::empty());
        assert(one.drop_last().filter_map(f) =~= Seq::<GitRepoView>::empty());
        assert(one.last() == s[k]);
    }
    assert(found[n] == f(s[k])->Some_0);
    assert forall|j: int| 0 <= j < n implies (#[trigger] found[j]).url != found[n].url by {
        assert(found[j] == before.filter_map(f)[j]);
        assert(before.filter_map(f).contains(found[j]));
        before.lemma_filter_map_contains(f, found[j]);
        let x = choose|x: A| #[trigger] before.contains(x) && f(x) == Some(found[j]);
        let m: int = choose|m: int| 0 <= m < before.len() && before[m] == x;
        assert(s[m] == x);
    }
    law_first_of_each_address_is_listed(found, n);
}

/// For run time, a repository is fetched at the revision that the first crate with its address has.
pub proof fn law_repositories_for_run_time(
    deps: &Dependencies,
    meta: MetadataView,
    root: Seq<char>,
    lock: Seq<LockPackageView>,
    k: int,
    r: GitRepoView,
)
    requires
        deps.are_of(meta, root, lock),
        0 <= k < runtime_ids(meta, root).len(),
        repo_of(package_map(meta.packages))(runtime_ids(meta, root)[k]) == Some(r),
        forall|j: int|
            0 <= j < k ==> (repo_of(package_map(meta.packages))(
                #[trigger] runtime_ids(meta, root)[j],
            ) matches Some(q) ==> q.url != r.url),
    ensures
        deps.runtime_git.deep_view().contains(r),
{
    lemma_first_found_is_listed(
        runtime_ids(meta, root),
        repo_of(package_map(meta.packages)),
        k,
    );
}

/// Otherwise, a repository that is not fetched for run time is fetched at the revision that the
/// first package of the lock file with its address has.
pub proof fn law_repositories_besides_run_time(
    deps: &Dependencies,
    meta: MetadataView,
    root: Seq<char>,
    lock: Seq<LockPackageView>,
    k: int,
    r: GitRepoView,
)
    requires
        deps.are_of(meta, root, lock),
        0 <= k < lock.len(),
        locked_repo(other_ids(meta, root, lock))(lock[k]) == Some(r),
        forall|j: int|
            0 <= j < k ==> (locked_repo(other_ids(meta, root, lock))(#[trigger] lock[j]) matches Some(
                q,
            ) ==> q.url != r.url),
        forall|j: int|
            0 <= j < deps.runtime_git.deep_view().len() ==> (
            #[trigger] deps.runtime_git.deep_view()[j]).url != r.url,
    ensures
        deps.other_git.deep_view().contains(r),
{
    let f = locked_repo(other_ids(meta, root, lock));
    let all = repo_list(lock.filter_map(f));
    let p = not_among(runtime_repos(meta, root));
    lemma_first_found_is_listed(lock, f, k);
    let i: int = choose|i: int| 0 <= i < all.len() && all[i] == r;
    assert(!has_url(deps.runtime_git.deep_view(), r.url));
    assert(p(all[i]));
    all.lemma_filter_contains(p, i);
}

/// The repositories stand in the order of their names.
pub proof fn law_repositories_are_sorted_by_name(
    deps: &Dependencies,
    meta: MetadataView,
    root: Seq<char>,
    lock: Seq<LockPackageView>,
    i: int,
    j: int,
)
    requires
        deps.are_of(meta, root, lock),
    ensures
        0 <= i < j < deps.runtime_git.deep_view().len() ==> !text_before(
            deps.runtime_git.deep_view()[j].name,
            deps.runtime_git.deep_view()[i].name,
        ),
        0 <= i < j < deps.other_git.deep_view().len() ==> !text_before(
            deps.other_git.deep_view()[j].name,
            deps.other_git.deep_view()[i].name,
        ),
{
    deps.lemma_repos_are_in_order(meta, root, lock);
}

/// The license that is told of a crate that is needed at run time is the one that its package
/// states, whole, and `UNKNOWN` where it states none.
pub proof fn law_licenses_for_run_time(
    deps: &Dependencies,
    meta: MetadataView,
    root: Seq<char>,
    lock: Seq<LockPackageView>,
    i: int,
    key: Seq<char>,
)
    requires
        deps.are_of(meta, root, lock),
        0 <= i < runtime_ids(meta, root).len(),
        package_map(meta.packages).contains_key(runtime_ids(meta, root)[i]),
        license_key(package_map(meta.packages)[runtime_ids(meta, root)[i]]) == Some(key),
        forall|j: int|
            i < j < runtime_ids(meta, root).len() && package_map(meta.packages).contains_key(
                #[trigger] runtime_ids(meta, root)[j],
            ) ==> license_key(package_map(meta.packages)[runtime_ids(meta, root)[j]]) != Some(key),
    ensures
        deps.licenses.as_map().contains_key(key),
        package_map(meta.packages)[runtime_ids(meta, root)[i]].license matches Some(text)
            ==> deps.licenses.as_map()[key] == text,
        package_map(meta.packages)[runtime_ids(meta, root)[i]].license is None
            ==> deps.licenses.as_map()[key] == "UNKNOWN"@,
{
    law_told_license_is_the_stated_one(
        runtime_ids(meta, root),
        package_map(meta.packages),
        i,
        key,
    );
}

/// Each license that is told is the stated one, or the lack of one, of a crate that is needed at run
/// time and goes by that key.
pub proof fn law_each_license_is_of_a_runtime_crate(
    deps: &Dependencies,
    meta: MetadataView,
    root: Seq<char>,
    lock: Seq<LockPackageView>,
    key: Seq<char>,
)
    requires
        deps.are_of(meta, root, lock),
        deps.licenses.as_map().contains_key(key),
    ensures
        exists|id: CrateIdView| #[trigger]
            runtime_ids(meta, root).contains(id) && package_map(meta.packages).contains_key(id)
                && license_key(package_map(meta.packages)[id]) == Some(key) && (package_map(
                meta.packages,
            )[id].license == Some(deps.licenses.as_map()[key]) || (package_map(
                meta.packages,
            )[id].license is None && deps.licenses.as_map()[key] == "UNKNOWN"@)),
{
    let ids = runtime_ids(meta, root);
    let pkgs = package_map(meta.packages);
    law_each_told_license_is_of_a_crate(ids, pkgs, key);
    let told = deps.licenses.as_map()[key];
    let i: int = choose|i: int|
        0 <= i < ids.len() && pkgs.contains_key(#[trigger] ids[i]) && license_key(pkgs[ids[i]])
            == Some(key) && (pkgs[ids[i]].license == Some(told) || (pkgs[ids[i]].license is None
            && told == "UNKNOWN"@));
    assert(ids.contains(ids[i]));
}

} // verus!
