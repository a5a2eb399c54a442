//! What has to be fetched, collected from the metadata and from the lock file.
use crate::error::RecipeError;
use crate::git::{
    extract_path_in_repo, git_source, parse_git_source, path_in_repo, repo_name, repo_name_of,
};
use crate::model::{
    CrateId, CrateIdView, CrateInfo, CrateInfoView, GitCrate, GitCrateView, GitRepo, GitRepoView,
    LockPackage, LockPackageView, Package, PackageView, SourceKind,
};
use crate::order::{ascending, keys_of, lemma_map_of_entry, OrderedMap, OrderedSet};
use crate::sorted::{
    crate_key, insert_by_name, is_sorted, lemma_sort_contains, lemma_sort_is_sorted,
    lemma_sort_keeps_items, place, repo_key, sort_by,
};
use crate::text::{
    before_first, before_first_of, first_index, lemma_after_last_is_free, lemma_first_index,
    lemma_last_index, lemma_split_at_last, same_text, split_at_last, split_at_last_of,
};
use vstd::prelude::*;

verus! {

/// The identities of the crates of a list.
pub open spec fn ids_of(crates: Seq<CrateInfoView>) -> Seq<CrateIdView> {
    crates.map_values(|c: CrateInfoView| c.crate_id())
}

/// A list of crates that holds what a map from identity to checksum holds, in ascending order.
pub open spec fn lists(
    crates: Seq<CrateInfoView>,
    sums: Map<CrateIdView, Seq<char>>,
) -> bool {
    &&& ascending::<CrateId>(ids_of(crates))
    &&& forall|i: int|
        0 <= i < crates.len() ==> sums.contains_key((#[trigger] crates[i]).crate_id())
            && crates[i].checksum == sums[crates[i].crate_id()]
    &&& forall|id: CrateIdView| #[trigger] sums.contains_key(id) ==> ids_of(crates).contains(id)
}

/// The map with `sum` under `id`, unless something stands there.
pub open spec fn put_first(
    sums: Map<CrateIdView, Seq<char>>,
    id: CrateIdView,
    sum: Seq<char>,
) -> Map<CrateIdView, Seq<char>> {
    if sums.contains_key(id) {
        sums
    } else {
        sums.insert(id, sum)
    }
}

/// The list of a map from identity to checksum.
fn crate_list(sums: &OrderedMap<CrateId, String>) -> (r: Vec<CrateInfo>)
    requires
        sums.wf(),
    ensures
        lists(r.deep_view(), sums.as_map()),
{
    let ghost entries = sums.deep_view();
    let keys = sums.keys();
    let values = sums.values();
    let mut out: Vec<CrateInfo> = Vec::new();
    let mut i: usize = 0;
    proof {
        sums.lemma_entries();
        assert(keys.deep_view().len() == keys@.len());
        assert(values.deep_view().len() == values@.len());
    }
    while i < keys.len()
        invariant
            keys.deep_view() == keys_of(entries),
            values.deep_view() == entries.map_values(|e: (CrateIdView, Seq<char>)| e.1),
            keys@.len() == values@.len(),
            keys@.len() == entries.len(),
            i <= keys@.len(),
            out@.len() == i,
            forall|j: int|
                0 <= j < i ==> (#[trigger] out.deep_view()[j]) == (CrateInfoView {
                    name: entries[j].0.name,
                    version: entries[j].0.version,
                    checksum: entries[j].1,
                }),
        decreases keys@.len() - i,
    {
        let ghost before = out.deep_view();
        let c = CrateInfo {
            name: keys[i].name.clone(),
            version: keys[i].version.clone(),
            checksum: values[i].clone(),
        };
        proof {
            assert(keys.deep_view()[i as int] == keys@[i as int].deep_view());
            assert(values.deep_view()[i as int] == values@[i as int].deep_view());
        }
        out.push(c);
        assert(out.deep_view() =~= before.push(c.deep_view()));
        i = i + 1;
    }
    proof {
        let r = out.deep_view();
        assert(ids_of(r) =~= keys_of(entries)) by {
            assert forall|j: int| 0 <= j < r.len() implies ids_of(r)[j] == keys_of(entries)[j] by {
                assert(r[j].crate_id() == entries[j].0);
            }
        }
        assert forall|j: int| 0 <= j < r.len() implies sums.as_map().contains_key(
            (#[trigger] r[j]).crate_id(),
        ) && r[j].checksum == sums.as_map()[r[j].crate_id()] by {
            lemma_map_of_entry(entries, j);
            assert(r[j].crate_id() == entries[j].0);
        }
    }
    out
}

/// The crate is known, and comes from a registry.
pub open spec fn is_registry_crate(
    pkgs: Map<CrateIdView, PackageView>,
    id: CrateIdView,
) -> bool {
    pkgs.contains_key(id) && pkgs[id].is_registry_source()
}

/// The crate comes from a registry, and its checksum is not known.
pub open spec fn lacks_checksum(
    pkgs: Map<CrateIdView, PackageView>,
    sums: Map<CrateIdView, Seq<char>>,
    id: CrateIdView,
) -> bool {
    is_registry_crate(pkgs, id) && !sums.contains_key(id)
}

/// Position of the first crate whose checksum is not known, or the number of crates.
pub open spec fn first_lacking(
    ids: Seq<CrateIdView>,
    pkgs: Map<CrateIdView, PackageView>,
    sums: Map<CrateIdView, Seq<char>>,
) -> int
    decreases ids.len(),
{
    if ids.len() == 0 {
        0
    } else if lacks_checksum(pkgs, sums, ids[0]) {
        0
    } else {
        1 + first_lacking(ids.skip(1), pkgs, sums)
    }
}

/// What tells the first crate whose checksum is not known from any other.
pub proof fn lemma_first_lacking(
    ids: Seq<CrateIdView>,
    pkgs: Map<CrateIdView, PackageView>,
    sums: Map<CrateIdView, Seq<char>>,
)
    ensures
        0 <= first_lacking(ids, pkgs, sums) <= ids.len(),
        forall|i: int|
            0 <= i < first_lacking(ids, pkgs, sums) ==> !lacks_checksum(pkgs, sums, #[trigger] ids[i]),
        first_lacking(ids, pkgs, sums) < ids.len() ==> lacks_checksum(
            pkgs,
            sums,
            ids[first_lacking(ids, pkgs, sums)],
        ),
    decreases ids.len(),
{
    if ids.len() > 0 && !lacks_checksum(pkgs, sums, ids[0]) {
        lemma_first_lacking(ids.skip(1), pkgs, sums);
        assert forall|i: int| 0 <= i < first_lacking(ids, pkgs, sums) implies !lacks_checksum(
            pkgs,
            sums,
            #[trigger] ids[i],
        ) by {
            if i > 0 {
                assert(ids[i] == ids.skip(1)[i - 1]);
            }
        }
    }
}

/// The registry crates among `ids`, with their checksums. The first one counts where two have the
/// same name and version.
pub open spec fn registry_sums(
    ids: Seq<CrateIdView>,
    pkgs: Map<CrateIdView, PackageView>,
    sums: Map<CrateIdView, Seq<char>>,
) -> Map<CrateIdView, Seq<char>>
    decreases ids.len(),
{
    if ids.len() == 0 {
        Map::empty()
    } else {
        let rest = registry_sums(ids.drop_last(), pkgs, sums);
        if is_registry_crate(pkgs, ids.last()) {
            put_first(rest, pkgs[ids.last()].crate_id(), sums[ids.last()])
        } else {
            rest
        }
    }
}

/// What is said of a crate whose source is neither git nor a registry.
pub open spec fn unknown_source_warning(pkgs: Map<CrateIdView, PackageView>) -> spec_fn(
    CrateIdView,
) -> Option<Seq<char>> {
    |id: CrateIdView|
        if pkgs.contains_key(id) && pkgs[id].source is Some && !pkgs[id].is_git_source()
            && !pkgs[id].is_registry_source() {
            Some(
                "skipping unknown source "@ + pkgs[id].name + " "@ + pkgs[id].version + ": "@
                    + pkgs[id].source->Some_0,
            )
        } else {
            None
        }
}

proof fn lemma_git_is_not_registry(pkg: PackageView)
    ensures
        !(pkg.is_git_source() && pkg.is_registry_source()),
{
    reveal_strlit("git+");
    reveal_strlit("registry+");
    if pkg.is_git_source() && pkg.is_registry_source() {
        let s = pkg.source->Some_0;
        assert("git+"@[0] == s.subrange(0, "git+"@.len() as int)[0]);
        assert("registry+"@[0] == s.subrange(0, "registry+"@.len() as int)[0]);
    }
}

fn unknown_source_text(pkg: &Package, source: &String) -> (r: String)
    ensures
        r@ == "skipping unknown source "@ + pkg.deep_view().name + " "@ + pkg.deep_view().version
            + ": "@ + source@,
{
    let mut out: String = "skipping unknown source ".to_string();
    out.append(pkg.name.as_str());
    out.append(" ");
    out.append(pkg.version.as_str());
    out.append(": ");
    out.append(source.as_str());
    out
}

/// The crates among `ids` that come from a registry, in ascending order of name and version.
/// Crates from elsewhere are left out; where the source is not git either, `warnings` tells so.
pub fn collect_registry_crates(
    ids: &OrderedSet<CrateId>,
    pkgs_by_id: &OrderedMap<CrateId, &Package>,
    checksum_by_id: &OrderedMap<CrateId, String>,
    warnings: &mut Vec<String>,
) -> (r: Result<Vec<CrateInfo>, RecipeError>)
    requires
        pkgs_by_id.wf(),
        checksum_by_id.wf(),
    ensures
        ({
            let all = ids.deep_view();
            let pkgs = pkgs_by_id.as_map();
            let sums = checksum_by_id.as_map();
            let lacking = first_lacking(all, pkgs, sums);
            &&& match r {
                Ok(crates) => lacking == all.len() && lists(
                    crates.deep_view(),
                    registry_sums(all, pkgs, sums),
                ),
                Err(e) => lacking < all.len() && (e matches RecipeError::MissingChecksum {
                    name,
                    version,
                } && name@ == pkgs[all[lacking]].name && version@ == pkgs[all[lacking]].version),
            }
            &&& final(warnings).deep_view() == old(warnings).deep_view() + all.take(
                lacking,
            ).filter_map(unknown_source_warning(pkgs))
        }),
{
    let ghost all = ids.deep_view();
    let ghost pkgs = pkgs_by_id.as_map();
    let ghost sums = checksum_by_id.as_map();
    let ghost said = old(warnings).deep_view();
    let ghost warn = unknown_source_warning(pkgs);
    let keys = ids.keys();
    let mut found: OrderedMap<CrateId, String> = OrderedMap::new();
    let mut i: usize = 0;
    proof {
        lemma_first_lacking(all, pkgs, sums);
        assert(said + all.take(0).filter_map(warn) =~= said);
        assert(all.take(0) =~= Seq::<CrateIdView>::empty());
    }
    while i < keys.len()
        invariant
            pkgs_by_id.wf(),
            checksum_by_id.wf(),
            pkgs == pkgs_by_id.as_map(),
            sums == checksum_by_id.as_map(),
            warn == unknown_source_warning(pkgs),
            said == old(warnings).deep_view(),
            all == ids.deep_view(),
            all == keys.deep_view(),
            all.len() == keys@.len(),
            found.wf(),
            0 <= i <= first_lacking(all, pkgs, sums) <= all.len(),
            first_lacking(all, pkgs, sums) < all.len() ==> lacks_checksum(
                pkgs,
                sums,
                all[first_lacking(all, pkgs, sums)],
            ),
            forall|j: int|
                0 <= j < first_lacking(all, pkgs, sums) ==> !lacks_checksum(
                    pkgs,
                    sums,
                    #[trigger] all[j],
                ),
            found.as_map() == registry_sums(all.take(i as int), pkgs, sums),
            warnings.deep_view() == said + all.take(i as int).filter_map(warn),
        decreases keys@.len() - i,
    {
        let id = &keys[i];
        proof {
            assert(id.deep_view() == all[i as int]);
            assert(all.take(i + 1).drop_last() =~= all.take(i as int));
            assert(all.take(i + 1).last() == all[i as int]);
        }
        let ghost told = warnings.deep_view();
        i = i + 1;
        let pkg: &Package = match pkgs_by_id.get(id) {
            Some(pkg) => *pkg,
            None => {
                assert(told =~= said + all.take(i as int).filter_map(warn));
                continue;
            },
        };
        proof {
            lemma_git_is_not_registry(pkg.deep_view());
        }
        if pkg.is_git_source() {
            assert(told =~= said + all.take(i as int).filter_map(warn));
            continue;
        }
        if !pkg.is_registry_source() {
            if let Some(source) = &pkg.source {
                let text: String = unknown_source_text(pkg, source);
                warnings.push(text);
                proof {
                    assert(warnings.deep_view() =~= told.push(text@));
                    assert(warn(all[i - 1]) == Some(text@));
                }
            }
            assert(warnings.deep_view() =~= said + all.take(i as int).filter_map(warn));
            continue;
        }
        assert(told =~= said + all.take(i as int).filter_map(warn));
        let checksum: &String = match checksum_by_id.get(id) {
            Some(checksum) => checksum,
            None => {
                assert(first_lacking(all, pkgs, sums) == i - 1);
                assert(all.take(i as int).filter_map(warn) == all.take(i - 1).filter_map(warn));
                return Err(
                    RecipeError::MissingChecksum {
                        name: pkg.name.clone(),
                        version: pkg.version.clone(),
                    },
                );
            },
        };
        found.insert_if_absent(pkg.crate_id(), checksum.clone());
    }
    assert(all.take(i as int) =~= all);
    Ok(crate_list(&found))
}

/// The registry crates of the lock file among `ids`, with their checksums. The first one counts
/// where two have the same name and version.
pub open spec fn locked_sums(
    ids: Seq<CrateIdView>,
    lock: Seq<LockPackageView>,
) -> Map<CrateIdView, Seq<char>>
    decreases lock.len(),
{
    if lock.len() == 0 {
        Map::empty()
    } else {
        let rest = locked_sums(ids, lock.drop_last());
        let p = lock.last();
        if ids.contains(p.crate_id()) && p.is_registry() && p.checksum is Some {
            put_first(rest, p.crate_id(), p.checksum->Some_0)
        } else {
            rest
        }
    }
}

/// The crates of the lock file among `ids` that come from a registry and have a checksum, in
/// ascending order of name and version.
pub fn collect_other_registry_crates(ids: &OrderedSet<CrateId>, lock: &Vec<LockPackage>) -> (r:
    Result<Vec<CrateInfo>, RecipeError>)
    requires
        ids.wf(),
    ensures
        r matches Ok(crates) && lists(
            crates.deep_view(),
            locked_sums(ids.deep_view(), lock.deep_view()),
        ),
{
    let ghost all = lock.deep_view();
    let mut found: OrderedMap<CrateId, String> = OrderedMap::new();
    let mut i: usize = 0;
    assert(all.take(0) =~= Seq::<LockPackageView>::empty());
    while i < lock.len()
        invariant
            ids.wf(),
            all == lock.deep_view(),
            all.len() == lock@.len(),
            i <= lock@.len(),
            found.wf(),
            found.as_map() == locked_sums(ids.deep_view(), all.take(i as int)),
        decreases lock@.len() - i,
    {
        let pkg = &lock[i];
        proof {
            assert(pkg.deep_view() == all[i as int]);
            assert(all.take(i + 1).drop_last() =~= all.take(i as int));
            assert(all.take(i + 1).last() == all[i as int]);
        }
        i = i + 1;
        let id: CrateId = CrateId::from_lock_package(pkg);
        if !ids.contains(&id) {
            continue;
        }
        let source = match &pkg.source {
            Some(source) => source,
            None => continue,
        };
        if source.kind != SourceKind::Registry && source.kind != SourceKind::SparseRegistry {
            continue;
        }
        if let Some(checksum) = &pkg.checksum {
            found.insert_if_absent(id, checksum.clone());
        }
    }
    assert(all.take(i as int) =~= all);
    Ok(crate_list(&found))
}

/// The repository that a known crate comes from.
pub open spec fn repo_of(pkgs: Map<CrateIdView, PackageView>) -> spec_fn(CrateIdView) -> Option<
    GitRepoView,
> {
    |id: CrateIdView|
        if pkgs.contains_key(id) && pkgs[id].source is Some {
            git_source(pkgs[id].source->Some_0)
        } else {
            None
        }
}

/// One of the repositories has that address.
pub open spec fn has_url(repos: Seq<GitRepoView>, url: Seq<char>) -> bool {
    exists|i: int| 0 <= i < repos.len() && (#[trigger] repos[i]).url == url
}

/// The first repository of each address.
pub open spec fn first_of_each_url(repos: Seq<GitRepoView>) -> Seq<GitRepoView>
    decreases repos.len(),
{
    if repos.len() == 0 {
        Seq::empty()
    } else {
        let rest = first_of_each_url(repos.drop_last());
        if has_url(rest, repos.last().url) {
            rest
        } else {
            rest.push(repos.last())
        }
    }
}

/// The first repository of each address, sorted by name.
pub open spec fn repo_list(repos: Seq<GitRepoView>) -> Seq<GitRepoView> {
    sort_by(first_of_each_url(repos), repo_key())
}

proof fn lemma_place_has_url(repos: Seq<GitRepoView>, x: GitRepoView, url: Seq<char>)
    ensures
        has_url(place(repos, x, repo_key()), url) <==> has_url(repos, url) || x.url == url,
    decreases repos.len(),
{
    let key = repo_key();
    let placed = place(repos, x, key);
    if repos.len() > 0 && crate::order::text_before(key(x), key(repos.last())) {
        let inner = place(repos.drop_last(), x, key);
        lemma_place_has_url(repos.drop_last(), x, url);
        lemma_push_has_url(inner, repos.last(), url);
        lemma_push_has_url(repos.drop_last(), repos.last(), url);
        assert(repos.drop_last().push(repos.last()) =~= repos);
    } else {
        lemma_push_has_url(repos, x, url);
    }
}

proof fn lemma_push_has_url(repos: Seq<GitRepoView>, x: GitRepoView, url: Seq<char>)
    ensures
        has_url(repos.push(x), url) <==> has_url(repos, url) || x.url == url,
{
    let pushed = repos.push(x);
    if has_url(repos, url) {
        let i: int = choose|i: int| 0 <= i < repos.len() && (#[trigger] repos[i]).url == url;
        assert(pushed[i].url == url);
    }
    if x.url == url {
        assert(pushed[repos.len() as int].url == url);
    }
    if has_url(pushed, url) {
        let i: int = choose|i: int| 0 <= i < pushed.len() && (#[trigger] pushed[i]).url == url;
        if i < repos.len() {
            assert(repos[i].url == url);
        }
    }
}

proof fn lemma_sort_has_url(repos: Seq<GitRepoView>, url: Seq<char>)
    ensures
        has_url(sort_by(repos, repo_key()), url) <==> has_url(repos, url),
    decreases repos.len(),
{
    if repos.len() > 0 {
        lemma_sort_has_url(repos.drop_last(), url);
        lemma_place_has_url(sort_by(repos.drop_last(), repo_key()), repos.last(), url);
        lemma_push_has_url(repos.drop_last(), repos.last(), url);
        assert(repos.drop_last().push(repos.last()) =~= repos);
    }
}

/// Adds `repo` to a list of repositories, unless one of that address is there.
fn add_repo(repos: &mut Vec<GitRepo>, repo: GitRepo, Ghost(seen): Ghost<Seq<GitRepoView>>)
    requires
        old(repos).deep_view() == repo_list(seen),
    ensures
        final(repos).deep_view() == repo_list(seen.push(repo.deep_view())),
{
    let ghost rv = repo.deep_view();
    let ghost firsts = first_of_each_url(seen);
    proof {
        assert(seen.push(rv).drop_last() =~= seen);
        lemma_sort_has_url(firsts, rv.url);
        if !has_url(firsts, rv.url) {
            assert(firsts.push(rv).drop_last() =~= firsts);
        }
    }
    let mut i: usize = 0;
    while i < repos.len()
        invariant
            i <= repos@.len(),
            forall|j: int| 0 <= j < i ==> (#[trigger] repos.deep_view()[j]).url != repo.url@,
            repos.deep_view() == repo_list(seen),
            rv == repo.deep_view(),
            firsts == first_of_each_url(seen),
            seen.push(rv).drop_last() == seen,
            has_url(sort_by(firsts, repo_key()), rv.url) <==> has_url(firsts, rv.url),
        decreases repos@.len() - i,
    {
        assert(repos.deep_view()[i as int] == repos@[i as int].deep_view());
        if same_text(repos[i].url.as_str(), repo.url.as_str()) {
            return;
        }
        i = i + 1;
    }
    insert_by_name(repos, repo);
}

/// The repositories that crates among `ids` come from, one for each address, sorted by name.
pub fn collect_git_repos(
    ids: &OrderedSet<CrateId>,
    pkgs_by_id: &OrderedMap<CrateId, &Package>,
) -> (r: Vec<GitRepo>)
    requires
        pkgs_by_id.wf(),
    ensures
        r.deep_view() == repo_list(ids.deep_view().filter_map(repo_of(pkgs_by_id.as_map()))),
{
    let ghost all = ids.deep_view();
    let ghost f = repo_of(pkgs_by_id.as_map());
    let keys = ids.keys();
    let mut repos: Vec<GitRepo> = Vec::new();
    let mut i: usize = 0;
    proof {
        assert(all.take(0).filter_map(f) =~= Seq::<GitRepoView>::empty());
        assert(repos.deep_view() =~= Seq::<GitRepoView>::empty());
    }
    while i < keys.len()
        invariant
            pkgs_by_id.wf(),
            f == repo_of(pkgs_by_id.as_map()),
            all == keys.deep_view(),
            all.len() == keys@.len(),
            i <= keys@.len(),
            repos.deep_view() == repo_list(all.take(i as int).filter_map(f)),
        decreases keys@.len() - i,
    {
        let id = &keys[i];
        let ghost seen = all.take(i as int).filter_map(f);
        proof {
            assert(id.deep_view() == all[i as int]);
            all.lemma_filter_map_take_succ(f, i as int);
            assert(seen + Seq::<GitRepoView>::empty() =~= seen);
        }
        i = i + 1;
        let pkg: &Package = match pkgs_by_id.get(id) {
            Some(pkg) => *pkg,
            None => continue,
        };
        if let Some(source) = &pkg.source {
            if let Some(repo) = parse_git_source(source.as_str()) {
                assert(seen + seq![repo.deep_view()] =~= seen.push(repo.deep_view()));
                add_repo(&mut repos, repo, Ghost(seen));
            }
        }
    }
    assert(all.take(i as int) =~= all);
    repos
}

/// The repository that a package of the lock file among `ids` comes from.
pub open spec fn locked_repo(ids: Seq<CrateIdView>) -> spec_fn(LockPackageView) -> Option<
    GitRepoView,
> {
    |p: LockPackageView|
        if ids.contains(p.crate_id()) && p.is_git() {
            Some(
                GitRepoView {
                    url: p.source->Some_0.url,
                    rev: match p.source->Some_0.precise {
                        Some(rev) => rev,
                        None => Seq::empty(),
                    },
                    name: repo_name(p.source->Some_0.url),
                },
            )
        } else {
            None
        }
}

/// The repositories that packages of the lock file among `ids` come from, one for each address,
/// sorted by name.
pub fn collect_git_repos_from_lock(ids: &OrderedSet<CrateId>, lock: &Vec<LockPackage>) -> (r: Vec<
    GitRepo,
>)
    requires
        ids.wf(),
    ensures
        r.deep_view() == repo_list(lock.deep_view().filter_map(locked_repo(ids.deep_view()))),
{
    let ghost all = lock.deep_view();
    let ghost f = locked_repo(ids.deep_view());
    let mut repos: Vec<GitRepo> = Vec::new();
    let mut i: usize = 0;
    proof {
        assert(all.take(0).filter_map(f) =~= Seq::<GitRepoView>::empty());
        assert(repos.deep_view() =~= Seq::<GitRepoView>::empty());
    }
    while i < lock.len()
        invariant
            ids.wf(),
            f == locked_repo(ids.deep_view()),
            all == lock.deep_view(),
            all.len() == lock@.len(),
            i <= lock@.len(),
            repos.deep_view() == repo_list(all.take(i as int).filter_map(f)),
        decreases lock@.len() - i,
    {
        let pkg = &lock[i];
        let ghost seen = all.take(i as int).filter_map(f);
        proof {
            assert(pkg.deep_view() == all[i as int]);
            all.lemma_filter_map_take_succ(f, i as int);
            assert(seen + Seq::<GitRepoView>::empty() =~= seen);
        }
        i = i + 1;
        if !ids.contains(&CrateId::from_lock_package(pkg)) {
            continue;
        }
        let source = match &pkg.source {
            Some(source) => source,
            None => continue,
        };
        if source.kind != SourceKind::Git {
            continue;
        }
        let rev: String = match &source.precise {
            Some(rev) => rev.clone(),
            None => String::new(),
        };
        let repo = GitRepo {
            url: source.url.clone(),
            rev,
            name: repo_name_of(source.url.as_str()).to_string(),
        };
        assert(seen + seq![repo.deep_view()] =~= seen.push(repo.deep_view()));
        add_repo(&mut repos, repo, Ghost(seen));
    }
    assert(all.take(i as int) =~= all);
    repos
}

/// Where a known crate lies in the repository that it comes from.
pub open spec fn git_crate_of(pkgs: Map<CrateIdView, PackageView>) -> spec_fn(
    CrateIdView,
) -> Option<GitCrateView> {
    |id: CrateIdView|
        match repo_of(pkgs)(id) {
            Some(repo) => Some(
                GitCrateView {
                    name: pkgs[id].name,
                    repo_name: repo.name,
                    path_in_repo: path_in_repo(pkgs[id].manifest_path),
                },
            ),
            None => None,
        }
}

proof fn lemma_sort_push(s: Seq<GitCrateView>, x: GitCrateView)
    ensures
        sort_by(s + seq![x], crate_key()) == place(sort_by(s, crate_key()), x, crate_key()),
{
    assert((s + seq![x]).drop_last() =~= s);
}

/// Where the crates among `ids` lie that come from repositories, sorted by name.
pub fn collect_git_crates(
    ids: &OrderedSet<CrateId>,
    pkgs_by_id: &OrderedMap<CrateId, &Package>,
) -> (r: Vec<GitCrate>)
    requires
        pkgs_by_id.wf(),
    ensures
        r.deep_view() == sort_by(
            ids.deep_view().filter_map(git_crate_of(pkgs_by_id.as_map())),
            crate_key(),
        ),
{
    let ghost all = ids.deep_view();
    let ghost f = git_crate_of(pkgs_by_id.as_map());
    let keys = ids.keys();
    let mut crates: Vec<GitCrate> = Vec::new();
    let mut i: usize = 0;
    proof {
        assert(all.take(0).filter_map(f) =~= Seq::<GitCrateView>::empty());
        assert(crates.deep_view() =~= Seq::<GitCrateView>::empty());
    }
    while i < keys.len()
        invariant
            pkgs_by_id.wf(),
            f == git_crate_of(pkgs_by_id.as_map()),
            all == keys.deep_view(),
            all.len() == keys@.len(),
            i <= keys@.len(),
            crates.deep_view() == sort_by(all.take(i as int).filter_map(f), crate_key()),
        decreases keys@.len() - i,
    {
        let id = &keys[i];
        let ghost seen = all.take(i as int).filter_map(f);
        proof {
            assert(id.deep_view() == all[i as int]);
            all.lemma_filter_map_take_succ(f, i as int);
            assert(seen + Seq::<GitCrateView>::empty() =~= seen);
        }
        i = i + 1;
        let pkg: &Package = match pkgs_by_id.get(id) {
            Some(pkg) => *pkg,
            None => continue,
        };
        if let Some(source) = &pkg.source {
            if let Some(repo) = parse_git_source(source.as_str()) {
                let c = GitCrate {
                    name: pkg.name.clone(),
                    repo_name: repo.name,
                    path_in_repo: extract_path_in_repo(pkg.manifest_path.as_str()),
                };
                proof {
                    lemma_sort_push(seen, c.deep_view());
                }
                insert_by_name(&mut crates, c);
            }
        }
    }
    assert(all.take(i as int) =~= all);
    crates
}

/// Where a package of the lock file among `ids` is taken to lie in the repository that it comes
/// from: at its root when they have the same name, else in a directory of the package's name.
pub open spec fn locked_git_crate(ids: Seq<CrateIdView>) -> spec_fn(LockPackageView) -> Option<
    GitCrateView,
> {
    |p: LockPackageView|
        if ids.contains(p.crate_id()) && p.is_git() {
            Some(
                GitCrateView {
                    name: p.name,
                    repo_name: repo_name(p.source->Some_0.url),
                    path_in_repo: if p.name == repo_name(p.source->Some_0.url) {
                        Seq::empty()
                    } else {
                        p.name
                    },
                },
            )
        } else {
            None
        }
}

/// Where the packages of the lock file among `ids` are taken to lie that come from repositories,
/// sorted by name.
pub fn collect_git_crates_from_lock(ids: &OrderedSet<CrateId>, lock: &Vec<LockPackage>) -> (r: Vec<
    GitCrate,
>)
    requires
        ids.wf(),
    ensures
        r.deep_view() == sort_by(
            lock.deep_view().filter_map(locked_git_crate(ids.deep_view())),
            crate_key(),
        ),
{
    let ghost all = lock.deep_view();
    let ghost f = locked_git_crate(ids.deep_view());
    let mut crates: Vec<GitCrate> = Vec::new();
    let mut i: usize = 0;
    proof {
        assert(all.take(0).filter_map(f) =~= Seq::<GitCrateView>::empty());
        assert(crates.deep_view() =~= Seq::<GitCrateView>::empty());
    }
    while i < lock.len()
        invariant
            ids.wf(),
            f == locked_git_crate(ids.deep_view()),
            all == lock.deep_view(),
            all.len() == lock@.len(),
            i <= lock@.len(),
            crates.deep_view() == sort_by(all.take(i as int).filter_map(f), crate_key()),
        decreases lock@.len() - i,
    {
        let pkg = &lock[i];
        let ghost seen = all.take(i as int).filter_map(f);
        proof {
            assert(pkg.deep_view() == all[i as int]);
            all.lemma_filter_map_take_succ(f, i as int);
            assert(seen + Seq::<GitCrateView>::empty() =~= seen);
        }
        i = i + 1;
        if !ids.contains(&CrateId::from_lock_package(pkg)) {
            continue;
        }
        let source = match &pkg.source {
            Some(source) => source,
            None => continue,
        };
        if source.kind != SourceKind::Git {
            continue;
        }
        let name = repo_name_of(source.url.as_str());
        let inside: String = if same_text(pkg.name.as_str(), name) {
            String::new()
        } else {
            pkg.name.clone()
        };
        let c = GitCrate {
            name: pkg.name.clone(),
            repo_name: name.to_string(),
            path_in_repo: inside,
        };
        proof {
            lemma_sort_push(seen, c.deep_view());
        }
        insert_by_name(&mut crates, c);
    }
    assert(all.take(i as int) =~= all);
    crates
}

/// Under which name the license of a package is told; nothing for a package from elsewhere.
pub open spec fn license_key(pkg: PackageView) -> Option<Seq<char>> {
    match pkg.source {
        None => None,
        Some(source) => if pkg.is_git_source() {
            match split_at_last(source, '#') {
                Some((place, rev)) => Some(before_first(place, '?') + "@"@ + rev),
                None => Some(source),
            }
        } else if pkg.is_registry_source() {
            Some("crate://crates.io/"@ + pkg.name + "/"@ + pkg.version)
        } else {
            None
        },
    }
}

/// The license of a package, as far as it tells one.
pub open spec fn license_text(pkg: PackageView) -> Seq<char> {
    match pkg.license {
        Some(license) => license,
        None => "UNKNOWN"@,
    }
}

/// The licenses of the crates among `ids`. The last one counts where two have the same name.
pub open spec fn licenses(
    ids: Seq<CrateIdView>,
    pkgs: Map<CrateIdView, PackageView>,
) -> Map<Seq<char>, Seq<char>>
    decreases ids.len(),
{
    if ids.len() == 0 {
        Map::empty()
    } else {
        let rest = licenses(ids.drop_last(), pkgs);
        if pkgs.contains_key(ids.last()) && license_key(pkgs[ids.last()]) is Some {
            rest.insert(
                license_key(pkgs[ids.last()])->Some_0,
                license_text(pkgs[ids.last()]),
            )
        } else {
            rest
        }
    }
}

/// Under which name the license of a package is told; nothing for a package from elsewhere.
fn license_key_of(pkg: &Package) -> (r: Option<String>)
    ensures
        r.deep_view() == license_key(pkg.deep_view()),
{
    let source = match &pkg.source {
        Some(source) => source,
        None => return None,
    };
    let mut out: String = String::new();
    if pkg.is_git_source() {
        match split_at_last_of(source.as_str(), '#') {
            Some((place, rev)) => {
                out.append(before_first_of(place, '?'));
                out.append("@");
                out.append(rev);
                assert(out@ =~= before_first(place@, '?') + "@"@ + rev@);
            },
            None => {
                return Some(source.clone());
            },
        }
    } else if pkg.is_registry_source() {
        out.append("crate://crates.io/");
        out.append(pkg.name.as_str());
        out.append("/");
        out.append(pkg.version.as_str());
        assert(out@ =~= "crate://crates.io/"@ + pkg.name@ + "/"@ + pkg.version@);
    } else {
        return None;
    }
    Some(out)
}

/// The licenses of the crates among `ids` that come from a registry or a repository.
pub fn collect_runtime_licenses(
    ids: &OrderedSet<CrateId>,
    pkgs_by_id: &OrderedMap<CrateId, &Package>,
) -> (r: OrderedMap<String, String>)
    requires
        pkgs_by_id.wf(),
    ensures
        r.wf(),
        r.as_map() == licenses(ids.deep_view(), pkgs_by_id.as_map()),
{
    let ghost all = ids.deep_view();
    let ghost pkgs = pkgs_by_id.as_map();
    let keys = ids.keys();
    let mut found: OrderedMap<String, String> = OrderedMap::new();
    let mut i: usize = 0;
    assert(all.take(0) =~= Seq::<CrateIdView>::empty());
    while i < keys.len()
        invariant
            pkgs_by_id.wf(),
            pkgs == pkgs_by_id.as_map(),
            all == keys.deep_view(),
            all.len() == keys@.len(),
            i <= keys@.len(),
            found.wf(),
            found.as_map() == licenses(all.take(i as int), pkgs),
        decreases keys@.len() - i,
    {
        let id = &keys[i];
        proof {
            assert(id.deep_view() == all[i as int]);
            assert(all.take(i + 1).drop_last() =~= all.take(i as int));
            assert(all.take(i + 1).last() == all[i as int]);
        }
        i = i + 1;
        let pkg: &Package = match pkgs_by_id.get(id) {
            Some(pkg) => *pkg,
            None => continue,
        };
        let license: String = match &pkg.license {
            Some(license) => license.clone(),
            None => "UNKNOWN".to_string(),
        };
        if let Some(key) = license_key_of(pkg) {
            found.insert(key, license);
        }
    }
    assert(all.take(i as int) =~= all);
    found
}

/// Each package stands under its own name and version.
pub open spec fn is_by_id(pkgs: Map<CrateIdView, PackageView>) -> bool {
    forall|id: CrateIdView| #[trigger] pkgs.contains_key(id) ==> pkgs[id].crate_id() == id
}

/// The registry crates among `ids` are listed with their checksums, and nothing else is.
pub proof fn lemma_registry_sums(
    ids: Seq<CrateIdView>,
    pkgs: Map<CrateIdView, PackageView>,
    sums: Map<CrateIdView, Seq<char>>,
    id: CrateIdView,
)
    requires
        is_by_id(pkgs),
    ensures
        registry_sums(ids, pkgs, sums).contains_key(id) <==> ids.contains(id)
            && is_registry_crate(pkgs, id),
        registry_sums(ids, pkgs, sums).contains_key(id) ==> registry_sums(ids, pkgs, sums)[id]
            == sums[id],
    decreases ids.len(),
{
    if ids.len() > 0 {
        let front = ids.drop_last();
        lemma_registry_sums(front, pkgs, sums, id);
        assert(front.push(ids.last()) =~= ids);
        if front.contains(id) {
            let i: int = choose|i: int| 0 <= i < front.len() && front[i] == id;
            assert(ids[i] == id);
        }
        if ids.contains(id) && id != ids.last() {
            let i: int = choose|i: int| 0 <= i < ids.len() && ids[i] == id;
            assert(front[i] == id);
        }
        if id == ids.last() {
            assert(ids[ids.len() - 1] == id);
        }
    }
}

/// The package of the lock file is a registry crate among `ids`, and has a checksum.
pub open spec fn is_listed(ids: Seq<CrateIdView>, p: LockPackageView) -> bool {
    ids.contains(p.crate_id()) && p.is_registry() && p.checksum is Some
}

/// What the lock file's registry crates are listed with is the checksum of one of them, and each
/// of them is listed.
pub proof fn lemma_locked_sums(ids: Seq<CrateIdView>, lock: Seq<LockPackageView>)
    ensures
        forall|id: CrateIdView| #[trigger]
            locked_sums(ids, lock).contains_key(id) ==> exists|i: int|
                0 <= i < lock.len() && is_listed(ids, #[trigger] lock[i]) && lock[i].crate_id()
                    == id && lock[i].checksum == Some(locked_sums(ids, lock)[id]),
        forall|i: int|
            0 <= i < lock.len() && is_listed(ids, #[trigger] lock[i]) ==> locked_sums(
                ids,
                lock,
            ).contains_key(lock[i].crate_id()),
    decreases lock.len(),
{
    if lock.len() > 0 {
        let front = lock.drop_last();
        let rest = locked_sums(ids, front);
        let all = locked_sums(ids, lock);
        let last = lock.last();
        lemma_locked_sums(ids, front);
        assert forall|id: CrateIdView| #[trigger] all.contains_key(id) implies exists|i: int|
            0 <= i < lock.len() && is_listed(ids, #[trigger] lock[i]) && lock[i].crate_id() == id
                && lock[i].checksum == Some(all[id]) by {
            if rest.contains_key(id) {
                let i: int = choose|i: int|
                    0 <= i < front.len() && is_listed(ids, #[trigger] front[i])
                        && front[i].crate_id() == id && front[i].checksum == Some(rest[id]);
                assert(lock[i] == front[i]);
            } else {
                assert(lock[lock.len() - 1] == last);
                assert(is_listed(ids, last));
            }
        }
        assert forall|i: int|
            0 <= i < lock.len() && is_listed(ids, #[trigger] lock[i]) implies all.contains_key(
            lock[i].crate_id(),
        ) by {
            if i < front.len() {
                assert(front[i] == lock[i]);
            }
        }
    }
}

proof fn lemma_first_of_each_url(repos: Seq<GitRepoView>)
    ensures
        forall|i: int, j: int|
            0 <= i < j < first_of_each_url(repos).len() ==> (#[trigger] first_of_each_url(
                repos,
            )[i]).url != (#[trigger] first_of_each_url(repos)[j]).url,
        forall|url: Seq<char>| has_url(first_of_each_url(repos), url) <==> has_url(repos, url),
        forall|i: int|
            0 <= i < first_of_each_url(repos).len() ==> repos.contains(
                #[trigger] first_of_each_url(repos)[i],
            ),
    decreases repos.len(),
{
    if repos.len() > 0 {
        let front = repos.drop_last();
        let rest = first_of_each_url(front);
        let last = repos.last();
        lemma_first_of_each_url(front);
        assert(front.push(last) =~= repos);
        assert forall|url: Seq<char>| has_url(first_of_each_url(repos), url) <==> has_url(
            repos,
            url,
        ) by {
            lemma_push_has_url(front, last, url);
            lemma_push_has_url(rest, last, url);
        }
        let all = first_of_each_url(repos);
        assert forall|i: int| 0 <= i < all.len() implies repos.contains(#[trigger] all[i]) by {
            if i < rest.len() {
                assert(front.contains(rest[i]));
                let k: int = choose|k: int| 0 <= k < front.len() && front[k] == rest[i];
                assert(repos[k] == rest[i]);
            } else {
                assert(repos[repos.len() - 1] == last);
            }
        }
    }
}

/// A list of repositories is sorted by name, holds only repositories that were found, and holds
/// each address that was found.
pub proof fn lemma_repo_list(repos: Seq<GitRepoView>)
    ensures
        is_sorted(repo_list(repos), repo_key()),
        forall|r: GitRepoView| #[trigger] repo_list(repos).contains(r) ==> repos.contains(r),
        forall|url: Seq<char>| has_url(repo_list(repos), url) <==> has_url(repos, url),
{
    let firsts = first_of_each_url(repos);
    lemma_sort_is_sorted(firsts, repo_key());
    lemma_first_of_each_url(repos);
    assert forall|r: GitRepoView| #[trigger] repo_list(repos).contains(r) implies repos.contains(
        r,
    ) by {
        lemma_sort_contains(firsts, repo_key(), r);
        let i: int = choose|i: int| 0 <= i < firsts.len() && firsts[i] == r;
        assert(repos.contains(firsts[i]));
    }
    assert forall|url: Seq<char>| has_url(repo_list(repos), url) <==> has_url(repos, url) by {
        lemma_sort_has_url(firsts, url);
    }
}

/// No two repositories of a list have the same address.
pub proof fn lemma_repo_list_is_distinct(repos: Seq<GitRepoView>, i: int, j: int)
    requires
        0 <= i < j < repo_list(repos).len(),
    ensures
        repo_list(repos)[i].url != repo_list(repos)[j].url,
{
    broadcast use vstd::seq_lib::group_to_multiset_ensures;

    let firsts = first_of_each_url(repos);
    let sorted = repo_list(repos);
    lemma_first_of_each_url(repos);
    lemma_sort_keeps_items(firsts, repo_key());
    lemma_sort_contains(firsts, repo_key(), sorted[i]);
    lemma_sort_contains(firsts, repo_key(), sorted[j]);
    assert(sorted.contains(sorted[i]) && sorted.contains(sorted[j]));
    let a: int = choose|a: int| 0 <= a < firsts.len() && firsts[a] == sorted[i];
    let b: int = choose|b: int| 0 <= b < firsts.len() && firsts[b] == sorted[j];
    if a == b {
        assert(firsts.no_duplicates()) by {
            assert forall|x: int, y: int|
                0 <= x < firsts.len() && 0 <= y < firsts.len() && x != y implies firsts[x]
                != firsts[y] by {
                if x < y {
                    assert(firsts[x].url != firsts[y].url);
                } else {
                    assert(firsts[y].url != firsts[x].url);
                }
            }
        }
        firsts.lemma_multiset_has_no_duplicates();
        sorted.lemma_multiset_has_no_duplicates_conv();
        assert(sorted[i] != sorted[j]);
    }
}

/// Nothing before the place of a source has a `?`, so its query starts at the same one.
proof fn lemma_first_behind_git(place: Seq<char>)
    ensures
        before_first("git+"@ + place, '?') == "git+"@ + before_first(place, '?'),
{
    reveal_strlit("git+");
    let whole = "git+"@ + place;
    lemma_first_index(place, '?');
    lemma_first_index(whole, '?');
    let i = first_index(whole, '?');
    let j = first_index(place, '?');
    if i < 4 {
        assert(whole[i] == "git+"@[i]);
    } else if i < 4 + j {
        assert(whole[i] == place[i - 4]);
    } else if j < place.len() {
        assert(whole[4 + j] == '?');
    }
    assert(before_first(whole, '?') =~= "git+"@ + before_first(place, '?'));
}

/// The license of a crate from a repository is told under the address and the revision.
pub proof fn lemma_license_key_of_git(pkg: PackageView, repo: GitRepoView)
    requires
        pkg.source is Some,
        git_source(pkg.source->Some_0) == Some(repo),
    ensures
        license_key(pkg) == Some("git+"@ + repo.url + "@"@ + repo.rev),
{
    let source = pkg.source->Some_0;
    let n = "git+"@.len() as int;
    let s = source.skip(n);
    let (place, rev) = split_at_last(s, '#')->Some_0;
    let whole = "git+"@ + place;
    lemma_last_index(s, '#');
    lemma_after_last_is_free(s, '#');
    assert(s =~= place + seq!['#'] + rev);
    assert(source =~= source.subrange(0, n) + s);
    assert(source =~= whole + seq!['#'] + rev);
    lemma_split_at_last(whole, '#', rev);
    lemma_first_behind_git(place);
}

/// What the licenses tell of, they tell because of a crate among `ids`.
pub proof fn lemma_licenses_are_of_crates(
    ids: Seq<CrateIdView>,
    pkgs: Map<CrateIdView, PackageView>,
    key: Seq<char>,
)
    requires
        licenses(ids, pkgs).contains_key(key),
    ensures
        exists|i: int|
            0 <= i < ids.len() && pkgs.contains_key(#[trigger] ids[i]) && license_key(pkgs[ids[i]])
                == Some(key) && license_text(pkgs[ids[i]]) == licenses(ids, pkgs)[key],
    decreases ids.len(),
{
    let front = ids.drop_last();
    let last = ids.last();
    if pkgs.contains_key(last) && license_key(pkgs[last]) == Some(key) {
        assert(ids[ids.len() - 1] == last);
    } else {
        lemma_licenses_are_of_crates(front, pkgs, key);
        let i: int = choose|i: int|
            0 <= i < front.len() && pkgs.contains_key(#[trigger] front[i]) && license_key(
                pkgs[front[i]],
            ) == Some(key) && license_text(pkgs[front[i]]) == licenses(front, pkgs)[key];
        assert(ids[i] == front[i]);
    }
}

/// The license of each crate among `ids` that comes from a registry or a repository is told, and
/// it is the crate's own where no later crate goes by the same name.
pub proof fn lemma_licenses_tell_each(
    ids: Seq<CrateIdView>,
    pkgs: Map<CrateIdView, PackageView>,
    i: int,
)
    requires
        0 <= i < ids.len(),
        pkgs.contains_key(ids[i]),
        license_key(pkgs[ids[i]]) is Some,
    ensures
        licenses(ids, pkgs).contains_key(license_key(pkgs[ids[i]])->Some_0),
        (forall|j: int|
            i < j < ids.len() && pkgs.contains_key(#[trigger] ids[j]) ==> license_key(pkgs[ids[j]])
                != license_key(pkgs[ids[i]])) ==> licenses(ids, pkgs)[license_key(
            pkgs[ids[i]],
        )->Some_0] == license_text(pkgs[ids[i]]),
    decreases ids.len(),
{
    let front = ids.drop_last();
    if i < ids.len() - 1 {
        assert(front[i] == ids[i]);
        lemma_licenses_tell_each(front, pkgs, i);
        if forall|j: int|
            i < j < ids.len() && pkgs.contains_key(#[trigger] ids[j]) ==> license_key(pkgs[ids[j]])
                != license_key(pkgs[ids[i]]) {
            assert(ids[ids.len() - 1] == ids.last());
            assert forall|j: int|
                i < j < front.len() && pkgs.contains_key(#[trigger] front[j]) implies license_key(
                pkgs[front[j]],
            ) != license_key(pkgs[front[i]]) by {
                assert(ids[j] == front[j]);
            }
        }
    }
}

/// What is made of an item stands in what is made of the items.
pub proof fn lemma_filter_map_has<A, B>(s: Seq<A>, f: spec_fn(A) -> Option<B>, i: int)
    requires
        0 <= i < s.len(),
        f(s[i]) is Some,
    ensures
        s.filter_map(f).contains(f(s[i])->Some_0),
    decreases s.len(),
{
    let front = s.drop_last();
    let all = s.filter_map(f);
    let y = f(s[i])->Some_0;
    if i == s.len() - 1 {
        assert(all[all.len() - 1] == y);
    } else {
        assert(front[i] == s[i]);
        lemma_filter_map_has(front, f, i);
        let rest = front.filter_map(f);
        let k: int = choose|k: int| 0 <= k < rest.len() && rest[k] == y;
        assert(all[k] == y);
    }
}

} // verus!
