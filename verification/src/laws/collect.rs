//! Laws on what is collected: crates with their checksums, repositories, and licenses.
use crate::collect::{
    first_lacking, first_of_each_url, git_crate_of, has_url, ids_of, lacks_checksum,
    lemma_first_lacking, license_key, licenses, lists, locked_git_crate, locked_repo, locked_sums,
    registry_sums, repo_list, repo_of, unknown_source_warning,
};
use crate::git::{
    lemma_git_source_is_some, lemma_git_source_reads_back, path_in_repo, repo_name, source_of,
};
use crate::laws::model::{law_crates_are_in_order, law_source_tells_where_from};
use crate::laws::text::{inside, lemma_inside};
use crate::lock::checksums;
use crate::model::{CrateIdView, CrateInfoView, GitRepoView, LockPackageView, PackageView};
use crate::order::text_before;
use crate::sorted::{lemma_sort_contains, repo_key};
use vstd::prelude::*;

verus! {

/// Every package of the lock file that has a checksum is found under its name and version, with
/// its own checksum unless a later one goes by the same name and version.
pub proof fn law_each_checksum_is_found(lock: Seq<LockPackageView>, i: int)
    requires
        0 <= i < lock.len(),
        lock[i].checksum is Some,
    ensures
        checksums(lock).contains_key(CrateIdView { name: lock[i].name, version: lock[i].version }),
        (forall|j: int|
            i < j < lock.len() && (#[trigger] lock[j]).checksum is Some ==> lock[j].name
                != lock[i].name || lock[j].version != lock[i].version) ==> checksums(
            lock,
        )[CrateIdView { name: lock[i].name, version: lock[i].version }]
            == lock[i].checksum->Some_0,
    decreases lock.len(),
{
    let front = lock.drop_last();
    let last = lock.last();
    assert(lock[lock.len() - 1] == last);
    if i < lock.len() - 1 {
        assert(front[i] == lock[i]);
        law_each_checksum_is_found(front, i);
        if forall|j: int|
            i < j < lock.len() && (#[trigger] lock[j]).checksum is Some ==> lock[j].name
                != lock[i].name || lock[j].version != lock[i].version {
            assert forall|j: int|
                i < j < front.len() && (#[trigger] front[j]).checksum is Some implies front[j].name
                != front[i].name || front[j].version != front[i].version by {
                assert(lock[j] == front[j]);
            }
        }
    }
}

/// A checksum that is found is that of a package of the lock file with that name and version.
pub proof fn law_each_found_checksum_is_of_a_package(lock: Seq<LockPackageView>, id: CrateIdView)
    requires
        checksums(lock).contains_key(id),
    ensures
        exists|i: int|
            0 <= i < lock.len() && (#[trigger] lock[i]).name == id.name && lock[i].version
                == id.version && lock[i].checksum == Some(checksums(lock)[id]),
    decreases lock.len(),
{
    let front = lock.drop_last();
    let last = lock.last();
    if last.checksum is Some && last.name == id.name && last.version == id.version {
        assert(lock[lock.len() - 1] == last);
    } else {
        law_each_found_checksum_is_of_a_package(front, id);
        let i: int = choose|i: int|
            0 <= i < front.len() && (#[trigger] front[i]).name == id.name && front[i].version
                == id.version && front[i].checksum == Some(checksums(front)[id]);
        assert(lock[i] == front[i]);
    }
}

/// A list of crates has an entry for each name and version that has a checksum, with just that
/// checksum, and no other. It stands in order, so nothing is in it twice.
pub proof fn law_list_of_crates(crates: Seq<CrateInfoView>, sums: Map<CrateIdView, Seq<char>>)
    requires
        lists(crates, sums),
    ensures
        forall|id: CrateIdView| #[trigger]
            sums.contains_key(id) ==> crates.contains(
                (CrateInfoView { name: id.name, version: id.version, checksum: sums[id] }),
            ),
        forall|i: int|
            0 <= i < crates.len() ==> {
                let id = CrateIdView {
                    name: (#[trigger] crates[i]).name,
                    version: crates[i].version,
                };
                sums.contains_key(id) && crates[i].checksum == sums[id]
            },
        forall|i: int, j: int|
            0 <= i < j < crates.len() ==> text_before((#[trigger] crates[i]).name, (
            #[trigger] crates[j]).name) || (crates[i].name == crates[j].name && text_before(
                crates[i].version,
                crates[j].version,
            )),
{
    let ids = ids_of(crates);
    assert forall|id: CrateIdView| #[trigger] sums.contains_key(id) implies crates.contains(
        (CrateInfoView { name: id.name, version: id.version, checksum: sums[id] }),
    ) by {
        assert(ids.contains(id));
        let i: int = choose|i: int| 0 <= i < ids.len() && ids[i] == id;
        assert(crates[i].crate_id() == id);
    }
    assert forall|i: int, j: int| 0 <= i < j < crates.len() implies text_before(
        (#[trigger] crates[i]).name,
        (#[trigger] crates[j]).name,
    ) || (crates[i].name == crates[j].name && text_before(
        crates[i].version,
        crates[j].version,
    )) by {
        law_crates_are_in_order(ids, i, j);
        assert(ids[i] == crates[i].crate_id() && ids[j] == crates[j].crate_id());
    }
}

/// Of the crates that are asked for, exactly those whose source begins with `registry+` are listed,
/// with the checksums that are known for them.
pub proof fn law_registry_crates_are_listed(
    ids: Seq<CrateIdView>,
    pkgs: Map<CrateIdView, PackageView>,
    sums: Map<CrateIdView, Seq<char>>,
    id: CrateIdView,
)
    requires
        forall|x: CrateIdView| #[trigger]
            pkgs.contains_key(x) ==> pkgs[x].name == x.name && pkgs[x].version == x.version,
    ensures
        registry_sums(ids, pkgs, sums).contains_key(id) <==> ids.contains(id) && pkgs.contains_key(
            id,
        ) && (pkgs[id].source matches Some(s) && s.len() >= 9 && s[0] == 'r' && s[1] == 'e' && s[2]
            == 'g' && s[3] == 'i' && s[4] == 's' && s[5] == 't' && s[6] == 'r' && s[7] == 'y'
            && s[8] == '+'),
        registry_sums(ids, pkgs, sums).contains_key(id) ==> registry_sums(ids, pkgs, sums)[id]
            == sums[id],
{
    assert forall|x: CrateIdView| #[trigger] pkgs.contains_key(x) implies pkgs[x].crate_id()
        == x by {}
    crate::collect::lemma_registry_sums(ids, pkgs, sums, id);
    law_source_tells_where_from(pkgs[id]);
}

/// The first crate, in order, that comes from a registry and has no checksum is complained of.
pub proof fn law_first_crate_without_checksum(
    ids: Seq<CrateIdView>,
    pkgs: Map<CrateIdView, PackageView>,
    sums: Map<CrateIdView, Seq<char>>,
)
    ensures
        ({
            let n = first_lacking(ids, pkgs, sums);
            &&& 0 <= n <= ids.len()
            &&& forall|i: int|
                0 <= i < n && pkgs.contains_key(#[trigger] ids[i])
                    && pkgs[ids[i]].is_registry_source() ==> sums.contains_key(ids[i])
            &&& n < ids.len() ==> pkgs.contains_key(ids[n]) && pkgs[ids[n]].is_registry_source()
                && !sums.contains_key(ids[n])
        }),
{
    lemma_first_lacking(ids, pkgs, sums);
    let n = first_lacking(ids, pkgs, sums);
    assert forall|i: int|
        0 <= i < n && pkgs.contains_key(#[trigger] ids[i])
            && pkgs[ids[i]].is_registry_source() implies sums.contains_key(ids[i]) by {
        assert(!lacks_checksum(pkgs, sums, ids[i]));
    }
}

/// A crate is warned of exactly when its source is known and is neither a repository nor a
/// registry; the warning names the crate, its version and its source, whole.
pub proof fn law_unknown_sources_are_warned_of(
    pkgs: Map<CrateIdView, PackageView>,
    id: CrateIdView,
)
    ensures
        unknown_source_warning(pkgs)(id) is Some <==> pkgs.contains_key(id)
            && pkgs[id].source is Some && !pkgs[id].is_git_source()
            && !pkgs[id].is_registry_source(),
        unknown_source_warning(pkgs)(id) matches Some(text) ==> inside(
            text,
            "skipping unknown source "@ + pkgs[id].name + " "@ + pkgs[id].version + ": "@,
            Seq::empty(),
        ) == Some(pkgs[id].source->Some_0),
{
    let none = Seq::<char>::empty();
    let open = "skipping unknown source "@ + pkgs[id].name + " "@ + pkgs[id].version + ": "@;
    if let Some(text) = unknown_source_warning(pkgs)(id) {
        lemma_inside(open, pkgs[id].source->Some_0, none);
        assert(open + pkgs[id].source->Some_0 + none =~= text);
    }
}

/// A package of the lock file among those asked for is listed exactly when it comes from a registry
/// and has a checksum. The first one counts where two go by the same name and version.
pub proof fn law_locked_crates_are_listed(
    ids: Seq<CrateIdView>,
    lock: Seq<LockPackageView>,
    i: int,
)
    requires
        0 <= i < lock.len(),
        ids.contains(CrateIdView { name: lock[i].name, version: lock[i].version }),
        lock[i].source is Some,
        lock[i].source->Some_0.kind is Registry || lock[i].source->Some_0.kind is SparseRegistry,
        lock[i].checksum is Some,
    ensures
        locked_sums(ids, lock).contains_key(
            (CrateIdView { name: lock[i].name, version: lock[i].version }),
        ),
        (forall|j: int|
            0 <= j < i && (#[trigger] lock[j]).name == lock[i].name && lock[j].version
                == lock[i].version ==> lock[j].checksum is None || lock[j].source is None || !(
            lock[j].source->Some_0.kind is Registry
                || lock[j].source->Some_0.kind is SparseRegistry)) ==> locked_sums(
            ids,
            lock,
        )[CrateIdView { name: lock[i].name, version: lock[i].version }]
            == lock[i].checksum->Some_0,
    decreases lock.len(),
{
    let front = lock.drop_last();
    let last = lock.last();
    let id = CrateIdView { name: lock[i].name, version: lock[i].version };
    assert(lock[lock.len() - 1] == last);
    if i < lock.len() - 1 {
        assert(front[i] == lock[i]);
        law_locked_crates_are_listed(ids, front, i);
        if forall|j: int|
            0 <= j < i && (#[trigger] lock[j]).name == lock[i].name && lock[j].version
                == lock[i].version ==> lock[j].checksum is None || lock[j].source is None || !(
            lock[j].source->Some_0.kind is Registry
                || lock[j].source->Some_0.kind is SparseRegistry) {
            assert forall|j: int|
                0 <= j < i && (#[trigger] front[j]).name == front[i].name && front[j].version
                    == front[i].version implies front[j].checksum is None || front[j].source is None
                || !(front[j].source->Some_0.kind is Registry
                || front[j].source->Some_0.kind is SparseRegistry) by {
                assert(lock[j] == front[j]);
            }
        }
    } else {
        if locked_sums(ids, front).contains_key(id) {
            law_each_listed_locked_crate_is_of_a_package(ids, front, id);
            let j: int = choose|j: int|
                0 <= j < front.len() && (#[trigger] front[j]).name == id.name && front[j].version
                    == id.version && front[j].checksum == Some(locked_sums(ids, front)[id])
                    && front[j].source is Some && (front[j].source->Some_0.kind is Registry
                    || front[j].source->Some_0.kind is SparseRegistry);
            assert(lock[j] == front[j]);
        }
    }
}

/// What is listed of the lock file is a package of it that is among those asked for, comes from a
/// registry, and has that checksum.
pub proof fn law_each_listed_locked_crate_is_of_a_package(
    ids: Seq<CrateIdView>,
    lock: Seq<LockPackageView>,
    id: CrateIdView,
)
    requires
        locked_sums(ids, lock).contains_key(id),
    ensures
        ids.contains(id),
        exists|j: int|
            0 <= j < lock.len() && (#[trigger] lock[j]).name == id.name && lock[j].version
                == id.version && lock[j].checksum == Some(locked_sums(ids, lock)[id])
                && lock[j].source is Some && (lock[j].source->Some_0.kind is Registry
                || lock[j].source->Some_0.kind is SparseRegistry),
    decreases lock.len(),
{
    let front = lock.drop_last();
    let last = lock.last();
    if locked_sums(ids, front).contains_key(id) {
        law_each_listed_locked_crate_is_of_a_package(ids, front, id);
        let j: int = choose|j: int|
            0 <= j < front.len() && (#[trigger] front[j]).name == id.name && front[j].version
                == id.version && front[j].checksum == Some(locked_sums(ids, front)[id])
                && front[j].source is Some && (front[j].source->Some_0.kind is Registry
                || front[j].source->Some_0.kind is SparseRegistry);
        assert(lock[j] == front[j]);
    } else {
        assert(lock[lock.len() - 1] == last);
    }
}

/// A known crate with a source `git+<url>?<query>#<rev>` comes from that address at that revision,
/// whatever the query; its place in the repository is read from its manifest.
pub proof fn law_source_names_the_repository(
    pkgs: Map<CrateIdView, PackageView>,
    id: CrateIdView,
    url: Seq<char>,
    query: Option<Seq<char>>,
    rev: Seq<char>,
)
    requires
        pkgs.contains_key(id),
        pkgs[id].source == Some(
            "git+"@ + (match query {
                Some(q) => url + "?"@ + q,
                None => url,
            }) + "#"@ + rev,
        ),
        !url.contains('?'),
        !rev.contains('#'),
    ensures
        repo_of(pkgs)(id) matches Some(r) && r.url == url && r.rev == rev && r.name == repo_name(
            url,
        ),
        git_crate_of(pkgs)(id) matches Some(c) && c.name == pkgs[id].name && c.repo_name
            == repo_name(url) && c.path_in_repo == path_in_repo(pkgs[id].manifest_path),
{
    lemma_git_source_reads_back(url, query, rev);
}

/// A crate that is not known, or whose source does not begin with `git+` or has no `#` behind that,
/// comes from no repository.
pub proof fn law_no_other_source_names_a_repository(
    pkgs: Map<CrateIdView, PackageView>,
    id: CrateIdView,
)
    ensures
        !pkgs.contains_key(id) ==> repo_of(pkgs)(id) is None && git_crate_of(pkgs)(id) is None,
        pkgs.contains_key(id) && pkgs[id].source is None ==> repo_of(pkgs)(id) is None
            && git_crate_of(pkgs)(id) is None,
        pkgs.contains_key(id) && pkgs[id].source is Some ==> (repo_of(pkgs)(id) is Some
            <==> "git+"@.is_prefix_of(pkgs[id].source->Some_0) && pkgs[id].source->Some_0.skip(
            "git+"@.len() as int,
        ).contains('#')),
        repo_of(pkgs)(id) is Some <==> git_crate_of(pkgs)(id) is Some,
{
    if pkgs.contains_key(id) && pkgs[id].source is Some {
        lemma_git_source_is_some(pkgs[id].source->Some_0);
    }
}

/// A package of the lock file that is asked for and comes from a repository is fetched from its own
/// address at its own revision. It is taken to lie in a directory of its whole name, or at the top
/// when the repository has that name. Any other package comes from no repository.
pub proof fn law_locked_source_names_the_repository(ids: Seq<CrateIdView>, p: LockPackageView)
    ensures
        ids.contains(CrateIdView { name: p.name, version: p.version }) && p.source is Some
            && p.source->Some_0.kind is Git ==> {
            &&& locked_repo(ids)(p) matches Some(r) && r.url == p.source->Some_0.url && r.name
                == repo_name(p.source->Some_0.url) && (p.source->Some_0.precise is Some ==> r.rev
                == p.source->Some_0.precise->Some_0) && (p.source->Some_0.precise is None
                ==> r.rev.len() == 0)
            &&& locked_git_crate(ids)(p) matches Some(c) && c.name == p.name && c.repo_name
                == repo_name(p.source->Some_0.url) && (p.name == repo_name(p.source->Some_0.url)
                ==> c.path_in_repo.len() == 0) && (p.name != repo_name(p.source->Some_0.url)
                ==> c.path_in_repo == p.name)
        },
        !(ids.contains(CrateIdView { name: p.name, version: p.version }) && p.source is Some
            && p.source->Some_0.kind is Git) ==> locked_repo(ids)(p) is None && locked_git_crate(
            ids,
        )(p) is None,
{
}

/// An address is among those of some repositories when one of them has it.
pub proof fn law_addresses_of_repositories(repos: Seq<GitRepoView>, url: Seq<char>)
    ensures
        has_url(repos, url) <==> exists|i: int|
            0 <= i < repos.len() && (#[trigger] repos[i]).url == url,
{
}

/// The first repository of each address is listed, as it was found.
pub proof fn law_first_of_each_address_is_listed(repos: Seq<GitRepoView>, i: int)
    requires
        0 <= i < repos.len(),
        forall|j: int| 0 <= j < i ==> (#[trigger] repos[j]).url != repos[i].url,
    ensures
        repo_list(repos).contains(repos[i]),
{
    lemma_first_is_kept(repos, i);
    lemma_sort_contains(first_of_each_url(repos), repo_key(), repos[i]);
}

proof fn lemma_first_is_kept(repos: Seq<GitRepoView>, i: int)
    requires
        0 <= i < repos.len(),
        forall|j: int| 0 <= j < i ==> (#[trigger] repos[j]).url != repos[i].url,
    ensures
        first_of_each_url(repos).contains(repos[i]),
    decreases repos.len(),
{
    let front = repos.drop_last();
    let rest = first_of_each_url(front);
    let all = first_of_each_url(repos);
    if i < repos.len() - 1 {
        assert(front[i] == repos[i]);
        assert forall|j: int| 0 <= j < i implies (#[trigger] front[j]).url != front[i].url by {
            assert(repos[j] == front[j]);
        }
        lemma_first_is_kept(front, i);
        let k: int = choose|k: int| 0 <= k < rest.len() && rest[k] == repos[i];
        assert(all[k] == repos[i]);
    } else {
        lemma_kept_are_found(front);
        if has_url(rest, repos[i].url) {
            let k: int = choose|k: int|
                0 <= k < rest.len() && (#[trigger] rest[k]).url == repos[i].url;
            assert(front.contains(rest[k]));
            let j: int = choose|j: int| 0 <= j < front.len() && front[j] == rest[k];
            assert(repos[j] == front[j]);
        }
        assert(all[all.len() - 1] == repos[i]);
    }
}

proof fn lemma_kept_are_found(repos: Seq<GitRepoView>)
    ensures
        forall|k: int|
            0 <= k < first_of_each_url(repos).len() ==> repos.contains(
                #[trigger] first_of_each_url(repos)[k],
            ),
    decreases repos.len(),
{
    if repos.len() > 0 {
        let front = repos.drop_last();
        let rest = first_of_each_url(front);
        let all = first_of_each_url(repos);
        lemma_kept_are_found(front);
        assert forall|k: int| 0 <= k < all.len() implies repos.contains(#[trigger] all[k]) by {
            if k < rest.len() {
                assert(front.contains(rest[k]));
                let j: int = choose|j: int| 0 <= j < front.len() && front[j] == rest[k];
                assert(repos[j] == rest[k]);
            } else {
                assert(repos[repos.len() - 1] == all[k]);
            }
        }
    }
}

/// The license of a crate of a registry is told under the crate's whole name and version on
/// crates.io, and that of a crate of a repository under its whole source, the query left out and
/// the revision behind an `@`. A source without revision stands for itself; a crate from elsewhere
/// has no license to tell.
pub proof fn law_license_is_told_under_the_source(
    pkg: PackageView,
    url: Seq<char>,
    query: Option<Seq<char>>,
    rev: Seq<char>,
)
    requires
        !url.contains('?'),
        !rev.contains('#'),
    ensures
        pkg.is_registry_source() ==> (license_key(pkg) matches Some(key) && inside(
            key,
            "crate://crates.io/"@,
            Seq::empty(),
        ) == Some(pkg.name + "/"@ + pkg.version)),
        pkg.source == Some(source_of(url, query, rev)) ==> (license_key(pkg) matches Some(key)
            && inside(key, "git+"@, "@"@ + rev) == Some(url)),
        pkg.is_git_source() && !pkg.source->Some_0.contains('#') ==> license_key(pkg) == pkg.source,
        license_key(pkg) is Some <==> pkg.is_git_source() || pkg.is_registry_source(),
{
    let none = Seq::<char>::empty();
    law_source_tells_where_from(pkg);
    if pkg.is_registry_source() {
        let open = "crate://crates.io/"@;
        lemma_inside(open, pkg.name + "/"@ + pkg.version, none);
        assert(open + (pkg.name + "/"@ + pkg.version) + none =~= open + pkg.name + "/"@
            + pkg.version);
    }
    if pkg.source == Some(source_of(url, query, rev)) {
        lemma_git_source_reads_back(url, query, rev);
        crate::collect::lemma_license_key_of_git(
            pkg,
            GitRepoView { url, rev, name: repo_name(url) },
        );
        lemma_inside("git+"@, url, "@"@ + rev);
        assert("git+"@ + url + ("@"@ + rev) =~= "git+"@ + url + "@"@ + rev);
    }
    if pkg.is_git_source() && !pkg.source->Some_0.contains('#') {
        let s = pkg.source->Some_0;
        crate::text::lemma_last_index(s, '#');
        if crate::text::last_index(s, '#') >= 0 {
            assert(s.contains(s[crate::text::last_index(s, '#')]));
        }
    }
}

/// Where a package tells a license, just that text is told under its key, unless a later crate goes
/// by the same key; where it tells none, `UNKNOWN` is.
pub proof fn law_told_license_is_the_stated_one(
    ids: Seq<CrateIdView>,
    pkgs: Map<CrateIdView, PackageView>,
    i: int,
    key: Seq<char>,
)
    requires
        0 <= i < ids.len(),
        pkgs.contains_key(ids[i]),
        license_key(pkgs[ids[i]]) == Some(key),
        forall|j: int|
            i < j < ids.len() && pkgs.contains_key(#[trigger] ids[j]) ==> license_key(pkgs[ids[j]])
                != Some(key),
    ensures
        licenses(ids, pkgs).contains_key(key),
        pkgs[ids[i]].license matches Some(text) ==> licenses(ids, pkgs)[key] == text,
        pkgs[ids[i]].license is None ==> licenses(ids, pkgs)[key] == "UNKNOWN"@,
    decreases ids.len(),
{
    let front = ids.drop_last();
    assert(ids[ids.len() - 1] == ids.last());
    if i < ids.len() - 1 {
        assert(front[i] == ids[i]);
        assert forall|j: int|
            i < j < front.len() && pkgs.contains_key(#[trigger] front[j]) implies license_key(
            pkgs[front[j]],
        ) != Some(key) by {
            assert(ids[j] == front[j]);
        }
        law_told_license_is_the_stated_one(front, pkgs, i, key);
    }
}

/// A license that is told is the stated one, or the lack of one, of a crate among those asked for
/// that goes by that key.
pub proof fn law_each_told_license_is_of_a_crate(
    ids: Seq<CrateIdView>,
    pkgs: Map<CrateIdView, PackageView>,
    key: Seq<char>,
)
    requires
        licenses(ids, pkgs).contains_key(key),
    ensures
        exists|i: int|
            0 <= i < ids.len() && pkgs.contains_key(#[trigger] ids[i]) && license_key(pkgs[ids[i]])
                == Some(key) && (pkgs[ids[i]].license == Some(licenses(ids, pkgs)[key]) || (
            pkgs[ids[i]].license is None && licenses(ids, pkgs)[key] == "UNKNOWN"@)),
    decreases ids.len(),
{
    let front = ids.drop_last();
    let last = ids.last();
    if pkgs.contains_key(last) && license_key(pkgs[last]) == Some(key) {
        assert(ids[ids.len() - 1] == last);
    } else {
        law_each_told_license_is_of_a_crate(front, pkgs, key);
        let i: int = choose|i: int|
            0 <= i < front.len() && pkgs.contains_key(#[trigger] front[i]) && license_key(
                pkgs[front[i]],
            ) == Some(key) && (pkgs[front[i]].license == Some(licenses(front, pkgs)[key]) || (
            pkgs[front[i]].license is None && licenses(front, pkgs)[key] == "UNKNOWN"@));
        assert(ids[i] == front[i]);
    }
}

} // verus!
