//! Laws on packages, dependencies and crates.
use crate::error::RecipeError;
use crate::laws::text::{inside, lemma_inside};
use crate::model::{
    CrateId, CrateIdView, CrateInfo, Dep, DepView, GitCrate, GitCrateView, GitRepo, LockPackage,
    LockPackageView, LockSource, Metadata, Node, Package, PackageView,
};
use crate::order::{ascending, text_before, OrderedKey};
use crate::root::{has_package, is_root};
use vstd::prelude::*;

verus! {

/// A dependency is a normal one as soon as one of its kinds has no name, whatever the others are
/// and wherever it stands; where every kind has a name, it is not.
pub proof fn law_one_nameless_kind_is_enough(d: DepView)
    ensures
        forall|k: int|
            0 <= k < d.dep_kinds.len() && (#[trigger] d.dep_kinds[k]) is None ==> d.has_normal(),
        (forall|k: int| 0 <= k < d.dep_kinds.len() ==> (#[trigger] d.dep_kinds[k]) is Some)
            ==> !d.has_normal(),
{
}

/// The order of the kinds of a dependency does not matter.
pub proof fn law_order_of_kinds_does_not_matter(a: DepView, b: DepView)
    requires
        a.dep_kinds.to_multiset() == b.dep_kinds.to_multiset(),
    ensures
        a.has_normal() == b.has_normal(),
{
    broadcast use vstd::seq_lib::group_to_multiset_ensures;

    assert(a.dep_kinds.contains(None) <==> a.dep_kinds.to_multiset().count(None) > 0);
    assert(b.dep_kinds.contains(None) <==> b.dep_kinds.to_multiset().count(None) > 0);
}

/// One more kind never makes a normal dependency anything else.
pub proof fn law_more_kinds_keep_normal(
    d: DepView,
    before: Seq<Option<Seq<char>>>,
    after: Seq<Option<Seq<char>>>,
)
    requires
        d.has_normal(),
    ensures
        (DepView { pkg: d.pkg, dep_kinds: before + d.dep_kinds + after }).has_normal(),
{
    let k: int = choose|k: int| 0 <= k < d.dep_kinds.len() && d.dep_kinds[k] is None;
    let all = before + d.dep_kinds + after;
    assert(all[before.len() + k] is None);
}

/// What is looked at in a dependency is what it holds.
pub proof fn law_dependency_is_seen_whole(d: Dep)
    ensures
        d.deep_view().pkg == d.pkg@,
        d.deep_view().dep_kinds.len() == d.dep_kinds@.len(),
        forall|k: int|
            0 <= k < d.dep_kinds@.len() ==> ((#[trigger] d.deep_view().dep_kinds[k]) is None
                <==> d.dep_kinds@[k].kind is None),
        forall|k: int|
            0 <= k < d.dep_kinds@.len() && d.dep_kinds@[k].kind is Some ==> (
            #[trigger] d.deep_view().dep_kinds[k]) == Some(d.dep_kinds@[k].kind->Some_0@),
        d.deep_view().has_normal() <==> exists|k: int|
            0 <= k < d.dep_kinds@.len() && (#[trigger] d.dep_kinds@[k]).kind is None,
{
    let kinds = d.deep_view().dep_kinds;
    assert forall|k: int| 0 <= k < d.dep_kinds@.len() implies (#[trigger] kinds[k]
        == d.dep_kinds@[k].deep_view()) by {}
    if exists|k: int| 0 <= k < d.dep_kinds@.len() && (#[trigger] d.dep_kinds@[k]).kind is None {
        let k: int = choose|k: int|
            0 <= k < d.dep_kinds@.len() && (#[trigger] d.dep_kinds@[k]).kind is None;
        assert(kinds[k] is None);
    }
    if d.deep_view().has_normal() {
        let k: int = choose|k: int| 0 <= k < kinds.len() && kinds[k] is None;
        assert(d.dep_kinds@[k].kind is None);
    }
}

/// What is looked at in a node is what it holds.
pub proof fn law_node_is_seen_whole(n: Node)
    ensures
        n.deep_view().id == n.id@,
        n.deep_view().deps.len() == n.deps@.len(),
        forall|i: int|
            0 <= i < n.deps@.len() ==> (#[trigger] n.deep_view().deps[i]) == n.deps@[i].deep_view(),
{
}

/// What is looked at in a package is what it holds.
pub proof fn law_package_is_seen_whole(p: Package)
    ensures
        p.deep_view().id == p.id@,
        p.deep_view().name == p.name@,
        p.deep_view().version == p.version@,
        p.deep_view().manifest_path == p.manifest_path@,
        p.source is None ==> p.deep_view().source is None,
        p.source is Some ==> p.deep_view().source == Some(p.source->Some_0@),
        p.license is None ==> p.deep_view().license is None,
        p.license is Some ==> p.deep_view().license == Some(p.license->Some_0@),
{
}

/// What is looked at in the metadata is what they hold.
pub proof fn law_metadata_are_seen_whole(m: Metadata)
    ensures
        m.deep_view().packages.len() == m.packages@.len(),
        forall|i: int|
            0 <= i < m.packages@.len() ==> (#[trigger] m.deep_view().packages[i])
                == m.packages@[i].deep_view(),
        m.resolve is None <==> m.deep_view().resolve is None,
        m.resolve is Some ==> m.deep_view().nodes().len() == m.resolve->Some_0.nodes@.len(),
        m.resolve is Some ==> forall|i: int|
            0 <= i < m.resolve->Some_0.nodes@.len() ==> (#[trigger] m.deep_view().nodes()[i])
                == m.resolve->Some_0.nodes@[i].deep_view(),
        m.deep_view().workspace_members.len() == m.workspace_members@.len(),
        forall|i: int|
            0 <= i < m.workspace_members@.len() ==> (#[trigger] m.deep_view().workspace_members[i])
                == m.workspace_members@[i]@,
{
}

/// What is looked at in a package of the lock file is what it holds.
pub proof fn law_lock_package_is_seen_whole(p: LockPackage)
    ensures
        p.deep_view().name == p.name@,
        p.deep_view().version == p.version@,
        p.source is None <==> p.deep_view().source is None,
        p.source is Some ==> p.deep_view().source == Some(p.source->Some_0.deep_view()),
        p.checksum is None ==> p.deep_view().checksum is None,
        p.checksum is Some ==> p.deep_view().checksum == Some(p.checksum->Some_0@),
{
}

/// What is looked at in a source of the lock file is what it holds.
pub proof fn law_lock_source_is_seen_whole(s: LockSource)
    ensures
        s.deep_view().kind == s.kind,
        s.deep_view().url == s.url@,
        s.precise is None ==> s.deep_view().precise is None,
        s.precise is Some ==> s.deep_view().precise == Some(s.precise->Some_0@),
{
}

/// What is looked at in what is fetched is what it holds.
pub proof fn law_fetched_is_seen_whole(id: CrateId, c: CrateInfo, r: GitRepo, g: GitCrate)
    ensures
        id.deep_view().name == id.name@,
        id.deep_view().version == id.version@,
        c.deep_view().name == c.name@,
        c.deep_view().version == c.version@,
        c.deep_view().checksum == c.checksum@,
        r.deep_view().url == r.url@,
        r.deep_view().rev == r.rev@,
        r.deep_view().name == r.name@,
        g.deep_view().name == g.name@,
        g.deep_view().repo_name == g.repo_name@,
        g.deep_view().path_in_repo == g.path_in_repo@,
{
}

/// A package and a package of the lock file go by their own name and version.
pub proof fn law_identity_is_name_and_version(p: PackageView, l: LockPackageView)
    ensures
        p.crate_id().name == p.name && p.crate_id().version == p.version,
        l.crate_id().name == l.name && l.crate_id().version == l.version,
{
}

/// A package comes from a repository exactly when its source begins with the letters `git+`, and
/// from a registry exactly when it begins with `registry+`.
pub proof fn law_source_tells_where_from(p: PackageView)
    ensures
        p.is_git_source() <==> (p.source matches Some(s) && s.len() >= 4 && s[0] == 'g' && s[1]
            == 'i' && s[2] == 't' && s[3] == '+'),
        p.is_registry_source() <==> (p.source matches Some(s) && s.len() >= 9 && s[0] == 'r'
            && s[1] == 'e' && s[2] == 'g' && s[3] == 'i' && s[4] == 's' && s[5] == 't' && s[6]
            == 'r' && s[7] == 'y' && s[8] == '+'),
{
    reveal_strlit("git+");
    reveal_strlit("registry+");
    if let Some(s) = p.source {
        let git = "git+"@;
        let registry = "registry+"@;
        if s.len() >= 4 {
            let t = s.subrange(0, 4);
            assert(t[0] == s[0] && t[1] == s[1] && t[2] == s[2] && t[3] == s[3]);
            if s[0] == 'g' && s[1] == 'i' && s[2] == 't' && s[3] == '+' {
                assert(t =~= git);
            }
        }
        if s.len() >= 9 {
            let t = s.subrange(0, 9);
            assert(forall|i: int| 0 <= i < 9 ==> t[i] == s[i]);
            if s[0] == 'r' && s[1] == 'e' && s[2] == 'g' && s[3] == 'i' && s[4] == 's' && s[5]
                == 't' && s[6] == 'r' && s[7] == 'y' && s[8] == '+' {
                assert(t =~= registry);
            }
            assert(git[0] != registry[0]);
        }
    }
}

/// A package of the lock file comes from a registry when its source is one, spoken to in either
/// way, and from a repository when its source is one.
pub proof fn law_lock_source_tells_where_from(p: LockPackageView)
    ensures
        p.source is None ==> !p.is_registry() && !p.is_git(),
        p.source matches Some(s) ==> (p.is_git() <==> s.kind is Git),
        p.source matches Some(s) ==> (p.is_registry() <==> s.kind is Registry
            || s.kind is SparseRegistry),
{
}

/// The place of a crate is two dots, a slash, the whole name of the repository, and, where the
/// crate does not lie at its top, a slash and the whole path in it.
pub proof fn law_place_of_a_crate(c: GitCrateView)
    ensures
        c.local_path().len() == 3 + c.repo_name.len() + (if c.path_in_repo.len() == 0 {
            0
        } else {
            1 + c.path_in_repo.len()
        }),
        c.local_path()[0] == '.' && c.local_path()[1] == '.' && c.local_path()[2] == '/',
        c.local_path().subrange(3, 3 + c.repo_name.len() as int) == c.repo_name,
        c.path_in_repo.len() > 0 ==> c.local_path()[3 + c.repo_name.len() as int] == '/',
        c.path_in_repo.len() > 0 ==> c.local_path().skip(4 + c.repo_name.len() as int)
            == c.path_in_repo,
{
    reveal_strlit("../");
    reveal_strlit("/");
    assert(c.local_path().subrange(3, 3 + c.repo_name.len() as int) =~= c.repo_name);
    if c.path_in_repo.len() > 0 {
        assert(c.local_path().skip(4 + c.repo_name.len() as int) =~= c.path_in_repo);
    }
}

/// Texts are in dictionary order: where they first differ the smaller character goes first, and a
/// text goes before every longer one that it begins.
pub proof fn law_texts_are_in_dictionary_order(a: Seq<char>, b: Seq<char>)
    ensures
        text_before(a, b) <==> exists|n: int|
            0 <= n <= a.len() && n < b.len() && #[trigger] a.take(n) == b.take(n) && (n == a.len()
                || a[n] < b[n]),
    decreases a.len(),
{
    if a.len() > 0 && b.len() > 0 && a[0] == b[0] {
        let x = a.skip(1);
        let y = b.skip(1);
        law_texts_are_in_dictionary_order(x, y);
        if text_before(a, b) {
            let n: int = choose|n: int|
                0 <= n <= x.len() && n < y.len() && #[trigger] x.take(n) == y.take(n) && (n
                    == x.len() || x[n] < y[n]);
            assert forall|i: int| 0 <= i < n + 1 implies a[i] == b[i] by {
                if i > 0 {
                    assert(x.take(n)[i - 1] == a[i] && y.take(n)[i - 1] == b[i]);
                }
            }
            assert(a.take(n + 1) =~= b.take(n + 1));
        }
        if exists|n: int|
            0 <= n <= a.len() && n < b.len() && #[trigger] a.take(n) == b.take(n) && (n == a.len()
                || a[n] < b[n]) {
            let n: int = choose|n: int|
                0 <= n <= a.len() && n < b.len() && #[trigger] a.take(n) == b.take(n) && (n
                    == a.len() || a[n] < b[n]);
            assert(n > 0);
            assert forall|i: int| 0 <= i < n - 1 implies x[i] == y[i] by {
                assert(a.take(n)[i + 1] == x[i] && b.take(n)[i + 1] == y[i]);
            }
            assert(x.take(n - 1) =~= y.take(n - 1));
        }
    } else if b.len() > 0 {
        assert(a.take(0) =~= b.take(0));
        if exists|n: int|
            0 <= n <= a.len() && n < b.len() && #[trigger] a.take(n) == b.take(n) && (n == a.len()
                || a[n] < b[n]) {
            let n: int = choose|n: int|
                0 <= n <= a.len() && n < b.len() && #[trigger] a.take(n) == b.take(n) && (n
                    == a.len() || a[n] < b[n]);
            if n > 0 {
                assert(a.take(n)[0] == a[0] && b.take(n)[0] == b[0]);
            }
        }
    }
}

/// Crates stand in the order of their names; those of the same name in the order of their versions.
pub proof fn law_crates_are_in_order(ids: Seq<CrateIdView>, i: int, j: int)
    requires
        ascending::<CrateId>(ids),
        0 <= i < j < ids.len(),
    ensures
        ids[i].name == ids[j].name ==> text_before(ids[i].version, ids[j].version),
        ids[i].name != ids[j].name ==> text_before(ids[i].name, ids[j].name),
        ids[i] != ids[j],
{
    assert(<CrateId as OrderedKey>::before(ids[i], ids[j]));
    crate::order::lemma_text_before_irreflexive(ids[i].name);
    crate::order::lemma_text_before_irreflexive(ids[i].version);
}

/// The keys of a map or set of texts stand in dictionary order.
pub proof fn law_texts_are_in_order(keys: Seq<Seq<char>>, i: int, j: int)
    requires
        ascending::<String>(keys),
        0 <= i < j < keys.len(),
    ensures
        text_before(keys[i], keys[j]),
{
    assert(<String as OrderedKey>::before(keys[i], keys[j]));
}

/// The root is a package of that name. It is a member of the workspace when any package of that
/// name is one, and no package of that name that is as good in this has an id before its own.
pub proof fn law_root_is_the_best_of_its_name(
    packages: Seq<PackageView>,
    members: Seq<Seq<char>>,
    name: Seq<char>,
    id: Seq<char>,
)
    requires
        is_root(packages, members, name, id),
    ensures
        exists|i: int|
            0 <= i < packages.len() && (#[trigger] packages[i]).name == name && packages[i].id
                == id,
        forall|i: int|
            0 <= i < packages.len() && (#[trigger] packages[i]).name == name && members.contains(
                packages[i].id,
            ) ==> members.contains(id),
        forall|i: int|
            0 <= i < packages.len() && (#[trigger] packages[i]).name == name && members.contains(
                packages[i].id,
            ) == members.contains(id) ==> !text_before(packages[i].id, id),
{
}

/// The only package of a name is the root.
pub proof fn law_only_package_of_its_name_is_root(
    packages: Seq<PackageView>,
    members: Seq<Seq<char>>,
    i: int,
)
    requires
        0 <= i < packages.len(),
        forall|j: int|
            0 <= j < packages.len() && j != i ==> (#[trigger] packages[j]).name != packages[i].name,
    ensures
        is_root(packages, members, packages[i].name, packages[i].id),
        has_package(packages, packages[i].name),
{
    crate::order::lemma_text_before_irreflexive(packages[i].id);
}

/// Nothing is a package of a name that no package has.
pub proof fn law_no_package_of_an_unknown_name(packages: Seq<PackageView>, name: Seq<char>)
    ensures
        has_package(packages, name) <==> exists|i: int|
            0 <= i < packages.len() && (#[trigger] packages[i]).name == name,
{
}

/// Each message names what it is about, whole, between its own words.
pub proof fn law_messages_name_what_they_are_about(a: String, b: String)
    ensures
        inside(
            (RecipeError::MetadataFailed { stderr: a }).text(),
            "cargo metadata failed: "@,
            Seq::empty(),
        ) == Some(a@),
        inside(
            (RecipeError::NoPackage { name: a }).text(),
            "no package named "@,
            " in cargo metadata"@,
        ) == Some(a@),
        inside(
            (RecipeError::LockNotFound { start: a }).text(),
            "Cargo.lock not found (walked up from "@,
            ")"@,
        ) == Some(a@),
        inside((RecipeError::BadLockfile { reason: a }).text(), Seq::empty(), Seq::empty()) == Some(
            a@,
        ),
        inside(
            (RecipeError::MissingChecksum { name: a, version: b }).text(),
            "missing checksum for "@,
            " (not in Cargo.lock?)"@,
        ) == Some(a@ + " "@ + b@),
{
    let none = Seq::<char>::empty();
    lemma_inside("cargo metadata failed: "@, a@, none);
    lemma_inside("no package named "@, a@, " in cargo metadata"@);
    lemma_inside("Cargo.lock not found (walked up from "@, a@, ")"@);
    lemma_inside(none, a@, none);
    lemma_inside("missing checksum for "@, a@ + " "@ + b@, " (not in Cargo.lock?)"@);
    assert("cargo metadata failed: "@ + a@ + none =~= "cargo metadata failed: "@ + a@);
    assert(none + a@ + none =~= a@);
    assert("missing checksum for "@ + (a@ + " "@ + b@) + " (not in Cargo.lock?)"@ =~= (
    RecipeError::MissingChecksum { name: a, version: b }).text());
}

} // verus!
