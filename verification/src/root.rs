//! Which package the recipe is for.
use crate::error::RecipeError;
use crate::model::{Metadata, PackageView};
use crate::order::{
    is_text_before, lemma_text_before_irreflexive, lemma_text_before_total,
    lemma_text_before_transitive, text_before,
};
use crate::text::same_text;
use vstd::prelude::*;

verus! {

/// `a` is preferred to `b` as the root: members of the workspace first, then by their order.
pub open spec fn preferred(members: Seq<Seq<char>>, a: Seq<char>, b: Seq<char>) -> bool {
    if members.contains(a) != members.contains(b) {
        members.contains(a)
    } else {
        text_before(a, b)
    }
}

/// One of the packages has that name.
pub open spec fn has_package(packages: Seq<PackageView>, name: Seq<char>) -> bool {
    exists|i: int| 0 <= i < packages.len() && (#[trigger] packages[i]).name == name
}

/// `id` is the one of the packages of that name that is preferred to all the others.
pub open spec fn is_root(
    packages: Seq<PackageView>,
    members: Seq<Seq<char>>,
    name: Seq<char>,
    id: Seq<char>,
) -> bool {
    &&& exists|i: int|
        0 <= i < packages.len() && (#[trigger] packages[i]).name == name && packages[i].id == id
    &&& forall|i: int|
        0 <= i < packages.len() && (#[trigger] packages[i]).name == name ==> !preferred(
            members,
            packages[i].id,
            id,
        )
}

/// There is only one root.
pub proof fn lemma_root_is_unique(
    packages: Seq<PackageView>,
    members: Seq<Seq<char>>,
    name: Seq<char>,
    a: Seq<char>,
    b: Seq<char>,
)
    requires
        is_root(packages, members, name, a),
        is_root(packages, members, name, b),
    ensures
        a == b,
{
    lemma_text_before_total(a, b);
}

/// Where a member of the workspace has the name, the root is a member of the workspace.
pub proof fn lemma_root_prefers_members(
    packages: Seq<PackageView>,
    members: Seq<Seq<char>>,
    name: Seq<char>,
    id: Seq<char>,
    i: int,
)
    requires
        is_root(packages, members, name, id),
        0 <= i < packages.len(),
        packages[i].name == name,
        members.contains(packages[i].id),
    ensures
        members.contains(id),
{
}

fn is_member(members: &Vec<String>, id: &String) -> (r: bool)
    ensures
        r == members.deep_view().contains(id@),
{
    let ghost all = members.deep_view();
    let mut i: usize = 0;
    while i < members.len()
        invariant
            all == members.deep_view(),
            i <= members@.len(),
            forall|j: int| 0 <= j < i ==> all[j] != id@,
        decreases members@.len() - i,
    {
        assert(all[i as int] == members@[i as int]@);
        if same_text(members[i].as_str(), id.as_str()) {
            return true;
        }
        i = i + 1;
    }
    false
}

fn is_preferred(members: &Vec<String>, a: &String, b: &String) -> (r: bool)
    ensures
        r == preferred(members.deep_view(), a@, b@),
{
    let x = is_member(members, a);
    let y = is_member(members, b);
    if x != y {
        x
    } else {
        is_text_before(a.as_str(), b.as_str())
    }
}

proof fn lemma_preferred_transitive(
    members: Seq<Seq<char>>,
    a: Seq<char>,
    b: Seq<char>,
    c: Seq<char>,
)
    requires
        preferred(members, b, c),
        !preferred(members, a, c),
    ensures
        !preferred(members, a, b),
{
    if preferred(members, a, b) && members.contains(a) == members.contains(b)
        && members.contains(b) == members.contains(c) {
        lemma_text_before_transitive(a, b, c);
    }
}

/// The id of the package `name`. Where several have that name, members of the workspace go first,
/// and the first id in order is taken.
pub fn pick_root_id(meta: &Metadata, name: &str) -> (r: Result<String, RecipeError>)
    ensures
        match r {
            Ok(id) => is_root(
                meta.deep_view().packages,
                meta.deep_view().workspace_members,
                name@,
                id@,
            ),
            Err(e) => !has_package(meta.deep_view().packages, name@) && (e matches RecipeError::NoPackage {
                name: n,
            } && n@ == name@),
        },
{
    let ghost packages = meta.deep_view().packages;
    let ghost members = meta.deep_view().workspace_members;
    let mut best: Option<usize> = None;
    let mut i: usize = 0;
    while i < meta.packages.len()
        invariant
            packages == meta.deep_view().packages,
            members == meta.deep_view().workspace_members,
            packages.len() == meta.packages@.len(),
            i <= meta.packages@.len(),
            match best {
                Some(b) => {
                    &&& b < i
                    &&& packages[b as int].name == name@
                    &&& forall|j: int|
                        0 <= j < i && (#[trigger] packages[j]).name == name@ ==> !preferred(
                            members,
                            packages[j].id,
                            packages[b as int].id,
                        )
                },
                None => forall|j: int| 0 <= j < i ==> (#[trigger] packages[j]).name != name@,
            },
        decreases meta.packages@.len() - i,
    {
        assert(packages[i as int] == meta.packages@[i as int].deep_view());
        if same_text(meta.packages[i].name.as_str(), name) {
            proof {
                lemma_text_before_irreflexive(packages[i as int].id);
            }
            match best {
                Some(b) => {
                    if is_preferred(
                        &meta.workspace_members,
                        &meta.packages[i].id,
                        &meta.packages[b].id,
                    ) {
                        proof {
                            let new = packages[i as int].id;
                            let old_id = packages[b as int].id;
                            assert forall|j: int|
                                0 <= j < i + 1 && (#[trigger] packages[j]).name
                                    == name@ implies !preferred(members, packages[j].id, new) by {
                                if j < i {
                                    lemma_preferred_transitive(
                                        members,
                                        packages[j].id,
                                        new,
                                        old_id,
                                    );
                                }
                            }
                        }
                        best = Some(i);
                    }
                },
                None => {
                    best = Some(i);
                },
            }
        }
        i = i + 1;
    }
    match best {
        Some(b) => Ok(meta.packages[b].id.clone()),
        None => Err(RecipeError::NoPackage { name: name.to_string() }),
    }
}

/// The root of a project whose dependency graph is known.
pub fn select_root(meta: &Metadata, name: &str) -> (r: Result<String, RecipeError>)
    ensures
        match r {
            Ok(id) => meta.deep_view().resolve is Some && is_root(
                meta.deep_view().packages,
                meta.deep_view().workspace_members,
                name@,
                id@,
            ),
            Err(RecipeError::NoResolve) => meta.deep_view().resolve is None,
            Err(e) => meta.deep_view().resolve is Some && !has_package(
                meta.deep_view().packages,
                name@,
            ) && (e matches RecipeError::NoPackage { name: n } && n@ == name@),
        },
{
    if meta.resolve.is_none() {
        return Err(RecipeError::NoResolve);
    }
    pick_root_id(meta, name)
}

} // verus!
