//! Git sources: which repository a package comes from, and where in it the package lies.
use crate::model::{GitRepo, GitRepoView};
use crate::text::{
    after_last, after_last_of, before_first, before_first_of, join, joined, last_index,
    lemma_after_last_is_free, lemma_before_first, lemma_last_index, lemma_pieces_undo_join,
    lemma_split_at_last, lemma_trim_end_is_done, lemma_trim_end_is_prefix, pieces, pieces_of,
    same_text, split_at_last, split_at_last_of, strip_prefix, trim_end, trim_end_of,
};
use vstd::prelude::*;

verus! {

/// The name of a repository: the last part of its address, without `.git`.
pub open spec fn repo_name(url: Seq<char>) -> Seq<char> {
    trim_end(after_last(trim_end(url, "/"@), '/'), ".git"@)
}

/// The name of a repository: the last part of its address, without `.git`.
pub fn repo_name_of<'a>(url: &'a str) -> (r: &'a str)
    ensures
        r@ == repo_name(url@),
{
    trim_end_of(after_last_of(trim_end_of(url, "/"), '/'), ".git")
}

/// The repository that a source `git+<url>?<query>#<rev>` names.
pub open spec fn git_source(source: Seq<char>) -> Option<GitRepoView> {
    if !"git+"@.is_prefix_of(source) {
        None
    } else {
        match split_at_last(source.skip("git+"@.len() as int), '#') {
            Some((place, rev)) => Some(
                GitRepoView {
                    url: before_first(place, '?'),
                    rev,
                    name: repo_name(before_first(place, '?')),
                },
            ),
            None => None,
        }
    }
}

/// The repository that a source `git+<url>?<query>#<rev>` names.
pub fn parse_git_source(source: &str) -> (r: Option<GitRepo>)
    ensures
        r.deep_view() == git_source(source@),
{
    let s = match strip_prefix(source, "git+") {
        Some(s) => s,
        None => return None,
    };
    let (place, rev) = match split_at_last_of(s, '#') {
        Some(parts) => parts,
        None => return None,
    };
    let url = before_first_of(place, '?');
    Some(
        GitRepo {
            url: url.to_string(),
            rev: rev.to_string(),
            name: repo_name_of(url).to_string(),
        },
    )
}

/// Position of the first `p` among the parts, or their number when there is none.
pub open spec fn first_part(parts: Seq<Seq<char>>, p: Seq<char>) -> int
    decreases parts.len(),
{
    if parts.len() == 0 {
        0
    } else if parts[0] == p {
        0
    } else {
        1 + first_part(parts.skip(1), p)
    }
}

/// What tells the first `p` among the parts from any other position.
pub proof fn lemma_first_part(parts: Seq<Seq<char>>, p: Seq<char>)
    ensures
        0 <= first_part(parts, p) <= parts.len(),
        forall|i: int| 0 <= i < first_part(parts, p) ==> parts[i] != p,
        first_part(parts, p) < parts.len() ==> parts[first_part(parts, p)] == p,
    decreases parts.len(),
{
    if parts.len() > 0 && parts[0] != p {
        lemma_first_part(parts.skip(1), p);
        assert forall|i: int| 0 <= i < first_part(parts, p) implies parts[i] != p by {
            if i > 0 {
                assert(parts[i] == parts.skip(1)[i - 1]);
            }
        }
    }
}

/// The directory of a manifest inside its repository. A checkout lies at
/// `.../checkouts/<repo>/<commit>/<path>/Cargo.toml`; outside one the directory is empty.
pub open spec fn path_in_repo(manifest_path: Seq<char>) -> Seq<char> {
    let parts = pieces(manifest_path, '/');
    let at = first_part(parts, "checkouts"@);
    if at < parts.len() && parts.len() > at + 3 {
        join(parts.subrange(at + 3, parts.len() - 1), "/"@)
    } else {
        Seq::empty()
    }
}

/// The directory of a manifest inside its repository, empty outside a checkout.
pub fn extract_path_in_repo(manifest_path: &str) -> (r: String)
    ensures
        r@ == path_in_repo(manifest_path@),
{
    let parts = pieces_of(manifest_path, '/');
    let ghost all = parts.deep_view();
    let n: usize = parts.len();
    let mut at: usize = 0;
    proof {
        lemma_first_part(all, "checkouts"@);
    }
    while at < n && !same_text(parts[at], "checkouts")
        invariant
            all == parts.deep_view(),
            n == parts@.len(),
            n == all.len(),
            0 <= at <= first_part(all, "checkouts"@) <= n,
            forall|i: int| 0 <= i < first_part(all, "checkouts"@) ==> all[i] != "checkouts"@,
            first_part(all, "checkouts"@) < n ==> all[first_part(all, "checkouts"@)]
                == "checkouts"@,
        decreases n - at,
    {
        assert(all[at as int] == parts@[at as int]@);
        at = at + 1;
    }
    if at < n {
        assert(all[at as int] == parts@[at as int]@);
    }
    if at < n && n - at > 3 {
        let inner = vstd::slice::slice_subrange(parts.as_slice(), at + 3, n - 1);
        assert(inner.deep_view() =~= all.subrange(at + 3, n - 1));
        joined(inner, "/")
    } else {
        String::new()
    }
}

/// The source of a revision of a repository, with the query that Cargo may put between them.
pub open spec fn source_of(url: Seq<char>, query: Option<Seq<char>>, rev: Seq<char>) -> Seq<char> {
    "git+"@ + (match query {
        Some(q) => url + "?"@ + q,
        None => url,
    }) + "#"@ + rev
}

/// What is put into a source is read from it again, whatever the query. An address holds no `?`,
/// and a revision no `#`.
pub proof fn lemma_git_source_reads_back(
    url: Seq<char>,
    query: Option<Seq<char>>,
    rev: Seq<char>,
)
    requires
        !url.contains('?'),
        !rev.contains('#'),
    ensures
        git_source(source_of(url, query, rev)) == Some(
            GitRepoView { url, rev, name: repo_name(url) },
        ),
{
    reveal_strlit("?");
    reveal_strlit("#");
    let place = match query {
        Some(q) => url + "?"@ + q,
        None => url,
    };
    let source = source_of(url, query, rev);
    assert("?"@ =~= seq!['?']);
    assert("#"@ =~= seq!['#']);
    assert(source.subrange(0, "git+"@.len() as int) =~= "git+"@);
    assert(source.skip("git+"@.len() as int) =~= place + seq!['#'] + rev);
    lemma_split_at_last(place, '#', rev);
    match query {
        Some(q) => lemma_before_first(url, '?', q),
        None => lemma_before_first(url, '?', Seq::empty()),
    }
}

/// A source names a repository exactly when it starts with `git+` and has a `#` after that.
pub proof fn lemma_git_source_is_some(source: Seq<char>)
    ensures
        git_source(source) is Some <==> "git+"@.is_prefix_of(source) && source.skip(
            "git+"@.len() as int,
        ).contains('#'),
{
    let s = source.skip("git+"@.len() as int);
    lemma_last_index(s, '#');
    if s.contains('#') {
        let i: int = choose|i: int| 0 <= i < s.len() && s[i] == '#';
        assert(last_index(s, '#') >= i);
    }
}

/// The name of a repository is a plain one: it holds no `/`, and does not end with `.git`.
pub proof fn lemma_repo_name_is_plain(url: Seq<char>)
    ensures
        !repo_name(url).contains('/'),
        !".git"@.is_suffix_of(repo_name(url)),
{
    reveal_strlit(".git");
    let last = after_last(trim_end(url, "/"@), '/');
    lemma_after_last_is_free(trim_end(url, "/"@), '/');
    lemma_trim_end_is_prefix(last, ".git"@);
    lemma_trim_end_is_done(last, ".git"@);
    let name = repo_name(url);
    assert forall|i: int| 0 <= i < name.len() implies name[i] != '/' by {
        assert(name[i] == last.subrange(0, name.len() as int)[i]);
        assert(last.contains(last[i]));
    }
}

/// A manifest in a checkout lies in the directory that follows the repository and the commit.
pub proof fn lemma_path_of_checkout(
    above: Seq<Seq<char>>,
    repo: Seq<char>,
    commit: Seq<char>,
    path: Seq<Seq<char>>,
    file: Seq<char>,
)
    requires
        forall|i: int| 0 <= i < above.len() ==> !(#[trigger] above[i]).contains('/'),
        forall|i: int| 0 <= i < above.len() ==> #[trigger] above[i] != "checkouts"@,
        !repo.contains('/'),
        !commit.contains('/'),
        forall|i: int| 0 <= i < path.len() ==> !(#[trigger] path[i]).contains('/'),
        !file.contains('/'),
    ensures
        path_in_repo(
            join(above + seq!["checkouts"@, repo, commit] + path + seq![file], "/"@),
        ) == join(path, "/"@),
{
    reveal_strlit("/");
    assert("/"@ =~= seq!['/']);
    assert(!"checkouts"@.contains('/')) by {
        reveal_strlit("checkouts");
    }
    let parts = above + seq!["checkouts"@, repo, commit] + path + seq![file];
    let n = above.len() as int;
    assert forall|i: int| 0 <= i < parts.len() implies !(#[trigger] parts[i]).contains('/') by {
        if i < n {
            assert(parts[i] == above[i]);
        } else if i == n {
            assert(parts[i] == "checkouts"@);
        } else if i == n + 1 {
            assert(parts[i] == repo);
        } else if i == n + 2 {
            assert(parts[i] == commit);
        } else if i < parts.len() - 1 {
            assert(parts[i] == path[i - n - 3]);
        } else {
            assert(parts[i] == file);
        }
    }
    lemma_pieces_undo_join(parts, '/');
    lemma_first_part(parts, "checkouts"@);
    assert(parts[n] == "checkouts"@);
    assert(first_part(parts, "checkouts"@) == n) by {
        let at = first_part(parts, "checkouts"@);
        if at < n {
            assert(parts[at] == above[at]);
        }
    }
    assert(parts.subrange(n + 3, parts.len() - 1) =~= path);
}

/// Outside a checkout there is no directory inside a repository.
pub proof fn lemma_path_outside_checkout(manifest_path: Seq<char>)
    requires
        !pieces(manifest_path, '/').contains("checkouts"@),
    ensures
        path_in_repo(manifest_path) == Seq::<char>::empty(),
{
    let parts = pieces(manifest_path, '/');
    lemma_first_part(parts, "checkouts"@);
    if first_part(parts, "checkouts"@) < parts.len() {
        assert(parts.contains(parts[first_part(parts, "checkouts"@)]));
    }
}

} // verus!
