//! Laws on the text of the fragments: what a reader finds in them.
use crate::laws::text::{inside, law_each_copy_is_replaced, law_nothing_to_replace, lemma_inside};
use crate::model::{CrateInfoView, GitCrateView, GitRepoView};
use crate::output::{other_text, runtime_text, Output};
use crate::plan::Dependencies;
use crate::recipe::{
    attribute_line, cargo_rewrite_section, checksum_line, config_patch_section, crate_line,
    crates_section, do_compile_prepend, escaped_url, git_repos_section, inc_text, lines, patch_line,
    path_line, repo_line, revision_lines, rewrite_lines,
};
use crate::text::{has_text, replace_all};
use vstd::prelude::*;

verus! {

/// The lines of two lists, one after the other, are the lines of the first and then those of the
/// second; an item by itself has its own line.
pub proof fn law_lines_follow_the_list<T>(a: Seq<T>, b: Seq<T>, line: spec_fn(T) -> Seq<char>)
    ensures
        lines(a + b, line) == lines(a, line) + lines(b, line),
        forall|x: T| #[trigger] lines(seq![x], line) == line(x),
        lines(Seq::<T>::empty(), line) == Seq::<char>::empty(),
    decreases b.len(),
{
    assert forall|x: T| #[trigger] lines(seq![x], line) == line(x) by {
        assert(seq![x].drop_last() =~= Seq::<T>::empty());
        assert(lines(seq![x].drop_last(), line) == Seq::<char>::empty());
        assert(Seq::<char>::empty() + line(x) =~= line(x));
    }
    let all = a + b;
    if b.len() == 0 {
        assert(all =~= a);
        assert(lines(a, line) + lines(b, line) =~= lines(a, line));
    } else {
        assert(all.drop_last() =~= a + b.drop_last());
        assert(all.last() == b.last());
        law_lines_follow_the_list(a, b.drop_last(), line);
        assert(lines(all, line) =~= lines(a, line) + lines(b, line));
    }
}

/// A crate is fetched from crates.io by its whole name and its whole version.
pub proof fn law_crate_is_fetched_by_name_and_version(c: CrateInfoView)
    ensures
        inside(crate_line()(c), "    crate://crates.io/"@, " \\\n"@) == Some(
            c.name + "/"@ + c.version,
        ),
{
    lemma_inside("    crate://crates.io/"@, c.name + "/"@ + c.version, " \\\n"@);
    assert(crate_line()(c) =~= "    crate://crates.io/"@ + (c.name + "/"@ + c.version) + " \\\n"@);
}

/// The whole checksum of a crate is set for its whole name and version.
pub proof fn law_checksum_is_set_for_its_crate(c: CrateInfoView)
    ensures
        inside(
            checksum_line()(c),
            "SRC_URI["@ + c.name + "-"@ + c.version + ".sha256sum] = \""@,
            "\"\n"@,
        ) == Some(c.checksum),
{
    let open = "SRC_URI["@ + c.name + "-"@ + c.version + ".sha256sum] = \""@;
    lemma_inside(open, c.checksum, "\"\n"@);
    assert(checksum_line()(c) =~= open + c.checksum + "\"\n"@);
}

/// Crates of the same name and version with different checksums never get the same line.
pub proof fn law_checksum_lines_differ(a: CrateInfoView, b: CrateInfoView)
    requires
        a.name == b.name,
        a.version == b.version,
        checksum_line()(a) == checksum_line()(b),
    ensures
        a.checksum == b.checksum,
{
    law_checksum_is_set_for_its_crate(a);
    law_checksum_is_set_for_its_crate(b);
}

/// A repository is fetched over https, whatever its branch, under its whole name and into a
/// directory of that name. Its address begins with `git://` where it began with `https://`, and is
/// otherwise unchanged.
pub proof fn law_repository_is_fetched_from_its_address(r: GitRepoView, rest: Seq<char>)
    requires
        r.url == "https://"@ + rest,
        !has_text(rest, "https://"@),
    ensures
        inside(
            repo_line()(r),
            "    git://"@,
            ";protocol=https;nobranch=1;name="@ + r.name + ";destsuffix="@ + r.name + " \\\n"@,
        ) == Some(rest),
{
    reveal_strlit("https://");
    reveal_strlit("    git://");
    reveal_strlit("    ");
    reveal_strlit("git://");
    let close = ";protocol=https;nobranch=1;name="@ + r.name + ";destsuffix="@ + r.name + " \\\n"@;
    let none = Seq::<char>::empty();
    assert(none + "https://"@ + rest =~= r.url);
    law_each_copy_is_replaced(none, "https://"@, rest, "git://"@);
    law_nothing_to_replace(rest, "https://"@, "git://"@);
    assert("    git://"@ =~= "    "@ + "git://"@);
    lemma_inside("    git://"@, rest, close);
    assert(repo_line()(r) =~= "    git://"@ + rest + close);
}

/// An address without `https://` is fetched from as it is.
pub proof fn law_other_addresses_stay(r: GitRepoView)
    requires
        !has_text(r.url, "https://"@),
    ensures
        inside(
            repo_line()(r),
            "    "@,
            ";protocol=https;nobranch=1;name="@ + r.name + ";destsuffix="@ + r.name + " \\\n"@,
        ) == Some(r.url),
{
    let close = ";protocol=https;nobranch=1;name="@ + r.name + ";destsuffix="@ + r.name + " \\\n"@;
    law_nothing_to_replace(r.url, "https://"@, "git://"@);
    lemma_inside("    "@, r.url, close);
    assert(repo_line()(r) =~= "    "@ + r.url + close);
}

/// Wherever an address has `https://`, it is fetched from with `git://` there, and with nothing else
/// changed.
pub proof fn law_address_is_fetched_from_with_git(r: GitRepoView)
    ensures
        inside(
            repo_line()(r),
            "    "@,
            ";protocol=https;nobranch=1;name="@ + r.name + ";destsuffix="@ + r.name + " \\\n"@,
        ) == Some(replace_all(r.url, "https://"@, "git://"@)),
{
    let close = ";protocol=https;nobranch=1;name="@ + r.name + ";destsuffix="@ + r.name + " \\\n"@;
    let address = replace_all(r.url, "https://"@, "git://"@);
    lemma_inside("    "@, address, close);
    assert(repo_line()(r) =~= "    "@ + address + close);
}

/// A repository is fetched at its whole revision, which is set for its whole name.
pub proof fn law_repository_is_fetched_at_its_revision(r: GitRepoView)
    ensures
        inside(
            revision_lines()(r),
            "SRCREV_FORMAT .= \"_"@ + r.name + "\"\nSRCREV_"@ + r.name + " = \""@,
            "\"\n\n"@,
        ) == Some(r.rev),
        has_text(revision_lines()(r), " = \""@ + r.rev + "\""@),
{
    reveal_strlit("\"");
    reveal_strlit("\n\n");
    reveal_strlit("\"\n\n");
    let before = "SRCREV_FORMAT .= \"_"@ + r.name + "\"\nSRCREV_"@ + r.name;
    let open = before + " = \""@;
    let part = " = \""@ + r.rev + "\""@;
    let all = revision_lines()(r);
    lemma_inside(open, r.rev, "\"\n\n"@);
    assert(all =~= open + r.rev + "\"\n\n"@);
    assert(all =~= before + part + "\n\n"@);
    assert(all.subrange(before.len() as int, before.len() as int + part.len()) =~= part);
}

/// Repositories of the same name at different revisions never get the same lines.
pub proof fn law_revisions_differ(a: GitRepoView, b: GitRepoView)
    requires
        a.name == b.name,
        revision_lines()(a) == revision_lines()(b),
    ensures
        a.rev == b.rev,
{
    law_repository_is_fetched_at_its_revision(a);
    law_repository_is_fetched_at_its_revision(b);
}

/// A text as sed reads it: a backslash goes, and the character behind it stands for itself.
pub open spec fn unescaped(s: Seq<char>) -> Seq<char>
    decreases s.len(),
{
    if s.len() == 0 {
        s
    } else if s[0] == '\\' && s.len() > 1 {
        seq![s[1]] + unescaped(s.skip(2))
    } else {
        seq![s[0]] + unescaped(s.skip(1))
    }
}

proof fn lemma_replace_one(c: char, s: Seq<char>, p: char, w: Seq<char>)
    ensures
        replace_all(seq![c] + s, seq![p], w) == (if c == p {
            w
        } else {
            seq![c]
        }) + replace_all(s, seq![p], w),
{
    let all = seq![c] + s;
    assert(all.skip(1) =~= s);
    if c == p {
        assert(all.subrange(0, 1) =~= seq![p]);
    } else {
        assert(all.subrange(0, 1)[0] == c);
        assert(!seq![p].is_prefix_of(all));
    }
}

proof fn lemma_unescaped_first(c: char, s: Seq<char>)
    ensures
        unescaped(seq!['\\', c] + s) == seq![c] + unescaped(s),
        c != '\\' ==> unescaped(seq![c] + s) == seq![c] + unescaped(s),
{
    assert((seq!['\\', c] + s).skip(2) =~= s);
    assert((seq![c] + s).skip(1) =~= s);
}

proof fn lemma_slashes_read_back(s: Seq<char>)
    requires
        !s.contains('\\'),
    ensures
        unescaped(replace_all(s, "/"@, "\\/"@)) == s,
    decreases s.len(),
{
    reveal_strlit("/");
    reveal_strlit("\\/");
    assert("/"@ =~= seq!['/']);
    assert("\\/"@ =~= seq!['\\', '/']);
    if s.len() > 0 {
        let t = s.skip(1);
        assert(s =~= seq![s[0]] + t);
        assert(s.contains(s[0]));
        assert forall|i: int| 0 <= i < t.len() implies t[i] != '\\' by {
            assert(s.contains(s[i + 1]));
        }
        lemma_slashes_read_back(t);
        lemma_replace_one(s[0], t, '/', "\\/"@);
        lemma_unescaped_first(s[0], replace_all(t, "/"@, "\\/"@));
    }
}

/// What sed reads in the pattern for an address is that address.
pub proof fn law_escaped_address_reads_back(url: Seq<char>)
    requires
        !url.contains('\\'),
    ensures
        unescaped(escaped_url(url)) == url,
    decreases url.len(),
{
    reveal_strlit("/");
    reveal_strlit("\\/");
    reveal_strlit(".");
    reveal_strlit("\\.");
    assert("/"@ =~= seq!['/']);
    assert("\\/"@ =~= seq!['\\', '/']);
    assert("."@ =~= seq!['.']);
    assert("\\."@ =~= seq!['\\', '.']);
    if url.len() > 0 {
        let c = url[0];
        let t = url.skip(1);
        let slashes = replace_all(t, "/"@, "\\/"@);
        let rest = escaped_url(t);
        assert(url =~= seq![c] + t);
        assert(url.contains(c));
        assert forall|i: int| 0 <= i < t.len() implies t[i] != '\\' by {
            assert(url.contains(url[i + 1]));
        }
        law_escaped_address_reads_back(t);
        lemma_replace_one(c, t, '/', "\\/"@);
        if c == '/' {
            assert("\\/"@ + slashes =~= seq!['\\'] + (seq!['/'] + slashes));
            lemma_replace_one('\\', seq!['/'] + slashes, '.', "\\."@);
            lemma_replace_one('/', slashes, '.', "\\."@);
            assert(escaped_url(url) =~= seq!['\\', '/'] + rest);
        } else {
            lemma_replace_one(c, slashes, '.', "\\."@);
            if c == '.' {
                assert(escaped_url(url) =~= seq!['\\', '.'] + rest);
            } else {
                assert(escaped_url(url) =~= seq![c] + rest);
            }
        }
        lemma_unescaped_first(c, rest);
    }
}

/// The patch block that is removed is that of the repository's address, from its first line to the
/// empty line behind it.
pub proof fn law_patch_block_of_the_address_is_removed(r: GitRepoView)
    requires
        !r.url.contains('\\'),
    ensures
        inside(patch_line()(r), "      -e '/^\\[patch\\.\""@, "\"\\]/,/^$/d' \\\n"@) matches Some(
            pattern,
        ) && unescaped(pattern) == r.url,
{
    lemma_inside("      -e '/^\\[patch\\.\""@, escaped_url(r.url), "\"\\]/,/^$/d' \\\n"@);
    law_escaped_address_reads_back(r.url);
}

/// The dependency on a crate is found by the crate's whole name, unchanged, and is pointed to the
/// crate's place on disk.
pub proof fn law_crate_is_pointed_to_its_place(c: GitCrateView)
    requires
        !c.local_path().contains('\\'),
    ensures
        inside(
            path_line(c),
            "      -e 's/\\("@ + c.name + " = {[^}]*\\)git = \"[^\"]*\"/\\1path = \""@,
            "\"/g' \\\n"@,
        ) matches Some(path) && unescaped(path) == c.local_path(),
{
    let open = "      -e 's/\\("@ + c.name + " = {[^}]*\\)git = \"[^\"]*\"/\\1path = \""@;
    let path = replace_all(c.local_path(), "/"@, "\\/"@);
    lemma_inside(open, path, "\"/g' \\\n"@);
    assert(path_line(c) =~= open + path + "\"/g' \\\n"@);
    lemma_slashes_read_back(c.local_path());
}

/// The line that points a crate to its place has the crate's name, directly followed by the start
/// of the table that its dependency is written as.
pub proof fn law_name_of_the_crate_is_kept(c: GitCrateView, attr: Seq<char>)
    ensures
        has_text(path_line(c), "\\("@ + c.name + " = {"@),
        has_text(attribute_line(c, attr), "\\("@ + c.name + " = {"@),
{
    reveal_strlit("      -e 's/\\(");
    reveal_strlit("      -e 's/");
    reveal_strlit("\\(");
    reveal_strlit(" = {");
    reveal_strlit(" = {[^}]*\\)git = \"[^\"]*\"/\\1path = \"");
    reveal_strlit(" = {[^}]*\\), *");
    let start = "      -e 's/"@;
    let part = "\\("@ + c.name + " = {"@;
    let n = start.len() as int;
    assert("      -e 's/\\("@ =~= start + "\\("@);
    let p = path_line(c);
    assert(" = {[^}]*\\)git = \"[^\"]*\"/\\1path = \""@.take(4) =~= " = {"@);
    assert(p.subrange(n, n + part.len()) =~= part);
    let a = attribute_line(c, attr);
    assert(" = {[^}]*\\), *"@.take(4) =~= " = {"@);
    assert(a.subrange(n, n + part.len()) =~= part);
}

/// An attribute is removed from the dependency on the crate of that whole name.
pub proof fn law_attribute_of_the_crate_is_removed(c: GitCrateView, attr: Seq<char>)
    ensures
        inside(
            attribute_line(c, attr),
            "      -e 's/\\("@ + c.name + " = {[^}]*\\), *"@,
            " = \"[^\"]*\"/\\1/g' \\\n"@,
        ) == Some(attr),
{
    let open = "      -e 's/\\("@ + c.name + " = {[^}]*\\), *"@;
    lemma_inside(open, attr, " = \"[^\"]*\"/\\1/g' \\\n"@);
    assert(attribute_line(c, attr) =~= open + attr + " = \"[^\"]*\"/\\1/g' \\\n"@);
}

/// A crate is pointed to its place, and then its revision, its branch and its tag are removed.
pub proof fn law_rewriting_of_a_crate(c: GitCrateView)
    ensures
        inside(
            rewrite_lines()(c),
            path_line(c) + attribute_line(c, "rev"@),
            attribute_line(c, "tag"@),
        ) == Some(attribute_line(c, "branch"@)),
{
    lemma_inside(
        path_line(c) + attribute_line(c, "rev"@),
        attribute_line(c, "branch"@),
        attribute_line(c, "tag"@),
    );
}

/// The section for crates opens a quoted list, fetches each crate in turn, closes the list, and
/// sets each checksum in turn. Without crates there is none.
pub proof fn law_section_for_crates(crates: Seq<CrateInfoView>)
    ensures
        crates.len() == 0 ==> crates_section(crates).len() == 0,
        crates.len() > 0 ==> inside(
            crates_section(crates),
            "SRC_URI += \" \\\n"@ + lines(crates, crate_line()) + "\"\n\n"@,
            "\n"@,
        ) == Some(lines(crates, checksum_line())),
{
    let open = "SRC_URI += \" \\\n"@ + lines(crates, crate_line()) + "\"\n\n"@;
    lemma_inside(open, lines(crates, checksum_line()), "\n"@);
}

/// The section for repositories opens a quoted list, fetches each repository in turn, closes the
/// list, and sets each revision in turn. Without repositories there is none.
pub proof fn law_section_for_repositories(repos: Seq<GitRepoView>)
    ensures
        repos.len() == 0 ==> git_repos_section(repos).len() == 0,
        repos.len() > 0 ==> inside(
            git_repos_section(repos),
            "SRC_URI += \" \\\n"@ + lines(repos, repo_line()) + "\"\n\n"@,
            Seq::empty(),
        ) == Some(lines(repos, revision_lines())),
{
    let open = "SRC_URI += \" \\\n"@ + lines(repos, repo_line()) + "\"\n\n"@;
    let none = Seq::<char>::empty();
    lemma_inside(open, lines(repos, revision_lines()), none);
    assert(open + lines(repos, revision_lines()) + none =~= open + lines(repos, revision_lines()));
}

/// One call of sed removes the patch block of each repository in turn from Cargo's configuration.
pub proof fn law_section_for_patches(repos: Seq<GitRepoView>)
    ensures
        inside(
            config_patch_section(repos),
            "    cfg=\"${WORKDIR}/cargo_home/config.toml\"\n\n"@
                + "    # Remove autogenerated [patch.\"...\"] blocks that break workspace crates\n"@
                + "    sed -i \\\n"@,
            "      \"$cfg\"\n\n"@,
        ) == Some(lines(repos, patch_line())),
{
    lemma_inside(
        "    cfg=\"${WORKDIR}/cargo_home/config.toml\"\n\n"@
            + "    # Remove autogenerated [patch.\"...\"] blocks that break workspace crates\n"@
            + "    sed -i \\\n"@,
        lines(repos, patch_line()),
        "      \"$cfg\"\n\n"@,
    );
}

/// One call of sed rewrites the dependency on each crate in turn in the manifest.
pub proof fn law_section_for_rewriting(crates: Seq<GitCrateView>)
    ensures
        inside(
            cargo_rewrite_section(crates),
            "    # Rewrite git dependencies to local paths for offline build\n"@
                + "    sed -i \\\n"@,
            "      \"${S}/Cargo.toml\"\n"@,
        ) == Some(lines(crates, rewrite_lines())),
{
    lemma_inside(
        "    # Rewrite git dependencies to local paths for offline build\n"@ + "    sed -i \\\n"@,
        lines(crates, rewrite_lines()),
        "      \"${S}/Cargo.toml\"\n"@,
    );
}

/// The patches are removed before the dependencies are rewritten, each only where there is
/// something to do; where there is nothing, there is no step at all.
pub proof fn law_steps_before_the_build(repos: Seq<GitRepoView>, crates: Seq<GitCrateView>)
    ensures
        repos.len() == 0 && crates.len() == 0 ==> do_compile_prepend(
            Some(repos),
            Some(crates),
        ).len() == 0,
        repos.len() > 0 && crates.len() > 0 ==> inside(
            do_compile_prepend(Some(repos), Some(crates)),
            "do_compile:prepend() {\n"@,
            "}\n"@,
        ) == Some(config_patch_section(repos) + cargo_rewrite_section(crates)),
        repos.len() > 0 && crates.len() == 0 ==> inside(
            do_compile_prepend(Some(repos), Some(crates)),
            "do_compile:prepend() {\n"@,
            "}\n"@,
        ) == Some(config_patch_section(repos)),
        repos.len() == 0 && crates.len() > 0 ==> inside(
            do_compile_prepend(Some(repos), Some(crates)),
            "do_compile:prepend() {\n"@,
            "}\n"@,
        ) == Some(cargo_rewrite_section(crates)),
{
    let open = "do_compile:prepend() {\n"@;
    let a = config_patch_section(repos);
    let b = cargo_rewrite_section(crates);
    let none = Seq::<char>::empty();
    lemma_inside(open, a + b, "}\n"@);
    lemma_inside(open, a, "}\n"@);
    lemma_inside(open, b, "}\n"@);
    assert(open + a + b + "}\n"@ =~= open + (a + b) + "}\n"@);
    assert(open + a + none + "}\n"@ =~= open + a + "}\n"@);
    assert(open + none + b + "}\n"@ =~= open + b + "}\n"@);
}

/// A list that is not given is as one without items.
pub proof fn law_no_list_is_as_an_empty_one(
    repos: Option<Seq<GitRepoView>>,
    crates: Option<Seq<GitCrateView>>,
)
    ensures
        do_compile_prepend(None, crates) == do_compile_prepend(Some(Seq::empty()), crates),
        do_compile_prepend(repos, None) == do_compile_prepend(repos, Some(Seq::empty())),
{
}

/// A fragment tells what it is for, fetches crates, then repositories, and then tells the steps
/// before the build.
pub proof fn law_parts_of_a_fragment(
    pkg: Seq<char>,
    kind: Seq<char>,
    crates: Seq<CrateInfoView>,
    repos: Seq<GitRepoView>,
    patch: Option<Seq<GitRepoView>>,
    rewrite: Option<Seq<GitCrateView>>,
)
    ensures
        inside(
            inc_text(pkg, kind, crates, repos, patch, rewrite),
            "# Autogenerated for '"@ + pkg + "' ("@ + kind + ")\n\n"@,
            do_compile_prepend(patch, rewrite),
        ) == Some(crates_section(crates) + git_repos_section(repos)),
{
    let open = "# Autogenerated for '"@ + pkg + "' ("@ + kind + ")\n\n"@;
    let middle = crates_section(crates) + git_repos_section(repos);
    let close = do_compile_prepend(patch, rewrite);
    lemma_inside(open, middle, close);
    assert(inc_text(pkg, kind, crates, repos, patch, rewrite) =~= open + middle + close);
}

/// The two fragments tell apart what is needed at run time and what is not. Each fetches its own
/// crates and repositories, removes the patch blocks of just those repositories, and rewrites its
/// own crates of repositories.
pub proof fn law_fragments_hold_their_own(package: Seq<char>, deps: &Dependencies)
    ensures
        inside(
            runtime_text(package, deps),
            "# Autogenerated for '"@ + package + "' (runtime)\n\n"@,
            do_compile_prepend(
                Some(deps.runtime_git.deep_view()),
                Some(deps.runtime_git_crates.deep_view()),
            ),
        ) == Some(
            crates_section(deps.runtime_crates.deep_view()) + git_repos_section(
                deps.runtime_git.deep_view(),
            ),
        ),
        inside(
            other_text(package, deps),
            "# Autogenerated for '"@ + package + "' (other)\n\n"@,
            do_compile_prepend(
                Some(deps.other_git.deep_view()),
                Some(deps.other_git_crates.deep_view()),
            ),
        ) == Some(
            crates_section(deps.other_crates.deep_view()) + git_repos_section(
                deps.other_git.deep_view(),
            ),
        ),
{
    reveal_strlit("' (");
    reveal_strlit("runtime");
    reveal_strlit("other");
    reveal_strlit(")\n\n");
    reveal_strlit("' (runtime)\n\n");
    reveal_strlit("' (other)\n\n");
    let start = "# Autogenerated for '"@ + package;
    assert(start + "' ("@ + "runtime"@ + ")\n\n"@ =~= start + "' (runtime)\n\n"@);
    assert(start + "' ("@ + "other"@ + ")\n\n"@ =~= start + "' (other)\n\n"@);
    law_parts_of_a_fragment(
        package,
        "runtime"@,
        deps.runtime_crates.deep_view(),
        deps.runtime_git.deep_view(),
        Some(deps.runtime_git.deep_view()),
        Some(deps.runtime_git_crates.deep_view()),
    );
    law_parts_of_a_fragment(
        package,
        "other"@,
        deps.other_crates.deep_view(),
        deps.other_git.deep_view(),
        Some(deps.other_git.deep_view()),
        Some(deps.other_git_crates.deep_view()),
    );
}

/// A file is named by the whole name of the package and by what it holds.
pub proof fn law_names_of_files(package: Seq<char>)
    ensures
        inside(package + Output::Runtime.suffix(), Seq::empty(), "-crates-runtime.inc"@) == Some(
            package,
        ),
        inside(package + Output::Other.suffix(), Seq::empty(), "-crates-other.inc"@) == Some(
            package,
        ),
        inside(package + Output::Licenses.suffix(), Seq::empty(), "-licenses.json"@) == Some(
            package,
        ),
{
    let none = Seq::<char>::empty();
    lemma_inside(none, package, "-crates-runtime.inc"@);
    lemma_inside(none, package, "-crates-other.inc"@);
    lemma_inside(none, package, "-licenses.json"@);
    assert(none + package =~= package);
}

} // verus!
