//! The text of a BitBake fragment: what to fetch, and how to build from it offline.
use crate::model::{CrateInfo, CrateInfoView, GitCrate, GitCrateView, GitRepo, GitRepoView};
use crate::text::{has_text, lemma_has_text_within, replace_all, replaced};
use vstd::prelude::*;

verus! {

/// The lines of the items, one after the other.
pub open spec fn lines<T>(items: Seq<T>, line: spec_fn(T) -> Seq<char>) -> Seq<char>
    decreases items.len(),
{
    if items.len() == 0 {
        Seq::empty()
    } else {
        lines(items.drop_last(), line) + line(items.last())
    }
}

proof fn lemma_lines_step<T>(items: Seq<T>, i: int, line: spec_fn(T) -> Seq<char>)
    requires
        0 <= i < items.len(),
    ensures
        lines(items.take(i + 1), line) == lines(items.take(i), line) + line(items[i]),
{
    assert(items.take(i + 1).drop_last() =~= items.take(i));
}

/// Where a crate is fetched from.
pub open spec fn crate_line() -> spec_fn(CrateInfoView) -> Seq<char> {
    |c: CrateInfoView|
        "    crate://crates.io/"@ + c.name + "/"@ + c.version + " \\\n"@
}

/// What the fetched crate must hash to.
pub open spec fn checksum_line() -> spec_fn(CrateInfoView) -> Seq<char> {
    |c: CrateInfoView|
        "SRC_URI["@ + c.name + "-"@ + c.version + ".sha256sum] = \""@ + c.checksum + "\"\n"@
}

/// The section that fetches crates; nothing when there are none.
pub open spec fn crates_section(crates: Seq<CrateInfoView>) -> Seq<char> {
    if crates.len() == 0 {
        Seq::empty()
    } else {
        "SRC_URI += \" \\\n"@ + lines(crates, crate_line()) + "\"\n\n"@ + lines(
            crates,
            checksum_line(),
        ) + "\n"@
    }
}

fn write_crate_line(out: &mut String, c: &CrateInfo)
    ensures
        final(out)@ == old(out)@ + crate_line()(c.deep_view()),
{
    out.append("    crate://crates.io/");
    out.append(c.name.as_str());
    out.append("/");
    out.append(c.version.as_str());
    out.append(" \\\n");
    assert(out@ =~= old(out)@ + crate_line()(c.deep_view()));
}

fn write_checksum_line(out: &mut String, c: &CrateInfo)
    ensures
        final(out)@ == old(out)@ + checksum_line()(c.deep_view()),
{
    out.append("SRC_URI[");
    out.append(c.name.as_str());
    out.append("-");
    out.append(c.version.as_str());
    out.append(".sha256sum] = \"");
    out.append(c.checksum.as_str());
    out.append("\"\n");
    assert(out@ =~= old(out)@ + checksum_line()(c.deep_view()));
}

/// Appends the section that fetches crates.
pub fn write_crates_section(out: &mut String, crates: &[CrateInfo])
    ensures
        final(out)@ == old(out)@ + crates_section(crates.deep_view()),
{
    let ghost all = crates.deep_view();
    if crates.len() == 0 {
        assert(out@ =~= old(out)@ + Seq::<char>::empty());
        return;
    }
    out.append("SRC_URI += \" \\\n");
    let ghost base = out@;
    let mut i: usize = 0;
    assert(lines(all.take(0), crate_line()) =~= Seq::<char>::empty());
    while i < crates.len()
        invariant
            all == crates.deep_view(),
            i <= crates@.len(),
            out@ == base + lines(all.take(i as int), crate_line()),
        decreases crates@.len() - i,
    {
        write_crate_line(out, &crates[i]);
        proof {
            lemma_lines_step(all, i as int, crate_line());
            assert(out@ =~= base + lines(all.take(i + 1), crate_line()));
        }
        i = i + 1;
    }
    assert(all.take(i as int) =~= all);
    out.append("\"\n\n");
    let ghost middle = out@;
    let mut j: usize = 0;
    assert(lines(all.take(0), checksum_line()) =~= Seq::<char>::empty());
    while j < crates.len()
        invariant
            all == crates.deep_view(),
            j <= crates@.len(),
            out@ == middle + lines(all.take(j as int), checksum_line()),
        decreases crates@.len() - j,
    {
        write_checksum_line(out, &crates[j]);
        proof {
            lemma_lines_step(all, j as int, checksum_line());
            assert(out@ =~= middle + lines(all.take(j + 1), checksum_line()));
        }
        j = j + 1;
    }
    assert(all.take(j as int) =~= all);
    out.append("\n");
    assert(out@ =~= old(out)@ + crates_section(all));
}

/// Where a repository is fetched from.
pub open spec fn repo_line() -> spec_fn(GitRepoView) -> Seq<char> {
    |r: GitRepoView|
        "    "@ + replace_all(r.url, "https://"@, "git://"@) + ";protocol=https;nobranch=1;name="@
            + r.name + ";destsuffix="@ + r.name + " \\\n"@
}

/// Which revision of a repository is fetched.
pub open spec fn revision_lines() -> spec_fn(GitRepoView) -> Seq<char> {
    |r: GitRepoView|
        "SRCREV_FORMAT .= \"_"@ + r.name + "\"\nSRCREV_"@ + r.name + " = \""@ + r.rev + "\"\n\n"@
}

/// The section that fetches repositories; nothing when there are none.
pub open spec fn git_repos_section(repos: Seq<GitRepoView>) -> Seq<char> {
    if repos.len() == 0 {
        Seq::empty()
    } else {
        "SRC_URI += \" \\\n"@ + lines(repos, repo_line()) + "\"\n\n"@ + lines(
            repos,
            revision_lines(),
        )
    }
}

fn write_repo_line(out: &mut String, r: &GitRepo)
    ensures
        final(out)@ == old(out)@ + repo_line()(r.deep_view()),
{
    proof {
        reveal_strlit("https://");
    }
    let git_url: String = replaced(r.url.as_str(), "https://", "git://");
    out.append("    ");
    out.append(git_url.as_str());
    out.append(";protocol=https;nobranch=1;name=");
    out.append(r.name.as_str());
    out.append(";destsuffix=");
    out.append(r.name.as_str());
    out.append(" \\\n");
    assert(out@ =~= old(out)@ + repo_line()(r.deep_view()));
}

fn write_revision_lines(out: &mut String, r: &GitRepo)
    ensures
        final(out)@ == old(out)@ + revision_lines()(r.deep_view()),
{
    out.append("SRCREV_FORMAT .= \"_");
    out.append(r.name.as_str());
    out.append("\"\nSRCREV_");
    out.append(r.name.as_str());
    out.append(" = \"");
    out.append(r.rev.as_str());
    out.append("\"\n\n");
    assert(out@ =~= old(out)@ + revision_lines()(r.deep_view()));
}

/// Appends the section that fetches repositories.
pub fn write_git_repos_section(out: &mut String, repos: &[GitRepo])
    ensures
        final(out)@ == old(out)@ + git_repos_section(repos.deep_view()),
{
    let ghost all = repos.deep_view();
    if repos.len() == 0 {
        assert(out@ =~= old(out)@ + Seq::<char>::empty());
        return;
    }
    out.append("SRC_URI += \" \\\n");
    let ghost base = out@;
    let mut i: usize = 0;
    assert(lines(all.take(0), repo_line()) =~= Seq::<char>::empty());
    while i < repos.len()
        invariant
            all == repos.deep_view(),
            i <= repos@.len(),
            out@ == base + lines(all.take(i as int), repo_line()),
        decreases repos@.len() - i,
    {
        write_repo_line(out, &repos[i]);
        proof {
            lemma_lines_step(all, i as int, repo_line());
            assert(out@ =~= base + lines(all.take(i + 1), repo_line()));
        }
        i = i + 1;
    }
    assert(all.take(i as int) =~= all);
    out.append("\"\n\n");
    let ghost middle = out@;
    let mut j: usize = 0;
    assert(lines(all.take(0), revision_lines()) =~= Seq::<char>::empty());
    while j < repos.len()
        invariant
            all == repos.deep_view(),
            j <= repos@.len(),
            out@ == middle + lines(all.take(j as int), revision_lines()),
        decreases repos@.len() - j,
    {
        write_revision_lines(out, &repos[j]);
        proof {
            lemma_lines_step(all, j as int, revision_lines());
            assert(out@ =~= middle + lines(all.take(j + 1), revision_lines()));
        }
        j = j + 1;
    }
    assert(all.take(j as int) =~= all);
    assert(out@ =~= old(out)@ + git_repos_section(all));
}

/// An address as sed takes it between slashes.
pub open spec fn escaped_url(url: Seq<char>) -> Seq<char> {
    replace_all(replace_all(url, "/"@, "\\/"@), "."@, "\\."@)
}

/// Removes the patch block of a repository from Cargo's configuration.
pub open spec fn patch_line() -> spec_fn(GitRepoView) -> Seq<char> {
    |r: GitRepoView|
        "      -e '/^\\[patch\\.\""@ + escaped_url(r.url) + "\"\\]/,/^$/d' \\\n"@
}

/// The step that removes the patch blocks of repositories from Cargo's configuration.
pub open spec fn config_patch_section(repos: Seq<GitRepoView>) -> Seq<char> {
    "    cfg=\"${WORKDIR}/cargo_home/config.toml\"\n\n"@
        + "    # Remove autogenerated [patch.\"...\"] blocks that break workspace crates\n"@
        + "    sed -i \\\n"@ + lines(repos, patch_line()) + "      \"$cfg\"\n\n"@
}

fn write_patch_line(out: &mut String, r: &GitRepo)
    ensures
        final(out)@ == old(out)@ + patch_line()(r.deep_view()),
{
    proof {
        reveal_strlit("/");
        reveal_strlit(".");
    }
    let slashes: String = replaced(r.url.as_str(), "/", "\\/");
    let escaped: String = replaced(slashes.as_str(), ".", "\\.");
    out.append("      -e '/^\\[patch\\.\"");
    out.append(escaped.as_str());
    out.append("\"\\]/,/^$/d' \\\n");
    assert(out@ =~= old(out)@ + patch_line()(r.deep_view()));
}

/// Appends the step that removes the patch blocks of repositories from Cargo's configuration.
pub fn write_config_patch_section(out: &mut String, repos: &[&GitRepo])
    ensures
        final(out)@ == old(out)@ + config_patch_section(repos.deep_view()),
{
    let ghost all = repos.deep_view();
    out.append("    cfg=\"${WORKDIR}/cargo_home/config.toml\"\n\n");
    out.append("    # Remove autogenerated [patch.\"...\"] blocks that break workspace crates\n");
    out.append("    sed -i \\\n");
    let ghost base = out@;
    let mut i: usize = 0;
    assert(lines(all.take(0), patch_line()) =~= Seq::<char>::empty());
    while i < repos.len()
        invariant
            all == repos.deep_view(),
            i <= repos@.len(),
            out@ == base + lines(all.take(i as int), patch_line()),
        decreases repos@.len() - i,
    {
        write_patch_line(out, repos[i]);
        proof {
            lemma_lines_step(all, i as int, patch_line());
            assert(out@ =~= base + lines(all.take(i + 1), patch_line()));
        }
        i = i + 1;
    }
    assert(all.take(i as int) =~= all);
    out.append("      \"$cfg\"\n\n");
    assert(out@ =~= old(out)@ + config_patch_section(all));
}

/// Points the dependency on a crate to the place where the crate lies.
pub open spec fn path_line(c: GitCrateView) -> Seq<char> {
    "      -e 's/\\("@ + c.name + " = {[^}]*\\)git = \"[^\"]*\"/\\1path = \""@ + replace_all(
        c.local_path(),
        "/"@,
        "\\/"@,
    ) + "\"/g' \\\n"@
}

/// Removes an attribute from the dependency on a crate.
pub open spec fn attribute_line(c: GitCrateView, attr: Seq<char>) -> Seq<char> {
    "      -e 's/\\("@ + c.name + " = {[^}]*\\), *"@ + attr + " = \"[^\"]*\"/\\1/g' \\\n"@
}

/// Turns the dependency on a crate of a repository into one on a place on disk.
pub open spec fn rewrite_lines() -> spec_fn(GitCrateView) -> Seq<char> {
    |c: GitCrateView|
        path_line(c) + attribute_line(c, "rev"@) + attribute_line(c, "branch"@) + attribute_line(
            c,
            "tag"@,
        )
}

/// The step that turns dependencies on repositories into ones on places on disk.
pub open spec fn cargo_rewrite_section(crates: Seq<GitCrateView>) -> Seq<char> {
    "    # Rewrite git dependencies to local paths for offline build\n"@ + "    sed -i \\\n"@
        + lines(crates, rewrite_lines()) + "      \"${S}/Cargo.toml\"\n"@
}

fn write_path_line(out: &mut String, c: &GitCrate)
    ensures
        final(out)@ == old(out)@ + path_line(c.deep_view()),
{
    proof {
        reveal_strlit("/");
    }
    let local: String = c.local_path();
    let escaped: String = replaced(local.as_str(), "/", "\\/");
    out.append("      -e 's/\\(");
    out.append(c.name.as_str());
    out.append(" = {[^}]*\\)git = \"[^\"]*\"/\\1path = \"");
    out.append(escaped.as_str());
    out.append("\"/g' \\\n");
    assert(out@ =~= old(out)@ + path_line(c.deep_view()));
}

fn write_attribute_line(out: &mut String, c: &GitCrate, attr: &str)
    ensures
        final(out)@ == old(out)@ + attribute_line(c.deep_view(), attr@),
{
    out.append("      -e 's/\\(");
    out.append(c.name.as_str());
    out.append(" = {[^}]*\\), *");
    out.append(attr);
    out.append(" = \"[^\"]*\"/\\1/g' \\\n");
    assert(out@ =~= old(out)@ + attribute_line(c.deep_view(), attr@));
}

/// Appends the step that turns dependencies on repositories into ones on places on disk.
pub fn write_cargo_rewrite_section(out: &mut String, crates: &[GitCrate])
    ensures
        final(out)@ == old(out)@ + cargo_rewrite_section(crates.deep_view()),
{
    let ghost all = crates.deep_view();
    out.append("    # Rewrite git dependencies to local paths for offline build\n");
    out.append("    sed -i \\\n");
    let ghost base = out@;
    let mut i: usize = 0;
    assert(lines(all.take(0), rewrite_lines()) =~= Seq::<char>::empty());
    while i < crates.len()
        invariant
            all == crates.deep_view(),
            i <= crates@.len(),
            out@ == base + lines(all.take(i as int), rewrite_lines()),
        decreases crates@.len() - i,
    {
        let ghost before = out@;
        write_path_line(out, &crates[i]);
        write_attribute_line(out, &crates[i], "rev");
        write_attribute_line(out, &crates[i], "branch");
        write_attribute_line(out, &crates[i], "tag");
        proof {
            lemma_lines_step(all, i as int, rewrite_lines());
            assert(out@ =~= before + rewrite_lines()(all[i as int]));
            assert(out@ =~= base + lines(all.take(i + 1), rewrite_lines()));
        }
        i = i + 1;
    }
    assert(all.take(i as int) =~= all);
    out.append("      \"${S}/Cargo.toml\"\n");
    assert(out@ =~= old(out)@ + cargo_rewrite_section(all));
}

/// There are items.
pub open spec fn has_items<T>(items: Option<Seq<T>>) -> bool {
    items matches Some(s) && s.len() > 0
}

/// The steps before the build; nothing when there is neither a repository nor a crate of one.
pub open spec fn do_compile_prepend(
    repos: Option<Seq<GitRepoView>>,
    crates: Option<Seq<GitCrateView>>,
) -> Seq<char> {
    if !has_items(repos) && !has_items(crates) {
        Seq::empty()
    } else {
        "do_compile:prepend() {\n"@ + (if has_items(repos) {
            config_patch_section(repos->Some_0)
        } else {
            Seq::empty()
        }) + (if has_items(crates) {
            cargo_rewrite_section(crates->Some_0)
        } else {
            Seq::empty()
        }) + "}\n"@
    }
}

/// Appends the steps before the build.
pub fn write_do_compile_prepend(
    out: &mut String,
    all_git_for_patch: Option<&[&GitRepo]>,
    git_crates_for_rewrite: Option<&[GitCrate]>,
)
    ensures
        final(out)@ == old(out)@ + do_compile_prepend(
            all_git_for_patch.deep_view(),
            git_crates_for_rewrite.deep_view(),
        ),
{
    let has_config_patch = match all_git_for_patch {
        Some(repos) => repos.len() > 0,
        None => false,
    };
    let has_cargo_rewrite = match git_crates_for_rewrite {
        Some(crates) => crates.len() > 0,
        None => false,
    };
    if !has_config_patch && !has_cargo_rewrite {
        assert(out@ =~= old(out)@ + Seq::<char>::empty());
        return;
    }
    out.append("do_compile:prepend() {\n");
    if has_config_patch {
        if let Some(repos) = all_git_for_patch {
            write_config_patch_section(out, repos);
        }
    }
    if has_cargo_rewrite {
        if let Some(crates) = git_crates_for_rewrite {
            write_cargo_rewrite_section(out, crates);
        }
    }
    out.append("}\n");
    assert(out@ =~= old(out)@ + do_compile_prepend(
        all_git_for_patch.deep_view(),
        git_crates_for_rewrite.deep_view(),
    ));
}

/// The text of a fragment.
pub open spec fn inc_text(
    pkg: Seq<char>,
    kind: Seq<char>,
    crates: Seq<CrateInfoView>,
    git_repos: Seq<GitRepoView>,
    all_git_for_patch: Option<Seq<GitRepoView>>,
    git_crates_for_rewrite: Option<Seq<GitCrateView>>,
) -> Seq<char> {
    "# Autogenerated for '"@ + pkg + "' ("@ + kind + ")\n\n"@ + crates_section(crates)
        + git_repos_section(git_repos) + do_compile_prepend(
        all_git_for_patch,
        git_crates_for_rewrite,
    )
}

/// The text of a fragment.
pub fn inc_file_text(
    pkg: &str,
    kind: &str,
    crates: &[CrateInfo],
    git_repos: &[GitRepo],
    all_git_for_patch: Option<&[&GitRepo]>,
    git_crates_for_rewrite: Option<&[GitCrate]>,
) -> (r: String)
    ensures
        r@ == inc_text(
            pkg@,
            kind@,
            crates.deep_view(),
            git_repos.deep_view(),
            all_git_for_patch.deep_view(),
            git_crates_for_rewrite.deep_view(),
        ),
{
    let mut out: String = String::new();
    out.append("# Autogenerated for '");
    out.append(pkg);
    out.append("' (");
    out.append(kind);
    out.append(")\n\n");
    assert(out@ =~= "# Autogenerated for '"@ + pkg@ + "' ("@ + kind@ + ")\n\n"@);
    write_crates_section(&mut out, crates);
    write_git_repos_section(&mut out, git_repos);
    write_do_compile_prepend(&mut out, all_git_for_patch, git_crates_for_rewrite);
    out
}

proof fn lemma_has_itself(s: Seq<char>)
    ensures
        has_text(s, s),
{
    assert(s.subrange(0int, 0int + s.len()) =~= s);
}

/// The lines of some items have the line of each of them.
pub proof fn lemma_lines_have_each<T>(items: Seq<T>, line: spec_fn(T) -> Seq<char>, i: int)
    requires
        0 <= i < items.len(),
    ensures
        has_text(lines(items, line), line(items[i])),
    decreases items.len(),
{
    let front = lines(items.drop_last(), line);
    let last = line(items.last());
    if i == items.len() - 1 {
        lemma_has_itself(last);
        lemma_has_text_within(front, last, Seq::empty(), last);
        assert(front + last + Seq::<char>::empty() =~= lines(items, line));
    } else {
        lemma_lines_have_each(items.drop_last(), line, i);
        lemma_has_text_within(Seq::empty(), front, last, line(items[i]));
        assert(Seq::<char>::empty() + front + last =~= lines(items, line));
    }
}

/// A fragment fetches each of its crates, and tells what it must hash to.
pub proof fn lemma_fragment_has_crate(
    pkg: Seq<char>,
    kind: Seq<char>,
    crates: Seq<CrateInfoView>,
    git_repos: Seq<GitRepoView>,
    patch: Option<Seq<GitRepoView>>,
    rewrite: Option<Seq<GitCrateView>>,
    i: int,
)
    requires
        0 <= i < crates.len(),
    ensures
        has_text(
            inc_text(pkg, kind, crates, git_repos, patch, rewrite),
            crate_line()(crates[i]),
        ),
        has_text(
            inc_text(pkg, kind, crates, git_repos, patch, rewrite),
            checksum_line()(crates[i]),
        ),
{
    let all = inc_text(pkg, kind, crates, git_repos, patch, rewrite);
    let fetch = lines(crates, crate_line());
    let sums = lines(crates, checksum_line());
    let head = "# Autogenerated for '"@ + pkg + "' ("@ + kind + ")\n\n"@;
    let tail = git_repos_section(git_repos) + do_compile_prepend(patch, rewrite);
    lemma_lines_have_each(crates, crate_line(), i);
    lemma_lines_have_each(crates, checksum_line(), i);
    let a = head + "SRC_URI += \" \\\n"@;
    let c = "\"\n\n"@ + sums + "\n"@ + tail;
    lemma_has_text_within(a, fetch, c, crate_line()(crates[i]));
    assert(a + fetch + c =~= all);
    let d = a + fetch + "\"\n\n"@;
    let e = "\n"@ + tail;
    lemma_has_text_within(d, sums, e, checksum_line()(crates[i]));
    assert(d + sums + e =~= all);
}

/// A fragment fetches each of its repositories, at its revision.
pub proof fn lemma_fragment_has_repo(
    pkg: Seq<char>,
    kind: Seq<char>,
    crates: Seq<CrateInfoView>,
    git_repos: Seq<GitRepoView>,
    patch: Option<Seq<GitRepoView>>,
    rewrite: Option<Seq<GitCrateView>>,
    i: int,
)
    requires
        0 <= i < git_repos.len(),
    ensures
        has_text(
            inc_text(pkg, kind, crates, git_repos, patch, rewrite),
            repo_line()(git_repos[i]),
        ),
        has_text(
            inc_text(pkg, kind, crates, git_repos, patch, rewrite),
            revision_lines()(git_repos[i]),
        ),
{
    let all = inc_text(pkg, kind, crates, git_repos, patch, rewrite);
    let fetch = lines(git_repos, repo_line());
    let revisions = lines(git_repos, revision_lines());
    let head = "# Autogenerated for '"@ + pkg + "' ("@ + kind + ")\n\n"@ + crates_section(crates);
    let tail = do_compile_prepend(patch, rewrite);
    lemma_lines_have_each(git_repos, repo_line(), i);
    lemma_lines_have_each(git_repos, revision_lines(), i);
    let a = head + "SRC_URI += \" \\\n"@;
    let c = "\"\n\n"@ + revisions + tail;
    lemma_has_text_within(a, fetch, c, repo_line()(git_repos[i]));
    assert(a + fetch + c =~= all);
    let d = a + fetch + "\"\n\n"@;
    lemma_has_text_within(d, revisions, tail, revision_lines()(git_repos[i]));
    assert(d + revisions + tail =~= all);
}

/// A fragment removes the patch block of each repository that it is to remove.
pub proof fn lemma_fragment_has_patch(
    pkg: Seq<char>,
    kind: Seq<char>,
    crates: Seq<CrateInfoView>,
    git_repos: Seq<GitRepoView>,
    patch: Seq<GitRepoView>,
    rewrite: Option<Seq<GitCrateView>>,
    i: int,
)
    requires
        0 <= i < patch.len(),
    ensures
        has_text(
            inc_text(pkg, kind, crates, git_repos, Some(patch), rewrite),
            patch_line()(patch[i]),
        ),
{
    let line = patch_line()(patch[i]);
    let body = lines(patch, patch_line());
    lemma_lines_have_each(patch, patch_line(), i);
    let section = config_patch_section(patch);
    let before = "    cfg=\"${WORKDIR}/cargo_home/config.toml\"\n\n"@
        + "    # Remove autogenerated [patch.\"...\"] blocks that break workspace crates\n"@
        + "    sed -i \\\n"@;
    lemma_has_text_within(before, body, "      \"$cfg\"\n\n"@, line);
    let steps = do_compile_prepend(Some(patch), rewrite);
    let after = (if has_items(rewrite) {
        cargo_rewrite_section(rewrite->Some_0)
    } else {
        Seq::empty()
    }) + "}\n"@;
    lemma_has_text_within("do_compile:prepend() {\n"@, section, after, line);
    assert("do_compile:prepend() {\n"@ + section + after =~= steps);
    lemma_fragment_has_steps(pkg, kind, crates, git_repos, Some(patch), rewrite, line);
}

/// A fragment has what its steps before the build have.
proof fn lemma_fragment_has_steps(
    pkg: Seq<char>,
    kind: Seq<char>,
    crates: Seq<CrateInfoView>,
    git_repos: Seq<GitRepoView>,
    patch: Option<Seq<GitRepoView>>,
    rewrite: Option<Seq<GitCrateView>>,
    line: Seq<char>,
)
    requires
        has_text(do_compile_prepend(patch, rewrite), line),
    ensures
        has_text(inc_text(pkg, kind, crates, git_repos, patch, rewrite), line),
{
    let head = "# Autogenerated for '"@ + pkg + "' ("@ + kind + ")\n\n"@ + crates_section(crates)
        + git_repos_section(git_repos);
    let steps = do_compile_prepend(patch, rewrite);
    lemma_has_text_within(head, steps, Seq::empty(), line);
    assert(head + steps + Seq::<char>::empty() =~= head + steps);
}

/// A fragment points the dependency on each crate that it is to rewrite to its place on disk.
pub proof fn lemma_fragment_has_rewrite(
    pkg: Seq<char>,
    kind: Seq<char>,
    crates: Seq<CrateInfoView>,
    git_repos: Seq<GitRepoView>,
    patch: Option<Seq<GitRepoView>>,
    rewrite: Seq<GitCrateView>,
    i: int,
)
    requires
        0 <= i < rewrite.len(),
    ensures
        has_text(
            inc_text(pkg, kind, crates, git_repos, patch, Some(rewrite)),
            rewrite_lines()(rewrite[i]),
        ),
{
    let line = rewrite_lines()(rewrite[i]);
    let body = lines(rewrite, rewrite_lines());
    lemma_lines_have_each(rewrite, rewrite_lines(), i);
    let section = cargo_rewrite_section(rewrite);
    let before = "    # Rewrite git dependencies to local paths for offline build\n"@
        + "    sed -i \\\n"@;
    lemma_has_text_within(before, body, "      \"${S}/Cargo.toml\"\n"@, line);
    let start = "do_compile:prepend() {\n"@ + (if has_items(patch) {
        config_patch_section(patch->Some_0)
    } else {
        Seq::empty()
    });
    lemma_has_text_within(start, section, "}\n"@, line);
    lemma_fragment_has_steps(pkg, kind, crates, git_repos, patch, Some(rewrite), line);
}

/// A fragment for nothing is its first line.
pub proof fn lemma_fragment_of_nothing(pkg: Seq<char>, kind: Seq<char>)
    ensures
        inc_text(
            pkg,
            kind,
            Seq::empty(),
            Seq::empty(),
            Some(Seq::empty()),
            Some(Seq::empty()),
        ) == "# Autogenerated for '"@ + pkg + "' ("@ + kind + ")\n\n"@,
{
    let head = "# Autogenerated for '"@ + pkg + "' ("@ + kind + ")\n\n"@;
    let nothing = Seq::<char>::empty();
    assert(head + nothing + nothing + nothing =~= head);
}

/// A backslash stands before each `c` of the text.
pub open spec fn is_escaped(s: Seq<char>, c: char) -> bool {
    forall|i: int| 0 <= i < s.len() && #[trigger] s[i] == c ==> i > 0 && s[i - 1] == '\\'
}

/// A backslash stands before each `c` of the text but one at its start.
spec fn is_escaped_inside(s: Seq<char>, c: char) -> bool {
    forall|i: int| 0 < i < s.len() && #[trigger] s[i] == c ==> s[i - 1] == '\\'
}

/// Putting a backslash before each `c` leaves no `c` without one.
pub proof fn lemma_replace_escapes(s: Seq<char>, c: char)
    requires
        c != '\\',
    ensures
        is_escaped(replace_all(s, seq![c], seq!['\\', c]), c),
    decreases s.len(),
{
    let e = replace_all(s, seq![c], seq!['\\', c]);
    if s.len() > 0 {
        let rest = replace_all(s.skip(1), seq![c], seq!['\\', c]);
        lemma_replace_escapes(s.skip(1), c);
        lemma_prefix_of_one(s, c);
        let first = if s[0] == c {
            seq!['\\', c]
        } else {
            seq![s[0]]
        };
        assert(e == first + rest);
        assert forall|i: int| 0 <= i < e.len() && #[trigger] e[i] == c implies i > 0 && e[i - 1]
            == '\\' by {
            if i >= first.len() {
                assert(rest[i - first.len()] == c);
                assert(rest[i - first.len() - 1] == '\\');
            }
        }
    }
}

proof fn lemma_prefix_of_one(s: Seq<char>, c: char)
    requires
        s.len() > 0,
    ensures
        seq![c].is_prefix_of(s) <==> s[0] == c,
{
    if s[0] == c {
        assert(s.subrange(0, 1) =~= seq![c]);
    } else {
        assert(s.subrange(0, 1)[0] != c);
    }
}

proof fn lemma_replace_keeps_inside(s: Seq<char>, c: char, d: char)
    requires
        c != '\\',
        d != '\\',
        c != d,
        is_escaped_inside(s, d),
    ensures
        is_escaped_inside(replace_all(s, seq![c], seq!['\\', c]), d),
        s.len() > 0 ==> replace_all(s, seq![c], seq!['\\', c]).len() > 0,
        s.len() == 0 ==> replace_all(s, seq![c], seq!['\\', c]).len() == 0,
        s.len() > 0 && s[0] != d ==> replace_all(s, seq![c], seq!['\\', c])[0] != d,
    decreases s.len(),
{
    let e = replace_all(s, seq![c], seq!['\\', c]);
    if s.len() > 0 {
        let t = s.skip(1);
        let rest = replace_all(t, seq![c], seq!['\\', c]);
        assert(is_escaped_inside(t, d)) by {
            assert forall|i: int| 0 < i < t.len() && #[trigger] t[i] == d implies t[i - 1]
                == '\\' by {
                assert(s[i + 1] == d);
            }
        }
        lemma_replace_keeps_inside(t, c, d);
        lemma_prefix_of_one(s, c);
        let first = if s[0] == c {
            seq!['\\', c]
        } else {
            seq![s[0]]
        };
        assert(e == first + rest);
        assert forall|i: int| 0 < i < e.len() && #[trigger] e[i] == d implies e[i - 1] == '\\' by {
            if i > first.len() {
                assert(rest[i - first.len()] == d);
                assert(rest[i - first.len() - 1] == '\\');
            } else if i == first.len() {
                assert(rest[0] == d);
                assert(t[0] == d);
                assert(s[1] == d);
                assert(s[0] == '\\');
            }
        }
    }
}

/// Putting a backslash before each `c` takes none away from a `d`.
pub proof fn lemma_replace_keeps_escaped(s: Seq<char>, c: char, d: char)
    requires
        c != '\\',
        d != '\\',
        c != d,
        is_escaped(s, d),
    ensures
        is_escaped(replace_all(s, seq![c], seq!['\\', c]), d),
{
    let e = replace_all(s, seq![c], seq!['\\', c]);
    assert(is_escaped_inside(s, d));
    lemma_replace_keeps_inside(s, c, d);
    assert forall|i: int| 0 <= i < e.len() && #[trigger] e[i] == d implies i > 0 && e[i - 1]
        == '\\' by {
        if i == 0 {
            assert(s.len() > 0);
            assert(s[0] == d);
        }
    }
}

/// In an address as sed takes it no `/` ends the pattern, and no `.` stands for another character.
pub proof fn lemma_escaped_url(url: Seq<char>)
    ensures
        is_escaped(escaped_url(url), '/'),
        is_escaped(escaped_url(url), '.'),
{
    reveal_strlit("/");
    reveal_strlit("\\/");
    reveal_strlit(".");
    reveal_strlit("\\.");
    assert("/"@ =~= seq!['/']);
    assert("\\/"@ =~= seq!['\\', '/']);
    assert("."@ =~= seq!['.']);
    assert("\\."@ =~= seq!['\\', '.']);
    let slashes = replace_all(url, "/"@, "\\/"@);
    lemma_replace_escapes(url, '/');
    lemma_replace_escapes(slashes, '.');
    lemma_replace_keeps_escaped(slashes, '.', '/');
}

} // verus!
