//! Reading the lock file.
use crate::error::RecipeError;
use crate::model::{
    CrateId, CrateIdView, LockPackage, LockPackageView, LockSource, SourceKind,
};
use crate::order::OrderedMap;
use crate::text::{
    before_first, before_first_of, chars_of, contains_text, has_text, pieces, pieces_of,
};
use cargo_lock::package::SourceKind as Kind;
use cargo_lock::{Error, Lockfile};
use vstd::prelude::*;

verus! {

/// What the lock file with that text holds: its packages in their order, or why it is no lock file.
pub uninterp spec fn lockfile_contents(text: Seq<char>) -> Result<Seq<LockPackageView>, Seq<char>>;

/// How many bytes a character takes in UTF-8.
pub open spec fn width(c: char) -> nat {
    if c <= '\u{7f}' {
        1
    } else if c <= '\u{7ff}' {
        2
    } else if c <= '\u{ffff}' {
        3
    } else {
        4
    }
}

/// How many bytes a text takes in UTF-8.
pub open spec fn byte_len(s: Seq<char>) -> nat
    decreases s.len(),
{
    if s.len() == 0 {
        0
    } else {
        byte_len(s.drop_last()) + width(s.last())
    }
}

/// The text has as many bytes as a checksum has digits, but fewer characters.
pub open spec fn is_torn(s: Seq<char>) -> bool {
    byte_len(s) == 64 && s.len() != 64
}

/// A torn text stands between two quotes of the line.
pub open spec fn has_torn(line: Seq<char>, quote: char) -> bool {
    exists|i: int|
        0 < i < pieces(line, quote).len() - 1 && is_torn(#[trigger] pieces(line, quote)[i])
}

/// The text holds ASCII characters only.
pub open spec fn is_ascii(s: Seq<char>) -> bool {
    forall|i: int| 0 <= i < s.len() ==> (#[trigger] s[i]) <= '\u{7f}'
}

/// The text holds no escape that stands for a character by its number.
pub open spec fn has_no_codes(s: Seq<char>) -> bool {
    !has_text(s, "\\u"@) && !has_text(s, "\\U"@) && !has_text(s, "\\x"@)
}

/// Only a comment stands on the line.
pub open spec fn is_comment(line: Seq<char>) -> bool {
    exists|i: int|
        0 <= i < line.len() && #[trigger] line[i] == '#' && forall|j: int|
            0 <= j < i ==> line[j] == ' ' || line[j] == '\t'
}

/// What stands before the first `=` of the line holds the word, or an escape that may hide it.
pub open spec fn may_name(line: Seq<char>, word: Seq<char>) -> bool {
    &&& !is_comment(line)
    &&& line.contains('=')
    &&& has_text(before_first(line, '='), word) || !has_no_codes(before_first(line, '='))
}

/// The line may give the packages, the root package or the metadata as a value in brackets or
/// braces. A checksum inside such a value may have no key, or one on another line.
pub open spec fn may_nest(line: Seq<char>) -> bool {
    may_name(line, "package"@) || may_name(line, "root"@) || may_name(line, "metadata"@)
}

/// Some line of the text may give checksums inside a value in brackets or braces.
pub open spec fn may_be_nested(text: Seq<char>) -> bool {
    exists|i: int| 0 <= i < pieces(text, '\n').len() && may_nest(#[trigger] pieces(text, '\n')[i])
}

/// No string on the line is torn, and none goes on on the next one.
pub open spec fn is_whole_line(line: Seq<char>) -> bool {
    &&& !has_text(line, "\"\"\""@)
    &&& !has_text(line, "'''"@)
    &&& has_no_codes(line)
    &&& is_ascii(line) || (!line.contains('\\') && !has_torn(line, '"') && !has_torn(line, '\''))
}

/// No checksum that begins on the line is torn. Unless one may be inside a value in brackets or
/// braces (`nested`), a checksum begins on the line that its key is at the start of.
pub open spec fn is_safe_line(line: Seq<char>, nested: bool) -> bool {
    if nested {
        is_comment(line) || is_whole_line(line)
    } else {
        may_name(line, "checksum"@) ==> is_whole_line(line)
    }
}

/// No checksum in the text of a lock file is torn: no string in it can be other than ASCII, or
/// every line is safe.
pub open spec fn has_whole_checksums(text: Seq<char>) -> bool {
    ||| is_ascii(text) && has_no_codes(text)
    ||| forall|i: int|
        0 <= i < pieces(text, '\n').len() ==> is_safe_line(
            #[trigger] pieces(text, '\n')[i],
            may_be_nested(text),
        )
}

proof fn lemma_byte_len(s: Seq<char>)
    ensures
        byte_len(s) >= s.len(),
    decreases s.len(),
{
    if s.len() > 0 {
        lemma_byte_len(s.drop_last());
    }
}

fn is_torn_text(piece: &str) -> (r: bool)
    ensures
        r == is_torn(piece@),
{
    let cs = chars_of(piece);
    proof {
        lemma_byte_len(piece@);
    }
    if cs.len() >= 64 {
        return false;
    }
    let mut n: usize = 0;
    let mut i: usize = 0;
    while i < cs.len()
        invariant
            cs@ == piece@,
            i <= cs@.len() < 64,
            n == byte_len(piece@.take(i as int)),
            n <= 4 * i,
        decreases cs@.len() - i,
    {
        assert(piece@.take(i + 1).drop_last() =~= piece@.take(i as int));
        let c: char = cs[i];
        n = n + if c <= '\u{7f}' {
            1
        } else if c <= '\u{7ff}' {
            2
        } else if c <= '\u{ffff}' {
            3
        } else {
            4
        };
        i = i + 1;
    }
    assert(piece@.take(i as int) =~= piece@);
    n == 64
}

fn has_torn_text(line: &str, quote: char) -> (r: bool)
    ensures
        r == has_torn(line@, quote),
{
    let parts = pieces_of(line, quote);
    let ghost all = parts.deep_view();
    if parts.len() < 3 {
        return false;
    }
    let end: usize = parts.len() - 1;
    let mut i: usize = 1;
    while i < end
        invariant
            all == parts.deep_view(),
            all == pieces(line@, quote),
            all.len() == parts@.len(),
            end == parts@.len() - 1,
            1 <= i <= end,
            forall|j: int| 0 < j < i ==> !is_torn(#[trigger] all[j]),
        decreases end - i,
    {
        assert(all[i as int] == parts@[i as int]@);
        if is_torn_text(parts[i]) {
            return true;
        }
        i = i + 1;
    }
    false
}

fn is_ascii_text(text: &str) -> (r: bool)
    ensures
        r == is_ascii(text@),
{
    let cs = chars_of(text);
    let mut i: usize = 0;
    while i < cs.len()
        invariant
            cs@ == text@,
            i <= cs@.len(),
            forall|j: int| 0 <= j < i ==> (#[trigger] cs@[j]) <= '\u{7f}',
        decreases cs@.len() - i,
    {
        if cs[i] > '\u{7f}' {
            assert(!(text@[i as int] <= '\u{7f}'));
            return false;
        }
        i = i + 1;
    }
    true
}

fn lacks_codes(text: &str) -> (r: bool)
    ensures
        r == has_no_codes(text@),
{
    !contains_text(text, "\\u") && !contains_text(text, "\\U") && !contains_text(text, "\\x")
}

fn has_char(line: &str, c: char) -> (r: bool)
    ensures
        r == line@.contains(c),
{
    let cs = chars_of(line);
    let mut i: usize = 0;
    while i < cs.len()
        invariant
            cs@ == line@,
            i <= cs@.len(),
            forall|j: int| 0 <= j < i ==> (#[trigger] cs@[j]) != c,
        decreases cs@.len() - i,
    {
        if cs[i] == c {
            assert(line@[i as int] == c);
            return true;
        }
        i = i + 1;
    }
    false
}

fn is_comment_line(line: &str) -> (r: bool)
    ensures
        r == is_comment(line@),
{
    let cs = chars_of(line);
    let mut i: usize = 0;
    while i < cs.len() && (cs[i] == ' ' || cs[i] == '\t')
        invariant
            cs@ == line@,
            i <= cs@.len(),
            forall|j: int| 0 <= j < i ==> (#[trigger] cs@[j]) == ' ' || cs@[j] == '\t',
        decreases cs@.len() - i,
    {
        i = i + 1;
    }
    let r: bool = i < cs.len() && cs[i] == '#';
    proof {
        if r {
            assert(line@[i as int] == '#');
        } else if is_comment(line@) {
            let k: int = choose|k: int|
                0 <= k < line@.len() && #[trigger] line@[k] == '#' && forall|j: int|
                    0 <= j < k ==> line@[j] == ' ' || line@[j] == '\t';
            if k > i {
                assert(line@[i as int] == ' ' || line@[i as int] == '\t');
            }
        }
    }
    r
}

fn may_hold_name(line: &str, word: &str) -> (r: bool)
    ensures
        r == may_name(line@, word@),
{
    let key = before_first_of(line, '=');
    !is_comment_line(line) && has_char(line, '=') && (contains_text(key, word)
        || !lacks_codes(key))
}

fn may_open_nest(line: &str) -> (r: bool)
    ensures
        r == may_nest(line@),
{
    may_hold_name(line, "package") || may_hold_name(line, "root") || may_hold_name(line, "metadata")
}

fn is_whole(line: &str) -> (r: bool)
    ensures
        r == is_whole_line(line@),
{
    if contains_text(line, "\"\"\"") || contains_text(line, "'''") || !lacks_codes(line) {
        return false;
    }
    is_ascii_text(line) || (!has_char(line, '\\') && !has_torn_text(line, '"') && !has_torn_text(
        line,
        '\'',
    ))
}

fn is_safe(line: &str, nested: bool) -> (r: bool)
    ensures
        r == is_safe_line(line@, nested),
{
    if nested {
        is_comment_line(line) || is_whole(line)
    } else {
        !may_hold_name(line, "checksum") || is_whole(line)
    }
}

/// Whether no checksum in the text of a lock file is torn.
pub fn checksums_are_whole(text: &str) -> (r: bool)
    ensures
        r == has_whole_checksums(text@),
{
    if is_ascii_text(text) && lacks_codes(text) {
        return true;
    }
    let lines = pieces_of(text, '\n');
    let ghost all = lines.deep_view();
    let mut nested: bool = false;
    let mut i: usize = 0;
    while i < lines.len()
        invariant
            all == lines.deep_view(),
            all == pieces(text@, '\n'),
            all.len() == lines@.len(),
            i <= lines@.len(),
            nested == exists|j: int| 0 <= j < i && may_nest(#[trigger] all[j]),
        decreases lines@.len() - i,
    {
        let ghost before = nested;
        assert(all[i as int] == lines@[i as int]@);
        let here: bool = may_open_nest(lines[i]);
        nested = nested || here;
        proof {
            if before {
                let j: int = choose|j: int| 0 <= j < i && may_nest(#[trigger] all[j]);
                assert(0 <= j < i + 1 && may_nest(all[j]));
            }
        }
        i = i + 1;
    }
    assert(nested == may_be_nested(text@));
    let mut k: usize = 0;
    while k < lines.len()
        invariant
            all == lines.deep_view(),
            all == pieces(text@, '\n'),
            all.len() == lines@.len(),
            k <= lines@.len(),
            nested == may_be_nested(text@),
            !(is_ascii(text@) && has_no_codes(text@)),
            forall|j: int| 0 <= j < k ==> is_safe_line(#[trigger] all[j], nested),
        decreases lines@.len() - k,
    {
        assert(all[k as int] == lines@[k as int]@);
        if !is_safe(lines[k], nested) {
            return false;
        }
        k = k + 1;
    }
    true
}

/// `cargo_lock::Lockfile` read from its text, and what its packages tell of themselves: the name,
/// the version as it is printed, the kind, address and exact revision of the source, and the
/// checksum as it is printed. Where the text is no lock file, the error as it is printed. All of it
/// depends on the text alone; `lockfile_contents` names it.
/// A checksum of 64 bytes is cut into pairs of bytes when it is read, which panics inside a
/// character that takes several bytes: a text that may hold such a checksum is left out, be it
/// under a key of its own, in a list without keys or in a table in braces, where a line break may
/// stand between a key and its value.
#[verifier::external_body]
fn read_packages(text: &str) -> (r: Result<Vec<LockPackage>, String>)
    requires
        has_whole_checksums(text@),
    ensures
        match r {
            Ok(packages) => lockfile_contents(text@) == Ok::<Seq<LockPackageView>, Seq<char>>(
                packages.deep_view(),
            ),
            Err(reason) => lockfile_contents(text@) == Err::<Seq<LockPackageView>, Seq<char>>(
                reason@,
            ),
        },
{
    let lock: Lockfile = text.parse().map_err(|e: Error| e.to_string())?;
    Ok(lock.packages.iter().map(|p| LockPackage {
        name: p.name.as_str().to_string(),
        version: p.version.to_string(),
        source: p.source.as_ref().map(|s| LockSource {
            kind: match s.kind() {
                Kind::Git(_) => SourceKind::Git,
                Kind::Registry => SourceKind::Registry,
                Kind::SparseRegistry => SourceKind::SparseRegistry,
                _ => SourceKind::Other,
            },
            url: s.url().as_str().to_string(), precise: s.precise().map(|r| r.to_string()),
        }),
        checksum: p.checksum.as_ref().map(|c| c.to_string()),
    }).collect())
}

/// The packages of the lock file with that text.
pub fn parse_lockfile(text: &str) -> (r: Result<Vec<LockPackage>, RecipeError>)
    requires
        has_whole_checksums(text@),
    ensures
        match r {
            Ok(packages) => lockfile_contents(text@) == Ok::<Seq<LockPackageView>, Seq<char>>(
                packages.deep_view(),
            ),
            Err(e) => e matches RecipeError::BadLockfile { reason } && lockfile_contents(text@)
                == Err::<Seq<LockPackageView>, Seq<char>>(reason@),
        },
{
    match read_packages(text) {
        Ok(packages) => Ok(packages),
        Err(reason) => Err(RecipeError::BadLockfile { reason }),
    }
}

/// The checksums of the packages that have one. The last one counts where two packages have the
/// same name and version.
pub open spec fn checksums(lock: Seq<LockPackageView>) -> Map<CrateIdView, Seq<char>>
    decreases lock.len(),
{
    if lock.len() == 0 {
        Map::empty()
    } else {
        let rest = checksums(lock.drop_last());
        match lock.last().checksum {
            Some(checksum) => rest.insert(lock.last().crate_id(), checksum),
            None => rest,
        }
    }
}

/// The checksums of the packages that have one.
pub fn build_checksum_map(lock: &Vec<LockPackage>) -> (r: OrderedMap<CrateId, String>)
    ensures
        r.wf(),
        r.as_map() == checksums(lock.deep_view()),
{
    let ghost all = lock.deep_view();
    let mut found: OrderedMap<CrateId, String> = OrderedMap::new();
    let mut i: usize = 0;
    assert(all.take(0) =~= Seq::<LockPackageView>::empty());
    while i < lock.len()
        invariant
            all == lock.deep_view(),
            all.len() == lock@.len(),
            i <= lock@.len(),
            found.wf(),
            found.as_map() == checksums(all.take(i as int)),
        decreases lock@.len() - i,
    {
        proof {
            assert(all[i as int] == lock@[i as int].deep_view());
            assert(all.take(i + 1).drop_last() =~= all.take(i as int));
            assert(all.take(i + 1).last() == all[i as int]);
        }
        if let Some(checksum) = &lock[i].checksum {
            found.insert(CrateId::from_lock_package(&lock[i]), checksum.clone());
        }
        i = i + 1;
    }
    assert(all.take(i as int) =~= all);
    found
}

} // verus!
