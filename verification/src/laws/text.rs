//! Laws on texts, and on the names of repositories.
use crate::git::{path_in_repo, repo_name};
use crate::order::{keys_of, lemma_map_of_entry, map_of};
use crate::text::{
    after_last, before_first, first_index, has_text, is_white_space, join, last_index,
    lemma_first_index, lemma_last_index, lemma_pieces_undo_join, lemma_split_at_last, pieces,
    replace_all, split_at_last, trim_end, trim_white, trim_white_end, trim_white_start,
};
use vstd::prelude::*;

verus! {

/// What stands in a text between its opening and its closing words.
pub open spec fn inside(s: Seq<char>, open: Seq<char>, close: Seq<char>) -> Option<Seq<char>> {
    if s.len() >= open.len() + close.len() && s.take(open.len() as int) == open && s.skip(
        s.len() - close.len(),
    ) == close {
        Some(s.subrange(open.len() as int, s.len() - close.len()))
    } else {
        None
    }
}

/// What was put between two words stands between them.
pub proof fn lemma_inside(open: Seq<char>, x: Seq<char>, close: Seq<char>)
    ensures
        inside(open + x + close, open, close) == Some(x),
{
    let s = open + x + close;
    assert(s.take(open.len() as int) =~= open);
    assert(s.skip(s.len() - close.len()) =~= close);
    assert(s.subrange(open.len() as int, s.len() - close.len()) =~= x);
}

/// A text that has another can be cut into what goes before it, it, and what follows; and whatever
/// is put around a text, the whole has it.
pub proof fn law_a_text_is_had_where_it_stands(a: Seq<char>, p: Seq<char>, b: Seq<char>)
    ensures
        has_text(a + p + b, p),
        has_text(a, p) ==> exists|x: Seq<char>, y: Seq<char>| a == #[trigger] (x + p + y),
{
    let s = a + p + b;
    assert(s.subrange(a.len() as int, a.len() as int + p.len()) =~= p);
    if has_text(a, p) {
        let i: int = choose|i: int|
            0 <= i <= a.len() - p.len() && #[trigger] a.subrange(i, i + p.len()) == p;
        let x = a.take(i);
        let y = a.skip(i + p.len());
        assert(a =~= x + p + y);
    }
}

/// A text over and over.
pub open spec fn repeated(p: Seq<char>, n: nat) -> Seq<char>
    decreases n,
{
    if n == 0 {
        Seq::empty()
    } else {
        repeated(p, (n - 1) as nat) + p
    }
}

/// However often a word stands at the end of a text, it is trimmed away, and nothing else is.
pub proof fn law_every_copy_at_the_end_is_trimmed(s: Seq<char>, p: Seq<char>, n: nat)
    requires
        p.len() > 0,
        !p.is_suffix_of(s),
    ensures
        trim_end(s + repeated(p, n), p) == s,
    decreases n,
{
    let all = s + repeated(p, n);
    if n == 0 {
        assert(all =~= s);
    } else {
        let rest = s + repeated(p, (n - 1) as nat);
        law_every_copy_at_the_end_is_trimmed(s, p, (n - 1) as nat);
        assert(all =~= rest + p);
        assert(all.subrange(all.len() - p.len(), all.len() as int) =~= p);
        assert(all.take(all.len() - p.len()) =~= rest);
    }
}

/// A text that lacks a word stays as it is when the word is replaced.
pub proof fn law_nothing_to_replace(s: Seq<char>, p: Seq<char>, w: Seq<char>)
    requires
        !has_text(s, p),
    ensures
        replace_all(s, p, w) == s,
    decreases s.len(),
{
    if s.len() > 0 && p.len() > 0 {
        let t = s.skip(1);
        if has_text(t, p) {
            let i: int = choose|i: int|
                0 <= i <= t.len() - p.len() && #[trigger] t.subrange(i, i + p.len()) == p;
            assert(s.subrange(i + 1, i + 1 + p.len()) =~= p);
        }
        if p.is_prefix_of(s) {
            assert(s.subrange(0int, 0int + p.len()) =~= p);
        }
        law_nothing_to_replace(t, p, w);
        assert(s =~= seq![s[0]] + t);
    }
}

/// The first copy of a word is replaced, what goes before it stays, and what follows it is treated
/// alike.
pub proof fn law_each_copy_is_replaced(a: Seq<char>, p: Seq<char>, b: Seq<char>, w: Seq<char>)
    requires
        p.len() > 0,
        forall|i: int| 0 <= i < a.len() ==> #[trigger] (a + p + b).subrange(i, i + p.len()) != p,
    ensures
        replace_all(a + p + b, p, w) == a + w + replace_all(b, p, w),
    decreases a.len(),
{
    let s = a + p + b;
    if a.len() == 0 {
        assert(s.subrange(0, p.len() as int) =~= p);
        assert(s.skip(p.len() as int) =~= b);
        assert(a + w + replace_all(b, p, w) =~= w + replace_all(b, p, w));
    } else {
        let t = a.skip(1);
        assert(s.subrange(0int, 0int + p.len()) != p);
        assert(s.skip(1) =~= t + p + b);
        assert forall|i: int| 0 <= i < t.len() implies #[trigger] (t + p + b).subrange(
            i,
            i + p.len(),
        ) != p by {
            assert((t + p + b).subrange(i, i + p.len()) =~= s.subrange(i + 1, i + 1 + p.len()));
        }
        law_each_copy_is_replaced(t, p, b, w);
        assert(a + w + replace_all(b, p, w) =~= seq![a[0]] + (t + w + replace_all(b, p, w)));
    }
}

/// Parts are joined with the separator between each two of them, and nowhere else.
pub proof fn law_parts_are_joined(parts: Seq<Seq<char>>, more: Seq<Seq<char>>, sep: Seq<char>)
    ensures
        join(Seq::<Seq<char>>::empty(), sep) == Seq::<char>::empty(),
        forall|x: Seq<char>| #[trigger] join(seq![x], sep) == x,
        parts.len() > 0 && more.len() > 0 ==> join(parts + more, sep) == join(parts, sep) + sep
            + join(more, sep),
    decreases more.len(),
{
    if parts.len() > 0 && more.len() > 0 {
        let all = parts + more;
        let front = more.drop_last();
        assert(all.drop_last() =~= parts + front);
        assert(all.last() == more.last());
        if more.len() == 1 {
            assert(parts + front =~= parts);
            assert(join(more, sep) == more[0]);
        } else {
            law_parts_are_joined(parts, front, sep);
            assert(join(all, sep) =~= join(parts, sep) + sep + join(more, sep));
        }
    }
}

/// Trimming takes white space from the two ends of a text, all of it, and nothing else.
pub proof fn law_trimming_takes_white_space(a: Seq<char>, t: Seq<char>, b: Seq<char>)
    requires
        forall|i: int| 0 <= i < a.len() ==> is_white_space(#[trigger] a[i]),
        forall|i: int| 0 <= i < b.len() ==> is_white_space(#[trigger] b[i]),
        t.len() > 0 ==> !is_white_space(t[0]) && !is_white_space(t.last()),
    ensures
        trim_white(a + t + b) == t,
{
    let s = a + t + b;
    if t.len() == 0 {
        lemma_trim_start(s, Seq::empty());
        assert(s + Seq::<char>::empty() =~= s);
        assert(trim_white_end(Seq::<char>::empty()) =~= t);
    } else {
        lemma_trim_start(a, t + b);
        assert(s =~= a + (t + b));
        lemma_trim_end(t, b);
    }
}

proof fn lemma_trim_start(a: Seq<char>, s: Seq<char>)
    requires
        forall|i: int| 0 <= i < a.len() ==> is_white_space(#[trigger] a[i]),
        s.len() > 0 ==> !is_white_space(s[0]),
    ensures
        trim_white_start(a + s) == s,
    decreases a.len(),
{
    let all = a + s;
    if a.len() == 0 {
        assert(all =~= s);
    } else {
        assert(all[0] == a[0]);
        assert(all.skip(1) =~= a.skip(1) + s);
        lemma_trim_start(a.skip(1), s);
    }
}

proof fn lemma_trim_end(s: Seq<char>, b: Seq<char>)
    requires
        forall|i: int| 0 <= i < b.len() ==> is_white_space(#[trigger] b[i]),
        s.len() > 0 ==> !is_white_space(s.last()),
    ensures
        trim_white_end(s + b) == s,
    decreases b.len(),
{
    let all = s + b;
    if b.len() == 0 {
        assert(all =~= s);
    } else {
        assert(all.last() == b.last());
        assert(all.drop_last() =~= s + b.drop_last());
        lemma_trim_end(s, b.drop_last());
    }
}

/// The space and the characters from tab to carriage return are white space; no letter, digit or
/// mark of ASCII is.
pub proof fn law_white_space_of_ascii(c: char)
    requires
        c <= '\u{7f}',
    ensures
        is_white_space(c) <==> c == ' ' || c == '\t' || c == '\n' || c == '\u{b}' || c == '\u{c}'
            || c == '\r',
{
}

/// A repository is named by the last part of its address: without slashes behind it, without `.git`
/// at its end, and otherwise unchanged.
pub proof fn law_repository_is_named_by_its_last_part(
    above: Seq<char>,
    name: Seq<char>,
    gits: nat,
    slashes: nat,
)
    requires
        !name.contains('/'),
        !".git"@.is_suffix_of(name),
        name.len() > 0 || gits > 0,
    ensures
        repo_name(above + seq!['/'] + (name + repeated(".git"@, gits)) + repeated("/"@, slashes))
            == name,
        repo_name((name + repeated(".git"@, gits)) + repeated("/"@, slashes)) == name,
{
    reveal_strlit(".git");
    reveal_strlit("/");
    let part = name + repeated(".git"@, gits);
    lemma_repeated_lacks_slash(gits);
    assert forall|i: int| 0 <= i < part.len() implies part[i] != '/' by {
        if i < name.len() {
            assert(name.contains(name[i]));
        } else {
            assert(repeated(".git"@, gits).contains(repeated(".git"@, gits)[i - name.len()]));
        }
    }
    if gits > 0 {
        assert(repeated(".git"@, gits).len() > 0);
    }
    assert(part.len() > 0);
    lemma_part_is_last(above, part);
    lemma_part_is_last_alone(part);
    let whole = above + seq!['/'] + part;
    assert(whole.last() == part.last());
    lemma_no_slash_suffix(whole);
    lemma_no_slash_suffix(part);
    law_every_copy_at_the_end_is_trimmed(whole, "/"@, slashes);
    law_every_copy_at_the_end_is_trimmed(part, "/"@, slashes);
    law_every_copy_at_the_end_is_trimmed(name, ".git"@, gits);
}

proof fn lemma_no_slash_suffix(s: Seq<char>)
    requires
        s.len() > 0,
        s.last() != '/',
    ensures
        !"/"@.is_suffix_of(s),
{
    reveal_strlit("/");
    if "/"@.is_suffix_of(s) {
        assert(s.subrange(s.len() - 1, s.len() as int)[0] == "/"@[0]);
    }
}

proof fn lemma_repeated_lacks_slash(n: nat)
    ensures
        !repeated(".git"@, n).contains('/'),
        n > 0 ==> repeated(".git"@, n).len() > 0,
    decreases n,
{
    reveal_strlit(".git");
    if n > 0 {
        lemma_repeated_lacks_slash((n - 1) as nat);
        let front = repeated(".git"@, (n - 1) as nat);
        let all = front + ".git"@;
        assert forall|i: int| 0 <= i < all.len() implies all[i] != '/' by {
            if i < front.len() {
                assert(front.contains(front[i]));
            } else {
                assert(all[i] == ".git"@[i - front.len()]);
            }
        }
    }
}

proof fn lemma_part_is_last(above: Seq<char>, part: Seq<char>)
    requires
        !part.contains('/'),
    ensures
        after_last(above + seq!['/'] + part, '/') == part,
{
    let s = above + seq!['/'] + part;
    lemma_last_index(s, '/');
    assert(s[above.len() as int] == '/');
    let i = last_index(s, '/');
    if i > above.len() {
        assert(part[i - above.len() - 1] == '/');
        assert(part.contains('/'));
    }
    assert(s.skip(above.len() as int + 1) =~= part);
}

proof fn lemma_part_is_last_alone(part: Seq<char>)
    requires
        !part.contains('/'),
    ensures
        after_last(part, '/') == part,
{
    lemma_last_index(part, '/');
    let i = last_index(part, '/');
    if i >= 0 {
        assert(part.contains(part[i]));
    }
    assert(part.skip(0) =~= part);
}

/// Where less than a repository, a commit and a file follow `checkouts`, no directory is told.
pub proof fn law_path_of_a_short_checkout(above: Seq<Seq<char>>, below: Seq<Seq<char>>)
    requires
        forall|i: int| 0 <= i < above.len() ==> !(#[trigger] above[i]).contains('/'),
        forall|i: int| 0 <= i < above.len() ==> #[trigger] above[i] != "checkouts"@,
        forall|i: int| 0 <= i < below.len() ==> !(#[trigger] below[i]).contains('/'),
        below.len() < 3,
    ensures
        path_in_repo(join(above + seq!["checkouts"@] + below, seq!['/'])) == Seq::<char>::empty(),
{
    reveal_strlit("checkouts");
    let parts = above + seq!["checkouts"@] + below;
    let n = above.len() as int;
    assert forall|i: int| 0 <= i < parts.len() implies !(#[trigger] parts[i]).contains('/') by {
        if i < n {
            assert(parts[i] == above[i]);
        } else if i == n {
            assert(parts[i] == "checkouts"@);
        } else {
            assert(parts[i] == below[i - n - 1]);
        }
    }
    lemma_pieces_undo_join(parts, '/');
    crate::git::lemma_first_part(parts, "checkouts"@);
    let at = crate::git::first_part(parts, "checkouts"@);
    assert(parts[n] == "checkouts"@);
    if at < n {
        assert(parts[at] == above[at]);
    }
}

/// A text comes apart at its last `c` exactly when it has one; what follows the last `c` is the whole
/// text when it has none.
pub proof fn law_a_text_without_the_character_stays_whole(s: Seq<char>, c: char)
    ensures
        split_at_last(s, c) is Some <==> s.contains(c),
        !s.contains(c) ==> after_last(s, c) == s,
        !s.contains(c) ==> before_first(s, c) == s,
        !s.contains(c) ==> pieces(s, c) == seq![s],
{
    lemma_last_index(s, c);
    lemma_first_index(s, c);
    if last_index(s, c) >= 0 {
        assert(s.contains(s[last_index(s, c)]));
    }
    if first_index(s, c) < s.len() {
        assert(s.contains(s[first_index(s, c)]));
    }
    if s.contains(c) {
        let i: int = choose|i: int| 0 <= i < s.len() && s[i] == c;
        assert(last_index(s, c) >= i);
    } else {
        assert(s.skip(0) =~= s);
        assert(s.take(s.len() as int) =~= s);
    }
}

/// What follows the last `c` of a text is what was put there.
pub proof fn law_what_follows_the_last_character(a: Seq<char>, c: char, b: Seq<char>)
    requires
        !b.contains(c),
    ensures
        after_last(a + seq![c] + b, c) == b,
{
    lemma_split_at_last(a, c, b);
}

/// A map holds what its entries tell, and nothing else.
pub proof fn law_map_holds_its_entries<A, B>(entries: Seq<(A, B)>, k: A)
    requires
        forall|i: int, j: int|
            0 <= i < j < entries.len() ==> (#[trigger] entries[i]).0 != (#[trigger] entries[j]).0,
    ensures
        map_of(entries).contains_key(k) <==> exists|i: int|
            0 <= i < entries.len() && (#[trigger] entries[i]).0 == k,
        forall|i: int|
            0 <= i < entries.len() ==> map_of(entries)[(#[trigger] entries[i]).0] == entries[i].1,
{
    let keys = keys_of(entries);
    assert forall|i: int| 0 <= i < entries.len() implies map_of(entries)[(
    #[trigger] entries[i]).0] == entries[i].1 by {
        assert forall|x: int, y: int|
            0 <= x < keys.len() && 0 <= y < keys.len() && x != y implies keys[x] != keys[y] by {
            if x < y {
                assert(entries[x].0 != entries[y].0);
            } else {
                assert(entries[y].0 != entries[x].0);
            }
        }
        lemma_map_of_entry(entries, i);
    }
    if exists|i: int| 0 <= i < entries.len() && (#[trigger] entries[i]).0 == k {
        let i: int = choose|i: int| 0 <= i < entries.len() && (#[trigger] entries[i]).0 == k;
        assert(keys[i] == k);
    }
    if map_of(entries).contains_key(k) {
        let i: int = choose|i: int| 0 <= i < keys.len() && keys[i] == k;
        assert(entries[i].0 == k);
    }
}

} // verus!
