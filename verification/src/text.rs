//! Text as a sequence of characters: searching, splitting, trimming and replacing.
use vstd::prelude::*;

verus! {

/// Position of the first `c` in `s`, or the length of `s` when there is none.
pub open spec fn first_index(s: Seq<char>, c: char) -> int
    decreases s.len(),
{
    if s.len() == 0 {
        0
    } else if s[0] == c {
        0
    } else {
        1 + first_index(s.skip(1), c)
    }
}

/// Position of the last `c` in `s`, or -1 when there is none.
pub open spec fn last_index(s: Seq<char>, c: char) -> int
    decreases s.len(),
{
    if s.len() == 0 {
        -1
    } else if s.last() == c {
        s.len() - 1
    } else {
        last_index(s.drop_last(), c)
    }
}

/// The part of `s` before its first `c`: all of `s` when there is none.
pub open spec fn before_first(s: Seq<char>, c: char) -> Seq<char> {
    s.take(first_index(s, c))
}

/// The part of `s` after its last `c`: all of `s` when there is none.
pub open spec fn after_last(s: Seq<char>, c: char) -> Seq<char> {
    s.skip(last_index(s, c) + 1)
}

/// The parts of `s` before and after its last `c`, when there is one.
pub open spec fn split_at_last(s: Seq<char>, c: char) -> Option<(Seq<char>, Seq<char>)> {
    if last_index(s, c) < 0 {
        None
    } else {
        Some((s.take(last_index(s, c)), after_last(s, c)))
    }
}

/// `s` without the copies of `p` that stand at its end.
pub open spec fn trim_end(s: Seq<char>, p: Seq<char>) -> Seq<char>
    decreases s.len(),
{
    if p.len() > 0 && p.is_suffix_of(s) {
        trim_end(s.take(s.len() - p.len()), p)
    } else {
        s
    }
}

/// `s` with each copy of `p`, taken from left to right without overlap, replaced by `w`.
pub open spec fn replace_all(s: Seq<char>, p: Seq<char>, w: Seq<char>) -> Seq<char>
    decreases s.len(),
{
    if s.len() == 0 || p.len() == 0 {
        s
    } else if p.is_prefix_of(s) {
        w + replace_all(s.skip(p.len() as int), p, w)
    } else {
        seq![s[0]] + replace_all(s.skip(1), p, w)
    }
}

/// The pieces of `s` between its `c`s.
pub open spec fn pieces(s: Seq<char>, c: char) -> Seq<Seq<char>>
    decreases s.len(),
    via pieces_decreases
{
    if first_index(s, c) >= s.len() {
        seq![s]
    } else {
        seq![before_first(s, c)] + pieces(s.skip(first_index(s, c) + 1), c)
    }
}

#[via_fn]
proof fn pieces_decreases(s: Seq<char>, c: char) {
    lemma_first_index(s, c);
}

/// The pieces put together again, with `sep` between them.
pub open spec fn join(parts: Seq<Seq<char>>, sep: Seq<char>) -> Seq<char>
    decreases parts.len(),
{
    if parts.len() == 0 {
        Seq::empty()
    } else if parts.len() == 1 {
        parts[0]
    } else {
        join(parts.drop_last(), sep) + sep + parts.last()
    }
}

/// `p` occurs in `s`.
pub open spec fn has_text(s: Seq<char>, p: Seq<char>) -> bool {
    exists|i: int| 0 <= i <= s.len() - p.len() && #[trigger] s.subrange(i, i + p.len()) == p
}

/// `c` has the Unicode property White_Space.
pub open spec fn is_white_space(c: char) -> bool {
    ||| '\u{9}' <= c <= '\u{d}'
    ||| c == '\u{20}'
    ||| c == '\u{85}'
    ||| c == '\u{a0}'
    ||| c == '\u{1680}'
    ||| '\u{2000}' <= c <= '\u{200a}'
    ||| c == '\u{2028}'
    ||| c == '\u{2029}'
    ||| c == '\u{202f}'
    ||| c == '\u{205f}'
    ||| c == '\u{3000}'
}

/// `s` without the white space at its start.
pub open spec fn trim_white_start(s: Seq<char>) -> Seq<char>
    decreases s.len(),
{
    if s.len() > 0 && is_white_space(s[0]) {
        trim_white_start(s.skip(1))
    } else {
        s
    }
}

/// `s` without the white space at its end.
pub open spec fn trim_white_end(s: Seq<char>) -> Seq<char>
    decreases s.len(),
{
    if s.len() > 0 && is_white_space(s.last()) {
        trim_white_end(s.drop_last())
    } else {
        s
    }
}

/// `s` without the white space around it.
pub open spec fn trim_white(s: Seq<char>) -> Seq<char> {
    trim_white_end(trim_white_start(s))
}

/// What tells the first `c` of a text from any other position.
pub proof fn lemma_first_index(s: Seq<char>, c: char)
    ensures
        0 <= first_index(s, c) <= s.len(),
        forall|i: int| 0 <= i < first_index(s, c) ==> s[i] != c,
        first_index(s, c) < s.len() ==> s[first_index(s, c)] == c,
    decreases s.len(),
{
    if s.len() > 0 && s[0] != c {
        lemma_first_index(s.skip(1), c);
        assert forall|i: int| 0 <= i < first_index(s, c) implies s[i] != c by {
            if i > 0 {
                assert(s[i] == s.skip(1)[i - 1]);
            }
        }
    }
}

/// What tells the last `c` of a text from any other position.
pub proof fn lemma_last_index(s: Seq<char>, c: char)
    ensures
        -1 <= last_index(s, c) < s.len(),
        forall|i: int| last_index(s, c) < i < s.len() ==> s[i] != c,
        last_index(s, c) >= 0 ==> s[last_index(s, c)] == c,
    decreases s.len(),
{
    if s.len() > 0 && s.last() != c {
        lemma_last_index(s.drop_last(), c);
        assert forall|i: int| last_index(s, c) < i < s.len() implies s[i] != c by {
            if i < s.len() - 1 {
                assert(s[i] == s.drop_last()[i]);
            }
        }
    }
}

/// The characters of a text, one by one.
pub fn chars_of(s: &str) -> (cs: Vec<char>)
    ensures
        cs@ == s@,
{
    let mut cs: Vec<char> = Vec::new();
    for c in it: s.chars()
        invariant
            it.seq() == s@,
            cs@ == s@.take(it.index()),
    {
        cs.push(c);
        assert(s@.take(it.index() + 1) == s@.take(it.index()).push(c));
    }
    assert(s@.take(s@.len() as int) == s@);
    cs
}

/// Whether `p` stands in `cs` at position `at`.
fn is_at(cs: &Vec<char>, at: usize, p: &Vec<char>) -> (r: bool)
    requires
        at + p@.len() <= cs@.len(),
    ensures
        r == (cs@.subrange(at as int, at + p@.len()) == p@),
{
    let n: usize = cs.len();
    let mut i: usize = 0;
    while i < p.len()
        invariant
            n == cs@.len(),
            at + p@.len() <= cs@.len(),
            i <= p@.len(),
            forall|j: int| 0 <= j < i ==> cs@[at + j] == p@[j],
        decreases p@.len() - i,
    {
        if cs[at + i] != p[i] {
            assert(cs@.subrange(at as int, at + p@.len())[i as int] != p@[i as int]);
            return false;
        }
        i = i + 1;
    }
    assert(cs@.subrange(at as int, at + p@.len()) =~= p@);
    true
}

/// Whether two texts are the same.
pub fn same_text(a: &str, b: &str) -> (r: bool)
    ensures
        r == (a@ == b@),
{
    let x = chars_of(a);
    let y = chars_of(b);
    if x.len() != y.len() {
        return false;
    }
    assert(x@.subrange(0, y@.len() as int) =~= x@);
    is_at(&x, 0, &y)
}

/// Whether `s` starts with `p`.
pub fn starts_with(s: &str, p: &str) -> (r: bool)
    ensures
        r == p@.is_prefix_of(s@),
{
    let x = chars_of(s);
    let y = chars_of(p);
    y.len() <= x.len() && is_at(&x, 0, &y)
}

/// What follows `p` at the start of `s`.
pub fn strip_prefix<'a>(s: &'a str, p: &str) -> (r: Option<&'a str>)
    ensures
        match r {
            Some(t) => p@.is_prefix_of(s@) && t@ == s@.skip(p@.len() as int),
            None => !p@.is_prefix_of(s@),
        },
{
    if starts_with(s, p) {
        let n: usize = s.unicode_len();
        Some(s.substring_char(p.unicode_len(), n))
    } else {
        None
    }
}

/// Whether `p` occurs in `s`.
pub fn contains_text(s: &str, p: &str) -> (r: bool)
    ensures
        r == has_text(s@, p@),
{
    let x = chars_of(s);
    let y = chars_of(p);
    if y.len() > x.len() {
        return false;
    }
    let mut i: usize = 0;
    while i <= x.len() - y.len()
        invariant
            x@ == s@,
            y@ == p@,
            y@.len() <= x@.len(),
            i <= x@.len() - y@.len() + 1,
            forall|j: int| 0 <= j < i ==> #[trigger] s@.subrange(j, j + p@.len()) != p@,
        decreases x@.len() - y@.len() + 1 - i,
    {
        if is_at(&x, i, &y) {
            return true;
        }
        if i == x.len() - y.len() {
            return false;
        }
        i = i + 1;
    }
    false
}

/// The part of `s` before its first `c`: all of `s` when there is none.
pub fn before_first_of<'a>(s: &'a str, c: char) -> (r: &'a str)
    ensures
        r@ == before_first(s@, c),
{
    let cs = chars_of(s);
    let mut i: usize = 0;
    proof {
        lemma_first_index(s@, c);
    }
    while i < cs.len() && cs[i] != c
        invariant
            cs@ == s@,
            0 <= i <= first_index(s@, c) <= s@.len(),
            forall|j: int| 0 <= j < first_index(s@, c) ==> s@[j] != c,
            first_index(s@, c) < s@.len() ==> s@[first_index(s@, c)] == c,
        decreases cs@.len() - i,
    {
        i = i + 1;
    }
    s.substring_char(0, i)
}

/// The position after the last `c` in `cs`, or 0 when there is none.
fn end_of_last(cs: &Vec<char>, c: char) -> (r: usize)
    ensures
        r == last_index(cs@, c) + 1,
        r <= cs@.len(),
{
    let mut i: usize = cs.len();
    proof {
        lemma_last_index(cs@, c);
    }
    while i > 0 && cs[i - 1] != c
        invariant
            last_index(cs@, c) < i <= cs@.len(),
            -1 <= last_index(cs@, c),
            last_index(cs@, c) >= 0 ==> cs@[last_index(cs@, c)] == c,
            forall|j: int| last_index(cs@, c) < j < cs@.len() ==> cs@[j] != c,
        decreases i,
    {
        i = i - 1;
    }
    i
}

/// The part of `s` after its last `c`: all of `s` when there is none.
pub fn after_last_of<'a>(s: &'a str, c: char) -> (r: &'a str)
    ensures
        r@ == after_last(s@, c),
{
    let cs = chars_of(s);
    s.substring_char(end_of_last(&cs, c), cs.len())
}

/// The parts of `s` before and after its last `c`, when there is one.
pub fn split_at_last_of<'a>(s: &'a str, c: char) -> (r: Option<(&'a str, &'a str)>)
    ensures
        match r {
            Some((a, b)) => split_at_last(s@, c) == Some((a@, b@)),
            None => split_at_last(s@, c) is None,
        },
{
    let cs = chars_of(s);
    let end: usize = end_of_last(&cs, c);
    if end == 0 {
        None
    } else {
        Some((s.substring_char(0, end - 1), s.substring_char(end, cs.len())))
    }
}

/// `s` without the copies of `p` that stand at its end.
pub fn trim_end_of<'a>(s: &'a str, p: &str) -> (r: &'a str)
    ensures
        r@ == trim_end(s@, p@),
{
    let cs = chars_of(s);
    let ps = chars_of(p);
    let mut end: usize = cs.len();
    assert(s@.take(s@.len() as int) =~= s@);
    while ps.len() > 0 && ps.len() <= end && is_at(&cs, end - ps.len(), &ps)
        invariant
            cs@ == s@,
            ps@ == p@,
            end <= s@.len(),
            trim_end(s@, p@) == trim_end(s@.take(end as int), p@),
        decreases end,
    {
        proof {
            let t = s@.take(end as int);
            assert(t.subrange(t.len() - p@.len(), t.len() as int) =~= s@.subrange(
                end - p@.len(),
                end as int,
            ));
            assert(t.take(t.len() - p@.len()) =~= s@.take(end - p@.len()));
        }
        end = end - ps.len();
    }
    proof {
        let t = s@.take(end as int);
        if 0 < p@.len() <= end {
            assert(t.subrange(t.len() - p@.len(), t.len() as int) =~= s@.subrange(
                end - p@.len(),
                end as int,
            ));
        }
    }
    s.substring_char(0, end)
}

/// `s` with each copy of `p`, taken from left to right without overlap, replaced by `w`.
pub fn replaced(s: &str, p: &str, w: &str) -> (r: String)
    requires
        p@.len() > 0,
    ensures
        r@ == replace_all(s@, p@, w@),
{
    let cs = chars_of(s);
    let ps = chars_of(p);
    let mut out: String = String::new();
    let mut start: usize = 0;
    let mut i: usize = 0;
    assert(s@.skip(0) =~= s@);
    assert(out@ + s@.subrange(0, 0) + replace_all(s@, p@, w@) =~= replace_all(s@, p@, w@));
    while i < cs.len()
        invariant
            cs@ == s@,
            ps@ == p@,
            p@.len() > 0,
            start <= i <= s@.len(),
            replace_all(s@, p@, w@) == out@ + s@.subrange(start as int, i as int) + replace_all(
                s@.skip(i as int),
                p@,
                w@,
            ),
        decreases s@.len() - i,
    {
        let ghost rest = s@.skip(i as int);
        let ghost before = out@;
        if ps.len() <= cs.len() - i && is_at(&cs, i, &ps) {
            out.append(s.substring_char(start, i));
            out.append(w);
            proof {
                assert(rest.subrange(0, p@.len() as int) =~= s@.subrange(
                    i as int,
                    i + p@.len(),
                ));
                assert(rest.skip(p@.len() as int) =~= s@.skip(i + p@.len()));
                let tail = replace_all(s@.skip(i + p@.len()), p@, w@);
                assert(out@ + s@.subrange(i + p@.len(), i + p@.len()) + tail =~= before
                    + s@.subrange(start as int, i as int) + (w@ + tail));
            }
            i = i + ps.len();
            start = i;
        } else {
            proof {
                if p@.len() <= rest.len() {
                    assert(rest.subrange(0, p@.len() as int) =~= s@.subrange(
                        i as int,
                        i + p@.len(),
                    ));
                }
                assert(rest.skip(1) =~= s@.skip(i + 1));
                let tail = replace_all(s@.skip(i + 1), p@, w@);
                assert(before + s@.subrange(start as int, i + 1) + tail =~= before + s@.subrange(
                    start as int,
                    i as int,
                ) + (seq![rest[0]] + tail));
            }
            i = i + 1;
        }
    }
    let ghost before = out@;
    out.append(s.substring_char(start, i));
    proof {
        assert(s@.skip(i as int) =~= Seq::<char>::empty());
        assert(before + s@.subrange(start as int, i as int) + Seq::<char>::empty() =~= out@);
    }
    out
}

/// The pieces of `s` between its `c`s.
pub fn pieces_of<'a>(s: &'a str, c: char) -> (r: Vec<&'a str>)
    ensures
        r.deep_view() == pieces(s@, c),
{
    let cs = chars_of(s);
    let mut out: Vec<&'a str> = Vec::new();
    let mut start: usize = 0;
    let mut i: usize = 0;
    assert(s@.skip(0) =~= s@);
    assert(out.deep_view() + pieces(s@, c) =~= pieces(s@, c));
    while i < cs.len()
        invariant
            cs@ == s@,
            start <= i <= s@.len(),
            forall|j: int| start <= j < i ==> s@[j] != c,
            pieces(s@, c) == out.deep_view() + pieces(s@.skip(start as int), c),
        decreases s@.len() - i,
    {
        if cs[i] == c {
            let ghost before = out.deep_view();
            out.push(s.substring_char(start, i));
            proof {
                let t = s@.skip(start as int);
                lemma_first_index(t, c);
                if first_index(t, c) < i - start {
                    assert(t[first_index(t, c)] == s@[start + first_index(t, c)]);
                }
                assert(t[i - start] == c);
                assert(first_index(t, c) == i - start);
                assert(before_first(t, c) =~= s@.subrange(start as int, i as int));
                assert(t.skip(first_index(t, c) + 1) =~= s@.skip(i + 1));
                assert(out.deep_view() =~= before.push(s@.subrange(start as int, i as int)));
                let tail = pieces(s@.skip(i + 1), c);
                assert(out.deep_view() + tail =~= before + (seq![before_first(t, c)] + tail));
            }
            start = i + 1;
        }
        i = i + 1;
    }
    let ghost before = out.deep_view();
    out.push(s.substring_char(start, i));
    proof {
        let t = s@.skip(start as int);
        lemma_first_index(t, c);
        if first_index(t, c) < t.len() {
            assert(t[first_index(t, c)] == s@[start + first_index(t, c)]);
        }
        assert(t =~= s@.subrange(start as int, i as int));
        assert(out.deep_view() =~= before + seq![t]);
    }
    out
}

/// The pieces put together again, with `sep` between them.
pub fn joined(parts: &[&str], sep: &str) -> (r: String)
    ensures
        r@ == join(parts.deep_view(), sep@),
{
    let mut out: String = String::new();
    let mut i: usize = 0;
    let ghost all = parts.deep_view();
    assert(all.take(0) =~= Seq::<Seq<char>>::empty());
    while i < parts.len()
        invariant
            all == parts.deep_view(),
            all.len() == parts@.len(),
            i <= parts@.len(),
            out@ == join(all.take(i as int), sep@),
        decreases parts@.len() - i,
    {
        if i > 0 {
            out.append(sep);
        }
        out.append(parts[i]);
        assert(all.take(i + 1).drop_last() =~= all.take(i as int));
        assert(all.take(i + 1).last() == all[i as int]);
        i = i + 1;
    }
    assert(all.take(i as int) =~= all);
    out
}

/// Whether `c` has the Unicode property White_Space.
fn is_white(c: char) -> (r: bool)
    ensures
        r == is_white_space(c),
{
    ('\u{9}' <= c && c <= '\u{d}') || c == '\u{20}' || c == '\u{85}' || c == '\u{a0}' || c
        == '\u{1680}' || ('\u{2000}' <= c && c <= '\u{200a}') || c == '\u{2028}' || c == '\u{2029}'
        || c == '\u{202f}' || c == '\u{205f}' || c == '\u{3000}'
}

/// `s` without the white space around it.
pub fn trimmed<'a>(s: &'a str) -> (r: &'a str)
    ensures
        r@ == trim_white(s@),
{
    let cs = chars_of(s);
    let mut start: usize = 0;
    assert(s@.skip(0) =~= s@);
    while start < cs.len() && is_white(cs[start])
        invariant
            cs@ == s@,
            start <= s@.len(),
            trim_white_start(s@) == trim_white_start(s@.skip(start as int)),
        decreases s@.len() - start,
    {
        assert(s@.skip(start as int).skip(1) =~= s@.skip(start + 1));
        start = start + 1;
    }
    let ghost t = s@.skip(start as int);
    let mut end: usize = cs.len();
    assert(s@.subrange(start as int, end as int) =~= t);
    while end > start && is_white(cs[end - 1])
        invariant
            cs@ == s@,
            start <= end <= s@.len(),
            trim_white_end(t) == trim_white_end(s@.subrange(start as int, end as int)),
        decreases end,
    {
        assert(s@.subrange(start as int, end as int).drop_last() =~= s@.subrange(
            start as int,
            end - 1,
        ));
        end = end - 1;
    }
    s.substring_char(start, end)
}

/// The pieces of a text, put together again with what they were parted by, are the text.
pub proof fn lemma_join_undoes_pieces(s: Seq<char>, c: char)
    ensures
        join(pieces(s, c), seq![c]) == s,
    decreases s.len(),
{
    lemma_first_index(s, c);
    let i = first_index(s, c);
    if i < s.len() {
        let rest = s.skip(i + 1);
        lemma_join_undoes_pieces(rest, c);
        lemma_pieces_not_empty(rest, c);
        lemma_join_first(pieces(s, c), seq![c]);
        assert(pieces(s, c).skip(1) =~= pieces(rest, c));
        assert(s =~= before_first(s, c) + seq![c] + rest);
    }
}

/// A text has at least one piece.
pub proof fn lemma_pieces_not_empty(s: Seq<char>, c: char)
    ensures
        pieces(s, c).len() > 0,
{
    lemma_first_index(s, c);
}

/// The first part stands in front of the others.
pub proof fn lemma_join_first(parts: Seq<Seq<char>>, sep: Seq<char>)
    requires
        parts.len() > 1,
    ensures
        join(parts, sep) == parts[0] + sep + join(parts.skip(1), sep),
    decreases parts.len(),
{
    if parts.len() == 2 {
        assert(parts.drop_last()[0] == parts[0]);
        assert(parts.skip(1)[0] == parts[1]);
        assert(join(parts.drop_last(), sep) == parts[0]);
    } else {
        lemma_join_first(parts.drop_last(), sep);
        assert(parts.drop_last().skip(1) =~= parts.skip(1).drop_last());
        assert(parts.skip(1).last() == parts.last());
        assert(join(parts, sep) =~= parts[0] + sep + (join(parts.skip(1).drop_last(), sep) + sep
            + parts.last()));
    }
}

proof fn lemma_pieces_first(a: Seq<char>, b: Seq<char>, c: char)
    requires
        !a.contains(c),
    ensures
        pieces(a + seq![c] + b, c) == seq![a] + pieces(b, c),
{
    let s = a + seq![c] + b;
    lemma_first_index(s, c);
    assert(s[a.len() as int] == c);
    assert(first_index(s, c) == a.len()) by {
        if first_index(s, c) < a.len() {
            assert(a[first_index(s, c)] == c);
        }
    }
    assert(before_first(s, c) =~= a);
    assert(s.skip(a.len() as int + 1) =~= b);
}

/// Parts that hold no `c`, put together with `c` between them, come apart into the same parts.
pub proof fn lemma_pieces_undo_join(parts: Seq<Seq<char>>, c: char)
    requires
        parts.len() > 0,
        forall|i: int| 0 <= i < parts.len() ==> !(#[trigger] parts[i]).contains(c),
    ensures
        pieces(join(parts, seq![c]), c) == parts,
    decreases parts.len(),
{
    if parts.len() == 1 {
        lemma_first_index(parts[0], c);
        if first_index(parts[0], c) < parts[0].len() {
            assert(parts[0].contains(c));
        }
        assert(pieces(parts[0], c) =~= parts);
    } else {
        lemma_join_first(parts, seq![c]);
        assert forall|i: int| 0 <= i < parts.skip(1).len() implies !(#[trigger] parts.skip(
            1,
        )[i]).contains(c) by {
            assert(parts.skip(1)[i] == parts[i + 1]);
        }
        lemma_pieces_undo_join(parts.skip(1), c);
        lemma_pieces_first(parts[0], join(parts.skip(1), seq![c]), c);
        assert(seq![parts[0]] + parts.skip(1) =~= parts);
    }
}

/// What is left after trimming is the start of the text.
pub proof fn lemma_trim_end_is_prefix(s: Seq<char>, p: Seq<char>)
    ensures
        trim_end(s, p).is_prefix_of(s),
    decreases s.len(),
{
    if p.len() > 0 && p.is_suffix_of(s) {
        let t = s.take(s.len() - p.len());
        lemma_trim_end_is_prefix(t, p);
        assert(trim_end(s, p) =~= s.subrange(0, trim_end(s, p).len() as int)) by {
            assert(trim_end(t, p) =~= t.subrange(0, trim_end(t, p).len() as int));
        }
    } else {
        assert(s =~= s.subrange(0, s.len() as int));
    }
}

/// What is left after trimming does not end with what was trimmed.
pub proof fn lemma_trim_end_is_done(s: Seq<char>, p: Seq<char>)
    requires
        p.len() > 0,
    ensures
        !p.is_suffix_of(trim_end(s, p)),
    decreases s.len(),
{
    if p.is_suffix_of(s) {
        lemma_trim_end_is_done(s.take(s.len() - p.len()), p);
    }
}

/// What follows the last `c` holds no `c`.
pub proof fn lemma_after_last_is_free(s: Seq<char>, c: char)
    ensures
        !after_last(s, c).contains(c),
{
    lemma_last_index(s, c);
    let t = after_last(s, c);
    assert forall|i: int| 0 <= i < t.len() implies t[i] != c by {
        assert(t[i] == s[last_index(s, c) + 1 + i]);
    }
}

/// A part of a text that has `p` has it too.
pub proof fn lemma_has_text_within(a: Seq<char>, b: Seq<char>, c: Seq<char>, p: Seq<char>)
    requires
        has_text(b, p),
    ensures
        has_text(a + b + c, p),
{
    let i: int = choose|i: int| 0 <= i <= b.len() - p.len() && #[trigger] b.subrange(i, i + p.len())
        == p;
    let s = a + b + c;
    assert(s.subrange(a.len() + i, a.len() + i + p.len()) =~= b.subrange(i, i + p.len()));
}

/// A text comes apart at its last `c` into what stood before and after it.
pub proof fn lemma_split_at_last(a: Seq<char>, c: char, b: Seq<char>)
    requires
        !b.contains(c),
    ensures
        split_at_last(a + seq![c] + b, c) == Some((a, b)),
{
    let s = a + seq![c] + b;
    lemma_last_index(s, c);
    assert(s[a.len() as int] == c);
    assert(last_index(s, c) == a.len()) by {
        let i = last_index(s, c);
        if i > a.len() {
            assert(b[i - a.len() - 1] == c);
        }
    }
    assert(s.take(a.len() as int) =~= a);
    assert(s.skip(a.len() as int + 1) =~= b);
}

/// What stands before the first `c` is what stood there when the text was put together.
pub proof fn lemma_before_first(a: Seq<char>, c: char, b: Seq<char>)
    requires
        !a.contains(c),
    ensures
        before_first(a + seq![c] + b, c) == a,
        before_first(a, c) == a,
{
    let s = a + seq![c] + b;
    lemma_first_index(s, c);
    lemma_first_index(a, c);
    assert(s[a.len() as int] == c);
    assert(first_index(s, c) == a.len()) by {
        if first_index(s, c) < a.len() {
            assert(a[first_index(s, c)] == c);
        }
    }
    assert(first_index(a, c) == a.len()) by {
        if first_index(a, c) < a.len() {
            assert(a[first_index(a, c)] == c);
        }
    }
    assert(s.take(a.len() as int) =~= a);
    assert(a.take(a.len() as int) =~= a);
}

} // verus!
