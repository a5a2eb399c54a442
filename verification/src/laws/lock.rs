//! Laws on which lock files can be read.
use crate::lock::{
    byte_len, has_torn, has_whole_checksums, is_ascii, is_comment, is_safe_line, is_torn,
    is_whole_line, may_be_nested, may_name, width,
};
use crate::text::{
    has_text, join, lemma_before_first, lemma_join_undoes_pieces,
    lemma_pieces_undo_join, pieces,
};
use vstd::prelude::*;
use vstd::utf8::{encode_scalar, encode_utf8};

verus! {

/// The length of a text in bytes is that of its encoding in UTF-8.
pub proof fn law_bytes_are_those_of_utf8(s: Seq<char>)
    ensures
        byte_len(s) == encode_utf8(s).len(),
    decreases s.len(),
{
    if s.len() > 0 {
        lemma_byte_len_first(s);
        lemma_width(s[0]);
        assert(s.drop_first() =~= s.skip(1));
        law_bytes_are_those_of_utf8(s.skip(1));
    }
}

proof fn lemma_width(c: char)
    ensures
        encode_scalar(c as u32).len() == width(c),
{
    let n = c as u32;
    vstd::utf8::char_is_scalar(c);
    if c <= '\u{7f}' {
        assert(n <= 0x7f);
    } else if c <= '\u{7ff}' {
        assert(0x80 <= n <= 0x7ff);
    } else if c <= '\u{ffff}' {
        assert(0x800 <= n <= 0xffff);
    } else {
        assert(0x10000 <= n);
    }
}

proof fn lemma_byte_len_first(s: Seq<char>)
    requires
        s.len() > 0,
    ensures
        byte_len(s) == width(s[0]) + byte_len(s.skip(1)),
    decreases s.len(),
{
    if s.len() == 1 {
        assert(s.drop_last() =~= Seq::<char>::empty());
        assert(s.skip(1) =~= Seq::<char>::empty());
    } else {
        lemma_byte_len_first(s.drop_last());
        assert(s.drop_last().skip(1) =~= s.skip(1).drop_last());
    }
}

proof fn lemma_ascii_takes_one_byte_each(s: Seq<char>)
    requires
        forall|i: int| 0 <= i < s.len() ==> (#[trigger] s[i]) <= '\u{7f}',
    ensures
        byte_len(s) == s.len(),
    decreases s.len(),
{
    if s.len() > 0 {
        lemma_ascii_takes_one_byte_each(s.drop_last());
    }
}

proof fn lemma_joined_ascii(parts: Seq<Seq<char>>, i: int, k: int)
    requires
        0 <= i < parts.len(),
        0 <= k < parts[i].len(),
    ensures
        join(parts, seq!['\n']).contains(parts[i][k]),
    decreases parts.len(),
{
    let all = join(parts, seq!['\n']);
    if parts.len() > 1 {
        let front = join(parts.drop_last(), seq!['\n']);
        if i == parts.len() - 1 {
            assert(all[front.len() + 1 + k] == parts[i][k]);
        } else {
            lemma_joined_ascii(parts.drop_last(), i, k);
            let n: int = choose|n: int| 0 <= n < front.len() && front[n] == parts[i][k];
            assert(all[n] == parts[i][k]);
        }
    } else {
        assert(all[k] == parts[i][k]);
    }
}

/// A lock file with a checksum of 64 bytes, but not 64 characters, is not taken.
pub proof fn law_torn_checksum_is_refused(text: Seq<char>, i: int, sum: Seq<char>)
    requires
        0 <= i < pieces(text, '\n').len(),
        pieces(text, '\n')[i] == "checksum = \""@ + sum + "\""@,
        !sum.contains('"'),
        encode_utf8(sum).len() == 64,
        sum.len() != 64,
    ensures
        !has_whole_checksums(text),
{
    reveal_strlit("checksum = \"");
    reveal_strlit("checksum = ");
    reveal_strlit("checksum ");
    reveal_strlit("checksum");
    reveal_strlit("\"");
    let line = pieces(text, '\n')[i];
    let start = "checksum = "@;
    law_bytes_are_those_of_utf8(sum);
    assert(is_torn(sum));
    if forall|k: int| 0 <= k < sum.len() ==> (#[trigger] sum[k]) <= '\u{7f}' {
        lemma_ascii_takes_one_byte_each(sum);
    }
    let k: int = choose|k: int| 0 <= k < sum.len() && !((#[trigger] sum[k]) <= '\u{7f}');
    assert(line[12 + k] == sum[k]);
    lemma_join_undoes_pieces(text, '\n');
    lemma_joined_ascii(pieces(text, '\n'), i, 12 + k);
    let n: int = choose|n: int| 0 <= n < text.len() && text[n] == sum[k];
    assert(!(text[n] <= '\u{7f}'));
    assert(!is_ascii(text));
    assert(!is_ascii(line));
    assert(line[0] == 'c');
    assert(!is_comment(line)) by {
        if is_comment(line) {
            let m: int = choose|m: int|
                0 <= m < line.len() && #[trigger] line[m] == '#' && forall|j: int|
                    0 <= j < m ==> line[j] == ' ' || line[j] == '\t';
            if m > 0 {
                assert(line[0] == ' ' || line[0] == '\t');
            }
        }
    }
    let parts = seq![start, sum, Seq::<char>::empty()];
    assert(join(parts, seq!['"']) =~= line) by {
        assert(parts.drop_last() =~= seq![start, sum]);
        assert(parts.drop_last().drop_last() =~= seq![start]);
        assert(join(seq![start], seq!['"']) == start);
        assert(join(seq![start, sum], seq!['"']) =~= start + seq!['"'] + sum);
    }
    assert forall|j: int| 0 <= j < parts.len() implies !(#[trigger] parts[j]).contains('"') by {
        if j == 0 {
            assert(parts[j] == start);
        }
    }
    lemma_pieces_undo_join(parts, '"');
    assert(pieces(line, '"')[1] == sum);
    assert(has_torn(line, '"'));
    assert(!is_whole_line(line));
    assert(line[9] == '=');
    let key = "checksum "@;
    assert(line =~= key + seq!['='] + line.skip(10));
    lemma_before_first(key, '=', line.skip(10));
    assert(key.subrange(0int, 0int + "checksum"@.len()) =~= "checksum"@);
    assert(may_name(line, "checksum"@));
    assert(!is_safe_line(line, may_be_nested(text)));
}

/// A lock file of ASCII characters without a backslash is taken.
pub proof fn law_plain_lock_file_is_taken(text: Seq<char>)
    requires
        forall|i: int|
            0 <= i < text.len() ==> (#[trigger] text[i]) <= '\u{7f}' && text[i] != '\\',
    ensures
        has_whole_checksums(text),
{
    reveal_strlit("\\u");
    reveal_strlit("\\U");
    reveal_strlit("\\x");
    lemma_no_backslash(text, "\\u"@);
    lemma_no_backslash(text, "\\U"@);
    lemma_no_backslash(text, "\\x"@);
}

proof fn lemma_no_backslash(text: Seq<char>, p: Seq<char>)
    requires
        forall|i: int| 0 <= i < text.len() ==> (#[trigger] text[i]) != '\\',
        p.len() > 0,
        p[0] == '\\',
    ensures
        !has_text(text, p),
{
    if has_text(text, p) {
        let i: int = choose|i: int|
            0 <= i <= text.len() - p.len() && #[trigger] text.subrange(i, i + p.len()) == p;
        assert(text.subrange(i, i + p.len())[0] == text[i]);
    }
}

} // verus!
