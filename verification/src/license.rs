//! The licenses as JSON.
use crate::order::{ascending, keys_of, OrderedMap};
use crate::text::{has_text, join, lemma_has_text_within, lemma_join_first};
use vstd::prelude::*;

verus! {

/// Why a value could not be written as JSON.
#[verifier::external_type_specification]
#[verifier::external_body]
pub struct ExJsonError(serde_json::Error);

/// A digit of a number to the base sixteen.
pub open spec fn hex_digit(n: int) -> char {
    if n < 10 {
        (48 + n) as char
    } else {
        (87 + n) as char
    }
}

/// A character of a text as JSON writes it.
pub open spec fn json_char(c: char) -> Seq<char> {
    if c == '"' {
        seq!['\\', '"']
    } else if c == '\\' {
        seq!['\\', '\\']
    } else if c == '\u{8}' {
        seq!['\\', 'b']
    } else if c == '\u{c}' {
        seq!['\\', 'f']
    } else if c == '\n' {
        seq!['\\', 'n']
    } else if c == '\r' {
        seq!['\\', 'r']
    } else if c == '\t' {
        seq!['\\', 't']
    } else if c <= '\u{1f}' {
        seq!['\\', 'u', '0', '0', hex_digit(c as int / 16), hex_digit(c as int % 16)]
    } else {
        seq![c]
    }
}

/// The characters of a text as JSON writes them.
pub open spec fn json_chars(text: Seq<char>) -> Seq<char>
    decreases text.len(),
{
    if text.len() == 0 {
        Seq::empty()
    } else {
        json_char(text[0]) + json_chars(text.skip(1))
    }
}

/// A text as JSON writes it, in quotes and with escapes.
pub open spec fn json_string(text: Seq<char>) -> Seq<char> {
    seq!['"'] + json_chars(text) + seq!['"']
}

/// One member of an object, of a key and a value that are written as JSON already.
pub open spec fn json_member(key: Seq<char>, value: Seq<char>) -> Seq<char> {
    "  "@ + key + ": "@ + value
}

/// An object with one member on a line, of keys and values that are written as JSON already.
pub open spec fn json_object(keys: Seq<Seq<char>>, values: Seq<Seq<char>>) -> Seq<char> {
    if keys.len() == 0 {
        "{}"@
    } else {
        "{\n"@ + join(Seq::new(keys.len(), |i: int| json_member(keys[i], values[i])), ",\n"@)
            + "\n}"@
    }
}

/// `serde_json::to_string_pretty` on a `BTreeMap` from text to text: an object with a member for
/// each entry, in ascending order of the keys, on lines of their own and indented by two spaces.
/// It does not fail, since the keys are texts and memory takes what is written. A text is written
/// in quotes; the quote, the backslash and the characters below the space are written as escapes,
/// the others as they are.
#[verifier::external_body]
fn write_json(keys: &Vec<String>, values: &Vec<String>) -> (r: Result<String, serde_json::Error>)
    requires
        ascending::<String>(keys.deep_view()),
        keys@.len() == values@.len(),
    ensures
        r is Ok,
        r->Ok_0@ == json_object(
            keys.deep_view().map_values(|text: Seq<char>| json_string(text)),
            values.deep_view().map_values(|text: Seq<char>| json_string(text)),
        ),
{
    let entries: std::collections::BTreeMap<&String, &String> = keys.iter().zip(values).collect();
    serde_json::to_string_pretty(&entries)
}

/// A map from text to text as a JSON object.
pub open spec fn json_of(entries: Seq<(Seq<char>, Seq<char>)>) -> Seq<char> {
    json_object(
        entries.map_values(|e: (Seq<char>, Seq<char>)| json_string(e.0)),
        entries.map_values(|e: (Seq<char>, Seq<char>)| json_string(e.1)),
    )
}

/// The licenses as a JSON object, in ascending order of their keys. Reading it gives them back.
pub fn licenses_json(licenses: &OrderedMap<String, String>) -> (r: String)
    requires
        licenses.wf(),
    ensures
        r@ == json_of(licenses.deep_view()),
        ascending::<String>(keys_of(licenses.deep_view())),
        read_object(r@) == Some(licenses.deep_view()),
{
    let keys = licenses.keys();
    let values = licenses.values();
    proof {
        licenses.lemma_entries();
        lemma_json_reads_back(licenses.deep_view());
        let entries = licenses.deep_view();
        assert(keys.deep_view().len() == keys@.len());
        assert(values.deep_view().len() == values@.len());
        assert(keys.deep_view().map_values(|text: Seq<char>| json_string(text))
            =~= entries.map_values(|e: (Seq<char>, Seq<char>)| json_string(e.0)));
        assert(values.deep_view().map_values(|text: Seq<char>| json_string(text))
            =~= entries.map_values(|e: (Seq<char>, Seq<char>)| json_string(e.1)));
    }
    write_json(keys, values).unwrap()
}

/// JSON may have that character between its tokens.
pub open spec fn is_json_space(c: char) -> bool {
    c == ' ' || c == '\n' || c == '\r' || c == '\t'
}

/// What follows the space at the start of a JSON text.
pub open spec fn skip_space(s: Seq<char>) -> Seq<char>
    decreases s.len(),
{
    if s.len() > 0 && is_json_space(s[0]) {
        skip_space(s.skip(1))
    } else {
        s
    }
}

/// What a digit to the base sixteen stands for.
pub open spec fn hex_value(c: char) -> Option<int> {
    if '0' <= c <= '9' {
        Some(c as int - 48)
    } else if 'a' <= c <= 'f' {
        Some(c as int - 87)
    } else if 'A' <= c <= 'F' {
        Some(c as int - 55)
    } else {
        None
    }
}

/// The character with the number that four digits give; nothing for half of a pair.
pub open spec fn read_code(s: Seq<char>) -> Option<char> {
    if s.len() < 4 {
        None
    } else {
        match (hex_value(s[0]), hex_value(s[1]), hex_value(s[2]), hex_value(s[3])) {
            (Some(a), Some(b), Some(c), Some(d)) => {
                let n = ((a * 16 + b) * 16 + c) * 16 + d;
                if 0xd800 <= n <= 0xdfff {
                    None
                } else {
                    Some(n as char)
                }
            },
            _ => None,
        }
    }
}

/// The character that an escape stands for, and what follows the escape. `s` starts behind the
/// backslash.
pub open spec fn read_escape(s: Seq<char>) -> Option<(char, Seq<char>)> {
    if s.len() == 0 {
        None
    } else if s[0] == '"' || s[0] == '\\' || s[0] == '/' {
        Some((s[0], s.skip(1)))
    } else if s[0] == 'b' {
        Some(('\u{8}', s.skip(1)))
    } else if s[0] == 'f' {
        Some(('\u{c}', s.skip(1)))
    } else if s[0] == 'n' {
        Some(('\n', s.skip(1)))
    } else if s[0] == 'r' {
        Some(('\r', s.skip(1)))
    } else if s[0] == 't' {
        Some(('\t', s.skip(1)))
    } else if s[0] == 'u' && s.len() >= 5 {
        match read_code(s.skip(1)) {
            Some(c) => Some((c, s.skip(5))),
            None => None,
        }
    } else {
        None
    }
}

/// The rest of a string up to its closing quote, and what follows it.
pub open spec fn read_chars(s: Seq<char>) -> Option<(Seq<char>, Seq<char>)>
    decreases s.len(),
{
    if s.len() == 0 || s[0] <= '\u{1f}' {
        None
    } else if s[0] == '"' {
        Some((Seq::empty(), s.skip(1)))
    } else if s[0] == '\\' {
        match read_escape(s.skip(1)) {
            Some((c, rest)) => match read_chars(rest) {
                Some((text, after)) => Some((seq![c] + text, after)),
                None => None,
            },
            None => None,
        }
    } else {
        match read_chars(s.skip(1)) {
            Some((text, after)) => Some((seq![s[0]] + text, after)),
            None => None,
        }
    }
}

/// The string at the start of a JSON text, and what follows it.
pub open spec fn read_string(s: Seq<char>) -> Option<(Seq<char>, Seq<char>)> {
    if s.len() > 0 && s[0] == '"' {
        read_chars(s.skip(1))
    } else {
        None
    }
}

/// The member at the start of a JSON text, a string as its value, and what follows it.
pub open spec fn read_member(s: Seq<char>) -> Option<((Seq<char>, Seq<char>), Seq<char>)> {
    match read_string(skip_space(s)) {
        Some((key, rest)) => {
            let colon = skip_space(rest);
            if colon.len() > 0 && colon[0] == ':' {
                match read_string(skip_space(colon.skip(1))) {
                    Some((value, after)) => Some(((key, value), after)),
                    None => None,
                }
            } else {
                None
            }
        },
        None => None,
    }
}

/// The members at the start of a JSON text up to the closing brace, and what follows it.
pub open spec fn read_members(s: Seq<char>) -> Option<(Seq<(Seq<char>, Seq<char>)>, Seq<char>)>
    decreases s.len(),
    via read_members_decreases
{
    match read_member(s) {
        Some((entry, rest)) => {
            let next = skip_space(rest);
            if next.len() > 0 && next[0] == ',' {
                match read_members(next.skip(1)) {
                    Some((entries, after)) => Some((seq![entry] + entries, after)),
                    None => None,
                }
            } else if next.len() > 0 && next[0] == '}' {
                Some((seq![entry], next.skip(1)))
            } else {
                None
            }
        },
        None => None,
    }
}

#[via_fn]
proof fn read_members_decreases(s: Seq<char>) {
    if let Some((entry, rest)) = read_member(s) {
        let (key, r) = read_string(skip_space(s))->Some_0;
        let colon = skip_space(r);
        lemma_skip_space_len(s);
        lemma_read_chars_len(skip_space(s).skip(1));
        lemma_skip_space_len(r);
        lemma_skip_space_len(colon.skip(1));
        lemma_read_chars_len(skip_space(colon.skip(1)).skip(1));
        lemma_skip_space_len(rest);
    }
}

/// The members of the object with strings that a JSON text is; nothing for any other text.
pub open spec fn read_object(text: Seq<char>) -> Option<Seq<(Seq<char>, Seq<char>)>> {
    let s = skip_space(text);
    if s.len() == 0 || s[0] != '{' {
        None
    } else {
        let inside = skip_space(s.skip(1));
        let read = if inside.len() > 0 && inside[0] == '}' {
            Some((Seq::empty(), inside.skip(1)))
        } else {
            read_members(s.skip(1))
        };
        match read {
            Some((entries, after)) => if skip_space(after).len() == 0 {
                Some(entries)
            } else {
                None
            },
            None => None,
        }
    }
}

proof fn lemma_skip_space_len(s: Seq<char>)
    ensures
        skip_space(s).len() <= s.len(),
    decreases s.len(),
{
    if s.len() > 0 && is_json_space(s[0]) {
        lemma_skip_space_len(s.skip(1));
    }
}

proof fn lemma_read_chars_len(s: Seq<char>)
    ensures
        read_chars(s) matches Some((text, after)) ==> after.len() < s.len(),
    decreases s.len(),
{
    if s.len() > 0 && s[0] > '\u{1f}' && s[0] != '"' {
        if s[0] == '\\' {
            if let Some((c, rest)) = read_escape(s.skip(1)) {
                lemma_read_chars_len(rest);
            }
        } else {
            lemma_read_chars_len(s.skip(1));
        }
    }
}

proof fn lemma_skip_space(space: Seq<char>, s: Seq<char>)
    requires
        forall|i: int| 0 <= i < space.len() ==> is_json_space(#[trigger] space[i]),
        s.len() > 0 ==> !is_json_space(s[0]),
    ensures
        skip_space(space + s) == s,
    decreases space.len(),
{
    let all = space + s;
    if space.len() == 0 {
        assert(all =~= s);
    } else {
        assert(all[0] == space[0]);
        assert(all.skip(1) =~= space.skip(1) + s);
        lemma_skip_space(space.skip(1), s);
    }
}

proof fn lemma_json_char_reads_back(c: char, s: Seq<char>)
    requires
        c <= '\u{1f}' || c == '"' || c == '\\',
    ensures
        json_char(c).len() > 1,
        json_char(c)[0] == '\\',
        read_escape((json_char(c) + s).skip(1)) == Some((c, s)),
{
    let written = json_char(c);
    let t = (written + s).skip(1);
    assert(t[0] == written[1]);
    assert(s =~= t.skip(written.len() - 1));
    if written.len() == 6 {
        let digits = t.skip(1);
        assert(digits[0] == '0' && digits[1] == '0');
        assert(digits[2] == hex_digit(c as int / 16));
        assert(digits[3] == hex_digit(c as int % 16));
        assert(hex_value(digits[2]) == Some(c as int / 16));
        assert(hex_value(digits[3]) == Some(c as int % 16));
        assert(read_code(digits) == Some(c));
    }
}

proof fn lemma_json_chars_read_back(text: Seq<char>, s: Seq<char>)
    ensures
        read_chars(json_chars(text) + seq!['"'] + s) == Some((text, s)),
    decreases text.len(),
{
    let all = json_chars(text) + seq!['"'] + s;
    if text.len() == 0 {
        assert(all[0] == '"');
        assert(all.skip(1) =~= s);
        assert(text =~= Seq::<char>::empty());
    } else {
        let c = text[0];
        let rest = json_chars(text.skip(1)) + seq!['"'] + s;
        lemma_json_chars_read_back(text.skip(1), s);
        assert(all =~= json_char(c) + rest);
        assert(text =~= seq![c] + text.skip(1));
        if c <= '\u{1f}' || c == '"' || c == '\\' {
            lemma_json_char_reads_back(c, rest);
            assert(all[0] == '\\');
        } else {
            assert(all[0] == c);
            assert(all.skip(1) =~= rest);
        }
    }
}

/// A text that JSON writes reads back.
pub proof fn lemma_json_string_reads_back(text: Seq<char>, s: Seq<char>)
    ensures
        read_string(json_string(text) + s) == Some((text, s)),
{
    let all = json_string(text) + s;
    assert(all[0] == '"');
    assert(all.skip(1) =~= json_chars(text) + seq!['"'] + s);
    lemma_json_chars_read_back(text, s);
}

/// JSON writes no two texts alike.
pub proof fn lemma_json_string_tells_apart(a: Seq<char>, b: Seq<char>)
    requires
        json_string(a) == json_string(b),
    ensures
        a == b,
{
    lemma_json_string_reads_back(a, Seq::empty());
    lemma_json_string_reads_back(b, Seq::empty());
}

proof fn lemma_json_member_reads_back(key: Seq<char>, value: Seq<char>, s: Seq<char>)
    ensures
        read_member("\n"@ + json_member(json_string(key), json_string(value)) + s) == Some(
            ((key, value), s),
        ),
{
    reveal_strlit("\n");
    reveal_strlit("  ");
    reveal_strlit(": ");
    let all = "\n"@ + json_member(json_string(key), json_string(value)) + s;
    let after_key = ": "@ + json_string(value) + s;
    let space = "\n"@ + "  "@;
    let from_key = json_string(key) + after_key;
    assert(all =~= space + from_key);
    assert(from_key[0] == '"');
    lemma_skip_space(space, from_key);
    lemma_json_string_reads_back(key, after_key);
    assert(after_key[0] == ':');
    assert(skip_space(after_key) == after_key);
    let from_value = json_string(value) + s;
    assert(from_value[0] == '"');
    assert(after_key.skip(1) =~= seq![' '] + from_value);
    lemma_skip_space(seq![' '], from_value);
    lemma_json_string_reads_back(value, s);
}

/// The members of an object as JSON writes them.
spec fn json_members(entries: Seq<(Seq<char>, Seq<char>)>) -> Seq<Seq<char>> {
    entries.map_values(
        |e: (Seq<char>, Seq<char>)| json_member(json_string(e.0), json_string(e.1)),
    )
}

proof fn lemma_json_members_read_back(entries: Seq<(Seq<char>, Seq<char>)>)
    requires
        entries.len() > 0,
    ensures
        read_members("\n"@ + join(json_members(entries), ",\n"@) + "\n}"@) == Some(
            (entries, Seq::<char>::empty()),
        ),
    decreases entries.len(),
{
    reveal_strlit("\n");
    reveal_strlit(",\n");
    reveal_strlit("\n}");
    let members = json_members(entries);
    let all = "\n"@ + join(members, ",\n"@) + "\n}"@;
    let entry = entries[0];
    let first = json_member(json_string(entry.0), json_string(entry.1));
    assert(members[0] == first);
    if entries.len() == 1 {
        let after = "\n}"@;
        assert(join(members, ",\n"@) == first);
        lemma_json_member_reads_back(entry.0, entry.1, after);
        assert(after =~= "\n"@ + seq!['}']);
        lemma_skip_space("\n"@, seq!['}']);
        assert(seq!['}'].skip(1) =~= Seq::<char>::empty());
        assert(entries =~= seq![entry]);
    } else {
        let others = entries.skip(1);
        let rest = "\n"@ + join(json_members(others), ",\n"@) + "\n}"@;
        let after = seq![','] + rest;
        lemma_join_first(members, ",\n"@);
        assert(members.skip(1) =~= json_members(others));
        assert(all =~= "\n"@ + first + after);
        lemma_json_member_reads_back(entry.0, entry.1, after);
        assert(skip_space(after) == after);
        assert(after.skip(1) =~= rest);
        lemma_json_members_read_back(others);
        assert(entries =~= seq![entry] + others);
    }
}

/// The JSON object that is written reads back as its entries.
pub proof fn lemma_json_reads_back(entries: Seq<(Seq<char>, Seq<char>)>)
    ensures
        read_object(json_of(entries)) == Some(entries),
{
    reveal_strlit("{}");
    reveal_strlit("{\n");
    reveal_strlit("\n");
    reveal_strlit("  ");
    let text = json_of(entries);
    let nothing = Seq::<char>::empty();
    if entries.len() == 0 {
        let inside = seq!['}'];
        assert(text.skip(1) =~= inside);
        assert(skip_space(inside) == inside);
        assert(inside.skip(1) =~= nothing);
        assert(entries =~= Seq::empty());
    } else {
        let keys = entries.map_values(|e: (Seq<char>, Seq<char>)| json_string(e.0));
        let values = entries.map_values(|e: (Seq<char>, Seq<char>)| json_string(e.1));
        let members = json_members(entries);
        assert(Seq::new(keys.len(), |i: int| json_member(keys[i], values[i])) =~= members);
        let inside = "\n"@ + join(members, ",\n"@) + "\n}"@;
        assert(text =~= seq!['{'] + inside);
        assert(text.skip(1) =~= inside);
        lemma_json_members_read_back(entries);
        if skip_space(inside).len() > 0 && skip_space(inside)[0] == '}' {
            assert(read_string(skip_space(inside)) is None);
            assert(read_member(inside) is None);
        }
    }
}

/// No two lists of entries are written as the same JSON object.
pub proof fn lemma_json_tells_apart(
    a: Seq<(Seq<char>, Seq<char>)>,
    b: Seq<(Seq<char>, Seq<char>)>,
)
    requires
        json_of(a) == json_of(b),
    ensures
        a == b,
{
    lemma_json_reads_back(a);
    lemma_json_reads_back(b);
}

proof fn lemma_join_has_each(parts: Seq<Seq<char>>, sep: Seq<char>, i: int)
    requires
        0 <= i < parts.len(),
    ensures
        has_text(join(parts, sep), parts[i]),
    decreases parts.len(),
{
    let last = parts.last();
    let nothing = Seq::<char>::empty();
    assert(last.subrange(0int, 0int + last.len()) =~= last);
    if parts.len() == 1 {
        assert(join(parts, sep) == last);
    } else {
        let front = join(parts.drop_last(), sep);
        assert(join(parts, sep) =~= front + sep + last);
        if i == parts.len() - 1 {
            lemma_has_text_within(front + sep, last, nothing, last);
            assert(front + sep + last + nothing =~= front + sep + last);
        } else {
            lemma_join_has_each(parts.drop_last(), sep, i);
            lemma_has_text_within(nothing, front, sep + last, parts[i]);
            assert(nothing + front + (sep + last) =~= front + sep + last);
        }
    }
}

/// The JSON object has a member for each entry.
pub proof fn lemma_json_has_each(entries: Seq<(Seq<char>, Seq<char>)>, i: int)
    requires
        0 <= i < entries.len(),
    ensures
        has_text(
            json_of(entries),
            json_member(json_string(entries[i].0), json_string(entries[i].1)),
        ),
{
    let keys = entries.map_values(|e: (Seq<char>, Seq<char>)| json_string(e.0));
    let values = entries.map_values(|e: (Seq<char>, Seq<char>)| json_string(e.1));
    let members = Seq::new(keys.len(), |j: int| json_member(keys[j], values[j]));
    lemma_join_has_each(members, ",\n"@, i);
    lemma_has_text_within("{\n"@, join(members, ",\n"@), "\n}"@, members[i]);
}

} // verus!
