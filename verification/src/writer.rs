//! Writing a localisation file, and the proof that what was written is read
//! back as it was.

use vstd::prelude::*;
use crate::escape::{escape, lemma_unescape_escaped, quote, write_quoted};
use crate::language::{lemma_tag_names_language, Languages};
use crate::localisation::{
    entries_of, first_malformed, is_key_char, is_key_character, key_end, lines_of, parse_text,
    replaced_in, scan, spaces_end, FileContent, Line, ParseError,
};
use crate::ordered_map::OrderedMap;
use crate::text::{chars_of, string_of};

verus! {

/// Whether `key` can be the key of an entry: one character or more, none of
/// them white space, a colon, a double quote or a number sign.
pub open spec fn is_key(key: Seq<char>) -> bool {
    key.len() > 0 && forall|i: int| 0 <= i < key.len() ==> is_key_char(#[trigger] key[i])
}

/// Whether every entry of `entries` has a key that can be written.
pub open spec fn all_keys(entries: Seq<(Seq<char>, Seq<char>)>) -> bool {
    forall|i: int| 0 <= i < entries.len() ==> is_key((#[trigger] entries[i]).0)
}

/// The line that names `language`.
pub open spec fn header_line(language: Languages) -> Seq<char> {
    seq!['l', '_'] + language.tag() + seq![':']
}

/// The line of one entry: a space, the key, a colon, a space and the text
/// in quotes.
pub open spec fn entry_line(entry: (Seq<char>, Seq<char>)) -> Seq<char> {
    seq![' '] + entry.0 + seq![':', ' '] + quote(entry.1)
}

/// The lines of the entries, in their order.
pub open spec fn entry_lines(entries: Seq<(Seq<char>, Seq<char>)>) -> Seq<Seq<char>> {
    Seq::new(entries.len(), |i: int| entry_line(entries[i]))
}

/// The text of a file in `language` that holds `entries`: the header, then
/// one line for each entry.
pub open spec fn serialized(language: Languages, entries: Seq<(Seq<char>, Seq<char>)>) -> Seq<char>
    decreases entries.len(),
{
    if entries.len() == 0 {
        header_line(language)
    } else {
        serialized(language, entries.drop_last()) + seq!['\n'] + entry_line(entries.last())
    }
}

/// Whether `line` holds no line feed.
pub open spec fn one_line(line: Seq<char>) -> bool {
    forall|i: int| 0 <= i < line.len() ==> #[trigger] line[i] != '\n'
}

/// The identifier of every language can stand in a header.
pub proof fn lemma_tag_is_key(language: Languages)
    ensures
        is_key(language.tag()),
{
    reveal_strlit("braz_por");
    reveal_strlit("english");
    reveal_strlit("french");
    reveal_strlit("german");
    reveal_strlit("polish");
    reveal_strlit("russian");
    reveal_strlit("spanish");
    reveal_strlit("simp_chinese");
    reveal_strlit("default");
}

/// What is written for a text holds no line feed.
proof fn lemma_escape_one_line(s: Seq<char>)
    ensures
        one_line(escape(s)),
    decreases s.len(),
{
    if s.len() > 0 {
        lemma_escape_one_line(s.drop_last());
    }
}

/// A text without line feed is one line.
proof fn lemma_lines_single(line: Seq<char>)
    requires
        one_line(line),
    ensures
        lines_of(line) == seq![line],
    decreases line.len(),
{
    if line.len() == 0 {
        assert(line =~= Seq::<char>::empty());
    } else {
        let front = line.drop_last();
        lemma_lines_single(front);
        assert(front.push(line.last()) =~= line);
    }
}

/// A line feed and a line after a text add one line to its lines.
proof fn lemma_lines_append(text: Seq<char>, line: Seq<char>)
    requires
        one_line(line),
    ensures
        lines_of(text + seq!['\n'] + line) == lines_of(text).push(line),
    decreases line.len(),
{
    let whole = text + seq!['\n'] + line;
    if line.len() == 0 {
        assert(whole.drop_last() =~= text);
        assert(line =~= Seq::<char>::empty());
    } else {
        let front = line.drop_last();
        lemma_lines_append(text, front);
        assert(whole.drop_last() =~= text + seq!['\n'] + front);
        assert(front.push(line.last()) =~= line);
    }
}

/// A run of characters that can stand in a key ends where the first other
/// character stands.
proof fn lemma_key_end(s: Seq<char>, from: int, to: int)
    requires
        0 <= from <= to <= s.len(),
        forall|i: int| from <= i < to ==> is_key_char(#[trigger] s[i]),
        to < s.len() ==> !is_key_char(s[to]),
    ensures
        key_end(s, from) == to,
    decreases to - from,
{
    if from < to {
        lemma_key_end(s, from + 1, to);
    }
}

/// The header line of a language is read as the header of that language.
proof fn lemma_scan_header(language: Languages)
    ensures
        scan(header_line(language)) == (Line::Header { tag: language.tag() }),
        one_line(header_line(language)),
{
    lemma_tag_is_key(language);
    let tag = language.tag();
    let line = header_line(language);
    let key = seq!['l', '_'] + tag;
    lemma_key_end(line, 0, key.len() as int);
    assert(line.subrange(0, key.len() as int) =~= key);
    assert(key.skip(2) =~= tag);
}

/// The line of an entry is read as that entry, with nothing replaced.
proof fn lemma_scan_entry(entry: (Seq<char>, Seq<char>))
    requires
        is_key(entry.0),
    ensures
        scan(entry_line(entry)) == (
        Line::Entry { key: entry.0, value: entry.1, replaced: false }),
        one_line(entry_line(entry)),
{
    let key = entry.0;
    let line = entry_line(entry);
    let written = escape(entry.1);
    let b = 1 + key.len() as int;
    let open = b + 2;
    assert(spaces_end(line, 1) == 1);
    lemma_key_end(line, 1, b);
    assert(line.subrange(1, b) =~= key);
    assert(spaces_end(line, b + 2) == b + 2);
    assert(line.subrange(open + 1, open + 1 + written.len()) =~= written);
    lemma_unescape_escaped(line, open + 1, entry.1);
    lemma_escape_one_line(entry.1);
}

/// The lines of a written file are the header line and the lines of the
/// entries.
proof fn lemma_serialized_lines(language: Languages, entries: Seq<(Seq<char>, Seq<char>)>)
    requires
        all_keys(entries),
    ensures
        lines_of(serialized(language, entries)) == seq![header_line(language)] + entry_lines(
            entries,
        ),
    decreases entries.len(),
{
    if entries.len() == 0 {
        lemma_scan_header(language);
        lemma_lines_single(header_line(language));
    } else {
        let front = entries.drop_last();
        lemma_serialized_lines(language, front);
        lemma_scan_entry(entries.last());
        lemma_lines_append(serialized(language, front), entry_line(entries.last()));
    }
}

/// What the header line and the first `n` entry lines say.
proof fn lemma_entry_lines_read(
    language: Languages,
    entries: Seq<(Seq<char>, Seq<char>)>,
    n: int,
)
    requires
        all_keys(entries),
        0 <= n <= entries.len(),
    ensures
        entries_of((seq![header_line(language)] + entry_lines(entries)).take(n + 1))
            == entries.take(n),
        replaced_in((seq![header_line(language)] + entry_lines(entries)).take(n + 1))
            == Seq::<usize>::empty(),
    decreases n,
{
    let lines = seq![header_line(language)] + entry_lines(entries);
    let part = lines.take(n + 1);
    if n == 0 {
        lemma_scan_header(language);
        let none = Seq::<Seq<char>>::empty();
        assert(part.drop_last() =~= none);
        assert(entries_of(none) == Seq::<(Seq<char>, Seq<char>)>::empty());
        assert(replaced_in(none) == Seq::<usize>::empty());
    } else {
        lemma_entry_lines_read(language, entries, n - 1);
        assert(part.drop_last() =~= lines.take(n));
        lemma_scan_entry(entries[n - 1]);
    }
}

/// Where no line from `from` on is malformed, none is found.
proof fn lemma_none_malformed(lines: Seq<Seq<char>>, from: int)
    requires
        0 <= from <= lines.len(),
        forall|i: int| from <= i < lines.len() ==> !(scan(#[trigger] lines[i]) is Malformed),
    ensures
        first_malformed(lines, from) == lines.len(),
    decreases lines.len() - from,
{
    if from < lines.len() {
        lemma_none_malformed(lines, from + 1);
    }
}

/// A written file is read back as the language and the
/// entries that were written, with nothing replaced.
pub proof fn lemma_parse_serialized(language: Languages, entries: Seq<(Seq<char>, Seq<char>)>)
    requires
        all_keys(entries),
    ensures
        parse_text(serialized(language, entries)) == Ok::<FileContent, ParseError>(
            FileContent { language, entries, replaced: Seq::empty() },
        ),
{
    let lines = seq![header_line(language)] + entry_lines(entries);
    lemma_serialized_lines(language, entries);
    lemma_first_char(language, entries);
    lemma_scan_header(language);
    lemma_tag_names_language(language);
    lemma_entry_lines_read(language, entries, entries.len() as int);
    assert forall|i: int| 1 <= i < lines.len() implies !(scan(#[trigger] lines[i]) is Malformed) by {
        lemma_scan_entry(entries[i - 1]);
    }
    lemma_none_malformed(lines, 1);
    assert(lines.take(entries.len() as int + 1) =~= lines);
    assert(entries.take(entries.len() as int) =~= entries);
}

/// A written file begins with the letter of its header.
proof fn lemma_first_char(language: Languages, entries: Seq<(Seq<char>, Seq<char>)>)
    ensures
        serialized(language, entries).len() > 0,
        serialized(language, entries)[0] == 'l',
    decreases entries.len(),
{
    if entries.len() > 0 {
        lemma_first_char(language, entries.drop_last());
    }
}

/// Whether `key` can be the key of an entry.
pub fn is_valid_key(key: &str) -> (r: bool)
    ensures
        r == is_key(key@),
{
    let chars = chars_of(key);
    if chars.len() == 0 {
        return false;
    }
    let mut i: usize = 0;
    while i < chars.len()
        invariant
            i <= chars@.len(),
            chars@ == key@,
            forall|j: int| 0 <= j < i ==> is_key_char(#[trigger] chars@[j]),
        decreases chars@.len() - i,
    {
        if !is_key_character(chars[i]) {
            return false;
        }
        i += 1;
    }
    true
}

fn append_chars(out: &mut Vec<char>, s: &[char])
    ensures
        final(out)@ == old(out)@ + s@,
{
    let ghost before = out@;
    let mut i: usize = 0;
    while i < s.len()
        invariant
            i <= s.len(),
            out@ == before + s@.take(i as int),
        decreases s.len() - i,
    {
        out.push(s[i]);
        i += 1;
    }
}

/// Writes a localisation file in `language` that holds `entries`: the
/// header, then one line for each entry in the order of the keys. `None`
/// where a key cannot be written: an empty one, or one that holds white
/// space, a colon, a double quote or a number sign.
pub fn serialize_localisation(language: Languages, entries: &OrderedMap<String>) -> (r: Option<
    String,
>)
    ensures
        r is Some == all_keys(entries.entries()),
        r matches Some(text) ==> text@ == serialized(language, entries.entries()),
{
    let mut out: Vec<char> = Vec::new();
    out.push('l');
    out.push('_');
    let tag = chars_of(language.name());
    append_chars(&mut out, tag.as_slice());
    out.push(':');
    let n = entries.len();
    let ghost all = entries.entries();
    let mut i: usize = 0;
    while i < n
        invariant
            i <= n,
            n == all.len(),
            all == entries.entries(),
            all_keys(all.take(i as int)),
            out@ == serialized(language, all.take(i as int)),
        decreases n - i,
    {
        let key = entries.key_at(i);
        if !is_valid_key(key.as_str()) {
            return None;
        }
        let key_chars = chars_of(key.as_str());
        let value = chars_of(entries.value_at(i).as_str());
        out.push('\n');
        out.push(' ');
        append_chars(&mut out, key_chars.as_slice());
        out.push(':');
        out.push(' ');
        write_quoted(&mut out, value.as_slice());
        proof {
            let next = all.take(i + 1);
            assert(next.drop_last() =~= all.take(i as int));
        }
        i += 1;
    }
    assert(all.take(n as int) =~= all);
    Some(string_of(out.as_slice()))
}

} // verus!
