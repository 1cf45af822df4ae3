//! The grammar of a localisation file: a header line that names the
//! language, then one entry per line, with comments and blank lines anywhere.
//!
//! ```text
//! file    = line *( LF line )
//! line    = *space [ header / entry ] *space [ "#" *any ]
//! header  = "l_" tag ":"
//! entry   = key ( ":" *digit / space ) *space quoted-string
//! key     = 1*( any but space, ":", DQUOTE and "#" )
//! ```
//!
//! The first line that is neither blank nor a comment must be a header; a
//! header that comes later is passed over.

use vstd::prelude::*;
use vstd::slice::slice_subrange;
use vstd::string::StringSliceAdditionalSpecFns;
use vstd::utf8::{decode_utf8, valid_utf8};
use crate::escape::{read_quoted, unescape_from};
use crate::language::Languages;
use crate::number::is_digit;
use crate::ordered_map::{last_wins, OrderedMap};
use crate::text::{chars_of, string_of};

verus! {

/// The byte-order mark that may stand at the start of a file.
pub const BYTE_ORDER_MARK: char = '\u{feff}';

/// Whether `c` is white space: a space, a tab, a carriage return, a line
/// feed or a form feed.
pub open spec fn is_space(c: char) -> bool {
    c == ' ' || c == '\t' || c == '\r' || c == '\n' || c == '\u{c}'
}

/// Whether `c` can stand in a key.
pub open spec fn is_key_char(c: char) -> bool {
    !is_space(c) && c != ':' && c != '"' && c != '#'
}

/// The first position from `i` on that holds no white space.
pub open spec fn spaces_end(s: Seq<char>, i: int) -> int
    decreases s.len() - i,
{
    if 0 <= i < s.len() && is_space(s[i]) {
        spaces_end(s, i + 1)
    } else {
        i
    }
}

/// The first position from `i` on that holds no digit.
pub open spec fn digits_end(s: Seq<char>, i: int) -> int
    decreases s.len() - i,
{
    if 0 <= i < s.len() && is_digit(s[i]) {
        digits_end(s, i + 1)
    } else {
        i
    }
}

/// The first position from `i` on that holds no character of a key.
pub open spec fn key_end(s: Seq<char>, i: int) -> int
    decreases s.len() - i,
{
    if 0 <= i < s.len() && is_key_char(s[i]) {
        key_end(s, i + 1)
    } else {
        i
    }
}

/// What one line of a file says.
pub enum Line {
    /// Nothing: the line is empty, or holds white space or a comment only.
    Blank,
    /// The language of the file, by its identifier.
    Header { tag: Seq<char> },
    /// A key and the text that belongs to it.
    Entry { key: Seq<char>, value: Seq<char>, replaced: bool },
    /// Nothing that the grammar admits.
    Malformed,
}

/// Whether the rest of a line from `i` on is a comment or nothing.
pub open spec fn ends_at(s: Seq<char>, i: int) -> bool {
    i >= s.len() || s[i] == '#'
}

/// Whether `key` is the key of a header line.
pub open spec fn is_header_key(key: Seq<char>) -> bool {
    key.len() >= 2 && key[0] == 'l' && key[1] == '_'
}

/// The entry with the key `key` whose quoted string has to open at position
/// `d` of the line `s`.
pub open spec fn entry_at(s: Seq<char>, key: Seq<char>, d: int) -> Line {
    if 0 <= d < s.len() && s[d] == '"' {
        match unescape_from(s, d + 1) {
            None => Line::Malformed,
            Some(q) => if ends_at(s, spaces_end(s, q.end)) {
                Line::Entry { key, value: q.value, replaced: q.replaced }
            } else {
                Line::Malformed
            },
        }
    } else {
        Line::Malformed
    }
}

/// What the line `s` says.
pub open spec fn scan(s: Seq<char>) -> Line {
    let a = spaces_end(s, 0);
    let b = key_end(s, a);
    let key = s.subrange(a, b);
    if ends_at(s, a) {
        Line::Blank
    } else if b == a || b >= s.len() {
        Line::Malformed
    } else if s[b] == ':' {
        let c = digits_end(s, b + 1);
        let d = spaces_end(s, c);
        if ends_at(s, d) {
            if c == b + 1 && is_header_key(key) {
                Line::Header { tag: key.skip(2) }
            } else {
                Line::Malformed
            }
        } else {
            entry_at(s, key, d)
        }
    } else if is_space(s[b]) {
        entry_at(s, key, spaces_end(s, b))
    } else {
        Line::Malformed
    }
}

/// The lines of `text`: what stands between its line feeds.
pub open spec fn lines_of(text: Seq<char>) -> Seq<Seq<char>>
    decreases text.len(),
{
    if text.len() == 0 {
        seq![Seq::empty()]
    } else {
        let front = lines_of(text.drop_last());
        if text.last() == '\n' {
            front.push(Seq::empty())
        } else {
            front.update(front.len() - 1, front.last().push(text.last()))
        }
    }
}

/// The first line from `i` on that is not blank.
pub open spec fn first_content(lines: Seq<Seq<char>>, i: int) -> int
    decreases lines.len() - i,
{
    if 0 <= i < lines.len() && scan(lines[i]) is Blank {
        first_content(lines, i + 1)
    } else {
        i
    }
}

/// The first line from `i` on that is malformed.
pub open spec fn first_malformed(lines: Seq<Seq<char>>, i: int) -> int
    decreases lines.len() - i,
{
    if 0 <= i < lines.len() && !(scan(lines[i]) is Malformed) {
        first_malformed(lines, i + 1)
    } else {
        i
    }
}

/// The entries of `lines`, in the order of the lines.
pub open spec fn entries_of(lines: Seq<Seq<char>>) -> Seq<(Seq<char>, Seq<char>)>
    decreases lines.len(),
{
    if lines.len() == 0 {
        Seq::empty()
    } else {
        let front = entries_of(lines.drop_last());
        match scan(lines.last()) {
            Line::Entry { key, value, .. } => front.push((key, value)),
            _ => front,
        }
    }
}

/// The numbers of the lines, counted from 0, whose entry holds an escape
/// that named no scalar value and was replaced.
pub open spec fn replaced_in(lines: Seq<Seq<char>>) -> Seq<usize>
    decreases lines.len(),
{
    if lines.len() == 0 {
        Seq::empty()
    } else {
        let front = replaced_in(lines.drop_last());
        match scan(lines.last()) {
            Line::Entry { replaced, .. } => if replaced {
                front.push((lines.len() - 1) as usize)
            } else {
                front
            },
            _ => front,
        }
    }
}

/// Why a file was not read.
#[derive(PartialEq, Eq, Structural, Debug, Clone, Copy)]
pub enum ParseError {
    /// The bytes are not UTF-8.
    InvalidUtf8,
    /// The first line that says anything is no header, or no line says
    /// anything.
    MissingHeader,
    /// The line with this number, counted from 0, is malformed.
    MalformedLine(usize),
}

/// What a file says.
pub struct FileContent {
    /// The language that the header names.
    pub language: Languages,
    /// The entries in the order of their lines.
    pub entries: Seq<(Seq<char>, Seq<char>)>,
    /// The lines in which an escape was replaced.
    pub replaced: Seq<usize>,
}

/// What the lines of a file say together.
pub open spec fn parse_lines(lines: Seq<Seq<char>>) -> Result<FileContent, ParseError> {
    let h = first_content(lines, 0);
    if h >= lines.len() {
        Err(ParseError::MissingHeader)
    } else {
        match scan(lines[h]) {
            Line::Header { tag } => {
                let m = first_malformed(lines, h + 1);
                if m < lines.len() {
                    Err(ParseError::MalformedLine(m as usize))
                } else {
                    Ok(
                        FileContent {
                            language: Languages::of_tag(tag),
                            entries: entries_of(lines),
                            replaced: replaced_in(lines),
                        },
                    )
                }
            },
            Line::Malformed => Err(ParseError::MalformedLine(h as usize)),
            _ => Err(ParseError::MissingHeader),
        }
    }
}

/// `text` without the byte-order mark that it may begin with.
pub open spec fn without_mark(text: Seq<char>) -> Seq<char> {
    if text.len() > 0 && text[0] == BYTE_ORDER_MARK {
        text.skip(1)
    } else {
        text
    }
}

/// What the text of a file says.
pub open spec fn parse_text(text: Seq<char>) -> Result<FileContent, ParseError> {
    parse_lines(lines_of(without_mark(text)))
}

/// What the bytes of a file say.
pub open spec fn parse_bytes(bytes: Seq<u8>) -> Result<FileContent, ParseError> {
    if valid_utf8(bytes) {
        parse_text(decode_utf8(bytes))
    } else {
        Err(ParseError::InvalidUtf8)
    }
}

fn is_space_char(c: char) -> (r: bool)
    ensures
        r == is_space(c),
{
    c == ' ' || c == '\t' || c == '\r' || c == '\n' || c == '\u{c}'
}

/// Whether `c` can stand in a key.
pub fn is_key_character(c: char) -> (r: bool)
    ensures
        r == is_key_char(c),
{
    !is_space_char(c) && c != ':' && c != '"' && c != '#'
}

fn skip_spaces(s: &[char], start: usize) -> (r: usize)
    requires
        start <= s.len(),
    ensures
        r == spaces_end(s@, start as int),
        start <= r <= s.len(),
{
    let mut i: usize = start;
    while i < s.len() && is_space_char(s[i])
        invariant
            start <= i <= s.len(),
            spaces_end(s@, start as int) == spaces_end(s@, i as int),
        decreases s.len() - i,
    {
        i += 1;
    }
    i
}

fn skip_digits(s: &[char], start: usize) -> (r: usize)
    requires
        start <= s.len(),
    ensures
        r == digits_end(s@, start as int),
        start <= r <= s.len(),
{
    let mut i: usize = start;
    while i < s.len() && s[i] >= '0' && s[i] <= '9'
        invariant
            start <= i <= s.len(),
            digits_end(s@, start as int) == digits_end(s@, i as int),
        decreases s.len() - i,
    {
        i += 1;
    }
    i
}

fn skip_key(s: &[char], start: usize) -> (r: usize)
    requires
        start <= s.len(),
    ensures
        r == key_end(s@, start as int),
        start <= r <= s.len(),
{
    let mut i: usize = start;
    while i < s.len() && is_key_character(s[i])
        invariant
            start <= i <= s.len(),
            key_end(s@, start as int) == key_end(s@, i as int),
        decreases s.len() - i,
    {
        i += 1;
    }
    i
}

/// What one line of a file says, as it was read.
#[derive(Debug, Clone, PartialEq, Eq)]
pub enum LineRead {
    /// Nothing: the line is empty, or holds white space or a comment only.
    Blank,
    /// The language of the file, by its identifier.
    Header(String),
    /// A key and the text that belongs to it.
    Entry { key: String, value: String, replaced: bool },
    /// Nothing that the grammar admits.
    Malformed,
}

impl View for LineRead {
    type V = Line;

    open spec fn view(&self) -> Line {
        match self {
            LineRead::Blank => Line::Blank,
            LineRead::Header(tag) => Line::Header { tag: tag@ },
            LineRead::Entry { key, value, replaced } => Line::Entry {
                key: key@,
                value: value@,
                replaced: *replaced,
            },
            LineRead::Malformed => Line::Malformed,
        }
    }
}

fn ends_here(s: &[char], i: usize) -> (r: bool)
    ensures
        r == ends_at(s@, i as int),
{
    i >= s.len() || s[i] == '#'
}

fn read_entry(s: &[char], a: usize, b: usize, d: usize) -> (r: LineRead)
    requires
        a <= b <= s.len(),
    ensures
        r@ == entry_at(s@, s@.subrange(a as int, b as int), d as int),
{
    if d < s.len() && s[d] == '"' {
        match read_quoted(s, d + 1) {
            None => LineRead::Malformed,
            Some(q) => {
                let e = skip_spaces(s, q.end);
                if ends_here(s, e) {
                    let key = string_of(slice_subrange(s, a, b));
                    LineRead::Entry { key, value: q.value, replaced: q.replaced }
                } else {
                    LineRead::Malformed
                }
            },
        }
    } else {
        LineRead::Malformed
    }
}

/// Reads one line, given without its line feed.
pub fn scan_line(s: &[char]) -> (r: LineRead)
    ensures
        r@ == scan(s@),
{
    let a = skip_spaces(s, 0);
    if ends_here(s, a) {
        return LineRead::Blank;
    }
    let b = skip_key(s, a);
    if b == a || b >= s.len() {
        return LineRead::Malformed;
    }
    if s[b] == ':' {
        let c = skip_digits(s, b + 1);
        let d = skip_spaces(s, c);
        if ends_here(s, d) {
            if c == b + 1 && b - a >= 2 && s[a] == 'l' && s[a + 1] == '_' {
                let tag = string_of(slice_subrange(s, a + 2, b));
                assert(s@.subrange(a as int, b as int).skip(2) =~= s@.subrange(a + 2, b as int));
                LineRead::Header(tag)
            } else {
                LineRead::Malformed
            }
        } else {
            read_entry(s, a, b, d)
        }
    } else if is_space_char(s[b]) {
        let d = skip_spaces(s, b);
        read_entry(s, a, b, d)
    } else {
        LineRead::Malformed
    }
}

/// Where the lines of `text` begin and end.
fn split_lines(text: &[char]) -> (ranges: Vec<(usize, usize)>)
    ensures
        ranges@.len() == lines_of(text@).len(),
        forall|k: int|
            0 <= k < ranges@.len() ==> (#[trigger] ranges@[k]).0 <= ranges@[k].1 <= text@.len()
                && lines_of(text@)[k] == text@.subrange(ranges@[k].0 as int, ranges@[k].1 as int),
{
    let mut ranges: Vec<(usize, usize)> = Vec::new();
    let mut start: usize = 0;
    let mut i: usize = 0;
    while i < text.len()
        invariant
            start <= i <= text.len(),
            lines_of(text@.take(i as int)).len() == ranges@.len() + 1,
            forall|k: int|
                0 <= k < ranges@.len() ==> (#[trigger] ranges@[k]).0 <= ranges@[k].1 <= text@.len()
                    && lines_of(text@.take(i as int))[k] == text@.subrange(
                    ranges@[k].0 as int,
                    ranges@[k].1 as int,
                ),
            lines_of(text@.take(i as int)).last() == text@.subrange(start as int, i as int),
        decreases text.len() - i,
    {
        assert(text@.take(i + 1).drop_last() =~= text@.take(i as int));
        if text[i] == '\n' {
            ranges.push((start, i));
            start = i + 1;
        }
        i += 1;
    }
    assert(text@.take(text@.len() as int) =~= text@);
    ranges.push((start, i));
    ranges
}

/// A localisation file that was read.
#[derive(Debug, PartialEq, Eq)]
pub struct LocalisationFile {
    /// The language that the header names.
    pub language: Languages,
    /// The text of each key; where a key stands on several lines, the text
    /// of the last one.
    pub entries: OrderedMap<String>,
    /// The numbers of the lines, counted from 0, in which an escape that
    /// named no scalar value was replaced.
    pub replaced: Vec<usize>,
}

impl LocalisationFile {
    /// Whether this is what `content` says.
    pub open spec fn holds(&self, content: FileContent) -> bool {
        &&& self.language == content.language
        &&& self.entries@ == last_wins(content.entries)
        &&& self.replaced@ == content.replaced
    }
}

/// Whether `r` is the outcome `outcome` of reading a file.
pub open spec fn is_outcome(
    r: Result<LocalisationFile, ParseError>,
    outcome: Result<FileContent, ParseError>,
) -> bool {
    match r {
        Ok(file) => outcome is Ok && file.holds(outcome->Ok_0),
        Err(e) => outcome == Err::<FileContent, ParseError>(e),
    }
}

/// Reads the lines of a file.
fn parse_chars(body: &[char]) -> (r: Result<LocalisationFile, ParseError>)
    ensures
        is_outcome(r, parse_lines(lines_of(body@))),
{
    let ranges = split_lines(body);
    let ghost lines = lines_of(body@);
    let mut language: Option<Languages> = None;
    let mut entries: OrderedMap<String> = OrderedMap::new();
    let mut replaced: Vec<usize> = Vec::new();
    let ghost mut header: int = 0;
    let mut k: usize = 0;
    while k < ranges.len()
        invariant
            k <= ranges@.len(),
            lines == lines_of(body@),
            ranges@.len() == lines.len(),
            forall|j: int|
                0 <= j < ranges@.len() ==> (#[trigger] ranges@[j]).0 <= ranges@[j].1 <= body@.len()
                    && lines[j] == body@.subrange(ranges@[j].0 as int, ranges@[j].1 as int),
            language is None ==> first_content(lines, 0) == first_content(lines, k as int),
            language is Some ==> 0 <= header < k && first_content(lines, 0) == header && scan(
                lines[header],
            ) is Header && language->0 == Languages::of_tag(scan(lines[header])->tag)
                && first_malformed(lines, header + 1) == first_malformed(lines, k as int),
            entries@ == last_wins(entries_of(lines.take(k as int))),
            replaced@ == replaced_in(lines.take(k as int)),
        decreases ranges@.len() - k,
    {
        let range = ranges[k];
        let line = slice_subrange(body, range.0, range.1);
        assert(lines.take(k + 1).drop_last() =~= lines.take(k as int));
        match scan_line(line) {
            LineRead::Blank => {},
            LineRead::Header(tag) => {
                if language.is_none() {
                    language = Some(Languages::from_tag(tag.as_str()));
                    proof {
                        header = k as int;
                    }
                }
            },
            LineRead::Entry { key, value, replaced: was_replaced } => {
                if language.is_none() {
                    return Err(ParseError::MissingHeader);
                }
                proof {
                    let front = entries_of(lines.take(k as int));
                    assert(front.push((key@, value@)).drop_last() =~= front);
                }
                entries.insert(key, value);
                if was_replaced {
                    replaced.push(k);
                }
            },
            LineRead::Malformed => {
                return Err(ParseError::MalformedLine(k));
            },
        }
        k += 1;
    }
    assert(lines.take(k as int) =~= lines);
    match language {
        None => Err(ParseError::MissingHeader),
        Some(language) => Ok(LocalisationFile { language, entries, replaced }),
    }
}

/// Reads the text of a localisation file.
///
/// The file is read whole or not at all: on the first line that the grammar
/// does not admit, the number of that line is returned, and a file whose
/// first line of content is no header has no header.
pub fn parse_localisation_text(text: &str) -> (r: Result<LocalisationFile, ParseError>)
    ensures
        is_outcome(r, parse_text(text@)),
{
    let chars = chars_of(text);
    if chars.len() > 0 && chars[0] == BYTE_ORDER_MARK {
        let body = slice_subrange(chars.as_slice(), 1, chars.len());
        parse_chars(body)
    } else {
        parse_chars(chars.as_slice())
    }
}

/// The text that `bytes` encode, if they are UTF-8.
///
/// Trusted: `std::str::from_utf8` is documented to return the string slice
/// that the bytes encode when they are valid UTF-8, and an error otherwise.
#[verifier::external_body]
fn utf8_text(bytes: &[u8]) -> (r: Option<&str>)
    ensures
        r matches Some(s) ==> valid_utf8(bytes@) && s.spec_bytes() == bytes@,
        r is None ==> !valid_utf8(bytes@),
{
    std::str::from_utf8(bytes).ok()
}

/// Reads the bytes of a localisation file.
pub fn parse_localisation(bytes: &[u8]) -> (r: Result<LocalisationFile, ParseError>)
    ensures
        is_outcome(r, parse_bytes(bytes@)),
{
    match utf8_text(bytes) {
        None => Err(ParseError::InvalidUtf8),
        Some(text) => {
            proof {
                vstd::utf8::encode_utf8_decode_utf8(text@);
            }
            parse_localisation_text(text)
        },
    }
}

} // verus!
