//! Quoted strings of the localisation format: the escape sequences that a
//! quoted string may hold, how a string is written with them, and how it is
//! read back.

use vstd::prelude::*;
use crate::text::{chars_of, push_char};
use crate::text::string_of;

verus! {

/// The character that stands in for an escape naming no Unicode scalar value.
pub const REPLACEMENT: char = '\u{fffd}';

/// Whether `v` is a Unicode scalar value.
pub open spec fn is_scalar(v: int) -> bool {
    0 <= v <= 0xD7FF || 0xE000 <= v <= 0x10FFFF
}

/// The value of a hexadecimal digit, or -1 for any other character.
pub open spec fn hex_value(c: char) -> int {
    if '0' <= c <= '9' {
        c as int - 0x30
    } else if 'a' <= c <= 'f' {
        c as int - 0x61 + 10
    } else if 'A' <= c <= 'F' {
        c as int - 0x41 + 10
    } else {
        -1
    }
}

/// The number that the four characters of `s` from `i` on spell in
/// hexadecimal, or a negative number where one of them is no digit or `s` is
/// too short.
pub open spec fn hex4(s: Seq<char>, i: int) -> int {
    if 0 <= i && i + 4 <= s.len() && hex_value(s[i]) >= 0 && hex_value(s[i + 1]) >= 0 && hex_value(
        s[i + 2],
    ) >= 0 && hex_value(s[i + 3]) >= 0 {
        ((hex_value(s[i]) * 16 + hex_value(s[i + 1])) * 16 + hex_value(s[i + 2])) * 16 + hex_value(
            s[i + 3],
        )
    } else {
        -1
    }
}

/// What one escape sequence stands for.
pub struct Escape {
    /// The character that the sequence stands for.
    pub ch: char,
    /// How many characters the sequence takes after its backslash.
    pub len: int,
    /// Whether the sequence named no scalar value and was replaced.
    pub replaced: bool,
}

/// The escape sequence whose backslash stands just before position `j` of
/// `s`, or `None` where what follows the backslash is no defined sequence.
pub open spec fn escape_at(s: Seq<char>, j: int) -> Option<Escape> {
    if j < 0 || j >= s.len() {
        None
    } else if s[j] == '\\' || s[j] == '/' || s[j] == '"' {
        Some(Escape { ch: s[j], len: 1, replaced: false })
    } else if s[j] == 'b' {
        Some(Escape { ch: '\u{8}', len: 1, replaced: false })
    } else if s[j] == 'f' {
        Some(Escape { ch: '\u{c}', len: 1, replaced: false })
    } else if s[j] == 'n' {
        Some(Escape { ch: '\n', len: 1, replaced: false })
    } else if s[j] == 'r' {
        Some(Escape { ch: '\r', len: 1, replaced: false })
    } else if s[j] == 't' {
        Some(Escape { ch: '\t', len: 1, replaced: false })
    } else if s[j] == 'u' && hex4(s, j + 1) >= 0 {
        if is_scalar(hex4(s, j + 1)) {
            Some(Escape { ch: hex4(s, j + 1) as char, len: 5, replaced: false })
        } else {
            Some(Escape { ch: REPLACEMENT, len: 5, replaced: true })
        }
    } else {
        None
    }
}

/// A quoted string that was read to its closing quote.
pub struct Quoted {
    /// The characters that the string stands for.
    pub value: Seq<char>,
    /// The position just after the closing quote.
    pub end: int,
    /// Whether an escape in it named no scalar value and was replaced.
    pub replaced: bool,
}

/// Puts `c` in front of what was read after it.
pub open spec fn prepend(c: char, replaced: bool, rest: Option<Quoted>) -> Option<Quoted> {
    match rest {
        None => None,
        Some(q) => Some(
            Quoted { value: seq![c] + q.value, end: q.end, replaced: replaced || q.replaced },
        ),
    }
}

/// Reads the inside of a quoted string that begins at position `i` of `s`,
/// just after the opening quote. `None` where the string is not closed or
/// holds a backslash that begins no defined escape sequence.
pub open spec fn unescape_from(s: Seq<char>, i: int) -> Option<Quoted>
    decreases s.len() - i,
{
    if i < 0 || i >= s.len() {
        None
    } else if s[i] == '"' {
        Some(Quoted { value: Seq::empty(), end: i + 1, replaced: false })
    } else if s[i] == '\\' {
        match escape_at(s, i + 1) {
            None => None,
            Some(e) => prepend(e.ch, e.replaced, unescape_from(s, i + 1 + e.len)),
        }
    } else {
        prepend(s[i], false, unescape_from(s, i + 1))
    }
}

/// The string that a text in quotes stands for: `None` unless `s` is one
/// quoted string, from its opening quote to its closing quote.
pub open spec fn parse_quoted(s: Seq<char>) -> Option<Seq<char>> {
    if s.len() > 0 && s[0] == '"' {
        match unescape_from(s, 1) {
            Some(q) => if q.end == s.len() {
                Some(q.value)
            } else {
                None
            },
            None => None,
        }
    } else {
        None
    }
}

/// How one character is written inside a quoted string.
pub open spec fn escape_char(c: char) -> Seq<char> {
    if c == '\\' {
        seq!['\\', '\\']
    } else if c == '"' {
        seq!['\\', '"']
    } else if c == '\u{8}' {
        seq!['\\', 'b']
    } else if c == '\u{c}' {
        seq!['\\', 'f']
    } else if c == '\n' {
        seq!['\\', 'n']
    } else if c == '\r' {
        seq!['\\', 'r']
    } else if c == '\t' {
        seq!['\\', 't']
    } else {
        seq![c]
    }
}

/// How the characters of `s` are written inside a quoted string.
pub open spec fn escape(s: Seq<char>) -> Seq<char>
    decreases s.len(),
{
    if s.len() == 0 {
        Seq::empty()
    } else {
        escape(s.drop_last()) + escape_char(s.last())
    }
}

/// `s` written as a quoted string.
pub open spec fn quote(s: Seq<char>) -> Seq<char> {
    seq!['"'] + escape(s) + seq!['"']
}

/// Writing a string starts with writing its first character.
pub proof fn lemma_escape_front(s: Seq<char>)
    requires
        s.len() > 0,
    ensures
        escape(s) == escape_char(s[0]) + escape(s.skip(1)),
    decreases s.len(),
{
    if s.len() == 1 {
        assert(s.drop_last() =~= Seq::<char>::empty());
        assert(s.skip(1) =~= Seq::<char>::empty());
    } else {
        lemma_escape_front(s.drop_last());
        assert(s.drop_last().skip(1) =~= s.skip(1).drop_last());
    }
}

/// Reading what was written for `s`, wherever it stands in a text `t` and
/// whatever follows its closing quote, gives `s` back with nothing replaced.
pub proof fn lemma_unescape_escaped(t: Seq<char>, i: int, s: Seq<char>)
    requires
        0 <= i,
        i + escape(s).len() < t.len(),
        t.subrange(i, i + escape(s).len()) == escape(s),
        t[i + escape(s).len()] == '"',
    ensures
        unescape_from(t, i) == Some(
            Quoted { value: s, end: i + escape(s).len() + 1, replaced: false },
        ),
    decreases s.len(),
{
    let n = escape(s).len() as int;
    if s.len() == 0 {
        assert(unescape_from(t, i).unwrap().value =~= s);
    } else {
        lemma_escape_front(s);
        let c = s[0];
        let w = escape_char(c);
        let rest = s.skip(1);
        let k = w.len() as int;
        assert forall|j: int| 0 <= j < k implies t[i + j] == w[j] by {
            assert(t.subrange(i, i + n)[j] == escape(s)[j]);
        }
        assert(t.subrange(i + k, i + k + escape(rest).len()) =~= escape(rest)) by {
            assert forall|j: int| 0 <= j < escape(rest).len() implies t.subrange(
                i + k,
                i + k + escape(rest).len(),
            )[j] == escape(rest)[j] by {
                assert(t.subrange(i, i + n)[k + j] == escape(s)[k + j]);
            }
        }
        lemma_unescape_escaped(t, i + k, rest);
        assert(seq![c] + rest =~= s);
    }
}

/// A string written in quotes and read back is the string itself.
pub proof fn lemma_parse_quoted_roundtrip(s: Seq<char>)
    ensures
        parse_quoted(quote(s)) == Some(s),
{
    let t = quote(s);
    assert(t.subrange(1, 1 + escape(s).len() as int) =~= escape(s));
    lemma_unescape_escaped(t, 1, s);
}

/// The character with the scalar value `v`, if there is one.
///
/// Trusted: `char::from_u32` is documented to return `None` exactly when its
/// argument is no Unicode scalar value, and otherwise the `char` with that
/// value.
#[verifier::external_body]
fn char_of_scalar(v: u32) -> (r: Option<char>)
    ensures
        is_scalar(v as int) ==> r is Some && r->0 as u32 == v,
        !is_scalar(v as int) ==> r is None,
{
    char::from_u32(v)
}

fn hex_digit(c: char) -> (r: Option<u32>)
    ensures
        r matches Some(v) ==> hex_value(c) == v && v < 16,
        r is None ==> hex_value(c) < 0,
{
    if c >= '0' && c <= '9' {
        Some(c as u32 - 0x30)
    } else if c >= 'a' && c <= 'f' {
        Some(c as u32 - 0x61 + 10)
    } else if c >= 'A' && c <= 'F' {
        Some(c as u32 - 0x41 + 10)
    } else {
        None
    }
}

fn read_hex4(s: &[char], i: usize) -> (r: Option<u32>)
    ensures
        r matches Some(v) ==> hex4(s@, i as int) == v && v <= 0xFFFF,
        r is None ==> hex4(s@, i as int) < 0,
{
    if s.len() < 4 || i > s.len() - 4 {
        return None;
    }
    let a = hex_digit(s[i]);
    let b = hex_digit(s[i + 1]);
    let c = hex_digit(s[i + 2]);
    let d = hex_digit(s[i + 3]);
    match (a, b, c, d) {
        (Some(a), Some(b), Some(c), Some(d)) => Some(((a * 16 + b) * 16 + c) * 16 + d),
        _ => None,
    }
}

/// What an escape sequence stands for, as it was read.
struct EscapeRead {
    ch: char,
    len: usize,
    replaced: bool,
}

fn read_escape(s: &[char], j: usize) -> (r: Option<EscapeRead>)
    ensures
        r matches Some(e) ==> escape_at(s@, j as int) == Some(
            Escape { ch: e.ch, len: e.len as int, replaced: e.replaced },
        ) && j + e.len <= s.len(),
        r is None ==> escape_at(s@, j as int) is None,
{
    if j >= s.len() {
        return None;
    }
    let c = s[j];
    if c == '\\' || c == '/' || c == '"' {
        Some(EscapeRead { ch: c, len: 1, replaced: false })
    } else if c == 'b' {
        Some(EscapeRead { ch: '\u{8}', len: 1, replaced: false })
    } else if c == 'f' {
        Some(EscapeRead { ch: '\u{c}', len: 1, replaced: false })
    } else if c == 'n' {
        Some(EscapeRead { ch: '\n', len: 1, replaced: false })
    } else if c == 'r' {
        Some(EscapeRead { ch: '\r', len: 1, replaced: false })
    } else if c == 't' {
        Some(EscapeRead { ch: '\t', len: 1, replaced: false })
    } else if c == 'u' {
        match read_hex4(s, j + 1) {
            None => None,
            Some(v) => match char_of_scalar(v) {
                Some(ch) => {
                    proof {
                        vstd::utf8::char_u32_cast(ch, v);
                    }
                    Some(EscapeRead { ch, len: 5, replaced: false })
                },
                None => Some(EscapeRead { ch: REPLACEMENT, len: 5, replaced: true }),
            },
        }
    } else {
        None
    }
}

/// A quoted string as it was read.
pub struct QuotedRead {
    /// The characters that the string stands for.
    pub value: String,
    /// The position just after the closing quote.
    pub end: usize,
    /// Whether an escape in it named no scalar value and was replaced.
    pub replaced: bool,
}

impl View for QuotedRead {
    type V = Quoted;

    open spec fn view(&self) -> Quoted {
        Quoted { value: self.value@, end: self.end as int, replaced: self.replaced }
    }
}

/// What was read so far, put in front of what remains to be read.
pub open spec fn resume(value: Seq<char>, replaced: bool, rest: Option<Quoted>) -> Option<Quoted> {
    match rest {
        None => None,
        Some(q) => Some(
            Quoted { value: value + q.value, end: q.end, replaced: replaced || q.replaced },
        ),
    }
}

/// Reads the inside of a quoted string that begins at position `start` of
/// `s`, just after the opening quote.
pub fn read_quoted(s: &[char], start: usize) -> (r: Option<QuotedRead>)
    ensures
        r matches Some(q) ==> unescape_from(s@, start as int) == Some(q@) && q.end <= s.len(),
        r is None ==> unescape_from(s@, start as int) is None,
{
    if start >= s.len() {
        return None;
    }
    let mut value = String::new();
    let mut replaced = false;
    let mut i: usize = start;
    while i < s.len()
        invariant
            start <= i <= s.len(),
            resume(value@, replaced, unescape_from(s@, i as int)) == unescape_from(
                s@,
                start as int,
            ),
        decreases s.len() - i,
    {
        let c = s[i];
        let ghost before = value@;
        if c == '"' {
            return Some(QuotedRead { value, end: i + 1, replaced });
        } else if c == '\\' {
            match read_escape(s, i + 1) {
                None => {
                    return None;
                },
                Some(e) => {
                    push_char(&mut value, e.ch);
                    replaced = replaced || e.replaced;
                    i = i + 1 + e.len;
                    proof {
                        let rest = unescape_from(s@, i as int);
                        if rest is Some {
                            assert(before + (seq![e.ch] + rest->0.value) =~= value@
                                + rest->0.value);
                        }
                    }
                },
            }
        } else {
            push_char(&mut value, c);
            i = i + 1;
            proof {
                let rest = unescape_from(s@, i as int);
                if rest is Some {
                    assert(before + (seq![c] + rest->0.value) =~= value@ + rest->0.value);
                }
            }
        }
    }
    None
}

/// The string that a text in quotes stands for: `None` unless `s` is one
/// quoted string, from its opening quote to its closing quote, that holds no
/// escape sequence but the defined ones.
pub fn parse_string(s: &str) -> (r: Option<String>)
    ensures
        r matches Some(v) ==> parse_quoted(s@) == Some(v@),
        r is None ==> parse_quoted(s@) is None,
{
    let chars = chars_of(s);
    if chars.len() == 0 || chars[0] != '"' {
        return None;
    }
    match read_quoted(chars.as_slice(), 1) {
        Some(q) => if q.end == chars.len() {
            Some(q.value)
        } else {
            None
        },
        None => None,
    }
}

/// Appends to `out` what is written for `c` inside a quoted string.
fn write_escaped(out: &mut Vec<char>, c: char)
    ensures
        final(out)@ == old(out)@ + escape_char(c),
{
    if c == '\\' || c == '"' {
        out.push('\\');
        out.push(c);
    } else if c == '\u{8}' {
        out.push('\\');
        out.push('b');
    } else if c == '\u{c}' {
        out.push('\\');
        out.push('f');
    } else if c == '\n' {
        out.push('\\');
        out.push('n');
    } else if c == '\r' {
        out.push('\\');
        out.push('r');
    } else if c == '\t' {
        out.push('\\');
        out.push('t');
    } else {
        out.push(c);
    }
}

/// Appends to `out` the characters of `s` as a quoted string.
pub fn write_quoted(out: &mut Vec<char>, s: &[char])
    ensures
        final(out)@ == old(out)@ + quote(s@),
{
    let ghost before = out@;
    out.push('"');
    let mut i: usize = 0;
    while i < s.len()
        invariant
            i <= s.len(),
            out@ == before + seq!['"'] + escape(s@.take(i as int)),
        decreases s.len() - i,
    {
        write_escaped(out, s[i]);
        proof {
            assert(s@.take(i + 1).drop_last() =~= s@.take(i as int));
        }
        i += 1;
    }
    assert(s@.take(s@.len() as int) =~= s@);
    out.push('"');
}

/// `s` written as a quoted string.
pub fn serialize_string(s: &str) -> (r: String)
    ensures
        r@ == quote(s@),
{
    let chars = chars_of(s);
    let mut out: Vec<char> = Vec::new();
    write_quoted(&mut out, chars.as_slice());
    string_of(out.as_slice())
}

} // verus!
