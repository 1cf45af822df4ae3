//! Splitting a localisation text into plain text, colour codes and
//! references to variables.

use vstd::prelude::*;
use vstd::slice::slice_subrange;
use crate::color::{code_of, color_of, is_color_char, is_color_letter, ColorCode, MARKER};
use crate::text::{chars_of, string_of, views};
use crate::variables::{
    find_from, find_references, first_occurrence, lemma_first_occurrence, pattern_matches,
    reference_name, REFERENCE_PATTERN,
};

verus! {

/// A part of a localisation text.
#[derive(Debug, Clone, PartialEq, Eq)]
pub enum Token {
    /// The marker and `!`: back to the colour before the last change.
    ColorEnd,
    /// A reference to a variable, by the name between its dollar signs.
    Variable(String),
    /// The marker and the letter of a colour.
    ColorCode(ColorCode),
    /// Text that is none of the others.
    Text(String),
}

/// A `Token` by the characters that it holds.
pub enum TokenView {
    ColorEnd,
    Variable(Seq<char>),
    ColorCode(ColorCode),
    Text(Seq<char>),
}

impl View for Token {
    type V = TokenView;

    open spec fn view(&self) -> TokenView {
        match self {
            Token::ColorEnd => TokenView::ColorEnd,
            Token::Variable(name) => TokenView::Variable(name@),
            Token::ColorCode(color) => TokenView::ColorCode(*color),
            Token::Text(text) => TokenView::Text(text@),
        }
    }
}

/// What each token of `tokens` holds.
pub open spec fn token_views(tokens: Seq<Token>) -> Seq<TokenView> {
    Seq::new(tokens.len(), |k: int| tokens[k]@)
}

/// Whether a colour code or the end of a colour begins at position `i`: the
/// marker, followed by the letter of a colour or by `!`.
pub open spec fn is_code_at(s: Seq<char>, i: int) -> bool {
    0 <= i && i + 1 < s.len() && s[i] == MARKER && (s[i + 1] == '!' || is_color_letter(s[i + 1]))
}

/// The token of the code that begins at position `i`.
pub open spec fn code_token(s: Seq<char>, i: int) -> TokenView {
    if s[i + 1] == '!' {
        TokenView::ColorEnd
    } else {
        TokenView::ColorCode(color_of(s[i + 1]))
    }
}

/// Where the plain text that begins at position `i` ends: at the next code,
/// or at the end of `s`. A marker that begins no code is plain text.
pub open spec fn run_end(s: Seq<char>, i: int) -> int
    decreases s.len() - i,
{
    if i < 0 || i + 1 >= s.len() {
        s.len() as int
    } else if is_code_at(s, i + 1) {
        i + 1
    } else {
        run_end(s, i + 1)
    }
}

/// The codes and the plain text of `s` from position `from` on, in their
/// order; plain text between two codes is one token.
pub open spec fn color_tokens(s: Seq<char>, from: int) -> Seq<TokenView>
    decreases s.len() - from,
{
    if from < 0 || from >= s.len() {
        Seq::empty()
    } else if is_code_at(s, from) {
        seq![code_token(s, from)] + color_tokens(s, from + 2)
    } else {
        let end = run_end(s, from);
        if from < end <= s.len() {
            seq![TokenView::Text(s.subrange(from, end))] + color_tokens(s, end)
        } else {
            Seq::empty()
        }
    }
}

/// The token of a reference: the variable that it names. A text that is no
/// reference is read for its codes and plain text.
pub open spec fn reference_tokens(reference: Seq<char>) -> Seq<TokenView> {
    match reference_name(reference) {
        Some(name) => seq![TokenView::Variable(name)],
        None => color_tokens(reference, 0),
    }
}

/// The tokens of `text` from position `from` on, where `references` are the
/// references that it holds: each is looked for after the end of the one
/// before it, and what stands before it is read for its codes and plain
/// text.
pub open spec fn tokens_from(text: Seq<char>, from: int, references: Seq<Seq<char>>) -> Seq<
    TokenView,
>
    decreases references.len(),
{
    if references.len() == 0 {
        color_tokens(text.skip(from), 0)
    } else {
        let reference = references[0];
        let at = first_occurrence(text, from, reference);
        if reference.len() > 0 && at is Some {
            color_tokens(text.subrange(from, at->0), 0) + reference_tokens(reference)
                + tokens_from(text, at->0 + reference.len(), references.skip(1))
        } else {
            tokens_from(text, from, references.skip(1))
        }
    }
}

/// The tokens of `text`, where the pattern of a reference finds the
/// references; without it, the codes and the plain text only.
pub open spec fn tokens_of(text: Seq<char>) -> Seq<TokenView> {
    match pattern_matches(REFERENCE_PATTERN@, text) {
        Some(references) => tokens_from(text, 0, references),
        None => color_tokens(text, 0),
    }
}

/// The positions before `n` that hold a marker which begins no code.
pub open spec fn unrecognized_before(s: Seq<char>, n: int) -> Seq<usize>
    decreases n,
{
    if n <= 0 {
        Seq::empty()
    } else {
        let front = unrecognized_before(s, n - 1);
        if n - 1 < s.len() && s[n - 1] == MARKER && !is_code_at(s, n - 1) {
            front.push((n - 1) as usize)
        } else {
            front
        }
    }
}

/// The positions of `s` that hold a marker which begins no code.
pub open spec fn unrecognized_markers(s: Seq<char>) -> Seq<usize> {
    unrecognized_before(s, s.len() as int)
}

fn code_at(s: &[char], i: usize) -> (r: bool)
    ensures
        r == is_code_at(s@, i as int),
{
    i < s.len() && s.len() - i > 1 && s[i] == MARKER && (s[i + 1] == '!' || is_color_char(s[i + 1]))
}

/// The plain text that begins at `i` goes on to some position after `i`.
proof fn lemma_run_end(s: Seq<char>, i: int)
    requires
        0 <= i < s.len(),
    ensures
        i < run_end(s, i) <= s.len(),
    decreases s.len() - i,
{
    if i + 1 < s.len() && !is_code_at(s, i + 1) {
        lemma_run_end(s, i + 1);
    }
}

/// Appends to `out` the codes and the plain text of `s`.
fn lex_colors(s: &[char], out: &mut Vec<Token>)
    ensures
        token_views(final(out)@) == token_views(old(out)@) + color_tokens(s@, 0),
{
    let ghost before = token_views(out@);
    let mut i: usize = 0;
    while i < s.len()
        invariant
            i <= s.len(),
            token_views(out@) + color_tokens(s@, i as int) == before + color_tokens(s@, 0),
        decreases s.len() - i,
    {
        if code_at(s, i) {
            let token = if s[i + 1] == '!' {
                Token::ColorEnd
            } else {
                Token::ColorCode(ColorCode::from(s[i + 1]))
            };
            out.push(token);
            i = i + 2;
        } else {
            let mut end: usize = i + 1;
            while end < s.len() && !code_at(s, end)
                invariant
                    i < end <= s.len(),
                    run_end(s@, i as int) == run_end(s@, end - 1),
                decreases s.len() - end,
            {
                end += 1;
            }
            let text = string_of(slice_subrange(s, i, end));
            out.push(Token::Text(text));
            proof {
                let token = TokenView::Text(s@.subrange(i as int, end as int));
            }
            i = end;
        }
    }
}

/// Appends to `out` the token of `reference`.
fn lex_reference(reference: &[char], out: &mut Vec<Token>)
    ensures
        token_views(final(out)@) == token_views(old(out)@) + reference_tokens(reference@),
{
    let n = reference.len();
    let ghost before = token_views(out@);
    if n >= 2 && reference[0] == '$' && reference[n - 1] == '$' {
        out.push(Token::Variable(string_of(slice_subrange(reference, 1, n - 1))));
    } else {
        lex_colors(reference, out);
    }
}

/// Splits `text` into its tokens.
///
/// `references` are the references to variables that `text` holds, in the
/// order in which they stand in it. Each is looked for after the end of the
/// one before it; one that does not stand there is passed over. What stands
/// between them is split into colour codes and plain text.
pub fn tokenize(text: &str, references: &Vec<String>) -> (r: Vec<Token>)
    ensures
        token_views(r@) == tokens_from(text@, 0, views(references@)),
{
    let chars = chars_of(text);
    let s = chars.as_slice();
    let ghost all = views(references@);
    let mut out: Vec<Token> = Vec::new();
    let mut cursor: usize = 0;
    let mut k: usize = 0;
    assert(s@.len() == s.len());
    assert(all.skip(0) =~= all);
    while k < references.len()
        invariant
            k <= references@.len(),
            cursor <= s@.len() <= usize::MAX,
            all == views(references@),
            token_views(out@) + tokens_from(s@, cursor as int, all.skip(k as int))
                == tokens_from(s@, 0, all),
        decreases references@.len() - k,
    {
        let reference = chars_of(references[k].as_str());
        let ghost rest = all.skip(k as int);
        assert(rest.skip(1) =~= all.skip(k + 1));
        if reference.len() > 0 {
            match find_from(s, cursor, reference.as_slice()) {
                Some(at) => {
                    lex_colors(slice_subrange(s, cursor, at), &mut out);
                    lex_reference(reference.as_slice(), &mut out);
                    cursor = at + reference.len();
                },
                None => {},
            }
        }
        k += 1;
    }
    lex_colors(slice_subrange(s, cursor, s.len()), &mut out);
    out
}

/// A localisation text split into its tokens.
#[derive(Debug, Clone, PartialEq, Eq)]
pub struct Lexed {
    /// The tokens, in their order.
    pub tokens: Vec<Token>,
    /// The positions, counted in characters from 0, of the markers that
    /// begin no colour code. Each is part of a plain text.
    pub unrecognized: Vec<usize>,
}

/// The positions of `s` that hold a marker which begins no code.
pub fn find_unrecognized(s: &[char]) -> (r: Vec<usize>)
    ensures
        r@ == unrecognized_markers(s@),
{
    let mut found: Vec<usize> = Vec::new();
    let mut i: usize = 0;
    while i < s.len()
        invariant
            i <= s.len(),
            found@ == unrecognized_before(s@, i as int),
        decreases s.len() - i,
    {
        if s[i] == MARKER && !code_at(s, i) {
            found.push(i);
        }
        i += 1;
    }
    found
}

/// Splits a localisation text into plain text, colour codes and references
/// to variables, and says where a marker announces no colour.
pub fn parse_localisation_token(s: &str) -> (r: Lexed)
    ensures
        token_views(r.tokens@) == tokens_of(s@),
        r.unrecognized@ == unrecognized_markers(s@),
{
    let chars = chars_of(s);
    let unrecognized = find_unrecognized(chars.as_slice());
    let tokens = match find_references(s) {
        Some(references) => tokenize(s, &references),
        None => {
            let mut out: Vec<Token> = Vec::new();
            lex_colors(chars.as_slice(), &mut out);
            out
        },
    };
    Lexed { tokens, unrecognized }
}

/// How a token is written in a text.
pub open spec fn written(token: TokenView) -> Seq<char> {
    match token {
        TokenView::ColorEnd => seq![MARKER, '!'],
        TokenView::Variable(name) => seq!['$'] + name + seq!['$'],
        TokenView::ColorCode(color) => code_of(color),
        TokenView::Text(text) => text,
    }
}

/// The text that the tokens make, one after the other.
pub open spec fn written_all(tokens: Seq<TokenView>) -> Seq<char>
    decreases tokens.len(),
{
    if tokens.len() == 0 {
        Seq::empty()
    } else {
        written_all(tokens.drop_last()) + written(tokens.last())
    }
}

/// The text of two lists of tokens is the text of the one, then that of the
/// other.
proof fn lemma_written_concat(a: Seq<TokenView>, b: Seq<TokenView>)
    ensures
        written_all(a + b) == written_all(a) + written_all(b),
    decreases b.len(),
{
    if b.len() > 0 {
        lemma_written_concat(a, b.drop_last());
        assert((a + b).drop_last() =~= a + b.drop_last());
    }
}

proof fn lemma_written_one(token: TokenView)
    ensures
        written_all(seq![token]) == written(token),
{
    assert(written_all(seq![token].drop_last()) =~= Seq::<char>::empty());
}

/// The codes and the plain text of a text make the text again.
pub proof fn lemma_color_tokens_lossless(s: Seq<char>, from: int)
    requires
        0 <= from <= s.len(),
    ensures
        written_all(color_tokens(s, from)) == s.skip(from),
    decreases s.len() - from,
{
    if from < s.len() && is_code_at(s, from) {
        let token = code_token(s, from);
        lemma_color_tokens_lossless(s, from + 2);
        lemma_written_one(token);
        lemma_written_concat(seq![token], color_tokens(s, from + 2));
    } else if from < s.len() {
        let end = run_end(s, from);
        lemma_run_end(s, from);
        let token = TokenView::Text(s.subrange(from, end));
        lemma_color_tokens_lossless(s, end);
        lemma_written_one(token);
        lemma_written_concat(seq![token], color_tokens(s, end));
    }
}

/// The tokens of a text make the text again, whatever the references given.
pub proof fn lemma_tokens_lossless(text: Seq<char>, from: int, references: Seq<Seq<char>>)
    requires
        0 <= from <= text.len(),
    ensures
        written_all(tokens_from(text, from, references)) == text.skip(from),
    decreases references.len(),
{
    if references.len() == 0 {
        lemma_color_tokens_lossless(text.skip(from), 0);
    } else {
        let reference = references[0];
        let at = first_occurrence(text, from, reference);
        lemma_first_occurrence(text, from, reference);
        if reference.len() > 0 && at is Some {
            let end = at->0 + reference.len();
            let before = color_tokens(text.subrange(from, at->0), 0);
            let middle = reference_tokens(reference);
            let after = tokens_from(text, end, references.skip(1));
            lemma_color_tokens_lossless(text.subrange(from, at->0), 0);
            match reference_name(reference) {
                Some(name) => {
                    lemma_written_one(TokenView::Variable(name));
                },
                None => {
                    lemma_color_tokens_lossless(reference, 0);
                },
            }
            lemma_tokens_lossless(text, end, references.skip(1));
            lemma_written_concat(before, middle);
            lemma_written_concat(before + middle, after);
        } else {
            lemma_tokens_lossless(text, from, references.skip(1));
        }
    }
}

/// Nothing of a text is lost when it is split into tokens.
pub proof fn lemma_tokens_of_lossless(text: Seq<char>)
    ensures
        written_all(tokens_of(text)) == text,
{
    match pattern_matches(REFERENCE_PATTERN@, text) {
        Some(references) => {
            lemma_tokens_lossless(text, 0, references);
        },
        None => {
            lemma_color_tokens_lossless(text, 0);
        },
    }
}

/// The text that the tokens make, one after the other.
pub fn write_tokens(tokens: &Vec<Token>) -> (r: String)
    ensures
        r@ == written_all(token_views(tokens@)),
{
    let mut out: Vec<char> = Vec::new();
    let ghost all = token_views(tokens@);
    let mut i: usize = 0;
    while i < tokens.len()
        invariant
            i <= tokens@.len(),
            all == token_views(tokens@),
            out@ == written_all(all.take(i as int)),
        decreases tokens@.len() - i,
    {
        assert(all.take(i + 1).drop_last() =~= all.take(i as int));
        let ghost before = out@;
        match &tokens[i] {
            Token::ColorEnd => {
                out.push(MARKER);
                out.push('!');
            },
            Token::Variable(name) => {
                let name = chars_of(name.as_str());
                out.push('$');
                let ghost dollar = out@;
                let mut k: usize = 0;
                while k < name.len()
                    invariant
                        k <= name@.len(),
                        out@ == dollar + name@.take(k as int),
                    decreases name@.len() - k,
                {
                    out.push(name[k]);
                    k += 1;
                }
                out.push('$');
            },
            Token::ColorCode(color) => {
                out.push(MARKER);
                out.push(char::from(*color));
            },
            Token::Text(text) => {
                let text = chars_of(text.as_str());
                let mut k: usize = 0;
                while k < text.len()
                    invariant
                        k <= text@.len(),
                        out@ == before + text@.take(k as int),
                    decreases text@.len() - k,
                {
                    out.push(text[k]);
                    k += 1;
                }
            },
        }
        i += 1;
    }
    assert(all.take(all.len() as int) =~= all);
    string_of(out.as_slice())
}

} // verus!
