//! Scripted variables: merging what the packages define, and putting their
//! values in place of the references `$name$` that a text holds.

use vstd::prelude::*;
use crate::ordered_map::OrderedMap;
use crate::text::{chars_of, matches_at, occurs_at, string_of, views};

verus! {

/// Why the `regex` crate did not compile a pattern.
#[verifier::external_type_specification]
#[verifier::external_body]
pub struct ExRegexError(regex::Error);

/// The pattern of a reference to a variable: a name of one word character
/// or more between two dollar signs.
pub const REFERENCE_PATTERN: &'static str = "\\$\\w+\\$";

/// What the `regex` crate finds of `pattern` in `text`: the successive
/// matches that do not overlap, each by the part of `text` that it covers,
/// or `None` where it does not compile `pattern`.
pub uninterp spec fn pattern_matches(pattern: Seq<char>, text: Seq<char>) -> Option<Seq<Seq<char>>>;

/// What the `regex` crate finds of `pattern` in each of `texts`.
///
/// Trusted: `Regex::new` compiles the pattern or returns an error;
/// `Regex::find_iter` yields the successive non-overlapping matches in a
/// text, and `Match::as_str` the part of the text that a match covers. The
/// contract gives that result a name and says nothing more of it.
#[verifier::external_body]
fn find_matches(pattern: &str, texts: &Vec<String>) -> (r: Result<Vec<Vec<String>>, regex::Error>)
    ensures
        r matches Ok(found) ==> found@.len() == texts@.len() && forall|i: int|
            0 <= i < texts@.len() ==> pattern_matches(pattern@, (#[trigger] texts@[i])@) == Some(
                views(found@[i]@),
            ),
        r is Err ==> forall|i: int|
            0 <= i < texts@.len() ==> pattern_matches(pattern@, (#[trigger] texts@[i])@) is None,
{
    let regex = regex::Regex::new(pattern)?;
    Ok(
        texts.iter().map(
            |text| regex.find_iter(text).map(|found| found.as_str().to_string()).collect(),
        ).collect(),
    )
}

/// The first position from `from` on at which `pattern` stands in `s`.
pub open spec fn first_occurrence(s: Seq<char>, from: int, pattern: Seq<char>) -> Option<int>
    decreases s.len() - from,
{
    if from < 0 || from + pattern.len() > s.len() {
        None
    } else if occurs_at(s, from, pattern) {
        Some(from)
    } else if from < s.len() {
        first_occurrence(s, from + 1, pattern)
    } else {
        None
    }
}

/// The name that a reference holds between its two dollar signs.
pub open spec fn reference_name(reference: Seq<char>) -> Option<Seq<char>> {
    if reference.len() >= 2 && reference[0] == '$' && reference.last() == '$' {
        Some(reference.subrange(1, reference.len() - 1))
    } else {
        None
    }
}

/// What is put in place of `reference`: the value of the variable that it
/// names, or the reference itself where `variables` holds no such variable.
pub open spec fn replacement(reference: Seq<char>, variables: Map<Seq<char>, Seq<char>>) -> Seq<
    char,
> {
    match reference_name(reference) {
        Some(name) => if variables.contains_key(name) {
            variables[name]
        } else {
            reference
        },
        None => reference,
    }
}

/// The text from position `from` on, with each of `references` replaced
/// where it first stands after the one before it. What a replacement puts
/// into the text is not looked at again.
pub open spec fn substituted_from(
    text: Seq<char>,
    from: int,
    references: Seq<Seq<char>>,
    variables: Map<Seq<char>, Seq<char>>,
) -> Seq<char>
    decreases references.len(),
{
    if references.len() == 0 {
        text.skip(from)
    } else {
        let reference = references[0];
        let at = first_occurrence(text, from, reference);
        if reference.len() > 0 && at is Some {
            text.subrange(from, at->0) + replacement(reference, variables) + substituted_from(
                text,
                at->0 + reference.len(),
                references.skip(1),
                variables,
            )
        } else {
            substituted_from(text, from, references.skip(1), variables)
        }
    }
}

/// `text` with each of `references` replaced by the value of its variable.
pub open spec fn substituted(
    text: Seq<char>,
    references: Seq<Seq<char>>,
    variables: Map<Seq<char>, Seq<char>>,
) -> Seq<char> {
    substituted_from(text, 0, references, variables)
}

/// `text` with the value of each variable in place of the references to it
/// that the pattern finds; unchanged where the pattern finds nothing.
pub open spec fn resolved(text: Seq<char>, variables: Map<Seq<char>, Seq<char>>) -> Seq<char> {
    match pattern_matches(REFERENCE_PATTERN@, text) {
        Some(references) => substituted(text, references, variables),
        None => text,
    }
}

/// Where `first_occurrence` finds the pattern, the pattern stands.
pub proof fn lemma_first_occurrence(s: Seq<char>, from: int, pattern: Seq<char>)
    ensures
        first_occurrence(s, from, pattern) matches Some(at) ==> from <= at && occurs_at(
            s,
            at,
            pattern,
        ),
    decreases s.len() - from,
{
    if 0 <= from && from + pattern.len() <= s.len() && !occurs_at(s, from, pattern) && from
        < s.len() {
        lemma_first_occurrence(s, from + 1, pattern);
    }
}

/// Whether `variables` holds none of the variables that `references` name.
pub open spec fn none_defined(
    references: Seq<Seq<char>>,
    variables: Map<Seq<char>, Seq<char>>,
) -> bool {
    forall|k: int|
        0 <= k < references.len() ==> (reference_name(#[trigger] references[k]) matches Some(name)
            ==> !variables.contains_key(name))
}

/// References to variables that are not defined stay in the text as they
/// are: the text from `from` on is not changed.
pub proof fn lemma_undefined_stay_from(
    text: Seq<char>,
    from: int,
    references: Seq<Seq<char>>,
    variables: Map<Seq<char>, Seq<char>>,
)
    requires
        0 <= from <= text.len(),
        none_defined(references, variables),
    ensures
        substituted_from(text, from, references, variables) == text.skip(from),
    decreases references.len(),
{
    if references.len() > 0 {
        let reference = references[0];
        let rest = references.skip(1);
        let at = first_occurrence(text, from, reference);
        lemma_first_occurrence(text, from, reference);
        if reference.len() > 0 && at is Some {
            let end = at->0 + reference.len();
            lemma_undefined_stay_from(text, end, rest, variables);
        } else {
            lemma_undefined_stay_from(text, from, rest, variables);
        }
    }
}

/// A text in which no reference names a defined variable is not changed;
/// so no text is changed where no variable is defined at all.
pub proof fn lemma_undefined_stay(
    text: Seq<char>,
    references: Seq<Seq<char>>,
    variables: Map<Seq<char>, Seq<char>>,
)
    requires
        none_defined(references, variables),
    ensures
        substituted(text, references, variables) == text,
        variables == Map::<Seq<char>, Seq<char>>::empty() ==> resolved(text, variables) == text,
{
    lemma_undefined_stay_from(text, 0, references, variables);
    if variables == Map::<Seq<char>, Seq<char>>::empty() {
        match pattern_matches(REFERENCE_PATTERN@, text) {
            Some(found) => {
                lemma_undefined_stay_from(text, 0, found, variables);
            },
            None => {},
        }
    }
}

/// The first position from `from` on at which `pattern` stands in `s`.
pub fn find_from(s: &[char], from: usize, pattern: &[char]) -> (r: Option<usize>)
    ensures
        r matches Some(at) ==> first_occurrence(s@, from as int, pattern@) == Some(at as int)
            && from <= at && at + pattern@.len() <= s@.len(),
        r is None ==> first_occurrence(s@, from as int, pattern@) is None,
{
    if from > s.len() || pattern.len() > s.len() - from {
        return None;
    }
    let last = s.len() - pattern.len();
    let mut i: usize = from;
    loop
        invariant
            from <= i <= last,
            last == s@.len() - pattern@.len(),
            first_occurrence(s@, from as int, pattern@) == first_occurrence(
                s@,
                i as int,
                pattern@,
            ),
        decreases last - i,
    {
        if matches_at(s, i, pattern) {
            return Some(i);
        }
        if i == last {
            assert(first_occurrence(s@, i + 1, pattern@) is None);
            return None;
        }
        i += 1;
    }
}

fn append(out: &mut Vec<char>, s: &[char], from: usize, to: usize)
    requires
        from <= to <= s.len(),
    ensures
        final(out)@ == old(out)@ + s@.subrange(from as int, to as int),
{
    let ghost before = out@;
    let mut i: usize = from;
    while i < to
        invariant
            from <= i <= to <= s.len(),
            out@ == before + s@.subrange(from as int, i as int),
        decreases to - i,
    {
        out.push(s[i]);
        i += 1;
    }
}

/// Appends to `out` what is put in place of `reference`.
fn append_replacement(out: &mut Vec<char>, reference: &[char], variables: &OrderedMap<String>)
    ensures
        final(out)@ == old(out)@ + replacement(reference@, variables@),
{
    let n = reference.len();
    if n >= 2 && reference[0] == '$' && reference[n - 1] == '$' {
        let name = string_of(vstd::slice::slice_subrange(reference, 1, n - 1));
        match variables.get(name.as_str()) {
            Some(value) => {
                let value = chars_of(value.as_str());
                append(out, value.as_slice(), 0, value.len());
                return ;
            },
            None => {},
        }
    }
    append(out, reference, 0, n);
}

/// Puts the value of each variable in place of the references to it.
///
/// `references` are the references that `text` holds, in the order in which
/// they stand in it. Each is looked for after the end of the one before it
/// and replaced where it first stands: by the value of the variable that it
/// names, or by itself where there is no such variable. One that does not
/// stand there is passed over.
pub fn substitute(text: &str, references: &Vec<String>, variables: &OrderedMap<String>) -> (r:
    String)
    ensures
        r@ == substituted(text@, views(references@), variables@),
{
    let chars = chars_of(text);
    let s = chars.as_slice();
    let ghost all = views(references@);
    let mut out: Vec<char> = Vec::new();
    let mut cursor: usize = 0;
    let mut k: usize = 0;
    assert(s@.len() == s.len());
    assert(all.skip(0) =~= all);
    while k < references.len()
        invariant
            k <= references@.len(),
            cursor <= s@.len() <= usize::MAX,
            all == views(references@),
            out@ + substituted_from(s@, cursor as int, all.skip(k as int), variables@)
                == substituted_from(s@, 0, all, variables@),
        decreases references@.len() - k,
    {
        let reference = chars_of(references[k].as_str());
        let ghost rest = all.skip(k as int);
        assert(rest.skip(1) =~= all.skip(k + 1));
        if reference.len() > 0 {
            match find_from(s, cursor, reference.as_slice()) {
                Some(at) => {
                    append(&mut out, s, cursor, at);
                    append_replacement(&mut out, reference.as_slice(), variables);
                    cursor = at + reference.len();
                },
                None => {},
            }
        }
        k += 1;
    }
    append(&mut out, s, cursor, s.len());
    string_of(out.as_slice())
}

/// The references to variables that the pattern finds in `text`, in their
/// order; `None` where the pattern is not compiled.
pub fn find_references(text: &str) -> (r: Option<Vec<String>>)
    ensures
        r matches Some(found) ==> pattern_matches(REFERENCE_PATTERN@, text@) == Some(
            views(found@),
        ),
        r is None ==> pattern_matches(REFERENCE_PATTERN@, text@) is None,
{
    let mut texts: Vec<String> = Vec::new();
    texts.push(text.to_owned());
    assert(texts@[0]@ == text@);
    match find_matches(REFERENCE_PATTERN, &texts) {
        Ok(found) => {
            let mut found = found;
            found.pop()
        },
        Err(_) => None,
    }
}

/// Puts the value of each variable in place of the references `$name$` to
/// it in `text`. A reference to a variable that `variables` does not hold
/// stays as it is, and what is put in is not looked at again.
pub fn replace_variables(text: &str, variables: &OrderedMap<String>) -> (r: String)
    ensures
        r@ == resolved(text@, variables@),
{
    match find_references(text) {
        Some(found) => substitute(text, &found, variables),
        None => text.to_owned(),
    }
}

/// Each text of `map` with the values of the variables in place of the
/// references to them.
pub open spec fn resolved_map(
    map: Map<Seq<char>, Seq<char>>,
    variables: Map<Seq<char>, Seq<char>>,
) -> Map<Seq<char>, Seq<char>> {
    map.map_values(|text: Seq<char>| resolved(text, variables))
}

/// Puts the values of the variables in place of the references to them in
/// every text of `map`.
pub fn replace_variables_in(map: &OrderedMap<String>, variables: &OrderedMap<String>) -> (r:
    OrderedMap<String>)
    ensures
        r@ == resolved_map(map@, variables@),
{
    let n = map.len();
    let mut texts: Vec<String> = Vec::new();
    let mut i: usize = 0;
    while i < n
        invariant
            i <= n,
            n == map.entries().len(),
            texts@.len() == i,
            forall|j: int| 0 <= j < i ==> (#[trigger] texts@[j])@ == map.entries()[j].1,
        decreases n - i,
    {
        texts.push(map.value_at(i).clone());
        i += 1;
    }
    let found = find_matches(REFERENCE_PATTERN, &texts);
    let mut out: OrderedMap<String> = OrderedMap::new();
    let mut i: usize = 0;
    while i < n
        invariant
            i <= n,
            n == map.entries().len(),
            map.wf(),
            texts@.len() == n,
            forall|j: int| 0 <= j < n ==> (#[trigger] texts@[j])@ == map.entries()[j].1,
            found matches Ok(lists) ==> lists@.len() == n && forall|j: int|
                0 <= j < n ==> pattern_matches(REFERENCE_PATTERN@, (#[trigger] texts@[j])@) == Some(
                    views(lists@[j]@),
                ),
            found is Err ==> forall|j: int|
                0 <= j < n ==> pattern_matches(REFERENCE_PATTERN@, (#[trigger] texts@[j])@) is None,
            forall|key: Seq<char>|
                out@.contains_key(key) <==> exists|j: int|
                    0 <= j < i && (#[trigger] map.entries()[j]).0 == key,
            forall|j: int|
                0 <= j < i ==> out@[(#[trigger] map.entries()[j]).0] == resolved(
                    map.entries()[j].1,
                    variables@,
                ),
        decreases n - i,
    {
        let text = map.value_at(i);
        assert(texts@[i as int]@ == map.entries()[i as int].1);
        let value = match &found {
            Ok(lists) => substitute(text.as_str(), &lists[i], variables),
            Err(_) => text.clone(),
        };
        let ghost before = out@;
        out.insert(map.key_at(i).clone(), value);
        proof {
            let key = map.entries()[i as int].0;
        }
        i += 1;
    }
    proof {
        let want = resolved_map(map@, variables@);
        assert forall|key: Seq<char>| out@.contains_key(key) <==> want.contains_key(key) by {
            crate::ordered_map::lemma_last_wins_contains(map.entries(), key);
        }
        assert forall|key: Seq<char>| out@.contains_key(key) implies out@[key] == want[key] by {
            let j = choose|j: int| 0 <= j < n && (#[trigger] map.entries()[j]).0 == key;
            crate::ordered_map::lemma_ascending_lookup(map.entries(), j);
        }
    }
    out
}

/// What the maps define together when each map overrides the ones before
/// it, key by key.
pub open spec fn overridden(maps: Seq<Map<Seq<char>, Seq<char>>>) -> Map<Seq<char>, Seq<char>>
    decreases maps.len(),
{
    if maps.len() == 0 {
        Map::empty()
    } else {
        overridden(maps.drop_last()).union_prefer_right(maps.last())
    }
}

/// The contents of each map of `list`.
pub open spec fn contents(list: Seq<OrderedMap<String>>) -> Seq<Map<Seq<char>, Seq<char>>> {
    Seq::new(list.len(), |i: int| list[i]@)
}

/// Merges what the packages define, in the order in which the packages are
/// given: for each key, the last package that defines it gives the value.
pub fn merge_variables(packages: &Vec<OrderedMap<String>>) -> (r: OrderedMap<String>)
    ensures
        r.wf(),
        r@ == overridden(contents(packages@)),
{
    let mut merged: OrderedMap<String> = OrderedMap::new();
    let ghost all = contents(packages@);
    let mut i: usize = 0;
    while i < packages.len()
        invariant
            i <= packages@.len(),
            all == contents(packages@),
            merged.wf(),
            merged@ == overridden(all.take(i as int)),
        decreases packages@.len() - i,
    {
        assert(all.take(i + 1).drop_last() =~= all.take(i as int));
        merged.extend_from(&packages[i]);
        i += 1;
    }
    assert(all.take(all.len() as int) =~= all);
    merged
}

/// A key is defined by the merged maps exactly when one of them defines it.
pub proof fn lemma_overridden_contains(maps: Seq<Map<Seq<char>, Seq<char>>>, key: Seq<char>)
    ensures
        overridden(maps).contains_key(key) <==> exists|i: int|
            0 <= i < maps.len() && (#[trigger] maps[i]).contains_key(key),
    decreases maps.len(),
{
    if maps.len() > 0 {
        let front = maps.drop_last();
        lemma_overridden_contains(front, key);
        if overridden(maps).contains_key(key) && !maps.last().contains_key(key) {
            let i = choose|i: int| 0 <= i < front.len() && (#[trigger] front[i]).contains_key(key);
        }
        if exists|i: int| 0 <= i < maps.len() && (#[trigger] maps[i]).contains_key(key) {
            let i = choose|i: int| 0 <= i < maps.len() && (#[trigger] maps[i]).contains_key(key);
            if i < maps.len() - 1 {
                assert(front[i].contains_key(key));
            }
        }
    }
}

/// The value of a key in the merged maps is the one that the
/// last map defining the key gives it.
pub proof fn lemma_last_definition_wins(
    maps: Seq<Map<Seq<char>, Seq<char>>>,
    i: int,
    key: Seq<char>,
)
    requires
        0 <= i < maps.len(),
        maps[i].contains_key(key),
        forall|j: int| i < j < maps.len() ==> !(#[trigger] maps[j]).contains_key(key),
    ensures
        overridden(maps).contains_key(key),
        overridden(maps)[key] == maps[i][key],
    decreases maps.len(),
{
    if i < maps.len() - 1 {
        let front = maps.drop_last();
        lemma_last_definition_wins(front, i, key);
    }
}

} // verus!
