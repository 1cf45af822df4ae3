//! Folding the flat entries of one language into one record per stem: the
//! text of a stem, its name and its description.

use vstd::prelude::*;
use crate::ordered_map::{lemma_last_wins_contains, OrderedMap};
use vstd::slice::slice_subrange;
use crate::text::{
    chars_of, copy_optional, optional_view, string_of, strip_suffix, strip_suffix_end,
};

verus! {

/// The text that belongs to one stem.
#[derive(PartialEq, Eq, Hash, Clone, Default, Debug)]
pub struct Text {
    pub value: String,
    pub name: Option<String>,
    pub description: Option<String>,
}

/// A `Text` by the characters that it holds.
pub struct TextView {
    pub value: Seq<char>,
    pub name: Option<Seq<char>>,
    pub description: Option<Seq<char>>,
}

impl View for Text {
    type V = TextView;

    open spec fn view(&self) -> TextView {
        TextView {
            value: self.value@,
            name: optional_view(self.name),
            description: optional_view(self.description),
        }
    }
}

impl Text {
    /// A record with the same text.
    pub fn duplicate(&self) -> (r: Text)
        ensures
            r@ == self@,
    {
        Text {
            value: self.value.clone(),
            name: copy_optional(&self.name),
            description: copy_optional(&self.description),
        }
    }
}

/// Whether `c` separates a stem from `name` or `desc`.
pub open spec fn is_separator(c: char) -> bool {
    c == ':' || c == '_' || c == '.'
}

/// `s` without the separators at its end.
pub open spec fn strip_separators(s: Seq<char>) -> Seq<char>
    decreases s.len(),
{
    if s.len() > 0 && is_separator(s.last()) {
        strip_separators(s.drop_last())
    } else {
        s
    }
}

/// The four letters `name`.
pub open spec fn name_suffix() -> Seq<char> {
    seq!['n', 'a', 'm', 'e']
}

/// The four letters `desc`.
pub open spec fn desc_suffix() -> Seq<char> {
    seq!['d', 'e', 's', 'c']
}

/// The stem of a key: the key without `name` at its end, then without `desc`
/// at its end, then without the separators at its end.
pub open spec fn stem_of(key: Seq<char>) -> Seq<char> {
    strip_separators(strip_suffix(strip_suffix(key, name_suffix()), desc_suffix()))
}

/// `s` without one double quote at its start and one at its end, where they
/// stand there.
pub open spec fn unquote(s: Seq<char>) -> Seq<char> {
    let t = if s.len() > 0 && s[0] == '"' {
        s.skip(1)
    } else {
        s
    };
    if t.len() > 0 && t.last() == '"' {
        t.drop_last()
    } else {
        t
    }
}

/// The unquoted text of `first`, or else of `second`, in `map`.
pub open spec fn either(map: Map<Seq<char>, Seq<char>>, first: Seq<char>, second: Seq<char>) -> Option<
    Seq<char>,
> {
    if map.contains_key(first) {
        Some(unquote(map[first]))
    } else if map.contains_key(second) {
        Some(unquote(map[second]))
    } else {
        None
    }
}

/// The name of `stem`: the text of `stem_name`, or else of `stem.name`.
pub open spec fn name_of(map: Map<Seq<char>, Seq<char>>, stem: Seq<char>) -> Option<Seq<char>> {
    either(map, stem + seq!['_'] + name_suffix(), stem + seq!['.'] + name_suffix())
}

/// The description of `stem`: the text of `stem_desc`, or else of
/// `stem.desc`.
pub open spec fn description_of(map: Map<Seq<char>, Seq<char>>, stem: Seq<char>) -> Option<
    Seq<char>,
> {
    either(map, stem + seq!['_'] + desc_suffix(), stem + seq!['.'] + desc_suffix())
}

/// The record of `stem`, if `map` holds its text, its name or its
/// description. Its value is the text of `stem` itself, or else the name, or
/// else the description.
pub open spec fn record_of(map: Map<Seq<char>, Seq<char>>, stem: Seq<char>) -> Option<TextView> {
    let name = name_of(map, stem);
    let description = description_of(map, stem);
    if map.contains_key(stem) {
        Some(TextView { value: unquote(map[stem]), name, description })
    } else if name is Some {
        Some(TextView { value: name->0, name, description })
    } else if description is Some {
        Some(TextView { value: description->0, name, description })
    } else {
        None
    }
}

/// Whether `stem` is the stem of a key of `map`.
pub open spec fn is_stem(map: Map<Seq<char>, Seq<char>>, stem: Seq<char>) -> bool {
    exists|key: Seq<char>| map.contains_key(key) && #[trigger] stem_of(key) == stem
}

/// The records of all stems of `map` that have one.
pub open spec fn folded(map: Map<Seq<char>, Seq<char>>) -> Map<Seq<char>, TextView> {
    Map::new(
        |stem: Seq<char>| is_stem(map, stem) && record_of(map, stem) is Some,
        |stem: Seq<char>| record_of(map, stem)->0,
    )
}

fn is_separator_char(c: char) -> (r: bool)
    ensures
        r == is_separator(c),
{
    c == ':' || c == '_' || c == '.'
}

/// How long the stem of `key` is.
fn stem_len(key: &[char]) -> (n: usize)
    ensures
        n <= key.len(),
        key@.take(n as int) == stem_of(key@),
{
    let name: [char; 4] = ['n', 'a', 'm', 'e'];
    let desc: [char; 4] = ['d', 'e', 's', 'c'];
    assert(key@.subrange(0, key@.len() as int) =~= key@);
    let a = strip_suffix_end(key, 0, key.len(), name.as_slice());
    let b = strip_suffix_end(key, 0, a, desc.as_slice());
    let mut n: usize = b;
    while n > 0 && is_separator_char(key[n - 1])
        invariant
            n <= b <= key.len(),
            strip_separators(key@.take(n as int)) == strip_separators(key@.take(b as int)),
        decreases n,
    {
        assert(key@.take(n as int).drop_last() =~= key@.take(n - 1));
        n = n - 1;
    }
    n
}

/// The stem of `key`.
pub fn stem(key: &str) -> (r: String)
    ensures
        r@ == stem_of(key@),
{
    let chars = chars_of(key);
    let n = stem_len(chars.as_slice());
    string_of(slice_subrange(chars.as_slice(), 0, n))
}

/// `s` without one double quote at its start and one at its end, where they
/// stand there.
pub fn unquoted(s: &str) -> (r: String)
    ensures
        r@ == unquote(s@),
{
    let chars = chars_of(s);
    let mut from: usize = 0;
    let mut to: usize = chars.len();
    if from < to && chars[from] == '"' {
        from = 1;
    }
    if from < to && chars[to - 1] == '"' {
        to = to - 1;
    }
    string_of(slice_subrange(chars.as_slice(), from, to))
}

/// The unquoted text of the key made of `stem`, `separator` and `suffix`.
fn lookup(map: &OrderedMap<String>, stem: &[char], separator: char, suffix: &[char; 4]) -> (r:
    Option<String>)
    ensures
        r is Some == map@.contains_key(stem@ + seq![separator] + suffix@),
        r is Some ==> r->0@ == unquote(map@[stem@ + seq![separator] + suffix@]),
{
    let mut key: Vec<char> = Vec::new();
    let mut i: usize = 0;
    while i < stem.len()
        invariant
            i <= stem.len(),
            key@ == stem@.take(i as int),
        decreases stem.len() - i,
    {
        key.push(stem[i]);
        i += 1;
    }
    key.push(separator);
    key.push(suffix[0]);
    key.push(suffix[1]);
    key.push(suffix[2]);
    key.push(suffix[3]);
    assert(key@ =~= stem@ + seq![separator] + suffix@);
    let key = string_of(key.as_slice());
    match map.get(key.as_str()) {
        Some(text) => Some(unquoted(text.as_str())),
        None => None,
    }
}

/// The first of the two texts that is there.
fn first_of(first: Option<String>, second: Option<String>) -> (r: Option<String>)
    ensures
        r == if first is Some {
            first
        } else {
            second
        },
{
    match first {
        Some(s) => Some(s),
        None => second,
    }
}

/// The record of `stem`, if `map` holds its text, its name or its
/// description.
fn record(map: &OrderedMap<String>, stem: &[char]) -> (r: Option<Text>)
    ensures
        r is Some == record_of(map@, stem@) is Some,
        r is Some ==> r->0@ == record_of(map@, stem@)->0,
{
    let name_letters: [char; 4] = ['n', 'a', 'm', 'e'];
    let desc_letters: [char; 4] = ['d', 'e', 's', 'c'];
    let name = first_of(
        lookup(map, stem, '_', &name_letters),
        lookup(map, stem, '.', &name_letters),
    );
    let description = first_of(
        lookup(map, stem, '_', &desc_letters),
        lookup(map, stem, '.', &desc_letters),
    );
    let own = string_of(stem);
    match map.get(own.as_str()) {
        Some(text) => Some(Text { value: unquoted(text.as_str()), name, description }),
        None => match &name {
            Some(n) => Some(Text { value: n.clone(), name, description }),
            None => match &description {
                Some(d) => Some(Text { value: d.clone(), name, description }),
                None => None,
            },
        },
    }
}

/// Whether `stem` is the stem of one of the first `i` keys of `entries`.
pub open spec fn seen(entries: Seq<(Seq<char>, Seq<char>)>, i: int, stem: Seq<char>) -> bool {
    exists|j: int| 0 <= j < i && j < entries.len() && #[trigger] stem_of(entries[j].0) == stem
}

/// Folds the entries of one language into one record per stem.
///
/// Every key gives a stem; a stem has a record where `map` holds a text for
/// the stem itself, for its name or for its description.
pub fn fold_localisation_map(map: &OrderedMap<String>) -> (r: OrderedMap<Text>)
    ensures
        r@ == folded(map@),
{
    let mut out: OrderedMap<Text> = OrderedMap::new();
    let n = map.len();
    let mut i: usize = 0;
    while i < n
        invariant
            i <= n,
            n == map.entries().len(),
            forall|stem: Seq<char>|
                out@.contains_key(stem) <==> seen(map.entries(), i as int, stem) && record_of(
                    map@,
                    stem,
                ) is Some,
            forall|stem: Seq<char>| #[trigger]
                out@.contains_key(stem) ==> out@[stem] == record_of(map@, stem)->0,
        decreases n - i,
    {
        let key = chars_of(map.key_at(i).as_str());
        let len = stem_len(key.as_slice());
        let stem = slice_subrange(key.as_slice(), 0, len);
        match record(map, stem) {
            Some(text) => {
                out.insert(string_of(stem), text);
            },
            None => {},
        }
        i += 1;
    }
    proof {
        assert forall|stem: Seq<char>| is_stem(map@, stem) <==> seen(
            map.entries(),
            n as int,
            stem,
        ) by {
            if is_stem(map@, stem) {
                let key = choose|key: Seq<char>|
                    map@.contains_key(key) && #[trigger] stem_of(key) == stem;
                lemma_last_wins_contains(map.entries(), key);
                let j = choose|j: int|
                    0 <= j < map.entries().len() && (#[trigger] map.entries()[j]).0 == key;
            }
            if seen(map.entries(), n as int, stem) {
                let j = choose|j: int|
                    0 <= j < n && j < map.entries().len() && #[trigger] stem_of(
                        map.entries()[j].0,
                    ) == stem;
                lemma_last_wins_contains(map.entries(), map.entries()[j].0);
            }
        }
    }
    out
}

} // verus!
