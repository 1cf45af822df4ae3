//! The languages a localisation file can be written in.

use vstd::prelude::*;
use crate::text::str_eq;

verus! {

/// A supported language, or `Default` where a file names none that is known.
#[derive(PartialEq, Eq, Structural, Debug, Hash, Copy, Clone)]
pub enum Languages {
    Portuguese,
    English,
    French,
    German,
    Polish,
    Russian,
    Spanish,
    SimplifiedChinese,
    Default,
}

/// An identifier that is that of no language.
#[derive(PartialEq, Eq, Structural, Debug, Clone, Copy)]
pub struct UnknownLanguage;

impl Languages {
    /// The identifier that stands for this language in a file header, after
    /// the `l_` prefix.
    pub open spec fn tag(self) -> Seq<char> {
        match self {
            Languages::Portuguese => "braz_por"@,
            Languages::English => "english"@,
            Languages::French => "french"@,
            Languages::German => "german"@,
            Languages::Polish => "polish"@,
            Languages::Russian => "russian"@,
            Languages::Spanish => "spanish"@,
            Languages::SimplifiedChinese => "simp_chinese"@,
            Languages::Default => "default"@,
        }
    }

    /// The language that `tag` names; `Default` for an unknown identifier.
    pub open spec fn of_tag(tag: Seq<char>) -> Languages {
        if tag == "braz_por"@ {
            Languages::Portuguese
        } else if tag == "english"@ {
            Languages::English
        } else if tag == "french"@ {
            Languages::French
        } else if tag == "german"@ {
            Languages::German
        } else if tag == "polish"@ {
            Languages::Polish
        } else if tag == "russian"@ {
            Languages::Russian
        } else if tag == "spanish"@ {
            Languages::Spanish
        } else if tag == "simp_chinese"@ {
            Languages::SimplifiedChinese
        } else {
            Languages::Default
        }
    }

    /// The identifier of this language.
    pub fn name(&self) -> (s: &'static str)
        ensures
            s@ == self.tag(),
    {
        match self {
            Languages::Portuguese => "braz_por",
            Languages::English => "english",
            Languages::French => "french",
            Languages::German => "german",
            Languages::Polish => "polish",
            Languages::Russian => "russian",
            Languages::Spanish => "spanish",
            Languages::SimplifiedChinese => "simp_chinese",
            Languages::Default => "default",
        }
    }

    /// The language that `tag` names; `Default` for an unknown identifier.
    pub fn from_tag(tag: &str) -> (l: Languages)
        ensures
            l == Languages::of_tag(tag@),
    {
        if str_eq(tag, "braz_por") {
            Languages::Portuguese
        } else if str_eq(tag, "english") {
            Languages::English
        } else if str_eq(tag, "french") {
            Languages::French
        } else if str_eq(tag, "german") {
            Languages::German
        } else if str_eq(tag, "polish") {
            Languages::Polish
        } else if str_eq(tag, "russian") {
            Languages::Russian
        } else if str_eq(tag, "spanish") {
            Languages::Spanish
        } else if str_eq(tag, "simp_chinese") {
            Languages::SimplifiedChinese
        } else {
            Languages::Default
        }
    }

    /// The language that `tag` is the identifier of, if it is that of one.
    pub open spec fn known(tag: Seq<char>) -> Option<Languages> {
        if Languages::of_tag(tag) != Languages::Default || tag == "default"@ {
            Some(Languages::of_tag(tag))
        } else {
            None
        }
    }

    /// The language that `tag` is the identifier of; an error where it is
    /// that of none.
    pub fn from_str(tag: &str) -> (r: Result<Languages, UnknownLanguage>)
        ensures
            r == match Languages::known(tag@) {
                Some(language) => Ok::<Languages, UnknownLanguage>(language),
                None => Err::<Languages, UnknownLanguage>(UnknownLanguage),
            },
    {
        let language = Languages::from_tag(tag);
        if language != Languages::Default || str_eq(tag, "default") {
            Ok(language)
        } else {
            Err(UnknownLanguage)
        }
    }

    /// A place for this language in a table of nine.
    pub open spec fn ordinal(self) -> int {
        match self {
            Languages::Portuguese => 0,
            Languages::English => 1,
            Languages::French => 2,
            Languages::German => 3,
            Languages::Polish => 4,
            Languages::Russian => 5,
            Languages::Spanish => 6,
            Languages::SimplifiedChinese => 7,
            Languages::Default => 8,
        }
    }

    /// The place of this language in `Languages::all()`.
    pub fn index(&self) -> (i: usize)
        ensures
            i == self.ordinal(),
            i < 9,
    {
        match self {
            Languages::Portuguese => 0,
            Languages::English => 1,
            Languages::French => 2,
            Languages::German => 3,
            Languages::Polish => 4,
            Languages::Russian => 5,
            Languages::Spanish => 6,
            Languages::SimplifiedChinese => 7,
            Languages::Default => 8,
        }
    }

    /// Every language, each at the place that `index` gives.
    pub fn all() -> (v: Vec<Languages>)
        ensures
            v@.len() == 9,
            forall|l: Languages| (#[trigger] v@[l.ordinal()]) == l,
            forall|i: int| 0 <= i < 9 ==> (#[trigger] v@[i]).ordinal() == i,
    {
        let mut v: Vec<Languages> = Vec::new();
        v.push(Languages::Portuguese);
        v.push(Languages::English);
        v.push(Languages::French);
        v.push(Languages::German);
        v.push(Languages::Polish);
        v.push(Languages::Russian);
        v.push(Languages::Spanish);
        v.push(Languages::SimplifiedChinese);
        v.push(Languages::Default);
        v
    }
}

impl Default for Languages {
    fn default() -> (l: Self)
        ensures
            l == Languages::Default,
    {
        Languages::Default
    }
}

/// The identifier of a language names that language.
pub proof fn lemma_tag_names_language(l: Languages)
    ensures
        Languages::of_tag(l.tag()) == l,
{
    reveal_strlit("braz_por");
    reveal_strlit("english");
    reveal_strlit("french");
    reveal_strlit("german");
    reveal_strlit("polish");
    reveal_strlit("russian");
    reveal_strlit("spanish");
    reveal_strlit("simp_chinese");
    reveal_strlit("default");
    let t = l.tag();
    if l != Languages::English {
        assert(t.len() != 7 || t[0] != 'e');
    }
    if l != Languages::French {
        assert(t.len() != 6 || t[0] != 'f');
    }
}

/// A value for each of some languages.
#[derive(Debug, PartialEq, Eq)]
pub struct LanguageMap<V: View> {
    slots: Vec<Option<V>>,
}

impl<V: View> View for LanguageMap<V> {
    type V = Map<Languages, V::V>;

    closed spec fn view(&self) -> Map<Languages, V::V> {
        Map::new(
            |l: Languages| self.slots@[l.ordinal()] is Some,
            |l: Languages| self.slots@[l.ordinal()]->0@,
        )
    }
}

impl<V: View> LanguageMap<V> {
    #[verifier::type_invariant]
    spec fn nine_slots(&self) -> bool {
        self.slots@.len() == 9
    }

    /// A map that holds no value.
    pub fn new() -> (m: Self)
        ensures
            m@ == Map::<Languages, V::V>::empty(),
    {
        let mut slots: Vec<Option<V>> = Vec::new();
        while slots.len() < 9
            invariant
                slots@.len() <= 9,
                forall|i: int| 0 <= i < slots@.len() ==> (#[trigger] slots@[i]) is None,
            decreases 9 - slots@.len(),
        {
            slots.push(None);
        }
        let m = LanguageMap { slots };
        m
    }

    /// The value held for `language`, if there is one.
    pub fn get(&self, language: Languages) -> (r: Option<&V>)
        ensures
            r is Some == self@.contains_key(language),
            r matches Some(v) ==> v@ == self@[language],
    {
        proof {
            use_type_invariant(self);
        }
        self.slots[language.index()].as_ref()
    }

    /// Puts `value` under `language`, in place of what was held for it.
    pub fn insert(&mut self, language: Languages, value: V)
        ensures
            final(self)@ == old(self)@.insert(language, value@),
    {
        proof {
            use_type_invariant(&*self);
        }
        let mut taken = LanguageMap::new();
        std::mem::swap(self, &mut taken);
        let mut slots = taken.slots;
        slots.set(language.index(), Some(value));
        let m = LanguageMap { slots };
        *self = m;
    }
}

} // verus!
