//! Technologies: what a package says of one, and the record that is made of
//! it once the variables are known.

use vstd::prelude::*;
use vstd::std_specs::cmp::PartialEqSpecImpl;
use crate::fold::{Text, TextView};
use crate::language::{LanguageMap, Languages};
use crate::number::{decimal, parse_u64};
use crate::ordered_map::OrderedMap;
use crate::text::{copy_optional, copy_strings, optional_view, str_eq, views};
use crate::variables::{replace_variables, resolved};

verus! {

/// The field of research that a technology belongs to: one of four that the
/// game knows, or another by its name.
#[derive(Debug, PartialEq, Clone, Eq)]
pub enum ResearchArea {
    Society,
    Physics,
    Engineering,
    Anomaly,
    Other(String),
}

/// A `ResearchArea` by the characters that it holds.
pub enum AreaView {
    Society,
    Physics,
    Engineering,
    Anomaly,
    Other(Seq<char>),
}

impl View for ResearchArea {
    type V = AreaView;

    open spec fn view(&self) -> AreaView {
        match self {
            ResearchArea::Society => AreaView::Society,
            ResearchArea::Physics => AreaView::Physics,
            ResearchArea::Engineering => AreaView::Engineering,
            ResearchArea::Anomaly => AreaView::Anomaly,
            ResearchArea::Other(s) => AreaView::Other(s@),
        }
    }
}

/// The name under which an area is written.
pub open spec fn area_name(area: AreaView) -> Seq<char> {
    match area {
        AreaView::Society => "society"@,
        AreaView::Physics => "physics"@,
        AreaView::Engineering => "engineering"@,
        AreaView::Anomaly => "anomaly"@,
        AreaView::Other(s) => s,
    }
}

/// The area that is written as `name`.
pub open spec fn area_of(name: Seq<char>) -> AreaView {
    if name == "society"@ {
        AreaView::Society
    } else if name == "physics"@ {
        AreaView::Physics
    } else if name == "engineering"@ {
        AreaView::Engineering
    } else if name == "anomaly"@ {
        AreaView::Anomaly
    } else {
        AreaView::Other(name)
    }
}

/// Whether `area` is what its own name is read as: one of the four known
/// areas, or another whose name is not that of a known one.
pub open spec fn is_canonical(area: AreaView) -> bool {
    area matches AreaView::Other(s) ==> s != "society"@ && s != "physics"@ && s != "engineering"@
        && s != "anomaly"@
}

/// An area written by its name and read back is the same area.
pub proof fn lemma_area_roundtrip(area: AreaView)
    requires
        is_canonical(area),
    ensures
        area_of(area_name(area)) == area,
{
    reveal_strlit("society");
    reveal_strlit("physics");
    reveal_strlit("engineering");
    reveal_strlit("anomaly");
    let n = area_name(area);
    if area is Physics {
        assert(n[0] != 's');
    }
    if area is Engineering {
        assert(n.len() == 11);
    }
    if area is Anomaly {
        assert(n[0] != 's' && n[0] != 'p');
    }
}

/// A name read as an area and written back is the same name.
pub proof fn lemma_name_roundtrip(name: Seq<char>)
    ensures
        area_name(area_of(name)) == name,
        is_canonical(area_of(name)),
{
}

impl ResearchArea {
    /// The area that is written as `s`. Never fails: a name that is not known
    /// is kept as it is.
    pub fn from_str(s: &str) -> (r: Result<ResearchArea, ()>)
        ensures
            r is Ok,
            r->Ok_0@ == area_of(s@),
    {
        Ok(
            if str_eq(s, "society") {
                ResearchArea::Society
            } else if str_eq(s, "physics") {
                ResearchArea::Physics
            } else if str_eq(s, "engineering") {
                ResearchArea::Engineering
            } else if str_eq(s, "anomaly") {
                ResearchArea::Anomaly
            } else {
                ResearchArea::Other(s.to_owned())
            },
        )
    }

    /// The name under which the area is written.
    pub fn as_ref(&self) -> (r: &str)
        ensures
            r@ == area_name(self@),
    {
        match self {
            ResearchArea::Society => "society",
            ResearchArea::Physics => "physics",
            ResearchArea::Engineering => "engineering",
            ResearchArea::Anomaly => "anomaly",
            ResearchArea::Other(s) => s.as_str(),
        }
    }

    /// The name under which the area is written.
    pub fn to_string(&self) -> (r: String)
        ensures
            r@ == area_name(self@),
    {
        self.as_ref().to_owned()
    }

    /// The same area.
    pub fn duplicate(&self) -> (r: ResearchArea)
        ensures
            r@ == self@,
    {
        match self {
            ResearchArea::Society => ResearchArea::Society,
            ResearchArea::Physics => ResearchArea::Physics,
            ResearchArea::Engineering => ResearchArea::Engineering,
            ResearchArea::Anomaly => ResearchArea::Anomaly,
            ResearchArea::Other(s) => ResearchArea::Other(s.clone()),
        }
    }
}

impl Default for ResearchArea {
    fn default() -> (r: Self)
        ensures
            r@ == AreaView::Other("unknown"@),
    {
        ResearchArea::Other("unknown".to_owned())
    }
}

/// What a package says of one technology, before the variables are known.
#[derive(PartialEq, Debug, Default, Clone)]
pub struct TechnologyData {
    pub cost: Option<String>,
    pub tier: Option<String>,
    pub category: Vec<String>,
    pub weight: Vec<String>,
    pub area: ResearchArea,
    pub prerequisites: Vec<String>,
    pub start_tech: bool,
}

/// A `TechnologyData` by the characters that it holds.
pub struct TechnologyDataView {
    pub cost: Option<Seq<char>>,
    pub tier: Option<Seq<char>>,
    pub category: Seq<Seq<char>>,
    pub weight: Seq<Seq<char>>,
    pub area: AreaView,
    pub prerequisites: Seq<Seq<char>>,
    pub start_tech: bool,
}

impl View for TechnologyData {
    type V = TechnologyDataView;

    open spec fn view(&self) -> TechnologyDataView {
        TechnologyDataView {
            cost: optional_view(self.cost),
            tier: optional_view(self.tier),
            category: views(self.category@),
            weight: views(self.weight@),
            area: self.area@,
            prerequisites: views(self.prerequisites@),
            start_tech: self.start_tech,
        }
    }
}

/// A technology with its variables resolved.
#[derive(Debug, Eq)]
pub struct Technology {
    pub modid: String,
    pub name: String,
    pub id: String,
    pub localisation: LanguageMap<Text>,
    pub cost: u64,
    pub tier: Option<String>,
    pub category: Option<String>,
    pub weight: Option<String>,
    pub area: ResearchArea,
    pub prerequisites: Vec<String>,
    pub start_tech: bool,
}

/// A `Technology` by the characters that it holds.
pub struct TechnologyView {
    pub modid: Seq<char>,
    pub name: Seq<char>,
    pub id: Seq<char>,
    pub localisation: Map<Languages, TextView>,
    pub cost: u64,
    pub tier: Option<Seq<char>>,
    pub category: Option<Seq<char>>,
    pub weight: Option<Seq<char>>,
    pub area: AreaView,
    pub prerequisites: Seq<Seq<char>>,
    pub start_tech: bool,
}

impl View for Technology {
    type V = TechnologyView;

    open spec fn view(&self) -> TechnologyView {
        TechnologyView {
            modid: self.modid@,
            name: self.name@,
            id: self.id@,
            localisation: self.localisation@,
            cost: self.cost,
            tier: optional_view(self.tier),
            category: optional_view(self.category),
            weight: optional_view(self.weight),
            area: self.area@,
            prerequisites: views(self.prerequisites@),
            start_tech: self.start_tech,
        }
    }
}

impl PartialEq for Technology {
    /// Two technologies are the same where they have the same identifier.
    fn eq(&self, other: &Self) -> (r: bool) {
        self.id == other.id
    }
}

impl PartialEqSpecImpl for Technology {
    open spec fn obeys_eq_spec() -> bool {
        true
    }

    open spec fn eq_spec(&self, other: &Self) -> bool {
        self.id@ == other.id@
    }
}

/// The texts of a technology in each language that has one for it.
pub open spec fn localisation_of(
    all: Map<Languages, Map<Seq<char>, TextView>>,
    name: Seq<char>,
) -> Map<Languages, TextView> {
    Map::new(
        |l: Languages| all.contains_key(l) && all[l].contains_key(name),
        |l: Languages| all[l][name],
    )
}

/// The first of `list`, if it holds anything.
pub open spec fn first_of(list: Seq<Seq<char>>) -> Option<Seq<char>> {
    if list.len() > 0 {
        Some(list[0])
    } else {
        None
    }
}

/// `text` with the variables resolved, where there is a text.
pub open spec fn resolved_optional(
    text: Option<Seq<char>>,
    variables: Map<Seq<char>, Seq<char>>,
) -> Option<Seq<char>> {
    match text {
        Some(t) => Some(resolved(t, variables)),
        None => None,
    }
}

/// The cost that `text` spells once the variables are resolved; 0 where
/// there is no text or it spells no number.
pub open spec fn cost_of(text: Option<Seq<char>>, variables: Map<Seq<char>, Seq<char>>) -> u64 {
    match resolved_optional(text, variables) {
        Some(t) => match decimal(t) {
            Some(cost) => cost,
            None => 0,
        },
        None => 0,
    }
}

/// The record of the technology `name` of the package `modid`: its identifier
/// is its name, its cost, tier and weight have the variables resolved, and
/// of its categories and weights the first one counts.
pub open spec fn resolved_technology(
    modid: Seq<char>,
    name: Seq<char>,
    data: TechnologyDataView,
    variables: Map<Seq<char>, Seq<char>>,
    localisation: Map<Languages, Map<Seq<char>, TextView>>,
) -> TechnologyView {
    TechnologyView {
        modid,
        name,
        id: name,
        localisation: localisation_of(localisation, name),
        cost: cost_of(data.cost, variables),
        tier: resolved_optional(data.tier, variables),
        category: first_of(data.category),
        weight: resolved_optional(first_of(data.weight), variables),
        area: data.area,
        prerequisites: data.prerequisites,
        start_tech: data.start_tech,
    }
}

/// The same texts.
pub fn copy_localisation(source: &LanguageMap<Text>) -> (r: LanguageMap<Text>)
    ensures
        r@ == source@,
{
    let languages = Languages::all();
    let mut out: LanguageMap<Text> = LanguageMap::new();
    let mut i: usize = 0;
    while i < 9
        invariant
            i <= 9,
            languages@.len() == 9,
            forall|j: int| 0 <= j < 9 ==> (#[trigger] languages@[j]).ordinal() == j,
            forall|l: Languages|
                out@.contains_key(l) <==> l.ordinal() < i && source@.contains_key(l),
            forall|l: Languages| #[trigger] out@.contains_key(l) ==> out@[l] == source@[l],
        decreases 9 - i,
    {
        let language = languages[i];
        match source.get(language) {
            Some(text) => {
                out.insert(language, text.duplicate());
            },
            None => {},
        }
        i += 1;
    }
    out
}

impl Technology {
    /// A record that holds the same.
    pub fn duplicate(&self) -> (r: Technology)
        ensures
            r@ == self@,
    {
        Technology {
            modid: self.modid.clone(),
            name: self.name.clone(),
            id: self.id.clone(),
            localisation: copy_localisation(&self.localisation),
            cost: self.cost,
            tier: copy_optional(&self.tier),
            category: copy_optional(&self.category),
            weight: copy_optional(&self.weight),
            area: self.area.duplicate(),
            prerequisites: copy_strings(&self.prerequisites),
            start_tech: self.start_tech,
        }
    }
}

/// `text` with the variables resolved, where there is a text.
fn resolve_optional(text: Option<&String>, variables: &OrderedMap<String>) -> (r: Option<String>)
    ensures
        optional_view(r) == resolved_optional(
            match text {
                Some(t) => Some(t@),
                None => None,
            },
            variables@,
        ),
{
    match text {
        Some(t) => Some(replace_variables(t.as_str(), variables)),
        None => None,
    }
}

/// The first string of `list`, if it holds anything.
fn first(list: &Vec<String>) -> (r: Option<&String>)
    ensures
        (match r {
            Some(t) => Some(t@),
            None => None,
        }) == first_of(views(list@)),
{
    if list.len() > 0 {
        Some(&list[0])
    } else {
        None
    }
}

/// The texts of `name` in each language of `all` that has one for it.
pub fn localisation_for(all: &LanguageMap<OrderedMap<Text>>, name: &str) -> (r: LanguageMap<Text>)
    ensures
        r@ == localisation_of(all@, name@),
{
    let languages = Languages::all();
    let mut out: LanguageMap<Text> = LanguageMap::new();
    let mut i: usize = 0;
    while i < 9
        invariant
            i <= 9,
            languages@.len() == 9,
            forall|j: int| 0 <= j < 9 ==> (#[trigger] languages@[j]).ordinal() == j,
            forall|l: Languages|
                out@.contains_key(l) <==> l.ordinal() < i && localisation_of(
                    all@,
                    name@,
                ).contains_key(l),
            forall|l: Languages| #[trigger]
                out@.contains_key(l) ==> out@[l] == localisation_of(all@, name@)[l],
        decreases 9 - i,
    {
        let language = languages[i];
        match all.get(language) {
            Some(texts) => match texts.get(name) {
                Some(text) => {
                    out.insert(language, text.duplicate());
                },
                None => {},
            },
            None => {},
        }
        i += 1;
    }
    out
}

/// Makes the record of the technology `name` of the package `modid` from
/// what the package says of it.
///
/// The references to variables in its cost, its tier and its first weight are
/// resolved. A cost that then spells no number is 0.
pub fn resolve_technology(
    modid: &str,
    name: &str,
    data: &TechnologyData,
    variables: &OrderedMap<String>,
    localisation: &LanguageMap<OrderedMap<Text>>,
) -> (r: Technology)
    ensures
        r@ == resolved_technology(modid@, name@, data@, variables@, localisation@),
{
    let cost = match resolve_optional(data.cost.as_ref(), variables) {
        Some(text) => match parse_u64(text.as_str()) {
            Some(cost) => cost,
            None => 0,
        },
        None => 0,
    };
    Technology {
        modid: modid.to_owned(),
        name: name.to_owned(),
        id: name.to_owned(),
        localisation: localisation_for(localisation, name),
        cost,
        tier: resolve_optional(data.tier.as_ref(), variables),
        category: copy_optional_ref(first(&data.category)),
        weight: resolve_optional(first(&data.weight), variables),
        area: data.area.duplicate(),
        prerequisites: copy_strings(&data.prerequisites),
        start_tech: data.start_tech,
    }
}

fn copy_optional_ref(s: Option<&String>) -> (r: Option<String>)
    ensures
        optional_view(r) == match s {
            Some(t) => Some(t@),
            None => None,
        },
{
    match s {
        Some(s) => Some(s.clone()),
        None => None,
    }
}

/// What stands under a key of a technology file: the name of a variable, or
/// what is said of a technology.
#[derive(Debug, PartialEq, Clone)]
pub enum StringOrStruct<T> {
    Str(String),
    Object(T),
}

impl<T> StringOrStruct<T> {
    /// A string read as a value of this kind. Never fails.
    pub fn from_str(s: &str) -> (r: Result<StringOrStruct<T>, ()>)
        ensures
            r matches Ok(StringOrStruct::Str(t)) && t@ == s@,
    {
        Ok(StringOrStruct::Str(s.to_owned()))
    }
}

/// A technology with the records of its prerequisites beside it.
#[derive(Debug)]
pub struct TechnologyNode {
    pub id: String,
    pub data: Technology,
    pub prerequisites: Vec<Technology>,
}

/// A `TechnologyNode` by what it holds.
pub struct TechnologyNodeView {
    pub id: Seq<char>,
    pub data: TechnologyView,
    pub prerequisites: Seq<TechnologyView>,
}

/// What each technology of `list` holds.
pub open spec fn technology_views(list: Seq<Technology>) -> Seq<TechnologyView> {
    Seq::new(list.len(), |i: int| list[i]@)
}

impl View for TechnologyNode {
    type V = TechnologyNodeView;

    open spec fn view(&self) -> TechnologyNodeView {
        TechnologyNodeView {
            id: self.id@,
            data: self.data@,
            prerequisites: technology_views(self.prerequisites@),
        }
    }
}

impl PartialEq for TechnologyNode {
    /// Two nodes are the same where they have the same identifier.
    fn eq(&self, other: &Self) -> (r: bool) {
        self.id == other.id
    }
}

impl PartialEqSpecImpl for TechnologyNode {
    open spec fn obeys_eq_spec() -> bool {
        true
    }

    open spec fn eq_spec(&self, other: &Self) -> bool {
        self.id@ == other.id@
    }
}

/// What weighs on a technology: a factor and the conditions under which it
/// counts.
#[derive(Debug, PartialEq)]
pub struct Modifier {
    pub factor: Option<String>,
    pub not: Option<Vec<Box<Modifier>>>,
    pub or: Option<Vec<Box<Modifier>>>,
    pub nand: Option<Vec<Box<Modifier>>>,
    pub and: Option<Vec<Box<Modifier>>>,
    pub modifiers: OrderedMap<String>,
}

/// The place in a modifier that a key stands for.
#[derive(Debug, Clone, Copy, PartialEq, Eq, Structural)]
pub enum ModifierKey {
    Factor,
    Or,
    And,
    Nand,
    Not,
    Other,
}

/// What stands under a key of a modifier.
#[derive(Debug, PartialEq)]
pub enum ModifierValue {
    Text(String),
    List(Vec<Box<Modifier>>),
}

/// A key of a modifier under which the wrong kind of value stands.
#[derive(Debug, Clone, Copy, PartialEq, Eq, Structural)]
pub struct WrongKind {
    pub key: ModifierKey,
}

/// The place that `key` stands for.
pub open spec fn modifier_key(key: Seq<char>) -> ModifierKey {
    if key == "factor"@ {
        ModifierKey::Factor
    } else if key == "OR"@ {
        ModifierKey::Or
    } else if key == "AND"@ {
        ModifierKey::And
    } else if key == "NAND"@ {
        ModifierKey::Nand
    } else if key == "NOT"@ {
        ModifierKey::Not
    } else {
        ModifierKey::Other
    }
}

impl Modifier {
    /// A modifier that says nothing.
    pub fn new() -> (r: Modifier)
        ensures
            r.factor is None,
            r.not is None,
            r.or is None,
            r.nand is None,
            r.and is None,
            r.modifiers.wf(),
            r.modifiers.entries() == Seq::<(Seq<char>, Seq<char>)>::empty(),
            r.modifiers@ == Map::<Seq<char>, Seq<char>>::empty(),
    {
        Modifier {
            factor: None,
            not: None,
            or: None,
            nand: None,
            and: None,
            modifiers: OrderedMap::new(),
        }
    }

    /// The place that `key` stands for.
    pub fn key_of(key: &str) -> (r: ModifierKey)
        ensures
            r == modifier_key(key@),
    {
        if str_eq(key, "factor") {
            ModifierKey::Factor
        } else if str_eq(key, "OR") {
            ModifierKey::Or
        } else if str_eq(key, "AND") {
            ModifierKey::And
        } else if str_eq(key, "NAND") {
            ModifierKey::Nand
        } else if str_eq(key, "NOT") {
            ModifierKey::Not
        } else {
            ModifierKey::Other
        }
    }

    /// Puts `value` at the place that `key` stands for.
    ///
    /// A factor is a text and a list of conditions is a list: the other kind
    /// of value is refused and the modifier stays as it is. Under any other
    /// key a text is kept by its key, and a list is passed over.
    pub fn set(&mut self, key: &str, value: ModifierValue) -> (r: Result<(), WrongKind>)
        ensures
            match (modifier_key(key@), value) {
                (ModifierKey::Factor, ModifierValue::Text(text)) => r is Ok && *final(self)
                    == (Modifier { factor: Some(text), ..*old(self) }),
                (ModifierKey::Or, ModifierValue::List(list)) => r is Ok && *final(self)
                    == (Modifier { or: Some(list), ..*old(self) }),
                (ModifierKey::And, ModifierValue::List(list)) => r is Ok && *final(self)
                    == (Modifier { and: Some(list), ..*old(self) }),
                (ModifierKey::Nand, ModifierValue::List(list)) => r is Ok && *final(self)
                    == (Modifier { nand: Some(list), ..*old(self) }),
                (ModifierKey::Not, ModifierValue::List(list)) => r is Ok && *final(self)
                    == (Modifier { not: Some(list), ..*old(self) }),
                (ModifierKey::Other, ModifierValue::Text(text)) => {
                    &&& r is Ok
                    &&& final(self).modifiers@ == old(self).modifiers@.insert(key@, text@)
                    &&& final(self).factor == old(self).factor
                    &&& final(self).or == old(self).or
                    &&& final(self).and == old(self).and
                    &&& final(self).nand == old(self).nand
                    &&& final(self).not == old(self).not
                },
                (ModifierKey::Other, ModifierValue::List(_)) => r is Ok && *final(self) == *old(
                    self,
                ),
                (kind, _) => r == Err::<(), WrongKind>(WrongKind { key: kind }) && *final(self)
                    == *old(self),
            },
    {
        let kind = Modifier::key_of(key);
        match (kind, value) {
            (ModifierKey::Factor, ModifierValue::Text(text)) => {
                self.factor = Some(text);
                Ok(())
            },
            (ModifierKey::Or, ModifierValue::List(list)) => {
                self.or = Some(list);
                Ok(())
            },
            (ModifierKey::And, ModifierValue::List(list)) => {
                self.and = Some(list);
                Ok(())
            },
            (ModifierKey::Nand, ModifierValue::List(list)) => {
                self.nand = Some(list);
                Ok(())
            },
            (ModifierKey::Not, ModifierValue::List(list)) => {
                self.not = Some(list);
                Ok(())
            },
            (ModifierKey::Other, ModifierValue::Text(text)) => {
                self.modifiers.insert(key.to_owned(), text);
                Ok(())
            },
            (ModifierKey::Other, ModifierValue::List(_)) => Ok(()),
            (kind, _) => Err(WrongKind { key: kind }),
        }
    }
}

} // verus!
