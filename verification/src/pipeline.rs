//! Reading the files of the packages and merging what they say, in the order
//! in which the packages and their files are given. A file that cannot be
//! read is reported and left out; the others are read all the same.

use vstd::prelude::*;
use crate::data::{
    resolve_technology, resolved_technology, StringOrStruct, Technology, TechnologyData,
    TechnologyDataView, TechnologyNode, TechnologyNodeView, TechnologyView, technology_views,
};
use crate::tech_tree::{graph_of, TechnologyTree};
use crate::variables::{contents, merge_variables, overridden};
use crate::fold::{fold_localisation_map, folded, Text, TextView};
use crate::variables::{replace_variables_in, resolved_map};
use crate::language::{LanguageMap, Languages};
use crate::localisation::{parse_bytes, parse_localisation, FileContent, LocalisationFile, ParseError};
use crate::ordered_map::{in_order, last_wins, pairs, OrderedMap};

verus! {

/// A file of a package: where it was found and what it holds.
#[derive(Debug, Clone, PartialEq, Eq)]
pub struct SourceFile {
    pub path: String,
    pub bytes: Vec<u8>,
}

/// A localisation file that was not read.
#[derive(Debug, Clone, PartialEq, Eq)]
pub struct Failure {
    /// The place of the file among the files given, counted from 0.
    pub index: usize,
    /// Where the file was found.
    pub path: String,
    /// Why it was not read.
    pub error: ParseError,
}

/// What came of reading the localisation files of a package.
#[derive(Debug)]
pub struct Localisations {
    /// The files that were read, in the order in which they were given.
    pub files: Vec<LocalisationFile>,
    /// The files that were not read, in the order in which they were given.
    pub failures: Vec<Failure>,
}

/// The bytes of each file of `sources`.
pub open spec fn contents_of(sources: Seq<SourceFile>) -> Seq<Seq<u8>> {
    Seq::new(sources.len(), |i: int| sources[i].bytes@)
}

/// What the files that can be read say, in the order of the files.
pub open spec fn readable(contents: Seq<Seq<u8>>) -> Seq<FileContent>
    decreases contents.len(),
{
    if contents.len() == 0 {
        Seq::empty()
    } else {
        let front = readable(contents.drop_last());
        match parse_bytes(contents.last()) {
            Ok(content) => front.push(content),
            Err(_) => front,
        }
    }
}

/// The places of the files that cannot be read, each with the reason, in
/// the order of the files.
pub open spec fn unreadable(contents: Seq<Seq<u8>>) -> Seq<(usize, ParseError)>
    decreases contents.len(),
{
    if contents.len() == 0 {
        Seq::empty()
    } else {
        let front = unreadable(contents.drop_last());
        match parse_bytes(contents.last()) {
            Ok(_) => front,
            Err(error) => front.push(((contents.len() - 1) as usize, error)),
        }
    }
}

/// Whether `files` are what `contents` say, one for one.
pub open spec fn hold_all(files: Seq<LocalisationFile>, contents: Seq<FileContent>) -> bool {
    &&& files.len() == contents.len()
    &&& forall|i: int| 0 <= i < files.len() ==> (#[trigger] files[i]).holds(contents[i])
}

/// Whether `failures` report `failed`, one for one, each with the path of
/// its file.
pub open spec fn report_all(
    failures: Seq<Failure>,
    failed: Seq<(usize, ParseError)>,
    sources: Seq<SourceFile>,
) -> bool {
    &&& failures.len() == failed.len()
    &&& forall|i: int|
        0 <= i < failures.len() ==> {
            &&& (#[trigger] failures[i]).index == failed[i].0
            &&& failures[i].error == failed[i].1
            &&& failures[i].index < sources.len()
            &&& failures[i].path@ == sources[failures[i].index as int].path@
        }
}

/// Reads the localisation files of a package.
///
/// Every file that can be read is read, whatever becomes of the others: the
/// result holds what each of them says, in the order given, and for each of
/// the others its place, its path and the reason.
pub fn read_localisations(sources: &Vec<SourceFile>) -> (r: Localisations)
    ensures
        hold_all(r.files@, readable(contents_of(sources@))),
        report_all(r.failures@, unreadable(contents_of(sources@)), sources@),
{
    let mut files: Vec<LocalisationFile> = Vec::new();
    let mut failures: Vec<Failure> = Vec::new();
    let ghost all = contents_of(sources@);
    let mut i: usize = 0;
    while i < sources.len()
        invariant
            i <= sources@.len(),
            all == contents_of(sources@),
            hold_all(files@, readable(all.take(i as int))),
            report_all(failures@, unreadable(all.take(i as int)), sources@),
        decreases sources@.len() - i,
    {
        assert(all.take(i + 1).drop_last() =~= all.take(i as int));
        assert(all.take(i + 1).last() == sources@[i as int].bytes@);
        match parse_localisation(sources[i].bytes.as_slice()) {
            Ok(file) => {
                files.push(file);
            },
            Err(error) => {
                failures.push(Failure { index: i, path: sources[i].path.clone(), error });
            },
        }
        i += 1;
    }
    assert(all.take(all.len() as int) =~= all);
    Localisations { files, failures }
}

/// A file that can be read is among the files
/// read, whatever the other files hold.
pub proof fn lemma_readable_is_read(contents: Seq<Seq<u8>>, i: int)
    requires
        0 <= i < contents.len(),
        parse_bytes(contents[i]) is Ok,
    ensures
        readable(contents).contains(parse_bytes(contents[i])->Ok_0),
    decreases contents.len(),
{
    let front = contents.drop_last();
    let rest = readable(front);
    if i == contents.len() - 1 {
        let all = readable(contents);
        assert(all[all.len() - 1] == parse_bytes(contents[i])->Ok_0);
    } else {
        lemma_readable_is_read(front, i);
        let j = choose|j: int| 0 <= j < rest.len() && rest[j] == parse_bytes(contents[i])->Ok_0;
        assert(readable(contents)[j] == rest[j]);
    }
}

/// A file that cannot be read is reported with
/// its place and the reason, whatever the other files hold.
pub proof fn lemma_unreadable_is_reported(contents: Seq<Seq<u8>>, i: int)
    requires
        0 <= i < contents.len() <= usize::MAX,
        parse_bytes(contents[i]) is Err,
    ensures
        unreadable(contents).contains((i as usize, parse_bytes(contents[i])->Err_0)),
    decreases contents.len(),
{
    let front = contents.drop_last();
    let rest = unreadable(front);
    let entry = (i as usize, parse_bytes(contents[i])->Err_0);
    if i == contents.len() - 1 {
        let all = unreadable(contents);
        assert(all[all.len() - 1] == entry);
    } else {
        lemma_unreadable_is_reported(front, i);
        let j = choose|j: int| 0 <= j < rest.len() && rest[j] == entry;
        assert(unreadable(contents)[j] == rest[j]);
    }
}

/// The language and the entries of each file.
pub open spec fn file_entries(files: Seq<LocalisationFile>) -> Seq<
    (Languages, Map<Seq<char>, Seq<char>>),
> {
    Seq::new(files.len(), |i: int| (files[i].language, files[i].entries@))
}

/// Whether one of `files` is written in `language`.
pub open spec fn has_language(
    files: Seq<(Languages, Map<Seq<char>, Seq<char>>)>,
    language: Languages,
) -> bool {
    exists|i: int| 0 <= i < files.len() && (#[trigger] files[i]).0 == language
}

/// What the files written in `language` say together, each file overriding
/// the ones before it, key by key.
pub open spec fn language_entries(
    files: Seq<(Languages, Map<Seq<char>, Seq<char>>)>,
    language: Languages,
) -> Map<Seq<char>, Seq<char>>
    decreases files.len(),
{
    if files.len() == 0 {
        Map::empty()
    } else {
        let front = language_entries(files.drop_last(), language);
        if files.last().0 == language {
            front.union_prefer_right(files.last().1)
        } else {
            front
        }
    }
}

/// For each language of `files`, what its files say together.
pub open spec fn merged_localisations(files: Seq<(Languages, Map<Seq<char>, Seq<char>>)>) -> Map<
    Languages,
    Map<Seq<char>, Seq<char>>,
> {
    Map::new(
        |l: Languages| has_language(files, l),
        |l: Languages| language_entries(files, l),
    )
}

/// The text of a key in a language is the one that the last file of that
/// language holding the key gives it.
pub proof fn lemma_last_file_wins(
    files: Seq<(Languages, Map<Seq<char>, Seq<char>>)>,
    i: int,
    key: Seq<char>,
)
    requires
        0 <= i < files.len(),
        files[i].1.contains_key(key),
        forall|j: int|
            i < j < files.len() && (#[trigger] files[j]).0 == files[i].0 ==> !files[j].1.contains_key(
                key,
            ),
    ensures
        merged_localisations(files).contains_key(files[i].0),
        merged_localisations(files)[files[i].0].contains_key(key),
        merged_localisations(files)[files[i].0][key] == files[i].1[key],
    decreases files.len(),
{
    lemma_language_entries(files, i, key);
}

proof fn lemma_language_entries(
    files: Seq<(Languages, Map<Seq<char>, Seq<char>>)>,
    i: int,
    key: Seq<char>,
)
    requires
        0 <= i < files.len(),
        files[i].1.contains_key(key),
        forall|j: int|
            i < j < files.len() && (#[trigger] files[j]).0 == files[i].0 ==> !files[j].1.contains_key(
                key,
            ),
    ensures
        language_entries(files, files[i].0).contains_key(key),
        language_entries(files, files[i].0)[key] == files[i].1[key],
    decreases files.len(),
{
    if i < files.len() - 1 {
        let front = files.drop_last();
        let last = files[files.len() - 1];
        lemma_language_entries(front, i, key);
    }
}

/// Merges the entries of the files language by language, in the order in
/// which the files are given: for each key of a language, the last file of
/// that language that holds it gives the text.
pub fn merge_localisations(files: &Vec<LocalisationFile>) -> (r: LanguageMap<OrderedMap<String>>)
    ensures
        r@ == merged_localisations(file_entries(files@)),
{
    let languages = Languages::all();
    let ghost all = file_entries(files@);
    let mut out: LanguageMap<OrderedMap<String>> = LanguageMap::new();
    let mut l: usize = 0;
    while l < 9
        invariant
            l <= 9,
            languages@.len() == 9,
            all == file_entries(files@),
            forall|j: int| 0 <= j < 9 ==> (#[trigger] languages@[j]).ordinal() == j,
            forall|language: Languages| #[trigger]
                out@.contains_key(language) <==> (language.ordinal() < l && has_language(
                    all,
                    language,
                )),
            forall|language: Languages| #[trigger]
                out@.contains_key(language) ==> out@[language] == language_entries(all, language),
        decreases 9 - l,
    {
        let language = languages[l];
        let mut merged: OrderedMap<String> = OrderedMap::new();
        let mut found = false;
        let mut i: usize = 0;
        while i < files.len()
            invariant
                i <= files@.len(),
                all == file_entries(files@),
                merged@ == language_entries(all.take(i as int), language),
                found == has_language(all.take(i as int), language),
            decreases files@.len() - i,
        {
            let ghost front = all.take(i as int);
            let ghost next = all.take(i + 1);
            assert(next.drop_last() =~= front);
            assert(next.last() == (files@[i as int].language, files@[i as int].entries@));
            proof {
                if has_language(front, language) {
                }
                if has_language(next, language) && files@[i as int].language != language {
                }
            }
            if files[i].language == language {
                merged.extend_from(&files[i].entries);
                found = true;
            }
            i += 1;
        }
        assert(all.take(all.len() as int) =~= all);
        if found {
            out.insert(language, merged);
        }
        l += 1;
    }
    out
}

/// Why the `jomini` crate did not read a text.
#[verifier::external_type_specification]
#[verifier::external_body]
pub struct ExJominiError(jomini::Error);

/// What the `jomini` crate reads from a text of the game's scripting
/// language as a map from strings to strings: its entries in ascending
/// order of their keys, or `None` where it reads no such map.
pub uninterp spec fn scripted_entries(data: Seq<u8>) -> Option<Seq<(Seq<char>, Seq<char>)>>;

/// Reads a file of scripted variables.
///
/// Trusted: `jomini::text::de::from_windows1252_slice` parses the text and
/// hands it to the type asked for, here a `BTreeMap` from strings to
/// strings, or returns an error. The contract gives that result a name and
/// says nothing more of it.
#[verifier::external_body]
fn decode_variables(data: &[u8]) -> (r: Result<Vec<(String, String)>, jomini::Error>)
    ensures
        r matches Ok(list) ==> scripted_entries(data@) == Some(pairs(list@)),
        r is Err ==> scripted_entries(data@) is None,
{
    let map: std::collections::BTreeMap<String, String> = jomini::text::de::from_windows1252_slice(
        data,
    )?;
    Ok(map.into_iter().collect())
}

/// What came of reading the files of scripted variables of a package.
#[derive(Debug)]
pub struct Variables {
    /// What the files that were read define together, each file overriding
    /// the ones before it.
    pub variables: OrderedMap<String>,
    /// The places of the files that were not read, counted from 0, in
    /// ascending order.
    pub failures: Vec<usize>,
}

/// What the files that can be read define together, each file overriding
/// the ones before it, key by key.
pub open spec fn variables_of(contents: Seq<Seq<u8>>) -> Map<Seq<char>, Seq<char>>
    decreases contents.len(),
{
    if contents.len() == 0 {
        Map::empty()
    } else {
        let front = variables_of(contents.drop_last());
        match scripted_entries(contents.last()) {
            Some(entries) => front.union_prefer_right(last_wins(entries)),
            None => front,
        }
    }
}

/// The places of the files of scripted variables that cannot be read.
pub open spec fn unread_variables(contents: Seq<Seq<u8>>) -> Seq<usize>
    decreases contents.len(),
{
    if contents.len() == 0 {
        Seq::empty()
    } else {
        let front = unread_variables(contents.drop_last());
        match scripted_entries(contents.last()) {
            Some(_) => front,
            None => front.push((contents.len() - 1) as usize),
        }
    }
}

/// Reads the files of scripted variables of a package and merges what they
/// define, in the order in which the files are given. A file that cannot be
/// read is reported by its place and left out.
pub fn read_variables(sources: &Vec<SourceFile>) -> (r: Variables)
    ensures
        r.variables@ == variables_of(contents_of(sources@)),
        r.failures@ == unread_variables(contents_of(sources@)),
{
    let mut variables: OrderedMap<String> = OrderedMap::new();
    let mut failures: Vec<usize> = Vec::new();
    let ghost all = contents_of(sources@);
    let mut i: usize = 0;
    while i < sources.len()
        invariant
            i <= sources@.len(),
            all == contents_of(sources@),
            variables@ == variables_of(all.take(i as int)),
            failures@ == unread_variables(all.take(i as int)),
        decreases sources@.len() - i,
    {
        assert(all.take(i + 1).drop_last() =~= all.take(i as int));
        match decode_variables(sources[i].bytes.as_slice()) {
            Ok(list) => {
                let defined = OrderedMap::from_entries(list);
                variables.extend_from(&defined);
            },
            Err(_) => {
                failures.push(i);
            },
        }
        i += 1;
    }
    assert(all.take(all.len() as int) =~= all);
    Variables { variables, failures }
}

/// One entry of a technology file by what it holds.
pub enum EntryView {
    Str(Seq<char>),
    Object(TechnologyDataView),
}

/// The key of each entry of a technology file, and what stands under it.
pub open spec fn entry_list(entries: Seq<(String, StringOrStruct<TechnologyData>)>) -> Seq<
    (Seq<char>, EntryView),
> {
    Seq::new(
        entries.len(),
        |i: int|
            (
                entries[i].0@,
                match entries[i].1 {
                    StringOrStruct::Str(s) => EntryView::Str(s@),
                    StringOrStruct::Object(data) => EntryView::Object(data@),
                },
            ),
    )
}

/// The entries under which a string stands, in their order.
pub open spec fn string_entries(entries: Seq<(Seq<char>, EntryView)>) -> Seq<
    (Seq<char>, Seq<char>),
>
    decreases entries.len(),
{
    if entries.len() == 0 {
        Seq::empty()
    } else {
        let front = string_entries(entries.drop_last());
        match entries.last().1 {
            EntryView::Str(s) => front.push((entries.last().0, s)),
            EntryView::Object(_) => front,
        }
    }
}

/// The entries under which a technology stands, in their order.
pub open spec fn object_entries(entries: Seq<(Seq<char>, EntryView)>) -> Seq<
    (Seq<char>, TechnologyDataView),
>
    decreases entries.len(),
{
    if entries.len() == 0 {
        Seq::empty()
    } else {
        let front = object_entries(entries.drop_last());
        match entries.last().1 {
            EntryView::Str(_) => front,
            EntryView::Object(data) => front.push((entries.last().0, data)),
        }
    }
}

/// The entries of the technology files of a package, parted in two.
#[derive(Debug)]
pub struct TechnologyEntries {
    /// The keys under which a string stands: they are variables.
    pub variables: OrderedMap<String>,
    /// The keys under which a technology stands.
    pub technologies: OrderedMap<TechnologyData>,
}

/// Parts the entries of the technology files of a package: an entry that
/// holds a string is no technology but a variable of that name; the others
/// are the technologies. Where a key stands more than once on one side, its
/// last entry counts.
pub fn read_technologies(entries: Vec<(String, StringOrStruct<TechnologyData>)>) -> (r:
    TechnologyEntries)
    ensures
        r.variables@ == last_wins(string_entries(entry_list(entries@))),
        r.technologies@ == last_wins(object_entries(entry_list(entries@))),
{
    let mut variables: OrderedMap<String> = OrderedMap::new();
    let mut technologies: OrderedMap<TechnologyData> = OrderedMap::new();
    let ghost whole = entries@;
    let ghost all = entry_list(entries@);
    for entry in it: entries.into_iter()
        invariant
            it.seq() == whole,
            all == entry_list(whole),
            variables@ == last_wins(string_entries(all.take(it.index()))),
            technologies@ == last_wins(object_entries(all.take(it.index()))),
    {
        assert(all.take(it.index() + 1).drop_last() =~= all.take(it.index()));
        let ghost strings = string_entries(all.take(it.index()));
        let ghost objects = object_entries(all.take(it.index()));
        match entry.1 {
            StringOrStruct::Str(value) => {
                assert(strings.push((entry.0@, value@)).drop_last() =~= strings);
                variables.insert(entry.0, value);
            },
            StringOrStruct::Object(data) => {
                assert(objects.push((entry.0@, data@)).drop_last() =~= objects);
                technologies.insert(entry.0, data);
            },
        }
    }
    assert(all.take(all.len() as int) =~= all);
    TechnologyEntries { variables, technologies }
}

/// The folded texts of each language: the references to variables in the
/// texts are resolved first, then the texts are folded by their stems.
pub open spec fn folded_localisations(
    all: Map<Languages, Map<Seq<char>, Seq<char>>>,
    variables: Map<Seq<char>, Seq<char>>,
) -> Map<Languages, Map<Seq<char>, TextView>> {
    Map::new(
        |l: Languages| all.contains_key(l),
        |l: Languages| folded(resolved_map(all[l], variables)),
    )
}

/// Resolves the references to variables in the texts of each language and
/// folds the texts by their stems.
pub fn fold_localisations(
    all: &LanguageMap<OrderedMap<String>>,
    variables: &OrderedMap<String>,
) -> (r: LanguageMap<OrderedMap<Text>>)
    ensures
        r@ == folded_localisations(all@, variables@),
{
    let languages = Languages::all();
    let mut out: LanguageMap<OrderedMap<Text>> = LanguageMap::new();
    let mut l: usize = 0;
    while l < 9
        invariant
            l <= 9,
            languages@.len() == 9,
            forall|j: int| 0 <= j < 9 ==> (#[trigger] languages@[j]).ordinal() == j,
            forall|language: Languages| #[trigger]
                out@.contains_key(language) <==> (language.ordinal() < l && all@.contains_key(
                    language,
                )),
            forall|language: Languages| #[trigger]
                out@.contains_key(language) ==> out@[language] == folded(
                    resolved_map(all@[language], variables@),
                ),
        decreases 9 - l,
    {
        let language = languages[l];
        match all.get(language) {
            Some(texts) => {
                let resolved = replace_variables_in(texts, variables);
                out.insert(language, fold_localisation_map(&resolved));
            },
            None => {},
        }
        l += 1;
    }
    out
}

/// What a package says of itself.
#[derive(Debug, Clone, PartialEq, Eq)]
pub struct ModDescriptor {
    pub name: String,
    pub tags: Vec<String>,
    pub version: Option<String>,
    pub dependencies: Option<Vec<String>>,
    pub picture: Option<String>,
    pub supported_version: Option<String>,
    pub remote_file_id: String,
}

/// A package: where it was found, what it says of itself, and what its
/// files hold.
#[derive(Debug)]
pub struct Mod {
    pub path: String,
    pub descriptor: ModDescriptor,
    pub variables: OrderedMap<String>,
    pub technologies: OrderedMap<TechnologyData>,
    pub localisations: Vec<LocalisationFile>,
}

impl Mod {
    /// Puts a package together from what its files hold. The variables that
    /// the technology files define override the scripted variables of the
    /// same name.
    pub fn new(
        path: String,
        descriptor: ModDescriptor,
        scripted_variables: OrderedMap<String>,
        technologies: TechnologyEntries,
        localisations: Vec<LocalisationFile>,
    ) -> (r: Mod)
        ensures
            r.path == path,
            r.descriptor == descriptor,
            r.variables@ == scripted_variables@.union_prefer_right(technologies.variables@),
            r.technologies@ == technologies.technologies@,
            r.localisations == localisations,
    {
        let mut variables = scripted_variables;
        variables.extend_from(&technologies.variables);
        Mod { path, descriptor, variables, technologies: technologies.technologies, localisations }
    }
}

/// The variables of each package.
pub open spec fn package_variables(mods: Seq<Mod>) -> Seq<Map<Seq<char>, Seq<char>>> {
    Seq::new(mods.len(), |i: int| mods[i].variables@)
}

/// The localisation files of all packages, in the order of the packages and
/// of their files.
pub open spec fn package_files(mods: Seq<Mod>) -> Seq<(Languages, Map<Seq<char>, Seq<char>>)>
    decreases mods.len(),
{
    if mods.len() == 0 {
        Seq::empty()
    } else {
        package_files(mods.drop_last()) + file_entries(mods.last().localisations@)
    }
}

/// The records of the technologies of one package, in the order of their
/// names.
pub open spec fn package_technologies(
    modid: Seq<char>,
    technologies: Seq<(Seq<char>, TechnologyDataView)>,
    variables: Map<Seq<char>, Seq<char>>,
    localisation: Map<Languages, Map<Seq<char>, TextView>>,
) -> Seq<TechnologyView> {
    Seq::new(
        technologies.len(),
        |i: int|
            resolved_technology(
                modid,
                technologies[i].0,
                technologies[i].1,
                variables,
                localisation,
            ),
    )
}

/// The records of the technologies of all packages, in the order of the
/// packages.
pub open spec fn all_technologies(
    mods: Seq<Mod>,
    variables: Map<Seq<char>, Seq<char>>,
    localisation: Map<Languages, Map<Seq<char>, TextView>>,
) -> Seq<TechnologyView>
    decreases mods.len(),
{
    if mods.len() == 0 {
        Seq::empty()
    } else {
        all_technologies(mods.drop_last(), variables, localisation) + package_technologies(
            mods.last().descriptor.remote_file_id@,
            mods.last().technologies.entries(),
            variables,
            localisation,
        )
    }
}

/// Makes the records of the technologies of all packages.
pub fn fold_technologies(
    mods: &Vec<Mod>,
    variables: &OrderedMap<String>,
    localisation: &LanguageMap<OrderedMap<Text>>,
) -> (r: Vec<Technology>)
    ensures
        technology_views(r@) == all_technologies(mods@, variables@, localisation@),
{
    let mut out: Vec<Technology> = Vec::new();
    let mut i: usize = 0;
    while i < mods.len()
        invariant
            i <= mods@.len(),
            technology_views(out@) == all_technologies(
                mods@.take(i as int),
                variables@,
                localisation@,
            ),
        decreases mods@.len() - i,
    {
        let package = &mods[i];
        let ghost before = technology_views(out@);
        let ghost want = package_technologies(
            package.descriptor.remote_file_id@,
            package.technologies.entries(),
            variables@,
            localisation@,
        );
        let n = package.technologies.len();
        let mut k: usize = 0;
        while k < n
            invariant
                k <= n,
                n == package.technologies.entries().len(),
                want == package_technologies(
                    package.descriptor.remote_file_id@,
                    package.technologies.entries(),
                    variables@,
                    localisation@,
                ),
                technology_views(out@) == before + want.take(k as int),
            decreases n - k,
        {
            let technology = resolve_technology(
                package.descriptor.remote_file_id.as_str(),
                package.technologies.key_at(k).as_str(),
                package.technologies.value_at(k),
                variables,
                localisation,
            );
            let ghost so_far = technology_views(out@);
            let ghost added = technology@;
            out.push(technology);
            assert(technology_views(out@) =~= so_far.push(added));
            k += 1;
        }
        assert(mods@.take(i + 1).drop_last() =~= mods@.take(i as int));
        i += 1;
    }
    assert(mods@.take(mods@.len() as int) =~= mods@);
    out
}

/// Each technology under its identifier.
pub open spec fn by_id(technologies: Seq<TechnologyView>) -> Seq<(Seq<char>, TechnologyView)> {
    Seq::new(technologies.len(), |i: int| (technologies[i].id, technologies[i]))
}

/// The technologies by their identifiers. Where two have the same
/// identifier, the later one takes the place of the earlier one.
pub fn index_technologies(technologies: &Vec<Technology>) -> (r: OrderedMap<Technology>)
    ensures
        r.wf(),
        r@ == last_wins(by_id(technology_views(technologies@))),
{
    let mut map: OrderedMap<Technology> = OrderedMap::new();
    let ghost all = by_id(technology_views(technologies@));
    let mut i: usize = 0;
    while i < technologies.len()
        invariant
            i <= technologies@.len(),
            all == by_id(technology_views(technologies@)),
            map.wf(),
            map@ == last_wins(all.take(i as int)),
        decreases technologies@.len() - i,
    {
        assert(all.take(i + 1).drop_last() =~= all.take(i as int));
        map.insert(technologies[i].id.clone(), technologies[i].duplicate());
        i += 1;
    }
    assert(all.take(all.len() as int) =~= all);
    map
}

/// The records of the prerequisites that `map` knows, in their order.
pub open spec fn known_prerequisites(
    map: Map<Seq<char>, TechnologyView>,
    prerequisites: Seq<Seq<char>>,
) -> Seq<TechnologyView>
    decreases prerequisites.len(),
{
    if prerequisites.len() == 0 {
        Seq::empty()
    } else {
        let front = known_prerequisites(map, prerequisites.drop_last());
        if map.contains_key(prerequisites.last()) {
            front.push(map[prerequisites.last()])
        } else {
            front
        }
    }
}

/// The technology under `key` with the records of its prerequisites.
pub open spec fn node_of(map: Map<Seq<char>, TechnologyView>, key: Seq<char>) -> TechnologyNodeView {
    TechnologyNodeView {
        id: key,
        data: map[key],
        prerequisites: known_prerequisites(map, map[key].prerequisites),
    }
}

/// Each technology of `map` with the records of its prerequisites.
pub open spec fn nodes_of(map: Map<Seq<char>, TechnologyView>) -> Map<
    Seq<char>,
    TechnologyNodeView,
> {
    Map::new(|key: Seq<char>| map.contains_key(key), |key: Seq<char>| node_of(map, key))
}

/// Puts beside each technology the records of its prerequisites. A
/// prerequisite that `map` does not know is left out.
pub fn technology_nodes(map: &OrderedMap<Technology>) -> (r: OrderedMap<TechnologyNode>)
    ensures
        r@ == nodes_of(map@),
{
    let mut out: OrderedMap<TechnologyNode> = OrderedMap::new();
    let n = map.len();
    let mut i: usize = 0;
    while i < n
        invariant
            i <= n,
            n == map.entries().len(),
            map.wf(),
            forall|key: Seq<char>| #[trigger]
                out@.contains_key(key) <==> (exists|j: int|
                    0 <= j < i && (#[trigger] map.entries()[j]).0 == key),
            forall|key: Seq<char>| #[trigger]
                out@.contains_key(key) ==> out@[key] == node_of(map@, key),
        decreases n - i,
    {
        let technology = map.value_at(i);
        let ghost key = map.entries()[i as int].0;
        proof {
            crate::ordered_map::lemma_ascending_lookup(map.entries(), i as int);
        }
        let mut prerequisites: Vec<Technology> = Vec::new();
        let ghost names = crate::text::views(technology.prerequisites@);
        let mut k: usize = 0;
        while k < technology.prerequisites.len()
            invariant
                k <= technology.prerequisites@.len(),
                names == crate::text::views(technology.prerequisites@),
                technology_views(prerequisites@) == known_prerequisites(
                    map@,
                    names.take(k as int),
                ),
            decreases technology.prerequisites@.len() - k,
        {
            assert(names.take(k + 1).drop_last() =~= names.take(k as int));
            let ghost before = technology_views(prerequisites@);
            match map.get(technology.prerequisites[k].as_str()) {
                Some(known) => {
                    prerequisites.push(known.duplicate());
                },
                None => {},
            }
            k += 1;
        }
        assert(names.take(names.len() as int) =~= names);
        let ghost before = out@;
        out.insert(
            map.key_at(i).clone(),
            TechnologyNode {
                id: map.key_at(i).clone(),
                data: technology.duplicate(),
                prerequisites,
            },
        );
        i += 1;
    }
    proof {
        assert forall|key: Seq<char>| out@.contains_key(key) <==> map@.contains_key(key) by {
            crate::ordered_map::lemma_last_wins_contains(map.entries(), key);
        }
    }
    out
}

/// What is made of the packages.
#[derive(Debug)]
pub struct Output {
    /// The folded texts of each language.
    pub localisation: LanguageMap<OrderedMap<Text>>,
    /// The records of the technologies, in the order of the packages.
    pub technologies: Vec<Technology>,
    /// Each technology with the records of its prerequisites.
    pub technologies_map: OrderedMap<TechnologyNode>,
    /// The graph of the technologies.
    pub tree: TechnologyTree,
}

/// The variables that the packages define together, each package overriding
/// the ones before it.
pub open spec fn merged_variables(mods: Seq<Mod>) -> Map<Seq<char>, Seq<char>> {
    overridden(package_variables(mods))
}

/// The folded texts of each language that the packages hold together.
pub open spec fn merged_texts(mods: Seq<Mod>) -> Map<Languages, Map<Seq<char>, TextView>> {
    folded_localisations(merged_localisations(package_files(mods)), merged_variables(mods))
}

/// The records of the technologies of the packages.
pub open spec fn merged_technologies(mods: Seq<Mod>) -> Seq<TechnologyView> {
    all_technologies(mods, merged_variables(mods), merged_texts(mods))
}

/// Merges what the packages hold, in the order in which they are given, and
/// makes of it the folded texts, the records of the technologies and their
/// graph.
pub fn process(mods: &Vec<Mod>) -> (r: Output)
    ensures
        r.localisation@ == merged_texts(mods@),
        technology_views(r.technologies@) == merged_technologies(mods@),
        r.technologies_map@ == nodes_of(last_wins(by_id(merged_technologies(mods@)))),
        r.tree@ == graph_of(in_order(last_wins(by_id(merged_technologies(mods@))))),
{
    let mut variable_maps: Vec<OrderedMap<String>> = Vec::new();
    let mut files: Vec<LocalisationFile> = Vec::new();
    let mut i: usize = 0;
    while i < mods.len()
        invariant
            i <= mods@.len(),
            contents(variable_maps@) == package_variables(mods@.take(i as int)),
            file_entries(files@) == package_files(mods@.take(i as int)),
        decreases mods@.len() - i,
    {
        let ghost maps_before = contents(variable_maps@);
        let ghost files_before = file_entries(files@);
        variable_maps.push(mods[i].variables.duplicate());
        assert(maps_before.push(mods@[i as int].variables@) =~= package_variables(
            mods@.take(i + 1),
        )) by {
            let want = package_variables(mods@.take(i + 1));
            assert forall|j: int| 0 <= j < want.len() implies maps_before.push(
                mods@[i as int].variables@,
            )[j] == want[j] by {}
        }
        let package_localisations = &mods[i].localisations;
        let ghost wanted = file_entries(package_localisations@);
        let mut k: usize = 0;
        while k < package_localisations.len()
            invariant
                k <= package_localisations@.len(),
                wanted == file_entries(package_localisations@),
                file_entries(files@) == files_before + wanted.take(k as int),
            decreases package_localisations@.len() - k,
        {
            let file = &package_localisations[k];
            let ghost so_far = file_entries(files@);
            files.push(
                LocalisationFile {
                    language: file.language,
                    entries: file.entries.duplicate(),
                    replaced: Vec::new(),
                },
            );
            assert(file_entries(files@) =~= so_far.push(wanted[k as int]));
            k += 1;
        }
        assert(mods@.take(i + 1).drop_last() =~= mods@.take(i as int));
        i += 1;
    }
    assert(mods@.take(mods@.len() as int) =~= mods@);
    let variables = merge_variables(&variable_maps);
    let texts = merge_localisations(&files);
    let localisation = fold_localisations(&texts, &variables);
    let technologies = fold_technologies(mods, &variables, &localisation);
    let map = index_technologies(&technologies);
    let technologies_map = technology_nodes(&map);
    let mut tree = TechnologyTree::new();
    tree.insert_map(&map);
    proof {
        crate::ordered_map::lemma_entries_in_order(map);
    }
    Output { localisation, technologies, technologies_map, tree }
}

} // verus!
