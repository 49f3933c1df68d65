//! The INI document model of the `ini` crate, as far as the configuration
//! reads it: its sections in file order, each a name (none for the keys
//! before the first section header) and its key/value pairs in file order.

use ini::{Ini, Properties};
use vstd::prelude::*;

verus! {

#[verifier::external_type_specification]
#[verifier::external_body]
pub struct ExIni(Ini);

#[verifier::external_type_specification]
#[verifier::external_body]
pub struct ExProperties(Properties);

/// The key/value pairs of a section, in file order.
pub type PairsView = Seq<(Seq<char>, Seq<char>)>;

/// The sections of a document, in file order.
pub type SectionsView = Seq<(Option<Seq<char>>, PairsView)>;

/// What `Ini::load_from_str` makes of a text: the sections it reads, or,
/// where it refuses the text, the message of its refusal (the `Display` of
/// its `ParseError`: line, column and reason).
pub uninterp spec fn ini_document(source: Seq<char>) -> Result<SectionsView, Seq<char>>;

/// The sections a loaded document holds.
pub uninterp spec fn ini_sections(document: Ini) -> SectionsView;

/// The pairs a section holds.
pub uninterp spec fn ini_pairs(properties: Properties) -> PairsView;

/// The position of the first section named `name`.
pub open spec fn first_section(sections: SectionsView, name: Seq<char>) -> Option<int> {
    if exists|i: int| 0 <= i < sections.len() && sections[i].0 == Some(name) {
        Some(
            choose|i: int|
                0 <= i < sections.len() && sections[i].0 == Some(name) && forall|j: int|
                    0 <= j < i ==> sections[j].0 != Some(name),
        )
    } else {
        None
    }
}

/// The position of the first pair whose key is `key`.
pub open spec fn first_pair(pairs: PairsView, key: Seq<char>) -> Option<int> {
    if exists|i: int| 0 <= i < pairs.len() && pairs[i].0 == key {
        Some(
            choose|i: int|
                0 <= i < pairs.len() && pairs[i].0 == key && forall|j: int|
                    0 <= j < i ==> pairs[j].0 != key,
        )
    } else {
        None
    }
}

/// `Ini::load_from_str`: reads an INI text with the crate's default options.
/// Its result is named, not restated: `ini_document` of the text, which is
/// either the sections that the loaded document then holds or the message of
/// the reader's refusal, its `ParseError` shown as text.
#[verifier::external_body]
pub fn load_ini(source: &str) -> (result: Result<Ini, String>)
    ensures
        result is Ok <==> ini_document(source@) is Ok,
        result matches Ok(document) ==> ini_sections(document) == ini_document(source@)->Ok_0,
        result matches Err(reason) ==> ini_document(source@) is Err && reason@ == ini_document(
            source@,
        )->Err_0,
{
    match Ini::load_from_str(source) {
        Ok(document) => Ok(document),
        Err(error) => Err(error.to_string()),
    }
}

/// `Ini::section`: the first section of that name (the crate looks it up in
/// its ordered multimap, whose `get` gives the first value stored under a
/// key), or `None`.
#[verifier::external_body]
pub fn ini_section<'a>(document: &'a Ini, name: &str) -> (result: Option<&'a Properties>)
    ensures
        match first_section(ini_sections(*document), name@) {
            None => result is None,
            Some(i) => result matches Some(properties) && ini_pairs(*properties) == ini_sections(
                *document,
            )[i].1,
        },
{
    document.section(Some(name))
}

/// `Properties::get`: the value of the first pair with that key, or `None`.
#[verifier::external_body]
pub fn ini_value<'a>(properties: &'a Properties, key: &str) -> (result: Option<&'a str>)
    ensures
        match first_pair(ini_pairs(*properties), key@) {
            None => result is None,
            Some(i) => result matches Some(value) && value@ == ini_pairs(*properties)[i].1,
        },
{
    properties.get(key)
}

/// `Properties::iter`: the pairs in file order, copied out as strings.
#[verifier::external_body]
pub fn ini_pair_list(properties: &Properties) -> (result: Vec<(String, String)>)
    ensures
        result@.len() == ini_pairs(*properties).len(),
        forall|i: int|
            0 <= i < result@.len() ==> (#[trigger] result@[i]).0@ == ini_pairs(*properties)[i].0
                && result@[i].1@ == ini_pairs(*properties)[i].1,
{
    properties.iter().map(|(key, value)| (key.to_owned(), value.to_owned())).collect()
}

/// `Properties::is_empty`: whether the section holds no pair.
#[verifier::external_body]
pub fn ini_pairs_empty(properties: &Properties) -> (result: bool)
    ensures
        result == (ini_pairs(*properties).len() == 0),
{
    properties.is_empty()
}

/// `Ini::iter`: the sections in file order, each name copied out as a
/// string, with its pairs.
#[verifier::external_body]
pub fn ini_section_list<'a>(document: &'a Ini) -> (result: Vec<(Option<String>, &'a Properties)>)
    ensures
        result@.len() == ini_sections(*document).len(),
        forall|i: int|
            0 <= i < result@.len() ==> match (#[trigger] result@[i]).0 {
                Some(name) => ini_sections(*document)[i].0 == Some(name@),
                None => ini_sections(*document)[i].0 is None,
            } && ini_pairs(*result@[i].1) == ini_sections(*document)[i].1,
{
    document.iter().map(|(name, properties)| (name.map(str::to_owned), properties)).collect()
}

} // verus!
