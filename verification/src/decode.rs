//! Reading the keep list from its JSON text.

use crate::keep::KeepSet;
use crate::path::{models, parse_path, texts, Path, PathModel};
use vstd::prelude::*;

verus! {

/// The error of `serde_json`, carried through unread.
#[verifier::external_type_specification]
#[verifier::external_body]
pub struct ExJsonError(serde_json::Error);

/// The list of strings that `text` denotes as JSON, as `serde_json` reads it:
/// `None` where `serde_json` reports an error. Nothing more is stated
/// about it.
pub uninterp spec fn json_string_list(text: Seq<char>) -> Option<Seq<Seq<char>>>;

/// Calls `serde_json::from_str` for a `Vec<String>`. The contract gives the
/// outcome its name: the strings read are those of `json_string_list`, and
/// an error comes exactly where `json_string_list` has none. That
/// `serde_json` reads JSON correctly is taken on trust.
#[verifier::external_body]
fn read_string_list(text: &str) -> (r: Result<Vec<String>, serde_json::Error>)
    ensures
        match r {
            Ok(list) => json_string_list(text@) == Some(texts(list@)),
            Err(_) => json_string_list(text@).is_none(),
        },
{
    serde_json::from_str::<Vec<String>>(text)
}

/// Why a keep list could not be read.
#[derive(Debug, Clone, Copy, PartialEq, Eq, Structural)]
pub enum KeepListError {
    /// The text is no JSON array of strings.
    Malformed,
}

/// The set of the paths that the strings of `list` denote.
pub open spec fn paths_of(list: Seq<Seq<char>>) -> Set<PathModel> {
    list.map_values(|text: Seq<char>| parse_path(text)).to_set()
}

/// The keep list that `text` denotes, if it denotes one.
pub open spec fn keep_list_of(text: Seq<char>) -> Option<Set<PathModel>> {
    match json_string_list(text) {
        Some(list) => Some(paths_of(list)),
        None => None,
    }
}

/// The set of the paths that the strings of `list` denote.
pub fn keep_from_strings(list: &Vec<String>) -> (r: KeepSet)
    ensures
        r@ == paths_of(texts(list@)),
{
    let mut paths: Vec<Path> = Vec::new();
    let mut i: usize = 0;
    while i < list.len()
        invariant
            i <= list.len(),
            paths.len() == i,
            forall|k: int| 0 <= k < i ==> (#[trigger] paths[k])@ == parse_path(list[k]@),
        decreases list.len() - i,
    {
        paths.push(Path::new(list[i].as_str()));
        i += 1;
    }
    assert(models(paths@) == texts(list@).map_values(|text: Seq<char>| parse_path(text)));
    KeepSet::from_paths(paths)
}

/// Reads the keep list from its JSON text: an array of strings, each the
/// text of a path.
pub fn parse_keep_list(text: &str) -> (r: Result<KeepSet, KeepListError>)
    ensures
        match r {
            Ok(keep) => keep_list_of(text@) == Some(keep@),
            Err(e) => keep_list_of(text@).is_none() && e == KeepListError::Malformed,
        },
{
    match read_string_list(text) {
        Ok(list) => Ok(keep_from_strings(&list)),
        Err(_) => Err(KeepListError::Malformed),
    }
}

} // verus!
