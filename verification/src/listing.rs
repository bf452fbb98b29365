//! What a directory listing tells about one entry.

use crate::path::{is_name, is_valid_name};
use vstd::prelude::*;
use vstd::string::*;

verus! {

/// The value of a directory entry.
pub struct EntryModel {
    pub name: Seq<char>,
    pub is_dir: bool,
}

/// One entry of a directory, as the caller found it: its name, and whether
/// it is a directory.
#[derive(Debug)]
pub struct DirEntry {
    name: String,
    is_dir: bool,
}

impl View for DirEntry {
    type V = EntryModel;

    closed spec fn view(&self) -> EntryModel {
        EntryModel { name: self.name@, is_dir: self.is_dir }
    }
}

/// The values of a listing.
pub open spec fn entry_models(entries: Seq<DirEntry>) -> Seq<EntryModel> {
    entries.map_values(|e: DirEntry| e@)
}

/// The value of an entry that may be missing.
pub open spec fn entry_of(entry: Option<DirEntry>) -> Option<EntryModel> {
    match entry {
        Some(e) => Some(e@),
        None => None,
    }
}

impl DirEntry {
    #[verifier::type_invariant]
    spec fn inv(&self) -> bool {
        is_name(self.name@)
    }

    /// The entry called `name`; `None` if `name` is not a single component
    /// name.
    pub fn new(name: &str, is_dir: bool) -> (r: Option<DirEntry>)
        ensures
            entry_of(r) == if is_name(name@) {
                Some(EntryModel { name: name@, is_dir })
            } else {
                None
            },
    {
        if is_valid_name(name) {
            Some(DirEntry { name: String::from_str(name), is_dir })
        } else {
            None
        }
    }

    /// The name of the entry.
    pub fn name(&self) -> (r: &str)
        ensures
            r@ == self@.name,
            is_name(r@),
    {
        proof {
            use_type_invariant(self);
        }
        self.name.as_str()
    }

    /// Whether the entry is a directory.
    pub fn is_dir(&self) -> (r: bool)
        ensures
            r == self@.is_dir,
    {
        self.is_dir
    }
}

} // verus!
