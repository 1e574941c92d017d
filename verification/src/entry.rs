use vstd::prelude::*;

verus! {

/// One command of the log: either a write of a value to a key, or the
/// removal of a key. Entries are immutable once written; they are the unit
/// of durability and the unit of replay.
#[derive(Debug, Clone, PartialEq, Eq)]
pub enum Entry {
    /// Maps the key (first field) to the value (second field).
    Put(String, String),
    /// Removes the key.
    Rm(String),
}

/// The mathematical form of an [`Entry`]: the same two variants over
/// sequences of characters. Contracts and the replay model speak of this
/// type rather than of the executable strings.
pub enum EntryModel {
    /// Maps `key` to `value`.
    Put { key: Seq<char>, value: Seq<char> },
    /// Removes `key`.
    Rm { key: Seq<char> },
}

impl EntryModel {
    /// The key this command is about, whichever variant it is.
    pub open spec fn key(self) -> Seq<char> {
        match self {
            EntryModel::Put { key, .. } => key,
            EntryModel::Rm { key } => key,
        }
    }
}

impl View for Entry {
    type V = EntryModel;

    open spec fn view(&self) -> EntryModel {
        match self {
            Entry::Put(key, value) => EntryModel::Put { key: key@, value: value@ },
            Entry::Rm(key) => EntryModel::Rm { key: key@ },
        }
    }
}

impl Entry {
    /// Builds a removal command for `key`.
    pub fn rm(key: String) -> (r: Self)
        ensures
            r@ == (EntryModel::Rm { key: key@ }),
    {
        Entry::Rm(key)
    }

    /// Builds a write command mapping `key` to `value`.
    pub fn set(key: String, value: String) -> (r: Self)
        ensures
            r@ == (EntryModel::Put { key: key@, value: value@ }),
    {
        Entry::Put(key, value)
    }

    /// The key this command is about, whichever variant it is.
    pub fn get_key(&self) -> (r: &String)
        ensures
            r@ == self@.key(),
    {
        match self {
            Entry::Put(key, ..) => key,
            Entry::Rm(key) => key,
        }
    }
}

} // verus!
