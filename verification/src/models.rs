//! The stored entity and its mathematical image.

use vstd::prelude::*;

verus! {

/// Mathematical image of a stored entry: the identifier, the optional
/// payload, the write timestamp and the fingerprint, as plain values and
/// character sequences.
pub struct EntryModel {
    pub id: i32,
    pub opt: Option<Seq<char>>,
    pub num: u64,
    pub hash: Seq<char>,
}

/// A stored entry: identifier assigned once by the store, optional payload,
/// write timestamp in microseconds since the Unix epoch, and fingerprint
/// string computed from the payload and that timestamp.
pub struct Entry {
    pub id: i32,
    pub opt: Option<String>,
    pub num: u64,
    pub hash: String,
}

impl View for Entry {
    type V = EntryModel;

    open spec fn view(&self) -> EntryModel {
        EntryModel {
            id: self.id,
            opt: match self.opt {
                Some(p) => Some(p@),
                None => None,
            },
            num: self.num,
            hash: self.hash@,
        }
    }
}

/// The fields of an entry as they stand before the store assigns an
/// identifier: what a create operation hands to the table.
pub struct NewEntry<'a> {
    pub opt: &'a str,
    pub num: u64,
    pub hash: &'a str,
}

} // verus!
