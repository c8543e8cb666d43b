//! The persisted record and the error taxonomy of the store.

use vstd::prelude::*;

use crate::text::{is_trimmed, trim_spec};

verus! {

/// A persisted patient record. Textual fields are carried as UTF-8 bytes.
#[derive(Debug)]
pub struct Record {
    /// Unique identifier assigned at creation, immutable thereafter.
    pub id: Vec<u8>,
    /// Required given name, non-empty and trimmed.
    pub first_name: Vec<u8>,
    /// Required family name, non-empty and trimmed.
    pub last_name: Vec<u8>,
    /// Creation timestamp in RFC 3339 text, assigned at creation.
    pub created_at: Vec<u8>,
}

/// The mathematical shape of a record: four byte sequences.
#[verifier::ext_equal]
pub struct RecordView {
    pub id: Seq<u8>,
    pub first_name: Seq<u8>,
    pub last_name: Seq<u8>,
    pub created_at: Seq<u8>,
}

impl View for Record {
    type V = RecordView;

    open spec fn view(&self) -> RecordView {
        RecordView {
            id: self.id@,
            first_name: self.first_name@,
            last_name: self.last_name@,
            created_at: self.created_at@,
        }
    }
}

/// Every persisted record has a non-empty identifier, non-empty trimmed
/// names, and a non-empty timestamp.
pub open spec fn wf_record(rv: RecordView) -> bool {
    &&& rv.id.len() > 0
    &&& rv.first_name.len() > 0
    &&& is_trimmed(rv.first_name)
    &&& rv.last_name.len() > 0
    &&& is_trimmed(rv.last_name)
    &&& rv.created_at.len() > 0
}

/// What can go wrong in the store: malformed caller input, or an
/// environment failure at one of the three filesystem steps of a create.
#[derive(Clone, Copy, Debug, PartialEq, Eq, Structural)]
pub enum StoreError {
    /// A required name is empty after trimming.
    Validation,
    /// The storage root directory could not be prepared.
    StorageRoot,
    /// The per-record directory chain could not be prepared.
    RecordDir,
    /// The encoded record could not be written.
    Persist,
}

impl StoreError {
    /// The caller-visible message of each error kind.
    pub fn message(&self) -> (m: String)
        ensures
            *self == StoreError::Validation ==> m@ == "required field missing"@,
            *self == StoreError::StorageRoot ==> m@ == "cannot prepare storage root"@,
            *self == StoreError::RecordDir ==> m@ == "cannot prepare record directory"@,
            *self == StoreError::Persist ==> m@ == "cannot persist record"@,
    {
        match self {
            StoreError::Validation => String::from_str("required field missing"),
            StoreError::StorageRoot => String::from_str("cannot prepare storage root"),
            StoreError::RecordDir => String::from_str("cannot prepare record directory"),
            StoreError::Persist => String::from_str("cannot persist record"),
        }
    }
}

/// A stored file whose bytes do not spell a record.
#[derive(Clone, Copy, Debug, PartialEq, Eq, Structural)]
pub struct DecodeError;

/// Both names non-empty once trimmed: the only demand validation makes.
pub open spec fn valid_names(first: Seq<u8>, last: Seq<u8>) -> bool {
    trim_spec(first).len() > 0 && trim_spec(last).len() > 0
}

} // verus!
