//! The service surface: thin adapters from request values to record-store
//! calls. Each service is a value carrying only its resolved configuration;
//! every call is a function of that configuration and its inputs.

use vstd::prelude::*;

use crate::paths::LayoutMode;
use crate::record::{valid_names, Record, StoreError};
use crate::store::{
    contents_of, created_post, list_spec, views_of, CreatedRecord, FileEntry, RecordStore,
};

verus! {

/// The liveness answer: always well, with a fixed message.
pub struct HealthReply {
    pub ok: bool,
    pub message: String,
}

/// The GOS record service.
pub struct GosService {
    /// The store this service adapts requests to.
    pub store: RecordStore,
}

impl GosService {
    /// A GOS service over the given root and layout.
    pub fn new(root: Vec<u8>, mode: LayoutMode) -> (s: GosService)
        ensures
            s.store.root@ == root@,
            s.store.mode == mode,
    {
        GosService { store: RecordStore::new(root, mode) }
    }

    /// The liveness probe: constant, stateless, never failing.
    pub fn health(&self) -> (r: HealthReply)
        ensures
            r.ok,
            r.message@ == "GOS is alive"@,
    {
        HealthReply { ok: true, message: String::from_str("GOS is alive") }
    }

    /// Creates a patient record: trims and validates the names, then
    /// persists one new record file.
    pub fn create_patient(
        &self,
        files: &mut Vec<FileEntry>,
        first: &Vec<u8>,
        last: &Vec<u8>,
    ) -> (r: Result<CreatedRecord, StoreError>)
        ensures
            r is Ok <==> valid_names(first@, last@),
            r matches Err(e) ==> e == StoreError::Validation && final (files)@ == old(files)@,
            r matches Ok(c) ==> created_post(
                self.store,
                old(files)@,
                final (files)@,
                first@,
                last@,
                c,
            ),
    {
        self.store.create(files, first, last)
    }
}

/// The VPR record service.
pub struct VprService {
    /// The store this service adapts requests to.
    pub store: RecordStore,
}

impl VprService {
    /// A VPR service over the given root and layout.
    pub fn new(root: Vec<u8>, mode: LayoutMode) -> (s: VprService)
        ensures
            s.store.root@ == root@,
            s.store.mode == mode,
    {
        VprService { store: RecordStore::new(root, mode) }
    }

    /// The liveness probe: constant, stateless, never failing.
    pub fn health(&self) -> (r: HealthReply)
        ensures
            r.ok,
            r.message@ == "VPR is alive"@,
    {
        HealthReply { ok: true, message: String::from_str("VPR is alive") }
    }

    /// Creates a patient record: trims and validates the names, then
    /// persists one new record file.
    pub fn create_patient(
        &self,
        files: &mut Vec<FileEntry>,
        first: &Vec<u8>,
        last: &Vec<u8>,
    ) -> (r: Result<CreatedRecord, StoreError>)
        ensures
            r is Ok <==> valid_names(first@, last@),
            r matches Err(e) ==> e == StoreError::Validation && final (files)@ == old(files)@,
            r matches Ok(c) ==> created_post(
                self.store,
                old(files)@,
                final (files)@,
                first@,
                last@,
                c,
            ),
    {
        self.store.create(files, first, last)
    }

    /// Lists every record under the root, skipping unreadable files.
    pub fn list_patients(&self, files: &Vec<FileEntry>) -> (r: Vec<Record>)
        ensures
            views_of(r@) == list_spec(contents_of(files@)),
    {
        self.store.list(files)
    }
}

} // verus!
