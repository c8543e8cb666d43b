//! The record store: validation, identifier assignment, encoding, path
//! resolution, and listing.
//!
//! The store works over an explicit model of the storage directory: the
//! sequence of files under the root, each a path with its bytes. `create`
//! appends exactly one freshly named file; `list` reads every file and
//! skips the ones whose bytes spell no record. Real filesystem access
//! stands outside the library and mirrors these steps, handing byte
//! vectors in and out.

use vstd::prelude::*;

use crate::codec::{decodable, decode, encode, encode_spec, lemma_record_of, record_of};
use crate::ident::{compact_of, fresh_id, is_compact_id, is_hyphenated_id};
use crate::paths::{record_dir, record_dir_spec, resolve, resolve_spec, LayoutMode};
use crate::record::{valid_names, wf_record, Record, RecordView, StoreError};
use crate::text::{lemma_trim_trimmed, trim, trim_spec};

verus! {

/// A byte drawn from the RFC 3339 date-time alphabet: a digit, `+`, `-`,
/// `.`, `:` or `T`.
pub open spec fn is_rfc3339_byte(b: u8) -> bool {
    (48 <= b && b <= 58) || b == 43 || b == 45 || b == 46 || b == 84
}

/// Relies on `chrono::Utc::now` and `DateTime::to_rfc3339`: the moment of
/// the call as RFC 3339 text such as `2026-01-07T08:30:12.123456789+00:00`.
/// Only the shape is assumed, never the moment: at least the 19 bytes of
/// `YYYY-MM-DDTHH:MM:SS`, drawn from the format's alphabet.
#[verifier::external_body]
pub(crate) fn now_rfc3339() -> (r: Vec<u8>)
    ensures
        r@.len() >= 19,
        forall|k: int| 0 <= k < r@.len() ==> is_rfc3339_byte(#[trigger] r@[k]),
{
    chrono::Utc::now().to_rfc3339().into_bytes()
}

/// One file under the storage root.
#[derive(Debug)]
pub struct FileEntry {
    /// Where the file stands, as the path resolver spelt it.
    pub path: Vec<u8>,
    /// The file's bytes.
    pub contents: Vec<u8>,
}

/// The mathematical shape of a stored file.
#[verifier::ext_equal]
pub struct FileEntryView {
    pub path: Seq<u8>,
    pub contents: Seq<u8>,
}

impl View for FileEntry {
    type V = FileEntryView;

    open spec fn view(&self) -> FileEntryView {
        FileEntryView { path: self.path@, contents: self.contents@ }
    }
}

/// The bytes of each stored file, in order.
pub open spec fn contents_of(files: Seq<FileEntry>) -> Seq<Seq<u8>> {
    files.map_values(|f: FileEntry| f.contents@)
}

/// The views of a run of records.
pub open spec fn views_of(recs: Seq<Record>) -> Seq<RecordView> {
    recs.map_values(|r: Record| r@)
}

/// What listing a run of file bytes yields: the record of every entry that
/// spells one, in order; an entry that spells none is skipped, never fatal.
pub open spec fn list_spec(entries: Seq<Seq<u8>>) -> Seq<RecordView>
    decreases entries.len(),
{
    if entries.len() == 0 {
        Seq::empty()
    } else {
        let rest = list_spec(entries.drop_last());
        if decodable(entries.last()) {
            rest.push(record_of(entries.last()))
        } else {
            rest
        }
    }
}

/// The store's configuration: where records live and how their paths are
/// laid out. The store holds no other state; every operation is a function
/// of this configuration, its inputs, and the directory it is handed.
pub struct RecordStore {
    /// The storage root directory.
    pub root: Vec<u8>,
    /// How identifiers map to paths under the root.
    pub mode: LayoutMode,
}

/// What a successful create hands back: the record and its resolved path.
#[derive(Debug)]
pub struct CreatedRecord {
    pub record: Record,
    pub path: Vec<u8>,
}

/// Everything a create must do to the filesystem: make sure `dir` exists,
/// then write `contents` at `path`.
#[derive(Debug)]
pub struct CreatePlan {
    /// The fully populated record.
    pub record: Record,
    /// The directory chain to create below the root.
    pub dir: Vec<u8>,
    /// The file the record goes to.
    pub path: Vec<u8>,
    /// The record's encoded bytes.
    pub contents: Vec<u8>,
}

/// What a create run against `store` promises of its outcome `c`: a
/// well-formed record carrying the trimmed names and a fresh identifier in
/// the mode's format, the resolved path, and exactly one new file under the
/// root holding the record's encoding.
pub open spec fn created_post(
    store: RecordStore,
    old_files: Seq<FileEntry>,
    new_files: Seq<FileEntry>,
    first: Seq<u8>,
    last: Seq<u8>,
    c: CreatedRecord,
) -> bool {
    &&& wf_record(c.record@)
    &&& c.record@.first_name == trim_spec(first)
    &&& c.record@.last_name == trim_spec(last)
    &&& (store.mode == LayoutMode::Flat ==> is_hyphenated_id(c.record@.id))
    &&& (store.mode == LayoutMode::Sharded ==> is_compact_id(c.record@.id))
    &&& c.path@ == resolve_spec(store.root@, store.mode, c.record@.id)
    &&& new_files.len() == old_files.len() + 1
    &&& new_files.drop_last() == old_files
    &&& new_files.last()@ == (FileEntryView {
        path: resolve_spec(store.root@, store.mode, c.record@.id),
        contents: encode_spec(c.record@),
    })
}

impl RecordStore {
    /// A store over the given root with the given layout.
    pub fn new(root: Vec<u8>, mode: LayoutMode) -> (s: RecordStore)
        ensures
            s.root@ == root@,
            s.mode == mode,
    {
        RecordStore { root, mode }
    }

    /// Validates the names and plans a create: trims both names and
    /// refuses the call if either is empty, then assigns a fresh identifier
    /// and the current timestamp, resolves the target path, and encodes the
    /// record. Nothing is written here: the plan says what to write where.
    pub fn prepare_create(&self, first: &Vec<u8>, last: &Vec<u8>) -> (r: Result<
        CreatePlan,
        StoreError,
    >)
        ensures
            r is Ok <==> valid_names(first@, last@),
            r matches Err(e) ==> e == StoreError::Validation,
            r matches Ok(plan) ==> {
                &&& wf_record(plan.record@)
                &&& plan.record@.first_name == trim_spec(first@)
                &&& plan.record@.last_name == trim_spec(last@)
                &&& (self.mode == LayoutMode::Flat ==> is_hyphenated_id(plan.record@.id))
                &&& (self.mode == LayoutMode::Sharded ==> is_compact_id(plan.record@.id))
                &&& plan.dir@ == record_dir_spec(self.root@, self.mode, plan.record@.id)
                &&& plan.path@ == resolve_spec(self.root@, self.mode, plan.record@.id)
                &&& plan.contents@ == encode_spec(plan.record@)
            },
    {
        let tf = trim(first);
        let tl = trim(last);
        if tf.len() == 0 || tl.len() == 0 {
            return Err(StoreError::Validation);
        }
        proof {
            lemma_trim_trimmed(first@);
            lemma_trim_trimmed(last@);
        }
        let hy = fresh_id();
        let id = match self.mode {
            LayoutMode::Flat => hy,
            LayoutMode::Sharded => compact_of(&hy),
        };
        let created = now_rfc3339();
        let dir = record_dir(&self.root, self.mode, &id);
        let path = resolve(&self.root, self.mode, &id);
        let record = Record { id, first_name: tf, last_name: tl, created_at: created };
        let contents = encode(&record);
        Ok(CreatePlan { record, dir, path, contents })
    }

    /// Creates a record in the directory model: validates, plans, and
    /// appends the one new file. On a validation error nothing changes.
    pub fn create(&self, files: &mut Vec<FileEntry>, first: &Vec<u8>, last: &Vec<u8>) -> (r: Result<
        CreatedRecord,
        StoreError,
    >)
        ensures
            r is Ok <==> valid_names(first@, last@),
            r matches Err(e) ==> e == StoreError::Validation && final (files)@ == old(files)@,
            r matches Ok(c) ==> created_post(*self, old(files)@, final (files)@, first@, last@, c),
    {
        let plan = match self.prepare_create(first, last) {
            Ok(p) => p,
            Err(e) => {
                return Err(e);
            },
        };
        let path2 = resolve(&self.root, self.mode, &plan.record.id);
        files.push(FileEntry { path: plan.path, contents: plan.contents });
        proof {
            assert(files@.drop_last() =~= old(files)@);
        }
        Ok(CreatedRecord { record: plan.record, path: path2 })
    }

    /// Lists every record under the root: decodes each file and skips the
    /// ones whose bytes spell no record, so one corrupt file never hides
    /// the others. Handed the files of a missing or empty root, it yields
    /// the empty sequence.
    pub fn list(&self, files: &Vec<FileEntry>) -> (r: Vec<Record>)
        ensures
            views_of(r@) == list_spec(contents_of(files@)),
    {
        let mut out: Vec<Record> = Vec::new();
        let mut i: usize = 0;
        while i < files.len()
            invariant
                0 <= i <= files@.len(),
                views_of(out@) == list_spec(contents_of(files@.take(i as int))),
            decreases files@.len() - i,
        {
            let ghost pre = contents_of(files@.take(i as int));
            let ghost post = contents_of(files@.take(i + 1 as int));
            proof {
                assert(post.drop_last() =~= pre);
                assert(post.last() == files@[i as int].contents@);
            }
            match decode(&files[i].contents) {
                Ok(rec) => {
                    let ghost b = files@[i as int].contents@;
                    proof {
                        lemma_record_of(b, rec@);
                    }
                    out.push(rec);
                    proof {
                        assert(views_of(out@) =~= list_spec(post));
                    }
                },
                Err(_) => {
                    proof {
                        assert(!decodable(files@[i as int].contents@));
                        assert(views_of(out@) =~= list_spec(post));
                    }
                },
            }
            i = i + 1;
        }
        proof {
            assert(files@.take(files@.len() as int) =~= files@);
        }
        out
    }
}

/// A record that create persisted is visible in the next listing: listing
/// the old files with its encoding appended yields the old listing with
/// exactly that record appended.
pub proof fn lemma_created_record_listed(entries: Seq<Seq<u8>>, rv: RecordView)
    ensures
        list_spec(entries.push(encode_spec(rv))) == list_spec(entries).push(rv),
{
    let e2 = entries.push(encode_spec(rv));
    assert(e2.drop_last() =~= entries);
    lemma_record_of(encode_spec(rv), rv);
}

/// What one create does to the next listing: exactly the created record is
/// appended to it.
pub proof fn lemma_create_then_list(
    store: RecordStore,
    old_files: Seq<FileEntry>,
    new_files: Seq<FileEntry>,
    first: Seq<u8>,
    last: Seq<u8>,
    c: CreatedRecord,
)
    requires
        created_post(store, old_files, new_files, first, last, c),
    ensures
        list_spec(contents_of(new_files)) == list_spec(contents_of(old_files)).push(c.record@),
{
    assert forall|i: int| 0 <= i < new_files.len() implies contents_of(new_files)[i]
        == contents_of(old_files).push(encode_spec(c.record@))[i] by {
        if i < old_files.len() {
            assert(new_files.drop_last()[i] == old_files[i]);
        } else {
            assert(new_files[i] == new_files.last());
        }
    }
    assert(contents_of(new_files) =~= contents_of(old_files).push(encode_spec(c.record@)));
    lemma_created_record_listed(contents_of(old_files), c.record@);
}

/// The round trip: after a create whose fresh identifier no listed record
/// carried, the listing holds exactly one record with that identifier — the
/// created record itself, last, carrying the trimmed names.
pub proof fn lemma_create_round_trip(
    store: RecordStore,
    old_files: Seq<FileEntry>,
    new_files: Seq<FileEntry>,
    first: Seq<u8>,
    last: Seq<u8>,
    c: CreatedRecord,
)
    requires
        created_post(store, old_files, new_files, first, last, c),
        forall|i: int|
            0 <= i < list_spec(contents_of(old_files)).len() ==> (#[trigger] list_spec(
                contents_of(old_files),
            )[i]).id != c.record@.id,
    ensures
        list_spec(contents_of(new_files)).len() == list_spec(contents_of(old_files)).len() + 1,
        list_spec(contents_of(new_files)).last() == c.record@,
        list_spec(contents_of(new_files)).last().first_name == trim_spec(first),
        list_spec(contents_of(new_files)).last().last_name == trim_spec(last),
        forall|i: int|
            0 <= i < list_spec(contents_of(new_files)).len() - 1 ==> (#[trigger] list_spec(
                contents_of(new_files),
            )[i]).id != c.record@.id,
{
    lemma_create_then_list(store, old_files, new_files, first, last, c);
    assert forall|i: int| 0 <= i < list_spec(contents_of(new_files)).len() - 1 implies (
    #[trigger] list_spec(contents_of(new_files))[i]).id != c.record@.id by {
        assert(list_spec(contents_of(new_files))[i] == list_spec(contents_of(old_files))[i]);
    }
}

/// A corrupt entry is isolated: it adds nothing to the listing and fails
/// nothing.
pub proof fn lemma_corrupt_entry_skipped(entries: Seq<Seq<u8>>, bad: Seq<u8>)
    requires
        !decodable(bad),
    ensures
        list_spec(entries.push(bad)) == list_spec(entries),
{
    assert(entries.push(bad).drop_last() =~= entries);
}

/// An absent or empty root lists as the empty sequence, not as an error.
pub proof fn lemma_empty_listing()
    ensures
        list_spec(Seq::<Seq<u8>>::empty()) == Seq::<RecordView>::empty(),
{
}

} // verus!
