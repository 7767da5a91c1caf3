use vstd::prelude::*;
use crate::config::{CompressionAlgorithm, DeltaAlgorithm, IndexMode};
use crate::dedup::DedupInfo;
use crate::delta::{DeltaInfo, Score};
use crate::table::StrTable;
use crate::text::owned;

verus! {

/// Relies on `chrono::Utc::now` and `DateTime::to_rfc3339`: the current time as RFC 3339
/// text. Nothing is promised of its value.
#[verifier::external_body]
fn now_rfc3339() -> (r: String) {
    chrono::Utc::now().to_rfc3339()
}

/// One record of the index, keyed by `original_path`.
#[derive(Debug)]
pub struct FileEntry {
    pub id: String,
    pub original_path: String,
    pub stored_path: String,
    pub file_size: u64,
    pub compressed_size: u64,
    pub created_at: String,
    pub compression_algorithm: CompressionAlgorithm,
    pub hash: Option<String>,
    pub is_reference: Option<bool>,
    pub original_storage_id: Option<String>,
    pub ref_count: Option<u32>,
    pub is_delta: Option<bool>,
    pub base_storage_id: Option<String>,
    pub similarity_score: Option<Score>,
    pub delta_algorithm: Option<DeltaAlgorithm>,
}

/// A copy of an optional string.
pub fn copy_opt_string(s: &Option<String>) -> (r: Option<String>)
    ensures
        r == *s,
{
    match s {
        Some(v) => Some(v.clone()),
        None => None,
    }
}

impl FileEntry {
    /// A base entry for a new physical object, stamped with the current time.
    pub fn new(
        id: String,
        original_path: String,
        stored_path: String,
        file_size: u64,
        compressed_size: u64,
        compression_algorithm: CompressionAlgorithm,
    ) -> (r: FileEntry)
        ensures
            r.id == id,
            r.original_path == original_path,
            r.stored_path == stored_path,
            r.file_size == file_size,
            r.compressed_size == compressed_size,
            r.compression_algorithm == compression_algorithm,
            r.hash is None,
            r.is_reference is None,
            r.original_storage_id is None,
            r.ref_count is None,
            r.is_delta is None,
            r.base_storage_id is None,
            r.similarity_score is None,
            r.delta_algorithm is None,
    {
        FileEntry {
            id,
            original_path,
            stored_path,
            file_size,
            compressed_size,
            created_at: now_rfc3339(),
            compression_algorithm,
            hash: None,
            is_reference: None,
            original_storage_id: None,
            ref_count: None,
            is_delta: None,
            base_storage_id: None,
            similarity_score: None,
            delta_algorithm: None,
        }
    }

    /// A field-by-field copy.
    pub fn copy(&self) -> (r: FileEntry)
        ensures
            r == *self,
    {
        FileEntry {
            id: self.id.clone(),
            original_path: self.original_path.clone(),
            stored_path: self.stored_path.clone(),
            file_size: self.file_size,
            compressed_size: self.compressed_size,
            created_at: self.created_at.clone(),
            compression_algorithm: self.compression_algorithm,
            hash: copy_opt_string(&self.hash),
            is_reference: self.is_reference,
            original_storage_id: copy_opt_string(&self.original_storage_id),
            ref_count: self.ref_count,
            is_delta: self.is_delta,
            base_storage_id: copy_opt_string(&self.base_storage_id),
            similarity_score: self.similarity_score,
            delta_algorithm: self.delta_algorithm,
        }
    }

    /// Records what the deduplicator knows of this entry.
    pub fn set_dedup_info(&mut self, dedup_info: DedupInfo)
        ensures
            final(self).hash == Some(dedup_info.hash),
            final(self).is_reference == Some(dedup_info.is_reference),
            final(self).original_storage_id == dedup_info.original_storage_id,
            final(self).ref_count == Some(dedup_info.ref_count),
            final(self).id == old(self).id,
            final(self).original_path == old(self).original_path,
            final(self).stored_path == old(self).stored_path,
            final(self).compressed_size == old(self).compressed_size,
            final(self).is_delta == old(self).is_delta,
            final(self).base_storage_id == old(self).base_storage_id,
    {
        self.hash = Some(dedup_info.hash);
        self.is_reference = Some(dedup_info.is_reference);
        self.original_storage_id = dedup_info.original_storage_id;
        self.ref_count = Some(dedup_info.ref_count);
    }

    /// Records the delta facts of this entry; its stored size becomes the delta's size.
    pub fn set_delta_info(&mut self, delta_info: DeltaInfo)
        ensures
            final(self).is_delta == Some(delta_info.is_delta),
            final(self).base_storage_id == delta_info.base_storage_id,
            final(self).similarity_score == delta_info.similarity_score,
            final(self).delta_algorithm == Some(delta_info.delta_algorithm),
            final(self).compressed_size == delta_info.delta_size,
            final(self).id == old(self).id,
            final(self).original_path == old(self).original_path,
            final(self).stored_path == old(self).stored_path,
            final(self).hash == old(self).hash,
            final(self).is_reference == old(self).is_reference,
    {
        self.is_delta = Some(delta_info.is_delta);
        self.base_storage_id = delta_info.base_storage_id;
        self.similarity_score = delta_info.similarity_score;
        self.delta_algorithm = Some(delta_info.delta_algorithm);
        self.compressed_size = delta_info.delta_size;
    }

    /// Equal in every field but the original path.
    pub open spec fn same_record(&self, other: FileEntry) -> bool {
        FileEntry { original_path: other.original_path, ..*self } == other
    }

    /// Flagged as a reference.
    pub open spec fn spec_is_reference(&self) -> bool {
        self.is_reference == Some(true)
    }

    /// Flagged as a delta.
    pub open spec fn spec_is_delta(&self) -> bool {
        self.is_delta == Some(true)
    }

    /// Whether this entry aliases another entry's physical object.
    pub fn is_reference_file(&self) -> (r: bool)
        ensures
            r == self.spec_is_reference(),
    {
        match self.is_reference {
            Some(b) => b,
            None => false,
        }
    }

    /// Whether this entry's object is a delta blob.
    pub fn is_delta_file(&self) -> (r: bool)
        ensures
            r == self.spec_is_delta(),
    {
        match self.is_delta {
            Some(b) => b,
            None => false,
        }
    }

    /// Bytes on disk owed to this entry: none for a reference.
    pub fn get_actual_storage_size(&self) -> (r: u64)
        ensures
            r == if self.spec_is_reference() {
                0
            } else {
                self.compressed_size
            },
    {
        if self.is_reference_file() {
            0
        } else {
            self.compressed_size
        }
    }
}

/// The in-memory index: entries keyed by their original path. Persisting it is the
/// caller's part.
pub struct MemoryIndex {
    pub table: StrTable<FileEntry>,
}

impl MemoryIndex {
    /// The keys are distinct and each entry sits under its own original path.
    pub open spec fn wf(&self) -> bool {
        &&& self.table.wf()
        &&& forall|k: Seq<char>| #[trigger] self.table.view().contains_key(k) ==> self.table.view()[k].original_path@ == k
    }

    /// The entries by original path.
    pub open spec fn view(&self) -> Map<Seq<char>, FileEntry> {
        self.table.view()
    }

    /// An empty index.
    pub fn new() -> (r: Self)
        ensures
            r.wf(),
            r@ == Map::<Seq<char>, FileEntry>::empty(),
    {
        MemoryIndex { table: StrTable::new() }
    }

    /// Inserts `entry`, replacing any entry at the same path.
    pub fn add_file(&mut self, entry: FileEntry)
        requires
            old(self).wf(),
        ensures
            final(self).wf(),
            final(self)@ == old(self)@.insert(entry.original_path@, entry),
    {
        let key = entry.original_path.clone();
        self.table.insert(key, entry);
    }

    /// The entry at `path`, if any.
    pub fn get_file(&self, path: &str) -> (r: Option<FileEntry>)
        requires
            self.wf(),
        ensures
            r == self@.get(path@),
    {
        match self.table.get(path) {
            Some(e) => Some(e.copy()),
            None => None,
        }
    }

    /// Whether an entry sits at `path`.
    pub fn contains(&self, path: &str) -> (r: bool)
        requires
            self.wf(),
        ensures
            r == self@.contains_key(path@),
    {
        self.table.get(path).is_some()
    }

    /// Takes out the entry at `path`, if any.
    pub fn remove_file(&mut self, path: &str) -> (r: Option<FileEntry>)
        requires
            old(self).wf(),
        ensures
            final(self).wf(),
            final(self)@ == old(self)@.remove(path@),
            r == old(self)@.get(path@),
    {
        self.table.remove(path)
    }

    /// Every entry, each once, in the index's own order.
    pub fn list_files(&self) -> (r: Vec<FileEntry>)
        requires
            self.wf(),
        ensures
            r@.len() == self@.len(),
            forall|i: int| 0 <= i < r@.len() ==> self@.contains_key(#[trigger] r@[i].original_path@)
                && self@[r@[i].original_path@] == r@[i],
            forall|k: Seq<char>| #[trigger] self@.contains_key(k) ==> exists|i: int| 0 <= i < r@.len() && r@[i] == self@[k],
            forall|i: int, j: int| 0 <= i < j < r@.len() ==> #[trigger] r@[i].original_path@ != #[trigger] r@[j].original_path@,
    {
        let mut v: Vec<FileEntry> = Vec::new();
        let n = self.table.entries.len();
        let mut i: usize = 0;
        while i < n
            invariant
                self.wf(),
                n == self.table.entries@.len(),
                i <= n,
                v@.len() == i,
                forall|j: int| 0 <= j < i ==> #[trigger] v@[j] == self.table.entries@[j].1,
            decreases n - i,
        {
            v.push(self.table.entries[i].1.copy());
            i = i + 1;
        }
        proof {
            self.table.lemma_len();
            assert forall|j: int| 0 <= j < v@.len() implies self@.contains_key(#[trigger] v@[j].original_path@)
                && self@[v@[j].original_path@] == v@[j] by {
                self.table.lemma_view_at(j);
            }
            assert forall|k: Seq<char>| #[trigger] self@.contains_key(k) implies exists|j: int| 0 <= j < v@.len() && v@[j] == self@[k] by {
                let j = choose|j: int| 0 <= j < self.table.entries@.len() && #[trigger] self.table.entries@[j].0@ == k;
                self.table.lemma_view_at(j);
                assert(v@[j] == self@[k]);
            }
            assert forall|a: int, b: int| 0 <= a < b < v@.len() implies #[trigger] v@[a].original_path@ != #[trigger] v@[b].original_path@ by {
                self.table.lemma_view_at(a);
                self.table.lemma_view_at(b);
                assert(self.table.entries@[a].0@ != self.table.entries@[b].0@);
            }
        }
        v
    }

    /// The entry at `old_path` moved to `new_path`: only its key and `original_path` change.
    /// Nothing happens when `old_path` is absent.
    pub fn rename_file(&mut self, old_path: &str, new_path: &str)
        requires
            old(self).wf(),
        ensures
            final(self).wf(),
            match old(self)@.get(old_path@) {
                Some(e) => renamed(old(self)@, final(self)@, old_path@, new_path@, e),
                None => final(self)@ == old(self)@,
            },
    {
        match self.table.remove(old_path) {
            Some(mut e) => {
                let p = owned(new_path);
                e.original_path = p.clone();
                self.table.insert(p, e);
                proof {
                    assert forall|k: Seq<char>| #[trigger] self.table.view().contains_key(k) implies self.table.view()[k].original_path@ == k by {
                        if k != new_path@ {
                            assert(old(self).table.view().contains_key(k));
                        }
                    }
                }
            },
            None => {},
        }
    }

    /// Same as `rename_file`: the new path is always a full path.
    pub fn move_file(&mut self, old_path: &str, new_path: &str)
        requires
            old(self).wf(),
        ensures
            final(self).wf(),
            match old(self)@.get(old_path@) {
                Some(e) => renamed(old(self)@, final(self)@, old_path@, new_path@, e),
                None => final(self)@ == old(self)@,
            },
    {
        self.rename_file(old_path, new_path)
    }

    /// Number of entries.
    pub fn count(&self) -> (r: usize)
        requires
            self.wf(),
        ensures
            r == self@.len(),
    {
        self.table.len()
    }
}

/// `after` is `before` with the entry `e` at `old_path` moved to `new_path`: the entry
/// keeps every field but its original path.
pub open spec fn renamed(
    before: Map<Seq<char>, FileEntry>,
    after: Map<Seq<char>, FileEntry>,
    old_path: Seq<char>,
    new_path: Seq<char>,
    e: FileEntry,
) -> bool {
    &&& after.dom() == before.dom().remove(old_path).insert(new_path)
    &&& after[new_path].original_path@ == new_path
    &&& after[new_path].same_record(e)
    &&& forall|k: Seq<char>| #[trigger] after.contains_key(k) && k != new_path ==> after[k] == before[k]
}

/// Entries a JSON index may hold before an automatic choice picks SQL.
pub const AUTO_SQL_THRESHOLD: usize = 1000;

/// The backend to open. An explicit mode is kept. `Auto` keeps an existing SQL index
/// (`index.db`); without one it picks SQL once the JSON index holds `AUTO_SQL_THRESHOLD`
/// entries or more, and JSON below that.
pub fn choose_index_mode(mode: IndexMode, sql_index_exists: bool, existing_json_count: usize) -> (r: IndexMode)
    ensures
        r == match mode {
            IndexMode::Auto => if sql_index_exists || existing_json_count >= AUTO_SQL_THRESHOLD {
                IndexMode::Sqlite
            } else {
                IndexMode::Json
            },
            m => m,
        },
        r != IndexMode::Auto,
{
    match mode {
        IndexMode::Auto => {
            if sql_index_exists || existing_json_count >= AUTO_SQL_THRESHOLD {
                IndexMode::Sqlite
            } else {
                IndexMode::Json
            }
        },
        m => m,
    }
}

} // verus!
