use vstd::prelude::*;
use crate::codec::{compress, decoded_form, decompress};
use crate::config::{CompressionAlgorithm, Config, DeltaAlgorithm};
use crate::dedup::{content_hash, rebuilt_hash_map, ContentDeduplicator, DedupStats};
use crate::delta::{
    apply_simple_delta,    lemma_truncated_blob_rejected, copies_aligned, lemma_delta_round_trip, lemma_emitted_blob_len, lemma_ge_chain, lemma_ge_trans, lemma_not_gt_ge,
    adjusted, calculate_similarity, decoded_blob, emitted_blob, file_type_of, similarity_score,
    DeltaStats, DeltaStorage, Score, MAX_SCORED_LEN,
};
use crate::error::StowrError;
use crate::index::{FileEntry, MemoryIndex};
use crate::table::StrTable;
use crate::text::{chars_of, contains_seq, contains_text, has_char, owned, push_char, push_text, same_text};
use crate::index::renamed;

verus! {

/// Relies on `uuid::Uuid::new_v4` and its `to_string`: a random identifier. Nothing is
/// promised of its value.
#[verifier::external_body]
fn fresh_uuid() -> (r: String) {
    uuid::Uuid::new_v4().to_string()
}

/// What `Path::join` gives for a directory and a relative name.
pub uninterp spec fn joined(dir: Seq<char>, name: Seq<char>) -> Seq<char>;

/// Relies on `std::path::Path::join`: `name` appended to `dir` as one more component.
#[verifier::external_body]
fn join_path(dir: &str, name: &str) -> (r: String)
    ensures
        r@ == joined(dir@, name@),
{
    std::path::Path::new(dir).join(name).to_string_lossy().into_owned()
}

/// What `Path::file_name` gives for a path: its last normal component, if any.
pub uninterp spec fn file_name_of(path: Seq<char>) -> Option<Seq<char>>;

/// Relies on `std::path::Path::file_name`: the last normal component of the path.
#[verifier::external_body]
fn path_file_name(path: &str) -> (r: Option<String>)
    ensures
        match file_name_of(path@) {
            Some(n) => r matches Some(s) && s@ == n,
            None => r is None,
        },
{
    match std::path::Path::new(path).file_name() {
        Some(n) => Some(n.to_string_lossy().into_owned()),
        None => None,
    }
}

/// The entry records the content hash `hash`.
pub open spec fn hash_is(e: FileEntry, hash: Seq<char>) -> bool {
    e.hash is Some && e.hash->Some_0@ == hash
}

/// A base entry: neither a reference nor a delta.
pub open spec fn is_base(e: FileEntry) -> bool {
    !e.spec_is_reference() && !e.spec_is_delta()
}

/// The arena holds at `stored_path` an object that `alg` decodes to `plain`.
pub open spec fn holds(objects: Map<Seq<char>, Vec<u8>>, stored_path: Seq<char>, alg: CompressionAlgorithm, plain: Seq<u8>) -> bool {
    &&& objects.contains_key(stored_path)
    &&& decoded_form(alg, objects[stored_path]@) == Some(plain)
}

/// No two entries share an object id.
pub open spec fn ids_unique(index: Map<Seq<char>, FileEntry>) -> bool {
    forall|a: Seq<char>, b: Seq<char>|
        index.contains_key(a) && index.contains_key(b) && a != b ==> #[trigger] index[a].id@ != #[trigger] index[b].id@
}

/// Whether some entry of the index carries the object id `id`.
pub open spec fn id_in_use(index: Map<Seq<char>, FileEntry>, id: Seq<char>) -> bool {
    exists|k: Seq<char>| index.contains_key(k) && #[trigger] index[k].id@ == id
}

/// Whether some reference or delta entry, other than the one at `except`, names `id` as
/// its base.
pub open spec fn has_dependant(index: Map<Seq<char>, FileEntry>, id: Seq<char>, except: Option<Seq<char>>) -> bool {
    exists|k: Seq<char>| index.contains_key(k) && except != Some(k) && depends_on(#[trigger] index[k], id)
}

/// `e` is a reference or a delta whose base is the object `id`.
pub open spec fn depends_on(e: FileEntry, id: Seq<char>) -> bool {
    &&& e.spec_is_reference() || e.spec_is_delta()
    &&& e.base_storage_id is Some
    &&& e.base_storage_id->Some_0@ == id
}

/// How a store request was carried out.
#[derive(Debug, Clone, Copy, PartialEq, Eq, Structural)]
pub enum StoredKind {
    /// The path was already in the index; nothing changed.
    AlreadyStored,
    /// Same content as an existing base: the new entry shares its object.
    Reference,
    /// Stored as a delta against a similar base.
    Delta,
    /// Stored as a new self-contained object.
    Base,
}

/// The result of `store_file`: how the file was stored and the physical object, if any,
/// that was created and must be written out.
#[derive(Debug, Clone)]
pub struct StoreOutcome {
    pub kind: StoredKind,
    pub new_object: Option<String>,
}

/// The result of `owe_file`: the restored bytes and the physical objects that were
/// released and must be unlinked.
#[derive(Debug, Clone)]
pub struct Extracted {
    pub content: Vec<u8>,
    pub removed_objects: Vec<String>,
}

/// The storage engine: configuration, the index, the deduplicator, the delta pool and
/// the arena of physical objects keyed by their stored path.
pub struct StorageManager {
    pub config: Config,
    pub index: MemoryIndex,
    pub deduplicator: ContentDeduplicator,
    pub delta_storage: DeltaStorage,
    pub objects: StrTable<Vec<u8>>,
}

impl StorageManager {
    /// Every part is well-formed, object ids are unique, and the delta pool follows the
    /// configuration.
    pub open spec fn wf(&self) -> bool {
        &&& self.config.wf()
        &&& self.index.wf()
        &&& self.deduplicator.wf()
        &&& self.delta_storage.wf()
        &&& self.objects.wf()
        &&& ids_unique(self.index@)
        &&& self.delta_storage.delta_algorithm == self.config.delta_algorithm
        &&& self.delta_storage.similarity_threshold == self.config.similarity_threshold
    }

    /// The index, by original path.
    pub open spec fn entries(&self) -> Map<Seq<char>, FileEntry> {
        self.index@
    }

    /// The physical objects, by stored path.
    pub open spec fn arena(&self) -> Map<Seq<char>, Vec<u8>> {
        self.objects.view()
    }

    /// The entry at `path` can be turned back into `content` from the arena: a base or a
    /// reference through its object, a delta through its base's object and its blob.
    pub open spec fn reconstructs(&self, path: Seq<char>, content: Seq<u8>) -> bool {
        &&& self.entries().contains_key(path)
        &&& {
            let e = self.entries()[path];
            if e.spec_is_reference() {
                holds(self.arena(), e.stored_path@, e.compression_algorithm, content)
            } else if e.spec_is_delta() {
                &&& e.base_storage_id is Some
                &&& (e.delta_algorithm is None || e.delta_algorithm == Some(DeltaAlgorithm::Simple))
                &&& exists|k: Seq<char>, bp: Seq<u8>, blob: Seq<u8>|
                    #![trigger self.entries()[k], decoded_blob(bp, blob)]
                    self.entries().contains_key(k) && self.entries()[k].id@ == e.base_storage_id->Some_0@
                        && holds(self.arena(), self.entries()[k].stored_path@, self.entries()[k].compression_algorithm, bp)
                        && holds(self.arena(), e.stored_path@, e.compression_algorithm, blob)
                        && decoded_blob(bp, blob) == Some(content)
            } else {
                holds(self.arena(), e.stored_path@, e.compression_algorithm, content)
            }
        }
    }

    /// The first base entry (in index order) whose hash is `hash`.
    fn find_file_by_hash(&self, hash: &String) -> (r: Option<FileEntry>)
        requires
            self.wf(),
        ensures
            match r {
                Some(e) => self.entries().contains_key(e.original_path@) && self.entries()[e.original_path@] == e
                    && hash_is(e, hash@) && is_base(e),
                None => forall|k: Seq<char>| #[trigger] self.entries().contains_key(k) ==> !(hash_is(self.entries()[k], hash@)
                    && is_base(self.entries()[k])),
            },
    {
        let all = self.index.list_files();
        let mut i: usize = 0;
        while i < all.len()
            invariant
                self.wf(),
                i <= all@.len(),
                all@.len() == self.entries().len(),
                forall|j: int| 0 <= j < all@.len() ==> self.entries().contains_key(#[trigger] all@[j].original_path@)
                    && self.entries()[all@[j].original_path@] == all@[j],
                forall|k: Seq<char>| #[trigger] self.entries().contains_key(k) ==> exists|j: int| 0 <= j < all@.len() && all@[j] == self.entries()[k],
                forall|j: int| 0 <= j < i ==> !(hash_is(#[trigger] all@[j], hash@) && is_base(all@[j])),
            decreases all@.len() - i,
        {
            let f = &all[i];
            let hit = match &f.hash {
                Some(h) => *h == *hash,
                None => false,
            };
            if hit && !f.is_reference_file() && !f.is_delta_file() {
                return Some(f.copy());
            }
            i = i + 1;
        }
        proof {
            assert forall|k: Seq<char>| #[trigger] self.entries().contains_key(k) implies !(hash_is(self.entries()[k], hash@)
                && is_base(self.entries()[k])) by {
                let j = choose|j: int| 0 <= j < all@.len() && all@[j] == self.entries()[k];
                assert(!(hash_is(all@[j], hash@) && is_base(all@[j])));
            }
        }
        None
    }

    /// An entry (the first in index order) whose object id is `storage_id`.
    fn find_file_by_storage_id(&self, storage_id: &String) -> (r: Option<FileEntry>)
        requires
            self.wf(),
        ensures
            match r {
                Some(e) => self.entries().contains_key(e.original_path@) && self.entries()[e.original_path@] == e
                    && e.id@ == storage_id@,
                None => !id_in_use(self.entries(), storage_id@),
            },
    {
        let all = self.index.list_files();
        let mut i: usize = 0;
        while i < all.len()
            invariant
                self.wf(),
                i <= all@.len(),
                forall|j: int| 0 <= j < all@.len() ==> self.entries().contains_key(#[trigger] all@[j].original_path@)
                    && self.entries()[all@[j].original_path@] == all@[j],
                forall|k: Seq<char>| #[trigger] self.entries().contains_key(k) ==> exists|j: int| 0 <= j < all@.len() && all@[j] == self.entries()[k],
                forall|j: int| 0 <= j < i ==> (#[trigger] all@[j]).id@ != storage_id@,
            decreases all@.len() - i,
        {
            if all[i].id == *storage_id {
                return Some(all[i].copy());
            }
            i = i + 1;
        }
        proof {
            assert forall|k: Seq<char>| self.entries().contains_key(k) implies #[trigger] self.entries()[k].id@ != storage_id@ by {
                let j = choose|j: int| 0 <= j < all@.len() && all@[j] == self.entries()[k];
                assert(all@[j].id@ != storage_id@);
            }
        }
        None
    }

    /// Whether any reference or delta entry, other than the one at `except`, names
    /// `storage_id` as its base.
    fn has_dependants(&self, storage_id: &String, except: Option<&String>) -> (r: bool)
        requires
            self.wf(),
        ensures
            r == has_dependant(self.entries(), storage_id@, match except { Some(s) => Some(s@), None => None }),
    {
        let ghost ex = match except { Some(s) => Some(s@), None => None::<Seq<char>> };
        let all = self.index.list_files();
        let mut i: usize = 0;
        while i < all.len()
            invariant
                self.wf(),
                ex == match except { Some(s) => Some(s@), None => None::<Seq<char>> },
                i <= all@.len(),
                forall|j: int| 0 <= j < all@.len() ==> self.entries().contains_key(#[trigger] all@[j].original_path@)
                    && self.entries()[all@[j].original_path@] == all@[j],
                forall|k: Seq<char>| #[trigger] self.entries().contains_key(k) ==> exists|j: int| 0 <= j < all@.len() && all@[j] == self.entries()[k],
                forall|j: int| 0 <= j < i ==> !(ex != Some((#[trigger] all@[j]).original_path@) && depends_on(all@[j], storage_id@)),
            decreases all@.len() - i,
        {
            let f = &all[i];
            let skip = match except {
                Some(p) => f.original_path == *p,
                None => false,
            };
            if !skip && (f.is_reference_file() || f.is_delta_file()) {
                match &f.base_storage_id {
                    Some(b) => {
                        if *b == *storage_id {
                            proof {
                                assert(self.entries().contains_key(all@[i as int].original_path@));
                            }
                            return true;
                        }
                    },
                    None => {},
                }
            }
            i = i + 1;
        }
        proof {
            assert forall|k: Seq<char>| self.entries().contains_key(k) implies !(ex != Some(k) && depends_on(#[trigger] self.entries()[k], storage_id@)) by {
                let j = choose|j: int| 0 <= j < all@.len() && all@[j] == self.entries()[k];
                assert(all@[j].original_path@ == k);
            }
        }
        false
    }
}

impl StorageManager {
    /// Decodes the object of `entry` from the arena: `MissingBase` when the object is
    /// absent, `DecodeCorrupt` when it does not decode.
    fn read_stored_file_content(&self, entry: &FileEntry) -> (r: Result<Vec<u8>, StowrError>)
        requires
            self.wf(),
        ensures
            forall|p: Seq<u8>| holds(self.arena(), entry.stored_path@, entry.compression_algorithm, p)
                ==> (r is Ok && r->Ok_0@ == p),
            r matches Ok(v) ==> holds(self.arena(), entry.stored_path@, entry.compression_algorithm, v@),
            r matches Err(e) ==> (e == StowrError::MissingBase || e == StowrError::DecodeCorrupt),
            !self.arena().contains_key(entry.stored_path@) ==> r == Err::<Vec<u8>, StowrError>(StowrError::MissingBase),
    {
        match self.objects.get(entry.stored_path.as_str()) {
            Some(bytes) => decompress(entry.compression_algorithm, bytes.as_slice()),
            None => Err(StowrError::MissingBase),
        }
    }

    /// The stored path for object `id`, when neither the id nor the path is in use.
    fn object_name(&self, id: &String) -> (r: Result<String, StowrError>)
        requires
            self.wf(),
        ensures
            r is Ok <==> name_free(*self, id@),
            r matches Ok(p) ==> p@ == object_path(*self, id@),
            r matches Err(e) ==> e == StowrError::IoError,
    {
        if self.find_file_by_storage_id(id).is_some() {
            return Err(StowrError::IoError);
        }
        let mut name = id.clone();
        push_text(&mut name, ".");
        push_text(&mut name, self.config.compression_algorithm.file_extension());
        let stored_path = join_path(self.config.storage_path.as_str(), name.as_str());
        if self.objects.get(stored_path.as_str()).is_some() {
            return Err(StowrError::IoError);
        }
        Ok(stored_path)
    }

    /// The best base entry for `content` whose object decodes: the highest adjusted score
    /// (type bonus when the file-type tags agree), the first of equals winning.
    fn find_similar_file(&self, content: &[u8], file_type: &String) -> (r: Option<(FileEntry, Score)>)
        requires
            self.wf(),
            content@.len() <= MAX_SCORED_LEN,
        ensures
            r matches Some(m) ==> self.entries().contains_key(m.0.original_path@)
                && self.entries()[m.0.original_path@] == m.0 && is_base(m.0) && m.1.wf()
                && forall|bp: Seq<u8>| holds(self.arena(), m.0.stored_path@, m.0.compression_algorithm, bp)
                    ==> m.1 == adjusted(similarity_score(content@, bp), file_type_of(m.0.original_path@) == file_type@),
            forall|k: Seq<char>, bp: Seq<u8>|
                #![trigger self.entries()[k], holds(self.arena(), self.entries()[k].stored_path@, self.entries()[k].compression_algorithm, bp)]
                self.entries().contains_key(k) && is_base(self.entries()[k]) && bp.len() <= MAX_SCORED_LEN
                && holds(self.arena(), self.entries()[k].stored_path@, self.entries()[k].compression_algorithm, bp)
                ==> r is Some && r->Some_0.1.ge(adjusted(similarity_score(content@, bp), file_type_of(k) == file_type@))
                    && adjusted(similarity_score(content@, bp), file_type_of(k) == file_type@).wf(),
    {
        let all = self.index.list_files();
        let mut best: Option<(FileEntry, Score)> = None;
        let mut i: usize = 0;
        while i < all.len()
            invariant
                self.wf(),
                content@.len() <= MAX_SCORED_LEN,
                i <= all@.len(),
                forall|j: int| 0 <= j < all@.len() ==> self.entries().contains_key(#[trigger] all@[j].original_path@)
                    && self.entries()[all@[j].original_path@] == all@[j],
                best matches Some(m) ==> self.entries().contains_key(m.0.original_path@)
                    && self.entries()[m.0.original_path@] == m.0 && is_base(m.0) && m.1.wf()
                    && m.1.num <= 2 * m.1.den && m.1.den <= 80 * MAX_SCORED_LEN
                    && forall|bp: Seq<u8>| holds(self.arena(), m.0.stored_path@, m.0.compression_algorithm, bp)
                        ==> m.1 == adjusted(similarity_score(content@, bp), file_type_of(m.0.original_path@) == file_type@),
                forall|j: int, bp: Seq<u8>|
                    #![trigger all@[j], holds(self.arena(), all@[j].stored_path@, all@[j].compression_algorithm, bp)]
                    0 <= j < i && is_base(all@[j]) && bp.len() <= MAX_SCORED_LEN
                    && holds(self.arena(), all@[j].stored_path@, all@[j].compression_algorithm, bp)
                    ==> best is Some && best->Some_0.1.ge(adjusted(similarity_score(content@, bp), file_type_of(all@[j].original_path@) == file_type@))
                        && adjusted(similarity_score(content@, bp), file_type_of(all@[j].original_path@) == file_type@).wf(),
            decreases all@.len() - i,
        {
            let f = &all[i];
            let ghost best0 = best;
            if !f.is_reference_file() && !f.is_delta_file() {
                match self.read_stored_file_content(f) {
                    Ok(stored) => {
                        if stored.len() <= MAX_SCORED_LEN {
                            let raw = calculate_similarity(content, stored.as_slice());
                            let tag = DeltaStorage::infer_file_type(f.original_path.as_str());
                            let same = same_text(tag.as_str(), file_type.as_str());
                            let score = if same { raw.with_type_bonus() } else { raw };
                            let better = match &best {
                                Some(m) => score.exceeds(&m.1),
                                None => true,
                            };
                            if better {
                                best = Some((f.copy(), score));
                            }
                            proof {
                                assert forall|j: int, bp: Seq<u8>|
                                    #![trigger all@[j], holds(self.arena(), all@[j].stored_path@, all@[j].compression_algorithm, bp)]
                                    0 <= j < i + 1 && is_base(all@[j]) && bp.len() <= MAX_SCORED_LEN
                                    && holds(self.arena(), all@[j].stored_path@, all@[j].compression_algorithm, bp)
                                    implies best is Some && best->Some_0.1.ge(adjusted(similarity_score(content@, bp), file_type_of(all@[j].original_path@) == file_type@))
                                        && adjusted(similarity_score(content@, bp), file_type_of(all@[j].original_path@) == file_type@).wf() by {
                                    let sj = adjusted(similarity_score(content@, bp), file_type_of(all@[j].original_path@) == file_type@);
                                    if j == i {
                                        assert(stored@ == bp);
                                        assert(sj == score);
                                        if !better {
                                            lemma_not_gt_ge(score, best0->Some_0.1);
                                        }
                                    } else if better {
                                        if best0 is Some {
                                            lemma_ge_trans(score, best0->Some_0.1, sj);
                                        }
                                    }
                                }
                            }
                        } else {
                            proof {
                                assert forall|bp: Seq<u8>| holds(self.arena(), all@[i as int].stored_path@, all@[i as int].compression_algorithm, bp)
                                    implies bp.len() > MAX_SCORED_LEN by {
                                    assert(stored@ == bp);
                                }
                            }
                        }
                    },
                    Err(_) => {},
                }
            }
            i = i + 1;
        }
        proof {
            assert forall|k: Seq<char>, bp: Seq<u8>|
                #![trigger self.entries()[k], holds(self.arena(), self.entries()[k].stored_path@, self.entries()[k].compression_algorithm, bp)]
                self.entries().contains_key(k) && is_base(self.entries()[k]) && bp.len() <= MAX_SCORED_LEN
                && holds(self.arena(), self.entries()[k].stored_path@, self.entries()[k].compression_algorithm, bp)
                implies best is Some && best->Some_0.1.ge(adjusted(similarity_score(content@, bp), file_type_of(k) == file_type@))
                    && adjusted(similarity_score(content@, bp), file_type_of(k) == file_type@).wf() by {
                let j = choose|j: int| 0 <= j < all@.len() && all@[j] == self.entries()[k];
                assert(all@[j].original_path@ == k);
            }
        }
        best
    }

    /// Stores the bytes `content` of the file at `path` under a fresh random object id;
    /// see `store_file_with_id`. Reading the file and deleting the source are the caller's
    /// part.
    pub fn store_file(&mut self, path: &str, content: Vec<u8>) -> (r: Result<StoreOutcome, StowrError>)
        requires
            old(self).wf(),
        ensures
            final(self).wf(),
            old(self).config == final(self).config,
            store_post(*old(self), path@, content@, r, *final(self)),
            r == Err::<StoreOutcome, StowrError>(StowrError::NotImplemented) ==> not_implemented_possible(*old(self)),
            delta_expected(*old(self), path@, content@) && old(self).config.delta_algorithm != DeltaAlgorithm::Simple
                ==> r == Err::<StoreOutcome, StowrError>(StowrError::NotImplemented),
    {
        let id = fresh_uuid();
        self.store_file_with_id(path, content, id)
    }

    /// Stores the bytes `content` of the file at `path`, naming a new object `id`. An
    /// indexed path is left alone. With dedup on, content equal by hash to a base becomes
    /// a reference to it; else, with delta on, content close enough to a base becomes a
    /// delta against it (when the blob replays to the content); else it becomes a new
    /// base. It succeeds whenever the path is new, `id` and its object path are unused,
    /// and no delta algorithm other than the simple one can be called for.
    pub fn store_file_with_id(&mut self, path: &str, content: Vec<u8>, id: String) -> (r: Result<StoreOutcome, StowrError>)
        requires
            old(self).wf(),
        ensures
            final(self).wf(),
            old(self).config == final(self).config,
            store_with_id_post(*old(self), path@, content@, id@, r, *final(self)),
    {
        if self.index.contains(path) {
            return Ok(StoreOutcome { kind: StoredKind::AlreadyStored, new_object: None });
        }
        let file_hash = ContentDeduplicator::calculate_hash(content.as_slice());
        if self.config.enable_deduplication {
            match self.find_file_by_hash(&file_hash) {
                Some(existing) => {
                    return self.store_as_reference(path, &content, &existing, &file_hash, id);
                },
                None => {},
            }
        }
        if self.config.enable_delta_compression && content.len() <= MAX_SCORED_LEN {
            let tag = DeltaStorage::infer_file_type(path);
            let found = self.find_similar_file(content.as_slice(), &tag);
            proof {
                if delta_expected(*old(self), path@, content@) {
                    let (k, bp) = choose|k: Seq<char>, bp: Seq<u8>|
                        #![trigger self.entries()[k], holds(self.arena(), self.entries()[k].stored_path@, self.entries()[k].compression_algorithm, bp)]
                        self.entries().contains_key(k) && is_base(self.entries()[k]) && bp.len() <= MAX_SCORED_LEN
                        && holds(self.arena(), self.entries()[k].stored_path@, self.entries()[k].compression_algorithm, bp)
                        && adjusted(similarity_score(content@, bp), file_type_of(k) == file_type_of(path@)).ge(self.config.similarity_threshold);
                    let sk = adjusted(similarity_score(content@, bp), file_type_of(k) == file_type_of(path@));
                    assert(found is Some && found->Some_0.1.ge(sk) && sk.wf());
                    lemma_ge_chain(found->Some_0.1, sk, self.config.similarity_threshold);
                    let m = found->Some_0.0;
                    assert(self.entries().contains_key(m.original_path@));
                }
            }
            match found {
                Some((base_entry, similarity)) => {
                    if similarity.at_least(&self.config.similarity_threshold) {
                        match self.store_as_delta(path, &content, &base_entry, similarity, &file_hash, id.clone()) {
                            Ok(Some(o)) => return Ok(o),
                            Ok(None) => {},
                            Err(e) => return Err(e),
                        }
                    }
                },
                None => {},
            }
        }
        self.store_as_base_file(path, content, file_hash, id)
    }

    /// Indexes a reference at `path` that shares the object of the base `existing`.
    fn store_as_reference(&mut self, path: &str, content: &Vec<u8>, existing: &FileEntry, hash: &String, id: String) -> (r: Result<StoreOutcome, StowrError>)
        requires
            old(self).wf(),
            !old(self).entries().contains_key(path@),
            old(self).config.enable_deduplication,
            old(self).entries().contains_key(existing.original_path@),
            old(self).entries()[existing.original_path@] == *existing,
            is_base(*existing),
            hash_is(*existing, hash@),
            hash@ == content_hash(content@),
        ensures
            final(self).wf(),
            final(self).config == old(self).config,
            r is Err ==> final(self).entries() == old(self).entries() && final(self).arena() == old(self).arena(),
            r matches Err(e) ==> e == StowrError::IoError,
            r is Ok <==> name_free(*old(self), id@),
            r matches Ok(o) ==> o.kind == StoredKind::Reference && stored_entry(*old(self), *final(self), path@, content@, o),
            r is Ok ==> final(self).entries()[path@].id == id,
    {
        self.object_name(&id)?;
        let mut entry = FileEntry::new(
            id,
            owned(path),
            existing.stored_path.clone(),
            existing.file_size,
            0,
            existing.compression_algorithm,
        );
        entry.is_reference = Some(true);
        entry.base_storage_id = Some(existing.id.clone());
        entry.hash = Some(hash.clone());
        let ghost e = entry;
        self.index.add_file(entry);
        self.deduplicator.add_hash_reference(hash.as_str(), existing.id.as_str());
        proof {
            lemma_add_keeps_ids_unique(old(self).entries(), path@, e);
            assert(old(self).entries().contains_key(existing.original_path@));
            assert(self.entries()[path@] == e);
        }
        Ok(StoreOutcome { kind: StoredKind::Reference, new_object: None })
    }

    /// Stores `content` as a delta against `base_entry`; `Ok(None)` when the base does not
    /// decode, or the blob is too long for the codecs or does not replay to the content,
    /// and the caller stores a base instead.
    fn store_as_delta(&mut self, path: &str, content: &Vec<u8>, base_entry: &FileEntry, similarity: Score, hash: &String, id: String) -> (r: Result<Option<StoreOutcome>, StowrError>)
        requires
            old(self).wf(),
            !old(self).entries().contains_key(path@),
            old(self).config.enable_delta_compression,
            content@.len() <= MAX_SCORED_LEN,
            old(self).entries().contains_key(base_entry.original_path@),
            old(self).entries()[base_entry.original_path@] == *base_entry,
            is_base(*base_entry),
            hash@ == content_hash(content@),
            similarity.ge(old(self).config.similarity_threshold),
            forall|bp: Seq<u8>| holds(old(self).arena(), base_entry.stored_path@, base_entry.compression_algorithm, bp)
                ==> similarity == adjusted(similarity_score(content@, bp), file_type_of(base_entry.original_path@) == file_type_of(path@)),
        ensures
            final(self).wf(),
            final(self).config == old(self).config,
            !(r matches Ok(Some(_))) ==> *final(self) == *old(self),
            r matches Err(e) ==> (e == StowrError::NotImplemented && old(self).config.delta_algorithm != DeltaAlgorithm::Simple)
                || (e == StowrError::IoError && !name_free(*old(self), id@)),
            r matches Ok(Some(o)) ==> o.kind == StoredKind::Delta && stored_entry(*old(self), *final(self), path@, content@, o),
            r matches Ok(Some(_)) ==> final(self).entries()[path@].id == id,
            forall|bp: Seq<u8>| holds(old(self).arena(), base_entry.stored_path@, base_entry.compression_algorithm, bp)
                ==> (old(self).config.delta_algorithm != DeltaAlgorithm::Simple
                    ==> r == Err::<Option<StoreOutcome>, StowrError>(StowrError::NotImplemented)),
            forall|bp: Seq<u8>| holds(old(self).arena(), base_entry.stored_path@, base_entry.compression_algorithm, bp)
                && old(self).config.delta_algorithm == DeltaAlgorithm::Simple
                && 6 * content@.len() + 30 <= u32::MAX
                && decoded_blob(bp, emitted_blob(bp, content@)) == Some(content@)
                && name_free(*old(self), id@) ==> r matches Ok(Some(_)),
    {
        let base_content = match self.read_stored_file_content(base_entry) {
            Ok(b) => b,
            Err(_) => return Ok(None),
        };
        let delta_data = self.delta_storage.create_delta(base_content.as_slice(), content.as_slice())?;
        proof {
            lemma_emitted_blob_len(base_content@, content@);
        }
        if delta_data.len() > u32::MAX as usize {
            return Ok(None);
        }
        match apply_simple_delta(base_content.as_slice(), delta_data.as_slice()) {
            Ok(rebuilt) => {
                if !same_bytes(rebuilt.as_slice(), content.as_slice()) {
                    return Ok(None);
                }
            },
            Err(_) => return Ok(None),
        }
        let stored_path = self.object_name(&id)?;
        let compressed = compress(self.config.compression_algorithm, self.config.compression_level, delta_data.as_slice())?;
        let mut entry = FileEntry::new(
            id,
            owned(path),
            stored_path.clone(),
            content.len() as u64,
            compressed.len() as u64,
            self.config.compression_algorithm,
        );
        entry.is_delta = Some(true);
        entry.base_storage_id = Some(base_entry.id.clone());
        entry.similarity_score = Some(similarity);
        entry.hash = Some(hash.clone());
        entry.delta_algorithm = Some(self.config.delta_algorithm);
        let ghost e = entry;
        let ghost blob = delta_data@;
        let ghost bp = base_content@;
        self.objects.insert(stored_path.clone(), compressed);
        self.index.add_file(entry);
        proof {
            lemma_add_keeps_ids_unique(old(self).entries(), path@, e);
            assert(holds(self.arena(), e.stored_path@, e.compression_algorithm, blob));
            assert(self.arena()[base_entry.stored_path@] == old(self).arena()[base_entry.stored_path@]);
            assert(holds(self.arena(), base_entry.stored_path@, base_entry.compression_algorithm, bp));
            assert(self.entries()[base_entry.original_path@] == *base_entry);
            assert(decoded_blob(bp, blob) == Some(content@));
            let k = base_entry.original_path@;
            assert(self.entries().contains_key(k) && self.entries()[k].id@ == e.base_storage_id->Some_0@
                && holds(self.arena(), self.entries()[k].stored_path@, self.entries()[k].compression_algorithm, bp)
                && holds(self.arena(), e.stored_path@, e.compression_algorithm, blob)
                && decoded_blob(bp, blob) == Some(content@));
            assert(self.entries()[path@] == e);
            assert(self.reconstructs(path@, content@));
            assert(old(self).entries().contains_key(base_entry.original_path@));
            assert(holds(old(self).arena(), base_entry.stored_path@, base_entry.compression_algorithm, bp));
        }
        Ok(Some(StoreOutcome { kind: StoredKind::Delta, new_object: Some(stored_path) }))
    }

    /// Stores `content` as a new self-contained object.
    fn store_as_base_file(&mut self, path: &str, content: Vec<u8>, hash: String, id: String) -> (r: Result<StoreOutcome, StowrError>)
        requires
            old(self).wf(),
            !old(self).entries().contains_key(path@),
            hash@ == content_hash(content@),
        ensures
            final(self).wf(),
            final(self).config == old(self).config,
            r is Err ==> final(self).entries() == old(self).entries() && final(self).arena() == old(self).arena(),
            r matches Err(e) ==> e == StowrError::IoError,
            r is Ok <==> name_free(*old(self), id@),
            r matches Ok(o) ==> o.kind == StoredKind::Base && stored_entry(*old(self), *final(self), path@, content@, o),
            r is Ok ==> final(self).entries()[path@].id == id,
    {
        let stored_path = self.object_name(&id)?;
        let compressed = compress(self.config.compression_algorithm, self.config.compression_level, content.as_slice())?;
        let mut entry = FileEntry::new(
            id.clone(),
            owned(path),
            stored_path.clone(),
            content.len() as u64,
            compressed.len() as u64,
            self.config.compression_algorithm,
        );
        entry.hash = Some(hash.clone());
        if self.config.enable_deduplication {
            self.deduplicator.register_file(hash, id);
        }
        let ghost e = entry;
        let ghost level = self.config.compression_level;
        self.objects.insert(stored_path.clone(), compressed);
        self.index.add_file(entry);
        proof {
            lemma_add_keeps_ids_unique(old(self).entries(), path@, e);
            if content@.len() <= u32::MAX {
                assert(holds(self.arena(), e.stored_path@, e.compression_algorithm, content@));
            }
        }
        Ok(StoreOutcome { kind: StoredKind::Base, new_object: Some(stored_path) })
    }
}

impl StorageManager {
    /// Removes the object at `stored_path` from the arena, reporting it in `removed`.
    fn release_object(&mut self, stored_path: &String, removed: &mut Vec<String>)
        requires
            old(self).wf(),
        ensures
            final(self).wf(),
            final(self).entries() == old(self).entries(),
            final(self).arena() == old(self).arena().remove(stored_path@),
            final(self).config == old(self).config,
            final(self).deduplicator == old(self).deduplicator,
            old(self).arena().contains_key(stored_path@) ==> final(removed)@ == old(removed)@.push(*stored_path),
            !old(self).arena().contains_key(stored_path@) ==> final(removed)@ == old(removed)@,
    {
        match self.objects.remove(stored_path.as_str()) {
            Some(_) => removed.push(stored_path.clone()),
            None => {},
        }
    }

    /// Restores the file at `path`: returns its bytes and removes its entry. A reference
    /// or base releases its count in the deduplicator and gives up the shared object when
    /// nothing else needs it; a delta is rebuilt from its base and its blob is dropped.
    /// Writing the bytes out and unlinking the removed objects are the caller's part.
    pub fn owe_file(&mut self, path: &str) -> (r: Result<Extracted, StowrError>)
        requires
            old(self).wf(),
        ensures
            final(self).wf(),
            old(self).config == final(self).config,
            extract_post(*old(self), path@, r, *final(self)),
    {
        let entry = match self.index.get_file(path) {
            Some(e) => e,
            None => return Err(StowrError::NotFound),
        };
        let mut removed: Vec<String> = Vec::new();
        let content: Vec<u8>;
        let ghost m0 = *self;
        if entry.is_reference_file() {
            content = self.read_stored_file_content(&entry)?;
            proof {
                assert forall|c: Seq<u8>| #[trigger] m0.reconstructs(path@, c) implies content@ == c by {
                    assert(holds(m0.arena(), entry.stored_path@, entry.compression_algorithm, c));
                }
            }
            match &entry.base_storage_id {
                Some(base_id) => {
                    let others = self.has_dependants(base_id, Some(&entry.original_path));
                    let free = match &entry.hash {
                        Some(h) => self.deduplicator.remove_hash_reference(h.as_str()),
                        None => false,
                    };
                    if !others && free {
                        self.release_object(&entry.stored_path, &mut removed);
                    }
                },
                None => {},
            }
        } else if entry.is_delta_file() {
            proof {
                assert forall|c: Seq<u8>| #[trigger] m0.reconstructs(path@, c) implies delta_restores(m0, entry, c) by {
                }
            }
            content = self.extract_delta_content(&entry)?;
            self.release_object(&entry.stored_path, &mut removed);
        } else {
            content = self.read_stored_file_content(&entry)?;
            proof {
                assert forall|c: Seq<u8>| #[trigger] m0.reconstructs(path@, c) implies content@ == c by {
                    assert(holds(m0.arena(), entry.stored_path@, entry.compression_algorithm, c));
                }
            }
            let free = match &entry.hash {
                Some(h) => self.deduplicator.remove_hash_reference(h.as_str()),
                None => true,
            };
            let needed = self.has_dependants(&entry.id, None);
            if free && !needed {
                self.release_object(&entry.stored_path, &mut removed);
            }
        }
        self.index.remove_file(path);
        proof {
            lemma_remove_keeps_ids_unique(old(self).entries(), path@);
            if removed@.len() == 0 {
                assert(arena_without(m0.arena(), removed@) == m0.arena());
            } else {
                assert(removed@.drop_last().len() == 0);
                reveal_with_fuel(arena_without, 2);
                assert(arena_without(m0.arena(), removed@) == m0.arena().remove(removed@[0]@));
            }
        }
        let r = Ok(Extracted { content, removed_objects: removed });
        proof {
            assert forall|c: Seq<u8>| #[trigger] m0.reconstructs(path@, c) implies (r is Ok && r->Ok_0.content@ == c) by {
            }
            assert(self.entries() == m0.entries().remove(path@));
            assert(removal_rule(m0, path@, r->Ok_0.removed_objects@));
            assert(dedup_after_extract(m0, path@, self.deduplicator));
            assert(self.arena() == arena_without(m0.arena(), r->Ok_0.removed_objects@));
            assert(extract_post(m0, path@, r, *self));
        }
        r
    }

    /// Rebuilds the bytes of the delta entry `entry` from its base's object and its blob.
    fn extract_delta_content(&self, entry: &FileEntry) -> (r: Result<Vec<u8>, StowrError>)
        requires
            self.wf(),
            entry.spec_is_delta(),
        ensures
            r matches Err(e) ==> (e == StowrError::MissingBase || e == StowrError::DecodeCorrupt
                || e == StowrError::DeltaCorrupt || e == StowrError::NotImplemented),
            forall|c: Seq<u8>| #[trigger] delta_restores(*self, *entry, c) ==> (r is Ok && r->Ok_0@ == c),
            delta_broken(*self, *entry) ==> r == Err::<Vec<u8>, StowrError>(StowrError::DeltaCorrupt),
            delta_unresolved(*self, *entry) ==> r == Err::<Vec<u8>, StowrError>(StowrError::MissingBase),
            delta_unimplemented(*entry) ==> r == Err::<Vec<u8>, StowrError>(StowrError::NotImplemented),
    {
        let base_id = match &entry.base_storage_id {
            Some(b) => b,
            None => return Err(StowrError::MissingBase),
        };
        match entry.delta_algorithm {
            Some(DeltaAlgorithm::XDelta) => return Err(StowrError::NotImplemented),
            Some(DeltaAlgorithm::BsDiff) => return Err(StowrError::NotImplemented),
            _ => {},
        }
        let base_entry = match self.find_file_by_storage_id(base_id) {
            Some(b) => b,
            None => return Err(StowrError::MissingBase),
        };
        let base_content = self.read_stored_file_content(&base_entry)?;
        let delta_data = self.read_stored_file_content(entry)?;
        let r = self.delta_storage.apply_delta(base_content.as_slice(), delta_data.as_slice());
        proof {
            if delta_broken(*self, *entry) {
                let (k, bp, blob) = choose|k: Seq<char>, bp: Seq<u8>, blob: Seq<u8>|
                    #![trigger self.entries()[k], decoded_blob(bp, blob)]
                    self.entries().contains_key(k) && self.entries()[k].id@ == entry.base_storage_id->Some_0@
                        && holds(self.arena(), self.entries()[k].stored_path@, self.entries()[k].compression_algorithm, bp)
                        && holds(self.arena(), entry.stored_path@, entry.compression_algorithm, blob)
                        && decoded_blob(bp, blob) is None;
                assert(self.entries()[base_entry.original_path@].id@ == base_id@);
                if k != base_entry.original_path@ {
                    assert(self.entries()[k].id@ != self.entries()[base_entry.original_path@].id@);
                }
            }
            assert forall|c: Seq<u8>| #[trigger] delta_restores(*self, *entry, c) implies (r is Ok && r->Ok_0@ == c) by {
                let (k, bp, blob) = choose|k: Seq<char>, bp: Seq<u8>, blob: Seq<u8>|
                    #![trigger self.entries()[k], decoded_blob(bp, blob)]
                    self.entries().contains_key(k) && self.entries()[k].id@ == entry.base_storage_id->Some_0@
                        && holds(self.arena(), self.entries()[k].stored_path@, self.entries()[k].compression_algorithm, bp)
                        && holds(self.arena(), entry.stored_path@, entry.compression_algorithm, blob)
                        && decoded_blob(bp, blob) == Some(c);
                assert(self.entries()[base_entry.original_path@].id@ == base_id@);
                if k != base_entry.original_path@ {
                    assert(self.entries()[k].id@ != self.entries()[base_entry.original_path@].id@);
                }
            }
        }
        r
    }
}

/// Whether `a` and `b` hold the same bytes.
fn same_bytes(a: &[u8], b: &[u8]) -> (r: bool)
    ensures
        r == (a@ == b@),
{
    if a.len() != b.len() {
        return false;
    }
    let mut i: usize = 0;
    while i < a.len()
        invariant
            a@.len() == b@.len(),
            i <= a@.len(),
            forall|j: int| 0 <= j < i ==> a@[j] == b@[j],
        decreases a@.len() - i,
    {
        if a[i] != b[i] {
            return false;
        }
        i = i + 1;
    }
    proof {
        assert(a@ =~= b@);
    }
    true
}

/// What `glob::Pattern::new` decides: whether `pattern` is a well-formed glob.
pub uninterp spec fn glob_valid(pattern: Seq<char>) -> bool;

/// What `glob::Pattern::matches` decides for a well-formed `pattern` and a text.
pub uninterp spec fn glob_matches(pattern: Seq<char>, text: Seq<char>) -> bool;

/// Relies on `glob::Pattern::new` (is the pattern well-formed) and `Pattern::matches`
/// (does the text match it).
#[verifier::external_body]
fn glob_match(pattern: &str, text: &str) -> (r: Option<bool>)
    ensures
        r is Some == glob_valid(pattern@),
        r matches Some(b) ==> b == glob_matches(pattern@, text@),
{
    match glob::Pattern::new(pattern) {
        Ok(p) => Some(p.matches(text)),
        Err(_) => None,
    }
}

/// What `regex::Regex::new` decides: whether `re` is a well-formed regular expression.
pub uninterp spec fn regex_valid(re: Seq<char>) -> bool;

/// What `Regex::is_match` decides for a well-formed `re` and a text.
pub uninterp spec fn regex_matches(re: Seq<char>, text: Seq<char>) -> bool;

/// Relies on `regex::Regex::new` (is the expression well-formed) and `Regex::is_match`
/// (does it match somewhere in the text).
#[verifier::external_body]
fn regex_match(re: &str, text: &str) -> (r: Option<bool>)
    ensures
        r is Some == regex_valid(re@),
        r matches Some(b) ==> b == regex_matches(re@, text@),
{
    match regex::Regex::new(re) {
        Ok(x) => Some(x.is_match(text)),
        Err(_) => None,
    }
}

/// The line that ends at a `\n`: without a `\r` just before it.
pub open spec fn without_cr(l: Seq<char>) -> Seq<char> {
    if l.len() > 0 && l.last() == '\r' {
        l.drop_last()
    } else {
        l
    }
}

/// Index of the first `\n` in `cs` at or after `k`, or `cs.len()` when there is none.
pub open spec fn first_newline(cs: Seq<char>, k: int) -> int
    decreases cs.len() - k,
{
    if k < 0 || k >= cs.len() {
        cs.len() as int
    } else if cs[k] == '\n' {
        k
    } else {
        first_newline(cs, k + 1)
    }
}

/// The lines of a text: split at each `\n`, a `\r` before the `\n` dropped, and no
/// empty line after a final `\n`.
pub open spec fn lines_of(cs: Seq<char>) -> Seq<Seq<char>>
    decreases cs.len(),
{
    if cs.len() == 0 {
        Seq::empty()
    } else {
        let p = first_newline(cs, 0);
        if p >= cs.len() {
            seq![cs]
        } else {
            proof {
                lemma_first_newline_bounds(cs, 0);
            }
            seq![without_cr(cs.subrange(0, p))] + lines_of(cs.subrange(p + 1, cs.len() as int))
        }
    }
}

/// Where the next newline search lands, and that nothing before it is a newline.
pub proof fn lemma_first_newline_bounds(cs: Seq<char>, k: int)
    requires
        0 <= k,
    ensures
        k <= first_newline(cs, k) <= cs.len() || (k > cs.len() && first_newline(cs, k) == cs.len()),
        first_newline(cs, k) < cs.len() ==> cs[first_newline(cs, k)] == '\n',
        forall|j: int| k <= j < first_newline(cs, k) ==> cs[j] != '\n',
    decreases cs.len() - k,
{
    if k < cs.len() && cs[k] != '\n' {
        lemma_first_newline_bounds(cs, k + 1);
    }
}

proof fn lemma_first_newline_scan(cs: Seq<char>, from: int, k: int)
    requires
        0 <= from <= k <= cs.len(),
        forall|j: int| from <= j < k ==> cs[j] != '\n',
    ensures
        first_newline(cs, from) == first_newline(cs, k),
    decreases k - from,
{
    if from < k {
        lemma_first_newline_scan(cs, from + 1, k);
    }
}

proof fn lemma_first_newline_shift(cs: Seq<char>, start: int, k: int)
    requires
        0 <= start <= k <= cs.len(),
    ensures
        first_newline(cs.subrange(start, cs.len() as int), k - start) == first_newline(cs, k) - start,
    decreases cs.len() - k,
{
    if k < cs.len() && cs[k] != '\n' {
        lemma_first_newline_shift(cs, start, k + 1);
    }
}

/// Splits `text` into lines as `lines_of` describes.
pub fn split_lines(text: &str) -> (r: Vec<String>)
    ensures
        r@.len() == lines_of(text@).len(),
        forall|i: int| 0 <= i < r@.len() ==> #[trigger] r@[i]@ == lines_of(text@)[i],
{
    let cs = chars_of(text);
    let mut out: Vec<String> = Vec::new();
    let mut start: usize = 0;
    let ghost acc: Seq<Seq<char>> = Seq::empty();
    proof {
        assert(cs@.subrange(0, cs@.len() as int) == cs@);
        assert(acc + lines_of(cs@) =~= lines_of(cs@));
    }
    while start < cs.len()
        invariant
            cs@ == text@,
            start <= cs@.len(),
            out@.len() == acc.len(),
            forall|i: int| 0 <= i < out@.len() ==> #[trigger] out@[i]@ == acc[i],
            acc + lines_of(cs@.subrange(start as int, cs@.len() as int)) == lines_of(text@),
        decreases cs@.len() - start,
    {
        let ghost rest = cs@.subrange(start as int, cs@.len() as int);
        let mut k = start;
        while k < cs.len() && cs[k] != '\n'
            invariant
                start <= k <= cs@.len(),
                forall|j: int| start <= j < k ==> cs@[j] != '\n',
            decreases cs@.len() - k,
        {
            k = k + 1;
        }
        proof {
            lemma_first_newline_scan(cs@, start as int, k as int);
            lemma_first_newline_shift(cs@, start as int, start as int);
            lemma_first_newline_shift(cs@, start as int, k as int);
            if k < cs@.len() {
                assert(first_newline(cs@, k as int) == k);
            } else {
                assert(first_newline(cs@, k as int) == cs@.len());
            }
            assert(first_newline(rest, 0) == k - start);
        }
        let ghost old_out = out@;
        if k < cs.len() {
            let end = if k > start && cs[k - 1] == '\r' { k - 1 } else { k };
            let line = crate::text::string_from_chars(cs.as_slice(), start, end);
            out.push(line);
            proof {
                assert(rest.subrange(0, k - start) =~= cs@.subrange(start as int, k as int));
                assert(line@ == without_cr(rest.subrange(0, k - start))) by {
                    if k > start && cs@[k - 1] == '\r' {
                        assert(cs@.subrange(start as int, k as int).drop_last() =~= cs@.subrange(start as int, k - 1));
                    }
                }
                assert(rest.subrange(k - start + 1, rest.len() as int) =~= cs@.subrange(k + 1, cs@.len() as int));
                assert(lines_of(rest) == seq![line@] + lines_of(cs@.subrange(k + 1, cs@.len() as int)));
                let acc0 = acc;
                acc = acc.push(line@);
                assert(acc + lines_of(cs@.subrange(k + 1, cs@.len() as int)) =~= acc0 + lines_of(rest));
            }
            start = k + 1;
        } else {
            let line = crate::text::string_from_chars(cs.as_slice(), start, k);
            out.push(line);
            proof {
                assert(rest =~= cs@.subrange(start as int, k as int));
                assert(lines_of(rest) == seq![line@]);
                let acc0 = acc;
                acc = acc.push(line@);
                assert(acc + lines_of(cs@.subrange(k as int, cs@.len() as int)) =~= acc0 + lines_of(rest));
            }
            start = k;
        }
    }
    proof {
        assert(cs@.subrange(start as int, cs@.len() as int).len() == 0);
        assert(acc + Seq::<Seq<char>>::empty() == acc);
    }
    out
}

/// What `str::trim` gives: the text without leading and trailing white space.
pub uninterp spec fn trimmed(text: Seq<char>) -> Seq<char>;

/// Relies on `str::trim`: `text` without leading and trailing white space.
#[verifier::external_body]
fn trim_text(text: &str) -> (r: String)
    ensures
        r@ == trimmed(text@),
{
    text.trim().to_string()
}

/// Whether a search pattern selects `path`: by glob when the pattern is a well-formed
/// glob, else by substring.
pub open spec fn search_hit(pattern: Seq<char>, path: Seq<char>) -> bool {
    if glob_valid(pattern) {
        glob_matches(pattern, path)
    } else {
        contains_seq(path, pattern)
    }
}

/// The regular-expression text for one glob character at `i`, and how many pattern
/// characters it consumes.
pub open spec fn glob_piece(cs: Seq<char>, i: int) -> (Seq<char>, int) {
    let c = cs[i];
    if c == '*' {
        if i + 1 < cs.len() && cs[i + 1] == '*' {
            (".*"@, 2)
        } else {
            ("[^/\\\\]*"@, 1)
        }
    } else if c == '?' {
        ("[^/\\\\]"@, 1)
    } else if c == '[' {
        ("["@, 1)
    } else if c == ']' {
        ("]"@, 1)
    } else if c == '\\' || c == '/' {
        ("[/\\\\]"@, 1)
    } else if "^$(){}|+."@.contains(c) {
        (seq!['\\', c], 1)
    } else {
        (seq![c], 1)
    }
}

/// The regular-expression text for the glob characters from `i` on.
pub open spec fn glob_body(cs: Seq<char>, i: int) -> Seq<char>
    decreases cs.len() - i,
{
    if i < 0 || i >= cs.len() {
        Seq::empty()
    } else {
        let (piece, used) = glob_piece(cs, i);
        piece + glob_body(cs, i + used)
    }
}

/// The anchored regular expression for a glob: `**` spans directories, `*` and `?` stay
/// within one, both separators match either, brackets pass through, and the other
/// regular-expression metacharacters are escaped.
pub open spec fn glob_regex(pattern: Seq<char>) -> Seq<char> {
    seq!['^'] + glob_body(pattern, 0) + seq!['$']
}

/// Whether a pattern holds a glob wildcard: `*`, `?` or `[`.
pub open spec fn is_wildcard(pattern: Seq<char>) -> bool {
    pattern.contains('*') || pattern.contains('?') || pattern.contains('[')
}

/// The include and exclude patterns of a list file: each line trimmed; blank lines and
/// lines starting with `#` skipped; lines starting with `!` excluding what follows.
pub open spec fn pattern_lists(lines: Seq<Seq<char>>) -> (Seq<Seq<char>>, Seq<Seq<char>>)
    decreases lines.len(),
{
    if lines.len() == 0 {
        (Seq::empty(), Seq::empty())
    } else {
        let (inc, exc) = pattern_lists(lines.drop_last());
        let t = trimmed(lines.last());
        if t.len() == 0 || t[0] == '#' {
            (inc, exc)
        } else if t[0] == '!' {
            (inc, exc.push(t.drop_first()))
        } else {
            (inc.push(t), exc)
        }
    }
}

/// The delta entry `e` can be rebuilt as `c` from the arena of `m`.
pub open spec fn delta_restores(m: StorageManager, e: FileEntry, c: Seq<u8>) -> bool {
    &&& e.base_storage_id is Some
    &&& (e.delta_algorithm is None || e.delta_algorithm == Some(DeltaAlgorithm::Simple))
    &&& exists|k: Seq<char>, bp: Seq<u8>, blob: Seq<u8>|
        #![trigger m.entries()[k], decoded_blob(bp, blob)]
        m.entries().contains_key(k) && m.entries()[k].id@ == e.base_storage_id->Some_0@
            && holds(m.arena(), m.entries()[k].stored_path@, m.entries()[k].compression_algorithm, bp)
            && holds(m.arena(), e.stored_path@, e.compression_algorithm, blob)
            && decoded_blob(bp, blob) == Some(c)
}

/// The delta entry `e` has a base whose object decodes and a blob that decodes, but the
/// blob does not apply to the base.
pub open spec fn delta_broken(m: StorageManager, e: FileEntry) -> bool {
    &&& e.base_storage_id is Some
    &&& (e.delta_algorithm is None || e.delta_algorithm == Some(DeltaAlgorithm::Simple))
    &&& exists|k: Seq<char>, bp: Seq<u8>, blob: Seq<u8>|
        #![trigger m.entries()[k], decoded_blob(bp, blob)]
        m.entries().contains_key(k) && m.entries()[k].id@ == e.base_storage_id->Some_0@
            && holds(m.arena(), m.entries()[k].stored_path@, m.entries()[k].compression_algorithm, bp)
            && holds(m.arena(), e.stored_path@, e.compression_algorithm, blob)
            && decoded_blob(bp, blob) is None
}

/// The delta entry `e` names no base, or names an object id that no entry carries.
pub open spec fn delta_unresolved(m: StorageManager, e: FileEntry) -> bool {
    e.base_storage_id is None || (!delta_unimplemented(e) && !id_in_use(m.entries(), e.base_storage_id->Some_0@))
}

/// The delta entry `e` names a base and a delta algorithm that is not implemented.
pub open spec fn delta_unimplemented(e: FileEntry) -> bool {
    e.base_storage_id is Some && (e.delta_algorithm == Some(DeltaAlgorithm::XDelta) || e.delta_algorithm == Some(DeltaAlgorithm::BsDiff))
}

/// The arena without the objects named in `removed`.
pub open spec fn arena_without(arena: Map<Seq<char>, Vec<u8>>, removed: Seq<String>) -> Map<Seq<char>, Vec<u8>>
    decreases removed.len(),
{
    if removed.len() == 0 {
        arena
    } else {
        arena_without(arena, removed.drop_last()).remove(removed.last()@)
    }
}

/// Whether the deduplicator, releasing the content hash `hash`, gives up its object;
/// `unhashed` is the answer for an entry without a hash.
pub open spec fn dedup_frees(d: ContentDeduplicator, hash: Option<String>, unhashed: bool) -> bool {
    match hash {
        Some(h) => match d.hashes().get(h@) {
            Some(id) => d.release_frees(id@),
            None => true,
        },
        None => unhashed,
    }
}

/// Whether extracting the entry at `path` gives up its physical object: a delta's blob
/// always; a reference's shared object when the deduplicator frees it and no other
/// reference or delta names its base; a base's object when the deduplicator frees it
/// (or the base has no hash) and no reference or delta names it.
pub open spec fn frees_object(m: StorageManager, path: Seq<char>) -> bool {
    let e = m.entries()[path];
    if e.spec_is_reference() {
        &&& e.base_storage_id is Some
        &&& !has_dependant(m.entries(), e.base_storage_id->Some_0@, Some(path))
        &&& dedup_frees(m.deduplicator, e.hash, false)
    } else if e.spec_is_delta() {
        true
    } else {
        dedup_frees(m.deduplicator, e.hash, true) && !has_dependant(m.entries(), e.id@, None)
    }
}

/// The objects that extracting the entry at `path` unlinks: its own object when it is
/// given up and present, nothing otherwise.
pub open spec fn removal_rule(m: StorageManager, path: Seq<char>, removed: Seq<String>) -> bool {
    let e = m.entries()[path];
    if frees_object(m, path) && m.arena().contains_key(e.stored_path@) {
        removed.len() == 1 && removed[0]@ == e.stored_path@
    } else {
        removed.len() == 0
    }
}

/// The deduplicator after extracting the entry at `path`: a base, or a reference with a
/// base id, releases one reference to the object of its hash; anything else leaves it.
pub open spec fn dedup_after_extract(m: StorageManager, path: Seq<char>, after: ContentDeduplicator) -> bool {
    let e = m.entries()[path];
    let d = m.deduplicator;
    if (e.spec_is_reference() && e.base_storage_id is Some) || (!e.spec_is_reference() && !e.spec_is_delta()) {
        match e.hash {
            Some(h) => match d.hashes().get(h@) {
                Some(id) => d.released(id@, after),
                None => after == d,
            },
            None => after == d,
        }
    } else {
        after == d
    }
}

proof fn lemma_remove_keeps_ids_unique(index: Map<Seq<char>, FileEntry>, path: Seq<char>)
    requires
        ids_unique(index),
    ensures
        ids_unique(index.remove(path)),
{
    let m = index.remove(path);
    assert forall|a: Seq<char>, b: Seq<char>| m.contains_key(a) && m.contains_key(b) && a != b implies #[trigger] m[a].id@
        != #[trigger] m[b].id@ by {
        assert(index[a].id@ != index[b].id@);
    }
}

impl StorageManager {
    /// A manager over `config` and `index`, with an empty arena and the deduplicator
    /// rebuilt from the index.
    pub fn new(config: Config, index: MemoryIndex) -> (r: StorageManager)
        requires
            config.wf(),
            index.wf(),
            ids_unique(index@),
        ensures
            r.wf(),
            r.config@ == config@,
            r.entries() == index@,
            r.arena() == Map::<Seq<char>, Vec<u8>>::empty(),
            counts_match_index(r.deduplicator, r.entries()),
            base_hashes_registered(r.deduplicator, r.entries()),
            hashes_name_bases(r.deduplicator, r.entries()),
    {
        let delta_storage = DeltaStorage::new(config.similarity_threshold, config.delta_algorithm);
        let mut manager = StorageManager {
            config,
            index,
            deduplicator: ContentDeduplicator::new(),
            delta_storage,
            objects: StrTable::new(),
        };
        manager.rebuild_dedup_state();
        manager
    }

    /// Places a physical object in the arena (as loaded from the storage directory).
    pub fn insert_object(&mut self, stored_path: String, bytes: Vec<u8>)
        requires
            old(self).wf(),
        ensures
            final(self).wf(),
            final(self).entries() == old(self).entries(),
            final(self).arena() == old(self).arena().insert(stored_path@, bytes),
    {
        self.objects.insert(stored_path, bytes);
    }

    /// The bytes of the physical object at `stored_path`.
    pub fn object(&self, stored_path: &str) -> (r: Option<&Vec<u8>>)
        requires
            self.wf(),
        ensures
            match self.arena().get(stored_path@) {
                Some(v) => r == Some(&v),
                None => r is None,
            },
    {
        self.objects.get(stored_path)
    }

    /// Number of physical objects in the arena.
    pub fn object_count(&self) -> (r: usize)
        requires
            self.wf(),
        ensures
            r == self.arena().len(),
    {
        self.objects.len()
    }

    /// Number of entries with content hash `hash` (at most `u32::MAX`).
    fn count_references_for_hash(&self, hash: &String) -> (r: u32)
        requires
            self.wf(),
        ensures
            r == capped(hash_count(self.entries(), hash@)),
    {
        let all = self.index.list_files();
        let mut count: u32 = 0;
        let mut i: usize = 0;
        let ghost mut seen: Set<Seq<char>> = Set::empty();
        while i < all.len()
            invariant
                self.wf(),
                i <= all@.len(),
                forall|j: int| 0 <= j < all@.len() ==> self.entries().contains_key(#[trigger] all@[j].original_path@)
                    && self.entries()[all@[j].original_path@] == all@[j],
                forall|k: Seq<char>| #[trigger] self.entries().contains_key(k) ==> exists|j: int| 0 <= j < all@.len() && all@[j] == self.entries()[k],
                forall|a: int, b: int| 0 <= a < b < all@.len() ==> #[trigger] all@[a].original_path@ != #[trigger] all@[b].original_path@,
                seen.finite(),
                count == capped(seen.len()),
                forall|x: Seq<char>| seen.contains(x) <==> exists|j: int| 0 <= j < i && (#[trigger] all@[j]).original_path@ == x
                    && hash_is(all@[j], hash@),
            decreases all@.len() - i,
        {
            let hit = match &all[i].hash {
                Some(h) => *h == *hash,
                None => false,
            };
            let ghost x = all@[i as int].original_path@;
            proof {
                assert(hit == hash_is(all@[i as int], hash@));
                if hit {
                    assert(!seen.contains(x)) by {
                        if seen.contains(x) {
                            let j = choose|j: int| 0 <= j < i && (#[trigger] all@[j]).original_path@ == x && hash_is(all@[j], hash@);
                            assert(all@[j].original_path@ != all@[i as int].original_path@);
                        }
                    }
                    seen = seen.insert(x);
                }
                assert forall|y: Seq<char>| seen.contains(y) <==> exists|j: int| 0 <= j < i + 1 && (#[trigger] all@[j]).original_path@ == y
                    && hash_is(all@[j], hash@) by {
                    if y == x && hit {
                        assert(all@[i as int].original_path@ == y);
                    }
                }
            }
            if hit && count < u32::MAX {
                count = count + 1;
            }
            i = i + 1;
        }
        proof {
            let idx = self.entries();
            let f = idx.dom().filter(|k: Seq<char>| hash_is(idx[k], hash@));
            assert forall|y: Seq<char>| seen.contains(y) <==> f.contains(y) by {
                if f.contains(y) {
                    let j = choose|j: int| 0 <= j < all@.len() && all@[j] == idx[y];
                    assert(all@[j].original_path@ == y);
                }
            }
            assert(seen =~= f);
        }
        count
    }

    /// Rebuilds the deduplicator from the index: each base entry with a hash registers its
    /// id with the number of entries that share the hash.
    fn rebuild_dedup_state(&mut self)
        requires
            old(self).wf(),
        ensures
            final(self).wf(),
            final(self).config == old(self).config,
            final(self).index == old(self).index,
            final(self).objects == old(self).objects,
            counts_match_index(final(self).deduplicator, final(self).entries()),
            base_hashes_registered(final(self).deduplicator, final(self).entries()),
            hashes_name_bases(final(self).deduplicator, final(self).entries()),
    {
        let all = self.index.list_files();
        let ghost idx = self.entries();
        let mut entries: Vec<(String, String, u32)> = Vec::new();
        let mut i: usize = 0;
        while i < all.len()
            invariant
                self.wf(),
                idx == self.entries(),
                i <= all@.len(),
                forall|j: int| 0 <= j < all@.len() ==> idx.contains_key(#[trigger] all@[j].original_path@)
                    && idx[all@[j].original_path@] == all@[j],
                forall|k: Seq<char>| #[trigger] idx.contains_key(k) ==> exists|j: int| 0 <= j < all@.len() && all@[j] == idx[k],
                forall|a: int, b: int| 0 <= a < b < all@.len() ==> #[trigger] all@[a].original_path@ != #[trigger] all@[b].original_path@,
                forall|q: int| 0 <= q < entries@.len() ==> (#[trigger] entries@[q]).2 == capped(hash_count(idx, entries@[q].1@)),
                forall|q: int| 0 <= q < entries@.len() ==> exists|j: int| 0 <= j < i && (#[trigger] entries@[q]).0@ == all@[j].id@,
                forall|q: int| 0 <= q < entries@.len() ==> exists|j: int| 0 <= j < i && (#[trigger] entries@[q]).0 == all@[j].id
                    && is_base(all@[j]) && hash_is(all@[j], entries@[q].1@),
                forall|a: int, b: int| 0 <= a < b < entries@.len() ==> #[trigger] entries@[a].0@ != #[trigger] entries@[b].0@,
                forall|j: int| 0 <= j < i && is_base(#[trigger] all@[j]) && all@[j].hash is Some
                    ==> exists|q: int| 0 <= q < entries@.len() && (#[trigger] entries@[q]).1@ == all@[j].hash->Some_0@,
            decreases all@.len() - i,
        {
            let f = &all[i];
            let ghost e0 = entries@;
            match &f.hash {
                Some(h) => {
                    if !f.is_reference_file() && !f.is_delta_file() {
                        let n = self.count_references_for_hash(h);
                        entries.push((f.id.clone(), h.clone(), n));
                        proof {
                            assert(entries@[entries@.len() - 1].1@ == all@[i as int].hash->Some_0@);
                            assert forall|j: int| 0 <= j < i && is_base(#[trigger] all@[j]) && all@[j].hash is Some
                                implies exists|q: int| 0 <= q < entries@.len() && (#[trigger] entries@[q]).1@ == all@[j].hash->Some_0@ by {
                                let q = choose|q: int| 0 <= q < e0.len() && (#[trigger] e0[q]).1@ == all@[j].hash->Some_0@;
                                assert(entries@[q] == e0[q]);
                            }
                            assert forall|q: int| 0 <= q < e0.len() implies e0[q].0@ != all@[i as int].id@ by {
                                let j = choose|j: int| 0 <= j < i && (#[trigger] e0[q]).0@ == all@[j].id@;
                                assert(all@[j].original_path@ != all@[i as int].original_path@);
                                assert(idx[all@[j].original_path@].id@ != idx[all@[i as int].original_path@].id@);
                            }
                            assert forall|q: int| 0 <= q < entries@.len() implies exists|j: int| 0 <= j < i + 1 && (#[trigger] entries@[q]).0@ == all@[j].id@ by {
                                if q < e0.len() {
                                    assert(entries@[q] == e0[q]);
                                } else {
                                    assert(entries@[q].0@ == all@[i as int].id@);
                                }
                            }
                            assert forall|q: int| 0 <= q < entries@.len() implies exists|j: int| 0 <= j < i + 1 && (#[trigger] entries@[q]).0 == all@[j].id
                                && is_base(all@[j]) && hash_is(all@[j], entries@[q].1@) by {
                                if q < e0.len() {
                                    assert(entries@[q] == e0[q]);
                                    let j = choose|j: int| 0 <= j < i && (#[trigger] e0[q]).0 == all@[j].id
                                        && is_base(all@[j]) && hash_is(all@[j], e0[q].1@);
                                    assert(entries@[q].0 == all@[j].id && is_base(all@[j]) && hash_is(all@[j], entries@[q].1@));
                                } else {
                                    assert(entries@[q].0 == all@[i as int].id);
                                    assert(hash_is(all@[i as int], entries@[q].1@));
                                    assert(entries@[q].0 == all@[i as int].id && is_base(all@[i as int]) && hash_is(all@[i as int], entries@[q].1@));
                                }
                            }
                        }
                    }
                },
                None => {},
            }
            i = i + 1;
        }
        let ghost es = entries@;
        proof {
            assert forall|q: int| 0 <= q < es.len() implies exists|j: int| 0 <= j < all@.len() && #[trigger] es[q].0 == all@[j].id
                && is_base(all@[j]) && hash_is(all@[j], es[q].1@) by {
                assert(es[q] == entries@[q]);
                let j = choose|j: int| 0 <= j < i && (#[trigger] entries@[q]).0 == all@[j].id
                    && is_base(all@[j]) && hash_is(all@[j], entries@[q].1@);
            }
        }
        let _ = self.deduplicator.rebuild_from_index(entries);
        proof {
            assert forall|h: Seq<char>| #[trigger] self.deduplicator.hashes().contains_key(h) implies
                self.deduplicator.counts().contains_key(self.deduplicator.hashes()[h]@)
                && self.deduplicator.counts()[self.deduplicator.hashes()[h]@] == capped(hash_count(idx, h)) by {
                lemma_rebuilt_hash_source(es, h);
                let q = choose|q: int| 0 <= q < es.len() && (#[trigger] es[q]).1@ == h && rebuilt_hash_map(es)[h] == es[q].0;
                lemma_rebuilt_count_at(es, q);
            }
            assert forall|h: Seq<char>| #[trigger] self.deduplicator.hashes().contains_key(h) implies exists|k: Seq<char>|
                idx.contains_key(k) && is_base(idx[k]) && hash_is(idx[k], h) && self.deduplicator.hashes()[h] == #[trigger] idx[k].id by {
                lemma_rebuilt_hash_source(es, h);
                let q = choose|q: int| 0 <= q < es.len() && (#[trigger] es[q]).1@ == h && rebuilt_hash_map(es)[h] == es[q].0;
                let j = choose|j: int| 0 <= j < all@.len() && #[trigger] es[q].0 == all@[j].id && is_base(all@[j]) && hash_is(all@[j], es[q].1@);
                let k = all@[j].original_path@;
                assert(idx.contains_key(k) && idx[k] == all@[j]);
            }
            assert forall|k: Seq<char>| #[trigger] idx.contains_key(k) && is_base(idx[k]) && idx[k].hash is Some
                implies self.deduplicator.hashes().contains_key(idx[k].hash->Some_0@) by {
                let j = choose|j: int| 0 <= j < all@.len() && all@[j] == idx[k];
                let q = choose|q: int| 0 <= q < es.len() && (#[trigger] es[q]).1@ == all@[j].hash->Some_0@;
                lemma_rebuilt_hash_covers(es, q);
            }
        }
    }

    /// Every entry, each once.
    pub fn list_files(&self) -> (r: Vec<FileEntry>)
        requires
            self.wf(),
        ensures
            r@.len() == self.entries().len(),
            forall|i: int| 0 <= i < r@.len() ==> self.entries().contains_key(#[trigger] r@[i].original_path@)
                && self.entries()[r@[i].original_path@] == r@[i],
            forall|k: Seq<char>| #[trigger] self.entries().contains_key(k) ==> exists|i: int| 0 <= i < r@.len() && r@[i] == self.entries()[k],
    {
        self.index.list_files()
    }

    /// The entries whose original path the pattern selects (see `search_hit`).
    pub fn search_files(&self, pattern: &str) -> (r: Vec<FileEntry>)
        requires
            self.wf(),
        ensures
            forall|i: int| 0 <= i < r@.len() ==> self.entries().contains_key(#[trigger] r@[i].original_path@)
                && self.entries()[r@[i].original_path@] == r@[i] && search_hit(pattern@, r@[i].original_path@),
            forall|k: Seq<char>| #[trigger] self.entries().contains_key(k) && search_hit(pattern@, k)
                ==> exists|i: int| 0 <= i < r@.len() && r@[i] == self.entries()[k],
    {
        let all = self.index.list_files();
        let mut found: Vec<FileEntry> = Vec::new();
        let mut i: usize = 0;
        while i < all.len()
            invariant
                self.wf(),
                i <= all@.len(),
                forall|j: int| 0 <= j < all@.len() ==> self.entries().contains_key(#[trigger] all@[j].original_path@)
                    && self.entries()[all@[j].original_path@] == all@[j],
                forall|k: Seq<char>| #[trigger] self.entries().contains_key(k) ==> exists|j: int| 0 <= j < all@.len() && all@[j] == self.entries()[k],
                forall|j: int| 0 <= j < found@.len() ==> self.entries().contains_key(#[trigger] found@[j].original_path@)
                    && self.entries()[found@[j].original_path@] == found@[j] && search_hit(pattern@, found@[j].original_path@),
                forall|j: int| 0 <= j < i && search_hit(pattern@, (#[trigger] all@[j]).original_path@)
                    ==> exists|q: int| 0 <= q < found@.len() && found@[q] == all@[j],
            decreases all@.len() - i,
        {
            let f = &all[i];
            let hit = match glob_match(pattern, f.original_path.as_str()) {
                Some(b) => b,
                None => contains_text(f.original_path.as_str(), pattern),
            };
            let ghost found0 = found@;
            if hit {
                found.push(f.copy());
            }
            proof {
                assert(hit == search_hit(pattern@, all@[i as int].original_path@));
                assert forall|j: int| 0 <= j < i + 1 && search_hit(pattern@, (#[trigger] all@[j]).original_path@)
                    implies exists|q: int| 0 <= q < found@.len() && found@[q] == all@[j] by {
                    if j == i {
                        assert(found@[found@.len() - 1] == all@[j]);
                    } else {
                        let q = choose|q: int| 0 <= q < found0.len() && found0[q] == all@[j];
                        assert(found@[q] == found0[q]);
                    }
                }
            }
            i = i + 1;
        }
        proof {
            assert forall|k: Seq<char>| #[trigger] self.entries().contains_key(k) && search_hit(pattern@, k)
                implies exists|q: int| 0 <= q < found@.len() && found@[q] == self.entries()[k] by {
                let j = choose|j: int| 0 <= j < all@.len() && all@[j] == self.entries()[k];
                assert(all@[j].original_path@ == k);
            }
        }
        found
    }

    /// Changes the path of the entry at `old_path` to `new_path`; nothing else changes.
    pub fn rename_file(&mut self, old_path: &str, new_path: &str) -> (r: Result<(), StowrError>)
        requires
            old(self).wf(),
        ensures
            final(self).wf(),
            final(self).arena() == old(self).arena(),
            !old(self).entries().contains_key(old_path@) ==> r == Err::<(), StowrError>(StowrError::NotFound),
            old(self).entries().contains_key(old_path@) && old(self).entries().contains_key(new_path@)
                ==> r == Err::<(), StowrError>(StowrError::AlreadyExists),
            r is Err ==> final(self).entries() == old(self).entries(),
            old(self).entries().contains_key(old_path@) && !old(self).entries().contains_key(new_path@) ==> r is Ok
                && renamed(old(self).entries(), final(self).entries(), old_path@, new_path@, old(self).entries()[old_path@]),
    {
        if !self.index.contains(old_path) {
            return Err(StowrError::NotFound);
        }
        if self.index.contains(new_path) {
            return Err(StowrError::AlreadyExists);
        }
        self.index.rename_file(old_path, new_path);
        proof {
            lemma_rename_keeps_ids_unique(old(self).entries(), self.entries(), old_path@, new_path@, old(self).entries()[old_path@]);
        }
        Ok(())
    }

    /// Moves the entry at `path` into the directory `new_location`, keeping its file name.
    pub fn move_file(&mut self, path: &str, new_location: &str) -> (r: Result<(), StowrError>)
        requires
            old(self).wf(),
        ensures
            final(self).wf(),
            final(self).arena() == old(self).arena(),
            !old(self).entries().contains_key(path@) ==> r == Err::<(), StowrError>(StowrError::NotFound),
            old(self).entries().contains_key(path@) && file_name_of(path@) is None
                ==> r == Err::<(), StowrError>(StowrError::InvalidInput),
            r is Err ==> final(self).entries() == old(self).entries(),
            old(self).entries().contains_key(path@) && file_name_of(path@) is Some ==> {
                let target = joined(new_location@, file_name_of(path@)->Some_0);
                if old(self).entries().contains_key(target) {
                    r == Err::<(), StowrError>(StowrError::AlreadyExists)
                } else {
                    r is Ok && renamed(old(self).entries(), final(self).entries(), path@, target, old(self).entries()[path@])
                }
            },
    {
        if !self.index.contains(path) {
            return Err(StowrError::NotFound);
        }
        let name = match path_file_name(path) {
            Some(n) => n,
            None => return Err(StowrError::InvalidInput),
        };
        let target = join_path(new_location, name.as_str());
        if self.index.contains(target.as_str()) {
            return Err(StowrError::AlreadyExists);
        }
        self.index.move_file(path, target.as_str());
        proof {
            lemma_rename_keeps_ids_unique(old(self).entries(), self.entries(), path@, target@, old(self).entries()[path@]);
        }
        Ok(())
    }

    /// Removes the entry at `path` and its object, without consulting reference counts;
    /// returns the objects removed (for the caller to unlink).
    pub fn delete_file(&mut self, path: &str) -> (r: Result<Vec<String>, StowrError>)
        requires
            old(self).wf(),
        ensures
            final(self).wf(),
            !old(self).entries().contains_key(path@) ==> r == Err::<Vec<String>, StowrError>(StowrError::NotFound)
                && final(self).entries() == old(self).entries() && final(self).arena() == old(self).arena(),
            old(self).entries().contains_key(path@) ==> r is Ok
                && final(self).entries() == old(self).entries().remove(path@)
                && final(self).arena() == old(self).arena().remove(old(self).entries()[path@].stored_path@)
                && (old(self).arena().contains_key(old(self).entries()[path@].stored_path@) ==> r->Ok_0@.len() == 1
                    && r->Ok_0@[0]@ == old(self).entries()[path@].stored_path@)
                && (!old(self).arena().contains_key(old(self).entries()[path@].stored_path@) ==> r->Ok_0@.len() == 0),
    {
        let entry = match self.index.remove_file(path) {
            Some(e) => e,
            None => return Err(StowrError::NotFound),
        };
        proof {
            lemma_remove_keeps_ids_unique(old(self).entries(), path@);
        }
        let mut removed: Vec<String> = Vec::new();
        self.release_object(&entry.stored_path, &mut removed);
        Ok(removed)
    }

    /// The anchored regular expression for a glob pattern (see `glob_regex`).
    pub fn glob_to_regex(&self, pattern: &str) -> (r: Result<String, StowrError>)
        ensures
            r matches Ok(s) && s@ == glob_regex(pattern@),
    {
        Ok(glob_to_regex_text(pattern))
    }

    /// The original paths of the entries that the glob `pattern` matches; `InvalidInput`
    /// when its regular expression does not compile.
    pub fn find_stored_files_by_pattern(&self, pattern: &str) -> (r: Result<Vec<String>, StowrError>)
        requires
            self.wf(),
        ensures
            !regex_valid(glob_regex(pattern@)) ==> r == Err::<Vec<String>, StowrError>(StowrError::InvalidInput),
            regex_valid(glob_regex(pattern@)) ==> r is Ok,
            r matches Ok(v) ==> forall|i: int| 0 <= i < v@.len() ==> self.entries().contains_key(#[trigger] v@[i]@)
                && regex_matches(glob_regex(pattern@), v@[i]@),
            r matches Ok(v) ==> forall|k: Seq<char>| #[trigger] self.entries().contains_key(k) && regex_matches(glob_regex(pattern@), k)
                ==> path_listed(v@, k),
    {
        let re = glob_to_regex_text(pattern);
        let all = self.index.list_files();
        if regex_match(re.as_str(), "").is_none() {
            return Err(StowrError::InvalidInput);
        }
        let mut found: Vec<String> = Vec::new();
        let mut i: usize = 0;
        while i < all.len()
            invariant
                self.wf(),
                re@ == glob_regex(pattern@),
                regex_valid(re@),
                i <= all@.len(),
                forall|j: int| 0 <= j < all@.len() ==> self.entries().contains_key(#[trigger] all@[j].original_path@)
                    && self.entries()[all@[j].original_path@] == all@[j],
                forall|k: Seq<char>| #[trigger] self.entries().contains_key(k) ==> exists|j: int| 0 <= j < all@.len() && all@[j] == self.entries()[k],
                forall|j: int| 0 <= j < found@.len() ==> self.entries().contains_key(#[trigger] found@[j]@)
                    && regex_matches(re@, found@[j]@),
                forall|j: int| 0 <= j < i && regex_matches(re@, (#[trigger] all@[j]).original_path@)
                    ==> exists|q: int| 0 <= q < found@.len() && found@[q]@ == all@[j].original_path@,
            decreases all@.len() - i,
        {
            let f = &all[i];
            let ghost found0 = found@;
            let m = regex_match(re.as_str(), f.original_path.as_str());
            match m {
                Some(true) => {
                    found.push(f.original_path.clone());
                },
                _ => {},
            }
            proof {
                assert forall|j: int| 0 <= j < i + 1 && regex_matches(re@, (#[trigger] all@[j]).original_path@)
                    implies exists|q: int| 0 <= q < found@.len() && found@[q]@ == all@[j].original_path@ by {
                    if j == i {
                        assert(found@[found@.len() - 1]@ == all@[j].original_path@);
                    } else {
                        let q = choose|q: int| 0 <= q < found0.len() && found0[q]@ == all@[j].original_path@;
                        assert(found@[q] == found0[q]);
                    }
                }
            }
            i = i + 1;
        }
        proof {
            assert forall|k: Seq<char>| #[trigger] self.entries().contains_key(k) && regex_matches(re@, k)
                implies exists|q: int| 0 <= q < found@.len() && found@[q]@ == k by {
                let j = choose|j: int| 0 <= j < all@.len() && all@[j] == self.entries()[k];
                assert(all@[j].original_path@ == k);
                assert(regex_matches(re@, all@[j].original_path@));
            }
            assert(re@ == glob_regex(pattern@));
            assert forall|k: Seq<char>| #[trigger] self.entries().contains_key(k) && regex_matches(glob_regex(pattern@), k)
                implies path_listed(found@, k) by {
                assert(regex_matches(re@, k));
            }
            assert forall|q: int| 0 <= q < found@.len() implies self.entries().contains_key(#[trigger] found@[q]@)
                && regex_matches(glob_regex(pattern@), found@[q]@) by {
            }
        }
        Ok(found)
    }

    /// The paths of `files` that no exclude pattern matches, in order; `InvalidInput` when
    /// an exclude pattern that gets tried does not compile.
    pub fn apply_exclude_patterns_to_stored(&self, files: Vec<String>, exclude_patterns: &Vec<String>) -> (r: Result<Vec<String>, StowrError>)
        ensures
            r matches Err(e) ==> e == StowrError::InvalidInput,
            (forall|j: int| 0 <= j < exclude_patterns@.len() ==> regex_valid(glob_regex(#[trigger] exclude_patterns@[j]@)))
                ==> r is Ok,
            r matches Ok(kept) ==> kept@.map_values(|s: String| s@) == files@.map_values(|s: String| s@).filter(
                |p: Seq<char>| !excluded(exclude_patterns@.map_values(|s: String| s@), p),
            ),
    {
        let ghost pats = exclude_patterns@.map_values(|s: String| s@);
        let ghost fs = files@.map_values(|s: String| s@);
        let mut kept: Vec<String> = Vec::new();
        let mut i: usize = 0;
        while i < files.len()
            invariant
                pats == exclude_patterns@.map_values(|s: String| s@),
                fs == files@.map_values(|s: String| s@),
                i <= files@.len(),
                kept@.map_values(|s: String| s@) == fs.subrange(0, i as int).filter(|p: Seq<char>| !excluded(pats, p)),
            decreases files@.len() - i,
        {
            let mut drop = false;
            let mut j: usize = 0;
            while j < exclude_patterns.len() && !drop
                invariant
                    pats == exclude_patterns@.map_values(|s: String| s@),
                    pats.len() == exclude_patterns@.len(),
                    i < files@.len(),
                    j <= exclude_patterns@.len(),
                    drop == exists|q: int| 0 <= q < j && #[trigger] regex_matches(glob_regex(pats[q]), files@[i as int]@),
                    forall|q: int| 0 <= q < j ==> regex_valid(glob_regex(#[trigger] pats[q])),
                decreases exclude_patterns@.len() - j,
            {
                let re = glob_to_regex_text(exclude_patterns[j].as_str());
                proof {
                    assert(pats[j as int] == exclude_patterns@[j as int]@);
                }
                match regex_match(re.as_str(), files[i].as_str()) {
                    Some(b) => {
                        if b {
                            drop = true;
                            proof {
                                assert(regex_matches(glob_regex(pats[j as int]), files@[i as int]@));
                            }
                        }
                    },
                    None => {
                        return Err(StowrError::InvalidInput);
                    },
                }
                j = j + 1;
            }
            proof {
                assert(fs[i as int] == files@[i as int]@);
                assert(fs.subrange(0, i + 1).drop_last() == fs.subrange(0, i as int));
                assert(fs.subrange(0, i + 1).last() == fs[i as int]);
                lemma_filter_push(fs.subrange(0, i + 1), |p: Seq<char>| !excluded(pats, p));
                if drop {
                    assert(excluded(pats, fs[i as int]));
                } else {
                    assert(!excluded(pats, fs[i as int]));
                }
            }
            if !drop {
                let ghost before = kept@;
                kept.push(files[i].clone());
                proof {
                    assert(kept@.map_values(|s: String| s@) =~= before.map_values(|s: String| s@).push(files@[i as int]@));
                }
            }
            i = i + 1;
        }
        proof {
            assert(fs.subrange(0, i as int) == fs);
        }
        Ok(kept)
    }

    /// The stored paths that a list file selects for extraction: includes with wildcards
    /// go through `find_stored_files_by_pattern` (a pattern that does not compile selects
    /// nothing), plain includes count when indexed, then the excludes apply.
    pub fn select_stored_from_list(&self, content: &str) -> (r: Result<Vec<String>, StowrError>)
        requires
            self.wf(),
        ensures
            r matches Ok(v) ==> forall|i: int| 0 <= i < v@.len() ==> self.entries().contains_key(#[trigger] v@[i]@)
                && !excluded(pattern_lists(lines_of(content@)).1, v@[i]@),
            r matches Ok(v) ==> forall|p: Seq<char>| #[trigger] pattern_lists(lines_of(content@)).0.contains(p)
                && !is_wildcard(p) && self.entries().contains_key(p) && !excluded(pattern_lists(lines_of(content@)).1, p)
                ==> path_listed(v@, p),
            r matches Ok(v) ==> forall|p: Seq<char>, k: Seq<char>|
                #![trigger pattern_lists(lines_of(content@)).0.contains(p), selected_by(self.entries(), p, k)]
                pattern_lists(lines_of(content@)).0.contains(p) && is_wildcard(p) && regex_valid(glob_regex(p))
                && selected_by(self.entries(), p, k) && !excluded(pattern_lists(lines_of(content@)).1, k)
                ==> path_listed(v@, k),
            (forall|j: int| 0 <= j < pattern_lists(lines_of(content@)).1.len()
                ==> regex_valid(glob_regex(#[trigger] pattern_lists(lines_of(content@)).1[j]))) ==> r is Ok,
            r matches Err(e) ==> e == StowrError::InvalidInput,
    {
        let (includes, excludes) = parse_pattern_list(content);
        let ghost incs = pattern_lists(lines_of(content@)).0;
        let mut all: Vec<String> = Vec::new();
        let mut i: usize = 0;
        while i < includes.len()
            invariant
                self.wf(),
                i <= includes@.len(),
                incs == includes@.map_values(|s: String| s@),
                forall|q: int| 0 <= q < all@.len() ==> self.entries().contains_key(#[trigger] all@[q]@),
                forall|q: int| 0 <= q < i && !is_wildcard(#[trigger] incs[q]) && self.entries().contains_key(incs[q])
                    ==> all@.map_values(|s: String| s@).contains(incs[q]),
                forall|q: int| 0 <= q < i && is_wildcard(#[trigger] incs[q]) && regex_valid(glob_regex(incs[q]))
                    ==> covers(all@, self.entries(), incs[q]),
            decreases includes@.len() - i,
        {
            let p = &includes[i];
            let ghost all0 = all@;
            proof {
                assert(incs[i as int] == p@);
            }
            if has_char(p.as_str(), '*') || has_char(p.as_str(), '?') || has_char(p.as_str(), '[') {
                match self.find_stored_files_by_pattern(p.as_str()) {
                    Ok(found) => {
                        let mut k: usize = 0;
                        while k < found.len()
                            invariant
                                k <= found@.len(),
                                forall|q: int| 0 <= q < found@.len() ==> self.entries().contains_key(#[trigger] found@[q]@),
                                forall|q: int| 0 <= q < all@.len() ==> self.entries().contains_key(#[trigger] all@[q]@),
                                all0.len() <= all@.len(),
                                forall|w: int| 0 <= w < all0.len() ==> #[trigger] all@[w] == all0[w],
                                forall|z: int| 0 <= z < k ==> path_listed(all@, (#[trigger] found@[z])@),
                            decreases found@.len() - k,
                        {
                            let ghost before = all@;
                            all.push(found[k].clone());
                            proof {
                                assert(all@[all@.len() - 1]@ == found@[k as int]@);
                                assert forall|z: int| 0 <= z < k + 1 implies path_listed(all@, (#[trigger] found@[z])@) by {
                                    if z < k {
                                        let w = choose|w: int| 0 <= w < before.len() && before[w]@ == found@[z]@;
                                        assert(all@[w] == before[w]);
                                    }
                                }
                            }
                            k = k + 1;
                        }
                        proof {
                            assert forall|x: Seq<char>| #[trigger] selected_by(self.entries(), p@, x) implies path_listed(all@, x) by {
                                assert(path_listed(found@, x));
                                let z = choose|z: int| 0 <= z < found@.len() && found@[z]@ == x;
                                assert(path_listed(all@, found@[z]@));
                            }
                        }
                    },
                    Err(_) => {},
                }
            } else if self.index.contains(p.as_str()) {
                all.push(p.clone());
                proof {
                    assert(all@.map_values(|s: String| s@)[all@.len() - 1] == p@);
                }
            }
            proof {
                assert forall|q: int| 0 <= q < i + 1 && !is_wildcard(#[trigger] incs[q]) && self.entries().contains_key(incs[q])
                    implies all@.map_values(|s: String| s@).contains(incs[q]) by {
                    if q < i {
                        let a0 = all0.map_values(|s: String| s@);
                        assert(a0.contains(incs[q]));
                        let w = choose|w: int| 0 <= w < a0.len() && #[trigger] a0[w] == incs[q];
                        assert(all@[w] == all0[w]);
                        assert(all@.map_values(|s: String| s@)[w] == incs[q]);
                    }
                }
                assert forall|q: int| 0 <= q < i + 1 && is_wildcard(#[trigger] incs[q]) && regex_valid(glob_regex(incs[q]))
                    implies covers(all@, self.entries(), incs[q]) by {
                    if q < i {
                        assert forall|x: Seq<char>| #[trigger] selected_by(self.entries(), incs[q], x) implies path_listed(all@, x) by {
                            assert(covers(all0, self.entries(), incs[q]));
                            assert(path_listed(all0, x));
                            let w = choose|w: int| 0 <= w < all0.len() && all0[w]@ == x;
                            assert(all@[w] == all0[w]);
                        }
                    }
                }
            }
            i = i + 1;
        }
        let r = self.apply_exclude_patterns_to_stored(all, &excludes);
        proof {
            let excl = pattern_lists(lines_of(content@)).1;
            if forall|j: int| 0 <= j < excl.len() ==> regex_valid(glob_regex(#[trigger] excl[j])) {
                assert forall|j: int| 0 <= j < excludes@.len() implies regex_valid(glob_regex(#[trigger] excludes@[j]@)) by {
                    assert(excl[j] == excludes@[j]@);
                }
            }
            if r is Ok {
                let v = r->Ok_0;
                let f = |p: Seq<char>| !excluded(excludes@.map_values(|s: String| s@), p);
                let src = all@.map_values(|s: String| s@);
                src.filter_lemma(f);
                assert forall|p: Seq<char>, k: Seq<char>|
                    #![trigger incs.contains(p), selected_by(self.entries(), p, k)]
                    incs.contains(p) && is_wildcard(p) && regex_valid(glob_regex(p))
                    && selected_by(self.entries(), p, k) && !excluded(excl, k) implies path_listed(v@, k) by {
                    let q = choose|q: int| 0 <= q < incs.len() && incs[q] == p;
                    assert(covers(all@, self.entries(), incs[q]));
                    assert(path_listed(all@, k));
                    let w = choose|w: int| 0 <= w < all@.len() && all@[w]@ == k;
                    assert(src[w] == k);
                    assert(f(src[w]));
                    assert(src.filter(f).contains(k));
                    let z = choose|z: int| 0 <= z < src.filter(f).len() && src.filter(f)[z] == k;
                    assert(v@.map_values(|s: String| s@)[z] == v@[z]@);
                }
                assert forall|p: Seq<char>| #[trigger] incs.contains(p) && !is_wildcard(p) && self.entries().contains_key(p)
                    && !excluded(pattern_lists(lines_of(content@)).1, p) implies path_listed(v@, p) by {
                    let q = choose|q: int| 0 <= q < incs.len() && incs[q] == p;
                    assert(src.contains(p));
                    let w = choose|w: int| 0 <= w < src.len() && src[w] == p;
                    assert(f(src[w]));
                    assert(src.filter(f).contains(p));
                    let z = choose|z: int| 0 <= z < src.filter(f).len() && src.filter(f)[z] == p;
                    assert(v@.map_values(|s: String| s@)[z] == v@[z]@);
                }
                assert forall|q: int| 0 <= q < v@.len() implies self.entries().contains_key(#[trigger] v@[q]@)
                    && !excluded(pattern_lists(lines_of(content@)).1, v@[q]@) by {
                    assert(v@.map_values(|s: String| s@)[q] == v@[q]@);
                    assert(f(src.filter(f)[q]));
                    assert(src.filter(f)[q] == v@[q]@);
                    assert(src.filter(f).contains(v@[q]@));
                    src.lemma_filter_contains_rev(f, v@[q]@);
                    let w = choose|w: int| 0 <= w < src.len() && src[w] == v@[q]@;
                    assert(src[w] == all@[w]@);
                }
            }
        }
        r
    }

    /// Whether dedup is on.
    pub fn is_dedup_enabled(&self) -> (r: bool)
        ensures
            r == self.config.enable_deduplication,
    {
        self.config.enable_deduplication
    }

    /// Whether delta storage is on.
    pub fn is_delta_enabled(&self) -> (r: bool)
        ensures
            r == self.config.enable_delta_compression,
    {
        self.config.enable_delta_compression
    }

    /// The configured similarity threshold.
    pub fn get_similarity_threshold(&self) -> (r: Score)
        ensures
            r == self.config.similarity_threshold,
    {
        self.config.similarity_threshold
    }

    /// The deduplicator's totals.
    pub fn get_dedup_stats(&self) -> (r: DedupStats)
        requires
            self.wf(),
        ensures
            r.total_files == crate::dedup::count_sum(self.deduplicator.ref_counts.entries@),
            r.unique_files == self.deduplicator.counts().len(),
            r.duplicate_files == if r.total_files >= r.unique_files {
                r.total_files - r.unique_files
            } else {
                0
            },
    {
        self.deduplicator.get_stats()
    }

    /// The delta pool's totals.
    pub fn get_delta_stats(&self) -> (r: DeltaStats)
        requires
            self.wf(),
        ensures
            r.total_base_files == self.delta_storage.base_files.view().len(),
            r.total_delta_files == crate::delta::info_ref_sum(self.delta_storage.base_file_info.entries@),
    {
        self.delta_storage.get_stats()
    }
}

/// Number of entries of `index` whose content hash is `h`.
pub open spec fn hash_count(index: Map<Seq<char>, FileEntry>, h: Seq<char>) -> nat {
    index.dom().filter(|k: Seq<char>| hash_is(index[k], h)).len()
}

/// `n`, or `u32::MAX` when it is larger.
pub open spec fn capped(n: nat) -> u32 {
    if n <= u32::MAX {
        n as u32
    } else {
        u32::MAX
    }
}

/// For every hash that the deduplicator knows, the reference count of its object equals
/// the number of index entries with that hash (capped at `u32::MAX`).
pub open spec fn counts_match_index(d: ContentDeduplicator, index: Map<Seq<char>, FileEntry>) -> bool {
    forall|h: Seq<char>| #[trigger] d.hashes().contains_key(h) ==> d.counts().contains_key(d.hashes()[h]@)
        && d.counts()[d.hashes()[h]@] == capped(hash_count(index, h))
}

proof fn lemma_rebuilt_hash_source(es: Seq<(String, String, u32)>, h: Seq<char>)
    requires
        crate::dedup::rebuilt_hash_map(es).contains_key(h),
    ensures
        exists|q: int| 0 <= q < es.len() && (#[trigger] es[q]).1@ == h && crate::dedup::rebuilt_hash_map(es)[h] == es[q].0,
    decreases es.len(),
{
    let last = es.len() - 1;
    if es.last().1@ == h {
        assert(es[last].1@ == h);
    } else {
        lemma_rebuilt_hash_source(es.drop_last(), h);
        let q = choose|q: int| 0 <= q < es.drop_last().len() && (#[trigger] es.drop_last()[q]).1@ == h
            && crate::dedup::rebuilt_hash_map(es.drop_last())[h] == es.drop_last()[q].0;
        assert(es[q] == es.drop_last()[q]);
    }
}

proof fn lemma_rebuilt_hash_covers(es: Seq<(String, String, u32)>, q: int)
    requires
        0 <= q < es.len(),
    ensures
        crate::dedup::rebuilt_hash_map(es).contains_key(es[q].1@),
    decreases es.len(),
{
    if q < es.len() - 1 {
        assert(es.drop_last()[q] == es[q]);
        lemma_rebuilt_hash_covers(es.drop_last(), q);
    }
}

/// Every hash that the deduplicator knows maps to the object id of a base entry with
/// that hash.
pub open spec fn hashes_name_bases(d: ContentDeduplicator, index: Map<Seq<char>, FileEntry>) -> bool {
    forall|h: Seq<char>| #[trigger] d.hashes().contains_key(h) ==> exists|k: Seq<char>|
        index.contains_key(k) && is_base(index[k]) && hash_is(index[k], h) && d.hashes()[h] == #[trigger] index[k].id
}

/// Every base entry with a content hash has that hash registered in the deduplicator.
pub open spec fn base_hashes_registered(d: ContentDeduplicator, index: Map<Seq<char>, FileEntry>) -> bool {
    forall|k: Seq<char>| #[trigger] index.contains_key(k) && is_base(index[k]) && index[k].hash is Some
        ==> d.hashes().contains_key(index[k].hash->Some_0@)
}

proof fn lemma_rebuilt_count_at(es: Seq<(String, String, u32)>, q: int)
    requires
        0 <= q < es.len(),
        forall|a: int, b: int| 0 <= a < b < es.len() ==> #[trigger] es[a].0@ != #[trigger] es[b].0@,
    ensures
        crate::dedup::rebuilt_counts(es).contains_key(es[q].0@),
        crate::dedup::rebuilt_counts(es)[es[q].0@] == es[q].2,
    decreases es.len(),
{
    if q < es.len() - 1 {
        let p = es.drop_last();
        assert forall|a: int, b: int| 0 <= a < b < p.len() implies #[trigger] p[a].0@ != #[trigger] p[b].0@ by {
            assert(es[a].0@ != es[b].0@);
        }
        assert(p[q] == es[q]);
        lemma_rebuilt_count_at(p, q);
        assert(es[q].0@ != es[es.len() - 1].0@);
    }
}

/// `k` is an entry of `m` that the glob `p`, as a regular expression, matches.
pub open spec fn selected_by(m: Map<Seq<char>, FileEntry>, p: Seq<char>, k: Seq<char>) -> bool {
    m.contains_key(k) && regex_matches(glob_regex(p), k)
}

/// Every entry of `m` that the glob `p` selects is among the strings of `v`.
pub open spec fn covers(v: Seq<String>, m: Map<Seq<char>, FileEntry>, p: Seq<char>) -> bool {
    forall|k: Seq<char>| #[trigger] selected_by(m, p, k) ==> path_listed(v, k)
}

/// `path` is among the strings of `v`.
pub open spec fn path_listed(v: Seq<String>, path: Seq<char>) -> bool {
    exists|i: int| 0 <= i < v.len() && v[i]@ == path
}

/// Some pattern among `patterns`, as a glob, matches `path`.
pub open spec fn excluded(patterns: Seq<Seq<char>>, path: Seq<char>) -> bool {
    exists|q: int| 0 <= q < patterns.len() && #[trigger] regex_matches(glob_regex(patterns[q]), path)
}

proof fn lemma_filter_push(s: Seq<Seq<char>>, f: spec_fn(Seq<char>) -> bool)
    requires
        s.len() > 0,
    ensures
        s.filter(f) == if f(s.last()) {
            s.drop_last().filter(f).push(s.last())
        } else {
            s.drop_last().filter(f)
        },
{
    reveal(Seq::filter);
}

proof fn lemma_rename_keeps_ids_unique(before: Map<Seq<char>, FileEntry>, after: Map<Seq<char>, FileEntry>, old_path: Seq<char>, new_path: Seq<char>, e: FileEntry)
    requires
        ids_unique(before),
        before.contains_key(old_path),
        before[old_path] == e,
        !before.contains_key(new_path),
        renamed(before, after, old_path, new_path, e),
    ensures
        ids_unique(after),
{
    assert forall|a: Seq<char>, b: Seq<char>| after.contains_key(a) && after.contains_key(b) && a != b implies #[trigger] after[a].id@
        != #[trigger] after[b].id@ by {
        let a0 = if a == new_path { old_path } else { a };
        let b0 = if b == new_path { old_path } else { b };
        assert(after[a].id == before[a0].id);
        assert(after[b].id == before[b0].id);
        assert(before[a0].id@ != before[b0].id@);
    }
}

/// Builds the anchored regular expression for a glob pattern.
fn glob_to_regex_text(pattern: &str) -> (r: String)
    ensures
        r@ == glob_regex(pattern@),
{
    let cs = chars_of(pattern);
    let mut out = String::new();
    push_char(&mut out, '^');
    let mut i: usize = 0;
    while i < cs.len()
        invariant
            cs@ == pattern@,
            i <= cs@.len(),
            out@ + glob_body(pattern@, i as int) == seq!['^'] + glob_body(pattern@, 0),
        decreases cs@.len() - i,
    {
        let c = cs[i];
        let ghost before = out@;
        let ghost piece = glob_piece(pattern@, i as int);
        let used: usize;
        if c == '*' {
            if i + 1 < cs.len() && cs[i + 1] == '*' {
                push_text(&mut out, ".*");
                used = 2;
            } else {
                push_text(&mut out, "[^/\\\\]*");
                used = 1;
            }
        } else if c == '?' {
            push_text(&mut out, "[^/\\\\]");
            used = 1;
        } else if c == '[' {
            push_char(&mut out, '[');
            used = 1;
        } else if c == ']' {
            push_char(&mut out, ']');
            used = 1;
        } else if c == '\\' || c == '/' {
            push_text(&mut out, "[/\\\\]");
            used = 1;
        } else if has_char("^$(){}|+.", c) {
            push_char(&mut out, '\\');
            push_char(&mut out, c);
            used = 1;
        } else {
            push_char(&mut out, c);
            used = 1;
        }
        proof {
            reveal_strlit("[");
            reveal_strlit("]");
            assert(out@ =~= before + piece.0);
            assert(used == piece.1);
            assert(glob_body(pattern@, i as int) == piece.0 + glob_body(pattern@, i + used));
            assert(out@ + glob_body(pattern@, i + used) =~= before + glob_body(pattern@, i as int));
        }
        i = i + used;
    }
    push_char(&mut out, '$');
    proof {
        assert(glob_body(pattern@, i as int) == Seq::<char>::empty());
        assert(out@ =~= glob_regex(pattern@));
    }
    out
}

/// Splits a list file into include and exclude patterns (see `pattern_lists`).
pub fn parse_pattern_list(content: &str) -> (r: (Vec<String>, Vec<String>))
    ensures
        r.0@.map_values(|s: String| s@) == pattern_lists(lines_of(content@)).0,
        r.1@.map_values(|s: String| s@) == pattern_lists(lines_of(content@)).1,
{
    let lines = split_lines(content);
    let ghost ls = lines_of(content@);
    let mut inc: Vec<String> = Vec::new();
    let mut exc: Vec<String> = Vec::new();
    let mut i: usize = 0;
    while i < lines.len()
        invariant
            ls == lines_of(content@),
            lines@.len() == ls.len(),
            forall|q: int| 0 <= q < lines@.len() ==> #[trigger] lines@[q]@ == ls[q],
            i <= lines@.len(),
            inc@.map_values(|s: String| s@) == pattern_lists(ls.subrange(0, i as int)).0,
            exc@.map_values(|s: String| s@) == pattern_lists(ls.subrange(0, i as int)).1,
        decreases lines@.len() - i,
    {
        let t = trim_text(lines[i].as_str());
        let cs = chars_of(t.as_str());
        proof {
            assert(ls.subrange(0, i + 1).drop_last() == ls.subrange(0, i as int));
            assert(ls.subrange(0, i + 1).last() == ls[i as int]);
        }
        let ghost inc0 = inc@;
        let ghost exc0 = exc@;
        if cs.len() == 0 || cs[0] == '#' {
        } else if cs[0] == '!' {
            let rest = crate::text::string_from_chars(cs.as_slice(), 1, cs.len());
            exc.push(rest);
            proof {
                assert(exc@.map_values(|s: String| s@) =~= exc0.map_values(|s: String| s@).push(t@.drop_first()));
            }
        } else {
            inc.push(t);
            proof {
                assert(inc@.map_values(|s: String| s@) =~= inc0.map_values(|s: String| s@).push(trimmed(ls[i as int])));
            }
        }
        i = i + 1;
    }
    proof {
        assert(ls.subrange(0, i as int) == ls);
    }
    (inc, exc)
}

/// What `store_file` promises: an indexed path is left alone; errors change nothing;
/// dedup applies exactly when a base with the same content hash exists; a new entry is
/// as `stored_entry` describes.
pub open spec fn store_post(before: StorageManager, path: Seq<char>, content: Seq<u8>, r: Result<StoreOutcome, StowrError>, after: StorageManager) -> bool {
    &&& before.entries().contains_key(path) ==> (r is Ok && r->Ok_0.kind == StoredKind::AlreadyStored
        && r->Ok_0.new_object is None && after.entries() == before.entries() && after.arena() == before.arena())
    &&& r is Err ==> after.entries() == before.entries() && after.arena() == before.arena()
    &&& r matches Err(e) ==> (e == StowrError::IoError || e == StowrError::NotImplemented)
    &&& r matches Ok(o) ==> (o.kind == StoredKind::AlreadyStored <==> before.entries().contains_key(path))
    &&& r matches Ok(o) ==> (o.kind == StoredKind::Reference <==> (!before.entries().contains_key(path)
        && before.config.enable_deduplication
        && exists|k: Seq<char>| #[trigger] before.entries().contains_key(k) && is_base(before.entries()[k])
            && hash_is(before.entries()[k], content_hash(content))))
    &&& r matches Ok(o) ==> (o.kind == StoredKind::Delta ==> before.config.enable_delta_compression)
    &&& r is Ok && delta_expected(before, path, content) ==> r->Ok_0.kind == StoredKind::Delta
    &&& r is Ok && r->Ok_0.kind != StoredKind::AlreadyStored ==> stored_entry(before, after, path, content, r->Ok_0)
}

/// The stored path of object `id` under the storage directory, with the codec's extension.
pub open spec fn object_path(m: StorageManager, id: Seq<char>) -> Seq<char> {
    joined(m.config.storage_path@, id + "."@ + m.config.compression_algorithm.spec_extension())
}

/// Neither the object id `id` nor its stored path is in use.
pub open spec fn name_free(m: StorageManager, id: Seq<char>) -> bool {
    !id_in_use(m.entries(), id) && !m.arena().contains_key(object_path(m, id))
}

/// A delta could be called for with an algorithm that is not implemented.
pub open spec fn not_implemented_possible(m: StorageManager) -> bool {
    m.config.enable_delta_compression && m.config.delta_algorithm != DeltaAlgorithm::Simple
}

/// What `store_file_with_id` promises beyond `store_post`: success when
/// `store_succeeds` holds; `IoError` only for a name in use; `NotImplemented` only when an
/// unimplemented delta algorithm is configured, and always when such a delta is called for;
/// a new entry carries the given id.
pub open spec fn store_with_id_post(before: StorageManager, path: Seq<char>, content: Seq<u8>, id: Seq<char>, r: Result<StoreOutcome, StowrError>, after: StorageManager) -> bool {
    &&& store_post(before, path, content, r, after)
    &&& store_succeeds(before, path, id) ==> r is Ok
    &&& r == Err::<StoreOutcome, StowrError>(StowrError::IoError) ==> !name_free(before, id)
    &&& r == Err::<StoreOutcome, StowrError>(StowrError::NotImplemented) ==> not_implemented_possible(before)
    &&& delta_expected(before, path, content) && before.config.delta_algorithm != DeltaAlgorithm::Simple
        ==> r == Err::<StoreOutcome, StowrError>(StowrError::NotImplemented)
    &&& r is Ok && r->Ok_0.kind != StoredKind::AlreadyStored ==> after.entries()[path].id@ == id
}

/// What makes a store under object id `id` succeed: an indexed path, or a fresh name and
/// no unimplemented delta algorithm in play.
pub open spec fn store_succeeds(m: StorageManager, path: Seq<char>, id: Seq<char>) -> bool {
    m.entries().contains_key(path) || (name_free(m, id) && !not_implemented_possible(m))
}

/// When a store must become a delta: the path is new, delta storage is on, dedup does
/// not apply, the content is small enough for any blob to fit the codecs, every base's
/// object decodes to bytes against which the emitted blob replays to the content, and
/// some base scores at least the threshold (with the
/// type bonus when the file-type tags agree).
pub open spec fn delta_expected(m: StorageManager, path: Seq<char>, content: Seq<u8>) -> bool {
    &&& !m.entries().contains_key(path)
    &&& m.config.enable_delta_compression
    &&& !(m.config.enable_deduplication && exists|k: Seq<char>| #[trigger] m.entries().contains_key(k)
        && is_base(m.entries()[k]) && hash_is(m.entries()[k], content_hash(content)))
    &&& 6 * content.len() + 30 <= u32::MAX
    &&& forall|k: Seq<char>| #[trigger] m.entries().contains_key(k) && is_base(m.entries()[k]) ==> exists|bp: Seq<u8>|
        bp.len() <= MAX_SCORED_LEN && holds(m.arena(), m.entries()[k].stored_path@, m.entries()[k].compression_algorithm, bp)
        && decoded_blob(bp, emitted_blob(bp, content)) == Some(content)
    &&& exists|k: Seq<char>, bp: Seq<u8>|
        #![trigger m.entries()[k], holds(m.arena(), m.entries()[k].stored_path@, m.entries()[k].compression_algorithm, bp)]
        m.entries().contains_key(k) && is_base(m.entries()[k]) && bp.len() <= MAX_SCORED_LEN
        && holds(m.arena(), m.entries()[k].stored_path@, m.entries()[k].compression_algorithm, bp)
        && adjusted(similarity_score(content, bp), file_type_of(k) == file_type_of(path)).ge(m.config.similarity_threshold)
}

/// What `owe_file` promises: an absent path is `NotFound`; errors change nothing
/// (deduplicator included); a delta without a resolvable base is `MissingBase`, one with an
/// unimplemented algorithm `NotImplemented`, one whose blob does not apply `DeltaCorrupt`; an
/// entry that the arena can rebuild as `c` comes back as `c`; on success the entry is
/// gone, the deduplicator releases it, and its object goes exactly when given up.
pub open spec fn extract_post(before: StorageManager, path: Seq<char>, r: Result<Extracted, StowrError>, after: StorageManager) -> bool {
    &&& !before.entries().contains_key(path) ==> r == Err::<Extracted, StowrError>(StowrError::NotFound)
    &&& r is Err ==> after == before
    &&& r matches Err(e) ==> (e == StowrError::NotFound || e == StowrError::MissingBase
        || e == StowrError::DecodeCorrupt || e == StowrError::DeltaCorrupt || e == StowrError::NotImplemented)
    &&& forall|c: Seq<u8>| #[trigger] before.reconstructs(path, c) ==> (r is Ok && r->Ok_0.content@ == c)
    &&& before.entries().contains_key(path) && before.entries()[path].spec_is_delta() && !before.entries()[path].spec_is_reference()
        && delta_broken(before, before.entries()[path]) ==> r == Err::<Extracted, StowrError>(StowrError::DeltaCorrupt)
    &&& before.entries().contains_key(path) && before.entries()[path].spec_is_delta() && !before.entries()[path].spec_is_reference()
        && delta_unresolved(before, before.entries()[path]) ==> r == Err::<Extracted, StowrError>(StowrError::MissingBase)
    &&& before.entries().contains_key(path) && before.entries()[path].spec_is_delta() && !before.entries()[path].spec_is_reference()
        && delta_unimplemented(before.entries()[path]) ==> r == Err::<Extracted, StowrError>(StowrError::NotImplemented)
    &&& r is Ok ==> after.entries() == before.entries().remove(path)
    &&& r is Ok ==> removal_rule(before, path, r->Ok_0.removed_objects@)
    &&& r is Ok ==> dedup_after_extract(before, path, after.deduplicator)
    &&& r is Ok ==> after.arena() == arena_without(before.arena(), r->Ok_0.removed_objects@)
}

/// What `store_file` promises of a new entry at `path` for `content`: the index gains
/// exactly that entry, with the content's size and hash, and
/// - a base holds the content in a new object (when the content fits the codecs);
/// - a reference shares the object and codec of an older base with the same hash, and
///   owes no bytes;
/// - a delta names an older base whose score reaches the threshold, and its blob, applied
///   to that base, restores the content.
pub open spec fn stored_entry(before: StorageManager, after: StorageManager, path: Seq<char>, content: Seq<u8>, o: StoreOutcome) -> bool {
    &&& !before.entries().contains_key(path)
    &&& after.entries().dom() == before.entries().dom().insert(path)
    &&& forall|k: Seq<char>| #[trigger] before.entries().contains_key(k) ==> after.entries()[k] == before.entries()[k]
    &&& after.entries()[path].original_path@ == path
    &&& hash_is(after.entries()[path], content_hash(content))
    &&& o.kind != StoredKind::Reference ==> after.entries()[path].file_size == content.len()
    &&& match o.kind {
        StoredKind::Base => {
            &&& is_base(after.entries()[path])
            &&& o.new_object matches Some(p) && p@ == after.entries()[path].stored_path@
            &&& !before.arena().contains_key(after.entries()[path].stored_path@)
            &&& after.arena().dom() == before.arena().dom().insert(after.entries()[path].stored_path@)
            &&& forall|k: Seq<char>| #[trigger] before.arena().contains_key(k) ==> after.arena()[k] == before.arena()[k]
            &&& after.entries()[path].compressed_size == after.arena()[after.entries()[path].stored_path@]@.len()
            &&& content.len() <= u32::MAX ==> after.reconstructs(path, content)
            &&& !id_in_use(before.entries(), after.entries()[path].id@)
            &&& before.config.enable_deduplication ==> {
                &&& after.deduplicator.hashes() == before.deduplicator.hashes().insert(content_hash(content), after.entries()[path].id)
                &&& after.deduplicator.counts() == before.deduplicator.counts().insert(after.entries()[path].id@, 1)
            }
            &&& !before.config.enable_deduplication ==> after.deduplicator == before.deduplicator
        },
        StoredKind::Reference => {
            &&& after.entries()[path].spec_is_reference()
            &&& o.new_object is None
            &&& after.arena() == before.arena()
            &&& after.entries()[path].compressed_size == 0
            &&& exists|k: Seq<char>| #[trigger] before.entries().contains_key(k) && is_base(before.entries()[k])
                && hash_is(before.entries()[k], content_hash(content))
                && after.entries()[path].base_storage_id == Some(before.entries()[k].id)
                && after.entries()[path].file_size == before.entries()[k].file_size
                && after.entries()[path].stored_path == before.entries()[k].stored_path
                && after.entries()[path].compression_algorithm == before.entries()[k].compression_algorithm
                && before.deduplicator.added_reference(content_hash(content), before.entries()[k].id@, after.deduplicator)
        },
        StoredKind::Delta => {
            &&& after.entries()[path].spec_is_delta()
            &&& o.new_object matches Some(p) && p@ == after.entries()[path].stored_path@
            &&& !before.arena().contains_key(after.entries()[path].stored_path@)
            &&& after.arena().dom() == before.arena().dom().insert(after.entries()[path].stored_path@)
            &&& forall|k: Seq<char>| #[trigger] before.arena().contains_key(k) ==> after.arena()[k] == before.arena()[k]
            &&& after.entries()[path].compressed_size == after.arena()[after.entries()[path].stored_path@]@.len()
            &&& after.reconstructs(path, content)
            &&& exists|k: Seq<char>, bp: Seq<u8>|
                #![trigger before.entries()[k], holds(before.arena(), before.entries()[k].stored_path@, before.entries()[k].compression_algorithm, bp)]
                before.entries().contains_key(k) && is_base(before.entries()[k])
                && after.entries()[path].base_storage_id == Some(before.entries()[k].id)
                && holds(before.arena(), before.entries()[k].stored_path@, before.entries()[k].compression_algorithm, bp)
                && adjusted(similarity_score(content, bp), file_type_of(k) == file_type_of(path)).ge(before.config.similarity_threshold)
            &&& after.deduplicator == before.deduplicator
        },
        StoredKind::AlreadyStored => false,
    }
}

proof fn lemma_add_keeps_ids_unique(index: Map<Seq<char>, FileEntry>, path: Seq<char>, e: FileEntry)
    requires
        ids_unique(index),
        !index.contains_key(path),
        !id_in_use(index, e.id@),
    ensures
        ids_unique(index.insert(path, e)),
{
    let m = index.insert(path, e);
    assert forall|a: Seq<char>, b: Seq<char>| m.contains_key(a) && m.contains_key(b) && a != b implies #[trigger] m[a].id@
        != #[trigger] m[b].id@ by {
        if a == path {
            assert(index[b].id@ != e.id@);
        } else if b == path {
            assert(index[a].id@ != e.id@);
        }
    }
}

/// Storing `content` under a new path with a fresh object id (and no unimplemented delta
/// algorithm configured) succeeds, and extracting that path then gives back exactly
/// `content`, and so the same SHA-256, when the content fits the codecs (at most
/// `u32::MAX` bytes) and, should it become a reference, the bases that share its hash
/// hold the same bytes (dedup goes by hash alone).
pub proof fn lemma_store_then_extract(
    m0: StorageManager,
    path: Seq<char>,
    content: Seq<u8>,
    id: Seq<char>,
    r1: Result<StoreOutcome, StowrError>,
    m1: StorageManager,
    r2: Result<Extracted, StowrError>,
    m2: StorageManager,
)
    requires
        m0.wf(),
        !m0.entries().contains_key(path),
        content.len() <= u32::MAX,
        store_succeeds(m0, path, id),
        store_with_id_post(m0, path, content, id, r1, m1),
        extract_post(m1, path, r2, m2),
        forall|k: Seq<char>|
            #[trigger] m0.entries().contains_key(k) && is_base(m0.entries()[k]) && hash_is(m0.entries()[k], content_hash(content))
                ==> m0.reconstructs(k, content),
    ensures
        r1 is Ok,
        r2 is Ok,
        r2->Ok_0.content@ == content,
        content_hash(r2->Ok_0.content@) == content_hash(content),
{
    let o = r1->Ok_0;
    match o.kind {
        StoredKind::Base => {
            assert(m1.reconstructs(path, content));
        },
        StoredKind::Reference => {
            let e = m1.entries()[path];
            let k = choose|k: Seq<char>| #[trigger] m0.entries().contains_key(k) && is_base(m0.entries()[k])
                && hash_is(m0.entries()[k], content_hash(content))
                && e.base_storage_id == Some(m0.entries()[k].id)
                && e.file_size == m0.entries()[k].file_size
                && e.stored_path == m0.entries()[k].stored_path
                && e.compression_algorithm == m0.entries()[k].compression_algorithm
                && m0.deduplicator.added_reference(content_hash(content), m0.entries()[k].id@, m1.deduplicator);
            assert(m0.reconstructs(k, content));
            assert(holds(m1.arena(), e.stored_path@, e.compression_algorithm, content));
            assert(m1.reconstructs(path, content));
        },
        StoredKind::Delta => {
            assert(m1.reconstructs(path, content));
        },
        StoredKind::AlreadyStored => {},
    }
}

/// With dedup on, storing the bytes of a new base again under a second path, each with a
/// fresh object id, succeeds and creates no physical object: the second entry is a
/// reference to the first's object that owes no bytes on disk, while the first store
/// added exactly one object.
pub proof fn lemma_second_copy_shares_object(
    m0: StorageManager,
    path_a: Seq<char>,
    path_b: Seq<char>,
    content: Seq<u8>,
    id_a: Seq<char>,
    r1: Result<StoreOutcome, StowrError>,
    m1: StorageManager,
    id_b: Seq<char>,
    r2: Result<StoreOutcome, StowrError>,
    m2: StorageManager,
)
    requires
        m0.wf(),
        m0.config.enable_deduplication,
        m1.config == m0.config,
        path_a != path_b,
        !m0.entries().contains_key(path_a),
        !m0.entries().contains_key(path_b),
        store_with_id_post(m0, path_a, content, id_a, r1, m1),
        store_succeeds(m0, path_a, id_a),
        r1->Ok_0.kind == StoredKind::Base,
        store_with_id_post(m1, path_b, content, id_b, r2, m2),
        store_succeeds(m1, path_b, id_b),
    ensures
        r1 is Ok,
        r2 is Ok,
        r2->Ok_0.kind == StoredKind::Reference,
        r2->Ok_0.new_object is None,
        m2.arena() == m1.arena(),
        m2.entries()[path_b].compressed_size == 0,
        m2.entries()[path_b].stored_path == m1.entries()[path_a].stored_path,
        m2.entries()[path_b].base_storage_id == Some(m1.entries()[path_a].id),
        m2.entries()[path_b].file_size == m1.entries()[path_a].file_size,
        m1.arena().dom() == m0.arena().dom().insert(m1.entries()[path_a].stored_path@),
        !m0.arena().contains_key(m1.entries()[path_a].stored_path@),
{
    let h = content_hash(content);
    assert(m1.entries().contains_key(path_a));
    assert(is_base(m1.entries()[path_a]) && hash_is(m1.entries()[path_a], h));
    assert(!m1.entries().contains_key(path_b));
    assert forall|k: Seq<char>| #[trigger] m1.entries().contains_key(k) && is_base(m1.entries()[k]) && hash_is(m1.entries()[k], h)
        implies k == path_a by {
        if k != path_a {
            assert(m0.entries().contains_key(k));
        }
    }
}

/// With delta storage on, a new file that resembles a stored base at least up to the
/// threshold is stored, as a delta entry, whenever its object id is fresh, dedup does not
/// apply, the file is small enough for any blob to fit the codecs, and every base's
/// object decodes to bytes against which the blob replays.
pub proof fn lemma_similar_file_becomes_delta(
    m0: StorageManager,
    path: Seq<char>,
    content: Seq<u8>,
    id: Seq<char>,
    r: Result<StoreOutcome, StowrError>,
    m1: StorageManager,
)
    requires
        m0.wf(),
        delta_expected(m0, path, content),
        store_with_id_post(m0, path, content, id, r, m1),
        store_succeeds(m0, path, id),
    ensures
        r is Ok,
        r->Ok_0.kind == StoredKind::Delta,
        m1.entries()[path].spec_is_delta(),
        m1.entries()[path].file_size == content.len(),
{
}

/// Every reference and delta names the object id of an entry of the index.
pub open spec fn bases_resolve(index: Map<Seq<char>, FileEntry>) -> bool {
    forall|k: Seq<char>|
        #[trigger] index.contains_key(k) && (index[k].spec_is_reference() || index[k].spec_is_delta())
            ==> index[k].base_storage_id is Some && id_in_use(index, index[k].base_storage_id->Some_0@)
}

proof fn lemma_reconstructs_same(a: StorageManager, b: StorageManager, path: Seq<char>, content: Seq<u8>)
    requires
        a.reconstructs(path, content),
        is_base(a.entries()[path]) || a.entries()[path].spec_is_reference(),
        b.entries().contains_key(path),
        b.entries()[path] == a.entries()[path],
        b.arena().contains_key(a.entries()[path].stored_path@),
        b.arena()[a.entries()[path].stored_path@] == a.arena()[a.entries()[path].stored_path@],
    ensures
        b.reconstructs(path, content),
{
    let e = a.entries()[path];
    assert(holds(b.arena(), e.stored_path@, e.compression_algorithm, content));
}

/// With dedup on, when the same bytes are stored under two new paths, extracting either
/// one leaves the shared physical object in place, and extracting the other one then
/// releases it.
pub proof fn lemma_shared_object_released_last(
    m0: StorageManager,
    path_a: Seq<char>,
    path_b: Seq<char>,
    content: Seq<u8>,
    id_a: Seq<char>,
    r1: Result<StoreOutcome, StowrError>,
    m1: StorageManager,
    id_b: Seq<char>,
    r2: Result<StoreOutcome, StowrError>,
    m2: StorageManager,
    first: Seq<char>,
    second: Seq<char>,
    r3: Result<Extracted, StowrError>,
    m3: StorageManager,
    r4: Result<Extracted, StowrError>,
    m4: StorageManager,
)
    requires
        m0.wf(),
        bases_resolve(m0.entries()),
        m0.config.enable_deduplication,
        m1.config == m0.config,
        path_a != path_b,
        !m0.entries().contains_key(path_a),
        !m0.entries().contains_key(path_b),
        content.len() <= u32::MAX,
        store_with_id_post(m0, path_a, content, id_a, r1, m1),
        store_succeeds(m0, path_a, id_a),
        r1->Ok_0.kind == StoredKind::Base,
        store_with_id_post(m1, path_b, content, id_b, r2, m2),
        store_succeeds(m1, path_b, id_b),
        (first == path_a && second == path_b) || (first == path_b && second == path_a),
        extract_post(m2, first, r3, m3),
        extract_post(m3, second, r4, m4),
    ensures
        r1 is Ok,
        r2 is Ok,
        r3 is Ok,
        r3->Ok_0.removed_objects@.len() == 0,
        m3.arena().contains_key(m1.entries()[path_a].stored_path@),
        r4 is Ok,
        r4->Ok_0.removed_objects@.len() == 1,
        !m4.arena().contains_key(m1.entries()[path_a].stored_path@),
{
    let h = content_hash(content);
    let e1 = m1.entries()[path_a];
    let id1 = e1.id;
    let obj = e1.stored_path@;
    lemma_second_copy_shares_object(m0, path_a, path_b, content, id_a, r1, m1, id_b, r2, m2);
    let e2 = m2.entries()[path_b];
    // The only base with this hash in m1 is the one at path_a.
    assert forall|k: Seq<char>| #[trigger] m1.entries().contains_key(k) && is_base(m1.entries()[k]) && hash_is(m1.entries()[k], h)
        implies k == path_a by {
        if k != path_a {
            assert(m0.entries().contains_key(k));
        }
    }
    let k = choose|k: Seq<char>| #[trigger] m1.entries().contains_key(k) && is_base(m1.entries()[k])
        && hash_is(m1.entries()[k], h)
        && e2.base_storage_id == Some(m1.entries()[k].id)
        && e2.file_size == m1.entries()[k].file_size
        && e2.stored_path == m1.entries()[k].stored_path
        && e2.compression_algorithm == m1.entries()[k].compression_algorithm
        && m1.deduplicator.added_reference(h, m1.entries()[k].id@, m2.deduplicator);
    assert(k == path_a);
    assert(m1.deduplicator.hashes()[h] == id1);
    assert(m2.deduplicator.counts()[id1@] == 2);
    assert(m2.deduplicator.hashes() == m1.deduplicator.hashes());
    assert(m2.entries()[path_a] == e1);
    // Nothing from before the stores depends on the new object id.
    assert forall|q: Seq<char>| #[trigger] m0.entries().contains_key(q) implies !depends_on(m0.entries()[q], id1@) by {
        if depends_on(m0.entries()[q], id1@) {
            assert(id_in_use(m0.entries(), id1@));
        }
    }
    lemma_reconstructs_same(m1, m2, path_a, content);
    assert(m2.reconstructs(path_b, content)) by {
        assert(holds(m2.arena(), e2.stored_path@, e2.compression_algorithm, content));
    }
    let ex = r3->Ok_0.removed_objects@;
    if first == path_a {
        assert(!frees_object(m2, path_a)) by {
            assert(depends_on(m2.entries()[path_b], id1@));
        }
        assert(ex.len() == 0);
        assert(arena_without(m2.arena(), ex) == m2.arena());
        assert(m3.entries()[path_b] == e2);
        assert(m3.deduplicator.counts()[id1@] == 1);
        assert(!has_dependant(m3.entries(), id1@, Some(path_b))) by {
            assert forall|q: Seq<char>| m3.entries().contains_key(q) && Some(path_b) != Some(q) implies !depends_on(#[trigger] m3.entries()[q], id1@) by {
                assert(m0.entries().contains_key(q));
            }
        }
        lemma_reconstructs_same(m2, m3, path_b, content);
        assert(frees_object(m3, path_b));
        reveal_with_fuel(arena_without, 2);
    } else {
        assert(!frees_object(m2, path_b));
        assert(ex.len() == 0);
        assert(arena_without(m2.arena(), ex) == m2.arena());
        assert(m3.entries()[path_a] == e1);
        assert(m3.deduplicator.counts()[id1@] == 1);
        assert(!has_dependant(m3.entries(), id1@, None)) by {
            assert forall|q: Seq<char>| m3.entries().contains_key(q) implies !depends_on(#[trigger] m3.entries()[q], id1@) by {
                if q != path_a {
                    assert(m0.entries().contains_key(q));
                }
            }
        }
        lemma_reconstructs_same(m2, m3, path_a, content);
        assert(frees_object(m3, path_a));
        reveal_with_fuel(arena_without, 2);
    }
}

/// Extracting a delta entry whose stored blob was cut short by its last byte fails with
/// `DeltaCorrupt` (never a shorter file) and leaves the store as it was; `base_path`
/// is the entry of its base, whose object holds `base_bytes`.
pub proof fn lemma_truncated_delta_is_corrupt(
    m: StorageManager,
    path: Seq<char>,
    base_path: Seq<char>,
    base_bytes: Seq<u8>,
    target: Seq<u8>,
    r: Result<Extracted, StowrError>,
    after: StorageManager,
)
    requires
        m.wf(),
        m.entries().contains_key(path),
        m.entries()[path].spec_is_delta(),
        !m.entries()[path].spec_is_reference(),
        m.entries()[path].base_storage_id is Some,
        m.entries()[path].delta_algorithm is None || m.entries()[path].delta_algorithm == Some(DeltaAlgorithm::Simple),
        m.entries().contains_key(base_path),
        m.entries()[base_path].id@ == m.entries()[path].base_storage_id->Some_0@,
        holds(m.arena(), m.entries()[base_path].stored_path@, m.entries()[base_path].compression_algorithm, base_bytes),
        base_bytes.len() <= u64::MAX,
        target.len() <= u32::MAX,
        holds(m.arena(), m.entries()[path].stored_path@, m.entries()[path].compression_algorithm,
            emitted_blob(base_bytes, target).drop_last()),
        extract_post(m, path, r, after),
    ensures
        r == Err::<Extracted, StowrError>(StowrError::DeltaCorrupt),
        after.entries() == m.entries(),
        after.arena() == m.arena(),
{
    lemma_truncated_blob_rejected(base_bytes, target);
    let blob = emitted_blob(base_bytes, target).drop_last();
    assert(m.entries()[base_path] == m.entries()[base_path]);
    assert(decoded_blob(base_bytes, blob) is None);
    assert(delta_broken(m, m.entries()[path]));
}

} // verus!
