use vstd::prelude::*;
use crate::table::StrTable;
use crate::text::{owned, push_char};

verus! {

/// What SHA-256 yields for a byte sequence: its 32-byte digest.
pub uninterp spec fn sha256_of(data: Seq<u8>) -> Seq<u8>;

/// Relies on `sha2::Sha256::digest`: the 32-byte SHA-256 digest of `data`.
#[verifier::external_body]
fn sha256_digest(data: &[u8]) -> (r: Vec<u8>)
    ensures
        r@ == sha256_of(data@),
        r@.len() == 32,
{
    <sha2::Sha256 as sha2::Digest>::digest(data).to_vec()
}

/// The lowercase hex digit for `d < 16`.
pub open spec fn hex_digit(d: u8) -> char {
    if d < 10 {
        ((d + 48) as u32) as char
    } else {
        ((d + 87) as u32) as char
    }
}

/// Two lowercase hex digits per byte, high nibble first.
pub open spec fn hex_text(bytes: Seq<u8>) -> Seq<char>
    decreases bytes.len(),
{
    if bytes.len() == 0 {
        Seq::empty()
    } else {
        hex_text(bytes.drop_last()) + seq![hex_digit(bytes.last() / 16), hex_digit(bytes.last() % 16)]
    }
}

proof fn lemma_hex_len(bytes: Seq<u8>)
    ensures
        hex_text(bytes).len() == 2 * bytes.len(),
    decreases bytes.len(),
{
    if bytes.len() > 0 {
        lemma_hex_len(bytes.drop_last());
    }
}

fn hex_char(d: u8) -> (c: char)
    requires
        d < 16,
    ensures
        c == hex_digit(d),
{
    let table: [char; 16] = ['0', '1', '2', '3', '4', '5', '6', '7', '8', '9', 'a', 'b', 'c', 'd', 'e', 'f'];
    proof {
        assert(table@[d as int] == hex_digit(d)) by {
            if d == 0 {} else if d == 1 {} else if d == 2 {} else if d == 3 {} else if d == 4 {}
            else if d == 5 {} else if d == 6 {} else if d == 7 {} else if d == 8 {}
            else if d == 9 {} else if d == 10 {} else if d == 11 {} else if d == 12 {}
            else if d == 13 {} else if d == 14 {} else {}
        }
    }
    table[d as usize]
}

/// The bytes written as lowercase hex.
pub fn hex_string(bytes: &[u8]) -> (r: String)
    ensures
        r@ == hex_text(bytes@),
        r@.len() == 2 * bytes@.len(),
{
    let mut s = String::new();
    let mut i: usize = 0;
    while i < bytes.len()
        invariant
            i <= bytes@.len(),
            s@ == hex_text(bytes@.subrange(0, i as int)),
        decreases bytes@.len() - i,
    {
        let b = bytes[i];
        push_char(&mut s, hex_char(b / 16));
        push_char(&mut s, hex_char(b % 16));
        proof {
            assert(bytes@.subrange(0, i + 1).drop_last() == bytes@.subrange(0, i as int));
            assert(s@ =~= hex_text(bytes@.subrange(0, i + 1)));
        }
        i = i + 1;
    }
    proof {
        assert(bytes@.subrange(0, i as int) == bytes@);
        lemma_hex_len(bytes@);
    }
    s
}

/// The content hash of a file: SHA-256 of its bytes as 64 lowercase hex characters.
pub open spec fn content_hash(data: Seq<u8>) -> Seq<char> {
    hex_text(sha256_of(data))
}

/// A reference count raised by one, saturating; an absent count becomes 1.
pub open spec fn bumped(c: Option<u32>) -> u32 {
    match c {
        Some(n) => if n < u32::MAX {
            (n + 1) as u32
        } else {
            n
        },
        None => 1,
    }
}

/// Content-hash deduplicator: hash to object id, object id to hash, and object id to
/// reference count.
pub struct ContentDeduplicator {
    pub hash_to_storage: StrTable<String>,
    pub ref_counts: StrTable<u32>,
    pub storage_to_hash: StrTable<String>,
}

/// What the deduplicator knows of one object or one hash.
#[derive(Debug, Clone)]
pub struct DedupInfo {
    pub is_reference: bool,
    pub original_storage_id: Option<String>,
    pub hash: String,
    pub ref_count: u32,
}

/// Totals over the deduplicator's reference counts.
#[derive(Debug, Clone, Copy, PartialEq, Eq, Structural)]
pub struct DedupStats {
    pub total_files: u128,
    pub unique_files: u128,
    pub duplicate_files: u128,
}

/// Sum of the counts in a table's pairs.
pub open spec fn count_sum(s: Seq<(String, u32)>) -> nat
    decreases s.len(),
{
    if s.len() == 0 {
        0
    } else {
        count_sum(s.drop_last()) + s.last().1 as nat
    }
}

/// The hash-to-object map that a rebuild from `es` (object id, hash, count) makes.
pub open spec fn rebuilt_hash_map(es: Seq<(String, String, u32)>) -> Map<Seq<char>, String>
    decreases es.len(),
{
    if es.len() == 0 {
        Map::empty()
    } else {
        rebuilt_hash_map(es.drop_last()).insert(es.last().1@, es.last().0)
    }
}

/// The object-to-hash map that a rebuild from `es` makes.
pub open spec fn rebuilt_storage_map(es: Seq<(String, String, u32)>) -> Map<Seq<char>, String>
    decreases es.len(),
{
    if es.len() == 0 {
        Map::empty()
    } else {
        rebuilt_storage_map(es.drop_last()).insert(es.last().0@, es.last().1)
    }
}

/// The reference counts that a rebuild from `es` makes.
pub open spec fn rebuilt_counts(es: Seq<(String, String, u32)>) -> Map<Seq<char>, u32>
    decreases es.len(),
{
    if es.len() == 0 {
        Map::empty()
    } else {
        rebuilt_counts(es.drop_last()).insert(es.last().0@, es.last().2)
    }
}

impl ContentDeduplicator {
    /// Each of the three tables has distinct keys.
    pub open spec fn wf(&self) -> bool {
        &&& self.hash_to_storage.wf()
        &&& self.ref_counts.wf()
        &&& self.storage_to_hash.wf()
    }

    /// Content hash to object id.
    pub open spec fn hashes(&self) -> Map<Seq<char>, String> {
        self.hash_to_storage.view()
    }

    /// Object id to reference count.
    pub open spec fn counts(&self) -> Map<Seq<char>, u32> {
        self.ref_counts.view()
    }

    /// Object id to content hash.
    pub open spec fn objects(&self) -> Map<Seq<char>, String> {
        self.storage_to_hash.view()
    }

    /// An empty deduplicator.
    pub fn new() -> (r: Self)
        ensures
            r.wf(),
            r.hashes() == Map::<Seq<char>, String>::empty(),
            r.counts() == Map::<Seq<char>, u32>::empty(),
            r.objects() == Map::<Seq<char>, String>::empty(),
    {
        ContentDeduplicator {
            hash_to_storage: StrTable::new(),
            ref_counts: StrTable::new(),
            storage_to_hash: StrTable::new(),
        }
    }

    /// SHA-256 of `data` as 64 lowercase hex characters.
    pub fn calculate_hash(data: &[u8]) -> (r: String)
        ensures
            r@ == content_hash(data@),
            r@.len() == 64,
    {
        let digest = sha256_digest(data);
        hex_string(digest.as_slice())
    }

    /// The object id registered for `hash`, if any.
    pub fn lookup(&self, hash: &str) -> (r: Option<String>)
        requires
            self.wf(),
        ensures
            r == self.hashes().get(hash@),
    {
        match self.hash_to_storage.get(hash) {
            Some(id) => Some(id.clone()),
            None => None,
        }
    }

    /// When `hash` is known, counts one more reference to its object and returns the
    /// object id.
    pub fn check_duplicate(&mut self, hash: &str) -> (r: Option<String>)
        requires
            old(self).wf(),
        ensures
            final(self).wf(),
            r == old(self).hashes().get(hash@),
            final(self).hashes() == old(self).hashes(),
            final(self).objects() == old(self).objects(),
            match r {
                Some(id) => final(self).counts() == old(self).counts().insert(
                    id@,
                    bumped(old(self).counts().get(id@)),
                ),
                None => final(self).counts() == old(self).counts(),
            },
    {
        match self.hash_to_storage.get(hash) {
            Some(id) => {
                let id = id.clone();
                self.bump(&id);
                Some(id)
            },
            None => None,
        }
    }

    fn bump(&mut self, id: &String)
        requires
            old(self).wf(),
        ensures
            final(self).wf(),
            final(self).hashes() == old(self).hashes(),
            final(self).objects() == old(self).objects(),
            final(self).counts() == old(self).counts().insert(id@, bumped(old(self).counts().get(id@))),
    {
        let n: u32 = match self.ref_counts.get(id.as_str()) {
            Some(c) => if *c < u32::MAX { *c + 1 } else { *c },
            None => 1,
        };
        self.ref_counts.insert(id.clone(), n);
    }

    /// Registers a new object: `hash` maps to `storage_id` with one reference.
    pub fn register_file(&mut self, hash: String, storage_id: String)
        requires
            old(self).wf(),
        ensures
            final(self).wf(),
            final(self).hashes() == old(self).hashes().insert(hash@, storage_id),
            final(self).objects() == old(self).objects().insert(storage_id@, hash),
            final(self).counts() == old(self).counts().insert(storage_id@, 1),
    {
        self.hash_to_storage.insert(hash.clone(), storage_id.clone());
        self.storage_to_hash.insert(storage_id.clone(), hash);
        self.ref_counts.insert(storage_id, 1);
    }

    /// The state after releasing one reference to the object `id` (a model of
    /// `remove_reference`): at a count of 1 or less the object is forgotten.
    pub open spec fn released(self, id: Seq<char>, next: Self) -> bool {
        match self.counts().get(id) {
            Some(c) => if c <= 1 {
                &&& next.counts() == self.counts().remove(id)
                &&& next.objects() == self.objects().remove(id)
                &&& next.hashes() == match self.objects().get(id) {
                    Some(h) => self.hashes().remove(h@),
                    None => self.hashes(),
                }
            } else {
                &&& next.counts() == self.counts().insert(id, (c - 1) as u32)
                &&& next.objects() == self.objects()
                &&& next.hashes() == self.hashes()
            },
            None => next.counts() == self.counts() && next.objects() == self.objects()
                && next.hashes() == self.hashes(),
        }
    }

    /// Whether releasing the object `id` leaves it without references.
    pub open spec fn release_frees(self, id: Seq<char>) -> bool {
        match self.counts().get(id) {
            Some(c) => c <= 1,
            None => true,
        }
    }

    /// Releases one reference to object `storage_id`; returns whether the physical object
    /// is no longer needed (also for an unknown id).
    pub fn remove_reference(&mut self, storage_id: &str) -> (r: bool)
        requires
            old(self).wf(),
        ensures
            final(self).wf(),
            old(self).released(storage_id@, *final(self)),
            r == old(self).release_frees(storage_id@),
    {
        let c: u32 = match self.ref_counts.get(storage_id) {
            Some(c) => *c,
            None => {
                return true;
            },
        };
        if c <= 1 {
            self.ref_counts.remove(storage_id);
            match self.storage_to_hash.remove(storage_id) {
                Some(h) => {
                    self.hash_to_storage.remove(h.as_str());
                },
                None => {},
            }
            true
        } else {
            self.ref_counts.insert(owned(storage_id), c - 1);
            false
        }
    }

    /// Releases one reference to the object that `hash` maps to; returns true for an
    /// unknown hash.
    pub fn remove_hash_reference(&mut self, hash: &str) -> (r: bool)
        requires
            old(self).wf(),
        ensures
            final(self).wf(),
            match old(self).hashes().get(hash@) {
                Some(id) => old(self).released(id@, *final(self)) && r == old(self).release_frees(id@),
                None => r && *final(self) == *old(self),
            },
    {
        match self.hash_to_storage.get(hash) {
            Some(id) => {
                let id = id.clone();
                self.remove_reference(id.as_str())
            },
            None => true,
        }
    }

    /// Counts one more reference for `hash`: when `hash` maps to `storage_id`, its count
    /// rises; when `hash` is unknown, the mapping is installed first; when it maps to
    /// another object, nothing changes.
    pub fn add_hash_reference(&mut self, hash: &str, storage_id: &str)
        requires
            old(self).wf(),
        ensures
            final(self).wf(),
            old(self).added_reference(hash@, storage_id@, *final(self)),
    {
        let id = owned(storage_id);
        match self.hash_to_storage.get(hash) {
            Some(existing) => {
                if *existing == id {
                    self.bump(&id);
                }
            },
            None => {
                self.hash_to_storage.insert(owned(hash), id.clone());
                self.storage_to_hash.insert(id.clone(), owned(hash));
                self.bump(&id);
            },
        }
    }

    /// The state after counting one more reference for `hash` on object `id` (a model of
    /// `add_hash_reference`).
    pub open spec fn added_reference(self, hash: Seq<char>, id: Seq<char>, next: Self) -> bool {
        match self.hashes().get(hash) {
            Some(existing) => if existing@ == id {
                &&& next.counts() == self.counts().insert(id, bumped(self.counts().get(id)))
                &&& next.hashes() == self.hashes()
                &&& next.objects() == self.objects()
            } else {
                next == self
            },
            None => {
                &&& next.hashes().dom() == self.hashes().dom().insert(hash)
                &&& next.hashes()[hash]@ == id
                &&& forall|h: Seq<char>| h != hash && #[trigger] self.hashes().contains_key(h)
                    ==> next.hashes()[h] == self.hashes()[h]
                &&& next.objects().dom() == self.objects().dom().insert(id)
                &&& next.objects()[id]@ == hash
                &&& forall|s: Seq<char>| s != id && #[trigger] self.objects().contains_key(s)
                    ==> next.objects()[s] == self.objects()[s]
                &&& next.counts() == self.counts().insert(id, bumped(self.counts().get(id)))
            },
        }
    }

    /// Hash and count of the object `storage_id`; it counts as referenced when more than
    /// one entry shares it.
    pub fn get_dedup_info(&self, storage_id: &str) -> (r: Option<DedupInfo>)
        requires
            self.wf(),
        ensures
            match self.objects().get(storage_id@) {
                Some(h) => r matches Some(info) && {
                    let c = match self.counts().get(storage_id@) {
                        Some(c) => c,
                        None => 0,
                    };
                    &&& info.hash == h
                    &&& info.ref_count == c
                    &&& info.is_reference == (c > 1)
                    &&& info.original_storage_id is None
                },
                None => r is None,
            },
    {
        match self.storage_to_hash.get(storage_id) {
            Some(h) => {
                let c: u32 = match self.ref_counts.get(storage_id) {
                    Some(c) => *c,
                    None => 0,
                };
                Some(DedupInfo { is_reference: c > 1, original_storage_id: None, hash: h.clone(), ref_count: c })
            },
            None => None,
        }
    }

    /// The object that `hash` maps to, with its count, seen from a referencing entry.
    pub fn get_reference_info(&self, hash: &str) -> (r: Option<DedupInfo>)
        requires
            self.wf(),
        ensures
            match self.hashes().get(hash@) {
                Some(id) => r matches Some(info) && {
                    let c = match self.counts().get(id@) {
                        Some(c) => c,
                        None => 0,
                    };
                    &&& info.hash@ == hash@
                    &&& info.ref_count == c
                    &&& info.is_reference
                    &&& info.original_storage_id == Some(id)
                },
                None => r is None,
            },
    {
        match self.hash_to_storage.get(hash) {
            Some(id) => {
                let c: u32 = match self.ref_counts.get(id.as_str()) {
                    Some(c) => *c,
                    None => 0,
                };
                Some(DedupInfo { is_reference: true, original_storage_id: Some(id.clone()), hash: owned(hash), ref_count: c })
            },
            None => None,
        }
    }

    /// Totals: all references, distinct objects, and the references beyond the first of
    /// each object.
    pub fn get_stats(&self) -> (r: DedupStats)
        requires
            self.wf(),
        ensures
            r.total_files == count_sum(self.ref_counts.entries@),
            r.unique_files == self.counts().len(),
            r.duplicate_files == if r.total_files >= r.unique_files {
                r.total_files - r.unique_files
            } else {
                0
            },
    {
        let mut total: u128 = 0;
        let mut i: usize = 0;
        let n = self.ref_counts.entries.len();
        while i < n
            invariant
                n == self.ref_counts.entries@.len(),
                i <= n,
                total == count_sum(self.ref_counts.entries@.subrange(0, i as int)),
                total <= i * 0xffff_ffffu128,
            decreases n - i,
        {
            proof {
                assert(self.ref_counts.entries@.subrange(0, i + 1).drop_last() == self.ref_counts.entries@.subrange(0, i as int));
                assert((i + 1) * 0xffff_ffffu128 == i * 0xffff_ffffu128 + 0xffff_ffffu128) by (nonlinear_arith);
                assert(i * 0xffff_ffffu128 <= 0xffff_ffff_ffff_ffff * 0xffff_ffffu128) by (nonlinear_arith)
                    requires i <= 0xffff_ffff_ffff_ffffu128;
            }
            total = total + self.ref_counts.entries[i].1 as u128;
            i = i + 1;
        }
        proof {
            assert(self.ref_counts.entries@.subrange(0, n as int) == self.ref_counts.entries@);
        }
        let unique = self.ref_counts.len() as u128;
        let duplicate = if total >= unique { total - unique } else { 0 };
        DedupStats { total_files: total, unique_files: unique, duplicate_files: duplicate }
    }

    /// Replaces the whole state with what `entries` (object id, hash, count) give, later
    /// entries winning over earlier ones.
    pub fn rebuild_from_index(&mut self, entries: Vec<(String, String, u32)>) -> (r: Result<(), crate::error::StowrError>)
        ensures
            r is Ok,
            final(self).wf(),
            final(self).hashes() == rebuilt_hash_map(entries@),
            final(self).objects() == rebuilt_storage_map(entries@),
            final(self).counts() == rebuilt_counts(entries@),
    {
        self.hash_to_storage.clear();
        self.ref_counts.clear();
        self.storage_to_hash.clear();
        let mut i: usize = 0;
        while i < entries.len()
            invariant
                i <= entries@.len(),
                self.wf(),
                self.hashes() == rebuilt_hash_map(entries@.subrange(0, i as int)),
                self.objects() == rebuilt_storage_map(entries@.subrange(0, i as int)),
                self.counts() == rebuilt_counts(entries@.subrange(0, i as int)),
            decreases entries@.len() - i,
        {
            let e = &entries[i];
            proof {
                assert(entries@.subrange(0, i + 1).drop_last() == entries@.subrange(0, i as int));
            }
            self.hash_to_storage.insert(e.1.clone(), e.0.clone());
            self.storage_to_hash.insert(e.0.clone(), e.1.clone());
            self.ref_counts.insert(e.0.clone(), e.2);
            i = i + 1;
        }
        proof {
            assert(entries@.subrange(0, i as int) == entries@);
        }
        Ok(())
    }
}

} // verus!
