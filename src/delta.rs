use vstd::prelude::*;
use vstd::bytes::{
    spec_u32_from_le_bytes, spec_u32_to_le_bytes, spec_u64_from_le_bytes, spec_u64_to_le_bytes,
    u32_from_le_bytes, u32_to_le_bytes, u64_from_le_bytes, u64_to_le_bytes,
};
use vstd::slice::slice_subrange;
use crate::config::DeltaAlgorithm;
use crate::error::StowrError;
use crate::table::StrTable;
use crate::config::{lower_of, lowercase};
use crate::text::{owned, same_text};

verus! {

/// Opcode of a COPY instruction: `0x01 n:u32`.
pub const OP_COPY: u8 = 1;

/// Opcode of an INSERT instruction: `0x02 n:u32 payload`.
pub const OP_INSERT: u8 = 2;

/// Length of the blob header: magic, base length and target length.
pub const HEADER_LEN: usize = 30;

/// The 14 magic bytes `STOWR_DELTA_V1` that open every delta blob.
pub open spec fn magic() -> Seq<u8> {
    seq![83u8, 84u8, 79u8, 87u8, 82u8, 95u8, 68u8, 69u8, 76u8, 84u8, 65u8, 95u8, 86u8, 49u8]
}

/// Position `i` of the target starts (or continues) a run that agrees with the base.
pub open spec fn agrees_at(base: Seq<u8>, target: Seq<u8>, i: int) -> bool {
    0 <= i < target.len() && i < base.len() && target[i] == base[i]
}

/// Position `i` of the target lies inside the target and disagrees with the base
/// (or lies past the end of the base).
pub open spec fn differs_at(base: Seq<u8>, target: Seq<u8>, i: int) -> bool {
    0 <= i < target.len() && !(i < base.len() && target[i] == base[i])
}

/// Length of the maximal agreeing run that starts at `i`.
pub open spec fn same_run(base: Seq<u8>, target: Seq<u8>, i: int) -> nat
    decreases target.len() - i,
{
    if agrees_at(base, target, i) {
        1 + same_run(base, target, i + 1)
    } else {
        0
    }
}

/// Length of the maximal disagreeing run that starts at `i`.
pub open spec fn diff_run(base: Seq<u8>, target: Seq<u8>, i: int) -> nat
    decreases target.len() - i,
{
    if differs_at(base, target, i) {
        1 + diff_run(base, target, i + 1)
    } else {
        0
    }
}

/// The instruction stream that the greedy emitter produces from position `i` of the target.
pub open spec fn emitted_ops(base: Seq<u8>, target: Seq<u8>, i: int) -> Seq<u8>
    decreases target.len() - i,
{
    if i < 0 || i >= target.len() {
        Seq::empty()
    } else if agrees_at(base, target, i) {
        let n = same_run(base, target, i);
        proof {
            lemma_same_run_bound(base, target, i);
        }
        seq![OP_COPY] + spec_u32_to_le_bytes(n as u32) + emitted_ops(base, target, i + n)
    } else {
        let n = diff_run(base, target, i);
        proof {
            lemma_diff_run_bound(base, target, i);
        }
        seq![OP_INSERT] + spec_u32_to_le_bytes(n as u32) + target.subrange(i, i + n)
            + emitted_ops(base, target, i + n)
    }
}

/// The header of a blob: magic, then both lengths as little-endian u64.
pub open spec fn blob_header(base_len: u64, target_len: u64) -> Seq<u8> {
    magic() + spec_u64_to_le_bytes(base_len) + spec_u64_to_le_bytes(target_len)
}

/// The whole blob that the emitter produces for `base` and `target`.
pub open spec fn emitted_blob(base: Seq<u8>, target: Seq<u8>) -> Seq<u8> {
    blob_header(base.len() as u64, target.len() as u64) + emitted_ops(base, target, 0)
}

/// Runs the instruction stream `s` with base cursor `bpos` and output `out`;
/// `None` when an instruction is malformed or reads past its buffer.
pub open spec fn replay(base: Seq<u8>, s: Seq<u8>, bpos: int, out: Seq<u8>) -> Option<Seq<u8>>
    decreases s.len(),
{
    if s.len() == 0 {
        Some(out)
    } else if s.len() < 5 {
        None
    } else if s[0] == OP_COPY {
        let n = spec_u32_from_le_bytes(s.subrange(1, 5)) as int;
        if bpos + n > base.len() {
            None
        } else {
            replay(base, s.subrange(5, s.len() as int), bpos + n, out + base.subrange(bpos, bpos + n))
        }
    } else if s[0] == OP_INSERT {
        let n = spec_u32_from_le_bytes(s.subrange(1, 5)) as int;
        if 5 + n > s.len() {
            None
        } else {
            replay(base, s.subrange(5 + n, s.len() as int), bpos, out + s.subrange(5, 5 + n))
        }
    } else {
        None
    }
}

/// What applying the blob `d` to `base` yields: `None` stands for a corrupt blob.
pub open spec fn decoded_blob(base: Seq<u8>, d: Seq<u8>) -> Option<Seq<u8>> {
    if d.len() < HEADER_LEN {
        None
    } else if d.subrange(0, 14) != magic() {
        None
    } else if spec_u64_from_le_bytes(d.subrange(14, 22)) as int != base.len() {
        None
    } else {
        match replay(base, d.subrange(30, d.len() as int), 0, Seq::empty()) {
            Some(o) => if o.len() == spec_u64_from_le_bytes(d.subrange(22, 30)) as int {
                Some(o)
            } else {
                None
            },
            None => None,
        }
    }
}

/// Appends `src[from..to]` to `out`.
fn push_range(out: &mut Vec<u8>, src: &[u8], from: usize, to: usize)
    requires
        from <= to <= src@.len(),
    ensures
        final(out)@ == old(out)@ + src@.subrange(from as int, to as int),
{
    let mut k = from;
    while k < to
        invariant
            from <= k <= to <= src@.len(),
            out@ == old(out)@ + src@.subrange(from as int, k as int),
        decreases to - k,
    {
        out.push(src[k]);
        proof {
            assert(src@.subrange(from as int, k + 1) == src@.subrange(from as int, k as int).push(src@[k as int]));
        }
        k = k + 1;
    }
}

/// Appends every byte of `src` to `out`.
fn push_all(out: &mut Vec<u8>, src: &Vec<u8>)
    ensures
        final(out)@ == old(out)@ + src@,
{
    push_range(out, src.as_slice(), 0, src.len());
    proof {
        assert(src@.subrange(0, src@.len() as int) == src@);
    }
}

/// The magic bytes as a vector.
fn magic_bytes() -> (r: Vec<u8>)
    ensures
        r@ == magic(),
{
    let r: Vec<u8> = vec![83u8, 84u8, 79u8, 87u8, 82u8, 95u8, 68u8, 69u8, 76u8, 84u8, 65u8, 95u8, 86u8, 49u8];
    proof {
        assert(r@ == magic());
    }
    r
}

/// An agreeing run is non-empty where it starts, and stays inside both buffers.
pub proof fn lemma_same_run_bound(base: Seq<u8>, target: Seq<u8>, i: int)
    requires
        0 <= i,
    ensures
        agrees_at(base, target, i) ==> same_run(base, target, i) >= 1,
        i + same_run(base, target, i) <= target.len() || same_run(base, target, i) == 0,
        same_run(base, target, i) > 0 ==> i + same_run(base, target, i) <= base.len(),
    decreases target.len() - i,
{
    if agrees_at(base, target, i) {
        lemma_same_run_bound(base, target, i + 1);
    }
}

/// A disagreeing run is non-empty where it starts, and stays inside the target.
pub proof fn lemma_diff_run_bound(base: Seq<u8>, target: Seq<u8>, i: int)
    requires
        0 <= i,
    ensures
        differs_at(base, target, i) ==> diff_run(base, target, i) >= 1,
        i + diff_run(base, target, i) <= target.len() || diff_run(base, target, i) == 0,
    decreases target.len() - i,
{
    if differs_at(base, target, i) {
        lemma_diff_run_bound(base, target, i + 1);
    }
}

/// Emits the greedy COPY/INSERT blob that turns `base` into `target`.
#[verifier::rlimit(40)]
pub fn create_simple_delta(base: &[u8], target: &[u8]) -> (r: Vec<u8>)
    requires
        target@.len() <= u32::MAX,
    ensures
        r@ == emitted_blob(base@, target@),
{
    let b = Ghost(base@);
    let t = Ghost(target@);
    let mut delta = magic_bytes();
    let bl = u64_to_le_bytes(base.len() as u64);
    push_all(&mut delta, &bl);
    let tl = u64_to_le_bytes(target.len() as u64);
    push_all(&mut delta, &tl);
    let mut i: usize = 0;
    proof {
        assert(delta@ == blob_header(base@.len() as u64, target@.len() as u64));
    }
    while i < target.len()
        invariant
            b@ == base@,
            t@ == target@,
            i <= target@.len() <= u32::MAX,
            delta@ + emitted_ops(b@, t@, i as int) == emitted_blob(b@, t@),
        decreases target@.len() - i,
    {
        let start = i;
        proof {
            lemma_same_run_bound(b@, t@, start as int);
            lemma_diff_run_bound(b@, t@, start as int);
        }
        if i < base.len() && target[i] == base[i] {
            let mut same: usize = 0;
            while same < target.len() - i && same < base.len() - i && target[i + same] == base[i + same]
                invariant
                    i < base@.len(),
                    b@ == base@,
                    t@ == target@,
                    i + same <= target@.len(),
                    same_run(b@, t@, i as int) == same + same_run(b@, t@, (i + same) as int),
                decreases target@.len() - i - same,
            {
                same = same + 1;
            }
            let ops = u32_to_le_bytes(same as u32);
            let ghost before = delta@;
            delta.push(OP_COPY);
            push_all(&mut delta, &ops);
            proof {
                assert(same_run(b@, t@, (i + same) as int) == 0);
                assert(emitted_ops(b@, t@, i as int) == seq![OP_COPY] + spec_u32_to_le_bytes(same as u32)
                    + emitted_ops(b@, t@, (i + same) as int));
                assert(delta@ == before + (seq![OP_COPY] + spec_u32_to_le_bytes(same as u32)));
                assert(delta@ + emitted_ops(b@, t@, (i + same) as int)
                    =~= before + emitted_ops(b@, t@, i as int));
            }
            i = i + same;
        } else {
            while i < target.len() && (i >= base.len() || target[i] != base[i])
                invariant
                    b@ == base@,
                    t@ == target@,
                    start <= i <= target@.len(),
                    diff_run(b@, t@, start as int) == (i - start) + diff_run(b@, t@, i as int),
                decreases target@.len() - i,
            {
                i = i + 1;
            }
            let n = i - start;
            let ops = u32_to_le_bytes(n as u32);
            let ghost before = delta@;
            delta.push(OP_INSERT);
            push_all(&mut delta, &ops);
            push_range(&mut delta, target, start, i);
            proof {
                assert(diff_run(b@, t@, i as int) == 0);
                assert(emitted_ops(b@, t@, start as int) == seq![OP_INSERT] + spec_u32_to_le_bytes(n as u32)
                    + t@.subrange(start as int, i as int) + emitted_ops(b@, t@, i as int));
                assert(delta@ == before + (seq![OP_INSERT] + spec_u32_to_le_bytes(n as u32)
                    + t@.subrange(start as int, i as int)));
                assert(delta@ + emitted_ops(b@, t@, i as int)
                    =~= before + emitted_ops(b@, t@, start as int));
            }
        }
    }
    proof {
        assert(emitted_ops(b@, t@, i as int) == Seq::<u8>::empty());
        assert(delta@ + Seq::<u8>::empty() == delta@);
    }
    delta
}

/// Applies the blob `delta` to `base`: checks the header, runs the instructions and
/// checks the length of what they built.
pub fn apply_simple_delta(base: &[u8], delta: &[u8]) -> (r: Result<Vec<u8>, StowrError>)
    ensures
        match decoded_blob(base@, delta@) {
            Some(o) => r is Ok && r->Ok_0@ == o,
            None => r == Err::<Vec<u8>, StowrError>(StowrError::DeltaCorrupt),
        },
{
    if delta.len() < HEADER_LEN {
        return Err(StowrError::DeltaCorrupt);
    }
    let m = magic_bytes();
    let mut k: usize = 0;
    while k < 14
        invariant
            delta@.len() >= HEADER_LEN,
            m@ == magic(),
            k <= 14,
            forall|j: int| 0 <= j < k ==> delta@[j] == m@[j],
        decreases 14 - k,
    {
        if delta[k] != m[k] {
            proof {
                assert(delta@.subrange(0, 14)[k as int] != magic()[k as int]);
            }
            return Err(StowrError::DeltaCorrupt);
        }
        k = k + 1;
    }
    proof {
        assert(delta@.subrange(0, 14) =~= magic());
    }
    let base_len = u64_from_le_bytes(slice_subrange(delta, 14, 22));
    let target_len = u64_from_le_bytes(slice_subrange(delta, 22, 30));
    if base_len as usize != base.len() || base_len > usize::MAX as u64 {
        return Err(StowrError::DeltaCorrupt);
    }
    let ghost stream = delta@.subrange(30, delta@.len() as int);
    let mut result: Vec<u8> = Vec::new();
    let mut pos: usize = HEADER_LEN;
    let mut bpos: usize = 0;
    while pos < delta.len()
        invariant
            HEADER_LEN <= pos <= delta@.len(),
            bpos <= base@.len(),
            stream == delta@.subrange(30, delta@.len() as int),
            replay(base@, delta@.subrange(pos as int, delta@.len() as int), bpos as int, result@)
                == replay(base@, stream, 0, Seq::empty()),
        decreases delta@.len() - pos,
    {
        let ghost rest = delta@.subrange(pos as int, delta@.len() as int);
        if delta.len() - pos < 5 {
            return Err(StowrError::DeltaCorrupt);
        }
        let command = delta[pos];
        let n = u32_from_le_bytes(slice_subrange(delta, pos + 1, pos + 5)) as usize;
        proof {
            assert(rest.subrange(1, 5) =~= delta@.subrange(pos + 1, pos + 5));
        }
        if command == OP_COPY {
            if n > base.len() - bpos {
                return Err(StowrError::DeltaCorrupt);
            }
            push_range(&mut result, base, bpos, bpos + n);
            proof {
                assert(rest.subrange(5, rest.len() as int) =~= delta@.subrange(pos + 5, delta@.len() as int));
            }
            bpos = bpos + n;
            pos = pos + 5;
        } else if command == OP_INSERT {
            if n > delta.len() - pos - 5 {
                return Err(StowrError::DeltaCorrupt);
            }
            push_range(&mut result, delta, pos + 5, pos + 5 + n);
            proof {
                assert(rest.subrange(5, 5 + n) =~= delta@.subrange(pos + 5, pos + 5 + n));
                assert(rest.subrange(5 + n, rest.len() as int) =~= delta@.subrange(pos + 5 + n, delta@.len() as int));
            }
            pos = pos + 5 + n;
        } else {
            return Err(StowrError::DeltaCorrupt);
        }
    }
    proof {
        assert(delta@.subrange(pos as int, delta@.len() as int).len() == 0);
    }
    if result.len() as u64 != target_len {
        return Err(StowrError::DeltaCorrupt);
    }
    Ok(result)
}

/// Whether every COPY that the emitter writes from position `i` on, replayed with the
/// base cursor at `bpos`, reads exactly the target bytes that it stands for. The decoder
/// moves its base cursor only on COPY, so an INSERT followed by a COPY can read base
/// bytes other than those the emitter compared.
pub open spec fn copies_aligned(base: Seq<u8>, target: Seq<u8>, i: int, bpos: int) -> bool
    decreases target.len() - i,
{
    if i < 0 || i >= target.len() {
        true
    } else if agrees_at(base, target, i) {
        let n = same_run(base, target, i);
        proof {
            lemma_same_run_bound(base, target, i);
        }
        &&& bpos + n <= base.len()
        &&& base.subrange(bpos, bpos + n) == target.subrange(i, i + n)
        &&& copies_aligned(base, target, i + n, bpos + n)
    } else {
        let n = diff_run(base, target, i);
        proof {
            lemma_diff_run_bound(base, target, i);
        }
        copies_aligned(base, target, i + n, bpos)
    }
}

/// No position where target and base agree comes after one where they differ: the
/// changes all sit at the end of the target.
pub open spec fn changes_only_at_tail(base: Seq<u8>, target: Seq<u8>) -> bool {
    forall|j: int, k: int|
        0 <= j < k < target.len() && #[trigger] differs_at(base, target, j) ==> #[trigger] differs_at(base, target, k)
}

proof fn lemma_replay_emitted(base: Seq<u8>, target: Seq<u8>, i: int, bpos: int)
    requires
        0 <= i <= target.len() <= u32::MAX,
        0 <= bpos,
        copies_aligned(base, target, i, bpos),
    ensures
        replay(base, emitted_ops(base, target, i), bpos, target.subrange(0, i)) == Some(target),
    decreases target.len() - i,
{
    vstd::bytes::lemma_auto_spec_u32_to_from_le_bytes();
    let s = emitted_ops(base, target, i);
    if i == target.len() {
        assert(target.subrange(0, i) == target);
    } else if agrees_at(base, target, i) {
        lemma_same_run_bound(base, target, i);
        let n = same_run(base, target, i) as int;
        let rest = emitted_ops(base, target, i + n);
        let head = seq![OP_COPY] + spec_u32_to_le_bytes(n as u32);
        assert(s == head + rest);
        assert(s.subrange(1, 5) =~= spec_u32_to_le_bytes(n as u32));
        assert(s.subrange(5, s.len() as int) =~= rest);
        assert(target.subrange(0, i) + base.subrange(bpos, bpos + n) =~= target.subrange(0, i + n));
        lemma_replay_emitted(base, target, i + n, bpos + n);
    } else {
        lemma_diff_run_bound(base, target, i);
        let n = diff_run(base, target, i) as int;
        let rest = emitted_ops(base, target, i + n);
        let head = seq![OP_INSERT] + spec_u32_to_le_bytes(n as u32) + target.subrange(i, i + n);
        assert(s == head + rest);
        assert(s.subrange(1, 5) =~= spec_u32_to_le_bytes(n as u32));
        assert(s.subrange(5, 5 + n) =~= target.subrange(i, i + n));
        assert(s.subrange(5 + n, s.len() as int) =~= rest);
        assert(target.subrange(0, i) + target.subrange(i, i + n) =~= target.subrange(0, i + n));
        lemma_replay_emitted(base, target, i + n, bpos);
    }
}

/// Applying an emitted blob to its base gives back the target, whenever the copies of
/// the blob stay aligned with the target.
pub proof fn lemma_delta_round_trip(base: Seq<u8>, target: Seq<u8>)
    requires
        base.len() <= u64::MAX,
        target.len() <= u32::MAX,
        copies_aligned(base, target, 0, 0),
    ensures
        decoded_blob(base, emitted_blob(base, target)) == Some(target),
{
    vstd::bytes::lemma_auto_spec_u64_to_from_le_bytes();
    let d = emitted_blob(base, target);
    let ops = emitted_ops(base, target, 0);
    assert(d.subrange(0, 14) =~= magic());
    assert(d.subrange(14, 22) =~= spec_u64_to_le_bytes(base.len() as u64));
    assert(d.subrange(22, 30) =~= spec_u64_to_le_bytes(target.len() as u64));
    assert(d.subrange(30, d.len() as int) =~= ops);
    assert(target.subrange(0, 0) =~= Seq::<u8>::empty());
    lemma_replay_emitted(base, target, 0, 0);
}

proof fn lemma_replay_keeps_prefix(base: Seq<u8>, s: Seq<u8>, bpos: int, out: Seq<u8>)
    ensures
        replay(base, s, bpos, out) matches Some(o) ==> o.len() >= out.len() && o.subrange(0, out.len() as int) == out,
    decreases s.len(),
{
    if s.len() >= 5 {
        let n = spec_u32_from_le_bytes(s.subrange(1, 5)) as int;
        if s[0] == OP_COPY && bpos + n <= base.len() {
            let out2 = out + base.subrange(bpos, bpos + n);
            lemma_replay_keeps_prefix(base, s.subrange(5, s.len() as int), bpos + n, out2);
            if let Some(o) = replay(base, s, bpos, out) {
                assert(o.subrange(0, out.len() as int) =~= o.subrange(0, out2.len() as int).subrange(0, out.len() as int));
                assert(out2.subrange(0, out.len() as int) =~= out);
            }
        } else if s[0] == OP_INSERT && 5 + n <= s.len() {
            let out2 = out + s.subrange(5, 5 + n);
            lemma_replay_keeps_prefix(base, s.subrange(5 + n, s.len() as int), bpos, out2);
            if let Some(o) = replay(base, s, bpos, out) {
                assert(o.subrange(0, out.len() as int) =~= o.subrange(0, out2.len() as int).subrange(0, out.len() as int));
                assert(out2.subrange(0, out.len() as int) =~= out);
            }
        }
    }
}

proof fn lemma_replay_misaligned(base: Seq<u8>, target: Seq<u8>, i: int, bpos: int)
    requires
        0 <= i <= target.len() <= u32::MAX,
        0 <= bpos,
        !copies_aligned(base, target, i, bpos),
    ensures
        replay(base, emitted_ops(base, target, i), bpos, target.subrange(0, i)) != Some(target),
    decreases target.len() - i,
{
    vstd::bytes::lemma_auto_spec_u32_to_from_le_bytes();
    let s = emitted_ops(base, target, i);
    if agrees_at(base, target, i) {
        lemma_same_run_bound(base, target, i);
        let n = same_run(base, target, i) as int;
        let rest = emitted_ops(base, target, i + n);
        assert(s == seq![OP_COPY] + spec_u32_to_le_bytes(n as u32) + rest);
        assert(s.subrange(1, 5) =~= spec_u32_to_le_bytes(n as u32));
        assert(s.subrange(5, s.len() as int) =~= rest);
        if bpos + n <= base.len() {
            let out2 = target.subrange(0, i) + base.subrange(bpos, bpos + n);
            if base.subrange(bpos, bpos + n) == target.subrange(i, i + n) {
                assert(out2 =~= target.subrange(0, i + n));
                lemma_replay_misaligned(base, target, i + n, bpos + n);
            } else {
                lemma_replay_keeps_prefix(base, rest, bpos + n, out2);
                if replay(base, rest, bpos + n, out2) == Some(target) {
                    assert(target.subrange(0, i + n) == out2);
                    assert(out2.subrange(i, i + n) =~= base.subrange(bpos, bpos + n));
                    assert(target.subrange(0, i + n).subrange(i, i + n) =~= target.subrange(i, i + n));
                }
            }
        }
    } else if i < target.len() {
        lemma_diff_run_bound(base, target, i);
        let n = diff_run(base, target, i) as int;
        let rest = emitted_ops(base, target, i + n);
        assert(s == seq![OP_INSERT] + spec_u32_to_le_bytes(n as u32) + target.subrange(i, i + n) + rest);
        assert(s.subrange(1, 5) =~= spec_u32_to_le_bytes(n as u32));
        assert(s.subrange(5, 5 + n) =~= target.subrange(i, i + n));
        assert(s.subrange(5 + n, s.len() as int) =~= rest);
        assert(target.subrange(0, i) + target.subrange(i, i + n) =~= target.subrange(0, i + n));
        lemma_replay_misaligned(base, target, i + n, bpos);
    }
}

/// The round trip holds exactly when the copies stay aligned: for any other base and
/// target, applying the emitted blob does not give the target back.
pub proof fn lemma_delta_round_trip_exact(base: Seq<u8>, target: Seq<u8>)
    requires
        base.len() <= u64::MAX,
        target.len() <= u32::MAX,
    ensures
        decoded_blob(base, emitted_blob(base, target)) == Some(target) <==> copies_aligned(base, target, 0, 0),
{
    if copies_aligned(base, target, 0, 0) {
        lemma_delta_round_trip(base, target);
    } else {
        vstd::bytes::lemma_auto_spec_u64_to_from_le_bytes();
        let d = emitted_blob(base, target);
        let ops = emitted_ops(base, target, 0);
        assert(d.subrange(0, 14) =~= magic());
        assert(d.subrange(14, 22) =~= spec_u64_to_le_bytes(base.len() as u64));
        assert(d.subrange(22, 30) =~= spec_u64_to_le_bytes(target.len() as u64));
        assert(d.subrange(30, d.len() as int) =~= ops);
        assert(target.subrange(0, 0) =~= Seq::<u8>::empty());
        lemma_replay_misaligned(base, target, 0, 0);
    }
}

proof fn lemma_tail_changes_aligned(base: Seq<u8>, target: Seq<u8>, i: int)
    requires
        0 <= i <= target.len(),
        changes_only_at_tail(base, target),
        forall|j: int| 0 <= j < i ==> !#[trigger] differs_at(base, target, j),
    ensures
        copies_aligned(base, target, i, i),
    decreases target.len() - i,
{
    if i < target.len() {
        if agrees_at(base, target, i) {
            lemma_same_run_bound(base, target, i);
            let n = same_run(base, target, i);
            lemma_same_run_agrees(base, target, i);
            assert forall|j: int| 0 <= j < n implies #[trigger] base.subrange(i, i + n)[j] == target.subrange(i, i + n)[j] by {
                assert(agrees_at(base, target, i + j));
            }
            assert(base.subrange(i, i + n) =~= target.subrange(i, i + n));
            assert forall|j: int| 0 <= j < i + n implies !#[trigger] differs_at(base, target, j) by {
                if j >= i {
                    assert(agrees_at(base, target, j));
                }
            }
            lemma_tail_changes_aligned(base, target, i + n);
        } else {
            lemma_diff_run_bound(base, target, i);
            lemma_all_differ_aligned(base, target, i + diff_run(base, target, i), i);
        }
    }
}

proof fn lemma_same_run_agrees(base: Seq<u8>, target: Seq<u8>, i: int)
    requires
        0 <= i,
    ensures
        forall|j: int| i <= j < i + same_run(base, target, i) ==> #[trigger] agrees_at(base, target, j),
    decreases target.len() - i,
{
    if agrees_at(base, target, i) {
        lemma_same_run_agrees(base, target, i + 1);
    }
}

proof fn lemma_all_differ_aligned(base: Seq<u8>, target: Seq<u8>, i: int, bpos: int)
    requires
        0 < i <= target.len(),
        changes_only_at_tail(base, target),
        differs_at(base, target, i - 1),
    ensures
        copies_aligned(base, target, i, bpos),
    decreases target.len() - i,
{
    if i < target.len() {
        assert(differs_at(base, target, i));
        lemma_diff_run_bound(base, target, i);
        let n = diff_run(base, target, i);
        lemma_diff_run_differs(base, target, i);
        assert(differs_at(base, target, i + n - 1));
        lemma_all_differ_aligned(base, target, i + n, bpos);
    }
}

proof fn lemma_diff_run_differs(base: Seq<u8>, target: Seq<u8>, i: int)
    requires
        0 <= i,
    ensures
        forall|j: int| i <= j < i + diff_run(base, target, i) ==> #[trigger] differs_at(base, target, j),
    decreases target.len() - i,
{
    if differs_at(base, target, i) {
        lemma_diff_run_differs(base, target, i + 1);
    }
}

/// When the target changes the base only at its end (an append, or an edit of the last
/// bytes), the copies stay aligned and the round trip holds.
pub proof fn lemma_tail_changes_round_trip(base: Seq<u8>, target: Seq<u8>)
    requires
        base.len() <= u64::MAX,
        target.len() <= u32::MAX,
        changes_only_at_tail(base, target),
    ensures
        decoded_blob(base, emitted_blob(base, target)) == Some(target),
{
    lemma_tail_changes_aligned(base, target, 0);
    lemma_delta_round_trip(base, target);
}

proof fn lemma_replay_cut_emitted(base: Seq<u8>, target: Seq<u8>, i: int, bpos: int, out: Seq<u8>)
    requires
        0 <= bpos <= i < target.len() <= u32::MAX,
    ensures
        replay(base, emitted_ops(base, target, i).drop_last(), bpos, out) is None,
    decreases target.len() - i,
{
    vstd::bytes::lemma_auto_spec_u32_to_from_le_bytes();
    let s = emitted_ops(base, target, i);
    let c = s.drop_last();
    if agrees_at(base, target, i) {
        lemma_same_run_bound(base, target, i);
        let n = same_run(base, target, i) as int;
        let rest = emitted_ops(base, target, i + n);
        let head = seq![OP_COPY] + spec_u32_to_le_bytes(n as u32);
        assert(s == head + rest);
        if i + n < target.len() {
            assert(rest.len() > 0);
            assert(c =~= head + rest.drop_last());
            assert(c.subrange(1, 5) =~= spec_u32_to_le_bytes(n as u32));
            assert(c.subrange(5, c.len() as int) =~= rest.drop_last());
            lemma_replay_cut_emitted(base, target, i + n, bpos + n, out + base.subrange(bpos, bpos + n));
        } else {
            assert(rest.len() == 0);
            assert(c.len() == 4);
        }
    } else {
        lemma_diff_run_bound(base, target, i);
        let n = diff_run(base, target, i) as int;
        let rest = emitted_ops(base, target, i + n);
        let head = seq![OP_INSERT] + spec_u32_to_le_bytes(n as u32) + target.subrange(i, i + n);
        assert(s == head + rest);
        if i + n < target.len() {
            assert(rest.len() > 0);
            assert(c =~= head + rest.drop_last());
            assert(c.subrange(1, 5) =~= spec_u32_to_le_bytes(n as u32));
            assert(c.subrange(5 + n, c.len() as int) =~= rest.drop_last());
            lemma_replay_cut_emitted(base, target, i + n, bpos, out + c.subrange(5, 5 + n));
        } else {
            assert(rest.len() == 0);
            assert(c.len() == 4 + n);
            assert(c.subrange(1, 5) =~= spec_u32_to_le_bytes(n as u32));
        }
    }
}

/// A blob cut short by its last byte is always rejected as corrupt, never applied as a
/// shorter result.
pub proof fn lemma_truncated_blob_rejected(base: Seq<u8>, target: Seq<u8>)
    requires
        base.len() <= u64::MAX,
        target.len() <= u32::MAX,
    ensures
        decoded_blob(base, emitted_blob(base, target).drop_last()) is None,
{
    vstd::bytes::lemma_auto_spec_u64_to_from_le_bytes();
    let d = emitted_blob(base, target);
    let ops = emitted_ops(base, target, 0);
    assert(blob_header(base.len() as u64, target.len() as u64).len() == 30);
    if target.len() > 0 {
        assert(ops.len() > 0);
        let c = d.drop_last();
        assert(c.subrange(30, c.len() as int) =~= ops.drop_last());
        lemma_replay_cut_emitted(base, target, 0, 0, Seq::empty());
    } else {
        assert(d.len() == 30);
    }
}

proof fn lemma_emitted_ops_len(base: Seq<u8>, target: Seq<u8>, i: int)
    requires
        0 <= i <= target.len(),
    ensures
        emitted_ops(base, target, i).len() <= 6 * (target.len() - i),
    decreases target.len() - i,
{
    vstd::bytes::lemma_auto_spec_u32_to_from_le_bytes();
    if i < target.len() {
        if agrees_at(base, target, i) {
            lemma_same_run_bound(base, target, i);
            lemma_emitted_ops_len(base, target, i + same_run(base, target, i));
        } else {
            lemma_diff_run_bound(base, target, i);
            lemma_emitted_ops_len(base, target, i + diff_run(base, target, i));
        }
    }
}

/// An emitted blob is at most 30 bytes of header plus 6 bytes per target byte.
pub proof fn lemma_emitted_blob_len(base: Seq<u8>, target: Seq<u8>)
    ensures
        emitted_blob(base, target).len() <= 30 + 6 * target.len(),
{
    vstd::bytes::lemma_auto_spec_u64_to_from_le_bytes();
    lemma_emitted_ops_len(base, target, 0);
}

/// Inputs longer than this are not scored: the delta format counts runs in 32 bits.
pub const MAX_SCORED_LEN: usize = 0xffff_ffff;

/// A non-negative rational `num / den`: a similarity score or a threshold.
#[derive(Debug, Clone, Copy, PartialEq, Eq, Structural)]
pub struct Score {
    pub num: u64,
    pub den: u64,
}

impl Score {
    /// The denominator is positive.
    pub open spec fn wf(self) -> bool {
        self.den > 0
    }

    /// `self >= other` as rationals.
    pub open spec fn ge(self, other: Score) -> bool {
        self.num as int * other.den as int >= other.num as int * self.den as int
    }

    /// `self > other` as rationals.
    pub open spec fn gt(self, other: Score) -> bool {
        self.num as int * other.den as int > other.num as int * self.den as int
    }

    /// The score raised by one tenth.
    pub open spec fn plus_tenth(self) -> Score {
        Score { num: (10 * self.num + self.den) as u64, den: (10 * self.den) as u64 }
    }

    /// Whether `self >= other` as rationals.
    pub fn at_least(&self, other: &Score) -> (r: bool)
        ensures
            r == self.ge(*other),
    {
        let x = self.num as u128;
        let y = other.den as u128;
        let u = other.num as u128;
        let v = self.den as u128;
        proof {
            assert(x * y <= 0xffff_ffff_ffff_ffff * 0xffff_ffff_ffff_ffff) by (nonlinear_arith)
                requires x <= 0xffff_ffff_ffff_ffff, y <= 0xffff_ffff_ffff_ffff;
            assert(u * v <= 0xffff_ffff_ffff_ffff * 0xffff_ffff_ffff_ffff) by (nonlinear_arith)
                requires u <= 0xffff_ffff_ffff_ffff, v <= 0xffff_ffff_ffff_ffff;
        }
        x * y >= u * v
    }

    /// Whether `self > other` as rationals.
    pub fn exceeds(&self, other: &Score) -> (r: bool)
        ensures
            r == self.gt(*other),
    {
        let x = self.num as u128;
        let y = other.den as u128;
        let u = other.num as u128;
        let v = self.den as u128;
        proof {
            assert(x * y <= 0xffff_ffff_ffff_ffff * 0xffff_ffff_ffff_ffff) by (nonlinear_arith)
                requires x <= 0xffff_ffff_ffff_ffff, y <= 0xffff_ffff_ffff_ffff;
            assert(u * v <= 0xffff_ffff_ffff_ffff * 0xffff_ffff_ffff_ffff) by (nonlinear_arith)
                requires u <= 0xffff_ffff_ffff_ffff, v <= 0xffff_ffff_ffff_ffff;
        }
        x * y > u * v
    }

    /// The score with the bonus of one tenth that a base of the same file type earns.
    pub fn with_type_bonus(&self) -> (r: Score)
        requires
            self.num <= 0x1000_0000_0000_0000,
            self.den <= 0x1000_0000_0000_0000,
        ensures
            r == self.plus_tenth(),
            r.num as int * self.den as int == (10 * self.num + self.den) * self.den,
    {
        Score { num: 10 * self.num + self.den, den: 10 * self.den }
    }
}

/// Number of `k < n` with `a[ai + k] == b[bi + k]`.
pub open spec fn count_equal(a: Seq<u8>, b: Seq<u8>, ai: int, bi: int, n: nat) -> nat
    decreases n,
{
    if n == 0 {
        0
    } else {
        count_equal(a, b, ai, bi, (n - 1) as nat) + if a[ai + n - 1] == b[bi + n - 1] {
            1nat
        } else {
            0nat
        }
    }
}

/// Largest number of agreeing positions between the window of `a` at `i` and any of the
/// first `m` windows of `b`, all of width `w`.
pub open spec fn best_overlap(a: Seq<u8>, b: Seq<u8>, i: int, w: nat, m: nat) -> nat
    decreases m,
{
    if m == 0 {
        0
    } else {
        let prev = best_overlap(a, b, i, w, (m - 1) as nat);
        let here = count_equal(a, b, i, m - 1, w);
        if here > prev {
            here
        } else {
            prev
        }
    }
}

/// Credit, in units of `1/w`, of the window of `a` at `i`: a window found whole in `b`
/// earns `w` (the largest overlap there is); otherwise the best partial overlap earns
/// its count when it exceeds `w/2`, and nothing else.
pub open spec fn window_credit(a: Seq<u8>, b: Seq<u8>, i: int, w: nat) -> nat {
    let best = best_overlap(a, b, i, w, (b.len() - w + 1) as nat);
    if best > w / 2 {
        best
    } else {
        0
    }
}

/// Sum of the credits of the first `k` windows of `a`.
pub open spec fn total_credit(a: Seq<u8>, b: Seq<u8>, w: nat, k: nat) -> nat
    decreases k,
{
    if k == 0 {
        0
    } else {
        total_credit(a, b, w, (k - 1) as nat) + window_credit(a, b, k - 1, w)
    }
}

/// The smaller of two naturals.
pub open spec fn min_nat(x: nat, y: nat) -> nat {
    if x <= y {
        x
    } else {
        y
    }
}

/// The larger of two naturals.
pub open spec fn max_nat(x: nat, y: nat) -> nat {
    if x >= y {
        x
    } else {
        y
    }
}

/// Window width of the sliding-window score.
pub open spec fn window_width(a: Seq<u8>, b: Seq<u8>) -> nat {
    min_nat(8, min_nat(a.len(), b.len()) / 4)
}

/// Numerator and denominator of the similarity of `a` to `b`.
pub open spec fn similarity_ratio(a: Seq<u8>, b: Seq<u8>) -> (nat, nat) {
    if a.len() == 0 && b.len() == 0 {
        (1, 1)
    } else if a.len() == 0 || b.len() == 0 {
        (0, 1)
    } else if a.len() <= 16 || b.len() <= 16 {
        (count_equal(a, b, 0, 0, min_nat(a.len(), b.len())), max_nat(a.len(), b.len()))
    } else {
        let w = window_width(a, b);
        let windows = (a.len() - w + 1) as nat;
        (total_credit(a, b, w, windows), w * windows)
    }
}

proof fn lemma_count_equal_bound(a: Seq<u8>, b: Seq<u8>, ai: int, bi: int, n: nat)
    ensures
        count_equal(a, b, ai, bi, n) <= n,
    decreases n,
{
    if n > 0 {
        lemma_count_equal_bound(a, b, ai, bi, (n - 1) as nat);
    }
}

proof fn lemma_best_overlap_full(a: Seq<u8>, b: Seq<u8>, i: int, w: nat, m: nat, m2: nat)
    requires
        m <= m2,
        best_overlap(a, b, i, w, m) == w,
    ensures
        best_overlap(a, b, i, w, m2) == w,
    decreases m2,
{
    if m2 > m {
        lemma_best_overlap_full(a, b, i, w, m, (m2 - 1) as nat);
        lemma_count_equal_bound(a, b, i, m2 - 1, w);
    }
}

/// Counts the agreeing positions of `a[ai..ai + n]` and `b[bi..bi + n]`.
fn count_equal_bytes(a: &[u8], b: &[u8], ai: usize, bi: usize, n: usize) -> (r: usize)
    requires
        a@.len() <= MAX_SCORED_LEN,
        b@.len() <= MAX_SCORED_LEN,
        ai + n <= a@.len(),
        bi + n <= b@.len(),
    ensures
        r == count_equal(a@, b@, ai as int, bi as int, n as nat),
{
    let mut c: usize = 0;
    let mut k: usize = 0;
    while k < n
        invariant
            k <= n,
            a@.len() <= MAX_SCORED_LEN,
            b@.len() <= MAX_SCORED_LEN,
            ai + n <= a@.len(),
            bi + n <= b@.len(),
            c == count_equal(a@, b@, ai as int, bi as int, k as nat),
            c <= k,
        decreases n - k,
    {
        if a[ai + k] == b[bi + k] {
            c = c + 1;
        }
        k = k + 1;
    }
    c
}

/// The credit of the window of `a` at `i`, of width `w`.
fn window_credit_of(a: &[u8], b: &[u8], i: usize, w: usize) -> (r: usize)
    requires
        a@.len() <= MAX_SCORED_LEN,
        b@.len() <= MAX_SCORED_LEN,
        0 < w <= b@.len(),
        i + w <= a@.len(),
    ensures
        r == window_credit(a@, b@, i as int, w as nat),
        r <= w,
{
    let m = b.len() - w + 1;
    let mut best: usize = 0;
    let mut j: usize = 0;
    while j < m
        invariant
            0 < w <= b@.len(),
            i + w <= a@.len(),
            a@.len() <= MAX_SCORED_LEN,
            b@.len() <= MAX_SCORED_LEN,
            m == b@.len() - w + 1,
            j <= m,
            best == best_overlap(a@, b@, i as int, w as nat, j as nat),
            best <= w,
        decreases m - j,
    {
        let here = count_equal_bytes(a, b, i, j, w);
        proof {
            lemma_count_equal_bound(a@, b@, i as int, j as int, w as nat);
        }
        if here > best {
            best = here;
        }
        j = j + 1;
        if best == w {
            proof {
                lemma_best_overlap_full(a@, b@, i as int, w as nat, j as nat, m as nat);
            }
            return w;
        }
    }
    if best > w / 2 {
        best
    } else {
        0
    }
}

/// Similarity of `a` to `b` (an exact rational in `[0, 1]`): 1 for two empty inputs,
/// 0 when only one is empty, position-wise agreement over the longer length when
/// either has at most 16 bytes, and the sliding-window score otherwise.
pub fn calculate_similarity(a: &[u8], b: &[u8]) -> (r: Score)
    requires
        a@.len() <= MAX_SCORED_LEN,
        b@.len() <= MAX_SCORED_LEN,
    ensures
        r.wf(),
        r.num as int == similarity_ratio(a@, b@).0,
        r.den as int == similarity_ratio(a@, b@).1,
        r.num <= r.den,
        r.den <= 8 * MAX_SCORED_LEN,
{
    if a.len() == 0 && b.len() == 0 {
        return Score { num: 1, den: 1 };
    }
    if a.len() == 0 || b.len() == 0 {
        return Score { num: 0, den: 1 };
    }
    let min_len = if a.len() <= b.len() { a.len() } else { b.len() };
    if a.len() <= 16 || b.len() <= 16 {
        return calculate_byte_similarity(a, b);
    }
    let quarter = min_len / 4;
    let w: usize = if quarter < 8 { quarter } else { 8 };
    let windows = a.len() - w + 1;
    let mut total: u64 = 0;
    let mut i: usize = 0;
    while i < windows
        invariant
            a@.len() > 16,
            b@.len() > 16,
            a@.len() <= MAX_SCORED_LEN,
            b@.len() <= MAX_SCORED_LEN,
            w == window_width(a@, b@),
            4 <= w <= 8,
            windows == a@.len() - w + 1,
            i <= windows,
            total == total_credit(a@, b@, w as nat, i as nat),
            total <= w * i,
        decreases windows - i,
    {
        let c = window_credit_of(a, b, i, w);
        proof {
            assert(w * (i + 1) == w * i + w) by (nonlinear_arith);
            assert(w * (i + 1) <= 8 * MAX_SCORED_LEN) by (nonlinear_arith)
                requires w <= 8, i + 1 <= MAX_SCORED_LEN;
        }
        total = total + c as u64;
        i = i + 1;
    }
    proof {
        assert(w * windows <= 8 * MAX_SCORED_LEN) by (nonlinear_arith)
            requires w <= 8, windows <= MAX_SCORED_LEN;
        assert(w * windows > 0) by (nonlinear_arith)
            requires w >= 4, windows >= 1;
    }
    Score { num: total, den: (w as u64) * (windows as u64) }
}

/// Position-wise agreement of `a` and `b` over the shorter length, divided by the longer.
fn calculate_byte_similarity(a: &[u8], b: &[u8]) -> (r: Score)
    requires
        a@.len() > 0,
        b@.len() > 0,
        a@.len() <= MAX_SCORED_LEN,
        b@.len() <= MAX_SCORED_LEN,
    ensures
        r.wf(),
        r.num as int == count_equal(a@, b@, 0, 0, min_nat(a@.len(), b@.len())),
        r.den as int == max_nat(a@.len(), b@.len()),
        r.num <= r.den,
{
    let min_len = if a.len() <= b.len() { a.len() } else { b.len() };
    let max_len = if a.len() >= b.len() { a.len() } else { b.len() };
    let matches = count_equal_bytes(a, b, 0, 0, min_len);
    proof {
        lemma_count_equal_bound(a@, b@, 0, 0, min_len as nat);
    }
    Score { num: matches as u64, den: max_len as u64 }
}

/// The delta facts of an entry.
#[derive(Debug, Clone)]
pub struct DeltaInfo {
    pub is_delta: bool,
    pub base_storage_id: Option<String>,
    pub similarity_score: Option<Score>,
    pub delta_algorithm: DeltaAlgorithm,
    pub original_size: u64,
    pub delta_size: u64,
}

/// Facts about a base held in the delta pool.
#[derive(Debug, Clone)]
pub struct BaseFileInfo {
    pub size: u64,
    pub file_type: String,
    pub created_at: u64,
    pub reference_count: u32,
}

/// The best base found for new content.
#[derive(Debug, Clone)]
pub struct SimilarityMatch {
    pub base_storage_id: String,
    pub similarity_score: Score,
}

/// Totals over the delta pool.
#[derive(Debug, Clone, Copy, PartialEq, Eq, Structural)]
pub struct DeltaStats {
    pub total_base_files: u64,
    pub total_delta_files: u128,
}

/// What `Path::extension` gives for a path: the text after the last `.` of the file
/// name, if it has one.
pub uninterp spec fn extension_of(path: Seq<char>) -> Option<Seq<char>>;

/// Relies on `std::path::Path::extension`: the extension of the path's file name.
#[verifier::external_body]
fn path_extension(path: &str) -> (r: Option<String>)
    ensures
        match extension_of(path@) {
            Some(e) => r matches Some(s) && s@ == e,
            None => r is None,
        },
{
    match std::path::Path::new(path).extension() {
        Some(e) => Some(e.to_string_lossy().into_owned()),
        None => None,
    }
}

/// Relies on `std::time::SystemTime::now`: seconds since the Unix epoch (0 before it).
/// Nothing is promised of its value.
#[verifier::external_body]
fn unix_seconds_now() -> (r: u64) {
    match std::time::SystemTime::now().duration_since(std::time::UNIX_EPOCH) {
        Ok(d) => d.as_secs(),
        Err(_) => 0,
    }
}

/// The file-type tag of a path: its extension lowercased, or `unknown`.
pub open spec fn file_type_of(path: Seq<char>) -> Seq<char> {
    match extension_of(path) {
        Some(e) => lower_of(e),
        None => lower_of("unknown"@),
    }
}

/// A score raised by the type bonus when `same_type` holds.
pub open spec fn adjusted(s: Score, same_type: bool) -> Score {
    if same_type {
        s.plus_tenth()
    } else {
        s
    }
}

/// Similarity of `a` to `b` as a score.
pub open spec fn similarity_score(a: Seq<u8>, b: Seq<u8>) -> Score {
    Score { num: similarity_ratio(a, b).0 as u64, den: similarity_ratio(a, b).1 as u64 }
}

/// A pool of base contents with their facts, and the settings for choosing a base.
pub struct DeltaStorage {
    pub base_files: StrTable<Vec<u8>>,
    pub similarity_threshold: Score,
    pub delta_algorithm: DeltaAlgorithm,
    pub base_file_info: StrTable<BaseFileInfo>,
}

impl DeltaStorage {
    /// Distinct keys, a valid threshold, and bases short enough to score.
    pub open spec fn wf(&self) -> bool {
        &&& self.base_files.wf()
        &&& self.base_file_info.wf()
        &&& self.similarity_threshold.wf()
        &&& forall|i: int| 0 <= i < self.base_files.entries@.len() ==> (#[trigger] self.base_files.entries@[i]).1@.len() <= MAX_SCORED_LEN
    }

    /// The adjusted score of the pool entry at `i` for `data` of type `file_type`, when
    /// that entry has facts recorded.
    pub open spec fn candidate(&self, i: int, data: Seq<u8>, file_type: Seq<char>) -> Option<Score> {
        let id = self.base_files.entries@[i].0@;
        match self.base_file_info.view().get(id) {
            Some(info) => Some(adjusted(similarity_score(data, self.base_files.entries@[i].1@), info.file_type@ == file_type)),
            None => None,
        }
    }

    /// An empty pool.
    pub fn new(similarity_threshold: Score, delta_algorithm: DeltaAlgorithm) -> (r: Self)
        requires
            similarity_threshold.wf(),
        ensures
            r.wf(),
            r.base_files.view() == Map::<Seq<char>, Vec<u8>>::empty(),
            r.similarity_threshold == similarity_threshold,
            r.delta_algorithm == delta_algorithm,
    {
        DeltaStorage {
            base_files: StrTable::new(),
            similarity_threshold,
            delta_algorithm,
            base_file_info: StrTable::new(),
        }
    }

    /// Similarity of `a` to `b`.
    pub fn calculate_similarity(&self, a: &[u8], b: &[u8]) -> (r: Score)
        requires
            a@.len() <= MAX_SCORED_LEN,
            b@.len() <= MAX_SCORED_LEN,
        ensures
            r == similarity_score(a@, b@),
            r.wf(),
            r.num <= r.den,
    {
        calculate_similarity(a, b)
    }

    /// The pool entry with the highest adjusted score for `data`, among those that score at
    /// least the threshold (the first of equals wins).
    pub fn find_best_base(&self, data: &[u8], file_type: &str) -> (r: Option<SimilarityMatch>)
        requires
            self.wf(),
            data@.len() <= MAX_SCORED_LEN,
        ensures
            match r {
                Some(m) => exists|i: int| 0 <= i < self.base_files.entries@.len()
                    && #[trigger] self.base_files.entries@[i].0@ == m.base_storage_id@
                    && self.candidate(i, data@, file_type@) == Some(m.similarity_score)
                    && m.similarity_score.ge(self.similarity_threshold)
                    && forall|j: int| 0 <= j < self.base_files.entries@.len()
                        && #[trigger] self.candidate(j, data@, file_type@) is Some
                        ==> m.similarity_score.ge(self.candidate(j, data@, file_type@)->Some_0),
                None => forall|j: int| 0 <= j < self.base_files.entries@.len()
                    ==> match #[trigger] self.candidate(j, data@, file_type@) {
                        Some(s) => !s.ge(self.similarity_threshold),
                        None => true,
                    },
            },
    {
        let mut best: Option<SimilarityMatch> = None;
        let mut best_score = Score { num: 0, den: 1 };
        let n = self.base_files.entries.len();
        let mut i: usize = 0;
        while i < n
            invariant
                self.wf(),
                data@.len() <= MAX_SCORED_LEN,
                n == self.base_files.entries@.len(),
                i <= n,
                best_score.wf(),
                best_score.num <= 2 * best_score.den,
                best_score.den <= 80 * MAX_SCORED_LEN,
                best is None ==> best_score == (Score { num: 0, den: 1 }),
                best is None ==> forall|j: int| 0 <= j < i ==> match #[trigger] self.candidate(j, data@, file_type@) {
                    Some(s) => !s.ge(self.similarity_threshold),
                    None => true,
                },
                best matches Some(m) ==> m.similarity_score == best_score,
                best matches Some(m) ==> m.similarity_score.ge(self.similarity_threshold),
                best matches Some(m) ==> exists|k: int| 0 <= k < i && #[trigger] self.base_files.entries@[k].0@ == m.base_storage_id@
                        && self.candidate(k, data@, file_type@) == Some(m.similarity_score),
                best is Some ==> forall|j: int| 0 <= j < i && #[trigger] self.candidate(j, data@, file_type@) is Some
                    ==> best_score.ge(self.candidate(j, data@, file_type@)->Some_0),
                forall|j: int| 0 <= j < i && #[trigger] self.candidate(j, data@, file_type@) is Some
                    ==> self.candidate(j, data@, file_type@)->Some_0.wf(),
            decreases n - i,
        {
            let id = &self.base_files.entries[i].0;
            let base = &self.base_files.entries[i].1;
            match self.base_file_info.get(id.as_str()) {
                Some(info) => {
                    let raw = calculate_similarity(data, base.as_slice());
                    let same = same_text(info.file_type.as_str(), file_type);
                    let score = if same { raw.with_type_bonus() } else { raw };
                    proof {
                        assert(self.base_files.entries@[i as int].1@.len() <= MAX_SCORED_LEN);
                        assert(self.candidate(i as int, data@, file_type@) == Some(score));
                    }
                    let better = match &best {
                        Some(_) => score.exceeds(&best_score),
                        None => true,
                    };
                    if better && score.at_least(&self.similarity_threshold) {
                        proof {
                            assert forall|j: int| 0 <= j < i + 1 && #[trigger] self.candidate(j, data@, file_type@) is Some
                                implies score.ge(self.candidate(j, data@, file_type@)->Some_0) by {
                                if j < i {
                                    let cj = self.candidate(j, data@, file_type@)->Some_0;
                                    if best is Some {
                                        lemma_ge_trans(score, best_score, cj);
                                    } else {
                                        assert(!cj.ge(self.similarity_threshold));
                                        lemma_below_threshold(cj, score, self.similarity_threshold);
                                    }
                                }
                            }
                        }
                        best = Some(SimilarityMatch { base_storage_id: id.clone(), similarity_score: score });
                        best_score = score;
                        proof {
                            assert(self.base_files.entries@[i as int].0@ == id@);
                            assert(best->Some_0.base_storage_id@ == id@);
                            assert(self.candidate(i as int, data@, file_type@) == Some(score));
                        }
                    } else {
                        proof {
                            if best is Some {
                                lemma_not_gt_ge(score, best_score);
                                lemma_below_threshold(score, best_score, self.similarity_threshold);
                            }
                        }
                    }
                },
                None => {
                    proof {
                        assert(self.candidate(i as int, data@, file_type@) is None);
                    }
                },
            }
            i = i + 1;
        }
        best
    }

    /// The greedy simple delta of `target` against `base`; the other algorithms are not
    /// implemented.
    pub fn create_delta(&self, base: &[u8], target: &[u8]) -> (r: Result<Vec<u8>, StowrError>)
        requires
            target@.len() <= u32::MAX,
        ensures
            match self.delta_algorithm {
                DeltaAlgorithm::Simple => r is Ok && r->Ok_0@ == emitted_blob(base@, target@),
                _ => r == Err::<Vec<u8>, StowrError>(StowrError::NotImplemented),
            },
    {
        match self.delta_algorithm {
            DeltaAlgorithm::Simple => Ok(create_simple_delta(base, target)),
            DeltaAlgorithm::XDelta => Err(StowrError::NotImplemented),
            DeltaAlgorithm::BsDiff => Err(StowrError::NotImplemented),
        }
    }

    /// Rebuilds a target from its base and a simple delta blob.
    pub fn apply_delta(&self, base: &[u8], delta: &[u8]) -> (r: Result<Vec<u8>, StowrError>)
        ensures
            match decoded_blob(base@, delta@) {
                Some(o) => r is Ok && r->Ok_0@ == o,
                None => r == Err::<Vec<u8>, StowrError>(StowrError::DeltaCorrupt),
            },
    {
        apply_simple_delta(base, delta)
    }

    /// Adds (or replaces) a base in the pool, with no references yet.
    pub fn add_base_file(&mut self, storage_id: String, data: Vec<u8>, file_type: String)
        requires
            old(self).wf(),
            data@.len() <= MAX_SCORED_LEN,
        ensures
            final(self).wf(),
            final(self).base_files.view() == old(self).base_files.view().insert(storage_id@, data),
            final(self).base_file_info.view().contains_key(storage_id@),
            final(self).base_file_info.view()[storage_id@].size == data@.len(),
            final(self).base_file_info.view()[storage_id@].file_type == file_type,
            final(self).base_file_info.view()[storage_id@].reference_count == 0,
            final(self).similarity_threshold == old(self).similarity_threshold,
            final(self).delta_algorithm == old(self).delta_algorithm,
    {
        let info = BaseFileInfo {
            size: data.len() as u64,
            file_type,
            created_at: unix_seconds_now(),
            reference_count: 0,
        };
        let ghost old_entries = self.base_files.entries@;
        self.base_files.insert(storage_id.clone(), data);
        proof {
            assert forall|i: int| 0 <= i < self.base_files.entries@.len() implies (#[trigger] self.base_files.entries@[i]).1@.len() <= MAX_SCORED_LEN by {
                self.base_files.lemma_view_at(i);
                let k = self.base_files.entries@[i].0@;
                if k != storage_id@ {
                    let j = choose|j: int| 0 <= j < old_entries.len() && #[trigger] old_entries[j].0@ == k;
                    old(self).base_files.lemma_view_at(j);
                }
            }
        }
        self.base_file_info.insert(storage_id, info);
    }

    /// Drops a base that nothing references; returns whether it is gone.
    pub fn remove_base_file(&mut self, storage_id: &str) -> (r: bool)
        requires
            old(self).wf(),
        ensures
            final(self).wf(),
            match old(self).base_file_info.view().get(storage_id@) {
                Some(info) => if info.reference_count == 0 {
                    r && final(self).base_files.view() == old(self).base_files.view().remove(storage_id@)
                        && final(self).base_file_info.view() == old(self).base_file_info.view().remove(storage_id@)
                } else {
                    !r && final(self).base_files.view() == old(self).base_files.view()
                        && final(self).base_file_info.view() == old(self).base_file_info.view()
                },
                None => r && final(self).base_files.view() == old(self).base_files.view().remove(storage_id@)
                    && final(self).base_file_info.view() == old(self).base_file_info.view(),
            },
            final(self).similarity_threshold == old(self).similarity_threshold,
    {
        let refs: Option<u32> = match self.base_file_info.get(storage_id) {
            Some(info) => Some(info.reference_count),
            None => None,
        };
        match refs {
            Some(c) => {
                if c == 0 {
                    self.remove_base_data(storage_id);
                    self.base_file_info.remove(storage_id);
                    true
                } else {
                    false
                }
            },
            None => {
                self.remove_base_data(storage_id);
                true
            },
        }
    }

    fn remove_base_data(&mut self, storage_id: &str)
        requires
            old(self).wf(),
        ensures
            final(self).wf(),
            final(self).base_files.view() == old(self).base_files.view().remove(storage_id@),
            final(self).base_file_info == old(self).base_file_info,
            final(self).similarity_threshold == old(self).similarity_threshold,
            final(self).delta_algorithm == old(self).delta_algorithm,
    {
        let ghost old_entries = self.base_files.entries@;
        self.base_files.remove(storage_id);
        proof {
            assert forall|i: int| 0 <= i < self.base_files.entries@.len() implies (#[trigger] self.base_files.entries@[i]).1@.len() <= MAX_SCORED_LEN by {
                self.base_files.lemma_view_at(i);
                let k = self.base_files.entries@[i].0@;
                let j = choose|j: int| 0 <= j < old_entries.len() && #[trigger] old_entries[j].0@ == k;
                old(self).base_files.lemma_view_at(j);
            }
        }
    }

    /// Counts one more delta against the base (saturating); unknown ids are ignored.
    pub fn increment_reference(&mut self, storage_id: &str)
        requires
            old(self).wf(),
        ensures
            final(self).wf(),
            final(self).base_files == old(self).base_files,
            final(self).base_file_info.view().dom() == old(self).base_file_info.view().dom(),
            old(self).base_file_info.view().contains_key(storage_id@) ==> final(self).base_file_info.view()[storage_id@].reference_count
                == bumped_count(old(self).base_file_info.view()[storage_id@].reference_count),
    {
        match self.base_file_info.remove(storage_id) {
            Some(mut info) => {
                if info.reference_count < u32::MAX {
                    info.reference_count = info.reference_count + 1;
                }
                self.base_file_info.insert(owned(storage_id), info);
                proof {
                    assert(self.base_file_info.view().dom() =~= old(self).base_file_info.view().dom());
                }
            },
            None => {},
        }
    }

    /// Counts one delta fewer against the base (not below zero); returns whether the base
    /// is now unreferenced (true for an unknown id).
    pub fn decrement_reference(&mut self, storage_id: &str) -> (r: bool)
        requires
            old(self).wf(),
        ensures
            final(self).wf(),
            final(self).base_files == old(self).base_files,
            match old(self).base_file_info.view().get(storage_id@) {
                Some(info) => {
                    let c = if info.reference_count > 0 { (info.reference_count - 1) as u32 } else { 0u32 };
                    &&& final(self).base_file_info.view().contains_key(storage_id@)
                    &&& final(self).base_file_info.view()[storage_id@].reference_count == c
                    &&& r == (c == 0)
                },
                None => r && final(self).base_file_info.view() == old(self).base_file_info.view(),
            },
    {
        match self.base_file_info.remove(storage_id) {
            Some(mut info) => {
                if info.reference_count > 0 {
                    info.reference_count = info.reference_count - 1;
                }
                let zero = info.reference_count == 0;
                self.base_file_info.insert(owned(storage_id), info);
                zero
            },
            None => true,
        }
    }

    /// The content of a base in the pool.
    pub fn get_base_file_data(&self, storage_id: &str) -> (r: Option<&Vec<u8>>)
        requires
            self.wf(),
        ensures
            match self.base_files.view().get(storage_id@) {
                Some(v) => r == Some(&v),
                None => r is None,
            },
    {
        self.base_files.get(storage_id)
    }

    /// Bases in the pool and the deltas counted against them.
    pub fn get_stats(&self) -> (r: DeltaStats)
        requires
            self.wf(),
        ensures
            r.total_base_files == self.base_files.view().len(),
            r.total_delta_files == info_ref_sum(self.base_file_info.entries@),
    {
        let mut total: u128 = 0;
        let n = self.base_file_info.entries.len();
        let mut i: usize = 0;
        while i < n
            invariant
                n == self.base_file_info.entries@.len(),
                i <= n,
                total == info_ref_sum(self.base_file_info.entries@.subrange(0, i as int)),
                total <= i * 0xffff_ffffu128,
            decreases n - i,
        {
            proof {
                assert(self.base_file_info.entries@.subrange(0, i + 1).drop_last() == self.base_file_info.entries@.subrange(0, i as int));
                assert((i + 1) * 0xffff_ffffu128 == i * 0xffff_ffffu128 + 0xffff_ffffu128) by (nonlinear_arith);
                assert(i * 0xffff_ffffu128 <= 0xffff_ffff_ffff_ffff * 0xffff_ffffu128) by (nonlinear_arith)
                    requires i <= 0xffff_ffff_ffff_ffffu128;
            }
            total = total + self.base_file_info.entries[i].1.reference_count as u128;
            i = i + 1;
        }
        proof {
            assert(self.base_file_info.entries@.subrange(0, n as int) == self.base_file_info.entries@);
        }
        DeltaStats { total_base_files: self.base_files.len() as u64, total_delta_files: total }
    }

    /// The file-type tag of `path`: its extension lowercased, or `unknown`.
    pub fn infer_file_type(path: &str) -> (r: String)
        ensures
            r@ == file_type_of(path@),
    {
        match path_extension(path) {
            Some(e) => lowercase(e.as_str()),
            None => lowercase("unknown"),
        }
    }
}

/// A count raised by one, saturating.
pub open spec fn bumped_count(c: u32) -> u32 {
    if c < u32::MAX {
        (c + 1) as u32
    } else {
        c
    }
}

/// Sum of the reference counts of the pool's bases.
pub open spec fn info_ref_sum(s: Seq<(String, BaseFileInfo)>) -> nat
    decreases s.len(),
{
    if s.len() == 0 {
        0
    } else {
        info_ref_sum(s.drop_last()) + s.last().1.reference_count as nat
    }
}

/// `>=` on scores is transitive.
pub proof fn lemma_ge_chain(a: Score, b: Score, c: Score)
    requires
        a.wf(),
        b.wf(),
        c.wf(),
        a.ge(b),
        b.ge(c),
    ensures
        a.ge(c),
{
    assert(a.num * c.den * b.den >= c.num * a.den * b.den) by (nonlinear_arith)
        requires a.num * b.den >= b.num * a.den, b.num * c.den >= c.num * b.den, a.den > 0, b.den > 0, c.den > 0,
            a.num >= 0, b.num >= 0, c.num >= 0;
    assert(a.num * c.den >= c.num * a.den) by (nonlinear_arith)
        requires a.num * c.den * b.den >= c.num * a.den * b.den, b.den > 0;
}

/// `>` then `>=` on scores gives `>=`.
pub proof fn lemma_ge_trans(a: Score, b: Score, c: Score)
    requires
        a.wf(),
        b.wf(),
        c.wf(),
        a.gt(b),
        b.ge(c),
    ensures
        a.ge(c),
{
    assert(a.num * c.den * b.den >= c.num * a.den * b.den) by (nonlinear_arith)
        requires a.num * b.den > b.num * a.den, b.num * c.den >= c.num * b.den, a.den > 0, b.den > 0, c.den > 0;
    assert(a.num * c.den >= c.num * a.den) by (nonlinear_arith)
        requires a.num * c.den * b.den >= c.num * a.den * b.den, b.den > 0;
}

/// Scores are totally ordered: not above means at most.
pub proof fn lemma_not_gt_ge(a: Score, b: Score)
    requires
        a.wf(),
        b.wf(),
    ensures
        !a.gt(b) ==> b.ge(a),
{
}

proof fn lemma_below_threshold(a: Score, b: Score, t: Score)
    requires
        a.wf(),
        b.wf(),
        t.wf(),
        b.ge(t),
    ensures
        !a.ge(t) ==> b.ge(a),
{
    if !a.ge(t) {
        assert(b.num * a.den * t.den >= a.num * b.den * t.den) by (nonlinear_arith)
            requires a.num * t.den < t.num * a.den, b.num * t.den >= t.num * b.den, a.den > 0, b.den > 0, t.den > 0,
                a.num >= 0, b.num >= 0;
        assert(b.num * a.den >= a.num * b.den) by (nonlinear_arith)
            requires b.num * a.den * t.den >= a.num * b.den * t.den, t.den > 0;
    }
}

} // verus!
