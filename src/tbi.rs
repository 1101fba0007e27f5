//! The tabix (`.tbi`) index: its on-disk layout and chunk lookup by region.
use crate::csi::{bins_below, insert_region, reg2bins, valid_region, widen, RegionSimplify};
use crate::read::{decode_stream, lex_lt, skip_opt, BGZFReader};
use crate::error::BGZFError;
use crate::header::{get_le32, le32, read32, slice_to_vec};
use crate::index::{get_le64, le64, read64};
use vstd::prelude::*;
use vstd::slice::slice_subrange;

verus! {

/// Minimum shift of the tabix binning scheme.
pub const DEFAULT_MIN_SHIFT: u32 = 14;

/// Depth of the tabix binning scheme.
pub const DEFAULT_DEPTH: u32 = 5;

/// A range of virtual offsets that may hold records of a bin.
#[derive(Debug, Clone, Copy, PartialEq, Eq)]
pub struct Chunk {
    pub chunk_beg: u64,
    pub chunk_end: u64,
}

/// The chunks of one bin.
#[derive(Debug, Clone, PartialEq, Eq)]
pub struct BinIndex {
    pub bin: u32,
    pub n_chunk: u32,
    pub chunks: Vec<Chunk>,
}

/// A bin, as values.
pub struct BinModel {
    pub bin: u32,
    pub n_chunk: u32,
    pub chunks: Seq<Chunk>,
}

impl View for BinIndex {
    type V = BinModel;

    open spec fn view(&self) -> BinModel {
        BinModel { bin: self.bin, n_chunk: self.n_chunk, chunks: self.chunks@ }
    }
}

/// The bins and the linear index of one reference sequence.
#[derive(Debug, Clone, PartialEq, Eq)]
pub struct SequenceIndex {
    pub n_bin: u32,
    pub bins: Vec<BinIndex>,
    pub n_intv: u32,
    pub interval: Vec<u64>,
}

/// A reference sequence's index, as values.
pub struct SequenceModel {
    pub n_bin: u32,
    pub bins: Seq<BinModel>,
    pub n_intv: u32,
    pub interval: Seq<u64>,
}

impl View for SequenceIndex {
    type V = SequenceModel;

    open spec fn view(&self) -> SequenceModel {
        SequenceModel {
            n_bin: self.n_bin,
            bins: self.bins@.map_values(|b: BinIndex| b@),
            n_intv: self.n_intv,
            interval: self.interval@,
        }
    }
}

/// Wire form of a list of chunks.
pub open spec fn chunks_bytes(cs: Seq<Chunk>) -> Seq<u8>
    decreases cs.len(),
{
    if cs.len() == 0 {
        Seq::empty()
    } else {
        chunks_bytes(cs.drop_last()) + le64(cs.last().chunk_beg) + le64(cs.last().chunk_end)
    }
}

/// Wire form of a list of `u64`.
pub open spec fn u64s_bytes(vs: Seq<u64>) -> Seq<u8>
    decreases vs.len(),
{
    if vs.len() == 0 {
        Seq::empty()
    } else {
        u64s_bytes(vs.drop_last()) + le64(vs.last())
    }
}

pub open spec fn bin_bytes(b: BinModel) -> Seq<u8> {
    le32(b.bin) + le32(b.n_chunk) + chunks_bytes(b.chunks)
}

pub open spec fn bins_bytes(bs: Seq<BinModel>) -> Seq<u8>
    decreases bs.len(),
{
    if bs.len() == 0 {
        Seq::empty()
    } else {
        bins_bytes(bs.drop_last()) + bin_bytes(bs.last())
    }
}

pub open spec fn sequence_bytes(s: SequenceModel) -> Seq<u8> {
    le32(s.n_bin) + bins_bytes(s.bins) + le32(s.n_intv) + u64s_bytes(s.interval)
}

pub open spec fn sequences_bytes(ss: Seq<SequenceModel>) -> Seq<u8>
    decreases ss.len(),
{
    if ss.len() == 0 {
        Seq::empty()
    } else {
        sequences_bytes(ss.drop_last()) + sequence_bytes(ss.last())
    }
}

/// Every count equals the number of items it counts.
pub open spec fn sequence_counts_ok(s: SequenceModel) -> bool {
    &&& s.n_bin == s.bins.len()
    &&& s.n_intv == s.interval.len()
    &&& forall|k: int| 0 <= k < s.bins.len() ==> (#[trigger] s.bins[k]).n_chunk == s.bins[k].chunks.len()
}

/// Names split at each NUL, continuing the name `cur` from position `i`; bytes after the
/// last NUL are dropped.
pub open spec fn names_from(raw: Seq<u8>, i: int, cur: Seq<u8>) -> Seq<Seq<u8>>
    decreases raw.len() - i,
{
    if i < 0 || i >= raw.len() {
        Seq::empty()
    } else if raw[i] == 0 {
        seq![cur] + names_from(raw, i + 1, Seq::empty())
    } else {
        names_from(raw, i + 1, cur.push(raw[i]))
    }
}

/// The fixed part of a `.tbi` file: magic, then eight little-endian `u32`.
pub open spec fn tbi_head(
    n_ref: u32,
    format: u32,
    col_seq: u32,
    col_beg: u32,
    col_end: u32,
    meta: u32,
    skip: u32,
    l_nm: u32,
) -> Seq<u8> {
    seq![84u8, 66u8, 73u8, 1u8] + le32(n_ref) + le32(format) + le32(col_seq) + le32(col_beg) + le32(
        col_end,
    ) + le32(meta) + le32(skip) + le32(l_nm)
}

/// Reads a little-endian `u32` at `*pos` and moves past it.
fn take_u32(data: &[u8], pos: &mut usize) -> (r: Result<u32, BGZFError>)
    requires
        *old(pos) <= data@.len(),
    ensures
        *final(pos) <= data@.len(),
        r matches Ok(v) ==> v == read32(data@, *old(pos) as int) && *final(pos) == *old(pos) + 4
            && le32(v) == data@.subrange(*old(pos) as int, *old(pos) + 4),
        r is Err ==> *final(pos) == *old(pos) && r == Err::<u32, BGZFError>(BGZFError::UnexpectedEof),
        *old(pos) + 4 <= data@.len() ==> r is Ok,
{
    if data.len() - *pos < 4 {
        return Err(BGZFError::UnexpectedEof);
    }
    let v = get_le32(data, *pos);
    proof {
        crate::header::lemma_le32(v);
        lemma_le32_of_read(data@, *old(pos) as int);
    }
    *pos = *pos + 4;
    Ok(v)
}

/// Reads a little-endian `u64` at `*pos` and moves past it.
fn take_u64(data: &[u8], pos: &mut usize) -> (r: Result<u64, BGZFError>)
    requires
        *old(pos) <= data@.len(),
    ensures
        *final(pos) <= data@.len(),
        r matches Ok(v) ==> v == read64(data@, *old(pos) as int) && *final(pos) == *old(pos) + 8
            && le64(v) == data@.subrange(*old(pos) as int, *old(pos) + 8),
        r is Err ==> *final(pos) == *old(pos) && r == Err::<u64, BGZFError>(BGZFError::UnexpectedEof),
        *old(pos) + 8 <= data@.len() ==> r is Ok,
{
    if data.len() - *pos < 8 {
        return Err(BGZFError::UnexpectedEof);
    }
    let v = get_le64(data, *pos);
    proof {
        crate::index::lemma_le64_of_read(data@, *old(pos) as int);
    }
    *pos = *pos + 8;
    Ok(v)
}

/// The bytes of a little-endian `u32` are those it was read from.
pub proof fn lemma_le32_of_read(s: Seq<u8>, i: int)
    requires
        0 <= i,
        i + 4 <= s.len(),
    ensures
        le32(read32(s, i)) == s.subrange(i, i + 4),
{
    let v = read32(s, i);
    let a = s[i];
    let b = s[i + 1];
    let c = s[i + 2];
    let d = s[i + 3];
    assert(v == a + 256 * b + 65536 * c + 16777216 * d);
    assert(v % 256 == a && (v / 256) % 256 == b && (v / 65536) % 256 == c && v / 16777216 == d)
        by (nonlinear_arith)
        requires
            v == a + 256 * b + 65536 * c + 16777216 * d,
            a < 256,
            b < 256,
            c < 256,
            d < 256,
    ;
    assert(le32(v) =~= s.subrange(i, i + 4));
}


proof fn lemma_concat_sub(s: Seq<u8>, a: int, b: int, c: int)
    requires
        0 <= a <= b <= c <= s.len(),
    ensures
        s.subrange(a, c) == s.subrange(a, b) + s.subrange(b, c),
{
    assert(s.subrange(a, c) =~= s.subrange(a, b) + s.subrange(b, c));
}


/// Reading a little-endian `u64` gives back the value written.
proof fn lemma_read64_at(data: Seq<u8>, p: int, v: u64)
    requires
        0 <= p,
        p + 8 <= data.len(),
        data.subrange(p, p + 8) == le64(v),
    ensures
        read64(data, p) == v,
{
    crate::index::lemma_le64_of_read(data, p);
    let w = read64(data, p);
    assert(le64(w) == le64(v));
    assert forall|k: int| 0 <= k < 8 implies crate::index::byte_of(w, k) == crate::index::byte_of(v, k) by {
        assert(le64(w)[k] == le64(v)[k]);
    }
    let b0 = crate::index::byte_of(v, 0);
    assert(crate::index::byte_of(w, 0) == b0);
    assert(((w >> 0u64) & 0xff) as u8 == ((v >> 0u64) & 0xff) as u8 && ((w >> 8u64) & 0xff) as u8 == ((v >> 8u64) & 0xff) as u8
        && ((w >> 16u64) & 0xff) as u8 == ((v >> 16u64) & 0xff) as u8 && ((w >> 24u64) & 0xff) as u8 == ((v >> 24u64) & 0xff) as u8
        && ((w >> 32u64) & 0xff) as u8 == ((v >> 32u64) & 0xff) as u8 && ((w >> 40u64) & 0xff) as u8 == ((v >> 40u64) & 0xff) as u8
        && ((w >> 48u64) & 0xff) as u8 == ((v >> 48u64) & 0xff) as u8 && ((w >> 56u64) & 0xff) as u8 == ((v >> 56u64) & 0xff) as u8) by {
        assert(crate::index::byte_of(w, 1) == crate::index::byte_of(v, 1));
        assert(crate::index::byte_of(w, 2) == crate::index::byte_of(v, 2));
        assert(crate::index::byte_of(w, 3) == crate::index::byte_of(v, 3));
        assert(crate::index::byte_of(w, 4) == crate::index::byte_of(v, 4));
        assert(crate::index::byte_of(w, 5) == crate::index::byte_of(v, 5));
        assert(crate::index::byte_of(w, 6) == crate::index::byte_of(v, 6));
        assert(crate::index::byte_of(w, 7) == crate::index::byte_of(v, 7));
    }
    assert(w == v) by (bit_vector)
        requires
            ((w >> 0u64) & 0xff) as u8 == ((v >> 0u64) & 0xff) as u8 && ((w >> 8u64) & 0xff) as u8 == ((v >> 8u64) & 0xff) as u8
            && ((w >> 16u64) & 0xff) as u8 == ((v >> 16u64) & 0xff) as u8 && ((w >> 24u64) & 0xff) as u8 == ((v >> 24u64) & 0xff) as u8
            && ((w >> 32u64) & 0xff) as u8 == ((v >> 32u64) & 0xff) as u8 && ((w >> 40u64) & 0xff) as u8 == ((v >> 40u64) & 0xff) as u8
            && ((w >> 48u64) & 0xff) as u8 == ((v >> 48u64) & 0xff) as u8 && ((w >> 56u64) & 0xff) as u8 == ((v >> 56u64) & 0xff) as u8,
    ;
}

/// Reading a little-endian `u32` gives back the value written.
proof fn lemma_read32_at(data: Seq<u8>, p: int, v: u32)
    requires
        0 <= p,
        p + 4 <= data.len(),
        data.subrange(p, p + 4) == le32(v),
    ensures
        read32(data, p) == v,
{
    crate::header::lemma_le32(v);
    let s = le32(v);
    assert(data[p] == s[0] && data[p + 1] == s[1] && data[p + 2] == s[2] && data[p + 3] == s[3]);
}

/// The bytes `b` sit at `start + |a|` in `data` when `a + b` begins `total`, which sits
/// at `start`.
proof fn lemma_piece_at(data: Seq<u8>, start: int, total: Seq<u8>, a: Seq<u8>, b: Seq<u8>)
    requires
        0 <= start,
        start + total.len() <= data.len(),
        data.subrange(start, start + total.len()) == total,
        a.len() + b.len() <= total.len(),
        total.take((a.len() + b.len()) as int) == a + b,
    ensures
        data.subrange(start + a.len(), start + a.len() + b.len()) == b,
        start + a.len() + b.len() <= data.len(),
{
    assert forall|i: int| 0 <= i < b.len() implies data[start + a.len() + i] == b[i] by {
        assert(total[a.len() + i] == (a + b)[a.len() + i]);
        assert(data.subrange(start, start + total.len())[a.len() + i] == data[start + a.len() + i]);
    }
    assert(data.subrange(start + a.len(), start + a.len() + b.len()) =~= b);
}

proof fn lemma_chunks_prefix(cs: Seq<Chunk>, j: int)
    requires
        0 <= j <= cs.len(),
    ensures
        chunks_bytes(cs.take(j)).len() <= chunks_bytes(cs).len(),
        chunks_bytes(cs).take(chunks_bytes(cs.take(j)).len() as int) == chunks_bytes(cs.take(j)),
    decreases cs.len(),
{
    if j == cs.len() {
        assert(cs.take(j) =~= cs);
        assert(chunks_bytes(cs).take(chunks_bytes(cs).len() as int) =~= chunks_bytes(cs));
    } else {
        let init = cs.drop_last();
        lemma_chunks_prefix(init, j);
        assert(init.take(j) =~= cs.take(j));
        let l = chunks_bytes(cs.take(j)).len() as int;
        assert(chunks_bytes(cs).take(l) =~= chunks_bytes(init).take(l));
    }
}

proof fn lemma_u64s_prefix(vs: Seq<u64>, j: int)
    requires
        0 <= j <= vs.len(),
    ensures
        u64s_bytes(vs.take(j)).len() <= u64s_bytes(vs).len(),
        u64s_bytes(vs).take(u64s_bytes(vs.take(j)).len() as int) == u64s_bytes(vs.take(j)),
    decreases vs.len(),
{
    if j == vs.len() {
        assert(vs.take(j) =~= vs);
        assert(u64s_bytes(vs).take(u64s_bytes(vs).len() as int) =~= u64s_bytes(vs));
    } else {
        let init = vs.drop_last();
        lemma_u64s_prefix(init, j);
        assert(init.take(j) =~= vs.take(j));
        let l = u64s_bytes(vs.take(j)).len() as int;
        assert(u64s_bytes(vs).take(l) =~= u64s_bytes(init).take(l));
    }
}

proof fn lemma_bins_prefix(bs: Seq<BinModel>, j: int)
    requires
        0 <= j <= bs.len(),
    ensures
        bins_bytes(bs.take(j)).len() <= bins_bytes(bs).len(),
        bins_bytes(bs).take(bins_bytes(bs.take(j)).len() as int) == bins_bytes(bs.take(j)),
    decreases bs.len(),
{
    if j == bs.len() {
        assert(bs.take(j) =~= bs);
        assert(bins_bytes(bs).take(bins_bytes(bs).len() as int) =~= bins_bytes(bs));
    } else {
        let init = bs.drop_last();
        lemma_bins_prefix(init, j);
        assert(init.take(j) =~= bs.take(j));
        let l = bins_bytes(bs.take(j)).len() as int;
        assert(bins_bytes(bs).take(l) =~= bins_bytes(init).take(l));
    }
}

proof fn lemma_sequences_prefix(ss: Seq<SequenceModel>, j: int)
    requires
        0 <= j <= ss.len(),
    ensures
        sequences_bytes(ss.take(j)).len() <= sequences_bytes(ss).len(),
        sequences_bytes(ss).take(sequences_bytes(ss.take(j)).len() as int) == sequences_bytes(ss.take(j)),
    decreases ss.len(),
{
    if j == ss.len() {
        assert(ss.take(j) =~= ss);
        assert(sequences_bytes(ss).take(sequences_bytes(ss).len() as int) =~= sequences_bytes(ss));
    } else {
        let init = ss.drop_last();
        lemma_sequences_prefix(init, j);
        assert(init.take(j) =~= ss.take(j));
        let l = sequences_bytes(ss.take(j)).len() as int;
        assert(sequences_bytes(ss).take(l) =~= sequences_bytes(init).take(l));
    }
}

proof fn lemma_layout_head(data: Seq<u8>, t: TabixIndex)
    requires
        tbi_layout(data, t),
    ensures
        data.len() >= 36,
        read32(data, 4) == t.n_ref,
        read32(data, 32) == t.l_nm,
        data.take(4) == seq![84u8, 66u8, 73u8, 1u8],
        holds_at(data, 36 + t.l_nm, sequences_bytes(t.seqs_view())),
        data.len() == 36 + t.l_nm + sequences_bytes(t.seqs_view()).len(),
        t.seqs_view().len() == t.n_ref,
        forall|j: int| 0 <= j < t.seqs_view().len() ==> sequence_counts_ok(#[trigger] t.seqs_view()[j]),
{
    let head = tbi_head(t.n_ref, t.format, t.col_seq, t.col_beg, t.col_end, t.meta, t.skip, t.l_nm);
    assert(head.len() == 36);
    assert(data.subrange(0, 36) =~= head);
    assert(data.subrange(4, 8) =~= le32(t.n_ref));
    assert(data.subrange(32, 36) =~= le32(t.l_nm));
    lemma_read32_at(data, 4, t.n_ref);
    lemma_read32_at(data, 32, t.l_nm);
    assert(data.take(4) =~= seq![84u8, 66u8, 73u8, 1u8]);
    assert(data.subrange(36 + t.l_nm, data.len() as int) =~= sequences_bytes(t.seqs_view()));
}

proof fn lemma_seq_step(data: Seq<u8>, seq_start: int, exp: Seq<SequenceModel>, k: int)
    requires
        0 <= k < exp.len(),
        holds_at(data, seq_start, sequences_bytes(exp)),
    ensures
        holds_at(data, seq_start + sequences_bytes(exp.take(k)).len(), sequence_bytes(exp[k])),
        sequences_bytes(exp.take(k + 1)) == sequences_bytes(exp.take(k)) + sequence_bytes(exp[k]),
{
    lemma_sequences_prefix(exp, k + 1);
    assert(exp.take(k + 1).drop_last() =~= exp.take(k));
    assert(exp.take(k + 1).last() == exp[k]);
    lemma_piece_at(data, seq_start, sequences_bytes(exp), sequences_bytes(exp.take(k)), sequence_bytes(exp[k]));
}

#[verifier::rlimit(100)]
fn read_sequences(data: &[u8], pos: &mut usize, n: u32, exp: Ghost<Seq<SequenceModel>>) -> (r: Result<Vec<SequenceIndex>, BGZFError>)
    requires
        *old(pos) <= data@.len(),
    ensures
        r is Err ==> r == Err::<Vec<SequenceIndex>, BGZFError>(BGZFError::UnexpectedEof),
        *final(pos) <= data@.len(),
        r matches Ok(ss) ==> ss@.len() == n && *old(pos) <= *final(pos) && sequences_bytes(
            ss@.map_values(|s: SequenceIndex| s@),
        ) == data@.subrange(*old(pos) as int, *final(pos) as int) && (forall|j: int|
            0 <= j < ss@.len() ==> sequence_counts_ok(#[trigger] ss@[j]@)),
        (exp@.len() == n && (forall|j: int| 0 <= j < exp@.len() ==> sequence_counts_ok(#[trigger] exp@[j]))
            && holds_at(data@, *old(pos) as int, sequences_bytes(exp@))) ==> (r matches Ok(ss) && ss@.map_values(|s: SequenceIndex| s@) == exp@),
{
    let start = *pos;
    let ghost cond = exp@.len() == n && (forall|j: int| 0 <= j < exp@.len() ==> sequence_counts_ok(#[trigger] exp@[j]))
        && holds_at(data@, start as int, sequences_bytes(exp@));
    let mut ss: Vec<SequenceIndex> = Vec::new();
    let mut k: u32 = 0;
    proof {
        assert(data@.subrange(start as int, start as int) =~= sequences_bytes(
            ss@.map_values(|s: SequenceIndex| s@),
        ));
        assert(exp@.take(0) =~= ss@.map_values(|s: SequenceIndex| s@));
    }
    while k < n
        invariant
            start <= *pos <= data@.len(),
            start == *old(pos),
            k <= n,
            ss@.len() == k,
            sequences_bytes(ss@.map_values(|s: SequenceIndex| s@)) == data@.subrange(start as int, *pos as int),
            forall|j: int| 0 <= j < ss@.len() ==> sequence_counts_ok(#[trigger] ss@[j]@),
            cond == (exp@.len() == n && (forall|j: int| 0 <= j < exp@.len() ==> sequence_counts_ok(#[trigger] exp@[j]))
                && holds_at(data@, start as int, sequences_bytes(exp@))),
            cond ==> ss@.map_values(|s: SequenceIndex| s@) == exp@.take(k as int),
        decreases n - k,
    {
        let mark_start = *pos;
        proof {
            if cond {
                lemma_seq_step(data@, start as int, exp@, k as int);
                assert(sequence_counts_ok(exp@[k as int]));
            }
        }
        let sq = read_sequence(data, pos, Ghost(exp@[k as int]))?;
        let ghost before = ss@.map_values(|s: SequenceIndex| s@);
        ss.push(sq);
        proof {
            let m = ss@.map_values(|s: SequenceIndex| s@);
            assert(m.drop_last() =~= before);
            assert(m.last() == sq@);
            lemma_concat_sub(data@, start as int, mark_start as int, *pos as int);
            if cond {
                assert(m =~= exp@.take(k + 1));
            }
        }
        k = k + 1;
    }
    proof {
        if cond {
            assert(exp@.take(n as int) =~= exp@);
        }
    }
    Ok(ss)
}

spec fn seq_start_spec(l_nm: u32) -> int {
    36 + l_nm
}

/// `data` holds `bytes` at `start`.
pub open spec fn holds_at(data: Seq<u8>, start: int, bytes: Seq<u8>) -> bool {
    0 <= start && start + bytes.len() <= data.len() && data.subrange(start, start + bytes.len()) == bytes
}

/// Every count of a bin equals the number of its chunks.
pub open spec fn bins_counts_ok(bs: Seq<BinModel>) -> bool {
    forall|k: int| 0 <= k < bs.len() ==> (#[trigger] bs[k]).n_chunk == bs[k].chunks.len()
}

#[verifier::rlimit(100)]
fn read_chunks(data: &[u8], pos: &mut usize, n: u32, exp: Ghost<Seq<Chunk>>) -> (r: Result<Vec<Chunk>, BGZFError>)
    requires
        *old(pos) <= data@.len(),
    ensures
        r is Err ==> r == Err::<Vec<Chunk>, BGZFError>(BGZFError::UnexpectedEof),
        *final(pos) <= data@.len(),
        r matches Ok(cs) ==> cs@.len() == n && *old(pos) <= *final(pos) && chunks_bytes(cs@)
            == data@.subrange(*old(pos) as int, *final(pos) as int),
        (exp@.len() == n && holds_at(data@, *old(pos) as int, chunks_bytes(exp@))) ==> (r matches Ok(cs) && cs@ == exp@),
{
    let start = *pos;
    let ghost cond = exp@.len() == n && holds_at(data@, start as int, chunks_bytes(exp@));
    let mut cs: Vec<Chunk> = Vec::new();
    let mut k: u32 = 0;
    proof {
        assert(data@.subrange(start as int, start as int) =~= chunks_bytes(cs@));
        assert(exp@.take(0) =~= cs@);
    }
    while k < n
        invariant
            start <= *pos <= data@.len(),
            k <= n,
            cs@.len() == k,
            chunks_bytes(cs@) == data@.subrange(start as int, *pos as int),
            cond == (exp@.len() == n && holds_at(data@, start as int, chunks_bytes(exp@))),
            start == *old(pos),
            cond ==> cs@ == exp@.take(k as int),
        decreases n - k,
    {
        let mark_start = *pos;
        proof {
            if cond {
                let e = exp@[k as int];
                lemma_chunks_prefix(exp@, k + 1);
                assert(exp@.take(k + 1).drop_last() =~= exp@.take(k as int));
                assert(chunks_bytes(exp@.take(k + 1)) == chunks_bytes(exp@.take(k as int)) + (le64(e.chunk_beg) + le64(e.chunk_end))) by {
                    assert(exp@.take(k + 1).last() == e);
                }
                lemma_piece_at(data@, start as int, chunks_bytes(exp@), chunks_bytes(exp@.take(k as int)), le64(e.chunk_beg) + le64(e.chunk_end));
                let q = mark_start as int;
                assert(data@.subrange(q, q + 8) =~= (le64(e.chunk_beg) + le64(e.chunk_end)).subrange(0, 8));
                assert(data@.subrange(q + 8, q + 16) =~= (le64(e.chunk_beg) + le64(e.chunk_end)).subrange(8, 16));
                assert((le64(e.chunk_beg) + le64(e.chunk_end)).subrange(0, 8) =~= le64(e.chunk_beg));
                assert((le64(e.chunk_beg) + le64(e.chunk_end)).subrange(8, 16) =~= le64(e.chunk_end));
                lemma_read64_at(data@, q, e.chunk_beg);
                lemma_read64_at(data@, q + 8, e.chunk_end);
            }
        }
        let b = take_u64(data, pos)?;
        let e = take_u64(data, pos)?;
        let ghost before = cs@;
        cs.push(Chunk { chunk_beg: b, chunk_end: e });
        proof {
            assert(cs@.drop_last() =~= before);
            lemma_concat_sub(data@, start as int, mark_start as int, mark_start + 8);
            lemma_concat_sub(data@, start as int, mark_start + 8, *pos as int);
            assert(chunks_bytes(cs@) =~= data@.subrange(start as int, *pos as int));
            if cond {
                assert(cs@ =~= exp@.take(k + 1));
            }
        }
        k = k + 1;
    }
    proof {
        if cond {
            assert(exp@.take(n as int) =~= exp@);
        }
    }
    Ok(cs)
}

#[verifier::rlimit(100)]
fn read_u64s(data: &[u8], pos: &mut usize, n: u32, exp: Ghost<Seq<u64>>) -> (r: Result<Vec<u64>, BGZFError>)
    requires
        *old(pos) <= data@.len(),
    ensures
        r is Err ==> r == Err::<Vec<u64>, BGZFError>(BGZFError::UnexpectedEof),
        *final(pos) <= data@.len(),
        r matches Ok(vs) ==> vs@.len() == n && *old(pos) <= *final(pos) && u64s_bytes(vs@)
            == data@.subrange(*old(pos) as int, *final(pos) as int),
        (exp@.len() == n && holds_at(data@, *old(pos) as int, u64s_bytes(exp@))) ==> (r matches Ok(vs) && vs@ == exp@),
{
    let start = *pos;
    let ghost cond = exp@.len() == n && holds_at(data@, start as int, u64s_bytes(exp@));
    let mut vs: Vec<u64> = Vec::new();
    let mut k: u32 = 0;
    proof {
        assert(data@.subrange(start as int, start as int) =~= u64s_bytes(vs@));
        assert(exp@.take(0) =~= vs@);
    }
    while k < n
        invariant
            start <= *pos <= data@.len(),
            k <= n,
            vs@.len() == k,
            u64s_bytes(vs@) == data@.subrange(start as int, *pos as int),
            cond == (exp@.len() == n && holds_at(data@, start as int, u64s_bytes(exp@))),
            start == *old(pos),
            cond ==> vs@ == exp@.take(k as int),
        decreases n - k,
    {
        let mark_start = *pos;
        proof {
            if cond {
                let e = exp@[k as int];
                lemma_u64s_prefix(exp@, k + 1);
                assert(exp@.take(k + 1).drop_last() =~= exp@.take(k as int));
                assert(u64s_bytes(exp@.take(k + 1)) == u64s_bytes(exp@.take(k as int)) + le64(e)) by {
                    assert(exp@.take(k + 1).last() == e);
                }
                lemma_piece_at(data@, start as int, u64s_bytes(exp@), u64s_bytes(exp@.take(k as int)), le64(e));
                lemma_read64_at(data@, mark_start as int, e);
            }
        }
        let v = take_u64(data, pos)?;
        let ghost before = vs@;
        vs.push(v);
        proof {
            assert(vs@.drop_last() =~= before);
            lemma_concat_sub(data@, start as int, mark_start as int, *pos as int);
            if cond {
                assert(vs@ =~= exp@.take(k + 1));
            }
        }
        k = k + 1;
    }
    proof {
        if cond {
            assert(exp@.take(n as int) =~= exp@);
        }
    }
    Ok(vs)
}

#[verifier::rlimit(100)]
fn read_bins(data: &[u8], pos: &mut usize, n: u32, exp: Ghost<Seq<BinModel>>) -> (r: Result<Vec<BinIndex>, BGZFError>)
    requires
        *old(pos) <= data@.len(),
    ensures
        r is Err ==> r == Err::<Vec<BinIndex>, BGZFError>(BGZFError::UnexpectedEof),
        *final(pos) <= data@.len(),
        r matches Ok(bs) ==> {
            let m = bs@.map_values(|b: BinIndex| b@);
            &&& bs@.len() == n
            &&& *old(pos) <= *final(pos)
            &&& bins_bytes(m) == data@.subrange(*old(pos) as int, *final(pos) as int)
            &&& forall|k: int| 0 <= k < m.len() ==> (#[trigger] m[k]).n_chunk == m[k].chunks.len()
        },
        (exp@.len() == n && bins_counts_ok(exp@) && holds_at(data@, *old(pos) as int, bins_bytes(exp@)))
            ==> (r matches Ok(bs) && bs@.map_values(|b: BinIndex| b@) == exp@),
{
    let start = *pos;
    let ghost cond = exp@.len() == n && bins_counts_ok(exp@) && holds_at(data@, start as int, bins_bytes(exp@));
    let mut bs: Vec<BinIndex> = Vec::new();
    let mut k: u32 = 0;
    proof {
        assert(data@.subrange(start as int, start as int) =~= bins_bytes(
            bs@.map_values(|b: BinIndex| b@),
        ));
        assert(exp@.take(0) =~= bs@.map_values(|b: BinIndex| b@));
    }
    while k < n
        invariant
            start <= *pos <= data@.len(),
            k <= n,
            bs@.len() == k,
            bins_bytes(bs@.map_values(|b: BinIndex| b@)) == data@.subrange(start as int, *pos as int),
            forall|j: int| 0 <= j < bs@.len() ==> (#[trigger] bs@[j]).n_chunk == bs@[j].chunks@.len(),
            cond == (exp@.len() == n && bins_counts_ok(exp@) && holds_at(data@, start as int, bins_bytes(exp@))),
            start == *old(pos),
            cond ==> bs@.map_values(|b: BinIndex| b@) == exp@.take(k as int),
        decreases n - k,
    {
        let mark_start = *pos;
        let ghost eb = exp@[k as int];
        proof {
            if cond {
                lemma_bins_prefix(exp@, k + 1);
                assert(exp@.take(k + 1).drop_last() =~= exp@.take(k as int));
                assert(bins_bytes(exp@.take(k + 1)) == bins_bytes(exp@.take(k as int)) + bin_bytes(eb)) by {
                    assert(exp@.take(k + 1).last() == eb);
                }
                lemma_piece_at(data@, start as int, bins_bytes(exp@), bins_bytes(exp@.take(k as int)), bin_bytes(eb));
                let q = mark_start as int;
                let bb = bin_bytes(eb);
                assert(data@.subrange(q, q + 4) =~= bb.subrange(0, 4));
                assert(bb.subrange(0, 4) =~= le32(eb.bin));
                assert(data@.subrange(q + 4, q + 8) =~= bb.subrange(4, 8));
                assert(bb.subrange(4, 8) =~= le32(eb.n_chunk));
                lemma_read32_at(data@, q, eb.bin);
                lemma_read32_at(data@, q + 4, eb.n_chunk);
                assert(data@.subrange(q, q + bb.len()) == bb);
                assert(data@.subrange(q + 8, q + bb.len()) =~= data@.subrange(q, q + bb.len()).subrange(8, bb.len() as int));
                assert(bb.subrange(8, bb.len() as int) =~= chunks_bytes(eb.chunks));
                assert(eb.n_chunk == eb.chunks.len());
            }
        }
        let bin = take_u32(data, pos)?;
        let n_chunk = take_u32(data, pos)?;
        let mark_chunks = *pos;
        let chunks = read_chunks(data, pos, n_chunk, Ghost(eb.chunks))?;
        let b = BinIndex { bin, n_chunk, chunks };
        let ghost before = bs@.map_values(|b: BinIndex| b@);
        bs.push(b);
        proof {
            let m = bs@.map_values(|b: BinIndex| b@);
            assert(m.drop_last() =~= before);
            assert(m.last() == b@);
            lemma_concat_sub(data@, mark_start as int, mark_start + 4, mark_chunks as int);
            lemma_concat_sub(data@, mark_start as int, mark_chunks as int, *pos as int);
            assert(bin_bytes(b@) =~= data@.subrange(mark_start as int, *pos as int));
            lemma_concat_sub(data@, start as int, mark_start as int, *pos as int);
            assert(bins_bytes(m) =~= data@.subrange(start as int, *pos as int));
            if cond {
                assert(b@ == eb);
                assert(m =~= exp@.take(k + 1));
            }
        }
        k = k + 1;
    }
    proof {
        let m = bs@.map_values(|b: BinIndex| b@);
        assert forall|j: int| 0 <= j < m.len() implies (#[trigger] m[j]).n_chunk == m[j].chunks.len() by {
            assert(m[j] == bs@[j]@);
        }
        if cond {
            assert(exp@.take(n as int) =~= exp@);
        }
    }
    Ok(bs)
}

#[verifier::rlimit(100)]
fn read_sequence(data: &[u8], pos: &mut usize, exp: Ghost<SequenceModel>) -> (r: Result<SequenceIndex, BGZFError>)
    requires
        *old(pos) <= data@.len(),
    ensures
        r is Err ==> r == Err::<SequenceIndex, BGZFError>(BGZFError::UnexpectedEof),
        *final(pos) <= data@.len(),
        r matches Ok(sq) ==> *old(pos) <= *final(pos) && sequence_bytes(sq@) == data@.subrange(
            *old(pos) as int,
            *final(pos) as int,
        ) && sequence_counts_ok(sq@),
        (sequence_counts_ok(exp@) && holds_at(data@, *old(pos) as int, sequence_bytes(exp@)))
            ==> (r matches Ok(sq) && sq@ == exp@),
{
    let mark_start = *pos;
    let ghost cond = sequence_counts_ok(exp@) && holds_at(data@, mark_start as int, sequence_bytes(exp@));
    let ghost e = exp@;
    proof {
        if cond {
            let q = mark_start as int;
            let sb = sequence_bytes(e);
            let l1 = 4 + bins_bytes(e.bins).len() as int;
            assert(data@.subrange(q, q + 4) =~= sb.subrange(0, 4));
            assert(sb.subrange(0, 4) =~= le32(e.n_bin));
            lemma_read32_at(data@, q, e.n_bin);
            let whole = data@.subrange(q, q + sb.len());
            assert(whole == sb);
            assert(data@.subrange(q + 4, q + l1) =~= whole.subrange(4, l1));
            assert(sb.subrange(4, l1) =~= bins_bytes(e.bins));
            assert(data@.subrange(q + l1, q + l1 + 4) =~= whole.subrange(l1, l1 + 4));
            assert(sb.subrange(l1, l1 + 4) =~= le32(e.n_intv));
            lemma_read32_at(data@, q + l1, e.n_intv);
            assert(data@.subrange(q + l1 + 4, q + sb.len()) =~= whole.subrange(l1 + 4, sb.len() as int));
            assert(sb.subrange(l1 + 4, sb.len() as int) =~= u64s_bytes(e.interval));
            assert(bins_counts_ok(e.bins));
        }
    }
    let n_bin = take_u32(data, pos)?;
    let mark_bins = *pos;
    let bins = read_bins(data, pos, n_bin, Ghost(e.bins))?;
    let mark_intv = *pos;
    let n_intv = take_u32(data, pos)?;
    let mark_cells = *pos;
    let interval = read_u64s(data, pos, n_intv, Ghost(e.interval))?;
    let sq = SequenceIndex { n_bin, bins, n_intv, interval };
    proof {
        lemma_concat_sub(data@, mark_start as int, mark_bins as int, mark_intv as int);
        lemma_concat_sub(data@, mark_start as int, mark_intv as int, mark_cells as int);
        lemma_concat_sub(data@, mark_start as int, mark_cells as int, *pos as int);
        assert(sequence_bytes(sq@) =~= data@.subrange(mark_start as int, *pos as int));
        if cond {
            assert(sq@ == e);
        }
    }
    Ok(sq)
}

fn split_names(raw: &Vec<u8>) -> (r: Vec<Vec<u8>>)
    ensures
        r@.map_values(|n: Vec<u8>| n@) == names_from(raw@, 0, Seq::empty()),
{
    let mut names: Vec<Vec<u8>> = Vec::new();
    let mut temp: Vec<u8> = Vec::new();
    let mut i: usize = 0;
    proof {
        assert(names@.map_values(|n: Vec<u8>| n@) + names_from(raw@, 0, temp@) =~= names_from(raw@, 0, Seq::empty()));
    }
    while i < raw.len()
        invariant
            i <= raw@.len(),
            names@.map_values(|n: Vec<u8>| n@) + names_from(raw@, i as int, temp@) == names_from(
                raw@,
                0,
                Seq::empty(),
            ),
        decreases raw.len() - i,
    {
        let ghost acc = names@.map_values(|n: Vec<u8>| n@);
        if raw[i] == 0 {
            let ghost t = temp@;
            names.push(temp);
            temp = Vec::new();
            proof {
                assert(names@.map_values(|n: Vec<u8>| n@) =~= acc.push(t));
                assert(acc + (seq![t] + names_from(raw@, i + 1, Seq::empty())) =~= acc.push(t)
                    + names_from(raw@, i + 1, temp@));
            }
        } else {
            temp.push(raw[i]);
        }
        i = i + 1;
    }
    proof {
        assert(names@.map_values(|n: Vec<u8>| n@) + names_from(raw@, i as int, temp@) =~= names@.map_values(|n: Vec<u8>| n@));
    }
    names
}

/// A tabix index.
#[derive(Debug, Clone, PartialEq, Eq)]
pub struct TabixIndex {
    pub n_ref: u32,
    pub format: u32,
    pub col_seq: u32,
    pub col_beg: u32,
    pub col_end: u32,
    pub meta: u32,
    pub skip: u32,
    pub l_nm: u32,
    pub names: Vec<Vec<u8>>,
    pub seq_index: Vec<SequenceIndex>,
}

/// `data` is the `.tbi` content that `t` was read from.
pub open spec fn tbi_layout(data: Seq<u8>, t: TabixIndex) -> bool {
    let head = tbi_head(t.n_ref, t.format, t.col_seq, t.col_beg, t.col_end, t.meta, t.skip, t.l_nm);
    let raw = data.subrange(36, 36 + t.l_nm);
    &&& 36 + t.l_nm <= data.len()
    &&& data == head + raw + sequences_bytes(t.seqs_view())
    &&& t.names@.map_values(|n: Vec<u8>| n@) == names_from(raw, 0, Seq::empty())
    &&& t.seq_index@.len() == t.n_ref
    &&& forall|k: int| 0 <= k < t.n_ref ==> sequence_counts_ok(#[trigger] t.seqs_view()[k])
}

/// Index of the first newline at or after `i`.
pub open spec fn newline_from(c: Seq<u8>, i: int) -> Option<int>
    decreases c.len() - i,
{
    if i < 0 || i >= c.len() {
        None
    } else if c[i] == 10 {
        Some(i)
    } else {
        newline_from(c, i + 1)
    }
}

/// Length of the first line of `c`, with its newline; all of `c` when it has none.
pub open spec fn line_len(c: Seq<u8>) -> int {
    match newline_from(c, 0) {
        Some(i) => i + 1,
        None => c.len() as int,
    }
}

/// Length of the first `k` lines of `c` (fewer when `c` ends first).
pub open spec fn lines_len(c: Seq<u8>, k: nat) -> int
    decreases k,
{
    if k == 0 || c.len() == 0 {
        0
    } else {
        let l = line_len(c);
        if 0 < l <= c.len() {
            l + lines_len(c.skip(l), (k - 1) as nat)
        } else {
            0
        }
    }
}

proof fn lemma_newline_from(c: Seq<u8>, i: int, n: int)
    requires
        0 <= i <= n <= c.len(),
        forall|k: int| i <= k < n - 1 ==> c[k] != 10,
        n == c.len() || c[n - 1] == 10,
        i < n || n == c.len(),
    ensures
        match newline_from(c, i) {
            Some(j) => j + 1 == n,
            None => n == c.len(),
        },
    decreases c.len() - i,
{
    if i < c.len() && c[i] != 10 {
        lemma_newline_from(c, i + 1, n);
    }
}

/// `file` is a BGZF stream that holds a `.tbi` index.
pub open spec fn index_ok(file: Seq<u8>) -> bool {
    decode_stream(file) matches Some(d) && tbi_valid(d)
}

/// The data file decodes and the index file holds a `.tbi` index.
pub open spec fn tabix_open_ok(data: Seq<u8>, index: Seq<u8>) -> bool {
    decode_stream(data) is Some && index_ok(index)
}

/// `data` is the content of some `.tbi` file.
pub open spec fn tbi_valid(data: Seq<u8>) -> bool {
    exists|t: TabixIndex| tbi_layout(data, t)
}

/// The chunks of `cs` that end at or after `min_off`, as pairs.
pub open spec fn kept_chunks(cs: Seq<Chunk>, min_off: u64) -> Seq<(u64, u64)>
    decreases cs.len(),
{
    if cs.len() == 0 {
        Seq::empty()
    } else {
        kept_chunks(cs.drop_last(), min_off) + if cs.last().chunk_end >= min_off {
            seq![(cs.last().chunk_beg, cs.last().chunk_end)]
        } else {
            Seq::empty()
        }
    }
}

/// The kept chunks of every bin of `bs` whose id is `b`, in order.
pub open spec fn chunks_of_bin(bs: Seq<BinModel>, b: int, min_off: u64) -> Seq<(u64, u64)>
    decreases bs.len(),
{
    if bs.len() == 0 {
        Seq::empty()
    } else {
        chunks_of_bin(bs.drop_last(), b, min_off) + if bs.last().bin == b {
            kept_chunks(bs.last().chunks, min_off)
        } else {
            Seq::empty()
        }
    }
}

/// The kept chunks of the bins `ids`, bin after bin.
pub open spec fn candidate_chunks(bs: Seq<BinModel>, ids: Seq<int>, min_off: u64) -> Seq<
    (u64, u64),
>
    decreases ids.len(),
{
    if ids.len() == 0 {
        Seq::empty()
    } else {
        candidate_chunks(bs, ids.drop_last(), min_off) + chunks_of_bin(bs, ids.last(), min_off)
    }
}

/// The regions left by inserting `rs` one after another into an empty set.
pub open spec fn simplify_all(rs: Seq<(u64, u64)>) -> Seq<(u64, u64)>
    decreases rs.len(),
{
    if rs.len() == 0 {
        Seq::empty()
    } else {
        insert_region(simplify_all(rs.drop_last()), rs.last().0, rs.last().1)
    }
}

/// The smallest virtual offset that the linear index gives for records at or after
/// `begin`: the cell of `begin`, the last cell when `begin` lies beyond, 0 when empty.
pub open spec fn linear_min(iv: Seq<u64>, begin: u64) -> u64 {
    if iv.len() == 0 {
        0
    } else if (begin >> 14u64) < iv.len() {
        iv[(begin >> 14u64) as int]
    } else {
        iv.last()
    }
}

/// The merged chunk ranges that may hold records of `[begin, end)` on a reference.
pub open spec fn region_chunks_spec(sq: SequenceModel, begin: u64, end: u64) -> Seq<(u64, u64)> {
    simplify_all(
        candidate_chunks(
            sq.bins,
            bins_below(begin, (end - 1) as u64, DEFAULT_MIN_SHIFT, DEFAULT_DEPTH, 6),
            linear_min(sq.interval, begin),
        ),
    )
}

impl TabixIndex {
    pub open spec fn seqs_view(&self) -> Seq<SequenceModel> {
        self.seq_index@.map_values(|s: SequenceIndex| s@)
    }

    /// Parses the decompressed content of a `.tbi` file. Every byte must belong to the
    /// layout: magic, header, names, then one index per reference.
    #[verifier::rlimit(100)]
    pub fn from_bytes(data: &[u8]) -> (r: Result<Self, BGZFError>)
        ensures
            (data@.len() >= 4 && data@.take(4) != seq![84u8, 66u8, 73u8, 1u8]) <==> r
                == Err::<Self, BGZFError>(BGZFError::NotTabix),
            r matches Ok(t) ==> tbi_layout(data@, t),
            tbi_valid(data@) ==> r is Ok,
    {
        let ghost cond = tbi_valid(data@);
        let ghost t0 = choose|t: TabixIndex| tbi_layout(data@, t);
        let ghost exp = t0.seqs_view();
        proof {
            if cond {
                lemma_layout_head(data@, t0);
            }
        }
        if data.len() < 4 {
            return Err(BGZFError::UnexpectedEof);
        }
        if data[0] != 84 || data[1] != 66 || data[2] != 73 || data[3] != 1 {
            proof {
                if data@.take(4) == seq![84u8, 66u8, 73u8, 1u8] {
                    assert(data@.take(4)[0] == data@[0]);
                    assert(data@.take(4)[1] == data@[1]);
                    assert(data@.take(4)[2] == data@[2]);
                    assert(data@.take(4)[3] == data@[3]);
                }
            }
            return Err(BGZFError::NotTabix);
        }
        proof {
            assert(data@.take(4) =~= seq![84u8, 66u8, 73u8, 1u8]);
        }
        let mut pos: usize = 4;
        assert(cond ==> data@.len() >= 36);
        let n_ref = take_u32(data, &mut pos)?;
        let format = take_u32(data, &mut pos)?;
        let col_seq = take_u32(data, &mut pos)?;
        let col_beg = take_u32(data, &mut pos)?;
        let col_end = take_u32(data, &mut pos)?;
        let meta = take_u32(data, &mut pos)?;
        let skip = take_u32(data, &mut pos)?;
        let l_nm = take_u32(data, &mut pos)?;
        assert(pos == 36);
        if (l_nm as usize) > data.len() - 36 {
            return Err(BGZFError::UnexpectedEof);
        }
        proof {
            if cond {
                assert(seq_start_spec(l_nm) == 36 + t0.l_nm);
                assert(data@.subrange(36 + l_nm, (36 + l_nm + sequences_bytes(exp).len()) as int) =~= sequences_bytes(exp));
                assert(data@.subrange(36 + l_nm, 36 + l_nm) =~= sequences_bytes(exp.take(0))) by {
                    assert(exp.take(0) =~= Seq::<SequenceModel>::empty());
                }
            }
        }
        let raw = slice_to_vec(data, 36, 36 + l_nm as usize);
        let names = split_names(&raw);
        pos = 36 + l_nm as usize;
        let seq_start = pos;
        proof {
            if cond {
                assert(seq_start == 36 + t0.l_nm);
            }
        }
        let seq_index = read_sequences(data, &mut pos, n_ref, Ghost(exp))?;
        if pos != data.len() {
            return Err(BGZFError::InvalidData);
        }
        let t = TabixIndex {
            n_ref,
            format,
            col_seq,
            col_beg,
            col_end,
            meta,
            skip,
            l_nm,
            names,
            seq_index,
        };
        proof {
            let head = tbi_head(n_ref, format, col_seq, col_beg, col_end, meta, skip, l_nm);
            assert(data@.subrange(0, 36) =~= head);
            assert(raw@ =~= data@.subrange(36, 36 + l_nm));
            assert(data@ =~= data@.subrange(0, 36) + data@.subrange(36, 36 + l_nm) + data@.subrange(
                seq_start as int,
                pos as int,
            ));
            assert(t.seq_index@.len() == t.n_ref);
            assert forall|j: int| 0 <= j < t.n_ref implies sequence_counts_ok(#[trigger] t.seqs_view()[j]) by {
                assert(t.seqs_view()[j] == t.seq_index@[j]@);
            }
        }
        Ok(t)
    }
}


impl TabixIndex {
    /// Reads a `.tbi` file: a BGZF stream holding the index.
    #[verifier::rlimit(60)]
    pub fn new(reader: &[u8]) -> (r: Result<Self, BGZFError>)
        ensures
            r matches Ok(t) ==> decode_stream(reader@) matches Some(d) && tbi_layout(d, t),
            decode_stream(reader@) matches Some(d) ==> ((d.len() >= 4 && d.take(4) != seq![84u8, 66u8, 73u8, 1u8]) <==> r == Err::<Self, BGZFError>(BGZFError::NotTabix)),
            index_ok(reader@) ==> r is Ok,
    {
        let source = slice_to_vec(reader, 0, reader.len());
        proof {
            assert(source@ =~= reader@);
        }
        let mut rd = BGZFReader::new(source)?;
        let mut data: Vec<u8> = Vec::new();
        rd.read_to_end(&mut data)?;
        proof {
            assert(Seq::<u8>::empty() + decode_stream(reader@)->Some_0 =~= decode_stream(
                reader@,
            )->Some_0);
        }
        let t = Self::from_bytes(data.as_slice())?;
        Ok(t)
    }

    /// The merged ranges of virtual offsets that may hold records of reference `rid`
    /// overlapping `[begin, end)`.
    pub fn region_chunks(&self, rid: u32, begin: u64, end: u64) -> (r: Vec<(u64, u64)>)
        requires
            (rid as int) < self.seq_index@.len(),
            valid_region(begin, end, DEFAULT_MIN_SHIFT, DEFAULT_DEPTH),
        ensures
            sorted_by_begin(r@),
            r@.to_multiset() == region_chunks_spec(self.seqs_view()[rid as int], begin, end).to_multiset(),
    {
        let mut bins: Vec<u16> = Vec::new();
        reg2bins(begin, end, DEFAULT_MIN_SHIFT, DEFAULT_DEPTH, &mut bins);
        let sq = &self.seq_index[rid as usize];
        let ghost sqm = sq@;
        assert(sqm == self.seqs_view()[rid as int]);
        let ghost ids = bins_below(begin, (end - 1) as u64, DEFAULT_MIN_SHIFT, DEFAULT_DEPTH, 6);
        proof {
            assert(widen(bins@) =~= ids);
        }
        let min_off: u64 = if sq.interval.len() == 0 {
            0
        } else if (begin >> 14u64) < sq.interval.len() as u64 {
            sq.interval[(begin >> 14u64) as usize]
        } else {
            sq.interval[sq.interval.len() - 1]
        };
        assert(min_off == linear_min(sqm.interval, begin));
        let mut simplify = RegionSimplify::new();
        let ghost mut acc: Seq<(u64, u64)> = Seq::empty();
        let mut i: usize = 0;
        while i < bins.len()
            invariant
                i <= bins@.len(),
                widen(bins@) == ids,
                sqm == sq@,
                acc == candidate_chunks(sqm.bins, ids.take(i as int), min_off),
                simplify.view_regions() == simplify_all(acc),
            decreases bins.len() - i,
        {
            let b = bins[i] as u32;
            assert(ids[i as int] == b as int);
            let ghost acc_i = acc;
            let mut j: usize = 0;
            while j < sq.bins.len()
                invariant
                    i < bins@.len(),
                    j <= sq.bins@.len(),
                    sqm == sq@,
                    acc == acc_i + chunks_of_bin(sqm.bins.take(j as int), b as int, min_off),
                    simplify.view_regions() == simplify_all(acc),
                decreases sq.bins.len() - j,
            {
                let bi = &sq.bins[j];
                assert(sqm.bins[j as int] == bi@);
                let ghost acc_j = acc;
                if bi.bin == b {
                    let mut k: usize = 0;
                    while k < bi.chunks.len()
                        invariant
                            k <= bi.chunks@.len(),
                            acc == acc_j + kept_chunks(bi.chunks@.take(k as int), min_off),
                            simplify.view_regions() == simplify_all(acc),
                        decreases bi.chunks.len() - k,
                    {
                        let c = bi.chunks[k];
                        proof {
                            assert(bi.chunks@.take(k + 1).drop_last() =~= bi.chunks@.take(k as int));
                        }
                        if c.chunk_end >= min_off {
                            simplify.insert(c.chunk_beg, c.chunk_end);
                            proof {
                                let old_acc = acc;
                                acc = acc.push((c.chunk_beg, c.chunk_end));
                                assert(acc.drop_last() =~= old_acc);
                                assert(acc =~= acc_j + kept_chunks(bi.chunks@.take(k + 1), min_off));
                            }
                        } else {
                            proof {
                                assert(acc =~= acc_j + kept_chunks(bi.chunks@.take(k + 1), min_off));
                            }
                        }
                        k = k + 1;
                    }
                    proof {
                        assert(bi.chunks@.take(k as int) =~= bi.chunks@);
                    }
                }
                proof {
                    assert(sqm.bins.take(j + 1).drop_last() =~= sqm.bins.take(j as int));
                    assert(acc =~= acc_i + chunks_of_bin(sqm.bins.take(j + 1), b as int, min_off));
                }
                j = j + 1;
            }
            proof {
                assert(sqm.bins.take(j as int) =~= sqm.bins);
                assert(ids.take(i + 1).drop_last() =~= ids.take(i as int));
                assert(acc == candidate_chunks(sqm.bins, ids.take(i + 1), min_off));
            }
            i = i + 1;
        }
        proof {
            assert(ids.take(i as int) =~= ids);
        }
        sort_by_begin(simplify.regions())
    }

    /// Name of reference `rid`.
    pub fn rid2name(&self, rid: u32) -> (r: &[u8])
        requires
            (rid as int) < self.names@.len(),
        ensures
            r@ == self.names@[rid as int]@,
    {
        self.names[rid as usize].as_slice()
    }

    /// Index of the reference named `name`: the last with that name, as a map from
    /// names to indices would keep it.
    pub fn name2rid(&self, name: &[u8]) -> (r: Option<u32>)
        ensures
            r matches Some(i) ==> (i as int) < self.names@.len() && self.names@[i as int]@
                == name@ && forall|k: int| i < k < self.names@.len() && k <= u32::MAX ==> self.names@[k]@ != name@,
            r is None ==> forall|k: int| 0 <= k < self.names@.len() && k <= u32::MAX ==> self.names@[k]@ != name@,
    {
        let mut found: Option<u32> = None;
        let mut i: usize = 0;
        while i < self.names.len() && i <= u32::MAX as usize
            invariant
                i <= self.names@.len(),
                i <= u32::MAX + 1,
                found matches Some(j) ==> (j as int) < i && self.names@[j as int]@ == name@ && forall|k: int| j < k < i ==> self.names@[k]@ != name@,
                found is None ==> forall|k: int| 0 <= k < i ==> self.names@[k]@ != name@,
            decreases self.names.len() - i,
        {
            if bytes_eq(self.names[i].as_slice(), name) {
                found = Some(i as u32);
            }
            i = i + 1;
        }
        found
    }

    /// The reference names.
    pub fn names(&self) -> (r: &[Vec<u8>])
        ensures
            r@ == self.names@,
    {
        self.names.as_slice()
    }
}

/// Ranges in ascending order of their begin.
pub open spec fn sorted_by_begin(rs: Seq<(u64, u64)>) -> bool {
    forall|a: int, b: int| 0 <= a < b < rs.len() ==> (#[trigger] rs[a]).0 <= (#[trigger] rs[b]).0
}

/// The ranges of `v` in ascending order of their begin; ranges with equal begins keep
/// their order.
pub fn sort_by_begin(v: Vec<(u64, u64)>) -> (r: Vec<(u64, u64)>)
    ensures
        sorted_by_begin(r@),
        r@.to_multiset() == v@.to_multiset(),
{
    broadcast use vstd::seq_lib::to_multiset_build, vstd::seq_lib::to_multiset_insert;
    let mut out: Vec<(u64, u64)> = Vec::new();
    let mut i: usize = 0;
    proof {
        assert(v@.take(0) =~= Seq::<(u64, u64)>::empty());
        assert(out@ =~= Seq::<(u64, u64)>::empty());
    }
    while i < v.len()
        invariant
            i <= v@.len(),
            sorted_by_begin(out@),
            out@.to_multiset() == v@.take(i as int).to_multiset(),
        decreases v.len() - i,
    {
        let x = v[i];
        let mut j: usize = 0;
        while j < out.len() && out[j].0 <= x.0
            invariant
                j <= out@.len(),
                forall|a: int| 0 <= a < j ==> (#[trigger] out@[a]).0 <= x.0,
            decreases out.len() - j,
        {
            j = j + 1;
        }
        let ghost before = out@;
        out.insert(j, x);
        proof {
            assert(out@ == before.insert(j as int, x));
            assert forall|a: int, b: int| 0 <= a < b < out@.len() implies (#[trigger] out@[a]).0
                <= (#[trigger] out@[b]).0 by {
                if j < before.len() {
                    assert(before[j as int].0 > x.0);
                }
                if a < j && b == j {
                } else if a == j && b > j {
                    assert(out@[b] == before[b - 1]);
                    if j < b - 1 {
                        assert(before[j as int].0 <= before[b - 1].0);
                    }
                } else if a < j && b > j {
                    assert(out@[b] == before[b - 1]);
                } else if b < j {
                } else {
                    assert(out@[a] == before[a - 1]);
                    assert(out@[b] == before[b - 1]);
                }
            }
            assert(v@.take(i + 1) =~= v@.take(i as int).push(x));
            vstd::seq_lib::to_multiset_insert(before, j as int, x);
            vstd::seq_lib::to_multiset_build(v@.take(i as int), x);
        }
        i = i + 1;
    }
    proof {
        assert(v@.take(i as int) =~= v@);
    }
    out
}

/// Whether two byte strings are equal.
pub fn bytes_eq(a: &[u8], b: &[u8]) -> (r: bool)
    ensures
        r == (a@ == b@),
{
    if a.len() != b.len() {
        return false;
    }
    let mut i: usize = 0;
    while i < a.len()
        invariant
            i <= a@.len(),
            a@.len() == b@.len(),
            a@.take(i as int) == b@.take(i as int),
        decreases a.len() - i,
    {
        if a[i] != b[i] {
            proof {
                assert(a@[i as int] != b@[i as int]);
            }
            return false;
        }
        i = i + 1;
        proof {
            assert(a@.take(i as int) =~= b@.take(i as int));
        }
    }
    proof {
        assert(a@ =~= a@.take(i as int));
        assert(b@ =~= b@.take(i as int));
    }
    true
}


/// The value of a run of ASCII digits, most significant first.
pub open spec fn decimal_value(s: Seq<u8>) -> int
    decreases s.len(),
{
    if s.len() == 0 {
        0
    } else {
        10 * decimal_value(s.drop_last()) + (s.last() - 48)
    }
}

pub open spec fn all_digits(s: Seq<u8>) -> bool {
    forall|k: int| 0 <= k < s.len() ==> 48 <= #[trigger] s[k] <= 57
}

/// Reads a non-negative decimal number. Bytes outside ASCII are a UTF-8 error; any
/// other non-digit, an empty field or a value beyond `u64` is invalid data.
pub fn convert_data_to_u64(data: &[u8]) -> (r: Result<u64, BGZFError>)
    ensures
        r matches Ok(v) ==> data@.len() > 0 && all_digits(data@) && v == decimal_value(data@),
        (data@.len() > 0 && all_digits(data@) && decimal_value(data@) <= u64::MAX) ==> r is Ok,
        r matches Err(e) ==> e == BGZFError::Utf8Error || e == BGZFError::InvalidData,
{
    if data.len() == 0 {
        return Err(BGZFError::InvalidData);
    }
    let mut v: u64 = 0;
    let mut i: usize = 0;
    while i < data.len()
        invariant
            0 < data@.len(),
            i <= data@.len(),
            all_digits(data@.take(i as int)),
            v == decimal_value(data@.take(i as int)),
        decreases data.len() - i,
    {
        let c = data[i];
        proof {
            assert(data@.take(i + 1).drop_last() =~= data@.take(i as int));
        }
        if c >= 128 {
            return Err(BGZFError::Utf8Error);
        }
        if c < 48 || c > 57 {
            proof {
                assert(!all_digits(data@)) by {
                    assert(data@[i as int] == c);
                }
            }
            return Err(BGZFError::InvalidData);
        }
        if v > (u64::MAX - (c - 48) as u64) / 10 {
            proof {
                let d = (c - 48) as int;
                let m = u64::MAX as int;
                assert(10 * v + d > m) by (nonlinear_arith)
                    requires
                        v > (m - d) / 10,
                        0 <= d <= 9,
                ;
                assert(decimal_value(data@.take(i + 1)) == 10 * v + d);
                if all_digits(data@) {
                    lemma_decimal_prefix(data@, i as int + 1);
                }
            }
            return Err(BGZFError::InvalidData);
        }
        v = 10 * v + (c - 48) as u64;
        i = i + 1;
        proof {
            assert(all_digits(data@.take(i as int)));
        }
    }
    proof {
        assert(data@.take(i as int) =~= data@);
    }
    Ok(v)
}

/// A digit string's value is at least that of any of its prefixes.
proof fn lemma_decimal_prefix(s: Seq<u8>, n: int)
    requires
        0 <= n <= s.len(),
        all_digits(s),
    ensures
        decimal_value(s.take(n)) <= decimal_value(s),
        decimal_value(s.take(n)) >= 0,
    decreases s.len() - n,
{
    if n < s.len() {
        lemma_decimal_prefix(s, n + 1);
        assert(s.take(n + 1).drop_last() =~= s.take(n));
        lemma_decimal_nonneg(s.take(n));
    } else {
        assert(s.take(n) =~= s);
        lemma_decimal_nonneg(s);
    }
}

proof fn lemma_decimal_nonneg(s: Seq<u8>)
    requires
        all_digits(s),
    ensures
        decimal_value(s) >= 0,
    decreases s.len(),
{
    if s.len() > 0 {
        assert(all_digits(s.drop_last()));
        lemma_decimal_nonneg(s.drop_last());
    }
}

/// The tab-separated fields of `line` from position `i` on, the current one holding
/// `cur` so far.
pub open spec fn split_tabs(line: Seq<u8>, i: int, cur: Seq<u8>) -> Seq<Seq<u8>>
    decreases line.len() - i,
{
    if i < 0 || i >= line.len() {
        seq![cur]
    } else if line[i] == 9 {
        seq![cur] + split_tabs(line, i + 1, Seq::empty())
    } else {
        split_tabs(line, i + 1, cur.push(line[i]))
    }
}

/// The tab-separated fields of `line`.
pub open spec fn fields(line: Seq<u8>) -> Seq<Seq<u8>> {
    split_tabs(line, 0, Seq::empty())
}

/// Bounds of the tab-separated field `k` (from 0) of `line`.
fn field_bounds(line: &[u8], k: usize) -> (r: Option<(usize, usize)>)
    ensures
        r matches Some((a, b)) ==> a <= b <= line@.len() && k < fields(line@).len()
            && line@.subrange(a as int, b as int) == fields(line@)[k as int],
        r is None ==> k >= fields(line@).len(),
{
    let mut field: usize = 0;
    let mut start: usize = 0;
    let mut i: usize = 0;
    let ghost mut prefix: Seq<Seq<u8>> = Seq::empty();
    proof {
        assert(line@.subrange(0, 0) =~= Seq::<u8>::empty());
        assert(fields(line@) =~= prefix + split_tabs(line@, 0, line@.subrange(0, 0)));
    }
    while i < line.len()
        invariant
            start <= i <= line@.len(),
            field <= k,
            prefix.len() == field,
            fields(line@) == prefix + split_tabs(line@, i as int, line@.subrange(start as int, i as int)),
        decreases line.len() - i,
    {
        let ghost cur = line@.subrange(start as int, i as int);
        if line[i] == 9 {
            if field == k {
                proof {
                    assert((prefix + split_tabs(line@, i as int, cur))[k as int] == cur);
                }
                return Some((start, i));
            }
            proof {
                assert(line@.subrange(i + 1, i + 1) =~= Seq::<u8>::empty());
                assert(prefix + (seq![cur] + split_tabs(line@, i + 1, Seq::empty())) =~= prefix.push(cur) + split_tabs(line@, i + 1, Seq::empty()));
                prefix = prefix.push(cur);
            }
            field = field + 1;
            start = i + 1;
        } else {
            proof {
                assert(cur.push(line@[i as int]) =~= line@.subrange(start as int, i + 1));
            }
        }
        i = i + 1;
    }
    proof {
        let cur = line@.subrange(start as int, i as int);
        assert(fields(line@) == prefix + seq![cur]);
        assert((prefix + seq![cur])[field as int] == cur);
    }
    if field == k {
        Some((start, line.len()))
    } else {
        None
    }
}

/// The value of a decimal field, when it is one that fits in 64 bits.
pub open spec fn field_value(f: Seq<u8>) -> Option<u64> {
    if f.len() > 0 && all_digits(f) && decimal_value(f) <= u64::MAX {
        Some(decimal_value(f) as u64)
    } else {
        None
    }
}

/// The zero-based, half-open span of the record `line` by the columns and rules that
/// index `t` names, and whether its sequence column names reference `rid`: the begin
/// column less one under the GFF rule, as is under the BED rule; for VCF the end is the
/// begin plus the length of the REF column; SAM records are refused.
pub open spec fn record_of(line: Seq<u8>, t: TabixIndex, rid: u32) -> Option<(bool, u64, u64)> {
    let fs = fields(line);
    let preset = t.format & 0xffff;
    if t.col_seq == 0 || t.col_beg == 0 || t.col_end == 0 || preset == 1 {
        None
    } else if t.col_seq - 1 >= fs.len() || t.col_beg - 1 >= fs.len() {
        None
    } else {
        match field_value(fs[t.col_beg - 1]) {
            None => None,
            Some(v) => {
                let bed = t.format & 0x10000 != 0;
                if !bed && v == 0 {
                    None
                } else {
                    let begin = if bed {
                        v
                    } else {
                        (v - 1) as u64
                    };
                    let end: Option<u64> = if preset == 2 {
                        if 3 >= fs.len() || fs[3].len() > u64::MAX - begin {
                            None
                        } else {
                            Some((begin + fs[3].len()) as u64)
                        }
                    } else if t.col_end - 1 >= fs.len() {
                        None
                    } else {
                        field_value(fs[t.col_end - 1])
                    };
                    match end {
                        None => None,
                        Some(e) => Some(
                            (
                                (rid as int) < t.names@.len() && fs[t.col_seq - 1]
                                    == t.names@[rid as int]@,
                                begin,
                                e,
                            ),
                        ),
                    }
                }
            },
        }
    }
}

/// The line of `data`, without its newline.
pub open spec fn line_of(data: Seq<u8>) -> Seq<u8> {
    if data.len() > 0 && data.last() == 10 {
        data.drop_last()
    } else {
        data
    }
}

/// A step of a query scan: a line read from chunk range `chunk`, at `offset` in the
/// data from the range's begin and at virtual offset `vof`; or, with no line, the point
/// where the scan of that range stopped.
pub struct ScanEvent {
    pub chunk: int,
    pub offset: int,
    pub vof: u64,
    pub line: Option<Seq<u8>>,
}

/// The data from the virtual offset `begin` to the end of the stream.
pub open spec fn chunk_content(src: Seq<u8>, begin: u64) -> Option<Seq<u8>> {
    skip_opt(decode_stream(src.skip((begin >> 16u64) as int)), (begin & 0xffffu64) as int)
}

/// A line: not empty, with a newline at most at its end.
pub open spec fn one_line(d: Seq<u8>) -> bool {
    d.len() > 0 && forall|k: int| 0 <= k < d.len() - 1 ==> d[k] != 10
}

/// A step is sound: a line lies before its range's end and is the data of the range at
/// its offset, up to and including the next newline (or the end of the stream); a stop
/// comes at or after the range's end, or at the end of the stream.
pub open spec fn event_ok(e: ScanEvent, chunks: Seq<(u64, u64)>, src: Seq<u8>) -> bool {
    &&& 0 <= e.chunk < chunks.len()
    &&& 0 <= e.offset
    &&& match e.line {
        Some(d) => e.vof < chunks[e.chunk].1 && d.len() > 0 && (chunk_content(
            src,
            chunks[e.chunk].0,
        ) matches Some(c) ==> one_line(d) && e.offset + d.len() <= c.len() && d == c.subrange(
            e.offset,
            e.offset + d.len(),
        ) && (d.last() == 10 || e.offset + d.len() == c.len())),
        None => e.vof >= chunks[e.chunk].1 || (chunk_content(src, chunks[e.chunk].0) matches Some(
            c,
        ) ==> e.offset == c.len()),
    }
}

/// Where the step after `tr` must be: after a line, the rest of its range; after a
/// stop, the begin of the next range.
pub open spec fn expected(tr: Seq<ScanEvent>, c0: int, o0: int) -> (int, int) {
    if tr.len() == 0 {
        (c0, o0)
    } else {
        let l = tr.last();
        match l.line {
            Some(d) => (l.chunk, l.offset + d.len()),
            None => (l.chunk + 1, 0),
        }
    }
}

/// `tr` is a scan from range `c0`, offset `o0`, that skips no line and no range.
pub open spec fn trace_ok(tr: Seq<ScanEvent>, chunks: Seq<(u64, u64)>, src: Seq<u8>, c0: int, o0: int) -> bool
    decreases tr.len(),
{
    tr.len() == 0 || (trace_ok(tr.drop_last(), chunks, src, c0, o0) && event_ok(tr.last(), chunks, src)
        && (tr.last().chunk, tr.last().offset) == expected(tr.drop_last(), c0, o0))
}

/// The span of the line `d`, read at virtual offset `vof`, when it is a record that the
/// query `target` asks for: past the skipped lines, not a meta line, on the target
/// reference, and overlapping `[begin, end)`.
pub open spec fn hit_span(t: TabixIndex, target: (u32, u64, u64), skip_end: u64, vof: u64, d: Seq<u8>) -> Option<(u64, u64)> {
    if vof >= skip_end && d.len() > 0 && (d[0] as u32) != t.meta {
        match record_of(line_of(d), t, target.0) {
            Some((same, b, e)) => if same && b < target.2 && target.1 < e {
                Some((b, e))
            } else {
                None
            },
            None => None,
        }
    } else {
        None
    }
}

/// No line of `tr` is a record that the query asks for.
pub open spec fn no_hits(tr: Seq<ScanEvent>, t: TabixIndex, target: (u32, u64, u64), skip_end: u64) -> bool {
    forall|i: int| 0 <= i < tr.len() ==> not_hit(#[trigger] tr[i], t, target, skip_end)
}

/// The step is a stop, or a line that the query does not ask for.
pub open spec fn not_hit(e: ScanEvent, t: TabixIndex, target: (u32, u64, u64), skip_end: u64) -> bool {
    match e.line {
        Some(d) => hit_span(t, target, skip_end, e.vof, d) is None,
        None => true,
    }
}

proof fn lemma_trace_push(tr: Seq<ScanEvent>, e: ScanEvent, chunks: Seq<(u64, u64)>, src: Seq<u8>, c0: int, o0: int)
    requires
        trace_ok(tr, chunks, src, c0, o0),
        event_ok(e, chunks, src),
        (e.chunk, e.offset) == expected(tr, c0, o0),
    ensures
        trace_ok(tr.push(e), chunks, src, c0, o0),
{
    assert(tr.push(e).drop_last() =~= tr);
}

proof fn lemma_no_hits_push(tr: Seq<ScanEvent>, e: ScanEvent, t: TabixIndex, target: (u32, u64, u64), skip_end: u64)
    requires
        no_hits(tr, t, target, skip_end),
        not_hit(e, t, target, skip_end),
    ensures
        no_hits(tr.push(e), t, target, skip_end),
{
    assert forall|i: int| 0 <= i < tr.push(e).len() implies not_hit(#[trigger] tr.push(e)[i], t, target, skip_end) by {
        if i < tr.len() {
            assert(tr.push(e)[i] == tr[i]);
        }
    }
}

/// One record of a tabix-indexed file: the line and its zero-based, half-open span.
#[derive(Debug, Clone, PartialEq, Eq)]
pub struct TabixEntry {
    pub data: Vec<u8>,
    pub begin: u64,
    pub end: u64,
}

/// A BGZF-compressed, position-sorted tabular file with its tabix index.
pub struct TabixFile {
    pub reader: BGZFReader,
    pub tabix: TabixIndex,
    target_rid: u32,
    target_begin: u64,
    target_end: u64,
    chunks: Vec<(u64, u64)>,
    current_chunk: usize,
    first_scan: bool,
    skip_end: u64,
    line_start: u64,
    offset: Ghost<int>,
    scan: Ghost<Seq<ScanEvent>>,
}

impl TabixFile {
    pub closed spec fn wf(&self) -> bool {
        &&& self.reader.wf()
        &&& self.offset@ >= 0
        &&& !self.first_scan && self.current_chunk < self.chunks@.len() ==> (chunk_content(
            self.reader.source(),
            self.chunks@[self.current_chunk as int].0,
        ) matches Some(c) ==> 0 <= self.offset@ <= c.len() && self.reader.content() == Some(
            c.skip(self.offset@),
        ))
    }

    /// The chunk range being scanned, or about to be.
    pub closed spec fn cursor(&self) -> int {
        self.current_chunk as int
    }

    /// Where scanning resumes within that range's data: 0 when the range is still to
    /// be sought.
    pub closed spec fn resume_offset(&self) -> int {
        if self.first_scan {
            0
        } else {
            self.offset@
        }
    }

    /// What the last call of `read` did, in order.
    pub closed spec fn last_scan(&self) -> Seq<ScanEvent> {
        self.scan@
    }

    /// The reader over the data file.
    pub closed spec fn spec_reader(&self) -> BGZFReader {
        self.reader
    }

    /// The compressed data file.
    pub closed spec fn source(&self) -> Seq<u8> {
        self.reader.source()
    }

    /// The index.
    pub closed spec fn index(&self) -> TabixIndex {
        self.tabix
    }

    /// The merged chunk ranges of the last fetch.
    pub closed spec fn chunk_ranges(&self) -> Seq<(u64, u64)> {
        self.chunks@
    }

    /// Virtual offset just after the leading lines that the index says to skip.
    pub closed spec fn spec_skip_end(&self) -> u64 {
        self.skip_end
    }

    /// Virtual offset where the last line read began.
    pub closed spec fn spec_line_start(&self) -> u64 {
        self.line_start
    }

    /// The region of the last fetch: reference, begin, end.
    pub closed spec fn target(&self) -> (u32, u64, u64) {
        (self.target_rid, self.target_begin, self.target_end)
    }

    /// Opens the compressed file `reader` with the compressed index `index_reader`.
    pub fn new(reader: Vec<u8>, index_reader: &[u8]) -> (r: Result<Self, BGZFError>)
        ensures
            r matches Ok(f) ==> f.wf(),
            r matches Ok(f) ==> (decode_stream(index_reader@) matches Some(d) && tbi_layout(
                d,
                f.index(),
            )),
            r matches Ok(f) ==> f.source() == reader@,
            r matches Ok(f) ==> f.spec_reader().spec_bgzf_pos() == f.spec_skip_end() && f.spec_reader().positioned()
                && (decode_stream(reader@) matches Some(d) ==> f.spec_reader().content() == Some(
                d.skip(lines_len(d, f.index().skip as nat)),
            )),
            tabix_open_ok(reader@, index_reader@) ==> r is Ok,
    {
        let mut bgz_reader = BGZFReader::new(reader)?;
        let index = TabixIndex::new(index_reader)?;
        let mut line: Vec<u8> = Vec::new();
        let mut k: u32 = 0;
        let ghost mut consumed: int = 0;
        proof {
            if let Some(d) = decode_stream(reader@) {
                assert(d.skip(0) =~= d);
            }
        }
        while k <= index.skip
            invariant
                bgz_reader.wf(),
                bgz_reader.positioned(),
                bgz_reader.source() == reader@,
                k <= index.skip,
                decode_stream(reader@) matches Some(d) ==> (0 <= consumed <= d.len() && bgz_reader.content() == Some(d.skip(consumed))
                    && lines_len(d, index.skip as nat) == consumed + lines_len(d.skip(consumed), (index.skip - k) as nat)),
            ensures
                decode_stream(reader@) matches Some(d) ==> bgz_reader.content() == Some(d.skip(lines_len(d, index.skip as nat))),
            decreases index.skip - k,
        {
            if k == index.skip {
                proof {
                    if let Some(d) = decode_stream(reader@) {
                        assert(lines_len(d.skip(consumed), 0) == 0);
                    }
                }
                break;
            }
            line.clear();
            let ghost c = bgz_reader.content();
            let n = bgz_reader.read_until(10, &mut line)?;
            proof {
                if let Some(d) = decode_stream(reader@) {
                    let rest = d.skip(consumed);
                    if n > 0 {
                        lemma_newline_from(rest, 0, n as int);
                        assert(line_len(rest) == n);
                        assert(rest.skip(n as int) =~= d.skip(consumed + n));
                    } else {
                        assert(rest.len() == 0);
                    }
                }
            }
            if n == 0 {
                proof {
                    if let Some(d) = decode_stream(reader@) {
                        assert(lines_len(d.skip(consumed), (index.skip - k) as nat) == 0);
                    }
                }
                break;
            }
            proof {
                consumed = consumed + n;
            }
            k = k + 1;
        }
        let skip_end = bgz_reader.bgzf_pos();
        Ok(TabixFile {
            skip_end,
            line_start: 0,
            offset: Ghost(0),
            scan: Ghost(Seq::empty()),
            reader: bgz_reader,
            tabix: index,
            target_rid: 0,
            target_begin: 0,
            target_end: 0,
            chunks: Vec::new(),
            current_chunk: 0,
            first_scan: true,
        })
    }

    /// Selects the zero-based, half-open region `[begin, end)` of reference `rid`.
    pub fn fetch0(&mut self, rid: u32, begin: u64, end: u64) -> (r: Result<(), BGZFError>)
        requires
            old(self).wf(),
        ensures
            final(self).wf(),
            final(self).index() == old(self).index(),
            r is Ok <==> ((rid as int) < old(self).index().seq_index@.len() && valid_region(
                begin,
                end,
                DEFAULT_MIN_SHIFT,
                DEFAULT_DEPTH,
            )),
            r is Ok ==> final(self).target() == (rid, begin, end) && sorted_by_begin(final(self).chunk_ranges())
                && final(self).chunk_ranges().to_multiset() == region_chunks_spec(old(self).index().seqs_view()[rid as int], begin, end).to_multiset(),
    {
        if rid as usize >= self.tabix.seq_index.len() || begin >= end || end > (1u64 << 29u64) {
            proof {
                assert((1u64 << 29u64) == 0x2000_0000) by (bit_vector);
                if begin < end {
                    let e = (end - 1) as u64;
                    assert(e >> 29u64 == 0 ==> e < 0x2000_0000) by (bit_vector);
                }
            }
            return Err(BGZFError::InvalidData);
        }
        proof {
            assert((1u64 << 29u64) == 0x2000_0000) by (bit_vector);
            let e = (end - 1) as u64;
            assert(e < 0x2000_0000 ==> e >> 29u64 == 0) by (bit_vector);
            assert(e >> 29u64 == 0 ==> e < 0x2000_0000) by (bit_vector);
        }
        self.target_rid = rid;
        self.target_begin = begin;
        self.target_end = end;
        self.chunks = self.tabix.region_chunks(rid, begin, end);
        self.current_chunk = 0;
        self.first_scan = true;
        Ok(())
    }

    /// Selects the one-based, closed region `[begin, end]` of reference `rid`.
    pub fn fetch(&mut self, rid: u32, begin: u64, end: u64) -> (r: Result<(), BGZFError>)
        requires
            old(self).wf(),
        ensures
            final(self).wf(),
            final(self).index() == old(self).index(),
            r is Ok <==> (begin >= 1 && (rid as int) < old(self).index().seq_index@.len()
                && valid_region((begin - 1) as u64, end, DEFAULT_MIN_SHIFT, DEFAULT_DEPTH)),
            r is Ok ==> final(self).target() == (rid, (begin - 1) as u64, end) && sorted_by_begin(
                final(self).chunk_ranges(),
            ) && final(self).chunk_ranges().to_multiset() == region_chunks_spec(
                old(self).index().seqs_view()[rid as int],
                (begin - 1) as u64,
                end,
            ).to_multiset(),
    {
        if begin == 0 {
            return Err(BGZFError::InvalidData);
        }
        self.fetch0(rid, begin - 1, end)
    }

    /// The span of a record line, by the columns that the index names, and whether
    /// its sequence column names reference `rid`.
    fn record_span(&self, line: &[u8]) -> (r: Result<(bool, u64, u64), BGZFError>)
        ensures
            r matches Ok(x) ==> record_of(line@, self.tabix, self.target_rid) == Some(x),
            record_of(line@, self.tabix, self.target_rid) is Some ==> r is Ok,
    {
        let t = &self.tabix;
        if t.col_seq == 0 || t.col_beg == 0 || t.col_end == 0 {
            return Err(BGZFError::InvalidData);
        }
        let preset = t.format & 0xffff;
        if preset == 1 {
            return Err(BGZFError::InvalidData);
        }
        let (sa, sb) = match field_bounds(line, (t.col_seq - 1) as usize) {
            Some(x) => x,
            None => {
                return Err(BGZFError::InvalidData);
            },
        };
        let (ba, bb) = match field_bounds(line, (t.col_beg - 1) as usize) {
            Some(x) => x,
            None => {
                return Err(BGZFError::InvalidData);
            },
        };
        let value = match convert_data_to_u64(slice_subrange(line, ba, bb)) {
            Ok(v) => v,
            Err(e) => {
                return Err(e);
            },
        };
        let bed_rule = t.format & 0x10000 != 0;
        let begin = if bed_rule {
            value
        } else if value > 0 {
            value - 1
        } else {
            return Err(BGZFError::InvalidData);
        };
        let end = if preset == 2 {
            let (ra, rb) = match field_bounds(line, 3) {
                Some(x) => x,
                None => {
                    return Err(BGZFError::InvalidData);
                },
            };
            if (rb - ra) as u64 > u64::MAX - begin {
                return Err(BGZFError::InvalidData);
            }
            begin + (rb - ra) as u64
        } else {
            let (ea, eb) = match field_bounds(line, (t.col_end - 1) as usize) {
                Some(x) => x,
                None => {
                    return Err(BGZFError::InvalidData);
                },
            };
            match convert_data_to_u64(slice_subrange(line, ea, eb)) {
                Ok(v) => v,
                Err(e) => {
                    return Err(e);
                },
            }
        };
        let same_seq = (self.target_rid as usize) < t.names.len() && crate::tbi::bytes_eq(
            slice_subrange(line, sa, sb),
            t.names[self.target_rid as usize].as_slice(),
        );
        Ok((same_seq, begin, end))
    }

    /// The next record of the fetched region: its line (with its newline) goes to
    /// `data`, and its zero-based, half-open span is returned. Meta lines are skipped;
    /// `None` when the region holds no more records.
    #[verifier::rlimit(100)]
    pub fn read(&mut self, data: &mut Vec<u8>) -> (r: Result<Option<(u64, u64)>, BGZFError>)
        requires
            old(self).wf(),
        ensures
            final(self).wf(),
            final(self).target() == old(self).target(),
            final(self).index() == old(self).index(),
            final(self).source() == old(self).source(),
            final(self).chunk_ranges() == old(self).chunk_ranges(),
            final(self).spec_skip_end() == old(self).spec_skip_end(),
            r is Ok ==> trace_ok(
                final(self).last_scan(),
                old(self).chunk_ranges(),
                old(self).source(),
                old(self).cursor(),
                old(self).resume_offset(),
            ),
            r == Ok::<Option<(u64, u64)>, BGZFError>(None) ==> expected(
                final(self).last_scan(),
                old(self).cursor(),
                old(self).resume_offset(),
            ).0 >= old(self).chunk_ranges().len() && final(self).cursor() >= old(self).chunk_ranges().len()
                && no_hits(final(self).last_scan(), old(self).index(), old(self).target(), old(self).spec_skip_end()),
            r matches Ok(Some((b, e))) ==> {
                let tr = final(self).last_scan();
                &&& tr.len() > 0
                &&& tr.last().line == Some(final(data)@)
                &&& hit_span(old(self).index(), old(self).target(), old(self).spec_skip_end(), tr.last().vof, final(data)@) == Some((b, e))
                &&& no_hits(tr.drop_last(), old(self).index(), old(self).target(), old(self).spec_skip_end())
                &&& final(self).cursor() == tr.last().chunk
                &&& final(self).resume_offset() == tr.last().offset + final(data)@.len()
            },
            r matches Ok(Some((b, e))) ==> b < old(self).target().2 && old(self).target().1 < e
                && record_of(line_of(final(data)@), old(self).index(), old(self).target().0) == Some((true, b, e))
                && final(data)@[0] as u32 != old(self).index().meta
                && final(self).spec_line_start() >= final(self).spec_skip_end(),
    {
        let ghost src = self.reader.source();
        let ghost c0 = self.current_chunk as int;
        let ghost o0 = if self.first_scan { 0int } else { self.offset@ };
        let ghost mut tr: Seq<ScanEvent> = Seq::empty();
        while self.current_chunk < self.chunks.len()
            invariant
                self.wf(),
                self.target() == old(self).target(),
                self.chunks@ == old(self).chunks@,
                self.tabix == old(self).tabix,
                self.skip_end == old(self).skip_end,
                self.reader.source() == src,
                src == old(self).source(),
                c0 == old(self).cursor(),
                o0 == old(self).resume_offset(),
                trace_ok(tr, self.chunks@, src, c0, o0),
                expected(tr, c0, o0) == (self.current_chunk as int, if self.first_scan { 0int } else { self.offset@ }),
                no_hits(tr, self.tabix, self.target(), self.skip_end),
            decreases self.chunks.len() - self.current_chunk,
        {
            let chunk = self.chunks[self.current_chunk];
            let cc = self.current_chunk;
            if self.first_scan {
                self.reader.bgzf_seek(chunk.0)?;
                self.first_scan = false;
                self.offset = Ghost(0);
                proof {
                    if let Some(c) = chunk_content(src, chunk.0) {
                        assert(c.skip(0) =~= c);
                    }
                }
            }
            loop
                invariant_except_break
                    expected(tr, c0, o0) == (cc as int, self.offset@),
                invariant
                    self.wf(),
                    self.target() == old(self).target(),
                    self.chunks@ == old(self).chunks@,
                    self.tabix == old(self).tabix,
                    self.skip_end == old(self).skip_end,
                    self.reader.source() == src,
                    src == old(self).source(),
                    c0 == old(self).cursor(),
                    o0 == old(self).resume_offset(),
                    self.current_chunk == cc,
                    cc < self.chunks@.len(),
                    chunk == self.chunks@[cc as int],
                    !self.first_scan,
                    trace_ok(tr, self.chunks@, src, c0, o0),
                    no_hits(tr, self.tabix, self.target(), self.skip_end),
                    self.offset@ >= 0,
                ensures
                    expected(tr, c0, o0) == (cc + 1, 0int),
                decreases self.reader.progress().0, self.reader.progress().1,
            {
                proof {
                    self.reader.lemma_progress_nonneg();
                }
                let line_start = self.reader.bgzf_pos();
                if line_start >= chunk.1 {
                    proof {
                        let e = ScanEvent { chunk: cc as int, offset: self.offset@, vof: line_start, line: None };
                        lemma_trace_push(tr, e, self.chunks@, src, c0, o0);
                        lemma_no_hits_push(tr, e, self.tabix, self.target(), self.skip_end);
                        tr = tr.push(e);
                    }
                    break;
                }
                data.clear();
                let ghost content_before = self.reader.content();
                let n = match self.reader.read_until(10, data) {
                    Ok(n) => n,
                    Err(e) => {
                        self.first_scan = true;
                        return Err(e);
                    },
                };
                proof {
                    self.reader.lemma_progress_nonneg();
                }
                if n == 0 {
                    proof {
                        if let Some(c) = chunk_content(src, chunk.0) {
                            assert(c.skip(self.offset@).len() == 0);
                            assert(c.skip(self.offset@).skip(0) =~= c.skip(self.offset@));
                        }
                        let e = ScanEvent { chunk: cc as int, offset: self.offset@, vof: line_start, line: None };
                        lemma_trace_push(tr, e, self.chunks@, src, c0, o0);
                        lemma_no_hits_push(tr, e, self.tabix, self.target(), self.skip_end);
                        tr = tr.push(e);
                    }
                    break;
                }
                let ghost ev = ScanEvent { chunk: cc as int, offset: self.offset@, vof: line_start, line: Some(data@) };
                proof {
                    if let Some(c) = chunk_content(src, chunk.0) {
                        let off = self.offset@;
                        assert(c.skip(off).take(n as int) =~= c.subrange(off, off + n));
                        assert(c.skip(off).skip(n as int) =~= c.skip(off + n));
                        if n < c.skip(off).len() {
                            assert(c.skip(off)[n - 1] == c[off + n - 1]);
                        }
                    }
                    assert(data@.len() == n);
                    lemma_trace_push(tr, ev, self.chunks@, src, c0, o0);
                }
                self.offset = Ghost(self.offset@ + n);
                let line_len = if data[n - 1] == 10 {
                    n - 1
                } else {
                    n
                };
                let ghost hit = hit_span(self.tabix, self.target(), self.skip_end, line_start, data@);
                if line_start < self.skip_end || data[0] as u32 == self.tabix.meta {
                    proof {
                        lemma_no_hits_push(tr, ev, self.tabix, self.target(), self.skip_end);
                        tr = tr.push(ev);
                    }
                    continue;
                }
                self.line_start = line_start;
                let line = slice_subrange(data.as_slice(), 0, line_len);
                proof {
                    assert(line@ =~= line_of(data@));
                }
                let (same_seq, begin, end) = self.record_span(line)?;
                if same_seq && begin < self.target_end && self.target_begin < end {
                    proof {
                        let before = tr;
                        tr = tr.push(ev);
                        assert(trace_ok(tr, self.chunks@, src, c0, o0));
                        assert(tr.drop_last() =~= before);
                    }
                    self.scan = Ghost(tr);
                    return Ok(Some((begin, end)));
                }
                proof {
                    lemma_no_hits_push(tr, ev, self.tabix, self.target(), self.skip_end);
                    tr = tr.push(ev);
                }
            }
            self.first_scan = true;
            self.current_chunk = self.current_chunk + 1;
        }
        self.scan = Ghost(tr);
        Ok(None)
    }
}

} // verus!
