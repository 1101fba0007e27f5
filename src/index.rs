//! The `.gzi` index: block boundaries after the first block, as
//! (compressed offset, uncompressed offset) pairs.
use crate::error::BGZFError;
use vstd::prelude::*;

verus! {

/// One entry of a `.gzi` index.
#[derive(Debug, Clone, Copy, PartialEq, Eq, PartialOrd, Ord, Hash)]
pub struct BGZFIndexEntry {
    pub compressed_offset: u64,
    pub uncompressed_offset: u64,
}

/// A `.gzi` index.
#[derive(Debug, Clone, PartialEq, Eq)]
pub struct BGZFIndex {
    pub entries: Vec<BGZFIndexEntry>,
}

/// Byte `k` (0..8) of the little-endian form of `v`.
pub open spec fn byte_of(v: u64, k: int) -> u8 {
    ((v >> ((8 * k) as u64)) & 0xff) as u8
}

/// Little-endian bytes of a `u64`.
pub open spec fn le64(v: u64) -> Seq<u8> {
    Seq::new(8, |k: int| byte_of(v, k))
}

/// The little-endian `u64` at `i`.
pub open spec fn read64(s: Seq<u8>, i: int) -> u64 {
    (s[i] as u64) | ((s[i + 1] as u64) << 8u64) | ((s[i + 2] as u64) << 16u64) | ((s[i + 3] as u64)
        << 24u64) | ((s[i + 4] as u64) << 32u64) | ((s[i + 5] as u64) << 40u64) | ((s[i + 6] as u64)
        << 48u64) | ((s[i + 7] as u64) << 56u64)
}

/// Wire form of one entry.
pub open spec fn entry_bytes(e: BGZFIndexEntry) -> Seq<u8> {
    le64(e.compressed_offset) + le64(e.uncompressed_offset)
}

/// Wire form of the entries, without the count.
pub open spec fn entries_bytes(es: Seq<BGZFIndexEntry>) -> Seq<u8>
    decreases es.len(),
{
    if es.len() == 0 {
        Seq::empty()
    } else {
        entries_bytes(es.drop_last()) + entry_bytes(es.last())
    }
}

/// Wire form of a `.gzi` file: the count, then the entries.
pub open spec fn gzi_bytes(es: Seq<BGZFIndexEntry>) -> Seq<u8> {
    le64(es.len() as u64) + entries_bytes(es)
}

/// The entry stored at slot `k` of the file `s`.
pub open spec fn entry_at(s: Seq<u8>, k: int) -> BGZFIndexEntry {
    BGZFIndexEntry {
        compressed_offset: read64(s, 8 + 16 * k),
        uncompressed_offset: read64(s, 16 + 16 * k),
    }
}

/// Both offsets strictly increase; compressed offsets fit in 48 bits and lie after
/// the first block; an in-block offset can be added to any uncompressed offset.
pub open spec fn sorted_entries(es: Seq<BGZFIndexEntry>) -> bool {
    &&& forall|i: int, j: int|
        0 <= i < j < es.len() ==> #[trigger] es[i].compressed_offset
            < #[trigger] es[j].compressed_offset && es[i].uncompressed_offset
            < es[j].uncompressed_offset
    &&& forall|i: int|
        0 <= i < es.len() ==> 0 < #[trigger] es[i].compressed_offset < 0x1_0000_0000_0000
            && es[i].uncompressed_offset <= u64::MAX - 0xffff
}

/// The entries of a `.gzi` file, when it is complete.
pub open spec fn parse_gzi(s: Seq<u8>) -> Result<Seq<BGZFIndexEntry>, BGZFError> {
    if s.len() < 8 || s.len() < 8 + 16 * read64(s, 0) {
        Err(BGZFError::UnexpectedEof)
    } else {
        Ok(Seq::new(read64(s, 0) as nat, |k: int| entry_at(s, k)))
    }
}

/// The last entry whose uncompressed offset is at most `pos`, among the first `n`;
/// the implicit `(0, 0)` when there is none.
pub open spec fn floor_entry(es: Seq<BGZFIndexEntry>, pos: u64, n: int) -> BGZFIndexEntry
    decreases n,
{
    if n <= 0 {
        BGZFIndexEntry { compressed_offset: 0, uncompressed_offset: 0 }
    } else if es[n - 1].uncompressed_offset <= pos {
        es[n - 1]
    } else {
        floor_entry(es, pos, n - 1)
    }
}

/// Virtual offset of uncompressed position `pos`.
pub open spec fn to_vof(es: Seq<BGZFIndexEntry>, pos: u64) -> u64 {
    let e = floor_entry(es, pos, es.len() as int);
    (e.compressed_offset << 16u64) | (((pos - e.uncompressed_offset) as u64) & 0xffffu64)
}

/// Index of an entry that starts at compressed offset `c`.
pub open spec fn coff_index(es: Seq<BGZFIndexEntry>, c: u64) -> Option<int> {
    if exists|k: int| 0 <= k < es.len() && es[k].compressed_offset == c {
        Some(choose|k: int| 0 <= k < es.len() && es[k].compressed_offset == c)
    } else {
        None
    }
}

/// Uncompressed position of virtual offset `v`.
pub open spec fn to_upos(es: Seq<BGZFIndexEntry>, v: u64) -> Result<u64, BGZFError> {
    let c = v >> 16u64;
    if c == 0 {
        Ok(v)
    } else {
        match coff_index(es, c) {
            Some(k) => Ok((es[k].uncompressed_offset + (v & 0xffffu64)) as u64),
            None => Err(BGZFError::InvalidBgzfPosition),
        }
    }
}


/// Little-endian `u64` at `i`.
pub fn get_le64(data: &[u8], i: usize) -> (r: u64)
    requires
        i + 8 <= data@.len(),
    ensures
        r == read64(data@, i as int),
{
    (data[i] as u64) | ((data[i + 1] as u64) << 8u64) | ((data[i + 2] as u64) << 16u64) | ((data[i
        + 3] as u64) << 24u64) | ((data[i + 4] as u64) << 32u64) | ((data[i + 5] as u64) << 40u64)
        | ((data[i + 6] as u64) << 48u64) | ((data[i + 7] as u64) << 56u64)
}

/// Appends the little-endian bytes of `v`.
pub fn push_le64(out: &mut Vec<u8>, v: u64)
    ensures
        final(out)@ == old(out)@ + le64(v),
{
    out.push((v & 0xff) as u8);
    out.push(((v >> 8u64) & 0xff) as u8);
    out.push(((v >> 16u64) & 0xff) as u8);
    out.push(((v >> 24u64) & 0xff) as u8);
    out.push(((v >> 32u64) & 0xff) as u8);
    out.push(((v >> 40u64) & 0xff) as u8);
    out.push(((v >> 48u64) & 0xff) as u8);
    out.push(((v >> 56u64) & 0xff) as u8);
    proof {
        assert(v >> 0u64 == v) by (bit_vector);
        assert(final(out)@ =~= old(out)@ + le64(v));
    }
}

/// The bytes of a little-endian `u64` are those it was read from.
pub proof fn lemma_le64_of_read(s: Seq<u8>, i: int)
    requires
        0 <= i,
        i + 8 <= s.len(),
    ensures
        le64(read64(s, i)) == s.subrange(i, i + 8),
{
    let b0 = s[i];
    let b1 = s[i + 1];
    let b2 = s[i + 2];
    let b3 = s[i + 3];
    let b4 = s[i + 4];
    let b5 = s[i + 5];
    let b6 = s[i + 6];
    let b7 = s[i + 7];
    let v = read64(s, i);
    assert(v == (b0 as u64) | ((b1 as u64) << 8u64) | ((b2 as u64) << 16u64) | ((b3 as u64)
        << 24u64) | ((b4 as u64) << 32u64) | ((b5 as u64) << 40u64) | ((b6 as u64) << 48u64) | ((
    b7 as u64) << 56u64));
    assert(((v >> 0u64) & 0xff) as u8 == b0 && ((v >> 8u64) & 0xff) as u8 == b1 && ((v >> 16u64)
        & 0xff) as u8 == b2 && ((v >> 24u64) & 0xff) as u8 == b3 && ((v >> 32u64) & 0xff) as u8
        == b4 && ((v >> 40u64) & 0xff) as u8 == b5 && ((v >> 48u64) & 0xff) as u8 == b6 && ((v
        >> 56u64) & 0xff) as u8 == b7) by (bit_vector)
        requires
            v == (b0 as u64) | ((b1 as u64) << 8u64) | ((b2 as u64) << 16u64) | ((b3 as u64)
                << 24u64) | ((b4 as u64) << 32u64) | ((b5 as u64) << 40u64) | ((b6 as u64)
                << 48u64) | ((b7 as u64) << 56u64),
    ;
    assert(le64(v) =~= s.subrange(i, i + 8));
}

proof fn lemma_sums_prefix(sizes: Seq<(usize, usize)>, j: int)
    requires
        0 <= j <= sizes.len(),
    ensures
        sum_compressed(sizes.take(j)) <= sum_compressed(sizes),
        sum_uncompressed(sizes.take(j)) <= sum_uncompressed(sizes),
    decreases sizes.len() - j,
{
    if j < sizes.len() {
        lemma_sums_prefix(sizes, j + 1);
        assert(sizes.take(j + 1).drop_last() =~= sizes.take(j));
    } else {
        assert(sizes.take(j) =~= sizes);
    }
}

proof fn lemma_entries_take(es: Seq<BGZFIndexEntry>, i: int)
    requires
        0 <= i < es.len(),
    ensures
        entries_bytes(es.take(i + 1)) == entries_bytes(es.take(i)) + entry_bytes(es[i]),
{
    assert(es.take(i + 1).drop_last() =~= es.take(i));
}

proof fn lemma_floor_skip(es: Seq<BGZFIndexEntry>, pos: u64, i: int, n: int)
    requires
        0 <= i <= n <= es.len(),
        forall|k: int| i <= k < n ==> es[k].uncompressed_offset > pos,
    ensures
        floor_entry(es, pos, n) == floor_entry(es, pos, i),
    decreases n - i,
{
    if n > i {
        lemma_floor_skip(es, pos, i, n - 1);
    }
}

/// The entries for blocks of `sizes` (uncompressed, compressed) written one after
/// another from offsets `cpos` and `upos`: where each block ends.
pub open spec fn size_entries(cpos: int, upos: int, sizes: Seq<(usize, usize)>) -> Seq<
    BGZFIndexEntry,
>
    decreases sizes.len(),
{
    if sizes.len() == 0 {
        Seq::empty()
    } else {
        let init = sizes.drop_last();
        size_entries(cpos, upos, init).push(
            BGZFIndexEntry {
                compressed_offset: (cpos + sum_compressed(init) + sizes.last().1) as u64,
                uncompressed_offset: (upos + sum_uncompressed(init) + sizes.last().0) as u64,
            },
        )
    }
}

pub open spec fn sum_compressed(sizes: Seq<(usize, usize)>) -> int
    decreases sizes.len(),
{
    if sizes.len() == 0 {
        0
    } else {
        sum_compressed(sizes.drop_last()) + sizes.last().1
    }
}

pub open spec fn sum_uncompressed(sizes: Seq<(usize, usize)>) -> int
    decreases sizes.len(),
{
    if sizes.len() == 0 {
        0
    } else {
        sum_uncompressed(sizes.drop_last()) + sizes.last().0
    }
}

impl BGZFIndex {
    /// Records blocks of `sizes` (uncompressed, compressed) written one after another
    /// from offsets `cpos` and `upos`; returns the offsets after them.
    pub fn append_sizes(&mut self, cpos: u64, upos: u64, sizes: &Vec<(usize, usize)>) -> (r:
        Result<(u64, u64), BGZFError>)
        ensures
            r matches Ok((c, u)) ==> final(self).entries@ == old(self).entries@ + size_entries(
                cpos as int,
                upos as int,
                sizes@,
            ) && c == cpos + sum_compressed(sizes@) && u == upos + sum_uncompressed(sizes@),
            (cpos + sum_compressed(sizes@) <= u64::MAX && upos + sum_uncompressed(sizes@)
                <= u64::MAX) ==> r is Ok,
            r is Err ==> r == Err::<(u64, u64), BGZFError>(BGZFError::StreamTooLong),
    {
        let mut c = cpos;
        let mut u = upos;
        let mut i: usize = 0;
        let ghost start = self.entries@;
        proof {
            assert(sizes@.take(0) =~= Seq::<(usize, usize)>::empty());
            assert(start + size_entries(cpos as int, upos as int, sizes@.take(0)) =~= start);
        }
        while i < sizes.len()
            invariant
                i <= sizes@.len(),
                start == old(self).entries@,
                self.entries@ == start + size_entries(cpos as int, upos as int, sizes@.take(i as int)),
                c == cpos + sum_compressed(sizes@.take(i as int)),
                u == upos + sum_uncompressed(sizes@.take(i as int)),
            decreases sizes.len() - i,
        {
            let (us, cs) = sizes[i];
            proof {
                assert(sizes@.take(i + 1).drop_last() =~= sizes@.take(i as int));
                assert(sizes@.take(i + 1).last() == sizes@[i as int]);
                lemma_sums_prefix(sizes@, i + 1);
            }
            if cs as u64 > u64::MAX - c || us as u64 > u64::MAX - u {
                return Err(BGZFError::StreamTooLong);
            }
            c = c + cs as u64;
            u = u + us as u64;
            self.entries.push(BGZFIndexEntry { compressed_offset: c, uncompressed_offset: u });
            i = i + 1;
            proof {
                assert(self.entries@ =~= start + size_entries(cpos as int, upos as int, sizes@.take(i as int)));
            }
        }
        proof {
            assert(sizes@.take(i as int) =~= sizes@);
        }
        Ok((c, u))
    }

    /// Whether the entries are sorted as the offset translations need.
    pub fn is_sorted(&self) -> (r: bool)
        ensures
            r == sorted_entries(self.entries@),
    {
        let mut i: usize = 0;
        while i < self.entries.len()
            invariant
                i <= self.entries@.len(),
                sorted_entries(self.entries@.take(i as int)),
            decreases self.entries.len() - i,
        {
            let e = self.entries[i];
            let ghost t = self.entries@.take(i as int);
            if e.compressed_offset == 0 || e.compressed_offset >= 0x1_0000_0000_0000
                || e.uncompressed_offset > u64::MAX - 0xffff {
                proof {
                    assert(self.entries@[i as int] == e);
                }
                return false;
            }
            if i > 0 {
                let prev = self.entries[i - 1];
                if prev.compressed_offset >= e.compressed_offset || prev.uncompressed_offset
                    >= e.uncompressed_offset {
                    proof {
                        let es = self.entries@;
                        assert(es[i - 1] == prev && es[i as int] == e);
                        assert(es[i - 1].compressed_offset >= es[i as int].compressed_offset
                            || es[i - 1].uncompressed_offset >= es[i as int].uncompressed_offset);
                    }
                    return false;
                }
            }
            proof {
                let t2 = self.entries@.take(i + 1);
                assert forall|a: int, b: int| 0 <= a < b < t2.len() implies #[trigger] t2[a].compressed_offset
                    < #[trigger] t2[b].compressed_offset && t2[a].uncompressed_offset
                    < t2[b].uncompressed_offset by {
                    if b == i {
                        if a < i - 1 {
                            assert(t[a].compressed_offset < t[i - 1].compressed_offset);
                        }
                    } else {
                        assert(t[a].compressed_offset < t[b].compressed_offset);
                    }
                }
            }
            i = i + 1;
        }
        proof {
            assert(self.entries@.take(i as int) =~= self.entries@);
        }
        true
    }

    /// An index without entries.
    pub fn new() -> (r: Self)
        ensures
            r.entries@ == Seq::<BGZFIndexEntry>::empty(),
    {
        BGZFIndex { entries: Vec::new() }
    }

    /// The entries, in file order.
    pub fn entries(&self) -> (r: &[BGZFIndexEntry])
        ensures
            r@ == self.entries@,
    {
        self.entries.as_slice()
    }

    /// Loads a `.gzi` file.
    pub fn from_reader(reader: &[u8]) -> (r: Result<Self, BGZFError>)
        ensures
            match r {
                Ok(idx) => parse_gzi(reader@) == Ok::<Seq<BGZFIndexEntry>, BGZFError>(
                    idx.entries@,
                ),
                Err(e) => parse_gzi(reader@) == Err::<Seq<BGZFIndexEntry>, BGZFError>(e),
            },
    {
        let data = reader;
        if data.len() < 8 {
            return Err(BGZFError::UnexpectedEof);
        }
        let n = get_le64(data, 0);
        let room = ((data.len() - 8) / 16) as u64;
        proof {
            let l = data@.len() - 8;
            assert(n <= l / 16 <==> 8 + 16 * n <= data@.len()) by (nonlinear_arith)
                requires
                    l == data@.len() - 8,
                    l >= 0,
            ;
        }
        if n > room {
            return Err(BGZFError::UnexpectedEof);
        }
        let ghost want = Seq::new(n as nat, |k: int| entry_at(data@, k));
        let mut entries: Vec<BGZFIndexEntry> = Vec::new();
        let n = n as usize;
        let len = data.len();
        let mut k: usize = 0;
        while k < n
            invariant
                len == data@.len(),
                data == reader,
                read64(data@, 0) == n,
                k <= n,
                8 <= data@.len(),
                8 + 16 * n <= data@.len(),
                want == Seq::new(n as nat, |k: int| entry_at(data@, k)),
                entries@ == want.take(k as int),
            decreases n - k,
        {
            proof {
                assert(16 * k + 24 <= 8 + 16 * n) by (nonlinear_arith)
                    requires
                        k < n,
                ;
            }
            let at = 8 + 16 * k;
            let e = BGZFIndexEntry {
                compressed_offset: get_le64(data, at),
                uncompressed_offset: get_le64(data, at + 8),
            };
            entries.push(e);
            proof {
                assert(want[k as int] == e);
                assert(entries@ =~= want.take(k + 1));
            }
            k = k + 1;
        }
        proof {
            assert(want.take(n as int) =~= want);
        }
        Ok(BGZFIndex { entries })
    }

    /// Appends the `.gzi` form of the index to `writer`.
    pub fn write(&self, writer: &mut Vec<u8>)
        ensures
            final(writer)@ == old(writer)@ + gzi_bytes(self.entries@),
    {
        let ghost es = self.entries@;
        push_le64(writer, self.entries.len() as u64);
        let ghost base = writer@;
        let mut i: usize = 0;
        proof {
            assert(es.take(0) =~= Seq::<BGZFIndexEntry>::empty());
            assert(writer@ =~= base + entries_bytes(es.take(0)));
        }
        while i < self.entries.len()
            invariant
                i <= es.len(),
                es == self.entries@,
                writer@ == base + entries_bytes(es.take(i as int)),
            decreases self.entries.len() - i,
        {
            proof {
                lemma_entries_take(es, i as int);
            }
            let e = self.entries[i];
            push_le64(writer, e.compressed_offset);
            push_le64(writer, e.uncompressed_offset);
            i = i + 1;
            proof {
                assert(writer@ =~= base + entries_bytes(es.take(i as int)));
            }
        }
        proof {
            assert(es.take(i as int) =~= es);
            assert(writer@ =~= old(writer)@ + gzi_bytes(es));
        }
    }

    /// Virtual offset of the uncompressed position `pos`.
    pub fn uncompressed_pos_to_bgzf_pos(&self, pos: u64) -> (r: Result<u64, BGZFError>)
        requires
            sorted_entries(self.entries@),
        ensures
            r == Ok::<u64, BGZFError>(to_vof(self.entries@, pos)),
    {
        let ghost es = self.entries@;
        let mut lo: usize = 0;
        let mut hi: usize = self.entries.len();
        while lo < hi
            invariant
                0 <= lo <= hi <= es.len(),
                es == self.entries@,
                sorted_entries(es),
                forall|k: int| 0 <= k < lo ==> es[k].uncompressed_offset <= pos,
                forall|k: int| hi <= k < es.len() ==> es[k].uncompressed_offset > pos,
            decreases hi - lo,
        {
            let mid = lo + (hi - lo) / 2;
            if self.entries[mid].uncompressed_offset <= pos {
                proof {
                    assert forall|k: int| 0 <= k <= mid implies es[k].uncompressed_offset
                        <= pos by {
                        if k < mid {
                            assert(es[k].compressed_offset < es[mid as int].compressed_offset);
                        }
                    }
                }
                lo = mid + 1;
            } else {
                proof {
                    assert forall|k: int| mid <= k < es.len() implies es[k].uncompressed_offset
                        > pos by {
                        if k > mid {
                            assert(es[mid as int].compressed_offset < es[k].compressed_offset);
                        }
                    }
                }
                hi = mid;
            }
        }
        proof {
            lemma_floor_skip(es, pos, lo as int, es.len() as int);
        }
        let entry = if lo == 0 {
            BGZFIndexEntry { compressed_offset: 0, uncompressed_offset: 0 }
        } else {
            self.entries[lo - 1]
        };
        Ok((entry.compressed_offset << 16u64) | ((pos - entry.uncompressed_offset) & 0xffffu64))
    }

    /// Uncompressed position of the virtual offset `bgzf_pos`.
    pub fn bgzf_pos_to_uncompressed_pos(&self, bgzf_pos: u64) -> (r: Result<u64, BGZFError>)
        requires
            sorted_entries(self.entries@),
        ensures
            r == to_upos(self.entries@, bgzf_pos),
    {
        let ghost es = self.entries@;
        let compressed_pos = bgzf_pos >> 16u64;
        if compressed_pos == 0 {
            return Ok(bgzf_pos);
        }
        let mut lo: usize = 0;
        let mut hi: usize = self.entries.len();
        while lo < hi
            invariant
                0 <= lo <= hi <= es.len(),
                es == self.entries@,
                sorted_entries(es),
                compressed_pos != 0,
                compressed_pos == bgzf_pos >> 16u64,
                forall|k: int| 0 <= k < lo ==> es[k].compressed_offset < compressed_pos,
                forall|k: int| hi <= k < es.len() ==> es[k].compressed_offset > compressed_pos,
            decreases hi - lo,
        {
            let mid = lo + (hi - lo) / 2;
            let c = self.entries[mid].compressed_offset;
            if c == compressed_pos {
                proof {
                    assert(es[mid as int].compressed_offset == compressed_pos);
                    let k = choose|k: int|
                        0 <= k < es.len() && es[k].compressed_offset == compressed_pos;
                    if k < mid {
                        assert(es[k].compressed_offset < es[mid as int].compressed_offset);
                    }
                    if k > mid {
                        assert(es[mid as int].compressed_offset < es[k].compressed_offset);
                    }
                    assert(k == mid);
                    assert(coff_index(es, compressed_pos) == Some(mid as int));
                    let m = bgzf_pos & 0xffffu64;
                    assert(m <= 0xffff) by (bit_vector)
                        requires
                            m == bgzf_pos & 0xffffu64,
                    ;
                }
                let res = self.entries[mid].uncompressed_offset + (bgzf_pos & 0xffffu64);
                assert(Ok::<u64, BGZFError>(res) == to_upos(es, bgzf_pos));
                return Ok(res);
            } else if c < compressed_pos {
                proof {
                    assert forall|k: int| 0 <= k <= mid implies es[k].compressed_offset
                        < compressed_pos by {
                        if k < mid {
                            assert(es[k].compressed_offset < es[mid as int].compressed_offset);
                        }
                    }
                }
                lo = mid + 1;
            } else {
                proof {
                    assert forall|k: int| mid <= k < es.len() implies es[k].compressed_offset
                        > compressed_pos by {
                        if k > mid {
                            assert(es[mid as int].compressed_offset < es[k].compressed_offset);
                        }
                    }
                }
                hi = mid;
            }
        }
        Err(BGZFError::InvalidBgzfPosition)
    }
}


proof fn lemma_entries_prefix(s: Seq<u8>, es: Seq<BGZFIndexEntry>, k: int)
    requires
        0 <= k <= es.len(),
        s.len() >= 8 + 16 * es.len(),
        forall|i: int| 0 <= i < es.len() ==> #[trigger] es[i] == entry_at(s, i),
    ensures
        entries_bytes(es.take(k)) == s.subrange(8, 8 + 16 * k),
    decreases k,
{
    if k == 0 {
        assert(es.take(0) =~= Seq::<BGZFIndexEntry>::empty());
        assert(s.subrange(8, 8) =~= Seq::<u8>::empty());
    } else {
        lemma_entries_prefix(s, es, k - 1);
        lemma_entries_take(es, k - 1);
        assert(es[k - 1] == entry_at(s, k - 1));
        lemma_le64_of_read(s, 8 + 16 * (k - 1));
        lemma_le64_of_read(s, 16 + 16 * (k - 1));
        assert(s.subrange(8, 8 + 16 * k) =~= s.subrange(8, 8 + 16 * (k - 1)) + s.subrange(
            8 + 16 * (k - 1),
            16 + 16 * (k - 1),
        ) + s.subrange(16 + 16 * (k - 1), 24 + 16 * (k - 1)));
    }
}

/// Loading a complete `.gzi` file and storing the index again gives the same bytes.
pub proof fn lemma_gzi_load_store(s: Seq<u8>)
    requires
        parse_gzi(s) is Ok,
        s.len() == 8 + 16 * read64(s, 0),
    ensures
        parse_gzi(s) matches Ok(es) && gzi_bytes(es) == s,
{
    let es = Seq::new(read64(s, 0) as nat, |k: int| entry_at(s, k));
    lemma_entries_prefix(s, es, es.len() as int);
    assert(es.take(es.len() as int) =~= es);
    lemma_le64_of_read(s, 0);
    assert(s =~= s.subrange(0, 8) + s.subrange(8, 8 + 16 * es.len() as int));
}

proof fn lemma_floor_is_entry(es: Seq<BGZFIndexEntry>, pos: u64, n: int)
    requires
        0 <= n <= es.len(),
    ensures
        floor_entry(es, pos, n) == (BGZFIndexEntry { compressed_offset: 0, uncompressed_offset: 0 })
            || exists|k: int| 0 <= k < n && floor_entry(es, pos, n) == es[k],
    decreases n,
{
    if n > 0 && es[n - 1].uncompressed_offset > pos {
        lemma_floor_is_entry(es, pos, n - 1);
    }
}

/// Each recorded block boundary maps to the virtual offset of its block start, and back.
pub proof fn lemma_gzi_boundary(es: Seq<BGZFIndexEntry>, k: int)
    requires
        sorted_entries(es),
        0 <= k < es.len(),
    ensures
        to_vof(es, es[k].uncompressed_offset) == es[k].compressed_offset << 16u64,
        to_upos(es, es[k].compressed_offset << 16u64) == Ok::<u64, BGZFError>(
            es[k].uncompressed_offset,
        ),
{
    let u = es[k].uncompressed_offset;
    let c = es[k].compressed_offset;
    assert forall|i: int| k + 1 <= i < es.len() implies es[i].uncompressed_offset > u by {
        assert(es[k].compressed_offset < es[i].compressed_offset);
    }
    lemma_floor_skip(es, u, k + 1, es.len() as int);
    assert(floor_entry(es, u, k + 1) == es[k]);
    assert(((c << 16u64) | (0u64 & 0xffffu64)) == c << 16u64) by (bit_vector);
    assert(((c << 16u64) >> 16u64) == c && ((c << 16u64) & 0xffffu64) == 0) by (bit_vector)
        requires
            c < 0x1_0000_0000_0000,
    ;
    assert(es[k].compressed_offset == c);
    let j = choose|j: int| 0 <= j < es.len() && es[j].compressed_offset == c;
    if j < k {
        assert(es[j].compressed_offset < es[k].compressed_offset);
    }
    if j > k {
        assert(es[k].compressed_offset < es[j].compressed_offset);
    }
}

/// A position inside a block (less than 64 KiB after the block's start) survives the
/// trip to a virtual offset and back.
pub proof fn lemma_gzi_vof_round_trip(es: Seq<BGZFIndexEntry>, pos: u64)
    requires
        sorted_entries(es),
        pos - floor_entry(es, pos, es.len() as int).uncompressed_offset < 0x10000,
    ensures
        to_upos(es, to_vof(es, pos)) == Ok::<u64, BGZFError>(pos),
{
    let e = floor_entry(es, pos, es.len() as int);
    lemma_floor_is_entry(es, pos, es.len() as int);
    lemma_floor_le(es, pos, es.len() as int);
    let c = e.compressed_offset;
    let d = (pos - e.uncompressed_offset) as u64;
    let v = to_vof(es, pos);
    assert(d & 0xffffu64 == d) by (bit_vector)
        requires
            d < 0x10000,
    ;
    if c == 0 {
        assert(e.uncompressed_offset == 0) by {
            if e != (BGZFIndexEntry { compressed_offset: 0, uncompressed_offset: 0 }) {
                let k = choose|k: int| 0 <= k < es.len() && e == es[k];
                assert(es[k].compressed_offset > 0);
            }
        }
        assert((0u64 << 16u64) | d == d) by (bit_vector);
        assert(d >> 16u64 == 0) by (bit_vector)
            requires
                d < 0x10000,
        ;
    } else {
        let k = choose|k: int| 0 <= k < es.len() && e == es[k];
        assert(es[k].compressed_offset < 0x1_0000_0000_0000);
        assert((((c << 16u64) | d) >> 16u64) == c && (((c << 16u64) | d) & 0xffffu64) == d)
            by (bit_vector)
            requires
                c < 0x1_0000_0000_0000,
                d < 0x10000,
        ;
        let j = choose|j: int| 0 <= j < es.len() && es[j].compressed_offset == c;
        if j < k {
            assert(es[j].compressed_offset < es[k].compressed_offset);
        }
        if j > k {
            assert(es[k].compressed_offset < es[j].compressed_offset);
        }
    }
}

proof fn lemma_floor_le(es: Seq<BGZFIndexEntry>, pos: u64, n: int)
    requires
        0 <= n <= es.len(),
    ensures
        floor_entry(es, pos, n).uncompressed_offset <= pos,
    decreases n,
{
    if n > 0 && es[n - 1].uncompressed_offset > pos {
        lemma_floor_le(es, pos, n - 1);
    }
}

} // verus!
