//! BGZF writing: one block at a time, and a streaming writer that collects
//! the compressed stream for its caller to send.
use crate::deflate::{crc32, crc32_of, deflate_bound, deflate_of, Compress};
use crate::error::BGZFError;
use crate::index::{sorted_entries, BGZFIndex, BGZFIndexEntry};
use crate::read::{
    body_crc, body_data, body_len, body_ok, body_payload, decode_stream, eof_marker, eof_marker_vec,
    load_block_spec, block_size_of,
};
use crate::deflate::inflate_of;
use crate::header::{
    bgzf_header, canonical_header, header_bytes, header_len, le16, le32, lemma_bgzf_header_round_trip,
    lemma_canonical_header_round_trip, lemma_le32, push_all, push_le32, read32, BGZFHeader,
};
use vstd::prelude::*;
use vstd::slice::slice_subrange;
use crate::deflate::Compression;

verus! {

/// Default number of uncompressed bytes per block.
pub const DEFAULT_COMPRESS_UNIT_SIZE: usize = 65280;

/// Compress units must be smaller than this.
pub const MAXIMUM_COMPRESS_UNIT_SIZE: usize = 64 * 1024;

/// Room left in the scratch buffer for data that does not compress.
pub const EXTRA_COMPRESS_BUFFER_SIZE: usize = 200;

/// Largest DEFLATE payload that keeps a block within 64 KiB.
pub const MAXIMUM_PAYLOAD_SIZE: usize = 65536 - 26;

/// Room given to the DEFLATE payload of a block of `n` bytes: `n` plus a margin, capped
/// so that the block stays within 64 KiB.
pub open spec fn payload_room(n: int) -> int {
    if n + EXTRA_COMPRESS_BUFFER_SIZE < MAXIMUM_PAYLOAD_SIZE {
        n + EXTRA_COMPRESS_BUFFER_SIZE
    } else {
        MAXIMUM_PAYLOAD_SIZE as int
    }
}

/// The wire form of the block that holds `data` compressed at `level`.
pub open spec fn block_bytes(level: i32, data: Seq<u8>) -> Seq<u8> {
    let payload = deflate_of(level, data);
    header_bytes(canonical_header(false, 0, (payload.len() + 26) as u32)) + payload + le32(
        crc32_of(data),
    ) + le32(data.len() as u32)
}

/// Appends to `compressed_data` one BGZF block holding `original_data` and returns
/// the block's size. The block never exceeds 64 KiB: data that does not compress
/// enough fails with `InsufficientSpace`.
pub fn write_block(
    compressed_data: &mut Vec<u8>,
    original_data: &[u8],
    compress: &mut Compress,
) -> (r: Result<usize, BGZFError>)
    requires
        old(compress).valid(),
    ensures
        *final(compress) == *old(compress),
        original_data@.len() >= MAXIMUM_COMPRESS_UNIT_SIZE ==> r == Err::<usize, BGZFError>(
            BGZFError::TooLargeCompressUnit,
        ),
        r matches Ok(n) ==> {
            &&& final(compressed_data)@ == old(compressed_data)@ + block_bytes(
                old(compress).spec_level(),
                original_data@,
            )
            &&& n == block_bytes(old(compress).spec_level(), original_data@).len()
            &&& n <= 65536
            &&& deflate_of(old(compress).spec_level(), original_data@).len() <= MAXIMUM_PAYLOAD_SIZE
            &&& original_data@.len() < MAXIMUM_COMPRESS_UNIT_SIZE
            &&& inflate_of(deflate_of(old(compress).spec_level(), original_data@)) == Some(
                original_data@,
            )
        },
        (original_data@.len() < MAXIMUM_COMPRESS_UNIT_SIZE && deflate_of(
            old(compress).spec_level(),
            original_data@,
        ).len() <= payload_room(original_data@.len() as int)) ==> r is Ok,
        original_data@.len() <= DEFAULT_COMPRESS_UNIT_SIZE ==> r is Ok,
        r is Err ==> final(compressed_data)@ == old(compressed_data)@,
        r matches Err(e) ==> e == BGZFError::TooLargeCompressUnit || e
            == BGZFError::CompressionError(crate::error::CompressError::InsufficientSpace),
{
    if original_data.len() >= MAXIMUM_COMPRESS_UNIT_SIZE {
        return Err(BGZFError::TooLargeCompressUnit);
    }
    let cap = if original_data.len() + EXTRA_COMPRESS_BUFFER_SIZE < MAXIMUM_PAYLOAD_SIZE {
        original_data.len() + EXTRA_COMPRESS_BUFFER_SIZE
    } else {
        MAXIMUM_PAYLOAD_SIZE
    };
    proof {
        let m = original_data@.len() as int;
        if m <= DEFAULT_COMPRESS_UNIT_SIZE {
            assert((m + 4999) / 5000 <= 14);
            assert(deflate_bound(m) <= cap);
        }
    }
    let mut scratch = vec![0u8; cap];
    let n = match compress.compress(original_data, &mut scratch) {
        Ok(n) => n,
        Err(e) => {
            return Err(BGZFError::CompressionError(e));
        },
    };
    scratch.truncate(n);
    let ghost level = compress.spec_level();
    let ghost payload = deflate_of(level, original_data@);
    assert(scratch@ == payload);
    let block_size = n + 26;
    let mut header = BGZFHeader::new(false, 0, 0);
    let _ = header.update_block_size(block_size as u32);
    proof {
        assert(header@.extra_field =~= canonical_header(false, 0, block_size as u32).extra_field);
        assert(header@ == canonical_header(false, 0, block_size as u32));
        lemma_canonical_header_round_trip(false, 0, block_size as u32, Seq::empty());
    }
    let ghost start = compressed_data@;
    let _ = header.write(compressed_data);
    push_all(compressed_data, scratch.as_slice());
    push_le32(compressed_data, crc32(original_data));
    push_le32(compressed_data, original_data.len() as u32);
    proof {
        assert(compressed_data@ =~= start + block_bytes(level, original_data@));
    }
    Ok(block_size)
}


/// The blocks that hold `pieces`, one block each, in order.
pub open spec fn blocks_of(level: i32, pieces: Seq<Seq<u8>>) -> Seq<u8>
    decreases pieces.len(),
{
    if pieces.len() == 0 {
        Seq::empty()
    } else {
        blocks_of(level, pieces.drop_last()) + block_bytes(level, pieces.last())
    }
}

/// The pieces joined.
pub open spec fn flatten(pieces: Seq<Seq<u8>>) -> Seq<u8>
    decreases pieces.len(),
{
    if pieces.len() == 0 {
        Seq::empty()
    } else {
        flatten(pieces.drop_last()) + pieces.last()
    }
}

/// The `.gzi` entries of a stream made of the blocks of `pieces`: where each block
/// ends, in both coordinates.
pub open spec fn boundaries(level: i32, pieces: Seq<Seq<u8>>) -> Seq<BGZFIndexEntry> {
    Seq::new(
        pieces.len(),
        |k: int|
            BGZFIndexEntry {
                compressed_offset: blocks_of(level, pieces.take(k + 1)).len() as u64,
                uncompressed_offset: flatten(pieces.take(k + 1)).len() as u64,
            },
    )
}

/// `s` without its last element, if it has one.
pub open spec fn without_last<T>(s: Seq<T>) -> Seq<T> {
    if s.len() == 0 {
        s
    } else {
        s.drop_last()
    }
}

/// Every piece fills a block of at most 64 KiB.
pub open spec fn pieces_fit(level: i32, pieces: Seq<Seq<u8>>) -> bool {
    forall|k: int|
        0 <= k < pieces.len() ==> 1 <= (#[trigger] pieces[k]).len() < MAXIMUM_COMPRESS_UNIT_SIZE
            && block_bytes(level, pieces[k]).len() <= 65536 && deflate_of(level, pieces[k]).len()
            <= MAXIMUM_PAYLOAD_SIZE && inflate_of(deflate_of(level, pieces[k])) == Some(pieces[k])
}

proof fn lemma_pieces_grow(start: Seq<Seq<u8>>, before: Seq<Seq<u8>>, p: Seq<u8>, unit: int)
    requires
        before.len() >= start.len(),
        before.take(start.len() as int) == start,
        forall|k: int| start.len() <= k < before.len() ==> (#[trigger] before[k]).len() == unit,
        p.len() == unit,
    ensures
        ({
            let after = before.push(p);
            &&& after.len() >= start.len()
            &&& after.take(start.len() as int) == start
            &&& forall|k: int| start.len() <= k < after.len() ==> (#[trigger] after[k]).len() == unit
        }),
{
    let after = before.push(p);
    assert(after.take(start.len() as int) =~= before.take(start.len() as int));
    assert forall|k: int| start.len() <= k < after.len() implies (#[trigger] after[k]).len() == unit by {
        if k < before.len() {
            assert(after[k] == before[k]);
        }
    }
}

proof fn lemma_cancel_prefix(a: Seq<u8>, x: Seq<u8>, y: Seq<u8>)
    requires
        a + x == a + y,
    ensures
        x == y,
{
    assert(x =~= (a + x).skip(a.len() as int));
    assert(y =~= (a + y).skip(a.len() as int));
}

/// Every block that a writer with compress unit `unit` still has to write succeeds:
/// the unit leaves room for libdeflate's worst case, and the offsets stay far below
/// 64 bits.
pub open spec fn writer_fits(unit: int, data_len: int) -> bool {
    unit <= DEFAULT_COMPRESS_UNIT_SIZE && data_len < 0x8000_0000_0000
}

proof fn lemma_blocks_len(level: i32, pieces: Seq<Seq<u8>>)
    requires
        pieces_fit(level, pieces),
    ensures
        blocks_of(level, pieces).len() <= 65536 * flatten(pieces).len(),
    decreases pieces.len(),
{
    if pieces.len() > 0 {
        let init = pieces.drop_last();
        assert forall|k: int| 0 <= k < init.len() implies 1 <= (#[trigger] init[k]).len()
            < MAXIMUM_COMPRESS_UNIT_SIZE && block_bytes(level, init[k]).len() <= 65536
            && deflate_of(level, init[k]).len() <= MAXIMUM_PAYLOAD_SIZE && inflate_of(
            deflate_of(level, init[k]),
        ) == Some(init[k]) by {
            assert(init[k] == pieces[k]);
        }
        lemma_blocks_len(level, init);
        assert(pieces.last() == pieces[pieces.len() - 1]);
    }
}

/// A BGZF writer. Compressed bytes collect in an output buffer that the caller
/// drains with [`BGZFWriter::take_output`].
pub struct BGZFWriter {
    output: Vec<u8>,
    original_data: Vec<u8>,
    compress: Compress,
    compress_unit_size: usize,
    current_compressed_pos: u64,
    current_uncompressed_pos: u64,
    bgzf_index: Option<BGZFIndex>,
    taken: Ghost<Seq<u8>>,
    pieces: Ghost<Seq<Seq<u8>>>,
}

impl BGZFWriter {
    /// The compression level.
    pub closed spec fn level(&self) -> i32 {
        self.compress.spec_level()
    }

    /// Data of the blocks written so far.
    pub closed spec fn pieces(&self) -> Seq<Seq<u8>> {
        self.pieces@
    }

    /// Every byte accepted so far.
    pub closed spec fn data(&self) -> Seq<u8> {
        flatten(self.pieces@) + self.original_data@
    }

    /// Every compressed byte produced so far, taken or not.
    pub closed spec fn stream(&self) -> Seq<u8> {
        self.taken@ + self.output@
    }

    /// Compressed bytes produced and not yet taken.
    pub closed spec fn pending(&self) -> Seq<u8> {
        self.output@
    }

    /// Virtual offset of the next byte to be written: the offset where its block
    /// will start, and its place in that block.
    pub closed spec fn spec_bgzf_pos(&self) -> u64 {
        (self.current_compressed_pos << 16u64) | ((self.original_data@.len() as u64) & 0xffffu64)
    }

    pub closed spec fn unit_size(&self) -> int {
        self.compress_unit_size as int
    }

    /// Whether `.gzi` entries are collected.
    pub closed spec fn indexing(&self) -> bool {
        self.bgzf_index is Some
    }

    pub closed spec fn wf(&self) -> bool {
        &&& self.compress.valid()
        &&& 0 < self.compress_unit_size < MAXIMUM_COMPRESS_UNIT_SIZE
        &&& self.original_data@.len() <= self.compress_unit_size
        &&& pieces_fit(self.compress.spec_level(), self.pieces@)
        &&& self.taken@ + self.output@ == blocks_of(self.compress.spec_level(), self.pieces@)
        &&& self.current_compressed_pos == blocks_of(self.compress.spec_level(), self.pieces@).len()
        &&& self.current_uncompressed_pos == flatten(self.pieces@).len()
        &&& self.bgzf_index matches Some(idx) ==> idx.entries@ == boundaries(
            self.compress.spec_level(),
            self.pieces@,
        )
    }

    /// A writer at `level` with the default compress unit, collecting `.gzi` entries.
    pub fn new(level: Compression) -> (r: Self)
        requires
            level.valid(),
        ensures
            r.wf(),
            r.level() == level.spec_level(),
            r.data() == Seq::<u8>::empty(),
            r.stream() == Seq::<u8>::empty(),
            r.indexing(),
            r.spec_bgzf_pos() == 0,
            r.unit_size() == DEFAULT_COMPRESS_UNIT_SIZE,
            r.pieces() == Seq::<Seq<u8>>::empty(),
            r.taken() == Seq::<u8>::empty(),
            r.pending() == Seq::<u8>::empty(),
    {
        match Self::with_compress_unit_size(level, DEFAULT_COMPRESS_UNIT_SIZE, true) {
            Ok(w) => w,
            Err(_) => {
                assert(false);
                Self::fresh(level, DEFAULT_COMPRESS_UNIT_SIZE, true)
            },
        }
    }

    fn fresh(level: Compression, compress_unit_size: usize, create_index: bool) -> (r: Self)
        requires
            level.valid(),
            0 < compress_unit_size < MAXIMUM_COMPRESS_UNIT_SIZE,
        ensures
            r.wf(),
            r.level() == level.spec_level(),
            r.data() == Seq::<u8>::empty(),
            r.stream() == Seq::<u8>::empty(),
            r.pieces() == Seq::<Seq<u8>>::empty(),
            r.unit_size() == compress_unit_size,
            r.spec_bgzf_pos() == 0,
            r.taken() == Seq::<u8>::empty(),
            r.pending() == Seq::<u8>::empty(),
            r.indexing() == create_index,
    {
        let r = BGZFWriter {
            output: Vec::new(),
            original_data: Vec::new(),
            compress: Compress::new(level),
            compress_unit_size,
            current_compressed_pos: 0,
            current_uncompressed_pos: 0,
            bgzf_index: if create_index {
                Some(BGZFIndex::new())
            } else {
                None
            },
            taken: Ghost(Seq::empty()),
            pieces: Ghost(Seq::empty()),
        };
        proof {
            assert((0u64 << 16u64) | (0u64 & 0xffffu64) == 0) by (bit_vector);
            assert(r.taken@ + r.output@ =~= Seq::<u8>::empty());
            assert(flatten(r.pieces@) + r.original_data@ =~= Seq::<u8>::empty());
            if create_index {
                assert(boundaries(level.spec_level(), r.pieces@) =~= Seq::<BGZFIndexEntry>::empty());
            }
        }
        r
    }

    /// A writer with blocks of `compress_unit_size` uncompressed bytes; units of
    /// 64 KiB or more are refused.
    pub fn with_compress_unit_size(
        level: Compression,
        compress_unit_size: usize,
        create_index: bool,
    ) -> (r: Result<Self, BGZFError>)
        requires
            level.valid(),
        ensures
            r is Err <==> (compress_unit_size == 0 || compress_unit_size >= MAXIMUM_COMPRESS_UNIT_SIZE),
            r matches Err(e) ==> e == if compress_unit_size == 0 {
                BGZFError::InvalidData
            } else {
                BGZFError::TooLargeCompressUnit
            },
            r matches Ok(w) ==> w.taken() == Seq::<u8>::empty() && w.pending() == Seq::<u8>::empty(),
            r matches Ok(w) ==> w.wf() && w.level() == level.spec_level() && w.data()
                == Seq::<u8>::empty() && w.stream() == Seq::<u8>::empty() && w.unit_size() == compress_unit_size && w.indexing() == create_index && w.spec_bgzf_pos() == 0 && w.pieces() == Seq::<Seq<u8>>::empty(),
    {
        if compress_unit_size == 0 {
            return Err(BGZFError::InvalidData);
        }
        if compress_unit_size >= MAXIMUM_COMPRESS_UNIT_SIZE {
            return Err(BGZFError::TooLargeCompressUnit);
        }
        Ok(Self::fresh(level, compress_unit_size, create_index))
    }

    /// Virtual offset of the next byte to be written.
    pub fn bgzf_pos(&self) -> (r: u64)
        ensures
            r == self.spec_bgzf_pos(),
    {
        (self.current_compressed_pos << 16u64) | ((self.original_data.len() as u64) & 0xffffu64)
    }

    /// Number of bytes accepted so far.
    pub fn pos(&self) -> (r: u64)
        requires
            self.wf(),
            self.data().len() <= u64::MAX,
        ensures
            r == self.data().len(),
    {
        self.current_uncompressed_pos + self.original_data.len() as u64
    }

    /// Hands over the compressed bytes produced so far.
    pub fn take_output(&mut self) -> (r: Vec<u8>)
        requires
            old(self).wf(),
        ensures
            final(self).wf(),
            r@ == old(self).pending(),
            final(self).pending() == Seq::<u8>::empty(),
            final(self).stream() == old(self).stream(),
            final(self).data() == old(self).data(),
            final(self).level() == old(self).level(),
            final(self).pieces() == old(self).pieces(),
            final(self).unit_size() == old(self).unit_size(),
    {
        let mut r: Vec<u8> = Vec::new();
        r.append(&mut self.output);
        self.taken = Ghost(self.taken@ + r@);
        proof {
            assert(self.taken@ + self.output@ =~= old(self).taken@ + old(self).output@);
        }
        r
    }

    /// What a writer holds: the stream so far is the blocks of the pieces written, its
    /// virtual offset is the stream's length and the number of bytes buffered, and
    /// every block fits in 64 KiB and decodes back to its piece.
    pub proof fn lemma_writer_state(&self)
        requires
            self.wf(),
        ensures
            self.stream() == self.taken() + self.pending(),
            self.stream() == blocks_of(self.level(), self.pieces()),
            self.data() == flatten(self.pieces()) + self.buffered(),
            pieces_fit(self.level(), self.pieces()),
            self.buffered().len() <= self.unit_size(),
            self.spec_bgzf_pos() == ((blocks_of(self.level(), self.pieces()).len() as u64)
                << 16u64) | ((self.buffered().len() as u64) & 0xffffu64),
    {
    }

    /// Bytes accepted and not yet compressed.
    pub closed spec fn buffered(&self) -> Seq<u8> {
        self.original_data@
    }

    /// The pieces the stream is made of once the buffered bytes are compressed.
    pub closed spec fn closing_pieces(&self) -> Seq<Seq<u8>> {
        if self.original_data@.len() == 0 {
            self.pieces@
        } else {
            self.pieces@.push(self.original_data@)
        }
    }

    /// Bytes already handed over.
    pub closed spec fn taken(&self) -> Seq<u8> {
        self.taken@
    }

    /// Compresses the buffered bytes into one block.
    fn write_block(&mut self) -> (r: Result<(), BGZFError>)
        requires
            old(self).wf(),
            old(self).original_data@.len() > 0,
        ensures
            final(self).wf(),
            final(self).level() == old(self).level(),
            final(self).unit_size() == old(self).unit_size(),
            final(self).taken() == old(self).taken(),
            final(self).indexing() == old(self).indexing(),
            final(self).data() == old(self).data(),
            final(self).closing_pieces() == old(self).closing_pieces(),
            r is Ok ==> final(self).buffered() == Seq::<u8>::empty() && final(self).pieces()
                == old(self).pieces().push(old(self).buffered()),
            writer_fits(old(self).unit_size(), old(self).data().len() as int) ==> r is Ok,
            r is Err ==> final(self).pieces() == old(self).pieces() && final(self).buffered()
                == old(self).buffered(),
    {
        proof {
            lemma_blocks_len(self.compress.spec_level(), self.pieces@);
        }
        if self.current_compressed_pos > u64::MAX - 65536 || self.current_uncompressed_pos
            > u64::MAX - 65536 {
            return Err(BGZFError::StreamTooLong);
        }
        let ghost level = self.compress.spec_level();
        let ghost p = self.original_data@;
        let ghost old_pieces = self.pieces@;
        let n = write_block(&mut self.output, self.original_data.as_slice(), &mut self.compress)?;
        self.current_compressed_pos = self.current_compressed_pos + n as u64;
        self.current_uncompressed_pos = self.current_uncompressed_pos + self.original_data.len() as u64;
        self.pieces = Ghost(self.pieces@.push(p));
        proof {
            assert(self.pieces@.drop_last() =~= old_pieces);
            assert(self.taken@ + self.output@ =~= blocks_of(level, self.pieces@));
            assert forall|k: int| 0 <= k < self.pieces@.len() implies 1 <= (
            #[trigger] self.pieces@[k]).len() < MAXIMUM_COMPRESS_UNIT_SIZE && block_bytes(
                level,
                self.pieces@[k],
            ).len() <= 65536 && deflate_of(level, self.pieces@[k]).len()
                <= MAXIMUM_PAYLOAD_SIZE && inflate_of(deflate_of(level, self.pieces@[k])) == Some(
                self.pieces@[k],
            ) by {
                if k < old_pieces.len() {
                    assert(self.pieces@[k] == old_pieces[k]);
                }
            }
        }
        let entry = BGZFIndexEntry {
            compressed_offset: self.current_compressed_pos,
            uncompressed_offset: self.current_uncompressed_pos,
        };
        match &mut self.bgzf_index {
            Some(idx) => {
                idx.entries.push(entry);
            },
            None => {},
        }
        proof {
            if let Some(idx) = &self.bgzf_index {
                assert forall|k: int| 0 <= k < old_pieces.len() implies #[trigger] self.pieces@.take(k + 1)
                    == old_pieces.take(k + 1) by {
                    assert(self.pieces@.take(k + 1) =~= old_pieces.take(k + 1));
                }
                assert(self.pieces@.take(old_pieces.len() as int + 1) =~= self.pieces@);
                assert(idx.entries@ =~= boundaries(level, self.pieces@));
            }
        }
        self.original_data.clear();
        proof {
            assert(flatten(self.pieces@) + self.original_data@ =~= flatten(old_pieces) + p);
        }
        Ok(())
    }

    /// Accepts `buf`; full blocks are compressed as they fill.
    #[verifier::rlimit(100)]
    pub fn write(&mut self, buf: &[u8]) -> (r: Result<usize, BGZFError>)
        requires
            old(self).wf(),
        ensures
            final(self).wf(),
            final(self).level() == old(self).level(),
            final(self).unit_size() == old(self).unit_size(),
            final(self).taken() == old(self).taken(),
            final(self).indexing() == old(self).indexing(),
            r matches Ok(n) ==> n == buf@.len() && final(self).data() == old(self).data() + buf@,
            writer_fits(old(self).unit_size(), (old(self).data().len() + buf@.len()) as int) ==> r is Ok,
            final(self).pieces().len() >= old(self).pieces().len(),
            final(self).pieces().take(old(self).pieces().len() as int) == old(self).pieces(),
            forall|k: int|
                old(self).pieces().len() <= k < final(self).pieces().len() ==> (
                #[trigger] final(self).pieces()[k]).len() == old(self).unit_size(),
            r is Ok && old(self).buffered().len() < old(self).unit_size() ==> final(self).buffered().len()
                < old(self).unit_size(),
    {
        let mut pos: usize = 0;
        while pos < buf.len()
            invariant
                self.wf(),
                pos <= buf@.len(),
                self.level() == old(self).level(),
                self.unit_size() == old(self).unit_size(),
                self.taken() == old(self).taken(),
                self.indexing() == old(self).indexing(),
                self.data() == old(self).data() + buf@.take(pos as int),
                writer_fits(old(self).unit_size(), (old(self).data().len() + buf@.len()) as int)
                    ==> writer_fits(self.unit_size(), self.data().len() + (buf@.len() - pos)),
                self.pieces().len() >= old(self).pieces().len(),
                self.pieces().take(old(self).pieces().len() as int) == old(self).pieces(),
                forall|k: int|
                    old(self).pieces().len() <= k < self.pieces().len() ==> (
                    #[trigger] self.pieces()[k]).len() == old(self).unit_size(),
                pos > 0 || old(self).buffered().len() < old(self).unit_size() ==> self.buffered().len() < old(self).unit_size(),
            decreases buf.len() - pos,
        {
            if self.original_data.len() >= self.compress_unit_size {
                let ghost before = self.pieces@;
                let ghost buffered = self.original_data@;
                self.write_block()?;
                proof {
                    lemma_pieces_grow(old(self).pieces@, before, buffered, self.compress_unit_size as int);
                }
            }
            let room = self.compress_unit_size - self.original_data.len();
            let to_write = if buf.len() - pos < room {
                buf.len() - pos
            } else {
                room
            };
            let ghost before = self.original_data@;
            let ghost d0 = self.data();
            assert(d0 == flatten(self.pieces@) + before);
            let piece = slice_subrange(buf, pos, pos + to_write);
            push_all(&mut self.original_data, piece);
            proof {
                assert(self.original_data@ == before + buf@.subrange(pos as int, pos + to_write));
                assert(buf@.take(pos as int) + buf@.subrange(pos as int, pos + to_write) =~= buf@.take(pos + to_write));
                assert(self.data() == flatten(self.pieces@) + self.original_data@);
                assert(self.data() =~= d0 + buf@.subrange(pos as int, pos + to_write));
                assert(self.data() =~= old(self).data() + buf@.take(pos + to_write));
            }
            if self.original_data.len() >= self.compress_unit_size {
                let ghost before = self.pieces@;
                let ghost buffered = self.original_data@;
                self.write_block()?;
                proof {
                    lemma_pieces_grow(old(self).pieces@, before, buffered, self.compress_unit_size as int);
                }
            }
            assert(buf@.take(pos as int).len() == pos);
            pos = pos + to_write;
        }
        proof {
            assert(buf@.take(pos as int) =~= buf@);
        }
        Ok(buf.len())
    }

    /// Compresses the buffered bytes, if any, into a block.
    pub fn flush(&mut self) -> (r: Result<(), BGZFError>)
        requires
            old(self).wf(),
        ensures
            final(self).wf(),
            final(self).level() == old(self).level(),
            final(self).taken() == old(self).taken(),
            final(self).indexing() == old(self).indexing(),
            final(self).data() == old(self).data(),
            final(self).closing_pieces() == old(self).closing_pieces(),
            r is Ok ==> final(self).buffered() == Seq::<u8>::empty(),
            writer_fits(old(self).unit_size(), old(self).data().len() as int) ==> r is Ok,
            final(self).unit_size() == old(self).unit_size(),
    {
        if self.original_data.len() > 0 {
            self.write_block()?;
        }
        Ok(())
    }

    /// Compresses what is buffered, ends the stream with the end-of-file marker, and
    /// returns the compressed bytes not yet taken with the `.gzi` index (its last
    /// entry, which would point at the marker, left out).
    #[verifier::rlimit(100)]
    pub fn close(self) -> (r: Result<(Vec<u8>, Option<BGZFIndex>), BGZFError>)
        requires
            self.wf(),
        ensures
            r matches Ok((out, idx)) ==> {
                let ps = self.closing_pieces();
                &&& self.taken() + out@ == blocks_of(self.level(), ps) + eof_marker()
                &&& flatten(ps) == self.data()
                &&& pieces_fit(self.level(), ps)
                &&& out@.len() >= 28
                &&& out@.skip(out@.len() - 28) == eof_marker()
                &&& idx is Some == self.indexing()
                &&& (idx matches Some(i) ==> i.entries@ == without_last(boundaries(self.level(), ps)))
                &&& out@ == self.pending() + (if self.buffered().len() > 0 {
                    block_bytes(self.level(), self.buffered())
                } else {
                    Seq::empty()
                }) + eof_marker()
            },
            writer_fits(self.unit_size(), self.data().len() as int) ==> r is Ok,
    {
        let mut w = self;
        let ghost before = w;
        w.flush()?;
        assert(w.closing_pieces() == w.pieces@);
        proof {
            if before.original_data@.len() > 0 {
                assert(w.pieces@.drop_last() =~= before.pieces@);
                assert(w.pieces@.last() == before.original_data@);
                assert(w.taken@ + w.output@ =~= before.taken@ + (before.output@ + block_bytes(
                    before.compress.spec_level(),
                    before.original_data@,
                )));
            } else {
                assert(w.pieces@ == before.pieces@);
                assert(w.taken@ + w.output@ =~= before.taken@ + (before.output@ + Seq::<u8>::empty()));
            }
            assert(w.taken@ == before.taken@);
            lemma_cancel_prefix(w.taken@, w.output@, before.output@ + if before.original_data@.len() > 0 {
                block_bytes(before.compress.spec_level(), before.original_data@)
            } else {
                Seq::empty()
            });
        }
        let marker = eof_marker_vec();
        push_all(&mut w.output, marker.as_slice());
        let out = w.output;
        let mut index = w.bgzf_index;
        match &mut index {
            Some(i) => {
                let _ = i.entries.pop();
            },
            None => {},
        }
        proof {
            assert(flatten(w.pieces@) =~= flatten(w.pieces@) + Seq::<u8>::empty());
            assert(out@.skip(out@.len() - 28) =~= eof_marker());
            if let Some(i) = &index {
                assert(i.entries@ =~= without_last(boundaries(w.compress.spec_level(), w.pieces@)));
            }
        }
        Ok((out, index))
    }
}


} // verus!
