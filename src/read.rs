//! BGZF reading: loading and decoding blocks, and the reader's block walk.
use crate::deflate::{crc32, crc32_of, inflate_of, Decompress};
use crate::error::BGZFError;
use crate::header::{
    bc_from, get_le32, header_len, lemma_parsed_header_len, parse_header, push_all, read16,
    read32, slice_to_vec, BGZFHeader, HeaderModel,
};
use vstd::prelude::*;
use vstd::slice::slice_subrange;
use crate::index::{sorted_entries, to_vof, BGZFIndex, BGZFIndexEntry};

verus! {

/// The canonical empty block that ends every BGZF stream.
pub const EOF_MARKER: [u8; 28] = [
    0x1f,
    0x8b,
    0x08,
    0x04,
    0x00,
    0x00,
    0x00,
    0x00,
    0x00,
    0xff,
    0x06,
    0x00,
    0x42,
    0x43,
    0x02,
    0x00,
    0x1b,
    0x00,
    0x03,
    0x00,
    0x00,
    0x00,
    0x00,
    0x00,
    0x00,
    0x00,
    0x00,
    0x00,
];

/// The bytes of the end-of-file marker.
pub open spec fn eof_marker() -> Seq<u8> {
    seq![
        0x1fu8, 0x8b, 0x08, 0x04, 0x00, 0x00, 0x00, 0x00, 0x00, 0xff, 0x06, 0x00, 0x42, 0x43,
        0x02, 0x00, 0x1b, 0x00, 0x03, 0x00, 0x00, 0x00, 0x00, 0x00, 0x00, 0x00, 0x00, 0x00,
    ]
}

/// The block size that a header's `BC` subfield records.
pub open spec fn block_size_of(m: HeaderModel) -> Option<int> {
    match bc_from(m.extra_field, 0) {
        Some(i) => Some(read16(m.extra_field[i].data, 0) + 1),
        None => None,
    }
}

/// The header of the block at the start of `s` and the block's size, or the
/// error met while loading it.
pub open spec fn load_block_spec(s: Seq<u8>) -> Result<(HeaderModel, int), BGZFError> {
    match parse_header(s) {
        Err(e) => Err(e),
        Ok(m) => match block_size_of(m) {
            None => Err(BGZFError::NotBGZF),
            Some(bs) => if bs < header_len(m) + 8 {
                Err(BGZFError::InvalidData)
            } else if bs > s.len() {
                Err(BGZFError::UnexpectedEof)
            } else {
                Ok((m, bs))
            },
        },
    }
}

/// The DEFLATE payload of a block body (the bytes after the header).
pub open spec fn body_payload(body: Seq<u8>) -> Seq<u8> {
    body.take(body.len() - 8)
}

/// The CRC32 that a block body's footer records.
pub open spec fn body_crc(body: Seq<u8>) -> u32 {
    read32(body, body.len() - 8)
}

/// The uncompressed length that a block body's footer records.
pub open spec fn body_len(body: Seq<u8>) -> u32 {
    read32(body, body.len() - 4)
}

/// The body's payload is a valid DEFLATE stream whose data has the length and CRC32
/// that the footer records.
pub open spec fn body_ok(body: Seq<u8>) -> bool {
    inflate_of(body_payload(body)) matches Some(d) && d.len() == body_len(body) && crc32_of(d)
        == body_crc(body)
}

/// The data that a block body's payload decodes to (empty when it does not decode).
pub open spec fn body_data(body: Seq<u8>) -> Seq<u8> {
    match inflate_of(body_payload(body)) {
        Some(d) => d,
        None => Seq::empty(),
    }
}

/// Loads the block at the start of `reader`: returns its header and puts the rest of
/// the block (payload and footer) in `buffer`.
pub fn load_block(reader: &[u8], buffer: &mut Vec<u8>) -> (r: Result<BGZFHeader, BGZFError>)
    ensures
        match r {
            Ok(h) => load_block_spec(reader@) matches Ok((m, bs)) && m == h@ && final(buffer)@
                == reader@.subrange(header_len(m), bs),
            Err(e) => load_block_spec(reader@) == Err::<(HeaderModel, int), BGZFError>(e)
                && final(buffer)@ == old(buffer)@,
        },
{
    let header = BGZFHeader::from_reader(reader)?;
    let block_size = header.block_size()?;
    proof {
        lemma_parsed_header_len(reader@);
    }
    let reader_len = reader.len();
    assert(header_len(header@) <= reader_len);
    let header_size = header.header_size();
    if (block_size as u64) < 8 || (block_size as u64) - 8 < header_size {
        return Err(BGZFError::InvalidData);
    }
    if block_size as usize > reader.len() {
        return Err(BGZFError::UnexpectedEof);
    }
    *buffer = slice_to_vec(reader, header_size as usize, block_size as usize);
    Ok(header)
}

/// Decodes a block body loaded by [`load_block`] and appends the data to
/// `decompressed_data`. Fails on a length or CRC32 that differs from the footer.
pub fn decompress_block(
    decompressed_data: &mut Vec<u8>,
    compressed_block: &[u8],
    decompress: &mut Decompress,
) -> (r: Result<(), BGZFError>)
    requires
        compressed_block@.len() >= 8,
    ensures
        r is Ok <==> body_ok(compressed_block@),
        r is Ok ==> final(decompressed_data)@ == old(decompressed_data)@ + body_data(
            compressed_block@,
        ),
        r is Err ==> final(decompressed_data)@ == old(decompressed_data)@,
        r matches Err(e) ==> e == BGZFError::UnmatchedCrc || e == BGZFError::UnmatchedLength
            || e is DecompressionError,
{
    let len = compressed_block.len();
    let expected_len = get_le32(compressed_block, len - 4);
    let expected_crc = get_le32(compressed_block, len - 8);
    let payload = slice_to_vec(compressed_block, 0, len - 8);
    proof {
        assert(payload@ =~= body_payload(compressed_block@));
    }
    let mut out = vec![0u8; expected_len as usize];
    let n = match decompress.decompress(payload.as_slice(), &mut out) {
        Ok(n) => n,
        Err(e) => {
            return Err(BGZFError::DecompressionError(e));
        },
    };
    if n != expected_len as usize {
        return Err(BGZFError::UnmatchedLength);
    }
    proof {
        assert(out@.take(n as int) =~= out@);
    }
    if crc32(out.as_slice()) != expected_crc {
        return Err(BGZFError::UnmatchedCrc);
    }
    push_all(decompressed_data, out.as_slice());
    Ok(())
}


/// The uncompressed bytes of the stream `s`, block after block, up to the end-of-file
/// marker or the end of `s`; `None` when a block is malformed or corrupt.
#[verifier::opaque]
pub open spec fn decode_stream(s: Seq<u8>) -> Option<Seq<u8>>
    decreases s.len(),
{
    if s.len() == 0 {
        Some(Seq::empty())
    } else {
        match load_block_spec(s) {
            Err(_) => None,
            Ok((m, bs)) => if bs <= 0 || bs > s.len() {
                None
            } else if s.take(bs) == eof_marker() {
                Some(Seq::empty())
            } else {
                let body = s.subrange(header_len(m), bs);
                if !body_ok(body) {
                    None
                } else {
                    match decode_stream(s.skip(bs)) {
                        Some(rest) => Some(body_data(body) + rest),
                        None => None,
                    }
                }
            },
        }
    }
}


/// The data of the first block of `s`: empty for the end-of-file marker, an empty or
/// malformed `s`.
pub open spec fn first_block_data(s: Seq<u8>) -> Seq<u8> {
    match load_block_spec(s) {
        Ok((m, bs)) => if 0 < bs <= s.len() && s.take(bs) != eof_marker() {
            body_data(s.subrange(header_len(m), bs))
        } else {
            Seq::empty()
        },
        Err(_) => Seq::empty(),
    }
}

/// Seeking to virtual offset `v` in `src` succeeds: the stream from the block at
/// `v >> 16` decodes, and `v & 0xffff` lies within that block's data.
pub open spec fn seek_ok(src: Seq<u8>, v: u64) -> bool {
    let c = (v >> 16u64) as int;
    &&& c <= src.len()
    &&& decode_stream(src.skip(c)) is Some
    &&& (v & 0xffffu64) <= first_block_data(src.skip(c)).len()
}

/// `o` without its first `n` bytes.
pub open spec fn skip_opt(o: Option<Seq<u8>>, n: int) -> Option<Seq<u8>> {
    match o {
        Some(c) => if n <= c.len() {
            Some(c.skip(n))
        } else {
            None
        },
        None => None,
    }
}

/// `a` comes before `b` in lexicographic order.
pub open spec fn lex_lt(a: (int, int), b: (int, int)) -> bool {
    a.0 < b.0 || (a.0 == b.0 && a.1 < b.1)
}

/// The end-of-file marker, as a vector.
pub fn eof_marker_vec() -> (r: Vec<u8>)
    ensures
        r@ == eof_marker(),
{
    let mut r: Vec<u8> = Vec::new();
    let mut i: usize = 0;
    while i < 28
        invariant
            i <= 28,
            r@ == eof_marker().take(i as int),
        decreases 28 - i,
    {
        let b: u8 = if i == 0 {
            0x1f
        } else if i == 1 {
            0x8b
        } else if i == 2 {
            0x08
        } else if i == 3 {
            0x04
        } else if i == 9 {
            0xff
        } else if i == 10 {
            0x06
        } else if i == 12 {
            0x42
        } else if i == 13 {
            0x43
        } else if i == 14 {
            0x02
        } else if i == 16 {
            0x1b
        } else if i == 18 {
            0x03
        } else {
            0
        };
        r.push(b);
        i = i + 1;
        proof {
            assert(r@ =~= eof_marker().take(i as int));
        }
    }
    proof {
        assert(eof_marker().take(28) =~= eof_marker());
    }
    r
}

/// Whether `block` is exactly the end-of-file marker.
pub fn is_eof_marker(block: &[u8]) -> (r: bool)
    ensures
        r == (block@ == eof_marker()),
{
    let marker = eof_marker_vec();
    if block.len() != 28 {
        return false;
    }
    let mut i: usize = 0;
    while i < 28
        invariant
            i <= 28,
            block@.len() == 28,
            marker@ == eof_marker(),
            block@.take(i as int) == marker@.take(i as int),
        decreases 28 - i,
    {
        if block[i] != marker[i] {
            return false;
        }
        i = i + 1;
        proof {
            assert(block@.take(i as int) =~= marker@.take(i as int));
        }
    }
    proof {
        assert(block@ =~= block@.take(28));
        assert(marker@ =~= marker@.take(28));
    }
    true
}

/// A BGZF reader over an in-memory compressed stream, with random access by
/// virtual offset.
pub struct BGZFReader {
    source: Vec<u8>,
    decompress: Decompress,
    compressed_buffer: Vec<u8>,
    current_buffer: Vec<u8>,
    current_block: u64,
    next_block: u64,
    current_position_in_block: usize,
    eof_pos: u64,
}

impl BGZFReader {
    /// The compressed stream.
    pub closed spec fn source(&self) -> Seq<u8> {
        self.source@
    }

    /// Offset in the stream of the block that follows the current one.
    pub closed spec fn spec_next_block(&self) -> int {
        self.next_block as int
    }

    /// Bytes of the current block not yet delivered.
    pub closed spec fn available(&self) -> int {
        self.current_buffer@.len() - self.current_position_in_block
    }

    /// The bytes not yet delivered, up to the end of the stream, when the rest of the
    /// stream decodes.
    pub closed spec fn content(&self) -> Option<Seq<u8>> {
        match decode_stream(self.source@.skip(self.next_block as int)) {
            Some(r) => Some(self.current_buffer@.skip(self.current_position_in_block as int) + r),
            None => None,
        }
    }

    /// The virtual offset of the next byte to deliver.
    pub closed spec fn spec_bgzf_pos(&self) -> u64 {
        (self.current_block << 16u64) | ((self.current_position_in_block as u64) & 0xffffu64)
    }

    /// How far the reader is from the end: blocks left, then bytes left in the block.
    pub closed spec fn progress(&self) -> (int, int) {
        (self.source@.len() - self.next_block, self.available())
    }

    /// Both parts of the progress measure are natural numbers.
    pub proof fn lemma_progress_nonneg(&self)
        requires
            self.wf(),
        ensures
            self.progress().0 >= 0 && self.progress().1 >= 0,
    {
    }

    pub closed spec fn wf(&self) -> bool {
        &&& self.next_block <= self.source@.len()
        &&& self.current_position_in_block <= self.current_buffer@.len()
    }

    /// The current block is the one that starts at `current_block`: when the rest of
    /// the stream decodes, the stream from there decodes to the current block's data
    /// followed by the rest.
    pub closed spec fn positioned(&self) -> bool {
        decode_stream(self.source@.skip(self.next_block as int)) matches Some(rest) ==> {
            &&& self.current_block <= self.next_block
            &&& first_block_data(self.source@.skip(self.current_block as int))
                == self.current_buffer@
            &&& decode_stream(self.source@.skip(self.current_block as int)) == Some(
                self.current_buffer@ + rest,
            )
        }
    }

    /// Where the next byte to deliver lies in the current block.
    pub closed spec fn spec_pos_in_block(&self) -> int {
        self.current_position_in_block as int
    }

    /// Offset in the stream where the current block starts.
    pub closed spec fn spec_block_start(&self) -> int {
        self.current_block as int
    }

    /// The virtual offset that the reader reports lets a seek resume where the reader
    /// stands: seeking there succeeds and leaves the same bytes to deliver.
    pub proof fn lemma_bgzf_pos_resumes(&self)
        requires
            self.wf(),
            self.positioned(),
            self.content() is Some,
            self.spec_block_start() < 0x1_0000_0000_0000,
            self.spec_pos_in_block() < 0x10000,
        ensures
            seek_ok(self.source(), self.spec_bgzf_pos()),
            skip_opt(
                decode_stream(self.source().skip((self.spec_bgzf_pos() >> 16u64) as int)),
                (self.spec_bgzf_pos() & 0xffffu64) as int,
            ) == self.content(),
    {
        let c = self.current_block;
        let p = self.current_position_in_block as u64;
        assert(((c << 16u64) | (p & 0xffffu64)) >> 16u64 == c && ((c << 16u64) | (p
            & 0xffffu64)) & 0xffffu64 == p) by (bit_vector)
            requires
                c < 0x1_0000_0000_0000,
                p < 0x10000,
        ;
        let rest = decode_stream(self.source@.skip(self.next_block as int))->Some_0;
        assert((self.current_buffer@ + rest).skip(p as int) =~= self.current_buffer@.skip(
            p as int,
        ) + rest);
    }

    /// Loads the block at `next_block`, discarding what is left of the current one.
    fn load_next(&mut self) -> (r: Result<(), BGZFError>)
        requires
            old(self).wf(),
        ensures
            final(self).wf(),
            final(self).source() == old(self).source(),
            final(self).spec_next_block() >= old(self).spec_next_block(),
            r is Ok ==> final(self).content() == decode_stream(
                old(self).source().skip(old(self).spec_next_block()),
            ) && final(self).current_position_in_block == 0 && final(self).current_block
                == old(self).next_block,
            r is Ok && final(self).spec_next_block() == old(self).spec_next_block() ==> final(self).content() == Some(Seq::<u8>::empty()),
            r is Err ==> final(self).available() == old(self).available() && final(self).spec_next_block() == old(self).spec_next_block(),
            r is Err ==> final(self).current_block == old(self).current_block && final(self).current_buffer@ == old(self).current_buffer@ && final(self).next_block == old(self).next_block,
            r is Ok ==> final(self).positioned(),
            decode_stream(old(self).source().skip(old(self).spec_next_block())) is Some ==> r is Ok,
    {
        let nb = self.next_block;
        let len = self.source.len();
        proof {
            reveal(decode_stream);
        }
        if nb as usize == len {
            self.current_buffer.clear();
            self.current_block = nb;
            self.current_position_in_block = 0;
            proof {
                assert(self.source@.skip(nb as int) =~= Seq::<u8>::empty());
                assert(self.current_buffer@.skip(0) =~= Seq::<u8>::empty());
                assert(Seq::<u8>::empty() + Seq::<u8>::empty() =~= Seq::<u8>::empty());
            }
            return Ok(());
        }
        let tail = slice_subrange(self.source.as_slice(), nb as usize, len);
        proof {
            assert(tail@ =~= self.source@.skip(nb as int));
        }
        let header = load_block(tail, &mut self.compressed_buffer)?;
        let block_size = match header.block_size() {
            Ok(b) => b as usize,
            Err(_) => {
                return Err(BGZFError::NotBGZF);
            },
        };
        let ghost s = tail@;
        let ghost hl = header_len(header@);
        if is_eof_marker(slice_subrange(tail, 0, block_size)) {
            self.eof_pos = nb;
            self.current_buffer.clear();
            self.current_block = nb;
            self.current_position_in_block = 0;
            proof {
                assert(s.subrange(0, block_size as int) =~= s.take(block_size as int));
                assert(self.current_buffer@.skip(0) =~= Seq::<u8>::empty());
                assert(Seq::<u8>::empty() + Seq::<u8>::empty() =~= Seq::<u8>::empty());
            }
            return Ok(());
        }
        proof {
            assert(s.subrange(0, block_size as int) =~= s.take(block_size as int));
        }
        let mut data: Vec<u8> = Vec::new();
        decompress_block(&mut data, self.compressed_buffer.as_slice(), &mut self.decompress)?;
        self.current_buffer = data;
        self.current_block = nb;
        self.next_block = nb + block_size as u64;
        self.current_position_in_block = 0;
        proof {
            assert(self.source@.skip(self.next_block as int) =~= s.skip(block_size as int));
            assert(self.current_buffer@.skip(0) =~= self.current_buffer@);
            assert(Seq::<u8>::empty() + body_data(s.subrange(hl, block_size as int))
                =~= body_data(s.subrange(hl, block_size as int)));
        }
        Ok(())
    }

    /// A reader positioned at the start of `source`; the first block is loaded.
    pub fn new(source: Vec<u8>) -> (r: Result<Self, BGZFError>)
        ensures
            r matches Ok(rd) ==> rd.wf() && rd.source() == source@ && rd.content()
                == decode_stream(source@) && rd.spec_bgzf_pos() == 0 && rd.positioned(),
            decode_stream(source@) is Some ==> r is Ok,
    {
        let mut reader = BGZFReader {
            source,
            decompress: Decompress::new(),
            compressed_buffer: Vec::new(),
            current_buffer: Vec::new(),
            current_block: 0,
            next_block: 0,
            current_position_in_block: 0,
            eof_pos: u64::MAX,
        };
        proof {
            assert(reader.source@.skip(0) =~= reader.source@);
        }
        reader.load_next()?;
        proof {
            assert((0u64 << 16u64) | (0u64 & 0xffffu64) == 0) by (bit_vector);
        }
        Ok(reader)
    }

    /// Offset of the end-of-file marker once met, `u64::MAX` before.
    pub closed spec fn spec_eof_pos(&self) -> u64 {
        self.eof_pos
    }

    /// Whether the end-of-file marker has been met.
    pub fn eof_marker_seen(&self) -> (r: bool)
        ensures
            r == (self.spec_eof_pos() != u64::MAX),
    {
        self.eof_pos != u64::MAX
    }

    /// The virtual offset of the next byte to deliver.
    pub fn bgzf_pos(&self) -> (r: u64)
        ensures
            r == self.spec_bgzf_pos(),
    {
        (self.current_block << 16u64) | ((self.current_position_in_block as u64) & 0xffffu64)
    }

    /// Moves to the virtual offset `position`: the block that starts at compressed
    /// offset `position >> 16`, at byte `position & 0xffff` of its data.
    pub fn bgzf_seek(&mut self, position: u64) -> (r: Result<(), BGZFError>)
        requires
            old(self).wf(),
        ensures
            final(self).wf(),
            final(self).source() == old(self).source(),
            r is Ok ==> final(self).content() == skip_opt(
                decode_stream(old(self).source().skip((position >> 16u64) as int)),
                (position & 0xffffu64) as int,
            ) && final(self).spec_bgzf_pos() == position,
            r is Ok ==> final(self).positioned(),
            old(self).positioned() ==> final(self).positioned(),
            seek_ok(old(self).source(), position) ==> r is Ok,
    {
        let coffset = position >> 16u64;
        if coffset > self.source.len() as u64 {
            return Err(BGZFError::UnexpectedEof);
        }
        let saved_next = self.next_block;
        self.next_block = coffset;
        self.current_position_in_block = 0;
        match self.load_next() {
            Ok(()) => {},
            Err(e) => {
                self.next_block = saved_next;
                self.current_position_in_block = 0;
                return Err(e);
            },
        }
        assert((position & 0xffffu64) <= 0xffff) by (bit_vector);
        let uoffset = (position & 0xffffu64) as usize;
        if uoffset > self.current_buffer.len() {
            self.current_position_in_block = self.current_buffer.len();
            return Err(BGZFError::InvalidBgzfPosition);
        }
        self.current_position_in_block = uoffset;
        proof {
            assert(self.current_buffer@.skip(0) =~= self.current_buffer@);
            if let Some(rest) = decode_stream(self.source@.skip(self.next_block as int)) {
                assert((self.current_buffer@ + rest).skip(uoffset as int)
                    =~= self.current_buffer@.skip(uoffset as int) + rest);
            }
            assert(((position >> 16u64) << 16u64) | ((position & 0xffffu64) & 0xffffu64) == position) by (bit_vector);
        }
        Ok(())
    }

    /// The rest of the current block, loading following blocks while it is empty;
    /// empty only at the end of the stream.
    pub fn fill_buf(&mut self) -> (r: Result<&[u8], BGZFError>)
        requires
            old(self).wf(),
        ensures
            final(self).wf(),
            final(self).source() == old(self).source(),
            final(self).spec_next_block() > old(self).spec_next_block() || final(self).available()
                == old(self).available(),
            final(self).spec_next_block() >= old(self).spec_next_block(),
            r is Ok ==> final(self).content() == old(self).content(),
            r matches Ok(b) ==> b@.len() == final(self).available() && (old(self).content() matches Some(c) ==> b@.len() <= c.len() && b@ == c.take(b@.len() as int) && (b@.len() == 0 ==> c.len() == 0)),
            r matches Ok(b) ==> (b@.len() == 0 ==> final(self).content() == Some(Seq::<u8>::empty())),
            old(self).content() is Some ==> r is Ok,
            old(self).positioned() ==> final(self).positioned(),
    {
        while self.current_position_in_block >= self.current_buffer.len()
            invariant
                self.wf(),
                self.source() == old(self).source(),
                self.spec_next_block() >= old(self).spec_next_block(),
                self.content() == old(self).content(),
                old(self).positioned() ==> self.positioned(),
                self.spec_next_block() > old(self).spec_next_block() || self.available()
                    == old(self).available(),
            ensures
                self.current_position_in_block < self.current_buffer@.len() || self.content()
                    == Some(Seq::<u8>::empty()),
            decreases self.source@.len() - self.next_block,
        {
            let before = self.next_block;
            proof {
                assert(self.current_buffer@.skip(self.current_position_in_block as int) =~= Seq::<u8>::empty());
                if let Some(rest) = decode_stream(self.source@.skip(self.next_block as int)) {
                    assert(Seq::<u8>::empty() + rest =~= rest);
                }
            }
            self.load_next()?;
            if self.next_block == before {
                break;
            }
        }
        let pos = self.current_position_in_block;
        let len = self.current_buffer.len();
        proof {
            if let Some(rest) = decode_stream(self.source@.skip(self.next_block as int)) {
                let b = self.current_buffer@.skip(pos as int);
                assert((b + rest).take(b.len() as int) =~= b);
            }
        }
        Ok(slice_subrange(self.current_buffer.as_slice(), pos, len))
    }

    /// Marks `amt` bytes of the current block as delivered.
    pub fn consume(&mut self, amt: usize)
        requires
            old(self).wf(),
            amt <= old(self).available(),
        ensures
            final(self).wf(),
            final(self).source() == old(self).source(),
            final(self).spec_next_block() == old(self).spec_next_block(),
            final(self).available() == old(self).available() - amt,
            old(self).content() matches Some(c) ==> final(self).content() == Some(c.skip(amt as int)),
            old(self).content() is None ==> final(self).content() is None,
            old(self).positioned() ==> final(self).positioned(),
    {
        let ghost b = self.current_buffer@.skip(self.current_position_in_block as int);
        let len = self.current_buffer.len();
        assert(self.current_position_in_block + amt <= len);
        self.current_position_in_block = self.current_position_in_block + amt;
        proof {
            if let Some(rest) = decode_stream(self.source@.skip(self.next_block as int)) {
                assert((b + rest).skip(amt as int) =~= self.current_buffer@.skip(
                    self.current_position_in_block as int,
                ) + rest);
            }
        }
    }

    /// Delivers up to `max` bytes, all from one block.
    pub fn read(&mut self, max: usize) -> (r: Result<Vec<u8>, BGZFError>)
        requires
            old(self).wf(),
        ensures
            final(self).wf(),
            final(self).source() == old(self).source(),
            r matches Ok(v) ==> v@.len() <= max,
            old(self).content() matches Some(c) ==> (r matches Ok(v) ==> v@.len() <= c.len() && v@ == c.take(v@.len() as int) && final(self).content() == Some(c.skip(v@.len() as int)) && (v@.len() == 0 ==> max == 0 || c.len() == 0)),
            old(self).content() is Some ==> r is Ok,
            old(self).positioned() ==> final(self).positioned(),
    {
        let b = self.fill_buf()?;
        let n = if b.len() < max {
            b.len()
        } else {
            max
        };
        let v = slice_to_vec(b, 0, n);
        proof {
            if let Some(c) = old(self).content() {
                assert(v@ =~= c.take(n as int));
            }
        }
        self.consume(n);
        Ok(v)
    }

    /// Appends to `out` the bytes up to and including the next `byte`, or up to the end
    /// of the stream; returns how many.
    #[verifier::rlimit(100)]
    pub fn read_until(&mut self, byte: u8, out: &mut Vec<u8>) -> (r: Result<usize, BGZFError>)
        requires
            old(self).wf(),
        ensures
            final(self).wf(),
            final(self).source() == old(self).source(),
            old(self).content() matches Some(c) ==> (r matches Ok(n) ==> n <= c.len() && final(out)@ == old(out)@ + c.take(n as int) && final(self).content() == Some(c.skip(n as int)) && (forall|k: int| 0 <= k < n - 1 ==> c[k] != byte) && (n == c.len() || c[n - 1] == byte) && (n == 0 ==> c.len() == 0)),
            r matches Ok(n) ==> (n > 0 ==> lex_lt(final(self).progress(), old(self).progress())),
            r matches Ok(n) ==> final(out)@.len() == old(out)@.len() + n,
            old(self).content() is Some ==> r is Ok,
            old(self).positioned() ==> final(self).positioned(),
    {
        let ghost c0 = self.content();
        let start = out.len();
        let mut done = false;
        while !done
            invariant
                self.wf(),
                self.source() == old(self).source(),
                start == old(out)@.len(),
                out@.len() >= start,
                out@.take(start as int) == old(out)@,
                c0 == old(self).content(),
                old(self).positioned() ==> self.positioned(),
                out@.len() > start ==> lex_lt(self.progress(), old(self).progress()),
                self.progress() == old(self).progress() || lex_lt(self.progress(), old(self).progress()),
                c0 matches Some(c) ==> {
                    let t = (out@.len() - start) as int;
                    &&& t <= c.len()
                    &&& out@.skip(start as int) == c.take(t)
                    &&& self.content() == Some(c.skip(t))
                    &&& (!done ==> forall|k: int| 0 <= k < t ==> c[k] != byte)
                    &&& (done ==> (forall|k: int| 0 <= k < t - 1 ==> c[k] != byte) && (t == c.len() || (t > 0 && c[t - 1] == byte)))
                },
            decreases (if done { 0int } else { 1int }), self.source@.len() - self.next_block, self.available(),
        {
            let ghost before = out@;
            let ghost cur = self.content();
            let b = self.fill_buf()?;
            if b.len() == 0 {
                done = true;
            } else {
                let mut i: usize = 0;
                while i < b.len() && b[i] != byte
                    invariant
                        i <= b@.len(),
                        forall|k: int| 0 <= k < i ==> b@[k] != byte,
                    decreases b.len() - i,
                {
                    i = i + 1;
                }
                let n = if i < b.len() {
                    done = true;
                    i + 1
                } else {
                    i
                };
                let piece = slice_to_vec(b, 0, n);
                push_all(out, piece.as_slice());
                proof {
                    if let Some(c) = c0 {
                        let t = (before.len() - start) as int;
                        let cc = c.skip(t);
                        assert(b@.len() <= cc.len());
                        assert(t + n <= c.len());
                        assert(piece@ =~= cc.take(n as int));
                        assert(before.skip(start as int) == c.take(t));
                        assert(out@ == before + piece@);
                        assert(out@.skip(start as int) =~= before.skip(start as int) + piece@);
                        assert(c.take(t) + cc.take(n as int) =~= c.take(t + n));
                        assert(out@.take(start as int) =~= old(out)@);
                        assert forall|k: int| 0 <= k < t + i implies c[k] != byte by {
                            if k >= t {
                                assert(c[k] == cc[k - t]);
                                assert(cc[k - t] == b@[k - t]);
                            }
                        }
                        if i < b@.len() {
                            assert(c[t + i] == cc[i as int]);
                        }
                    }
                }
                self.consume(n);
                proof {
                    if let Some(c) = c0 {
                        let t = (before.len() - start) as int;
                        assert(c.skip(t).skip(n as int) =~= c.skip(t + n));
                    }
                }
            }
        }
        proof {
            if let Some(c) = c0 {
                assert(out@ =~= old(out)@ + c.take((out@.len() - start) as int));
            }
        }
        Ok(out.len() - start)
    }

    /// Appends everything up to the end of the stream to `out`; returns how many bytes.
    pub fn read_to_end(&mut self, out: &mut Vec<u8>) -> (r: Result<usize, BGZFError>)
        requires
            old(self).wf(),
        ensures
            final(self).wf(),
            final(self).source() == old(self).source(),
            old(self).content() matches Some(c) ==> (r matches Ok(n) ==> final(out)@ == old(out)@ + c && n == c.len() && final(self).content() == Some(Seq::<u8>::empty())),
            r is Ok ==> old(self).content() is Some,
            old(self).content() is Some ==> r is Ok,
            old(self).positioned() ==> final(self).positioned(),
    {
        let ghost c0 = self.content();
        let start = out.len();
        let mut done = false;
        while !done
            invariant
                self.wf(),
                self.source() == old(self).source(),
                start == old(out)@.len(),
                out@.len() >= start,
                out@.take(start as int) == old(out)@,
                c0 == old(self).content(),
                old(self).positioned() ==> self.positioned(),
                c0 matches Some(c) ==> {
                    let t = (out@.len() - start) as int;
                    &&& t <= c.len()
                    &&& out@.skip(start as int) == c.take(t)
                    &&& self.content() == Some(c.skip(t))
                    &&& (done ==> t == c.len())
                },
                c0 is None ==> self.content() is None,
                done ==> self.content() == Some(Seq::<u8>::empty()),
            decreases (if done { 0int } else { 1int }), self.source@.len() - self.next_block, self.available(),
        {
            let ghost before = out@;
            let b = self.fill_buf()?;
            if b.len() == 0 {
                done = true;
            } else {
                let n = b.len();
                push_all(out, b);
                proof {
                    if let Some(c) = c0 {
                        let t = (before.len() - start) as int;
                        let cc = c.skip(t);
                        assert(b@ =~= cc.take(n as int));
                        assert(before.skip(start as int) == c.take(t));
                        assert(out@ == before + b@);
                        assert(out@.skip(start as int) =~= before.skip(start as int) + b@);
                        assert(c.take(t) + cc.take(n as int) =~= c.take(t + n));
                        assert(out@.take(start as int) =~= old(out)@);
                    }
                }
                self.consume(n);
                proof {
                    if let Some(c) = c0 {
                        let t = (before.len() - start) as int;
                        assert(c.skip(t).skip(n as int) =~= c.skip(t + n));
                    }
                }
            }
        }
        proof {
            if let Some(c) = c0 {
                assert(c.take(c.len() as int) =~= c);
                assert(c.skip(c.len() as int) =~= Seq::<u8>::empty());
                assert(out@ =~= old(out)@ + c);
            }
        }
        Ok(out.len() - start)
    }
}


/// The data of the block bodies `bs`, one after another.
pub open spec fn inflate_all(bs: Seq<Seq<u8>>) -> Seq<u8>
    decreases bs.len(),
{
    if bs.len() == 0 {
        Seq::empty()
    } else {
        inflate_all(bs.drop_last()) + body_data(bs.last())
    }
}

/// Decodes a batch of block bodies loaded by [`load_block`], in order; every body must
/// match its footer.
pub fn decompress_blocks(blocks: &Vec<Vec<u8>>, decompress: &mut Decompress) -> (r: Result<
    Vec<u8>,
    BGZFError,
>)
    ensures
        r matches Ok(out) ==> out@ == inflate_all(blocks@.map_values(|b: Vec<u8>| b@)) && forall|
            k: int,
        | 0 <= k < blocks@.len() ==> body_ok(#[trigger] blocks@[k]@),
        (forall|k: int| 0 <= k < blocks@.len() ==> (#[trigger] blocks@[k]@).len() >= 8 && body_ok(blocks@[k]@)) ==> r is Ok,
{
    let ghost bs = blocks@.map_values(|b: Vec<u8>| b@);
    let mut out: Vec<u8> = Vec::new();
    let mut i: usize = 0;
    proof {
        assert(bs.take(0) =~= Seq::<Seq<u8>>::empty());
        assert(out@ =~= inflate_all(bs.take(0)));
    }
    while i < blocks.len()
        invariant
            i <= blocks@.len(),
            bs == blocks@.map_values(|b: Vec<u8>| b@),
            out@ == inflate_all(bs.take(i as int)),
            forall|k: int| 0 <= k < i ==> body_ok(#[trigger] blocks@[k]@),
        decreases blocks.len() - i,
    {
        assert(blocks@[i as int]@ == blocks[i as int]@);
        if blocks[i].len() < 8 {
            return Err(BGZFError::InvalidData);
        }
        decompress_block(&mut out, blocks[i].as_slice(), decompress)?;
        proof {
            assert(bs.take(i + 1).drop_last() =~= bs.take(i as int));
            assert(bs.take(i + 1).last() == blocks@[i as int]@);
        }
        i = i + 1;
    }
    proof {
        assert(bs.take(i as int) =~= bs);
    }
    Ok(out)
}

/// The last entry of an index, or the implicit `(0, 0)` of an empty one.
pub open spec fn last_entry(es: Seq<BGZFIndexEntry>) -> BGZFIndexEntry {
    if es.len() == 0 {
        BGZFIndexEntry { compressed_offset: 0, uncompressed_offset: 0 }
    } else {
        es.last()
    }
}

/// Opening `src` with index `es` succeeds: the stream decodes from its start and from
/// the last entry's block, and the measured length fits in 64 bits.
pub open spec fn indexed_open_ok(src: Seq<u8>, es: Seq<BGZFIndexEntry>) -> bool {
    let last = last_entry(es);
    &&& decode_stream(src) is Some
    &&& last.compressed_offset <= src.len()
    &&& decode_stream(src.skip(last.compressed_offset as int)) matches Some(t)
    &&& last.uncompressed_offset + t.len() <= u64::MAX
}

/// Every body of `bs` is long enough for its footer and matches it.
pub open spec fn all_bodies_ok(bs: Seq<Seq<u8>>) -> bool {
    forall|k: int| 0 <= k < bs.len() ==> (#[trigger] bs[k]).len() >= 8 && body_ok(bs[k])
}

/// The data of the bodies `bs` followed by `rest`, when every body decodes and `rest`
/// is there.
pub open spec fn join_blocks(bs: Seq<Seq<u8>>, rest: Option<Seq<u8>>) -> Option<Seq<u8>> {
    match rest {
        Some(r) => if all_bodies_ok(bs) {
            Some(inflate_all(bs) + r)
        } else {
            None
        },
        None => None,
    }
}

/// Loads, from `position` on, up to `max_blocks` block bodies for one batch; stops
/// early at the end-of-file marker (which it leaves in place) or at the end of the
/// source. Returns the bodies, where the next batch starts, and whether the stream
/// ended.
pub fn load_batch(source: &[u8], position: usize, max_blocks: usize) -> (r: Result<
    (Vec<Vec<u8>>, usize, bool),
    BGZFError,
>)
    requires
        position <= source@.len(),
        max_blocks > 0,
    ensures
        r matches Ok((bs, next, at_end)) ==> {
            let bv = bs@.map_values(|b: Vec<u8>| b@);
            &&& position <= next <= source@.len()
            &&& bs@.len() <= max_blocks
            &&& (!at_end ==> bs@.len() == max_blocks)
            &&& (at_end ==> decode_stream(source@.skip(next as int)) == Some(Seq::<u8>::empty()))
            &&& decode_stream(source@.skip(position as int)) == join_blocks(
                bv,
                decode_stream(source@.skip(next as int)),
            )
        },
        decode_stream(source@.skip(position as int)) is Some ==> r is Ok,
{
    let mut bs: Vec<Vec<u8>> = Vec::new();
    let mut pos = position;
    let mut at_end = false;
    proof {
        let bv = bs@.map_values(|b: Vec<u8>| b@);
        assert(bv =~= Seq::<Seq<u8>>::empty());
        assert(inflate_all(bv) =~= Seq::<u8>::empty());
        if let Some(x) = decode_stream(source@.skip(position as int)) {
            assert(Seq::<u8>::empty() + x =~= x);
        }
    }
    while bs.len() < max_blocks && !at_end
        invariant
            position <= pos <= source@.len(),
            bs@.len() <= max_blocks,
            at_end ==> decode_stream(source@.skip(pos as int)) == Some(Seq::<u8>::empty()),
            decode_stream(source@.skip(position as int)) == join_blocks(
                bs@.map_values(|b: Vec<u8>| b@),
                decode_stream(source@.skip(pos as int)),
            ),
        decreases max_blocks - bs@.len(), (if at_end { 0int } else { 1int }),
    {
        let ghost s = source@.skip(pos as int);
        proof {
            reveal(decode_stream);
        }
        if pos == source.len() {
            at_end = true;
            proof {
                assert(s =~= Seq::<u8>::empty());
            }
        } else {
            let tail = slice_subrange(source, pos, source.len());
            assert(tail@ =~= s);
            let mut body: Vec<u8> = Vec::new();
            let header = load_block(tail, &mut body)?;
            let size = match header.block_size() {
                Ok(b) => b as usize,
                Err(_) => {
                    return Err(BGZFError::NotBGZF);
                },
            };
            proof {
                assert(s.subrange(0, size as int) =~= s.take(size as int));
            }
            if is_eof_marker(slice_subrange(tail, 0, size)) {
                at_end = true;
            } else {
                let ghost bv = bs@.map_values(|b: Vec<u8>| b@);
                let ghost hl = header_len(header@);
                let ghost rest = decode_stream(source@.skip(pos + size));
                proof {
                    assert(s.skip(size as int) =~= source@.skip(pos + size));
                    assert(body@ == s.subrange(hl, size as int));
                }
                bs.push(body);
                proof {
                    let bv2 = bs@.map_values(|b: Vec<u8>| b@);
                    assert(bv2.drop_last() =~= bv);
                    assert(bv2.last() == s.subrange(hl, size as int));
                    if let Some(r) = rest {
                        if all_bodies_ok(bv) && body_ok(bv2.last()) {
                            assert forall|k: int| 0 <= k < bv2.len() implies (#[trigger] bv2[k]).len() >= 8 && body_ok(bv2[k]) by {
                                if k < bv.len() {
                                    assert(bv2[k] == bv[k]);
                                }
                            }
                            assert(inflate_all(bv) + (body_data(bv2.last()) + r) =~= inflate_all(bv2) + r);
                        } else if !all_bodies_ok(bv2) {
                            if all_bodies_ok(bv) {
                                assert(!body_ok(bv2.last()) || bv2.last().len() < 8) by {
                                    if body_ok(bv2.last()) && bv2.last().len() >= 8 {
                                        assert forall|k: int| 0 <= k < bv2.len() implies (#[trigger] bv2[k]).len() >= 8 && body_ok(bv2[k]) by {
                                            if k < bv.len() {
                                                assert(bv2[k] == bv[k]);
                                            }
                                        }
                                    }
                                }
                            } else {
                                let k = choose|k: int| 0 <= k < bv.len() && !((#[trigger] bv[k]).len() >= 8 && body_ok(bv[k]));
                                assert(bv2[k] == bv[k]);
                            }
                        }
                    }
                }
                pos = pos + size;
            }
        }
    }
    Ok((bs, pos, at_end))
}

/// A BGZF reader that seeks by uncompressed offset, through a `.gzi` index.
pub struct IndexedBGZFReader {
    reader: BGZFReader,
    index: BGZFIndex,
    current_pos: u64,
    end_pos: u64,
}

impl IndexedBGZFReader {
    pub closed spec fn wf(&self) -> bool {
        self.reader.wf() && sorted_entries(self.index.entries@)
    }

    /// The index.
    pub closed spec fn entries(&self) -> Seq<BGZFIndexEntry> {
        self.index.entries@
    }

    /// The bytes not yet delivered, when the rest of the stream decodes.
    pub closed spec fn content(&self) -> Option<Seq<u8>> {
        self.reader.content()
    }

    /// The compressed stream.
    pub closed spec fn source(&self) -> Seq<u8> {
        self.reader.source()
    }

    /// Combines `reader` and `index`; measures the stream's uncompressed length by
    /// reading the block of the last index entry to the end.
    pub fn new(reader: BGZFReader, index: BGZFIndex) -> (r: Result<Self, BGZFError>)
        requires
            reader.wf(),
            sorted_entries(index.entries@),
        ensures
            r matches Ok(x) ==> x.wf() && x.entries() == index.entries@ && x.source()
                == reader.source() && x.content() == decode_stream(reader.source())
                && x.spec_pos() == 0,
            r matches Ok(x) ==> (decode_stream(
                reader.source().skip(last_entry(index.entries@).compressed_offset as int),
            ) matches Some(t) && x.spec_end_pos() == last_entry(index.entries@).uncompressed_offset
                + t.len()),
            indexed_open_ok(reader.source(), index.entries@) ==> r is Ok,
    {
        let mut reader = reader;
        let n = index.entries.len();
        let last = if n == 0 {
            BGZFIndexEntry { compressed_offset: 0, uncompressed_offset: 0 }
        } else {
            index.entries[n - 1]
        };
        let ghost src = reader.source();
        proof {
            let c = last.compressed_offset;
            if n > 0 {
                assert(index.entries@[n - 1].compressed_offset < 0x1_0000_0000_0000);
            }
            assert(c < 0x1_0000_0000_0000 ==> (c << 16u64) >> 16u64 == c && (c << 16u64)
                & 0xffffu64 == 0) by (bit_vector);
            assert((0u64 >> 16u64) == 0 && (0u64 & 0xffffu64) == 0) by (bit_vector);
            assert(src.skip(0) =~= src);
            if let Some(t) = decode_stream(src.skip(c as int)) {
                assert(t.skip(0) =~= t);
            }
        }
        reader.bgzf_seek(last.compressed_offset << 16u64)?;
        let mut buf: Vec<u8> = Vec::new();
        let tail = reader.read_to_end(&mut buf)?;
        proof {
            assert(buf@ =~= Seq::<u8>::empty() + decode_stream(src.skip(last.compressed_offset as int))->Some_0);
        }
        reader.bgzf_seek(0)?;
        proof {
            if let Some(d) = decode_stream(src) {
                assert(d.skip(0) =~= d);
            }
        }
        if tail as u64 > u64::MAX - last.uncompressed_offset {
            return Err(BGZFError::StreamTooLong);
        }
        Ok(IndexedBGZFReader {
            reader,
            index,
            current_pos: 0,
            end_pos: last.uncompressed_offset + tail as u64,
        })
    }

    /// Length of the uncompressed stream, as measured when opened.
    pub closed spec fn spec_end_pos(&self) -> u64 {
        self.end_pos
    }

    /// The uncompressed position of the next byte.
    pub closed spec fn spec_pos(&self) -> u64 {
        self.current_pos
    }

    /// Length of the uncompressed stream.
    pub fn end_pos(&self) -> (r: u64)
        ensures
            r == self.spec_end_pos(),
    {
        self.end_pos
    }

    /// The current uncompressed position.
    pub fn pos(&self) -> (r: u64)
        ensures
            r == self.spec_pos(),
    {
        self.current_pos
    }

    /// Moves to uncompressed position `pos`: to the virtual offset that the index gives.
    pub fn seek(&mut self, pos: u64) -> (r: Result<u64, BGZFError>)
        requires
            old(self).wf(),
        ensures
            final(self).wf(),
            final(self).entries() == old(self).entries(),
            final(self).source() == old(self).source(),
            seek_ok(old(self).source(), to_vof(old(self).entries(), pos)) ==> r is Ok,
            r matches Ok(p) ==> p == pos && final(self).spec_pos() == pos && final(self).content() == skip_opt(
                decode_stream(old(self).source().skip((to_vof(old(self).entries(), pos) >> 16u64) as int)),
                (to_vof(old(self).entries(), pos) & 0xffffu64) as int,
            ),
    {
        let vof = self.index.uncompressed_pos_to_bgzf_pos(pos)?;
        self.reader.bgzf_seek(vof)?;
        self.current_pos = pos;
        Ok(pos)
    }

    /// Delivers up to `max` bytes, all from one block.
    pub fn read(&mut self, max: usize) -> (r: Result<Vec<u8>, BGZFError>)
        requires
            old(self).wf(),
        ensures
            final(self).wf(),
            final(self).entries() == old(self).entries(),
            final(self).source() == old(self).source(),
            r matches Ok(v) ==> v@.len() <= max,
            old(self).content() matches Some(c) ==> (r matches Ok(v) ==> v@.len() <= c.len() && v@ == c.take(v@.len() as int) && final(self).content() == Some(c.skip(v@.len() as int)) && (v@.len() == 0 ==> max == 0 || c.len() == 0)),
            old(self).content() is Some ==> r is Ok,
            r matches Ok(v) ==> (old(self).spec_pos() + v@.len() <= u64::MAX ==> final(self).spec_pos() == old(self).spec_pos() + v@.len()),
    {
        let v = self.reader.read(max)?;
        self.advance(v.len());
        Ok(v)
    }

    /// Appends to `out` the bytes up to and including the next `byte`, or up to the end
    /// of the stream; returns how many.
    pub fn read_until(&mut self, byte: u8, out: &mut Vec<u8>) -> (r: Result<usize, BGZFError>)
        requires
            old(self).wf(),
        ensures
            final(self).wf(),
            final(self).entries() == old(self).entries(),
            final(self).source() == old(self).source(),
            old(self).content() matches Some(c) ==> (r matches Ok(n) ==> n <= c.len() && final(out)@ == old(out)@ + c.take(n as int) && final(self).content() == Some(c.skip(n as int)) && (forall|k: int| 0 <= k < n - 1 ==> c[k] != byte) && (n == c.len() || c[n - 1] == byte) && (n == 0 ==> c.len() == 0)),
            old(self).content() is Some ==> r is Ok,
            r matches Ok(n) ==> (old(self).spec_pos() + n <= u64::MAX ==> final(self).spec_pos() == old(self).spec_pos() + n),
    {
        let n = self.reader.read_until(byte, out)?;
        self.advance(n);
        Ok(n)
    }

    /// Moves the uncompressed position `n` bytes on, stopping at `u64::MAX`.
    fn advance(&mut self, n: usize)
        ensures
            old(self).spec_pos() + n <= u64::MAX ==> final(self).spec_pos() == old(self).spec_pos() + n,
            final(self).reader == old(self).reader,
            final(self).index == old(self).index,
            final(self).end_pos == old(self).end_pos,
    {
        if n as u64 <= u64::MAX - self.current_pos {
            self.current_pos = self.current_pos + n as u64;
        } else {
            self.current_pos = u64::MAX;
        }
    }
}

} // verus!
