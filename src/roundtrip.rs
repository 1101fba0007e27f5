//! Laws of the stream format: what the blocks the writer emits decode to, and how
//! the writer's `.gzi` entries meet the offset translations.
use crate::deflate::{crc32_of, deflate_of, inflate_of};
use crate::error::BGZFError;
use crate::header::{
    bgzf_header, canonical_header, header_bytes, header_len, le32,
    lemma_bgzf_header_round_trip, lemma_canonical_header_round_trip, lemma_le32, read32,
};
use crate::index::sorted_entries;
use crate::read::{
    first_block_data, seek_ok, skip_opt, block_size_of, body_crc, body_data, body_len, body_ok, body_payload, decode_stream,
    eof_marker, load_block_spec,
};
use crate::write::{
    block_bytes, blocks_of, boundaries, flatten, pieces_fit, without_last,
    MAXIMUM_COMPRESS_UNIT_SIZE, MAXIMUM_PAYLOAD_SIZE,
};
use vstd::prelude::*;

verus! {

proof fn lemma_blocks_front(level: i32, ps: Seq<Seq<u8>>)
    requires
        ps.len() > 0,
    ensures
        blocks_of(level, ps) == block_bytes(level, ps[0]) + blocks_of(level, ps.drop_first()),
        flatten(ps) == ps[0] + flatten(ps.drop_first()),
    decreases ps.len(),
{
    if ps.len() == 1 {
        assert(ps.drop_last() =~= Seq::<Seq<u8>>::empty());
        assert(ps.drop_first() =~= Seq::<Seq<u8>>::empty());
        assert(blocks_of(level, ps) =~= block_bytes(level, ps[0]) + blocks_of(level, ps.drop_first()));
        assert(flatten(ps) =~= ps[0] + flatten(ps.drop_first()));
    } else {
        let init = ps.drop_last();
        lemma_blocks_front(level, init);
        assert(init.drop_first() =~= ps.drop_first().drop_last());
        assert(ps.drop_first().last() == ps.last());
        assert(blocks_of(level, ps) =~= block_bytes(level, ps[0]) + blocks_of(level, ps.drop_first()));
        assert(flatten(ps) =~= ps[0] + flatten(ps.drop_first()));
    }
}

/// The block of a piece starts with its canonical header, which records its size.
proof fn lemma_block_header(level: i32, p: Seq<u8>, rest: Seq<u8>)
    requires
        deflate_of(level, p).len() <= MAXIMUM_PAYLOAD_SIZE,
    ensures
        ({
            let s = block_bytes(level, p) + rest;
            let bs = deflate_of(level, p).len() + 26int;
            &&& load_block_spec(s) == Ok::<(crate::header::HeaderModel, int), BGZFError>(
                (canonical_header(false, 0, bs as u32), bs),
            )
            &&& header_len(canonical_header(false, 0, bs as u32)) == 18
            &&& 0 < bs <= s.len()
            &&& s.skip(bs) == rest
            &&& s.take(bs) == block_bytes(level, p)
        }),
{
    let payload = deflate_of(level, p);
    let bs = (payload.len() + 26) as u32;
    let h = canonical_header(false, 0, bs);
    let footer = le32(crc32_of(p)) + le32(p.len() as u32);
    let s = block_bytes(level, p) + rest;
    lemma_canonical_header_round_trip(false, 0, bs, payload + footer + rest);
    lemma_bgzf_header_round_trip(2, 0, bs, payload + footer + rest);
    assert(s =~= header_bytes(h) + (payload + footer + rest));
    assert(block_size_of(h) == Some(bs as int));
    assert(s.take(bs as int) =~= block_bytes(level, p));
    assert(s.skip(bs as int) =~= rest);
}

/// The body of the block of a piece decodes to the piece and matches its footer.
proof fn lemma_block_body(level: i32, p: Seq<u8>)
    requires
        p.len() < MAXIMUM_COMPRESS_UNIT_SIZE,
        deflate_of(level, p).len() <= MAXIMUM_PAYLOAD_SIZE,
        inflate_of(deflate_of(level, p)) == Some(p),
    ensures
        body_ok(block_bytes(level, p).skip(18)),
        body_data(block_bytes(level, p).skip(18)) == p,
{
    let payload = deflate_of(level, p);
    let bs = (payload.len() + 26) as u32;
    let footer = le32(crc32_of(p)) + le32(p.len() as u32);
    lemma_canonical_header_round_trip(false, 0, bs, Seq::empty());
    let body = block_bytes(level, p).skip(18);
    assert(body =~= payload + footer);
    lemma_le32(crc32_of(p));
    lemma_le32(p.len() as u32);
    assert(body_payload(body) =~= payload);
    assert(body.subrange(body.len() - 8, body.len() - 4) =~= le32(crc32_of(p)));
    assert(body.subrange(body.len() - 4, body.len() as int) =~= le32(p.len() as u32));
}

/// The block of a non-empty piece is not the end-of-file marker.
proof fn lemma_block_not_eof(level: i32, p: Seq<u8>)
    requires
        1 <= p.len() < MAXIMUM_COMPRESS_UNIT_SIZE,
        deflate_of(level, p).len() <= MAXIMUM_PAYLOAD_SIZE,
    ensures
        block_bytes(level, p) != eof_marker(),
{
    let payload = deflate_of(level, p);
    let bs = (payload.len() + 26) as u32;
    lemma_canonical_header_round_trip(false, 0, bs, Seq::empty());
    let b = block_bytes(level, p);
    if b == eof_marker() {
        lemma_le32(p.len() as u32);
        assert(b.subrange(24, 28) =~= le32(p.len() as u32));
        assert(eof_marker().subrange(24, 28) =~= seq![0u8, 0u8, 0u8, 0u8]);
        assert(read32(seq![0u8, 0u8, 0u8, 0u8], 0) == 0);
    }
}

/// The stream decodes the block of a piece to the piece, then goes on with what follows.
proof fn lemma_block_decodes(level: i32, p: Seq<u8>, rest: Seq<u8>)
    requires
        1 <= p.len() < MAXIMUM_COMPRESS_UNIT_SIZE,
        deflate_of(level, p).len() <= MAXIMUM_PAYLOAD_SIZE,
        inflate_of(deflate_of(level, p)) == Some(p),
    ensures
        decode_stream(block_bytes(level, p) + rest) == match decode_stream(rest) {
            Some(r) => Some(p + r),
            None => None,
        },
{
    reveal(decode_stream);
    lemma_block_header(level, p, rest);
    lemma_block_body(level, p);
    lemma_block_not_eof(level, p);
    let s = block_bytes(level, p) + rest;
    let bs = deflate_of(level, p).len() + 26int;
    assert(s.subrange(18, bs) =~= block_bytes(level, p).skip(18));
}

/// The end-of-file marker decodes to nothing.
#[verifier::rlimit(60)]
pub proof fn lemma_eof_marker_decodes()
    ensures
        decode_stream(eof_marker()) == Some(Seq::<u8>::empty()),
{
    reveal(decode_stream);
    let h = bgzf_header(0, 0, 28);
    let tail = seq![3u8, 0u8, 0u8, 0u8, 0u8, 0u8, 0u8, 0u8, 0u8, 0u8];
    lemma_bgzf_header_round_trip(0, 0, 28, tail);
    crate::header::lemma_le16(27);
    crate::header::lemma_le16(6);
    crate::header::lemma_le16(2);
    crate::header::lemma_le32(0);
    assert(header_bytes(h) =~= seq![
        0x1fu8, 0x8b, 0x08, 0x04, 0x00, 0x00, 0x00, 0x00, 0x00, 0xff, 0x06, 0x00, 0x42, 0x43,
        0x02, 0x00, 0x1b, 0x00,
    ]);
    assert(eof_marker() =~= header_bytes(h) + tail);
    assert(block_size_of(h) == Some(28int));
    assert(eof_marker().take(28) =~= eof_marker());
}

/// Round trip: a stream made of the blocks of `pieces`, ended by the marker, decodes
/// to the pieces joined.
#[verifier::rlimit(60)]
pub proof fn lemma_stream_round_trip(level: i32, pieces: Seq<Seq<u8>>)
    requires
        pieces_fit(level, pieces),
    ensures
        decode_stream(blocks_of(level, pieces) + eof_marker()) == Some(flatten(pieces)),
    decreases pieces.len(),
{
    if pieces.len() == 0 {
        lemma_eof_marker_decodes();
        assert(blocks_of(level, pieces) + eof_marker() =~= eof_marker());
    } else {
        let t = pieces.drop_first();
        assert forall|k: int| 0 <= k < t.len() implies 1 <= (#[trigger] t[k]).len()
            < MAXIMUM_COMPRESS_UNIT_SIZE && block_bytes(level, t[k]).len() <= 65536 && deflate_of(
            level,
            t[k],
        ).len() <= MAXIMUM_PAYLOAD_SIZE && inflate_of(deflate_of(level, t[k])) == Some(t[k]) by {
            assert(t[k] == pieces[k + 1]);
        }
        lemma_stream_round_trip(level, t);
        lemma_blocks_front(level, pieces);
        let first = pieces[0];
        let y = blocks_of(level, t) + eof_marker();
        assert(1 <= first.len() < MAXIMUM_COMPRESS_UNIT_SIZE);
        lemma_block_decodes(level, first, y);
        assert(blocks_of(level, pieces) + eof_marker() =~= block_bytes(level, first) + y);
    }
}


proof fn lemma_prefix_grows(level: i32, pieces: Seq<Seq<u8>>, i: int, j: int)
    requires
        pieces_fit(level, pieces),
        0 <= i < j <= pieces.len(),
    ensures
        blocks_of(level, pieces.take(i)).len() + 26 <= blocks_of(level, pieces.take(j)).len(),
        flatten(pieces.take(i)).len() < flatten(pieces.take(j)).len(),
    decreases j - i,
{
    let pj = pieces.take(j);
    assert(pj.drop_last() =~= pieces.take(j - 1));
    assert(pj.last() == pieces[j - 1]);
    let p = pieces[j - 1];
    lemma_canonical_header_round_trip(false, 0, (deflate_of(level, p).len() + 26) as u32, Seq::empty());
    assert(block_bytes(level, p).len() >= 26);
    assert(p.len() >= 1);
    if i < j - 1 {
        lemma_prefix_grows(level, pieces, i, j - 1);
    }
}

proof fn lemma_boundary_within(level: i32, pieces: Seq<Seq<u8>>, k: int)
    requires
        pieces_fit(level, pieces),
        0 <= k < pieces.len(),
    ensures
        26 <= blocks_of(level, pieces.take(k + 1)).len() <= blocks_of(level, pieces).len(),
        flatten(pieces.take(k + 1)).len() <= flatten(pieces).len(),
{
    let n = pieces.len() as int;
    assert(pieces.take(n) =~= pieces);
    if k + 1 < n {
        lemma_prefix_grows(level, pieces, k + 1, n);
    }
    lemma_prefix_grows(level, pieces, 0, k + 1);
}

/// The `.gzi` entries of any writer run are sorted, as the offset translations ask,
/// while the stream stays within 48-bit compressed offsets; so each recorded boundary
/// maps to its virtual offset and back.
pub proof fn lemma_writer_index_sorted(level: i32, pieces: Seq<Seq<u8>>)
    requires
        pieces_fit(level, pieces),
        blocks_of(level, pieces).len() < 0x1_0000_0000_0000,
        flatten(pieces).len() <= u64::MAX - 0xffff,
    ensures
        sorted_entries(boundaries(level, pieces)),
        sorted_entries(without_last(boundaries(level, pieces))),
{
    let b = boundaries(level, pieces);
    assert forall|i: int, j: int| 0 <= i < j < b.len() implies #[trigger] b[i].compressed_offset
        < #[trigger] b[j].compressed_offset && b[i].uncompressed_offset < b[j].uncompressed_offset by {
        lemma_prefix_grows(level, pieces, i + 1, j + 1);
        lemma_boundary_within(level, pieces, j);
    }
    assert forall|i: int| 0 <= i < b.len() implies 0 < #[trigger] b[i].compressed_offset
        < 0x1_0000_0000_0000 && b[i].uncompressed_offset <= u64::MAX - 0xffff by {
        lemma_boundary_within(level, pieces, i);
    }
    if b.len() > 0 {
        let w = b.drop_last();
        assert forall|i: int, j: int| 0 <= i < j < w.len() implies #[trigger] w[i].compressed_offset
            < #[trigger] w[j].compressed_offset && w[i].uncompressed_offset < w[j].uncompressed_offset by {
            assert(w[i] == b[i] && w[j] == b[j]);
        }
        assert forall|i: int| 0 <= i < w.len() implies 0 < #[trigger] w[i].compressed_offset
            < 0x1_0000_0000_0000 && w[i].uncompressed_offset <= u64::MAX - 0xffff by {
            assert(w[i] == b[i]);
        }
    }
}


proof fn lemma_blocks_split(level: i32, ps: Seq<Seq<u8>>, k: int)
    requires
        0 <= k <= ps.len(),
    ensures
        blocks_of(level, ps) == blocks_of(level, ps.take(k)) + blocks_of(level, ps.skip(k)),
        flatten(ps) == flatten(ps.take(k)) + flatten(ps.skip(k)),
    decreases ps.len(),
{
    if k == ps.len() {
        assert(ps.take(k) =~= ps);
        assert(ps.skip(k) =~= Seq::<Seq<u8>>::empty());
        assert(blocks_of(level, ps) + Seq::<u8>::empty() =~= blocks_of(level, ps));
        assert(flatten(ps) + Seq::<u8>::empty() =~= flatten(ps));
    } else {
        let init = ps.drop_last();
        lemma_blocks_split(level, init, k);
        assert(init.take(k) =~= ps.take(k));
        assert(ps.skip(k).drop_last() =~= init.skip(k));
        assert(ps.skip(k).last() == ps.last());
        assert(blocks_of(level, ps) =~= blocks_of(level, ps.take(k)) + blocks_of(level, ps.skip(k)));
        assert(flatten(ps) =~= flatten(ps.take(k)) + flatten(ps.skip(k)));
    }
}

proof fn lemma_first_block_data(level: i32, p: Seq<u8>, rest: Seq<u8>)
    requires
        1 <= p.len() < MAXIMUM_COMPRESS_UNIT_SIZE,
        deflate_of(level, p).len() <= MAXIMUM_PAYLOAD_SIZE,
        inflate_of(deflate_of(level, p)) == Some(p),
    ensures
        first_block_data(block_bytes(level, p) + rest) == p,
{
    lemma_block_header(level, p, rest);
    lemma_block_body(level, p);
    lemma_block_not_eof(level, p);
    let s = block_bytes(level, p) + rest;
    let bs = deflate_of(level, p).len() + 26int;
    assert(s.subrange(18, bs) =~= block_bytes(level, p).skip(18));
}

/// A virtual offset that the writer reports stays valid in the finished stream: with
/// `k` blocks written before it and `u` bytes of the next block buffered, seeking
/// there succeeds and leaves the data from that point on to read.
pub proof fn lemma_writer_offset_seekable(level: i32, ps: Seq<Seq<u8>>, k: int, u: int)
    requires
        pieces_fit(level, ps),
        0 <= k <= ps.len(),
        0 <= u < 0x10000,
        k < ps.len() ==> u <= ps[k].len(),
        k == ps.len() ==> u == 0,
        blocks_of(level, ps).len() < 0x1_0000_0000_0000,
    ensures
        ({
            let s = blocks_of(level, ps) + eof_marker();
            let v = ((blocks_of(level, ps.take(k)).len() as u64) << 16u64) | (u as u64);
            &&& seek_ok(s, v)
            &&& skip_opt(decode_stream(s.skip((v >> 16u64) as int)), (v & 0xffffu64) as int)
                == Some(flatten(ps.skip(k)).skip(u))
        }),
{
    let s = blocks_of(level, ps) + eof_marker();
    let t = ps.skip(k);
    lemma_blocks_split(level, ps, k);
    let c = blocks_of(level, ps.take(k)).len();
    let cu = c as u64;
    let uu = u as u64;
    assert(((cu << 16u64) | uu) >> 16u64 == cu && ((cu << 16u64) | uu) & 0xffffu64 == uu)
        by (bit_vector)
        requires
            cu < 0x1_0000_0000_0000,
            uu < 0x10000,
    ;
    assert(s.skip(c as int) =~= blocks_of(level, t) + eof_marker());
    assert forall|j: int| 0 <= j < t.len() implies 1 <= (#[trigger] t[j]).len()
        < MAXIMUM_COMPRESS_UNIT_SIZE && block_bytes(level, t[j]).len() <= 65536 && deflate_of(
        level,
        t[j],
    ).len() <= MAXIMUM_PAYLOAD_SIZE && inflate_of(deflate_of(level, t[j])) == Some(t[j]) by {
        assert(t[j] == ps[k + j]);
    }
    lemma_stream_round_trip(level, t);
    if k < ps.len() {
        lemma_blocks_front(level, t);
        assert(t[0] == ps[k]);
        assert(blocks_of(level, t) + eof_marker() =~= block_bytes(level, t[0]) + (blocks_of(
            level,
            t.drop_first(),
        ) + eof_marker()));
        lemma_first_block_data(level, t[0], blocks_of(level, t.drop_first()) + eof_marker());
    } else {
        assert(t =~= Seq::<Seq<u8>>::empty());
        assert(blocks_of(level, t) + eof_marker() =~= eof_marker());
        lemma_eof_first_block();
        assert(flatten(t) =~= Seq::<u8>::empty());
    }
}

#[verifier::rlimit(60)]
proof fn lemma_eof_first_block()
    ensures
        first_block_data(eof_marker()) == Seq::<u8>::empty(),
{
    let h = bgzf_header(0, 0, 28);
    let tail = seq![3u8, 0u8, 0u8, 0u8, 0u8, 0u8, 0u8, 0u8, 0u8, 0u8];
    lemma_bgzf_header_round_trip(0, 0, 28, tail);
    crate::header::lemma_le16(27);
    crate::header::lemma_le16(6);
    crate::header::lemma_le16(2);
    crate::header::lemma_le32(0);
    assert(header_bytes(h) =~= seq![
        0x1fu8, 0x8b, 0x08, 0x04, 0x00, 0x00, 0x00, 0x00, 0x00, 0xff, 0x06, 0x00, 0x42, 0x43,
        0x02, 0x00, 0x1b, 0x00,
    ]);
    assert(eof_marker() =~= header_bytes(h) + tail);
    assert(block_size_of(h) == Some(28int));
    assert(eof_marker().take(28) =~= eof_marker());
}


proof fn lemma_blocks_concat(level: i32, a: Seq<Seq<u8>>, b: Seq<Seq<u8>>)
    ensures
        blocks_of(level, a + b) == blocks_of(level, a) + blocks_of(level, b),
        flatten(a + b) == flatten(a) + flatten(b),
    decreases b.len(),
{
    if b.len() == 0 {
        assert(a + b =~= a);
        assert(blocks_of(level, a) + Seq::<u8>::empty() =~= blocks_of(level, a));
        assert(flatten(a) + Seq::<u8>::empty() =~= flatten(a));
    } else {
        lemma_blocks_concat(level, a, b.drop_last());
        assert((a + b).drop_last() =~= a + b.drop_last());
        assert((a + b).last() == b.last());
        assert(blocks_of(level, a + b) =~= blocks_of(level, a) + blocks_of(level, b));
        assert(flatten(a + b) =~= flatten(a) + flatten(b));
    }
}

/// The pieces of a run of batches, one after another.
pub open spec fn join_batches(batches: Seq<Seq<Seq<u8>>>) -> Seq<Seq<u8>>
    decreases batches.len(),
{
    if batches.len() == 0 {
        Seq::empty()
    } else {
        join_batches(batches.drop_last()) + batches.last()
    }
}

/// The blocks of a run of batches, one after another.
pub open spec fn batches_bytes(level: i32, batches: Seq<Seq<Seq<u8>>>) -> Seq<u8>
    decreases batches.len(),
{
    if batches.len() == 0 {
        Seq::empty()
    } else {
        batches_bytes(level, batches.drop_last()) + blocks_of(level, batches.last())
    }
}

/// Round trip for a writer that compresses batches apart and writes them in batch
/// order: the batches' blocks, followed by the end-of-file marker, decode to the data
/// of all batches in order.
pub proof fn lemma_batches_round_trip(level: i32, batches: Seq<Seq<Seq<u8>>>)
    requires
        forall|k: int| 0 <= k < batches.len() ==> pieces_fit(level, #[trigger] batches[k]),
    ensures
        decode_stream(batches_bytes(level, batches) + eof_marker()) == Some(
            flatten(join_batches(batches)),
        ),
{
    lemma_batches_join(level, batches);
    lemma_stream_round_trip(level, join_batches(batches));
}

proof fn lemma_batches_join(level: i32, batches: Seq<Seq<Seq<u8>>>)
    requires
        forall|k: int| 0 <= k < batches.len() ==> pieces_fit(level, #[trigger] batches[k]),
    ensures
        batches_bytes(level, batches) == blocks_of(level, join_batches(batches)),
        pieces_fit(level, join_batches(batches)),
    decreases batches.len(),
{
    if batches.len() > 0 {
        let init = batches.drop_last();
        assert forall|k: int| 0 <= k < init.len() implies pieces_fit(level, #[trigger] init[k]) by {
            assert(init[k] == batches[k]);
        }
        lemma_batches_join(level, init);
        lemma_blocks_concat(level, join_batches(init), batches.last());
        let j = join_batches(batches);
        let a = join_batches(init);
        let b = batches.last();
        assert(pieces_fit(level, b)) by {
            assert(b == batches[batches.len() - 1]);
        }
        assert forall|k: int| 0 <= k < j.len() implies 1 <= (#[trigger] j[k]).len()
            < MAXIMUM_COMPRESS_UNIT_SIZE && block_bytes(level, j[k]).len() <= 65536 && deflate_of(
            level,
            j[k],
        ).len() <= MAXIMUM_PAYLOAD_SIZE && inflate_of(deflate_of(level, j[k])) == Some(j[k]) by {
            if k < a.len() {
                assert(j[k] == a[k]);
            } else {
                assert(j[k] == b[k - a.len()]);
            }
        }
    }
}

} // verus!
