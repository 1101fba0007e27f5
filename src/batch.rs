//! Compressing a batch of data into consecutive blocks, as a worker of the
//! multi-threaded writer does.
use crate::deflate::{deflate_of, inflate_of, Compress};
use crate::error::BGZFError;
use crate::write::{
    block_bytes, blocks_of, flatten, pieces_fit, write_block, MAXIMUM_COMPRESS_UNIT_SIZE,
    MAXIMUM_PAYLOAD_SIZE,
};
use vstd::prelude::*;
use vstd::slice::slice_subrange;

verus! {

/// Compresses `data` into consecutive blocks of at most `unit` uncompressed bytes each
/// and appends them to `compressed_data`; returns, per block, its uncompressed and
/// compressed sizes.
pub fn write_blocks(
    compressed_data: &mut Vec<u8>,
    data: &[u8],
    unit: usize,
    compress: &mut Compress,
) -> (r: Result<Vec<(usize, usize)>, BGZFError>)
    requires
        old(compress).valid(),
        0 < unit < MAXIMUM_COMPRESS_UNIT_SIZE,
    ensures
        *final(compress) == *old(compress),
        r matches Ok(sizes) ==> batch_ok(
            old(compress).spec_level(),
            data@,
            unit,
            old(compressed_data)@,
            final(compressed_data)@,
            sizes@,
        ),
        unit <= crate::write::DEFAULT_COMPRESS_UNIT_SIZE ==> r is Ok,
{
    let ghost level = compress.spec_level();
    let ghost start = compressed_data@;
    let ghost mut ps: Seq<Seq<u8>> = Seq::empty();
    let mut sizes: Vec<(usize, usize)> = Vec::new();
    let mut pos: usize = 0;
    proof {
        assert(start + blocks_of(level, ps) =~= start);
        assert(flatten(ps) =~= data@.take(0));
        assert(batch_written(level, data@.take(0), unit, start, compressed_data@, sizes@, ps));
    }
    while pos < data.len()
        invariant
            *compress == *old(compress),
            level == compress.spec_level(),
            compress.valid(),
            0 < unit < MAXIMUM_COMPRESS_UNIT_SIZE,
            pos <= data@.len(),
            start == old(compressed_data)@,
            batch_written(level, data@.take(pos as int), unit, start, compressed_data@, sizes@, ps),
        decreases data.len() - pos,
    {
        let n = if data.len() - pos < unit {
            data.len() - pos
        } else {
            unit
        };
        let chunk = slice_subrange(data, pos, pos + n);
        let ghost before = compressed_data@;
        let ghost before_sizes = sizes@;
        let size = write_block(compressed_data, chunk, compress)?;
        sizes.push((n, size));
        proof {
            lemma_batch_step(level, data@.take(pos as int), unit, start, before, before_sizes, ps, chunk@, size);
            assert(data@.take(pos as int) + chunk@ =~= data@.take(pos + n));
            ps = ps.push(chunk@);
        }
        pos = pos + n;
    }
    proof {
        assert(data@.take(pos as int) =~= data@);
        assert(batch_written(level, data@, unit, start, compressed_data@, sizes@, ps));
        assert(level == old(compress).spec_level());
        assert(start == old(compressed_data)@);
        assert(batch_ok(level, data@, unit, start, compressed_data@, sizes@));
    }
    Ok(sizes)
}

proof fn lemma_batch_step(
    level: i32,
    data: Seq<u8>,
    unit: usize,
    before: Seq<u8>,
    after: Seq<u8>,
    sizes: Seq<(usize, usize)>,
    ps: Seq<Seq<u8>>,
    chunk: Seq<u8>,
    size: usize,
)
    requires
        batch_written(level, data, unit, before, after, sizes, ps),
        1 <= chunk.len() <= unit,
        chunk.len() < MAXIMUM_COMPRESS_UNIT_SIZE,
        size == block_bytes(level, chunk).len(),
        size <= 65536,
        deflate_of(level, chunk).len() <= MAXIMUM_PAYLOAD_SIZE,
        inflate_of(deflate_of(level, chunk)) == Some(chunk),
    ensures
        batch_written(
            level,
            data + chunk,
            unit,
            before,
            after + block_bytes(level, chunk),
            sizes.push((chunk.len() as usize, size)),
            ps.push(chunk),
        ),
{
    let ps2 = ps.push(chunk);
    let sizes2 = sizes.push((chunk.len() as usize, size));
    assert(ps2.drop_last() =~= ps);
    assert(flatten(ps2) =~= data + chunk);
    assert(after + block_bytes(level, chunk) =~= before + blocks_of(level, ps2));
    assert forall|k: int| 0 <= k < ps2.len() implies 1 <= (#[trigger] ps2[k]).len()
        < MAXIMUM_COMPRESS_UNIT_SIZE && block_bytes(level, ps2[k]).len() <= 65536 && deflate_of(
        level,
        ps2[k],
    ).len() <= MAXIMUM_PAYLOAD_SIZE && inflate_of(deflate_of(level, ps2[k])) == Some(ps2[k]) by {
        if k < ps.len() {
            assert(ps2[k] == ps[k]);
        }
    }
    assert forall|k: int| 0 <= k < ps2.len() implies #[trigger] sizes2[k] == (
        ps2[k].len() as usize,
        block_bytes(level, ps2[k]).len() as usize,
    ) && ps2[k].len() <= unit by {
        if k < ps.len() {
            assert(ps2[k] == ps[k]);
            assert(sizes2[k] == sizes[k]);
        }
    }
}

/// `after` is `before` followed by the blocks of some pieces of `data`, each of at
/// most `unit` bytes, and `sizes` gives each block's sizes.
pub open spec fn batch_ok(
    level: i32,
    data: Seq<u8>,
    unit: usize,
    before: Seq<u8>,
    after: Seq<u8>,
    sizes: Seq<(usize, usize)>,
) -> bool {
    exists|ps: Seq<Seq<u8>>| #[trigger] batch_written(level, data, unit, before, after, sizes, ps)
}

/// `after` is `before` followed by the blocks of `ps`, pieces of at most `unit` bytes
/// that join to `data`, and `sizes` gives each block's uncompressed and compressed size.
pub open spec fn batch_written(
    level: i32,
    data: Seq<u8>,
    unit: usize,
    before: Seq<u8>,
    after: Seq<u8>,
    sizes: Seq<(usize, usize)>,
    ps: Seq<Seq<u8>>,
) -> bool {
    &&& pieces_fit(level, ps)
    &&& flatten(ps) == data
    &&& after == before + blocks_of(level, ps)
    &&& sizes.len() == ps.len()
    &&& forall|k: int|
        0 <= k < ps.len() ==> #[trigger] sizes[k] == (
            ps[k].len() as usize,
            block_bytes(level, ps[k]).len() as usize,
        ) && ps[k].len() <= unit
}

} // verus!
