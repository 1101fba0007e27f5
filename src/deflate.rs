//! DEFLATE engine and CRC32, provided by libdeflate.
use crate::error::{BGZFError, CompressError, DecompressError};
use vstd::prelude::*;

verus! {

/// The raw DEFLATE stream that libdeflate produces for `data` at `level`.
pub uninterp spec fn deflate_of(level: i32, data: Seq<u8>) -> Seq<u8>;

/// The bytes that libdeflate decodes from the raw DEFLATE stream at the start of
/// `data`, given all the room it needs; `None` when the stream is invalid.
pub uninterp spec fn inflate_of(data: Seq<u8>) -> Option<Seq<u8>>;

/// libdeflate's worst-case size of the raw DEFLATE stream of `n` bytes: five bytes
/// of stored-block overhead per started 5000 bytes (at least one block), plus `n`.
pub open spec fn deflate_bound(n: int) -> int {
    5 * (if n == 0 {
        1
    } else {
        (n + 4999) / 5000
    }) + n
}

/// The CRC-32 (gzip polynomial) of `data`.
pub uninterp spec fn crc32_of(data: Seq<u8>) -> u32;

/// Relies on `libdeflater::Compressor::deflate_compress`: on success the first
/// `n` bytes of the output buffer are the DEFLATE stream of `src`, which decompresses
/// to `src`; it fails only when that stream does not fit in `capacity` bytes, which
/// cannot happen when `capacity` reaches `libdeflate_deflate_compress_bound`.
#[verifier::external_body]
fn deflate_raw(level: i32, src: &[u8], capacity: usize) -> (r: Result<Vec<u8>, CompressError>)
    requires
        0 <= level <= 12,
    ensures
        r matches Ok(v) ==> v@ == deflate_of(level, src@) && v@.len() <= capacity,
        r matches Ok(v) ==> inflate_of(v@) == Some(src@),
        deflate_of(level, src@).len() <= capacity ==> r is Ok,
        capacity >= deflate_bound(src@.len() as int) ==> r is Ok,
        r matches Err(e) ==> e == CompressError::InsufficientSpace,
{
    let lvl = libdeflater::CompressionLvl::new(level).unwrap();
    let mut out = vec![0u8; capacity];
    match libdeflater::Compressor::new(lvl).deflate_compress(src, &mut out) {
        Ok(n) => {
            out.truncate(n);
            Ok(out)
        },
        Err(libdeflater::CompressionError::InsufficientSpace) => Err(
            CompressError::InsufficientSpace,
        ),
    }
}

/// Relies on `libdeflater::Decompressor::deflate_decompress`: it succeeds exactly
/// when `src` starts with a valid stream whose data fits in `capacity` bytes, and the
/// first `n` bytes of the output buffer are then that data; a valid stream that does
/// not fit gives `InsufficientSpace`.
#[verifier::external_body]
fn inflate_raw(src: &[u8], capacity: usize) -> (r: Result<Vec<u8>, DecompressError>)
    ensures
        r is Ok <==> (inflate_of(src@) matches Some(d) && d.len() <= capacity),
        r matches Ok(v) ==> inflate_of(src@) == Some(v@),
        r matches Err(e) ==> (inflate_of(src@) is Some ==> e == DecompressError::InsufficientSpace),
        r matches Err(e) ==> e == DecompressError::BadData || e
            == DecompressError::InsufficientSpace,
{
    let mut out = vec![0u8; capacity];
    match libdeflater::Decompressor::new().deflate_decompress(src, &mut out) {
        Ok(n) => {
            out.truncate(n);
            Ok(out)
        },
        Err(libdeflater::DecompressionError::BadData) => Err(DecompressError::BadData),
        Err(libdeflater::DecompressionError::InsufficientSpace) => Err(
            DecompressError::InsufficientSpace,
        ),
    }
}

/// Relies on `libdeflater::crc32`: the CRC-32 of `data`.
#[verifier::external_body]
pub(crate) fn crc32(data: &[u8]) -> (r: u32)
    ensures
        r == crc32_of(data@),
{
    libdeflater::crc32(data)
}

/// Compression level: 0 (store) to 12.
#[derive(Debug, Clone, Copy, PartialEq, Eq)]
pub struct Compression {
    level: i32,
}

impl Compression {
    /// The level's number.
    pub closed spec fn spec_level(&self) -> i32 {
        self.level
    }

    pub open spec fn valid(&self) -> bool {
        0 <= self.spec_level() <= 12
    }

    /// Level `level`; levels above 12 are refused.
    pub fn new(level: u32) -> (r: Result<Self, BGZFError>)
        ensures
            level <= 12 <==> r is Ok,
            r matches Ok(c) ==> c.spec_level() == level && c.valid(),
            r matches Err(e) ==> e == BGZFError::InvalidCompressionLevel,
    {
        if level <= 12 {
            Ok(Compression { level: level as i32 })
        } else {
            Err(BGZFError::InvalidCompressionLevel)
        }
    }

    /// The best ratio: level 12.
    pub fn best() -> (r: Self)
        ensures
            r.spec_level() == 12 && r.valid(),
    {
        Compression { level: 12 }
    }

    /// The fastest: level 0.
    pub fn fast() -> (r: Self)
        ensures
            r.spec_level() == 0 && r.valid(),
    {
        Compression { level: 0 }
    }

    /// The level's number.
    pub fn level(&self) -> (r: i32)
        ensures
            r == self.spec_level(),
    {
        self.level
    }
}

impl Default for Compression {
    /// libdeflate's default level, 6.
    fn default() -> (r: Self)
        ensures
            r.spec_level() == 6 && r.valid(),
    {
        Compression { level: 6 }
    }
}

/// A DEFLATE compressor at a fixed level.
#[derive(Debug, Clone, Copy, PartialEq, Eq)]
pub struct Compress {
    level: Compression,
}

impl Compress {
    pub closed spec fn spec_level(&self) -> i32 {
        self.level.spec_level()
    }

    pub open spec fn valid(&self) -> bool {
        0 <= self.spec_level() <= 12
    }

    pub fn new(level: Compression) -> (r: Self)
        requires
            level.valid(),
        ensures
            r.spec_level() == level.spec_level(),
            r.valid(),
    {
        Compress { level }
    }

    /// Compresses `original_data` as raw DEFLATE into the front of `compressed_data`
    /// and returns the compressed length; the buffer keeps its length.
    pub fn compress(&mut self, original_data: &[u8], compressed_data: &mut Vec<u8>) -> (r: Result<
        usize,
        CompressError,
    >)
        requires
            old(self).valid(),
        ensures
            *final(self) == *old(self),
            final(compressed_data)@.len() == old(compressed_data)@.len(),
            r matches Ok(n) ==> n <= old(compressed_data)@.len() && final(compressed_data)@.take(
                n as int,
            ) == deflate_of(old(self).spec_level(), original_data@),
            r is Ok ==> inflate_of(deflate_of(old(self).spec_level(), original_data@)) == Some(
                original_data@,
            ),
            deflate_of(old(self).spec_level(), original_data@).len() <= old(compressed_data)@.len()
                ==> r is Ok,
            old(compressed_data)@.len() >= deflate_bound(original_data@.len() as int) ==> r is Ok,
            r matches Err(e) ==> e == CompressError::InsufficientSpace,
    {
        let out = deflate_raw(self.level.level, original_data, compressed_data.len());
        match out {
            Ok(v) => {
                copy_into(compressed_data, &v);
                Ok(v.len())
            },
            Err(e) => Err(e),
        }
    }
}

/// A raw DEFLATE decompressor.
#[derive(Debug, Clone, Copy, PartialEq, Eq)]
pub struct Decompress {}

impl Decompress {
    pub fn new() -> (r: Self) {
        Decompress {  }
    }

    /// Decompresses the raw DEFLATE stream `compressed_data` into the front of
    /// `decompressed_data` and returns the decompressed length; the buffer keeps its length.
    pub fn decompress(&mut self, compressed_data: &[u8], decompressed_data: &mut Vec<u8>) -> (r:
        Result<usize, DecompressError>)
        ensures
            final(decompressed_data)@.len() == old(decompressed_data)@.len(),
            r is Ok <==> (inflate_of(compressed_data@) matches Some(d) && d.len() <= old(decompressed_data)@.len()),
            r matches Ok(n) ==> n <= old(decompressed_data)@.len() && inflate_of(compressed_data@) == Some(final(decompressed_data)@.take(n as int)),
            (inflate_of(compressed_data@) matches Some(d) && d.len() > old(decompressed_data)@.len()) ==> r == Err::<usize, DecompressError>(DecompressError::InsufficientSpace),
            r matches Err(e) ==> e == DecompressError::BadData || e == DecompressError::InsufficientSpace,
    {
        match inflate_raw(compressed_data, decompressed_data.len()) {
            Ok(v) => {
                copy_into(decompressed_data, &v);
                Ok(v.len())
            },
            Err(e) => Err(e),
        }
    }
}

/// Overwrites the front of `dst` with `src`.
fn copy_into(dst: &mut Vec<u8>, src: &Vec<u8>)
    requires
        src@.len() <= old(dst)@.len(),
    ensures
        final(dst)@.len() == old(dst)@.len(),
        final(dst)@.take(src@.len() as int) == src@,
{
    let mut i: usize = 0;
    while i < src.len()
        invariant
            i <= src@.len() <= dst@.len(),
            dst@.len() == old(dst)@.len(),
            dst@.take(i as int) == src@.take(i as int),
        decreases src.len() - i,
    {
        dst.set(i, src[i]);
        i = i + 1;
        proof {
            assert(dst@.take(i as int) =~= src@.take(i as int));
        }
    }
    proof {
        assert(src@.take(i as int) =~= src@);
    }
}

} // verus!
