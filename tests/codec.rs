use bgzip::deflate::{Compress, Decompress};
use bgzip::error::{CompressError, DecompressError};
use bgzip::header::{BGZFHeader, ExtraField, FILESYSTEM_UNKNOWN, FLAG_FEXTRA, FLAG_FNAME};
use bgzip::read::{decompress_block, load_block, BGZFReader};
use bgzip::write::{write_block, BGZFWriter};
use bgzip::{BGZFError, Compression, EOF_MARKER};

fn pseudo_random(n: usize, mut seed: u64) -> Vec<u8> {
    let mut v = Vec::with_capacity(n);
    for _ in 0..n {
        seed = seed.wrapping_mul(6364136223846793005).wrapping_add(1442695040888963407);
        v.push((seed >> 33) as u8);
    }
    v
}

fn compress_all(data: &[u8], level: Compression) -> (Vec<u8>, Option<bgzip::index::BGZFIndex>) {
    let mut writer = BGZFWriter::new(level);
    writer.write(data).unwrap();
    let mut out = writer.take_output();
    let (rest, index) = writer.close().unwrap();
    out.extend_from_slice(&rest);
    (out, index)
}

fn decompress_all(data: &[u8]) -> Vec<u8> {
    let mut reader = BGZFReader::new(data.to_vec()).unwrap();
    let mut out = Vec::new();
    reader.read_to_end(&mut out).unwrap();
    out
}

#[test]
fn test_deflate_inflate() {
    let original_data = pseudo_random(3000, 0x3874aef456157523);
    let mut compress = Compress::new(Compression::default());
    let mut small_buf = vec![0u8; 100];
    assert_eq!(
        compress.compress(&original_data, &mut small_buf),
        Err(CompressError::InsufficientSpace)
    );

    let mut decompress = Decompress::new();
    let mut deflated_data = vec![0u8; 3000 + 500];
    let deflate_size = compress.compress(&original_data, &mut deflated_data).unwrap();
    let mut inflated_data = vec![0u8; 3000];

    assert_eq!(
        decompress.decompress(&deflated_data[..deflate_size], &mut small_buf),
        Err(DecompressError::InsufficientSpace)
    );
    assert!(decompress
        .decompress(&deflated_data[..100], &mut inflated_data)
        .is_err());
    let inflate_size = decompress
        .decompress(&deflated_data[..deflate_size], &mut inflated_data)
        .unwrap();
    assert_eq!(inflate_size, original_data.len());
    assert_eq!(inflated_data, original_data);
}

#[test]
fn lib_test_run() {
    let (out, _) = compress_all(
        b"##fileformat=VCFv4.2\n#CHROM\tPOS\tID\tREF\tALT\tQUAL\tFILTER\tINFO\n",
        Compression::default(),
    );
    assert!(out.ends_with(&EOF_MARKER));
    assert_eq!(
        decompress_all(&out),
        b"##fileformat=VCFv4.2\n#CHROM\tPOS\tID\tREF\tALT\tQUAL\tFILTER\tINFO\n".to_vec()
    );
}

#[test]
fn round_trip_every_level_and_many_blocks() {
    let data = pseudo_random(200_000, 7);
    let mut text = Vec::new();
    for i in 0..20000u32 {
        text.extend_from_slice(format!("chr1\t{}\t.\tA\tC\n", i * 7).as_bytes());
    }
    for level in [0u32, 1, 6, 9, 12] {
        let c = Compression::new(level).unwrap();
        let (out, _) = compress_all(&data, c);
        assert_eq!(decompress_all(&out), data);
        let (out, _) = compress_all(&text, c);
        assert_eq!(decompress_all(&out), text);
    }
}

#[test]
fn empty_input_is_only_the_marker() {
    let (out, index) = compress_all(b"", Compression::default());
    assert_eq!(out, EOF_MARKER.to_vec());
    assert_eq!(index.unwrap().entries().len(), 0);
    assert_eq!(decompress_all(&out), Vec::<u8>::new());
}

#[test]
fn every_block_fits_in_64k() {
    let data = pseudo_random(300_000, 11);
    let (out, _) = compress_all(&data, Compression::best());
    let mut pos = 0;
    let mut buf = Vec::new();
    let mut blocks = 0;
    while pos < out.len() {
        let header = load_block(&out[pos..], &mut buf).unwrap();
        let size = header.block_size().unwrap() as usize;
        assert!(size <= 65536);
        pos += size;
        blocks += 1;
    }
    assert_eq!(pos, out.len());
    assert_eq!(blocks, 6);
}

#[test]
fn compression_levels() {
    assert_eq!(Compression::new(13), Err(BGZFError::InvalidCompressionLevel));
    assert_eq!(Compression::new(12).unwrap().level(), 12);
    assert_eq!(Compression::best().level(), 12);
    assert_eq!(Compression::fast().level(), 0);
    assert_eq!(Compression::default().level(), 6);
}

#[test]
fn write_block_rejects_large_units() {
    let mut compress = Compress::new(Compression::default());
    let mut out = Vec::new();
    let data = vec![0u8; 65536];
    assert_eq!(
        write_block(&mut out, &data, &mut compress),
        Err(BGZFError::TooLargeCompressUnit)
    );
    assert!(out.is_empty());
    let data = vec![b'a'; 1000];
    let n = write_block(&mut out, &data, &mut compress).unwrap();
    assert_eq!(n, out.len());
    let mut body = Vec::new();
    let header = load_block(&out, &mut body).unwrap();
    assert_eq!(header.block_size().unwrap() as usize, n);
    assert_eq!(header.header_size(), 18);
    let mut decoded = Vec::new();
    decompress_block(&mut decoded, &body, &mut Decompress::new()).unwrap();
    assert_eq!(decoded, data);
    assert_eq!(&out[n - 4..n], &1000u32.to_le_bytes());
}

#[test]
fn incompressible_unit_still_fits() {
    let mut compress = Compress::new(Compression::best());
    let mut out = Vec::new();
    let data = pseudo_random(65535, 3);
    match write_block(&mut out, &data, &mut compress) {
        Ok(n) => assert!(n <= 65536),
        Err(e) => assert_eq!(
            e,
            BGZFError::CompressionError(CompressError::InsufficientSpace)
        ),
    }
}

#[test]
fn corrupt_crc_is_detected() {
    let mut compress = Compress::new(Compression::default());
    let mut out = Vec::new();
    write_block(&mut out, b"hello hello hello", &mut compress).unwrap();
    let mut body = Vec::new();
    load_block(&out, &mut body).unwrap();
    let len = body.len();
    body[len - 8] ^= 0xff;
    let mut decoded = vec![1u8];
    assert_eq!(
        decompress_block(&mut decoded, &body, &mut Decompress::new()),
        Err(BGZFError::UnmatchedCrc)
    );
    assert_eq!(decoded, vec![1u8]);
    body[len - 8] ^= 0xff;
    body[len - 4] = body[len - 4].wrapping_add(1);
    assert!(decompress_block(&mut decoded, &body, &mut Decompress::new()).is_err());
}

#[test]
fn block_footer_holds_crc32() {
    let mut compress = Compress::new(Compression::default());
    let mut out = Vec::new();
    let n = write_block(&mut out, b"123456789", &mut compress).unwrap();
    assert_eq!(&out[n - 8..n - 4], &0xCBF43926u32.to_le_bytes());
    assert_eq!(&out[n - 4..n], &9u32.to_le_bytes());
    let mut empty = Vec::new();
    let m = write_block(&mut empty, b"", &mut compress).unwrap();
    assert_eq!(&empty[m - 8..m], &[0u8; 8]);
}

#[test]
fn header_round_trip_canonical() {
    let header = BGZFHeader::new(false, 0, 100);
    assert_eq!(header.block_size().unwrap(), 126);
    let mut buf = Vec::new();
    header.write(&mut buf).unwrap();
    assert_eq!(buf.len(), 18);
    assert_eq!(header.header_size(), 18);
    let parsed = BGZFHeader::from_reader(&buf).unwrap();
    assert_eq!(parsed, header);
    let mut again = Vec::new();
    parsed.write(&mut again).unwrap();
    assert_eq!(again, buf);
    assert_eq!(parsed.operation_system, FILESYSTEM_UNKNOWN);
    assert_eq!(parsed.flags, FLAG_FEXTRA);
    assert_eq!(parsed.extra_flags, 2);
    assert_eq!(BGZFHeader::new(true, 0, 0).extra_flags, 4);
}

#[test]
fn header_update_block_size() {
    let mut header = BGZFHeader::new(false, 0, 0);
    header.update_block_size(65536).unwrap();
    assert_eq!(header.block_size().unwrap(), 65536);
    assert_eq!(header.extra_field[0].data(), &[0xff, 0xff]);
    let mut plain = BGZFHeader::new(false, 0, 0);
    plain.extra_field.clear();
    plain.extra_field_len = None;
    plain.flags = 0;
    assert_eq!(plain.block_size(), Err(BGZFError::NotBGZF));
    assert_eq!(plain.update_block_size(10), Err(BGZFError::NotBGZF));
}

#[test]
fn eof_marker_header() {
    let header = BGZFHeader::from_reader(&EOF_MARKER).unwrap();
    assert_eq!(header.block_size().unwrap(), 28);
    assert_eq!(header.extra_flags, 0);
    let mut body = Vec::new();
    load_block(&EOF_MARKER, &mut body).unwrap();
    assert_eq!(body, vec![3, 0, 0, 0, 0, 0, 0, 0, 0, 0]);
}

#[test]
fn header_with_name_and_comment() {
    let mut bytes = vec![31, 139, 8, FLAG_FNAME | 16 | 2, 1, 2, 3, 4, 0, 3];
    bytes.extend_from_slice(b"name.txt\0");
    bytes.extend_from_slice(b"hi\0");
    bytes.extend_from_slice(&[0x34, 0x12]);
    bytes.extend_from_slice(b"payload");
    let header = BGZFHeader::from_reader(&bytes).unwrap();
    assert_eq!(header.file_name, Some(b"name.txt\0".to_vec()));
    assert_eq!(header.comment, Some(b"hi\0".to_vec()));
    assert_eq!(header.crc16, Some(0x1234));
    assert_eq!(header.modified_time, 0x04030201);
    assert_eq!(header.header_size(), 24);
    let mut out = Vec::new();
    header.write(&mut out).unwrap();
    assert_eq!(out, bytes[..24].to_vec());
}

#[test]
fn header_errors() {
    assert_eq!(
        BGZFHeader::from_reader(&[31, 139, 8]),
        Err(BGZFError::UnexpectedEof)
    );
    assert_eq!(
        BGZFHeader::from_reader(&[1, 2, 8, 0, 0, 0, 0, 0, 0, 0]),
        Err(BGZFError::NotGzip)
    );
    assert_eq!(
        BGZFHeader::from_reader(&[31, 139, 7, 0, 0, 0, 0, 0, 0, 0]),
        Err(BGZFError::UnsupportedCompressionMethod)
    );
    assert_eq!(
        BGZFHeader::from_reader(&[31, 139, 8, 32, 0, 0, 0, 0, 0, 0]),
        Err(BGZFError::UnsupportedFlag)
    );
    assert_eq!(
        BGZFHeader::from_reader(&[31, 139, 8, 4, 0, 0, 0, 0, 0, 0, 3, 0, 66, 67, 0]),
        Err(BGZFError::InvalidExtraField)
    );
    let mut header = BGZFHeader::new(false, 0, 0);
    header.flags = 0;
    let mut out = vec![9u8];
    assert_eq!(header.write(&mut out), Err(BGZFError::InvalidFlags));
    assert_eq!(out, vec![9u8]);
    let mut header = BGZFHeader::new(false, 0, 0);
    header.extra_field_len = Some(7);
    assert_eq!(header.write(&mut out), Err(BGZFError::InvalidExtraFieldLength));
    let field = ExtraField::new(1, 2, vec![5, 6, 7]);
    assert_eq!(field.field_len(), 7);
    assert_eq!((field.id1(), field.id2()), (1, 2));
}
