use bgzip::header::{BGZFHeader, FILESYSTEM_UNIX, FILESYSTEM_UNKNOWN, FLAG_FNAME};
use bgzip::read::{decompress_block, decompress_blocks, load_block, BGZFReader};
use bgzip::deflate::Decompress;
use bgzip::batch::write_blocks;
use bgzip::deflate::Compress;
use bgzip::write::BGZFWriter;
use bgzip::{Compression, EOF_MARKER};

fn vcf_like(n: usize) -> Vec<u8> {
    let mut data = b"##fileformat=VCFv4.0\n".to_vec();
    for i in 0..n {
        data.extend_from_slice(
            format!("1\t{}\trs{}\tT\tA,C\t.\t.\tRS={};VC=SNV\n", 10000 + i * 7, i, i).as_bytes(),
        );
    }
    data
}

fn compress(data: &[u8]) -> Vec<u8> {
    let mut writer = BGZFWriter::new(Compression::default());
    writer.write(data).unwrap();
    let mut out = writer.take_output();
    let (rest, _) = writer.close().unwrap();
    out.extend_from_slice(&rest);
    out
}

#[test]
fn header_load_header() {
    let compressed = compress(&vcf_like(100));
    let mut header = BGZFHeader::from_reader(&compressed).unwrap();
    assert_eq!(header.operation_system, FILESYSTEM_UNKNOWN);
    assert_eq!(header.compression_method, 8);
    assert_eq!(header.flags, 4);
    assert_eq!(header.extra_field_len, Some(6));
    assert_eq!(header.extra_field[0].data().len(), 2);
    let mut buf = Vec::new();
    header.write(&mut buf).unwrap();
    assert_eq!(buf.len() as u64, header.header_size());
    assert_eq!(buf, compressed[..buf.len()].to_vec());
    let mut again = Vec::new();
    header.update_block_size(header.block_size().unwrap()).unwrap();
    header.write(&mut again).unwrap();
    assert_eq!(again, buf);
}

#[test]
fn header_load_header2() {
    let mut bytes = vec![31, 139, 8, FLAG_FNAME, 0x10, 0x20, 0x30, 0x40, 0, FILESYSTEM_UNIX];
    bytes.extend_from_slice(b"common_all_20180418_half.vcf.nobgzip\0");
    bytes.extend_from_slice(&[1, 2, 3]);
    let header = BGZFHeader::from_reader(&bytes).unwrap();
    assert_eq!(header.operation_system, FILESYSTEM_UNIX);
    assert_eq!(header.compression_method, 8);
    assert_eq!(header.flags, FLAG_FNAME);
    assert_eq!(header.extra_field_len, None);
    assert_eq!(
        header.file_name,
        Some(b"common_all_20180418_half.vcf.nobgzip\0".to_vec())
    );
    let mut buf = Vec::new();
    header.write(&mut buf).unwrap();
    assert_eq!(buf.len() as u64, header.header_size());
    assert_eq!(buf, bytes[..bytes.len() - 3].to_vec());
    assert!(header.block_size().is_err());
}

#[test]
fn mod_test_load_block() {
    let data = vcf_like(20000);
    let compressed = compress(&data);
    let mut pos = 0;
    let mut body = Vec::new();
    let mut decompressed = Vec::new();
    let mut decompress = Decompress::new();
    loop {
        let header = load_block(&compressed[pos..], &mut body).unwrap();
        pos += header.block_size().unwrap() as usize;
        if body == [3, 0, 0, 0, 0, 0, 0, 0, 0, 0] {
            break;
        }
        decompress_block(&mut decompressed, &body, &mut decompress).unwrap();
    }
    assert_eq!(pos, compressed.len());
    assert_eq!(decompressed, data);
}

#[test]
fn mod_test_read() {
    let data = vcf_like(20000);
    let compressed = compress(&data);
    let mut reader = BGZFReader::new(compressed).unwrap();
    let mut line = Vec::new();
    reader.read_until(b'\n', &mut line).unwrap();
    assert_eq!(line, b"##fileformat=VCFv4.0\n".to_vec());
    let mut expected = data.clone();
    expected.drain(..line.len());
    let mut got = Vec::new();
    while got.len() < 30000 {
        let piece = reader.read(1000).unwrap();
        assert!(!piece.is_empty());
        got.extend_from_slice(&piece);
    }
    assert_eq!(got, expected[..got.len()].to_vec());
    reader.bgzf_seek(0).unwrap();
    assert_eq!(reader.bgzf_pos(), 0);
    reader.bgzf_seek(35).unwrap();
    assert_eq!(reader.bgzf_pos(), 35);
    let piece = reader.read(30).unwrap();
    assert_eq!(piece, data[35..65].to_vec());
}

#[test]
fn mod_test_read_all() {
    let data = vcf_like(30000);
    let mut reader = BGZFReader::new(compress(&data)).unwrap();
    let mut out = Vec::new();
    assert_eq!(reader.read_to_end(&mut out).unwrap(), data.len());
    assert_eq!(out, data);
}

#[test]
fn mod_test_simple() {
    let out = compress(b"1234");
    assert!(out.ends_with(&EOF_MARKER));
    let mut reader = BGZFReader::new(out).unwrap();
    let mut data = Vec::new();
    reader.read_to_end(&mut data).unwrap();
    assert_eq!(data, b"1234");
}

#[test]
fn mod_test_write_bed() {
    let data = vcf_like(30000);
    let compressed = compress(&data);
    let mut pos = 0;
    let mut body = Vec::new();
    let mut decompress = Decompress::new();
    loop {
        let header = BGZFHeader::from_reader(&compressed[pos..]).unwrap();
        assert_eq!(header.comment, None);
        assert_eq!(header.file_name, None);
        assert_eq!(header.modified_time, 0);
        load_block(&compressed[pos..], &mut body).unwrap();
        pos += header.block_size().unwrap() as usize;
        let len = body.len();
        let uncompressed_len = u32::from_le_bytes([body[len - 4], body[len - 3], body[len - 2], body[len - 1]]);
        if uncompressed_len == 0 {
            break;
        }
        let mut out = Vec::new();
        decompress_block(&mut out, &body, &mut decompress).unwrap();
        assert_eq!(out.len(), uncompressed_len as usize);
    }
    assert_eq!(pos, compressed.len());
}

#[test]
fn batch_decode_matches_stream() {
    let data = vcf_like(30000);
    let compressed = compress(&data);
    let mut pos = 0;
    let mut bodies = Vec::new();
    loop {
        let mut body = Vec::new();
        let header = load_block(&compressed[pos..], &mut body).unwrap();
        pos += header.block_size().unwrap() as usize;
        if pos == compressed.len() {
            break;
        }
        bodies.push(body);
    }
    assert!(bodies.len() > 2);
    let mut decompress = Decompress::new();
    assert_eq!(decompress_blocks(&bodies, &mut decompress).unwrap(), data);
    let mut broken = bodies.clone();
    broken[1].truncate(5);
    assert!(decompress_blocks(&broken, &mut decompress).is_err());
}

#[test]
fn batch_write_then_read() {
    let data = vcf_like(5000);
    let mut out = Vec::new();
    let mut compress = Compress::new(Compression::default());
    let sizes = write_blocks(&mut out, &data, 10000, &mut compress).unwrap();
    let expected_blocks = (data.len() + 9999) / 10000;
    assert_eq!(sizes.len(), expected_blocks);
    assert_eq!(sizes.iter().map(|s| s.0).sum::<usize>(), data.len());
    assert_eq!(sizes.iter().map(|s| s.1).sum::<usize>(), out.len());
    assert!(sizes.iter().all(|s| s.0 <= 10000 && s.1 <= 65536));
    out.extend_from_slice(&EOF_MARKER);
    let mut reader = BGZFReader::new(out).unwrap();
    let mut got = Vec::new();
    reader.read_to_end(&mut got).unwrap();
    assert_eq!(got, data);
}
