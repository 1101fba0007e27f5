use bgzip::index::{BGZFIndex, BGZFIndexEntry};
use bgzip::read::{BGZFReader, IndexedBGZFReader};
use bgzip::thread::OrderedBlocks;
use bgzip::write::BGZFWriter;
use bgzip::{BGZFError, Compression};

fn lines(n: usize) -> Vec<Vec<u8>> {
    (0..n)
        .map(|i| format!("chr{}\t{}\t{}\tname{}\n", i % 3 + 1, i * 13, i * 13 + 50, i).into_bytes())
        .collect()
}

fn write_lines(lines: &[Vec<u8>]) -> (Vec<u8>, BGZFIndex, Vec<(u64, u64)>) {
    let mut writer = BGZFWriter::new(Compression::default());
    let mut out = Vec::new();
    let mut positions = Vec::new();
    for line in lines {
        positions.push((writer.bgzf_pos(), writer.pos()));
        writer.write(line).unwrap();
        out.extend_from_slice(&writer.take_output());
    }
    let (rest, index) = writer.close().unwrap();
    out.extend_from_slice(&rest);
    (out, index.unwrap(), positions)
}

#[test]
fn test_bgzf_pos() {
    let data = lines(20000);
    let (out, _, positions) = write_lines(&data);
    let mut reader = BGZFReader::new(out).unwrap();
    for i in (0..data.len()).step_by(97) {
        reader.bgzf_seek(positions[i].0).unwrap();
        assert_eq!(reader.bgzf_pos(), positions[i].0);
        let mut line = Vec::new();
        reader.read_until(b'\n', &mut line).unwrap();
        assert_eq!(line, data[i]);
    }
}

#[test]
fn test_index_position_convert() {
    let data = lines(20000);
    let (_, index, positions) = write_lines(&data);
    assert!(index.entries().len() > 2);
    for (bgzf_pos, uncompressed_pos) in &positions {
        assert_eq!(
            index.bgzf_pos_to_uncompressed_pos(*bgzf_pos).unwrap(),
            *uncompressed_pos
        );
        assert_eq!(
            index.uncompressed_pos_to_bgzf_pos(*uncompressed_pos).unwrap(),
            *bgzf_pos
        );
    }
}

#[test]
fn index_test_index_read_write() {
    let data = lines(20000);
    let (_, index, _) = write_lines(&data);
    let mut bytes = Vec::new();
    index.write(&mut bytes);
    assert_eq!(bytes.len(), 8 + 16 * index.entries().len());
    let loaded = BGZFIndex::from_reader(&bytes).unwrap();
    assert_eq!(loaded, index);
    let mut again = Vec::new();
    loaded.write(&mut again);
    assert_eq!(again, bytes);
}

#[test]
fn gzi_errors() {
    assert_eq!(BGZFIndex::from_reader(&[1, 0, 0]), Err(BGZFError::UnexpectedEof));
    let mut bytes = 1u64.to_le_bytes().to_vec();
    assert_eq!(BGZFIndex::from_reader(&bytes), Err(BGZFError::UnexpectedEof));
    bytes.extend_from_slice(&0u64.to_le_bytes());
    bytes.extend_from_slice(&5u64.to_le_bytes());
    assert!(!BGZFIndex::from_reader(&bytes).unwrap().is_sorted());
    let mut unsorted = 2u64.to_le_bytes().to_vec();
    for v in [100u64, 1000, 50, 2000] {
        unsorted.extend_from_slice(&v.to_le_bytes());
    }
    let loaded = BGZFIndex::from_reader(&unsorted).unwrap();
    assert!(!loaded.is_sorted());
    let mut again = Vec::new();
    loaded.write(&mut again);
    assert_eq!(again, unsorted);
}

#[test]
fn gzi_translation_values() {
    let mut bytes = 2u64.to_le_bytes().to_vec();
    for v in [100u64, 65280, 250, 130560] {
        bytes.extend_from_slice(&v.to_le_bytes());
    }
    let index = BGZFIndex::from_reader(&bytes).unwrap();
    assert!(index.is_sorted());
    assert_eq!(
        index.entries(),
        &[
            BGZFIndexEntry { compressed_offset: 100, uncompressed_offset: 65280 },
            BGZFIndexEntry { compressed_offset: 250, uncompressed_offset: 130560 }
        ]
    );
    assert_eq!(index.uncompressed_pos_to_bgzf_pos(10).unwrap(), 10);
    assert_eq!(index.uncompressed_pos_to_bgzf_pos(65280).unwrap(), 100 << 16);
    assert_eq!(index.uncompressed_pos_to_bgzf_pos(65290).unwrap(), (100 << 16) | 10);
    assert_eq!(index.uncompressed_pos_to_bgzf_pos(130561).unwrap(), (250 << 16) | 1);
    assert_eq!(index.bgzf_pos_to_uncompressed_pos(7).unwrap(), 7);
    assert_eq!(index.bgzf_pos_to_uncompressed_pos((250 << 16) | 3).unwrap(), 130563);
    assert_eq!(
        index.bgzf_pos_to_uncompressed_pos(101 << 16),
        Err(BGZFError::InvalidBgzfPosition)
    );
}

#[test]
fn test_indexed_reader() {
    let data = lines(20000);
    let (out, index, positions) = write_lines(&data);
    let total: usize = data.iter().map(|l| l.len()).sum();
    let reader = BGZFReader::new(out).unwrap();
    let mut reader = IndexedBGZFReader::new(reader, index).unwrap();
    assert_eq!(reader.end_pos(), total as u64);
    let mut line = Vec::new();
    reader.read_until(b'\n', &mut line).unwrap();
    assert_eq!(line, data[0]);
    for i in (0..data.len()).step_by(61) {
        reader.seek(positions[i].1).unwrap();
        line.clear();
        reader.read_until(b'\n', &mut line).unwrap();
        assert_eq!(line, data[i]);
    }
}

#[test]
fn reader_reads_in_pieces() {
    let data = lines(5000).concat();
    let mut writer = BGZFWriter::with_compress_unit_size(Compression::fast(), 1000, false).unwrap();
    writer.write(&data).unwrap();
    let (out, index) = writer.close().unwrap();
    assert!(index.is_none());
    let mut reader = BGZFReader::new(out).unwrap();
    let mut got = Vec::new();
    loop {
        let piece = reader.read(333).unwrap();
        if piece.is_empty() {
            break;
        }
        assert!(piece.len() <= 333);
        got.extend_from_slice(&piece);
    }
    assert_eq!(got, data);
    assert!(reader.eof_marker_seen());
}

#[test]
fn writer_rejects_large_unit() {
    assert!(matches!(
        BGZFWriter::with_compress_unit_size(Compression::default(), 65536, true),
        Err(BGZFError::TooLargeCompressUnit)
    ));
    assert!(BGZFWriter::with_compress_unit_size(Compression::default(), 65535, true).is_ok());
    assert!(matches!(
        BGZFWriter::with_compress_unit_size(Compression::default(), 0, true),
        Err(BGZFError::InvalidData)
    ));
}

#[test]
fn reader_stream_without_marker_and_bad_seek() {
    let (mut out, _, _) = write_lines(&lines(10));
    out.truncate(out.len() - 28);
    let mut reader = BGZFReader::new(out.clone()).unwrap();
    let mut all = Vec::new();
    reader.read_to_end(&mut all).unwrap();
    assert_eq!(all, lines(10).concat());
    assert!(!reader.eof_marker_seen());
    assert_eq!(
        reader.bgzf_seek(((out.len() as u64) + 5) << 16),
        Err(BGZFError::UnexpectedEof)
    );
    assert_eq!(reader.bgzf_seek(60000), Err(BGZFError::InvalidBgzfPosition));
}

#[test]
fn ordered_blocks_deliver_in_index_order() {
    let mut ordered = OrderedBlocks::new();
    assert!(ordered.insert(2, vec![2]).is_empty());
    assert!(ordered.insert(1, vec![1]).is_empty());
    assert!(ordered.is_waiting(2));
    assert_eq!(ordered.insert(0, vec![0]), vec![vec![0], vec![1], vec![2]]);
    assert!(!ordered.is_waiting(2));
    assert_eq!(ordered.insert(3, vec![3, 3]), vec![vec![3, 3]]);
    assert!(ordered.insert(5, vec![5]).is_empty());
    assert_eq!(ordered.insert(4, vec![4]), vec![vec![4], vec![5]]);
}
