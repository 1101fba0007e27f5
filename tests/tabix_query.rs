use bgzip::tabix;
use bgzip::tbi::{convert_data_to_u64, TabixFile, TabixIndex};
use bgzip::write::BGZFWriter;
use bgzip::{BGZFError, Compression};

fn compress(data: &[u8]) -> Vec<u8> {
    let mut writer = BGZFWriter::with_compress_unit_size(Compression::default(), 40, false).unwrap();
    writer.write(data).unwrap();
    let mut out = writer.take_output();
    let (rest, _) = writer.close().unwrap();
    out.extend_from_slice(&rest);
    out
}

fn u32le(v: u32) -> [u8; 4] {
    v.to_le_bytes()
}

/// A BED-rule file with three records on chr1 and its index, built by hand.
fn sample() -> (Vec<u8>, Vec<u8>, Vec<u64>) {
    let records: Vec<&[u8]> = vec![
        b"#comment line\n",
        b"chr1\t100\t200\ta\n",
        b"chr1\t20000\t20100\tb\n",
        b"chr1\t40000\t40050\tc\n",
    ];
    let mut writer = BGZFWriter::with_compress_unit_size(Compression::default(), 40, false).unwrap();
    let mut data = Vec::new();
    let mut vofs = Vec::new();
    for r in &records {
        vofs.push(writer.bgzf_pos());
        writer.write(r).unwrap();
        data.extend_from_slice(&writer.take_output());
    }
    writer.flush().unwrap();
    vofs.push(writer.bgzf_pos());
    let (rest, _) = writer.close().unwrap();
    data.extend_from_slice(&rest);

    let mut tbi = b"TBI\x01".to_vec();
    for v in [1u32, 0x10000, 1, 2, 3, b'#' as u32, 0, 5] {
        tbi.extend_from_slice(&u32le(v));
    }
    tbi.extend_from_slice(b"chr1\0");
    tbi.extend_from_slice(&u32le(3));
    let bins = [(4681u32, 1usize), (4682, 2), (4683, 3)];
    for (bin, i) in bins {
        tbi.extend_from_slice(&u32le(bin));
        tbi.extend_from_slice(&u32le(1));
        tbi.extend_from_slice(&vofs[i].to_le_bytes());
        tbi.extend_from_slice(&vofs[i + 1].to_le_bytes());
    }
    tbi.extend_from_slice(&u32le(3));
    for i in 1..4 {
        tbi.extend_from_slice(&vofs[i].to_le_bytes());
    }
    (data, tbi, vofs)
}

#[test]
fn test_load() {
    let (_, tbi, vofs) = sample();
    let index = TabixIndex::new(&compress(&tbi)).unwrap();
    assert_eq!(index.n_ref, 1);
    assert_eq!(index.format, 0x10000);
    assert_eq!((index.col_seq, index.col_beg, index.col_end), (1, 2, 3));
    assert_eq!(index.meta, b'#' as u32);
    assert_eq!(index.names, vec![b"chr1".to_vec()]);
    assert_eq!(index.seq_index[0].bins.len(), 3);
    assert_eq!(index.seq_index[0].interval, vofs[1..4].to_vec());
    assert_eq!(index.name2rid(b"chr1"), Some(0));
    assert_eq!(index.name2rid(b"chr2"), None);
    assert_eq!(index.rid2name(0), b"chr1");
}

#[test]
fn tbi_errors() {
    let (_, tbi, _) = sample();
    let mut bad = tbi.clone();
    bad[0] = b'X';
    assert_eq!(TabixIndex::from_bytes(&bad), Err(BGZFError::NotTabix));
    assert_eq!(
        TabixIndex::from_bytes(&tbi[..tbi.len() - 3]),
        Err(BGZFError::UnexpectedEof)
    );
    let mut longer = tbi.clone();
    longer.push(0);
    assert_eq!(TabixIndex::from_bytes(&longer), Err(BGZFError::InvalidData));
    assert!(TabixIndex::from_bytes(&tbi).is_ok());
}

#[test]
fn region_chunks_merge_and_prune() {
    let (_, tbi, vofs) = sample();
    let index = TabixIndex::from_bytes(&tbi).unwrap();
    assert_eq!(index.region_chunks(0, 0, 50000), vec![(vofs[1], vofs[4])]);
    assert_eq!(index.region_chunks(0, 20000, 20001), vec![(vofs[2], vofs[3])]);
    assert_eq!(index.region_chunks(0, 40000, 40010), vec![(vofs[3], vofs[4])]);
}

#[test]
fn test_fetch() {
    let (data, tbi, _) = sample();
    let mut file = TabixFile::new(data, &compress(&tbi)).unwrap();
    file.fetch0(0, 19000, 20050).unwrap();
    let mut line = Vec::new();
    assert_eq!(file.read(&mut line).unwrap(), Some((20000, 20100)));
    assert_eq!(line, b"chr1\t20000\t20100\tb\n".to_vec());
    assert_eq!(file.read(&mut line).unwrap(), None);

    file.fetch0(0, 0, 50000).unwrap();
    let mut spans = Vec::new();
    while let Some(span) = file.read(&mut line).unwrap() {
        spans.push(span);
    }
    assert_eq!(spans, vec![(100, 200), (20000, 20100), (40000, 40050)]);

    file.fetch(0, 201, 19999).unwrap();
    assert_eq!(file.read(&mut line).unwrap(), None);
    assert_eq!(file.fetch0(1, 0, 10), Err(BGZFError::InvalidData));
    assert_eq!(file.fetch0(0, 10, 10), Err(BGZFError::InvalidData));
}

#[test]
fn decimal_fields() {
    assert_eq!(convert_data_to_u64(b"12345"), Ok(12345));
    assert_eq!(convert_data_to_u64(b"0"), Ok(0));
    assert_eq!(convert_data_to_u64(b"18446744073709551615"), Ok(u64::MAX));
    assert_eq!(
        convert_data_to_u64(b"18446744073709551616"),
        Err(BGZFError::InvalidData)
    );
    assert_eq!(convert_data_to_u64(b""), Err(BGZFError::InvalidData));
    assert_eq!(convert_data_to_u64(b"12a"), Err(BGZFError::InvalidData));
    assert_eq!(convert_data_to_u64(&[0xff]), Err(BGZFError::Utf8Error));
}

#[test]
fn tabix_bins_for_sample_records() {
    assert_eq!(tabix::reg2bin(100, 200), 4681);
    assert_eq!(tabix::reg2bin(20000, 20100), 4682);
    assert_eq!(tabix::reg2bin(40000, 40050), 4683);
}

#[test]
fn leading_skip_lines_are_not_records() {
    let (data, mut tbi, _) = sample();
    tbi[24..28].copy_from_slice(&u32le(0));
    tbi[28..32].copy_from_slice(&u32le(1));
    let mut file = TabixFile::new(data, &compress(&tbi)).unwrap();
    file.fetch0(0, 0, 50000).unwrap();
    let mut line = Vec::new();
    let mut spans = Vec::new();
    while let Some(span) = file.read(&mut line).unwrap() {
        spans.push(span);
    }
    assert_eq!(spans, vec![(100, 200), (20000, 20100), (40000, 40050)]);
}
