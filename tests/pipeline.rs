use bgzip::index::{BGZFIndex, BGZFIndexEntry};
use bgzip::read::{decompress_blocks, load_batch, BGZFReader};
use bgzip::deflate::Decompress;
use bgzip::tbi::sort_by_begin;
use bgzip::write::BGZFWriter;
use bgzip::{Compression, EOF_MARKER};

fn sample_stream(n: usize) -> (Vec<u8>, Vec<u8>) {
    let mut data = Vec::new();
    for i in 0..n {
        data.extend_from_slice(format!("chr1\t{}\tx{}\n", i, i * 31).as_bytes());
    }
    let mut w = BGZFWriter::with_compress_unit_size(Compression::default(), 5000, true).unwrap();
    w.write(&data).unwrap();
    let mut out = w.take_output();
    let (rest, _) = w.close().unwrap();
    out.extend_from_slice(&rest);
    (data, out)
}

#[test]
fn batches_decode_to_the_stream() {
    let (data, stream) = sample_stream(20000);
    let mut position = 0;
    let mut decoded = Vec::new();
    let mut batches = 0;
    loop {
        let (blocks, next, at_end) = load_batch(&stream, position, 3).unwrap();
        assert!(blocks.len() <= 3);
        if !at_end {
            assert_eq!(blocks.len(), 3);
        }
        decoded.extend_from_slice(&decompress_blocks(&blocks, &mut Decompress::new()).unwrap());
        position = next;
        batches += 1;
        if at_end {
            break;
        }
    }
    assert_eq!(decoded, data);
    assert_eq!(&stream[position..], &EOF_MARKER[..]);
    assert!(batches > 3);
}

#[test]
fn append_sizes_accumulates() {
    let mut index = BGZFIndex::new();
    let r = index.append_sizes(100, 1000, &vec![(10, 5), (20, 7)]).unwrap();
    assert_eq!(r, (112, 1030));
    assert_eq!(
        index.entries(),
        &[
            BGZFIndexEntry { compressed_offset: 105, uncompressed_offset: 1010 },
            BGZFIndexEntry { compressed_offset: 112, uncompressed_offset: 1030 }
        ]
    );
    assert!(index.append_sizes(u64::MAX - 1, 0, &vec![(1, 5)]).is_err());
}

#[test]
fn ranges_sorted_by_begin() {
    assert_eq!(
        sort_by_begin(vec![(50, 60), (0, 30), (40, 45)]),
        vec![(0, 30), (40, 45), (50, 60)]
    );
}

#[test]
fn fresh_writer_and_vcf_close() {
    let mut w = BGZFWriter::new(Compression::default());
    assert_eq!(w.bgzf_pos(), 0);
    assert_eq!(w.pos(), 0);
    w.write(b"##fileformat=VCFv4.2\n").unwrap();
    w.write(b"#CHROM\tPOS\tID\tREF\tALT\tQUAL\tFILTER\tINFO\n").unwrap();
    let (out, index) = w.close().unwrap();
    assert!(index.unwrap().entries().is_empty());
    assert!(out.ends_with(&EOF_MARKER));
    let block = &out[..out.len() - 28];
    assert_eq!(&block[block.len() - 4..], &60u32.to_le_bytes());
    let mut r = BGZFReader::new(out).unwrap();
    let mut all = Vec::new();
    r.read_to_end(&mut all).unwrap();
    assert_eq!(all.len(), 60);
    assert_eq!(r.read(10).unwrap(), Vec::<u8>::new());
}

#[test]
fn seek_to_writer_offsets_resumes() {
    let mut w = BGZFWriter::with_compress_unit_size(Compression::fast(), 700, false).unwrap();
    let mut out = Vec::new();
    let mut marks = Vec::new();
    for i in 0..3000u32 {
        let line = format!("line {}\n", i).into_bytes();
        marks.push((w.bgzf_pos(), line.clone()));
        w.write(&line).unwrap();
        out.extend_from_slice(&w.take_output());
    }
    let (rest, _) = w.close().unwrap();
    out.extend_from_slice(&rest);
    let mut r = BGZFReader::new(out).unwrap();
    for (v, line) in marks.iter().step_by(7) {
        r.bgzf_seek(*v).unwrap();
        let mut got = Vec::new();
        r.read_until(b'\n', &mut got).unwrap();
        assert_eq!(&got, line);
        let here = r.bgzf_pos();
        let mut next = Vec::new();
        r.read_until(b'\n', &mut next).unwrap();
        r.bgzf_seek(here).unwrap();
        let mut again = Vec::new();
        r.read_until(b'\n', &mut again).unwrap();
        assert_eq!(again, next);
    }
}
