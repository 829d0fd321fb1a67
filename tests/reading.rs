use std::io::Write;

use kmer_counter::counting::count_kmers;
use kmer_counter::source::{detect_format, parse_records, read_sequences, split_lines, InputFormat, ReadError};

fn gz(data: &[u8]) -> Vec<u8> {
    let mut e = flate2::write::GzEncoder::new(Vec::new(), flate2::Compression::default());
    e.write_all(data).unwrap();
    e.finish().unwrap()
}

fn fmt(gzip: bool, fasta: bool, fastq: bool) -> InputFormat {
    InputFormat { gzip, fasta, fastq }
}

#[test]
fn format_from_name() {
    assert_eq!(detect_format("reads.fasta"), fmt(false, true, false));
    assert_eq!(detect_format("reads.fa.gz"), fmt(true, true, false));
    assert_eq!(detect_format("READS.FQ.GZ"), fmt(true, false, true));
    // ".fastq" holds ".fa", so such a name announces both formats.
    assert_eq!(detect_format("x.fastq"), fmt(false, true, true));
    assert_eq!(detect_format("notes.txt"), fmt(false, false, false));
    assert_eq!(detect_format("a.gz.txt"), fmt(false, false, false));
}

#[test]
fn lines_split_and_carriage_returns() {
    assert_eq!(split_lines(b"ab\r\ncd\n\nef"), vec![b"ab".to_vec(), b"cd".to_vec(), vec![], b"ef".to_vec()]);
    assert_eq!(split_lines(b"ab\n"), vec![b"ab".to_vec()]);
    assert_eq!(split_lines(b""), Vec::<Vec<u8>>::new());
    assert_eq!(split_lines(b"x\r"), vec![b"x\r".to_vec()]);
}

#[test]
fn fasta_records() {
    let text = b">one\nACGT\nAC\n>empty\n>two\nGG\n";
    let r = parse_records(text, fmt(false, true, false));
    assert_eq!(r, vec![b"ACGTAC".to_vec(), b"GG".to_vec()]);
}

#[test]
fn fasta_lines_before_first_header_are_ignored() {
    let r = parse_records(b"TTTT\n>a\nCC", fmt(false, true, false));
    assert_eq!(r, vec![b"CC".to_vec()]);
}

#[test]
fn fastq_records_skip_quality() {
    let text = b"@r1\nACGT\n+\n@@@@\n@r2\nGGA\n+r2\nIII\n";
    let r = parse_records(text, fmt(false, false, true));
    assert_eq!(r, vec![b"ACGT".to_vec(), b"GGA".to_vec()]);
}

#[test]
fn unknown_format_gives_no_records() {
    assert!(parse_records(b">a\nACGT\n", fmt(false, false, false)).is_empty());
    assert_eq!(read_sequences("reads.txt", b">a\nACGT\n"), Ok(vec![]));
}

#[test]
fn gzip_and_plain_give_same_counts() {
    let text = b">a\nACGTACGT\n>b\nGGATC\n";
    let plain = read_sequences("reads.fa", text).unwrap();
    let packed = gz(text);
    assert_ne!(packed, text.to_vec());
    let unpacked = read_sequences("reads.fa.GZ", &packed).unwrap();
    assert_eq!(plain, unpacked);
    assert_eq!(plain, vec![b"ACGTACGT".to_vec(), b"GGATC".to_vec()]);
    let a = count_kmers(&plain, 4, false).unwrap();
    let b = count_kmers(&unpacked, 4, false).unwrap();
    assert_eq!(a.table.total(), b.table.total());
    assert_eq!(b.table.count_of(b"ACGT"), 2);
    assert_eq!(b.table.count_of(b"GATC"), 1);
}

#[test]
fn bad_gzip_is_an_error() {
    assert_eq!(read_sequences("reads.fq.gz", b"@r\nACGT\n"), Err(ReadError::BadGzip));
}
