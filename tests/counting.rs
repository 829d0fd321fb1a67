use kmer_counter::counting::{count_kmers, count_record, KmerCounts};
use kmer_counter::nucleotide::reverse_complement;
use kmer_counter::table::{bytes_eq, CountTable};

fn count(records: &[&str], k: usize, rc: bool) -> Result<KmerCounts, u8> {
    let recs: Vec<Vec<u8>> = records.iter().map(|r| r.as_bytes().to_vec()).collect();
    count_kmers(&recs, k, rc)
}

fn get(c: &KmerCounts, kmer: &str) -> u64 {
    c.table.count_of(kmer.as_bytes())
}

#[test]
fn single_fasta_record_k4() {
    let c = count(&["ACGTACGT"], 4, false).unwrap();
    assert_eq!(get(&c, "ACGT"), 2);
    assert_eq!(get(&c, "CGTA"), 1);
    assert_eq!(get(&c, "GTAC"), 1);
    assert_eq!(get(&c, "TACG"), 1);
    assert_eq!(c.table.num_keys(), 4);
    assert_eq!(c.table.total(), 5);
    assert_eq!(c.total_length, 8);
    assert!(c.discarded.is_empty());
}

#[test]
fn single_record_shorter_than_k() {
    let c = count(&["ACGTACGT"], 9, false).unwrap();
    assert_eq!(c.table.num_keys(), 0);
    assert_eq!(c.table.total(), 0);
    assert_eq!(c.discarded, vec![8]);
    assert_eq!(c.total_length, 0);
}

#[test]
fn window_count_is_length_minus_k_plus_one() {
    let c = count(&["ACGTTGCAAC"], 3, false).unwrap();
    assert_eq!(c.table.total(), 8);
    assert_eq!(c.total_length, 10);
    let c = count(&["ACG"], 3, false).unwrap();
    assert_eq!(c.table.total(), 1);
    assert_eq!(get(&c, "ACG"), 1);
}

#[test]
fn short_records_are_discarded_among_others() {
    let c = count(&["AC", "ACGTA", "G", "TTTT"], 4, false).unwrap();
    assert_eq!(c.discarded, vec![2, 1]);
    assert_eq!(c.total_length, 9);
    assert_eq!(c.table.total(), 3);
    assert_eq!(get(&c, "ACGT"), 1);
    assert_eq!(get(&c, "CGTA"), 1);
    assert_eq!(get(&c, "TTTT"), 1);
    assert_eq!(get(&c, "AC"), 0);
}

#[test]
fn reverse_complement_examples() {
    assert_eq!(reverse_complement(b"AACG"), Ok(b"CGTT".to_vec()));
    assert_eq!(reverse_complement(b"GATTACA"), Ok(b"TGTAATC".to_vec()));
    assert_eq!(reverse_complement(b""), Ok(Vec::new()));
}

#[test]
fn reverse_complement_twice_is_identity() {
    for kmer in ["GATTACA", "ACGT", "A", "CCCGGA"] {
        let once = reverse_complement(kmer.as_bytes()).unwrap();
        let twice = reverse_complement(&once).unwrap();
        assert_eq!(twice, kmer.as_bytes().to_vec());
    }
}

#[test]
fn reverse_complement_rejects_other_bytes() {
    assert_eq!(reverse_complement(b"ACNT"), Err(b'N'));
    assert_eq!(reverse_complement(b"ANXC"), Err(b'X'));
    assert_eq!(reverse_complement(b"acgt"), Err(b't'));
}

#[test]
fn palindrome_counted_twice_per_occurrence() {
    let c = count(&["ACGTTACGT"], 4, true).unwrap();
    // ACGT occurs twice and is its own reverse complement.
    assert_eq!(get(&c, "ACGT"), 4);
    let c = count(&["AAAA"], 2, true).unwrap();
    assert_eq!(get(&c, "AA"), 3);
    assert_eq!(get(&c, "TT"), 3);
    assert_eq!(c.table.num_keys(), 2);
}

#[test]
fn reverse_complement_doubles_total() {
    let c = count(&["ACGTACGT", "GGA", "TTGCA"], 3, true).unwrap();
    assert_eq!(c.table.total(), 2 * (6 + 1 + 3));
    assert_eq!(c.total_length, 16);
    assert_eq!(get(&c, "GGA"), 1);
    assert_eq!(get(&c, "TCC"), 1);
    let plain = count(&["ACGTACGT", "GGA", "TTGCA"], 3, false).unwrap();
    assert_eq!(plain.table.total(), 6 + 1 + 3);
}

#[test]
fn invalid_base_fails_run_with_reverse_complement() {
    assert_eq!(count(&["ACGT", "ACNGT"], 2, true).err(), Some(b'N'));
    let c = count(&["ACGT", "ACNGT"], 2, false).unwrap();
    assert_eq!(get(&c, "CN"), 1);
    assert_eq!(get(&c, "NG"), 1);
}

#[test]
fn invalid_base_in_short_record_is_ignored() {
    let c = count(&["ACGT", "NN"], 3, true).unwrap();
    assert_eq!(c.discarded, vec![2]);
    assert_eq!(c.table.total(), 4);
}

#[test]
fn counts_are_case_sensitive() {
    let c = count(&["acgACG"], 3, false).unwrap();
    assert_eq!(get(&c, "acg"), 1);
    assert_eq!(get(&c, "ACG"), 1);
    assert_eq!(get(&c, "cgA"), 1);
}

#[test]
fn count_record_alone() {
    let t = count_record(&b"ACGA".to_vec(), 2, false).unwrap();
    assert_eq!(t.count_of(b"AC"), 1);
    assert_eq!(t.count_of(b"GA"), 1);
    assert_eq!(t.total(), 3);
    assert_eq!(count_record(&b"ACGA".to_vec(), 2, true).unwrap().count_of(b"TC"), 1);
}

#[test]
fn table_add_and_merge() {
    let mut a = CountTable::new();
    a.add_count(b"AC", 2);
    a.add_count(b"GT", 1);
    a.add_count(b"AC", 3);
    a.add_count(b"TT", 0);
    assert_eq!(a.count_of(b"AC"), 5);
    assert_eq!(a.num_keys(), 2);
    let mut b = CountTable::new();
    b.add_count(b"GT", 4);
    b.add_count(b"CC", 1);
    a.merge(&b);
    assert_eq!(a.count_of(b"GT"), 5);
    assert_eq!(a.count_of(b"CC"), 1);
    assert_eq!(a.count_of(b"TT"), 0);
    assert_eq!(a.total(), 11);
    assert_eq!(a.num_keys(), 3);
    let (key, n) = a.entry(2);
    assert_eq!(key.as_slice(), b"CC");
    assert_eq!(n, 1);
}

#[test]
fn byte_strings_compare_exactly() {
    assert!(bytes_eq(b"ACGT", b"ACGT"));
    assert!(!bytes_eq(b"ACGT", b"ACGA"));
    assert!(!bytes_eq(b"ACG", b"ACGT"));
    assert!(!bytes_eq(b"acgt", b"ACGT"));
    assert!(bytes_eq(b"", b""));
}
