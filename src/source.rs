//! Reading records out of FASTA or FASTQ text, possibly gzip-compressed.

use vstd::prelude::*;
use vstd::string::StringSliceAdditionalSpecFns;
use crate::counting::rec_seqs;

verus! {

/// ASCII line feed.
pub const LF: u8 = 10;

/// ASCII carriage return.
pub const CR: u8 = 13;

/// ASCII `>`, which opens a FASTA record.
pub const FASTA_MARK: u8 = 62;

/// ASCII `@`, which opens a FASTQ record.
pub const FASTQ_MARK: u8 = 64;

/// ASCII `+`, which closes the sequence lines of a FASTQ record.
pub const QUALITY_MARK: u8 = 43;

/// How the input is to be read, as told by its file name.
#[derive(PartialEq, Eq, Structural, Clone, Copy, Debug)]
pub struct InputFormat {
    /// The name ends with `.gz`.
    pub gzip: bool,
    /// The name holds `.fasta` or `.fa`.
    pub fasta: bool,
    /// The name holds `.fastq` or `.fq`.
    pub fastq: bool,
}

/// ASCII lower case of a byte.
pub open spec fn lower(b: u8) -> u8 {
    if 65 <= b <= 90 {
        (b + 32) as u8
    } else {
        b
    }
}

/// `pat` occurs in `s` at offset `i`, ignoring ASCII case in `s`.
pub open spec fn occurs_at(s: Seq<u8>, pat: Seq<u8>, i: int) -> bool {
    0 <= i && i + pat.len() <= s.len() && forall|j: int|
        0 <= j < pat.len() ==> lower(#[trigger] s[i + j]) == pat[j]
}

/// `pat` (in lower case) occurs in `s`, ignoring ASCII case in `s`.
pub open spec fn contains_ci(s: Seq<u8>, pat: Seq<u8>) -> bool {
    exists|i: int| occurs_at(s, pat, i)
}

/// `s` ends with `pat` (in lower case), ignoring ASCII case in `s`.
pub open spec fn ends_with_ci(s: Seq<u8>, pat: Seq<u8>) -> bool {
    s.len() >= pat.len() && occurs_at(s, pat, s.len() - pat.len())
}

/// The format that a file name announces.
pub open spec fn format_of(name: Seq<u8>) -> InputFormat {
    InputFormat {
        gzip: ends_with_ci(name, seq![46u8, 103, 122]),
        fasta: contains_ci(name, seq![46u8, 102, 97, 115, 116, 97]) || contains_ci(
            name,
            seq![46u8, 102, 97],
        ),
        fastq: contains_ci(name, seq![46u8, 102, 97, 115, 116, 113]) || contains_ci(
            name,
            seq![46u8, 102, 113],
        ),
    }
}

fn lower_byte(b: u8) -> (r: u8)
    ensures
        r == lower(b),
{
    if 65 <= b && b <= 90 {
        b + 32
    } else {
        b
    }
}

fn occurs_at_exec(s: &[u8], pat: &[u8], i: usize) -> (r: bool)
    requires
        i + pat@.len() <= s@.len(),
    ensures
        r == occurs_at(s@, pat@, i as int),
{
    let n = s.len();
    let mut j: usize = 0;
    while j < pat.len()
        invariant
            n == s@.len(),
            i + pat@.len() <= s@.len(),
            j <= pat@.len(),
            forall|m: int| 0 <= m < j ==> lower(#[trigger] s@[i + m]) == pat@[m],
        decreases pat@.len() - j,
    {
        if lower_byte(s[i + j]) != pat[j] {
            return false;
        }
        j = j + 1;
    }
    true
}

fn contains_ci_exec(s: &[u8], pat: &[u8]) -> (r: bool)
    ensures
        r == contains_ci(s@, pat@),
{
    if pat.len() > s.len() {
        return false;
    }
    let mut i: usize = 0;
    while i <= s.len() - pat.len()
        invariant
            pat@.len() <= s@.len(),
            forall|m: int| 0 <= m < i ==> !occurs_at(s@, pat@, m),
        decreases s@.len() - pat@.len() + 1 - i,
    {
        if occurs_at_exec(s, pat, i) {
            return true;
        }
        i = i + 1;
    }
    false
}

/// The format announced by `filename`: gzip for a `.gz` suffix, FASTA for
/// `.fasta` or `.fa` anywhere in it, FASTQ for `.fastq` or `.fq`, all
/// ignoring ASCII case.
pub fn detect_format(filename: &str) -> (r: InputFormat)
    ensures
        r == format_of(filename.spec_bytes()),
{
    let s = filename.as_bytes();
    let gz: Vec<u8> = vec![46u8, 103, 122];
    let gzip = s.len() >= gz.len() && occurs_at_exec(s, gz.as_slice(), s.len() - gz.len());
    let fasta = contains_ci_exec(s, vec![46u8, 102, 97, 115, 116, 97].as_slice())
        || contains_ci_exec(s, vec![46u8, 102, 97].as_slice());
    let fastq = contains_ci_exec(s, vec![46u8, 102, 97, 115, 116, 113].as_slice())
        || contains_ci_exec(s, vec![46u8, 102, 113].as_slice());
    assert(gz@ == seq![46u8, 103, 122]);
    InputFormat { gzip, fasta, fastq }
}

/// A line without the carriage return that ends it, if any.
pub open spec fn strip_cr(l: Seq<u8>) -> Seq<u8> {
    if l.len() > 0 && l.last() == CR {
        l.drop_last()
    } else {
        l
    }
}

/// Splitting `t` at line feeds: the finished lines (carriage return before
/// the line feed dropped) and the bytes of the unfinished last line.
pub open spec fn split_state(t: Seq<u8>) -> (Seq<Seq<u8>>, Seq<u8>)
    decreases t.len(),
{
    if t.len() == 0 {
        (Seq::empty(), Seq::empty())
    } else {
        let (done, cur) = split_state(t.drop_last());
        if t.last() == LF {
            (done.push(strip_cr(cur)), Seq::empty())
        } else {
            (done, cur.push(t.last()))
        }
    }
}

/// The lines of `t`: split at line feeds, a final line without one kept
/// when it is not empty.
pub open spec fn lines(t: Seq<u8>) -> Seq<Seq<u8>> {
    let (done, cur) = split_state(t);
    if cur.len() == 0 {
        done
    } else {
        done.push(cur)
    }
}

/// The lines of `text`, as `lines` describes them.
pub fn split_lines(text: &[u8]) -> (r: Vec<Vec<u8>>)
    ensures
        rec_seqs(r@) == lines(text@),
{
    let n = text.len();
    let mut done: Vec<Vec<u8>> = Vec::new();
    let mut cur: Vec<u8> = Vec::new();
    let mut i: usize = 0;
    while i < n
        invariant
            n == text@.len(),
            i <= n,
            (rec_seqs(done@), cur@) == split_state(text@.take(i as int)),
        decreases n - i,
    {
        assert(text@.take(i + 1).drop_last() =~= text@.take(i as int));
        let b = text[i];
        if b == LF {
            let ghost before = cur@;
            if cur.len() > 0 && cur[cur.len() - 1] == CR {
                cur.pop();
            }
            assert(cur@ =~= strip_cr(before));
            done.push(cur);
            cur = Vec::new();
            assert(rec_seqs(done@) =~= split_state(text@.take(i + 1)).0);
        } else {
            cur.push(b);
        }
        i = i + 1;
    }
    assert(text@.take(n as int) =~= text@);
    if cur.len() > 0 {
        done.push(cur);
        assert(rec_seqs(done@) =~= lines(text@));
    }
    done
}

/// The state of the record reader: the records finished so far, the record
/// being read, whether sequence lines are being read, and whether the next
/// line (a FASTQ quality line) is to be skipped.
pub type ReadState = (Seq<Seq<u8>>, Seq<u8>, bool, bool);

/// `line` starts with `b`.
pub open spec fn starts_with(line: Seq<u8>, b: u8) -> bool {
    line.len() > 0 && line[0] == b
}

/// A line opens a record: `>` in FASTA, `@` in FASTQ.
pub open spec fn is_header(line: Seq<u8>, f: InputFormat) -> bool {
    (starts_with(line, FASTA_MARK) && f.fasta) || (starts_with(line, FASTQ_MARK) && f.fastq)
}

/// One line read in state `st`.
pub open spec fn step(st: ReadState, line: Seq<u8>, f: InputFormat) -> ReadState {
    let (recs, cur, in_seq, skip) = st;
    if skip {
        (recs, cur, in_seq, false)
    } else if is_header(line, f) {
        (
            if cur.len() > 0 {
                recs.push(cur)
            } else {
                recs
            },
            Seq::empty(),
            true,
            false,
        )
    } else if in_seq && f.fastq && starts_with(line, QUALITY_MARK) {
        (recs, cur, false, true)
    } else if in_seq {
        (recs, cur + line, true, false)
    } else {
        st
    }
}

/// The state after reading `ls` from the start.
pub open spec fn read_all(ls: Seq<Seq<u8>>, f: InputFormat) -> ReadState
    decreases ls.len(),
{
    if ls.len() == 0 {
        (Seq::empty(), Seq::empty(), false, false)
    } else {
        step(read_all(ls.drop_last(), f), ls.last(), f)
    }
}

/// The records of `text`: those finished after the last line, and the one
/// in progress if it is not empty.
pub open spec fn records_of(text: Seq<u8>, f: InputFormat) -> Seq<Seq<u8>> {
    let st = read_all(lines(text), f);
    if st.1.len() > 0 {
        st.0.push(st.1)
    } else {
        st.0
    }
}

fn append_bytes(dst: &mut Vec<u8>, src: &[u8])
    ensures
        final(dst)@ == old(dst)@ + src@,
{
    let mut i: usize = 0;
    while i < src.len()
        invariant
            i <= src@.len(),
            dst@ == old(dst)@ + src@.take(i as int),
        decreases src@.len() - i,
    {
        dst.push(src[i]);
        i = i + 1;
        assert(dst@ =~= old(dst)@ + src@.take(i as int));
    }
    assert(src@.take(i as int) =~= src@);
}

/// The records of FASTA or FASTQ `text`, read line by line as `records_of`
/// describes. A name announcing neither format gives no records.
pub fn parse_records(text: &[u8], f: InputFormat) -> (r: Vec<Vec<u8>>)
    ensures
        rec_seqs(r@) == records_of(text@, f),
{
    let ls = split_lines(text);
    let mut recs: Vec<Vec<u8>> = Vec::new();
    let mut cur: Vec<u8> = Vec::new();
    let mut in_seq = false;
    let mut skip = false;
    let mut i: usize = 0;
    while i < ls.len()
        invariant
            i <= ls@.len(),
            (rec_seqs(recs@), cur@, in_seq, skip) == read_all(rec_seqs(ls@).take(i as int), f),
        decreases ls@.len() - i,
    {
        let ghost lsv = rec_seqs(ls@);
        assert(lsv.take(i + 1).drop_last() =~= lsv.take(i as int));
        let line = ls[i].as_slice();
        assert(line@ == lsv[i as int]);
        let starts = line.len() > 0;
        if skip {
            skip = false;
        } else if (starts && line[0] == FASTA_MARK && f.fasta) || (starts && line[0] == FASTQ_MARK
            && f.fastq) {
            if cur.len() > 0 {
                recs.push(cur);
                cur = Vec::new();
            }
            assert(rec_seqs(recs@) =~= read_all(lsv.take(i + 1), f).0);
            in_seq = true;
        } else if in_seq && f.fastq && starts && line[0] == QUALITY_MARK {
            in_seq = false;
            skip = true;
        } else if in_seq {
            append_bytes(&mut cur, line);
        }
        i = i + 1;
    }
    assert(rec_seqs(ls@).take(i as int) =~= rec_seqs(ls@));
    if cur.len() > 0 {
        recs.push(cur);
        assert(rec_seqs(recs@) =~= records_of(text@, f));
    }
    recs
}

/// The content of the first gzip member in `data`, or `None` where `data`
/// is not valid gzip.
pub uninterp spec fn gunzip_of(data: Seq<u8>) -> Option<Seq<u8>>;

/// Relies on flate2's `bufread::GzDecoder`: reading it to the end yields
/// the decompressed content of the first gzip member of `data`, or an error
/// where `data` is not valid gzip; the outcome depends on `data` alone.
#[verifier::external_body]
fn gunzip(data: &[u8]) -> (r: Option<Vec<u8>>)
    ensures
        match r {
            Some(v) => gunzip_of(data@) == Some(v@),
            None => gunzip_of(data@) is None,
        },
{
    let mut out: Vec<u8> = Vec::new();
    match std::io::Read::read_to_end(&mut flate2::bufread::GzDecoder::new(data), &mut out) {
        Ok(_) => Some(out),
        Err(_) => None,
    }
}

/// The text held by a file of the given name and content: the content
/// itself, or its decompression where the name ends with `.gz`.
pub open spec fn decoded(name: Seq<u8>, data: Seq<u8>) -> Option<Seq<u8>> {
    if format_of(name).gzip {
        gunzip_of(data)
    } else {
        Some(data)
    }
}

/// The records that a file of the given name and content holds, or `None`
/// where its compressed content cannot be decoded.
pub open spec fn file_records(name: Seq<u8>, data: Seq<u8>) -> Option<Seq<Seq<u8>>> {
    match decoded(name, data) {
        Some(t) => Some(records_of(t, format_of(name))),
        None => None,
    }
}

/// Why the content of an input file could not be read.
#[derive(PartialEq, Eq, Structural, Clone, Copy, Debug)]
pub enum ReadError {
    /// The name ends with `.gz` but the content is not valid gzip.
    BadGzip,
}

/// The records held by a file named `filename` whose content is `data`:
/// decompressed where the name ends with `.gz`, then read as FASTA or FASTQ
/// as the name tells.
pub fn read_sequences(filename: &str, data: &[u8]) -> (r: Result<Vec<Vec<u8>>, ReadError>)
    ensures
        match r {
            Ok(v) => file_records(filename.spec_bytes(), data@) == Some(rec_seqs(v@)),
            Err(e) => e == ReadError::BadGzip && file_records(filename.spec_bytes(), data@) is None,
        },
{
    let f = detect_format(filename);
    if f.gzip {
        match gunzip(data) {
            Some(text) => Ok(parse_records(text.as_slice(), f)),
            None => Err(ReadError::BadGzip),
        }
    } else {
        Ok(parse_records(data, f))
    }
}

/// A compressed file and a plain one of the same format whose decompressed
/// content is the same yield the same records, hence the same counts.
pub proof fn lemma_gzip_transparent(
    gz_name: Seq<u8>,
    gz_data: Seq<u8>,
    name: Seq<u8>,
    text: Seq<u8>,
    k: nat,
    rc: bool,
)
    requires
        format_of(gz_name).gzip,
        !format_of(name).gzip,
        format_of(gz_name).fasta == format_of(name).fasta,
        format_of(gz_name).fastq == format_of(name).fastq,
        gunzip_of(gz_data) == Some(text),
    ensures
        file_records(gz_name, gz_data) == file_records(name, text),
        crate::counting::all_obs(file_records(gz_name, gz_data).unwrap(), k, rc)
            == crate::counting::all_obs(file_records(name, text).unwrap(), k, rc),
{
    lemma_read_all_ignores_gzip(lines(text), format_of(gz_name), format_of(name));
}

proof fn lemma_read_all_ignores_gzip(ls: Seq<Seq<u8>>, f: InputFormat, g: InputFormat)
    requires
        f.fasta == g.fasta,
        f.fastq == g.fastq,
    ensures
        read_all(ls, f) == read_all(ls, g),
    decreases ls.len(),
{
    if ls.len() > 0 {
        lemma_read_all_ignores_gzip(ls.drop_last(), f, g);
    }
}

} // verus!
