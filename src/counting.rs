//! Sliding-window k-mer counting over a list of records.

use rayon::iter::IntoParallelRefIterator;
use rayon::iter::ParallelIterator;
use vstd::multiset::Multiset;
use vstd::prelude::*;
use crate::nucleotide::{all_bases, is_last_invalid, reverse_complement, revcomp};
use crate::table::{copies, lemma_copies, CountTable};

verus! {

/// The k-length windows of `s`, one per offset `0..=len - k`, in order.
pub open spec fn windows(s: Seq<u8>, k: nat) -> Seq<Seq<u8>> {
    if s.len() < k {
        Seq::empty()
    } else {
        Seq::new((s.len() - k + 1) as nat, |i: int| s.subrange(i, i + k))
    }
}

/// The multiset of the elements of `ws`.
pub open spec fn bag(ws: Seq<Seq<u8>>) -> Multiset<Seq<u8>>
    decreases ws.len(),
{
    if ws.len() == 0 {
        Multiset::empty()
    } else {
        bag(ws.drop_last()).insert(ws.last())
    }
}

/// What one record adds to the table: each window once, and with `rc` set
/// also the reverse complement of each window.
pub open spec fn record_obs(s: Seq<u8>, k: nat, rc: bool) -> Multiset<Seq<u8>> {
    bag(windows(s, k)).add(
        if rc {
            bag(windows(s, k).map_values(|w: Seq<u8>| revcomp(w)))
        } else {
            Multiset::empty()
        },
    )
}

/// Every window of `s` consists of nucleotide letters only.
pub open spec fn windows_valid(s: Seq<u8>, k: nat) -> bool {
    forall|o: int| 0 <= o < windows(s, k).len() ==> all_bases(#[trigger] windows(s, k)[o])
}

/// `b` is the byte reported for `s`: in the first window holding a byte other
/// than A, C, G, T, the last such byte.
pub open spec fn record_error(s: Seq<u8>, k: nat, b: u8) -> bool {
    exists|o: int|
        0 <= o < windows(s, k).len() && is_last_invalid(windows(s, k)[o], b) && (forall|p: int|
            0 <= p < o ==> all_bases(#[trigger] windows(s, k)[p]))
}

/// What counting one record yields: its table, or with `rc` set and an
/// invalid window, the byte reported.
pub open spec fn record_counted(s: Seq<u8>, k: nat, rc: bool, r: Result<CountTable, u8>) -> bool {
    &&& r is Ok <==> (!rc || windows_valid(s, k))
    &&& match r {
        Ok(t) => t.wf() && t.view() == record_obs(s, k, rc),
        Err(b) => record_error(s, k, b),
    }
}

/// All observations of a list of records.
pub open spec fn all_obs(recs: Seq<Seq<u8>>, k: nat, rc: bool) -> Multiset<Seq<u8>>
    decreases recs.len(),
{
    if recs.len() == 0 {
        Multiset::empty()
    } else {
        all_obs(recs.drop_last(), k, rc).add(record_obs(recs.last(), k, rc))
    }
}

/// The summed lengths of all records.
pub open spec fn total_len(recs: Seq<Seq<u8>>) -> nat
    decreases recs.len(),
{
    if recs.len() == 0 {
        0
    } else {
        total_len(recs.drop_last()) + recs.last().len()
    }
}

/// The summed lengths of the records at least `k` long.
pub open spec fn scanned(recs: Seq<Seq<u8>>, k: nat) -> nat
    decreases recs.len(),
{
    if recs.len() == 0 {
        0
    } else {
        scanned(recs.drop_last(), k) + if recs.last().len() >= k {
            recs.last().len()
        } else {
            0
        }
    }
}

/// The number of windows over all records.
pub open spec fn windows_total(recs: Seq<Seq<u8>>, k: nat) -> nat
    decreases recs.len(),
{
    if recs.len() == 0 {
        0
    } else {
        windows_total(recs.drop_last(), k) + windows(recs.last(), k).len()
    }
}

/// The lengths of the records shorter than `k`, in order.
pub open spec fn discarded(recs: Seq<Seq<u8>>, k: nat) -> Seq<usize>
    decreases recs.len(),
{
    if recs.len() == 0 {
        Seq::empty()
    } else if recs.last().len() < k {
        discarded(recs.drop_last(), k).push(recs.last().len() as usize)
    } else {
        discarded(recs.drop_last(), k)
    }
}

/// How many times each window is counted: twice when reverse complements
/// are counted too.
pub open spec fn multiplicity(rc: bool) -> nat {
    if rc {
        2
    } else {
        1
    }
}

/// The records as byte sequences.
pub open spec fn rec_seqs(records: Seq<Vec<u8>>) -> Seq<Seq<u8>> {
    records.map_values(|r: Vec<u8>| r@)
}

proof fn lemma_bag_len(ws: Seq<Seq<u8>>)
    ensures
        bag(ws).len() == ws.len(),
    decreases ws.len(),
{
    broadcast use vstd::multiset::group_multiset_axioms;

    if ws.len() > 0 {
        lemma_bag_len(ws.drop_last());
    }
}

proof fn lemma_bag_take(ws: Seq<Seq<u8>>, i: int)
    requires
        0 <= i < ws.len(),
    ensures
        bag(ws.take(i + 1)) == bag(ws.take(i)).insert(ws[i]),
{
    assert(ws.take(i + 1).drop_last() =~= ws.take(i));
}

/// Counts the windows of one record (and their reverse complements with `rc`).
pub fn count_record(seq: &Vec<u8>, k: usize, rc: bool) -> (r: Result<CountTable, u8>)
    requires
        k >= 1,
        seq@.len() <= isize::MAX,
    ensures
        record_counted(seq@, k as nat, rc, r),
{
    broadcast use vstd::multiset::group_multiset_axioms;

    let mut t = CountTable::new();
    let ghost ws = windows(seq@, k as nat);
    let ghost rws = ws.map_values(|w: Seq<u8>| revcomp(w));
    if seq.len() < k {
        assert(record_obs(seq@, k as nat, rc) =~= Multiset::empty());
        return Ok(t);
    }
    let n: usize = seq.len() - k + 1;
    let mut i: usize = 0;
    while i < n
        invariant
            n == ws.len(),
            ws == windows(seq@, k as nat),
            rws == ws.map_values(|w: Seq<u8>| revcomp(w)),
            seq@.len() <= isize::MAX,
            seq@.len() >= k,
            k >= 1,
            i <= n,
            t.wf(),
            t.view() == bag(ws.take(i as int)).add(
                if rc {
                    bag(rws.take(i as int))
                } else {
                    Multiset::empty()
                },
            ),
            t.view().len() == if rc {
                2 * i
            } else {
                i as int
            },
            rc ==> forall|o: int| 0 <= o < i ==> all_bases(#[trigger] ws[o]),
        decreases n - i,
    {
        let w = vstd::slice::slice_subrange(seq.as_slice(), i, i + k);
        assert(w@ == ws[i as int]);
        proof {
            lemma_copies(w@, 1);
            lemma_bag_take(ws, i as int);
            lemma_bag_take(rws, i as int);
        }
        t.add_count(w, 1);
        if rc {
            match reverse_complement(w) {
                Ok(v) => {
                    proof {
                        lemma_copies(v@, 1);
                        assert(t.view().len() == 2 * i + 1);
                        assert(isize::MAX <= 0x7fff_ffff_ffff_ffff);
                    }
                    t.add_count(v.as_slice(), 1);
                    assert(t.view() =~= bag(ws.take(i + 1)).add(bag(rws.take(i + 1))));
                },
                Err(b) => {
                    assert(record_error(seq@, k as nat, b));
                    return Err(b);
                },
            }
        } else {
            assert(t.view() =~= bag(ws.take(i + 1)).add(Multiset::empty()));
        }
        i = i + 1;
    }
    assert(ws.take(n as int) =~= ws);
    assert(rws.take(n as int) =~= rws);
    Ok(t)
}

/// A record at least `k` long yields `length - k + 1` windows, each counted
/// once, or twice (itself and its reverse complement) with `rc`.
pub proof fn lemma_record_obs_len(s: Seq<u8>, k: nat, rc: bool)
    ensures
        windows(s, k).len() == if s.len() >= k {
            s.len() - k + 1
        } else {
            0
        },
        record_obs(s, k, rc).len() == multiplicity(rc) * windows(s, k).len(),
{
    broadcast use vstd::multiset::group_multiset_axioms;

    let ws = windows(s, k);
    lemma_bag_len(ws);
    lemma_bag_len(ws.map_values(|w: Seq<u8>| revcomp(w)));
}

/// The sum of all counts is the number of windows over all records, doubled
/// when reverse complements are counted too.
pub proof fn lemma_all_obs_len(recs: Seq<Seq<u8>>, k: nat, rc: bool)
    ensures
        all_obs(recs, k, rc).len() == multiplicity(rc) * windows_total(recs, k),
    decreases recs.len(),
{
    broadcast use vstd::multiset::group_multiset_axioms;

    if recs.len() > 0 {
        lemma_all_obs_len(recs.drop_last(), k, rc);
        lemma_record_obs_len(recs.last(), k, rc);
        assert(multiplicity(rc) * windows_total(recs, k) == multiplicity(rc) * windows_total(
            recs.drop_last(),
            k,
        ) + multiplicity(rc) * windows(recs.last(), k).len()) by (nonlinear_arith)
            requires
                windows_total(recs, k) == windows_total(recs.drop_last(), k) + windows(
                    recs.last(),
                    k,
                ).len(),
        ;
    }
}

proof fn lemma_len_bounds(recs: Seq<Seq<u8>>, k: nat)
    requires
        k >= 1,
    ensures
        windows_total(recs, k) <= total_len(recs),
        scanned(recs, k) <= total_len(recs),
    decreases recs.len(),
{
    if recs.len() > 0 {
        lemma_len_bounds(recs.drop_last(), k);
        lemma_record_obs_len(recs.last(), k, false);
    }
}

proof fn lemma_total_len_take(recs: Seq<Seq<u8>>, i: int)
    requires
        0 <= i <= recs.len(),
    ensures
        total_len(recs.take(i)) <= total_len(recs),
    decreases recs.len(),
{
    if i == recs.len() {
        assert(recs.take(i) =~= recs);
    } else {
        assert(recs.take(i) =~= recs.drop_last().take(i));
        lemma_total_len_take(recs.drop_last(), i);
    }
}

proof fn lemma_take_step(recs: Seq<Seq<u8>>, k: nat, rc: bool, i: int)
    requires
        0 <= i < recs.len(),
    ensures
        all_obs(recs.take(i + 1), k, rc) == all_obs(recs.take(i), k, rc).add(record_obs(recs[i], k, rc)),
        total_len(recs.take(i + 1)) == total_len(recs.take(i)) + recs[i].len(),
        scanned(recs.take(i + 1), k) == scanned(recs.take(i), k) + if recs[i].len() >= k {
            recs[i].len()
        } else {
            0
        },
        discarded(recs.take(i + 1), k) == if recs[i].len() < k {
            discarded(recs.take(i), k).push(recs[i].len() as usize)
        } else {
            discarded(recs.take(i), k)
        },
{
    assert(recs.take(i + 1).drop_last() =~= recs.take(i));
}

/// The counts over a list of records, with the diagnostics of the run.
pub struct KmerCounts {
    /// The counts of all windows (and reverse complements, if asked for).
    pub table: CountTable,
    /// The summed lengths of the records at least k long.
    pub total_length: usize,
    /// The lengths of the records shorter than k, in input order.
    pub discarded: Vec<usize>,
}

/// Relies on rayon's parallel iterator over a slice: `map` applies
/// `count_record` to each record, and `collect` into a `Vec` keeps the
/// records' order.
#[verifier::external_body]
fn count_each(records: &Vec<Vec<u8>>, k: usize, rc: bool) -> (r: Vec<Result<CountTable, u8>>)
    requires
        k >= 1,
        forall|i: int| 0 <= i < records@.len() ==> (#[trigger] records@[i])@.len() <= isize::MAX,
    ensures
        r@.len() == records@.len(),
        forall|i: int|
            0 <= i < records@.len() ==> record_counted(records@[i]@, k as nat, rc, #[trigger] r@[i]),
{
    records.par_iter().map(|seq| count_record(seq, k, rc)).collect()
}

/// Counts the k-mers of all records, each record on its own, in parallel,
/// and then merges the per-record tables in input order. Records shorter
/// than `k` are skipped and reported. With `rc` set, a window holding a byte
/// other than A, C, G, T fails the whole run.
pub fn count_kmers(records: &Vec<Vec<u8>>, k: usize, rc: bool) -> (r: Result<KmerCounts, u8>)
    requires
        k >= 1,
        total_len(rec_seqs(records@)) <= isize::MAX,
    ensures
        r is Ok <==> (!rc || forall|i: int|
            0 <= i < records@.len() ==> windows_valid(#[trigger] records@[i]@, k as nat)),
        match r {
            Ok(c) => {
                &&& c.table.wf()
                &&& c.table.view() == all_obs(rec_seqs(records@), k as nat, rc)
                &&& c.total_length == scanned(rec_seqs(records@), k as nat)
                &&& c.discarded@ == discarded(rec_seqs(records@), k as nat)
            },
            Err(b) => exists|i: int|
                0 <= i < records@.len() && record_error(records@[i]@, k as nat, b) && (forall|j: int|
                    0 <= j < i ==> windows_valid(#[trigger] records@[j]@, k as nat)),
        },
{
    broadcast use vstd::multiset::group_multiset_axioms;

    let ghost recs = rec_seqs(records@);
    proof {
        assert forall|i: int| 0 <= i < records@.len() implies (#[trigger] records@[i])@.len()
            <= isize::MAX by {
            assert(recs[i] == records@[i]@);
            lemma_take_step(recs, k as nat, rc, i);
            lemma_total_len_take(recs, i + 1);
        }
    }
    let results = count_each(records, k, rc);
    let mut table = CountTable::new();
    let mut total_length: usize = 0;
    let mut short: Vec<usize> = Vec::new();
    let mut i: usize = 0;
    assert(recs.take(0) =~= Seq::<Seq<u8>>::empty());
    while i < results.len()
        invariant
            recs == rec_seqs(records@),
            recs.len() == results@.len(),
            total_len(recs) <= isize::MAX,
            k >= 1,
            i <= results@.len(),
            forall|j: int|
                0 <= j < records@.len() ==> record_counted(records@[j]@, k as nat, rc, #[trigger] results@[j]),
            table.wf(),
            table.view() == all_obs(recs.take(i as int), k as nat, rc),
            total_length == scanned(recs.take(i as int), k as nat),
            short@ == discarded(recs.take(i as int), k as nat),
            rc ==> forall|j: int| 0 <= j < i ==> windows_valid(#[trigger] records@[j]@, k as nat),
        decreases results@.len() - i,
    {
        assert(recs[i as int] == records@[i as int]@);
        proof {
            lemma_take_step(recs, k as nat, rc, i as int);
            lemma_total_len_take(recs, i + 1);
            lemma_len_bounds(recs.take(i + 1), k as nat);
            lemma_all_obs_len(recs.take(i + 1), k as nat, rc);
            assert(isize::MAX <= 0x7fff_ffff_ffff_ffff);
        }
        match &results[i] {
            Ok(t) => {
                proof {
                    let wt = windows_total(recs.take(i + 1), k as nat);
                    assert(t.view() == record_obs(recs[i as int], k as nat, rc));
                    assert(table.view().len() + t.view().len() == all_obs(
                        recs.take(i + 1),
                        k as nat,
                        rc,
                    ).len());
                    assert(multiplicity(rc) * wt <= 2 * wt) by (nonlinear_arith)
                        requires
                            multiplicity(rc) <= 2,
                    ;
                }
                table.merge(t);
                let len = records[i].len();
                if len >= k {
                    total_length = total_length + len;
                } else {
                    short.push(len);
                }
            },
            Err(b) => {
                return Err(*b);
            },
        }
        i = i + 1;
    }
    assert(recs.take(i as int) =~= recs);
    Ok(KmerCounts { table, total_length, discarded: short })
}

/// A record shorter than `k` adds nothing to the table nor to the scanned
/// length, and is reported once among the discarded records.
pub proof fn lemma_short_record(recs: Seq<Seq<u8>>, s: Seq<u8>, k: nat, rc: bool)
    requires
        s.len() < k,
    ensures
        record_obs(s, k, rc) == Multiset::<Seq<u8>>::empty(),
        all_obs(recs.push(s), k, rc) == all_obs(recs, k, rc),
        scanned(recs.push(s), k) == scanned(recs, k),
        discarded(recs.push(s), k) == discarded(recs, k).push(s.len() as usize),
{
    broadcast use vstd::multiset::group_multiset_axioms;

    assert(recs.push(s).drop_last() =~= recs);
    assert(record_obs(s, k, rc) =~= Multiset::<Seq<u8>>::empty());
    assert(all_obs(recs.push(s), k, rc) =~= all_obs(recs, k, rc));
}

proof fn lemma_bag_revcomp(ws: Seq<Seq<u8>>, w: Seq<u8>)
    ensures
        bag(ws.map_values(|x: Seq<u8>| revcomp(x))).count(w) == bag(ws).count(revcomp(w)),
    decreases ws.len(),
{
    broadcast use vstd::multiset::group_multiset_axioms;

    if ws.len() > 0 {
        let rws = ws.map_values(|x: Seq<u8>| revcomp(x));
        assert(rws.drop_last() =~= ws.drop_last().map_values(|x: Seq<u8>| revcomp(x)));
        lemma_bag_revcomp(ws.drop_last(), w);
        crate::nucleotide::lemma_revcomp_involution(ws.last());
        crate::nucleotide::lemma_revcomp_involution(w);
    }
}

/// With reverse complements counted, a k-mer equal to its own reverse
/// complement is counted twice for each window where it occurs.
pub proof fn lemma_palindrome_counted_twice(s: Seq<u8>, k: nat, w: Seq<u8>)
    requires
        revcomp(w) == w,
    ensures
        record_obs(s, k, true).count(w) == 2 * bag(windows(s, k)).count(w),
{
    broadcast use vstd::multiset::group_multiset_axioms;

    lemma_bag_revcomp(windows(s, k), w);
}

} // verus!
