//! A table of k-mer counts, modelled as a multiset of k-mers.

use vstd::multiset::Multiset;
use vstd::prelude::*;

verus! {

/// `n` copies of `s`.
pub open spec fn copies(s: Seq<u8>, n: nat) -> Multiset<Seq<u8>>
    decreases n,
{
    if n == 0 {
        Multiset::empty()
    } else {
        copies(s, (n - 1) as nat).insert(s)
    }
}

/// The multiset described by the first `n` (key, count) entries.
pub open spec fn tally(keys: Seq<Seq<u8>>, counts: Seq<u64>, n: int) -> Multiset<Seq<u8>>
    decreases n,
{
    if n <= 0 {
        Multiset::empty()
    } else {
        tally(keys, counts, n - 1).add(copies(keys[n - 1], counts[n - 1] as nat))
    }
}

/// No key occurs twice.
pub open spec fn distinct(keys: Seq<Seq<u8>>) -> bool {
    forall|i: int, j: int| 0 <= i < j < keys.len() ==> keys[i] != keys[j]
}

/// `copies(s, n)` holds `n` copies of `s` and nothing else.
pub proof fn lemma_copies(s: Seq<u8>, n: nat)
    ensures
        copies(s, n).len() == n,
        copies(s, n).count(s) == n,
        forall|t: Seq<u8>| t != s ==> copies(s, n).count(t) == 0,
    decreases n,
{
    broadcast use vstd::multiset::group_multiset_axioms;

    if n > 0 {
        lemma_copies(s, (n - 1) as nat);
    }
}

proof fn lemma_tally_count(keys: Seq<Seq<u8>>, counts: Seq<u64>, n: int, t: Seq<u8>)
    requires
        0 <= n <= keys.len(),
        keys.len() == counts.len(),
        distinct(keys),
    ensures
        forall|i: int| 0 <= i < n && keys[i] == t ==> tally(keys, counts, n).count(t) == counts[i],
        (forall|i: int| 0 <= i < n ==> keys[i] != t) ==> tally(keys, counts, n).count(t) == 0,
    decreases n,
{
    broadcast use vstd::multiset::group_multiset_axioms;

    if n > 0 {
        lemma_tally_count(keys, counts, n - 1, t);
        lemma_copies(keys[n - 1], counts[n - 1] as nat);
    }
}

proof fn lemma_tally_len(keys: Seq<Seq<u8>>, counts: Seq<u64>, m: int, n: int)
    requires
        0 <= m <= n <= keys.len(),
        keys.len() == counts.len(),
    ensures
        tally(keys, counts, m).len() <= tally(keys, counts, n).len(),
    decreases n - m,
{
    broadcast use vstd::multiset::group_multiset_axioms;

    if m < n {
        lemma_tally_len(keys, counts, m, n - 1);
        lemma_copies(keys[n - 1], counts[n - 1] as nat);
    }
}

proof fn lemma_tally_prefix(
    keys1: Seq<Seq<u8>>,
    counts1: Seq<u64>,
    keys2: Seq<Seq<u8>>,
    counts2: Seq<u64>,
    n: int,
)
    requires
        0 <= n <= keys1.len(),
        n <= keys2.len(),
        n <= counts1.len(),
        n <= counts2.len(),
        forall|i: int| 0 <= i < n ==> keys1[i] == keys2[i] && counts1[i] == counts2[i],
    ensures
        tally(keys1, counts1, n) == tally(keys2, counts2, n),
    decreases n,
{
    if n > 0 {
        lemma_tally_prefix(keys1, counts1, keys2, counts2, n - 1);
    }
}

/// Whether two byte strings are equal.
pub fn bytes_eq(a: &[u8], b: &[u8]) -> (r: bool)
    ensures
        r == (a@ == b@),
{
    if a.len() != b.len() {
        return false;
    }
    let mut i: usize = 0;
    while i < a.len()
        invariant
            a@.len() == b@.len(),
            i <= a@.len(),
            forall|j: int| 0 <= j < i ==> a@[j] == b@[j],
        decreases a@.len() - i,
    {
        if a[i] != b[i] {
            return false;
        }
        i = i + 1;
    }
    assert(a@ =~= b@);
    true
}

/// Counts of k-mers: distinct keys, each with a positive count.
pub struct CountTable {
    keys: Vec<Vec<u8>>,
    counts: Vec<u64>,
}

impl CountTable {
    /// The stored keys, in their stored order.
    pub closed spec fn key_seq(&self) -> Seq<Seq<u8>> {
        self.keys@.map_values(|k: Vec<u8>| k@)
    }

    /// The counted k-mers, each as many times as it was counted.
    pub closed spec fn view(&self) -> Multiset<Seq<u8>> {
        tally(self.key_seq(), self.counts@, self.counts@.len() as int)
    }

    /// Keys distinct, counts positive, and the sum of counts fits in `u64`.
    pub closed spec fn wf(&self) -> bool {
        &&& self.keys@.len() == self.counts@.len()
        &&& distinct(self.key_seq())
        &&& forall|i: int| 0 <= i < self.counts@.len() ==> self.counts@[i] > 0
        &&& self.view().len() <= u64::MAX
    }

    /// An empty table.
    pub fn new() -> (r: CountTable)
        ensures
            r.wf(),
            r.view() == Multiset::<Seq<u8>>::empty(),
    {
        let r = CountTable { keys: Vec::new(), counts: Vec::new() };
        proof {
            broadcast use vstd::multiset::group_multiset_axioms;

        }
        r
    }

    /// The number of distinct k-mers.
    pub fn num_keys(&self) -> (r: usize)
        requires
            self.wf(),
        ensures
            r == self.view().dom().len(),
            r == self.key_seq().len(),
    {
        proof {
            self.lemma_dom();
            self.lemma_key_len();
        }
        self.keys.len()
    }

    /// The keys in their stored order are distinct and are exactly the
    /// counted k-mers.
    pub proof fn lemma_dom(&self)
        requires
            self.wf(),
        ensures
            distinct(self.key_seq()),
            self.view().dom() == self.key_seq().to_set(),
            self.view().dom().len() == self.key_seq().len(),
    {
        broadcast use vstd::multiset::group_multiset_axioms;

        let ks = self.key_seq();
        assert forall|t: Seq<u8>| self.view().dom().contains(t) <==> ks.to_set().contains(t) by {
            lemma_tally_count(ks, self.counts@, ks.len() as int, t);
            if ks.to_set().contains(t) {
                let i = choose|i: int| 0 <= i < ks.len() && ks[i] == t;
                assert(self.counts@[i] > 0);
            }
        }
        assert(self.view().dom() =~= ks.to_set());
        assert(ks.len() == self.keys@.len());
        ks.unique_seq_to_set();
    }

    proof fn lemma_key_len(&self)
        ensures
            self.key_seq().len() == self.keys@.len(),
    {
    }

    /// How many times `key` was counted.
    pub fn count_of(&self, key: &[u8]) -> (r: u64)
        requires
            self.wf(),
        ensures
            r == self.view().count(key@),
    {
        proof {
            lemma_tally_count(self.key_seq(), self.counts@, self.counts@.len() as int, key@);
        }
        match self.find(key) {
            Some(i) => self.counts[i],
            None => 0,
        }
    }

    fn find(&self, key: &[u8]) -> (r: Option<usize>)
        requires
            self.wf(),
        ensures
            match r {
                Some(i) => i < self.keys@.len() && self.key_seq()[i as int] == key@,
                None => forall|i: int| 0 <= i < self.keys@.len() ==> self.key_seq()[i] != key@,
            },
    {
        let mut i: usize = 0;
        while i < self.keys.len()
            invariant
                self.wf(),
                i <= self.keys@.len(),
                forall|j: int| 0 <= j < i ==> self.key_seq()[j] != key@,
            decreases self.keys@.len() - i,
        {
            if bytes_eq(self.keys[i].as_slice(), key) {
                proof {
                    assert(self.key_seq()[i as int] == self.keys@[i as int]@);
                }
                return Some(i);
            }
            assert(self.key_seq()[i as int] == self.keys@[i as int]@);
            i = i + 1;
        }
        None
    }

    /// The `i`-th stored key and its count.
    pub fn entry(&self, i: usize) -> (r: (&Vec<u8>, u64))
        requires
            self.wf(),
            i < self.key_seq().len(),
        ensures
            r.0@ == self.key_seq()[i as int],
            r.1 == self.view().count(r.0@),
            r.1 > 0,
    {
        proof {
            lemma_tally_count(self.key_seq(), self.counts@, self.counts@.len() as int, self.key_seq()[i as int]);
        }
        (&self.keys[i], self.counts[i])
    }

    /// Counts `key` `n` more times.
    pub fn add_count(&mut self, key: &[u8], n: u64)
        requires
            old(self).wf(),
            old(self).view().len() + n <= u64::MAX,
        ensures
            final(self).wf(),
            final(self).view() == old(self).view().add(copies(key@, n as nat)),
    {
        broadcast use vstd::multiset::group_multiset_axioms;

        let ghost ks = self.key_seq();
        let ghost cs = self.counts@;
        let ghost len = cs.len() as int;
        proof {
            lemma_copies(key@, n as nat);
        }
        if n == 0 {
            assert(self.view() =~= self.view().add(copies(key@, 0)));
            return;
        }
        match self.find(key) {
            Some(i) => {
                proof {
                    lemma_tally_count(ks, cs, len, key@);
                }
                let c = self.counts[i];
                self.counts.set(i, c + n);
                proof {
                    let ncs = self.counts@;
                    assert(self.key_seq() == ks);
                    assert forall|t: Seq<u8>|
                        tally(ks, ncs, len).count(t) == tally(ks, cs, len).add(
                            copies(key@, n as nat),
                        ).count(t) by {
                        lemma_tally_count(ks, cs, len, t);
                        lemma_tally_count(ks, ncs, len, t);
                        if exists|m: int| 0 <= m < len && ks[m] == t {
                            let m = choose|m: int| 0 <= m < len && ks[m] == t;
                            assert(ncs[m] == cs[m] + (if m == i { n } else { 0 }));
                        }
                    }
                    assert(tally(ks, ncs, len) =~= tally(ks, cs, len).add(copies(key@, n as nat)));
                }
            },
            None => {
                self.keys.push(vstd::slice::slice_to_vec(key));
                self.counts.push(n);
                proof {
                    assert(self.key_seq() =~= ks.push(key@));
                    lemma_tally_prefix(ks, cs, self.key_seq(), self.counts@, len);
                }
            },
        }
    }

    /// Adds every count of `other` to this table.
    pub fn merge(&mut self, other: &CountTable)
        requires
            old(self).wf(),
            other.wf(),
            old(self).view().len() + other.view().len() <= u64::MAX,
        ensures
            final(self).wf(),
            final(self).view() == old(self).view().add(other.view()),
    {
        broadcast use vstd::multiset::group_multiset_axioms;

        let ghost oks = other.key_seq();
        let ghost ocs = other.counts@;
        let mut j: usize = 0;
        while j < other.keys.len()
            invariant
                other.wf(),
                oks == other.key_seq(),
                ocs == other.counts@,
                j <= ocs.len(),
                self.wf(),
                self.view() == old(self).view().add(tally(oks, ocs, j as int)),
                old(self).view().len() + other.view().len() <= u64::MAX,
            decreases ocs.len() - j,
        {
            proof {
                lemma_tally_len(oks, ocs, j + 1, ocs.len() as int);
                lemma_copies(oks[j as int], ocs[j as int] as nat);
                assert(other.keys@[j as int]@ == oks[j as int]);
            }
            self.add_count(other.keys[j].as_slice(), other.counts[j]);
            proof {
                assert(self.view() =~= old(self).view().add(tally(oks, ocs, j + 1)));
            }
            j = j + 1;
        }
    }

    /// The sum of all counts.
    pub fn total(&self) -> (r: u64)
        requires
            self.wf(),
        ensures
            r == self.view().len(),
    {
        broadcast use vstd::multiset::group_multiset_axioms;

        let ghost ks = self.key_seq();
        let mut sum: u64 = 0;
        let mut j: usize = 0;
        while j < self.counts.len()
            invariant
                self.wf(),
                ks == self.key_seq(),
                j <= self.counts@.len(),
                sum == tally(ks, self.counts@, j as int).len(),
            decreases self.counts@.len() - j,
        {
            proof {
                lemma_tally_len(ks, self.counts@, j + 1, self.counts@.len() as int);
                lemma_copies(ks[j as int], self.counts@[j as int] as nat);
            }
            sum = sum + self.counts[j];
            j = j + 1;
        }
        sum
    }
}

} // verus!
