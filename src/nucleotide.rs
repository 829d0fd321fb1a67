//! Nucleotide letters and the reverse complement of a k-mer.

use vstd::prelude::*;

verus! {

/// ASCII `A`.
pub const BASE_A: u8 = 65;

/// ASCII `C`.
pub const BASE_C: u8 = 67;

/// ASCII `G`.
pub const BASE_G: u8 = 71;

/// ASCII `T`.
pub const BASE_T: u8 = 84;

/// Whether a byte is one of the four nucleotide letters `A`, `C`, `G`, `T`.
pub open spec fn is_base(b: u8) -> bool {
    b == BASE_A || b == BASE_C || b == BASE_G || b == BASE_T
}

/// Whether every byte of `s` is a nucleotide letter.
pub open spec fn all_bases(s: Seq<u8>) -> bool {
    forall|i: int| 0 <= i < s.len() ==> is_base(#[trigger] s[i])
}

/// The Watson-Crick partner of a base (A and T, C and G). Other bytes are
/// mapped to themselves; `reverse_complement` rejects them before this matters.
pub open spec fn complement(b: u8) -> u8 {
    if b == BASE_A {
        BASE_T
    } else if b == BASE_T {
        BASE_A
    } else if b == BASE_C {
        BASE_G
    } else if b == BASE_G {
        BASE_C
    } else {
        b
    }
}

/// The reverse complement: order reversed, each byte complemented.
pub open spec fn revcomp(s: Seq<u8>) -> Seq<u8> {
    Seq::new(s.len(), |i: int| complement(s[s.len() - 1 - i]))
}

/// `b` is the invalid byte met first when `s` is read from its end.
pub open spec fn is_last_invalid(s: Seq<u8>, b: u8) -> bool {
    exists|i: int|
        0 <= i < s.len() && s[i] == b && !is_base(b) && (forall|j: int|
            i < j < s.len() ==> is_base(#[trigger] s[j]))
}

/// Reverse-complementing a k-mer twice gives back the k-mer.
pub proof fn lemma_revcomp_involution(s: Seq<u8>)
    ensures
        revcomp(revcomp(s)) == s,
{
    assert(revcomp(revcomp(s)) =~= s);
}

/// The reverse complement of `kmer`, or the first byte other than A, C, G, T
/// met when reading `kmer` from its end.
pub fn reverse_complement(kmer: &[u8]) -> (r: Result<Vec<u8>, u8>)
    ensures
        match r {
            Ok(v) => all_bases(kmer@) && v@ == revcomp(kmer@),
            Err(b) => is_last_invalid(kmer@, b),
        },
{
    let n = kmer.len();
    let mut out: Vec<u8> = Vec::new();
    let mut i: usize = n;
    while i > 0
        invariant
            n == kmer@.len(),
            i <= n,
            out@.len() == n - i,
            forall|j: int| 0 <= j < out@.len() ==> out@[j] == complement(kmer@[n - 1 - j]),
            forall|j: int| i <= j < n ==> is_base(#[trigger] kmer@[j]),
        decreases i,
    {
        i = i - 1;
        let b = kmer[i];
        let c: u8 = if b == BASE_A {
            BASE_T
        } else if b == BASE_T {
            BASE_A
        } else if b == BASE_C {
            BASE_G
        } else if b == BASE_G {
            BASE_C
        } else {
            assert(kmer@[i as int] == b);
            return Err(b);
        };
        out.push(c);
    }
    assert(out@ =~= revcomp(kmer@));
    Ok(out)
}

} // verus!
