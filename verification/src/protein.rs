use vstd::prelude::*;

verus! {

/// One residue of the chain: in the HP model only its class matters.
#[derive(Debug, PartialEq, Eq, Structural, Clone, Copy)]
pub enum AminoAcid {
    Polar,
    Hydrophobic,
}

/// A protein is an ordered, immutable list of residues.
pub type Protein = Vec<AminoAcid>;

/// Number of hydrophobic residues among the first `k` entries.
pub open spec fn h_count_upto(prot: Seq<AminoAcid>, k: int) -> nat
    decreases k,
{
    if k <= 0 {
        0
    } else {
        h_count_upto(prot, k - 1) + if prot[k - 1] is Hydrophobic {
            1nat
        } else {
            0nat
        }
    }
}

/// Number of hydrophobic residues of the whole sequence.
pub open spec fn spec_h_count(prot: Seq<AminoAcid>) -> nat {
    h_count_upto(prot, prot.len() as int)
}

/// Counts the hydrophobic residues of `prot`.
pub fn h_count(prot: &Protein) -> (r: usize)
    ensures
        r == spec_h_count(prot@),
        r <= prot@.len(),
{
    let mut r: usize = 0;
    let mut k: usize = 0;
    proof {
        lemma_h_count_bound(prot@, prot@.len() as int);
    }
    while k < prot.len()
        invariant
            k <= prot@.len(),
            r == h_count_upto(prot@, k as int),
            r <= k,
        decreases prot@.len() - k,
    {
        if matches!(prot[k], AminoAcid::Hydrophobic) {
            r = r + 1;
        }
        k = k + 1;
    }
    r
}

/// A count over a prefix never exceeds the prefix length.
pub proof fn lemma_h_count_bound(prot: Seq<AminoAcid>, k: int)
    requires
        0 <= k,
    ensures
        h_count_upto(prot, k) <= k,
    decreases k,
{
    if k > 0 {
        lemma_h_count_bound(prot, k - 1);
    }
}

/// Reads a residue string: `'H'` is hydrophobic, `'P'` is polar, anything
/// else rejects the whole sequence.
pub fn parse_protein_sequence(s: &str) -> (r: Result<Vec<AminoAcid>, String>)
    ensures
        r is Ok <==> (forall|i: int| 0 <= i < s@.len() ==> s@[i] == 'H' || s@[i] == 'P'),
        r is Ok ==> {
            &&& r->Ok_0@.len() == s@.len()
            &&& forall|i: int|
                0 <= i < s@.len() ==> r->Ok_0@[i] == (if s@[i] == 'H' {
                    AminoAcid::Hydrophobic
                } else {
                    AminoAcid::Polar
                })
        },
{
    let n = s.unicode_len();
    let mut protein_vec: Vec<AminoAcid> = Vec::new();
    let mut k: usize = 0;
    while k < n
        invariant
            n == s@.len(),
            k <= n,
            protein_vec@.len() == k,
            forall|i: int| 0 <= i < k ==> (s@[i] == 'H' || s@[i] == 'P'),
            forall|i: int|
                0 <= i < k ==> protein_vec@[i] == (if s@[i] == 'H' {
                    AminoAcid::Hydrophobic
                } else {
                    AminoAcid::Polar
                }),
        decreases n - k,
    {
        let c = s.get_char(k);
        if c == 'H' {
            protein_vec.push(AminoAcid::Hydrophobic);
        } else if c == 'P' {
            protein_vec.push(AminoAcid::Polar);
        } else {
            return Err(String::from_str("unrecognized residue symbol in sequence"));
        }
        k = k + 1;
    }
    Ok(protein_vec)
}

} // verus!
