//! The four-symbol alphabet: validity, numeric codes, and the
//! reverse-complement transformation.

use vstd::prelude::*;

verus! {

/// The four nucleotide codes.
pub open spec fn is_symbol(c: char) -> bool {
    c == 'A' || c == 'T' || c == 'C' || c == 'G'
}

/// Numeric code of a symbol: small and never zero, so that a leading
/// run of symbols can never hash like an empty prefix.
pub open spec fn sym_val(c: char) -> int {
    if c == 'A' {
        1
    } else if c == 'T' {
        2
    } else if c == 'C' {
        3
    } else if c == 'G' {
        4
    } else {
        0
    }
}

pub open spec fn valid_dna(s: Seq<char>) -> bool {
    forall|i: int| 0 <= i < s.len() ==> is_symbol(#[trigger] s[i])
}

/// The paired symbol: A with T, C with G.
pub open spec fn complement(c: char) -> char {
    if c == 'A' {
        'T'
    } else if c == 'T' {
        'A'
    } else if c == 'C' {
        'G'
    } else if c == 'G' {
        'C'
    } else {
        c
    }
}

/// The sequence read backwards with every symbol replaced by its pair.
pub open spec fn rev_comp(s: Seq<char>) -> Seq<char> {
    Seq::new(s.len(), |i: int| complement(s[s.len() - 1 - i]))
}

pub proof fn lemma_rev_comp_involutive(s: Seq<char>)
    ensures
        rev_comp(rev_comp(s)) == s,
{
    assert(rev_comp(rev_comp(s)) =~= s);
}

pub proof fn lemma_rev_comp_valid(s: Seq<char>)
    requires
        valid_dna(s),
    ensures
        valid_dna(rev_comp(s)),
{
    assert forall|i: int| 0 <= i < rev_comp(s).len() implies is_symbol(#[trigger] rev_comp(s)[i]) by {
        assert(is_symbol(s[s.len() - 1 - i]));
    }
}

/// Numeric code of one symbol.
pub fn dna_to_num(dna: char) -> (r: u64)
    requires
        is_symbol(dna),
    ensures
        r as int == sym_val(dna),
        1 <= r <= 4,
{
    if dna == 'A' {
        1
    } else if dna == 'T' {
        2
    } else if dna == 'C' {
        3
    } else {
        4
    }
}

/// The paired symbol of one symbol.
pub fn complement_sym(c: char) -> (r: char)
    requires
        is_symbol(c),
    ensures
        r == complement(c),
{
    if c == 'A' {
        'T'
    } else if c == 'T' {
        'A'
    } else if c == 'C' {
        'G'
    } else {
        'C'
    }
}

/// Whether every character of the sequence is one of the four symbols.
pub fn check_dna(dna: &Vec<char>) -> (b: bool)
    ensures
        b == valid_dna(dna@),
{
    let mut i: usize = 0;
    while i < dna.len()
        invariant
            i <= dna@.len(),
            forall|j: int| 0 <= j < i ==> is_symbol(#[trigger] dna@[j]),
        decreases dna@.len() - i,
    {
        let c = dna[i];
        if !(c == 'A' || c == 'T' || c == 'C' || c == 'G') {
            assert(!is_symbol(dna@[i as int]));
            return false;
        }
        i += 1;
    }
    true
}

/// The reverse complement of a whole sequence.
pub fn reverse_dna(dna: &Vec<char>) -> (r: Vec<char>)
    requires
        valid_dna(dna@),
    ensures
        r@ == rev_comp(dna@),
{
    let n = dna.len();
    let mut r: Vec<char> = Vec::new();
    let mut i: usize = 0;
    while i < n
        invariant
            n == dna@.len(),
            valid_dna(dna@),
            i <= n,
            r@.len() == i,
            forall|j: int| 0 <= j < i ==> r@[j] == complement(#[trigger] dna@[n - 1 - j]),
        decreases n - i,
    {
        let c = complement_sym(dna[n - 1 - i]);
        r.push(c);
        i += 1;
    }
    proof {
        assert(r@ =~= rev_comp(dna@));
    }
    r
}

} // verus!
