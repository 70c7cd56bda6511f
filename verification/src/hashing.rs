//! The rolling polynomial hash over symbol codes, modulo a large prime.

use vstd::prelude::*;
use crate::dna::{is_symbol, sym_val, valid_dna};

verus! {

/// Modulus of the rolling hash.
pub const MOD: u64 = 10_000_000_000_007;

/// Hash of a whole sequence: fold of `h * 5 + code` over its symbols,
/// starting from zero, reduced modulo `MOD` at every step.
pub open spec fn hash_of(s: Seq<char>) -> int
    decreases s.len(),
{
    if s.len() == 0 {
        0
    } else {
        (hash_of(s.drop_last()) * 5 + sym_val(s.last())) % (MOD as int)
    }
}

/// The hash as the key value it is stored under.
pub open spec fn hash64(s: Seq<char>) -> u64 {
    hash_of(s) as u64
}

pub proof fn lemma_hash_bounds(s: Seq<char>)
    ensures
        0 <= hash_of(s) < MOD,
    decreases s.len(),
{
    if s.len() != 0 {
        lemma_hash_bounds(s.drop_last());
    }
}

/// Extending a sequence by one symbol extends its hash by one rolling step.
pub proof fn lemma_hash_push(s: Seq<char>, c: char)
    ensures
        hash_of(s.push(c)) == (hash_of(s) * 5 + sym_val(c)) % (MOD as int),
{
    assert(s.push(c).drop_last() =~= s);
    assert(s.push(c).last() == c);
}

/// Powers of the hash base.
pub open spec fn pow5(n: nat) -> int
    decreases n,
{
    if n == 0 {
        1
    } else {
        5 * pow5((n - 1) as nat)
    }
}

pub proof fn lemma_pow5_positive(n: nat)
    ensures
        pow5(n) >= 1,
    decreases n,
{
    if n > 0 {
        lemma_pow5_positive((n - 1) as nat);
    }
}

pub proof fn lemma_pow5_monotone(a: nat, b: nat)
    requires
        a <= b,
    ensures
        pow5(a) <= pow5(b),
    decreases b,
{
    if a < b {
        lemma_pow5_monotone(a, (b - 1) as nat);
        lemma_pow5_positive((b - 1) as nat);
    }
}

/// The hash before any modular reduction: the sequence read as a
/// base-five number whose digits are the symbol codes.
pub open spec fn base_val(s: Seq<char>) -> int
    decreases s.len(),
{
    if s.len() == 0 {
        0
    } else {
        base_val(s.drop_last()) * 5 + sym_val(s.last())
    }
}

/// Since every digit is at least one, the value separates lengths:
/// it is zero only for the empty sequence and below `pow5(len)`.
pub proof fn lemma_base_val_bounds(s: Seq<char>)
    requires
        valid_dna(s),
    ensures
        0 <= base_val(s) < pow5(s.len()),
        s.len() > 0 ==> base_val(s) >= 1,
    decreases s.len(),
{
    if s.len() > 0 {
        assert(valid_dna(s.drop_last())) by {
            assert(forall|i: int|
                0 <= i < s.len() - 1 ==> s.drop_last()[i] == #[trigger] s[i]);
        }
        lemma_base_val_bounds(s.drop_last());
        assert(is_symbol(s.last()));
    }
}

/// Two valid sequences with the same base-five value are equal: the
/// last digit is the value modulo five, and digits are never zero.
pub proof fn lemma_base_val_injective(s1: Seq<char>, s2: Seq<char>)
    requires
        valid_dna(s1),
        valid_dna(s2),
        base_val(s1) == base_val(s2),
    ensures
        s1 == s2,
    decreases s1.len(),
{
    lemma_base_val_bounds(s1);
    lemma_base_val_bounds(s2);
    if s1.len() == 0 {
        assert(s2.len() == 0);
        assert(s1 =~= s2);
    } else {
        assert(s2.len() > 0);
        let d1 = s1.drop_last();
        let d2 = s2.drop_last();
        assert(valid_dna(d1) && valid_dna(d2)) by {
            assert(forall|i: int| 0 <= i < s1.len() - 1 ==> d1[i] == #[trigger] s1[i]);
            assert(forall|i: int| 0 <= i < s2.len() - 1 ==> d2[i] == #[trigger] s2[i]);
        }
        let c1 = sym_val(s1.last());
        let c2 = sym_val(s2.last());
        lemma_base_val_bounds(d1);
        lemma_base_val_bounds(d2);
        assert(base_val(d1) * 5 + c1 == base_val(d2) * 5 + c2);
        assert(is_symbol(s1.last()) && is_symbol(s2.last()));
        assert(c1 == c2 && base_val(d1) == base_val(d2)) by {
            assert(5 * (base_val(d1) - base_val(d2)) == c2 - c1);
            assert(-3 <= c2 - c1 <= 3);
        }
        assert(s1.last() == s2.last());
        lemma_base_val_injective(d1, d2);
        assert(s1 =~= d1.push(s1.last()));
        assert(s2 =~= d2.push(s2.last()));
    }
}

/// For sequences of at most eighteen symbols the base-five value stays
/// below the modulus, so the rolling hash never reduces.
pub proof fn lemma_hash_of_short(s: Seq<char>)
    requires
        valid_dna(s),
        s.len() <= 18,
    ensures
        hash_of(s) == base_val(s),
    decreases s.len(),
{
    if s.len() > 0 {
        assert(valid_dna(s.drop_last())) by {
            assert(forall|i: int|
                0 <= i < s.len() - 1 ==> s.drop_last()[i] == #[trigger] s[i]);
        }
        lemma_hash_of_short(s.drop_last());
        lemma_base_val_bounds(s);
        lemma_pow5_monotone(s.len(), 18);
        assert(pow5(18) == 3_814_697_265_625) by {
            reveal_with_fuel(pow5, 19);
        }
        assert(base_val(s) < MOD);
    }
}

/// No two distinct valid sequences of at most eighteen symbols share a
/// rolling hash.
pub proof fn lemma_hash_injective_short(s1: Seq<char>, s2: Seq<char>)
    requires
        valid_dna(s1),
        valid_dna(s2),
        s1.len() <= 18,
        s2.len() <= 18,
        hash_of(s1) == hash_of(s2),
    ensures
        s1 == s2,
{
    lemma_hash_of_short(s1);
    lemma_hash_of_short(s2);
    lemma_base_val_injective(s1, s2);
}

/// One rolling step of the hash.
pub fn hash_step(hash: u64, c: char) -> (r: u64)
    requires
        hash < MOD,
        is_symbol(c),
    ensures
        r as int == (hash as int * 5 + sym_val(c)) % (MOD as int),
        r < MOD,
{
    let code = crate::dna::dna_to_num(c);
    (hash * 5 + code) % MOD
}

} // verus!
