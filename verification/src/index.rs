//! The substring index: every substring of the reference, in each
//! requested orientation, hashed and stored first-write-wins.

use vstd::prelude::*;
use std::collections::HashMap;
use crate::MatchError;
use crate::dna::{valid_dna, rev_comp, complement};
use crate::hashing::{hash_of, hash64, MOD, hash_step, lemma_hash_bounds, lemma_hash_push};

verus! {

broadcast use vstd::std_specs::hash::group_hash_axioms;

/// One reference interval, inclusive on both ends, with its orientation.
#[derive(Clone, Copy, PartialEq, Eq, Structural, Debug)]
pub struct RefSeq {
    pub start: u64,
    pub end: u64,
    pub reverse: bool,
}

/// The sequence actually scanned for one orientation.
pub open spec fn oriented(dna: Seq<char>, reverse: bool) -> Seq<char> {
    if reverse {
        rev_comp(dna)
    } else {
        dna
    }
}

/// Hash of the scanned substring at positions `[s, e]` of the oriented
/// sequence.
pub open spec fn pair_hash(dna: Seq<char>, reverse: bool, s: int, e: int) -> u64 {
    hash64(oriented(dna, reverse).subrange(s, e + 1))
}

/// The segment stored for the scanned positions `[s, e]`: translated
/// back into original-reference coordinates when the orientation is
/// reverse complement.
pub open spec fn mk_seg(len: int, reverse: bool, s: int, e: int) -> RefSeq {
    if reverse {
        RefSeq { start: (len - e - 1) as u64, end: (len - s - 1) as u64, reverse: true }
    } else {
        RefSeq { start: s as u64, end: e as u64, reverse: false }
    }
}

/// First-write-wins insertion of the one pair `(s, e)`.
pub open spec fn insert_pair(
    m: Map<u64, RefSeq>,
    dna: Seq<char>,
    reverse: bool,
    s: int,
    e: int,
) -> Map<u64, RefSeq> {
    let h = pair_hash(dna, reverse, s, e);
    if m.contains_key(h) {
        m
    } else {
        m.insert(h, mk_seg(dna.len() as int, reverse, s, e))
    }
}

/// Insertion of all pairs `(s, e')` for `e'` in `[e, len)`, in order.
pub open spec fn insert_row(
    m: Map<u64, RefSeq>,
    dna: Seq<char>,
    reverse: bool,
    s: int,
    e: int,
) -> Map<u64, RefSeq>
    decreases dna.len() - e,
{
    if e < 0 || e >= dna.len() {
        m
    } else {
        insert_row(insert_pair(m, dna, reverse, s, e), dna, reverse, s, e + 1)
    }
}

/// Insertion of all rows from start position `s` upward, in order.
pub open spec fn insert_rows(
    m: Map<u64, RefSeq>,
    dna: Seq<char>,
    reverse: bool,
    s: int,
) -> Map<u64, RefSeq>
    decreases dna.len() - s,
{
    if s < 0 || s >= dna.len() {
        m
    } else {
        insert_rows(insert_row(m, dna, reverse, s, s), dna, reverse, s + 1)
    }
}

/// The whole effect of indexing one orientation on top of an existing map.
pub open spec fn spec_insert(m: Map<u64, RefSeq>, dna: Seq<char>, reverse: bool) -> Map<
    u64,
    RefSeq,
> {
    insert_rows(m, dna, reverse, 0)
}

/// The reference substring a segment stands for, read in the segment's
/// own orientation.
pub open spec fn oriented_slice(refr: Seq<char>, seg: RefSeq) -> Seq<char> {
    let sub = refr.subrange(seg.start as int, seg.end as int + 1);
    if seg.reverse {
        rev_comp(sub)
    } else {
        sub
    }
}

/// A stored entry is a real interval of the reference whose oriented
/// substring hashes to its own key.
pub open spec fn seg_ok(refr: Seq<char>, h: u64, seg: RefSeq) -> bool {
    &&& seg.start <= seg.end
    &&& (seg.end as int) < refr.len()
    &&& h == hash64(oriented_slice(refr, seg))
}

/// Every entry of `m` either comes from `m0` unchanged or is a sound
/// segment of `refr`.
pub open spec fn from_or_ok(m0: Map<u64, RefSeq>, refr: Seq<char>, m: Map<u64, RefSeq>) -> bool {
    forall|k: u64| #[trigger]
        m.contains_key(k) ==> ((m0.contains_key(k) && m[k] == m0[k]) || seg_ok(refr, k, m[k]))
}

/// Every entry of the index is a sound segment of the reference.
pub open spec fn index_sound(refr: Seq<char>, m: Map<u64, RefSeq>) -> bool {
    forall|k: u64| #[trigger] m.contains_key(k) ==> seg_ok(refr, k, m[k])
}

/// The index built from scratch for a reference: forward substrings
/// first, reverse-complement substrings after, if requested.
pub open spec fn built_index(refr: Seq<char>, include_reverse_complement: bool) -> Map<
    u64,
    RefSeq,
> {
    if include_reverse_complement {
        spec_insert(spec_insert(Map::empty(), refr, false), refr, true)
    } else {
        spec_insert(Map::empty(), refr, false)
    }
}

/// A window of the reverse complement is the reverse complement of the
/// mirrored window of the original.
pub proof fn lemma_rc_subrange(dna: Seq<char>, s: int, e: int)
    requires
        0 <= s <= e < dna.len(),
    ensures
        rev_comp(dna).subrange(s, e + 1) == rev_comp(
            dna.subrange(dna.len() - e - 1, dna.len() - s),
        ),
{
    let n = dna.len() as int;
    let lhs = rev_comp(dna).subrange(s, e + 1);
    let rhs = rev_comp(dna.subrange(n - e - 1, n - s));
    assert forall|j: int| 0 <= j < lhs.len() implies lhs[j] == rhs[j] by {
        assert(lhs[j] == complement(dna[n - 1 - s - j]));
        assert(rhs[j] == complement(dna.subrange(n - e - 1, n - s)[e - s - j]));
    }
    assert(lhs =~= rhs);
}

/// The segment stored for a scanned pair is sound for the original
/// reference, in either orientation.
pub proof fn lemma_pair_seg_ok(dna: Seq<char>, reverse: bool, s: int, e: int)
    requires
        0 <= s <= e < dna.len(),
        dna.len() <= u64::MAX,
    ensures
        seg_ok(dna, pair_hash(dna, reverse, s, e), mk_seg(dna.len() as int, reverse, s, e)),
{
    if reverse {
        lemma_rc_subrange(dna, s, e);
    }
}

pub proof fn lemma_insert_row_mono(
    m: Map<u64, RefSeq>,
    dna: Seq<char>,
    reverse: bool,
    s: int,
    e: int,
    k: u64,
)
    requires
        m.contains_key(k),
    ensures
        insert_row(m, dna, reverse, s, e).contains_key(k),
        insert_row(m, dna, reverse, s, e)[k] == m[k],
    decreases dna.len() - e,
{
    if 0 <= e < dna.len() {
        lemma_insert_row_mono(insert_pair(m, dna, reverse, s, e), dna, reverse, s, e + 1, k);
    }
}

pub proof fn lemma_insert_rows_mono(
    m: Map<u64, RefSeq>,
    dna: Seq<char>,
    reverse: bool,
    s: int,
    k: u64,
)
    requires
        m.contains_key(k),
    ensures
        insert_rows(m, dna, reverse, s).contains_key(k),
        insert_rows(m, dna, reverse, s)[k] == m[k],
    decreases dna.len() - s,
{
    if 0 <= s < dna.len() {
        lemma_insert_row_mono(m, dna, reverse, s, s, k);
        lemma_insert_rows_mono(insert_row(m, dna, reverse, s, s), dna, reverse, s + 1, k);
    }
}

pub proof fn lemma_insert_row_sound(
    m0: Map<u64, RefSeq>,
    m: Map<u64, RefSeq>,
    dna: Seq<char>,
    reverse: bool,
    s: int,
    e: int,
)
    requires
        0 <= s < dna.len(),
        s <= e,
        dna.len() <= u64::MAX,
        from_or_ok(m0, dna, m),
    ensures
        from_or_ok(m0, dna, insert_row(m, dna, reverse, s, e)),
    decreases dna.len() - e,
{
    if 0 <= e < dna.len() {
        lemma_pair_seg_ok(dna, reverse, s, e);
        lemma_insert_row_sound(m0, insert_pair(m, dna, reverse, s, e), dna, reverse, s, e + 1);
    }
}

pub proof fn lemma_insert_rows_sound(
    m0: Map<u64, RefSeq>,
    m: Map<u64, RefSeq>,
    dna: Seq<char>,
    reverse: bool,
    s: int,
)
    requires
        dna.len() <= u64::MAX,
        from_or_ok(m0, dna, m),
    ensures
        from_or_ok(m0, dna, insert_rows(m, dna, reverse, s)),
    decreases dna.len() - s,
{
    if 0 <= s < dna.len() {
        lemma_insert_row_sound(m0, m, dna, reverse, s, s);
        lemma_insert_rows_sound(m0, insert_row(m, dna, reverse, s, s), dna, reverse, s + 1);
    }
}

pub proof fn lemma_insert_row_complete(
    m: Map<u64, RefSeq>,
    dna: Seq<char>,
    reverse: bool,
    s: int,
    e0: int,
    e: int,
)
    requires
        0 <= s <= e0 <= e < dna.len(),
    ensures
        insert_row(m, dna, reverse, s, e0).contains_key(pair_hash(dna, reverse, s, e)),
    decreases e - e0,
{
    let m1 = insert_pair(m, dna, reverse, s, e0);
    if e0 == e {
        assert(m1.contains_key(pair_hash(dna, reverse, s, e)));
        lemma_insert_row_mono(m1, dna, reverse, s, e0 + 1, pair_hash(dna, reverse, s, e));
    } else {
        lemma_insert_row_complete(m1, dna, reverse, s, e0 + 1, e);
    }
}

pub proof fn lemma_insert_rows_complete(
    m: Map<u64, RefSeq>,
    dna: Seq<char>,
    reverse: bool,
    s0: int,
    s: int,
    e: int,
)
    requires
        0 <= s0 <= s <= e < dna.len(),
    ensures
        insert_rows(m, dna, reverse, s0).contains_key(pair_hash(dna, reverse, s, e)),
    decreases s - s0,
{
    let m1 = insert_row(m, dna, reverse, s0, s0);
    if s0 == s {
        lemma_insert_row_complete(m, dna, reverse, s0, s0, e);
        lemma_insert_rows_mono(m1, dna, reverse, s0 + 1, pair_hash(dna, reverse, s, e));
    } else {
        lemma_insert_rows_complete(m1, dna, reverse, s0 + 1, s, e);
    }
}

/// Everything in the built index is a sound segment of the reference.
pub proof fn lemma_built_index_sound(refr: Seq<char>, include_reverse_complement: bool)
    requires
        refr.len() <= u64::MAX,
    ensures
        index_sound(refr, built_index(refr, include_reverse_complement)),
{
    let m1 = spec_insert(Map::<u64, RefSeq>::empty(), refr, false);
    lemma_insert_rows_sound(Map::<u64, RefSeq>::empty(), Map::<u64, RefSeq>::empty(), refr, false, 0);
    if include_reverse_complement {
        lemma_insert_rows_sound(m1, m1, refr, true, 0);
    }
}

/// Every substring of the reference, in each indexed orientation, has
/// its hash present in the built index.
pub proof fn lemma_built_index_complete(
    refr: Seq<char>,
    include_reverse_complement: bool,
    reverse: bool,
    s: int,
    e: int,
)
    requires
        0 <= s <= e < refr.len(),
        reverse ==> include_reverse_complement,
    ensures
        built_index(refr, include_reverse_complement).contains_key(pair_hash(refr, reverse, s, e)),
{
    let m1 = spec_insert(Map::<u64, RefSeq>::empty(), refr, false);
    if reverse {
        lemma_insert_rows_complete(m1, refr, true, 0, s, e);
    } else {
        lemma_insert_rows_complete(Map::<u64, RefSeq>::empty(), refr, false, 0, s, e);
        if include_reverse_complement {
            lemma_insert_rows_mono(m1, refr, true, 0, pair_hash(refr, false, s, e));
        }
    }
}

/// Builds the mapping from every substring hash of `dna`, in the given
/// orientation, to its first reference segment.  Entries already
/// present keep their value: first write wins, also across calls.
pub fn insert_subseq(dna: &Vec<char>, map: &mut HashMap<u64, RefSeq>, reverse: bool) -> (r: Result<
    (),
    MatchError,
>)
    ensures
        match r {
            Ok(()) => valid_dna(dna@) && final(map)@ == spec_insert(old(map)@, dna@, reverse),
            Err(e) => e == MatchError::InvalidSymbol && !valid_dna(dna@) && final(map)@ == old(
                map,
            )@,
        },
{
    if !crate::dna::check_dna(dna) {
        return Err(MatchError::InvalidSymbol);
    }
    let dna_len = dna.len();
    let w: Vec<char> = if reverse {
        crate::dna::reverse_dna(dna)
    } else {
        let mut copy: Vec<char> = Vec::new();
        let mut i: usize = 0;
        while i < dna.len()
            invariant
                i <= dna@.len(),
                copy@ == dna@.subrange(0, i as int),
            decreases dna@.len() - i,
        {
            copy.push(dna[i]);
            proof {
                assert(copy@ =~= dna@.subrange(0, i + 1));
            }
            i += 1;
        }
        proof {
            assert(copy@ =~= dna@);
        }
        copy
    };
    proof {
        if reverse {
            crate::dna::lemma_rev_comp_valid(dna@);
        }
    }
    let ghost target = spec_insert(old(map)@, dna@, reverse);
    let mut start: usize = 0;
    while start < dna_len
        invariant
            dna_len == dna@.len(),
            w@ == oriented(dna@, reverse),
            w@.len() == dna_len,
            valid_dna(w@),
            start <= dna_len,
            insert_rows(map@, dna@, reverse, start as int) == target,
        decreases dna_len - start,
    {
        let mut hash: u64 = 0;
        let mut end: usize = start;
        proof {
            assert(w@.subrange(start as int, start as int) =~= Seq::<char>::empty());
        }
        while end < dna_len
            invariant
                dna_len == dna@.len(),
                w@ == oriented(dna@, reverse),
                w@.len() == dna_len,
                valid_dna(w@),
                start < dna_len,
                start <= end <= dna_len,
                hash < MOD,
                hash as int == hash_of(w@.subrange(start as int, end as int)),
                insert_rows(
                    insert_row(map@, dna@, reverse, start as int, end as int),
                    dna@,
                    reverse,
                    start as int + 1,
                ) == target,
            decreases dna_len - end,
        {
            let ghost m0 = map@;
            let c = w[end];
            hash = hash_step(hash, c);
            proof {
                assert(w@.subrange(start as int, end as int).push(c) =~= w@.subrange(
                    start as int,
                    end + 1,
                ));
                lemma_hash_push(w@.subrange(start as int, end as int), c);
                lemma_hash_bounds(w@.subrange(start as int, end + 1));
                assert(hash == pair_hash(dna@, reverse, start as int, end as int));
            }
            if !map.contains_key(&hash) {
                let seg: RefSeq = if reverse {
                    RefSeq {
                        start: (dna_len - end - 1) as u64,
                        end: (dna_len - start - 1) as u64,
                        reverse: true,
                    }
                } else {
                    RefSeq { start: start as u64, end: end as u64, reverse: false }
                };
                map.insert(hash, seg);
                proof {
                    assert(seg == mk_seg(dna@.len() as int, reverse, start as int, end as int));
                }
            }
            proof {
                assert(map@ == insert_pair(m0, dna@, reverse, start as int, end as int));
                assert(insert_row(m0, dna@, reverse, start as int, end as int) == insert_row(
                    map@,
                    dna@,
                    reverse,
                    start as int,
                    end as int + 1,
                ));
            }
            end += 1;
        }
        start += 1;
    }
    Ok(())
}

} // verus!
