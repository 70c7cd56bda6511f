//! The stated properties of a returned cover: full coverage of the
//! query, contiguity, hash-level round trip, minimality, determinism.

use vstd::prelude::*;
use crate::dna::{rev_comp, valid_dna};
use crate::hashing::{hash_of, hash64, lemma_hash_bounds, lemma_hash_injective_short};
use crate::index::{
    RefSeq, built_index, index_sound, oriented_slice, seg_ok, pair_hash, lemma_rc_subrange,
    lemma_built_index_complete,
};
use crate::solver::{
    Trace, SENTINEL, spec_dp, spec_trace_at, lemma_trace_props, lemma_dp_le_cand,
};
use crate::cover::{spec_walk, walk_cuts, spec_trace_seq, spec_cover, outcome_of};
use crate::MatchError;

verus! {

/// Cut positions that stay inside the query, rise strictly from `p`
/// to the query's end, and bound only spans whose hash the index holds.
pub open spec fn is_chain(q: Seq<char>, m: Map<u64, RefSeq>, cuts: Seq<int>, p: int) -> bool {
    &&& cuts.len() >= 1
    &&& cuts[0] == p
    &&& cuts.last() == q.len()
    &&& forall|i: int| 0 <= i < cuts.len() ==> 0 <= #[trigger] cuts[i] <= q.len()
    &&& forall|i: int| 0 <= i < cuts.len() - 1 ==> #[trigger] cuts[i] < cuts[i + 1]
    &&& forall|i: int|
        0 <= i < cuts.len() - 1 ==> m.contains_key(
            hash64(q.subrange(#[trigger] cuts[i], cuts[i + 1])),
        )
}

/// A span that literally equals some reference substring, read forward
/// or (when enabled) as a reverse complement.
pub open spec fn matches_reference(
    refr: Seq<char>,
    include_reverse_complement: bool,
    span: Seq<char>,
) -> bool {
    exists|s: int, e: int|
        0 <= s <= e < refr.len() && (span == #[trigger] refr.subrange(s, e + 1)
            || (include_reverse_complement && span == rev_comp(refr.subrange(s, e + 1))))
}

/// A decomposition of the whole query into spans that literally match
/// the reference.
pub open spec fn real_cover(
    refr: Seq<char>,
    q: Seq<char>,
    include_reverse_complement: bool,
    cuts: Seq<int>,
) -> bool {
    &&& cuts.len() >= 1
    &&& cuts[0] == 0
    &&& cuts.last() == q.len()
    &&& forall|i: int| 0 <= i < cuts.len() ==> 0 <= #[trigger] cuts[i] <= q.len()
    &&& forall|i: int| 0 <= i < cuts.len() - 1 ==> #[trigger] cuts[i] < cuts[i + 1]
    &&& forall|i: int|
        0 <= i < cuts.len() - 1 ==> matches_reference(
            refr,
            include_reverse_complement,
            q.subrange(#[trigger] cuts[i], cuts[i + 1]),
        )
}

/// The best count from the head of a chain is at most the chain's
/// number of spans.
pub proof fn lemma_chain_bound(q: Seq<char>, m: Map<u64, RefSeq>, cuts: Seq<int>, p: int)
    requires
        is_chain(q, m, cuts, p),
    ensures
        spec_dp(q, m, p) <= cuts.len() - 1,
    decreases cuts.len(),
{
    if cuts.len() == 1 {
        assert(p == q.len());
    } else {
        let c1 = cuts[1];
        let tail = cuts.subrange(1, cuts.len() as int);
        assert forall|i: int| 0 <= i < tail.len() implies tail[i] == cuts[i + 1] by {}
        assert(tail.last() == cuts.last());
        assert(is_chain(q, m, tail, c1));
        lemma_chain_bound(q, m, tail, c1);
        assert(m.contains_key(hash64(q.subrange(p, c1))));
        lemma_dp_le_cand(q, m, p, c1 - 1);
    }
}

/// A chain from `p` has at most one span per remaining position.
pub proof fn lemma_chain_len(q: Seq<char>, m: Map<u64, RefSeq>, cuts: Seq<int>, p: int)
    requires
        is_chain(q, m, cuts, p),
    ensures
        cuts.len() <= q.len() - p + 1,
    decreases cuts.len(),
{
    if cuts.len() > 1 {
        let c1 = cuts[1];
        let tail = cuts.subrange(1, cuts.len() as int);
        assert forall|i: int| 0 <= i < tail.len() implies tail[i] == cuts[i + 1] by {}
        assert(is_chain(q, m, tail, c1));
        lemma_chain_len(q, m, tail, c1);
    }
}

/// A literal decomposition is a chain of the built index: every span's
/// hash was inserted when its orientation was scanned.
pub proof fn lemma_real_to_chain(
    refr: Seq<char>,
    q: Seq<char>,
    include_reverse_complement: bool,
    cuts: Seq<int>,
)
    requires
        refr.len() <= u64::MAX,
        real_cover(refr, q, include_reverse_complement, cuts),
    ensures
        is_chain(q, built_index(refr, include_reverse_complement), cuts, 0),
{
    let m = built_index(refr, include_reverse_complement);
    assert forall|i: int| 0 <= i < cuts.len() - 1 implies m.contains_key(
        hash64(q.subrange(#[trigger] cuts[i], cuts[i + 1])),
    ) by {
        let span = q.subrange(cuts[i], cuts[i + 1]);
        assert(matches_reference(refr, include_reverse_complement, span));
        let (s, e) = choose|s: int, e: int|
            0 <= s <= e < refr.len() && (span == #[trigger] refr.subrange(s, e + 1)
                || (include_reverse_complement && span == rev_comp(refr.subrange(s, e + 1))));
        if span == refr.subrange(s, e + 1) {
            assert(hash64(span) == pair_hash(refr, false, s, e));
            lemma_built_index_complete(refr, include_reverse_complement, false, s, e);
        } else {
            let n = refr.len() as int;
            let s2 = n - e - 1;
            let e2 = n - s - 1;
            lemma_rc_subrange(refr, s2, e2);
            assert(rev_comp(refr).subrange(s2, e2 + 1) == rev_comp(refr.subrange(s, e + 1)));
            assert(hash64(span) == pair_hash(refr, true, s2, e2));
            lemma_built_index_complete(refr, include_reverse_complement, true, s2, e2);
        }
    }
}

/// On success the walk visits exactly one cut per returned segment,
/// rising strictly from `p` to the query's end, and every step is the
/// transition the solver recorded.
pub proof fn lemma_walk_cuts(q: Seq<char>, m: Map<u64, RefSeq>, p: int)
    requires
        0 <= p <= q.len(),
        q.len() < SENTINEL,
        spec_walk(spec_trace_seq(q, m), q.len() as int, p) is Some,
    ensures
        ({
            let segs = spec_walk(spec_trace_seq(q, m), q.len() as int, p).unwrap();
            let cuts = walk_cuts(spec_trace_seq(q, m), q.len() as int, p);
            &&& cuts.len() == segs.len() + 1
            &&& cuts[0] == p
            &&& cuts.last() == q.len()
            &&& forall|i: int| 0 <= i < cuts.len() ==> 0 <= #[trigger] cuts[i] <= q.len()
            &&& forall|i: int| 0 <= i < cuts.len() - 1 ==> #[trigger] cuts[i] < cuts[i + 1]
            &&& forall|i: int|
                0 <= i < segs.len() ==> spec_trace_at(q, m, #[trigger] cuts[i]) == Some(
                    Trace { ref_seq: segs[i], next: cuts[i + 1] as u64 },
                )
        }),
    decreases q.len() - p,
{
    let tr = spec_trace_seq(q, m);
    let qlen = q.len() as int;
    let segs = spec_walk(tr, qlen, p).unwrap();
    let cuts = walk_cuts(tr, qlen, p);
    if p == qlen {
        assert(cuts =~= seq![qlen]);
    } else {
        lemma_trace_props(q, m, p);
        let t = tr[p].unwrap();
        let next = t.next as int;
        lemma_walk_dp(q, m, next);
        lemma_walk_cuts(q, m, next);
        let rest = spec_walk(tr, qlen, next).unwrap();
        let rest_cuts = walk_cuts(tr, qlen, next);
        assert(segs == seq![t.ref_seq] + rest);
        assert(cuts == seq![p] + rest_cuts);
        assert forall|i: int| 0 <= i < cuts.len() implies 0 <= #[trigger] cuts[i] <= q.len() by {
            if i > 0 {
                assert(cuts[i] == rest_cuts[i - 1]);
            }
        }
        assert forall|i: int| 0 <= i < cuts.len() - 1 implies #[trigger] cuts[i] < cuts[i + 1] by {
            if i == 0 {
                assert(cuts[1] == rest_cuts[0] == next);
            } else {
                assert(cuts[i] == rest_cuts[i - 1] && cuts[i + 1] == rest_cuts[i]);
            }
        }
        assert forall|i: int| 0 <= i < segs.len() implies spec_trace_at(q, m, #[trigger] cuts[i])
            == Some(Trace { ref_seq: segs[i], next: cuts[i + 1] as u64 }) by {
            if i == 0 {
                assert(cuts[0] == p && segs[0] == t.ref_seq && cuts[1] == next);
                assert(spec_trace_at(q, m, p) == Some(t));
                assert(t == Trace { ref_seq: t.ref_seq, next: t.next });
            } else {
                assert(cuts[i] == rest_cuts[i - 1]);
                assert(cuts[i + 1] == rest_cuts[i]);
                assert(segs[i] == rest[i - 1]);
            }
        }
    }
}

/// The walk succeeds exactly when the solver found a finite count, and
/// then returns exactly that many segments.
pub proof fn lemma_walk_dp(q: Seq<char>, m: Map<u64, RefSeq>, p: int)
    requires
        0 <= p <= q.len(),
        q.len() < SENTINEL,
    ensures
        spec_walk(spec_trace_seq(q, m), q.len() as int, p) is Some <==> spec_dp(q, m, p)
            < SENTINEL,
        match spec_walk(spec_trace_seq(q, m), q.len() as int, p) {
            Some(segs) => segs.len() == spec_dp(q, m, p),
            None => true,
        },
    decreases q.len() - p,
{
    let tr = spec_trace_seq(q, m);
    let qlen = q.len() as int;
    if p < qlen {
        lemma_trace_props(q, m, p);
        match tr[p] {
            Some(t) => {
                lemma_walk_dp(q, m, t.next as int);
            },
            None => {},
        }
    }
}

/// The cut positions of a returned cover.
pub open spec fn cover_cuts(q: Seq<char>, m: Map<u64, RefSeq>) -> Seq<int> {
    walk_cuts(spec_trace_seq(q, m), q.len() as int, 0)
}

/// The query span the cover's segment `i` stands for.
pub open spec fn span_of(q: Seq<char>, m: Map<u64, RefSeq>, i: int) -> Seq<char> {
    q.subrange(cover_cuts(q, m)[i], cover_cuts(q, m)[i + 1])
}

/// The segment and its span did not collide: equal hashes came from
/// equal strings.
pub open spec fn no_collision_at(
    refr: Seq<char>,
    q: Seq<char>,
    m: Map<u64, RefSeq>,
    segs: Seq<RefSeq>,
    i: int,
) -> bool {
    hash_of(oriented_slice(refr, segs[i])) == hash_of(span_of(q, m, i)) ==> oriented_slice(
        refr,
        segs[i],
    ) == span_of(q, m, i)
}

/// Sum of `end - start + 1` over the segments.
pub open spec fn seg_len_sum(segs: Seq<RefSeq>) -> int
    decreases segs.len(),
{
    if segs.len() == 0 {
        0
    } else {
        seg_len_sum(segs.drop_last()) + (segs.last().end - segs.last().start + 1)
    }
}

/// Minimality: no decomposition of the query into spans that literally
/// match the reference has strictly fewer spans than a returned cover
/// has segments.
pub proof fn lemma_minimality(
    refr: Seq<char>,
    q: Seq<char>,
    include_reverse_complement: bool,
    cuts: Seq<int>,
    segs: Seq<RefSeq>,
)
    requires
        refr.len() <= u64::MAX,
        q.len() < SENTINEL,
        real_cover(refr, q, include_reverse_complement, cuts),
        spec_cover(q, built_index(refr, include_reverse_complement)) == Some(segs),
    ensures
        segs.len() <= cuts.len() - 1,
{
    let m = built_index(refr, include_reverse_complement);
    lemma_real_to_chain(refr, q, include_reverse_complement, cuts);
    lemma_chain_bound(q, m, cuts, 0);
    lemma_walk_dp(q, m, 0);
}

/// Success is owed: a query that decomposes at all into literal
/// reference matches gets a cover back, never `NoCoverFound`.
pub proof fn lemma_cover_found(
    refr: Seq<char>,
    q: Seq<char>,
    include_reverse_complement: bool,
    cuts: Seq<int>,
)
    requires
        refr.len() <= u64::MAX,
        q.len() < SENTINEL,
        real_cover(refr, q, include_reverse_complement, cuts),
    ensures
        spec_cover(q, built_index(refr, include_reverse_complement)) is Some,
{
    let m = built_index(refr, include_reverse_complement);
    lemma_real_to_chain(refr, q, include_reverse_complement, cuts);
    lemma_chain_bound(q, m, cuts, 0);
    lemma_chain_len(q, m, cuts, 0);
    lemma_walk_dp(q, m, 0);
}

/// Each returned segment is a real interval of the reference whose
/// oriented substring hashes exactly like the query span it covers.
pub proof fn lemma_round_trip_hash(
    refr: Seq<char>,
    q: Seq<char>,
    m: Map<u64, RefSeq>,
    segs: Seq<RefSeq>,
    i: int,
)
    requires
        q.len() < SENTINEL,
        index_sound(refr, m),
        spec_cover(q, m) == Some(segs),
        0 <= i < segs.len(),
    ensures
        segs[i].start <= segs[i].end,
        (segs[i].end as int) < refr.len(),
        hash_of(oriented_slice(refr, segs[i])) == hash_of(span_of(q, m, i)),
{
    lemma_walk_cuts(q, m, 0);
    let cuts = cover_cuts(q, m);
    let p = cuts[i];
    assert(spec_trace_at(q, m, p) == Some(
        Trace { ref_seq: segs[i], next: cuts[i + 1] as u64 },
    ));
    assert(0 <= p < q.len());
    lemma_trace_props(q, m, p);
    let h = hash64(q.subrange(p, cuts[i + 1]));
    assert(m.contains_key(h) && m[h] == segs[i]);
    assert(seg_ok(refr, h, segs[i]));
    lemma_hash_bounds(oriented_slice(refr, segs[i]));
    lemma_hash_bounds(q.subrange(p, cuts[i + 1]));
}

/// Round trip: when the segment and its span did not collide, the
/// reference substring equals the query span for a forward segment,
/// and equals the span's reverse complement for a reverse one.
pub proof fn lemma_round_trip(
    refr: Seq<char>,
    q: Seq<char>,
    m: Map<u64, RefSeq>,
    segs: Seq<RefSeq>,
    i: int,
)
    requires
        q.len() < SENTINEL,
        index_sound(refr, m),
        spec_cover(q, m) == Some(segs),
        0 <= i < segs.len(),
        no_collision_at(refr, q, m, segs, i),
    ensures
        ({
            let span = span_of(q, m, i);
            let sub = refr.subrange(segs[i].start as int, segs[i].end as int + 1);
            &&& (!segs[i].reverse ==> sub == span)
            &&& (segs[i].reverse ==> sub == rev_comp(span))
        }),
{
    lemma_round_trip_hash(refr, q, m, segs, i);
    let span = span_of(q, m, i);
    let sub = refr.subrange(segs[i].start as int, segs[i].end as int + 1);
    assert(oriented_slice(refr, segs[i]) == span);
    if segs[i].reverse {
        assert(rev_comp(sub) == span);
        crate::dna::lemma_rev_comp_involutive(sub);
    }
}

/// Sequences of at most eighteen symbols sit below the modulus, where
/// the hash is injective: the no-collision premise holds outright.
pub proof fn lemma_no_collision_short(
    refr: Seq<char>,
    q: Seq<char>,
    m: Map<u64, RefSeq>,
    segs: Seq<RefSeq>,
    i: int,
)
    requires
        valid_dna(refr),
        valid_dna(q),
        refr.len() <= 18,
        q.len() <= 18,
        index_sound(refr, m),
        spec_cover(q, m) == Some(segs),
        0 <= i < segs.len(),
    ensures
        no_collision_at(refr, q, m, segs, i),
{
    lemma_round_trip_hash(refr, q, m, segs, i);
    lemma_walk_cuts(q, m, 0);
    let cuts = cover_cuts(q, m);
    let span = span_of(q, m, i);
    let slice = oriented_slice(refr, segs[i]);
    let sub = refr.subrange(segs[i].start as int, segs[i].end as int + 1);
    assert forall|j: int| 0 <= j < sub.len() implies crate::dna::is_symbol(
        #[trigger] sub[j],
    ) by {
        assert(sub[j] == refr[segs[i].start + j]);
    }
    if segs[i].reverse {
        crate::dna::lemma_rev_comp_valid(sub);
    }
    assert forall|j: int| 0 <= j < span.len() implies crate::dna::is_symbol(
        #[trigger] span[j],
    ) by {
        assert(span[j] == q[cuts[i] + j]);
    }
    if hash_of(slice) == hash_of(span) {
        lemma_hash_injective_short(slice, span);
    }
}

/// Round trip without any premise for short inputs: within the hash's
/// exact range every returned segment agrees with its query span
/// character for character.
pub proof fn lemma_round_trip_short(
    refr: Seq<char>,
    q: Seq<char>,
    m: Map<u64, RefSeq>,
    segs: Seq<RefSeq>,
    i: int,
)
    requires
        valid_dna(refr),
        valid_dna(q),
        refr.len() <= 18,
        q.len() <= 18,
        index_sound(refr, m),
        spec_cover(q, m) == Some(segs),
        0 <= i < segs.len(),
    ensures
        ({
            let span = span_of(q, m, i);
            let sub = refr.subrange(segs[i].start as int, segs[i].end as int + 1);
            &&& (!segs[i].reverse ==> sub == span)
            &&& (segs[i].reverse ==> sub == rev_comp(span))
        }),
{
    lemma_no_collision_short(refr, q, m, segs, i);
    lemma_round_trip(refr, q, m, segs, i);
}

/// Contiguity: without collisions, reconstructing query positions from
/// the segment lengths in order reproduces the cut positions exactly,
/// from zero to the query's end, with no gap or overlap.
pub proof fn lemma_contiguity(refr: Seq<char>, q: Seq<char>, m: Map<u64, RefSeq>, segs: Seq<
    RefSeq,
>)
    requires
        q.len() < SENTINEL,
        index_sound(refr, m),
        spec_cover(q, m) == Some(segs),
        forall|i: int| 0 <= i < segs.len() ==> #[trigger] no_collision_at(refr, q, m, segs, i),
    ensures
        ({
            let cuts = cover_cuts(q, m);
            &&& cuts.len() == segs.len() + 1
            &&& cuts[0] == 0
            &&& cuts.last() == q.len()
            &&& forall|i: int|
                0 <= i < segs.len() ==> #[trigger] cuts[i + 1] == cuts[i] + segs[i].end
                    - segs[i].start + 1
        }),
{
    lemma_walk_cuts(q, m, 0);
    let cuts = cover_cuts(q, m);
    assert forall|i: int| 0 <= i < segs.len() implies #[trigger] cuts[i + 1] == cuts[i]
        + segs[i].end - segs[i].start + 1 by {
        lemma_round_trip_hash(refr, q, m, segs, i);
        assert(no_collision_at(refr, q, m, segs, i));
        assert(oriented_slice(refr, segs[i]) == span_of(q, m, i));
        assert(oriented_slice(refr, segs[i]).len() == segs[i].end - segs[i].start + 1);
        assert(span_of(q, m, i).len() == cuts[i + 1] - cuts[i]);
    }
}

/// Partial sums of segment lengths walk the cut positions.
proof fn lemma_sum_prefix(q: Seq<char>, m: Map<u64, RefSeq>, segs: Seq<RefSeq>, k: int)
    requires
        0 <= k <= segs.len(),
        cover_cuts(q, m).len() == segs.len() + 1,
        cover_cuts(q, m)[0] == 0,
        forall|i: int|
            0 <= i < segs.len() ==> #[trigger] cover_cuts(q, m)[i + 1] == cover_cuts(q, m)[i]
                + segs[i].end - segs[i].start + 1,
    ensures
        seg_len_sum(segs.take(k)) == cover_cuts(q, m)[k],
    decreases k,
{
    if k == 0 {
        assert(segs.take(0) =~= Seq::<RefSeq>::empty());
    } else {
        lemma_sum_prefix(q, m, segs, k - 1);
        assert(segs.take(k).drop_last() =~= segs.take(k - 1));
        assert(segs.take(k).last() == segs[k - 1]);
        assert(cover_cuts(q, m)[(k - 1) + 1] == cover_cuts(q, m)[k - 1] + segs[k - 1].end - segs[
            k - 1
        ].start + 1);
    }
}

/// Full coverage: without collisions, the sum of `end - start + 1`
/// over the returned segments equals the query length.
pub proof fn lemma_full_coverage(refr: Seq<char>, q: Seq<char>, m: Map<u64, RefSeq>, segs: Seq<
    RefSeq,
>)
    requires
        q.len() < SENTINEL,
        index_sound(refr, m),
        spec_cover(q, m) == Some(segs),
        forall|i: int| 0 <= i < segs.len() ==> #[trigger] no_collision_at(refr, q, m, segs, i),
    ensures
        seg_len_sum(segs) == q.len(),
{
    lemma_contiguity(refr, q, m, segs);
    lemma_sum_prefix(q, m, segs, segs.len() as int);
    assert(segs.take(segs.len() as int) =~= segs);
    assert(cover_cuts(q, m)[segs.len() as int] == cover_cuts(q, m).last());
}

/// Contiguity without any premise for short inputs.
pub proof fn lemma_contiguity_short(refr: Seq<char>, q: Seq<char>, m: Map<u64, RefSeq>, segs: Seq<
    RefSeq,
>)
    requires
        valid_dna(refr),
        valid_dna(q),
        refr.len() <= 18,
        q.len() <= 18,
        index_sound(refr, m),
        spec_cover(q, m) == Some(segs),
    ensures
        ({
            let cuts = cover_cuts(q, m);
            &&& cuts.len() == segs.len() + 1
            &&& cuts[0] == 0
            &&& cuts.last() == q.len()
            &&& forall|i: int|
                0 <= i < segs.len() ==> #[trigger] cuts[i + 1] == cuts[i] + segs[i].end
                    - segs[i].start + 1
        }),
{
    assert forall|i: int| 0 <= i < segs.len() implies #[trigger] no_collision_at(
        refr,
        q,
        m,
        segs,
        i,
    ) by {
        lemma_no_collision_short(refr, q, m, segs, i);
    }
    lemma_contiguity(refr, q, m, segs);
}

/// Full coverage without any premise for short inputs.
pub proof fn lemma_full_coverage_short(
    refr: Seq<char>,
    q: Seq<char>,
    m: Map<u64, RefSeq>,
    segs: Seq<RefSeq>,
)
    requires
        valid_dna(refr),
        valid_dna(q),
        refr.len() <= 18,
        q.len() <= 18,
        index_sound(refr, m),
        spec_cover(q, m) == Some(segs),
    ensures
        seg_len_sum(segs) == q.len(),
{
    assert forall|i: int| 0 <= i < segs.len() implies #[trigger] no_collision_at(
        refr,
        q,
        m,
        segs,
        i,
    ) by {
        lemma_no_collision_short(refr, q, m, segs, i);
    }
    lemma_full_coverage(refr, q, m, segs);
}

/// Determinism: the contract of `find_min_cover` pins its result, so
/// two results for the same input and configuration are equal.
pub proof fn lemma_determinism(
    refr: Seq<char>,
    q: Seq<char>,
    include_reverse_complement: bool,
    r1: Result<Seq<RefSeq>, MatchError>,
    r2: Result<Seq<RefSeq>, MatchError>,
)
    requires
        outcome_of(refr, q, include_reverse_complement, r1),
        outcome_of(refr, q, include_reverse_complement, r2),
    ensures
        r1 == r2,
{
}

} // verus!
