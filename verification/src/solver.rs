//! The minimum-cover solver: a right-to-left dynamic program over the
//! query, with a rolling hash per start position and a deterministic
//! tie-break that prefers forward-oriented matches.

use vstd::prelude::*;
use std::collections::HashMap;
use crate::MatchError;
use crate::dna::valid_dna;
use crate::hashing::{hash_of, hash64, MOD, hash_step, lemma_hash_bounds, lemma_hash_push};
use crate::index::RefSeq;

verus! {

broadcast use vstd::std_specs::hash::group_hash_axioms;

/// The "no cover from here" value: large enough that adding one more
/// segment can never overflow.
pub const SENTINEL: u64 = u64::MAX - 20;

/// One chosen transition: the matched segment and the query position
/// right after the span it covers.
#[derive(Clone, Copy, PartialEq, Eq, Structural, Debug)]
pub struct Trace {
    pub ref_seq: RefSeq,
    pub next: u64,
}

/// State of the solver at query position `p` after trying the spans
/// `[p, end]` for `end + 1` in `[p, e)`, in ascending order: the best
/// segment count so far, and the recorded transition.  A candidate
/// overwrites the state when it is strictly better, or when it ties
/// and is forward-oriented.
pub open spec fn fold_state(q: Seq<char>, m: Map<u64, RefSeq>, p: int, e: int) -> (int, Option<
    Trace,
>)
    decreases q.len() - p, 0int, e - p,
{
    if p < 0 || e <= p || e > q.len() {
        (SENTINEL as int, None)
    } else {
        let prev = fold_state(q, m, p, e - 1);
        let h = hash64(q.subrange(p, e));
        if m.contains_key(h) {
            let c = spec_dp(q, m, e) + 1;
            if prev.0 > c || (prev.0 == c && !m[h].reverse) {
                (c, Some(Trace { ref_seq: m[h], next: e as u64 }))
            } else {
                prev
            }
        } else {
            prev
        }
    }
}

/// The minimum number of matched segments needed to cover `q[p..]`,
/// or `SENTINEL` when no cover exists from `p`.
pub open spec fn spec_dp(q: Seq<char>, m: Map<u64, RefSeq>, p: int) -> int
    decreases q.len() - p, 1int, 0int,
{
    if p >= q.len() {
        0
    } else {
        fold_state(q, m, p, q.len() as int).0
    }
}

/// The transition finally recorded at position `p`.
pub open spec fn spec_trace_at(q: Seq<char>, m: Map<u64, RefSeq>, p: int) -> Option<Trace> {
    if p >= q.len() {
        None
    } else {
        fold_state(q, m, p, q.len() as int).1
    }
}

/// Structure of the fold state: a recorded transition points strictly
/// forward, matches an entry of the index, and its count is one more
/// than the best count after the span; no transition means the count
/// is still the sentinel.
pub proof fn lemma_fold_wf(q: Seq<char>, m: Map<u64, RefSeq>, p: int, e: int)
    requires
        0 <= p < q.len(),
        p <= e <= q.len(),
        q.len() <= u64::MAX,
    ensures
        ({
            let st = fold_state(q, m, p, e);
            &&& st.0 <= SENTINEL
            &&& (st.1 is None ==> st.0 == SENTINEL)
            &&& match st.1 {
                Some(t) => {
                    &&& p < t.next <= e
                    &&& m.contains_key(hash64(q.subrange(p, t.next as int)))
                    &&& t.ref_seq == m[hash64(q.subrange(p, t.next as int))]
                    &&& st.0 == spec_dp(q, m, t.next as int) + 1
                    &&& spec_dp(q, m, t.next as int) < SENTINEL
                },
                None => true,
            }
        }),
    decreases e - p,
{
    if e > p {
        lemma_fold_wf(q, m, p, e - 1);
    }
}

/// The best count from `p` is the sentinel or at most the number of
/// positions left.
pub proof fn lemma_dp_range(q: Seq<char>, m: Map<u64, RefSeq>, p: int)
    requires
        0 <= p <= q.len(),
        q.len() <= u64::MAX,
    ensures
        spec_dp(q, m, p) == SENTINEL || (0 <= spec_dp(q, m, p) <= q.len() - p),
    decreases q.len() - p,
{
    if p < q.len() {
        lemma_fold_wf(q, m, p, q.len() as int);
        let st = fold_state(q, m, p, q.len() as int);
        match st.1 {
            Some(t) => {
                lemma_dp_range(q, m, t.next as int);
            },
            None => {},
        }
    }
}

/// Facts about the final state at one query position.
pub proof fn lemma_trace_props(q: Seq<char>, m: Map<u64, RefSeq>, p: int)
    requires
        0 <= p < q.len(),
        q.len() < SENTINEL,
    ensures
        spec_trace_at(q, m, p) is None ==> spec_dp(q, m, p) == SENTINEL,
        match spec_trace_at(q, m, p) {
            Some(t) => {
                &&& p < t.next <= q.len()
                &&& m.contains_key(hash64(q.subrange(p, t.next as int)))
                &&& t.ref_seq == m[hash64(q.subrange(p, t.next as int))]
                &&& spec_dp(q, m, p) == spec_dp(q, m, t.next as int) + 1
                &&& spec_dp(q, m, t.next as int) <= q.len() - t.next
                &&& spec_dp(q, m, p) < SENTINEL
            },
            None => true,
        },
{
    lemma_fold_wf(q, m, p, q.len() as int);
    match spec_trace_at(q, m, p) {
        Some(t) => {
            lemma_dp_range(q, m, t.next as int);
        },
        None => {},
    }
}

/// Trying more spans never worsens the recorded count.
pub proof fn lemma_fold_monotone(q: Seq<char>, m: Map<u64, RefSeq>, p: int, e1: int, e2: int)
    requires
        0 <= p <= e1 <= e2 <= q.len(),
    ensures
        fold_state(q, m, p, e2).0 <= fold_state(q, m, p, e1).0,
    decreases e2 - e1,
{
    if e2 > e1 {
        lemma_fold_monotone(q, m, p, e1, e2 - 1);
    }
}

/// Any single matched span bounds the best count: covering `[p, e]`
/// with one segment and then `q[e+1..]` optimally is a candidate.
pub proof fn lemma_dp_le_cand(q: Seq<char>, m: Map<u64, RefSeq>, p: int, e: int)
    requires
        0 <= p <= e < q.len(),
        m.contains_key(hash64(q.subrange(p, e + 1))),
    ensures
        spec_dp(q, m, p) <= spec_dp(q, m, e + 1) + 1,
{
    let c = spec_dp(q, m, e + 1) + 1;
    assert(fold_state(q, m, p, e + 1).0 <= c);
    lemma_fold_monotone(q, m, p, e + 1, q.len() as int);
}

/// Runs the dynamic program over the query against a built index and
/// returns the back-pointer trace, one entry per query position.
pub fn search_trace(query: &Vec<char>, ref_map: &HashMap<u64, RefSeq>) -> (r: Result<
    Vec<Option<Trace>>,
    MatchError,
>)
    ensures
        match r {
            Ok(tr) => {
                &&& valid_dna(query@)
                &&& tr@.len() == query@.len() + 1
                &&& forall|p: int|
                    0 <= p <= query@.len() ==> tr@[p] == spec_trace_at(query@, ref_map@, p)
            },
            Err(e) => e == MatchError::InvalidSymbol && !valid_dna(query@),
        },
{
    if !crate::dna::check_dna(query) {
        return Err(MatchError::InvalidSymbol);
    }
    let ghost m = ref_map@;
    let query_len = query.len();
    let mut dp: Vec<u64> = Vec::new();
    let mut trace: Vec<Option<Trace>> = Vec::new();
    let mut i: usize = 0;
    while i < query_len
        invariant
            i <= query_len,
            dp@.len() == i,
            trace@.len() == i,
            forall|p: int| 0 <= p < i ==> dp@[p] == SENTINEL,
            forall|p: int| 0 <= p < i ==> trace@[p] is None,
        decreases query_len - i,
    {
        dp.push(SENTINEL);
        trace.push(None);
        i += 1;
    }
    dp.push(SENTINEL);
    trace.push(None);
    dp.set(query_len, 0);

    let mut start: usize = query_len;
    while start > 0
        invariant
            query_len == query@.len(),
            valid_dna(query@),
            m == ref_map@,
            dp@.len() == query_len + 1,
            trace@.len() == query_len + 1,
            start <= query_len,
            forall|p: int| start <= p <= query_len ==> dp@[p] as int == spec_dp(query@, m, p),
            forall|p: int| start <= p <= query_len ==> trace@[p] == spec_trace_at(query@, m, p),
            forall|p: int| 0 <= p < start ==> dp@[p] == SENTINEL && trace@[p] is None,
            forall|p: int| 0 <= p <= query_len ==> dp@[p] <= SENTINEL,
        decreases start,
    {
        start = start - 1;
        let mut hash: u64 = 0;
        let mut end: usize = start;
        proof {
            assert(query@.subrange(start as int, start as int) =~= Seq::<char>::empty());
        }
        while end < query_len
            invariant
                query_len == query@.len(),
                valid_dna(query@),
                m == ref_map@,
                dp@.len() == query_len + 1,
                trace@.len() == query_len + 1,
                start < query_len,
                start <= end <= query_len,
                hash < MOD,
                hash as int == hash_of(query@.subrange(start as int, end as int)),
                forall|p: int| start < p <= query_len ==> dp@[p] as int == spec_dp(query@, m, p),
                forall|p: int|
                    start < p <= query_len ==> trace@[p] == spec_trace_at(query@, m, p),
                forall|p: int| 0 <= p < start ==> dp@[p] == SENTINEL && trace@[p] is None,
                forall|p: int| 0 <= p <= query_len ==> dp@[p] <= SENTINEL,
                (dp@[start as int] as int, trace@[start as int]) == fold_state(
                    query@,
                    m,
                    start as int,
                    end as int,
                ),
            decreases query_len - end,
        {
            let ghost fs_prev = fold_state(query@, m, start as int, end as int);
            let c = query[end];
            hash = hash_step(hash, c);
            proof {
                assert(query@.subrange(start as int, end as int).push(c) =~= query@.subrange(
                    start as int,
                    end as int + 1,
                ));
                lemma_hash_push(query@.subrange(start as int, end as int), c);
                lemma_hash_bounds(query@.subrange(start as int, end as int + 1));
                assert(hash == hash64(query@.subrange(start as int, end as int + 1)));
            }
            match ref_map.get(&hash) {
                Some(seg) => {
                    let cand = dp[end + 1] + 1;
                    proof {
                        assert(dp@[end as int + 1] as int == spec_dp(query@, m, end as int + 1));
                    }
                    if dp[start] > cand || (dp[start] == cand && !seg.reverse) {
                        dp.set(start, cand);
                        trace.set(
                            start,
                            Some(Trace { ref_seq: *seg, next: (end + 1) as u64 }),
                        );
                    }
                },
                None => {},
            }
            proof {
                assert((dp@[start as int] as int, trace@[start as int]) == fold_state(
                    query@,
                    m,
                    start as int,
                    end as int + 1,
                ));
            }
            end += 1;
        }
    }
    Ok(trace)
}

} // verus!
