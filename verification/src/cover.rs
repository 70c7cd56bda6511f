//! Reconstruction of the minimum cover from the back-pointer trace,
//! and the whole pipeline in one call.

use vstd::prelude::*;
use std::collections::HashMap;
use crate::MatchError;
use crate::dna::valid_dna;
use crate::index::{RefSeq, built_index};
use crate::solver::{Trace, spec_trace_at, search_trace, lemma_fold_wf};

verus! {

broadcast use vstd::std_specs::hash::group_hash_axioms;

/// Every recorded transition points strictly forward and stays within
/// the query.
pub open spec fn wf_trace(tr: Seq<Option<Trace>>, qlen: int) -> bool {
    &&& tr.len() == qlen + 1
    &&& forall|p: int|
        0 <= p <= qlen ==> match #[trigger] tr[p] {
            Some(t) => p < t.next <= qlen,
            None => true,
        }
}

/// The ordered segments read off the trace from position `pos`:
/// `None` as soon as the walk hits a missing entry.
pub open spec fn spec_walk(tr: Seq<Option<Trace>>, qlen: int, pos: int) -> Option<Seq<RefSeq>>
    decreases qlen - pos,
{
    if pos < 0 || pos >= qlen {
        if pos == qlen {
            Some(Seq::empty())
        } else {
            None
        }
    } else {
        match tr[pos] {
            None => None,
            Some(t) => if pos < t.next <= qlen {
                match spec_walk(tr, qlen, t.next as int) {
                    None => None,
                    Some(rest) => Some(seq![t.ref_seq] + rest),
                }
            } else {
                None
            },
        }
    }
}

/// The query positions the walk visits, ending at `qlen`.
pub open spec fn walk_cuts(tr: Seq<Option<Trace>>, qlen: int, pos: int) -> Seq<int>
    decreases qlen - pos,
{
    if pos < 0 || pos >= qlen {
        seq![qlen]
    } else {
        match tr[pos] {
            None => seq![qlen],
            Some(t) => if pos < t.next <= qlen {
                seq![pos] + walk_cuts(tr, qlen, t.next as int)
            } else {
                seq![qlen]
            },
        }
    }
}

/// Walks the trace from position zero and returns the ordered matched
/// segments, or `NoCoverFound` where the trace has no entry.
pub fn parse_trace(trace: Vec<Option<Trace>>, query_len: usize) -> (r: Result<
    Vec<RefSeq>,
    MatchError,
>)
    requires
        wf_trace(trace@, query_len as int),
    ensures
        match r {
            Ok(segs) => spec_walk(trace@, query_len as int, 0) == Some(segs@),
            Err(e) => e == MatchError::NoCoverFound && spec_walk(trace@, query_len as int, 0)
                is None,
        },
{
    let ghost qlen = query_len as int;
    let mut result: Vec<RefSeq> = Vec::new();
    let mut pos: usize = 0;
    while pos < query_len
        invariant
            wf_trace(trace@, qlen),
            qlen == query_len as int,
            pos <= query_len,
            match spec_walk(trace@, qlen, pos as int) {
                Some(rest) => spec_walk(trace@, qlen, 0) == Some(result@ + rest),
                None => spec_walk(trace@, qlen, 0) is None,
            },
        decreases query_len - pos,
    {
        let entry = trace[pos];
        match entry {
            None => {
                return Err(MatchError::NoCoverFound);
            },
            Some(t) => {
                let ghost old_pos = pos as int;
                let ghost old_result = result@;
                result.push(t.ref_seq);
                pos = t.next as usize;
                proof {
                    match spec_walk(trace@, qlen, t.next as int) {
                        Some(rest) => {
                            assert(spec_walk(trace@, qlen, old_pos) == Some(
                                seq![t.ref_seq] + rest,
                            ));
                            assert(old_result + (seq![t.ref_seq] + rest) =~= result@ + rest);
                        },
                        None => {},
                    }
                }
            },
        }
    }
    proof {
        assert(spec_walk(trace@, qlen, pos as int) == Some(Seq::<RefSeq>::empty()));
        assert(result@ + Seq::<RefSeq>::empty() =~= result@);
    }
    Ok(result)
}

/// The spec-level trace array of a query against an index.
pub open spec fn spec_trace_seq(q: Seq<char>, m: Map<u64, RefSeq>) -> Seq<Option<Trace>> {
    Seq::new(q.len() + 1, |p: int| spec_trace_at(q, m, p))
}

/// The pipeline's answer on valid inputs: the segments read off the
/// dynamic program's trace, or `None` when the query has no cover.
pub open spec fn spec_cover(q: Seq<char>, m: Map<u64, RefSeq>) -> Option<Seq<RefSeq>> {
    spec_walk(spec_trace_seq(q, m), q.len() as int, 0)
}

/// The result of `find_min_cover` with the segment vector as a sequence.
pub open spec fn view_result(r: Result<Vec<RefSeq>, MatchError>) -> Result<Seq<RefSeq>, MatchError> {
    match r {
        Ok(v) => Ok(v@),
        Err(e) => Err(e),
    }
}

/// Everything `find_min_cover` promises, as one predicate of the
/// inputs and the returned value: `InvalidSymbol` exactly on an input
/// outside the alphabet, otherwise the walked cover or `NoCoverFound`
/// exactly when the walk fails.
pub open spec fn outcome_of(
    refr: Seq<char>,
    q: Seq<char>,
    include_reverse_complement: bool,
    r: Result<Seq<RefSeq>, MatchError>,
) -> bool {
    if !valid_dna(refr) || !valid_dna(q) {
        r == Result::<Seq<RefSeq>, MatchError>::Err(MatchError::InvalidSymbol)
    } else {
        match spec_cover(q, built_index(refr, include_reverse_complement)) {
            Some(segs) => r == Result::<Seq<RefSeq>, MatchError>::Ok(segs),
            None => r == Result::<Seq<RefSeq>, MatchError>::Err(MatchError::NoCoverFound),
        }
    }
}

/// Indexes the reference, runs the dynamic program over the query and
/// walks the trace: the ordered minimal tiling of the whole query, or
/// the error that stopped it.
pub fn find_min_cover(
    reference: &Vec<char>,
    query: &Vec<char>,
    include_reverse_complement: bool,
) -> (r: Result<Vec<RefSeq>, MatchError>)
    ensures
        outcome_of(reference@, query@, include_reverse_complement, view_result(r)),
{
    let mut map: HashMap<u64, RefSeq> = HashMap::new();
    match crate::index::insert_subseq(reference, &mut map, false) {
        Err(e) => {
            return Err(e);
        },
        Ok(()) => {},
    }
    if include_reverse_complement {
        match crate::index::insert_subseq(reference, &mut map, true) {
            Err(e) => {
                return Err(e);
            },
            Ok(()) => {},
        }
    }
    proof {
        assert(map@ == built_index(reference@, include_reverse_complement));
    }
    let trace = match search_trace(query, &map) {
        Err(e) => {
            return Err(e);
        },
        Ok(t) => t,
    };
    let query_len = query.len();
    proof {
        let q = query@;
        let m = map@;
        assert(q.len() == query_len);
        assert forall|p: int| 0 <= p <= q.len() implies match #[trigger] trace@[p] {
            Some(t) => p < t.next <= q.len(),
            None => true,
        } by {
            if p < q.len() {
                lemma_fold_wf(q, m, p, q.len() as int);
            }
        }
        assert(wf_trace(trace@, q.len() as int));
        assert(trace@ =~= spec_trace_seq(q, m));
    }
    match parse_trace(trace, query_len) {
        Ok(segs) => Ok(segs),
        Err(e) => Err(e),
    }
}

} // verus!
