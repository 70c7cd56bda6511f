use std::collections::HashMap;

use seqtile::MatchError;
use seqtile::cover::find_min_cover;
use seqtile::index::{RefSeq, insert_subseq};

fn chars(s: &str) -> Vec<char> {
    s.chars().collect()
}

fn rev_comp_str(s: &str) -> String {
    s.chars()
        .rev()
        .map(|c| match c {
            'A' => 'T',
            'T' => 'A',
            'C' => 'G',
            'G' => 'C',
            other => other,
        })
        .collect()
}

/// Smallest number of spans tiling `query` so that every span occurs in
/// `reference` forward, or reverse-complemented when enabled; `None`
/// when no tiling exists.
fn brute_force_min(reference: &str, query: &str, include_rc: bool) -> Option<usize> {
    if query.is_empty() {
        return Some(0);
    }
    let rc = rev_comp_str(reference);
    let mut best: Option<usize> = None;
    for cut in 1..=query.len() {
        let span = &query[..cut];
        let hit = reference.contains(span) || (include_rc && rc.contains(span));
        if hit {
            if let Some(rest) = brute_force_min(reference, &query[cut..], include_rc) {
                let total = rest + 1;
                if best.map_or(true, |b| total < b) {
                    best = Some(total);
                }
            }
        }
    }
    best
}

#[test]
fn scenario_forward_identity() {
    let result = find_min_cover(&chars("ATCG"), &chars("ATCG"), false).unwrap();
    assert_eq!(result, vec![RefSeq { start: 0, end: 3, reverse: false }]);
}

#[test]
fn scenario_reverse_complement_whole() {
    let result = find_min_cover(&chars("ATCG"), &chars("CGAT"), true).unwrap();
    assert_eq!(result, vec![RefSeq { start: 0, end: 3, reverse: true }]);
}

#[test]
fn scenario_no_cover() {
    let result = find_min_cover(&chars("AT"), &chars("GG"), false);
    assert_eq!(result, Err(MatchError::NoCoverFound));
}

#[test]
fn scenario_invalid_symbol() {
    let result = find_min_cover(&chars("A"), &chars("N"), false);
    assert_eq!(result, Err(MatchError::InvalidSymbol));
}

#[test]
fn invalid_symbol_in_reference() {
    let result = find_min_cover(&chars("AXCG"), &chars("A"), true);
    assert_eq!(result, Err(MatchError::InvalidSymbol));
}

#[test]
fn empty_query_is_covered_by_nothing() {
    let result = find_min_cover(&chars("ATCG"), &chars(""), true).unwrap();
    assert_eq!(result, vec![]);
    let result = find_min_cover(&chars(""), &chars(""), true).unwrap();
    assert_eq!(result, vec![]);
}

#[test]
fn empty_reference_covers_no_query() {
    let result = find_min_cover(&chars(""), &chars("A"), true);
    assert_eq!(result, Err(MatchError::NoCoverFound));
}

#[test]
fn tie_prefers_later_forward_candidate() {
    // dp from position 0 ties between the spans "A" and "AT"; the
    // later forward candidate overwrites the earlier one.
    let result = find_min_cover(&chars("ATCCTG"), &chars("ATG"), false).unwrap();
    assert_eq!(
        result,
        vec![
            RefSeq { start: 0, end: 1, reverse: false },
            RefSeq { start: 5, end: 5, reverse: false },
        ]
    );
}

#[test]
fn mixed_orientations_in_one_cover() {
    // "GA" only matches reverse-complemented, "TC" matches forward.
    let result = find_min_cover(&chars("TC"), &chars("GATC"), true).unwrap();
    assert_eq!(
        result,
        vec![
            RefSeq { start: 0, end: 1, reverse: true },
            RefSeq { start: 0, end: 1, reverse: false },
        ]
    );
}

#[test]
fn full_coverage_lengths_sum_to_query_len() {
    let cases: [(&str, &str, bool); 4] = [
        ("ATCG", "ATCG", false),
        ("ATCG", "CGAT", true),
        ("ATCCTG", "ATG", false),
        ("TC", "GATC", true),
    ];
    for (reference, query, include_rc) in cases {
        let result = find_min_cover(&chars(reference), &chars(query), include_rc).unwrap();
        let total: u64 = result.iter().map(|seg| seg.end - seg.start + 1).sum();
        assert_eq!(total as usize, query.len());
    }
}

#[test]
fn contiguity_lengths_partition_query() {
    let result = find_min_cover(&chars("TC"), &chars("GATC"), true).unwrap();
    let mut pos: u64 = 0;
    for seg in &result {
        pos += seg.end - seg.start + 1;
    }
    assert_eq!(pos, 4);
}

#[test]
fn round_trip_forward_segments_equal_query_spans() {
    let reference = "ATCCTG";
    let query = "ATG";
    let result = find_min_cover(&chars(reference), &chars(query), false).unwrap();
    let mut pos: usize = 0;
    for seg in &result {
        let len = (seg.end - seg.start + 1) as usize;
        let span = &query[pos..pos + len];
        assert!(!seg.reverse);
        assert_eq!(&reference[seg.start as usize..=seg.end as usize], span);
        pos += len;
    }
    assert_eq!(pos, query.len());
}

#[test]
fn round_trip_reverse_segment_equals_span_reverse_complement() {
    let reference = "ATCG";
    let query = "CGAT";
    let result = find_min_cover(&chars(reference), &chars(query), true).unwrap();
    assert_eq!(result.len(), 1);
    let seg = &result[0];
    assert!(seg.reverse);
    let sub = &reference[seg.start as usize..=seg.end as usize];
    assert_eq!(sub, rev_comp_str(query));
}

#[test]
fn minimality_matches_brute_force() {
    let cases: [(&str, &str, bool); 6] = [
        ("ATCCTG", "ATG", false),
        ("ATCG", "ATCGATCG", false),
        ("TC", "GATC", true),
        ("ACGT", "TGCA", true),
        ("AATT", "ATTA", false),
        ("GC", "GCGCGC", false),
    ];
    for (reference, query, include_rc) in cases {
        let expected = brute_force_min(reference, query, include_rc);
        let got = find_min_cover(&chars(reference), &chars(query), include_rc);
        match expected {
            Some(count) => assert_eq!(got.unwrap().len(), count),
            None => assert_eq!(got, Err(MatchError::NoCoverFound)),
        }
    }
}

#[test]
fn determinism_two_runs_agree() {
    let reference = chars("ATCCTG");
    let query = chars("ATGATG");
    let first = find_min_cover(&reference, &query, true);
    let second = find_min_cover(&reference, &query, true);
    assert_eq!(first, second);
}

#[test]
fn index_first_write_wins_keeps_earliest_start() {
    let mut map: HashMap<u64, RefSeq> = HashMap::new();
    insert_subseq(&chars("AA"), &mut map, false).unwrap();
    // hash of "A" is its code, 1: the entry at position 0 is kept.
    assert_eq!(map.get(&1), Some(&RefSeq { start: 0, end: 0, reverse: false }));
}

#[test]
fn index_keeps_forward_entry_over_reverse() {
    let mut map: HashMap<u64, RefSeq> = HashMap::new();
    insert_subseq(&chars("AT"), &mut map, false).unwrap();
    insert_subseq(&chars("AT"), &mut map, true).unwrap();
    // The reverse complement of "AT" is "AT" again: every reverse
    // insertion finds its hash taken, so forward entries survive.
    assert_eq!(map.get(&1), Some(&RefSeq { start: 0, end: 0, reverse: false }));
    // hash of "AT" is 1 * 5 + 2.
    assert_eq!(map.get(&7), Some(&RefSeq { start: 0, end: 1, reverse: false }));
    assert_eq!(map.get(&2), Some(&RefSeq { start: 1, end: 1, reverse: false }));
}

#[test]
fn index_rejects_invalid_reference_and_leaves_map_unchanged() {
    let mut map: HashMap<u64, RefSeq> = HashMap::new();
    assert_eq!(insert_subseq(&chars("AZ"), &mut map, false), Err(MatchError::InvalidSymbol));
    assert!(map.is_empty());
}
