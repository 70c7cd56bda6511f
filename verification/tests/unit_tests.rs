use std::collections::HashMap;

use seqtile::MatchError;
use seqtile::cover::parse_trace;
use seqtile::dna::{check_dna, dna_to_num, reverse_dna};
use seqtile::index::{RefSeq, insert_subseq};
use seqtile::solver::{Trace, search_trace};

fn chars(s: &str) -> Vec<char> {
    s.chars().collect()
}

#[test]
fn symbol_codes_are_one_to_four() {
    assert_eq!(dna_to_num('A'), 1);
    assert_eq!(dna_to_num('T'), 2);
    assert_eq!(dna_to_num('C'), 3);
    assert_eq!(dna_to_num('G'), 4);
}

#[test]
fn check_dna_accepts_only_the_alphabet() {
    assert!(check_dna(&chars("ATCG")));
    assert!(check_dna(&chars("")));
    assert!(!check_dna(&chars("ATCN")));
    assert!(!check_dna(&chars("atcg")));
}

#[test]
fn reverse_dna_reverses_and_complements() {
    assert_eq!(reverse_dna(&chars("ATCG")), chars("CGAT"));
    assert_eq!(reverse_dna(&chars("AAAA")), chars("TTTT"));
    assert_eq!(reverse_dna(&chars("")), chars(""));
    // Applying it twice gives the sequence back.
    assert_eq!(reverse_dna(&reverse_dna(&chars("GATTACA"))), chars("GATTACA"));
}

#[test]
fn search_trace_records_whole_query_match() {
    let mut map: HashMap<u64, RefSeq> = HashMap::new();
    insert_subseq(&chars("ATCG"), &mut map, false).unwrap();
    let trace = search_trace(&chars("ATCG"), &map).unwrap();
    assert_eq!(trace.len(), 5);
    assert_eq!(
        trace[0],
        Some(Trace { ref_seq: RefSeq { start: 0, end: 3, reverse: false }, next: 4 })
    );
    assert_eq!(trace[4], None);
}

#[test]
fn search_trace_rejects_invalid_query() {
    let map: HashMap<u64, RefSeq> = HashMap::new();
    assert_eq!(search_trace(&chars("AB"), &map), Err(MatchError::InvalidSymbol));
}

#[test]
fn search_trace_leaves_unreachable_positions_empty() {
    let mut map: HashMap<u64, RefSeq> = HashMap::new();
    insert_subseq(&chars("AT"), &mut map, false).unwrap();
    let trace = search_trace(&chars("GG"), &map).unwrap();
    assert_eq!(trace, vec![None, None, None]);
}

#[test]
fn parse_trace_walks_the_recorded_transitions() {
    let mut map: HashMap<u64, RefSeq> = HashMap::new();
    insert_subseq(&chars("ATCG"), &mut map, false).unwrap();
    let trace = search_trace(&chars("ATAT"), &map).unwrap();
    let segs = parse_trace(trace, 4).unwrap();
    assert_eq!(
        segs,
        vec![
            RefSeq { start: 0, end: 1, reverse: false },
            RefSeq { start: 0, end: 1, reverse: false },
        ]
    );
}

#[test]
fn parse_trace_reports_missing_cover() {
    let mut map: HashMap<u64, RefSeq> = HashMap::new();
    insert_subseq(&chars("AT"), &mut map, false).unwrap();
    let trace = search_trace(&chars("GG"), &map).unwrap();
    assert_eq!(parse_trace(trace, 2), Err(MatchError::NoCoverFound));
}
