use alyze::analyze::{AnalysisOptions, Analyzer, ReusableBuffer, TokenizerOptions};
use alyze::features::element::{element_completeness, element_similarity};
use alyze::features::field_match::{find_alternative_segment_from, SegmentEvent};
use alyze::features::greedy::greedy_match;
use alyze::features::text_match::{
    self as text_match, field_index_to_semantic_distance, field_term_match,
    find_closest_in_field_by_semantic_distance, occurrence_counts, query_term_count,
    semantic_distance_to_field_index,
};
use alyze::features::Analyzed;

fn analyzed(text: &str) -> Analyzed {
    let analyzer = Analyzer::new(AnalysisOptions {
        tokenizer: TokenizerOptions::UAX29Word(Default::default()),
        maximum_token_length: None,
        case_sensitive: false,
        stopword_removal: None,
        stemming: None,
        ascii_folding: false,
    });
    Analyzed::from_text(&analyzer, &mut ReusableBuffer::new(), text)
}

fn approx_eq(a: f64, b: f64) {
    assert!((a - b).abs() < 1e-9, "expected {b}, got {a}");
}

/// The per-gap proximity score: 1 at distance 1, down to 0 from distance 9.
fn proximity_score(dist: usize) -> f64 {
    if dist >= 9 {
        0.0
    } else {
        let d = (dist as f64 - 1.0) / 8.0;
        1.0 - d * d
    }
}

#[test]
fn features_test_element_completeness() {
    let c = element_completeness(
        &analyzed("quick brown fox"),
        &analyzed("the the quick red fox jumps"),
    )
    .unwrap();
    let query_completeness = c.overlapping_tokens as f64 / c.query_unique_tokens as f64;
    let field_completeness = c.overlapping_tokens as f64 / c.document_tokens as f64;
    approx_eq(field_completeness, 2.0 / 6.0);
    approx_eq(query_completeness, 2.0 / 3.0);
    approx_eq(
        0.5 * field_completeness + 0.5 * query_completeness,
        0.5 * (2.0 / 6.0) + 0.5 * (2.0 / 3.0),
    );
}

#[test]
fn features_test_element_similarity() {
    let m = element_similarity(
        &analyzed("quick brown fox"),
        &analyzed("the quick red fox jumps"),
    )
    .unwrap();
    // "quick" and "fox" match at doc positions 1 and 3.
    assert_eq!(m.matched, vec![(1, 0), (3, 2)]);
    assert_eq!(m.gaps, vec![2]);
    let pairs = (m.matched.len() - 1) as f64;
    let proximity = m.gaps.iter().map(|&g| proximity_score(g)).sum::<f64>() / pairs;
    let order = m.num_in_order as f64 / pairs;
    let query_coverage = m.matched.len() as f64 / m.query_unique_tokens as f64;
    let field_coverage = m.matched.len() as f64 / m.num_tokens as f64;
    approx_eq(proximity, 1.0 - (1.0 / 8.0_f64).powi(2));
    approx_eq(order, 1.0);
    approx_eq(query_coverage, 2.0 / 3.0);
    approx_eq(field_coverage, 2.0 / 5.0);
}

#[test]
fn element_features_of_empty_query_are_none() {
    assert!(element_completeness(&analyzed(""), &analyzed("a b")).is_none());
    assert!(element_completeness(&analyzed("a"), &analyzed("")).is_none());
    assert!(element_similarity(&analyzed(""), &analyzed("a b")).is_none());
    assert!(element_similarity(&analyzed("x"), &analyzed("a b")).is_none());
}

#[test]
fn analyzed_groups_positions_by_text() {
    let a = analyzed("b a b c");
    assert_eq!(a.total_num_tokens(), 4);
    assert_eq!(a.num_unique_tokens(), 3);
    assert_eq!(a.ordered_tokens(), vec!["b", "a", "b", "c"]);
    assert_eq!(a.token_at_position(2), Some("b"));
    assert_eq!(a.token_at_position(1), Some("a"));
    assert_eq!(a.token_at_position(4), None);
}

#[test]
fn lib_test_element_completeness() {
    let c = text_match::element_completeness(
        &analyzed("quick brown fox"),
        &analyzed("the the quick red fox jumps"),
    )
    .unwrap();
    let query_completeness = c.matched as f64 / c.query_terms as f64;
    let field_completeness = c.matched.min(c.field_length) as f64 / c.field_length as f64;
    approx_eq(field_completeness, 2.0 / 6.0);
    approx_eq(query_completeness, 2.0 / 3.0);
    approx_eq(
        0.5 * field_completeness + 0.5 * query_completeness,
        0.5 * (2.0 / 6.0) + 0.5 * (2.0 / 3.0),
    );
}

#[test]
fn test_element_completeness_duplicate_query_terms() {
    let c = text_match::element_completeness(
        &analyzed("repeat repeat term"),
        &analyzed("repeat term and repeat term again"),
    )
    .unwrap();
    assert_eq!((c.matched, c.query_terms, c.field_length), (3, 3, 6));
    let query_completeness = c.matched as f64 / c.query_terms as f64;
    let field_completeness = c.matched.min(c.field_length) as f64 / c.field_length as f64;
    approx_eq(query_completeness, 3.0 / 3.0);
    approx_eq(field_completeness, 3.0 / 6.0);
    approx_eq(0.5 * field_completeness + 0.5 * query_completeness, 0.5 * (3.0 / 6.0) + 0.5 * 1.0);
}

#[test]
fn lib_test_element_similarity() {
    let q = analyzed("quick brown fox");
    let m = greedy_match(&q, &analyzed("the quick red fox jumps")).unwrap();
    assert_eq!(m.matched, vec![(1, 0), (3, 2)]);
    let pairs = (m.matched.len() - 1) as f64;
    let proximity = m.gaps.iter().map(|&g| proximity_score(g)).sum::<f64>() / pairs;
    let order = m.num_in_order as f64 / pairs;
    let query_coverage = m.matched.len() as f64 / m.query_terms as f64;
    let field_coverage = m.matched.len().min(m.field_length) as f64 / m.field_length as f64;
    approx_eq(proximity, 1.0 - (1.0 / 8.0_f64).powi(2));
    approx_eq(order, 1.0);
    approx_eq(query_coverage, 2.0 / 3.0);
    approx_eq(field_coverage, 2.0 / 5.0);
}

#[test]
fn test_text_similarity_matches_element_similarity() {
    let q = analyzed("quick brown fox");
    let d = analyzed("the quick red fox jumps");
    let a = greedy_match(&q, &d).unwrap();
    let b = greedy_match(&q, &d).unwrap();
    assert_eq!(a.matched, b.matched);
    assert_eq!(a.gaps, b.gaps);
    assert_eq!(a.num_in_order, b.num_in_order);
}

#[test]
fn greedy_match_takes_the_next_occurrence_after_the_last_match() {
    // candidates: "a" at query 0 and 2, "b" at query 1; the document has
    // "b" at 0 and 2, "a" at 1 and 3.
    let m = greedy_match(&analyzed("a b a"), &analyzed("b a b a")).unwrap();
    assert_eq!(m.matched, vec![(0, 1), (1, 0), (3, 2)]);
    assert_eq!(m.gaps, vec![1, 2]);
    assert_eq!(m.num_in_order, 1);
    assert_eq!(m.field_length, 4);
    assert_eq!(m.query_terms, 3);
    assert!(greedy_match(&analyzed("zebra"), &analyzed("b a b a")).is_none());
}

#[test]
fn test_matches() {
    assert!(text_match::matches(&analyzed("quick fox"), &analyzed("the quick red fox")));
    assert!(!text_match::matches(&analyzed("zebra"), &analyzed("the quick red fox")));
}

#[test]
fn test_field_term_match() {
    let q = analyzed("alpha beta");
    let d = analyzed("beta alpha beta gamma");
    let t0 = field_term_match(&q, &d, 0).unwrap();
    assert_eq!((t0.first_position, t0.occurrences), (1, 1));
    let t1 = field_term_match(&q, &d, 1).unwrap();
    assert_eq!((t1.first_position, t1.occurrences), (0, 2));
    assert!(field_term_match(&q, &d, 2).is_none());
    assert!(field_term_match(&analyzed("delta"), &d, 0).is_none());
}

#[test]
fn test_query_term_count() {
    assert_eq!(query_term_count(&analyzed("a b c")), 3);
    assert_eq!(query_term_count(&analyzed("a a b")), 3);
}

#[test]
fn field_match_occurrence_counts() {
    let q = analyzed("quick brown fox");
    let d = analyzed("the quick red fox jumps");
    let query = q.ordered_tokens();
    let field = d.ordered_tokens();
    let o = occurrence_counts(&query, &field).unwrap();
    assert_eq!(o.terms, vec!["fox", "quick"]);
    assert_eq!(o.counts, vec![1, 1]);
    assert_eq!(o.divider, 5);
    assert_eq!(o.max_occurrence, 5);
    let occurrence: f64 = o.counts.iter().map(|&c| c as f64 / o.divider as f64).sum();
    approx_eq(occurrence, 0.4);
    assert!(occurrence_counts(&["zebra"], &field).is_none());
}

#[test]
fn occurrence_counts_stop_at_the_limit() {
    let field: Vec<&str> = std::iter::repeat("a").take(150).collect();
    let o = occurrence_counts(&["a", "a"], &field).unwrap();
    assert_eq!(o.terms, vec!["a"]);
    assert_eq!(o.counts, vec![100]);
    assert_eq!(o.divider, 100);
    assert_eq!(o.max_occurrence, 100);
}

#[test]
fn semantic_distances_walk_near_then_far() {
    // field of 30 tokens, starting at 15: 15..24, then 14 down to 5,
    // then 25..29, then 4 down to 0.
    let expect = [
        (0, 15),
        (9, 24),
        (10, 14),
        (19, 5),
        (20, 25),
        (24, 29),
        (25, 4),
        (29, 0),
    ];
    for (d, j) in expect {
        assert_eq!(semantic_distance_to_field_index(d, 15, 30), j);
        assert_eq!(field_index_to_semantic_distance(j, 15, 30), d);
    }
    assert_eq!(semantic_distance_to_field_index(-1, 15, 30), -1);
    assert_eq!(field_index_to_semantic_distance(-1, 15, 30), -1);
    for d in 0..30 {
        let j = semantic_distance_to_field_index(d, 3, 30);
        assert_eq!(field_index_to_semantic_distance(j, 3, 30), d);
    }
}

#[test]
fn closest_in_field_by_semantic_distance() {
    let query = ["x", "y"];
    let field = ["y", "x", "z", "x"];
    // from index 2: distance 0 is index 2, 1 is index 3 ("x").
    assert_eq!(find_closest_in_field_by_semantic_distance(&query, &field, 0, 2, 0), 1);
    // from index 2, "y" is at index 0: distances 0,1 -> 2,3; 2 -> 1; 3 -> 0.
    assert_eq!(find_closest_in_field_by_semantic_distance(&query, &field, 1, 2, 0), 3);
    assert_eq!(find_closest_in_field_by_semantic_distance(&query, &field, 1, 2, 4), -1);
}

#[test]
fn segment_search_reports_matches_runs_and_gaps() {
    let query = ["quick", "brown", "fox"];
    let field = ["the", "quick", "red", "fox", "jumps"];
    let (found, events) = find_alternative_segment_from(&query, &field, 0, 0, 0);
    assert!(found);
    assert_eq!(
        events,
        vec![
            SegmentEvent::SegmentStart(1),
            SegmentEvent::Explored(2),
            SegmentEvent::Match(0),
            SegmentEvent::SequenceStart(1),
            SegmentEvent::SequenceEnd(1),
            SegmentEvent::InSegment { i: 2, j: 3, previous_j: 1, previous_i: 0 },
            SegmentEvent::Match(2),
            SegmentEvent::SequenceStart(3),
            SegmentEvent::SequenceEnd(3),
            SegmentEvent::SegmentEnd { i: 2, j: 3 },
        ]
    );
    // Explored up to distance 2 already: nothing more from this start point.
    let (found, events) = find_alternative_segment_from(&query, &field, 0, 0, 2);
    assert!(!found);
    assert!(events.is_empty());
}

#[test]
fn segment_search_skips_missing_query_tokens() {
    let query = ["zebra", "fox"];
    let field = ["the", "quick", "red", "fox", "jumps"];
    let (found, events) = find_alternative_segment_from(&query, &field, 0, 0, 0);
    assert!(found);
    assert_eq!(
        events,
        vec![
            SegmentEvent::SkipQueryToken,
            SegmentEvent::SegmentStart(3),
            SegmentEvent::Explored(4),
            SegmentEvent::Match(1),
            SegmentEvent::SequenceStart(3),
            SegmentEvent::SequenceEnd(3),
            SegmentEvent::SegmentEnd { i: 1, j: 3 },
        ]
    );
    let (found, events) = find_alternative_segment_from(&["zebra"], &field, 0, 0, 0);
    assert!(!found);
    assert_eq!(events, vec![SegmentEvent::SkipQueryToken]);
}
