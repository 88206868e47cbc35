//! The segment search of the field-match features: from a start point, walk
//! the query tokens, find each in the field by semantic distance from the
//! last match, and report what the metrics see (matches, runs of
//! consecutive matches, gaps, segment starts and ends). The metrics
//! themselves, and which segmentation is kept, are the caller's.
use vstd::prelude::*;

use crate::features::text_match::{
    closest_distance, distance_to_index, field_index_to_semantic_distance,
    find_closest_in_field_by_semantic_distance, index_to_distance, law_semantic_distance_inverse,
    semantic_distance_to_field_index, texts_of, PROXIMITY_LIMIT,
};

verus! {

/// What the segment search reports, in order.
#[derive(Clone, Copy, Debug, PartialEq, Eq, Structural)]
pub enum SegmentEvent {
    /// A run of consecutive matches ended at field index `j`.
    SequenceEnd(i32),
    /// A segment starts with a match at field index `j`.
    SegmentStart(i32),
    /// Query token `i` matched at field index `j` inside the segment, after
    /// query token `previous_i` at `previous_j`.
    InSegment { i: i32, j: i32, previous_j: i32, previous_i: i32 },
    /// Query token `i` matched.
    Match(i32),
    /// A run of consecutive matches starts at field index `j`.
    SequenceStart(i32),
    /// The segment ended with query token `i` at field index `j`.
    SegmentEnd { i: i32, j: i32 },
    /// The start point skips a query token that the field lacks.
    SkipQueryToken,
    /// The start point has now been explored up to this semantic distance.
    Explored(i32),
}

/// The segment search from query token `i` on, the last match being query
/// token `pi` at field index `pj`, a run of consecutive matches `open` or
/// not, no match yet in the segment where `first`, and `explored` the
/// semantic distance to search from; `zero_j` is where the start point
/// measures distances from. Gives whether a segment was found and what is
/// reported.
pub open spec fn scan(
    q: Seq<Seq<char>>,
    f: Seq<Seq<char>>,
    zero_j: int,
    i: int,
    pi: int,
    pj: int,
    open: bool,
    first: bool,
    explored: int,
) -> (bool, Seq<SegmentEvent>)
    decreases q.len() - i,
{
    if i >= q.len() {
        let tail = if open {
            seq![SegmentEvent::SequenceEnd(pj as i32)]
        } else {
            Seq::empty()
        };
        if first {
            (false, tail)
        } else {
            (true, tail.push(SegmentEvent::SegmentEnd { i: (q.len() - 1) as i32, j: pj as i32 }))
        }
    } else {
        let n = f.len() as int;
        let j = distance_to_index(closest_distance(q, f, i, pj, explored), pj, n);
        if j == -1 && explored > 0 && first {
            (false, Seq::empty())
        } else {
            let ends = open && (j == -1 || j != pj + 1);
            let e1 = if ends {
                seq![SegmentEvent::SequenceEnd(pj as i32)]
            } else {
                Seq::empty()
            };
            let open1 = open && !ends;
            if !first && (j - pj >= PROXIMITY_LIMIT || pj - j >= PROXIMITY_LIMIT) {
                (true, e1.push(SegmentEvent::SegmentEnd { i: (i - 1) as i32, j: pj as i32 }))
            } else {
                let e2 = if first {
                    if j != -1 {
                        seq![
                            SegmentEvent::SegmentStart(j as i32),
                            SegmentEvent::Explored((index_to_distance(j, zero_j, n) + 1) as i32),
                        ]
                    } else {
                        seq![SegmentEvent::SkipQueryToken]
                    }
                } else if j != -1 {
                    seq![
                        SegmentEvent::InSegment {
                            i: i as i32,
                            j: j as i32,
                            previous_j: pj as i32,
                            previous_i: pi as i32,
                        },
                    ]
                } else {
                    Seq::empty()
                };
                let e3 = if j != -1 {
                    seq![SegmentEvent::Match(i as i32)]
                } else {
                    Seq::empty()
                };
                let e4 = if j != -1 && !open1 {
                    seq![SegmentEvent::SequenceStart(j as i32)]
                } else {
                    Seq::empty()
                };
                let rest = scan(
                    q,
                    f,
                    zero_j,
                    i + 1,
                    if j >= 0 {
                        i
                    } else {
                        pi
                    },
                    if j >= 0 {
                        j
                    } else {
                        pj
                    },
                    open1 || j != -1,
                    first && j == -1,
                    if j != -1 {
                        1
                    } else {
                        0
                    },
                );
                (rest.0, e1 + e2 + e3 + e4 + rest.1)
            }
        }
    }
}

/// The segment search from a start point at query token `start_i` whose
/// last match was at field index `zero_j`, searching from semantic distance
/// `explored`: whether a segment was found, and what it reports.
#[verifier::rlimit(60)]
pub fn find_alternative_segment_from(
    query: &[&str],
    field: &[&str],
    start_i: i32,
    zero_j: i32,
    explored: i32,
) -> (r: (bool, Vec<SegmentEvent>))
    requires
        query@.len() <= i32::MAX,
        field@.len() < i32::MAX,
        0 <= start_i,
        0 <= zero_j <= field@.len(),
        0 <= explored,
    ensures
        r.0 == scan(
            texts_of(query@),
            texts_of(field@),
            zero_j as int,
            start_i as int,
            -1,
            zero_j as int,
            false,
            true,
            explored as int,
        ).0,
        r.1@ == scan(
            texts_of(query@),
            texts_of(field@),
            zero_j as int,
            start_i as int,
            -1,
            zero_j as int,
            false,
            true,
            explored as int,
        ).1,
        within_proximity(r.1@),
{
    let ghost q = texts_of(query@);
    let ghost f = texts_of(field@);
    let ghost whole = scan(q, f, zero_j as int, start_i as int, -1, zero_j as int, false, true, explored as int);
    proof {
        law_segment_within_proximity(q, f, start_i as int, zero_j as int, explored as int);
    }
    let query_len = query.len() as i32;
    let field_len = field.len() as i32;
    let mut events: Vec<SegmentEvent> = Vec::new();
    let mut sde = explored;
    let mut previous_i: i32 = -1;
    let mut previous_j = zero_j;
    let mut has_open_sequence = false;
    let mut is_first = true;
    let mut i = start_i;
    proof {
        assert(events@ + whole.1 =~= whole.1);
    }
    while i < query_len
        invariant
            q == texts_of(query@),
            f == texts_of(field@),
            query_len == query@.len(),
            field_len == field@.len(),
            field_len < i32::MAX,
            0 <= zero_j <= field_len,
            0 <= start_i <= i,
            -1 <= previous_i < i,
            0 <= previous_j <= field_len,
            0 <= sde,
            !is_first ==> i > start_i,
            whole == scan(q, f, zero_j as int, start_i as int, -1, zero_j as int, false, true, explored as int),
            within_proximity(whole.1),
            whole.0 == scan(
                q,
                f,
                zero_j as int,
                i as int,
                previous_i as int,
                previous_j as int,
                has_open_sequence,
                is_first,
                sde as int,
            ).0,
            whole.1 == events@ + scan(
                q,
                f,
                zero_j as int,
                i as int,
                previous_i as int,
                previous_j as int,
                has_open_sequence,
                is_first,
                sde as int,
            ).1,
        decreases query_len - i,
    {
        let ghost before = events@;
        let ghost step = scan(
            q,
            f,
            zero_j as int,
            i as int,
            previous_i as int,
            previous_j as int,
            has_open_sequence,
            is_first,
            sde as int,
        );
        let semantic_distance = find_closest_in_field_by_semantic_distance(
            query,
            field,
            i,
            previous_j,
            sde,
        );
        let j = semantic_distance_to_field_index(semantic_distance, previous_j, field_len);
        proof {
            law_semantic_distance_inverse(semantic_distance as int, 0, previous_j as int, field_len as int);
        }
        if j == -1 && sde > 0 && is_first {
            proof {
                assert(events@ + step.1 =~= events@);
            }
            return (false, events);
        }
        let ghost pj = previous_j as int;
        let ghost open0 = has_open_sequence;
        let ghost first0 = is_first;
        let ghost pi0 = previous_i as int;
        if has_open_sequence && (j == -1 || j != previous_j + 1) {
            events.push(SegmentEvent::SequenceEnd(previous_j));
            has_open_sequence = false;
        }
        let ghost after_e1 = events@;
        if is_first {
            if j != -1 {
                events.push(SegmentEvent::SegmentStart(j));
                let d = field_index_to_semantic_distance(j, zero_j, field_len);
                proof {
                    law_semantic_distance_inverse(0, j as int, zero_j as int, field_len as int);
                }
                events.push(SegmentEvent::Explored(d + 1));
                is_first = false;
            } else {
                events.push(SegmentEvent::SkipQueryToken);
            }
        } else if j - previous_j >= PROXIMITY_LIMIT || previous_j - j >= PROXIMITY_LIMIT {
            events.push(SegmentEvent::SegmentEnd { i: i - 1, j: previous_j });
            proof {
                assert(events@ =~= before + step.1);
            }
            return (true, events);
        } else if j != -1 {
            events.push(
                SegmentEvent::InSegment { i, j, previous_j, previous_i },
            );
        }
        let ghost after_e2 = events@;
        if j != -1 {
            events.push(SegmentEvent::Match(i));
        }
        let ghost after_e3 = events@;
        if j != -1 && !has_open_sequence {
            events.push(SegmentEvent::SequenceStart(j));
            has_open_sequence = true;
        }
        sde = if j != -1 {
            1
        } else {
            0
        };
        if j >= 0 {
            previous_i = i;
            previous_j = j;
        }
        i = i + 1;
        proof {
            let rest = scan(
                q,
                f,
                zero_j as int,
                i as int,
                previous_i as int,
                previous_j as int,
                has_open_sequence,
                is_first,
                sde as int,
            );
            assert(step.0 == rest.0);
            let e1 = after_e1.skip(before.len() as int);
            let e2 = after_e2.skip(after_e1.len() as int);
            let e3 = after_e3.skip(after_e2.len() as int);
            let e4 = events@.skip(after_e3.len() as int);
            assert(step.1 =~= e1 + e2 + e3 + e4 + rest.1);
            assert(events@ =~= before + e1 + e2 + e3 + e4);
        }
    }
    let ghost last = events@;
    if has_open_sequence {
        events.push(SegmentEvent::SequenceEnd(previous_j));
    }
    if !is_first {
        events.push(SegmentEvent::SegmentEnd { i: query_len - 1, j: previous_j });
        proof {
            assert(events@ =~= whole.1);
        }
        (true, events)
    } else {
        proof {
            assert(events@ =~= whole.1);
        }
        (false, events)
    }
}

/// What choosing the next segment start point to explore needs of one: whether
/// it is still open, and how far from it the search has explored (0 before
/// its first exploration).
#[derive(Clone, Copy, Debug)]
pub struct StartPointState {
    pub open: bool,
    pub explored: i32,
}

/// Whether the search can go on from start point `p`: it exists and is
/// open, and either it was never explored or fewer than `max` alternative
/// segmentations have been tried.
pub open spec fn can_resume(p: Option<StartPointState>, tried: int, max: int) -> bool {
    &&& p matches Some(s)
    &&& s.open
    &&& (s.explored == 0 || tried < max)
}

/// The first start point from `start_i` on where the search can go on, with
/// the number of alternative segmentations tried once it is taken: one more
/// where it was explored before. `None` (and `tried` unchanged) where there
/// is none.
pub fn find_open_segment(points: &Vec<Option<StartPointState>>, start_i: usize, tried: i32, max: i32) -> (r:
    (Option<usize>, i32))
    ensures
        match r.0 {
            Some(k) => start_i <= k < points@.len() && can_resume(points@[k as int], tried as int, max as int)
                && forall|m: int|
                start_i <= m < k ==> !can_resume(#[trigger] points@[m], tried as int, max as int),
            None => forall|m: int|
                start_i <= m < points@.len() ==> !can_resume(
                    #[trigger] points@[m],
                    tried as int,
                    max as int,
                ),
        },
        r.1 == (if r.0 matches Some(k) && points@[k as int]->0.explored != 0 {
            tried + 1
        } else {
            tried as int
        }),
{
    let mut k = start_i;
    while k < points.len()
        invariant
            start_i <= k,
            forall|m: int| start_i <= m < k ==> !can_resume(#[trigger] points@[m], tried as int, max as int),
        decreases points@.len() - k,
    {
        let p = points[k];
        match p {
            Some(sp) => {
                assert(points@[k as int] == Some(sp));
                if sp.open {
                    if sp.explored == 0 {
                        return (Some(k), tried);
                    }
                    if tried < max {
                        return (Some(k), tried + 1);
                    }
                }
            },
            None => {},
        }
        k = k + 1;
    }
    (None, tried)
}

/// The last start point that exists, if any.
pub fn find_last_start_point(points: &Vec<Option<StartPointState>>) -> (r: Option<usize>)
    ensures
        match r {
            Some(k) => k < points@.len() && points@[k as int] is Some && forall|m: int|
                k < m < points@.len() ==> #[trigger] points@[m] is None,
            None => forall|m: int| 0 <= m < points@.len() ==> #[trigger] points@[m] is None,
        },
{
    let mut k = points.len();
    while k > 0
        invariant
            k <= points@.len(),
            forall|m: int| k <= m < points@.len() ==> #[trigger] points@[m] is None,
        decreases k,
    {
        if points[k - 1].is_some() {
            return Some(k - 1);
        }
        k = k - 1;
    }
    None
}

/// The events keep the proximity limit: every `InSegment` event names a
/// match less than `PROXIMITY_LIMIT` field tokens before or after the
/// previous match.
pub open spec fn within_proximity(events: Seq<SegmentEvent>) -> bool {
    forall|k: int|
        0 <= k < events.len() ==> match #[trigger] events[k] {
            SegmentEvent::InSegment { i, j, previous_j, previous_i } => j - previous_j
                < PROXIMITY_LIMIT && previous_j - j < PROXIMITY_LIMIT,
            _ => true,
        }
}

proof fn lemma_within_proximity_concat(a: Seq<SegmentEvent>, b: Seq<SegmentEvent>)
    requires
        within_proximity(a),
        within_proximity(b),
    ensures
        within_proximity(a + b),
{
    assert forall|k: int| 0 <= k < (a + b).len() implies match #[trigger] (a + b)[k] {
        SegmentEvent::InSegment { i, j, previous_j, previous_i } => j - previous_j
            < PROXIMITY_LIMIT && previous_j - j < PROXIMITY_LIMIT,
        _ => true,
    } by {
        if k < a.len() {
            assert((a + b)[k] == a[k]);
        } else {
            assert((a + b)[k] == b[k - a.len()]);
        }
    }
}

/// The least distance found is `-1` or lies between `start` and the field's
/// length.
proof fn lemma_closest_distance_range(
    q: Seq<Seq<char>>,
    f: Seq<Seq<char>>,
    i: int,
    previous_j: int,
    start: int,
)
    requires
        0 <= start,
    ensures
        closest_distance(q, f, i, previous_j, start) == -1 || start <= closest_distance(
            q,
            f,
            i,
            previous_j,
            start,
        ) < f.len(),
    decreases f.len() - start,
{
    if start < f.len() {
        lemma_closest_distance_range(q, f, i, previous_j, start + 1);
    }
}

proof fn lemma_scan_within_proximity(
    q: Seq<Seq<char>>,
    f: Seq<Seq<char>>,
    zero_j: int,
    i: int,
    pi: int,
    pj: int,
    open: bool,
    first: bool,
    explored: int,
)
    requires
        f.len() < i32::MAX,
        q.len() <= i32::MAX,
        0 <= i,
        0 <= pj <= f.len(),
        -1 <= pi < i32::MAX,
        0 <= explored,
    ensures
        within_proximity(scan(q, f, zero_j, i, pi, pj, open, first, explored).1),
    decreases q.len() - i,
{
    if i < q.len() {
        let n = f.len() as int;
        let d = closest_distance(q, f, i, pj, explored);
        lemma_closest_distance_range(q, f, i, pj, explored);
        law_semantic_distance_inverse(d, 0, pj, n);
        let j = distance_to_index(d, pj, n);
        assert(j == -1 || 0 <= j < n);
        if !(j == -1 && explored > 0 && first) {
            let ends = open && (j == -1 || j != pj + 1);
            let open1 = open && !ends;
            if !(!first && (j - pj >= PROXIMITY_LIMIT || pj - j >= PROXIMITY_LIMIT)) {
                lemma_scan_within_proximity(
                    q,
                    f,
                    zero_j,
                    i + 1,
                    if j >= 0 { i } else { pi },
                    if j >= 0 { j } else { pj },
                    open1 || j != -1,
                    first && j == -1,
                    if j != -1 { 1 } else { 0 },
                );
                let rest = scan(
                    q,
                    f,
                    zero_j,
                    i + 1,
                    if j >= 0 { i } else { pi },
                    if j >= 0 { j } else { pj },
                    open1 || j != -1,
                    first && j == -1,
                    if j != -1 { 1 } else { 0 },
                );
                let whole = scan(q, f, zero_j, i, pi, pj, open, first, explored).1;
                let head = whole.subrange(0, whole.len() - rest.1.len());
                assert(whole =~= head + rest.1);
                assert forall|k: int| 0 <= k < head.len() implies match #[trigger] head[k] {
                    SegmentEvent::InSegment { i, j, previous_j, previous_i } => j - previous_j
                        < PROXIMITY_LIMIT && previous_j - j < PROXIMITY_LIMIT,
                    _ => true,
                } by {
                    if !first && j != -1 && head[k] is InSegment {
                        assert((j as i32) as int == j);
                        assert((pj as i32) as int == pj);
                    }
                }
                lemma_within_proximity_concat(head, rest.1);
            }
        }
    }
}

/// A segment keeps its matches within the proximity limit: in what the
/// segment search from a start point reports, every `InSegment` event names
/// a match less than `PROXIMITY_LIMIT` field tokens before or after the
/// previous match; a match farther away ends the segment instead.
pub proof fn law_segment_within_proximity(
    q: Seq<Seq<char>>,
    f: Seq<Seq<char>>,
    start_i: int,
    zero_j: int,
    explored: int,
)
    requires
        q.len() <= i32::MAX,
        f.len() < i32::MAX,
        0 <= start_i,
        0 <= zero_j <= f.len(),
        0 <= explored,
    ensures
        within_proximity(scan(q, f, zero_j, start_i, -1, zero_j, false, true, explored).1),
{
    lemma_scan_within_proximity(q, f, zero_j, start_i, -1, zero_j, false, true, explored);
}

} // verus!
