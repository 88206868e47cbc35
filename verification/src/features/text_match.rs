//! Text-match features over query token occurrences (a query token that
//! occurs twice counts twice): completeness, the greedy match behind text
//! and element similarity, term matches, occurrence counts, and the
//! semantic-distance search of the field-match computer.
use vstd::prelude::*;

use crate::features::{
    entries_wf, has_term, increasing, lemma_first_match, lemma_terms_distinct,
    lemma_total_tokens_concat, term_positions, total_tokens, Analyzed,
};
use crate::features::element::{insert_sorted, pair_lt, sorted_pairs};
use crate::features::order::{
    lemma_term_lt_total, lemma_term_lt_transitive, term_less, term_lt,
};
use crate::text::str_eq;

verus! {

/// How far the field-match computer looks on either side of the last match
/// before it starts a new segment.
pub const PROXIMITY_LIMIT: i32 = 10;

/// The smaller of `a` and `b`.
pub open spec fn min_int(a: int, b: int) -> int {
    if a < b {
        a
    } else {
        b
    }
}

/// The field index at semantic distance `d` from `zero_j` in a field of
/// `n` tokens: first the (up to `PROXIMITY_LIMIT`) indices from `zero_j`
/// on, then those before it going back, then the rest after, then the rest
/// before; `-1` for the undefined distance `-1`.
pub open spec fn distance_to_index(d: int, zero_j: int, n: int) -> int {
    let first = min_int(PROXIMITY_LIMIT as int, n - zero_j);
    let second = min_int(PROXIMITY_LIMIT as int, zero_j);
    if d == -1 {
        -1
    } else if d < first {
        zero_j + d
    } else if d < first + second {
        zero_j - d - 1 + first
    } else if d < n - zero_j + second {
        zero_j + d - second
    } else {
        n - d - 1
    }
}

/// The semantic distance of field index `j` from `zero_j` in a field of `n`
/// tokens; `-1` for the undefined index `-1`.
pub open spec fn index_to_distance(j: int, zero_j: int, n: int) -> int {
    let first = min_int(PROXIMITY_LIMIT as int, n - zero_j);
    let second = min_int(PROXIMITY_LIMIT as int, zero_j);
    if j == -1 {
        -1
    } else if j >= zero_j {
        if j - zero_j < first {
            j - zero_j
        } else {
            j - zero_j + second
        }
    } else if zero_j - j - 1 < second {
        zero_j - j + first - 1
    } else {
        (zero_j - j - 1) + n - zero_j
    }
}

/// Maps a semantic distance back to a field index from `zero_j`; `-1` for
/// the undefined distance `-1`.
pub fn semantic_distance_to_field_index(semantic_distance: i32, zero_j: i32, field_len: i32) -> (r:
    i32)
    requires
        0 <= zero_j <= field_len,
        -1 <= semantic_distance < field_len,
    ensures
        r == distance_to_index(semantic_distance as int, zero_j as int, field_len as int),
{
    if semantic_distance == -1 {
        return -1;
    }
    let first_segment_length = if PROXIMITY_LIMIT < field_len - zero_j {
        PROXIMITY_LIMIT
    } else {
        field_len - zero_j
    };
    let second_segment_length = if PROXIMITY_LIMIT < zero_j {
        PROXIMITY_LIMIT
    } else {
        zero_j
    };
    if semantic_distance < first_segment_length {
        zero_j + semantic_distance
    } else if semantic_distance < first_segment_length + second_segment_length {
        zero_j - semantic_distance - 1 + first_segment_length
    } else if semantic_distance < field_len - zero_j + second_segment_length {
        zero_j + (semantic_distance - second_segment_length)
    } else {
        field_len - semantic_distance - 1
    }
}

/// The semantic distance of field index `j` from `zero_j`; `-1` for the
/// undefined index `-1`.
pub fn field_index_to_semantic_distance(j: i32, zero_j: i32, field_len: i32) -> (r: i32)
    requires
        0 <= zero_j <= field_len,
        -1 <= j < field_len,
    ensures
        r == index_to_distance(j as int, zero_j as int, field_len as int),
{
    if j == -1 {
        return -1;
    }
    let first_segment_length = if PROXIMITY_LIMIT < field_len - zero_j {
        PROXIMITY_LIMIT
    } else {
        field_len - zero_j
    };
    let second_segment_length = if PROXIMITY_LIMIT < zero_j {
        PROXIMITY_LIMIT
    } else {
        zero_j
    };
    if j >= zero_j {
        if j - zero_j < first_segment_length {
            j - zero_j
        } else {
            j - zero_j + second_segment_length
        }
    } else if zero_j - j - 1 < second_segment_length {
        zero_j - j + first_segment_length - 1
    } else {
        (zero_j - j - 1) + (field_len - zero_j)
    }
}

/// Semantic distances from `zero_j` number the field indices one to one:
/// each distance below the field length names an index in the field, and
/// the distance of that index is the distance again, and the other way
/// round; the undefined `-1` maps to itself both ways.
pub proof fn law_semantic_distance_inverse(d: int, j: int, zero_j: int, n: int)
    requires
        0 <= zero_j <= n,
    ensures
        0 <= d < n ==> 0 <= distance_to_index(d, zero_j, n) < n && index_to_distance(
            distance_to_index(d, zero_j, n),
            zero_j,
            n,
        ) == d,
        0 <= j < n ==> 0 <= index_to_distance(j, zero_j, n) < n && distance_to_index(
            index_to_distance(j, zero_j, n),
            zero_j,
            n,
        ) == j,
        distance_to_index(-1, zero_j, n) == -1,
        index_to_distance(-1, zero_j, n) == -1,
{
}

/// The least semantic distance from `previous_j`, at least `start`, at
/// which the field `f` holds the query text at `i`; `-1` where there is
/// none.
pub open spec fn closest_distance(
    q: Seq<Seq<char>>,
    f: Seq<Seq<char>>,
    i: int,
    previous_j: int,
    start: int,
) -> int
    decreases f.len() - start,
{
    if start >= f.len() {
        -1
    } else if f[distance_to_index(start, previous_j, f.len() as int)] == q[i] {
        start
    } else {
        closest_distance(q, f, i, previous_j, start + 1)
    }
}

/// The least semantic distance from `previous_j`, at least `start`, at
/// which the field holds the query token at `i`; `-1` where there is none.
pub fn find_closest_in_field_by_semantic_distance(
    query: &[&str],
    field: &[&str],
    i: i32,
    previous_j: i32,
    start_semantic_distance: i32,
) -> (r: i32)
    requires
        0 <= i < query@.len(),
        field@.len() <= i32::MAX,
        0 <= previous_j <= field@.len(),
        0 <= start_semantic_distance,
    ensures
        r == closest_distance(
            texts_of(query@),
            texts_of(field@),
            i as int,
            previous_j as int,
            start_semantic_distance as int,
        ),
        r == -1 || start_semantic_distance <= r < field@.len(),
{
    let ghost q = texts_of(query@);
    let ghost f = texts_of(field@);
    let term = query[i as usize];
    let field_len = field.len() as i32;
    let mut distance = start_semantic_distance;
    while distance < field_len
        invariant
            q == texts_of(query@),
            f == texts_of(field@),
            field_len == field@.len(),
            0 <= previous_j <= field_len,
            0 <= start_semantic_distance <= distance,
            0 <= i < query@.len(),
            term@ == q[i as int],
            closest_distance(q, f, i as int, previous_j as int, start_semantic_distance as int)
                == closest_distance(q, f, i as int, previous_j as int, distance as int),
        decreases field_len - distance,
    {
        let j = semantic_distance_to_field_index(distance, previous_j, field_len);
        proof {
            law_semantic_distance_inverse(distance as int, 0, previous_j as int, field_len as int);
            assert(f[j as int] == field@[j as int]@);
        }
        if j >= 0 && str_eq(term, field[j as usize]) {
            return distance;
        }
        distance = distance + 1;
    }
    -1
}

/// The number of query token occurrences (repeats counted) whose text the
/// document has.
pub open spec fn matched_occurrences(
    q: Seq<(Seq<char>, Seq<usize>)>,
    d: Seq<(Seq<char>, Seq<usize>)>,
) -> nat
    decreases q.len(),
{
    if q.len() == 0 {
        0
    } else {
        matched_occurrences(q.drop_last(), d) + if has_term(d, q.last().0) {
            q.last().1.len()
        } else {
            0
        }
    }
}

proof fn lemma_matched_occurrences_bound(q: Seq<(Seq<char>, Seq<usize>)>, d: Seq<(Seq<char>, Seq<usize>)>)
    ensures
        matched_occurrences(q, d) <= total_tokens(q),
    decreases q.len(),
{
    if q.len() > 0 {
        lemma_matched_occurrences_bound(q.drop_last(), d);
    }
}

/// What element completeness is computed from, counting query tokens with
/// their repeats: how many occur in the document, out of how many, and the
/// document's length.
#[derive(Clone, Copy, Debug)]
pub struct OccurrenceCounts {
    /// Query token occurrences whose text the document has.
    pub matched: usize,
    /// Query token occurrences.
    pub query_terms: usize,
    /// Tokens of the document, counting repeats.
    pub field_length: usize,
}

/// The counts behind the element completeness of `document` for `query`;
/// `None` where either has no token (the feature is then zero).
pub fn element_completeness(query: &Analyzed, document: &Analyzed) -> (r: Option<OccurrenceCounts>)
    ensures
        r is None <==> (total_tokens(query.terms()) == 0 || total_tokens(document.terms()) == 0),
        r matches Some(c) ==> c.matched == matched_occurrences(query.terms(), document.terms())
            && c.query_terms == total_tokens(query.terms()) && c.field_length == total_tokens(
            document.terms(),
        ),
{
    let total_query_terms = query.total_num_tokens();
    let field_length = document.total_num_tokens();
    if total_query_terms == 0 || field_length == 0 {
        return None;
    }
    let ghost q = query.terms();
    let ghost d = document.terms();
    let nq = query.num_unique_tokens();
    let mut matched: usize = 0;
    let mut k: usize = 0;
    while k < nq
        invariant
            q == query.terms(),
            d == document.terms(),
            nq == q.len(),
            k <= nq,
            matched == matched_occurrences(q.take(k as int), d),
            total_tokens(q) == total_query_terms,
        decreases nq - k,
    {
        proof {
            let t = q.take(k as int + 1);
            assert(t.drop_last() =~= q.take(k as int));
            assert(t.last() == q[k as int]);
            lemma_matched_occurrences_bound(t, d);
            assert(q =~= t + q.skip(k as int + 1));
            lemma_total_tokens_concat(t, q.skip(k as int + 1));
        }
        if document.find(query.term(k)).is_some() {
            matched = matched + query.positions(k).len();
        }
        k = k + 1;
    }
    proof {
        assert(q.take(k as int) =~= q);
    }
    Some(OccurrenceCounts { matched, query_terms: total_query_terms, field_length })
}

/// Whether any query token occurs in the document.
pub fn matches(query: &Analyzed, document: &Analyzed) -> (r: bool)
    ensures
        r == exists|k: int|
            0 <= k < query.terms().len() && #[trigger] has_term(document.terms(), query.terms()[k].0),
{
    let nq = query.num_unique_tokens();
    let mut k: usize = 0;
    while k < nq
        invariant
            nq == query.terms().len(),
            k <= nq,
            forall|a: int| 0 <= a < k ==> !#[trigger] has_term(document.terms(), query.terms()[a].0),
        decreases nq - k,
    {
        if let Some(j) = document.find(query.term(k)) {
            proof {
                assert(document.terms()[j as int].0 == query.terms()[k as int].0);
                assert(has_term(document.terms(), query.terms()[k as int].0));
            }
            return true;
        }
        k = k + 1;
    }
    false
}

/// The number of query tokens, counting repeats.
pub fn query_term_count(query: &Analyzed) -> (n: usize)
    ensures
        n == total_tokens(query.terms()),
{
    query.total_num_tokens()
}

/// Where a query token occurs in the document: first and how often.
#[derive(Clone, Copy, Debug)]
pub struct TermOccurrences {
    pub first_position: usize,
    pub occurrences: usize,
}

impl Analyzed {
    /// The text of the token at `position`, if any token is there.
    pub fn token_at_position(&self, position: usize) -> (r: Option<&str>)
        ensures
            match r {
                Some(s) => exists|k: int|
                    0 <= k < self.terms().len() && (#[trigger] self.terms()[k]).0 == s@
                        && self.terms()[k].1.contains(position),
                None => forall|k: int|
                    0 <= k < self.terms().len() ==> !(#[trigger] self.terms()[k]).1.contains(position),
            },
    {
        let n = self.num_unique_tokens();
        let mut k: usize = 0;
        while k < n
            invariant
                n == self.terms().len(),
                k <= n,
                forall|a: int| 0 <= a < k ==> !(#[trigger] self.terms()[a]).1.contains(position),
            decreases n - k,
        {
            let ps = self.positions(k);
            let mut x: usize = 0;
            while x < ps.len()
                invariant
                    n == self.terms().len(),
                    k < n,
                    ps@ == self.terms()[k as int].1,
                    x <= ps@.len(),
                    forall|y: int| 0 <= y < x ==> ps@[y] != position,
                decreases ps@.len() - x,
            {
                if ps[x] == position {
                    proof {
                        assert(self.terms()[k as int].1[x as int] == position);
                        assert(self.terms()[k as int].1.contains(position));
                    }
                    return Some(self.term(k));
                }
                x = x + 1;
            }
            k = k + 1;
        }
        None
    }
}

/// The first position and the number of occurrences in the document of
/// the query token at query position `term_index`; `None` where no query
/// token is there or the document lacks it.
pub fn field_term_match(query: &Analyzed, document: &Analyzed, term_index: usize) -> (r: Option<
    TermOccurrences,
>)
    ensures
        (forall|k: int|
            0 <= k < query.terms().len() ==> !(#[trigger] query.terms()[k]).1.contains(term_index))
            ==> r is None,
        forall|k: int|
            0 <= k < query.terms().len() && (#[trigger] query.terms()[k]).1.contains(term_index) ==> {
                &&& r is Some <==> has_term(document.terms(), query.terms()[k].0)
                &&& r matches Some(o) ==> o.first_position == term_positions(
                    document.terms(),
                    query.terms()[k].0,
                )[0] && o.occurrences == term_positions(document.terms(), query.terms()[k].0).len()
            },
{
    proof {
        use_type_invariant(query);
        use_type_invariant(document);
        lemma_terms_distinct(query.terms());
    }
    let ghost q = query.terms();
    let ghost d = document.terms();
    let term = match query.token_at_position(term_index) {
        Some(t) => t,
        None => return None,
    };
    proof {
        // the query entry holding `term_index` is the one of `term`
        let k0 = choose|k: int| 0 <= k < q.len() && (#[trigger] q[k]).0 == term@ && q[k].1.contains(term_index);
        assert forall|k: int| 0 <= k < q.len() && (#[trigger] q[k]).1.contains(term_index) implies k == k0 by {
            if k != k0 {
                let x = choose|x: int| 0 <= x < q[k].1.len() && q[k].1[x] == term_index;
                let y = choose|y: int| 0 <= y < q[k0].1.len() && q[k0].1[y] == term_index;
                assert(q[k].1[x] != q[k0].1[y]);
            }
        }
    }
    match document.find(term) {
        Some(j) => {
            let ps = document.positions(j);
            proof {
                let k0 = choose|k: int| 0 <= k < q.len() && (#[trigger] q[k]).0 == term@ && q[k].1.contains(term_index);
                lemma_first_match(q, d, k0, j as int);
            }
            Some(TermOccurrences { first_position: ps[0], occurrences: ps.len() })
        },
        None => None,
    }
}

/// Whether `texts` lists the tokens of `t` by their positions `ps`, which
/// strictly increase and are all the positions of `t`.
pub open spec fn lists_by_position(
    t: Seq<(Seq<char>, Seq<usize>)>,
    ps: Seq<usize>,
    texts: Seq<Seq<char>>,
) -> bool {
    &&& ps.len() == texts.len()
    &&& increasing(ps)
    &&& forall|k: int|
        #![trigger ps[k]]
        0 <= k < ps.len() ==> exists|e: int|
            0 <= e < t.len() && (#[trigger] t[e]).0 == texts[k] && t[e].1.contains(ps[k])
    &&& forall|e: int, x: int|
        0 <= e < t.len() && 0 <= x < t[e].1.len() ==> ps.contains(#[trigger] t[e].1[x])
}

/// The views of string slices.
pub open spec fn texts_of(s: Seq<&str>) -> Seq<Seq<char>> {
    s.map_values(|x: &str| x@)
}

impl Analyzed {
    /// The tokens in order of position, repeats included.
    pub fn ordered_tokens(&self) -> (r: Vec<&str>)
        ensures
            exists|ps: Seq<usize>| #[trigger] lists_by_position(self.terms(), ps, texts_of(r@)),
    {
        proof {
            use_type_invariant(self);
        }
        let ghost t = self.terms();
        let n = self.num_unique_tokens();
        let mut pairs: Vec<(usize, usize)> = Vec::new();
        let mut e: usize = 0;
        while e < n
            invariant
                t == self.terms(),
                entries_wf(t),
                n == t.len(),
                e <= n,
                sorted_pairs(pairs@),
                forall|a: int|
                    0 <= a < pairs@.len() ==> (#[trigger] pairs@[a]).1 < e && t[pairs@[a].1 as int].1.contains(
                        pairs@[a].0,
                    ),
                forall|e2: int, x: int|
                    0 <= e2 < e && 0 <= x < t[e2].1.len() ==> pairs@.contains((#[trigger] t[e2].1[x], e2 as usize)),
            decreases n - e,
        {
            let ps = self.positions(e);
            let ghost before = pairs@;
            let mut x: usize = 0;
            while x < ps.len()
                invariant
                    t == self.terms(),
                    entries_wf(t),
                    n == t.len(),
                    e < n,
                    ps@ == t[e as int].1,
                    x <= ps@.len(),
                    sorted_pairs(pairs@),
                    forall|a: int|
                        0 <= a < pairs@.len() ==> (#[trigger] pairs@[a]).1 <= e && t[pairs@[a].1 as int].1.contains(
                            pairs@[a].0,
                        ) && (pairs@[a].1 == e ==> exists|y: int| 0 <= y < x && ps@[y] == pairs@[a].0),
                    forall|e2: int, y: int|
                        0 <= e2 < e && 0 <= y < t[e2].1.len() ==> pairs@.contains((#[trigger] t[e2].1[y], e2 as usize)),
                    forall|y: int| 0 <= y < x ==> pairs@.contains((#[trigger] ps@[y], e)),
                decreases ps@.len() - x,
            {
                let p = ps[x];
                proof {
                    if pairs@.contains((p, e)) {
                        let a = choose|a: int| 0 <= a < pairs@.len() && pairs@[a] == (p, e);
                        let y = choose|y: int| 0 <= y < x && ps@[y] == pairs@[a].0;
                        assert(ps@[y] < ps@[x as int]);
                    }
                    assert(t[e as int].1[x as int] == p);
                }
                let ghost old_pairs = pairs@;
                insert_sorted(&mut pairs, (p, e));
                proof {
                    assert forall|a: int|
                        0 <= a < pairs@.len() implies (#[trigger] pairs@[a]).1 <= e && t[pairs@[a].1 as int].1.contains(
                            pairs@[a].0,
                        ) && (pairs@[a].1 == e ==> exists|y: int| 0 <= y < x + 1 && ps@[y] == pairs@[a].0) by {
                        assert(pairs@.contains(pairs@[a]));
                        if pairs@[a] != (p, e) {
                            assert(old_pairs.contains(pairs@[a]));
                            let b = choose|b: int| 0 <= b < old_pairs.len() && old_pairs[b] == pairs@[a];
                            assert(old_pairs[b].1 <= e);
                            if pairs@[a].1 == e {
                                let y = choose|y: int| 0 <= y < x && ps@[y] == old_pairs[b].0;
                                assert(ps@[y] == pairs@[a].0);
                            }
                        } else {
                            assert(ps@[x as int] == pairs@[a].0);
                            assert(t[e as int].1[x as int] == p);
                        }
                    }
                    assert forall|e2: int, y: int|
                        0 <= e2 < e && 0 <= y < t[e2].1.len() implies pairs@.contains((#[trigger] t[e2].1[y], e2 as usize)) by {
                        assert(old_pairs.contains((t[e2].1[y], e2 as usize)));
                    }
                    assert forall|y: int| 0 <= y < x + 1 implies pairs@.contains((#[trigger] ps@[y], e)) by {
                        if y < x {
                            assert(old_pairs.contains((ps@[y], e)));
                        }
                    }
                }
                x = x + 1;
            }
            proof {
                assert forall|e2: int, y: int|
                    0 <= e2 < e + 1 && 0 <= y < t[e2].1.len() implies pairs@.contains((#[trigger] t[e2].1[y], e2 as usize)) by {
                    if e2 == e {
                        assert(ps@[y] == t[e2].1[y]);
                    }
                }
            }
            e = e + 1;
        }
        // Positions of different pairs differ: they strictly increase.
        let ghost ps = pairs@.map_values(|pr: (usize, usize)| pr.0);
        proof {
            lemma_terms_distinct(t);
            assert forall|a: int, b: int| 0 <= a < b < ps.len() implies ps[a] < ps[b] by {
                assert(pair_lt(pairs@[a], pairs@[b]));
                if pairs@[a].0 == pairs@[b].0 {
                    let ea = pairs@[a].1 as int;
                    let eb = pairs@[b].1 as int;
                    let xa = choose|x: int| 0 <= x < t[ea].1.len() && t[ea].1[x] == pairs@[a].0;
                    let xb = choose|x: int| 0 <= x < t[eb].1.len() && t[eb].1[x] == pairs@[b].0;
                    assert(t[ea].1[xa] != t[eb].1[xb]);
                }
            }
        }
        let mut r: Vec<&str> = Vec::new();
        let mut i: usize = 0;
        while i < pairs.len()
            invariant
                t == self.terms(),
                n == t.len(),
                ps == pairs@.map_values(|pr: (usize, usize)| pr.0),
                forall|a: int|
                    0 <= a < pairs@.len() ==> (#[trigger] pairs@[a]).1 < n && t[pairs@[a].1 as int].1.contains(
                        pairs@[a].0,
                    ),
                i <= pairs@.len(),
                r@.len() == i,
                forall|k: int| 0 <= k < i ==> (#[trigger] r@[k])@ == t[pairs@[k].1 as int].0,
            decreases pairs@.len() - i,
        {
            r.push(self.term(pairs[i].1));
            i = i + 1;
        }
        proof {
            let texts = texts_of(r@);
            assert forall|k: int|
                #![trigger ps[k]]
                0 <= k < ps.len() implies exists|e: int|
                0 <= e < t.len() && (#[trigger] t[e]).0 == texts[k] && t[e].1.contains(ps[k]) by {
                let e = pairs@[k].1 as int;
                assert(t[e].0 == texts[k]);
            }
            assert forall|e: int, x: int|
                0 <= e < t.len() && 0 <= x < t[e].1.len() implies ps.contains(#[trigger] t[e].1[x]) by {
                assert(pairs@.contains((t[e].1[x], e as usize)));
                let a = choose|a: int| 0 <= a < pairs@.len() && pairs@[a] == (t[e].1[x], e as usize);
                assert(ps[a] == t[e].1[x]);
            }
            assert(lists_by_position(t, ps, texts));
        }
        r
    }
}

/// How many occurrences of a query text in the field count at most.
pub const MAX_OCCURRENCES: usize = 100;

/// How often `t` occurs in `s`.
pub open spec fn count_of(s: Seq<Seq<char>>, t: Seq<char>) -> nat
    decreases s.len(),
{
    if s.len() == 0 {
        0
    } else {
        count_of(s.drop_last(), t) + if s.last() == t {
            1nat
        } else {
            0nat
        }
    }
}

/// Texts in strictly increasing byte order.
pub open spec fn sorted_texts(s: Seq<Seq<char>>) -> bool {
    forall|a: int, b: int| 0 <= a < b < s.len() ==> term_lt(s[a], s[b])
}

/// The smaller of two naturals.
pub open spec fn min_nat(a: nat, b: nat) -> nat {
    if a < b {
        a
    } else {
        b
    }
}

proof fn lemma_count_of_concat(a: Seq<Seq<char>>, b: Seq<Seq<char>>, t: Seq<char>)
    ensures
        count_of(a + b, t) == count_of(a, t) + count_of(b, t),
    decreases b.len(),
{
    if b.len() > 0 {
        assert((a + b).drop_last() =~= a + b.drop_last());
        lemma_count_of_concat(a, b.drop_last(), t);
    } else {
        assert(a + b =~= a);
    }
}

/// Whether the text `t` occurs in `s`.
fn contains_text(s: &[&str], t: &str) -> (r: bool)
    ensures
        r == texts_of(s@).contains(t@),
{
    let mut i: usize = 0;
    while i < s.len()
        invariant
            i <= s@.len(),
            forall|k: int| 0 <= k < i ==> (#[trigger] s@[k])@ != t@,
        decreases s@.len() - i,
    {
        if str_eq(s[i], t) {
            proof {
                assert(texts_of(s@)[i as int] == t@);
            }
            return true;
        }
        i = i + 1;
    }
    proof {
        if texts_of(s@).contains(t@) {
            let k = choose|k: int| 0 <= k < s@.len() && texts_of(s@)[k] == t@;
            assert(s@[k]@ == t@);
        }
    }
    false
}

/// Inserts the text `t`, which `v` lacks, into the sorted `v`.
fn insert_text<'a>(v: &mut Vec<&'a str>, t: &'a str)
    requires
        sorted_texts(texts_of(old(v)@)),
        !texts_of(old(v)@).contains(t@),
    ensures
        sorted_texts(texts_of(final(v)@)),
        forall|u: Seq<char>| #[trigger] texts_of(final(v)@).contains(u) <==> (texts_of(old(v)@).contains(u) || u == t@),
{
    let ghost v0 = texts_of(v@);
    let mut k: usize = 0;
    while k < v.len()
        invariant_except_break
            true,
        invariant
            texts_of(v@) == v0,
            !v0.contains(t@),
            k <= v0.len(),
            forall|a: int| 0 <= a < k ==> term_lt(#[trigger] v0[a], t@),
        ensures
            k <= v0.len(),
            forall|a: int| 0 <= a < k ==> term_lt(#[trigger] v0[a], t@),
            k < v0.len() ==> term_lt(t@, v0[k as int]),
        decreases v0.len() - k,
    {
        if !term_less(v[k], t) {
            proof {
                assert(v0[k as int] == v@[k as int]@);
                assert(v0.contains(v0[k as int]));
                lemma_term_lt_total(v0[k as int], t@);
            }
            break;
        }
        k = k + 1;
    }
    v.insert(k, t);
    proof {
        let v1 = texts_of(v@);
        assert(v1 =~= v0.take(k as int).push(t@) + v0.skip(k as int));
        assert forall|i: int, j: int| 0 <= i < j < v1.len() implies term_lt(v1[i], v1[j]) by {
            if j < k {
                assert(v1[i] == v0[i] && v1[j] == v0[j]);
            } else if j == k {
                assert(v1[i] == v0[i]);
            } else if i == k {
                assert(v1[j] == v0[j - 1]);
                if j - 1 > k {
                    lemma_term_lt_transitive(t@, v0[k as int], v0[j - 1]);
                }
            } else if i < k {
                assert(v1[i] == v0[i] && v1[j] == v0[j - 1]);
            } else {
                assert(v1[i] == v0[i - 1] && v1[j] == v0[j - 1]);
            }
        }
        assert forall|u: Seq<char>| #[trigger] v1.contains(u) <==> (v0.contains(u) || u == t@) by {
            if v0.contains(u) {
                let a = choose|a: int| 0 <= a < v0.len() && v0[a] == u;
                if a < k {
                    assert(v1[a] == u);
                } else {
                    assert(v1[a + 1] == u);
                }
            }
            if u == t@ {
                assert(v1[k as int] == u);
            }
            if v1.contains(u) {
                let a = choose|a: int| 0 <= a < v1.len() && v1[a] == u;
                if a < k {
                    assert(v0[a] == u);
                } else if a > k {
                    assert(v0[a - 1] == u);
                }
            }
        }
    }
}

/// The occurrence counts of the field-match features: the distinct query
/// texts that occur in the field, in byte order; how often each occurs in
/// the field, counting up to `MAX_OCCURRENCES`; the divider
/// `min(field length, MAX_OCCURRENCES * number of those texts)`; and
/// `min(field length, MAX_OCCURRENCES)`.
#[derive(Debug)]
pub struct FieldOccurrences<'a> {
    pub terms: Vec<&'a str>,
    pub counts: Vec<usize>,
    pub divider: usize,
    pub max_occurrence: usize,
}

/// The occurrence counts of the query texts `query` in the field texts
/// `field`; `None` where no query text occurs in the field.
pub fn occurrence_counts<'a>(query: &[&'a str], field: &[&str]) -> (r: Option<FieldOccurrences<'a>>)
    ensures
        r is None <==> forall|k: int|
            0 <= k < query@.len() ==> !texts_of(field@).contains(#[trigger] query@[k]@),
        r matches Some(o) ==> {
            let terms = texts_of(o.terms@);
            &&& sorted_texts(terms)
            &&& forall|u: Seq<char>| #[trigger] terms.contains(u) <==> (texts_of(query@).contains(u)
                && texts_of(field@).contains(u))
            &&& o.counts@.len() == terms.len()
            &&& forall|i: int| 0 <= i < terms.len() ==> #[trigger] o.counts@[i] == min_nat(
                count_of(texts_of(field@), terms[i]),
                MAX_OCCURRENCES as nat,
            )
            &&& o.divider == min_nat(field@.len(), MAX_OCCURRENCES as nat * terms.len())
            &&& o.max_occurrence == min_nat(field@.len(), MAX_OCCURRENCES as nat)
        },
{
    let mut unique: Vec<&'a str> = Vec::new();
    let mut k: usize = 0;
    while k < query.len()
        invariant
            k <= query@.len(),
            sorted_texts(texts_of(unique@)),
            forall|u: Seq<char>| #[trigger] texts_of(unique@).contains(u) <==> (texts_of(query@.take(k as int)).contains(u)
                && texts_of(field@).contains(u)),
        decreases query@.len() - k,
    {
        let t = query[k];
        proof {
            let before = texts_of(query@.take(k as int));
            let after = texts_of(query@.take(k as int + 1));
            assert(after =~= before.push(t@));
            assert forall|u: Seq<char>| #[trigger] after.contains(u) <==> (before.contains(u) || u == t@) by {
                if after.contains(u) {
                    let a = choose|a: int| 0 <= a < after.len() && after[a] == u;
                    if a < before.len() {
                        assert(before[a] == u);
                    }
                }
                if before.contains(u) {
                    let a = choose|a: int| 0 <= a < before.len() && before[a] == u;
                    assert(after[a] == u);
                }
                if u == t@ {
                    assert(after[before.len() as int] == u);
                }
            }
        }
        if contains_text(field, t) && !contains_text(unique.as_slice(), t) {
            insert_text(&mut unique, t);
        }
        k = k + 1;
    }
    proof {
        assert(query@.take(k as int) =~= query@);
    }
    let n = unique.len();
    if n == 0 {
        proof {
            assert forall|k: int| 0 <= k < query@.len() implies !texts_of(field@).contains(#[trigger] query@[k]@) by {
                assert(texts_of(query@)[k] == query@[k]@);
                if texts_of(field@).contains(query@[k]@) {
                    assert(texts_of(unique@).contains(query@[k]@));
                }
            }
        }
        return None;
    }
    proof {
        let u0 = texts_of(unique@)[0];
        assert(texts_of(unique@).contains(u0));
        let k0 = choose|k: int| 0 <= k < query@.len() && texts_of(query@)[k] == u0;
        assert(query@[k0]@ == u0);
    }
    let field_len = field.len();
    let divider = match n.checked_mul(MAX_OCCURRENCES) {
        Some(m) => if field_len < m {
            field_len
        } else {
            m
        },
        None => field_len,
    };
    let max_occurrence = if field_len < MAX_OCCURRENCES {
        field_len
    } else {
        MAX_OCCURRENCES
    };
    let ghost fv = texts_of(field@);
    let mut counts: Vec<usize> = Vec::new();
    let mut i: usize = 0;
    while i < n
        invariant
            n == unique@.len(),
            fv == texts_of(field@),
            i <= n,
            counts@.len() == i,
            forall|a: int| 0 <= a < i ==> #[trigger] counts@[a] == min_nat(
                count_of(fv, texts_of(unique@)[a]),
                MAX_OCCURRENCES as nat,
            ),
        decreases n - i,
    {
        let term = unique[i];
        let mut c: usize = 0;
        let mut j: usize = 0;
        proof {
            assert(fv.take(field@.len() as int) =~= fv);
            assert(fv.take(0) =~= Seq::<Seq<char>>::empty());
        }
        while j < field.len()
            invariant_except_break
                c < MAX_OCCURRENCES,
                c == count_of(fv.take(j as int), term@),
            invariant
                fv == texts_of(field@),
                fv.take(field@.len() as int) == fv,
                j <= field@.len(),
            ensures
                c == min_nat(count_of(fv, term@), MAX_OCCURRENCES as nat),
            decreases field@.len() - j,
        {
            proof {
                assert(fv.take(j as int + 1).drop_last() =~= fv.take(j as int));
                assert(fv.take(j as int + 1).last() == field@[j as int]@);
            }
            if str_eq(field[j], term) {
                c = c + 1;
                if c == MAX_OCCURRENCES {
                    proof {
                        assert(fv =~= fv.take(j as int + 1) + fv.skip(j as int + 1));
                        lemma_count_of_concat(fv.take(j as int + 1), fv.skip(j as int + 1), term@);
                    }
                    break;
                }
            }
            j = j + 1;
        }
        proof {
            assert(fv.take(field@.len() as int) =~= fv);
            assert(texts_of(unique@)[i as int] == term@);
        }
        counts.push(c);
        i = i + 1;
    }
    proof {
        assert(MAX_OCCURRENCES as nat * texts_of(unique@).len() == n * 100);
    }
    Some(FieldOccurrences { terms: unique, counts, divider, max_occurrence })
}

} // verus!
