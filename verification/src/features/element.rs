//! Element completeness and element similarity of a document field, over
//! distinct query tokens.
use vstd::prelude::*;

use crate::features::{
    entries_wf, has_term, lemma_first_match, term_positions, total_tokens, Analyzed,
};

verus! {

/// The number of distinct texts of `q` that `d` has too.
pub open spec fn overlap(q: Seq<(Seq<char>, Seq<usize>)>, d: Seq<(Seq<char>, Seq<usize>)>) -> nat
    decreases q.len(),
{
    if q.len() == 0 {
        0
    } else {
        overlap(q.drop_last(), d) + if has_term(d, q.last().0) {
            1nat
        } else {
            0nat
        }
    }
}

/// What element completeness is computed from: how many distinct query
/// tokens the document has, out of how many, and the document's length.
#[derive(Clone, Copy, Debug)]
pub struct CompletenessCounts {
    /// Distinct query tokens that occur in the document.
    pub overlapping_tokens: usize,
    /// Distinct query tokens.
    pub query_unique_tokens: usize,
    /// Tokens of the document, counting repeats.
    pub document_tokens: usize,
}

/// The counts behind the element completeness of `document` for `query`;
/// `None` where either has no token (the feature is then zero).
pub fn element_completeness(query: &Analyzed, document: &Analyzed) -> (r: Option<
    CompletenessCounts,
>)
    ensures
        r is None <==> (query.terms().len() == 0 || document.terms().len() == 0),
        r matches Some(c) ==> c.overlapping_tokens == overlap(query.terms(), document.terms())
            && c.query_unique_tokens == query.terms().len() && c.document_tokens == total_tokens(
            document.terms(),
        ),
{
    let nq = query.num_unique_tokens();
    if nq == 0 || document.num_unique_tokens() == 0 {
        return None;
    }
    let ghost q = query.terms();
    let ghost d = document.terms();
    let mut count: usize = 0;
    let mut k: usize = 0;
    while k < nq
        invariant
            q == query.terms(),
            d == document.terms(),
            nq == q.len(),
            k <= nq,
            count == overlap(q.take(k as int), d),
            count <= k,
        decreases nq - k,
    {
        proof {
            assert(q.take(k as int + 1).drop_last() =~= q.take(k as int));
        }
        if document.find(query.term(k)).is_some() {
            count = count + 1;
        }
        k = k + 1;
    }
    proof {
        assert(q.take(k as int) =~= q);
    }
    Some(
        CompletenessCounts {
            overlapping_tokens: count,
            query_unique_tokens: nq,
            document_tokens: document.total_num_tokens(),
        },
    )
}

/// For each distinct query text that the document has, in the order of
/// `q`: its first position in the document and its first in the query.
pub open spec fn first_matches(
    q: Seq<(Seq<char>, Seq<usize>)>,
    d: Seq<(Seq<char>, Seq<usize>)>,
) -> Seq<(usize, usize)>
    decreases q.len(),
{
    if q.len() == 0 {
        Seq::empty()
    } else if has_term(d, q.last().0) {
        first_matches(q.drop_last(), d).push((term_positions(d, q.last().0)[0], q.last().1[0]))
    } else {
        first_matches(q.drop_last(), d)
    }
}

/// The order of pairs: by the first, then by the second.
pub open spec fn pair_lt(a: (usize, usize), b: (usize, usize)) -> bool {
    a.0 < b.0 || (a.0 == b.0 && a.1 < b.1)
}

/// Pairs in strictly increasing order.
pub open spec fn sorted_pairs(s: Seq<(usize, usize)>) -> bool {
    forall|i: int, j: int| 0 <= i < j < s.len() ==> pair_lt(s[i], s[j])
}

/// The number of adjacent pairs of `s` whose second items increase.
pub open spec fn in_order_count(s: Seq<(usize, usize)>) -> nat
    decreases s.len(),
{
    if s.len() < 2 {
        0
    } else {
        in_order_count(s.drop_last()) + if s[s.len() - 1].1 > s[s.len() - 2].1 {
            1nat
        } else {
            0nat
        }
    }
}

/// What element similarity is computed from: the matched query tokens, as
/// (document position, query position) pairs sorted by document position,
/// the gaps between adjacent ones in the document, how many adjacent ones
/// keep query order, the document length floored at the match count, and
/// the number of distinct query tokens.
#[derive(Debug)]
pub struct SimilarityMatches {
    pub matched: Vec<(usize, usize)>,
    pub gaps: Vec<usize>,
    pub num_in_order: usize,
    pub num_tokens: usize,
    pub query_unique_tokens: usize,
}

/// Inserts `x`, which `v` lacks, into the sorted `v`.
pub(crate) fn insert_sorted(v: &mut Vec<(usize, usize)>, x: (usize, usize))
    requires
        sorted_pairs(old(v)@),
        !old(v)@.contains(x),
    ensures
        sorted_pairs(final(v)@),
        final(v)@.len() == old(v)@.len() + 1,
        forall|y: (usize, usize)| #[trigger] final(v)@.contains(y) <==> (old(v)@.contains(y) || y == x),
{
    let ghost v0 = v@;
    let mut k: usize = 0;
    while k < v.len()
        invariant_except_break
            true,
        invariant
            v@ == v0,
            !v0.contains(x),
            k <= v0.len(),
            forall|a: int| 0 <= a < k ==> pair_lt(#[trigger] v0[a], x),
        ensures
            k <= v0.len(),
            forall|a: int| 0 <= a < k ==> pair_lt(#[trigger] v0[a], x),
            k < v0.len() ==> pair_lt(x, v0[k as int]),
        decreases v0.len() - k,
    {
        let y = v[k];
        if !(y.0 < x.0 || (y.0 == x.0 && y.1 < x.1)) {
            proof {
                assert(v0[k as int] != x) by {
                    assert(v0.contains(v0[k as int]));
                }
            }
            break;
        }
        k = k + 1;
    }
    v.insert(k, x);
    proof {
        let v1 = v@;
        assert(v1 =~= v0.take(k as int).push(x) + v0.skip(k as int));
        assert forall|i: int, j: int| 0 <= i < j < v1.len() implies pair_lt(v1[i], v1[j]) by {
            if j < k {
                assert(v1[i] == v0[i] && v1[j] == v0[j]);
            } else if j == k {
                assert(v1[i] == v0[i]);
            } else if i == k {
                assert(v1[j] == v0[j - 1]);
                if j - 1 > k {
                    assert(pair_lt(v0[k as int], v0[j - 1]));
                }
            } else if i < k {
                assert(v1[i] == v0[i] && v1[j] == v0[j - 1]);
            } else {
                assert(v1[i] == v0[i - 1] && v1[j] == v0[j - 1]);
            }
        }
        assert forall|y: (usize, usize)| #[trigger] v1.contains(y) <==> (v0.contains(y) || y == x) by {
            if v0.contains(y) {
                let a = choose|a: int| 0 <= a < v0.len() && v0[a] == y;
                if a < k {
                    assert(v1[a] == y);
                } else {
                    assert(v1[a + 1] == y);
                }
            }
            if y == x {
                assert(v1[k as int] == x);
            }
            if v1.contains(y) {
                let a = choose|a: int| 0 <= a < v1.len() && v1[a] == y;
                if a < k {
                    assert(v0[a] == y);
                } else if a > k {
                    assert(v0[a - 1] == y);
                }
            }
        }
    }
}

/// The matches behind the element similarity of `document` for `query`;
/// `None` where the query has no token or none of them is in the document
/// (the feature is then zero).
pub fn element_similarity(query: &Analyzed, document: &Analyzed) -> (r: Option<SimilarityMatches>)
    ensures
        r is None <==> (query.terms().len() == 0 || first_matches(
            query.terms(),
            document.terms(),
        ).len() == 0),
        r matches Some(m) ==> {
            let fm = first_matches(query.terms(), document.terms());
            &&& sorted_pairs(m.matched@)
            &&& m.matched@.len() == fm.len()
            &&& forall|x: (usize, usize)| #[trigger] m.matched@.contains(x) <==> fm.contains(x)
            &&& m.gaps@.len() + 1 == m.matched@.len()
            &&& forall|k: int|
                0 <= k < m.gaps@.len() ==> #[trigger] m.gaps@[k] == m.matched@[k + 1].0
                    - m.matched@[k].0
            &&& m.num_in_order == in_order_count(m.matched@)
            &&& m.num_tokens == if total_tokens(document.terms()) < fm.len() {
                fm.len()
            } else {
                total_tokens(document.terms())
            }
            &&& m.query_unique_tokens == query.terms().len()
        },
{
    proof {
        use_type_invariant(query);
        use_type_invariant(document);
    }
    let nq = query.num_unique_tokens();
    if nq == 0 {
        return None;
    }
    let ghost q = query.terms();
    let ghost d = document.terms();
    let mut matched: Vec<(usize, usize)> = Vec::new();
    let mut k: usize = 0;
    while k < nq
        invariant
            q == query.terms(),
            d == document.terms(),
            entries_wf(q),
            entries_wf(d),
            nq == q.len(),
            k <= nq,
            sorted_pairs(matched@),
            matched@.len() == first_matches(q.take(k as int), d).len(),
            forall|x: (usize, usize)| #[trigger] matched@.contains(x) <==> first_matches(
                q.take(k as int),
                d,
            ).contains(x),
            forall|x: (usize, usize)| #[trigger] matched@.contains(x) ==> exists|a: int|
                0 <= a < k && x.1 == (#[trigger] q[a]).1[0],
        decreases nq - k,
    {
        let ghost before = matched@;
        proof {
            assert(q.take(k as int + 1).drop_last() =~= q.take(k as int));
            assert(q.take(k as int + 1).last() == q[k as int]);
        }
        if let Some(j) = document.find(query.term(k)) {
            let x = (document.positions(j)[0], query.positions(k)[0]);
            proof {
                lemma_first_match(q, d, k as int, j as int);
                if matched@.contains(x) {
                    let a = choose|a: int| 0 <= a < k && x.1 == (#[trigger] q[a]).1[0];
                    assert(q[a].1[0] == q[k as int].1[0]);
                    assert(false);
                }
            }
            insert_sorted(&mut matched, x);
            proof {
                let fm = first_matches(q.take(k as int + 1), d);
                assert(fm == first_matches(q.take(k as int), d).push(x));
                assert forall|y: (usize, usize)| #[trigger] matched@.contains(y) <==> fm.contains(y) by {
                    let prev = first_matches(q.take(k as int), d);
                    if prev.contains(y) {
                        let a = choose|a: int| 0 <= a < prev.len() && prev[a] == y;
                        assert(fm[a] == y);
                    }
                    if y == x {
                        assert(fm[prev.len() as int] == x);
                    }
                    if fm.contains(y) {
                        let a = choose|a: int| 0 <= a < fm.len() && fm[a] == y;
                        if a < prev.len() {
                            assert(prev[a] == y);
                        }
                    }
                }
                assert forall|y: (usize, usize)| #[trigger] matched@.contains(y) implies exists|a: int|
                    0 <= a < k + 1 && y.1 == (#[trigger] q[a]).1[0] by {
                    if y == x {
                        assert(y.1 == q[k as int].1[0]);
                    } else {
                        assert(before.contains(y));
                    }
                }
            }
        } else {
            proof {
                assert(!has_term(d, q[k as int].0));
            }
        }
        k = k + 1;
    }
    proof {
        assert(q.take(k as int) =~= q);
    }
    let n = matched.len();
    if n == 0 {
        return None;
    }
    let mut gaps: Vec<usize> = Vec::new();
    let mut num_in_order: usize = 0;
    let mut i: usize = 1;
    proof {
        assert(matched@.take(1).len() < 2);
    }
    while i < n
        invariant
            n == matched@.len(),
            1 <= i <= n,
            sorted_pairs(matched@),
            gaps@.len() + 1 == i,
            forall|k: int| 0 <= k < gaps@.len() ==> #[trigger] gaps@[k] == matched@[k + 1].0 - matched@[k].0,
            num_in_order == in_order_count(matched@.take(i as int)),
            num_in_order < i,
        decreases n - i,
    {
        let (prev_document, prev_query) = matched[i - 1];
        let (document_position, query_position) = matched[i];
        proof {
            assert(pair_lt(matched@[i - 1], matched@[i as int]));
            let t = matched@.take(i as int + 1);
            assert(t.drop_last() =~= matched@.take(i as int));
            assert(t[t.len() - 1] == matched@[i as int]);
            assert(t[t.len() - 2] == matched@[i - 1]);
        }
        gaps.push(document_position - prev_document);
        if query_position > prev_query {
            num_in_order = num_in_order + 1;
        }
        i = i + 1;
    }
    proof {
        assert(matched@.take(i as int) =~= matched@);
    }
    let total = document.total_num_tokens();
    let num_tokens = if total < n {
        n
    } else {
        total
    };
    Some(
        SimilarityMatches {
            matched,
            gaps,
            num_in_order,
            num_tokens,
            query_unique_tokens: nq,
        },
    )
}

} // verus!
