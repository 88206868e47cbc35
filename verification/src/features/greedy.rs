//! The greedy single-pass match behind the text-similarity and
//! element-similarity features.
//!
//! Every query-token occurrence whose text the document has is a candidate.
//! The match repeatedly takes, among the candidates left, the one that next
//! occurs in the document after the last matched position, earliest first
//! and by query position on ties, and consumes it.
use vstd::prelude::*;

use crate::features::{
    entries_wf, has_term, increasing, lemma_first_match, lemma_terms_distinct, term_positions,
    total_tokens, Analyzed,
};
use crate::features::element::in_order_count;

verus! {

broadcast use vstd::set::group_set_axioms;

/// The first of the increasing positions `ps` after `last`.
pub open spec fn next_after(ps: Seq<usize>, last: int) -> Option<usize>
    decreases ps.len(),
{
    if ps.len() == 0 {
        None
    } else if ps[0] > last {
        Some(ps[0])
    } else {
        next_after(ps.drop_first(), last)
    }
}

/// Whether the candidate at query position `idx`, next in the document at
/// `p` after `last`, is the one to match: no other candidate comes next
/// earlier, nor as early with a smaller query position.
pub open spec fn is_best(items: Map<usize, Seq<usize>>, last: int, idx: usize, p: usize) -> bool {
    &&& items.contains_key(idx)
    &&& next_after(items[idx], last) == Some(p)
    &&& forall|i: usize|
        #[trigger] items.contains_key(i) && next_after(items[i], last) is Some ==> (p < next_after(
            items[i],
            last,
        )->0 || (p == next_after(items[i], last)->0 && idx <= i))
}

/// The greedy match of the candidates `items` (query position to document
/// positions) after `last`: (document position, query position) pairs in
/// the order matched.
pub open spec fn greedy(items: Map<usize, Seq<usize>>, last: int) -> Seq<(usize, usize)>
    decreases items.dom().len(),
{
    let b = choose|b: (usize, usize)| is_best(items, last, b.1, b.0);
    if items.dom().finite() && is_best(items, last, b.1, b.0) {
        seq![b] + greedy(items.remove(b.1), b.0 as int)
    } else {
        Seq::empty()
    }
}

/// The candidates of a query and a document: each query position whose
/// text the document has, with the document positions of that text.
pub open spec fn candidates(q: Seq<(Seq<char>, Seq<usize>)>, d: Seq<(Seq<char>, Seq<usize>)>) -> Map<
    usize,
    Seq<usize>,
> {
    Map::new(
        |i: usize| exists|k: int| 0 <= k < q.len() && #[trigger] q[k].1.contains(i) && has_term(d, q[k].0),
        |i: usize| term_positions(d, q[choose|k: int| 0 <= k < q.len() && #[trigger] q[k].1.contains(i)].0),
    )
}

proof fn lemma_best_unique(items: Map<usize, Seq<usize>>, last: int, a: (usize, usize), b: (usize, usize))
    requires
        is_best(items, last, a.1, a.0),
        is_best(items, last, b.1, b.0),
    ensures
        a == b,
{
    assert(items.contains_key(b.1) && next_after(items[b.1], last) is Some);
    assert(items.contains_key(a.1) && next_after(items[a.1], last) is Some);
}

/// Unfolds `greedy` at a best candidate.
proof fn lemma_greedy_step(items: Map<usize, Seq<usize>>, last: int, idx: usize, p: usize)
    requires
        items.dom().finite(),
        is_best(items, last, idx, p),
    ensures
        greedy(items, last) == seq![(p, idx)] + greedy(items.remove(idx), p as int),
{
    let b = choose|b: (usize, usize)| is_best(items, last, b.1, b.0);
    assert(is_best(items, last, (p, idx).1, (p, idx).0));
    lemma_best_unique(items, last, b, (p, idx));
}

/// `greedy` is empty where no candidate is left.
proof fn lemma_greedy_empty(items: Map<usize, Seq<usize>>, last: int)
    requires
        items.dom() == Set::<usize>::empty(),
    ensures
        greedy(items, last) == Seq::<(usize, usize)>::empty(),
{
    let b = choose|b: (usize, usize)| is_best(items, last, b.1, b.0);
    assert(!items.contains_key(b.1));
}

proof fn lemma_next_after_gt(ps: Seq<usize>, last: int)
    ensures
        next_after(ps, last) matches Some(p) ==> p > last,
    decreases ps.len(),
{
    if ps.len() > 0 {
        lemma_next_after_gt(ps.drop_first(), last);
    }
}

proof fn lemma_next_after_none_later(ps: Seq<usize>, last: int, later: int)
    requires
        next_after(ps, last) is None,
        last <= later,
    ensures
        next_after(ps, later) is None,
    decreases ps.len(),
{
    if ps.len() > 0 {
        lemma_next_after_none_later(ps.drop_first(), last, later);
    }
}

/// The next position after `last` is the one at `c` when those before it
/// are not after `last`.
proof fn lemma_next_after_at(ps: Seq<usize>, last: int, c: int)
    requires
        increasing(ps),
        0 <= c <= ps.len(),
        c > 0 ==> ps[c - 1] <= last,
    ensures
        c < ps.len() && ps[c] > last ==> next_after(ps, last) == Some(ps[c]),
        c == ps.len() ==> next_after(ps, last) is None,
    decreases c,
{
    if c > 0 {
        assert(ps[0] <= last) by {
            if c - 1 > 0 {
                assert(ps[0] < ps[c - 1]);
            }
        }
        let t = ps.drop_first();
        assert(increasing(t));
        if c - 1 > 0 {
            assert(t[c - 2] == ps[c - 1]);
        }
        lemma_next_after_at(t, last, c - 1);
        if c < ps.len() {
            assert(t[c - 1] == ps[c]);
        }
    }
}

/// A candidate with no position after `last` never matches.
proof fn lemma_greedy_drop_dead(items: Map<usize, Seq<usize>>, last: int, k: usize)
    requires
        items.dom().finite(),
        items.contains_key(k),
        next_after(items[k], last) is None,
    ensures
        greedy(items, last) == greedy(items.remove(k), last),
    decreases items.dom().len(),
{
    let r = items.remove(k);
    let b = choose|b: (usize, usize)| is_best(items, last, b.1, b.0);
    let c = choose|b: (usize, usize)| is_best(r, last, b.1, b.0);
    if is_best(items, last, b.1, b.0) {
        assert(b.1 != k);
        assert(is_best(r, last, b.1, b.0));
        lemma_best_unique(r, last, b, c);
        lemma_next_after_gt(items[b.1], last);
        lemma_next_after_none_later(items[k], last, b.0 as int);
        assert(items.remove(b.1).contains_key(k));
        lemma_greedy_drop_dead(items.remove(b.1), b.0 as int, k);
        assert(items.remove(b.1).remove(k) =~= r.remove(b.1));
    } else if is_best(r, last, c.1, c.0) {
        assert(is_best(items, last, c.1, c.0));
    }
}

/// The greedy match moves strictly forward through the document and
/// consumes each query occurrence at most once: every match lies after
/// `last` and after the match before it, and each is a candidate's query
/// position with one of its document positions, no query position twice.
pub proof fn law_greedy_forward_and_once(items: Map<usize, Seq<usize>>, last: int)
    ensures
        ({
            let g = greedy(items, last);
            &&& forall|a: int, b: int| 0 <= a < b < g.len() ==> #[trigger] g[a].0 < #[trigger] g[b].0
            &&& forall|a: int, b: int|
                0 <= a < b < g.len() ==> #[trigger] g[a].1 != #[trigger] g[b].1
            &&& forall|a: int|
                0 <= a < g.len() ==> last < (#[trigger] g[a]).0 && items.contains_key(g[a].1)
                    && items[g[a].1].contains(g[a].0)
        }),
    decreases items.dom().len(),
{
    let b = choose|b: (usize, usize)| is_best(items, last, b.1, b.0);
    if items.dom().finite() && is_best(items, last, b.1, b.0) {
        let rest = items.remove(b.1);
        law_greedy_forward_and_once(rest, b.0 as int);
        let g = greedy(items, last);
        let r = greedy(rest, b.0 as int);
        assert(g == seq![b] + r);
        lemma_next_after_gt(items[b.1], last);
        lemma_next_after_member(items[b.1], last);
        assert forall|a: int, c: int| 0 <= a < c < g.len() implies #[trigger] g[a].0 < #[trigger] g[c].0 by {
            if a > 0 {
                assert(g[a] == r[a - 1] && g[c] == r[c - 1]);
            } else {
                assert(g[c] == r[c - 1]);
            }
        }
        assert forall|a: int, c: int| 0 <= a < c < g.len() implies #[trigger] g[a].1 != #[trigger] g[c].1 by {
            if a > 0 {
                assert(g[a] == r[a - 1] && g[c] == r[c - 1]);
            } else {
                assert(g[c] == r[c - 1]);
                assert(rest.contains_key(r[c - 1].1));
            }
        }
        assert forall|a: int| 0 <= a < g.len() implies last < (#[trigger] g[a]).0 && items.contains_key(
            g[a].1,
        ) && items[g[a].1].contains(g[a].0) by {
            if a > 0 {
                assert(g[a] == r[a - 1]);
                assert(rest.contains_key(r[a - 1].1));
            }
        }
    }
}

/// The next position after `last`, where there is one, is one of `ps`.
proof fn lemma_next_after_member(ps: Seq<usize>, last: int)
    ensures
        next_after(ps, last) matches Some(p) ==> ps.contains(p),
    decreases ps.len(),
{
    if ps.len() > 0 {
        lemma_next_after_member(ps.drop_first(), last);
        if ps[0] <= last {
            if next_after(ps.drop_first(), last) is Some {
                let p = next_after(ps.drop_first(), last)->0;
                let k = choose|k: int| 0 <= k < ps.drop_first().len() && ps.drop_first()[k] == p;
                assert(ps[k + 1] == p);
            }
        } else {
            assert(ps[0] == ps[0]);
        }
    }
}

/// A query position together with the document entry of its text and how
/// far into that entry's positions the match has moved.
#[derive(Clone, Copy)]
struct Item {
    idx: usize,
    entry: usize,
    cursor: usize,
}

/// The document positions of the item's text.
spec fn pos_seq(d: Seq<(Seq<char>, Seq<usize>)>, it: Item) -> Seq<usize> {
    d[it.entry as int].1
}

/// What is left of an item's work.
spec fn weight(d: Seq<(Seq<char>, Seq<usize>)>, it: Item) -> int {
    pos_seq(d, it).len() - it.cursor + 1
}

/// The candidates the items stand for.
spec fn item_map(items: Seq<Item>, d: Seq<(Seq<char>, Seq<usize>)>) -> Map<usize, Seq<usize>> {
    Map::new(
        |i: usize| exists|a: int| 0 <= a < items.len() && (#[trigger] items[a]).idx == i,
        |i: usize| pos_seq(d, items[choose|a: int| 0 <= a < items.len() && (#[trigger] items[a]).idx == i]),
    )
}

/// What is left of the match's work: positions not passed yet, plus one
/// per item.
spec fn work(items: Seq<Item>, d: Seq<(Seq<char>, Seq<usize>)>) -> int
    decreases items.len(),
{
    if items.len() == 0 {
        0
    } else {
        work(items.drop_last(), d) + weight(d, items.last())
    }
}

proof fn lemma_work_update(items: Seq<Item>, d: Seq<(Seq<char>, Seq<usize>)>, f: int, x: Item)
    requires
        0 <= f < items.len(),
    ensures
        work(items.update(f, x), d) == work(items, d) - weight(d, items[f]) + weight(d, x),
    decreases items.len(),
{
    let u = items.update(f, x);
    if f == items.len() - 1 {
        assert(u.drop_last() =~= items.drop_last());
    } else {
        assert(u.drop_last() =~= items.drop_last().update(f, x));
        lemma_work_update(items.drop_last(), d, f, x);
    }
}

proof fn lemma_work_nonneg(items: Seq<Item>, d: Seq<(Seq<char>, Seq<usize>)>)
    requires
        items_wf(items, d),
    ensures
        work(items, d) >= 0,
    decreases items.len(),
{
    if items.len() > 0 {
        let init = items.drop_last();
        assert forall|a: int, b: int|
            0 <= a < init.len() && 0 <= b < init.len() && a != b implies #[trigger] init[a].idx
                != #[trigger] init[b].idx by {
            assert(init[a] == items[a] && init[b] == items[b]);
        }
        assert forall|a: int| 0 <= a < init.len() implies (#[trigger] init[a]).entry < d.len()
            && init[a].cursor < pos_seq(d, init[a]).len() by {
            assert(init[a] == items[a]);
        }
        lemma_work_nonneg(init, d);
        assert(items.last() == items[items.len() - 1]);
    }
}

/// Items well formed against the document entries `d`.
spec fn items_wf(items: Seq<Item>, d: Seq<(Seq<char>, Seq<usize>)>) -> bool {
    &&& forall|a: int|
        0 <= a < items.len() ==> (#[trigger] items[a]).entry < d.len() && items[a].cursor
            < pos_seq(d, items[a]).len()
    &&& forall|a: int, b: int|
        0 <= a < items.len() && 0 <= b < items.len() && a != b ==> #[trigger] items[a].idx
            != #[trigger] items[b].idx
}

proof fn lemma_item_map_at(items: Seq<Item>, d: Seq<(Seq<char>, Seq<usize>)>, a: int)
    requires
        items_wf(items, d),
        0 <= a < items.len(),
    ensures
        item_map(items, d).contains_key(items[a].idx),
        item_map(items, d)[items[a].idx] == pos_seq(d, items[a]),
{
    let i = items[a].idx;
    assert(items[a].idx == i);
    let c = choose|c: int| 0 <= c < items.len() && (#[trigger] items[c]).idx == i;
    assert(c == a);
}

/// The query positions of the items.
spec fn idxs(items: Seq<Item>) -> Seq<usize> {
    items.map_values(|it: Item| it.idx)
}

proof fn lemma_item_map_finite(items: Seq<Item>, d: Seq<(Seq<char>, Seq<usize>)>)
    ensures
        item_map(items, d).dom().finite(),
{
    let s = idxs(items).to_set();
    assert(item_map(items, d).dom() =~= s) by {
        assert forall|i: usize| item_map(items, d).dom().contains(i) implies s.contains(i) by {
            let a = choose|a: int| 0 <= a < items.len() && (#[trigger] items[a]).idx == i;
            assert(idxs(items)[a] == i);
        }
        assert forall|i: usize| s.contains(i) implies item_map(items, d).dom().contains(i) by {
            let a = choose|a: int| 0 <= a < items.len() && #[trigger] idxs(items)[a] == i;
            assert(items[a].idx == i);
        }
    }
    vstd::seq_lib::seq_to_set_is_finite(idxs(items));
}

/// Moving an item's cursor leaves the candidates as they were.
proof fn lemma_item_map_cursor(items: Seq<Item>, d: Seq<(Seq<char>, Seq<usize>)>, f: int, x: Item)
    requires
        items_wf(items, d),
        0 <= f < items.len(),
        x.idx == items[f].idx,
        x.entry == items[f].entry,
        x.cursor < pos_seq(d, x).len(),
    ensures
        items_wf(items.update(f, x), d),
        item_map(items.update(f, x), d) == item_map(items, d),
{
    let u = items.update(f, x);
    assert forall|a: int| 0 <= a < u.len() implies (#[trigger] u[a]).entry < d.len() && u[a].cursor
        < pos_seq(d, u[a]).len() by {
        if a != f {
            assert(u[a] == items[a]);
        }
    }
    assert forall|a: int, b: int|
        0 <= a < u.len() && 0 <= b < u.len() && a != b implies #[trigger] u[a].idx != #[trigger] u[b].idx by {
        assert(u[a].idx == items[a].idx && u[b].idx == items[b].idx);
    }
    assert forall|i: usize| #[trigger] item_map(u, d).contains_key(i) == item_map(items, d).contains_key(i) by {
        if item_map(u, d).contains_key(i) {
            let a = choose|a: int| 0 <= a < u.len() && (#[trigger] u[a]).idx == i;
            assert(items[a].idx == i);
        }
        if item_map(items, d).contains_key(i) {
            let a = choose|a: int| 0 <= a < items.len() && (#[trigger] items[a]).idx == i;
            assert(u[a].idx == i);
        }
    }
    assert forall|i: usize| #[trigger] item_map(u, d).contains_key(i) implies item_map(u, d)[i]
        == item_map(items, d)[i] by {
        let a = choose|a: int| 0 <= a < u.len() && (#[trigger] u[a]).idx == i;
        lemma_item_map_at(u, d, a);
        assert(items[a].idx == i);
        lemma_item_map_at(items, d, a);
    }
    assert(item_map(u, d) =~= item_map(items, d));
}

/// Removing an item (as `swap_remove` does) removes its candidate.
proof fn lemma_item_map_swap_remove(items: Seq<Item>, d: Seq<(Seq<char>, Seq<usize>)>, f: int)
    requires
        items_wf(items, d),
        0 <= f < items.len(),
    ensures
        items_wf(items.update(f, items.last()).drop_last(), d),
        item_map(items.update(f, items.last()).drop_last(), d) == item_map(items, d).remove(
            items[f].idx,
        ),
        work(items.update(f, items.last()).drop_last(), d) == work(items, d) - weight(d, items[f]),
{
    let n = items.len();
    let u = items.update(f, items.last()).drop_last();
    // where each item of `u` came from
    assert forall|a: int| 0 <= a < u.len() implies #[trigger] u[a] == items[if a == f {
        n - 1
    } else {
        a
    }] by {}
    assert forall|a: int| 0 <= a < u.len() implies (#[trigger] u[a]).entry < d.len() && u[a].cursor
        < pos_seq(d, u[a]).len() by {
        assert(u[a] == items[if a == f { n - 1 } else { a }]);
    }
    assert forall|a: int, b: int|
        0 <= a < u.len() && 0 <= b < u.len() && a != b implies #[trigger] u[a].idx != #[trigger] u[b].idx by {
        assert(u[a] == items[if a == f { n - 1 } else { a }]);
        assert(u[b] == items[if b == f { n - 1 } else { b }]);
    }
    let m = item_map(items, d).remove(items[f].idx);
    assert forall|i: usize| #[trigger] item_map(u, d).contains_key(i) == m.contains_key(i) by {
        if item_map(u, d).contains_key(i) {
            let a = choose|a: int| 0 <= a < u.len() && (#[trigger] u[a]).idx == i;
            let o = if a == f { n - 1 } else { a };
            assert(items[o].idx == i);
            assert(o != f);
        }
        if m.contains_key(i) {
            let a = choose|a: int| 0 <= a < items.len() && (#[trigger] items[a]).idx == i;
            assert(a != f);
            if a == n - 1 {
                assert(u[f].idx == i);
            } else {
                assert(u[a].idx == i);
            }
        }
    }
    assert forall|i: usize| #[trigger] item_map(u, d).contains_key(i) implies item_map(u, d)[i]
        == m[i] by {
        let a = choose|a: int| 0 <= a < u.len() && (#[trigger] u[a]).idx == i;
        let o = if a == f { n - 1 } else { a };
        lemma_item_map_at(u, d, a);
        lemma_item_map_at(items, d, o);
    }
    assert(item_map(u, d) =~= m);
    lemma_work_update(items, d, f, items.last());
    assert(items.update(f, items.last()).last() == items.last());
}

/// The result of the greedy match.
#[derive(Debug)]
pub struct GreedyMatch {
    /// (document position, query position) pairs in the order matched.
    pub matched: Vec<(usize, usize)>,
    /// The distance in the document from each match to the next.
    pub gaps: Vec<usize>,
    /// How many matches come after the previous one in query order too.
    pub num_in_order: usize,
    /// Tokens of the document, counting repeats.
    pub field_length: usize,
    /// Tokens of the query, counting repeats.
    pub query_terms: usize,
}

/// Index of the item whose current document position is smallest, ties
/// going to the smaller query position.
fn front(items: &Vec<Item>, document: &Analyzed) -> (best: usize)
    requires
        items@.len() > 0,
        items_wf(items@, document.terms()),
    ensures
        best < items@.len(),
        forall|a: int|
            0 <= a < items@.len() ==> {
                let pa = document.terms()[items@[a].entry as int].1[items@[a].cursor as int];
                let pb = document.terms()[items@[best as int].entry as int].1[items@[
                best as int].cursor as int];
                pb < pa || (pb == pa && items@[best as int].idx <= (#[trigger] items@[a]).idx)
            },
{
    let ghost d = document.terms();
    let mut best: usize = 0;
    let mut i: usize = 1;
    while i < items.len()
        invariant
            d == document.terms(),
            items_wf(items@, d),
            1 <= i <= items@.len(),
            best < i,
            forall|a: int|
                0 <= a < i ==> {
                    let pa = d[items@[a].entry as int].1[items@[a].cursor as int];
                    let pb = d[items@[best as int].entry as int].1[items@[best as int].cursor as int];
                    pb < pa || (pb == pa && items@[best as int].idx <= (#[trigger] items@[a]).idx)
                },
        decreases items@.len() - i,
    {
        let pi = document.positions(items[i].entry)[items[i].cursor];
        let pb = document.positions(items[best].entry)[items[best].cursor];
        if pi < pb || (pi == pb && items[i].idx < items[best].idx) {
            best = i;
        }
        i = i + 1;
    }
    best
}

/// Whether some item stands for the query position `i`.
spec fn covers(items: Seq<Item>, i: usize) -> bool {
    exists|a: int| 0 <= a < items.len() && (#[trigger] items[a]).idx == i
}

/// Adds an item for each query position of the query entry `k`, whose
/// text is the document entry `j`.
fn push_items(
    items: &mut Vec<Item>,
    query: &Analyzed,
    k: usize,
    j: usize,
    Ghost(d): Ghost<Seq<(Seq<char>, Seq<usize>)>>,
    Ghost(origin): Ghost<Seq<int>>,
) -> (new_origin: Ghost<Seq<int>>)
    requires
        entries_wf(query.terms()),
        k < query.terms().len(),
        j < d.len(),
        d[j as int].0 == query.terms()[k as int].0,
        d[j as int].1.len() > 0,
        items_wf(old(items)@, d),
        origin.len() == old(items)@.len(),
        forall|a: int| 0 <= a < old(items)@.len() ==> (#[trigger] old(items)@[a]).cursor == 0,
        forall|a: int|
            0 <= a < old(items)@.len() ==> 0 <= #[trigger] origin[a] < k && query.terms()[origin[a]].1.contains(
                old(items)@[a].idx,
            ) && d[old(items)@[a].entry as int].0 == query.terms()[origin[a]].0,
    ensures
        items_wf(final(items)@, d),
        new_origin@.len() == final(items)@.len(),
        final(items)@.len() == old(items)@.len() + query.terms()[k as int].1.len(),
        forall|a: int| 0 <= a < old(items)@.len() ==> #[trigger] final(items)@[a] == old(items)@[a]
            && new_origin@[a] == origin[a],
        forall|a: int| 0 <= a < final(items)@.len() ==> (#[trigger] final(items)@[a]).cursor == 0,
        forall|a: int|
            0 <= a < final(items)@.len() ==> 0 <= #[trigger] new_origin@[a] <= k && query.terms()[new_origin@[a]].1.contains(
                final(items)@[a].idx,
            ) && d[final(items)@[a].entry as int].0 == query.terms()[new_origin@[a]].0,
        forall|x: int|
            0 <= x < query.terms()[k as int].1.len() ==> covers(
                final(items)@,
                #[trigger] query.terms()[k as int].1[x],
            ),
{
    let ghost q = query.terms();
    let ghost n0 = items@.len();
    let ghost mut og = origin;
    let ps = query.positions(k);
    let mut x: usize = 0;
    while x < ps.len()
        invariant
            q == query.terms(),
            entries_wf(q),
            k < q.len(),
            ps@ == q[k as int].1,
            j < d.len(),
            d[j as int].0 == q[k as int].0,
            d[j as int].1.len() > 0,
            x <= ps@.len(),
            items_wf(items@, d),
            og.len() == items@.len(),
            items@.len() == n0 + x,
            forall|a: int| 0 <= a < n0 ==> #[trigger] items@[a] == old(items)@[a] && og[a] == origin[a],
            forall|a: int| 0 <= a < items@.len() ==> (#[trigger] items@[a]).cursor == 0,
            forall|a: int|
                0 <= a < items@.len() ==> 0 <= #[trigger] og[a] <= k && q[og[a]].1.contains(
                    items@[a].idx,
                ) && d[items@[a].entry as int].0 == q[og[a]].0,
            forall|a: int| n0 <= a < items@.len() ==> og[a] == k && (#[trigger] items@[a]).idx == ps@[a - n0],
            forall|a: int| 0 <= a < n0 ==> og[a] < k,
        decreases ps@.len() - x,
    {
        let idx = ps[x];
        proof {
            assert forall|a: int| 0 <= a < items@.len() implies (#[trigger] items@[a]).idx != idx by {
                if a < n0 {
                    let o = og[a];
                    let y = choose|y: int| 0 <= y < q[o].1.len() && q[o].1[y] == items@[a].idx;
                    assert(q[o].1[y] != q[k as int].1[x as int]);
                } else {
                    assert(items@[a].idx == ps@[a - n0]);
                    assert(ps@[a - n0] < ps@[x as int]);
                }
            }
        }
        items.push(Item { idx, entry: j, cursor: 0 });
        proof {
            og = og.push(k as int);
            assert(q[k as int].1[x as int] == idx);
            assert(q[k as int].1.contains(idx));
            let it = items@;
            assert forall|a: int, b: int|
                0 <= a < it.len() && 0 <= b < it.len() && a != b implies #[trigger] it[a].idx
                    != #[trigger] it[b].idx by {
                if a == it.len() - 1 {
                    assert(it[b] == old(items)@[b] || b >= n0);
                } else if b == it.len() - 1 {
                } else {
                    assert(it[a] == items@[a]);
                }
            }
        }
        x = x + 1;
    }
    proof {
        assert forall|y: int| 0 <= y < query.terms()[k as int].1.len() implies covers(
            items@,
            #[trigger] query.terms()[k as int].1[y],
        ) by {
            assert(items@[n0 + y].idx == ps@[y]);
            assert(0 <= n0 + y < items@.len());
        }
    }
    Ghost(og)
}

/// The greedy match of the query's token occurrences in the document, with
/// the gaps between matches and how many keep query order; `None` where
/// the document has none of the query's tokens.
pub fn greedy_match(query: &Analyzed, document: &Analyzed) -> (r: Option<GreedyMatch>)
    ensures
        r is None <==> candidates(query.terms(), document.terms()).dom() == Set::<usize>::empty(),
        r matches Some(m) ==> {
            let g = greedy(candidates(query.terms(), document.terms()), -1);
            &&& m.matched@ == g
            &&& m.gaps@.len() + 1 == g.len()
            &&& forall|k: int| 0 <= k < m.gaps@.len() ==> #[trigger] m.gaps@[k] == g[k + 1].0 - g[k].0
            &&& m.num_in_order == in_order_count(g)
            &&& m.field_length == total_tokens(document.terms())
            &&& m.query_terms == total_tokens(query.terms())
        },
{
    proof {
        use_type_invariant(query);
        use_type_invariant(document);
    }
    let ghost q = query.terms();
    let ghost d = document.terms();
    let mut items: Vec<Item> = Vec::new();
    let ghost mut origin: Seq<int> = Seq::empty();
    let nq = query.num_unique_tokens();
    let mut k: usize = 0;
    while k < nq
        invariant
            q == query.terms(),
            d == document.terms(),
            entries_wf(q),
            entries_wf(d),
            nq == q.len(),
            k <= nq,
            items_wf(items@, d),
            origin.len() == items@.len(),
            forall|a: int| 0 <= a < items@.len() ==> (#[trigger] items@[a]).cursor == 0,
            forall|a: int|
                0 <= a < items@.len() ==> 0 <= #[trigger] origin[a] < k && q[origin[a]].1.contains(
                    items@[a].idx,
                ) && d[items@[a].entry as int].0 == q[origin[a]].0,
            forall|k2: int, x: int|
                0 <= k2 < k && 0 <= x < q[k2].1.len() && has_term(d, q[k2].0) ==> covers(
                    items@,
                    #[trigger] q[k2].1[x],
                ),
        decreases nq - k,
    {
        if let Some(j) = document.find(query.term(k)) {
            let ghost before = items@;
            let Ghost(o) = push_items(&mut items, query, k, j, Ghost(d), Ghost(origin));
            proof {
                origin = o;
                assert forall|k2: int, x: int|
                    0 <= k2 < k + 1 && 0 <= x < q[k2].1.len() && has_term(d, q[k2].0) implies covers(
                        items@,
                        #[trigger] q[k2].1[x],
                    ) by {
                    if k2 < k {
                        assert(covers(before, q[k2].1[x]));
                        let a = choose|a: int| 0 <= a < before.len() && (#[trigger] before[a]).idx == q[k2].1[x];
                        assert(items@[a] == before[a]);
                    }
                }
            }
        } else {
            proof {
                assert forall|k2: int, x: int|
                    0 <= k2 < k + 1 && 0 <= x < q[k2].1.len() && has_term(d, q[k2].0) implies covers(
                        items@,
                        #[trigger] q[k2].1[x],
                    ) by {
                    assert(k2 != k);
                }
            }
        }
        k = k + 1;
    }
    let ghost m0 = candidates(q, d);
    proof {
        lemma_terms_distinct(q);
        lemma_terms_distinct(d);
        assert forall|i: usize| #[trigger] item_map(items@, d).contains_key(i) == m0.contains_key(i) by {
            if item_map(items@, d).contains_key(i) {
                let a = choose|a: int| 0 <= a < items@.len() && (#[trigger] items@[a]).idx == i;
                let o = origin[a];
                assert(q[o].1.contains(i));
                assert(d[items@[a].entry as int].0 == q[o].0);
                assert(has_term(d, q[o].0));
            }
            if m0.contains_key(i) {
                let k2 = choose|k2: int| 0 <= k2 < q.len() && #[trigger] q[k2].1.contains(i) && has_term(d, q[k2].0);
                let x = choose|x: int| 0 <= x < q[k2].1.len() && q[k2].1[x] == i;
                assert(q[k2].1[x] == i);
                assert(covers(items@, q[k2].1[x]));
                let a = choose|a: int| 0 <= a < items@.len() && (#[trigger] items@[a]).idx == q[k2].1[x];
                assert(items@[a].idx == i);
            }
        }
        assert forall|i: usize| #[trigger] item_map(items@, d).contains_key(i) implies item_map(items@, d)[i] == m0[i] by {
            let a = choose|a: int| 0 <= a < items@.len() && (#[trigger] items@[a]).idx == i;
            lemma_item_map_at(items@, d, a);
            let o = origin[a];
            let c = choose|c: int| 0 <= c < q.len() && #[trigger] q[c].1.contains(i);
            assert(q[o].1.contains(i));
            if c != o {
                let y1 = choose|y: int| 0 <= y < q[c].1.len() && q[c].1[y] == i;
                let y2 = choose|y: int| 0 <= y < q[o].1.len() && q[o].1[y] == i;
                assert(q[c].1[y1] != q[o].1[y2]);
            }
            lemma_first_match(q, d, o, items@[a].entry as int);
        }
        assert(item_map(items@, d) =~= m0);
        lemma_item_map_finite(items@, d);
    }
    if items.len() == 0 {
        proof {
            assert(m0.dom() =~= Set::<usize>::empty());
        }
        return None;
    }
    let field_length = document.total_num_tokens();
    let query_terms = query.total_num_tokens();
    // The first match: the earliest first occurrence of any candidate.
    let f = front(&items, document);
    let ghost before = items@;
    proof {
        assert forall|i: usize| #[trigger] m0.contains_key(i) && next_after(m0[i], -1) is Some implies ({
            let pb = pos_seq(d, before[f as int])[0];
            pb < next_after(m0[i], -1)->0 || (pb == next_after(m0[i], -1)->0 && before[f as int].idx <= i)
        }) by {
            let a = choose|a: int| 0 <= a < before.len() && (#[trigger] before[a]).idx == i;
            lemma_item_map_at(before, d, a);
            lemma_next_after_at(pos_seq(d, before[a]), -1, 0);
        }
        lemma_item_map_at(before, d, f as int);
        lemma_next_after_at(pos_seq(d, before[f as int]), -1, 0);
        assert(is_best(m0, -1, before[f as int].idx, pos_seq(d, before[f as int])[0]));
        lemma_greedy_step(m0, -1, before[f as int].idx, pos_seq(d, before[f as int])[0]);
        lemma_item_map_swap_remove(before, d, f as int);
    }
    let n_items = items.len();
    let first = items.swap_remove(f);
    let mut last_pos: usize = document.positions(first.entry)[first.cursor];
    let mut last_idx: usize = first.idx;
    let mut matched: Vec<(usize, usize)> = Vec::new();
    matched.push((last_pos, last_idx));
    let mut gaps: Vec<usize> = Vec::new();
    let mut num_in_order: usize = 0;
    let ghost g = greedy(m0, -1);
    proof {
        lemma_item_map_finite(items@, d);
        assert(matched@ + greedy(item_map(items@, d), last_pos as int) =~= g);
        assert(in_order_count(matched@) == 0);
    }
    while items.len() > 0
        invariant
            d == document.terms(),
            entries_wf(d),
            items_wf(items@, d),
            forall|a: int|
                0 <= a < items@.len() && (#[trigger] items@[a]).cursor > 0 ==> pos_seq(d, items@[a])[items@[a].cursor - 1]
                    <= last_pos,
            matched@ + greedy(item_map(items@, d), last_pos as int) == g,
            matched@.len() >= 1,
            matched@.last() == (last_pos, last_idx),
            gaps@.len() + 1 == matched@.len(),
            forall|k: int| 0 <= k < gaps@.len() ==> #[trigger] gaps@[k] == matched@[k + 1].0 - matched@[k].0,
            num_in_order == in_order_count(matched@),
            num_in_order < matched@.len(),
            matched@.len() + items@.len() <= n_items,
        decreases work(items@, d),
    {
        let f = front(&items, document);
        let it = items[f];
        let ps = document.positions(it.entry);
        let pos = ps[it.cursor];
        let ghost before = items@;
        let ghost mb = item_map(before, d);
        proof {
            lemma_work_nonneg(before, d);
            lemma_item_map_finite(before, d);
            lemma_item_map_at(before, d, f as int);
        }
        if pos > last_pos {
            proof {
                assert forall|i: usize| #[trigger] mb.contains_key(i) && next_after(mb[i], last_pos as int) is Some implies
                    (pos < next_after(mb[i], last_pos as int)->0 || (pos == next_after(mb[i], last_pos as int)->0
                        && it.idx <= i)) by {
                    let a = choose|a: int| 0 <= a < before.len() && (#[trigger] before[a]).idx == i;
                    lemma_item_map_at(before, d, a);
                    lemma_next_after_at(pos_seq(d, before[a]), last_pos as int, before[a].cursor as int);
                }
                lemma_next_after_at(pos_seq(d, before[f as int]), last_pos as int, it.cursor as int);
                assert(is_best(mb, last_pos as int, it.idx, pos));
                lemma_greedy_step(mb, last_pos as int, it.idx, pos);
                lemma_item_map_swap_remove(before, d, f as int);
                let mp = matched@.push((pos, it.idx));
                assert(mp.drop_last() =~= matched@);
                assert(mp[mp.len() - 2] == matched@.last());
            }
            gaps.push(pos - last_pos);
            if it.idx > last_idx {
                num_in_order = num_in_order + 1;
            }
            last_pos = pos;
            last_idx = it.idx;
            matched.push((pos, it.idx));
            items.swap_remove(f);
            proof {
                assert(work(items@, d) < work(before, d));
                lemma_work_nonneg(items@, d);
                assert(matched@ + greedy(item_map(items@, d), last_pos as int) =~= g);
                assert forall|a: int|
                    0 <= a < items@.len() && (#[trigger] items@[a]).cursor > 0 implies pos_seq(d, items@[a])[items@[a].cursor - 1]
                        <= last_pos by {
                    let o = if a == f { before.len() - 1 } else { a };
                    assert(items@[a] == before[o]);
                }
            }
        } else {
            let c = it.cursor + 1;
            if c >= ps.len() {
                proof {
                    lemma_next_after_at(pos_seq(d, before[f as int]), last_pos as int, c as int);
                    lemma_greedy_drop_dead(mb, last_pos as int, it.idx);
                    lemma_item_map_swap_remove(before, d, f as int);
                }
                items.swap_remove(f);
                proof {
                    assert(work(items@, d) < work(before, d));
                lemma_work_nonneg(items@, d);
                    assert forall|a: int|
                        0 <= a < items@.len() && (#[trigger] items@[a]).cursor > 0 implies pos_seq(d, items@[a])[items@[a].cursor - 1]
                            <= last_pos by {
                        let o = if a == f { before.len() - 1 } else { a };
                        assert(items@[a] == before[o]);
                    }
                }
            } else {
                let moved = Item { idx: it.idx, entry: it.entry, cursor: c };
                proof {
                    lemma_item_map_cursor(before, d, f as int, moved);
                    lemma_work_update(before, d, f as int, moved);
                }
                items.set(f, moved);
                proof {
                    assert(items@ == before.update(f as int, moved));
                    assert(work(items@, d) < work(before, d));
                lemma_work_nonneg(items@, d);
                    assert forall|a: int|
                        0 <= a < items@.len() && (#[trigger] items@[a]).cursor > 0 implies pos_seq(d, items@[a])[items@[a].cursor - 1]
                            <= last_pos by {
                        if a != f {
                            assert(items@[a] == before[a]);
                        }
                    }
                }
            }
        }
    }
    proof {
        assert(item_map(items@, d).dom() =~= Set::<usize>::empty());
        lemma_greedy_empty(item_map(items@, d), last_pos as int);
        assert(matched@ =~= g);
    }
    Some(GreedyMatch { matched, gaps, num_in_order, field_length, query_terms })
}

} // verus!
