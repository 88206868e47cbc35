//! Text-match features for a second-stage re-ranker, computed from the
//! analyzed tokens of a query and of a document field. The library computes
//! the counts, positions and matches that the features are made of; turning
//! them into ratios and scores is left to the caller.
pub mod element;
pub mod field_match;
pub mod greedy;
pub mod order;
pub mod text_match;

use vstd::prelude::*;

use crate::analyze::{token_views, Analyzer, ReusableBuffer, TokenView};
use crate::analyze::laws::law_positions_increase;
use crate::features::order::{
    lemma_term_lt_irreflexive, lemma_term_lt_total, lemma_term_lt_transitive, term_less, term_lt,
};
use crate::text::str_eq;

verus! {

/// The positions of the tokens of `tokens` whose text is `term`, in order.
pub open spec fn positions_of(tokens: Seq<TokenView>, term: Seq<char>) -> Seq<int>
    decreases tokens.len(),
{
    if tokens.len() == 0 {
        Seq::empty()
    } else if tokens.last().text == term {
        positions_of(tokens.drop_last(), term).push(tokens.last().position)
    } else {
        positions_of(tokens.drop_last(), term)
    }
}

/// Positions as integers.
pub open spec fn as_ints(s: Seq<usize>) -> Seq<int> {
    s.map_values(|p: usize| p as int)
}

/// Whether some token of `tokens` has the text `term`.
pub open spec fn has_text(tokens: Seq<TokenView>, term: Seq<char>) -> bool {
    exists|i: int| 0 <= i < tokens.len() && (#[trigger] tokens[i]).text == term
}

/// The number of positions in all `terms`, counting repeats.
pub open spec fn total_tokens(terms: Seq<(Seq<char>, Seq<usize>)>) -> nat
    decreases terms.len(),
{
    if terms.len() == 0 {
        0
    } else {
        total_tokens(terms.drop_last()) + terms.last().1.len()
    }
}

/// The index of the entry of `terms` for `term`, if any.
pub open spec fn has_term(terms: Seq<(Seq<char>, Seq<usize>)>, term: Seq<char>) -> bool {
    exists|k: int| 0 <= k < terms.len() && (#[trigger] terms[k]).0 == term
}

/// Whether `terms` is grouped from the tokens `tokens`: one entry per
/// distinct text, holding the positions of the tokens with that text.
pub open spec fn groups(terms: Seq<(Seq<char>, Seq<usize>)>, tokens: Seq<TokenView>) -> bool {
    &&& forall|k: int|
        0 <= k < terms.len() ==> #[trigger] as_ints(terms[k].1)
            == positions_of(tokens, terms[k].0)
    &&& forall|t: Seq<char>| has_text(tokens, t) <==> #[trigger] has_term(terms, t)
}

/// A sequence of positions that strictly increases.
pub open spec fn increasing(s: Seq<usize>) -> bool {
    forall|a: int, b: int| 0 <= a < b < s.len() ==> s[a] < s[b]
}

/// Texts strictly increase in the order of their UTF-8 bytes (so none
/// occurs twice); each text has at least one position; positions strictly
/// increase within a text and no two texts share one; the count of all
/// positions fits in `usize`.
pub open spec fn entries_wf(t: Seq<(Seq<char>, Seq<usize>)>) -> bool {
    &&& forall|a: int, b: int| 0 <= a < b < t.len() ==> term_lt(t[a].0, t[b].0)
    &&& forall|k: int| 0 <= k < t.len() ==> (#[trigger] t[k]).1.len() > 0 && increasing(t[k].1)
    &&& forall|a: int, b: int, x: int, y: int|
        0 <= a < t.len() && 0 <= b < t.len() && a != b && 0 <= x < t[a].1.len() && 0 <= y
            < t[b].1.len() ==> #[trigger] t[a].1[x] != #[trigger] t[b].1[y]
    &&& total_tokens(t) <= usize::MAX
}

/// No text occurs twice in well-formed entries.
pub proof fn lemma_terms_distinct(t: Seq<(Seq<char>, Seq<usize>)>)
    requires
        entries_wf(t),
    ensures
        forall|a: int, b: int|
            0 <= a < t.len() && 0 <= b < t.len() && a != b ==> #[trigger] t[a].0 != #[trigger] t[b].0,
{
    assert forall|a: int, b: int|
        0 <= a < t.len() && 0 <= b < t.len() && a != b implies #[trigger] t[a].0 != #[trigger] t[b].0 by {
        if a < b {
            lemma_term_lt_irreflexive(t[a].0);
        } else {
            lemma_term_lt_irreflexive(t[b].0);
        }
    }
}

/// The count of positions of a concatenation.
pub proof fn lemma_total_tokens_concat(
    a: Seq<(Seq<char>, Seq<usize>)>,
    b: Seq<(Seq<char>, Seq<usize>)>,
)
    ensures
        total_tokens(a + b) == total_tokens(a) + total_tokens(b),
    decreases b.len(),
{
    if b.len() > 0 {
        assert((a + b).drop_last() =~= a + b.drop_last());
        lemma_total_tokens_concat(a, b.drop_last());
    } else {
        assert(a + b =~= a);
    }
}

proof fn lemma_total_tokens_single(e: (Seq<char>, Seq<usize>))
    ensures
        total_tokens(seq![e]) == e.1.len(),
{
    assert(seq![e].drop_last() =~= Seq::<(Seq<char>, Seq<usize>)>::empty());
    assert(total_tokens(Seq::<(Seq<char>, Seq<usize>)>::empty()) == 0);
    assert(seq![e].last() == e);
}

proof fn lemma_positions_of_push(tokens: Seq<TokenView>, tok: TokenView, t: Seq<char>)
    ensures
        positions_of(tokens.push(tok), t) == if tok.text == t {
            positions_of(tokens, t).push(tok.position)
        } else {
            positions_of(tokens, t)
        },
        has_text(tokens.push(tok), t) == (has_text(tokens, t) || tok.text == t),
{
    assert(tokens.push(tok).drop_last() =~= tokens);
    assert(tokens.push(tok).last() == tok);
    if has_text(tokens, t) {
        let i = choose|i: int| 0 <= i < tokens.len() && (#[trigger] tokens[i]).text == t;
        assert(tokens.push(tok)[i] == tokens[i]);
    }
    if tok.text == t {
        assert(tokens.push(tok)[tokens.len() as int] == tok);
    }
    if has_text(tokens.push(tok), t) {
        let i = choose|i: int| 0 <= i < tokens.len() + 1 && (#[trigger] tokens.push(tok)[i]).text == t;
        if i < tokens.len() {
            assert(tokens[i] == tokens.push(tok)[i]);
        }
    }
}

/// Each position of `term` among `tokens` is that of a token with that text.
proof fn lemma_positions_of_members(tokens: Seq<TokenView>, t: Seq<char>)
    ensures
        forall|m: int|
            0 <= m < positions_of(tokens, t).len() ==> exists|j: int|
                0 <= j < tokens.len() && (#[trigger] tokens[j]).position == #[trigger] positions_of(
                    tokens,
                    t,
                )[m],
        positions_of(tokens, t).len() == 0 <==> !has_text(tokens, t),
    decreases tokens.len(),
{
    if tokens.len() > 0 {
        let init = tokens.drop_last();
        let tok = tokens.last();
        lemma_positions_of_members(init, t);
        assert(init.push(tok) =~= tokens);
        lemma_positions_of_push(init, tok, t);
        let p = positions_of(tokens, t);
        assert forall|m: int| 0 <= m < p.len() implies exists|j: int|
            0 <= j < tokens.len() && (#[trigger] tokens[j]).position == #[trigger] p[m] by {
            if m < positions_of(init, t).len() {
                let j = choose|j: int|
                    0 <= j < init.len() && (#[trigger] init[j]).position == #[trigger] positions_of(
                        init,
                        t,
                    )[m];
                assert(tokens[j] == init[j]);
            } else {
                assert(tokens[tokens.len() - 1] == tok);
            }
        }
    } else {
        assert(!has_text(tokens, t));
    }
}

/// Adds the token `text` at `position` to the entries `v` grouped from
/// `seen`; `position` comes after that of every token of `seen`.
fn add_token(
    v: &mut Vec<(String, Vec<usize>)>,
    text: &String,
    position: usize,
    Ghost(seen): Ghost<Seq<TokenView>>,
    Ghost(tok): Ghost<TokenView>,
)
    requires
        entries_wf(view_entries(old(v)@)),
        groups(view_entries(old(v)@), seen),
        total_tokens(view_entries(old(v)@)) < usize::MAX,
        forall|j: int| 0 <= j < seen.len() ==> (#[trigger] seen[j]).position < position,
        tok.text == text@,
        tok.position == position,
    ensures
        entries_wf(view_entries(final(v)@)),
        groups(view_entries(final(v)@), seen.push(tok)),
        total_tokens(view_entries(final(v)@)) == total_tokens(view_entries(old(v)@)) + 1,
{
    let ghost t0 = view_entries(v@);
    let mut k: usize = 0;
    let mut found = false;
    while k < v.len()
        invariant_except_break
            !found,
        invariant
            view_entries(v@) == t0,
            k <= t0.len(),
            forall|a: int| 0 <= a < k ==> term_lt(#[trigger] t0[a].0, text@),
        ensures
            k <= t0.len(),
            forall|a: int| 0 <= a < k ==> term_lt(#[trigger] t0[a].0, text@),
            found ==> k < t0.len() && t0[k as int].0 == text@,
            !found ==> k == t0.len() || (t0[k as int].0 != text@ && !term_lt(
                t0[k as int].0,
                text@,
            )),
        decreases t0.len() - k,
    {
        if str_eq(v[k].0.as_str(), text.as_str()) {
            found = true;
            break;
        }
        if !term_less(v[k].0.as_str(), text.as_str()) {
            break;
        }
        k = k + 1;
    }
    proof {
        lemma_terms_distinct(t0);
        lemma_positions_of_members(seen, text@);
        assert forall|u: Seq<char>| #[trigger] positions_of(seen.push(tok), u) == if tok.text == u {
            positions_of(seen, u).push(tok.position)
        } else {
            positions_of(seen, u)
        } by {
            lemma_positions_of_push(seen, tok, u);
        }
        assert forall|u: Seq<char>| #[trigger] has_text(seen.push(tok), u) == (has_text(seen, u)
            || tok.text == u) by {
            lemma_positions_of_push(seen, tok, u);
        }
        // Every position held so far is below `position`.
        assert forall|a: int, x: int|
            0 <= a < t0.len() && 0 <= x < t0[a].1.len() implies #[trigger] t0[a].1[x] < position by {
            lemma_positions_of_members(seen, t0[a].0);
            assert(as_ints(t0[a].1)[x] == t0[a].1[x] as int);
        }
    }
    if found {
        let (key, mut ps) = v.remove(k);
        ps.push(position);
        v.insert(k, (key, ps));
        proof {
            let t1 = view_entries(v@);
            assert(t1 =~= t0.update(k as int, (t0[k as int].0, t0[k as int].1.push(position))));
            assert(t0 =~= t0.take(k as int) + seq![t0[k as int]] + t0.skip(k as int + 1));
            assert(t1 =~= t0.take(k as int) + seq![t1[k as int]] + t0.skip(k as int + 1));
            lemma_total_tokens_concat(t0.take(k as int) + seq![t0[k as int]], t0.skip(k as int + 1));
            lemma_total_tokens_concat(t0.take(k as int), seq![t0[k as int]]);
            lemma_total_tokens_concat(t0.take(k as int) + seq![t1[k as int]], t0.skip(k as int + 1));
            lemma_total_tokens_concat(t0.take(k as int), seq![t1[k as int]]);
            lemma_total_tokens_single(t0[k as int]);
            lemma_total_tokens_single(t1[k as int]);
            assert forall|m: int| 0 <= m < t1.len() implies #[trigger] as_ints(t1[m].1) == positions_of(seen.push(tok), t1[m].0) by {
                if m == k {
                    assert(as_ints(t1[m].1) =~= as_ints(t0[m].1).push(position as int));
                } else {
                    assert(t1[m] == t0[m]);
                }
            }
            assert forall|u: Seq<char>| has_text(seen.push(tok), u) <==> #[trigger] has_term(t1, u) by {
                if has_term(t0, u) {
                    let a = choose|a: int| 0 <= a < t0.len() && (#[trigger] t0[a]).0 == u;
                    assert(t1[a].0 == u);
                }
                if has_term(t1, u) {
                    let a = choose|a: int| 0 <= a < t1.len() && (#[trigger] t1[a]).0 == u;
                    assert(t0[a].0 == u);
                }
            }
            assert forall|m: int| 0 <= m < t1.len() implies (#[trigger] t1[m]).1.len() > 0 && increasing(
                t1[m].1,
            ) by {
                if m != k {
                    assert(t1[m] == t0[m]);
                } else {
                    assert(t0[m].1.len() > 0);
                    assert(t0[m].1[t0[m].1.len() - 1] < position);
                }
            }
            assert forall|a: int, b: int, x: int, y: int|
                0 <= a < t1.len() && 0 <= b < t1.len() && a != b && 0 <= x < t1[a].1.len() && 0
                    <= y < t1[b].1.len() implies #[trigger] t1[a].1[x] != #[trigger] t1[b].1[y] by {
                if a == k {
                    assert(t1[b] == t0[b]);
                    if x < t0[a].1.len() {
                        assert(t1[a].1[x] == t0[a].1[x]);
                    }
                } else if b == k {
                    assert(t1[a] == t0[a]);
                    if y < t0[b].1.len() {
                        assert(t1[b].1[y] == t0[b].1[y]);
                    }
                } else {
                    assert(t1[a] == t0[a] && t1[b] == t0[b]);
                }
            }
        }
    } else {
        let key = text.clone();
        let mut ps: Vec<usize> = Vec::new();
        ps.push(position);
        v.insert(k, (key, ps));
        proof {
            let t1 = view_entries(v@);
            let e = (text@, seq![position]);
            assert(t1 =~= t0.take(k as int) + seq![e] + t0.skip(k as int));
            assert(t0 =~= t0.take(k as int) + t0.skip(k as int));
            lemma_total_tokens_concat(t0.take(k as int) + seq![e], t0.skip(k as int));
            lemma_total_tokens_concat(t0.take(k as int), seq![e]);
            lemma_total_tokens_concat(t0.take(k as int), t0.skip(k as int));
            lemma_total_tokens_single(e);
            if k < t0.len() {
                lemma_term_lt_total(t0[k as int].0, text@);
            }
            assert forall|a: int| k <= a < t0.len() implies term_lt(text@, #[trigger] t0[a].0) by {
                if a > k {
                    lemma_term_lt_transitive(text@, t0[k as int].0, t0[a].0);
                }
            }
            assert forall|a: int| 0 <= a < t0.len() implies #[trigger] t0[a].0 != text@ by {
                lemma_term_lt_irreflexive(text@);
            }
            assert(!has_term(t0, text@));
            assert(!has_text(seen, text@));
            assert forall|m: int| 0 <= m < t1.len() implies #[trigger] as_ints(t1[m].1) == positions_of(seen.push(tok), t1[m].0) by {
                if m < k {
                    assert(t1[m] == t0[m]);
                } else if m == k {
                    assert(as_ints(t1[m].1) =~= seq![position as int]);
                    assert(positions_of(seen, text@) =~= Seq::<int>::empty());
                } else {
                    assert(t1[m] == t0[m - 1]);
                }
            }
            assert forall|u: Seq<char>| has_text(seen.push(tok), u) <==> #[trigger] has_term(t1, u) by {
                if has_term(t0, u) {
                    let a = choose|a: int| 0 <= a < t0.len() && (#[trigger] t0[a]).0 == u;
                    if a < k {
                        assert(t1[a] == t0[a]);
                    } else {
                        assert(t1[a + 1] == t0[a]);
                    }
                }
                if u == text@ {
                    assert(t1[k as int].0 == u);
                }
                if has_term(t1, u) {
                    let a = choose|a: int| 0 <= a < t1.len() && (#[trigger] t1[a]).0 == u;
                    if a < k {
                        assert(t0[a] == t1[a]);
                    } else if a > k {
                        assert(t0[a - 1] == t1[a]);
                    }
                }
            }
            if k < t0.len() {
                lemma_term_lt_total(t0[k as int].0, text@);
            }
            assert forall|a: int, b: int| 0 <= a < b < t1.len() implies term_lt(t1[a].0, t1[b].0) by {
                if b < k {
                    assert(t1[a] == t0[a] && t1[b] == t0[b]);
                } else if b == k {
                    assert(t1[a] == t0[a]);
                } else if a == k {
                    assert(t1[b] == t0[b - 1]);
                    if b - 1 > k {
                        lemma_term_lt_transitive(text@, t0[k as int].0, t0[b - 1].0);
                    }
                } else if a < k {
                    assert(t1[a] == t0[a] && t1[b] == t0[b - 1]);
                } else {
                    assert(t1[a] == t0[a - 1] && t1[b] == t0[b - 1]);
                }
            }
            assert forall|m: int| 0 <= m < t1.len() implies (#[trigger] t1[m]).1.len() > 0 && increasing(
                t1[m].1,
            ) by {
                if m < k {
                    assert(t1[m] == t0[m]);
                } else if m > k {
                    assert(t1[m] == t0[m - 1]);
                }
            }
            assert forall|a: int, b: int, x: int, y: int|
                0 <= a < t1.len() && 0 <= b < t1.len() && a != b && 0 <= x < t1[a].1.len() && 0
                    <= y < t1[b].1.len() implies #[trigger] t1[a].1[x] != #[trigger] t1[b].1[y] by {
                let oa = if a < k { a } else { a - 1 };
                let ob = if b < k { b } else { b - 1 };
                if a == k {
                    assert(t1[b] == t0[ob]);
                } else if b == k {
                    assert(t1[a] == t0[oa]);
                } else {
                    assert(t1[a] == t0[oa] && t1[b] == t0[ob]);
                }
            }
        }
    }
}

/// The positions of `term` in `d`, empty where `d` lacks it.
pub open spec fn term_positions(d: Seq<(Seq<char>, Seq<usize>)>, term: Seq<char>) -> Seq<usize> {
    if has_term(d, term) {
        d[choose|k: int| 0 <= k < d.len() && (#[trigger] d[k]).0 == term].1
    } else {
        Seq::empty()
    }
}

/// The first positions of the query text at `k` and of its entry at `j` in
/// the document, which has the same text.
pub proof fn lemma_first_match(q: Seq<(Seq<char>, Seq<usize>)>, d: Seq<(Seq<char>, Seq<usize>)>, k: int, j: int)
    requires
        entries_wf(d),
        0 <= k < q.len(),
        0 <= j < d.len(),
        d[j].0 == q[k].0,
    ensures
        has_term(d, q[k].0),
        term_positions(d, q[k].0) == d[j].1,
{
    lemma_terms_distinct(d);
    assert(d[j].0 == q[k].0);
}

/// The views of exec entries.
pub open spec fn view_entries(v: Seq<(String, Vec<usize>)>) -> Seq<(Seq<char>, Seq<usize>)> {
    v.map_values(|e: (String, Vec<usize>)| (e.0@, e.1@))
}

/// Analyzed text: each distinct token text with the positions at which it
/// occurs, texts in the order of their UTF-8 bytes.
pub struct Analyzed {
    tokens: Vec<(String, Vec<usize>)>,
}

impl Analyzed {
    /// See `entries_wf`.
    #[verifier::type_invariant]
    pub open spec fn wf(self) -> bool {
        entries_wf(self.terms())
    }

    /// The distinct texts with their positions.
    pub closed spec fn terms(self) -> Seq<(Seq<char>, Seq<usize>)> {
        view_entries(self.tokens@)
    }

    /// The number of tokens, counting repeats (the element length).
    pub fn total_num_tokens(&self) -> (n: usize)
        ensures
            n == total_tokens(self.terms()),
    {
        proof {
            use_type_invariant(self);
        }
        let ghost t = self.terms();
        let mut n: usize = 0;
        let mut k: usize = 0;
        while k < self.tokens.len()
            invariant
                t == self.terms(),
                k <= t.len(),
                n == total_tokens(t.take(k as int)),
                total_tokens(t) <= usize::MAX,
            decreases t.len() - k,
        {
            proof {
                assert(t.take(k as int + 1).drop_last() =~= t.take(k as int));
                assert(t =~= t.take(k as int + 1) + t.skip(k as int + 1));
                lemma_total_tokens_concat(t.take(k as int + 1), t.skip(k as int + 1));
            }
            n = n + self.tokens[k].1.len();
            k = k + 1;
        }
        proof {
            assert(t.take(k as int) =~= t);
        }
        n
    }

    /// The number of distinct tokens, ignoring repeats.
    pub fn num_unique_tokens(&self) -> (n: usize)
        ensures
            n == self.terms().len(),
    {
        self.tokens.len()
    }

    /// The index of the entry of `term`, if there is one.
    pub fn find(&self, term: &str) -> (r: Option<usize>)
        ensures
            match r {
                Some(k) => k < self.terms().len() && self.terms()[k as int].0 == term@,
                None => !has_term(self.terms(), term@),
            },
    {
        let mut k: usize = 0;
        while k < self.tokens.len()
            invariant
                k <= self.terms().len(),
                forall|a: int| 0 <= a < k ==> (#[trigger] self.terms()[a]).0 != term@,
            decreases self.terms().len() - k,
        {
            if str_eq(self.tokens[k].0.as_str(), term) {
                return Some(k);
            }
            k = k + 1;
        }
        None
    }

    /// The text of the entry at `k`.
    pub fn term(&self, k: usize) -> (r: &str)
        requires
            k < self.terms().len(),
        ensures
            r@ == self.terms()[k as int].0,
    {
        self.tokens[k].0.as_str()
    }

    /// The positions of the entry at `k`.
    pub fn positions(&self, k: usize) -> (r: &[usize])
        requires
            k < self.terms().len(),
        ensures
            r@ == self.terms()[k as int].1,
    {
        self.tokens[k].1.as_slice()
    }

    /// The tokens of `text` under `analyzer`, grouped by their text.
    pub fn from_text(analyzer: &Analyzer, buffer: &mut ReusableBuffer, text: &str) -> (r: Self)
        ensures
            groups(r.terms(), analyzer.spec_analyze(seq![text@])),
    {
        let list = analyzer.analyze(text, buffer);
        let ghost tv = token_views(list@);
        proof {
            let inputs = seq![text@];
            law_positions_increase(analyzer.spec_options(), analyzer.spec_stopwords(), inputs);
            assert(inputs.drop_last() =~= Seq::<Seq<char>>::empty());
            assert(analyzer.spec_options().inputs_tokens(
                analyzer.spec_stopwords(),
                Seq::<Seq<char>>::empty(),
            ) =~= Seq::<TokenView>::empty());
            assert(crate::analyze::word_count(Seq::<Seq<char>>::empty()) == 0);
            assert(inputs.last() == text@);
            assert(analyzer.spec_analyze(inputs) =~= tv);
        }
        let mut v: Vec<(String, Vec<usize>)> = Vec::new();
        let mut i: usize = 0;
        proof {
            assert(view_entries(v@) =~= Seq::<(Seq<char>, Seq<usize>)>::empty());
            assert(tv.take(0) =~= Seq::<TokenView>::empty());
            assert forall|u: Seq<char>| has_text(tv.take(0), u) <==> #[trigger] has_term(
                view_entries(v@),
                u,
            ) by {}
        }
        while i < list.len()
            invariant
                tv == token_views(list@),
                tv == analyzer.spec_analyze(seq![text@]),
                forall|a: int, b: int|
                    0 <= a < b < tv.len() ==> #[trigger] tv[a].position < #[trigger] tv[b].position,
                i <= list@.len(),
                entries_wf(view_entries(v@)),
                groups(view_entries(v@), tv.take(i as int)),
                total_tokens(view_entries(v@)) == i,
            decreases list@.len() - i,
        {
            let ghost seen = tv.take(i as int);
            proof {
                assert(tv[i as int] == list@[i as int]@);
                assert forall|j: int| 0 <= j < seen.len() implies (#[trigger] seen[j]).position
                    < list@[i as int].position by {
                    assert(seen[j] == tv[j]);
                    assert(tv[j].position < tv[i as int].position);
                }
            }
            add_token(&mut v, &list[i].text, list[i].position, Ghost(seen), Ghost(tv[i as int]));
            proof {
                let t = tv.take(i as int + 1);
                assert(t =~= seen.push(tv[i as int]));
            }
            i = i + 1;
        }
        proof {
            assert(tv.take(i as int) =~= tv);
        }
        Analyzed { tokens: v }
    }
}

} // verus!
