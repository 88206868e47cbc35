//! What holds of every analysis: positions increase and count word-like
//! tokens, and each token's byte range recovers the raw text it was made of.
use vstd::prelude::*;

use crate::analyze::{lower_chars, word_count, word_spans, AnalysisOptions, TokenView};
use crate::text::{byte_offset, lemma_encode_utf8_span};
use vstd::utf8::encode_utf8;

verus! {

/// `t` is the token of span number `j` of `spans` of the input `chars`.
pub open spec fn token_of_span(
    options: AnalysisOptions,
    stopwords: Seq<Seq<char>>,
    chars: Seq<char>,
    spans: Seq<(int, int)>,
    input_index: int,
    first_position: int,
    t: TokenView,
    j: int,
) -> bool {
    &&& 0 <= j < spans.len()
    &&& t.position == first_position + j
    &&& t.start == byte_offset(chars, spans[j].0)
    &&& t.end == byte_offset(chars, spans[j].1)
    &&& t.input_index == input_index
    &&& options.normalize(stopwords, chars.subrange(spans[j].0, spans[j].1)) == Some(t.text)
}

proof fn lemma_span_tokens(
    options: AnalysisOptions,
    stopwords: Seq<Seq<char>>,
    chars: Seq<char>,
    spans: Seq<(int, int)>,
    input_index: int,
    first_position: int,
)
    ensures
        ({
            let t = options.span_tokens(stopwords, chars, spans, input_index, first_position);
            &&& forall|i: int|
                0 <= i < t.len() ==> token_of_span(
                    options,
                    stopwords,
                    chars,
                    spans,
                    input_index,
                    first_position,
                    #[trigger] t[i],
                    t[i].position - first_position,
                )
            &&& forall|i: int, k: int|
                0 <= i < k < t.len() ==> #[trigger] t[i].position < #[trigger] t[k].position
            &&& forall|i: int|
                0 <= i < t.len() ==> first_position <= #[trigger] t[i].position < first_position
                    + spans.len()
        }),
    decreases spans.len(),
{
    if spans.len() > 0 {
        let init = spans.drop_last();
        lemma_span_tokens(options, stopwords, chars, init, input_index, first_position);
        let prev = options.span_tokens(stopwords, chars, init, input_index, first_position);
        let t = options.span_tokens(stopwords, chars, spans, input_index, first_position);
        assert forall|i: int| 0 <= i < prev.len() implies token_of_span(
            options,
            stopwords,
            chars,
            spans,
            input_index,
            first_position,
            #[trigger] prev[i],
            prev[i].position - first_position,
        ) by {
            let j = prev[i].position - first_position;
            assert(token_of_span(
                options,
                stopwords,
                chars,
                init,
                input_index,
                first_position,
                prev[i],
                j,
            ));
            assert(spans[j] == init[j]);
            assert(token_of_span(
                options,
                stopwords,
                chars,
                spans,
                input_index,
                first_position,
                prev[i],
                j,
            ));
        }
        let last = spans.len() - 1;
        assert(init.len() == last);
        match options.normalize(stopwords, chars.subrange(spans[last].0, spans[last].1)) {
            Some(text) => {
                let x = TokenView {
                    text,
                    position: first_position + last,
                    start: byte_offset(chars, spans[last].0) as int,
                    end: byte_offset(chars, spans[last].1) as int,
                    input_index,
                };
                assert(t == prev.push(x));
                assert(token_of_span(
                    options,
                    stopwords,
                    chars,
                    spans,
                    input_index,
                    first_position,
                    x,
                    last,
                ));
                assert forall|i: int| 0 <= i < t.len() implies token_of_span(
                    options,
                    stopwords,
                    chars,
                    spans,
                    input_index,
                    first_position,
                    #[trigger] t[i],
                    t[i].position - first_position,
                ) by {
                    if i < prev.len() {
                        assert(t[i] == prev[i]);
                    } else {
                        assert(t[i] == x);
                    }
                }
                assert forall|i: int, k: int| 0 <= i < k < t.len() implies #[trigger] t[i].position
                    < #[trigger] t[k].position by {
                    if k < prev.len() {
                        assert(t[i] == prev[i] && t[k] == prev[k]);
                    } else {
                        assert(t[i] == prev[i] && t[k] == x);
                    }
                }
                assert forall|i: int| 0 <= i < t.len() implies first_position <= #[trigger] t[i].position
                    < first_position + spans.len() by {
                    if i < prev.len() {
                        assert(t[i] == prev[i]);
                    }
                }
            },
            None => {
                assert(t == prev);
                assert forall|i: int| 0 <= i < t.len() implies token_of_span(
                    options,
                    stopwords,
                    chars,
                    spans,
                    input_index,
                    first_position,
                    #[trigger] t[i],
                    t[i].position - first_position,
                ) by {
                    assert(t[i] == prev[i]);
                }
            },
        }
    }
}

/// Token positions strictly increase across all inputs, stay below the
/// number of word-like tokens of the inputs (every word-like token takes
/// one, dropped or not), and input indices never decrease and name an input.
pub proof fn law_positions_increase(
    options: AnalysisOptions,
    stopwords: Seq<Seq<char>>,
    inputs: Seq<Seq<char>>,
)
    ensures
        ({
            let t = options.inputs_tokens(stopwords, inputs);
            &&& forall|i: int, k: int|
                0 <= i < k < t.len() ==> #[trigger] t[i].position < #[trigger] t[k].position
                    && t[i].input_index <= t[k].input_index
            &&& forall|i: int|
                0 <= i < t.len() ==> 0 <= #[trigger] t[i].position < word_count(inputs) && 0
                    <= t[i].input_index < inputs.len()
        }),
    decreases inputs.len(),
{
    if inputs.len() > 0 {
        let init = inputs.drop_last();
        let k = inputs.len() - 1;
        law_positions_increase(options, stopwords, init);
        let a = options.inputs_tokens(stopwords, init);
        let wc = word_count(init) as int;
        let b = options.input_tokens(stopwords, inputs[k], k, wc);
        lemma_span_tokens(options, stopwords, inputs[k], word_spans(inputs[k]), k, wc);
        let t = options.inputs_tokens(stopwords, inputs);
        assert(t == a + b);
        assert forall|i: int| 0 <= i < b.len() implies (#[trigger] b[i]).input_index == k by {
            assert(token_of_span(
                options,
                stopwords,
                inputs[k],
                word_spans(inputs[k]),
                k,
                wc,
                b[i],
                b[i].position - wc,
            ));
        }
        assert(inputs.last() == inputs[k]);
        assert forall|i: int, m: int| 0 <= i < m < t.len() implies #[trigger] t[i].position
            < #[trigger] t[m].position && t[i].input_index <= t[m].input_index by {
            if m < a.len() {
                assert(t[i] == a[i] && t[m] == a[m]);
            } else if i >= a.len() {
                assert(t[i] == b[i - a.len()] && t[m] == b[m - a.len()]);
            } else {
                assert(t[i] == a[i] && t[m] == b[m - a.len()]);
            }
        }
        assert forall|i: int| 0 <= i < t.len() implies 0 <= #[trigger] t[i].position < word_count(
            inputs,
        ) && 0 <= t[i].input_index < inputs.len() by {
            if i < a.len() {
                assert(t[i] == a[i]);
            } else {
                assert(t[i] == b[i - a.len()]);
            }
        }
    }
}

/// Each token's byte range recovers the raw text it was made of: the range
/// lies in its input, on the boundaries of one of the input's word-like
/// tokens, the bytes in it encode that token's chars, and the token's text
/// is what the filter stages make of those chars.
pub proof fn law_byte_range_recovers_raw(
    options: AnalysisOptions,
    stopwords: Seq<Seq<char>>,
    inputs: Seq<Seq<char>>,
    i: int,
)
    requires
        0 <= i < options.inputs_tokens(stopwords, inputs).len(),
    ensures
        ({
            let t = options.inputs_tokens(stopwords, inputs)[i];
            let chars = inputs[t.input_index];
            &&& 0 <= t.input_index < inputs.len()
            &&& exists|a: int, b: int|
                #![trigger word_spans(chars).contains((a, b))]
                word_spans(chars).contains((a, b)) && 0 <= a <= b <= chars.len() && t.start
                    == byte_offset(chars, a) && t.end == byte_offset(chars, b) && encode_utf8(
                    chars,
                ).subrange(t.start, t.end) == encode_utf8(chars.subrange(a, b))
                    && options.normalize(stopwords, chars.subrange(a, b)) == Some(t.text)
        }),
    decreases inputs.len(),
{
    let init = inputs.drop_last();
    let k = inputs.len() - 1;
    let a = options.inputs_tokens(stopwords, init);
    let wc = word_count(init) as int;
    let b = options.input_tokens(stopwords, inputs[k], k, wc);
    assert(options.inputs_tokens(stopwords, inputs) == a + b);
    if i < a.len() {
        law_byte_range_recovers_raw(options, stopwords, init, i);
        assert(options.inputs_tokens(stopwords, inputs)[i] == a[i]);
        assert(init[a[i].input_index] == inputs[a[i].input_index]);
    } else {
        let spans = word_spans(inputs[k]);
        lemma_span_tokens(options, stopwords, inputs[k], spans, k, wc);
        let t = b[i - a.len()];
        assert(options.inputs_tokens(stopwords, inputs)[i] == t);
        let j = t.position - wc;
        assert(token_of_span(options, stopwords, inputs[k], spans, k, wc, t, j));
        lemma_word_spans_in_range(inputs[k], j);
        lemma_encode_utf8_span(inputs[k], spans[j].0, spans[j].1);
        assert(spans.contains(spans[j]));
    }
}

/// The word-like spans of `chars` are ordered spans within it.
proof fn lemma_word_spans_in_range(chars: Seq<char>, j: int)
    requires
        0 <= j < word_spans(chars).len(),
    ensures
        0 <= word_spans(chars)[j].0 <= word_spans(chars)[j].1 <= chars.len(),
{
    crate::uax29::word::laws::law_word_segments_partition(chars);
    lemma_spans_within(crate::uax29::word::word_segments(chars), chars.len() as int, j);
}

proof fn lemma_spans_within(
    segs: Seq<(int, crate::uax29::word::TokenProperties)>,
    n: int,
    j: int,
)
    requires
        forall|m: int| 0 <= m < segs.len() ==> 0 <= #[trigger] segs[m].0 <= n,
        forall|m: int| 0 < m < segs.len() ==> segs[m - 1].0 < #[trigger] segs[m].0,
        0 <= j < crate::analyze::word_like_spans(segs).len(),
    ensures
        0 <= crate::analyze::word_like_spans(segs)[j].0 <= crate::analyze::word_like_spans(
            segs,
        )[j].1 <= n,
    decreases segs.len(),
{
    let w = crate::analyze::word_like_spans(segs);
    let init = segs.drop_last();
    let wi = crate::analyze::word_like_spans(init);
    if j < wi.len() {
        assert forall|m: int| 0 <= m < init.len() implies 0 <= #[trigger] init[m].0 <= n by {
            assert(init[m] == segs[m]);
        }
        assert forall|m: int| 0 < m < init.len() implies init[m - 1].0 < #[trigger] init[m].0 by {
            assert(init[m] == segs[m]);
            assert(init[m - 1] == segs[m - 1]);
        }
        lemma_spans_within(init, n, j);
        assert(w[j] == wi[j]);
    } else {
        let k = segs.len() - 1;
        assert(segs[k - 1].0 < segs[k].0);
    }
}

} // verus!

verus! {

/// The word-like spans of all `inputs`, in input order, each as (input
/// index, first char, end char).
pub open spec fn all_word_spans(inputs: Seq<Seq<char>>) -> Seq<(int, int, int)>
    decreases inputs.len(),
{
    if inputs.len() == 0 {
        Seq::empty()
    } else {
        let k = inputs.len() - 1;
        all_word_spans(inputs.drop_last()) + word_spans(inputs[k]).map_values(
            |s: (int, int)| (k, s.0, s.1),
        )
    }
}

/// There is one span per word-like token of the inputs.
pub proof fn lemma_all_word_spans_len(inputs: Seq<Seq<char>>)
    ensures
        all_word_spans(inputs).len() == word_count(inputs),
    decreases inputs.len(),
{
    if inputs.len() > 0 {
        lemma_all_word_spans_len(inputs.drop_last());
        assert(inputs.last() == inputs[inputs.len() - 1]);
    }
}

/// A token's position is the index, among the word-like spans of all the
/// inputs in order, of the span it was made from: the token lies in that
/// span's input, its byte range is that span's, and its text is what the
/// filter stages make of the span's chars. Every span takes its index
/// whether or not a stage drops its token.
pub proof fn law_position_is_span_index(
    options: AnalysisOptions,
    stopwords: Seq<Seq<char>>,
    inputs: Seq<Seq<char>>,
    i: int,
)
    requires
        0 <= i < options.inputs_tokens(stopwords, inputs).len(),
    ensures
        ({
            let t = options.inputs_tokens(stopwords, inputs)[i];
            let w = all_word_spans(inputs)[t.position];
            &&& 0 <= t.position < all_word_spans(inputs).len()
            &&& t.input_index == w.0
            &&& t.start == byte_offset(inputs[w.0], w.1)
            &&& t.end == byte_offset(inputs[w.0], w.2)
            &&& options.normalize(stopwords, inputs[w.0].subrange(w.1, w.2)) == Some(t.text)
        }),
    decreases inputs.len(),
{
    let init = inputs.drop_last();
    let k = inputs.len() - 1;
    let a = options.inputs_tokens(stopwords, init);
    let wc = word_count(init) as int;
    let b = options.input_tokens(stopwords, inputs[k], k, wc);
    let all = all_word_spans(inputs);
    let spans = word_spans(inputs[k]);
    lemma_all_word_spans_len(init);
    assert(options.inputs_tokens(stopwords, inputs) == a + b);
    assert(all == all_word_spans(init) + spans.map_values(|s: (int, int)| (k, s.0, s.1)));
    if i < a.len() {
        law_position_is_span_index(options, stopwords, init, i);
        law_positions_increase(options, stopwords, init);
        let t = a[i];
        assert(options.inputs_tokens(stopwords, inputs)[i] == t);
        assert(all[t.position] == all_word_spans(init)[t.position]);
        assert(init[t.input_index] == inputs[t.input_index]);
    } else {
        lemma_span_tokens(options, stopwords, inputs[k], spans, k, wc);
        let t = b[i - a.len()];
        assert(options.inputs_tokens(stopwords, inputs)[i] == t);
        let j = t.position - wc;
        assert(token_of_span(options, stopwords, inputs[k], spans, k, wc, t, j));
        assert(all[t.position] == (k, spans[j].0, spans[j].1));
    }
}


/// Analyzing one input is analyzing the list that holds only it: the same
/// tokens, each with input index 0.
pub proof fn law_single_input(
    options: AnalysisOptions,
    stopwords: Seq<Seq<char>>,
    input: Seq<char>,
)
    ensures
        options.input_tokens(stopwords, input, 0, 0) == options.inputs_tokens(stopwords, seq![input]),
        forall|i: int|
            0 <= i < options.input_tokens(stopwords, input, 0, 0).len() ==> (#[trigger] options.input_tokens(
                stopwords,
                input,
                0,
                0,
            )[i]).input_index == 0,
{
    let inputs = seq![input];
    assert(inputs.drop_last() =~= Seq::<Seq<char>>::empty());
    assert(word_count(Seq::<Seq<char>>::empty()) == 0);
    assert(options.inputs_tokens(stopwords, Seq::<Seq<char>>::empty()) == Seq::<TokenView>::empty());
    assert(options.inputs_tokens(stopwords, inputs) =~= options.input_tokens(stopwords, input, 0, 0));
    law_positions_increase(options, stopwords, inputs);
    let t = options.input_tokens(stopwords, input, 0, 0);
    assert forall|i: int| 0 <= i < t.len() implies (#[trigger] t[i]).input_index == 0 by {
        assert(0 <= t[i].position < word_count(inputs));
    }
}


/// The text that stopword removal compares with the stopword list: the raw
/// token, lowercased unless the options are case sensitive.
pub open spec fn compared_text(options: AnalysisOptions, raw: Seq<char>) -> Seq<char> {
    if options.case_sensitive {
        raw
    } else {
        lower_chars(raw)
    }
}

/// Stopword removal runs before stemming: with it on, a raw token whose
/// (lowercased) text is a stopword yields no token, whatever the stemming
/// language and whatever its stem is.
pub proof fn law_stopword_dropped_before_stemming(
    options: AnalysisOptions,
    stopwords: Seq<Seq<char>>,
    raw: Seq<char>,
)
    requires
        options.stopword_removal is Some,
        stopwords.contains(compared_text(options, raw)),
    ensures
        options.normalize(stopwords, raw) is None,
{
}

/// With stopword removal on, no token comes from a word-like span whose
/// (lowercased) text is a stopword: each token's byte range is that of a
/// word-like span of its input whose text is not one.
pub proof fn law_no_token_from_stopword(
    options: AnalysisOptions,
    stopwords: Seq<Seq<char>>,
    inputs: Seq<Seq<char>>,
    i: int,
)
    requires
        options.stopword_removal is Some,
        0 <= i < options.inputs_tokens(stopwords, inputs).len(),
    ensures
        ({
            let t = options.inputs_tokens(stopwords, inputs)[i];
            let chars = inputs[t.input_index];
            exists|a: int, b: int|
                #![trigger word_spans(chars).contains((a, b))]
                word_spans(chars).contains((a, b)) && t.start == byte_offset(chars, a) && t.end
                    == byte_offset(chars, b) && !stopwords.contains(
                    compared_text(options, chars.subrange(a, b)),
                )
        }),
{
    law_byte_range_recovers_raw(options, stopwords, inputs, i);
    let t = options.inputs_tokens(stopwords, inputs)[i];
    let chars = inputs[t.input_index];
    let (a, b) = choose|a: int, b: int|
        #![trigger word_spans(chars).contains((a, b))]
        word_spans(chars).contains((a, b)) && 0 <= a <= b <= chars.len() && t.start
            == byte_offset(chars, a) && t.end == byte_offset(chars, b) && encode_utf8(
            chars,
        ).subrange(t.start, t.end) == encode_utf8(chars.subrange(a, b)) && options.normalize(
            stopwords,
            chars.subrange(a, b),
        ) == Some(t.text);
    if stopwords.contains(compared_text(options, chars.subrange(a, b))) {
        law_stopword_dropped_before_stemming(options, stopwords, chars.subrange(a, b));
    }
}

} // verus!
