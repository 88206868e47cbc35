//! The text formats of the dictionary files: lines, whitespace-separated
//! words, comma-separated fields with quotes, and integers.
use vstd::prelude::*;

verus! {

/// Whether `c` is whitespace (Unicode White_Space, as `char::is_whitespace`).
pub open spec fn is_ws(c: char) -> bool {
    ||| '\u{9}' <= c <= '\u{d}'
    ||| c == ' '
    ||| c == '\u{85}'
    ||| c == '\u{a0}'
    ||| c == '\u{1680}'
    ||| '\u{2000}' <= c <= '\u{200a}'
    ||| c == '\u{2028}'
    ||| c == '\u{2029}'
    ||| c == '\u{202f}'
    ||| c == '\u{205f}'
    ||| c == '\u{3000}'
}

/// Whether `c` is whitespace.
pub fn is_whitespace(c: char) -> (r: bool)
    ensures
        r == is_ws(c),
{
    ('\u{9}' <= c && c <= '\u{d}') || c == ' ' || c == '\u{85}' || c == '\u{a0}' || c
        == '\u{1680}' || ('\u{2000}' <= c && c <= '\u{200a}') || c == '\u{2028}' || c
        == '\u{2029}' || c == '\u{202f}' || c == '\u{205f}' || c == '\u{3000}'
}

/// The index of the first `c` in `s`, or its length.
pub open spec fn index_of(s: Seq<char>, c: char) -> int
    decreases s.len(),
{
    if s.len() == 0 {
        0
    } else if s[0] == c {
        0
    } else {
        1 + index_of(s.drop_first(), c)
    }
}

/// The lines of `s`, as `BufRead::lines` reads them: split at each `\n`,
/// dropping a `\r` just before it; a last line without `\n` counts, an empty
/// one after a final `\n` does not.
pub open spec fn lines(s: Seq<char>) -> Seq<Seq<char>>
    decreases s.len(),
{
    if s.len() == 0 {
        Seq::empty()
    } else {
        let i = index_of(s, '\n');
        proof {
            lemma_index_of_bounds(s, '\n');
        }
        if i < s.len() {
            let line = s.take(i);
            let line = if line.len() > 0 && line.last() == '\r' {
                line.drop_last()
            } else {
                line
            };
            seq![line] + lines(s.skip(i + 1))
        } else {
            seq![s]
        }
    }
}

pub proof fn lemma_index_of_bounds(s: Seq<char>, c: char)
    ensures
        0 <= index_of(s, c) <= s.len(),
        index_of(s, c) < s.len() ==> s[index_of(s, c)] == c,
        forall|k: int| 0 <= k < index_of(s, c) ==> s[k] != c,
    decreases s.len(),
{
    if s.len() > 0 && s[0] != c {
        lemma_index_of_bounds(s.drop_first(), c);
        assert forall|k: int| 0 <= k < index_of(s, c) implies s[k] != c by {
            if k > 0 {
                assert(s[k] == s.drop_first()[k - 1]);
            }
        }
    }
}

/// The index of the first `c` in `s[from..]` (as an index of `s`), or the
/// length of `s`.
pub fn find_char(s: &Vec<char>, from: usize, c: char) -> (r: usize)
    requires
        from <= s@.len(),
    ensures
        r == from + index_of(s@.skip(from as int), c),
{
    let mut i = from;
    while i < s.len() && s[i] != c
        invariant
            from <= i <= s@.len(),
            forall|k: int| from <= k < i ==> s@[k] != c,
        decreases s@.len() - i,
    {
        i = i + 1;
    }
    proof {
        lemma_index_of_first(s@.skip(from as int), c, i - from);
    }
    i
}

proof fn lemma_index_of_first(s: Seq<char>, c: char, i: int)
    requires
        0 <= i <= s.len(),
        i < s.len() ==> s[i] == c,
        forall|k: int| 0 <= k < i ==> s[k] != c,
    ensures
        index_of(s, c) == i,
    decreases s.len(),
{
    if s.len() > 0 && s[0] != c {
        assert forall|k: int| 0 <= k < i - 1 implies s.drop_first()[k] != c by {
            assert(s.drop_first()[k] == s[k + 1]);
        }
        lemma_index_of_first(s.drop_first(), c, i - 1);
    }
}

/// The lines of `text`, as `BufRead::lines` reads them.
pub fn split_lines(text: &Vec<char>) -> (r: Vec<Vec<char>>)
    ensures
        r@.map_values(|l: Vec<char>| l@) == lines(text@),
{
    let mut out: Vec<Vec<char>> = Vec::new();
    let mut start: usize = 0;
    let n = text.len();
    proof {
        assert(text@.skip(0) =~= text@);
        assert(out@.map_values(|l: Vec<char>| l@) + lines(text@) =~= lines(text@));
    }
    while start < n
        invariant
            start <= n,
            n == text@.len(),
            out@.map_values(|l: Vec<char>| l@) + lines(text@.skip(start as int)) == lines(text@),
        decreases n - start,
    {
        let ghost rest = text@.skip(start as int);
        let nl = find_char(text, start, '\n');
        proof {
            lemma_index_of_bounds(rest, '\n');
        }
        let mut end = nl;
        if nl < n && end > start && text[end - 1] == '\r' {
            end = end - 1;
        }
        let line = copy_range(text, start, end);
        let ghost before = out@;
        out.push(line);
        proof {
            let i = nl - start;
            if nl < n {
                assert(rest.take(i) =~= text@.subrange(start as int, nl as int));
                assert(rest.skip(i + 1) =~= text@.skip(nl as int + 1));
                if end < nl {
                    assert(rest.take(i).drop_last() =~= line@);
                } else {
                    assert(rest.take(i) =~= line@);
                }
            } else {
                assert(rest =~= line@);
                assert(text@.skip(n as int) =~= Seq::<char>::empty());
            }
            assert(out@.map_values(|l: Vec<char>| l@) =~= before.map_values(|l: Vec<char>| l@).push(
                line@,
            ));
        }
        if nl < n {
            start = nl + 1;
        } else {
            start = n;
        }
        proof {
            if nl < n {
                assert(lines(rest) == seq![line@] + lines(text@.skip(start as int)));
            } else {
                assert(lines(rest) == seq![line@]);
                assert(lines(text@.skip(start as int)) =~= Seq::<Seq<char>>::empty());
            }
            assert(out@.map_values(|l: Vec<char>| l@) + lines(text@.skip(start as int))
                =~= before.map_values(|l: Vec<char>| l@) + lines(rest));
        }
    }
    proof {
        assert(text@.skip(n as int) =~= Seq::<char>::empty());
        assert(out@.map_values(|l: Vec<char>| l@) =~= out@.map_values(|l: Vec<char>| l@)
            + Seq::<Seq<char>>::empty());
    }
    out
}

/// A copy of `s[a..b]`.
pub fn copy_range(s: &Vec<char>, a: usize, b: usize) -> (r: Vec<char>)
    requires
        a <= b <= s@.len(),
    ensures
        r@ == s@.subrange(a as int, b as int),
{
    let mut r: Vec<char> = Vec::new();
    let mut i = a;
    while i < b
        invariant
            a <= i <= b <= s@.len(),
            r@ == s@.subrange(a as int, i as int),
        decreases b - i,
    {
        r.push(s[i]);
        proof {
            assert(s@.subrange(a as int, i as int + 1) =~= s@.subrange(a as int, i as int).push(
                s@[i as int],
            ));
        }
        i = i + 1;
    }
    r
}

/// The maximal runs of non-whitespace chars of `s`, in order, as
/// `str::split_whitespace` gives them.
pub open spec fn words(s: Seq<char>) -> Seq<Seq<char>>
    decreases s.len(),
{
    if s.len() == 0 {
        Seq::empty()
    } else {
        let w = words(s.drop_last());
        let c = s.last();
        if is_ws(c) {
            w
        } else if s.len() >= 2 && !is_ws(s[s.len() - 2]) {
            w.update(w.len() - 1, w.last().push(c))
        } else {
            w.push(seq![c])
        }
    }
}

proof fn lemma_words_nonempty_tail(s: Seq<char>)
    requires
        s.len() > 0,
        !is_ws(s.last()),
    ensures
        words(s).len() > 0,
    decreases s.len(),
{
    if s.len() >= 2 && !is_ws(s[s.len() - 2]) {
        lemma_words_nonempty_tail(s.drop_last());
    }
}

/// The whitespace-separated words of `s`.
pub fn split_whitespace(s: &Vec<char>) -> (r: Vec<Vec<char>>)
    ensures
        r@.map_values(|w: Vec<char>| w@) == words(s@),
{
    let mut out: Vec<Vec<char>> = Vec::new();
    let mut cur: Vec<char> = Vec::new();
    let mut i: usize = 0;
    let n = s.len();
    // `cur` is the word being read when the last char read is not whitespace.
    while i < n
        invariant
            i <= n,
            n == s@.len(),
            i > 0 && !is_ws(s@[i - 1]) ==> {
                &&& words(s@.take(i as int)).len() > 0
                &&& out@.map_values(|w: Vec<char>| w@).push(cur@) == words(s@.take(i as int))
            },
            !(i > 0 && !is_ws(s@[i - 1])) ==> out@.map_values(|w: Vec<char>| w@) == words(
                s@.take(i as int),
            ) && cur@.len() == 0,
        decreases n - i,
    {
        let c = s[i];
        let ghost t = s@.take(i as int + 1);
        proof {
            assert(t.drop_last() =~= s@.take(i as int));
            assert(t.last() == c);
            if i > 0 {
                assert(t[t.len() - 2] == s@[i - 1]);
            }
        }
        if is_whitespace(c) {
            if cur.len() > 0 || (i > 0 && !is_whitespace(s[i - 1])) {
                let ghost before = out@;
                let w = cur;
                cur = Vec::new();
                out.push(w);
                proof {
                    assert(out@.map_values(|w: Vec<char>| w@) =~= before.map_values(
                        |w: Vec<char>| w@,
                    ).push(w@));
                }
            }
        } else {
            let ghost prev_cur = cur@;
            cur.push(c);
            proof {
                lemma_words_nonempty_tail(t);
                let wv = out@.map_values(|w: Vec<char>| w@);
                if i > 0 && !is_ws(s@[i - 1]) {
                    let w0 = words(s@.take(i as int));
                    assert(w0 == wv.push(prev_cur));
                    assert(w0.update(w0.len() - 1, w0.last().push(c)) =~= wv.push(cur@));
                } else {
                    assert(prev_cur.len() == 0);
                    assert(cur@ =~= seq![c]);
                }
            }
        }
        i = i + 1;
    }
    proof {
        assert(s@.take(n as int) =~= s@);
    }
    if n > 0 && !is_whitespace(s[n - 1]) {
        let ghost before = out@;
        out.push(cur);
        proof {
            assert(out@.map_values(|w: Vec<char>| w@) =~= before.map_values(|w: Vec<char>| w@).push(
                cur@,
            ));
        }
    }
    out
}

/// `s` without leading and trailing whitespace, as `str::trim` gives it.
pub open spec fn trim(s: Seq<char>) -> Seq<char> {
    s.subrange(leading_ws(s) as int, s.len() - trailing_ws(s))
}

/// Number of whitespace chars `s` starts with.
pub open spec fn leading_ws(s: Seq<char>) -> nat
    decreases s.len(),
{
    if s.len() > 0 && is_ws(s[0]) {
        1 + leading_ws(s.drop_first())
    } else {
        0
    }
}

/// Number of whitespace chars `s` ends with, not counting into the leading
/// ones.
pub open spec fn trailing_ws(s: Seq<char>) -> nat
    decreases s.len(),
{
    if s.len() > leading_ws(s) && is_ws(s.last()) {
        1 + trailing_ws(s.drop_last())
    } else {
        0
    }
}

proof fn lemma_leading_ws(s: Seq<char>, i: int)
    requires
        0 <= i <= s.len(),
        forall|k: int| 0 <= k < i ==> is_ws(s[k]),
        i < s.len() ==> !is_ws(s[i]),
    ensures
        leading_ws(s) == i,
    decreases s.len(),
{
    if i > 0 {
        assert forall|k: int| 0 <= k < i - 1 implies is_ws(s.drop_first()[k]) by {
            assert(s.drop_first()[k] == s[k + 1]);
        }
        if i - 1 < s.len() - 1 {
            assert(s.drop_first()[i - 1] == s[i]);
        }
        lemma_leading_ws(s.drop_first(), i - 1);
    }
}

proof fn lemma_leading_ws_prefix(s: Seq<char>, m: int)
    requires
        leading_ws(s) <= m <= s.len(),
    ensures
        leading_ws(s.take(m)) == leading_ws(s),
    decreases s.len(),
{
    if s.len() > 0 && is_ws(s[0]) {
        assert(s.take(m).drop_first() =~= s.drop_first().take(m - 1));
        lemma_leading_ws_prefix(s.drop_first(), m - 1);
    } else if m > 0 {
        assert(s.take(m)[0] == s[0]);
    }
}

proof fn lemma_trailing_ws(s: Seq<char>, j: int)
    requires
        leading_ws(s) <= j <= s.len(),
        forall|k: int| j <= k < s.len() ==> is_ws(s[k]),
        j > leading_ws(s) ==> !is_ws(s[j - 1]),
    ensures
        trailing_ws(s) == s.len() - j,
    decreases s.len(),
{
    if j < s.len() {
        let t = s.drop_last();
        lemma_leading_ws_prefix(s, s.len() - 1);
        assert(t =~= s.take(s.len() - 1));
        assert forall|k: int| j <= k < t.len() implies is_ws(t[k]) by {
            assert(t[k] == s[k]);
        }
        if j > leading_ws(s) {
            assert(t[j - 1] == s[j - 1]);
        }
        lemma_trailing_ws(t, j);
    } else {
        if s.len() > leading_ws(s) {
            assert(!is_ws(s[s.len() - 1]));
        }
    }
}

/// `s` without leading and trailing whitespace.
pub fn trim_ws(s: &Vec<char>) -> (r: Vec<char>)
    ensures
        r@ == trim(s@),
{
    let n = s.len();
    let mut i: usize = 0;
    while i < n && is_whitespace(s[i])
        invariant
            i <= n,
            n == s@.len(),
            forall|k: int| 0 <= k < i ==> is_ws(s@[k]),
        decreases n - i,
    {
        i = i + 1;
    }
    proof {
        lemma_leading_ws(s@, i as int);
    }
    let mut j: usize = n;
    while j > i && is_whitespace(s[j - 1])
        invariant
            i <= j <= n,
            n == s@.len(),
            forall|k: int| j <= k < n ==> is_ws(s@[k]),
        decreases j,
    {
        j = j - 1;
    }
    proof {
        lemma_trailing_ws(s@, j as int);
    }
    copy_range(s, i, j)
}

/// Number of `"` in `s`.
pub open spec fn quote_count(s: Seq<char>) -> int
    decreases s.len(),
{
    if s.len() == 0 {
        0
    } else {
        quote_count(s.drop_last()) + if s.last() == '"' {
            1int
        } else {
            0int
        }
    }
}

/// The comma-separated fields of `s`, quotes left in: a comma separates
/// only outside quotes, that is after an even number of `"`.
pub open spec fn raw_fields(s: Seq<char>) -> Seq<Seq<char>>
    decreases s.len(),
{
    if s.len() == 0 {
        seq![Seq::empty()]
    } else {
        let f = raw_fields(s.drop_last());
        let c = s.last();
        if c == ',' && quote_count(s.drop_last()) % 2 == 0 {
            f.push(Seq::empty())
        } else {
            f.update(f.len() - 1, f.last().push(c))
        }
    }
}

proof fn lemma_raw_fields_nonempty(s: Seq<char>)
    ensures
        raw_fields(s).len() >= 1,
    decreases s.len(),
{
    if s.len() > 0 {
        lemma_raw_fields_nonempty(s.drop_last());
    }
}

/// `s` without leading `"`.
pub open spec fn strip_leading_quotes(s: Seq<char>) -> Seq<char>
    decreases s.len(),
{
    if s.len() > 0 && s[0] == '"' {
        strip_leading_quotes(s.drop_first())
    } else {
        s
    }
}

/// `s` without trailing `"`.
pub open spec fn strip_trailing_quotes(s: Seq<char>) -> Seq<char>
    decreases s.len(),
{
    if s.len() > 0 && s.last() == '"' {
        strip_trailing_quotes(s.drop_last())
    } else {
        s
    }
}

/// `s` without leading and trailing `"`, as `str::trim_matches('"')`.
pub open spec fn trim_quotes(s: Seq<char>) -> Seq<char> {
    strip_trailing_quotes(strip_leading_quotes(s))
}

/// The fields of the CSV line `s`: split at commas outside quotes, each
/// field without its surrounding quotes.
pub open spec fn csv_fields(s: Seq<char>) -> Seq<Seq<char>> {
    raw_fields(s).map_values(|f: Seq<char>| trim_quotes(f))
}

/// `s` without leading and trailing `"`.
fn trim_quote_chars(s: &Vec<char>) -> (r: Vec<char>)
    ensures
        r@ == trim_quotes(s@),
{
    let n = s.len();
    let mut i: usize = 0;
    proof {
        assert(s@.skip(0) =~= s@);
    }
    while i < n && s[i] == '"'
        invariant
            i <= n,
            n == s@.len(),
            strip_leading_quotes(s@.skip(i as int)) == strip_leading_quotes(s@),
        decreases n - i,
    {
        proof {
            assert(s@.skip(i as int).drop_first() =~= s@.skip(i as int + 1));
        }
        i = i + 1;
    }
    let ghost lead = s@.skip(i as int);
    proof {
        assert(strip_leading_quotes(lead) == lead);
        assert(lead =~= s@.subrange(i as int, n as int));
    }
    let mut j: usize = n;
    while j > i && s[j - 1] == '"'
        invariant
            i <= j <= n,
            n == s@.len(),
            lead == s@.subrange(i as int, n as int),
            strip_trailing_quotes(s@.subrange(i as int, j as int)) == strip_trailing_quotes(lead),
        decreases j,
    {
        proof {
            assert(s@.subrange(i as int, j as int).drop_last() =~= s@.subrange(
                i as int,
                j as int - 1,
            ));
        }
        j = j - 1;
    }
    copy_range(s, i, j)
}

/// The fields of the CSV line `line`, as `parse_csv_line` of the
/// dictionary tools splits it.
pub fn parse_csv_line(line: &Vec<char>) -> (r: Vec<Vec<char>>)
    ensures
        r@.map_values(|f: Vec<char>| f@) == csv_fields(line@),
{
    let n = line.len();
    let mut raw: Vec<Vec<char>> = Vec::new();
    let mut cur: Vec<char> = Vec::new();
    let mut in_quotes = false;
    let mut i: usize = 0;
    while i < n
        invariant
            i <= n,
            n == line@.len(),
            in_quotes == (quote_count(line@.take(i as int)) % 2 == 1),
            raw@.map_values(|f: Vec<char>| f@).push(cur@) == raw_fields(line@.take(i as int)),
        decreases n - i,
    {
        let c = line[i];
        let ghost t = line@.take(i as int + 1);
        proof {
            assert(t.drop_last() =~= line@.take(i as int));
            assert(t.last() == c);
        }
        if c == '"' {
            in_quotes = !in_quotes;
        }
        if c == ',' && !in_quotes {
            let ghost before = raw@;
            let f = cur;
            cur = Vec::new();
            raw.push(f);
            proof {
                assert(raw@.map_values(|f: Vec<char>| f@) =~= before.map_values(
                    |f: Vec<char>| f@,
                ).push(f@));
                assert(cur@ =~= Seq::<char>::empty());
            }
        } else {
            let ghost prev = cur@;
            cur.push(c);
            proof {
                let fv = raw@.map_values(|f: Vec<char>| f@);
                let w0 = raw_fields(line@.take(i as int));
                assert(w0 == fv.push(prev));
                assert(w0.update(w0.len() - 1, w0.last().push(c)) =~= fv.push(cur@));
            }
        }
        i = i + 1;
    }
    proof {
        assert(line@.take(n as int) =~= line@);
    }
    raw.push(cur);
    let mut out: Vec<Vec<char>> = Vec::new();
    let mut k: usize = 0;
    while k < raw.len()
        invariant
            k <= raw@.len(),
            raw@.map_values(|f: Vec<char>| f@) == raw_fields(line@),
            out@.map_values(|f: Vec<char>| f@) == raw_fields(line@).take(k as int).map_values(
                |f: Seq<char>| trim_quotes(f),
            ),
        decreases raw@.len() - k,
    {
        let f = trim_quote_chars(&raw[k]);
        let ghost before = out@;
        out.push(f);
        proof {
            let rf = raw_fields(line@);
            assert(raw@.map_values(|f: Vec<char>| f@)[k as int] == raw@[k as int]@);
            assert(rf[k as int] == raw@[k as int]@);
            assert(out@.map_values(|f: Vec<char>| f@) =~= before.map_values(|f: Vec<char>| f@).push(
                f@,
            ));
            assert(rf.take(k as int + 1).map_values(|f: Seq<char>| trim_quotes(f)) =~= rf.take(
                k as int,
            ).map_values(|f: Seq<char>| trim_quotes(f)).push(trim_quotes(rf[k as int])));
        }
        k = k + 1;
    }
    proof {
        assert(raw_fields(line@).take(k as int) =~= raw_fields(line@));
    }
    out
}

/// The value of the digits `d` in base `radix`.
pub open spec fn digits_value(d: Seq<char>, radix: int) -> int
    decreases d.len(),
{
    if d.len() == 0 {
        0
    } else {
        digits_value(d.drop_last(), radix) * radix + digit_value(d.last())
    }
}

/// The value of digit `c` (0 to 9, then `a`/`A` 10 up to `z`/`Z`), or 36
/// where `c` is no digit.
pub open spec fn digit_value(c: char) -> int {
    if '0' <= c <= '9' {
        c as int - '0' as int
    } else if 'a' <= c <= 'z' {
        c as int - 'a' as int + 10
    } else if 'A' <= c <= 'Z' {
        c as int - 'A' as int + 10
    } else {
        36
    }
}

/// Whether every char of `d` is a digit in base `radix`.
pub open spec fn all_digits(d: Seq<char>, radix: int) -> bool {
    forall|k: int| 0 <= k < d.len() ==> digit_value(#[trigger] d[k]) < radix
}

/// `s` without one leading `+`.
pub open spec fn unsigned_digits(s: Seq<char>) -> Seq<char> {
    if s.len() > 0 && s[0] == '+' {
        s.drop_first()
    } else {
        s
    }
}

/// The unsigned integer `s` denotes in base `radix`, as `from_str_radix`
/// reads it: an optional `+`, then at least one digit; `None` otherwise.
pub open spec fn parse_unsigned(s: Seq<char>, radix: int) -> Option<int> {
    let d = unsigned_digits(s);
    if d.len() > 0 && all_digits(d, radix) {
        Some(digits_value(d, radix))
    } else {
        None
    }
}

/// The signed integer `s` denotes in decimal: an optional `-` or `+`, then
/// at least one digit; `None` otherwise.
pub open spec fn parse_signed(s: Seq<char>) -> Option<int> {
    if s.len() > 0 && s[0] == '-' {
        let d = s.drop_first();
        if d.len() > 0 && all_digits(d, 10) {
            Some(-digits_value(d, 10))
        } else {
            None
        }
    } else {
        parse_unsigned(s, 10)
    }
}

proof fn lemma_digits_value_nonneg(d: Seq<char>, radix: int)
    requires
        2 <= radix,
        forall|k: int| 0 <= k < d.len() ==> digit_value(#[trigger] d[k]) < radix,
    ensures
        digits_value(d, radix) >= 0,
    decreases d.len(),
{
    if d.len() > 0 {
        assert forall|k: int| 0 <= k < d.len() - 1 implies digit_value(
            #[trigger] d.drop_last()[k],
        ) < radix by {
            assert(d.drop_last()[k] == d[k]);
        }
        lemma_digits_value_nonneg(d.drop_last(), radix);
        assert(digits_value(d.drop_last(), radix) * radix >= 0) by (nonlinear_arith)
            requires
                digits_value(d.drop_last(), radix) >= 0,
                radix >= 2,
        ;
    }
}

/// A prefix's value is at most the whole's (digits only, radix at least 2).
proof fn lemma_digits_value_prefix(d: Seq<char>, i: int, radix: int)
    requires
        2 <= radix,
        0 <= i <= d.len(),
        forall|k: int| 0 <= k < d.len() ==> digit_value(#[trigger] d[k]) < radix,
    ensures
        digits_value(d.take(i), radix) <= digits_value(d, radix),
    decreases d.len() - i,
{
    if i < d.len() {
        assert forall|k: int| 0 <= k < d.len() - 1 implies digit_value(
            #[trigger] d.drop_last()[k],
        ) < radix by {
            assert(d.drop_last()[k] == d[k]);
        }
        lemma_digits_value_prefix(d.drop_last(), i, radix);
        assert(d.drop_last().take(i) =~= d.take(i));
        let v = digits_value(d.drop_last(), radix);
        lemma_digits_value_nonneg(d.drop_last(), radix);
        assert(v <= v * radix) by (nonlinear_arith)
            requires
                v >= 0,
                radix >= 2,
        ;
    } else {
        assert(d.take(i) =~= d);
    }
}

/// The digit value of `c`, as `digit_value`.
fn digit_of(c: char) -> (r: u32)
    ensures
        r == digit_value(c),
{
    if '0' <= c && c <= '9' {
        (c as u32) - ('0' as u32)
    } else if 'a' <= c && c <= 'z' {
        (c as u32) - ('a' as u32) + 10
    } else if 'A' <= c && c <= 'Z' {
        (c as u32) - ('A' as u32) + 10
    } else {
        36
    }
}

/// The value of the digits `s[from..]` in base `radix`, if they are all
/// digits, at least one, and the value is at most `max`.
fn parse_digits(s: &Vec<char>, from: usize, radix: u64, max: u64) -> (r: Option<u64>)
    requires
        from <= s@.len(),
        2 <= radix <= 36,
        max >= 36,
    ensures
        ({
            let d = s@.skip(from as int);
            let ok = d.len() > 0 && all_digits(d, radix as int);
            match r {
                Some(v) => ok && v == digits_value(d, radix as int) && v <= max,
                None => !ok || digits_value(d, radix as int) > max,
            }
        }),
{
    let ghost d = s@.skip(from as int);
    let n = s.len();
    if from >= n {
        return None;
    }
    let mut value: u64 = 0;
    let mut i = from;
    while i < n
        invariant
            from <= i <= n,
            n == s@.len(),
            d == s@.skip(from as int),
            2 <= radix <= 36,
            max >= 36,
            forall|k: int| 0 <= k < i - from ==> digit_value(#[trigger] d[k]) < radix,
            value == digits_value(d.take(i - from), radix as int),
            value <= max,
        decreases n - i,
    {
        let dv = digit_of(s[i]);
        proof {
            assert(d[i - from] == s@[i as int]);
        }
        if dv as u64 >= radix {
            return None;
        }
        proof {
            let t = d.take(i - from + 1);
            assert(t.drop_last() =~= d.take(i - from));
            assert(t.last() == s@[i as int]);
        }
        let limit = (max - dv as u64) / radix;
        if value > limit {
            proof {
                // The digits read so far already exceed `max`; the rest cannot
                // lower the value, or the rest holds a non-digit.
                let vi = value as int;
                let ri = radix as int;
                let di = dv as int;
                let mi = max as int;
                let li = limit as int;
                assert(li == (mi - di) / ri);
                assert(vi * ri + di > mi) by (nonlinear_arith)
                    requires
                        vi > li,
                        li == (mi - di) / ri,
                        ri > 0,
                        di <= mi,
                ;
                if forall|k: int| 0 <= k < d.len() ==> digit_value(#[trigger] d[k]) < radix {
                    lemma_digits_value_prefix(d, i - from + 1, radix as int);
                }
            }
            return None;
        }
        proof {
            let vi = value as int;
            let ri = radix as int;
            let di = dv as int;
            let mi = max as int;
            let li = limit as int;
            assert(vi * ri + di <= mi) by (nonlinear_arith)
                requires
                    vi <= li,
                    li == (mi - di) / ri,
                    ri > 0,
                    di <= mi,
            ;
        }
        value = value * radix + dv as u64;
        i = i + 1;
    }
    proof {
        assert(d.take(n - from) =~= d);
    }
    Some(value)
}

/// The unsigned integer `s` denotes in base `radix`, if at most `max`.
pub fn parse_unsigned_at_most(s: &Vec<char>, radix: u64, max: u64) -> (r: Option<u64>)
    requires
        2 <= radix <= 36,
        max >= 36,
    ensures
        match r {
            Some(v) => parse_unsigned(s@, radix as int) == Some(v as int) && v <= max,
            None => match parse_unsigned(s@, radix as int) {
                Some(v) => v > max,
                None => true,
            },
        },
{
    let from: usize = if s.len() > 0 && s[0] == '+' {
        1
    } else {
        0
    };
    let ghost d = unsigned_digits(s@);
    proof {
        if from == 1 {
            assert(s@.skip(1) =~= s@.drop_first());
        } else {
            assert(s@.skip(0) =~= s@);
        }
        assert(s@.skip(from as int) == d);
    }
    parse_digits(s, from, radix, max)
}

/// `s` as a `u16` in decimal, as `str::parse::<u16>`.
pub fn parse_u16(s: &Vec<char>) -> (r: Option<u16>)
    ensures
        match r {
            Some(v) => parse_unsigned(s@, 10) == Some(v as int),
            None => !(parse_unsigned(s@, 10) matches Some(v) && v <= u16::MAX),
        },
{
    match parse_unsigned_at_most(s, 10, 0xFFFF) {
        Some(v) => Some(v as u16),
        None => None,
    }
}

/// `s` as a `u8` in decimal, as `str::parse::<u8>`.
pub fn parse_u8(s: &Vec<char>) -> (r: Option<u8>)
    ensures
        match r {
            Some(v) => parse_unsigned(s@, 10) == Some(v as int),
            None => !(parse_unsigned(s@, 10) matches Some(v) && v <= u8::MAX),
        },
{
    match parse_unsigned_at_most(s, 10, 0xFF) {
        Some(v) => Some(v as u8),
        None => None,
    }
}

/// `s` as a `usize` in decimal, as `str::parse::<usize>`.
pub fn parse_usize(s: &Vec<char>) -> (r: Option<usize>)
    ensures
        match r {
            Some(v) => parse_unsigned(s@, 10) == Some(v as int),
            None => !(parse_unsigned(s@, 10) matches Some(v) && v <= usize::MAX),
        },
{
    match parse_unsigned_at_most(s, 10, usize::MAX as u64) {
        Some(v) => Some(v as usize),
        None => None,
    }
}

/// `s` as a `u32` in hexadecimal, as `u32::from_str_radix(s, 16)`.
pub fn parse_hex_u32(s: &Vec<char>) -> (r: Option<u32>)
    ensures
        match r {
            Some(v) => parse_unsigned(s@, 16) == Some(v as int),
            None => !(parse_unsigned(s@, 16) matches Some(v) && v <= u32::MAX),
        },
{
    match parse_unsigned_at_most(s, 16, 0xFFFF_FFFF) {
        Some(v) => Some(v as u32),
        None => None,
    }
}

/// `s` as an `i16` in decimal, as `str::parse::<i16>`.
pub fn parse_i16(s: &Vec<char>) -> (r: Option<i16>)
    ensures
        match r {
            Some(v) => parse_signed(s@) == Some(v as int),
            None => !(parse_signed(s@) matches Some(v) && i16::MIN <= v <= i16::MAX),
        },
{
    if s.len() > 0 && s[0] == '-' {
        proof {
            assert(s@.skip(1) =~= s@.drop_first());
        }
        match parse_digits(s, 1, 10, 0x8000) {
            Some(v) => Some((0 - (v as i32)) as i16),
            None => None,
        }
    } else {
        match parse_unsigned_at_most(s, 10, 0x7FFF) {
            Some(v) => Some(v as i16),
            None => None,
        }
    }
}

} // verus!
