//! What the dictionary files hold: the word lists (CSV), the connection cost
//! matrix (matrix.def), the character categories (char.def) and the
//! unknown-word templates (unk.def), each read from its text.
use vstd::prelude::*;

use crate::kuromoji::format::{
    copy_range, csv_fields, find_char, index_of, lemma_index_of_bounds, lines, parse_csv_line, parse_hex_u32, parse_i16,
    parse_signed, parse_u16, parse_u8, parse_unsigned, parse_usize, split_lines,
    split_whitespace, trim, trim_ws, words,
};
use crate::kuromoji::{
    CategoryDef, CharCategory, CharRange, CharRangeView, DictEntry, UnkEntry,
    NUM_CATEGORIES,
};
use crate::text::{char_len_utf8, chars_of, push_char, utf8_width};
use vstd::hash_map::StringHashMap;

verus! {

/// `f` as a `u16` in decimal, if it is one.
pub open spec fn field_u16(f: Seq<char>) -> Option<u16> {
    match parse_unsigned(f, 10) {
        Some(v) => if v <= u16::MAX {
            Some(v as u16)
        } else {
            None
        },
        None => None,
    }
}

/// `f` as a `u8` in decimal, if it is one.
pub open spec fn field_u8(f: Seq<char>) -> Option<u8> {
    match parse_unsigned(f, 10) {
        Some(v) => if v <= u8::MAX {
            Some(v as u8)
        } else {
            None
        },
        None => None,
    }
}

/// `f` as a `usize` in decimal, if it is one.
pub open spec fn field_usize(f: Seq<char>) -> Option<usize> {
    match parse_unsigned(f, 10) {
        Some(v) => if v <= usize::MAX {
            Some(v as usize)
        } else {
            None
        },
        None => None,
    }
}

/// `f` as an `i16` in decimal, if it is one.
pub open spec fn field_i16(f: Seq<char>) -> Option<i16> {
    match parse_signed(f) {
        Some(v) => if i16::MIN <= v <= i16::MAX {
            Some(v as i16)
        } else {
            None
        },
        None => None,
    }
}

/// `f` as a `u32` in hexadecimal, if it is one.
pub open spec fn field_hex(f: Seq<char>) -> Option<u32> {
    match parse_unsigned(f, 16) {
        Some(v) => if v <= u32::MAX {
            Some(v as u32)
        } else {
            None
        },
        None => None,
    }
}

fn u16_field(f: &Vec<char>) -> (r: Option<u16>)
    ensures
        r == field_u16(f@),
{
    parse_u16(f)
}

fn u8_field(f: &Vec<char>) -> (r: Option<u8>)
    ensures
        r == field_u8(f@),
{
    parse_u8(f)
}

fn usize_field(f: &Vec<char>) -> (r: Option<usize>)
    ensures
        r == field_usize(f@),
{
    parse_usize(f)
}

fn i16_field(f: &Vec<char>) -> (r: Option<i16>)
    ensures
        r == field_i16(f@),
{
    parse_i16(f)
}

/// The category named `name` in char.def.
pub open spec fn category_named(name: Seq<char>) -> Option<CharCategory> {
    if name == "DEFAULT"@ {
        Some(CharCategory::Default)
    } else if name == "SPACE"@ {
        Some(CharCategory::Space)
    } else if name == "KANJI"@ {
        Some(CharCategory::Kanji)
    } else if name == "SYMBOL"@ {
        Some(CharCategory::Symbol)
    } else if name == "NUMERIC"@ {
        Some(CharCategory::Numeric)
    } else if name == "ALPHA"@ {
        Some(CharCategory::Alpha)
    } else if name == "HIRAGANA"@ {
        Some(CharCategory::Hiragana)
    } else if name == "KATAKANA"@ {
        Some(CharCategory::Katakana)
    } else if name == "KANJINUMERIC"@ {
        Some(CharCategory::KanjiNumeric)
    } else if name == "GREEK"@ {
        Some(CharCategory::Greek)
    } else if name == "CYRILLIC"@ {
        Some(CharCategory::Cyrillic)
    } else {
        None
    }
}

/// Whether `a` spells `lit`.
fn chars_eq(a: &Vec<char>, lit: &str) -> (r: bool)
    ensures
        r == (a@ == lit@),
{
    let b = chars_of(lit);
    if a.len() != b.len() {
        return false;
    }
    let mut i: usize = 0;
    while i < a.len()
        invariant
            i <= a@.len(),
            a@.len() == b@.len(),
            b@ == lit@,
            forall|k: int| 0 <= k < i ==> a@[k] == b@[k],
        decreases a@.len() - i,
    {
        if a[i] != b[i] {
            return false;
        }
        i = i + 1;
    }
    assert(a@ =~= b@);
    true
}

impl CharCategory {
    /// The category named `name` in char.def.
    pub fn from_name(name: &Vec<char>) -> (r: Option<CharCategory>)
        ensures
            r == category_named(name@),
    {
        if chars_eq(name, "DEFAULT") {
            Some(CharCategory::Default)
        } else if chars_eq(name, "SPACE") {
            Some(CharCategory::Space)
        } else if chars_eq(name, "KANJI") {
            Some(CharCategory::Kanji)
        } else if chars_eq(name, "SYMBOL") {
            Some(CharCategory::Symbol)
        } else if chars_eq(name, "NUMERIC") {
            Some(CharCategory::Numeric)
        } else if chars_eq(name, "ALPHA") {
            Some(CharCategory::Alpha)
        } else if chars_eq(name, "HIRAGANA") {
            Some(CharCategory::Hiragana)
        } else if chars_eq(name, "KATAKANA") {
            Some(CharCategory::Katakana)
        } else if chars_eq(name, "KANJINUMERIC") {
            Some(CharCategory::KanjiNumeric)
        } else if chars_eq(name, "GREEK") {
            Some(CharCategory::Greek)
        } else if chars_eq(name, "CYRILLIC") {
            Some(CharCategory::Cyrillic)
        } else {
            None
        }
    }
}

// ---------------------------------------------------------------------------
// The word lists.

/// What a word-list line holds: `None` where a field does not parse,
/// `Some(None)` for a line of fewer than four fields (skipped), else its
/// surface and entry.
pub open spec fn csv_entry(line: Seq<char>) -> Option<Option<(Seq<char>, DictEntry)>> {
    let f = csv_fields(line);
    if f.len() < 4 {
        Some(None)
    } else {
        match (field_u16(f[1]), field_u16(f[2]), field_i16(f[3])) {
            (Some(left_id), Some(right_id), Some(word_cost)) => Some(
                Some((f[0], DictEntry { left_id, right_id, word_cost })),
            ),
            _ => None,
        }
    }
}

/// `m` with `e` appended to the entries of `key`.
pub open spec fn add_entry(
    m: Map<Seq<char>, Seq<DictEntry>>,
    key: Seq<char>,
    e: DictEntry,
) -> Map<Seq<char>, Seq<DictEntry>> {
    m.insert(
        key,
        if m.contains_key(key) {
            m[key].push(e)
        } else {
            seq![e]
        },
    )
}

/// The words of the lines `ls`, in order, or `None` where a line fails.
pub open spec fn csv_entries(ls: Seq<Seq<char>>) -> Option<Map<Seq<char>, Seq<DictEntry>>>
    decreases ls.len(),
{
    if ls.len() == 0 {
        Some(Map::empty())
    } else {
        match csv_entries(ls.drop_last()) {
            None => None,
            Some(m) => match csv_entry(ls.last()) {
                None => None,
                Some(None) => Some(m),
                Some(Some((key, e))) => Some(add_entry(m, key, e)),
            },
        }
    }
}

/// The lines of all `files`, in order.
pub open spec fn all_lines(files: Seq<Seq<char>>) -> Seq<Seq<char>>
    decreases files.len(),
{
    if files.len() == 0 {
        Seq::empty()
    } else {
        all_lines(files.drop_last()) + lines(files.last())
    }
}

// ---------------------------------------------------------------------------
// The connection cost matrix.

/// The cost matrix after the lines `ls` of matrix.def: each line of at least
/// three words sets the cost of right id, left id; `None` where a word does
/// not parse or the cell lies outside the `forward` by `backward` matrix.
pub open spec fn matrix_cells(
    forward: int,
    backward: int,
    costs: Seq<i16>,
    ls: Seq<Seq<char>>,
) -> Option<Seq<i16>>
    decreases ls.len(),
{
    if ls.len() == 0 {
        Some(costs)
    } else {
        match matrix_cells(forward, backward, costs, ls.drop_last()) {
            None => None,
            Some(c) => {
                let parts = words(ls.last());
                if parts.len() < 3 {
                    Some(c)
                } else {
                    match (field_usize(parts[0]), field_usize(parts[1]), field_i16(parts[2])) {
                        (Some(r), Some(l), Some(cost)) => if r * backward + l < forward
                            * backward {
                            Some(c.update(r * backward + l, cost))
                        } else {
                            None
                        },
                        _ => None,
                    }
                }
            },
        }
    }
}

/// The right id, left id and cost that a line of matrix.def gives: its
/// first three words, where it has at least three and they parse.
pub open spec fn matrix_line(line: Seq<char>) -> Option<(usize, usize, i16)> {
    let parts = words(line);
    if parts.len() >= 3 && field_usize(parts[0]) is Some && field_usize(parts[1]) is Some
        && field_i16(parts[2]) is Some {
        Some((field_usize(parts[0])->0, field_usize(parts[1])->0, field_i16(parts[2])->0))
    } else {
        None
    }
}

/// No line of `ls` after the one at `k` names the cell of right id `r` and
/// left id `l` in a matrix of `backward` columns.
pub open spec fn last_for_cell(ls: Seq<Seq<char>>, k: int, backward: int, r: int, l: int) -> bool {
    forall|m: int|
        k < m < ls.len() ==> match #[trigger] matrix_line(ls[m]) {
            Some((r2, l2, c2)) => r2 * backward + l2 != r * backward + l,
            None => true,
        }
}

proof fn lemma_matrix_cells_len(forward: int, backward: int, costs: Seq<i16>, ls: Seq<Seq<char>>)
    requires
        0 <= backward,
        costs.len() == forward * backward,
        matrix_cells(forward, backward, costs, ls) is Some,
    ensures
        matrix_cells(forward, backward, costs, ls)->0.len() == costs.len(),
    decreases ls.len(),
{
    if ls.len() > 0 {
        lemma_matrix_cells_len(forward, backward, costs, ls.drop_last());
        let c = matrix_cells(forward, backward, costs, ls.drop_last())->0;
        let parts = words(ls.last());
        if parts.len() >= 3 {
            let r = field_usize(parts[0])->0;
            let l = field_usize(parts[1])->0;
            if field_i16(parts[2]) is Some {
                assert(0 <= r * backward + l < c.len()) by (nonlinear_arith)
                    requires
                        0 <= r,
                        0 <= l,
                        0 <= backward,
                        r * backward + l < forward * backward,
                        c.len() == forward * backward,
                ;
                assert(c.update(r * backward + l, field_i16(parts[2])->0).len() == c.len());
            }
        }
    }
}

proof fn lemma_matrix_cells_line(
    forward: int,
    backward: int,
    costs: Seq<i16>,
    ls: Seq<Seq<char>>,
    k: int,
)
    requires
        0 <= backward,
        costs.len() == forward * backward,
        matrix_cells(forward, backward, costs, ls) is Some,
        0 <= k < ls.len(),
        matrix_line(ls[k]) is Some,
        last_for_cell(
            ls,
            k,
            backward,
            (matrix_line(ls[k])->0).0 as int,
            (matrix_line(ls[k])->0).1 as int,
        ),
    ensures
        ({
            let (r, l, c) = matrix_line(ls[k])->0;
            &&& r * backward + l < forward * backward
            &&& matrix_cells(forward, backward, costs, ls)->0[r * backward + l] == c
        }),
    decreases ls.len(),
{
    let (r, l, c) = matrix_line(ls[k])->0;
    let init = ls.drop_last();
    let last = ls.len() - 1;
    assert(ls.last() == ls[last]);
    lemma_matrix_cells_len(forward, backward, costs, init);
    let before = matrix_cells(forward, backward, costs, init)->0;
    let parts = words(ls[last]);
    if k == last {
        assert(matrix_cells(forward, backward, costs, ls)->0 == before.update(
            r * backward + l,
            c,
        ));
    } else {
        assert(init[k] == ls[k]);
        assert(last_for_cell(init, k, backward, r as int, l as int)) by {
            assert forall|m: int| k < m < init.len() implies match #[trigger] matrix_line(init[m]) {
                Some((r2, l2, c2)) => r2 * backward + l2 != r * backward + l,
                None => true,
            } by {
                assert(init[m] == ls[m]);
                assert(match matrix_line(ls[m]) {
                    Some((r2, l2, c2)) => r2 * backward + l2 != r * backward + l,
                    None => true,
                });
            }
        }
        lemma_matrix_cells_line(forward, backward, costs, init, k);
        assert(match matrix_line(ls[last]) {
            Some((r2, l2, c2)) => r2 * backward + l2 != r * backward + l,
            None => true,
        });
        if parts.len() >= 3 {
            let r2 = field_usize(parts[0])->0;
            let l2 = field_usize(parts[1])->0;
            assert(matrix_line(ls[last]) == Some((r2, l2, field_i16(parts[2])->0)));
            assert(matrix_cells(forward, backward, costs, ls)->0 == before.update(
                r2 * backward + l2,
                field_i16(parts[2])->0,
            ));
        }
    }
}

/// Each line of matrix.def sets the cost of the words it names: where the
/// line at `k` (after the header) reads right id `r`, left id `l`, cost `c`,
/// and no later line names the same cell, the loaded matrix has cost `c` at
/// `r * backward + l`, the cost of a word with right id `r` followed by one
/// with left id `l`.
pub proof fn law_matrix_line_cost(text: Seq<char>, k: int)
    requires
        matrix_model(text) is Some,
        1 <= k < lines(text).len(),
        matrix_line(lines(text)[k]) is Some,
        last_for_cell(
            lines(text),
            k,
            (matrix_model(text)->0).1 as int,
            (matrix_line(lines(text)[k])->0).0 as int,
            (matrix_line(lines(text)[k])->0).1 as int,
        ),
    ensures
        ({
            let (forward, backward, costs) = matrix_model(text)->0;
            let (r, l, c) = matrix_line(lines(text)[k])->0;
            &&& r * backward + l < forward * backward
            &&& costs[r * backward + l] == c
        }),
{
    let ls = lines(text);
    let dims = words(ls[0]);
    let forward = field_usize(dims[0])->0;
    let backward = field_usize(dims[1])->0;
    let body = ls.drop_first();
    let zeros = Seq::new((forward * backward) as nat, |i: int| 0i16);
    let (r, l, c) = matrix_line(ls[k])->0;
    assert(body[k - 1] == ls[k]);
    assert(last_for_cell(body, k - 1, backward as int, r as int, l as int)) by {
        assert forall|m: int| k - 1 < m < body.len() implies match #[trigger] matrix_line(body[m]) {
            Some((r2, l2, c2)) => r2 * backward + l2 != r * backward + l,
            None => true,
        } by {
            assert(body[m] == ls[m + 1]);
            assert(match matrix_line(ls[m + 1]) {
                Some((r2, l2, c2)) => r2 * backward + l2 != r * backward + l,
                None => true,
            });
        }
    }
    lemma_matrix_cells_line(forward as int, backward as int, zeros, body, k - 1);
}

/// Whether every word of `ws` is a `usize`.
pub open spec fn all_usize(ws: Seq<Seq<char>>) -> bool {
    forall|k: int| 0 <= k < ws.len() ==> (#[trigger] field_usize(ws[k])) is Some
}

/// The matrix of matrix.def: its sizes from the first line, then its cells.
pub open spec fn matrix_model(text: Seq<char>) -> Option<(usize, usize, Seq<i16>)> {
    let ls = lines(text);
    if ls.len() == 0 {
        None
    } else {
        let dims = words(ls[0]);
        if !all_usize(dims) || dims.len() < 2 {
            None
        } else {
            let forward = field_usize(dims[0])->0;
            let backward = field_usize(dims[1])->0;
            if forward * backward > usize::MAX {
                None
            } else {
                match matrix_cells(
                    forward as int,
                    backward as int,
                    Seq::new((forward * backward) as nat, |i: int| 0i16),
                    ls.drop_first(),
                ) {
                    Some(costs) => Some((forward, backward, costs)),
                    None => None,
                }
            }
        }
    }
}

// ---------------------------------------------------------------------------
// The character categories.

/// `s` without its first two bytes, as `&s[2..]` slices it (`None` where
/// that is not a char boundary).
pub open spec fn skip_two_bytes(s: Seq<char>) -> Option<Seq<char>> {
    if s.len() >= 1 && utf8_width(s[0]) == 2 {
        Some(s.skip(1))
    } else if s.len() >= 2 && utf8_width(s[0]) == 1 && utf8_width(s[1]) == 1 {
        Some(s.skip(2))
    } else if s.len() == 1 && utf8_width(s[0]) == 1 {
        None
    } else {
        None
    }
}

/// The code point `0x...` of char.def, if `s` is one.
pub open spec fn code_point(s: Seq<char>) -> Option<u32> {
    match skip_two_bytes(s) {
        Some(h) => field_hex(h),
        None => None,
    }
}

/// The index of the first `..` in `s`, or its length.
pub open spec fn dots_at(s: Seq<char>) -> int
    decreases s.len(),
{
    if s.len() < 2 {
        s.len() as int
    } else if s[0] == '.' && s[1] == '.' {
        0
    } else {
        1 + dots_at(s.drop_first())
    }
}

/// The code points of the first word of a range line: `0xA..0xB`, or one.
pub open spec fn code_range(w: Seq<char>) -> Option<(u32, u32)> {
    let i = dots_at(w);
    if i < w.len() {
        let rest = w.skip(i + 2);
        match (code_point(w.take(i)), code_point(rest.take(dots_at(rest)))) {
            (Some(a), Some(b)) => Some((a, b)),
            _ => None,
        }
    } else {
        match code_point(w) {
            Some(v) => Some((v, v)),
            None => None,
        }
    }
}

/// The categories named by `ws`, skipping unknown names.
pub open spec fn named_categories(ws: Seq<Seq<char>>) -> Seq<CharCategory>
    decreases ws.len(),
{
    if ws.len() == 0 {
        Seq::empty()
    } else {
        let c = named_categories(ws.drop_last());
        match category_named(ws.last()) {
            Some(cat) => c.push(cat),
            None => c,
        }
    }
}

/// The category definitions before char.def sets any.
pub open spec fn default_defs() -> Seq<CategoryDef> {
    Seq::new(NUM_CATEGORIES as nat, |i: int| CategoryDef { invoke: false, group: false, length: 0 })
}

/// The content of a char.def line, after trimming and without comment.
pub open spec fn char_def_content(line: Seq<char>) -> Seq<char> {
    let t = trim(line);
    if index_of(t, '#') < t.len() {
        trim(t.take(index_of(t, '#')))
    } else {
        t
    }
}

/// Definitions and ranges after one more char.def line; `None` where a code
/// point does not parse.
pub open spec fn char_def_line(
    defs: Seq<CategoryDef>,
    ranges: Seq<CharRangeView>,
    line: Seq<char>,
) -> Option<(Seq<CategoryDef>, Seq<CharRangeView>)> {
    let t = trim(line);
    if t.len() == 0 || t[0] == '#' {
        Some((defs, ranges))
    } else {
        let c = char_def_content(line);
        let parts = words(c);
        if c.len() >= 2 && c[0] == '0' && c[1] == 'x' {
            if parts.len() < 2 {
                Some((defs, ranges))
            } else {
                match code_range(parts[0]) {
                    None => None,
                    Some((start, end)) => {
                        let cats = named_categories(parts.skip(1));
                        if cats.len() > 0 {
                            Some((defs, ranges.push(CharRangeView { start, end, categories: cats })))
                        } else {
                            Some((defs, ranges))
                        }
                    },
                }
            }
        } else if parts.len() >= 4 && category_named(parts[0]) is Some {
            let cat = category_named(parts[0])->0;
            let def = CategoryDef {
                invoke: parts[1] == "1"@,
                group: parts[2] == "1"@,
                length: match field_u8(parts[3]) {
                    Some(v) => v,
                    None => 0,
                },
            };
            Some((defs.update(cat.spec_index(), def), ranges))
        } else {
            Some((defs, ranges))
        }
    }
}

/// Definitions and ranges after the lines `ls` of char.def.
pub open spec fn char_def_lines(ls: Seq<Seq<char>>) -> Option<(Seq<CategoryDef>, Seq<CharRangeView>)>
    decreases ls.len(),
{
    if ls.len() == 0 {
        Some((default_defs(), Seq::empty()))
    } else {
        match char_def_lines(ls.drop_last()) {
            None => None,
            Some((defs, ranges)) => char_def_line(defs, ranges, ls.last()),
        }
    }
}

/// `sorted` with `r` inserted after every range starting no later.
pub open spec fn insert_by_start(sorted: Seq<CharRangeView>, r: CharRangeView) -> Seq<
    CharRangeView,
>
    decreases sorted.len(),
{
    if sorted.len() == 0 || sorted.last().start <= r.start {
        sorted.push(r)
    } else {
        insert_by_start(sorted.drop_last(), r).push(sorted.last())
    }
}

/// `ranges` sorted by start, ranges of one start in their order (a stable
/// sort).
pub open spec fn sort_by_start(ranges: Seq<CharRangeView>) -> Seq<CharRangeView>
    decreases ranges.len(),
{
    if ranges.len() == 0 {
        Seq::empty()
    } else {
        insert_by_start(sort_by_start(ranges.drop_last()), ranges.last())
    }
}

/// What char.def defines: the category definitions and the ranges, sorted
/// by start.
pub open spec fn char_def_model(text: Seq<char>) -> Option<(Seq<CategoryDef>, Seq<CharRangeView>)> {
    match char_def_lines(lines(text)) {
        Some((defs, ranges)) => Some((defs, sort_by_start(ranges))),
        None => None,
    }
}

// ---------------------------------------------------------------------------
// The unknown-word templates.

/// What an unk.def line holds: `None` where a field of a line of a known
/// category does not parse, `Some(None)` for a line skipped (fewer than
/// four fields, or an unknown category), else the category and template.
pub open spec fn unk_line(line: Seq<char>) -> Option<Option<(CharCategory, UnkEntry)>> {
    let f = csv_fields(line);
    if f.len() < 4 {
        Some(None)
    } else {
        match category_named(f[0]) {
            None => Some(None),
            Some(cat) => match (field_u16(f[1]), field_u16(f[2]), field_i16(f[3])) {
                (Some(left_id), Some(right_id), Some(word_cost)) => Some(
                    Some((cat, UnkEntry { left_id, right_id, word_cost })),
                ),
                _ => None,
            },
        }
    }
}

/// The templates per category after the lines `ls` of unk.def.
pub open spec fn unk_lines(ls: Seq<Seq<char>>) -> Option<Seq<Seq<UnkEntry>>>
    decreases ls.len(),
{
    if ls.len() == 0 {
        Some(Seq::new(NUM_CATEGORIES as nat, |i: int| Seq::<UnkEntry>::empty()))
    } else {
        match unk_lines(ls.drop_last()) {
            None => None,
            Some(u) => match unk_line(ls.last()) {
                None => None,
                Some(None) => Some(u),
                Some(Some((cat, e))) => Some(
                    u.update(cat.spec_index(), u[cat.spec_index()].push(e)),
                ),
            },
        }
    }
}

// ---------------------------------------------------------------------------
// Reading the files.

/// The string of the chars `v`.
fn string_of(v: &Vec<char>) -> (s: String)
    ensures
        s@ == v@,
{
    let mut s = String::new();
    let mut i: usize = 0;
    while i < v.len()
        invariant
            i <= v@.len(),
            s@ == v@.take(i as int),
        decreases v@.len() - i,
    {
        push_char(&mut s, v[i]);
        proof {
            assert(v@.take(i as int + 1) =~= v@.take(i as int).push(v@[i as int]));
        }
        i = i + 1;
    }
    proof {
        assert(v@.take(i as int) =~= v@);
    }
    s
}

/// The entries of a word map as sequences.
pub open spec fn entries_model(m: Map<Seq<char>, Vec<DictEntry>>) -> Map<Seq<char>, Seq<DictEntry>> {
    m.map_values(|v: Vec<DictEntry>| v@)
}

/// A copy of `v`.
fn copy_entries(v: &Vec<DictEntry>) -> (r: Vec<DictEntry>)
    ensures
        r@ == v@,
{
    let mut r: Vec<DictEntry> = Vec::new();
    let mut i: usize = 0;
    while i < v.len()
        invariant
            i <= v@.len(),
            r@ == v@.take(i as int),
        decreases v@.len() - i,
    {
        r.push(v[i]);
        proof {
            assert(v@.take(i as int + 1) =~= v@.take(i as int).push(v@[i as int]));
        }
        i = i + 1;
    }
    proof {
        assert(v@.take(i as int) =~= v@);
    }
    r
}

/// Adds the word of the word-list line `line` to `entries`; `false` where a
/// field does not parse.
fn add_csv_line(entries: &mut StringHashMap<Vec<DictEntry>>, line: &Vec<char>) -> (r: Option<
    Option<DictEntry>,
>)
    ensures
        (r is Some) == (csv_entry(line@) is Some),
        match csv_entry(line@) {
            Some(Some((key, e))) => r == Some(Some(e)) && entries_model(final(entries)@)
                == add_entry(entries_model(old(entries)@), key, e),
            Some(None) => r == Some(None::<DictEntry>) && entries_model(final(entries)@)
                == entries_model(old(entries)@),
            None => true,
        },
{
    let fields = parse_csv_line(line);
    let ghost f = csv_fields(line@);
    proof {
        assert(fields@.len() == f.len());
    }
    if fields.len() < 4 {
        return Some(None);
    }
    proof {
        assert(fields@[1]@ == f[1]);
        assert(fields@[2]@ == f[2]);
        assert(fields@[3]@ == f[3]);
        assert(fields@[0]@ == f[0]);
    }
    let left_id = match u16_field(&fields[1]) {
        Some(v) => v,
        None => return None,
    };
    let right_id = match u16_field(&fields[2]) {
        Some(v) => v,
        None => return None,
    };
    let word_cost = match i16_field(&fields[3]) {
        Some(v) => v,
        None => return None,
    };
    let e = DictEntry { left_id, right_id, word_cost };
    let key = string_of(&fields[0]);
    let mut v = match entries.get(key.as_str()) {
        Some(old_words) => copy_entries(old_words),
        None => Vec::new(),
    };
    let ghost before = entries@;
    v.push(e);
    entries.insert(key, v);
    proof {
        let m0 = entries_model(before);
        assert(entries_model(entries@) =~= add_entry(m0, key@, e));
    }
    Some(Some(e))
}

/// `left` and `right` are the largest left and right ids of the words of
/// `m` (0 where there are none).
pub open spec fn max_ids(m: Map<Seq<char>, Seq<DictEntry>>, left: u16, right: u16) -> bool {
    &&& forall|k: Seq<char>, i: int|
        #![trigger m[k][i]]
        m.contains_key(k) && 0 <= i < m[k].len() ==> m[k][i].left_id <= left && m[k][i].right_id
            <= right
    &&& left == 0 || exists|k: Seq<char>, i: int|
        #![trigger m[k][i]]
        m.contains_key(k) && 0 <= i < m[k].len() && m[k][i].left_id == left
    &&& right == 0 || exists|k: Seq<char>, i: int|
        #![trigger m[k][i]]
        m.contains_key(k) && 0 <= i < m[k].len() && m[k][i].right_id == right
}

proof fn lemma_max_ids_add(m: Map<Seq<char>, Seq<DictEntry>>, left: u16, right: u16, key: Seq<char>, e: DictEntry)
    requires
        max_ids(m, left, right),
    ensures
        max_ids(
            add_entry(m, key, e),
            if e.left_id > left { e.left_id } else { left },
            if e.right_id > right { e.right_id } else { right },
        ),
{
    let m2 = add_entry(m, key, e);
    let nl = if e.left_id > left { e.left_id } else { left };
    let nr = if e.right_id > right { e.right_id } else { right };
    let last = m2[key].len() - 1;
    assert(m2[key][last] == e);
    assert forall|k: Seq<char>, i: int|
        #![trigger m2[k][i]]
        m2.contains_key(k) && 0 <= i < m2[k].len() implies m2[k][i].left_id <= nl
            && m2[k][i].right_id <= nr by {
        if k == key && i == last {
        } else {
            assert(m.contains_key(k) && m2[k][i] == m[k][i]);
        }
    }
    if nl != 0 {
        if e.left_id > left {
            assert(m2.contains_key(key) && 0 <= last < m2[key].len() && m2[key][last].left_id == nl);
        } else {
            let (k0, i0) = choose|k: Seq<char>, i: int|
                #![trigger m[k][i]]
                m.contains_key(k) && 0 <= i < m[k].len() && m[k][i].left_id == left;
            assert(m2[k0][i0] == m[k0][i0]);
        }
    }
    if nr != 0 {
        if e.right_id > right {
            assert(m2.contains_key(key) && 0 <= last < m2[key].len() && m2[key][last].right_id == nr);
        } else {
            let (k0, i0) = choose|k: Seq<char>, i: int|
                #![trigger m[k][i]]
                m.contains_key(k) && 0 <= i < m[k].len() && m[k][i].right_id == right;
            assert(m2[k0][i0] == m[k0][i0]);
        }
    }
}

/// The views of the strings `files`.
pub open spec fn text_views(files: Seq<&str>) -> Seq<Seq<char>> {
    files.map_values(|s: &str| s@)
}

proof fn lemma_csv_entries_none_extends(a: Seq<Seq<char>>, b: Seq<Seq<char>>)
    requires
        csv_entries(a) is None,
    ensures
        csv_entries(a + b) is None,
    decreases b.len(),
{
    if b.len() == 0 {
        assert(a + b =~= a);
    } else {
        assert((a + b).drop_last() =~= a + b.drop_last());
        lemma_csv_entries_none_extends(a, b.drop_last());
    }
}

proof fn lemma_all_lines_step(files: Seq<Seq<char>>, i: int)
    requires
        0 <= i < files.len(),
    ensures
        all_lines(files.take(i + 1)) == all_lines(files.take(i)) + lines(files[i]),
{
    assert(files.take(i + 1).drop_last() =~= files.take(i));
}

proof fn lemma_all_lines_concat(a: Seq<Seq<char>>, b: Seq<Seq<char>>)
    ensures
        all_lines(a + b) == all_lines(a) + all_lines(b),
    decreases b.len(),
{
    if b.len() == 0 {
        assert(a + b =~= a);
        assert(all_lines(a) + all_lines(b) =~= all_lines(a));
    } else {
        assert((a + b).drop_last() =~= a + b.drop_last());
        assert((a + b).last() == b.last());
        lemma_all_lines_concat(a, b.drop_last());
        assert(all_lines(a + b) =~= all_lines(a) + all_lines(b));
    }
}

/// The words of the word-list files `files`, in order; `None` where a line
/// does not parse.
pub fn load_csv_entries(files: &[&str]) -> (r: Option<(StringHashMap<Vec<DictEntry>>, u16, u16)>)
    ensures
        match r {
            Some((m, left, right)) => csv_entries(all_lines(text_views(files@))) == Some(
                entries_model(m@),
            ) && max_ids(entries_model(m@), left, right),
            None => csv_entries(all_lines(text_views(files@))) is None,
        },
{
    let ghost views = text_views(files@);
    let mut entries: StringHashMap<Vec<DictEntry>> = StringHashMap::new();
    let mut max_left: u16 = 0;
    let mut max_right: u16 = 0;
    let ghost mut processed: Seq<Seq<char>> = Seq::empty();
    proof {
        assert(entries_model(entries@) =~= Map::<Seq<char>, Seq<DictEntry>>::empty());
        assert(views.take(0) =~= Seq::<Seq<char>>::empty());
    }
    let mut fi: usize = 0;
    while fi < files.len()
        invariant
            views == text_views(files@),
            fi <= files@.len(),
            processed == all_lines(views.take(fi as int)),
            csv_entries(processed) == Some(entries_model(entries@)),
            max_ids(entries_model(entries@), max_left, max_right),
        decreases files@.len() - fi,
    {
        let chars = chars_of(files[fi]);
        let ls = split_lines(&chars);
        let ghost lsv = ls@.map_values(|l: Vec<char>| l@);
        let ghost base = processed;
        proof {
            assert(views[fi as int] == files@[fi as int]@);
            assert(lsv == lines(views[fi as int]));
            assert(lsv.take(0) =~= Seq::<Seq<char>>::empty());
            assert(base + lsv.take(0) =~= base);
        }
        let mut li: usize = 0;
        while li < ls.len()
            invariant
                views == text_views(files@),
                fi < files@.len(),
                base == all_lines(views.take(fi as int)),
                lsv == ls@.map_values(|l: Vec<char>| l@),
                lsv == lines(views[fi as int]),
                li <= ls@.len(),
                processed == base + lsv.take(li as int),
                csv_entries(processed) == Some(entries_model(entries@)),
                max_ids(entries_model(entries@), max_left, max_right),
            decreases ls@.len() - li,
        {
            let ghost before = entries_model(entries@);
            let added = add_csv_line(&mut entries, &ls[li]);
            let ok = added.is_some();
            let ghost next = processed.push(lsv[li as int]);
            proof {
                assert(lsv[li as int] == ls@[li as int]@);
                assert(next.drop_last() =~= processed);
                assert(next.last() == ls@[li as int]@);
            }
            if !ok {
                proof {
                    assert(csv_entries(next) is None);
                    lemma_all_lines_step(views, fi as int);
                    assert(views =~= views.take(fi as int + 1) + views.skip(fi as int + 1));
                    lemma_all_lines_concat(views.take(fi as int + 1), views.skip(fi as int + 1));
                    let rest = all_lines(views.skip(fi as int + 1));
                    assert(lsv =~= lsv.take(li as int + 1) + lsv.skip(li as int + 1));
                    assert(all_lines(views) =~= next + (lsv.skip(li as int + 1) + rest));
                    lemma_csv_entries_none_extends(next, lsv.skip(li as int + 1) + rest);
                }
                return None;
            }
            if let Some(Some(e)) = added {
                proof {
                    let (key, e2) = csv_entry(ls@[li as int]@)->0->0;
                    lemma_max_ids_add(before, max_left, max_right, key, e2);
                }
                if e.left_id > max_left {
                    max_left = e.left_id;
                }
                if e.right_id > max_right {
                    max_right = e.right_id;
                }
            }
            proof {
                processed = next;
                assert(base + lsv.take(li as int + 1) =~= next);
            }
            li = li + 1;
        }
        proof {
            lemma_all_lines_step(views, fi as int);
            assert(lsv.take(li as int) =~= lsv);
        }
        fi = fi + 1;
    }
    proof {
        assert(views.take(fi as int) =~= views);
    }
    Some((entries, max_left, max_right))
}

proof fn lemma_matrix_cells_none_extends(
    forward: int,
    backward: int,
    costs: Seq<i16>,
    a: Seq<Seq<char>>,
    b: Seq<Seq<char>>,
)
    requires
        matrix_cells(forward, backward, costs, a) is None,
    ensures
        matrix_cells(forward, backward, costs, a + b) is None,
    decreases b.len(),
{
    if b.len() == 0 {
        assert(a + b =~= a);
    } else {
        assert((a + b).drop_last() =~= a + b.drop_last());
        lemma_matrix_cells_none_extends(forward, backward, costs, a, b.drop_last());
    }
}

/// The connection cost matrix of matrix.def: rows, columns and cells;
/// `None` where the file does not parse.
pub fn load_matrix(text: &str) -> (r: Option<(usize, usize, Vec<i16>)>)
    ensures
        match r {
            Some((f, b, c)) => matrix_model(text@) == Some((f, b, c@)) && c@.len() == f * b,
            None => matrix_model(text@) is None,
        },
{
    let chars = chars_of(text);
    let ls = split_lines(&chars);
    let ghost lsv = ls@.map_values(|l: Vec<char>| l@);
    if ls.len() == 0 {
        return None;
    }
    let dims = split_whitespace(&ls[0]);
    let ghost dv = dims@.map_values(|w: Vec<char>| w@);
    proof {
        assert(lsv[0] == ls@[0]@);
        assert(lsv == lines(text@));
        assert(dv == words(lines(text@)[0]));
    }
    let mut vals: Vec<usize> = Vec::new();
    let mut k: usize = 0;
    while k < dims.len()
        invariant
            k <= dims@.len(),
            dv == dims@.map_values(|w: Vec<char>| w@),
            dv == words(lines(text@)[0]),
            lines(text@).len() > 0,
            vals@.len() == k,
            forall|m: int| 0 <= m < k ==> field_usize(#[trigger] dv[m]) == Some(vals@[m]),
        decreases dims@.len() - k,
    {
        proof {
            assert(dv[k as int] == dims@[k as int]@);
        }
        match usize_field(&dims[k]) {
            Some(v) => vals.push(v),
            None => {
                proof {
                    assert(field_usize(dv[k as int]) is None);
                }
                return None;
            },
        }
        k = k + 1;
    }
    proof {
        assert(all_usize(dv));
    }
    if dims.len() < 2 {
        return None;
    }
    let forward = vals[0];
    let backward = vals[1];
    proof {
        assert(field_usize(dv[0]) == Some(forward));
        assert(field_usize(dv[1]) == Some(backward));
    }
    let size = match forward.checked_mul(backward) {
        Some(v) => v,
        None => return None,
    };
    let mut costs: Vec<i16> = Vec::new();
    while costs.len() < size
        invariant
            costs@.len() <= size,
            forall|m: int| 0 <= m < costs@.len() ==> #[trigger] costs@[m] == 0i16,
        decreases size - costs@.len(),
    {
        costs.push(0);
    }
    let ghost zero = Seq::new((forward * backward) as nat, |i: int| 0i16);
    let ghost cell_lines = lsv.drop_first();
    proof {
        assert(costs@ =~= zero);
        assert(cell_lines.take(0) =~= Seq::<Seq<char>>::empty());
    }
    let mut li: usize = 1;
    while li < ls.len()
        invariant
            1 <= li <= ls@.len(),
            lsv == ls@.map_values(|l: Vec<char>| l@),
            lsv == lines(text@),
            dv == words(lines(text@)[0]),
            all_usize(dv),
            dv.len() >= 2,
            field_usize(dv[0]) == Some(forward),
            field_usize(dv[1]) == Some(backward),
            zero == Seq::new((forward * backward) as nat, |i: int| 0i16),
            cell_lines == lsv.drop_first(),
            size == forward * backward,
            costs@.len() == size,
            matrix_cells(forward as int, backward as int, zero, cell_lines.take(li - 1)) == Some(
                costs@,
            ),
        decreases ls@.len() - li,
    {
        let parts = split_whitespace(&ls[li]);
        let ghost pv = parts@.map_values(|w: Vec<char>| w@);
        let ghost next = cell_lines.take(li as int);
        proof {
            assert(next.drop_last() =~= cell_lines.take(li - 1));
            assert(next.last() == lsv[li as int]);
            assert(lsv[li as int] == ls@[li as int]@);
            assert(pv == words(next.last()));
        }
        if parts.len() >= 3 {
            proof {
                assert(pv[0] == parts@[0]@);
                assert(pv[1] == parts@[1]@);
                assert(pv[2] == parts@[2]@);
            }
            let r = usize_field(&parts[0]);
            let l = usize_field(&parts[1]);
            let cost = i16_field(&parts[2]);
            let ok_cell = match (r, l, cost) {
                (Some(r), Some(l), Some(cost)) => {
                    let rw = r as u128;
                    let bw = backward as u128;
                    assert(rw * bw <= 0xFFFF_FFFF_FFFF_FFFF * 0xFFFF_FFFF_FFFF_FFFF) by (nonlinear_arith)
                        requires
                            rw <= 0xFFFF_FFFF_FFFF_FFFF,
                            bw <= 0xFFFF_FFFF_FFFF_FFFF,
                    ;
                    let idx = rw * bw + l as u128;
                    if idx < size as u128 {
                        costs.set(idx as usize, cost);
                        true
                    } else {
                        false
                    }
                },
                _ => false,
            };
            if !ok_cell {
                proof {
                    assert(matrix_cells(forward as int, backward as int, zero, next) is None);
                    assert(lsv.drop_first() =~= next + cell_lines.skip(li as int));
                    lemma_matrix_cells_none_extends(
                        forward as int,
                        backward as int,
                        zero,
                        next,
                        cell_lines.skip(li as int),
                    );
                }
                return None;
            }
        }
        li = li + 1;
    }
    proof {
        assert(cell_lines.take(li - 1) =~= cell_lines);
        assert(lsv[0] == ls@[0]@);
    }
    Some((forward, backward, costs))
}

proof fn lemma_unk_lines_none_extends(a: Seq<Seq<char>>, b: Seq<Seq<char>>)
    requires
        unk_lines(a) is None,
    ensures
        unk_lines(a + b) is None,
    decreases b.len(),
{
    if b.len() == 0 {
        assert(a + b =~= a);
    } else {
        assert((a + b).drop_last() =~= a + b.drop_last());
        lemma_unk_lines_none_extends(a, b.drop_last());
    }
}

/// The templates of one unk.def line: `Some(None)` where the line is
/// skipped, `None` where a field does not parse.
fn unk_line_of(line: &Vec<char>) -> (r: Option<Option<(CharCategory, UnkEntry)>>)
    ensures
        r == unk_line(line@),
{
    let fields = parse_csv_line(line);
    let ghost f = csv_fields(line@);
    proof {
        assert(fields@.len() == f.len());
    }
    if fields.len() < 4 {
        return Some(None);
    }
    proof {
        assert(fields@[0]@ == f[0]);
        assert(fields@[1]@ == f[1]);
        assert(fields@[2]@ == f[2]);
        assert(fields@[3]@ == f[3]);
    }
    let cat = match CharCategory::from_name(&fields[0]) {
        Some(c) => c,
        None => return Some(None),
    };
    let left_id = match u16_field(&fields[1]) {
        Some(v) => v,
        None => return None,
    };
    let right_id = match u16_field(&fields[2]) {
        Some(v) => v,
        None => return None,
    };
    let word_cost = match i16_field(&fields[3]) {
        Some(v) => v,
        None => return None,
    };
    Some(Some((cat, UnkEntry { left_id, right_id, word_cost })))
}

/// The templates per category, as sequences.
pub open spec fn unk_views(u: Seq<Vec<UnkEntry>>) -> Seq<Seq<UnkEntry>> {
    u.map_values(|v: Vec<UnkEntry>| v@)
}

/// The unknown-word templates per category of unk.def; `None` where a line
/// does not parse.
pub fn load_unk(text: &str) -> (r: Option<Vec<Vec<UnkEntry>>>)
    ensures
        match r {
            Some(u) => unk_lines(lines(text@)) == Some(unk_views(u@)) && u@.len()
                == NUM_CATEGORIES,
            None => unk_lines(lines(text@)) is None,
        },
{
    let chars = chars_of(text);
    let ls = split_lines(&chars);
    let ghost lsv = ls@.map_values(|l: Vec<char>| l@);
    let mut unknown: Vec<Vec<UnkEntry>> = Vec::new();
    while unknown.len() < NUM_CATEGORIES
        invariant
            unknown@.len() <= NUM_CATEGORIES,
            forall|c: int| 0 <= c < unknown@.len() ==> (#[trigger] unknown@[c])@.len() == 0,
        decreases NUM_CATEGORIES - unknown@.len(),
    {
        unknown.push(Vec::new());
    }
    proof {
        assert forall|c: int| 0 <= c < NUM_CATEGORIES implies #[trigger] unk_views(unknown@)[c] == Seq::<UnkEntry>::empty() by {
            assert(unknown@[c]@ =~= Seq::<UnkEntry>::empty());
        }
        assert(unk_views(unknown@) =~= Seq::new(
            NUM_CATEGORIES as nat,
            |i: int| Seq::<UnkEntry>::empty(),
        ));
        assert(lsv.take(0) =~= Seq::<Seq<char>>::empty());
    }
    let mut li: usize = 0;
    while li < ls.len()
        invariant
            li <= ls@.len(),
            lsv == ls@.map_values(|l: Vec<char>| l@),
            lsv == lines(text@),
            unknown@.len() == NUM_CATEGORIES,
            unk_lines(lsv.take(li as int)) == Some(unk_views(unknown@)),
        decreases ls@.len() - li,
    {
        let ghost next = lsv.take(li as int + 1);
        proof {
            assert(next.drop_last() =~= lsv.take(li as int));
            assert(next.last() == ls@[li as int]@);
        }
        match unk_line_of(&ls[li]) {
            None => {
                proof {
                    assert(lsv =~= next + lsv.skip(li as int + 1));
                    lemma_unk_lines_none_extends(next, lsv.skip(li as int + 1));
                }
                return None;
            },
            Some(None) => {},
            Some(Some((cat, e))) => {
                let idx = cat.index();
                let ghost before = unk_views(unknown@);
                unknown[idx].push(e);
                proof {
                    assert(unk_views(unknown@) =~= before.update(
                        idx as int,
                        before[idx as int].push(e),
                    ));
                }
            },
        }
        li = li + 1;
    }
    proof {
        assert(lsv.take(li as int) =~= lsv);
    }
    Some(unknown)
}

/// Whether `..` stands at index `k` of `s`.
pub open spec fn is_dots(s: Seq<char>, k: int) -> bool {
    s[k] == '.' && s[k + 1] == '.'
}

proof fn lemma_dots_at(s: Seq<char>, r: int)
    requires
        0 <= r <= s.len(),
        r < s.len() ==> r + 1 < s.len() && s[r] == '.' && s[r + 1] == '.',
        forall|k: int| 0 <= k < r && k + 1 < s.len() ==> !#[trigger] is_dots(s, k),
        r == s.len() || r + 1 < s.len(),
    ensures
        dots_at(s) == r,
    decreases s.len(),
{
    if s.len() >= 2 && !(s[0] == '.' && s[1] == '.') {
        let t = s.drop_first();
        assert forall|k: int| 0 <= k < r - 1 && k + 1 < t.len() implies !#[trigger] is_dots(t, k) by {
            assert(!is_dots(s, k + 1));
            assert(t[k] == s[k + 1]);
            assert(t[k + 1] == s[k + 2]);
        }
        if r - 1 < t.len() {
            assert(t[r - 1] == s[r]);
            assert(t[r] == s[r + 1]);
        }
        lemma_dots_at(t, r - 1);
    } else if s.len() >= 2 {
        if r > 0 {
            assert(!is_dots(s, 0));
        }
    }
}

/// The index of the first `..` in `w`, or its length.
fn find_dots(w: &Vec<char>) -> (r: usize)
    ensures
        r == dots_at(w@),
{
    let n = w.len();
    let mut i: usize = 0;
    let mut found = false;
    while !found && n >= 1 && i < n - 1
        invariant
            i <= n,
            n == w@.len(),
            found ==> i + 1 < n && w@[i as int] == '.' && w@[i + 1] == '.',
            forall|k: int| 0 <= k < i && k + 1 < n ==> !#[trigger] is_dots(w@, k),
        decreases n - i + (if found { 0int } else { 1int }),
    {
        if w[i] == '.' && w[i + 1] == '.' {
            found = true;
        } else {
            i = i + 1;
        }
    }
    let r = if found {
        i
    } else {
        n
    };
    proof {
        if !found {
            assert forall|k: int| 0 <= k < r && k + 1 < n implies !#[trigger] is_dots(w@, k) by {
                assert(k < i);
            }
        }
        lemma_dots_at(w@, r as int);
    }
    r
}

/// `w` without its first two bytes, where that is a char boundary.
fn skip_two(w: &Vec<char>) -> (r: Option<Vec<char>>)
    ensures
        match r {
            Some(v) => skip_two_bytes(w@) == Some(v@),
            None => skip_two_bytes(w@) is None,
        },
{
    let n = w.len();
    if n >= 1 && char_len_utf8(w[0]) == 2 {
        let v = copy_range(w, 1, n);
        assert(v@ =~= w@.skip(1));
        Some(v)
    } else if n >= 2 && char_len_utf8(w[0]) == 1 && char_len_utf8(w[1]) == 1 {
        let v = copy_range(w, 2, n);
        assert(v@ =~= w@.skip(2));
        Some(v)
    } else {
        None
    }
}

/// The code point `0x...` that `w` denotes.
fn code_point_of(w: &Vec<char>) -> (r: Option<u32>)
    ensures
        r == code_point(w@),
{
    match skip_two(w) {
        Some(h) => parse_hex_u32(&h),
        None => None,
    }
}

/// The code points of the first word of a range line.
fn code_range_of(w: &Vec<char>) -> (r: Option<(u32, u32)>)
    ensures
        r == code_range(w@),
{
    let n = w.len();
    let i = find_dots(w);
    proof {
        lemma_dots_at_bounds(w@);
    }
    if i < n {
        let rest = copy_range(w, i + 2, n);
        let j = find_dots(&rest);
        proof {
            lemma_dots_at_bounds(rest@);
            assert(rest@ =~= w@.skip(i + 2));
        }
        let first = copy_range(w, 0, i);
        let second = copy_range(&rest, 0, j);
        proof {
            assert(first@ =~= w@.take(i as int));
            assert(second@ =~= rest@.take(j as int));
        }
        match (code_point_of(&first), code_point_of(&second)) {
            (Some(a), Some(b)) => Some((a, b)),
            _ => None,
        }
    } else {
        match code_point_of(w) {
            Some(v) => Some((v, v)),
            None => None,
        }
    }
}

proof fn lemma_dots_at_bounds(s: Seq<char>)
    ensures
        0 <= dots_at(s) <= s.len(),
        dots_at(s) < s.len() ==> dots_at(s) + 2 <= s.len(),
    decreases s.len(),
{
    if s.len() >= 2 && !(s[0] == '.' && s[1] == '.') {
        lemma_dots_at_bounds(s.drop_first());
    }
}

/// The categories named by `parts[1..]`, skipping unknown names.
fn named_categories_after_first(parts: &Vec<Vec<char>>) -> (r: Vec<CharCategory>)
    requires
        parts@.len() >= 1,
    ensures
        r@ == named_categories(parts@.map_values(|w: Vec<char>| w@).skip(1)),
{
    let ghost pv = parts@.map_values(|w: Vec<char>| w@);
    let mut r: Vec<CharCategory> = Vec::new();
    let mut k: usize = 1;
    proof {
        assert(pv.skip(1).take(0) =~= Seq::<Seq<char>>::empty());
    }
    while k < parts.len()
        invariant
            1 <= k <= parts@.len(),
            pv == parts@.map_values(|w: Vec<char>| w@),
            r@ == named_categories(pv.skip(1).take(k - 1)),
        decreases parts@.len() - k,
    {
        let ghost t = pv.skip(1).take(k as int);
        proof {
            assert(t.drop_last() =~= pv.skip(1).take(k - 1));
            assert(t.last() == parts@[k as int]@);
        }
        match CharCategory::from_name(&parts[k]) {
            Some(cat) => r.push(cat),
            None => {},
        }
        k = k + 1;
    }
    proof {
        assert(pv.skip(1).take(k - 1) =~= pv.skip(1));
    }
    r
}

/// The content of a char.def line: trimmed, without comment.
fn char_def_content_of(line: &Vec<char>) -> (r: Vec<char>)
    ensures
        r@ == char_def_content(line@),
{
    let t = trim_ws(line);
    let idx = find_char(&t, 0, '#');
    proof {
        assert(t@.skip(0) =~= t@);
        lemma_index_of_bounds(t@, '#');
    }
    if idx < t.len() {
        let head = copy_range(&t, 0, idx);
        assert(head@ =~= t@.take(idx as int));
        trim_ws(&head)
    } else {
        t
    }
}

/// Applies one char.def line to the definitions and ranges; `false` where a
/// code point does not parse.
fn apply_char_def_line(
    defs: &mut Vec<CategoryDef>,
    ranges: &mut Vec<CharRange>,
    line: &Vec<char>,
) -> (ok: bool)
    requires
        old(defs)@.len() == NUM_CATEGORIES,
    ensures
        final(defs)@.len() == NUM_CATEGORIES,
        ok == (char_def_line(old(defs)@, range_views(old(ranges)@), line@) is Some),
        ok ==> char_def_line(old(defs)@, range_views(old(ranges)@), line@) == Some(
            (final(defs)@, range_views(final(ranges)@)),
        ),
{
    let t = trim_ws(line);
    if t.len() == 0 || t[0] == '#' {
        return true;
    }
    let c = char_def_content_of(line);
    let parts = split_whitespace(&c);
    let ghost pv = parts@.map_values(|w: Vec<char>| w@);
    if c.len() >= 2 && c[0] == '0' && c[1] == 'x' {
        if parts.len() < 2 {
            return true;
        }
        proof {
            assert(pv[0] == parts@[0]@);
        }
        match code_range_of(&parts[0]) {
            None => false,
            Some((start, end)) => {
                let cats = named_categories_after_first(&parts);
                if cats.len() > 0 {
                    let ghost before = range_views(ranges@);
                    let r = CharRange { start, end, categories: cats };
                    ranges.push(r);
                    proof {
                        assert(range_views(ranges@) =~= before.push(r@));
                    }
                }
                true
            },
        }
    } else {
        if parts.len() >= 4 {
            proof {
                assert(pv[0] == parts@[0]@);
                assert(pv[1] == parts@[1]@);
                assert(pv[2] == parts@[2]@);
                assert(pv[3] == parts@[3]@);
            }
            match CharCategory::from_name(&parts[0]) {
                Some(cat) => {
                    let length = match u8_field(&parts[3]) {
                        Some(v) => v,
                        None => 0,
                    };
                    let def = CategoryDef {
                        invoke: chars_eq(&parts[1], "1"),
                        group: chars_eq(&parts[2], "1"),
                        length,
                    };
                    defs.set(cat.index(), def);
                },
                None => {},
            }
        }
        true
    }
}

/// The views of the char ranges `ranges`.
pub open spec fn range_views(ranges: Seq<CharRange>) -> Seq<CharRangeView> {
    ranges.map_values(|r: CharRange| r@)
}

proof fn lemma_insert_by_start(s: Seq<CharRangeView>, r: CharRangeView, p: int)
    requires
        0 <= p <= s.len(),
        forall|k: int| p <= k < s.len() ==> (#[trigger] s[k]).start > r.start,
        p == 0 || s[p - 1].start <= r.start,
    ensures
        insert_by_start(s, r) == s.insert(p, r),
    decreases s.len(),
{
    if s.len() == 0 {
        assert(s.insert(p, r) =~= s.push(r));
    } else if s.last().start <= r.start {
        if p < s.len() {
            assert(s[s.len() - 1].start > r.start);
        }
        assert(s.insert(p, r) =~= s.push(r));
    } else {
        let t = s.drop_last();
        assert(p < s.len());
        assert forall|k: int| p <= k < t.len() implies (#[trigger] t[k]).start > r.start by {
            assert(t[k] == s[k]);
        }
        if p > 0 {
            assert(t[p - 1] == s[p - 1]);
        }
        lemma_insert_by_start(t, r, p);
        assert(t.insert(p, r).push(s.last()) =~= s.insert(p, r));
    }
}

/// `ranges` sorted by start, ranges of one start kept in their order.
fn sort_ranges(ranges: Vec<CharRange>) -> (r: Vec<CharRange>)
    ensures
        range_views(r@) == sort_by_start(range_views(ranges@)),
{
    let ghost all = range_views(ranges@);
    let n = ranges.len();
    let mut input = ranges;
    let mut stack: Vec<CharRange> = Vec::new();
    while input.len() > 0
        invariant
            input@.len() + stack@.len() == n,
            all.len() == n,
            forall|k: int| 0 <= k < input@.len() ==> (#[trigger] input@[k])@ == all[k],
            forall|k: int| 0 <= k < stack@.len() ==> (#[trigger] stack@[k])@ == all[n - 1 - k],
        decreases input@.len(),
    {
        match input.pop() {
            Some(x) => stack.push(x),
            None => {},
        }
    }
    let mut sorted: Vec<CharRange> = Vec::new();
    proof {
        assert(all.take(0) =~= Seq::<CharRangeView>::empty());
        assert(range_views(sorted@) =~= Seq::<CharRangeView>::empty());
    }
    while stack.len() > 0
        invariant
            stack@.len() <= n,
            all.len() == n,
            forall|k: int| 0 <= k < stack@.len() ==> (#[trigger] stack@[k])@ == all[n - 1 - k],
            range_views(sorted@) == sort_by_start(all.take(n - stack@.len())),
        decreases stack@.len(),
    {
        let ghost p = n - stack@.len();
        let x = match stack.pop() {
            Some(x) => x,
            None => {
                assert(false);
                return sorted;
            },
        };
        proof {
            assert(x@ == all[p]);
        }
        let mut pos = sorted.len();
        while pos > 0 && sorted[pos - 1].start > x.start
            invariant
                pos <= sorted@.len(),
                forall|k: int| pos <= k < sorted@.len() ==> (#[trigger] sorted@[k]).start > x.start,
            decreases pos,
        {
            pos = pos - 1;
        }
        let ghost before = range_views(sorted@);
        proof {
            assert forall|k: int| pos <= k < before.len() implies (#[trigger] before[k]).start
                > x@.start by {
                assert(before[k] == sorted@[k]@);
            }
            if pos > 0 {
                assert(before[pos - 1] == sorted@[pos - 1]@);
            }
            lemma_insert_by_start(before, x@, pos as int);
        }
        sorted.insert(pos, x);
        proof {
            assert(range_views(sorted@) =~= before.insert(pos as int, x@));
            let t = all.take(p + 1);
            assert(t.drop_last() =~= all.take(p));
            assert(t.last() == x@);
        }
    }
    proof {
        assert(all.take(n as int) =~= all);
    }
    sorted
}

proof fn lemma_char_def_lines_none_extends(a: Seq<Seq<char>>, b: Seq<Seq<char>>)
    requires
        char_def_lines(a) is None,
    ensures
        char_def_lines(a + b) is None,
    decreases b.len(),
{
    if b.len() == 0 {
        assert(a + b =~= a);
    } else {
        assert((a + b).drop_last() =~= a + b.drop_last());
        lemma_char_def_lines_none_extends(a, b.drop_last());
    }
}

/// The category definitions and code point ranges (sorted by start) of
/// char.def; `None` where a code point does not parse.
pub fn load_char_def(text: &str) -> (r: Option<(Vec<CategoryDef>, Vec<CharRange>)>)
    ensures
        match r {
            Some((defs, ranges)) => char_def_model(text@) == Some((defs@, range_views(ranges@)))
                && defs@.len() == NUM_CATEGORIES,
            None => char_def_model(text@) is None,
        },
{
    let chars = chars_of(text);
    let ls = split_lines(&chars);
    let ghost lsv = ls@.map_values(|l: Vec<char>| l@);
    let mut defs: Vec<CategoryDef> = Vec::new();
    while defs.len() < NUM_CATEGORIES
        invariant
            defs@.len() <= NUM_CATEGORIES,
            forall|c: int|
                0 <= c < defs@.len() ==> #[trigger] defs@[c] == (CategoryDef {
                    invoke: false,
                    group: false,
                    length: 0,
                }),
        decreases NUM_CATEGORIES - defs@.len(),
    {
        defs.push(CategoryDef { invoke: false, group: false, length: 0 });
    }
    let mut ranges: Vec<CharRange> = Vec::new();
    proof {
        assert(defs@ =~= default_defs());
        assert(range_views(ranges@) =~= Seq::<CharRangeView>::empty());
        assert(lsv.take(0) =~= Seq::<Seq<char>>::empty());
    }
    let mut li: usize = 0;
    while li < ls.len()
        invariant
            li <= ls@.len(),
            lsv == ls@.map_values(|l: Vec<char>| l@),
            lsv == lines(text@),
            defs@.len() == NUM_CATEGORIES,
            char_def_lines(lsv.take(li as int)) == Some((defs@, range_views(ranges@))),
        decreases ls@.len() - li,
    {
        let ghost next = lsv.take(li as int + 1);
        proof {
            assert(next.drop_last() =~= lsv.take(li as int));
            assert(next.last() == ls@[li as int]@);
        }
        if !apply_char_def_line(&mut defs, &mut ranges, &ls[li]) {
            proof {
                assert(lsv =~= next + lsv.skip(li as int + 1));
                lemma_char_def_lines_none_extends(next, lsv.skip(li as int + 1));
            }
            return None;
        }
        li = li + 1;
    }
    proof {
        assert(lsv.take(li as int) =~= lsv);
    }
    let sorted = sort_ranges(ranges);
    Some((defs, sorted))
}

// ---------------------------------------------------------------------------
// The whole dictionary.

/// A dictionary as the contracts see it.
pub struct DictionaryModel {
    pub entries: Map<Seq<char>, Seq<DictEntry>>,
    pub forward: usize,
    pub backward: usize,
    pub costs: Seq<i16>,
    pub defs: Seq<CategoryDef>,
    pub unknown: Seq<Seq<UnkEntry>>,
    pub ranges: Seq<CharRangeView>,
}

/// The dictionary of the word-list files `files`, matrix.def, char.def and
/// unk.def: `None` where one of the files does not parse (see the readers
/// above). Ids are not checked against the matrix here: a lookup outside it
/// is what `tokenize` rules out.
pub open spec fn spec_load(
    files: Seq<Seq<char>>,
    matrix_def: Seq<char>,
    char_def: Seq<char>,
    unk_def: Seq<char>,
) -> Option<DictionaryModel> {
    let ls = all_lines(files);
    match (
        csv_entries(ls),
        matrix_model(matrix_def),
        char_def_model(char_def),
        unk_lines(lines(unk_def)),
    ) {
        (Some(entries), Some((forward, backward, costs)), Some((defs, ranges)), Some(unknown)) => {
            Some(DictionaryModel { entries, forward, backward, costs, defs, unknown, ranges })
        },
        _ => None,
    }
}

} // verus!
