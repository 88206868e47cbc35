//! Japanese morphological tokenizer over a MeCab/IPADIC dictionary: the
//! Viterbi search for the cheapest segmentation of a text into dictionary
//! words and unknown words, as Kuromoji (Apache Lucene) and MeCab do it.
pub mod format;
pub mod load;
use vstd::hash_map::StringHashMap;
use vstd::prelude::*;

use vstd::string::StringSliceAdditionalSpecFns;

use crate::kuromoji::format::lines;
use crate::kuromoji::load::{
    entries_model, last_for_cell, law_matrix_line_cost, load_char_def, load_csv_entries, max_ids,
    load_matrix, load_unk, matrix_line, range_views, spec_load, text_views, unk_views, DictionaryModel,
};
use crate::text::{
    byte_offset, char_len_utf8, chars_of, lemma_byte_offset_monotone, lemma_byte_offset_step,
    lemma_byte_offset_strictly_increasing, push_char,
};

verus! {

/// Character category of char.def.
#[derive(Debug, Clone, Copy, PartialEq, Eq, Hash, Structural)]
pub enum CharCategory {
    Default,
    Space,
    Kanji,
    Symbol,
    Numeric,
    Alpha,
    Hiragana,
    Katakana,
    KanjiNumeric,
    Greek,
    Cyrillic,
}

/// Number of character categories.
pub const NUM_CATEGORIES: usize = 11;

/// The category in slot `i` of per-category tables.
pub open spec fn category_at(i: int) -> CharCategory {
    if i == 0 {
        CharCategory::Default
    } else if i == 1 {
        CharCategory::Space
    } else if i == 2 {
        CharCategory::Kanji
    } else if i == 3 {
        CharCategory::Symbol
    } else if i == 4 {
        CharCategory::Numeric
    } else if i == 5 {
        CharCategory::Alpha
    } else if i == 6 {
        CharCategory::Hiragana
    } else if i == 7 {
        CharCategory::Katakana
    } else if i == 8 {
        CharCategory::KanjiNumeric
    } else if i == 9 {
        CharCategory::Greek
    } else {
        CharCategory::Cyrillic
    }
}

impl CharCategory {
    /// The slot of the category in per-category tables.
    pub open spec fn spec_index(self) -> int {
        match self {
            CharCategory::Default => 0,
            CharCategory::Space => 1,
            CharCategory::Kanji => 2,
            CharCategory::Symbol => 3,
            CharCategory::Numeric => 4,
            CharCategory::Alpha => 5,
            CharCategory::Hiragana => 6,
            CharCategory::Katakana => 7,
            CharCategory::KanjiNumeric => 8,
            CharCategory::Greek => 9,
            CharCategory::Cyrillic => 10,
        }
    }

    /// The slot of the category in per-category tables.
    pub fn index(self) -> (i: usize)
        ensures
            i == self.spec_index(),
            i < NUM_CATEGORIES,
    {
        match self {
            CharCategory::Default => 0,
            CharCategory::Space => 1,
            CharCategory::Kanji => 2,
            CharCategory::Symbol => 3,
            CharCategory::Numeric => 4,
            CharCategory::Alpha => 5,
            CharCategory::Hiragana => 6,
            CharCategory::Katakana => 7,
            CharCategory::KanjiNumeric => 8,
            CharCategory::Greek => 9,
            CharCategory::Cyrillic => 10,
        }
    }
}

/// Per category: whether unknown-word processing always runs for it, whether
/// consecutive chars of it group into one unknown word, and up to how many
/// chars long its unknown words are.
#[derive(Debug, Clone, Copy)]
pub struct CategoryDef {
    pub invoke: bool,
    pub group: bool,
    pub length: u8,
}

/// A template for unknown words of a category.
#[derive(Debug, Clone, Copy)]
pub struct UnkEntry {
    pub left_id: u16,
    pub right_id: u16,
    pub word_cost: i16,
}

/// A dictionary word: its context ids and its cost (its surface is its key).
#[derive(Debug, Clone, Copy)]
pub struct DictEntry {
    pub left_id: u16,
    pub right_id: u16,
    pub word_cost: i16,
}

/// Code points `start..=end` and their categories, the first primary.
#[derive(Debug)]
pub struct CharRange {
    pub start: u32,
    pub end: u32,
    pub categories: Vec<CharCategory>,
}

/// A char range as the contracts see it.
pub struct CharRangeView {
    pub start: u32,
    pub end: u32,
    pub categories: Seq<CharCategory>,
}

impl View for CharRange {
    type V = CharRangeView;

    open spec fn view(&self) -> CharRangeView {
        CharRangeView { start: self.start, end: self.end, categories: self.categories@ }
    }
}

/// The loaded dictionary: everything tokenization needs.
pub struct Dictionary {
    /// Dictionary words by surface form, in file order.
    entries: StringHashMap<Vec<DictEntry>>,
    /// Connection costs, `forward_size` rows of `backward_size`: the cost of
    /// a word with right id `r` followed by one with left id `l` is at
    /// `r * backward_size + l`.
    connection_costs: Vec<i16>,
    forward_size: usize,
    backward_size: usize,
    /// Per category: its definition.
    category_defs: Vec<CategoryDef>,
    /// Per category: its unknown-word templates.
    unknown_entries: Vec<Vec<UnkEntry>>,
    /// Code point ranges and their categories, ordered by start.
    char_ranges: Vec<CharRange>,
    /// The largest left id of a word (0 where there are none).
    max_left_id: u16,
    /// The largest right id of a word (0 where there are none).
    max_right_id: u16,
}

/// `acc` followed by those of `cats` it does not hold yet, in order, each once.
pub open spec fn push_new(acc: Seq<CharCategory>, cats: Seq<CharCategory>) -> Seq<CharCategory>
    decreases cats.len(),
{
    if cats.len() == 0 {
        acc
    } else {
        let a = push_new(acc, cats.drop_last());
        if a.contains(cats.last()) {
            a
        } else {
            a.push(cats.last())
        }
    }
}

/// The categories, each once in order of appearance, of the ranges of
/// `ranges` that hold `cp` and are single code points (`single`) or not.
pub open spec fn gather(ranges: Seq<CharRangeView>, cp: u32, single: bool) -> Seq<CharCategory>
    decreases ranges.len(),
{
    if ranges.len() == 0 {
        Seq::empty()
    } else {
        let a = gather(ranges.drop_last(), cp, single);
        let r = ranges.last();
        if r.start <= cp <= r.end && (r.start == r.end) == single {
            push_new(a, r.categories)
        } else {
            a
        }
    }
}

/// The categories of code point `cp` under `ranges`: those of single code
/// point entries first, then those of wider ranges, each once; `Default`
/// when no range holds `cp`.
pub open spec fn categories_of(ranges: Seq<CharRangeView>, cp: u32) -> Seq<CharCategory> {
    let all = push_new(gather(ranges, cp, true), gather(ranges, cp, false));
    if all.len() == 0 {
        seq![CharCategory::Default]
    } else {
        all
    }
}

impl Dictionary {
    /// The char ranges as the contracts see them.
    pub closed spec fn ranges_view(&self) -> Seq<CharRangeView> {
        self.char_ranges@.map_values(|r: CharRange| r@)
    }

    /// The invariant tokenization relies on: a cost matrix of the declared
    /// size, a definition and templates for every category.
    pub closed spec fn wf(&self) -> bool {
        &&& self.connection_costs@.len() == self.forward_size * self.backward_size
        &&& self.category_defs@.len() == NUM_CATEGORIES
        &&& self.unknown_entries@.len() == NUM_CATEGORIES
        &&& max_ids(entries_model(self.entries@), self.max_left_id, self.max_right_id)
    }

    /// Whether the matrix has the cost of a word with right id `r` followed
    /// by one with left id `l`: the cost sits at `r * backward + l`, which
    /// must lie within the `forward * backward` costs.
    pub open spec fn lookup_ok(&self, r: int, l: int) -> bool {
        r * self.spec_backward_size() + l < self.spec_forward_size() * self.spec_backward_size()
    }

    /// The cost of a word with right id `r` followed by one with left id `l`.
    pub closed spec fn spec_connection_cost(&self, r: int, l: int) -> i16 {
        self.connection_costs@[r * self.backward_size + l]
    }

    /// The categories of `c`, the primary first.
    pub closed spec fn spec_char_categories(&self, c: char) -> Seq<CharCategory> {
        categories_of(self.ranges_view(), c as u32)
    }

    /// The categories of `c` are those that char.def, as loaded into the
    /// dictionary's model, gives its code point; there is always at least one.
    pub proof fn lemma_char_categories(&self, c: char)
        ensures
            self.spec_char_categories(c) == categories_of(self.model().ranges, c as u32),
            self.spec_char_categories(c).len() >= 1,
    {
        assert(self.ranges_view() == range_views(self.char_ranges@));
    }

    /// The dictionary loaded from matrix.def `matrix_def` has, for each line
    /// of it after the header that reads right id `r`, left id `l`, cost `c`
    /// (and is the last to name that cell), connection cost `c` for a word
    /// with right id `r` followed by a word with left id `l`.
    pub proof fn law_matrix_def_costs(
        &self,
        csv_files: Seq<Seq<char>>,
        matrix_def: Seq<char>,
        char_def: Seq<char>,
        unk_def: Seq<char>,
        k: int,
    )
        requires
            spec_load(csv_files, matrix_def, char_def, unk_def) == Some(self.model()),
            1 <= k < lines(matrix_def).len(),
            matrix_line(lines(matrix_def)[k]) is Some,
            last_for_cell(
                lines(matrix_def),
                k,
                self.spec_backward_size() as int,
                (matrix_line(lines(matrix_def)[k])->0).0 as int,
                (matrix_line(lines(matrix_def)[k])->0).1 as int,
            ),
        ensures
            ({
                let (r, l, c) = matrix_line(lines(matrix_def)[k])->0;
                &&& self.lookup_ok(r as int, l as int)
                &&& self.spec_connection_cost(r as int, l as int) == c
            }),
    {
        law_matrix_line_cost(matrix_def, k);
    }

    /// Number of distinct surface forms.
    pub closed spec fn spec_entry_count(&self) -> nat {
        self.entries@.len()
    }

    /// Rows of the cost matrix (right ids).
    pub closed spec fn spec_forward_size(&self) -> nat {
        self.forward_size as nat
    }

    /// Columns of the cost matrix (left ids).
    pub closed spec fn spec_backward_size(&self) -> nat {
        self.backward_size as nat
    }

    /// Number of distinct surface forms.
    pub fn entry_count(&self) -> (n: usize)
        ensures
            n == self.spec_entry_count(),
    {
        self.entries.len()
    }

    /// Rows of the cost matrix (right ids).
    pub fn forward_size(&self) -> (n: usize)
        ensures
            n == self.spec_forward_size(),
    {
        self.forward_size
    }

    /// Columns of the cost matrix (left ids).
    pub fn backward_size(&self) -> (n: usize)
        ensures
            n == self.spec_backward_size(),
    {
        self.backward_size
    }

    /// The primary category of `c`.
    pub fn char_category(&self, c: char) -> (cat: CharCategory)
        ensures
            cat == self.spec_char_categories(c)[0],
    {
        let cats = self.char_categories(c);
        cats[0]
    }

    /// All categories of `c`: those of single code point entries first, then
    /// those of ranges, each once; `Default` alone when none applies.
    pub fn char_categories(&self, c: char) -> (cats: Vec<CharCategory>)
        ensures
            cats@ == self.spec_char_categories(c),
            cats@.len() >= 1,
    {
        let cp = c as u32;
        let mut from_specific: Vec<CharCategory> = Vec::new();
        let mut from_ranges: Vec<CharCategory> = Vec::new();
        let mut i: usize = 0;
        while i < self.char_ranges.len()
            invariant
                i <= self.char_ranges@.len(),
                from_specific@ == gather(self.ranges_view().take(i as int), cp, true),
                from_ranges@ == gather(self.ranges_view().take(i as int), cp, false),
            decreases self.char_ranges@.len() - i,
        {
            let range = &self.char_ranges[i];
            proof {
                let t = self.ranges_view().take(i as int + 1);
                assert(t.drop_last() =~= self.ranges_view().take(i as int));
                assert(t.last() == range@);
            }
            if cp >= range.start && cp <= range.end {
                if range.start == range.end {
                    push_all_new(&mut from_specific, &range.categories);
                } else {
                    push_all_new(&mut from_ranges, &range.categories);
                }
            }
            i = i + 1;
        }
        proof {
            assert(self.ranges_view().take(i as int) =~= self.ranges_view());
        }
        let mut result = from_specific;
        push_all_new(&mut result, &from_ranges);
        if result.len() == 0 {
            result.push(CharCategory::Default);
            assert(result@ =~= seq![CharCategory::Default]);
        }
        result
    }

    /// The cost of a word with right id `left_right_id` followed by one with
    /// left id `right_left_id`.
    fn connection_cost(&self, left_right_id: u16, right_left_id: u16) -> (c: i16)
        requires
            self.wf(),
            self.lookup_ok(left_right_id as int, right_left_id as int),
        ensures
            c == self.spec_connection_cost(left_right_id as int, right_left_id as int),
    {
        let n = self.connection_costs.len();
        let r = left_right_id as usize;
        let l = right_left_id as usize;
        let b = self.backward_size;
        assert(r * b + l < n);
        assert(r * b <= r * b + l);
        let idx = r * b + l;
        self.connection_costs[idx]
    }
}

/// Appends to `acc` those of `cats` it does not hold yet, in order, each once.
fn push_all_new(acc: &mut Vec<CharCategory>, cats: &Vec<CharCategory>)
    ensures
        final(acc)@ == push_new(old(acc)@, cats@),
{
    let ghost start = acc@;
    let mut j: usize = 0;
    while j < cats.len()
        invariant
            j <= cats@.len(),
            acc@ == push_new(start, cats@.take(j as int)),
        decreases cats@.len() - j,
    {
        let cat = cats[j];
        proof {
            let t = cats@.take(j as int + 1);
            assert(t.drop_last() =~= cats@.take(j as int));
            assert(t.last() == cat);
        }
        if !contains_category(acc, cat) {
            acc.push(cat);
        }
        j = j + 1;
    }
    proof {
        assert(cats@.take(j as int) =~= cats@);
    }
}

/// Whether `cats` holds `cat`.
fn contains_category(cats: &Vec<CharCategory>, cat: CharCategory) -> (r: bool)
    ensures
        r == cats@.contains(cat),
{
    let mut i: usize = 0;
    while i < cats.len()
        invariant
            i <= cats@.len(),
            forall|k: int| 0 <= k < i ==> cats@[k] != cat,
        decreases cats@.len() - i,
    {
        if cats[i] == cat {
            return true;
        }
        i = i + 1;
    }
    false
}

/// Texts longer than this many bytes are not tokenized: path costs must fit
/// in 64 bits.
pub open spec fn max_text_bytes() -> int {
    0x100_0000_0000
}

/// Whether byte offset `b` is where some char of `chars` starts (or the end).
pub open spec fn is_boundary(chars: Seq<char>, b: int) -> bool {
    exists|i: int| 0 <= i <= chars.len() && #[trigger] byte_offset(chars, i) == b
}

/// Whether `bounds` split `chars` into non-empty pieces: they start at 0,
/// end at the byte length, strictly increase and fall on char boundaries.
pub open spec fn is_segmentation(chars: Seq<char>, bounds: Seq<usize>) -> bool {
    &&& bounds.len() >= 2
    &&& bounds[0] == 0
    &&& bounds.last() == byte_offset(chars, chars.len() as int)
    &&& forall|k: int| 0 < k < bounds.len() ==> bounds[k - 1] < #[trigger] bounds[k]
    &&& forall|k: int| 0 <= k < bounds.len() ==> is_boundary(chars, #[trigger] bounds[k] as int)
}

/// The shape of what `tokenize` gives for `chars`: nothing for the empty
/// text, otherwise a segmentation, or the char starts.
pub open spec fn segmented_or_char_starts(chars: Seq<char>, r: Seq<usize>) -> bool {
    &&& chars.len() == 0 ==> r.len() == 0
    &&& chars.len() > 0 ==> is_segmentation(chars, r) || r == char_starts(chars)
}

/// The char index at which byte offset `b` of `chars` falls.
pub open spec fn char_index(chars: Seq<char>, b: int) -> int {
    choose|i: int| 0 <= i <= chars.len() && #[trigger] byte_offset(chars, i) == b
}

/// The pieces of `chars` between consecutive byte offsets of `bounds`.
pub open spec fn pieces(chars: Seq<char>, bounds: Seq<usize>) -> Seq<Seq<char>> {
    Seq::new(
        if bounds.len() == 0 {
            0
        } else {
            (bounds.len() - 1) as nat
        },
        |k: int|
            chars.subrange(
                char_index(chars, bounds[k] as int),
                char_index(chars, bounds[k + 1] as int),
            ),
    )
}

/// The byte offsets at which the chars of `chars` start.
pub open spec fn char_starts(chars: Seq<char>) -> Seq<usize> {
    Seq::new(chars.len(), |i: int| byte_offset(chars, i) as usize)
}

/// A candidate token over a text: chars `start..end` as a word with these
/// context ids and this cost.
pub struct Candidate {
    pub start: int,
    pub end: int,
    pub left_id: u16,
    pub right_id: u16,
    pub word_cost: i16,
}

impl Dictionary {
    /// The definition of category `cat`.
    pub closed spec fn spec_category_def(&self, cat: CharCategory) -> CategoryDef {
        self.category_defs@[cat.spec_index()]
    }

    /// The unknown-word templates of category `cat`.
    pub closed spec fn spec_unknown_entries(&self, cat: CharCategory) -> Seq<UnkEntry> {
        self.unknown_entries@[cat.spec_index()]@
    }

    /// The primary category of `c`.
    pub open spec fn primary(&self, c: char) -> CharCategory {
        self.spec_char_categories(c)[0]
    }

    /// Whether some dictionary word starts at char `i` of `chars`.
    pub open spec fn has_word_at(&self, chars: Seq<char>, i: int) -> bool {
        exists|j: int, e: DictEntry|
            i < j <= chars.len() && #[trigger] self.has_word(chars.subrange(i, j), e)
    }

    /// The first char index from `k` on whose primary category is not
    /// `cat`, or the length of `chars`.
    pub open spec fn run_end(&self, chars: Seq<char>, k: int, cat: CharCategory) -> int
        decreases chars.len() - k,
    {
        if k >= chars.len() {
            chars.len() as int
        } else if self.primary(chars[k]) != cat {
            k
        } else {
            self.run_end(chars, k + 1, cat)
        }
    }

    /// Whether chars `i..j` make an unknown word of category `cat`: the run
    /// of chars of that category from `i` (grouping), up to the category's
    /// length within that run, or the single char.
    pub open spec fn unknown_span(&self, chars: Seq<char>, i: int, j: int, cat: CharCategory) -> bool {
        let def = self.spec_category_def(cat);
        ||| def.group && j == self.run_end(chars, i + 1, cat)
        ||| def.length > 0 && i < j <= i + def.length && j <= self.run_end(chars, i + 1, cat)
        ||| !def.group && def.length == 0 && j == i + 1
    }

    /// Whether unknown words start at char `i`: its primary category always
    /// invokes them, or no dictionary word starts there.
    pub open spec fn unknown_allowed(&self, chars: Seq<char>, i: int) -> bool {
        self.spec_category_def(self.primary(chars[i])).invoke || !self.has_word_at(chars, i)
    }

    /// Whether `c` is a token candidate over `chars`: a dictionary word, or
    /// an unknown word of a category of its first char by one of that
    /// category's templates.
    pub open spec fn is_candidate(&self, chars: Seq<char>, c: Candidate) -> bool {
        &&& 0 <= c.start < c.end <= chars.len()
        &&& {
            ||| exists|e: DictEntry|
                #[trigger] self.has_word(chars.subrange(c.start, c.end), e) && e.left_id
                    == c.left_id && e.right_id == c.right_id && e.word_cost == c.word_cost
            ||| self.unknown_allowed(chars, c.start) && exists|cat: CharCategory, u: int|
                #![trigger self.spec_unknown_entries(cat)[u]]
                self.spec_char_categories(chars[c.start]).contains(cat) && 0 <= u
                    < self.spec_unknown_entries(cat).len() && self.unknown_span(
                    chars,
                    c.start,
                    c.end,
                    cat,
                ) && self.spec_unknown_entries(cat)[u].left_id == c.left_id
                    && self.spec_unknown_entries(cat)[u].right_id == c.right_id
                    && self.spec_unknown_entries(cat)[u].word_cost == c.word_cost
        }
    }

    /// Whether `p` is a path of candidates from the start of `chars`, each
    /// ending where the next begins.
    pub open spec fn is_path(&self, chars: Seq<char>, p: Seq<Candidate>) -> bool {
        &&& p.len() >= 1
        &&& p[0].start == 0
        &&& forall|k: int| 0 <= k < p.len() - 1 ==> (#[trigger] p[k]).end == p[k + 1].start
        &&& forall|k: int| 0 <= k < p.len() ==> self.is_candidate(chars, #[trigger] p[k])
    }

    /// The cost of path `p` through its last candidate: word costs plus the
    /// connection costs between neighbours, the first connecting from the
    /// start of the text (right id 0).
    pub open spec fn path_cost(&self, p: Seq<Candidate>) -> int
        decreases p.len(),
    {
        if p.len() == 0 {
            0
        } else {
            let prev_right: u16 = if p.len() == 1 {
                0
            } else {
                p[p.len() - 2].right_id
            };
            self.path_cost(p.drop_last()) + self.spec_connection_cost(
                prev_right as int,
                p.last().left_id as int,
            ) + p.last().word_cost
        }
    }

    /// The cost of a path that ends the text: `path_cost` plus the
    /// connection to the end of the text (left id 0).
    pub open spec fn total_cost(&self, p: Seq<Candidate>) -> int {
        self.path_cost(p) + self.spec_connection_cost(p.last().right_id as int, 0)
    }

    /// Whether `p` is a cheapest path over all of `chars`.
    pub open spec fn is_best_path(&self, chars: Seq<char>, p: Seq<Candidate>) -> bool {
        &&& self.is_path(chars, p)
        &&& p.last().end == chars.len()
        &&& forall|p2: Seq<Candidate>|
            #[trigger] self.is_path(chars, p2) && p2.last().end == chars.len() ==> self.total_cost(p)
                <= self.total_cost(p2)
    }

    /// Whether some path covers all of `chars`.
    pub open spec fn has_full_path(&self, chars: Seq<char>) -> bool {
        exists|p: Seq<Candidate>| #[trigger] self.is_path(chars, p) && p.last().end == chars.len()
    }
}

/// The byte offsets at which the candidates of `p` end, after 0.
pub open spec fn path_bounds(chars: Seq<char>, p: Seq<Candidate>) -> Seq<usize> {
    seq![0usize] + p.map_values(|c: Candidate| byte_offset(chars, c.end) as usize)
}

/// What `tokenize` gives for `chars`: nothing for the empty text; where a
/// path of candidates covers the text, the boundaries of a cheapest such
/// path; otherwise the offsets at which the chars start.
pub open spec fn tokenize_result(dict: &Dictionary, chars: Seq<char>, r: Seq<usize>) -> bool {
    &&& chars.len() == 0 ==> r.len() == 0
    &&& chars.len() > 0 && dict.has_full_path(chars) ==> exists|p: Seq<Candidate>|
        #[trigger] dict.is_best_path(chars, p) && r == path_bounds(chars, p)
    &&& chars.len() > 0 && !dict.has_full_path(chars) ==> r == char_starts(chars)
}

/// A node of the search lattice: a candidate, the cost of the cheapest path
/// through it, and the index of its predecessor in the cell where it starts.
pub struct Node {
    pub cand: Candidate,
    pub cost: int,
    pub pred: int,
}

/// The node the search starts from: an empty candidate at char 0, with the
/// context ids of the start of the text.
pub open spec fn start_node() -> Node {
    Node {
        cand: Candidate { start: 0, end: 0, left_id: 0, right_id: 0, word_cost: 0 },
        cost: 0,
        pred: 0,
    }
}

/// The index of the first least element of `s` (0 when `s` is empty).
pub open spec fn first_min(s: Seq<int>) -> int
    decreases s.len(),
{
    if s.len() <= 1 {
        0
    } else {
        let k = first_min(s.drop_last());
        if s.last() < s[k] {
            s.len() - 1
        } else {
            k
        }
    }
}

/// Candidates over chars `i..j`, one per template of `cat`, in order.
pub open spec fn templates_over(templates: Seq<UnkEntry>, i: int, j: int) -> Seq<Candidate> {
    templates.map_values(
        |u: UnkEntry|
            Candidate { start: i, end: j, left_id: u.left_id, right_id: u.right_id, word_cost: u.word_cost },
    )
}

/// Candidates over chars `i..j`, one per dictionary word of `words`, in order.
pub open spec fn words_over(words: Seq<DictEntry>, i: int, j: int) -> Seq<Candidate> {
    words.map_values(
        |e: DictEntry|
            Candidate { start: i, end: j, left_id: e.left_id, right_id: e.right_id, word_cost: e.word_cost },
    )
}

/// The candidates from char `i` for the (end char, end byte, word) triples
/// of `r`.
spec fn triple_cands(i: int, r: Seq<(usize, usize, DictEntry)>) -> Seq<Candidate> {
    r.map_values(
        |t: (usize, usize, DictEntry)|
            Candidate {
                start: i,
                end: t.0 as int,
                left_id: t.2.left_id,
                right_id: t.2.right_id,
                word_cost: t.2.word_cost,
            },
    )
}

impl Dictionary {
    /// Whether the matrix has the cost of stepping from every node of `cell`
    /// into every candidate of `s`.
    pub open spec fn joins_ok(&self, cell: Seq<Node>, s: Seq<Candidate>) -> bool {
        forall|k: int, j: int|
            0 <= k < cell.len() && 0 <= j < s.len() ==> self.lookup_ok(
                (#[trigger] cell[k]).cand.right_id as int,
                (#[trigger] s[j]).left_id as int,
            )
    }

    /// The joins of a run of candidates hold for each part of it.
    proof fn lemma_joins_split(&self, cell: Seq<Node>, a: Seq<Candidate>, b: Seq<Candidate>)
        requires
            self.joins_ok(cell, a + b),
        ensures
            self.joins_ok(cell, a),
            self.joins_ok(cell, b),
    {
        assert forall|k: int, j: int| 0 <= k < cell.len() && 0 <= j < a.len() implies self.lookup_ok(
            (#[trigger] cell[k]).cand.right_id as int,
            (#[trigger] a[j]).left_id as int,
        ) by {
            assert((a + b)[j] == a[j]);
        }
        assert forall|k: int, j: int| 0 <= k < cell.len() && 0 <= j < b.len() implies self.lookup_ok(
            (#[trigger] cell[k]).cand.right_id as int,
            (#[trigger] b[j]).left_id as int,
        ) by {
            assert((a + b)[a.len() + j] == b[j]);
        }
    }

    /// The joins of the unknown words of up to `m` chars hold for those of
    /// each length `l` up to `m`.
    proof fn lemma_joins_lengths(&self, cell: Seq<Node>, i: int, m: int, cat: CharCategory, l: int)
        requires
            self.joins_ok(cell, self.length_cands(i, m, cat)),
            1 <= l <= m,
        ensures
            self.joins_ok(cell, templates_over(self.spec_unknown_entries(cat), i, i + l)),
        decreases m,
    {
        self.lemma_joins_split(
            cell,
            self.length_cands(i, m - 1, cat),
            templates_over(self.spec_unknown_entries(cat), i, i + m),
        );
        if l < m {
            self.lemma_joins_lengths(cell, i, m - 1, cat, l);
        }
    }

    /// The joins of the unknown words of several categories hold for those
    /// of each of them.
    proof fn lemma_joins_categories(
        &self,
        cell: Seq<Node>,
        chars: Seq<char>,
        i: int,
        cats: Seq<CharCategory>,
        m: int,
    )
        requires
            self.joins_ok(cell, self.unknown_cands(chars, i, cats)),
            0 <= m < cats.len(),
        ensures
            self.joins_ok(cell, self.unknown_cands_of(chars, i, cats[m])),
        decreases cats.len(),
    {
        let init = cats.drop_last();
        self.lemma_joins_split(
            cell,
            self.unknown_cands(chars, i, init),
            self.unknown_cands_of(chars, i, cats.last()),
        );
        if m < cats.len() - 1 {
            assert(init[m] == cats[m]);
            self.lemma_joins_categories(cell, chars, i, init, m);
        }
    }

    /// Whether every connection cost that the search over `chars` looks up
    /// lies within the matrix: from every node of a reached char into every
    /// candidate that starts there, and from every node at the end of the
    /// text into the end of the text (left id 0).
    pub open spec fn lookups_ok(&self, chars: Seq<char>) -> bool {
        &&& forall|i: int|
            0 <= i < chars.len() ==> #[trigger] self.joins_ok(
                self.cells_after(chars, i)[i],
                self.cands_from(chars, i),
            )
        &&& forall|k: int|
            0 <= k < self.cells_after(chars, chars.len() as int)[chars.len() as int].len()
                ==> self.lookup_ok(
                (#[trigger] self.cells_after(chars, chars.len() as int)[chars.len() as int][k]).cand.right_id as int,
                0,
            )
    }

    /// The costs of the paths through each node of `from` into `c`.
    pub open spec fn step_costs(&self, from: Seq<Node>, c: Candidate) -> Seq<int> {
        from.map_values(
            |nd: Node|
                nd.cost + self.spec_connection_cost(nd.cand.right_id as int, c.left_id as int)
                    + c.word_cost,
        )
    }

    /// The node for `c` behind the first of the nodes of `from` through
    /// which the path into `c` is cheapest.
    pub open spec fn node_for(&self, from: Seq<Node>, c: Candidate) -> Node {
        let t = self.step_costs(from, c);
        Node { cand: c, cost: t[first_min(t)], pred: first_min(t) }
    }

    /// `cells` with a node for each candidate of `s`, in order, appended to
    /// the cell where it ends, behind its best node of `from`.
    pub open spec fn add_all(&self, cells: Seq<Seq<Node>>, s: Seq<Candidate>, from: Seq<Node>) -> Seq<
        Seq<Node>,
    >
        decreases s.len(),
    {
        if s.len() == 0 {
            cells
        } else {
            let prev = self.add_all(cells, s.drop_last(), from);
            let c = s.last();
            if 0 <= c.end < prev.len() {
                prev.update(c.end, prev[c.end].push(self.node_for(from, c)))
            } else {
                prev
            }
        }
    }

    /// The dictionary words that start at char `i` of `chars` and end at
    /// or before char `j`: shorter words first, the words of one surface in
    /// dictionary order.
    pub closed spec fn word_cands(&self, chars: Seq<char>, i: int, j: int) -> Seq<Candidate>
        decreases j - i,
    {
        if j <= i {
            Seq::empty()
        } else {
            let key = chars.subrange(i, j);
            self.word_cands(chars, i, j - 1) + if self.entries@.contains_key(key) {
                words_over(self.entries@[key]@, i, j)
            } else {
                Seq::empty()
            }
        }
    }

    /// The unknown words of category `cat` from char `i` of one to `m`
    /// chars, shorter first, each by every template in order.
    pub open spec fn length_cands(&self, i: int, m: int, cat: CharCategory) -> Seq<Candidate>
        decreases m,
    {
        if m <= 0 {
            Seq::empty()
        } else {
            self.length_cands(i, m - 1, cat) + templates_over(
                self.spec_unknown_entries(cat),
                i,
                i + m,
            )
        }
    }

    /// The unknown words of category `cat` from char `i` of `chars`, in the
    /// order they are tried: the run of the category (grouping), then each
    /// length up to the category's limit within the run, or the single char.
    #[verifier::opaque]
    pub open spec fn unknown_cands_of(&self, chars: Seq<char>, i: int, cat: CharCategory) -> Seq<
        Candidate,
    > {
        let def = self.spec_category_def(cat);
        let t = self.spec_unknown_entries(cat);
        let re = self.run_end(chars, i + 1, cat);
        let m = if def.length < re - i {
            def.length as int
        } else {
            re - i
        };
        (if def.group {
            templates_over(t, i, re)
        } else {
            Seq::empty()
        }) + (if def.length > 0 {
            self.length_cands(i, m, cat)
        } else {
            Seq::empty()
        }) + (if !def.group && def.length == 0 {
            templates_over(t, i, i + 1)
        } else {
            Seq::empty()
        })
    }

    /// The unknown words from char `i` for each of `cats` in turn.
    pub open spec fn unknown_cands(&self, chars: Seq<char>, i: int, cats: Seq<CharCategory>) -> Seq<
        Candidate,
    >
        decreases cats.len(),
    {
        if cats.len() == 0 {
            Seq::empty()
        } else {
            self.unknown_cands(chars, i, cats.drop_last()) + self.unknown_cands_of(
                chars,
                i,
                cats.last(),
            )
        }
    }

    /// The candidates that start at char `i` of `chars`, in the order the
    /// search adds them: the dictionary words, then (where unknown words
    /// are allowed there) the unknown words of each category of the char.
    #[verifier::opaque]
    pub open spec fn cands_from(&self, chars: Seq<char>, i: int) -> Seq<Candidate> {
        self.word_cands(chars, i, chars.len() as int) + if self.unknown_allowed(chars, i) {
            self.unknown_cands(chars, i, self.spec_char_categories(chars[i]))
        } else {
            Seq::empty()
        }
    }

    /// The cells of the search lattice over `chars`, one per char boundary,
    /// once the candidates from the chars before char `i` are in: the
    /// candidates from a char that no path reaches are left out.
    pub open spec fn cells_after(&self, chars: Seq<char>, i: int) -> Seq<Seq<Node>>
        decreases i,
    {
        if i <= 0 {
            Seq::new(
                (chars.len() + 1) as nat,
                |q: int|
                    if q == 0 {
                        seq![start_node()]
                    } else {
                        Seq::empty()
                    },
            )
        } else {
            let prev = self.cells_after(chars, i - 1);
            if prev[i - 1].len() > 0 {
                self.add_all(prev, self.cands_from(chars, i - 1), prev[i - 1])
            } else {
                prev
            }
        }
    }

    /// The costs of the paths that end the text through each node of `last`.
    pub open spec fn end_costs(&self, last: Seq<Node>) -> Seq<int> {
        last.map_values(
            |nd: Node| nd.cost + self.spec_connection_cost(nd.cand.right_id as int, 0),
        )
    }

    /// What `tokenize` gives for `chars`: nothing for the empty text; where
    /// the lattice reaches the end of the text, the boundaries of the path
    /// back from its first cheapest end along the predecessors; otherwise
    /// the offsets at which the chars start.
    pub open spec fn viterbi(&self, chars: Seq<char>) -> Seq<usize> {
        if chars.len() == 0 {
            Seq::empty()
        } else {
            let cells = self.cells_after(chars, chars.len() as int);
            let last = cells[chars.len() as int];
            if last.len() == 0 {
                char_starts(chars)
            } else {
                path_bounds(
                    chars,
                    node_path(cells, chars.len() as int, first_min(self.end_costs(last))),
                )
            }
        }
    }
}

/// The candidates along the predecessors of node `k` of cell `q`, back to
/// the start of the text.
pub open spec fn node_path(cells: Seq<Seq<Node>>, q: int, k: int) -> Seq<Candidate>
    decreases q,
{
    if q <= 0 || q >= cells.len() || k < 0 || k >= cells[q].len() {
        Seq::empty()
    } else {
        let nd = cells[q][k];
        if 0 <= nd.cand.start < q {
            node_path(cells, nd.cand.start, nd.pred).push(nd.cand)
        } else {
            Seq::empty()
        }
    }
}

/// `first_min` of a longer prefix: the new element where it is less than
/// the least so far.
proof fn lemma_first_min_step(s: Seq<int>, i: int)
    requires
        0 <= i < s.len(),
    ensures
        i == 0 ==> first_min(s.take(1)) == 0,
        i > 0 ==> first_min(s.take(i + 1)) == if s[i] < s[first_min(s.take(i))] {
            i
        } else {
            first_min(s.take(i))
        },
        i > 0 ==> 0 <= first_min(s.take(i)) < i,
{
    if i > 0 {
        assert(s.take(i + 1).drop_last() =~= s.take(i));
        lemma_first_min_range(s.take(i));
    }
}

/// `first_min` picks an index of the sequence.
proof fn lemma_first_min_range(s: Seq<int>)
    requires
        s.len() >= 1,
    ensures
        0 <= first_min(s) < s.len(),
    decreases s.len(),
{
    if s.len() > 1 {
        lemma_first_min_range(s.drop_last());
    }
}

impl Dictionary {
    /// Adding two runs of candidates one after the other adds their
    /// concatenation.
    proof fn lemma_add_all_concat(
        &self,
        cells: Seq<Seq<Node>>,
        s1: Seq<Candidate>,
        s2: Seq<Candidate>,
        from: Seq<Node>,
    )
        ensures
            self.add_all(self.add_all(cells, s1, from), s2, from) == self.add_all(
                cells,
                s1 + s2,
                from,
            ),
        decreases s2.len(),
    {
        if s2.len() == 0 {
            assert(s1 + s2 =~= s1);
        } else {
            self.lemma_add_all_concat(cells, s1, s2.drop_last(), from);
            assert((s1 + s2).drop_last() =~= s1 + s2.drop_last());
            assert((s1 + s2).last() == s2.last());
        }
    }

    /// Adding candidates keeps the number of cells.
    proof fn lemma_add_all_len(&self, cells: Seq<Seq<Node>>, s: Seq<Candidate>, from: Seq<Node>)
        ensures
            self.add_all(cells, s, from).len() == cells.len(),
        decreases s.len(),
    {
        if s.len() > 0 {
            self.lemma_add_all_len(cells, s.drop_last(), from);
        }
    }

    /// Adding one more candidate of a run.
    proof fn lemma_add_all_push(
        &self,
        cells: Seq<Seq<Node>>,
        s: Seq<Candidate>,
        c: Candidate,
        from: Seq<Node>,
    )
        ensures
            self.add_all(cells, s.push(c), from) == {
                let prev = self.add_all(cells, s, from);
                if 0 <= c.end < prev.len() {
                    prev.update(c.end, prev[c.end].push(self.node_for(from, c)))
                } else {
                    prev
                }
            },
    {
        assert(s.push(c).drop_last() =~= s);
    }

    /// Adding no candidates changes nothing.
    proof fn lemma_add_all_empty(&self, cells: Seq<Seq<Node>>, from: Seq<Node>)
        ensures
            self.add_all(cells, Seq::empty(), from) == cells,
    {
    }

    /// A category without templates gives no unknown words.
    proof fn lemma_no_template_cands(&self, chars: Seq<char>, i: int, cat: CharCategory)
        requires
            self.spec_unknown_entries(cat).len() == 0,
        ensures
            self.unknown_cands_of(chars, i, cat) == Seq::<Candidate>::empty(),
    {
        let t = self.spec_unknown_entries(cat);
        assert forall|a: int, b: int| #[trigger] templates_over(t, a, b) == Seq::<Candidate>::empty() by {
            assert(templates_over(t, a, b) =~= Seq::<Candidate>::empty());
        }
        let def = self.spec_category_def(cat);
        let re = self.run_end(chars, i + 1, cat);
        let m = if def.length < re - i {
            def.length as int
        } else {
            re - i
        };
        self.lemma_no_template_lengths(i, m, cat);
        reveal(Dictionary::unknown_cands_of);
        assert(self.unknown_cands_of(chars, i, cat) =~= Seq::<Candidate>::empty());
    }

    /// A category without templates gives no unknown words of any length.
    proof fn lemma_no_template_lengths(&self, i: int, m: int, cat: CharCategory)
        requires
            self.spec_unknown_entries(cat).len() == 0,
        ensures
            self.length_cands(i, m, cat) == Seq::<Candidate>::empty(),
        decreases m,
    {
        if m > 0 {
            self.lemma_no_template_lengths(i, m - 1, cat);
            assert(templates_over(self.spec_unknown_entries(cat), i, i + m) =~= Seq::<Candidate>::empty());
            assert(self.length_cands(i, m, cat) =~= Seq::<Candidate>::empty());
        }
    }
}

/// Byte offset 0 is char 0.
proof fn lemma_byte_offset_zero(chars: Seq<char>)
    ensures
        byte_offset(chars, 0) == 0,
{
    assert(chars.take(0) =~= Seq::<char>::empty());
}

/// The boundaries of a path over all of `chars` segment it.
proof fn lemma_path_bounds_segmentation(dict: &Dictionary, chars: Seq<char>, p: Seq<Candidate>)
    requires
        dict.is_path(chars, p),
        p.last().end == chars.len(),
        byte_offset(chars, chars.len() as int) <= usize::MAX,
    ensures
        is_segmentation(chars, path_bounds(chars, p)),
{
    let b = path_bounds(chars, p);
    let ends = p.map_values(|c: Candidate| byte_offset(chars, c.end) as usize);
    lemma_byte_offset_zero(chars);
    assert(b.len() == p.len() + 1);
    assert forall|m: int| 1 <= m < b.len() implies #[trigger] b[m] == byte_offset(chars, p[m - 1].end)
        by {
        assert(b[m] == ends[m - 1]);
        assert(dict.is_candidate(chars, p[m - 1]));
        lemma_byte_offset_monotone(chars, p[m - 1].end, chars.len() as int);
    }
    assert forall|k: int| 0 < k < b.len() implies b[k - 1] < #[trigger] b[k] by {
        let c = p[k - 1];
        assert(dict.is_candidate(chars, c));
        lemma_byte_offset_strictly_increasing(chars, c.start, c.end);
        if k >= 2 {
            assert(p[k - 2].end == p[k - 1].start);
            assert(b[k - 1] == byte_offset(chars, p[k - 2].end));
        } else {
            assert(p[0].start == 0);
        }
    }
    assert forall|k: int| 0 <= k < b.len() implies is_boundary(chars, #[trigger] b[k] as int) by {
        if k == 0 {
            assert(byte_offset(chars, 0) == 0);
        } else {
            let c = p[k - 1];
            assert(dict.is_candidate(chars, c));
            assert(byte_offset(chars, c.end) == b[k]);
        }
    }
    assert(b.last() == b[b.len() - 1]);
}

/// An edge of the lattice: a candidate token ending at `byte_end`.
#[derive(Clone, Copy)]
struct Edge {
    byte_start: usize,
    byte_end: usize,
    left_id: u16,
    right_id: u16,
    word_cost: i16,
    /// Cost of the cheapest path from the start of the text through this edge.
    path_cost: i64,
    /// Index into `ends_at[byte_start]` of the predecessor on that path.
    left_edge_idx: usize,
    is_bos: bool,
    /// The char indices where the token starts and ends.
    start_char: Ghost<int>,
    end_char: Ghost<int>,
}

/// The candidate an edge stands for.
spec fn cand(e: Edge) -> Candidate {
    Candidate {
        start: e.start_char@,
        end: e.end_char@,
        left_id: e.left_id,
        right_id: e.right_id,
        word_cost: e.word_cost,
    }
}

/// Whether the lattice `new` holds every edge of `old` where it was.
spec fn grows(old: Seq<Vec<Edge>>, new: Seq<Vec<Edge>>) -> bool {
    &&& new.len() == old.len()
    &&& forall|q: int| 0 <= q < old.len() ==> #[trigger] old[q]@.len() <= new[q]@.len()
    &&& forall|q: int, k: int|
        0 <= q < old.len() && 0 <= k < old[q]@.len() ==> #[trigger] new[q]@[k] == old[q]@[k]
}

proof fn lemma_grows_trans(a: Seq<Vec<Edge>>, b: Seq<Vec<Edge>>, c: Seq<Vec<Edge>>)
    requires
        grows(a, b),
        grows(b, c),
    ensures
        grows(a, c),
{
    assert forall|q: int| 0 <= q < a.len() implies #[trigger] a[q]@.len() <= c[q]@.len() by {
        assert(a[q]@.len() <= b[q]@.len());
        assert(b[q]@.len() <= c[q]@.len());
    }
    assert forall|q: int, k: int|
        0 <= q < a.len() && 0 <= k < a[q]@.len() implies #[trigger] c[q]@[k] == a[q]@[k] by {
        assert(a[q]@.len() <= b[q]@.len());
        assert(c[q]@[k] == b[q]@[k]);
        assert(b[q]@[k] == a[q]@[k]);
    }
}

proof fn lemma_grows_refl(a: Seq<Vec<Edge>>)
    ensures
        grows(a, a),
{
}

/// The synthetic edge at the start of the text.
spec fn bos() -> Edge {
    Edge {
        byte_start: 0,
        byte_end: 0,
        left_id: 0,
        right_id: 0,
        word_cost: 0,
        path_cost: 0,
        left_edge_idx: 0,
        is_bos: true,
        start_char: Ghost(0),
        end_char: Ghost(0),
    }
}

/// The node an edge stands for.
spec fn node_of(e: Edge) -> Node {
    Node { cand: cand(e), cost: e.path_cost as int, pred: e.left_edge_idx as int }
}

/// The nodes of a list of the lattice.
spec fn cell_view(v: Vec<Edge>) -> Seq<Node> {
    v@.map_values(|e: Edge| node_of(e))
}

/// The lattice `ends_at` (by byte offset) as cells by char boundary of `chars`.
spec fn lat_view(ends_at: Seq<Vec<Edge>>, chars: Seq<char>) -> Seq<Seq<Node>> {
    Seq::new((chars.len() + 1) as nat, |q: int| cell_view(ends_at[byte_offset(chars, q) as int]))
}

/// Where the lattice changes only at the offset of char `ce`, so does its
/// view by char boundary.
proof fn lemma_lat_view_update(old: Seq<Vec<Edge>>, new: Seq<Vec<Edge>>, chars: Seq<char>, ce: int)
    requires
        0 <= ce <= chars.len(),
        old.len() == new.len(),
        byte_offset(chars, chars.len() as int) < old.len(),
        forall|q: int| 0 <= q < old.len() && q != byte_offset(chars, ce) ==> #[trigger] new[q] == old[q],
    ensures
        lat_view(new, chars) == lat_view(old, chars).update(
            ce,
            cell_view(new[byte_offset(chars, ce) as int]),
        ),
{
    let u = lat_view(old, chars).update(ce, cell_view(new[byte_offset(chars, ce) as int]));
    assert forall|q: int| 0 <= q <= chars.len() implies #[trigger] lat_view(new, chars)[q] == u[q] by {
        lemma_byte_offset_monotone(chars, q, chars.len() as int);
        if q < ce {
            lemma_byte_offset_strictly_increasing(chars, q, ce);
        } else if q > ce {
            lemma_byte_offset_strictly_increasing(chars, ce, q);
        }
    }
    assert(lat_view(new, chars) =~= u);
}

impl Dictionary {
    /// The shape of the lattice `ends_at` over `chars` (whose encoding is
    /// `byte_len` bytes): the start edge alone ends at 0; every other edge
    /// ends where it is filed, spans a non-empty run of whole chars, points
    /// at a predecessor that exists, carries ids the cost matrix has and a
    /// path cost bounded by its end.
    #[verifier::opaque]
    spec fn lattice_ok(&self, ends_at: Seq<Vec<Edge>>, chars: Seq<char>, byte_len: int) -> bool {
        &&& ends_at.len() == byte_len + 1
        &&& ends_at[0]@ == seq![bos()]
        &&& forall|q: int, k: int|
            #![trigger ends_at[q]@[k]]
            1 <= q <= byte_len && 0 <= k < ends_at[q]@.len() ==> {
                let e = ends_at[q]@[k];
                &&& !e.is_bos
                &&& e.byte_end == q
                &&& e.byte_start < q
                &&& is_boundary(chars, e.byte_start as int)
                &&& is_boundary(chars, q)
                &&& e.left_edge_idx < ends_at[e.byte_start as int]@.len()
                &&& -0x1_0000 * q <= e.path_cost <= 0x1_0000 * q
                &&& 0 <= e.start_char@ < e.end_char@ <= chars.len()
                &&& byte_offset(chars, e.start_char@) == e.byte_start
                &&& byte_offset(chars, e.end_char@) == q
                &&& self.is_candidate(chars, cand(e))
                &&& {
                    let pred = ends_at[e.byte_start as int]@[e.left_edge_idx as int];
                    e.path_cost == pred.path_cost + self.spec_connection_cost(
                        pred.right_id as int,
                        e.left_id as int,
                    ) + e.word_cost
                }
            }
    }

    /// The lattice has a list per byte offset, the start edge alone at 0.
    proof fn lemma_lattice_shape(&self, ends_at: Seq<Vec<Edge>>, chars: Seq<char>, byte_len: int)
        requires
            self.lattice_ok(ends_at, chars, byte_len),
        ensures
            ends_at.len() == byte_len + 1,
            ends_at[0]@ == seq![bos()],
    {
        reveal(Dictionary::lattice_ok);
    }

    /// What an edge of the lattice at byte `q` carries: the start edge at 0;
    /// elsewhere ids the cost matrix has and a path cost bounded by `q`.
    proof fn lemma_edge_facts(
        &self,
        ends_at: Seq<Vec<Edge>>,
        chars: Seq<char>,
        byte_len: int,
        q: int,
        k: int,
    )
        requires
            self.lattice_ok(ends_at, chars, byte_len),
            0 <= q <= byte_len,
            0 <= k < ends_at[q]@.len(),
        ensures
            q == 0 ==> ends_at[q]@[k] == bos(),
            q > 0 ==> -0x1_0000 * q <= ends_at[q]@[k].path_cost <= 0x1_0000 * q && !ends_at[q]@[k].is_bos
                && ends_at[q]@[k].byte_start < q && ends_at[q]@[k].left_edge_idx
                < ends_at[ends_at[q]@[k].byte_start as int]@.len() && byte_offset(
                chars,
                ends_at[q]@[k].end_char@,
            ) == q && 0 <= ends_at[q]@[k].start_char@ < ends_at[q]@[k].end_char@ <= chars.len(),
            ends_at.len() == byte_len + 1,
    {
        reveal(Dictionary::lattice_ok);
    }

    /// Whether the lattice has an edge for candidate `c` whose path cost is
    /// at most that through any edge ending where `c` starts.
    spec fn covered(&self, ends_at: Seq<Vec<Edge>>, chars: Seq<char>, c: Candidate) -> bool {
        let bs = byte_offset(chars, c.start) as int;
        let be = byte_offset(chars, c.end) as int;
        exists|k: int|
            0 <= k < ends_at[be]@.len() && cand(#[trigger] ends_at[be]@[k]) == c && forall|j: int|
                0 <= j < ends_at[bs]@.len() ==> ends_at[be]@[k].path_cost <= (#[trigger] ends_at[bs]@[j]).path_cost
                    + self.spec_connection_cost(ends_at[bs]@[j].right_id as int, c.left_id as int)
                    + c.word_cost
    }

    /// What the lattice list at byte `q` holds: edges whose path costs are
    /// bounded by `q`.
    proof fn lemma_cell_facts(&self, ends_at: Seq<Vec<Edge>>, chars: Seq<char>, byte_len: int, q: int)
        requires
            self.wf(),
            self.lattice_ok(ends_at, chars, byte_len),
            0 <= q <= byte_len,
        ensures
            forall|k: int|
                0 <= k < ends_at[q]@.len() ==> -0x1_0000 * q <= (#[trigger] ends_at[q]@[k]).path_cost
                    <= 0x1_0000 * q,
    {
        reveal(Dictionary::lattice_ok);
    }

    /// The first of the edges of `cell` (the lattice list at byte
    /// `byte_start`) behind which the path into candidate `c` (left id
    /// `left_id`, cost `word_cost`) is cheapest, with that path's cost;
    /// `i64::MAX` when `cell` is empty.
    fn best_predecessor(
        &self,
        cell: &Vec<Edge>,
        byte_start: usize,
        left_id: u16,
        word_cost: i16,
        Ghost(c): Ghost<Candidate>,
    ) -> (r: (i64, usize))
        requires
            self.wf(),
            byte_start <= max_text_bytes(),
            c.left_id == left_id,
            c.word_cost == word_cost,
            forall|k: int|
                0 <= k < cell@.len() ==> self.lookup_ok((#[trigger] cell@[k]).right_id as int, left_id as int)
                    && -0x1_0000 * byte_start <= cell@[k].path_cost <= 0x1_0000 * byte_start,
        ensures
            cell@.len() == 0 ==> r.0 == i64::MAX,
            cell@.len() > 0 ==> {
                let ts = self.step_costs(cell_view(*cell), c);
                &&& r.1 == first_min(ts)
                &&& r.0 == ts[r.1 as int]
                &&& 0 <= r.1 < cell@.len()
                &&& -0x1_0000 * byte_start - 0x1_0000 <= r.0 <= 0x1_0000 * byte_start + 0x1_0000
                &&& forall|j: int| 0 <= j < cell@.len() ==> r.0 <= #[trigger] ts[j]
            },
    {
        let ghost ts = self.step_costs(cell_view(*cell), c);
        let n = cell.len();
        let mut best_cost: i64 = i64::MAX;
        let mut best_idx: usize = 0;
        let mut idx: usize = 0;
        while idx < n
            invariant
                self.wf(),
                byte_start <= max_text_bytes(),
                c.left_id == left_id,
                c.word_cost == word_cost,
                forall|k: int|
                    0 <= k < cell@.len() ==> self.lookup_ok((#[trigger] cell@[k]).right_id as int, left_id as int)
                        && -0x1_0000 * byte_start <= cell@[k].path_cost <= 0x1_0000 * byte_start,
                n == cell@.len(),
                ts == self.step_costs(cell_view(*cell), c),
                ts.len() == n,
                idx <= n,
                idx == 0 ==> best_cost == i64::MAX,
                idx > 0 ==> best_idx == first_min(ts.take(idx as int)) && best_cost == ts[best_idx as int]
                    && 0 <= best_idx < idx && -0x1_0000 * byte_start - 0x1_0000 <= best_cost
                    <= 0x1_0000 * byte_start + 0x1_0000,
                forall|j: int| 0 <= j < idx ==> best_cost <= #[trigger] ts[j],
            decreases n - idx,
        {
            proof {
                lemma_first_min_step(ts, idx as int);
            }
            let left_edge = &cell[idx];
            let conn = self.connection_cost(left_edge.right_id, left_id) as i64;
            let total = left_edge.path_cost + conn + word_cost as i64;
            proof {
                assert(ts[idx as int] == total);
            }
            if total < best_cost {
                best_cost = total;
                best_idx = idx;
            }
            idx = idx + 1;
        }
        proof {
            assert(ts.take(n as int) =~= ts);
        }
        (best_cost, best_idx)
    }

    /// Adds the edge `byte_start..byte_end` (chars `cs..ce`) with the given
    /// ids and cost to the lattice, behind its cheapest predecessor; nothing
    /// if `byte_start` has none.
    fn add_edge(
        &self,
        ends_at: &mut Vec<Vec<Edge>>,
        byte_start: usize,
        byte_end: usize,
        left_id: u16,
        right_id: u16,
        word_cost: i16,
        Ghost(chars): Ghost<Seq<char>>,
        Ghost(byte_len): Ghost<int>,
        Ghost(cs): Ghost<int>,
        Ghost(ce): Ghost<int>,
    )
        requires
            self.wf(),
            self.lattice_ok(old(ends_at)@, chars, byte_len),
            byte_len <= max_text_bytes(),
            byte_len == byte_offset(chars, chars.len() as int),
            byte_start < byte_end <= byte_len,
            0 <= cs < ce <= chars.len(),
            byte_offset(chars, cs) == byte_start,
            byte_offset(chars, ce) == byte_end,
            forall|k: int|
                0 <= k < old(ends_at)@[byte_start as int]@.len() ==> self.lookup_ok(
                    (#[trigger] old(ends_at)@[byte_start as int]@[k]).right_id as int,
                    left_id as int,
                ),
            self.is_candidate(
                chars,
                Candidate { start: cs, end: ce, left_id, right_id, word_cost },
            ),
        ensures
            self.lattice_ok(final(ends_at)@, chars, byte_len),
            grows(old(ends_at)@, final(ends_at)@),
            forall|q: int|
                0 <= q < final(ends_at)@.len() && q != byte_end ==> #[trigger] final(ends_at)@[q]
                    == old(ends_at)@[q],
            final(ends_at)@[byte_end as int]@.len() <= old(ends_at)@[byte_end as int]@.len() + 1,
            old(ends_at)@[byte_start as int]@.len() > 0 ==> self.covered(
                final(ends_at)@,
                chars,
                Candidate { start: cs, end: ce, left_id, right_id, word_cost },
            ),
            old(ends_at)@[byte_start as int]@.len() == 0 ==> final(ends_at)@ == old(ends_at)@,
            old(ends_at)@[byte_start as int]@.len() > 0 ==> lat_view(final(ends_at)@, chars)
                == lat_view(old(ends_at)@, chars).update(
                ce,
                lat_view(old(ends_at)@, chars)[ce].push(
                    self.node_for(
                        lat_view(old(ends_at)@, chars)[cs],
                        Candidate { start: cs, end: ce, left_id, right_id, word_cost },
                    ),
                ),
            ),
    {
        let ghost c = Candidate { start: cs, end: ce, left_id, right_id, word_cost };
        proof {
            self.lemma_cell_facts(ends_at@, chars, byte_len, byte_start as int);
            self.lemma_lattice_shape(ends_at@, chars, byte_len);
        }
        let (best_cost, best_left_idx) = self.best_predecessor(
            &ends_at[byte_start],
            byte_start,
            left_id,
            word_cost,
            Ghost(c),
        );
        if best_cost == i64::MAX {
            return;
        }
        let edge = Edge {
            byte_start,
            byte_end,
            left_id,
            right_id,
            word_cost,
            path_cost: best_cost,
            left_edge_idx: best_left_idx,
            is_bos: false,
            start_char: Ghost(cs),
            end_char: Ghost(ce),
        };
        let ghost before = ends_at@;
        ends_at[byte_end].push(edge);
        proof {
            assert(cand(edge) == c);
            let ts = self.step_costs(cell_view(before[byte_start as int]), c);
            assert forall|j: int| 0 <= j < before[byte_start as int]@.len() implies edge.path_cost
                <= (#[trigger] before[byte_start as int]@[j]).path_cost + self.spec_connection_cost(
                before[byte_start as int]@[j].right_id as int,
                left_id as int,
            ) + word_cost by {
                assert(ts[j] == before[byte_start as int]@[j].path_cost + self.spec_connection_cost(
                    before[byte_start as int]@[j].right_id as int,
                    left_id as int,
                ) + word_cost);
            }
            let pred = before[byte_start as int]@[best_left_idx as int];
            assert(ts[best_left_idx as int] == pred.path_cost + self.spec_connection_cost(
                pred.right_id as int,
                left_id as int,
            ) + word_cost);
            self.lemma_push_edge(before, ends_at@, chars, byte_len, edge);
            self.lemma_edge_pushed(before, ends_at@, chars, edge);
        }
    }

    /// Pushing an edge that satisfies the lattice's conditions, behind a
    /// predecessor through which it is cheapest, keeps the lattice's shape
    /// and covers the edge's candidate.
    proof fn lemma_push_edge(
        &self,
        before: Seq<Vec<Edge>>,
        after: Seq<Vec<Edge>>,
        chars: Seq<char>,
        byte_len: int,
        edge: Edge,
    )
        requires
            self.wf(),
            self.lattice_ok(before, chars, byte_len),
            byte_len <= max_text_bytes(),
            !edge.is_bos,
            edge.byte_start < edge.byte_end <= byte_len,
            0 <= edge.start_char@ < edge.end_char@ <= chars.len(),
            byte_offset(chars, edge.start_char@) == edge.byte_start,
            byte_offset(chars, edge.end_char@) == edge.byte_end,
            self.is_candidate(chars, cand(edge)),
            edge.left_edge_idx < before[edge.byte_start as int]@.len(),
            -0x1_0000 * edge.byte_start - 0x1_0000 <= edge.path_cost <= 0x1_0000 * edge.byte_start
                + 0x1_0000,
            ({
                let pred = before[edge.byte_start as int]@[edge.left_edge_idx as int];
                edge.path_cost == pred.path_cost + self.spec_connection_cost(
                    pred.right_id as int,
                    edge.left_id as int,
                ) + edge.word_cost
            }),
            forall|j: int|
                0 <= j < before[edge.byte_start as int]@.len() ==> edge.path_cost
                    <= (#[trigger] before[edge.byte_start as int]@[j]).path_cost
                    + self.spec_connection_cost(
                    before[edge.byte_start as int]@[j].right_id as int,
                    edge.left_id as int,
                ) + edge.word_cost,
            before.len() == after.len(),
            forall|q: int|
                0 <= q < before.len() && q != edge.byte_end ==> #[trigger] after[q] == before[q],
            after[edge.byte_end as int]@ == before[edge.byte_end as int]@.push(edge),
        ensures
            self.lattice_ok(after, chars, byte_len),
            grows(before, after),
            self.covered(after, chars, cand(edge)),
    {
        reveal(Dictionary::lattice_ok);
        let byte_start = edge.byte_start;
        let byte_end = edge.byte_end;
        let c = cand(edge);
        assert(is_boundary(chars, byte_start as int));
        assert(is_boundary(chars, byte_end as int));
        assert forall|q: int, k: int|
            1 <= q <= byte_len && 0 <= k < after[q]@.len() implies {
            let e = #[trigger] after[q]@[k];
            &&& !e.is_bos
            &&& e.byte_end == q
            &&& e.byte_start < q
            &&& is_boundary(chars, e.byte_start as int)
            &&& is_boundary(chars, q)
            &&& e.left_edge_idx < after[e.byte_start as int]@.len()
            &&& -0x1_0000 * q <= e.path_cost <= 0x1_0000 * q
            &&& 0 <= e.start_char@ < e.end_char@ <= chars.len()
            &&& byte_offset(chars, e.start_char@) == e.byte_start
            &&& byte_offset(chars, e.end_char@) == q
            &&& self.is_candidate(chars, cand(e))
            &&& {
                let pred = after[e.byte_start as int]@[e.left_edge_idx as int];
                e.path_cost == pred.path_cost + self.spec_connection_cost(
                    pred.right_id as int,
                    e.left_id as int,
                ) + e.word_cost
            }
        } by {
            if q == byte_end && k == before[q]@.len() {
                assert(after[q]@[k] == edge);
                assert(after[byte_start as int] == before[byte_start as int]);
            } else {
                assert(after[q]@[k] == before[q]@[k]);
                let e = before[q]@[k];
                assert(after[e.byte_start as int]@.len() >= before[e.byte_start as int]@.len());
                assert(after[e.byte_start as int]@[e.left_edge_idx as int]
                    == before[e.byte_start as int]@[e.left_edge_idx as int]);
            }
        }
        assert(after[0] == before[0]);
        assert forall|q: int| 0 <= q < before.len() implies #[trigger] before[q]@.len()
            <= after[q]@.len() by {
            if q != byte_end {
                assert(after[q] == before[q]);
            }
        }
        assert forall|q: int, k: int|
            0 <= q < before.len() && 0 <= k < before[q]@.len() implies #[trigger] after[q]@[k]
                == before[q]@[k] by {
            if q != byte_end {
                assert(after[q] == before[q]);
            }
        }
        let be = byte_end as int;
        let kk = before[be]@.len() as int;
        assert(after[be]@[kk] == edge);
        assert(after[byte_start as int] == before[byte_start as int]);
        assert forall|j: int| 0 <= j < after[byte_start as int]@.len() implies after[be]@[kk].path_cost
            <= (#[trigger] after[byte_start as int]@[j]).path_cost + self.spec_connection_cost(
            after[byte_start as int]@[j].right_id as int,
            c.left_id as int,
        ) + c.word_cost by {
            assert(after[byte_start as int]@[j] == before[byte_start as int]@[j]);
        }
        assert(self.covered(after, chars, c));
    }

    /// Pushing an edge behind its first cheapest predecessor adds its node
    /// to the cell where it ends.
    proof fn lemma_edge_pushed(
        &self,
        before: Seq<Vec<Edge>>,
        after: Seq<Vec<Edge>>,
        chars: Seq<char>,
        edge: Edge,
    )
        requires
            0 <= edge.start_char@ < edge.end_char@ <= chars.len(),
            byte_offset(chars, chars.len() as int) < before.len(),
            before.len() == after.len(),
            edge.byte_start == byte_offset(chars, edge.start_char@),
            edge.byte_end == byte_offset(chars, edge.end_char@),
            forall|q: int|
                0 <= q < before.len() && q != edge.byte_end ==> #[trigger] after[q] == before[q],
            after[edge.byte_end as int]@ == before[edge.byte_end as int]@.push(edge),
            ({
                let ts = self.step_costs(cell_view(before[edge.byte_start as int]), cand(edge));
                edge.path_cost == ts[first_min(ts)] && edge.left_edge_idx == first_min(ts)
            }),
        ensures
            lat_view(after, chars) == lat_view(before, chars).update(
                edge.end_char@,
                lat_view(before, chars)[edge.end_char@].push(
                    self.node_for(lat_view(before, chars)[edge.start_char@], cand(edge)),
                ),
            ),
    {
        let cs = edge.start_char@;
        let ce = edge.end_char@;
        let be = edge.byte_end as int;
        assert(node_of(edge) == self.node_for(cell_view(before[edge.byte_start as int]), cand(edge)));
        assert(cell_view(after[be]) =~= cell_view(before[be]).push(node_of(edge)));
        lemma_byte_offset_monotone(chars, ce, chars.len() as int);
        lemma_byte_offset_monotone(chars, cs, chars.len() as int);
        lemma_lat_view_update(before, after, chars, ce);
        assert(lat_view(before, chars)[cs] == cell_view(before[edge.byte_start as int]));
        assert(lat_view(before, chars)[ce] == cell_view(before[be]));
    }

    /// The unknown words `cs..j` of category `cat` by any template stay
    /// covered as the lattice grows elsewhere than at their start.
    proof fn lemma_templates_persist(
        &self,
        old: Seq<Vec<Edge>>,
        new: Seq<Vec<Edge>>,
        chars: Seq<char>,
        cs: int,
        j: int,
        cat: CharCategory,
    )
        requires
            grows(old, new),
            0 <= cs < j <= chars.len(),
            byte_offset(chars, chars.len() as int) < old.len(),
            new[byte_offset(chars, cs) as int] == old[byte_offset(chars, cs) as int],
            forall|u: int|
                0 <= u < self.spec_unknown_entries(cat).len() ==> self.covered(
                    old,
                    chars,
                    Candidate {
                        start: cs,
                        end: j,
                        left_id: (#[trigger] self.spec_unknown_entries(cat)[u]).left_id,
                        right_id: self.spec_unknown_entries(cat)[u].right_id,
                        word_cost: self.spec_unknown_entries(cat)[u].word_cost,
                    },
                ),
        ensures
            forall|u: int|
                0 <= u < self.spec_unknown_entries(cat).len() ==> self.covered(
                    new,
                    chars,
                    Candidate {
                        start: cs,
                        end: j,
                        left_id: (#[trigger] self.spec_unknown_entries(cat)[u]).left_id,
                        right_id: self.spec_unknown_entries(cat)[u].right_id,
                        word_cost: self.spec_unknown_entries(cat)[u].word_cost,
                    },
                ),
    {
        lemma_byte_offset_monotone(chars, cs, chars.len() as int);
        lemma_byte_offset_monotone(chars, j, chars.len() as int);
        assert forall|u: int| 0 <= u < self.spec_unknown_entries(cat).len() implies self.covered(
            new,
            chars,
            Candidate {
                start: cs,
                end: j,
                left_id: (#[trigger] self.spec_unknown_entries(cat)[u]).left_id,
                right_id: self.spec_unknown_entries(cat)[u].right_id,
                word_cost: self.spec_unknown_entries(cat)[u].word_cost,
            },
        ) by {
            self.lemma_covered_persists(
                old,
                new,
                chars,
                Candidate {
                    start: cs,
                    end: j,
                    left_id: self.spec_unknown_entries(cat)[u].left_id,
                    right_id: self.spec_unknown_entries(cat)[u].right_id,
                    word_cost: self.spec_unknown_entries(cat)[u].word_cost,
                },
            );
        }
    }

    /// Unknown-word spans lie within the text.
    proof fn lemma_unknown_span_range(&self, chars: Seq<char>, i: int, j: int, cat: CharCategory)
        requires
            0 <= i < chars.len(),
            self.unknown_span(chars, i, j, cat),
        ensures
            i < j <= chars.len(),
    {
        self.lemma_run_end_ge(chars, i + 1, cat);
    }

    /// The end of a run is not before where it starts (within the text).
    proof fn lemma_run_end_ge(&self, chars: Seq<char>, k: int, cat: CharCategory)
        requires
            k <= chars.len(),
        ensures
            k <= self.run_end(chars, k, cat) <= chars.len(),
        decreases chars.len() - k,
    {
        if k < chars.len() && self.primary(chars[k]) == cat {
            self.lemma_run_end_ge(chars, k + 1, cat);
        }
    }

    /// A covered candidate stays covered as the lattice grows elsewhere than
    /// where it starts.
    proof fn lemma_covered_persists(
        &self,
        old: Seq<Vec<Edge>>,
        new: Seq<Vec<Edge>>,
        chars: Seq<char>,
        c: Candidate,
    )
        requires
            grows(old, new),
            0 <= byte_offset(chars, c.start) < old.len(),
            0 <= byte_offset(chars, c.end) < old.len(),
            new[byte_offset(chars, c.start) as int] == old[byte_offset(chars, c.start) as int],
            self.covered(old, chars, c),
        ensures
            self.covered(new, chars, c),
    {
        let bs = byte_offset(chars, c.start) as int;
        let be = byte_offset(chars, c.end) as int;
        let k = choose|k: int|
            0 <= k < old[be]@.len() && cand(#[trigger] old[be]@[k]) == c && forall|j: int|
                0 <= j < old[bs]@.len() ==> old[be]@[k].path_cost <= (#[trigger] old[bs]@[j]).path_cost
                    + self.spec_connection_cost(old[bs]@[j].right_id as int, c.left_id as int)
                    + c.word_cost;
        assert(new[be]@[k] == old[be]@[k]);
        assert forall|j: int| 0 <= j < new[bs]@.len() implies new[be]@[k].path_cost <= (#[trigger] new[bs]@[j]).path_cost
            + self.spec_connection_cost(new[bs]@[j].right_id as int, c.left_id as int) + c.word_cost by {
            assert(new[bs]@[j] == old[bs]@[j]);
        }
    }

    /// Whether `e` is one of the dictionary words with surface `key`.
    pub closed spec fn has_word(&self, key: Seq<char>, e: DictEntry) -> bool {
        self.entries@.contains_key(key) && self.entries@[key]@.contains(e)
    }

    /// The dictionary words that start at char `ci` of `chars` (at byte
    /// `byte_pos`), each with the char index and byte offset where it ends;
    /// shorter words first, words of one surface in dictionary order.
    fn prefix_entries(&self, chars: &Vec<char>, ci: usize, byte_pos: usize) -> (r: Vec<
        (usize, usize, DictEntry),
    >)
        requires
            self.wf(),
            ci < chars@.len(),
            byte_pos == byte_offset(chars@, ci as int),
            byte_offset(chars@, chars@.len() as int) <= usize::MAX,
        ensures
            forall|k: int|
                0 <= k < r@.len() ==> {
                    let (j, b, e) = #[trigger] r@[k];
                    &&& ci < j <= chars@.len()
                    &&& b == byte_offset(chars@, j as int)
                    &&& self.has_word(chars@.subrange(ci as int, j as int), e)
                },
            forall|j: int, e: DictEntry|
                ci < j <= chars@.len() && #[trigger] self.has_word(chars@.subrange(ci as int, j), e)
                    ==> exists|k: int|
                    0 <= k < r@.len() && #[trigger] r@[k] == (j as usize, byte_offset(chars@, j) as usize, e),
            triple_cands(ci as int, r@) == self.word_cands(chars@, ci as int, chars@.len() as int),
    {
        let mut results: Vec<(usize, usize, DictEntry)> = Vec::new();
        proof {
            assert(triple_cands(ci as int, results@) =~= Seq::<Candidate>::empty());
        }
        let mut prefix = String::new();
        let mut end = byte_pos;
        let mut j: usize = ci;
        while j < chars.len()
            invariant
                self.wf(),
                ci <= j <= chars@.len(),
                end == byte_offset(chars@, j as int),
                byte_offset(chars@, chars@.len() as int) <= usize::MAX,
                prefix@ == chars@.subrange(ci as int, j as int),
                triple_cands(ci as int, results@) == self.word_cands(chars@, ci as int, j as int),
                forall|k: int|
                    0 <= k < results@.len() ==> {
                        let (j2, b, e) = #[trigger] results@[k];
                        &&& ci < j2 <= j
                        &&& b == byte_offset(chars@, j2 as int)
                        &&& self.has_word(chars@.subrange(ci as int, j2 as int), e)
                    },
                forall|j2: int, e: DictEntry|
                    ci < j2 <= j && #[trigger] self.has_word(chars@.subrange(ci as int, j2), e)
                        ==> exists|k: int|
                        0 <= k < results@.len() && #[trigger] results@[k] == (
                            j2 as usize,
                            byte_offset(chars@, j2) as usize,
                            e,
                        ),
            decreases chars@.len() - j,
        {
            let c = chars[j];
            proof {
                lemma_byte_offset_step(chars@, j as int);
                lemma_byte_offset_monotone(chars@, j as int + 1, chars@.len() as int);
                assert(chars@.subrange(ci as int, j as int + 1) =~= prefix@.push(c));
            }
            push_char(&mut prefix, c);
            end = end + char_len_utf8(c);
            j = j + 1;
            let ghost shorter = triple_cands(ci as int, results@);
            proof {
                assert(shorter == self.word_cands(chars@, ci as int, j as int - 1));
            }
            match self.entries.get(prefix.as_str()) {
                Some(words) => {
                    let ghost key = prefix@;
                    let mut w: usize = 0;
                    while w < words.len()
                        invariant
                            self.wf(),
                            self.entries@.contains_key(key),
                            words@ == self.entries@[key]@,
                            key == chars@.subrange(ci as int, j as int),
                            ci < j <= chars@.len(),
                            end == byte_offset(chars@, j as int),
                            w <= words@.len(),
                            triple_cands(ci as int, results@) == shorter + words_over(
                                words@.take(w as int),
                                ci as int,
                                j as int,
                            ),
                            forall|k: int|
                                0 <= k < results@.len() ==> {
                                    let (j2, b, e) = #[trigger] results@[k];
                                    &&& ci < j2 <= j
                                    &&& b == byte_offset(chars@, j2 as int)
                                    &&& self.has_word(chars@.subrange(ci as int, j2 as int), e)
                                },
                            forall|j2: int, e: DictEntry|
                                ci < j2 < j && #[trigger] self.has_word(
                                    chars@.subrange(ci as int, j2),
                                    e,
                                ) ==> exists|k: int|
                                    0 <= k < results@.len() && #[trigger] results@[k] == (
                                        j2 as usize,
                                        byte_offset(chars@, j2) as usize,
                                        e,
                                    ),
                            forall|v: int|
                                0 <= v < w ==> exists|k: int|
                                    0 <= k < results@.len() && #[trigger] results@[k] == (
                                        j,
                                        end,
                                        #[trigger] words@[v],
                                    ),
                        decreases words@.len() - w,
                    {
                        let e = words[w];
                        let ghost before = results@;
                        proof {
                            assert(self.entries@[key]@[w as int] == e);
                            assert(self.entries@[key]@.contains(e));
                        }
                        results.push((j, end, e));
                        proof {
                            assert(results@[before.len() as int] == (j, end, e));
                            assert(triple_cands(ci as int, results@) =~= triple_cands(ci as int, before).push(
                                Candidate {
                                    start: ci as int,
                                    end: j as int,
                                    left_id: e.left_id,
                                    right_id: e.right_id,
                                    word_cost: e.word_cost,
                                },
                            ));
                            assert(words_over(words@.take(w as int + 1), ci as int, j as int) =~= words_over(
                                words@.take(w as int),
                                ci as int,
                                j as int,
                            ).push(
                                Candidate {
                                    start: ci as int,
                                    end: j as int,
                                    left_id: e.left_id,
                                    right_id: e.right_id,
                                    word_cost: e.word_cost,
                                },
                            ));
                            assert forall|j2: int, e2: DictEntry|
                                ci < j2 < j && #[trigger] self.has_word(
                                    chars@.subrange(ci as int, j2),
                                    e2,
                                ) implies exists|k: int|
                                    0 <= k < results@.len() && #[trigger] results@[k] == (
                                        j2 as usize,
                                        byte_offset(chars@, j2) as usize,
                                        e2,
                                    ) by {
                                let k = choose|k: int|
                                    0 <= k < before.len() && #[trigger] before[k] == (
                                        j2 as usize,
                                        byte_offset(chars@, j2) as usize,
                                        e2,
                                    );
                                assert(results@[k] == before[k]);
                            }
                            assert forall|v: int| 0 <= v < w + 1 implies exists|k: int|
                                0 <= k < results@.len() && #[trigger] results@[k] == (
                                    j,
                                    end,
                                    #[trigger] words@[v],
                                ) by {
                                if v < w {
                                    let k = choose|k: int|
                                        0 <= k < before.len() && #[trigger] before[k] == (j, end, words@[v]);
                                    assert(results@[k] == before[k]);
                                } else {
                                    assert(results@[before.len() as int] == (j, end, words@[v]));
                                }
                            }
                        }
                        w = w + 1;
                    }
                    proof {
                        assert(words@.take(w as int) =~= words@);
                        assert(triple_cands(ci as int, results@) =~= self.word_cands(
                            chars@,
                            ci as int,
                            j as int,
                        ));
                        assert forall|j2: int, e2: DictEntry|
                            ci < j2 <= j && #[trigger] self.has_word(chars@.subrange(ci as int, j2), e2)
                                implies exists|k: int|
                                0 <= k < results@.len() && #[trigger] results@[k] == (
                                    j2 as usize,
                                    byte_offset(chars@, j2) as usize,
                                    e2,
                                ) by {
                            if j2 == j {
                                assert(chars@.subrange(ci as int, j2) == key);
                                let v = choose|v: int| 0 <= v < words@.len() && words@[v] == e2;
                                assert(words@[v] == e2);
                            }
                        }
                    }
                },
                None => {
                    proof {
                        assert(!self.entries@.contains_key(prefix@));
                        assert(triple_cands(ci as int, results@) =~= self.word_cands(
                            chars@,
                            ci as int,
                            j as int,
                        ));
                        assert forall|j2: int, e2: DictEntry|
                            ci < j2 <= j && #[trigger] self.has_word(chars@.subrange(ci as int, j2), e2)
                                implies exists|k: int|
                                0 <= k < results@.len() && #[trigger] results@[k] == (
                                    j2 as usize,
                                    byte_offset(chars@, j2) as usize,
                                    e2,
                                ) by {
                            if j2 == j {
                                assert(chars@.subrange(ci as int, j2) == prefix@);
                            }
                        }
                    }
                },
            }
        }
        results
    }

    /// Adds an edge `byte_start..byte_end` (chars `cs..ce`) for each
    /// unknown-word template of category `cat`.
    #[verifier::rlimit(40)]
    fn add_unknown_edges(
        &self,
        ends_at: &mut Vec<Vec<Edge>>,
        byte_start: usize,
        byte_end: usize,
        cat: CharCategory,
        Ghost(chars): Ghost<Seq<char>>,
        Ghost(byte_len): Ghost<int>,
        Ghost(cs): Ghost<int>,
        Ghost(ce): Ghost<int>,
    )
        requires
            self.wf(),
            self.lattice_ok(old(ends_at)@, chars, byte_len),
            byte_len <= max_text_bytes(),
            byte_len == byte_offset(chars, chars.len() as int),
            byte_start < byte_end <= byte_len,
            0 <= cs < ce <= chars.len(),
            byte_offset(chars, cs) == byte_start,
            byte_offset(chars, ce) == byte_end,
            self.unknown_allowed(chars, cs),
            self.spec_char_categories(chars[cs]).contains(cat),
            self.unknown_span(chars, cs, ce, cat),
            self.joins_ok(
                lat_view(old(ends_at)@, chars)[cs],
                templates_over(self.spec_unknown_entries(cat), cs, ce),
            ),
        ensures
            self.lattice_ok(final(ends_at)@, chars, byte_len),
            grows(old(ends_at)@, final(ends_at)@),
            forall|q: int|
                0 <= q < final(ends_at)@.len() && q != byte_end ==> #[trigger] final(ends_at)@[q]
                    == old(ends_at)@[q],
            old(ends_at)@[byte_start as int]@.len() > 0 ==> forall|u: int|
                0 <= u < self.spec_unknown_entries(cat).len() ==> self.covered(
                    final(ends_at)@,
                    chars,
                    Candidate {
                        start: cs,
                        end: ce,
                        left_id: (#[trigger] self.spec_unknown_entries(cat)[u]).left_id,
                        right_id: self.spec_unknown_entries(cat)[u].right_id,
                        word_cost: self.spec_unknown_entries(cat)[u].word_cost,
                    },
                ),
            old(ends_at)@[byte_start as int]@.len() == 0 ==> final(ends_at)@ == old(ends_at)@,
            old(ends_at)@[byte_start as int]@.len() > 0 ==> lat_view(final(ends_at)@, chars)
                == self.add_all(
                lat_view(old(ends_at)@, chars),
                templates_over(self.spec_unknown_entries(cat), cs, ce),
                lat_view(old(ends_at)@, chars)[cs],
            ),
    {
        let ghost start = ends_at@;
        let ghost tc = templates_over(self.spec_unknown_entries(cat), cs, ce);
        let slot = cat.index();
        let unk_entries = &self.unknown_entries[slot];
        let mut u: usize = 0;
        while u < unk_entries.len()
            invariant
                self.wf(),
                self.lattice_ok(ends_at@, chars, byte_len),
                byte_len <= max_text_bytes(),
                byte_len == byte_offset(chars, chars.len() as int),
                byte_start < byte_end <= byte_len,
                0 <= cs < ce <= chars.len(),
                tc == templates_over(self.spec_unknown_entries(cat), cs, ce),
                self.joins_ok(lat_view(start, chars)[cs], tc),
                start[byte_start as int]@.len() == 0 ==> ends_at@ == start,
                start[byte_start as int]@.len() > 0 ==> lat_view(ends_at@, chars) == self.add_all(
                    lat_view(start, chars),
                    tc.take(u as int),
                    lat_view(start, chars)[cs],
                ),
                byte_offset(chars, cs) == byte_start,
                byte_offset(chars, ce) == byte_end,
                self.unknown_allowed(chars, cs),
                self.spec_char_categories(chars[cs]).contains(cat),
                self.unknown_span(chars, cs, ce, cat),
                slot == cat.spec_index(),
                slot < NUM_CATEGORIES,
                unk_entries@ == self.unknown_entries@[slot as int]@,
                unk_entries@ == self.spec_unknown_entries(cat),
                u <= unk_entries@.len(),
                grows(start, ends_at@),
                forall|q: int|
                    0 <= q < ends_at@.len() && q != byte_end ==> #[trigger] ends_at@[q] == start[q],
                start[byte_start as int]@.len() > 0 ==> forall|v: int|
                    0 <= v < u ==> self.covered(
                        ends_at@,
                        chars,
                        Candidate {
                            start: cs,
                            end: ce,
                            left_id: (#[trigger] self.spec_unknown_entries(cat)[v]).left_id,
                            right_id: self.spec_unknown_entries(cat)[v].right_id,
                            word_cost: self.spec_unknown_entries(cat)[v].word_cost,
                        },
                    ),
            decreases unk_entries@.len() - u,
        {
            let unk = unk_entries[u];
            let ghost before = ends_at@;
            proof {
                assert(self.unknown_entries@[slot as int]@[u as int] == unk);
                assert(self.spec_unknown_entries(cat)[u as int] == unk);
                assert(self.is_candidate(
                    chars,
                    Candidate {
                        start: cs,
                        end: ce,
                        left_id: unk.left_id,
                        right_id: unk.right_id,
                        word_cost: unk.word_cost,
                    },
                ));
                lemma_byte_offset_monotone(chars, cs, chars.len() as int);
                self.lemma_lattice_shape(ends_at@, chars, byte_len);
                assert(ends_at@[byte_start as int] == start[byte_start as int]);
                assert(lat_view(start, chars)[cs] == cell_view(start[byte_start as int]));
                assert(tc[u as int].left_id == unk.left_id);
                assert forall|k: int| 0 <= k < ends_at@[byte_start as int]@.len() implies self.lookup_ok(
                    (#[trigger] ends_at@[byte_start as int]@[k]).right_id as int,
                    unk.left_id as int,
                ) by {
                    assert(lat_view(start, chars)[cs][k] == node_of(start[byte_start as int]@[k]));
                    assert(self.lookup_ok(
                        lat_view(start, chars)[cs][k].cand.right_id as int,
                        tc[u as int].left_id as int,
                    ));
                }
            }
            self.add_edge(
                ends_at,
                byte_start,
                byte_end,
                unk.left_id,
                unk.right_id,
                unk.word_cost,
                Ghost(chars),
                Ghost(byte_len),
                Ghost(cs),
                Ghost(ce),
            );
            proof {
                lemma_grows_trans(start, before, ends_at@);
                self.lemma_lattice_shape(before, chars, byte_len);
                if start[byte_start as int]@.len() > 0 {
                    lemma_byte_offset_monotone(chars, cs, chars.len() as int);
                    assert(before[byte_start as int] == start[byte_start as int]);
                    assert(lat_view(before, chars)[cs] == lat_view(start, chars)[cs]);
                    assert(tc[u as int] == Candidate {
                        start: cs,
                        end: ce,
                        left_id: unk.left_id,
                        right_id: unk.right_id,
                        word_cost: unk.word_cost,
                    });
                    assert(tc.take(u as int + 1) =~= tc.take(u as int).push(tc[u as int]));
                    self.lemma_add_all_push(
                        lat_view(start, chars),
                        tc.take(u as int),
                        tc[u as int],
                        lat_view(start, chars)[cs],
                    );
                }
                if start[byte_start as int]@.len() > 0 {
                    assert forall|v: int| 0 <= v < u + 1 implies self.covered(
                        ends_at@,
                        chars,
                        Candidate {
                            start: cs,
                            end: ce,
                            left_id: (#[trigger] self.spec_unknown_entries(cat)[v]).left_id,
                            right_id: self.spec_unknown_entries(cat)[v].right_id,
                            word_cost: self.spec_unknown_entries(cat)[v].word_cost,
                        },
                    ) by {
                        if v < u {
                            self.lemma_covered_persists(
                                before,
                                ends_at@,
                                chars,
                                Candidate {
                                    start: cs,
                                    end: ce,
                                    left_id: self.spec_unknown_entries(cat)[v].left_id,
                                    right_id: self.spec_unknown_entries(cat)[v].right_id,
                                    word_cost: self.spec_unknown_entries(cat)[v].word_cost,
                                },
                            );
                        }
                    }
                }
            }
            u = u + 1;
        }
        proof {
            assert(tc.take(u as int) =~= tc);
        }
    }

    /// Unknown-word edges from char `ci` (at byte `byte_pos`) for its
    /// category `cat`: one over the run of chars whose primary category is
    /// `cat` (grouping), one for each length up to the category's limit
    /// within that run, or one over the single char.
    fn add_unknown_words_of(
        &self,
        ends_at: &mut Vec<Vec<Edge>>,
        chars: &Vec<char>,
        ci: usize,
        byte_pos: usize,
        cat: CharCategory,
        Ghost(byte_len): Ghost<int>,
    )
        requires
            self.wf(),
            self.lattice_ok(old(ends_at)@, chars@, byte_len),
            byte_len == byte_offset(chars@, chars@.len() as int),
            byte_len <= max_text_bytes(),
            byte_len < usize::MAX,
            ci < chars@.len(),
            byte_pos == byte_offset(chars@, ci as int),
            self.unknown_allowed(chars@, ci as int),
            self.spec_char_categories(chars@[ci as int]).contains(cat),
            self.joins_ok(
                lat_view(old(ends_at)@, chars@)[ci as int],
                self.unknown_cands_of(chars@, ci as int, cat),
            ),
        ensures
            self.lattice_ok(final(ends_at)@, chars@, byte_len),
            grows(old(ends_at)@, final(ends_at)@),
            final(ends_at)@[byte_pos as int] == old(ends_at)@[byte_pos as int],
            old(ends_at)@[byte_pos as int]@.len() > 0 ==> forall|j: int, u: int|
                self.unknown_span(chars@, ci as int, j, cat) && 0 <= u < self.spec_unknown_entries(
                    cat,
                ).len() ==> #[trigger] self.covered(
                    final(ends_at)@,
                    chars@,
                    Candidate {
                        start: ci as int,
                        end: j,
                        left_id: self.spec_unknown_entries(cat)[u].left_id,
                        right_id: self.spec_unknown_entries(cat)[u].right_id,
                        word_cost: self.spec_unknown_entries(cat)[u].word_cost,
                    },
                ),
            old(ends_at)@[byte_pos as int]@.len() == 0 ==> final(ends_at)@ == old(ends_at)@,
            old(ends_at)@[byte_pos as int]@.len() > 0 ==> lat_view(final(ends_at)@, chars@)
                == self.add_all(
                lat_view(old(ends_at)@, chars@),
                self.unknown_cands_of(chars@, ci as int, cat),
                lat_view(old(ends_at)@, chars@)[ci as int],
            ),
    {
        let ghost start = ends_at@;
        let ghost cs = ci as int;
        let ghost l0 = lat_view(start, chars@);
        let ghost from = l0[ci as int];
        let ghost t = self.spec_unknown_entries(cat);
        let ghost bp = byte_pos as int;
        let ghost nonempty = start[bp]@.len() > 0;
        let n = chars.len();
        let c = chars[ci];
        let slot = cat.index();
        let def = self.category_defs[slot];
        let ghost re = self.run_end(chars@, ci as int + 1, cat);
        let ghost m = if def.length < re - cs {
            def.length as int
        } else {
            re - cs
        };
        proof {
            assert(def == self.spec_category_def(cat));
            self.lemma_run_end_ge(chars@, ci as int + 1, cat);
            lemma_grows_refl(start);
            reveal(Dictionary::unknown_cands_of);
            let gp = if def.group {
                templates_over(t, cs, re)
            } else {
                Seq::<Candidate>::empty()
            };
            let lpp = if def.length > 0 {
                self.length_cands(cs, m, cat)
            } else {
                Seq::<Candidate>::empty()
            };
            let spp = if !def.group && def.length == 0 {
                templates_over(t, cs, cs + 1)
            } else {
                Seq::<Candidate>::empty()
            };
            assert(self.unknown_cands_of(chars@, cs, cat) == gp + lpp + spp);
            self.lemma_joins_split(from, gp + lpp, spp);
            self.lemma_joins_split(from, gp, lpp);
        }
        if self.unknown_entries[slot].len() == 0 {
            proof {
                assert(self.spec_unknown_entries(cat).len() == 0);
                self.lemma_no_template_cands(chars@, cs, cat);
            }
            return;
        }
        let width = char_len_utf8(c);
        proof {
            lemma_byte_offset_step(chars@, ci as int);
            lemma_byte_offset_monotone(chars@, ci as int + 1, n as int);
            assert(byte_offset(chars@, ci as int + 1) == byte_pos + width);
            lemma_byte_offset_monotone(chars@, ci as int, n as int);
        }
        if def.group {
            let mut group_end = byte_pos + width;
            let mut gj: usize = ci + 1;
            let mut grouping = true;
            while grouping && gj < n
                invariant
                    ci < gj <= n,
                    n == chars@.len(),
                    byte_len == byte_offset(chars@, n as int),
                    byte_len <= max_text_bytes(),
                    byte_len < usize::MAX,
                    group_end == byte_offset(chars@, gj as int),
                    re == self.run_end(chars@, ci as int + 1, cat),
                    re == self.run_end(chars@, gj as int, cat),
                    !grouping ==> gj < n && self.primary(chars@[gj as int]) != cat,
                decreases n - gj + (if grouping { 1int } else { 0int }),
            {
                let next_c = chars[gj];
                if self.char_category(next_c) != cat {
                    grouping = false;
                } else {
                    proof {
                        lemma_byte_offset_step(chars@, gj as int);
                        lemma_byte_offset_monotone(chars@, gj as int + 1, n as int);
                    }
                    group_end = group_end + char_len_utf8(next_c);
                    gj = gj + 1;
                }
            }
            proof {
                lemma_byte_offset_strictly_increasing(chars@, ci as int, gj as int);
                lemma_byte_offset_monotone(chars@, gj as int, n as int);
                assert(re == gj);
                assert(self.unknown_span(chars@, cs, gj as int, cat));
                assert(lat_view(ends_at@, chars@)[cs] == from);
            }
            self.add_unknown_edges(
                ends_at,
                byte_pos,
                group_end,
                cat,
                Ghost(chars@),
                Ghost(byte_len),
                Ghost(cs),
                Ghost(gj as int),
            );
            proof {
                self.lemma_lattice_shape(ends_at@, chars@, byte_len);
                assert(ends_at@[bp] == start[bp]);
            }
        }
        let ghost after_group = ends_at@;
        let ghost g = if def.group {
            templates_over(t, cs, re)
        } else {
            Seq::<Candidate>::empty()
        };
        proof {
            if nonempty && !def.group {
                self.lemma_add_all_empty(l0, from);
            }
        }
        proof {
            assert(grows(start, after_group));
            assert(after_group[bp] == start[bp]);
            assert(nonempty && def.group ==> forall|u: int|
                0 <= u < self.spec_unknown_entries(cat).len() ==> self.covered(
                    after_group,
                    chars@,
                    Candidate {
                        start: cs,
                        end: re,
                        left_id: (#[trigger] self.spec_unknown_entries(cat)[u]).left_id,
                        right_id: self.spec_unknown_entries(cat)[u].right_id,
                        word_cost: self.spec_unknown_entries(cat)[u].word_cost,
                    },
                ));
        }
        if def.length > 0 {
            let length = def.length as usize;
            let mut unk_end = byte_pos;
            let mut count: usize = 0;
            let mut lj: usize = ci;
            let mut extending = true;
            proof {
                lemma_grows_refl(after_group);
                assert(g + self.length_cands(cs, 0, cat) =~= g);
            }
            while extending && lj < n
                invariant
                    ci <= lj <= n,
                    n == chars@.len(),
                    count == lj - ci,
                    count <= length,
                    length == def.length,
                    def == self.spec_category_def(cat),
                    length <= 255,
                    byte_len == byte_offset(chars@, n as int),
                    byte_len <= max_text_bytes(),
                    byte_len < usize::MAX,
                    unk_end == byte_offset(chars@, lj as int),
                    byte_pos == byte_offset(chars@, ci as int),
                    cs == ci,
                    bp == byte_pos,
                    self.wf(),
                    self.lattice_ok(ends_at@, chars@, byte_len),
                    self.unknown_allowed(chars@, cs),
                    self.spec_char_categories(chars@[cs]).contains(cat),
                    re == self.run_end(chars@, ci as int + 1, cat),
                    ci < re <= n,
                    lj <= re,
                    lj > ci ==> re == self.run_end(chars@, lj as int, cat),
                    !extending ==> (count == length || (lj > ci && lj < n && self.primary(
                        chars@[lj as int],
                    ) != cat)),
                    grows(after_group, ends_at@),
                    ends_at@[bp] == after_group[bp],
                    after_group[bp] == start[bp],
                    nonempty == (start[bp]@.len() > 0),
                    t == self.spec_unknown_entries(cat),
                    l0 == lat_view(start, chars@),
                    from == l0[cs],
                    byte_offset(chars@, cs) == bp,
                    nonempty ==> lat_view(ends_at@, chars@) == self.add_all(
                        l0,
                        g + self.length_cands(cs, count as int, cat),
                        from,
                    ),
                    !nonempty ==> ends_at@ == start,
                    m == (if def.length < re - cs {
                        def.length as int
                    } else {
                        re - cs
                    }),
                    def.length > 0 ==> self.joins_ok(from, self.length_cands(cs, m, cat)),
                    nonempty ==> forall|j: int, u: int|
                        cs < j <= lj && 0 <= u < self.spec_unknown_entries(cat).len() ==> #[trigger] self.covered(
                            ends_at@,
                            chars@,
                            Candidate {
                                start: cs,
                                end: j,
                                left_id: self.spec_unknown_entries(cat)[u].left_id,
                                right_id: self.spec_unknown_entries(cat)[u].right_id,
                                word_cost: self.spec_unknown_entries(cat)[u].word_cost,
                            },
                        ),
                decreases n - lj + (if extending { 1int } else { 0int }),
            {
                let next_c = chars[lj];
                if count > 0 && self.char_category(next_c) != cat {
                    extending = false;
                } else if count + 1 > length {
                    extending = false;
                } else {
                    proof {
                        lemma_byte_offset_step(chars@, lj as int);
                        lemma_byte_offset_monotone(chars@, lj as int + 1, n as int);
                        lemma_byte_offset_strictly_increasing(chars@, ci as int, lj as int + 1);
                        if lj > ci {
                            assert(self.run_end(chars@, lj as int, cat) == self.run_end(
                                chars@,
                                lj as int + 1,
                                cat,
                            ));
                            self.lemma_run_end_ge(chars@, lj as int + 1, cat);
                        }
                    }
                    let ghost before = ends_at@;
                    unk_end = unk_end + char_len_utf8(next_c);
                    count = count + 1;
                    lj = lj + 1;
                    proof {
                        assert(byte_offset(chars@, lj as int) == unk_end);
                        assert(self.unknown_span(chars@, cs, lj as int, cat));
                        self.lemma_joins_lengths(from, cs, m, cat, count as int);
                        assert(cs + count == lj);
                        self.lemma_lattice_shape(ends_at@, chars@, byte_len);
                        assert(lat_view(ends_at@, chars@)[cs] == cell_view(ends_at@[bp]));
                    }
                    self.add_unknown_edges(
                        ends_at,
                        byte_pos,
                        unk_end,
                        cat,
                        Ghost(chars@),
                        Ghost(byte_len),
                        Ghost(cs),
                        Ghost(lj as int),
                    );
                    proof {
                        self.lemma_lattice_shape(ends_at@, chars@, byte_len);
                        lemma_grows_trans(after_group, before, ends_at@);
                        assert(ends_at@[bp] == before[bp]);
                        if nonempty {
                            assert(lat_view(before, chars@)[cs] == cell_view(before[bp]));
                            let prev = g + self.length_cands(cs, count as int - 1, cat);
                            let tp = templates_over(t, cs, lj as int);
                            self.lemma_add_all_concat(l0, prev, tp, from);
                            assert(prev + tp =~= g + self.length_cands(cs, count as int, cat));
                        }
                        if nonempty {
                            assert forall|j: int, u: int|
                                cs < j <= lj && 0 <= u < self.spec_unknown_entries(cat).len() implies #[trigger] self.covered(
                                    ends_at@,
                                    chars@,
                                    Candidate {
                                        start: cs,
                                        end: j,
                                        left_id: self.spec_unknown_entries(cat)[u].left_id,
                                        right_id: self.spec_unknown_entries(cat)[u].right_id,
                                        word_cost: self.spec_unknown_entries(cat)[u].word_cost,
                                    },
                                ) by {
                                if j < lj {
                                    self.lemma_templates_persist(before, ends_at@, chars@, cs, j, cat);
                                }
                            }
                        }
                    }
                }
            }
            proof {
                if !extending && count != length {
                    assert(self.run_end(chars@, lj as int, cat) == lj);
                }
                assert(count == if def.length < re - cs {
                    def.length as int
                } else {
                    re - cs
                });
            }
        }
        let ghost after_length = ends_at@;
        let ghost m = if def.length < re - cs {
            def.length as int
        } else {
            re - cs
        };
        let ghost lp = if def.length > 0 {
            self.length_cands(cs, m, cat)
        } else {
            Seq::<Candidate>::empty()
        };
        proof {
            if nonempty {
                assert(g + lp =~= g + self.length_cands(cs, m, cat) || def.length == 0);
                if def.length == 0 {
                    assert(g + lp =~= g);
                }
            }
        }
        proof {
            self.lemma_lattice_shape(after_length, chars@, byte_len);
            lemma_grows_trans(start, after_group, after_length);
            assert(after_length[bp] == start[bp]);
            if nonempty && def.group {
                self.lemma_templates_persist(after_group, after_length, chars@, cs, re, cat);
            }
            assert(nonempty && def.length > 0 ==> forall|j: int, u: int|
                cs < j <= cs + def.length && j <= re && 0 <= u < self.spec_unknown_entries(cat).len()
                    ==> #[trigger] self.covered(
                    after_length,
                    chars@,
                    Candidate {
                        start: cs,
                        end: j,
                        left_id: self.spec_unknown_entries(cat)[u].left_id,
                        right_id: self.spec_unknown_entries(cat)[u].right_id,
                        word_cost: self.spec_unknown_entries(cat)[u].word_cost,
                    },
                ));
        }
        let ghost sp = if !def.group && def.length == 0 {
            templates_over(t, cs, cs + 1)
        } else {
            Seq::<Candidate>::empty()
        };
        if !def.group && def.length == 0 {
            proof {
                assert(self.unknown_span(chars@, cs, cs + 1, cat));
                self.lemma_lattice_shape(ends_at@, chars@, byte_len);
                assert(lat_view(ends_at@, chars@)[cs] == cell_view(ends_at@[bp]));
                assert(lat_view(after_length, chars@)[cs] == cell_view(after_length[bp]));
            }
            self.add_unknown_edges(
                ends_at,
                byte_pos,
                byte_pos + width,
                cat,
                Ghost(chars@),
                Ghost(byte_len),
                Ghost(cs),
                Ghost(cs + 1),
            );
        }
        proof {
            let fin = ends_at@;
            self.lemma_lattice_shape(fin, chars@, byte_len);
            lemma_grows_trans(start, after_length, fin);
            assert(fin[bp] == start[bp]);
            if nonempty {
                assert(lat_view(after_length, chars@)[cs] == cell_view(after_length[bp]));
                self.lemma_add_all_concat(l0, g + lp, sp, from);
                if def.group || def.length != 0 {
                    assert(fin == after_length);
                }
                reveal(Dictionary::unknown_cands_of);
                assert(g + lp + sp =~= self.unknown_cands_of(chars@, cs, cat));
            }
            if nonempty {
                assert forall|j: int, u: int|
                    self.unknown_span(chars@, cs, j, cat) && 0 <= u < self.spec_unknown_entries(
                        cat,
                    ).len() implies #[trigger] self.covered(
                    fin,
                    chars@,
                    Candidate {
                        start: cs,
                        end: j,
                        left_id: self.spec_unknown_entries(cat)[u].left_id,
                        right_id: self.spec_unknown_entries(cat)[u].right_id,
                        word_cost: self.spec_unknown_entries(cat)[u].word_cost,
                    },
                ) by {
                    if def.group && j == re {
                        self.lemma_templates_persist(after_length, fin, chars@, cs, j, cat);
                    } else if def.length > 0 && cs < j <= cs + def.length && j <= re {
                        self.lemma_templates_persist(after_length, fin, chars@, cs, j, cat);
                    } else {
                        assert(!def.group && def.length == 0 && j == cs + 1);
                    }
                }
            }
        }
    }
}

impl Dictionary {
    /// Whether the lattice has an edge for the last candidate of `p` whose
    /// path cost is at most that of `p`.
    spec fn reaches(&self, ends_at: Seq<Vec<Edge>>, chars: Seq<char>, p: Seq<Candidate>) -> bool {
        let be = byte_offset(chars, p.last().end) as int;
        exists|k: int|
            0 <= k < ends_at[be]@.len() && cand(#[trigger] ends_at[be]@[k]) == p.last()
                && ends_at[be]@[k].path_cost <= self.path_cost(p)
    }

    /// Every path whose last candidate starts before char `lim` reaches
    /// the lattice.
    spec fn complete_below(&self, ends_at: Seq<Vec<Edge>>, chars: Seq<char>, lim: int) -> bool {
        forall|p: Seq<Candidate>|
            self.is_path(chars, p) && p.last().start < lim ==> #[trigger] self.reaches(
                ends_at,
                chars,
                p,
            )
    }

    proof fn lemma_reaches_grows(
        &self,
        old: Seq<Vec<Edge>>,
        new: Seq<Vec<Edge>>,
        chars: Seq<char>,
        p: Seq<Candidate>,
    )
        requires
            grows(old, new),
            0 <= byte_offset(chars, p.last().end) < old.len(),
            self.reaches(old, chars, p),
        ensures
            self.reaches(new, chars, p),
    {
        let be = byte_offset(chars, p.last().end) as int;
        let k = choose|k: int|
            0 <= k < old[be]@.len() && cand(#[trigger] old[be]@[k]) == p.last()
                && old[be]@[k].path_cost <= self.path_cost(p);
        assert(new[be]@[k] == old[be]@[k]);
    }

    /// A path of two or more candidates without its last is a path.
    proof fn lemma_path_prefix(&self, chars: Seq<char>, p: Seq<Candidate>)
        requires
            self.is_path(chars, p),
            p.len() >= 2,
        ensures
            self.is_path(chars, p.drop_last()),
            p.drop_last().last().end == p.last().start,
    {
        let q = p.drop_last();
        assert(q[0] == p[0]);
        assert forall|k: int| 0 <= k < q.len() - 1 implies (#[trigger] q[k]).end == q[k + 1].start by {
            assert(q[k] == p[k] && q[k + 1] == p[k + 1]);
        }
        assert forall|k: int| 0 <= k < q.len() implies self.is_candidate(chars, #[trigger] q[k]) by {
            assert(q[k] == p[k]);
        }
        assert(p[p.len() - 2].end == p[p.len() - 1].start);
    }

    /// Covering every candidate from char `ci` extends completeness past it.
    proof fn lemma_extend_complete(
        &self,
        old: Seq<Vec<Edge>>,
        new: Seq<Vec<Edge>>,
        chars: Seq<char>,
        byte_len: int,
        ci: int,
    )
        requires
            0 <= ci < chars.len(),
            byte_len == byte_offset(chars, chars.len() as int),
            old.len() == byte_len + 1,
            old[0]@ == seq![bos()],
            grows(old, new),
            new[byte_offset(chars, ci) as int] == old[byte_offset(chars, ci) as int],
            self.complete_below(old, chars, ci),
            old[byte_offset(chars, ci) as int]@.len() > 0 ==> forall|c: Candidate|
                self.is_candidate(chars, c) && c.start == ci ==> #[trigger] self.covered(new, chars, c),
        ensures
            self.complete_below(new, chars, ci + 1),
    {
        lemma_byte_offset_zero(chars);
        assert forall|p: Seq<Candidate>|
            self.is_path(chars, p) && p.last().start < ci + 1 implies #[trigger] self.reaches(
                new,
                chars,
                p,
            ) by {
            let c = p.last();
            assert(self.is_candidate(chars, p[p.len() - 1]));
            lemma_byte_offset_monotone(chars, c.end, chars.len() as int);
            if c.start < ci {
                assert(self.reaches(old, chars, p));
                self.lemma_reaches_grows(old, new, chars, p);
            } else {
                let bs = byte_offset(chars, ci) as int;
                let be = byte_offset(chars, c.end) as int;
                if p.len() == 1 {
                    assert(ci == 0);
                    assert(old[0]@[0] == bos());
                    assert(self.covered(new, chars, c));
                    let k = choose|k: int|
                        0 <= k < new[be]@.len() && cand(#[trigger] new[be]@[k]) == c && forall|j: int|
                            0 <= j < new[bs]@.len() ==> new[be]@[k].path_cost <= (#[trigger] new[bs]@[j]).path_cost
                                + self.spec_connection_cost(new[bs]@[j].right_id as int, c.left_id as int)
                                + c.word_cost;
                    assert(new[bs]@[0] == bos());
                    assert(p.drop_last().len() == 0);
                    assert(self.path_cost(p) == self.path_cost(p.drop_last())
                        + self.spec_connection_cost(0, c.left_id as int) + c.word_cost);
                    assert(new[be]@[k].path_cost <= self.path_cost(p));
                } else {
                    self.lemma_path_prefix(chars, p);
                    let pp = p.drop_last();
                    assert(self.is_candidate(chars, pp[pp.len() - 1]));
                    assert(self.reaches(old, chars, pp));
                    let k2 = choose|k: int|
                        0 <= k < old[bs]@.len() && cand(#[trigger] old[bs]@[k]) == pp.last()
                            && old[bs]@[k].path_cost <= self.path_cost(pp);
                    assert(self.covered(new, chars, c));
                    let k = choose|k: int|
                        0 <= k < new[be]@.len() && cand(#[trigger] new[be]@[k]) == c && forall|j: int|
                            0 <= j < new[bs]@.len() ==> new[be]@[k].path_cost <= (#[trigger] new[bs]@[j]).path_cost
                                + self.spec_connection_cost(new[bs]@[j].right_id as int, c.left_id as int)
                                + c.word_cost;
                    assert(new[bs]@[k2] == old[bs]@[k2]);
                    assert(p[p.len() - 2] == pp.last());
                    assert(new[be]@[k].path_cost <= self.path_cost(p));
                }
            }
        }
    }
}

/// The path of candidates that the predecessor links of the lattice lead
/// back along from edge `k` ending at byte `q`.
spec fn backtrack(ends_at: Seq<Vec<Edge>>, q: int, k: int) -> Seq<Candidate>
    decreases q,
{
    if q <= 0 || k < 0 || k >= ends_at[q]@.len() {
        Seq::empty()
    } else {
        let e = ends_at[q]@[k];
        if 0 <= e.byte_start < q {
            backtrack(ends_at, e.byte_start as int, e.left_edge_idx as int).push(cand(e))
        } else {
            Seq::empty()
        }
    }
}

impl Dictionary {
    /// Following the predecessor links from an edge gives a path that ends
    /// with the edge's candidate and costs the edge's path cost.
    proof fn lemma_backtrack(
        &self,
        ends_at: Seq<Vec<Edge>>,
        chars: Seq<char>,
        byte_len: int,
        q: int,
        k: int,
    )
        requires
            self.lattice_ok(ends_at, chars, byte_len),
            1 <= q <= byte_len,
            0 <= k < ends_at[q]@.len(),
        ensures
            self.is_path(chars, backtrack(ends_at, q, k)),
            backtrack(ends_at, q, k).last() == cand(ends_at[q]@[k]),
            self.path_cost(backtrack(ends_at, q, k)) == ends_at[q]@[k].path_cost,
        decreases q,
    {
        reveal(Dictionary::lattice_ok);
        let e = ends_at[q]@[k];
        let bs = e.byte_start as int;
        let li = e.left_edge_idx as int;
        let pred = ends_at[bs]@[li];
        let p = backtrack(ends_at, q, k);
        lemma_byte_offset_zero(chars);
        if bs == 0 {
            assert(pred == bos());
            assert(backtrack(ends_at, bs, li) =~= Seq::<Candidate>::empty());
            assert(p =~= seq![cand(e)]);
            if e.start_char@ != 0 {
                lemma_byte_offset_strictly_increasing(chars, 0, e.start_char@);
            }
            assert(p.drop_last() =~= Seq::<Candidate>::empty());
            assert(p.last() == cand(e));
            assert(self.path_cost(p) == self.path_cost(p.drop_last()) + self.spec_connection_cost(
                0,
                e.left_id as int,
            ) + e.word_cost);
        } else {
            self.lemma_backtrack(ends_at, chars, byte_len, bs, li);
            let pp = backtrack(ends_at, bs, li);
            assert(p == pp.push(cand(e)));
            assert(p.drop_last() =~= pp);
            // the predecessor ends where this edge starts
            assert(byte_offset(chars, pred.end_char@) == bs);
            if pred.end_char@ < e.start_char@ {
                lemma_byte_offset_strictly_increasing(chars, pred.end_char@, e.start_char@);
            } else if pred.end_char@ > e.start_char@ {
                lemma_byte_offset_strictly_increasing(chars, e.start_char@, pred.end_char@);
            }
            assert(p[0] == pp[0]);
            assert forall|m: int| 0 <= m < p.len() - 1 implies (#[trigger] p[m]).end == p[m + 1].start by {
                if m < pp.len() - 1 {
                    assert(p[m] == pp[m] && p[m + 1] == pp[m + 1]);
                } else {
                    assert(p[m] == pp.last());
                }
            }
            assert forall|m: int| 0 <= m < p.len() implies self.is_candidate(chars, #[trigger] p[m]) by {
                if m < pp.len() {
                    assert(p[m] == pp[m]);
                }
            }
            assert(p[p.len() - 2] == pp.last());
            assert(self.path_cost(p) == self.path_cost(pp) + self.spec_connection_cost(
                pp.last().right_id as int,
                e.left_id as int,
            ) + e.word_cost);
        }
    }
}

impl Dictionary {
    /// A dictionary word over chars `i..j` is a candidate.
    proof fn lemma_word_is_candidate(&self, chars: Seq<char>, i: int, j: int, e: DictEntry)
        requires
            0 <= i < j <= chars.len(),
            self.has_word(chars.subrange(i, j), e),
        ensures
            self.is_candidate(
                chars,
                Candidate {
                    start: i,
                    end: j,
                    left_id: e.left_id,
                    right_id: e.right_id,
                    word_cost: e.word_cost,
                },
            ),
    {
        let c = Candidate {
            start: i,
            end: j,
            left_id: e.left_id,
            right_id: e.right_id,
            word_cost: e.word_cost,
        };
        assert(chars.subrange(c.start, c.end) == chars.subrange(i, j));
        assert(self.has_word(chars.subrange(c.start, c.end), e) && e.left_id == c.left_id
            && e.right_id == c.right_id && e.word_cost == c.word_cost);
    }

    /// Adds the edges of the candidates that start at char `ci` of `chars`
    /// (at byte `byte_pos`), where some path ends: the dictionary words,
    /// then, where unknown words are allowed there, the unknown words of
    /// each category of the char.
    fn add_edges_from(
        &self,
        ends_at: &mut Vec<Vec<Edge>>,
        chars: &Vec<char>,
        ci: usize,
        byte_pos: usize,
        Ghost(byte_len): Ghost<int>,
    )
        requires
            self.wf(),
            byte_len == byte_offset(chars@, chars@.len() as int),
            byte_len <= max_text_bytes(),
            byte_len < usize::MAX,
            ci < chars@.len(),
            byte_pos == byte_offset(chars@, ci as int),
            self.lattice_ok(old(ends_at)@, chars@, byte_len),
            old(ends_at)@[byte_pos as int]@.len() > 0,
            self.joins_ok(
                lat_view(old(ends_at)@, chars@)[ci as int],
                self.cands_from(chars@, ci as int),
            ),
        ensures
            self.lattice_ok(final(ends_at)@, chars@, byte_len),
            grows(old(ends_at)@, final(ends_at)@),
            final(ends_at)@[byte_pos as int] == old(ends_at)@[byte_pos as int],
            forall|cc: Candidate|
                self.is_candidate(chars@, cc) && cc.start == ci ==> #[trigger] self.covered(
                    final(ends_at)@,
                    chars@,
                    cc,
                ),
            lat_view(final(ends_at)@, chars@) == self.add_all(
                lat_view(old(ends_at)@, chars@),
                self.cands_from(chars@, ci as int),
                lat_view(old(ends_at)@, chars@)[ci as int],
            ),
    {
        let n = chars.len();
        let c = chars[ci];
        let ghost at_start = ends_at@;
        let ghost bp = byte_pos as int;
        let ghost l0 = lat_view(at_start, chars@);
        let ghost from = l0[ci as int];
        let ghost uc = if self.unknown_allowed(chars@, ci as int) {
            self.unknown_cands(chars@, ci as int, self.spec_char_categories(chars@[ci as int]))
        } else {
            Seq::<Candidate>::empty()
        };
        proof {
            reveal(Dictionary::cands_from);
            self.lemma_joins_split(from, self.word_cands(chars@, ci as int, n as int), uc);
            assert(from == cell_view(at_start[bp]));
        }
        proof {
            self.lemma_lattice_shape(ends_at@, chars@, byte_len);
            lemma_byte_offset_step(chars@, ci as int);
            lemma_byte_offset_monotone(chars@, ci as int + 1, n as int);
            lemma_byte_offset_monotone(chars@, ci as int, n as int);
            lemma_grows_refl(at_start);
        }
        // Dictionary words starting here.
        let dict_entries = self.prefix_entries(chars, ci, byte_pos);
        let has_dict_match = dict_entries.len() > 0;
        let mut w: usize = 0;
        proof {
            assert(triple_cands(ci as int, dict_entries@.take(0)) =~= Seq::<Candidate>::empty());
            self.lemma_add_all_empty(l0, from);
        }
        while w < dict_entries.len()
            invariant
                self.wf(),
                n == chars@.len(),
                byte_len == byte_offset(chars@, n as int),
                byte_len <= max_text_bytes(),
                byte_len < usize::MAX,
                ci < n,
                byte_pos == byte_offset(chars@, ci as int),
                bp == byte_pos,
                self.lattice_ok(ends_at@, chars@, byte_len as int),
                w <= dict_entries@.len(),
                grows(at_start, ends_at@),
                ends_at@[bp] == at_start[bp],
                at_start[bp]@.len() > 0,
                l0 == lat_view(at_start, chars@),
                from == l0[ci as int],
                from == cell_view(at_start[bp]),
                self.joins_ok(from, triple_cands(ci as int, dict_entries@)),
                lat_view(ends_at@, chars@) == self.add_all(
                    l0,
                    triple_cands(ci as int, dict_entries@.take(w as int)),
                    from,
                ),
                forall|k: int|
                    0 <= k < dict_entries@.len() ==> {
                        let (j, b, e) = #[trigger] dict_entries@[k];
                        &&& ci < j <= chars@.len()
                        &&& b == byte_offset(chars@, j as int)
                        &&& self.has_word(chars@.subrange(ci as int, j as int), e)
                    },
                forall|v: int|
                    0 <= v < w ==> self.covered(
                        ends_at@,
                        chars@,
                        Candidate {
                            start: ci as int,
                            end: (#[trigger] dict_entries@[v]).0 as int,
                            left_id: dict_entries@[v].2.left_id,
                            right_id: dict_entries@[v].2.right_id,
                            word_cost: dict_entries@[v].2.word_cost,
                        },
                    ),
            decreases dict_entries@.len() - w,
        {
            let (j, edge_end, entry) = dict_entries[w];
            let ghost before = ends_at@;
            proof {
                assert(dict_entries@[w as int] == (j, edge_end, entry));
                self.lemma_lattice_shape(ends_at@, chars@, byte_len as int);
                lemma_byte_offset_strictly_increasing(chars@, ci as int, j as int);
                lemma_byte_offset_monotone(chars@, j as int, n as int);
                assert(self.has_word(chars@.subrange(ci as int, j as int), entry));
                self.lemma_word_is_candidate(chars@, ci as int, j as int, entry);
                assert(triple_cands(ci as int, dict_entries@)[w as int].left_id == entry.left_id);
                assert forall|k: int| 0 <= k < ends_at@[bp]@.len() implies self.lookup_ok(
                    (#[trigger] ends_at@[bp]@[k]).right_id as int,
                    entry.left_id as int,
                ) by {
                    assert(from[k] == node_of(at_start[bp]@[k]));
                    assert(self.lookup_ok(
                        from[k].cand.right_id as int,
                        triple_cands(ci as int, dict_entries@)[w as int].left_id as int,
                    ));
                }
                assert(self.is_candidate(
                    chars@,
                    Candidate {
                        start: ci as int,
                        end: j as int,
                        left_id: entry.left_id,
                        right_id: entry.right_id,
                        word_cost: entry.word_cost,
                    },
                ));
            }
            self.add_edge(
                ends_at,
                byte_pos,
                edge_end,
                entry.left_id,
                entry.right_id,
                entry.word_cost,
                Ghost(chars@),
                Ghost(byte_len as int),
                Ghost(ci as int),
                Ghost(j as int),
            );
            proof {
                self.lemma_lattice_shape(ends_at@, chars@, byte_len as int);
                lemma_grows_trans(at_start, before, ends_at@);
                assert(ends_at@[bp] == before[bp]);
                assert(lat_view(before, chars@)[ci as int] == cell_view(before[bp]));
                let tcs = triple_cands(ci as int, dict_entries@);
                assert(tcs[w as int] == Candidate {
                    start: ci as int,
                    end: j as int,
                    left_id: entry.left_id,
                    right_id: entry.right_id,
                    word_cost: entry.word_cost,
                });
                assert(triple_cands(ci as int, dict_entries@.take(w as int + 1)) =~= triple_cands(
                    ci as int,
                    dict_entries@.take(w as int),
                ).push(tcs[w as int]));
                self.lemma_add_all_push(
                    l0,
                    triple_cands(ci as int, dict_entries@.take(w as int)),
                    tcs[w as int],
                    from,
                );
                assert forall|v: int| 0 <= v < w + 1 implies self.covered(
                    ends_at@,
                    chars@,
                    Candidate {
                        start: ci as int,
                        end: (#[trigger] dict_entries@[v]).0 as int,
                        left_id: dict_entries@[v].2.left_id,
                        right_id: dict_entries@[v].2.right_id,
                        word_cost: dict_entries@[v].2.word_cost,
                    },
                ) by {
                    if v < w {
                        let (jv, bv, ev) = dict_entries@[v];
                        lemma_byte_offset_monotone(chars@, jv as int, n as int);
                        self.lemma_covered_persists(
                            before,
                            ends_at@,
                            chars@,
                            Candidate {
                                start: ci as int,
                                end: jv as int,
                                left_id: ev.left_id,
                                right_id: ev.right_id,
                                word_cost: ev.word_cost,
                            },
                        );
                    }
                }
            }
            w = w + 1;
        }
        let ghost after_dict = ends_at@;
        let ghost wc = self.word_cands(chars@, ci as int, n as int);
        proof {
            assert(dict_entries@.take(w as int) =~= dict_entries@);
            assert(lat_view(after_dict, chars@) == self.add_all(l0, wc, from));
        }
        proof {
            // the dictionary words that start here are all covered
            assert forall|j: int, e: DictEntry|
                ci < j <= chars@.len() && #[trigger] self.has_word(chars@.subrange(ci as int, j), e)
                    implies self.covered(
                    after_dict,
                    chars@,
                    Candidate {
                        start: ci as int,
                        end: j,
                        left_id: e.left_id,
                        right_id: e.right_id,
                        word_cost: e.word_cost,
                    },
                ) by {
                let k = choose|k: int|
                    0 <= k < dict_entries@.len() && #[trigger] dict_entries@[k] == (
                        j as usize,
                        byte_offset(chars@, j) as usize,
                        e,
                    );
                assert(dict_entries@[k].0 as int == j);
            }
            if has_dict_match {
                let (j0, b0, e0) = dict_entries@[0];
                assert(self.has_word(chars@.subrange(ci as int, j0 as int), e0));
                assert(self.has_word_at(chars@, ci as int));
            } else {
                assert(!self.has_word_at(chars@, ci as int)) by {
                    if self.has_word_at(chars@, ci as int) {
                        let (j, e) = choose|j: int, e: DictEntry|
                            ci < j <= chars@.len() && #[trigger] self.has_word(
                                chars@.subrange(ci as int, j),
                                e,
                            );
                        let k = choose|k: int|
                            0 <= k < dict_entries@.len() && #[trigger] dict_entries@[k] == (
                                j as usize,
                                byte_offset(chars@, j) as usize,
                                e,
                            );
                    }
                }
            }
        }
        // Unknown words starting here.
        let categories = self.char_categories(c);
        let primary_cat = categories[0];
        let cat_def = self.category_defs[primary_cat.index()];
        proof {
            assert(cat_def == self.spec_category_def(self.primary(chars@[ci as int])));
        }
        if cat_def.invoke || !has_dict_match {
            let mut k: usize = 0;
            proof {
                assert(categories@.take(0) =~= Seq::<CharCategory>::empty());
                assert(wc + self.unknown_cands(chars@, ci as int, categories@.take(0)) =~= wc);
            }
            while k < categories.len()
                invariant
                    self.wf(),
                    n == chars@.len(),
                    byte_len == byte_offset(chars@, n as int),
                    byte_len <= max_text_bytes(),
                    byte_len < usize::MAX,
                    ci < n,
                    c == chars@[ci as int],
                    byte_pos == byte_offset(chars@, ci as int),
                    bp == byte_pos,
                    self.lattice_ok(ends_at@, chars@, byte_len as int),
                    self.unknown_allowed(chars@, ci as int),
                    categories@ == self.spec_char_categories(c),
                    k <= categories@.len(),
                    grows(after_dict, ends_at@),
                    ends_at@[bp] == after_dict[bp],
                    after_dict[bp] == at_start[bp],
                    at_start[bp]@.len() > 0,
                    l0 == lat_view(at_start, chars@),
                    from == l0[ci as int],
                    from == cell_view(at_start[bp]),
                    self.joins_ok(from, uc),
                    uc == self.unknown_cands(chars@, ci as int, categories@),
                    wc == self.word_cands(chars@, ci as int, n as int),
                    lat_view(ends_at@, chars@) == self.add_all(
                        l0,
                        wc + self.unknown_cands(chars@, ci as int, categories@.take(k as int)),
                        from,
                    ),
                    forall|m: int, j: int, u: int|
                        0 <= m < k && self.unknown_span(chars@, ci as int, j, categories@[m])
                            && 0 <= u < self.spec_unknown_entries(categories@[m]).len()
                            ==> #[trigger] self.covered(
                            ends_at@,
                            chars@,
                            Candidate {
                                start: ci as int,
                                end: j,
                                left_id: self.spec_unknown_entries(categories@[m])[u].left_id,
                                right_id: self.spec_unknown_entries(categories@[m])[u].right_id,
                                word_cost: self.spec_unknown_entries(categories@[m])[u].word_cost,
                            },
                        ),
                decreases categories@.len() - k,
            {
                let ghost before = ends_at@;
                proof {
                    assert(self.spec_char_categories(chars@[ci as int]).contains(categories@[k as int]));
                    self.lemma_joins_categories(from, chars@, ci as int, categories@, k as int);
                    self.lemma_lattice_shape(ends_at@, chars@, byte_len);
                    assert(lat_view(ends_at@, chars@)[ci as int] == cell_view(ends_at@[bp]));
                }
                self.add_unknown_words_of(
                    ends_at,
                    chars,
                    ci,
                    byte_pos,
                    categories[k],
                    Ghost(byte_len as int),
                );
                proof {
                    self.lemma_lattice_shape(before, chars@, byte_len as int);
                    lemma_byte_offset_monotone(chars@, ci as int, n as int);
                    lemma_grows_trans(after_dict, before, ends_at@);
                    assert(lat_view(before, chars@)[ci as int] == cell_view(before[bp]));
                    let prev = wc + self.unknown_cands(chars@, ci as int, categories@.take(k as int));
                    let more = self.unknown_cands_of(chars@, ci as int, categories@[k as int]);
                    self.lemma_add_all_concat(l0, prev, more, from);
                    assert(categories@.take(k as int + 1).drop_last() =~= categories@.take(k as int));
                    assert(prev + more =~= wc + self.unknown_cands(
                        chars@,
                        ci as int,
                        categories@.take(k as int + 1),
                    ));
                    assert forall|m: int, j: int, u: int|
                        0 <= m < k + 1 && self.unknown_span(chars@, ci as int, j, categories@[m])
                            && 0 <= u < self.spec_unknown_entries(categories@[m]).len()
                            implies #[trigger] self.covered(
                            ends_at@,
                            chars@,
                            Candidate {
                                start: ci as int,
                                end: j,
                                left_id: self.spec_unknown_entries(categories@[m])[u].left_id,
                                right_id: self.spec_unknown_entries(categories@[m])[u].right_id,
                                word_cost: self.spec_unknown_entries(categories@[m])[u].word_cost,
                            },
                        ) by {
                        if m < k {
                            let cat = categories@[m];
                            assert(self.unknown_span(chars@, ci as int, j, cat));
                            assert(ci < j <= n) by {
                                self.lemma_unknown_span_range(chars@, ci as int, j, cat);
                            }
                            lemma_byte_offset_monotone(chars@, j, n as int);
                            self.lemma_covered_persists(
                                before,
                                ends_at@,
                                chars@,
                                Candidate {
                                    start: ci as int,
                                    end: j,
                                    left_id: self.spec_unknown_entries(cat)[u].left_id,
                                    right_id: self.spec_unknown_entries(cat)[u].right_id,
                                    word_cost: self.spec_unknown_entries(cat)[u].word_cost,
                                },
                            );
                        }
                    }
                }
                k = k + 1;
            }
            proof {
                // every unknown word from here is covered
                assert forall|cc: Candidate|
                    self.is_candidate(chars@, cc) && cc.start == ci && !(exists|e: DictEntry|
                        #[trigger] self.has_word(chars@.subrange(cc.start, cc.end), e) && e.left_id
                            == cc.left_id && e.right_id == cc.right_id && e.word_cost == cc.word_cost)
                        implies self.covered(ends_at@, chars@, cc) by {
                    let (cat, u) = choose|cat: CharCategory, u: int|
                        #![trigger self.spec_unknown_entries(cat)[u]]
                        self.spec_char_categories(chars@[cc.start]).contains(cat) && 0 <= u
                            < self.spec_unknown_entries(cat).len() && self.unknown_span(
                            chars@,
                            cc.start,
                            cc.end,
                            cat,
                        ) && self.spec_unknown_entries(cat)[u].left_id == cc.left_id
                            && self.spec_unknown_entries(cat)[u].right_id == cc.right_id
                            && self.spec_unknown_entries(cat)[u].word_cost == cc.word_cost;
                    let m = choose|m: int| 0 <= m < categories@.len() && categories@[m] == cat;
                    assert(categories@[m] == cat);
                    let c2 = Candidate {
                        start: ci as int,
                        end: cc.end,
                        left_id: self.spec_unknown_entries(categories@[m])[u].left_id,
                        right_id: self.spec_unknown_entries(categories@[m])[u].right_id,
                        word_cost: self.spec_unknown_entries(categories@[m])[u].word_cost,
                    };
                    assert(c2 == cc);
                    assert(self.covered(ends_at@, chars@, c2));
                }
            }
        }
        proof {
            let fin = ends_at@;
            if cat_def.invoke || !has_dict_match {
                assert(categories@.take(categories@.len() as int) =~= categories@);
                assert(self.unknown_allowed(chars@, ci as int));
            } else {
                assert(!self.unknown_allowed(chars@, ci as int));
                assert(wc + Seq::<Candidate>::empty() =~= wc);
            }
            assert(lat_view(fin, chars@) == self.add_all(l0, self.cands_from(chars@, ci as int), from))
                by {
                reveal(Dictionary::cands_from);
            }
            assert forall|cc: Candidate| self.is_candidate(chars@, cc) && cc.start == ci implies #[trigger] self.covered(
                fin,
                chars@,
                cc,
            ) by {
                if exists|e: DictEntry|
                    #[trigger] self.has_word(chars@.subrange(cc.start, cc.end), e) && e.left_id
                        == cc.left_id && e.right_id == cc.right_id && e.word_cost == cc.word_cost {
                    let e = choose|e: DictEntry|
                        #[trigger] self.has_word(chars@.subrange(cc.start, cc.end), e) && e.left_id
                            == cc.left_id && e.right_id == cc.right_id && e.word_cost == cc.word_cost;
                    assert(self.covered(
                        after_dict,
                        chars@,
                        Candidate {
                            start: ci as int,
                            end: cc.end,
                            left_id: e.left_id,
                            right_id: e.right_id,
                            word_cost: e.word_cost,
                        },
                    ));
                    lemma_byte_offset_monotone(chars@, cc.end, n as int);
                    self.lemma_covered_persists(after_dict, fin, chars@, cc);
                } else {
                    assert(cat_def.invoke || !has_dict_match);
                }
            }
        }
    }
}

impl Dictionary {
    /// Following the predecessor links of the lattice from edge `k` at the
    /// offset of char `cq` walks the same candidates as following those of
    /// its view by char boundary.
    proof fn lemma_backtrack_nodes(
        &self,
        ends_at: Seq<Vec<Edge>>,
        chars: Seq<char>,
        byte_len: int,
        cq: int,
        k: int,
    )
        requires
            self.lattice_ok(ends_at, chars, byte_len),
            byte_len == byte_offset(chars, chars.len() as int),
            0 <= cq <= chars.len(),
        ensures
            backtrack(ends_at, byte_offset(chars, cq) as int, k) == node_path(
                lat_view(ends_at, chars),
                cq,
                k,
            ),
        decreases cq,
    {
        reveal(Dictionary::lattice_ok);
        let q = byte_offset(chars, cq) as int;
        let cells = lat_view(ends_at, chars);
        lemma_byte_offset_zero(chars);
        lemma_byte_offset_monotone(chars, cq, chars.len() as int);
        if cq > 0 {
            lemma_byte_offset_strictly_increasing(chars, 0, cq);
            assert(cells[cq] == cell_view(ends_at[q]));
            if 0 <= k < ends_at[q]@.len() {
                let e = ends_at[q]@[k];
                if e.end_char@ < cq {
                    lemma_byte_offset_strictly_increasing(chars, e.end_char@, cq);
                } else if e.end_char@ > cq {
                    lemma_byte_offset_strictly_increasing(chars, cq, e.end_char@);
                }
                assert(cells[cq][k] == node_of(e));
                self.lemma_backtrack_nodes(ends_at, chars, byte_len, e.start_char@, e.left_edge_idx as int);
            }
        }
    }
}

impl Dictionary {
    /// The lattice over `chars` (`byte_len` bytes long): for each byte
    /// offset, the edges of the candidates that end there and that some
    /// path reaches, each behind its first cheapest predecessor.
    fn build_lattice(&self, chars: &Vec<char>, byte_len: usize) -> (ends_at: Vec<Vec<Edge>>)
        requires
            self.wf(),
            chars@.len() > 0,
            byte_len == byte_offset(chars@, chars@.len() as int),
            byte_len <= max_text_bytes(),
            byte_len < usize::MAX,
            self.lookups_ok(chars@),
        ensures
            self.lattice_ok(ends_at@, chars@, byte_len as int),
            self.complete_below(ends_at@, chars@, chars@.len() as int),
            lat_view(ends_at@, chars@) == self.cells_after(chars@, chars@.len() as int),
    {
        let n = chars.len();
        proof {
            lemma_byte_offset_zero(chars@);
        }
    let mut ends_at: Vec<Vec<Edge>> = Vec::new();
    let mut q: usize = 0;
    while q <= byte_len
        invariant
            q <= byte_len + 1,
            ends_at@.len() == q,
            byte_len <= max_text_bytes(),
            byte_len < usize::MAX,
            forall|p: int| 0 <= p < q ==> (#[trigger] ends_at@[p])@.len() == 0,
        decreases byte_len + 1 - q,
    {
        ends_at.push(Vec::new());
        q = q + 1;
    }
    let bos_edge = Edge {
        byte_start: 0,
        byte_end: 0,
        left_id: 0,
        right_id: 0,
        word_cost: 0,
        path_cost: 0,
        left_edge_idx: 0,
        is_bos: true,
        start_char: Ghost(0),
        end_char: Ghost(0),
    };
    ends_at[0].push(bos_edge);
    proof {
        assert(ends_at@[0]@ =~= seq![bos()]);
        reveal(Dictionary::lattice_ok);
        assert(self.lattice_ok(ends_at@, chars@, byte_len as int));
        assert(self.complete_below(ends_at@, chars@, 0));
        assert forall|q: int| 0 <= q <= n implies #[trigger] lat_view(ends_at@, chars@)[q]
            == self.cells_after(chars@, 0)[q] by {
            if q > 0 {
                lemma_byte_offset_strictly_increasing(chars@, 0, q);
                lemma_byte_offset_monotone(chars@, q, n as int);
            } else {
                assert(cell_view(ends_at@[0]) =~= seq![start_node()]);
            }
        }
        assert(lat_view(ends_at@, chars@) =~= self.cells_after(chars@, 0));
    }
    let mut byte_pos: usize = 0;
    let mut ci: usize = 0;
    while ci < n
        invariant
            self.wf(),
            n == chars@.len(),
            byte_len == byte_offset(chars@, n as int),
            byte_len <= max_text_bytes(),
            byte_len < usize::MAX,
            ci <= n,
            byte_pos == byte_offset(chars@, ci as int),
            self.lattice_ok(ends_at@, chars@, byte_len as int),
            self.complete_below(ends_at@, chars@, ci as int),
            lat_view(ends_at@, chars@) == self.cells_after(chars@, ci as int),
            self.lookups_ok(chars@),
        decreases n - ci,
    {
        let c = chars[ci];
        let ghost at_start = ends_at@;
        let ghost bp = byte_pos as int;
        proof {
            self.lemma_lattice_shape(ends_at@, chars@, byte_len as int);
            lemma_byte_offset_step(chars@, ci as int);
            lemma_byte_offset_monotone(chars@, ci as int + 1, n as int);
            lemma_byte_offset_monotone(chars@, ci as int, n as int);
            lemma_grows_refl(at_start);
        }
        proof {
            assert(lat_view(at_start, chars@)[ci as int] == cell_view(at_start[bp]));
        }
        proof {
            assert(self.joins_ok(self.cells_after(chars@, ci as int)[ci as int], self.cands_from(chars@, ci as int)));
        }
        if ends_at[byte_pos].len() > 0 {
            self.add_edges_from(&mut ends_at, chars, ci, byte_pos, Ghost(byte_len as int));
            proof {
                reveal(Dictionary::lattice_ok);
                self.lemma_extend_complete(at_start, ends_at@, chars@, byte_len as int, ci as int);
            }
        } else {
            proof {
                assert(self.cells_after(chars@, ci as int + 1) == self.cells_after(chars@, ci as int));
                reveal(Dictionary::lattice_ok);
                self.lemma_extend_complete(at_start, ends_at@, chars@, byte_len as int, ci as int);
            }
        }
        byte_pos = byte_pos + char_len_utf8(c);
        ci = ci + 1;
    }
        ends_at
    }

    /// The first of the edges that end the text (at `byte_len`) through
    /// which the path to the end of the text is cheapest.
    fn best_end(&self, ends_at: &Vec<Vec<Edge>>, Ghost(chars): Ghost<Seq<char>>, byte_len: usize) -> (r: usize)
        requires
            self.wf(),
            self.lattice_ok(ends_at@, chars, byte_len as int),
            byte_len <= max_text_bytes(),
            byte_len > 0,
            ends_at@[byte_len as int]@.len() > 0,
            forall|k: int|
                0 <= k < ends_at@[byte_len as int]@.len() ==> self.lookup_ok(
                    (#[trigger] ends_at@[byte_len as int]@[k]).right_id as int,
                    0,
                ),
        ensures
            r < ends_at@[byte_len as int]@.len(),
            r == first_min(self.end_costs(cell_view(ends_at@[byte_len as int]))),
            forall|j: int|
                0 <= j < ends_at@[byte_len as int]@.len() ==> ends_at@[byte_len as int]@[r as int].path_cost
                    + self.spec_connection_cost(ends_at@[byte_len as int]@[r as int].right_id as int, 0)
                    <= (#[trigger] ends_at@[byte_len as int]@[j]).path_cost + self.spec_connection_cost(
                    ends_at@[byte_len as int]@[j].right_id as int,
                    0,
                ),
    {
        let mut best_cost: i64 = i64::MAX;
        let mut best_idx: usize = 0;
        proof {
            self.lemma_lattice_shape(ends_at@, chars, byte_len as int);
        }
        let last = ends_at[byte_len].len();
        let mut idx: usize = 0;
        let ghost ets = self.end_costs(cell_view(ends_at@[byte_len as int]));
        while idx < last
            invariant
                self.wf(),
                self.lattice_ok(ends_at@, chars, byte_len as int),
                ends_at@.len() == byte_len + 1,
                byte_len <= max_text_bytes(),
                byte_len > 0,
                last == ends_at@[byte_len as int]@.len(),
                idx <= last,
                best_idx < last,
                forall|k: int|
                    0 <= k < ends_at@[byte_len as int]@.len() ==> self.lookup_ok(
                        (#[trigger] ends_at@[byte_len as int]@[k]).right_id as int,
                        0,
                    ),
                ets == self.end_costs(cell_view(ends_at@[byte_len as int])),
                ets.len() == last,
                idx > 0 ==> best_idx == first_min(ets.take(idx as int)),
                idx > 0 ==> best_cost == ends_at@[byte_len as int]@[best_idx as int].path_cost
                    + self.spec_connection_cost(
                    ends_at@[byte_len as int]@[best_idx as int].right_id as int,
                    0,
                ),
                forall|j: int|
                    0 <= j < idx ==> best_cost <= (#[trigger] ends_at@[byte_len as int]@[j]).path_cost
                        + self.spec_connection_cost(ends_at@[byte_len as int]@[j].right_id as int, 0),
            decreases last - idx,
        {
            proof {
                self.lemma_edge_facts(ends_at@, chars, byte_len as int, byte_len as int, idx as int);
                lemma_first_min_step(ets, idx as int);
            }
            let edge = &ends_at[byte_len][idx];
            let conn = self.connection_cost(edge.right_id, 0) as i64;
            let total = edge.path_cost + conn;
            proof {
                assert(ets[idx as int] == total);
            }
            if total < best_cost || idx == 0 {
                best_cost = total;
                best_idx = idx;
            }
            idx = idx + 1;
        }
        proof {
            assert(ets.take(last as int) =~= ets);
        }
        best_idx
    }

    /// The boundaries of the path that the predecessor links lead back
    /// along from edge `best_idx` at the end of the text (`byte_len`).
    fn follow_back(
        &self,
        ends_at: &Vec<Vec<Edge>>,
        Ghost(chars): Ghost<Seq<char>>,
        byte_len: usize,
        best_idx: usize,
    ) -> (boundaries: Vec<usize>)
        requires
            self.lattice_ok(ends_at@, chars, byte_len as int),
            byte_len > 0,
            best_idx < ends_at@[byte_len as int]@.len(),
        ensures
            boundaries@ == path_bounds(chars, backtrack(ends_at@, byte_len as int, best_idx as int)),
    {
        let ghost g_end = ends_at@;
        let ghost best = backtrack(g_end, byte_len as int, best_idx as int);
        proof {
            self.lemma_lattice_shape(ends_at@, chars, byte_len as int);
        }
    // Follow the predecessors back to the start.
    let mut starts: Vec<usize> = Vec::new();
    let mut pos: usize = byte_len;
    let mut idx: usize = best_idx;
    let mut at_start = false;
    let ghost mut tail: Seq<usize> = Seq::empty();
    proof {
        assert(path_bounds(chars, best) =~= path_bounds(chars, backtrack(g_end, pos as int, idx as int)) + tail);
    }
    while !at_start
        invariant
            ends_at@ == g_end,
            self.lattice_ok(ends_at@, chars, byte_len as int),
            ends_at@.len() == byte_len + 1,
            byte_len > 0,
            pos <= byte_len,
            idx < ends_at@[pos as int]@.len(),
            at_start ==> pos == 0,
            starts@.len() == 0 ==> pos == byte_len,
            starts@.len() > 0 ==> starts@.last() == pos,
            path_bounds(chars, best) == path_bounds(chars, backtrack(g_end, pos as int, idx as int))
                + tail,
            tail.len() == starts@.len(),
            forall|t: int|
                0 <= t < tail.len() ==> #[trigger] tail[t] == if t < starts@.len() - 1 {
                    starts@[starts@.len() - 2 - t]
                } else {
                    byte_len
                },
        decreases pos + (if at_start { 0int } else { 1int }),
    {
        proof {
            self.lemma_edge_facts(ends_at@, chars, byte_len as int, pos as int, idx as int);
        }
        let edge = ends_at[pos][idx];
        if edge.is_bos {
            proof {
                if pos > 0 {
                    assert(ends_at@[pos as int]@[idx as int] == edge);
                }
            }
            at_start = true;
        } else {
            proof {
                if pos == 0 {
                    assert(edge == bos());
                }
                assert(ends_at@[pos as int]@[idx as int] == edge);
                let pp = backtrack(g_end, edge.byte_start as int, edge.left_edge_idx as int);
                assert(backtrack(g_end, pos as int, idx as int) == pp.push(cand(edge)));
                assert(byte_offset(chars, cand(edge).end) == pos);
                assert(path_bounds(chars, pp.push(cand(edge))).len() == path_bounds(chars, pp).len() + 1);
                assert forall|i: int| 0 <= i < path_bounds(chars, pp.push(cand(edge))).len() implies #[trigger] path_bounds(
                    chars,
                    pp.push(cand(edge)),
                )[i] == path_bounds(chars, pp).push(pos as usize)[i] by {
                    if i > 0 && i < path_bounds(chars, pp).len() {
                        assert(pp.push(cand(edge))[i - 1] == pp[i - 1]);
                    }
                }
                assert(path_bounds(chars, pp.push(cand(edge))) =~= path_bounds(chars, pp).push(
                    pos as usize,
                ));
                let new_tail = seq![pos as usize] + tail;
                assert(path_bounds(chars, best) =~= path_bounds(chars, pp) + new_tail);
                tail = new_tail;
            }
            starts.push(edge.byte_start);
            idx = edge.left_edge_idx;
            pos = edge.byte_start;
        }
    }
    // Reverse into increasing order and close with the end of the text.
    let mut boundaries: Vec<usize> = Vec::new();
    let mut k: usize = starts.len();
    while k > 0
        invariant
            k <= starts@.len(),
            boundaries@.len() == starts@.len() - k,
            forall|m: int|
                0 <= m < boundaries@.len() ==> #[trigger] boundaries@[m] == starts@[starts@.len()
                    - 1 - m],
        decreases k,
    {
        k = k - 1;
        boundaries.push(starts[k]);
    }
    boundaries.push(byte_len);
        proof {
            assert(backtrack(g_end, 0, idx as int) =~= Seq::<Candidate>::empty());
            assert(path_bounds(chars, Seq::<Candidate>::empty()) =~= seq![0usize]);
            assert(starts@.len() > 0);
            assert(boundaries@ =~= path_bounds(chars, best));
        }
        boundaries
    }
}

impl Dictionary {
    /// Whether the matrix has at least one row and column and every word
    /// and template has ids within it.
    pub closed spec fn spec_ids_fit(&self) -> bool {
        &&& self.forward_size >= 1
        &&& self.backward_size >= 1
        &&& forall|k: Seq<char>, i: int|
            #![trigger self.entries@[k]@[i]]
            self.entries@.contains_key(k) && 0 <= i < self.entries@[k]@.len() ==> self.fits(
                self.entries@[k]@[i].left_id,
                self.entries@[k]@[i].right_id,
            )
        &&& forall|c: CharCategory, i: int|
            #![trigger self.spec_unknown_entries(c)[i]]
            0 <= i < self.spec_unknown_entries(c).len() ==> self.fits(
                self.spec_unknown_entries(c)[i].left_id,
                self.spec_unknown_entries(c)[i].right_id,
            )
    }

    /// Whether the matrix has at least one row and column and every word
    /// and template has ids within it.
    #[verifier::when_used_as_spec(spec_ids_fit)]
    pub fn ids_fit(&self) -> (r: bool)
        requires
            self.wf(),
        ensures
            r == self.spec_ids_fit(),
    {
        if self.forward_size == 0 || self.backward_size == 0 {
            return false;
        }
        let ghost m = entries_model(self.entries@);
        proof {
            assert forall|k: Seq<char>, i: int|
                #![trigger self.entries@[k]@[i]]
                self.entries@.contains_key(k) && 0 <= i < self.entries@[k]@.len() implies
                m.contains_key(k) && m[k][i] == self.entries@[k]@[i] by {}
        }
        if self.max_left_id as usize >= self.backward_size {
            proof {
                let (k0, i0) = choose|k: Seq<char>, i: int|
                    #![trigger m[k][i]]
                    m.contains_key(k) && 0 <= i < m[k].len() && m[k][i].left_id == self.max_left_id;
                assert(self.entries@.contains_key(k0) && self.entries@[k0]@[i0] == m[k0][i0]);
            }
            return false;
        }
        if self.max_right_id as usize >= self.forward_size {
            proof {
                let (k0, i0) = choose|k: Seq<char>, i: int|
                    #![trigger m[k][i]]
                    m.contains_key(k) && 0 <= i < m[k].len() && m[k][i].right_id == self.max_right_id;
                assert(self.entries@.contains_key(k0) && self.entries@[k0]@[i0] == m[k0][i0]);
            }
            return false;
        }
        proof {
            assert forall|k: Seq<char>, i: int|
                #![trigger self.entries@[k]@[i]]
                self.entries@.contains_key(k) && 0 <= i < self.entries@[k]@.len() implies self.fits(
                    self.entries@[k]@[i].left_id,
                    self.entries@[k]@[i].right_id,
                ) by {
                assert(m[k][i] == self.entries@[k]@[i]);
            }
        }
        let mut c: usize = 0;
        while c < NUM_CATEGORIES
            invariant
                self.wf(),
                self.forward_size >= 1,
                self.backward_size >= 1,
                c <= NUM_CATEGORIES,
                forall|d: int, i: int|
                    0 <= d < c && 0 <= i < self.unknown_entries@[d]@.len() ==> self.fits(
                        #[trigger] self.unknown_entries@[d]@[i].left_id,
                        self.unknown_entries@[d]@[i].right_id,
                    ),
            decreases NUM_CATEGORIES - c,
        {
            let row = &self.unknown_entries[c];
            let mut i: usize = 0;
            while i < row.len()
                invariant
                    c < NUM_CATEGORIES,
                    self.unknown_entries@.len() == NUM_CATEGORIES,
                    *row == self.unknown_entries@[c as int],
                    i <= row@.len(),
                    forall|j: int|
                        0 <= j < i ==> self.fits(
                            #[trigger] row@[j].left_id,
                            row@[j].right_id,
                        ),
                decreases row@.len() - i,
            {
                let t = &row[i];
                if t.left_id as usize >= self.backward_size || t.right_id as usize
                    >= self.forward_size {
                    proof {
                        let cat = category_at(c as int);
                        assert(self.spec_unknown_entries(cat)[i as int] == row@[i as int]);
                    }
                    return false;
                }
                i = i + 1;
            }
            c = c + 1;
        }
        proof {
            assert forall|cat: CharCategory, i: int|
                #![trigger self.spec_unknown_entries(cat)[i]]
                0 <= i < self.spec_unknown_entries(cat).len() implies self.fits(
                    self.spec_unknown_entries(cat)[i].left_id,
                    self.spec_unknown_entries(cat)[i].right_id,
                ) by {
                assert(self.unknown_entries@[cat.spec_index()]@[i] == self.spec_unknown_entries(cat)[i]);
            }
        }
        true
    }

    /// Whether a left id and a right id lie within the matrix.
    pub open spec fn fits(&self, left_id: u16, right_id: u16) -> bool {
        left_id < self.spec_backward_size() && right_id < self.spec_forward_size()
    }

    /// Whether every candidate of `s` has ids within the matrix.
    spec fn all_fit(&self, s: Seq<Candidate>) -> bool {
        forall|j: int| 0 <= j < s.len() ==> self.fits((#[trigger] s[j]).left_id, s[j].right_id)
    }

    proof fn lemma_all_fit_concat(&self, a: Seq<Candidate>, b: Seq<Candidate>)
        requires
            self.all_fit(a),
            self.all_fit(b),
        ensures
            self.all_fit(a + b),
    {
        assert forall|j: int| 0 <= j < (a + b).len() implies self.fits(
            (#[trigger] (a + b)[j]).left_id,
            (a + b)[j].right_id,
        ) by {
            if j < a.len() {
                assert((a + b)[j] == a[j]);
            } else {
                assert((a + b)[j] == b[j - a.len()]);
            }
        }
    }

    proof fn lemma_templates_fit(&self, cat: CharCategory, i: int, j: int)
        requires
            self.spec_ids_fit(),
        ensures
            self.all_fit(templates_over(self.spec_unknown_entries(cat), i, j)),
    {
        let t = self.spec_unknown_entries(cat);
        assert forall|x: int| 0 <= x < templates_over(t, i, j).len() implies self.fits(
            (#[trigger] templates_over(t, i, j)[x]).left_id,
            templates_over(t, i, j)[x].right_id,
        ) by {
            assert(templates_over(t, i, j)[x].left_id == t[x].left_id);
        }
    }

    proof fn lemma_word_cands_fit(&self, chars: Seq<char>, i: int, j: int)
        requires
            self.spec_ids_fit(),
        ensures
            self.all_fit(self.word_cands(chars, i, j)),
        decreases j - i,
    {
        if j > i {
            self.lemma_word_cands_fit(chars, i, j - 1);
            let key = chars.subrange(i, j);
            let w = if self.entries@.contains_key(key) {
                words_over(self.entries@[key]@, i, j)
            } else {
                Seq::<Candidate>::empty()
            };
            assert forall|x: int| 0 <= x < w.len() implies self.fits(
                (#[trigger] w[x]).left_id,
                w[x].right_id,
            ) by {
                assert(self.entries@[key]@[x].left_id == w[x].left_id);
            }
            self.lemma_all_fit_concat(self.word_cands(chars, i, j - 1), w);
        }
    }

    proof fn lemma_length_cands_fit(&self, i: int, m: int, cat: CharCategory)
        requires
            self.spec_ids_fit(),
        ensures
            self.all_fit(self.length_cands(i, m, cat)),
        decreases m,
    {
        if m > 0 {
            self.lemma_length_cands_fit(i, m - 1, cat);
            self.lemma_templates_fit(cat, i, i + m);
            self.lemma_all_fit_concat(
                self.length_cands(i, m - 1, cat),
                templates_over(self.spec_unknown_entries(cat), i, i + m),
            );
        }
    }

    proof fn lemma_unknown_cands_fit(&self, chars: Seq<char>, i: int, cats: Seq<CharCategory>)
        requires
            self.spec_ids_fit(),
        ensures
            self.all_fit(self.unknown_cands(chars, i, cats)),
        decreases cats.len(),
    {
        if cats.len() > 0 {
            self.lemma_unknown_cands_fit(chars, i, cats.drop_last());
            let cat = cats.last();
            let def = self.spec_category_def(cat);
            let t = self.spec_unknown_entries(cat);
            let re = self.run_end(chars, i + 1, cat);
            let m = if def.length < re - i {
                def.length as int
            } else {
                re - i
            };
            self.lemma_templates_fit(cat, i, re);
            self.lemma_templates_fit(cat, i, i + 1);
            self.lemma_length_cands_fit(i, m, cat);
            let g = if def.group {
                templates_over(t, i, re)
            } else {
                Seq::<Candidate>::empty()
            };
            let l = if def.length > 0 {
                self.length_cands(i, m, cat)
            } else {
                Seq::<Candidate>::empty()
            };
            let sg = if !def.group && def.length == 0 {
                templates_over(t, i, i + 1)
            } else {
                Seq::<Candidate>::empty()
            };
            self.lemma_all_fit_concat(g, l);
            self.lemma_all_fit_concat(g + l, sg);
            reveal(Dictionary::unknown_cands_of);
            assert(self.unknown_cands_of(chars, i, cat) == g + l + sg);
            self.lemma_all_fit_concat(self.unknown_cands(chars, i, cats.drop_last()), g + l + sg);
        }
    }

    proof fn lemma_cands_from_fit(&self, chars: Seq<char>, i: int)
        requires
            self.spec_ids_fit(),
        ensures
            self.all_fit(self.cands_from(chars, i)),
    {
        reveal(Dictionary::cands_from);
        self.lemma_word_cands_fit(chars, i, chars.len() as int);
        self.lemma_unknown_cands_fit(chars, i, self.spec_char_categories(chars[i]));
        let u = if self.unknown_allowed(chars, i) {
            self.unknown_cands(chars, i, self.spec_char_categories(chars[i]))
        } else {
            Seq::<Candidate>::empty()
        };
        self.lemma_all_fit_concat(self.word_cands(chars, i, chars.len() as int), u);
    }

    /// Whether every node of `cells` ends a candidate whose right id lies
    /// within the matrix.
    spec fn nodes_fit(&self, cells: Seq<Seq<Node>>) -> bool {
        forall|q: int, k: int|
            0 <= q < cells.len() && 0 <= k < cells[q].len() ==> (#[trigger] cells[q][k]).cand.right_id
                < self.spec_forward_size()
    }

    proof fn lemma_add_all_fit(&self, cells: Seq<Seq<Node>>, s: Seq<Candidate>, from: Seq<Node>)
        requires
            self.nodes_fit(cells),
            self.all_fit(s),
        ensures
            self.nodes_fit(self.add_all(cells, s, from)),
        decreases s.len(),
    {
        if s.len() > 0 {
            let init = s.drop_last();
            assert forall|j: int| 0 <= j < init.len() implies self.fits(
                (#[trigger] init[j]).left_id,
                init[j].right_id,
            ) by {
                assert(init[j] == s[j]);
            }
            self.lemma_add_all_fit(cells, init, from);
            let prev = self.add_all(cells, init, from);
            let c = s.last();
            assert(self.fits(s[s.len() - 1].left_id, s[s.len() - 1].right_id));
            if 0 <= c.end < prev.len() {
                let nxt = prev.update(c.end, prev[c.end].push(self.node_for(from, c)));
                assert forall|q: int, k: int|
                    0 <= q < nxt.len() && 0 <= k < nxt[q].len() implies (#[trigger] nxt[q][k]).cand.right_id
                    < self.spec_forward_size() by {
                    if q == c.end && k == prev[q].len() {
                        assert(nxt[q][k] == self.node_for(from, c));
                    } else {
                        assert(nxt[q][k] == prev[q][k]);
                    }
                }
            }
        }
    }

    proof fn lemma_cells_fit(&self, chars: Seq<char>, i: int)
        requires
            self.spec_ids_fit(),
        ensures
            self.nodes_fit(self.cells_after(chars, i)),
            self.cells_after(chars, i).len() == chars.len() + 1,
        decreases i,
    {
        if i <= 0 {
            let c0 = self.cells_after(chars, i);
            assert forall|q: int, k: int|
                0 <= q < c0.len() && 0 <= k < c0[q].len() implies (#[trigger] c0[q][k]).cand.right_id
                < self.spec_forward_size() by {
                assert(q == 0);
                assert(c0[q][k] == start_node());
            }
        } else {
            self.lemma_cells_fit(chars, i - 1);
            let prev = self.cells_after(chars, i - 1);
            if prev[i - 1].len() > 0 {
                self.lemma_cands_from_fit(chars, i - 1);
                self.lemma_add_all_fit(prev, self.cands_from(chars, i - 1), prev[i - 1]);
                self.lemma_add_all_len(prev, self.cands_from(chars, i - 1), prev[i - 1]);
            }
        }
    }

    /// A word with right id `r` followed by one with left id `l`, both
    /// within the matrix, has its cost in the matrix.
    proof fn lemma_fits_lookup(&self, r: int, l: int)
        requires
            0 <= r < self.spec_forward_size(),
            0 <= l < self.spec_backward_size(),
        ensures
            self.lookup_ok(r, l),
    {
        let f = self.spec_forward_size() as int;
        let b = self.spec_backward_size() as int;
        assert(r * b + l < f * b) by (nonlinear_arith)
            requires
                0 <= r < f,
                0 <= l < b,
        {
            assert(r * b + l < r * b + b);
            assert(r * b + b == (r + 1) * b);
            assert((r + 1) * b <= f * b);
        }
    }

    /// Where every id fits the matrix, every lookup the search makes over
    /// any text falls within it.
    pub proof fn lemma_ids_fit_lookups_ok(&self, chars: Seq<char>)
        requires
            self.spec_ids_fit(),
        ensures
            self.lookups_ok(chars),
    {
        assert forall|i: int| 0 <= i < chars.len() implies #[trigger] self.joins_ok(
            self.cells_after(chars, i)[i],
            self.cands_from(chars, i),
        ) by {
            self.lemma_cells_fit(chars, i);
            self.lemma_cands_from_fit(chars, i);
            let cell = self.cells_after(chars, i)[i];
            let s = self.cands_from(chars, i);
            assert forall|k: int, j: int| 0 <= k < cell.len() && 0 <= j < s.len() implies self.lookup_ok(
                (#[trigger] cell[k]).cand.right_id as int,
                (#[trigger] s[j]).left_id as int,
            ) by {
                assert(self.fits(s[j].left_id, s[j].right_id));
                self.lemma_fits_lookup(cell[k].cand.right_id as int, s[j].left_id as int);
            }
        }
        let n = chars.len() as int;
        self.lemma_cells_fit(chars, n);
        let last = self.cells_after(chars, n)[n];
        assert forall|k: int| 0 <= k < last.len() implies self.lookup_ok(
            (#[trigger] self.cells_after(chars, n)[n][k]).cand.right_id as int,
            0,
        ) by {
            self.lemma_fits_lookup(last[k].cand.right_id as int, 0);
        }
    }
}

/// Tokenizes `text` by the Viterbi search over the lattice of dictionary
/// words and unknown words: returns the byte offsets of the token boundaries
/// of the cheapest path, from 0 to the end of the text; where no path
/// reaches the end, the offsets at which the chars start. Among equally
/// cheap choices the search keeps the edge it added first (`viterbi`).
/// The text is at most `max_text_bytes()` (2^40) bytes long: a path costs at
/// most 2^16 per byte, so its cost then fits in an `i64`. Every connection
/// cost the search looks up must lie in the matrix (`lookups_ok`), as it
/// does wherever every id of the dictionary fits the matrix
/// (`lemma_ids_fit_lookups_ok`).
pub fn tokenize(text: &str, dict: &Dictionary) -> (r: Vec<usize>)
    requires
        dict.wf(),
        dict.lookups_ok(text@),
        text.spec_bytes().len() <= max_text_bytes(),
        text.spec_bytes().len() < usize::MAX,
    ensures
        r@ == dict.viterbi(text@),
        tokenize_result(dict, text@, r@),
        segmented_or_char_starts(text@, r@),
{
    let chars = chars_of(text);
    let n = chars.len();
    if n == 0 {
        return Vec::new();
    }
    let byte_len = crate::text::byte_len(text);
    proof {
        crate::text::lemma_byte_offset_end(text);
        lemma_byte_offset_zero(chars@);
    }
    let ends_at = dict.build_lattice(&chars, byte_len);
    proof {
        dict.lemma_lattice_shape(ends_at@, chars@, byte_len as int);
        assert(chars@.len() as int == n);
        assert(lat_view(ends_at@, chars@)[n as int] == cell_view(ends_at@[byte_len as int]));
    }
    if ends_at[byte_len].len() == 0 {
        proof {
            assert(!dict.has_full_path(chars@)) by {
                if dict.has_full_path(chars@) {
                    let p = choose|p: Seq<Candidate>| #[trigger] dict.is_path(chars@, p) && p.last().end == chars@.len();
                    assert(dict.is_candidate(chars@, p[p.len() - 1]));
                    assert(dict.reaches(ends_at@, chars@, p));
                }
            }
        }
        return char_start_offsets(&chars);
    }
    proof {
        assert forall|k: int| 0 <= k < ends_at@[byte_len as int]@.len() implies dict.lookup_ok(
            (#[trigger] ends_at@[byte_len as int]@[k]).right_id as int,
            0,
        ) by {
            assert(dict.cells_after(chars@, n as int)[n as int][k] == node_of(
                ends_at@[byte_len as int]@[k],
            ));
        }
    }
    let best_idx = dict.best_end(&ends_at, Ghost(chars@), byte_len);
    let ghost g_end = ends_at@;
    let ghost best = backtrack(g_end, byte_len as int, best_idx as int);
    proof {
        dict.lemma_backtrack(g_end, chars@, byte_len as int, byte_len as int, best_idx as int);
        let e = g_end[byte_len as int]@[best_idx as int];
        dict.lemma_edge_facts(g_end, chars@, byte_len as int, byte_len as int, best_idx as int);
        if e.end_char@ < n {
            lemma_byte_offset_strictly_increasing(chars@, e.end_char@, n as int);
        }
        assert(best.last().end == n);
        assert forall|p2: Seq<Candidate>|
            #[trigger] dict.is_path(chars@, p2) && p2.last().end == chars@.len() implies dict.total_cost(best)
                <= dict.total_cost(p2) by {
            assert(dict.is_candidate(chars@, p2[p2.len() - 1]));
            assert(dict.reaches(g_end, chars@, p2));
            let k2 = choose|k: int|
                0 <= k < g_end[byte_len as int]@.len() && cand(#[trigger] g_end[byte_len as int]@[k])
                    == p2.last() && g_end[byte_len as int]@[k].path_cost <= dict.path_cost(p2);
            assert(g_end[byte_len as int]@[best_idx as int].path_cost + dict.spec_connection_cost(
                g_end[byte_len as int]@[best_idx as int].right_id as int,
                0,
            ) <= g_end[byte_len as int]@[k2].path_cost + dict.spec_connection_cost(
                g_end[byte_len as int]@[k2].right_id as int,
                0,
            ));
        }
        assert(dict.is_best_path(chars@, best));
    }
    let boundaries = dict.follow_back(&ends_at, Ghost(chars@), byte_len, best_idx);
    proof {
        lemma_path_bounds_segmentation(dict, chars@, best);
        assert(byte_offset(chars@, n as int) <= usize::MAX);
        dict.lemma_backtrack_nodes(g_end, chars@, byte_len as int, n as int, best_idx as int);
        assert(boundaries@ == dict.viterbi(chars@));
    }
    boundaries
}

/// The byte offsets at which the chars of `chars` start.
fn char_start_offsets(chars: &Vec<char>) -> (r: Vec<usize>)
    requires
        byte_offset(chars@, chars@.len() as int) <= usize::MAX,
    ensures
        r@ == char_starts(chars@),
{
    let mut r: Vec<usize> = Vec::new();
    let mut pos: usize = 0;
    let mut i: usize = 0;
    while i < chars.len()
        invariant
            i <= chars@.len(),
            pos == byte_offset(chars@, i as int),
            byte_offset(chars@, chars@.len() as int) <= usize::MAX,
            r@.len() == i,
            forall|k: int| 0 <= k < i ==> #[trigger] r@[k] == byte_offset(chars@, k),
        decreases chars@.len() - i,
    {
        r.push(pos);
        proof {
            lemma_byte_offset_step(chars@, i as int);
            lemma_byte_offset_monotone(chars@, i as int + 1, chars@.len() as int);
        }
        pos = pos + char_len_utf8(chars[i]);
        i = i + 1;
    }
    proof {
        assert(r@ =~= char_starts(chars@));
    }
    r
}

/// The views of `strings`.
pub open spec fn string_views(strings: Seq<String>) -> Seq<Seq<char>> {
    strings.map_values(|s: String| s@)
}

/// Tokenizes `text` and returns the tokens' text: the pieces of `text`
/// between consecutive boundaries that `tokenize` gives.
#[verifier::rlimit(80)]
pub fn tokenize_to_strings(text: &str, dict: &Dictionary) -> (tokens: Vec<String>)
    requires
        dict.wf(),
        dict.lookups_ok(text@),
        text.spec_bytes().len() <= max_text_bytes(),
        text.spec_bytes().len() < usize::MAX,
    ensures
        string_views(tokens@) == pieces(text@, dict.viterbi(text@)),
        tokenize_result(dict, text@, dict.viterbi(text@)),
{
    let boundaries = tokenize(text, dict);
    let mut tokens: Vec<String> = Vec::new();
    if boundaries.len() == 0 {
        proof {
            assert(string_views(tokens@) =~= pieces(text@, boundaries@));
        }
        return tokens;
    }
    let chars = chars_of(text);
    let ghost b = boundaries@;
    proof {
        crate::text::lemma_byte_offset_end(text);
        assert(text@.len() > 0);
        assert forall|k: int| 0 <= k < b.len() implies is_boundary(chars@, #[trigger] b[k] as int) by {
            if !is_segmentation(chars@, b) {
                assert(b == char_starts(chars@));
                lemma_byte_offset_monotone(chars@, k, chars@.len() as int);
                assert(byte_offset(chars@, k) == b[k]);
            }
        }
        assert forall|k: int| 0 < k < b.len() implies b[k - 1] < #[trigger] b[k] by {
            if !is_segmentation(chars@, b) {
                assert(b == char_starts(chars@));
                lemma_byte_offset_monotone(chars@, k, chars@.len() as int);
                lemma_byte_offset_strictly_increasing(chars@, k - 1, k);
            }
        }
    }
    let mut ci: usize = 0;
    let mut pos: usize = boundaries[0];
    proof {
        let t0 = char_index(chars@, b[0] as int);
        if b[0] > 0 {
            // Only the char starts can begin away from 0; they begin at char 0.
            assert(false);
        }
        assert(byte_offset(chars@, 0) == 0) by {
            assert(chars@.take(0) =~= Seq::<char>::empty());
        }
        lemma_char_index_unique(chars@, 0, t0);
    }
    let mut k: usize = 1;
    while k < boundaries.len()
        invariant
            chars@ == text@,
            b == boundaries@,
            b.len() >= 1,
            1 <= k <= b.len(),
            ci <= chars@.len(),
            ci == char_index(chars@, b[k - 1] as int),
            pos == b[k - 1],
            pos == byte_offset(chars@, ci as int),
            byte_offset(chars@, chars@.len() as int) <= usize::MAX,
            forall|m: int| 0 <= m < b.len() ==> is_boundary(chars@, #[trigger] b[m] as int),
            forall|m: int| 0 < m < b.len() ==> b[m - 1] < #[trigger] b[m],
            string_views(tokens@) == pieces(text@, b.take(k as int)),
        decreases b.len() - k,
    {
        let next = boundaries[k];
        let ghost t = char_index(chars@, next as int);
        proof {
            assert(is_boundary(chars@, b[k as int] as int));
            if t < ci {
                lemma_byte_offset_strictly_increasing(chars@, t, ci as int);
            }
        }
        let (piece, ci2, pos2) = collect_piece(&chars, ci, pos, next, Ghost(t));
        let ghost before = tokens@;
        tokens.push(piece);
        proof {
            let p2 = pieces(text@, b.take(k as int + 1));
            let p1 = pieces(text@, b.take(k as int));
            assert(string_views(tokens@) =~= string_views(before).push(piece@));
            assert(p2 =~= p1.push(piece@)) by {
                assert forall|m: int| 0 <= m < p1.len() implies p2[m] == p1[m] by {
                    assert(b.take(k as int + 1)[m] == b[m]);
                    assert(b.take(k as int + 1)[m + 1] == b[m + 1]);
                }
            }
        }
        ci = ci2;
        pos = pos2;
        k = k + 1;
    }
    proof {
        assert(b.take(k as int) =~= b);
    }
    tokens
}

/// The texts `ps` one after another.
pub open spec fn concat(ps: Seq<Seq<char>>) -> Seq<char>
    decreases ps.len(),
{
    if ps.len() == 0 {
        Seq::empty()
    } else {
        concat(ps.drop_last()) + ps.last()
    }
}

/// Whether boundary `k` of `bounds` comes after boundary `k - 1`.
spec fn step_up(bounds: Seq<usize>, k: int) -> bool {
    bounds[k - 1] < bounds[k]
}

/// The pieces between the boundaries of a segmentation make up the text.
proof fn lemma_pieces_concat(chars: Seq<char>, bounds: Seq<usize>, k: int)
    requires
        bounds.len() >= 1,
        bounds[0] == 0,
        forall|m: int| 0 < m < bounds.len() ==> #[trigger] step_up(bounds, m),
        forall|m: int| 0 <= m < bounds.len() ==> is_boundary(chars, #[trigger] bounds[m] as int),
        1 <= k <= bounds.len(),
    ensures
        0 <= char_index(chars, bounds[k - 1] as int) <= chars.len(),
        byte_offset(chars, char_index(chars, bounds[k - 1] as int)) == bounds[k - 1],
        concat(pieces(chars, bounds.take(k))) == chars.subrange(
            0,
            char_index(chars, bounds[k - 1] as int),
        ),
    decreases k,
{
    let t = char_index(chars, bounds[k - 1] as int);
    assert(is_boundary(chars, bounds[k - 1] as int));
    if k == 1 {
        assert(pieces(chars, bounds.take(1)) =~= Seq::<Seq<char>>::empty());
        assert(bounds[0] == 0);
        assert(byte_offset(chars, 0) == 0) by {
            assert(chars.take(0) =~= Seq::<char>::empty());
        }
        lemma_char_index_unique(chars, 0, t);
        assert(chars.subrange(0, t) =~= Seq::<char>::empty());
    } else {
        lemma_pieces_concat(chars, bounds, k - 1);
        let s = char_index(chars, bounds[k - 2] as int);
        assert(step_up(bounds, k - 1));
        if t <= s {
            lemma_byte_offset_monotone(chars, t, s);
        }
        let bk = bounds.take(k);
        let bk1 = bounds.take(k - 1);
        let pk = pieces(chars, bk);
        let pk1 = pieces(chars, bk1);
        assert(pk.len() == k - 1);
        assert(pk1.len() == k - 2);
        assert forall|m: int| 0 <= m < pk1.len() implies pk.drop_last()[m] == pk1[m] by {
            assert(bk[m] == bk1[m]);
            assert(bk[m + 1] == bk1[m + 1]);
        }
        assert(pk.drop_last() =~= pk1);
        assert(bk[k - 2] == bounds[k - 2]);
        assert(bk[k - 1] == bounds[k - 1]);
        assert(pk.last() == pk[k - 2]);
        assert(pk[k - 2] == chars.subrange(s, t));
        assert(concat(pk) == concat(pk.drop_last()) + pk.last());
        assert(chars.subrange(0, s) + chars.subrange(s, t) =~= chars.subrange(0, t));
    }
}

/// Where a path covers the text, the tokens that `tokenize` gives make up
/// the text, in order.
pub proof fn law_tokens_cover_text(dict: &Dictionary, chars: Seq<char>, bounds: Seq<usize>)
    requires
        tokenize_result(dict, chars, bounds),
        chars.len() > 0,
        dict.has_full_path(chars),
        byte_offset(chars, chars.len() as int) <= usize::MAX,
    ensures
        concat(pieces(chars, bounds)) == chars,
{
    let p = choose|p: Seq<Candidate>| #[trigger] dict.is_best_path(chars, p) && bounds == path_bounds(
        chars,
        p,
    );
    lemma_path_bounds_segmentation(dict, chars, p);
    assert forall|m: int| 0 < m < bounds.len() implies #[trigger] step_up(bounds, m) by {
        assert(bounds[m - 1] < bounds[m]);
    }
    lemma_pieces_concat(chars, bounds, bounds.len() as int);
    assert(bounds.take(bounds.len() as int) =~= bounds);
    let t = char_index(chars, bounds[bounds.len() - 1] as int);
    lemma_char_index_unique(chars, t, chars.len() as int);
    assert(chars.subrange(0, chars.len() as int) =~= chars);
}

/// Where a path covers the text, the strings that `tokenize_to_strings`
/// gives (the pieces between the boundaries of `viterbi`) are non-empty and
/// make up the text, in order.
pub proof fn law_strings_cover_text(dict: &Dictionary, chars: Seq<char>, tokens: Seq<Seq<char>>)
    requires
        tokens == pieces(chars, dict.viterbi(chars)),
        tokenize_result(dict, chars, dict.viterbi(chars)),
        chars.len() > 0,
        dict.has_full_path(chars),
        byte_offset(chars, chars.len() as int) <= usize::MAX,
    ensures
        concat(tokens) == chars,
        forall|i: int| 0 <= i < tokens.len() ==> (#[trigger] tokens[i]).len() > 0,
{
    let bounds = dict.viterbi(chars);
    law_tokens_cover_text(dict, chars, bounds);
    let p = choose|p: Seq<Candidate>| #[trigger] dict.is_best_path(chars, p) && bounds == path_bounds(
        chars,
        p,
    );
    lemma_path_bounds_segmentation(dict, chars, p);
    assert forall|i: int| 0 <= i < tokens.len() implies (#[trigger] tokens[i]).len() > 0 by {
        assert(is_boundary(chars, bounds[i] as int));
        assert(is_boundary(chars, bounds[i + 1] as int));
        let a = char_index(chars, bounds[i] as int);
        let b = char_index(chars, bounds[i + 1] as int);
        assert(bounds[i] < bounds[i + 1]);
        if b <= a {
            lemma_byte_offset_monotone(chars, b, a);
        }
    }
}

/// The char index of a byte offset is the only one at that offset.
proof fn lemma_char_index_unique(chars: Seq<char>, i: int, j: int)
    requires
        0 <= i <= chars.len(),
        0 <= j <= chars.len(),
        byte_offset(chars, i) == byte_offset(chars, j),
    ensures
        i == j,
{
    if i < j {
        lemma_byte_offset_strictly_increasing(chars, i, j);
    } else if j < i {
        lemma_byte_offset_strictly_increasing(chars, j, i);
    }
}

/// The chars from char `ci` (at byte `pos`) up to byte `b`, which is char
/// `t`, and the cursor moved there.
fn collect_piece(chars: &Vec<char>, ci: usize, pos: usize, b: usize, Ghost(t): Ghost<int>) -> (r: (
    String,
    usize,
    usize,
))
    requires
        ci <= t <= chars@.len(),
        pos == byte_offset(chars@, ci as int),
        b == byte_offset(chars@, t),
    ensures
        r.0@ == chars@.subrange(ci as int, t),
        r.1 == t,
        r.2 == b,
{
    let n = chars.len();
    let mut piece = String::new();
    let mut ci2 = ci;
    let mut pos2 = pos;
    while pos2 < b
        invariant
            ci <= ci2 <= t <= chars@.len(),
            n == chars@.len(),
            pos2 == byte_offset(chars@, ci2 as int),
            b == byte_offset(chars@, t),
            piece@ == chars@.subrange(ci as int, ci2 as int),
        decreases t - ci2,
    {
        proof {
            assert(ci2 < t);
            lemma_byte_offset_step(chars@, ci2 as int);
            lemma_byte_offset_monotone(chars@, ci2 as int + 1, t);
            assert(chars@.subrange(ci as int, ci2 as int + 1) =~= piece@.push(chars@[ci2 as int]));
        }
        push_char(&mut piece, chars[ci2]);
        pos2 = pos2 + char_len_utf8(chars[ci2]);
        ci2 = ci2 + 1;
    }
    proof {
        if ci2 < t {
            lemma_byte_offset_strictly_increasing(chars@, ci2 as int, t);
        }
    }
    (piece, ci2, pos2)
}

impl Dictionary {
    /// The dictionary as the contracts see it.
    pub closed spec fn model(&self) -> DictionaryModel {
        DictionaryModel {
            entries: entries_model(self.entries@),
            forward: self.forward_size,
            backward: self.backward_size,
            costs: self.connection_costs@,
            defs: self.category_defs@,
            unknown: unk_views(self.unknown_entries@),
            ranges: range_views(self.char_ranges@),
        }
    }

    /// Loads the dictionary from the texts of its files: the word lists
    /// (CSV, in the order given), matrix.def, char.def and unk.def. `None`
    /// where a file does not parse as the MeCab tools read it. Ids are not
    /// checked against the matrix here: `ids_fit` tells whether they all lie
    /// inside it.
    pub fn load(csv_files: &[&str], matrix_def: &str, char_def: &str, unk_def: &str) -> (r:
        Option<Self>)
        ensures
            match r {
                Some(d) => d.wf() && spec_load(
                    text_views(csv_files@),
                    matrix_def@,
                    char_def@,
                    unk_def@,
                ) == Some(d.model()),
                None => spec_load(text_views(csv_files@), matrix_def@, char_def@, unk_def@) is None,
            },
    {
        let (forward_size, backward_size, connection_costs) = match load_matrix(matrix_def) {
            Some(m) => m,
            None => return None,
        };
        let (entries, max_left_id, max_right_id) = match load_csv_entries(csv_files) {
            Some(e) => e,
            None => return None,
        };
        let (category_defs, char_ranges) = match load_char_def(char_def) {
            Some(c) => c,
            None => return None,
        };
        let unknown_entries = match load_unk(unk_def) {
            Some(u) => u,
            None => return None,
        };
        let d = Dictionary {
            entries,
            connection_costs,
            forward_size,
            backward_size,
            category_defs,
            unknown_entries,
            char_ranges,
            max_left_id,
            max_right_id,
        };
        proof {
            assert(d.category_defs@.len() == NUM_CATEGORIES);
            assert(d.unknown_entries@.len() == NUM_CATEGORIES);
        }
        Some(d)
    }
}

} // verus!
