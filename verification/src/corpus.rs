//! Taking texts from a corpus by byte budgets: the first texts that reach a
//! number of bytes, and the texts of each file in chunks of at least a
//! number of bytes. The texts arrive one at a time (from files read by the
//! caller); the decisions are made here.
use vstd::prelude::*;
use vstd::string::StringSliceAdditionalSpecFns;

verus! {

/// Total byte length of the texts `ts`.
pub open spec fn total_bytes(ts: Seq<Seq<u8>>) -> nat
    decreases ts.len(),
{
    if ts.len() == 0 {
        0
    } else {
        total_bytes(ts.drop_last()) + ts.last().len()
    }
}

/// The encodings of the strings `ts`.
pub open spec fn encodings(ts: Seq<String>) -> Seq<Seq<u8>> {
    ts.map_values(|t: String| vstd::utf8::encode_utf8(t@))
}

/// `a + b`, or `u64::MAX` where that does not fit.
pub open spec fn saturating(a: int, b: int) -> u64 {
    if a + b > u64::MAX {
        u64::MAX
    } else {
        (a + b) as u64
    }
}

/// The first texts of a corpus, read until they reach a byte budget.
pub struct ByteBudget {
    budget: u64,
    total: u64,
    texts: Vec<String>,
}

impl ByteBudget {
    /// The texts taken so far.
    pub closed spec fn taken(&self) -> Seq<String> {
        self.texts@
    }

    /// The budget.
    pub closed spec fn spec_budget(&self) -> u64 {
        self.budget
    }

    /// The state invariant: the count of bytes taken, saturated.
    pub closed spec fn wf(&self) -> bool {
        self.total == saturating(0, total_bytes(encodings(self.texts@)) as int)
    }

    /// Nothing taken yet, `budget` bytes wanted.
    pub fn new(budget: u64) -> (b: Self)
        ensures
            b.wf(),
            b.taken() == Seq::<String>::empty(),
            b.spec_budget() == budget,
    {
        let b = ByteBudget { budget, total: 0, texts: Vec::new() };
        assert(encodings(b.texts@) =~= Seq::<Seq<u8>>::empty());
        b
    }

    /// Takes `text`; whether to read on: as long as fewer bytes than the
    /// budget have been taken.
    pub fn offer(&mut self, text: String) -> (keep_going: bool)
        requires
            old(self).wf(),
        ensures
            final(self).wf(),
            final(self).spec_budget() == old(self).spec_budget(),
            final(self).taken() == old(self).taken().push(text),
            keep_going == (total_bytes(encodings(final(self).taken())) < final(self).spec_budget()),
    {
        let len = crate::text::byte_len(text.as_str()) as u64;
        let ghost before = self.texts@;
        proof {
            crate::text::lemma_encode_utf8_len(text@);
        }
        let total = if self.total > u64::MAX - len {
            u64::MAX
        } else {
            self.total + len
        };
        self.total = total;
        self.texts.push(text);
        proof {
            let e = encodings(self.texts@);
            assert(e.drop_last() =~= encodings(before));
            assert(e.last() == vstd::utf8::encode_utf8(text@));
        }
        self.total < self.budget
    }

    /// The texts taken, if they reach the budget.
    pub fn finish(self) -> (r: Option<Vec<String>>)
        requires
            self.wf(),
        ensures
            match r {
                Some(ts) => ts@ == self.taken() && total_bytes(encodings(self.taken()))
                    >= self.spec_budget(),
                None => total_bytes(encodings(self.taken())) < self.spec_budget(),
            },
    {
        if self.total >= self.budget {
            Some(self.texts)
        } else {
            None
        }
    }
}

/// The number of first texts of `ts` that are read for a budget of `n`
/// bytes: texts are read while fewer than `n` bytes have been read (at
/// least one, if there is one).
pub open spec fn texts_read(ts: Seq<Seq<u8>>, n: int) -> int
    decreases ts.len(),
{
    if ts.len() == 0 {
        0
    } else if texts_read(ts.drop_last(), n) < ts.len() - 1 {
        texts_read(ts.drop_last(), n)
    } else if ts.len() >= 2 && total_bytes(ts.drop_last()) >= n {
        ts.len() - 1
    } else {
        ts.len() as int
    }
}

/// The first texts of `texts` that reach `n` bytes together (reading stops
/// after the text that reaches them). All of them together must reach `n`.
pub fn load_n_bytes(texts: Vec<String>, n: u64) -> (r: Vec<String>)
    requires
        total_bytes(encodings(texts@)) >= n,
    ensures
        ({
            let e = encodings(texts@);
            let k = texts_read(e, n as int);
            r@ == texts@.take(k) && total_bytes(e.take(k)) >= n
        }),
{
    proof {
        lemma_texts_read_reaches(encodings(texts@), n as int);
    }
    let ghost t0 = texts@;
    match read_texts(texts, n) {
        Some(ts) => ts,
        None => {
            proof {
                let e = encodings(t0);
                assert(e.take(e.len() as int) =~= e);
            }
            Vec::new()
        },
    }
}

/// Where fewer texts are read than there are, the ones read reach `n`
/// bytes; no more texts are read than there are.
proof fn lemma_texts_read_reaches(ts: Seq<Seq<u8>>, n: int)
    ensures
        0 <= texts_read(ts, n) <= ts.len(),
        texts_read(ts, n) < ts.len() ==> total_bytes(ts.take(texts_read(ts, n))) >= n,
    decreases ts.len(),
{
    if ts.len() > 0 {
        let d = ts.drop_last();
        lemma_texts_read_reaches(d, n);
        let k = texts_read(d, n);
        if k < ts.len() - 1 {
            assert(d.take(k) =~= ts.take(k));
        } else if ts.len() >= 2 && total_bytes(d) >= n {
            assert(ts.take(ts.len() - 1) =~= d);
        }
    }
}

/// The first texts of `texts` that reach `n` bytes together (reading stops
/// after the text that reaches them); `None` where all of them together do
/// not reach `n`.
fn read_texts(texts: Vec<String>, n: u64) -> (r: Option<Vec<String>>)
    ensures
        ({
            let e = encodings(texts@);
            let k = texts_read(e, n as int);
            match r {
                Some(ts) => ts@ == texts@.take(k) && total_bytes(e.take(k)) >= n,
                None => total_bytes(e.take(k)) < n,
            }
        }),
{
    let ghost e = encodings(texts@);
    let count = texts.len();
    let mut budget = ByteBudget::new(n);
    let mut rest = texts;
    let mut stack: Vec<String> = Vec::new();
    // Read the texts in order: reverse them into a stack first.
    while rest.len() > 0
        invariant
            rest@.len() + stack@.len() == e.len(),
            forall|k: int| 0 <= k < rest@.len() ==> #[trigger] rest@[k] == texts@[k],
            forall|k: int|
                0 <= k < stack@.len() ==> (#[trigger] stack@[k]) == texts@[e.len() - 1 - k],
        decreases rest@.len(),
    {
        match rest.pop() {
            Some(t) => stack.push(t),
            None => {},
        }
    }
    let mut keep_going = true;
    let mut read: usize = 0;
    proof {
        assert(e.take(0) =~= Seq::<Seq<u8>>::empty());
        assert(budget.taken() =~= texts@.take(0));
    }
    while keep_going && stack.len() > 0
        invariant
            e == encodings(texts@),
            budget.wf(),
            budget.spec_budget() == n,
            read + stack@.len() == e.len(),
            e.len() == count,
            forall|k: int|
                0 <= k < stack@.len() ==> (#[trigger] stack@[k]) == texts@[e.len() - 1 - k],
            budget.taken() == texts@.take(read as int),
            encodings(budget.taken()) == e.take(read as int),
            keep_going == (read == 0 || total_bytes(e.take(read as int)) < n),
            texts_read(e.take(read as int), n as int) == read,
            !keep_going ==> texts_read(e, n as int) == read,
        decreases stack@.len(),
    {
        let t = match stack.pop() {
            Some(t) => t,
            None => {
                assert(false);
                return None;
            },
        };
        proof {
            assert(t == texts@[read as int]);
        }
        let ghost before = budget.taken();
        keep_going = budget.offer(t);
        read = read + 1;
        proof {
            assert(budget.taken() =~= texts@.take(read as int));
            assert(encodings(budget.taken()) =~= e.take(read as int));
            let p = e.take(read as int);
            assert(p.drop_last() =~= e.take(read - 1));
            lemma_texts_read_prefix_stop(e, n as int, read as int);
        }
    }
    proof {
        if keep_going {
            assert(read == e.len());
            assert(e.take(read as int) =~= e);
        }
    }
    budget.finish()
}

/// Reading goes on to text `r` while the budget is not reached, and where
/// it then is reached, no more are read.
proof fn lemma_texts_read_prefix_stop(ts: Seq<Seq<u8>>, n: int, r: int)
    requires
        1 <= r <= ts.len(),
        texts_read(ts.take(r - 1), n) == r - 1,
        r - 1 == 0 || total_bytes(ts.take(r - 1)) < n,
    ensures
        texts_read(ts.take(r), n) == r,
        total_bytes(ts.take(r)) >= n ==> texts_read(ts, n) == r,
{
    let p = ts.take(r);
    assert(p.drop_last() =~= ts.take(r - 1));
    if total_bytes(ts.take(r)) >= n {
        lemma_texts_read_stays(ts, n, r, ts.len() as int);
        assert(ts.take(ts.len() as int) =~= ts);
    }
}

/// Once `r` texts reach the budget, no more are read.
proof fn lemma_texts_read_stays(ts: Seq<Seq<u8>>, n: int, r: int, m: int)
    requires
        1 <= r <= m <= ts.len(),
        texts_read(ts.take(r), n) == r,
        total_bytes(ts.take(r)) >= n,
    ensures
        texts_read(ts.take(m), n) == r,
    decreases m - r,
{
    if m > r {
        lemma_texts_read_stays(ts, n, r, m - 1);
        let p = ts.take(m);
        assert(p.drop_last() =~= ts.take(m - 1));
        if texts_read(ts.take(m - 1), n) == m - 1 {
            assert(m - 1 == r);
            assert(ts.take(m - 1) =~= ts.take(r));
        }
    }
}

/// The chunks of one file's texts `ts` so far, the texts of the chunk being
/// filled, and their byte count: a chunk closes with the text that brings
/// it to `chunk_bytes` bytes.
pub open spec fn chunking(ts: Seq<String>, chunk_bytes: int) -> (Seq<Seq<String>>, Seq<String>)
    decreases ts.len(),
{
    if ts.len() == 0 {
        (Seq::empty(), Seq::empty())
    } else {
        let (done, cur) = chunking(ts.drop_last(), chunk_bytes);
        let cur2 = cur.push(ts.last());
        if total_bytes(encodings(cur2)) >= chunk_bytes {
            (done.push(cur2), Seq::empty())
        } else {
            (done, cur2)
        }
    }
}

/// The chunks of one file's texts: closed ones, then the rest, if any.
pub open spec fn file_chunks(ts: Seq<String>, chunk_bytes: int) -> Seq<Seq<String>> {
    let (done, cur) = chunking(ts, chunk_bytes);
    if cur.len() > 0 {
        done.push(cur)
    } else {
        done
    }
}

/// The chunks of the files `files` (each an index and its texts): the file's
/// index, the chunk's number within the file, and its texts.
pub open spec fn all_chunks(files: Seq<(usize, Seq<String>)>, chunk_bytes: int) -> Seq<
    (usize, int, Seq<String>),
>
    decreases files.len(),
{
    if files.len() == 0 {
        Seq::empty()
    } else {
        let (fi, ts) = files.last();
        let c = file_chunks(ts, chunk_bytes);
        all_chunks(files.drop_last(), chunk_bytes) + Seq::new(
            c.len(),
            |j: int| (fi, j, c[j]),
        )
    }
}

/// Splits the texts of a file, as they arrive, into chunks of at least a
/// number of bytes.
pub struct Chunker {
    chunk_bytes: u64,
    total: u64,
    texts: Vec<String>,
    chunk_index: usize,
}

impl Chunker {
    /// The texts of the chunk being filled.
    pub closed spec fn pending(&self) -> Seq<String> {
        self.texts@
    }

    /// The number of chunks closed in the current file.
    pub closed spec fn closed_chunks(&self) -> nat {
        self.chunk_index as nat
    }

    /// The size of chunks.
    pub closed spec fn spec_chunk_bytes(&self) -> u64 {
        self.chunk_bytes
    }

    /// The state invariant: the count of pending bytes, saturated.
    pub closed spec fn wf(&self) -> bool {
        self.total == saturating(0, total_bytes(encodings(self.texts@)) as int)
    }

    /// Nothing read yet.
    pub fn new(chunk_bytes: u64) -> (c: Self)
        ensures
            c.wf(),
            c.pending() == Seq::<String>::empty(),
            c.closed_chunks() == 0,
            c.spec_chunk_bytes() == chunk_bytes,
    {
        let c = Chunker { chunk_bytes, total: 0, texts: Vec::new(), chunk_index: 0 };
        assert(encodings(c.texts@) =~= Seq::<Seq<u8>>::empty());
        c
    }

    /// The number of chunks closed in the current file.
    pub fn closed_chunk_count(&self) -> (n: usize)
        ensures
            n == self.closed_chunks(),
    {
        self.chunk_index
    }

    /// Takes the next text of the file; gives back the chunk it closes,
    /// with its number, if it brings the pending texts to the chunk size.
    pub fn offer(&mut self, text: String) -> (r: Option<(usize, Vec<String>)>)
        requires
            old(self).wf(),
            old(self).closed_chunks() < usize::MAX,
        ensures
            final(self).wf(),
            final(self).spec_chunk_bytes() == old(self).spec_chunk_bytes(),
            ({
                let cur2 = old(self).pending().push(text);
                if total_bytes(encodings(cur2)) >= old(self).spec_chunk_bytes() {
                    &&& r matches Some((i, ts)) && i == old(self).closed_chunks() && ts@ == cur2
                    &&& final(self).pending() == Seq::<String>::empty()
                    &&& final(self).closed_chunks() == old(self).closed_chunks() + 1
                } else {
                    &&& r is None
                    &&& final(self).pending() == cur2
                    &&& final(self).closed_chunks() == old(self).closed_chunks()
                }
            }),
    {
        let len = crate::text::byte_len(text.as_str()) as u64;
        let ghost before = self.texts@;
        proof {
            crate::text::lemma_encode_utf8_len(text@);
        }
        let total = if self.total > u64::MAX - len {
            u64::MAX
        } else {
            self.total + len
        };
        self.total = total;
        self.texts.push(text);
        proof {
            let e = encodings(self.texts@);
            assert(e.drop_last() =~= encodings(before));
            assert(e.last() == vstd::utf8::encode_utf8(text@));
        }
        if self.total >= self.chunk_bytes {
            let mut chunk: Vec<String> = Vec::new();
            std::mem::swap(&mut chunk, &mut self.texts);
            let index = self.chunk_index;
            self.total = 0;
            self.chunk_index = self.chunk_index + 1;
            proof {
                assert(encodings(self.texts@) =~= Seq::<Seq<u8>>::empty());
            }
            Some((index, chunk))
        } else {
            None
        }
    }

    /// Ends the file: gives back the pending texts as its last chunk, if
    /// there are any, and starts the next file afresh.
    pub fn finish_file(&mut self) -> (r: Option<(usize, Vec<String>)>)
        requires
            old(self).wf(),
        ensures
            final(self).wf(),
            final(self).spec_chunk_bytes() == old(self).spec_chunk_bytes(),
            final(self).pending() == Seq::<String>::empty(),
            final(self).closed_chunks() == 0,
            old(self).pending().len() > 0 ==> (r matches Some((i, ts)) && i == old(
                self,
            ).closed_chunks() && ts@ == old(self).pending()),
            old(self).pending().len() == 0 ==> r is None,
    {
        let mut chunk: Vec<String> = Vec::new();
        std::mem::swap(&mut chunk, &mut self.texts);
        let index = self.chunk_index;
        self.total = 0;
        self.chunk_index = 0;
        proof {
            assert(encodings(self.texts@) =~= Seq::<Seq<u8>>::empty());
        }
        if chunk.len() > 0 {
            Some((index, chunk))
        } else {
            None
        }
    }
}

proof fn lemma_chunking_count(ts: Seq<String>, chunk_bytes: int)
    ensures
        chunking(ts, chunk_bytes).0.len() <= ts.len(),
    decreases ts.len(),
{
    if ts.len() > 0 {
        lemma_chunking_count(ts.drop_last(), chunk_bytes);
    }
}

/// The chunks of `texts`, each with its number, as a `Chunker` closes them.
fn chunk_file(file_index: usize, texts: Vec<String>, chunk_bytes: u64, out: &mut Vec<(usize, usize, Vec<String>)>)
    ensures
        chunk_views(final(out)@) == chunk_views(old(out)@) + {
            let c = file_chunks(texts@, chunk_bytes as int);
            Seq::new(c.len(), |j: int| (file_index, j, c[j]))
        },
{
    let ghost all = texts@;
    let n = texts.len();
    let mut rest = texts;
    let mut stack: Vec<String> = Vec::new();
    while rest.len() > 0
        invariant
            rest@.len() + stack@.len() == all.len(),
            forall|k: int| 0 <= k < rest@.len() ==> #[trigger] rest@[k] == all[k],
            forall|k: int| 0 <= k < stack@.len() ==> (#[trigger] stack@[k]) == all[all.len() - 1 - k],
        decreases rest@.len(),
    {
        match rest.pop() {
            Some(t) => stack.push(t),
            None => {},
        }
    }
    let mut chunker = Chunker::new(chunk_bytes);
    let ghost out0 = chunk_views(out@);
    let mut read: usize = 0;
    proof {
        assert(all.take(0) =~= Seq::<String>::empty());
        assert(chunk_views(out@) =~= out0 + Seq::new(0, |j: int| (file_index, j, Seq::<String>::empty())));
    }
    while stack.len() > 0
        invariant
            chunker.wf(),
            chunker.spec_chunk_bytes() == chunk_bytes,
            n == all.len(),
            read + stack@.len() == n,
            forall|k: int| 0 <= k < stack@.len() ==> (#[trigger] stack@[k]) == all[n - 1 - k],
            chunking(all.take(read as int), chunk_bytes as int).1 == chunker.pending(),
            chunking(all.take(read as int), chunk_bytes as int).0.len() == chunker.closed_chunks(),
            chunker.closed_chunks() <= read,
            ({
                let c = chunking(all.take(read as int), chunk_bytes as int).0;
                chunk_views(out@) == out0 + Seq::new(c.len(), |j: int| (file_index, j, c[j]))
            }),
        decreases stack@.len(),
    {
        let t = match stack.pop() {
            Some(t) => t,
            None => {
                assert(false);
                return;
            },
        };
        proof {
            assert(t == all[read as int]);
            let p = all.take(read as int + 1);
            assert(p.drop_last() =~= all.take(read as int));
            assert(p.last() == t);
        }
        let ghost done = chunking(all.take(read as int), chunk_bytes as int).0;
        let ghost before = chunk_views(out@);
        match chunker.offer(t) {
            Some((index, chunk)) => {
                out.push((file_index, index, chunk));
                proof {
                    let done2 = chunking(all.take(read as int + 1), chunk_bytes as int).0;
                    assert(chunk_views(out@) =~= before.push((file_index, index as int, chunk@)));
                    assert(out0 + Seq::new(done2.len(), |j: int| (file_index, j, done2[j])) =~= out0
                        + Seq::new(done.len(), |j: int| (file_index, j, done[j])).push(
                        (file_index, index as int, chunk@),
                    ));
                }
            },
            None => {},
        }
        read = read + 1;
    }
    proof {
        assert(all.take(read as int) =~= all);
    }
    let ghost done = chunking(all, chunk_bytes as int).0;
    let ghost before = chunk_views(out@);
    match chunker.finish_file() {
        Some((index, chunk)) => {
            out.push((file_index, index, chunk));
            proof {
                let c = file_chunks(all, chunk_bytes as int);
                assert(chunk_views(out@) =~= before.push((file_index, index as int, chunk@)));
                assert(out0 + Seq::new(c.len(), |j: int| (file_index, j, c[j])) =~= out0 + Seq::new(
                    done.len(),
                    |j: int| (file_index, j, done[j]),
                ).push((file_index, index as int, chunk@)));
            }
        },
        None => {},
    }
}

/// The chunks as the contracts see them.
pub open spec fn chunk_views(chunks: Seq<(usize, usize, Vec<String>)>) -> Seq<(usize, int, Seq<String>)> {
    chunks.map_values(|c: (usize, usize, Vec<String>)| (c.0, c.1 as int, c.2@))
}

/// The chunks of the files `files` (each an index and its texts, in
/// order): the texts of each file in order, split where a chunk reaches
/// `chunk_bytes` bytes, the rest of a file its last chunk; each chunk with
/// its file's index and its number within the file.
pub fn visit_chunks(files: Vec<(usize, Vec<String>)>, chunk_bytes: u64) -> (r: Vec<
    (usize, usize, Vec<String>),
>)
    ensures
        chunk_views(r@) == all_chunks(
            files@.map_values(|f: (usize, Vec<String>)| (f.0, f.1@)),
            chunk_bytes as int,
        ),
{
    let ghost fv = files@.map_values(|f: (usize, Vec<String>)| (f.0, f.1@));
    let n = files.len();
    let mut rest = files;
    let mut stack: Vec<(usize, Vec<String>)> = Vec::new();
    while rest.len() > 0
        invariant
            rest@.len() + stack@.len() == fv.len(),
            forall|k: int| 0 <= k < rest@.len() ==> ((#[trigger] rest@[k]).0, rest@[k].1@) == fv[k],
            forall|k: int|
                0 <= k < stack@.len() ==> ((#[trigger] stack@[k]).0, stack@[k].1@) == fv[fv.len() - 1
                    - k],
        decreases rest@.len(),
    {
        match rest.pop() {
            Some(f) => stack.push(f),
            None => {},
        }
    }
    let mut out: Vec<(usize, usize, Vec<String>)> = Vec::new();
    let mut done: usize = 0;
    proof {
        assert(fv.take(0) =~= Seq::<(usize, Seq<String>)>::empty());
        assert(chunk_views(out@) =~= Seq::<(usize, int, Seq<String>)>::empty());
    }
    while stack.len() > 0
        invariant
            n == fv.len(),
            done + stack@.len() == n,
            forall|k: int|
                0 <= k < stack@.len() ==> ((#[trigger] stack@[k]).0, stack@[k].1@) == fv[n - 1 - k],
            chunk_views(out@) == all_chunks(fv.take(done as int), chunk_bytes as int),
        decreases stack@.len(),
    {
        let (file_index, texts) = match stack.pop() {
            Some(f) => f,
            None => {
                assert(false);
                return out;
            },
        };
        proof {
            assert((file_index, texts@) == fv[done as int]);
            let p = fv.take(done as int + 1);
            assert(p.drop_last() =~= fv.take(done as int));
            assert(p.last() == (file_index, texts@));
        }
        chunk_file(file_index, texts, chunk_bytes, &mut out);
        done = done + 1;
    }
    proof {
        assert(fv.take(done as int) =~= fv);
    }
    out
}

} // verus!
