//! The byte-offset index of a text file, built in one forward scan, and the
//! view that serves single lines through a one-window cache.
use vstd::prelude::*;
use vstd::arithmetic::div_mod::{
    lemma_div_is_ordered, lemma_fundamental_div_mod, lemma_fundamental_div_mod_converse,
};
use crate::text::{
    line_ends, line_start, line_text, lemma_line_ends, lemma_lines_between, lines_of, split_lines,
    NEWLINE,
};

verus! {

/// A run of lines `[fst_line, lst_line)` and the bytes
/// `[left_offset, right_offset)` of the file that hold exactly those lines.
#[derive(Debug, Clone, Copy, PartialEq, Eq, Structural)]
pub struct LineChunk {
    pub fst_line: u64,
    pub lst_line: u64,
    pub left_offset: u64,
    pub right_offset: u64,
}

/// How many chunks an index of `n` lines has: one per `cs` lines, rounded
/// up, and a single empty chunk for an empty file.
pub open spec fn chunk_count(n: int, cs: int) -> int {
    if n <= 0 {
        1
    } else {
        (n + cs - 1) / cs
    }
}

/// Chunk `k` over the line ends `e`: lines `k * cs` up to `(k + 1) * cs`,
/// cut at the last line.
pub open spec fn chunk_at(e: Seq<int>, cs: int, k: int) -> LineChunk {
    let lo = k * cs;
    let hi = if (k + 1) * cs < e.len() {
        (k + 1) * cs
    } else {
        e.len() as int
    };
    LineChunk {
        fst_line: lo as u64,
        lst_line: hi as u64,
        left_offset: line_start(e, lo) as u64,
        right_offset: line_start(e, hi) as u64,
    }
}

/// The index of the file content `c` with `cs` lines per chunk.
pub open spec fn chunks_of(c: Seq<u8>, cs: int) -> Seq<LineChunk> {
    let e = line_ends(c);
    Seq::new(chunk_count(e.len() as int, cs) as nat, |k: int| chunk_at(e, cs, k))
}

pub proof fn lemma_div_between(x: int, d: int, q: int)
    requires
        d > 0,
        q * d <= x < q * d + d,
    ensures
        x / d == q,
{
    lemma_fundamental_div_mod_converse(x, d, q, x - q * d);
}

/// `x / d` is the `q` with `q * d <= x < q * d + d`.
pub proof fn lemma_div_facts(x: int, d: int)
    requires
        d > 0,
        x >= 0,
    ensures
        (x / d) * d <= x < (x / d) * d + d,
        x / d >= 0,
{
    lemma_fundamental_div_mod(x, d);
    assert(d * (x / d) == (x / d) * d) by (nonlinear_arith);
    assert(x / d >= 0) by (nonlinear_arith)
        requires d > 0, x >= 0;
}

/// There is at least one chunk, every line lies before the end of the last
/// chunk, and the last chunk starts before the last line.
pub proof fn lemma_chunk_count(n: int, cs: int)
    requires
        n >= 0,
        cs > 0,
    ensures
        chunk_count(n, cs) >= 1,
        n <= chunk_count(n, cs) * cs,
        n > 0 ==> (chunk_count(n, cs) - 1) * cs < n,
{
    if n > 0 {
        let q = (n + cs - 1) / cs;
        lemma_div_facts(n + cs - 1, cs);
        assert(q * cs - cs == (q - 1) * cs) by (nonlinear_arith);
        assert(q >= 1) by (nonlinear_arith)
            requires q * cs >= n, n > 0, cs > 0, q >= 0;
    }
}

/// Line `l` lies in chunk `l / cs`, which exists.
pub proof fn lemma_chunk_of_line(n: int, cs: int, l: int)
    requires
        0 <= l < n,
        cs > 0,
    ensures
        (l / cs) * cs <= l < (l / cs + 1) * cs,
        0 <= l / cs < chunk_count(n, cs),
{
    lemma_div_facts(l, cs);
    lemma_chunk_count(n, cs);
    let q = l / cs;
    let m = chunk_count(n, cs);
    assert((q + 1) * cs == q * cs + cs) by (nonlinear_arith);
    assert(q < m) by (nonlinear_arith)
        requires q * cs <= l, l < n, n <= m * cs, cs > 0;
}

/// Builds the index of a file from its bytes, handed in blocks in file order.
pub struct IndexBuilder {
    chunk_size: u64,
    lines: Vec<LineChunk>,
    chunk_fst: u64,
    chunk_left: u64,
    closed: u64,
    offset: u64,
    pending: bool,
    content: Ghost<Seq<u8>>,
}

impl IndexBuilder {
    /// The bytes handed in so far.
    pub closed spec fn content(&self) -> Seq<u8> {
        self.content@
    }

    pub closed spec fn chunk_size(&self) -> u64 {
        self.chunk_size
    }

    pub closed spec fn wf(&self) -> bool {
        let c = self.content@;
        let e = line_ends(c);
        let cs = self.chunk_size as int;
        &&& cs > 0
        &&& self.offset == c.len()
        &&& self.pending == (c.len() > 0 && c.last() != NEWLINE)
        &&& self.closed == if self.pending { e.len() - 1 } else { e.len() as int }
        &&& self.chunk_fst == self.lines@.len() * cs
        &&& self.chunk_fst <= self.closed < self.chunk_fst + cs
        &&& self.chunk_left == line_start(e, self.chunk_fst as int)
        &&& forall|k: int| 0 <= k < self.lines@.len() ==> #[trigger] self.lines@[k] == chunk_at(e, cs, k)
    }

    /// An empty index with `chunk_size` lines per chunk.
    pub fn new(chunk_size: u64) -> (r: Self)
        requires
            chunk_size > 0,
        ensures
            r.wf(),
            r.content() == Seq::<u8>::empty(),
            r.chunk_size() == chunk_size,
    {
        IndexBuilder {
            chunk_size,
            lines: Vec::new(),
            chunk_fst: 0,
            chunk_left: 0,
            closed: 0,
            offset: 0,
            pending: false,
            content: Ghost(Seq::empty()),
        }
    }

    fn push_byte(&mut self, b: u8)
        requires
            old(self).wf(),
            old(self).content().len() < u64::MAX,
        ensures
            final(self).wf(),
            final(self).content() == old(self).content().push(b),
            final(self).chunk_size() == old(self).chunk_size(),
    {
        let ghost c0 = self.content@;
        let ghost e0 = line_ends(c0);
        let ghost c1 = c0.push(b);
        let ghost e1 = line_ends(c1);
        let ghost cs = self.chunk_size as int;
        let ghost n_lines = self.lines@.len() as int;
        proof {
            assert(c1.drop_last() =~= c0);
            lemma_line_ends(c0);
            lemma_line_ends(c1);
            assert forall|k: int| 0 <= k < n_lines implies #[trigger] self.lines@[k] == chunk_at(e1, cs, k) by {
                assert((k + 1) * cs <= n_lines * cs) by (nonlinear_arith)
                    requires k < n_lines, cs > 0;
                assert(k * cs <= (k + 1) * cs) by (nonlinear_arith)
                    requires cs > 0;
            }
            assert(line_start(e1, self.chunk_fst as int) == line_start(e0, self.chunk_fst as int));
        }
        self.content = Ghost(c1);
        self.offset = self.offset + 1;
        if b == NEWLINE {
            self.closed = self.closed + 1;
            if self.closed - self.chunk_fst == self.chunk_size {
                let chunk = LineChunk {
                    fst_line: self.chunk_fst,
                    lst_line: self.closed,
                    left_offset: self.chunk_left,
                    right_offset: self.offset,
                };
                proof {
                    assert((n_lines + 1) * cs == n_lines * cs + cs) by (nonlinear_arith);
                    assert(e1.len() == self.closed);
                    assert(line_start(e1, self.closed as int) == self.offset);
                    assert(chunk == chunk_at(e1, cs, n_lines));
                }
                self.lines.push(chunk);
                self.chunk_fst = self.closed;
                self.chunk_left = self.offset;
            }
            self.pending = false;
        } else {
            self.pending = true;
        }
    }

    /// Hands in the next bytes of the file.
    pub fn feed(&mut self, block: &[u8])
        requires
            old(self).wf(),
            old(self).content().len() + block@.len() <= u64::MAX,
        ensures
            final(self).wf(),
            final(self).content() == old(self).content() + block@,
            final(self).chunk_size() == old(self).chunk_size(),
    {
        let ghost c0 = self.content();
        let mut i: usize = 0;
        while i < block.len()
            invariant
                self.wf(),
                i <= block@.len(),
                self.content() == c0 + block@.subrange(0, i as int),
                self.chunk_size() == old(self).chunk_size(),
                c0.len() + block@.len() <= u64::MAX,
            decreases block@.len() - i,
        {
            self.push_byte(block[i]);
            proof {
                assert(c0 + block@.subrange(0, i + 1) =~= (c0 + block@.subrange(0, i as int)).push(block@[i as int]));
            }
            i = i + 1;
        }
        proof {
            assert(block@.subrange(0, i as int) =~= block@);
        }
    }

    /// The finished index: whole chunks, then the last lines if any are left,
    /// or a single empty chunk for an empty file.
    pub fn finish(self) -> (r: Vec<LineChunk>)
        requires
            self.wf(),
        ensures
            r@ == chunks_of(self.content(), self.chunk_size() as int),
    {
        let ghost c = self.content@;
        let ghost e = line_ends(c);
        let ghost cs = self.chunk_size as int;
        proof {
            lemma_line_ends(c);
        }
        let total = if self.pending {
            self.closed + 1
        } else {
            self.closed
        };
        let mut lines = self.lines;
        let ghost n_sealed = lines@.len() as int;
        if lines.len() == 0 || total > self.chunk_fst {
            let chunk = LineChunk {
                fst_line: self.chunk_fst,
                lst_line: total,
                left_offset: self.chunk_left,
                right_offset: self.offset,
            };
            proof {
                assert((n_sealed + 1) * cs == n_sealed * cs + cs) by (nonlinear_arith);
                assert(chunk == chunk_at(e, cs, n_sealed));
                if total > 0 {
                    assert(total == e.len());
                    if n_sealed == 0 {
                        assert(n_sealed * cs == 0) by (nonlinear_arith)
                            requires n_sealed == 0;
                    }
                    assert(self.chunk_fst == n_sealed * cs);
                    assert(n_sealed * cs < total <= (n_sealed + 1) * cs);
                    lemma_div_between(total + cs - 1, cs, n_sealed + 1);
                } else {
                    assert(n_sealed * cs == 0);
                    assert(n_sealed == 0) by (nonlinear_arith)
                        requires n_sealed * cs == 0, cs > 0;
                }
            }
            lines.push(chunk);
        } else {
            proof {
                assert(n_sealed * cs > 0) by (nonlinear_arith)
                    requires n_sealed > 0, cs > 0;
                lemma_div_between(total + cs - 1, cs, n_sealed);
            }
        }
        proof {
            assert(lines@ =~= chunks_of(c, cs));
        }
        lines
    }
}

} // verus!

verus! {

/// For chunks `a <= b` of the index of `c`: their bounds as numbers, and
/// `a` starts no later than `b` ends.
pub proof fn lemma_chunk_bounds(c: Seq<u8>, cs: int, a: int, b: int)
    requires
        cs > 0,
        c.len() <= u64::MAX,
        0 <= a <= b < chunk_count(line_ends(c).len() as int, cs),
    ensures
        ({
            let e = line_ends(c);
            let n = e.len() as int;
            let ca = chunk_at(e, cs, a);
            let cb = chunk_at(e, cs, b);
            &&& ca.fst_line == a * cs
            &&& ca.lst_line == if (a + 1) * cs < n { (a + 1) * cs } else { n }
            &&& cb.lst_line == if (b + 1) * cs < n { (b + 1) * cs } else { n }
            &&& ca.fst_line <= ca.lst_line <= n
            &&& cb.lst_line <= n
            &&& ca.left_offset == line_start(e, a * cs)
            &&& ca.right_offset == line_start(e, ca.lst_line as int)
            &&& cb.right_offset == line_start(e, cb.lst_line as int)
            &&& ca.fst_line <= cb.lst_line
            &&& ca.left_offset <= cb.right_offset <= c.len()
            &&& b == chunk_count(n, cs) - 1 ==> cb.lst_line == n
            &&& a < b ==> ca.lst_line == (a + 1) * cs
        }),
{
    let e = line_ends(c);
    let n = e.len() as int;
    lemma_line_ends(c);
    lemma_chunk_count(n, cs);
    let m = chunk_count(n, cs);
    assert(a * cs <= b * cs) by (nonlinear_arith)
        requires a <= b, cs > 0;
    assert(b * cs <= (m - 1) * cs) by (nonlinear_arith)
        requires b <= m - 1, cs > 0;
    assert(0 <= a * cs) by (nonlinear_arith)
        requires a >= 0, cs > 0;
    assert((a + 1) * cs == a * cs + cs && (b + 1) * cs == b * cs + cs) by (nonlinear_arith);
    assert(a < b ==> (a + 1) * cs <= b * cs) by (nonlinear_arith)
        requires cs > 0;
    assert(b == m - 1 ==> n <= (b + 1) * cs);
    assert(a * cs <= n);
    let hb = if (b + 1) * cs < n { (b + 1) * cs } else { n };
    assert(line_start(e, a * cs) <= line_start(e, hb) <= c.len()) by {
        if a * cs > 0 && a * cs < hb {
            assert(e[a * cs - 1] < e[hb - 1]);
        }
        if hb > 0 {
            assert(e[hb - 1] <= c.len());
        }
    }
    let ha = if (a + 1) * cs < n { (a + 1) * cs } else { n };
    assert(line_start(e, ha) <= c.len()) by {
        if ha > 0 {
            assert(e[ha - 1] <= c.len());
        }
    }
}

/// The chunks that a read for line `index` spans: the left one comes no later
/// than the right one, and for a line of the file they enclose it.
pub proof fn lemma_plan_chunks(n: int, cs: int, index: int)
    requires
        n >= 0,
        cs > 0,
        index >= 0,
    ensures
        ({
            let left = if index > cs { index - cs } else { 0 };
            let right = if index + cs < n { index + cs } else { n };
            let m = chunk_count(n, cs);
            let a = if left / cs < m { left / cs } else { 0 };
            let b = if right / cs < m { right / cs } else { m - 1 };
            &&& 0 <= a <= b < m
            &&& index < n ==> a * cs <= index && (b == m - 1 || index < (b + 1) * cs)
        }),
{
    let left = if index > cs { index - cs } else { 0 };
    let right = if index + cs < n { index + cs } else { n };
    let m = chunk_count(n, cs);
    let li = left / cs;
    let ri = right / cs;
    lemma_chunk_count(n, cs);
    lemma_div_facts(left, cs);
    lemma_div_facts(right, cs);
    if li < m {
        if left <= right {
            lemma_div_is_ordered(left, right, cs);
        } else if n > 0 {
            assert(li * cs <= (m - 1) * cs) by (nonlinear_arith)
                requires li <= m - 1, cs > 0;
            assert(li <= ri) by (nonlinear_arith)
                requires li * cs < n, ri * cs <= n, n < ri * cs + cs, cs > 0;
        }
    }
    if index < n {
        assert(li < m) by (nonlinear_arith)
            requires li * cs <= left, left <= index, index < n, n <= m * cs, cs > 0;
        assert((ri + 1) * cs == ri * cs + cs) by (nonlinear_arith);
    }
}

#[derive(Debug, Clone, Copy, PartialEq, Eq, Structural)]
struct LastBound {
    left: u64,
    right: u64,
}

/// Why a line could not be served.
#[derive(Debug, Clone, Copy, PartialEq, Eq, Structural)]
pub enum LineError {
    /// The line is not in the file, or not in the bytes that were read for it.
    NotFound(u64),
}

/// The bytes to read from the file so that a line can be served: lines
/// `[left_line, right_line)`, which `length` bytes from `offset` hold.
#[derive(Debug, Clone, Copy, PartialEq, Eq, Structural)]
pub struct ReadPlan {
    pub left_line: u64,
    pub right_line: u64,
    pub offset: u64,
    pub length: u64,
}

/// What a line request comes to: the answer from the cached window, or the
/// read that must come first.
#[derive(Debug, PartialEq, Eq)]
pub enum LineStep {
    Ready(Result<String, LineError>),
    Fetch(ReadPlan),
}

/// Line access to an indexed file. The file's bytes stay where they are;
/// the view keeps the index and one window of decoded lines.
pub struct LineBasedFileView {
    lines: Vec<LineChunk>,
    line_cache: Vec<String>,
    last_bounds: Option<LastBound>,
    def_cache_size: u64,
    content: Ghost<Seq<u8>>,
}

impl LineBasedFileView {
    /// The bytes of the file that was indexed.
    pub closed spec fn content(&self) -> Seq<u8> {
        self.content@
    }

    /// Lines per chunk, which is also the radius of a window.
    pub closed spec fn chunk_size(&self) -> u64 {
        self.def_cache_size
    }

    pub closed spec fn index(&self) -> Seq<LineChunk> {
        self.lines@
    }

    /// The lines `[left, right)` that the cached window stands for, if any.
    pub closed spec fn window(&self) -> Option<(u64, u64)> {
        match self.last_bounds {
            Some(b) => Some((b.left, b.right)),
            None => None,
        }
    }

    /// The decoded lines of the cached window.
    pub closed spec fn cached(&self) -> Seq<Seq<char>> {
        self.line_cache@.map_values(|s: String| s@)
    }

    pub open spec fn total_lines(&self) -> int {
        line_ends(self.content()).len() as int
    }

    pub open spec fn in_window(&self, index: u64) -> bool {
        match self.window() {
            Some((l, r)) => l <= index < r,
            None => false,
        }
    }

    /// The chunks to read for line `index`: the lines within one chunk size
    /// of it, clamped to the file, widened to whole chunks; a chunk number
    /// past the index stands for the first chunk on the left and the last
    /// one on the right.
    pub open spec fn plan_chunks(&self, index: u64) -> (int, int) {
        let cs = self.chunk_size() as int;
        let m = self.index().len() as int;
        let lc = self.total_lines();
        let left = if index > cs { index - cs } else { 0 };
        let right = if index + cs < lc { index + cs } else { lc };
        let li = left / cs;
        let ri = right / cs;
        (if li < m { li } else { 0 }, if ri < m { ri } else { m - 1 })
    }

    /// The read for line `index`: from the start of the left chunk of
    /// `plan_chunks` to the end of its right chunk.
    pub open spec fn plan_for(&self, index: u64) -> ReadPlan {
        let idx = self.index();
        let lchunk = idx[self.plan_chunks(index).0];
        let rchunk = idx[self.plan_chunks(index).1];
        ReadPlan {
            left_line: lchunk.fst_line,
            right_line: rchunk.lst_line,
            offset: lchunk.left_offset,
            length: (rchunk.right_offset - lchunk.left_offset) as u64,
        }
    }

    pub closed spec fn wf(&self) -> bool {
        &&& self.def_cache_size > 0
        &&& self.content@.len() <= u64::MAX
        &&& self.lines@ == chunks_of(self.content@, self.def_cache_size as int)
        &&& match self.last_bounds {
            Some(b) => {
                &&& b.left <= b.right <= line_ends(self.content@).len()
                &&& self.line_cache@.map_values(|s: String| s@) == lines_of(self.content@).subrange(
                    b.left as int,
                    b.right as int,
                )
            },
            None => true,
        }
    }

    /// The view of the file whose bytes `builder` was handed, with no window
    /// cached yet.
    pub fn new(builder: IndexBuilder) -> (r: Self)
        requires
            builder.wf(),
        ensures
            r.wf(),
            r.content() == builder.content(),
            r.chunk_size() == builder.chunk_size(),
            r.index() == chunks_of(builder.content(), builder.chunk_size() as int),
            r.window() is None,
    {
        let ghost c = builder.content();
        let cs = builder.chunk_size;
        let lines = builder.finish();
        LineBasedFileView {
            lines,
            line_cache: Vec::new(),
            last_bounds: None,
            def_cache_size: cs,
            content: Ghost(c),
        }
    }

    /// The number of chunks in the index.
    pub fn page_count(&self) -> (r: usize)
        ensures
            r == self.index().len(),
    {
        self.lines.len()
    }

    /// The number of lines of the file.
    pub fn line_count(&self) -> (r: u64)
        requires
            self.wf(),
        ensures
            r == self.total_lines(),
    {
        let ghost e = line_ends(self.content@);
        let ghost cs = self.def_cache_size as int;
        proof {
            lemma_line_ends(self.content@);
            let m = chunk_count(e.len() as int, cs);
            lemma_chunk_count(e.len() as int, cs);
            lemma_chunk_bounds(self.content@, cs, m - 1, m - 1);
        }
        let last = self.lines[self.lines.len() - 1];
        last.lst_line
    }

    /// Which bytes to read so that line `index` can be served.
    fn plan_refill(&self, index: u64) -> (r: ReadPlan)
        requires
            self.wf(),
        ensures
            r == self.plan_for(index),
            r.left_line <= r.right_line <= self.total_lines(),
            r.offset + r.length <= self.content().len(),
            index < self.total_lines() ==> r.left_line <= index < r.right_line,
    {
        let cs = self.def_cache_size;
        let lc = self.line_count();
        let n = self.lines.len();
        let ghost c = self.content@;
        let ghost m = chunk_count(lc as int, cs as int);
        let left: u64 = if index > cs {
            index - cs
        } else {
            0
        };
        let right: u64 = if index >= lc {
            lc
        } else if lc - index > cs {
            index + cs
        } else {
            lc
        };
        let li = left / cs;
        let ri = right / cs;
        proof {
            lemma_plan_chunks(lc as int, cs as int, index as int);
            lemma_chunk_count(lc as int, cs as int);
        }
        let a: usize = if li < n as u64 {
            li as usize
        } else {
            0
        };
        let b: usize = if ri < n as u64 {
            ri as usize
        } else {
            n - 1
        };
        let lchunk = self.lines[a];
        let rchunk = self.lines[b];
        proof {
            lemma_chunk_bounds(c, cs as int, a as int, b as int);
            if index < lc && b as int != m - 1 {
                assert((b as int + 1) * (cs as int) <= lc) by (nonlinear_arith)
                    requires b + 1 <= m - 1, (m - 1) * cs < lc, cs > 0;
            }
        }
        ReadPlan {
            left_line: lchunk.fst_line,
            right_line: rchunk.lst_line,
            offset: lchunk.left_offset,
            length: rchunk.right_offset - lchunk.left_offset,
        }
    }

    /// Line `index`, when the cached window holds it; otherwise the read that
    /// must come first (hand its bytes to `refill_and_get`). A line that the
    /// window holds is the file's line, so a hit answers as a read would.
    pub fn get_line(&self, index: u64) -> (r: LineStep)
        requires
            self.wf(),
        ensures
            self.in_window(index) ==> match r {
                LineStep::Ready(res) => res is Ok && res->Ok_0@ == line_text(
                    self.content(),
                    index as int,
                ),
                LineStep::Fetch(_) => false,
            },
            !self.in_window(index) ==> r == LineStep::Fetch(self.plan_for(index)),
            index >= self.total_lines() ==> !self.in_window(index),
    {
        if let Some(b) = self.last_bounds {
            if b.left <= index && index < b.right {
                let k = index - b.left;
                proof {
                    assert(self.cached() == lines_of(self.content@).subrange(b.left as int, b.right as int));
                    assert(self.cached()[k as int] == line_text(self.content@, index as int));
                }
                if k < self.line_cache.len() as u64 {
                    let line = self.line_cache[k as usize].clone();
                    return LineStep::Ready(Ok(line));
                } else {
                    return LineStep::Ready(Err(LineError::NotFound(index)));
                }
            }
        }
        LineStep::Fetch(self.plan_refill(index))
    }

    /// Serves line `index` from `bytes`, the file's bytes that
    /// `plan_for(index)` names (the file only grows, so bytes read later at
    /// that place are still these): they become the cached window, replacing
    /// the one before.
    pub fn refill_and_get(&mut self, index: u64, bytes: &[u8]) -> (r: Result<String, LineError>)
        requires
            old(self).wf(),
            bytes@ == old(self).content().subrange(
                old(self).plan_for(index).offset as int,
                old(self).plan_for(index).offset + old(self).plan_for(index).length,
            ),
        ensures
            final(self).wf(),
            final(self).content() == old(self).content(),
            final(self).chunk_size() == old(self).chunk_size(),
            final(self).index() == old(self).index(),
            final(self).window() == Some(
                (old(self).plan_for(index).left_line, old(self).plan_for(index).right_line),
            ),
            index < old(self).total_lines() ==> final(self).in_window(index) && r is Ok && r->Ok_0@
                == line_text(old(self).content(), index as int),
            index >= old(self).total_lines() ==> r == Err::<String, LineError>(
                LineError::NotFound(index),
            ),
    {
        let plan = self.plan_refill(index);
        proof {
            let c = self.content@;
            let cs = self.def_cache_size as int;
            let (a, b) = self.plan_chunks(index);
            lemma_plan_chunks(line_ends(c).len() as int, cs, index as int);
            lemma_chunk_bounds(c, cs, a, b);
            lemma_lines_between(c, a * cs, self.lines@[b].lst_line as int);
        }
        self.last_bounds = Some(LastBound { left: plan.left_line, right: plan.right_line });
        self.line_cache = split_lines(bytes);
        proof {
            assert(self.cached() =~= lines_of(bytes@));
        }
        match self.get_line(index) {
            LineStep::Ready(res) => res,
            LineStep::Fetch(_) => Err(LineError::NotFound(index)),
        }
    }
}

/// Whatever lines a view has served before, the window holds only the
/// file's own lines: a line served from the cache has the text that a fresh
/// read of it gives.
pub proof fn lemma_cache_holds_file_lines(v: LineBasedFileView, index: u64)
    requires
        v.wf(),
        v.in_window(index),
    ensures
        index < v.total_lines(),
        v.cached()[index - v.window()->Some_0.0] == line_text(v.content(), index as int),
{
}

/// Line `l` is one of the chunk's lines.
pub open spec fn chunk_holds(ch: LineChunk, l: int) -> bool {
    ch.fst_line <= l < ch.lst_line
}

/// The chunk of `idx` that holds line `l`: number `l / cs`, if that chunk
/// exists and holds it.
pub open spec fn line_chunk(idx: Seq<LineChunk>, cs: int, l: int) -> int {
    if 0 <= l / cs < idx.len() && chunk_holds(idx[l / cs], l) {
        l / cs
    } else {
        -1
    }
}

/// The bytes of the chunks `[k, idx.len())` laid end to end.
pub open spec fn joined_ranges(c: Seq<u8>, idx: Seq<LineChunk>, k: int) -> Seq<u8>
    decreases idx.len() - k,
{
    if k >= idx.len() || k < 0 {
        Seq::empty()
    } else {
        c.subrange(idx[k].left_offset as int, idx[k].right_offset as int) + joined_ranges(c, idx, k + 1)
    }
}

/// The index partitions the file: its chunks, laid end to end, give back the
/// file byte for byte; they follow each other without gap or overlap in lines
/// and bytes; and each line of the file lies in exactly one chunk.
pub proof fn lemma_index_partition(c: Seq<u8>, cs: int)
    requires
        cs > 0,
        c.len() <= u64::MAX,
    ensures
        ({
            let idx = chunks_of(c, cs);
            let n = line_ends(c).len() as int;
            &&& idx.len() >= 1
            &&& idx[0].fst_line == 0 && idx[0].left_offset == 0
            &&& idx.last().lst_line == n && idx.last().right_offset == c.len()
            &&& forall|k: int|
                0 <= k < idx.len() - 1 ==> (#[trigger] idx[k]).right_offset == idx[k + 1].left_offset
                    && idx[k].lst_line == idx[k + 1].fst_line
            &&& joined_ranges(c, idx, 0) == c
            &&& forall|l: int| 0 <= l < n ==> #[trigger] line_chunk(idx, cs, l) == l / cs
            &&& forall|l: int, j: int, k: int|
                0 <= j < idx.len() && 0 <= k < idx.len() && #[trigger] chunk_holds(idx[j], l)
                    && #[trigger] chunk_holds(idx[k], l) ==> j == k
        }),
{
    let idx = chunks_of(c, cs);
    let e = line_ends(c);
    let n = e.len() as int;
    let m = idx.len() as int;
    lemma_line_ends(c);
    lemma_chunk_count(n, cs);
    lemma_chunk_bounds(c, cs, 0, m - 1);
    assert(0 * cs == 0);
    assert forall|k: int| 0 <= k < m - 1 implies (#[trigger] idx[k]).right_offset == idx[k + 1].left_offset
        && idx[k].lst_line == idx[k + 1].fst_line by {
        lemma_chunk_bounds(c, cs, k, k + 1);
    }
    lemma_joined_from(c, cs, 0);
    assert(c.subrange(0, c.len() as int) =~= c);
    assert forall|l: int| 0 <= l < n implies #[trigger] line_chunk(idx, cs, l) == l / cs by {
        lemma_line_in_its_chunk(c, cs, l);
    }
    assert forall|l: int, j: int, k: int|
        0 <= j < idx.len() && 0 <= k < idx.len() && #[trigger] chunk_holds(idx[j], l)
            && #[trigger] chunk_holds(idx[k], l) implies j == k by {
        lemma_chunk_of_line_unique(c, cs, l, j);
        lemma_chunk_of_line_unique(c, cs, l, k);
    }
}

proof fn lemma_line_in_its_chunk(c: Seq<u8>, cs: int, l: int)
    requires
        cs > 0,
        c.len() <= u64::MAX,
        0 <= l < line_ends(c).len(),
    ensures
        0 <= l / cs < chunks_of(c, cs).len(),
        chunk_holds(chunks_of(c, cs)[l / cs], l),
{
    let n = line_ends(c).len() as int;
    lemma_chunk_of_line(n, cs, l);
    let k = l / cs;
    lemma_chunk_bounds(c, cs, k, k);
    assert((k + 1) * cs == k * cs + cs) by (nonlinear_arith);
}

proof fn lemma_chunk_of_line_unique(c: Seq<u8>, cs: int, l: int, j: int)
    requires
        cs > 0,
        c.len() <= u64::MAX,
        0 <= j < chunks_of(c, cs).len(),
        chunk_holds(chunks_of(c, cs)[j], l),
    ensures
        j == l / cs,
{
    lemma_chunk_bounds(c, cs, j, j);
    assert((j + 1) * cs == j * cs + cs) by (nonlinear_arith);
    lemma_div_between(l, cs, j);
}

proof fn lemma_joined_from(c: Seq<u8>, cs: int, k: int)
    requires
        cs > 0,
        c.len() <= u64::MAX,
        0 <= k <= chunks_of(c, cs).len(),
    ensures
        ({
            let idx = chunks_of(c, cs);
            let m = idx.len() as int;
            joined_ranges(c, idx, k) == c.subrange(
                if k < m { idx[k].left_offset as int } else { c.len() as int },
                c.len() as int,
            )
        }),
    decreases chunks_of(c, cs).len() - k,
{
    let idx = chunks_of(c, cs);
    let m = idx.len() as int;
    let n = line_ends(c).len() as int;
    lemma_chunk_count(n, cs);
    lemma_line_ends(c);
    if k < m {
        lemma_joined_from(c, cs, k + 1);
        lemma_chunk_bounds(c, cs, k, m - 1);
        if k + 1 < m {
            lemma_chunk_bounds(c, cs, k, k + 1);
        } else {
            assert(idx[k].lst_line == n);
            assert(line_start(line_ends(c), n) == c.len());
            assert(idx[k].right_offset == c.len());
        }
        assert(c.subrange(idx[k].left_offset as int, idx[k].right_offset as int) + c.subrange(
            if k + 1 < m { idx[k + 1].left_offset as int } else { c.len() as int },
            c.len() as int,
        ) =~= c.subrange(idx[k].left_offset as int, c.len() as int));
    } else {
        assert(c.subrange(c.len() as int, c.len() as int) =~= Seq::<u8>::empty());
    }
}

/// Whichever window of whole chunks a line is decoded from, it gets the same
/// text: the window's lines are exactly the file's lines that its chunks span.
pub proof fn lemma_window_text(c: Seq<u8>, cs: int, a: int, b: int)
    requires
        cs > 0,
        c.len() <= u64::MAX,
        0 <= a <= b < chunks_of(c, cs).len(),
    ensures
        ({
            let idx = chunks_of(c, cs);
            lines_of(c.subrange(idx[a].left_offset as int, idx[b].right_offset as int)) == lines_of(
                c,
            ).subrange(idx[a].fst_line as int, idx[b].lst_line as int)
        }),
{
    lemma_chunk_bounds(c, cs, a, b);
    lemma_lines_between(c, a * cs, chunks_of(c, cs)[b].lst_line as int);
}

/// The window that a read for a line of the file brings in holds that line,
/// so the next request for it is served without a read.
pub proof fn lemma_refill_covers(v: LineBasedFileView, index: u64)
    requires
        v.wf(),
        index < v.total_lines(),
    ensures
        v.plan_for(index).left_line <= index < v.plan_for(index).right_line,
{
    let c = v.content();
    let cs = v.chunk_size() as int;
    let n = v.total_lines();
    let (a, b) = v.plan_chunks(index);
    lemma_plan_chunks(n, cs, index as int);
    lemma_chunk_bounds(c, cs, a, b);
    lemma_chunk_count(n, cs);
    if b != chunk_count(n, cs) - 1 {
        lemma_chunk_bounds(c, cs, b, b + 1);
    }
}

} // verus!
