//! Splitting a byte buffer into lines, the way a line-oriented reader does:
//! a line ends after `\n`, a last line without `\n` still counts, and the
//! text of a line drops its `\n` and a `\r` just before it.
use vstd::prelude::*;

verus! {

pub const NEWLINE: u8 = 10;

pub const CARRIAGE_RETURN: u8 = 13;

/// The end offsets (one past the last byte, terminator included) of the lines
/// of `c`. A byte that follows a `\n`, or the first byte, opens a new line;
/// any other byte extends the line that is open.
pub open spec fn line_ends(c: Seq<u8>) -> Seq<int>
    decreases c.len(),
{
    if c.len() == 0 {
        Seq::empty()
    } else {
        let p = c.drop_last();
        let e = line_ends(p);
        if p.len() == 0 || p.last() == NEWLINE {
            e.push(c.len() as int)
        } else {
            e.update(e.len() - 1, c.len() as int)
        }
    }
}

/// Offset of the first byte of line `k`, given the end offsets `e`.
pub open spec fn line_start(e: Seq<int>, k: int) -> int {
    if k <= 0 {
        0
    } else {
        e[k - 1]
    }
}

/// A line's bytes without its terminator: the final `\n`, and a `\r` before it.
pub open spec fn strip_terminator(raw: Seq<u8>) -> Seq<u8> {
    if raw.len() > 0 && raw.last() == NEWLINE {
        let r = raw.drop_last();
        if r.len() > 0 && r.last() == CARRIAGE_RETURN {
            r.drop_last()
        } else {
            r
        }
    } else {
        raw
    }
}

/// The text that `String::from_utf8_lossy` makes of some bytes.
pub uninterp spec fn lossy_text(b: Seq<u8>) -> Seq<char>;

/// The text of line `k` of `c`, where `e` gives the line ends.
pub open spec fn segment_text(c: Seq<u8>, e: Seq<int>, k: int) -> Seq<char> {
    lossy_text(strip_terminator(c.subrange(line_start(e, k), e[k])))
}

/// The text of line `k` of `c`.
pub open spec fn line_text(c: Seq<u8>, k: int) -> Seq<char> {
    segment_text(c, line_ends(c), k)
}

/// The texts of all the lines of `c`, in order.
pub open spec fn lines_of(c: Seq<u8>) -> Seq<Seq<char>> {
    Seq::new(line_ends(c).len(), |k: int| line_text(c, k))
}

/// Relies on `String::from_utf8_lossy`: valid UTF-8 is kept and each invalid
/// sequence becomes U+FFFD, so the text depends on the bytes alone.
#[verifier::external_body]
fn decode_lossy(b: &[u8], start: usize, end: usize) -> (r: String)
    requires
        start <= end <= b@.len(),
    ensures
        r@ == lossy_text(b@.subrange(start as int, end as int)),
{
    String::from_utf8_lossy(&b[start..end]).into_owned()
}

/// Basic facts on line ends: they increase, lie within `c`, the last one is
/// the end of `c`, and there are no more lines than bytes.
pub proof fn lemma_line_ends(c: Seq<u8>)
    ensures
        line_ends(c).len() <= c.len(),
        line_ends(c).len() == 0 <==> c.len() == 0,
        line_ends(c).len() > 0 ==> line_ends(c).last() == c.len(),
        forall|k: int| 0 <= k < line_ends(c).len() ==> 0 < #[trigger] line_ends(c)[k] <= c.len(),
        forall|j: int, k: int|
            0 <= j < k < line_ends(c).len() ==> #[trigger] line_ends(c)[j] < #[trigger] line_ends(
                c,
            )[k],
        forall|k: int| 0 <= k < line_ends(c).len() - 1 ==> c[#[trigger] line_ends(c)[k] - 1] == NEWLINE,
    decreases c.len(),
{
    if c.len() > 0 {
        lemma_line_ends(c.drop_last());
    }
}

/// Growing a prefix that ends at a line start keeps its line ends, and any
/// further byte opens a new line.
proof fn lemma_prefix_grows(c: Seq<u8>, t: int, j: int)
    requires
        0 <= t <= j <= c.len(),
        t == 0 || c[t - 1] == NEWLINE,
    ensures
        ({
            let et = line_ends(c.subrange(0, t));
            let ej = line_ends(c.subrange(0, j));
            &&& ej.len() >= et.len()
            &&& ej.subrange(0, et.len() as int) == et
            &&& j > t ==> ej.len() > et.len()
        }),
    decreases j - t,
{
    let et = line_ends(c.subrange(0, t));
    if j == t {
        assert(et.subrange(0, et.len() as int) =~= et);
    } else {
        lemma_prefix_grows(c, t, j - 1);
        assert(c.subrange(0, j).drop_last() =~= c.subrange(0, j - 1));
        let ej = line_ends(c.subrange(0, j));
        assert(ej.subrange(0, et.len() as int) =~= et);
    }
}

/// Where a line starts, the bytes before it are lines of their own: the line
/// ends of that prefix are the first line ends of the whole.
pub proof fn lemma_prefix_ends(c: Seq<u8>, t: int)
    requires
        0 <= t <= c.len(),
        t == 0 || c[t - 1] == NEWLINE,
    ensures
        line_ends(c.subrange(0, t)).len() <= line_ends(c).len(),
        line_ends(c.subrange(0, t)) == line_ends(c).subrange(0, line_ends(c.subrange(0, t)).len() as int),
{
    lemma_prefix_grows(c, t, c.len() as int);
    assert(c.subrange(0, c.len() as int) =~= c);
}

/// The line ends of the bytes from a line start `s` to `t`: those of the
/// whole prefix up to `t`, less the lines before `s`, moved back by `s`.
proof fn lemma_shifted_ends(c: Seq<u8>, s: int, t: int)
    requires
        0 <= s <= t <= c.len(),
        s == 0 || c[s - 1] == NEWLINE,
    ensures
        ({
            let es = line_ends(c.subrange(0, s));
            let et = line_ends(c.subrange(0, t));
            &&& et.len() >= es.len()
            &&& line_ends(c.subrange(s, t)) == Seq::new(
                (et.len() - es.len()) as nat,
                |i: int| et[es.len() + i] - s,
            )
        }),
    decreases t - s,
{
    let es = line_ends(c.subrange(0, s));
    if t == s {
        assert(line_ends(c.subrange(s, t)) =~= Seq::new(0, |i: int| 0int));
        assert(Seq::new((es.len() - es.len()) as nat, |i: int| es[es.len() + i] - s) =~= Seq::new(0, |i: int| 0int));
    } else {
        lemma_shifted_ends(c, s, t - 1);
        let e0 = line_ends(c.subrange(0, t - 1));
        let d0 = line_ends(c.subrange(s, t - 1));
        assert(c.subrange(0, t).drop_last() =~= c.subrange(0, t - 1));
        assert(c.subrange(s, t).drop_last() =~= c.subrange(s, t - 1));
        let e1 = line_ends(c.subrange(0, t));
        let d1 = line_ends(c.subrange(s, t));
        lemma_line_ends(c.subrange(s, t - 1));
        assert(d1 =~= Seq::new((e1.len() - es.len()) as nat, |i: int| e1[es.len() + i] - s));
    }
}

/// The lines of the bytes between two line starts of `c` are those lines of
/// `c`, with the same texts.
pub proof fn lemma_lines_between(c: Seq<u8>, p: int, q: int)
    requires
        0 <= p <= q <= line_ends(c).len(),
    ensures
        lines_of(c.subrange(line_start(line_ends(c), p), line_start(line_ends(c), q))) == lines_of(
            c,
        ).subrange(p, q),
{
    let e = line_ends(c);
    let n = e.len() as int;
    let s = line_start(e, p);
    let t = line_start(e, q);
    lemma_line_ends(c);
    let sub = c.subrange(s, t);
    if p == q {
        assert(sub.len() == 0);
        assert(lines_of(sub) =~= lines_of(c).subrange(p, q));
    } else {
        // both ends are line starts, so each prefix ends with whole lines
        assert(s == 0 || c[s - 1] == NEWLINE);
        lemma_prefix_ends(c, s);
        let es = line_ends(c.subrange(0, s));
        lemma_line_ends(c.subrange(0, s));
        if es.len() > 0 {
            assert(es.last() == s);
            assert(e[es.len() - 1] == s);
            if es.len() - 1 < p - 1 {
                assert(e[es.len() - 1] < e[p - 1]);
            }
            if es.len() - 1 > p - 1 {
                assert(e[p - 1] < e[es.len() - 1]);
            }
        } else if p > 0 {
            assert(e[p - 1] > 0);
        }
        assert(es.len() == p);
        let et = line_ends(c.subrange(0, t));
        if q == n {
            assert(t == c.len());
            assert(c.subrange(0, t) =~= c);
        } else {
            assert(t == 0 || c[t - 1] == NEWLINE);
            lemma_prefix_ends(c, t);
            lemma_line_ends(c.subrange(0, t));
            if et.len() > 0 {
                assert(e[et.len() - 1] == t);
                if et.len() - 1 < q - 1 {
                    assert(e[et.len() - 1] < e[q - 1]);
                }
                if et.len() - 1 > q - 1 {
                    assert(e[q - 1] < e[et.len() - 1]);
                }
            } else if q > 0 {
                assert(e[q - 1] > 0);
            }
        }
        assert(et.len() == q);
        assert(et =~= e.subrange(0, q));
        lemma_shifted_ends(c, s, t);
        let d = line_ends(sub);
        assert forall|i: int| 0 <= i < q - p implies lines_of(sub)[i] == lines_of(c)[p + i] by {
            assert(line_start(d, i) == line_start(e, p + i) - s);
            assert(sub.subrange(line_start(d, i), d[i]) =~= c.subrange(line_start(e, p + i), e[p + i]));
        }
        assert(lines_of(sub) =~= lines_of(c).subrange(p, q));
    }
}

/// Splits `bytes` into the texts of its lines.
pub fn split_lines(bytes: &[u8]) -> (r: Vec<String>)
    ensures
        r@.len() == line_ends(bytes@).len(),
        forall|k: int| 0 <= k < r@.len() ==> (#[trigger] r@[k])@ == line_text(bytes@, k),
{
    let mut out: Vec<String> = Vec::new();
    let mut start: usize = 0;
    let mut i: usize = 0;
    let ghost c = bytes@;
    while i < bytes.len()
        invariant
            c == bytes@,
            start <= i <= c.len(),
            ({
                let e = line_ends(c.subrange(0, i as int));
                let closed = i == 0 || c[i - 1] == NEWLINE;
                &&& e.len() == 0 <==> i == 0
                &&& e.len() > 0 ==> e.last() == i
                &&& out@.len() == if closed { e.len() } else { (e.len() - 1) as nat }
                &&& start == line_start(e, out@.len() as int)
                &&& closed ==> start == i
                &&& !closed ==> start < i
                &&& forall|k: int| 0 <= k < out@.len() ==> (#[trigger] out@[k])@ == segment_text(c, e, k)
            }),
        decreases c.len() - i,
    {
        let ghost e0 = line_ends(c.subrange(0, i as int));
        assert(c.subrange(0, i + 1).drop_last() =~= c.subrange(0, i as int));
        if bytes[i] == NEWLINE {
            let end = if i > start && bytes[i - 1] == CARRIAGE_RETURN {
                i - 1
            } else {
                i
            };
            let s = decode_lossy(bytes, start, end);
            let ghost e1 = line_ends(c.subrange(0, i + 1));
            proof {
                let k = out@.len() as int;
                assert(e1[k] == i + 1);
                assert(line_start(e1, k) == start);
                let raw = c.subrange(start as int, i + 1);
                assert(raw.drop_last() =~= c.subrange(start as int, i as int));
                if i > start && c[i - 1] == CARRIAGE_RETURN {
                    assert(raw.drop_last().drop_last() =~= c.subrange(start as int, end as int));
                } else {
                    assert(raw.drop_last() =~= c.subrange(start as int, end as int));
                }
                assert(strip_terminator(raw) =~= c.subrange(start as int, end as int));
                assert forall|j: int| 0 <= j < k implies segment_text(c, e1, j) == segment_text(c, e0, j) by {
                    assert(line_start(e1, j) == line_start(e0, j));
                }
            }
            out.push(s);
            start = i + 1;
        } else {
            proof {
                let e1 = line_ends(c.subrange(0, i + 1));
                let k = out@.len() as int;
                assert forall|j: int| 0 <= j < k implies segment_text(c, e1, j) == segment_text(c, e0, j) by {
                    assert(line_start(e1, j) == line_start(e0, j));
                }
            }
        }
        i = i + 1;
    }
    proof {
        assert(c.subrange(0, i as int) =~= c);
    }
    if start < i {
        let s = decode_lossy(bytes, start, i);
        proof {
            let e = line_ends(c);
            let k = out@.len() as int;
            assert(c.subrange(line_start(e, k), e[k]) =~= c.subrange(start as int, i as int));
        }
        out.push(s);
    }
    out
}

} // verus!
