//! Source positions: byte ranges into a file, and the lines and columns they
//! fall on.
use std::ops::Range;
use vstd::prelude::*;
use vstd::string::*;
use vstd::utf8::*;

verus! {

/// Identifies one source file within a [`SourceMap`].
#[derive(Clone, Copy, PartialEq, Eq, Hash, Structural, Debug)]
pub struct SourceId(pub u32);

/// A half-open byte range `[lo, hi)` into a source file.
#[derive(Clone, Copy, PartialEq, Eq, Hash, Structural, Debug)]
pub struct Span {
    pub lo: u32,
    pub hi: u32,
}

impl Span {
    /// The span of a node that no source text stands for.
    pub fn dummy() -> (s: Span)
        ensures
            s == (Span { lo: 0, hi: 0 }),
    {
        Span { lo: 0, hi: 0 }
    }

    pub fn new(lo: u32, hi: u32) -> (s: Span)
        requires
            lo <= hi,
        ensures
            s == (Span { lo, hi }),
    {
        Span { lo, hi }
    }

    /// The smallest span covering both.
    pub fn to(self, other: Span) -> (s: Span)
        ensures
            s.lo == (if self.lo < other.lo {
                self.lo
            } else {
                other.lo
            }),
            s.hi == (if self.hi > other.hi {
                self.hi
            } else {
                other.hi
            }),
    {
        Span {
            lo: if self.lo < other.lo {
                self.lo
            } else {
                other.lo
            },
            hi: if self.hi > other.hi {
                self.hi
            } else {
                other.hi
            },
        }
    }

    pub fn len(self) -> (n: u32)
        requires
            self.lo <= self.hi,
        ensures
            n == self.hi - self.lo,
    {
        self.hi - self.lo
    }

    pub fn is_empty(self) -> (r: bool)
        ensures
            r == (self.lo == self.hi),
    {
        self.lo == self.hi
    }

    pub fn range(self) -> (r: Range<usize>)
        ensures
            r.start == self.lo,
            r.end == self.hi,
    {
        self.lo as usize..self.hi as usize
    }
}

/// A line and a column, both counted from one. Columns count characters, not
/// bytes.
#[derive(Clone, Copy, PartialEq, Eq, Structural, Debug)]
pub struct LineCol {
    pub line: u32,
    pub col: u32,
}

/// One source file: its name, its text, and where each line starts.
#[derive(Clone, Debug)]
pub struct SourceFile {
    pub name: String,
    pub src: String,
    pub line_starts: Vec<u32>,
}

/// Newlines among the first `n` bytes.
pub open spec fn newlines(b: Seq<u8>, n: int) -> int
    decreases n,
{
    if n <= 0 {
        0
    } else {
        newlines(b, n - 1) + (if b[n - 1] == 10 {
            1int
        } else {
            0
        })
    }
}

/// Where the line that byte `n` is on starts.
pub open spec fn line_start(b: Seq<u8>, n: int) -> int
    decreases n,
{
    if n <= 0 {
        0
    } else if b[n - 1] == 10 {
        n
    } else {
        line_start(b, n - 1)
    }
}

/// Where every line that starts within the first `n` bytes does so.
pub open spec fn starts(b: Seq<u8>, n: int) -> Seq<int>
    decreases n,
{
    if n <= 0 {
        seq![0int]
    } else if b[n - 1] == 10 {
        starts(b, n - 1).push(n)
    } else {
        starts(b, n - 1)
    }
}

/// `b` without the line ends at its end.
pub open spec fn without_line_end(b: Seq<u8>) -> Seq<u8>
    decreases b.len(),
{
    if b.len() > 0 && (b.last() == 10 || b.last() == 13) {
        without_line_end(b.drop_last())
    } else {
        b
    }
}

/// The bytes of a line, counted from one, without its line end. A line there is none
/// of has those of the whole text.
pub open spec fn line_bytes(b: Seq<u8>, line: int) -> Seq<u8> {
    let s = starts(b, b.len() as int);
    let i = if line == 0 {
        0
    } else {
        line - 1
    };
    let from = if i < s.len() {
        s[i]
    } else {
        0
    };
    let to = if i + 1 < s.len() {
        s[i + 1]
    } else {
        b.len() as int
    };
    without_line_end(b.subrange(from, to))
}

/// The line and the column of byte `n`, both counted from one, the column in
/// characters.
pub open spec fn position(b: Seq<u8>, n: int) -> (int, int) {
    (newlines(b, n) + 1, decode_utf8(b.subrange(line_start(b, n), n)).len() as int + 1)
}

/// The first `n` lines with a newline between each two.
pub open spec fn joined(b: Seq<u8>, n: int) -> Seq<u8>
    decreases n,
{
    if n <= 1 {
        line_bytes(b, 1)
    } else {
        joined(b, n - 1).push(10) + line_bytes(b, n)
    }
}

proof fn lemma_starts(b: Seq<u8>, m: int, n: int)
    requires
        0 <= m <= n <= b.len(),
    ensures
        starts(b, n).len() == newlines(b, n) + 1,
        0 <= newlines(b, m) <= newlines(b, n) <= n,
        0 <= line_start(b, m) <= m,
        starts(b, n)[newlines(b, m)] == line_start(b, m),
        forall|k: int| newlines(b, m) < k < starts(b, n).len() ==> m < #[trigger] starts(b, n)[k],
        forall|k: int| 0 <= k <= newlines(b, m) ==> 0 <= #[trigger] starts(b, n)[k] <= m,
    decreases n,
{
    if n > 0 {
        if m < n {
            lemma_starts(b, m, n - 1);
        } else {
            lemma_starts(b, n - 1, n - 1);
        }
    }
}

/// A line starts at the file's first byte or behind a newline.
proof fn lemma_start_is_boundary(b: Seq<u8>, k: int)
    requires
        valid_utf8(b),
        0 <= k < starts(b, b.len() as int).len(),
    ensures
        0 <= starts(b, b.len() as int)[k] <= b.len(),
        is_char_boundary(b, starts(b, b.len() as int)[k]),
{
    lemma_behind_newline(b, b.len() as int, k);
}

proof fn lemma_behind_newline(b: Seq<u8>, n: int, k: int)
    requires
        valid_utf8(b),
        0 <= n <= b.len(),
        0 <= k < starts(b, n).len(),
    ensures
        0 <= starts(b, n)[k] <= n,
        is_char_boundary(b, starts(b, n)[k]),
    decreases n,
{
    if n > 0 {
        if k < starts(b, n - 1).len() {
            lemma_behind_newline(b, n - 1, k);
        } else {
            lemma_after_ascii(b, n - 1);
        }
    }
}

/// Behind a one-byte character a new one begins.
proof fn lemma_after_ascii(b: Seq<u8>, i: int)
    requires
        valid_utf8(b),
        0 <= i < b.len(),
        b[i] < 128,
    ensures
        is_char_boundary(b, i),
        is_char_boundary(b, i + 1),
    decreases b.len(),
{
    reveal_with_fuel(is_char_boundary, 3);
    let l = length_of_first_scalar(b);
    let u = b[i];
    assert(is_leading_byte_width_1(u) && !is_continuation_byte(u)) by {
        broadcast use utf8_byte_ranges_bitwise;

    }
    if i < l {
        assert(i == 0);
        assert(l == 1);
    } else {
        let rest = pop_first_scalar(b);
        assert(rest[i - l] == b[i]);
        lemma_after_ascii(rest, i - l);
    }
}

/// A boundary of the whole is one of any part that begins the whole and reaches it.
proof fn lemma_boundary_of_prefix(b: Seq<u8>, lo: int, hi: int)
    requires
        valid_utf8(b),
        0 <= lo <= hi <= b.len(),
        is_char_boundary(b, lo),
        is_char_boundary(b, hi),
    ensures
        valid_utf8(b.subrange(0, hi)),
        is_char_boundary(b.subrange(0, hi), lo),
{
    let p = b.subrange(0, hi);
    valid_utf8_split(b, hi);
    if lo < hi {
        is_char_boundary_iff_not_is_continuation_byte(b, lo);
        is_char_boundary_iff_not_is_continuation_byte(p, lo);
    } else {
        is_char_boundary_start_end_of_seq(p);
        assert(p.len() == lo);
    }
}

/// The part of a text between two boundaries.
fn cut(s: &str, lo: usize, hi: usize) -> (r: &str)
    requires
        lo <= hi <= s.spec_bytes().len(),
        is_char_boundary(s.spec_bytes(), lo as int),
        is_char_boundary(s.spec_bytes(), hi as int),
    ensures
        r.spec_bytes() == s.spec_bytes().subrange(lo as int, hi as int),
        r@ == decode_utf8(s.spec_bytes().subrange(lo as int, hi as int)),
{
    proof {
        encode_utf8_valid_utf8(s@);
        lemma_boundary_of_prefix(s.spec_bytes(), lo as int, hi as int);
    }
    let head = s.split_at(hi).0;
    let r = head.split_at(lo).1;
    proof {
        assert(r.spec_bytes() =~= s.spec_bytes().subrange(lo as int, hi as int));
        encode_utf8_decode_utf8(r@);
    }
    r
}

impl SourceFile {
    /// The text's bytes.
    pub open spec fn bytes(self) -> Seq<u8> {
        encode_utf8(self.src@)
    }

    pub open spec fn wf(self) -> bool {
        &&& self.bytes().len() < u32::MAX
        &&& self.line_starts@.len() == starts(self.bytes(), self.bytes().len() as int).len()
        &&& forall|k: int|
            0 <= k < self.line_starts@.len() ==> #[trigger] self.line_starts@[k] == starts(
                self.bytes(),
                self.bytes().len() as int,
            )[k]
    }

    pub fn new(name: &str, src: &str) -> (f: SourceFile)
        requires
            encode_utf8(src@).len() < u32::MAX,
        ensures
            f.wf(),
            f.name@ == name@,
            f.src@ == src@,
    {
        let b = src.as_bytes();
        let mut line_starts: Vec<u32> = Vec::new();
        line_starts.push(0);
        let mut i: usize = 0;
        while i < b.len()
            invariant
                i <= b@.len() < u32::MAX,
                line_starts@.len() == starts(b@, i as int).len(),
                forall|k: int|
                    0 <= k < line_starts@.len() ==> #[trigger] line_starts@[k] == starts(
                        b@,
                        i as int,
                    )[k],
            decreases b@.len() - i,
        {
            if b[i] == 10 {
                line_starts.push((i + 1) as u32);
            }
            i += 1;
        }
        SourceFile { name: name.to_owned(), src: src.to_owned(), line_starts }
    }

    /// The text a span covers.
    pub fn slice(&self, span: Span) -> (r: &str)
        requires
            span.lo <= span.hi <= self.bytes().len(),
            is_char_boundary(self.bytes(), span.lo as int),
            is_char_boundary(self.bytes(), span.hi as int),
        ensures
            r.spec_bytes() == self.bytes().subrange(span.lo as int, span.hi as int),
    {
        cut(self.src.as_str(), span.lo as usize, span.hi as usize)
    }

    /// The line and column of a byte offset. An offset past the end counts as the
    /// end.
    pub fn line_col(&self, offset: u32) -> (r: LineCol)
        requires
            self.wf(),
            offset <= self.bytes().len() ==> is_char_boundary(self.bytes(), offset as int),
        ensures
            (r.line as int, r.col as int) == position(
                self.bytes(),
                if offset < self.bytes().len() {
                    offset as int
                } else {
                    self.bytes().len() as int
                },
            ),
    {
        let src = self.src.as_str();
        let ghost b = self.bytes();
        let n: usize = src.len();
        let off: usize = if (offset as usize) < n {
            offset as usize
        } else {
            n
        };
        proof {
            encode_utf8_valid_utf8(self.src@);
            is_char_boundary_start_end_of_seq(b);
            lemma_starts(b, off as int, b.len() as int);
        }
        let mut lo: usize = 0;
        let mut hi: usize = self.line_starts.len();
        while hi - lo > 1
            invariant
                self.wf(),
                b == self.bytes(),
                off <= b.len(),
                lo < hi <= self.line_starts@.len(),
                lo <= newlines(b, off as int) < hi,
                forall|k: int|
                    newlines(b, off as int) < k < starts(b, b.len() as int).len() ==> off
                        < #[trigger] starts(b, b.len() as int)[k],
                forall|k: int|
                    0 <= k <= newlines(b, off as int) ==> #[trigger] starts(b, b.len() as int)[k]
                        <= off,
            decreases hi - lo,
        {
            let mid: usize = lo + (hi - lo) / 2;
            assert(self.line_starts@[mid as int] == starts(b, b.len() as int)[mid as int]);
            if self.line_starts[mid] as usize <= off {
                lo = mid;
            } else {
                hi = mid;
            }
        }
        assert(self.line_starts@[lo as int] == starts(b, b.len() as int)[lo as int]);
        proof {
            lemma_start_is_boundary(b, lo as int);
        }
        let part = cut(src, self.line_starts[lo] as usize, off);
        let count: usize = part.unicode_len();
        proof {
            lemma_chars_fit(part@);
        }
        LineCol { line: lo as u32 + 1, col: count as u32 + 1 }
    }

    /// The text of a line, counted from one, without its line end. A line there is
    /// none of gives the whole text.
    pub fn line_text(&self, line: u32) -> (r: &str)
        requires
            self.wf(),
        ensures
            r.spec_bytes() == line_bytes(self.bytes(), line as int),
    {
        let src = self.src.as_str();
        let ghost b = self.bytes();
        let ghost s = starts(b, b.len() as int);
        let idx: usize = if line == 0 {
            0
        } else {
            (line - 1) as usize
        };
        let from: usize = if idx < self.line_starts.len() {
            self.line_starts[idx] as usize
        } else {
            0
        };
        let n: usize = src.len();
        let mut to: usize = if (idx as u64) + 1 < self.line_starts.len() as u64 {
            self.line_starts[idx + 1] as usize
        } else {
            n
        };
        proof {
            encode_utf8_valid_utf8(self.src@);
            is_char_boundary_start_end_of_seq(b);
            if idx < s.len() {
                lemma_start_is_boundary(b, idx as int);
            }
            if idx + 1 < s.len() {
                lemma_start_is_boundary(b, idx + 1);
                lemma_starts_rise(b, b.len() as int, idx as int);
            }
        }
        let bytes = src.as_bytes();
        let ghost end = to as int;
        while to > from && (bytes[to - 1] == 10 || bytes[to - 1] == 13)
            invariant
                valid_utf8(b),
                bytes@ == b,
                from <= to <= end <= b.len(),
                is_char_boundary(b, from as int),
                is_char_boundary(b, to as int),
                without_line_end(b.subrange(from as int, end)) == without_line_end(
                    b.subrange(from as int, to as int),
                ),
            decreases to - from,
        {
            proof {
                let cur = b.subrange(from as int, to as int);
                assert(cur.last() == b[to - 1]);
                assert(cur.drop_last() =~= b.subrange(from as int, to - 1));
                lemma_after_ascii(b, to - 1);
            }
            to -= 1;
        }
        proof {
            let cur = b.subrange(from as int, to as int);
            if to > from {
                assert(cur.last() == b[to - 1]);
            }
            assert(without_line_end(cur) == cur);
        }
        cut(src, from, to)
    }

    pub fn line_count(&self) -> (n: u32)
        requires
            self.wf(),
        ensures
            n == newlines(self.bytes(), self.bytes().len() as int) + 1,
    {
        proof {
            lemma_starts(self.bytes(), self.bytes().len() as int, self.bytes().len() as int);
        }
        self.line_starts.len() as u32
    }
}

proof fn lemma_starts_rise(b: Seq<u8>, n: int, k: int)
    requires
        0 <= n <= b.len(),
        0 <= k,
        k + 1 < starts(b, n).len(),
    ensures
        starts(b, n)[k] <= starts(b, n)[k + 1],
    decreases n,
{
    if n > 0 {
        if k + 1 < starts(b, n - 1).len() {
            lemma_starts_rise(b, n - 1, k);
        } else {
            lemma_starts(b, n - 1, n - 1);
        }
    }
}

/// A text has no more characters than bytes.
proof fn lemma_chars_fit(s: Seq<char>)
    ensures
        s.len() <= encode_utf8(s).len(),
    decreases s.len(),
{
    if s.len() > 0 {
        lemma_chars_fit(s.drop_first());
        assert(encode_scalar(s[0] as u32).len() >= 1);
    }
}

/// A collection of source files.
#[derive(Debug)]
pub struct SourceMap {
    pub files: Vec<SourceFile>,
}

impl SourceMap {
    pub fn new() -> (m: SourceMap)
        ensures
            m.files@.len() == 0,
    {
        SourceMap { files: Vec::new() }
    }

    pub fn add(&mut self, file: SourceFile) -> (id: SourceId)
        requires
            old(self).files@.len() <= u32::MAX,
        ensures
            id.0 == old(self).files@.len(),
            final(self).files@ == old(self).files@.push(file),
    {
        let id = SourceId(self.files.len() as u32);
        self.files.push(file);
        id
    }

    pub fn get(&self, id: SourceId) -> (f: &SourceFile)
        requires
            id.0 < self.files@.len(),
        ensures
            *f == self.files@[id.0 as int],
    {
        &self.files[id.0 as usize]
    }
}

/// Joining spans is the least cover: it covers both, and anything that covers both
/// covers it.
pub proof fn law_join_is_the_least_cover(a: Span, b: Span, j: Span, c: Span)
    requires
        j.lo == (if a.lo < b.lo {
            a.lo
        } else {
            b.lo
        }),
        j.hi == (if a.hi > b.hi {
            a.hi
        } else {
            b.hi
        }),
    ensures
        j.lo <= a.lo && a.hi <= j.hi,
        j.lo <= b.lo && b.hi <= j.hi,
        c.lo <= a.lo && a.hi <= c.hi && c.lo <= b.lo && b.hi <= c.hi ==> c.lo <= j.lo && j.hi
            <= c.hi,
{
}

/// The line number never falls as the offset grows, and the line an offset is on
/// starts at or before it.
pub proof fn law_lines_follow_offsets(b: Seq<u8>, m: int, n: int)
    requires
        0 <= m <= n <= b.len(),
    ensures
        newlines(b, m) <= newlines(b, n),
        line_start(b, m) <= m,
{
    lemma_starts(b, m, n);
}

/// A line ends with its newline and holds no other; the last line holds none.
proof fn lemma_between_starts(b: Seq<u8>, n: int, k: int)
    requires
        0 <= n <= b.len(),
        0 <= k < starts(b, n).len(),
    ensures
        0 <= starts(b, n)[k] <= n,
        k + 1 < starts(b, n).len() ==> starts(b, n)[k] < starts(b, n)[k + 1] <= n && b[starts(
            b,
            n,
        )[k + 1] - 1] == 10,
        forall|i: int|
            starts(b, n)[k] <= i < (if k + 1 < starts(b, n).len() {
                starts(b, n)[k + 1] - 1
            } else {
                n
            }) ==> #[trigger] b[i] != 10,
    decreases n,
{
    if n > 0 {
        let before = starts(b, n - 1);
        if k < before.len() {
            lemma_between_starts(b, n - 1, k);
        }
    }
}

proof fn lemma_joined(b: Seq<u8>, k: int)
    requires
        forall|i: int| 0 <= i < b.len() ==> #[trigger] b[i] != 13,
        1 <= k <= starts(b, b.len() as int).len(),
    ensures
        joined(b, k) == b.subrange(
            0,
            if k < starts(b, b.len() as int).len() {
                starts(b, b.len() as int)[k] - 1
            } else {
                b.len() as int
            },
        ),
    decreases k,
{
    let n = b.len() as int;
    let s = starts(b, n);
    lemma_between_starts(b, n, k - 1);
    lemma_starts(b, 0, n);
    let from = s[k - 1];
    let line = line_bytes(b, k);
    if k < s.len() {
        let raw = b.subrange(from, s[k]);
        let cut = b.subrange(from, s[k] - 1);
        assert(raw.last() == b[s[k] - 1]);
        assert(raw.drop_last() =~= cut);
        if cut.len() > 0 {
            assert(cut.last() == b[s[k] - 2]);
        }
        assert(without_line_end(raw) == without_line_end(cut));
        assert(without_line_end(cut) == cut);
        assert(line == cut);
    } else {
        let raw = b.subrange(from, n);
        if raw.len() > 0 {
            assert(raw.last() == b[n - 1]);
        }
        assert(line == raw);
    }
    if k > 1 {
        lemma_joined(b, k - 1);
        lemma_between_starts(b, n, k - 2);
        assert(joined(b, k - 1).push(10) =~= b.subrange(0, from));
    } else {
        assert(s[0] == 0);
    }
}

/// The lines are the text: where it holds no carriage return, there is one line more
/// than newlines, and the lines with a newline between each two are the text again.
pub proof fn law_lines_give_the_text_back(b: Seq<u8>)
    requires
        forall|i: int| 0 <= i < b.len() ==> #[trigger] b[i] != 13,
    ensures
        joined(b, newlines(b, b.len() as int) + 1) == b,
{
    lemma_starts(b, b.len() as int, b.len() as int);
    lemma_joined(b, newlines(b, b.len() as int) + 1);
    assert(b.subrange(0, b.len() as int) =~= b);
}

/// The starts found in a part are the first of those found in the whole.
proof fn lemma_starts_of_prefix(a: Seq<u8>, b: Seq<u8>, m: int, n: int)
    requires
        0 <= m <= n <= b.len(),
        m <= a.len(),
        forall|i: int| 0 <= i < m ==> #[trigger] a[i] == b[i],
    ensures
        starts(a, m).len() <= starts(b, n).len(),
        starts(a, m) == starts(b, n).take(starts(a, m).len() as int),
        newlines(a, m) == newlines(b, m),
        line_start(a, m) == line_start(b, m),
    decreases n,
{
    if m < n {
        lemma_starts_of_prefix(a, b, m, n - 1);
        lemma_starts(b, n, n);
        assert(starts(a, m) =~= starts(b, n).take(starts(a, m).len() as int));
    } else if n > 0 {
        lemma_starts_of_prefix(a, b, m - 1, n - 1);
        assert(starts(a, m) =~= starts(b, n)) by {
            assert(starts(a, m - 1) =~= starts(b, n - 1)) by {
                lemma_starts(a, m - 1, m - 1);
                lemma_starts(b, n - 1, n - 1);
            }
        }
        assert(starts(b, n) =~= starts(b, n).take(starts(a, m).len() as int));
    } else {
        assert(starts(b, n) =~= starts(b, n).take(1));
    }
}

/// A text that goes behind another, on a line of its own, moves nothing: the first
/// text's lines read the same and its positions are the same.
pub proof fn law_text_behind_moves_nothing(a: Seq<u8>, b: Seq<u8>)
    requires
        a.len() < b.len(),
        forall|i: int| 0 <= i < a.len() ==> #[trigger] a[i] == b[i],
        b[a.len() as int] == 10,
    ensures
        forall|k: int|
            1 <= k <= newlines(a, a.len() as int) + 1 ==> #[trigger] line_bytes(b, k) == line_bytes(
                a,
                k,
            ),
        forall|p: int| 0 <= p <= a.len() ==> #[trigger] position(b, p) == position(a, p),
{
    let (m, n) = (a.len() as int, b.len() as int);
    let (s, t) = (starts(a, m), starts(b, n));
    lemma_starts(a, m, m);
    lemma_starts_of_prefix(a, b, m, m);
    lemma_starts_of_prefix(b, b, m + 1, n);
    lemma_starts(b, m, m);
    assert(starts(b, m + 1) == starts(b, m).push(m + 1));
    assert(starts(b, m) =~= s) by {
        assert(s =~= starts(b, m).take(s.len() as int));
    }
    assert forall|k: int| 0 <= k < s.len() implies t[k] == s[k] by {
        assert(starts(b, m + 1)[k] == t.take(starts(b, m + 1).len() as int)[k]);
    }
    assert(t[s.len() as int] == m + 1) by {
        assert(starts(b, m + 1)[s.len() as int] == t.take(starts(b, m + 1).len() as int)[s.len() as int]);
    }
    assert forall|k: int| 1 <= k <= newlines(a, m) + 1 implies #[trigger] line_bytes(b, k)
        == line_bytes(a, k) by {
        lemma_between_starts(a, m, k - 1);
        if k < s.len() {
            assert(a.subrange(s[k - 1], s[k]) =~= b.subrange(t[k - 1], t[k]));
        } else {
            let raw = b.subrange(t[k - 1], m + 1);
            assert(raw.last() == 10);
            assert(raw.drop_last() =~= a.subrange(s[k - 1], m));
        }
    }
    assert forall|p: int| 0 <= p <= m implies #[trigger] position(b, p) == position(a, p) by {
        lemma_starts_of_prefix(a, b, p, p);
        lemma_starts(a, p, p);
        assert(a.subrange(line_start(a, p), p) =~= b.subrange(line_start(b, p), p));
    }
}

/// A line starts at the start of the text or right behind a newline, and between its
/// start and any place on it there is none.
pub proof fn law_lines_start_behind_newlines(b: Seq<u8>, n: int)
    requires
        0 <= n <= b.len(),
    ensures
        ({
            let s = line_start(b, n);
            &&& 0 <= s <= n
            &&& s > 0 ==> b[s - 1] == '\n' as u8
            &&& forall|i: int| s <= i < n ==> #[trigger] b[i] != '\n' as u8
            &&& newlines(b, s) == newlines(b, n)
        }),
    decreases n,
{
    if n > 0 && b[n - 1] != 10 {
        law_lines_start_behind_newlines(b, n - 1);
    }
}

/// A newline begins a new line, and every other byte stays on the line.
pub proof fn law_newlines_begin_lines(b: Seq<u8>, n: int)
    requires
        0 <= n < b.len(),
    ensures
        newlines(b, 0) == 0,
        b[n] == '\n' as u8 ==> newlines(b, n + 1) == newlines(b, n) + 1 && line_start(b, n + 1) == n
            + 1,
        b[n] != '\n' as u8 ==> newlines(b, n + 1) == newlines(b, n) && line_start(b, n + 1)
            == line_start(b, n),
        position(b, 0) == (1int, 1int),
{
    assert(b.subrange(0, 0) =~= Seq::<u8>::empty());
}

/// A line without its end is what stands before it: only newlines and carriage returns at
/// the end go.
pub proof fn law_only_line_ends_go(b: Seq<u8>)
    ensures
        without_line_end(b).is_prefix_of(b),
        forall|i: int|
            without_line_end(b).len() <= i < b.len() ==> #[trigger] b[i] == '\n' as u8 || b[i]
                == '\r' as u8,
        without_line_end(b).len() > 0 ==> without_line_end(b).last() != '\n' as u8
            && without_line_end(b).last() != '\r' as u8,
    decreases b.len(),
{
    if b.len() > 0 && (b.last() == 10 || b.last() == 13) {
        let less = b.drop_last();
        law_only_line_ends_go(less);
        assert forall|i: int| without_line_end(b).len() <= i < b.len() implies #[trigger] b[i]
            == '\n' as u8 || b[i] == '\r' as u8 by {
            if i < less.len() {
                assert(less[i] == b[i]);
            }
        }
    }
}

/// The first place behind a newline is the first column of the next line.
pub proof fn law_columns_start_at_one(b: Seq<u8>, n: int)
    requires
        0 <= n < b.len(),
        b[n] == '\n' as u8,
    ensures
        position(b, n + 1).0 == position(b, n).0 + 1,
        position(b, n + 1).1 == 1,
{
    assert(b.subrange(n + 1, n + 1) =~= Seq::<u8>::empty());
}

} // verus!
