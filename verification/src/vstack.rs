//! The value stack: a bump arena for aggregates whose life is one function
//! activation. Chunks are kept after a frame leaves, so that a steady loop stops
//! allocating.
use vstd::prelude::*;

verus! {

/// Bytes of the first chunk and the least of every later one.
pub const CHUNK: usize = 0x40_0000;

/// Every allocation starts at a multiple of this.
pub const ALIGN: usize = 16;

/// One allocation: `len` bytes of a chunk from `off` on.
#[derive(Clone, Copy, PartialEq, Eq, Structural, Debug)]
pub struct Span16 {
    pub chunk: usize,
    pub off: usize,
    pub len: usize,
}

pub struct VStack {
    pub chunks: Vec<Vec<u8>>,
    /// The chunk the next allocation is tried in.
    pub cur: usize,
    /// How much of it is taken.
    pub off: usize,
    /// Where each live frame began.
    pub marks: Vec<(usize, usize)>,
    pub peak: usize,
}

/// Bytes in the first `n` of the chunks whose lengths are `lens`.
pub open spec fn total(lens: Seq<int>, n: int) -> int
    decreases n,
{
    if n <= 0 {
        0
    } else {
        total(lens, n - 1) + lens[n - 1]
    }
}

/// How long each chunk is.
pub open spec fn lengths(chunks: Seq<Vec<u8>>) -> Seq<int> {
    Seq::new(chunks.len(), |i: int| chunks[i]@.len() as int)
}

/// A request as it is served: at least one byte, in whole alignment units.
pub open spec fn rounded(size: int) -> int {
    if size < 1 {
        ALIGN as int
    } else {
        (size + ALIGN - 1) / ALIGN as int * ALIGN as int
    }
}

/// The larger of two numbers.
pub open spec fn larger(a: int, b: int) -> int {
    if a >= b {
        a
    } else {
        b
    }
}

/// Whether `n` bytes still fit in the chunk that is in use.
pub open spec fn has_room(lens: Seq<int>, cur: int, off: int, n: int) -> bool {
    lens.len() > 0 && off + n <= lens[cur]
}

/// The chunk that serves a request for `n` bytes.
pub open spec fn served_in(lens: Seq<int>, cur: int, off: int, n: int) -> int {
    if lens.len() == 0 || has_room(lens, cur, off, n) {
        cur
    } else {
        cur + 1
    }
}

/// Where in that chunk the bytes begin.
pub open spec fn served_at(lens: Seq<int>, cur: int, off: int, n: int) -> int {
    if has_room(lens, cur, off, n) {
        off
    } else {
        0
    }
}

/// The lengths of the chunks once a request for `n` bytes is served. A chunk that
/// is appended is at least as long as the one before it; one that is free but too
/// short is replaced by one of at least twice its length.
pub open spec fn grown(lens: Seq<int>, cur: int, off: int, n: int) -> Seq<int> {
    if lens.len() == 0 {
        seq![larger(CHUNK as int, n)]
    } else if has_room(lens, cur, off, n) {
        lens
    } else if cur + 1 == lens.len() {
        lens.push(larger(larger(CHUNK as int, n), lens[cur]))
    } else if lens[cur + 1] < n {
        lens.update(cur + 1, larger(larger(CHUNK as int, n), 2 * lens[cur + 1]))
    } else {
        lens
    }
}

pub proof fn lemma_total(lens: Seq<int>, n: int, m: int)
    requires
        0 <= n <= m,
        forall|i: int| 0 <= i < m ==> #[trigger] lens[i] >= 0,
    ensures
        0 <= total(lens, n) <= total(lens, m),
    decreases m,
{
    if n < m {
        lemma_total(lens, n, m - 1);
    } else if n > 0 {
        lemma_total(lens, n - 1, n - 1);
    }
}

pub proof fn lemma_total_same(a: Seq<int>, b: Seq<int>, n: int)
    requires
        forall|i: int| 0 <= i < n ==> #[trigger] a[i] == b[i],
    ensures
        total(a, n) == total(b, n),
    decreases n,
{
    if n > 0 {
        lemma_total_same(a, b, n - 1);
    }
}

pub proof fn lemma_total_update(lens: Seq<int>, i: int, x: int, n: int)
    requires
        0 <= i < n <= lens.len(),
    ensures
        total(lens.update(i, x), n) == total(lens, n) - lens[i] + x,
    decreases n,
{
    if i == n - 1 {
        lemma_total_same(lens.update(i, x), lens, n - 1);
    } else {
        lemma_total_update(lens, i, x, n - 1);
    }
}

pub proof fn lemma_total_insert(lens: Seq<int>, i: int, x: int, n: int)
    requires
        0 <= i <= n <= lens.len(),
    ensures
        total(lens.insert(i, x), n + 1) == total(lens, n) + x,
    decreases n,
{
    if i == n {
        lemma_total_same(lens.insert(i, x), lens, n);
    } else {
        lemma_total_insert(lens, i, x, n - 1);
    }
}

pub proof fn lemma_total_push(lens: Seq<int>, x: int)
    ensures
        total(lens.push(x), lens.len() as int + 1) == total(lens, lens.len() as int) + x,
{
    lemma_total_same(lens.push(x), lens, lens.len() as int);
}

/// `(c, o)` comes no later than `(d, p)`.
pub open spec fn not_after(a: (usize, usize), b: (usize, usize)) -> bool {
    a.0 < b.0 || (a.0 == b.0 && a.1 <= b.1)
}

impl VStack {
    pub open spec fn wf(self) -> bool {
        &&& self.chunks@.len() == 0 ==> self.cur == 0 && self.off == 0
        &&& self.chunks@.len() > 0 ==> self.cur < self.chunks@.len() && self.off
            <= self.chunks@[self.cur as int]@.len()
        &&& self.off % ALIGN == 0
        &&& self.capacity() <= isize::MAX
        &&& forall|i: int|
            0 <= i < self.marks@.len() ==> not_after(
                #[trigger] self.marks@[i],
                (self.cur, self.off),
            ) && self.marks@[i].1 % ALIGN == 0 && (self.chunks@.len() > 0 ==> self.marks@[i].1
                <= self.chunks@[self.marks@[i].0 as int]@.len())
        &&& forall|i: int, j: int|
            0 <= i <= j < self.marks@.len() ==> not_after(
                #[trigger] self.marks@[i],
                #[trigger] self.marks@[j],
            )
    }

    /// How long each chunk is.
    pub open spec fn lens(self) -> Seq<int> {
        lengths(self.chunks@)
    }

    /// Whether byte `o` of chunk `c` belongs to a live allocation.
    pub open spec fn live(self, c: int, o: int) -> bool {
        &&& 0 <= c <= self.cur
        &&& c < self.chunks@.len()
        &&& 0 <= o < self.chunks@[c]@.len()
        &&& c == self.cur ==> o < self.off
    }

    /// Bytes below the bump pointer.
    pub open spec fn used_bytes(self) -> int {
        total(self.lens(), self.cur as int) + self.off
    }

    /// Bytes of backing store.
    pub open spec fn capacity(self) -> int {
        total(self.lens(), self.chunks@.len() as int)
    }

    /// The chunks' lengths once `size` bytes more are served.
    pub open spec fn lens_with(self, size: int) -> Seq<int> {
        grown(self.lens(), self.cur as int, self.off as int, rounded(size))
    }

    /// Where `size` bytes more are served.
    pub open spec fn place_for(self, size: int) -> Span16 {
        let n = rounded(size);
        Span16 {
            chunk: served_in(self.lens(), self.cur as int, self.off as int, n) as usize,
            off: served_at(self.lens(), self.cur as int, self.off as int, n) as usize,
            len: n as usize,
        }
    }

    /// Whether the memory of a machine holds what serving `size` bytes takes.
    pub open spec fn room_for(self, size: int) -> bool {
        rounded(size) <= isize::MAX && total(
            self.lens_with(size),
            self.lens_with(size).len() as int,
        ) <= isize::MAX
    }

    pub fn new() -> (v: VStack)
        ensures
            v.wf(),
            v.chunks@.len() == 0,
            v.lens() == Seq::<int>::empty(),
            v.cur == 0,
            v.off == 0,
            v.marks@.len() == 0,
            v.used_bytes() == 0,
            v.peak == 0,
    {
        VStack { chunks: Vec::new(), cur: 0, off: 0, marks: Vec::new(), peak: 0 }
    }

    /// Bytes outstanding.
    pub fn used(&self) -> (r: usize)
        requires
            self.wf(),
        ensures
            r == self.used_bytes(),
    {
        if self.chunks.len() == 0 {
            return 0;
        }
        let ghost lens = self.lens();
        proof {
            lemma_total(lens, self.cur + 1, lens.len() as int);
        }
        let mut sum: usize = 0;
        let mut i: usize = 0;
        while i < self.cur
            invariant
                i <= self.cur < self.chunks@.len(),
                lens == self.lens(),
                sum == total(lens, i as int),
                total(lens, self.cur as int) <= isize::MAX,
            decreases self.cur - i,
        {
            proof {
                lemma_total(lens, i + 1, self.cur as int);
            }
            sum += self.chunks[i].len();
            i += 1;
        }
        sum + self.off
    }

    /// Whether the memory of a machine holds what serving `size` bytes takes.
    pub fn can_serve(&self, size: usize) -> (r: bool)
        requires
            self.wf(),
        ensures
            r == self.room_for(size as int),
    {
        let ghost lens = self.lens();
        let count: usize = self.chunks.len();
        let mut sum: usize = 0;
        let mut i: usize = 0;
        while i < count
            invariant
                i <= count == self.chunks@.len(),
                lens == self.lens(),
                sum == total(lens, i as int),
                total(lens, count as int) <= isize::MAX,
            decreases count - i,
        {
            proof {
                lemma_total(lens, i + 1, count as int);
            }
            sum += self.chunks[i].len();
            i += 1;
        }
        let need: u128 = if size < 1 {
            ALIGN as u128
        } else {
            (size as u128 - 1) / ALIGN as u128 * ALIGN as u128 + ALIGN as u128
        };
        assert(need == rounded(size as int));
        if need > isize::MAX as u128 {
            return false;
        }
        let floor: u128 = if need > CHUNK as u128 {
            need
        } else {
            CHUNK as u128
        };
        if count == 0 {
            proof {
                assert(self.lens_with(size as int) =~= lens.push(floor as int));
                lemma_total_push(lens, floor as int);
            }
            return sum as u128 + floor <= isize::MAX as u128;
        }
        let here: usize = self.chunks[self.cur].len();
        if self.off as u128 + need <= here as u128 {
            return true;
        }
        let next: usize = self.cur + 1;
        if next == count {
            let grow: u128 = if floor > here as u128 {
                floor
            } else {
                here as u128
            };
            proof {
                lemma_total_push(lens, grow as int);
            }
            sum as u128 + grow <= isize::MAX as u128
        } else {
            let there: u128 = self.chunks[next].len() as u128;
            if there >= need {
                return true;
            }
            let grow: u128 = if floor > 2 * there {
                floor
            } else {
                2 * there
            };
            proof {
                lemma_total(lens, next as int, next as int);
                lemma_total(lens, next + 1, count as int);
                lemma_total_update(lens, next as int, grow as int, count as int);
            }
            sum as u128 - there + grow <= isize::MAX as u128
        }
    }

    /// Allocate `size` bytes that live until the frame leaves.
    pub fn allocate(&mut self, size: usize) -> (b: Span16)
        requires
            old(self).wf(),
            old(self).room_for(size as int),
        ensures
            allocated(*old(self), size as int, *final(self), b),
            b.len >= size,
            b.off % ALIGN == 0,
            b.off + b.len <= final(self).chunks@[b.chunk as int]@.len(),
    {
        let ghost a = *self;
        let ghost n = rounded(size as int);
        assert(n >= size && n % 16 == 0 && n > 0);
        let need: usize = if size < 1 {
            ALIGN
        } else {
            (size - 1) / ALIGN * ALIGN + ALIGN
        };
        assert(need == n);
        if self.chunks.len() == 0 {
            let n: usize = if need > CHUNK {
                need
            } else {
                CHUNK
            };
            self.chunks.push(vec![0u8; n]);
            self.off = need;
            assert(self.lens() =~= a.lens_with(size as int));
            let u: usize = self.used();
            if u > self.peak {
                self.peak = u;
            }
            return Span16 { chunk: 0, off: 0, len: need };
        }
        if need <= self.chunks[self.cur].len() - self.off {
            let b = Span16 { chunk: self.cur, off: self.off, len: need };
            self.off = self.off + need;
            let u: usize = self.used();
            if u > self.peak {
                self.peak = u;
            }
            return b;
        }
        let last: usize = self.chunks[self.cur].len();
        let next: usize = self.cur + 1;
        let floor: usize = if need > CHUNK {
            need
        } else {
            CHUNK
        };
        if next == self.chunks.len() {
            let n: usize = if floor > last {
                floor
            } else {
                last
            };
            self.chunks.push(vec![0u8; n]);
        } else if self.chunks[next].len() < need {
            let ghost g = a.lens_with(size as int);
            proof {
                lemma_total(g, next as int, next as int);
                lemma_total(g, next + 1, g.len() as int);
            }
            let twice: usize = self.chunks[next].len() * 2;
            let n: usize = if floor > twice {
                floor
            } else {
                twice
            };
            self.chunks[next] = vec![0u8; n];
        }
        assert(self.lens() =~= a.lens_with(size as int));
        self.cur = next;
        self.off = need;
        let u: usize = self.used();
        if u > self.peak {
            self.peak = u;
        }
        Span16 { chunk: next, off: 0, len: need }
    }

    /// Begin a frame.
    pub fn enter(&mut self)
        requires
            old(self).wf(),
        ensures
            entered(*old(self), *final(self)),
    {
        self.marks.push((self.cur, self.off));
    }

    /// End the innermost frame, freeing everything it allocated. With no frame
    /// open nothing happens.
    pub fn leave(&mut self)
        requires
            old(self).wf(),
        ensures
            left(*old(self), *final(self)),
            final(self).used_bytes() <= old(self).used_bytes(),
    {
        let ghost a = *self;
        if self.marks.len() == 0 {
            return;
        }
        if let Some((cur, off)) = self.marks.pop() {
            proof {
                let n = a.marks@.len() - 1;
                assert(a.marks@[n] == (cur, off));
                assert(self.marks@ =~= a.marks@.drop_last());
                assert forall|i: int| 0 <= i < self.marks@.len() implies not_after(
                    #[trigger] self.marks@[i],
                    (cur, off),
                ) by {
                    assert(not_after(a.marks@[i], a.marks@[n]));
                }
                if a.chunks@.len() > 0 {
                    lemma_total(a.lens(), cur as int, a.cur as int);
                    if cur < a.cur {
                        lemma_total(a.lens(), cur + 1, a.cur as int);
                    }
                }
            }
            self.cur = cur;
            self.off = off;
        }
    }

    /// Forget the high-water mark.
    pub fn reset_peak(&mut self)
        requires
            old(self).wf(),
        ensures
            peak_reset(*old(self), *final(self)),
    {
        self.peak = self.used();
    }

    /// Write `v` over a whole allocation.
    pub fn fill(&mut self, b: Span16, v: u8)
        requires
            old(self).wf(),
            b.chunk < old(self).chunks@.len(),
            b.off + b.len <= old(self).chunks@[b.chunk as int]@.len(),
        ensures
            filled(*old(self), b, v, *final(self)),
    {
        let ghost a = *self;
        let mut i: usize = 0;
        while i < b.len
            invariant
                self.wf(),
                a.wf(),
                i <= b.len,
                a == *old(self),
                self.lens() == a.lens(),
                *self == (VStack { chunks: self.chunks, ..a }),
                b.chunk < a.chunks@.len() == self.chunks@.len(),
                b.off + b.len <= a.chunks@[b.chunk as int]@.len(),
                forall|c: int|
                    0 <= c < a.chunks@.len() && c != b.chunk ==> self.chunks@[c] == a.chunks@[c],
                self.chunks@[b.chunk as int]@.len() == a.chunks@[b.chunk as int]@.len(),
                forall|o: int|
                    0 <= o < a.chunks@[b.chunk as int]@.len() ==> self.chunks@[b.chunk as int]@[o]
                        == (if b.off <= o < b.off + i {
                        v
                    } else {
                        a.chunks@[b.chunk as int]@[o]
                    }),
            decreases b.len - i,
        {
            let n: usize = self.chunks[b.chunk].len();
            self.chunks[b.chunk][b.off + i] = v;
            assert(self.lens() =~= a.lens());
            assert forall|k: int| 0 <= k < self.marks@.len() implies not_after(
                #[trigger] self.marks@[k],
                (self.cur, self.off),
            ) && self.marks@[k].1 % ALIGN == 0 && self.marks@[k].1
                <= self.chunks@[self.marks@[k].0 as int]@.len() by {
                assert(not_after(a.marks@[k], (a.cur, a.off)));
            }
            i += 1;
        }
    }

    /// Byte `i` of an allocation.
    pub fn byte(&self, b: Span16, i: usize) -> (r: u8)
        requires
            b.chunk < self.chunks@.len(),
            i < b.len,
            b.off + b.len <= self.chunks@[b.chunk as int]@.len(),
        ensures
            r == self.chunks@[b.chunk as int]@[b.off + i],
    {
        let n: usize = self.chunks[b.chunk].len();
        self.chunks[b.chunk][b.off + i]
    }
}

/// What an allocation does: the chunks grow as the request asks, the block begins
/// at the bump pointer or in the next chunk, the pointer moves behind it, and what
/// was live keeps its bytes.
pub open spec fn allocated(before: VStack, size: int, after: VStack, b: Span16) -> bool {
    &&& after.wf()
    &&& after.marks == before.marks
    &&& b == before.place_for(size)
    &&& b.len == rounded(size)
    &&& b.chunk == served_in(before.lens(), before.cur as int, before.off as int, rounded(size))
    &&& after.lens() == before.lens_with(size)
    &&& after.lens() == before.lens() ==> after.chunks@ == before.chunks@
    &&& after.cur == b.chunk
    &&& after.off == b.off + b.len
    &&& b.chunk < after.chunks@.len()
    &&& forall|c: int, o: int|
        before.live(c, o) ==> #[trigger] after.live(c, o) && after.chunks@[c]@[o]
            == before.chunks@[c]@[o]
    &&& forall|o: int|
        b.off <= o < b.off + b.len ==> !before.live(b.chunk as int, o) && #[trigger] after.live(
            b.chunk as int,
            o,
        )
    &&& after.peak == larger(before.peak as int, after.used_bytes())
}

/// What the beginning of a frame does: the bump pointer is noted.
pub open spec fn entered(before: VStack, after: VStack) -> bool {
    &&& after.wf()
    &&& after == (VStack { marks: after.marks, ..before })
    &&& after.marks@ == before.marks@.push((before.cur, before.off))
}

/// What the end of a frame does: the bump pointer goes back to where the frame
/// began.
pub open spec fn left(before: VStack, after: VStack) -> bool {
    &&& after.wf()
    &&& before.marks@.len() == 0 ==> after == before
    &&& before.marks@.len() > 0 ==> after == (VStack {
        cur: before.marks@.last().0,
        off: before.marks@.last().1,
        marks: after.marks,
        ..before
    }) && after.marks@ == before.marks@.drop_last()
}

/// What forgetting the high-water mark does.
pub open spec fn peak_reset(before: VStack, after: VStack) -> bool {
    &&& after.wf()
    &&& after == (VStack { peak: after.peak, ..before })
    &&& after.peak == before.used_bytes()
}

/// What filling a block does: its bytes are `v`, and every other byte stays.
pub open spec fn filled(before: VStack, b: Span16, v: u8, after: VStack) -> bool {
    &&& after.wf()
    &&& after == (VStack { chunks: after.chunks, ..before })
    &&& after.lens() == before.lens()
    &&& after.chunks@.len() == before.chunks@.len()
    &&& forall|c: int|
        0 <= c < before.chunks@.len() && c != b.chunk ==> after.chunks@[c] == before.chunks@[c]
    &&& forall|o: int|
        0 <= o < before.chunks@[b.chunk as int]@.len() ==> after.chunks@[b.chunk as int]@[o] == (
        if b.off <= o < b.off + b.len {
            v
        } else {
            before.chunks@[b.chunk as int]@[o]
        })
}

/// One call on the stack.
pub open spec fn stepped(before: VStack, after: VStack) -> bool {
    ||| exists|size: int, b: Span16| #[trigger] allocated(before, size, after, b)
    ||| entered(before, after)
    ||| left(before, after)
    ||| peak_reset(before, after)
    ||| exists|b: Span16, v: u8| #[trigger] filled(before, b, v, after)
}

/// The chunks before `n` are the same.
pub open spec fn agree(a: Seq<int>, b: Seq<int>, n: int) -> bool {
    forall|i: int| 0 <= i < n ==> #[trigger] a[i] == b[i]
}

proof fn lemma_frame_stands(base: VStack, run: Seq<VStack>, k: int)
    requires
        base.wf(),
        run.len() > 0,
        entered(base, run[0]),
        forall|i: int| 0 <= i < run.len() - 1 ==> stepped(#[trigger] run[i], run[i + 1]),
        forall|i: int|
            0 <= i < run.len() ==> (#[trigger] run[i]).marks@.len() > base.marks@.len(),
        0 <= k < run.len(),
    ensures
        run[k].wf(),
        run[k].marks@.take(base.marks@.len() as int + 1) == run[0].marks@,
        agree(run[k].lens(), base.lens(), base.cur as int),
    decreases k,
{
    let n = base.marks@.len() as int;
    if k == 0 {
        assert(run[0].marks@.take(n + 1) =~= run[0].marks@);
    } else {
        lemma_frame_stands(base, run, k - 1);
        let s = run[k - 1];
        let t = run[k];
        assert(stepped(run[k - 1], run[k - 1 + 1]));
        assert(s.marks@[n] == s.marks@.take(n + 1)[n]);
        assert(s.marks@[n] == (base.cur, base.off));
        assert(not_after(s.marks@[n], (s.cur, s.off)));
        if entered(s, t) {
            assert(t.marks@.take(n + 1) =~= s.marks@.take(n + 1));
        } else if left(s, t) {
            assert(t.marks@.take(n + 1) =~= s.marks@.take(n + 1));
        }
    }
}

/// A frame that enters, does anything at all within itself (allocates, fills,
/// opens and closes frames of its own) and leaves puts the stack back where it was:
/// the bump pointer, the marks and the bytes in use.
pub proof fn law_leave_frees_the_frame(before: VStack, run: Seq<VStack>, after: VStack)
    requires
        before.wf(),
        run.len() > 0,
        entered(before, run[0]),
        forall|i: int| 0 <= i < run.len() - 1 ==> stepped(#[trigger] run[i], run[i + 1]),
        forall|i: int|
            0 <= i < run.len() ==> (#[trigger] run[i]).marks@.len() > before.marks@.len(),
        run.last().marks@.len() == before.marks@.len() + 1,
        left(run.last(), after),
    ensures
        after.cur == before.cur,
        after.off == before.off,
        after.marks@ == before.marks@,
        after.used_bytes() == before.used_bytes(),
{
    let n = before.marks@.len() as int;
    let k = run.len() - 1;
    lemma_frame_stands(before, run, k);
    assert(run[k].marks@ =~= run[k].marks@.take(n + 1));
    assert(run[0].marks@.last() == (before.cur, before.off));
    assert(after.marks@ =~= before.marks@);
    lemma_total_same(after.lens(), before.lens(), before.cur as int);
}

/// `run` is what the stack was before, between and after allocations of `sizes`,
/// which gave `blocks`.
pub open spec fn allocations(run: Seq<VStack>, sizes: Seq<int>, blocks: Seq<Span16>) -> bool {
    &&& run.len() == sizes.len() + 1
    &&& blocks.len() == sizes.len()
    &&& run[0].wf()
    &&& forall|k: int|
        0 <= k < sizes.len() ==> allocated(run[k], sizes[k], run[k + 1], #[trigger] blocks[k])
}

proof fn lemma_chunks_behind_stay(
    run: Seq<VStack>,
    sizes: Seq<int>,
    blocks: Seq<Span16>,
    i: int,
    k: int,
)
    requires
        allocations(run, sizes, blocks),
        0 <= i <= k < run.len(),
    ensures
        run[i].wf(),
        run[k].wf(),
        run[i].cur <= run[k].cur,
        run[i].lens().len() <= run[k].lens().len(),
        run[i].lens().len() > 0 ==> agree(run[k].lens(), run[i].lens(), run[i].cur + 1),
        forall|c: int, o: int|
            #[trigger] run[i].live(c, o) ==> run[k].live(c, o) && run[k].chunks@[c]@[o]
                == run[i].chunks@[c]@[o],
    decreases k,
{
    if i < k {
        lemma_chunks_behind_stay(run, sizes, blocks, i, k - 1);
        let s = run[k - 1];
        assert(allocated(run[k - 1], sizes[k - 1], run[k - 1 + 1], blocks[k - 1]));
        assert(s.chunks@.len() == s.lens().len());
    } else if k > 0 {
        lemma_chunks_behind_stay(run, sizes, blocks, i - 1, k - 1);
        assert(allocated(run[k - 1], sizes[k - 1], run[k - 1 + 1], blocks[k - 1]));
    }
}

/// Whether some byte belongs to both blocks.
pub open spec fn overlap(a: Span16, b: Span16) -> bool {
    &&& a.chunk == b.chunk
    &&& a.len > 0 && b.len > 0
    &&& a.off < b.off + b.len && b.off < a.off + a.len
}

/// `run` is what the stack was before, between and after calls of any kind.
pub open spec fn history(run: Seq<VStack>) -> bool {
    &&& run.len() > 0
    &&& run[0].wf()
    &&& forall|m: int| 0 <= m < run.len() - 1 ==> #[trigger] step_at(run, m)
}

/// Between `m` and the next there is one call.
pub open spec fn step_at(run: Seq<VStack>, m: int) -> bool {
    stepped(run[m], run[m + 1])
}

/// Between `m` and the next there is one call that writes to no byte of `a`.
pub open spec fn spared_at(run: Seq<VStack>, a: Span16, m: int) -> bool {
    spared(run[m], a, run[m + 1])
}

/// From `i` to `n` the frame that was open at `i` is not left; frames opened inside it
/// may come and go.
pub open spec fn frame_open(run: Seq<VStack>, i: int, n: int) -> bool {
    forall|m: int| i < m <= n ==> (#[trigger] run[m]).marks@.len() >= run[i].marks@.len()
}

/// A block lies below the bump pointer, and below where every frame deeper than
/// `depth` began.
spec fn holds(v: VStack, a: Span16, depth: int) -> bool {
    &&& v.wf()
    &&& a.chunk < v.chunks@.len()
    &&& a.off + a.len <= v.chunks@[a.chunk as int]@.len()
    &&& ends_before(a, (v.cur, v.off))
    &&& forall|m: int|
        depth <= m < v.marks@.len() ==> ends_before(a, #[trigger] v.marks@[m])
}

/// A block ends no later than a place.
spec fn ends_before(a: Span16, p: (usize, usize)) -> bool {
    a.chunk < p.0 || (a.chunk == p.0 && a.off + a.len <= p.1)
}

proof fn lemma_wf(run: Seq<VStack>, n: int)
    requires
        history(run),
        0 <= n < run.len(),
    ensures
        run[n].wf(),
    decreases n,
{
    if n > 0 {
        lemma_wf(run, n - 1);
        assert(step_at(run, n - 1));
    }
}

proof fn lemma_held(run: Seq<VStack>, i: int, n: int, size: int, a: Span16)
    requires
        history(run),
        0 <= i < n < run.len(),
        allocated(run[i], size, run[i + 1], a),
        frame_open(run, i, n),
    ensures
        holds(run[n], a, run[i].marks@.len() as int),
    decreases n,
{
    let d = run[i].marks@.len() as int;
    if n == i + 1 {
        assert(run[n].chunks@[run[n].cur as int]@.len() >= run[n].off);
    } else {
        lemma_held(run, i, n - 1, size, a);
        let (s, t) = (run[n - 1], run[n - 1 + 1]);
        assert(step_at(run, n - 1));
        assert(run[n].marks@.len() >= d);
        assert(s.lens()[a.chunk as int] == s.chunks@[a.chunk as int]@.len());
        assert(t.chunks@.len() > a.chunk ==> t.lens()[a.chunk as int] == t.chunks@[a.chunk as int]@.len());
        if exists|z: int, b: Span16| #[trigger] allocated(s, z, t, b) {
            let (z, b) = choose|z: int, b: Span16| #[trigger] allocated(s, z, t, b);
            assert(s.lens().len() == s.chunks@.len());
            assert(t.lens().len() == t.chunks@.len());
            assert(t.lens()[a.chunk as int] == s.lens()[a.chunk as int]);
        } else if entered(s, t) {
            assert forall|m: int| d <= m < t.marks@.len() implies ends_before(
                a,
                #[trigger] t.marks@[m],
            ) by {
                if m < s.marks@.len() {
                    assert(t.marks@[m] == s.marks@[m]);
                }
            }
        } else if left(s, t) {
            if s.marks@.len() > 0 {
                assert(s.marks@[s.marks@.len() - 1] == s.marks@.last());
                assert forall|m: int| d <= m < t.marks@.len() implies ends_before(
                    a,
                    #[trigger] t.marks@[m],
                ) by {
                    assert(t.marks@[m] == s.marks@[m]);
                }
            }
        }
    }
}

proof fn lemma_aligned(before: VStack, size: int, after: VStack, a: Span16)
    requires
        before.wf(),
        allocated(before, size, after, a),
    ensures
        a.off % ALIGN == 0,
{
}

proof fn lemma_held_is_live(v: VStack, a: Span16, depth: int)
    requires
        holds(v, a, depth),
    ensures
        a.chunk < v.chunks@.len(),
        a.off + a.len <= v.chunks@[a.chunk as int]@.len(),
        forall|o: int| a.off <= o < a.off + a.len ==> #[trigger] v.live(a.chunk as int, o),
{
}

/// A block lies within its chunk, is aligned and stays live until the frame it was
/// allocated in is left, whatever is called in between.
pub proof fn law_blocks_live_as_long_as_their_frame(
    run: Seq<VStack>,
    i: int,
    n: int,
    size: int,
    a: Span16,
)
    requires
        history(run),
        0 <= i < n < run.len(),
        allocated(run[i], size, run[i + 1], a),
        frame_open(run, i, n),
    ensures
        a.off % ALIGN == 0,
        a.chunk < run[n].chunks@.len(),
        a.off + a.len <= run[n].chunks@[a.chunk as int]@.len(),
        forall|o: int|
            a.off <= o < a.off + a.len ==> #[trigger] run[n].live(a.chunk as int, o),
{
    lemma_wf(run, i);
    lemma_held(run, i, n, size, a);
    lemma_aligned(run[i], size, run[i + 1], a);
    lemma_held_is_live(run[n], a, run[i].marks@.len() as int);
}

/// Blocks that are live together do not overlap, however many allocations and frames
/// opened and closed lie between them.
pub proof fn law_allocations_are_disjoint(
    run: Seq<VStack>,
    i: int,
    j: int,
    size: int,
    a: Span16,
    other: int,
    b: Span16,
)
    requires
        history(run),
        0 <= i < j < run.len() - 1,
        allocated(run[i], size, run[i + 1], a),
        allocated(run[j], other, run[j + 1], b),
        frame_open(run, i, j),
    ensures
        !overlap(a, b),
{
    law_blocks_live_as_long_as_their_frame(run, i, j, size, a);
    if overlap(a, b) {
        let o = larger(a.off as int, b.off as int);
        assert(run[j].live(a.chunk as int, o));
        assert(run[j + 1].live(b.chunk as int, o));
    }
}

/// One call on the stack that writes to no byte of `a`.
pub open spec fn spared(before: VStack, a: Span16, after: VStack) -> bool {
    ||| exists|size: int, b: Span16| #[trigger] allocated(before, size, after, b)
    ||| entered(before, after)
    ||| left(before, after)
    ||| peak_reset(before, after)
    ||| exists|b: Span16, v: u8| #[trigger] filled(before, b, v, after) && !overlap(a, b)
}

proof fn lemma_spared(s: VStack, a: Span16, t: VStack, o: int)
    requires
        spared(s, a, t),
        s.live(a.chunk as int, o),
        a.off <= o < a.off + a.len,
    ensures
        t.chunks@[a.chunk as int]@[o] == s.chunks@[a.chunk as int]@[o],
{
    if exists|z: int, b: Span16| #[trigger] allocated(s, z, t, b) {
        assert(t.live(a.chunk as int, o));
    } else if exists|b: Span16, v: u8| #[trigger] filled(s, b, v, t) && !overlap(a, b) {
        let (b, v) = choose|b: Span16, v: u8| #[trigger] filled(s, b, v, t) && !overlap(a, b);
        if b.chunk == a.chunk {
            assert(!(b.off <= o < b.off + b.len));
        }
    }
}

/// A block keeps its bytes until its frame is left or it is written to itself.
pub proof fn law_blocks_keep_their_bytes(
    run: Seq<VStack>,
    i: int,
    n: int,
    size: int,
    a: Span16,
    o: int,
)
    requires
        history(run),
        0 <= i < n < run.len(),
        allocated(run[i], size, run[i + 1], a),
        frame_open(run, i, n),
        forall|m: int| i < m < n ==> #[trigger] spared_at(run, a, m),
        a.off <= o < a.off + a.len,
    ensures
        run[n].chunks@[a.chunk as int]@[o] == run[i + 1].chunks@[a.chunk as int]@[o],
    decreases n,
{
    if n > i + 1 {
        law_blocks_keep_their_bytes(run, i, n - 1, size, a, o);
        law_blocks_live_as_long_as_their_frame(run, i, n - 1, size, a);
        assert(spared_at(run, a, n - 1));
        assert(run[n - 1].live(a.chunk as int, o));
        lemma_spared(run[n - 1], a, run[n - 1 + 1], o);
    }
}

/// Writing one block leaves every byte of another as it is.
pub proof fn law_filling_leaves_other_blocks(
    before: VStack,
    a: Span16,
    b: Span16,
    v: u8,
    after: VStack,
)
    requires
        filled(before, b, v, after),
        a.chunk < before.chunks@.len(),
        a.off + a.len <= before.chunks@[a.chunk as int]@.len(),
        !overlap(a, b),
    ensures
        forall|o: int|
            a.off <= o < a.off + a.len ==> #[trigger] after.chunks@[a.chunk as int]@[o]
                == before.chunks@[a.chunk as int]@[o],
{
}

proof fn lemma_second_pass(
    first: Seq<VStack>,
    second: Seq<VStack>,
    sizes: Seq<int>,
    one: Seq<Span16>,
    two: Seq<Span16>,
    k: int,
)
    requires
        allocations(first, sizes, one),
        allocations(second, sizes, two),
        second[0].cur == first[0].cur,
        second[0].off == first[0].off,
        second[0].lens() == first.last().lens(),
        0 <= k <= sizes.len(),
    ensures
        second[k].cur == first[k].cur,
        second[k].off == first[k].off,
        second[k].lens() == second[0].lens(),
        second[k].chunks@ == second[0].chunks@,
        k < sizes.len() ==> two[k] == one[k] && second[k + 1].lens() == second[k].lens(),
    decreases k,
{
    if k > 0 {
        lemma_second_pass(first, second, sizes, one, two, k - 1);
        assert(allocated(second[k - 1], sizes[k - 1], second[k - 1 + 1], two[k - 1]));
        assert(allocated(first[k - 1], sizes[k - 1], first[k - 1 + 1], one[k - 1]));
    }
    if k < sizes.len() {
        let s = first[k];
        let t = first[k + 1];
        let end = first.last();
        assert(allocated(s, sizes[k], t, one[k]));
        assert(allocated(second[k], sizes[k], second[k + 1], two[k]));
        lemma_chunks_behind_stay(first, sizes, one, k, first.len() - 1);
        lemma_chunks_behind_stay(first, sizes, one, k + 1, first.len() - 1);
        lemma_chunks_behind_stay(first, sizes, one, k, k + 1);
        assert(s.lens().len() == s.chunks@.len());
        assert(end.lens()[t.cur as int] == t.lens()[t.cur as int]);
        if s.lens().len() > 0 {
            assert(end.lens()[s.cur as int] == s.lens()[s.cur as int]);
        }
    }
}

/// A steady loop stops allocating: a second pass of the same allocations from the
/// same place, over the chunks that the first left behind, adds no chunk, makes
/// none longer and gives the same blocks.
pub proof fn law_second_pass_allocates_nothing(
    first: Seq<VStack>,
    second: Seq<VStack>,
    sizes: Seq<int>,
    one: Seq<Span16>,
    two: Seq<Span16>,
)
    requires
        allocations(first, sizes, one),
        allocations(second, sizes, two),
        second[0].cur == first[0].cur,
        second[0].off == first[0].off,
        second[0].lens() == first.last().lens(),
    ensures
        two == one,
        forall|k: int|
            0 <= k < second.len() ==> (#[trigger] second[k]).chunks@ == second[0].chunks@,
        second.last().used_bytes() == first.last().used_bytes(),
{
    assert forall|k: int| 0 <= k < second.len() implies (#[trigger] second[k]).chunks@
        == second[0].chunks@ by {
        lemma_second_pass(first, second, sizes, one, two, k);
    }
    assert forall|k: int| 0 <= k < two.len() implies two[k] == one[k] by {
        lemma_second_pass(first, second, sizes, one, two, k);
    }
    assert(two =~= one);
    lemma_second_pass(first, second, sizes, one, two, sizes.len() as int);
}

/// A request is served in whole units of sixteen bytes, as few as hold it, and at least
/// one.
pub proof fn law_requests_are_rounded_up(size: int)
    ensures
        rounded(size) % 16 == 0,
        rounded(size) >= 16,
        size >= 1 ==> size <= rounded(size) < size + 16,
        size <= 1 ==> rounded(size) == 16,
{
}

/// Wherever a request is served, the chunk has room for it, and no chunk is ever shorter
/// than it was.
pub proof fn law_served_requests_fit(lens: Seq<int>, cur: int, off: int, n: int, i: int)
    requires
        n >= 0,
        lens.len() == 0 ==> cur == 0,
        lens.len() > 0 ==> 0 <= cur < lens.len(),
        0 <= i < lens.len(),
        forall|k: int| 0 <= k < lens.len() ==> #[trigger] lens[k] >= 0,
    ensures
        ({
            let after = grown(lens, cur, off, n);
            let (c, o) = (served_in(lens, cur, off, n), served_at(lens, cur, off, n));
            &&& c < after.len()
            &&& o + n <= after[c]
            &&& after.len() >= lens.len()
            &&& after[i] >= lens[i]
            &&& off + n <= lens[cur] ==> after == lens && c == cur && o == off
            &&& off + n > lens[cur] ==> c == cur + 1 && o == 0
        }),
{
}

/// A chunk that is added is no shorter than a chunk, than the request and than the chunk
/// before it; one that is replaced gets at least twice as long.
pub proof fn law_chunks_grow(lens: Seq<int>, cur: int, off: int, n: int)
    requires
        0 <= cur < lens.len(),
        off + n > lens[cur],
    ensures
        cur + 1 == lens.len() ==> grown(lens, cur, off, n).len() == lens.len() + 1 && grown(
            lens,
            cur,
            off,
            n,
        )[cur + 1] >= 0x40_0000 && grown(lens, cur, off, n)[cur + 1] >= lens[cur] && grown(
            lens,
            cur,
            off,
            n,
        )[cur + 1] >= n,
        cur + 1 < lens.len() && lens[cur + 1] >= n ==> grown(lens, cur, off, n) == lens,
        cur + 1 < lens.len() && lens[cur + 1] < n ==> grown(lens, cur, off, n)[cur + 1] >= 2
            * lens[cur + 1] && grown(lens, cur, off, n)[cur + 1] >= 0x40_0000,
        grown(Seq::empty(), 0, 0, n).len() == 1,
        grown(Seq::empty(), 0, 0, n)[0] >= 0x40_0000,
{
}

/// The larger of two numbers is one of them and not below the other.
pub proof fn law_the_larger_is_not_below(a: int, b: int)
    ensures
        larger(a, b) >= a,
        larger(a, b) >= b,
        larger(a, b) == a || larger(a, b) == b,
{
}

/// The high-water mark is never below what is in use, and an allocation never lowers it.
pub proof fn law_the_peak_covers_the_use(before: VStack, size: int, after: VStack, b: Span16)
    requires
        allocated(before, size, after, b),
    ensures
        after.peak >= after.used_bytes(),
        after.peak >= before.peak,
        after.peak == before.peak || after.peak == after.used_bytes(),
{
}

/// Nothing holds no bytes, and every chunk adds its own.
pub proof fn law_every_chunk_counts(lens: Seq<int>, n: int, s: VStack)
    requires
        0 <= n < lens.len(),
    ensures
        total(lens, 0) == 0,
        total(lens, n + 1) == total(lens, n) + lens[n],
        s.chunks@.len() == 0 ==> s.capacity() == 0,
        s.wf() && s.chunks@.len() == 0 ==> s.used_bytes() == 0,
        s.chunks@.len() == 1 ==> s.capacity() == s.chunks@[0]@.len(),
{
    reveal_with_fuel(total, 2);
}

/// Two blocks overlap exactly where some byte belongs to both.
pub proof fn law_overlapping_blocks_share_a_byte(a: Span16, b: Span16)
    ensures
        overlap(a, b) <==> a.chunk == b.chunk && exists|o: int|
            #![trigger within(a, o)]
            within(a, o) && within(b, o),
        overlap(a, b) <==> overlap(b, a),
{
    if overlap(a, b) {
        let o: int = if a.off < b.off {
            b.off as int
        } else {
            a.off as int
        };
        assert(within(a, o) && within(b, o));
    }
}

/// Whether byte `o` of its chunk belongs to a block.
pub open spec fn within(a: Span16, o: int) -> bool {
    a.off <= o < a.off + a.len
}

/// A frame that is left at once leaves the stack as it was.
pub proof fn law_a_frame_is_left_as_it_was_entered(a: VStack, b: VStack, c: VStack)
    requires
        entered(a, b),
        left(b, c),
    ensures
        c.cur == a.cur,
        c.off == a.off,
        c.marks@ == a.marks@,
        c.chunks == a.chunks,
        c.peak == a.peak,
{
    assert(a.marks@.push((a.cur, a.off)).drop_last() =~= a.marks@);
}

} // verus!
