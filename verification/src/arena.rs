//! The frame arena: a chunked bump allocator that is emptied once per frame.
//! Strings built during a frame live in it.
use vstd::prelude::*;

use crate::vstack;

verus! {

/// Bytes of an ordinary chunk.
pub const CHUNK: usize = 0x10_0000;

/// A chunk. Its id never changes, so that what was handed out keeps naming the
/// same bytes however many chunks come before or after.
pub struct Chunk {
    pub id: u64,
    pub data: Vec<u8>,
}

/// One allocation: `len` bytes from `off` on in the chunk with this id.
#[derive(Clone, Copy, PartialEq, Eq, Structural, Debug)]
pub struct Block {
    pub chunk: u64,
    pub off: usize,
    pub len: usize,
}

pub struct Arena {
    pub chunks: Vec<Chunk>,
    /// The chunk the next allocation is tried in; the last one.
    pub cur: usize,
    /// How much of it is taken.
    pub used: usize,
    pub next_id: u64,
}

/// `n` bytes, rounded up to whole words of eight.
pub open spec fn aligned(n: int) -> int {
    (n + 7) / 8 * 8
}

impl Arena {
    pub open spec fn wf(self) -> bool {
        &&& self.chunks@.len() > 0
        &&& self.cur == self.chunks@.len() - 1
        &&& self.used <= self.chunks@[self.cur as int].data@.len()
        &&& self.used % 8 == 0
        &&& self.capacity() <= isize::MAX
        &&& forall|i: int|
            0 <= i < self.chunks@.len() ==> (#[trigger] self.chunks@[i]).id < self.next_id
                && CHUNK <= self.chunks@[i].data@.len()
        &&& forall|i: int, j: int|
            0 <= i < j < self.chunks@.len() ==> (#[trigger] self.chunks@[i]).id != (
            #[trigger] self.chunks@[j]).id
    }

    /// How long each chunk is.
    pub open spec fn lens(self) -> Seq<int> {
        Seq::new(self.chunks@.len(), |i: int| self.chunks@[i].data@.len() as int)
    }

    /// Bytes of backing store.
    pub open spec fn capacity(self) -> int {
        vstack::total(self.lens(), self.chunks@.len() as int)
    }

    /// Bytes allocated in this frame, the chunks before the current one counted
    /// whole.
    pub open spec fn used_bytes(self) -> int {
        vstack::total(self.lens(), self.cur as int) + self.used
    }

    /// Whether `n` bytes still fit in the current chunk.
    pub open spec fn has_room(self, n: int) -> bool {
        n <= CHUNK && self.used + n <= self.chunks@[self.cur as int].data@.len()
    }

    /// The lengths of the chunks once `n` bytes more are taken: a request larger
    /// than a chunk gets one of its own before the current one, and a chunk is
    /// added behind it where the current one is full.
    pub open spec fn lens_with(self, n: int) -> Seq<int> {
        if n > CHUNK {
            self.lens().insert(self.cur as int, n)
        } else if self.has_room(n) {
            self.lens()
        } else {
            self.lens().push(CHUNK as int)
        }
    }

    /// Whether the memory of a machine holds what serving `n` bytes takes, and
    /// there is an id for a new chunk.
    pub open spec fn room_for(self, n: int) -> bool {
        &&& aligned(n) <= isize::MAX
        &&& vstack::total(
            self.lens_with(aligned(n)),
            self.lens_with(aligned(n)).len() as int,
        ) <= isize::MAX
        &&& self.chunks@.len() < usize::MAX
        &&& self.next_id < u64::MAX
    }

    /// Whether the arena holds the chunk with this id.
    pub open spec fn has(self, id: u64) -> bool {
        exists|i: int| 0 <= i < self.chunks@.len() && (#[trigger] self.chunks@[i]).id == id
    }

    /// Where that chunk stands.
    pub open spec fn place(self, id: u64) -> int {
        choose|i: int| 0 <= i < self.chunks@.len() && (#[trigger] self.chunks@[i]).id == id
    }

    /// Its bytes.
    pub open spec fn bytes(self, id: u64) -> Seq<u8> {
        self.chunks@[self.place(id)].data@
    }

    /// Whether byte `o` of the chunk belongs to an allocation of this frame.
    pub open spec fn taken(self, id: u64, o: int) -> bool {
        &&& self.has(id)
        &&& 0 <= o < self.bytes(id).len()
        &&& self.place(id) == self.cur ==> o < self.used
    }

    /// Whether `b` lies in the arena.
    pub open spec fn holds(self, b: Block) -> bool {
        self.has(b.chunk) && b.off + b.len <= self.bytes(b.chunk).len()
    }

    /// The bytes of an allocation.
    pub open spec fn content(self, b: Block) -> Seq<u8> {
        self.bytes(b.chunk).subrange(b.off as int, b.off + b.len)
    }

    proof fn lemma_place(self, i: int)
        requires
            self.wf(),
            0 <= i < self.chunks@.len(),
        ensures
            self.has(self.chunks@[i].id),
            self.place(self.chunks@[i].id) == i,
    {
        let j = self.place(self.chunks@[i].id);
        assert(self.chunks@[i].id == self.chunks@[j].id);
    }

    /// An arena with one empty chunk.
    pub fn new() -> (a: Arena)
        ensures
            a.wf(),
            a.lens() == seq![CHUNK as int],
            a.cur == 0,
            a.used == 0,
            a.next_id == 1,
            forall|id: u64, o: int| !#[trigger] a.taken(id, o),
    {
        let mut chunks: Vec<Chunk> = Vec::new();
        chunks.push(Chunk { id: 0, data: vec![0u8; CHUNK] });
        let a = Arena { chunks, cur: 0, used: 0, next_id: 1 };
        proof {
            assert(a.lens() =~= seq![CHUNK as int]);
            reveal_with_fuel(vstack::total, 2);
        }
        a
    }

    /// Whether the memory of a machine holds what serving `n` bytes takes, and there
    /// is an id for a new chunk.
    pub fn can_serve(&self, n: usize) -> (r: bool)
        requires
            self.wf(),
        ensures
            r == self.room_for(n as int),
    {
        let ghost lens = self.lens();
        let count: usize = self.chunks.len();
        let mut sum: usize = 0;
        let mut i: usize = 0;
        while i < count
            invariant
                i <= count == self.chunks@.len(),
                lens == self.lens(),
                sum == vstack::total(lens, i as int),
                vstack::total(lens, count as int) <= isize::MAX,
            decreases count - i,
        {
            proof {
                vstack::lemma_total(lens, i + 1, count as int);
            }
            sum += self.chunks[i].data.len();
            i += 1;
        }
        let need: u128 = (n as u128 + 7) / 8 * 8;
        if need > isize::MAX as u128 || count == usize::MAX || self.next_id == u64::MAX {
            return false;
        }
        proof {
            vstack::lemma_total_insert(lens, self.cur as int, need as int, count as int);
            vstack::lemma_total_push(lens, CHUNK as int);
        }
        if need > CHUNK as u128 {
            sum as u128 + need <= isize::MAX as u128
        } else if self.used as u128 + need <= self.chunks[self.cur].data.len() as u128 {
            true
        } else {
            sum as u128 + CHUNK as u128 <= isize::MAX as u128
        }
    }

    /// Take `n` bytes, rounded up to eight. A request larger than a chunk gets a
    /// chunk of its own, parked before the current one.
    pub fn allocate(&mut self, n: usize) -> (b: Block)
        requires
            old(self).wf(),
            old(self).room_for(n as int),
        ensures
            took(*old(self), aligned(n as int), *final(self), b.chunk, b.off as int),
            b.len == aligned(n as int),
            b.off % 8 == 0,
            final(self).holds(b),
            forall|id: u64| old(self).has(id) ==> #[trigger] final(self).has(id) && final(self).bytes(id) == old(self).bytes(id),
            forall|id: u64, o: int| old(self).taken(id, o) ==> #[trigger] final(self).taken(id, o),
            forall|o: int|
                b.off <= o < b.off + b.len ==> !old(self).taken(b.chunk, o) && #[trigger] final(self).taken(b.chunk, o),
    {
        let ghost want = n as int;
        let n: usize = if n == 0 {
            0
        } else {
            (n - 1) / 8 * 8 + 8
        };
        assert(n == aligned(want));
        let ghost a = *self;
        proof {
            a.lemma_place(a.cur as int);
        }
        if n > CHUNK {
            let id: u64 = self.next_id;
            self.next_id = id + 1;
            self.chunks.insert(self.cur, Chunk { id, data: vec![0u8; n] });
            self.cur = self.cur + 1;
            proof {
                let at = a.cur as int;
                assert forall|i: int| 0 <= i < self.chunks@.len() implies #[trigger] self.chunks@[i]
                    == (if i < at {
                    a.chunks@[i]
                } else if i == at {
                    self.chunks@[at]
                } else {
                    a.chunks@[i - 1]
                }) by {}
                assert(self.chunks@[self.cur as int] == a.chunks@[at]);
                assert(self.lens() =~= a.lens_with(n as int));
                assert(self.wf());
                self.lemma_place(at);
                assert forall|k: u64| a.has(k) implies #[trigger] self.has(k) && self.bytes(k)
                    == a.bytes(k) by {
                    let i = a.place(k);
                    a.lemma_place(i);
                    if i < at {
                        self.lemma_place(i);
                    } else {
                        self.lemma_place(i + 1);
                    }
                }
                assert forall|k: u64, o: int| a.taken(k, o) implies #[trigger] self.taken(k, o) by {
                    let i = a.place(k);
                    a.lemma_place(i);
                    if i < at {
                        self.lemma_place(i);
                    } else {
                        self.lemma_place(i + 1);
                    }
                }
                assert(!a.has(id)) by {
                    if a.has(id) {
                        let i = a.place(id);
                        assert(a.chunks@[i].id < a.next_id);
                    }
                }
            }
            return Block { chunk: id, off: 0, len: n };
        }
        if n > self.chunks[self.cur].data.len() - self.used {
            let id: u64 = self.next_id;
            self.next_id = id + 1;
            self.chunks.push(Chunk { id, data: vec![0u8; CHUNK] });
            self.cur = self.cur + 1;
            self.used = 0;
            proof {
                assert(!a.has(id)) by {
                    if a.has(id) {
                        let i = a.place(id);
                        assert(a.chunks@[i].id < a.next_id);
                    }
                }
            }
        }
        let b = Block { chunk: self.chunks[self.cur].id, off: self.used, len: n };
        self.used = self.used + n;
        proof {
            assert(self.lens() =~= a.lens_with(n as int));
            assert(self.wf());
            self.lemma_place(self.cur as int);
            assert forall|k: u64| a.has(k) implies #[trigger] self.has(k) && self.bytes(k)
                == a.bytes(k) by {
                let i = a.place(k);
                a.lemma_place(i);
                assert(self.chunks@[i] == a.chunks@[i]);
                self.lemma_place(i);
            }
            assert forall|k: u64, o: int| a.taken(k, o) implies #[trigger] self.taken(k, o) by {
                let i = a.place(k);
                a.lemma_place(i);
                assert(self.chunks@[i] == a.chunks@[i]);
                self.lemma_place(i);
            }
        }
        b
    }

    /// Copy `bytes` into the arena. What earlier calls handed out keeps its bytes.
    pub fn frame_alloc(&mut self, bytes: &[u8]) -> (b: Block)
        requires
            old(self).wf(),
            old(self).room_for(spent(bytes@.len() as int)),
        ensures
            stored(*old(self), bytes@, *final(self), b),
            b.len == bytes@.len(),
            b.off % 8 == 0,
            final(self).content(b) == bytes@,
    {
        let ghost a = *self;
        let len: usize = bytes.len();
        let want: usize = if len < 1 {
            1
        } else {
            len
        };
        let b = self.allocate(want);
        let at: usize = self.find(b.chunk);
        let ghost m = *self;
        proof {
            m.lemma_place(at as int);
        }
        let mut i: usize = 0;
        while i < len
            invariant
                self.wf(),
                i <= len == bytes@.len(),
                self.chunks@.len() == m.chunks@.len(),
                self.cur == m.cur,
                self.used == m.used,
                self.next_id == m.next_id,
                self.lens() == m.lens(),
                at < self.chunks@.len(),
                m.wf(),
                m.chunks@[at as int].data@.len() >= b.off + b.len,
                b.len >= len,
                forall|k: int|
                    0 <= k < m.chunks@.len() && k != at ==> (#[trigger] self.chunks@[k])
                        == m.chunks@[k],
                self.chunks@[at as int].id == m.chunks@[at as int].id,
                self.chunks@[at as int].data@.len() == m.chunks@[at as int].data@.len(),
                forall|o: int|
                    0 <= o < m.chunks@[at as int].data@.len() ==> self.chunks@[at as int].data@[o]
                        == (if b.off <= o < b.off + i {
                        bytes@[o - b.off]
                    } else {
                        m.chunks@[at as int].data@[o]
                    }),
            decreases len - i,
        {
            let n: usize = self.chunks[at].data.len();
            self.chunks[at].data[b.off + i] = bytes[i];
            assert(self.lens() =~= m.lens());
            i += 1;
        }
        let r = Block { chunk: b.chunk, off: b.off, len };
        proof {
            self.lemma_place(at as int);
            assert(self.content(r) =~= bytes@);
            assert forall|id: u64| a.has(id) implies #[trigger] self.has(id) && self.bytes(id).len()
                == a.bytes(id).len() by {
                assert(m.has(id));
                let k = m.place(id);
                m.lemma_place(k);
                self.lemma_place(k);
            }
            assert forall|id: u64, o: int| a.taken(id, o) implies #[trigger] self.taken(id, o)
                && self.bytes(id)[o] == a.bytes(id)[o] by {
                assert(m.taken(id, o));
                let k = m.place(id);
                m.lemma_place(k);
                self.lemma_place(k);
                if k == at {
                    assert(!(b.off <= o < b.off + b.len));
                }
            }
            assert forall|o: int| r.off <= o < r.off + r.len implies !a.taken(r.chunk, o)
                && #[trigger] self.taken(r.chunk, o) by {
                assert(m.taken(b.chunk, o));
            }
        }
        r
    }

    fn find(&self, id: u64) -> (at: usize)
        requires
            self.wf(),
            self.has(id),
        ensures
            at < self.chunks@.len(),
            self.chunks@[at as int].id == id,
            at == self.place(id),
    {
        let mut i: usize = self.chunks.len();
        while i > 0
            invariant
                self.wf(),
                self.has(id),
                i <= self.chunks@.len(),
                forall|k: int| i <= k < self.chunks@.len() ==> (#[trigger] self.chunks@[k]).id != id,
            decreases i,
        {
            i -= 1;
            if self.chunks[i].id == id {
                proof {
                    self.lemma_place(i as int);
                }
                return i;
            }
        }
        proof {
            let k = self.place(id);
            assert(self.chunks@[k].id != id);
        }
        0
    }

    /// The bytes of an allocation.
    pub fn read(&self, b: Block) -> (r: Vec<u8>)
        requires
            self.wf(),
            self.holds(b),
        ensures
            r@ == self.content(b),
    {
        let at: usize = self.find(b.chunk);
        let n: usize = self.chunks[at].data.len();
        let mut r: Vec<u8> = Vec::new();
        let mut i: usize = 0;
        while i < b.len
            invariant
                i <= b.len,
                at < self.chunks@.len(),
                b.off + b.len <= self.chunks@[at as int].data@.len(),
                self.chunks@[at as int].data@.len() <= usize::MAX,
                r@ == self.chunks@[at as int].data@.subrange(b.off as int, b.off + i),
            decreases b.len - i,
        {
            r.push(self.chunks[at].data[b.off + i]);
            i += 1;
            assert(r@ =~= self.chunks@[at as int].data@.subrange(b.off as int, b.off + i));
        }
        r
    }

    /// Free the whole frame. The first chunk is kept for the next one.
    pub fn frame_reset(&mut self)
        requires
            old(self).wf(),
        ensures
            final(self).wf(),
            final(self).cur == 0,
            final(self).used == 0,
            final(self).chunks@ == old(self).chunks@.take(1),
            final(self).next_id == old(self).next_id,
            forall|id: u64, o: int| !#[trigger] final(self).taken(id, o),
    {
        let ghost a = *self;
        self.chunks.truncate(1);
        self.cur = 0;
        self.used = 0;
        proof {
            vstack::lemma_total(a.lens(), 1, a.chunks@.len() as int);
            vstack::lemma_total_same(self.lens(), a.lens(), 1);
        }
    }
}

/// Bytes allocated in the frame arena, whole chunks before the current one
/// counted.
pub fn frame_arena_used(a: &Arena) -> (n: usize)
    requires
        a.wf(),
    ensures
        n == a.used_bytes(),
{
    let ghost lens = a.lens();
    proof {
        vstack::lemma_total(lens, a.cur + 1, lens.len() as int);
    }
    let mut sum: usize = 0;
    let mut i: usize = 0;
    while i < a.cur
        invariant
            i <= a.cur < a.chunks@.len(),
            lens == a.lens(),
            sum == vstack::total(lens, i as int),
            vstack::total(lens, a.cur as int) <= isize::MAX,
        decreases a.cur - i,
    {
        proof {
            vstack::lemma_total(lens, i + 1, a.cur as int);
        }
        sum += a.chunks[i].data.len();
        i += 1;
    }
    sum + a.used
}

/// What `len` bytes ask of the arena: at least one, so that no two blocks begin at
/// the same place.
pub open spec fn spent(len: int) -> int {
    if len < 1 {
        1
    } else {
        len
    }
}

/// What taking `n` bytes, whole words, does to the arena, and where they lie.
pub open spec fn took(before: Arena, n: int, after: Arena, chunk: u64, off: int) -> bool {
    &&& after.wf()
    &&& after.lens() == before.lens_with(n)
    &&& after.cur == before.cur + (if before.has_room(n) {
        0int
    } else {
        1
    })
    &&& after.used == (if n > CHUNK {
        before.used as int
    } else if before.has_room(n) {
        before.used + n
    } else {
        n
    })
    &&& after.next_id == before.next_id + (if before.has_room(n) {
        0int
    } else {
        1
    })
    &&& off == (if before.has_room(n) {
        before.used as int
    } else {
        0
    })
    &&& chunk == (if before.has_room(n) {
        before.chunks@[before.cur as int].id
    } else {
        before.next_id
    })
    &&& !before.has_room(n) ==> !before.has(chunk)
}

/// What storing `bytes` does: room for them is taken, they stand in the block, and
/// what earlier calls handed out keeps its bytes.
pub open spec fn stored(before: Arena, bytes: Seq<u8>, after: Arena, b: Block) -> bool {
    &&& took(before, aligned(spent(bytes.len() as int)), after, b.chunk, b.off as int)
    &&& b.len == bytes.len()
    &&& after.holds(b)
    &&& after.content(b) == bytes
    &&& forall|id: u64|
        before.has(id) ==> #[trigger] after.has(id) && after.bytes(id).len() == before.bytes(
            id,
        ).len()
    &&& forall|id: u64, o: int|
        before.taken(id, o) ==> #[trigger] after.taken(id, o) && after.bytes(id)[o]
            == before.bytes(id)[o]
    &&& forall|o: int|
        b.off <= o < b.off + b.len ==> !before.taken(b.chunk, o) && #[trigger] after.taken(
            b.chunk,
            o,
        )
}

/// Whether some byte belongs to both blocks.
pub open spec fn overlap(a: Block, b: Block) -> bool {
    &&& a.chunk == b.chunk
    &&& a.len > 0 && b.len > 0
    &&& a.off < b.off + b.len && b.off < a.off + a.len
}

/// `run` is what the arena was before, between and after storing `items`, which gave
/// `blocks`.
pub open spec fn stores(run: Seq<Arena>, items: Seq<Seq<u8>>, blocks: Seq<Block>) -> bool {
    &&& run.len() == items.len() + 1
    &&& blocks.len() == items.len()
    &&& forall|k: int|
        0 <= k < items.len() ==> stored(run[k], items[k], run[k + 1], #[trigger] blocks[k])
}

proof fn lemma_taken_stays(
    run: Seq<Arena>,
    items: Seq<Seq<u8>>,
    blocks: Seq<Block>,
    i: int,
    k: int,
)
    requires
        stores(run, items, blocks),
        0 <= i <= k < run.len(),
    ensures
        forall|id: u64|
            run[i].has(id) ==> #[trigger] run[k].has(id) && run[k].bytes(id).len()
                == run[i].bytes(id).len(),
        forall|id: u64, o: int|
            run[i].taken(id, o) ==> #[trigger] run[k].taken(id, o) && run[k].bytes(id)[o]
                == run[i].bytes(id)[o],
    decreases k,
{
    if i < k {
        lemma_taken_stays(run, items, blocks, i, k - 1);
        assert(stored(run[k - 1], items[k - 1], run[k - 1 + 1], blocks[k - 1]));
        assert forall|id: u64, o: int| run[i].taken(id, o) implies #[trigger] run[k].taken(id, o)
            && run[k].bytes(id)[o] == run[i].bytes(id)[o] by {
            assert(run[k - 1].taken(id, o));
        }
        assert forall|id: u64| run[i].has(id) implies #[trigger] run[k].has(id)
            && run[k].bytes(id).len() == run[i].bytes(id).len() by {
            assert(run[k - 1].has(id));
        }
    }
}

/// A block keeps its bytes through any number of later calls.
pub proof fn law_blocks_survive(
    run: Seq<Arena>,
    items: Seq<Seq<u8>>,
    blocks: Seq<Block>,
    i: int,
    k: int,
)
    requires
        stores(run, items, blocks),
        0 <= i < k < run.len(),
    ensures
        run[k].holds(blocks[i]),
        run[k].content(blocks[i]) == items[i],
{
    let b = blocks[i];
    let (s, t) = (run[i + 1], run[k]);
    assert(stored(run[i], items[i], run[i + 1], blocks[i]));
    lemma_taken_stays(run, items, blocks, i + 1, k);
    assert forall|o: int| b.off <= o < b.off + b.len implies #[trigger] t.taken(b.chunk, o)
        && t.bytes(b.chunk)[o] == s.bytes(b.chunk)[o] by {
        assert(run[i + 1].taken(b.chunk, o));
        assert(run[k].taken(b.chunk, o));
    }
    assert(s.has(b.chunk));
    assert(t.has(b.chunk));
    assert(t.content(b) =~= s.content(b)) by {
        assert forall|o: int| 0 <= o < b.len implies t.content(b)[o] == s.content(b)[o] by {
            assert(t.taken(b.chunk, b.off + o));
        }
    }
}

/// No two blocks of a frame share a byte, however many calls lie between.
pub proof fn law_blocks_are_apart(
    run: Seq<Arena>,
    items: Seq<Seq<u8>>,
    blocks: Seq<Block>,
    i: int,
    j: int,
)
    requires
        stores(run, items, blocks),
        0 <= i < j < blocks.len(),
    ensures
        !overlap(blocks[i], blocks[j]),
{
    let (a, b) = (blocks[i], blocks[j]);
    assert(stored(run[i], items[i], run[i + 1], blocks[i]));
    assert(stored(run[j], items[j], run[j + 1], blocks[j]));
    lemma_taken_stays(run, items, blocks, i + 1, j);
    if overlap(a, b) {
        let o = vstack::larger(a.off as int, b.off as int);
        assert(run[i + 1].taken(a.chunk, o));
        assert(run[j].taken(a.chunk, o));
        assert(run[j + 1].taken(b.chunk, o));
    }
}

/// Bytes are rounded up to the next whole number of eights and no further.
pub proof fn law_words_are_rounded_up(n: int)
    requires
        n >= 0,
    ensures
        aligned(n) % 8 == 0,
        n <= aligned(n) < n + 8,
        n % 8 == 0 ==> aligned(n) == n,
        spent(n) >= 1,
        n >= 1 ==> spent(n) == n,
        n == 0 ==> aligned(spent(n)) == 8,
{
}

/// What still fits in the current chunk takes its bytes from it and no more memory. What
/// does not makes the store larger, by a chunk or by as much as it takes where that is
/// more than a chunk.
pub proof fn law_the_store_grows_only_when_it_must(a: Arena, n: int, b: Arena, chunk: u64, off: int)
    requires
        a.wf(),
        n >= 0,
        took(a, n, b, chunk, off),
    ensures
        a.has_room(n) ==> b.capacity() == a.capacity() && b.used_bytes() == a.used_bytes() + n,
        !a.has_room(n) && n <= 0x10_0000 ==> b.capacity() == a.capacity() + 0x10_0000,
        n > 0x10_0000 ==> b.capacity() == a.capacity() + n && b.used_bytes() == a.used_bytes() + n,
        b.used_bytes() >= a.used_bytes() + n,
        a.has_room(n) <==> n <= 0x10_0000 && a.used + n <= a.chunks@[a.cur as int].data@.len(),
{
    let (x, y) = (a.lens(), b.lens());
    let cur = a.cur as int;
    if a.has_room(n) {
        assert(y =~= x);
    } else if n > CHUNK {
        vstack::lemma_total_insert(x, cur, n, x.len() as int);
        vstack::lemma_total_same(x, y, cur);
        assert(y[cur] == n);
    } else {
        vstack::lemma_total_push(x, CHUNK as int);
        vstack::lemma_total_same(x, y, cur + 1);
        vstack::lemma_total_same(x, y, cur);
        assert(x[cur] >= a.used);
    }
}

/// Two blocks overlap where some byte belongs to both, and not where one ends before the
/// other begins.
pub proof fn law_overlapping_allocations_share_a_byte(a: Block, b: Block, o: int)
    ensures
        a.chunk == b.chunk && a.off <= o < a.off + a.len && b.off <= o < b.off + b.len ==> overlap(
            a,
            b,
        ),
        a.off + a.len <= b.off || b.off + b.len <= a.off || a.chunk != b.chunk ==> !overlap(a, b),
        overlap(a, b) <==> overlap(b, a),
        a.len == 0 ==> !overlap(a, b),
{
}

} // verus!
