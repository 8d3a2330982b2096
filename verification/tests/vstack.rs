//! The value stack: a call that allocates and leaves gives the memory back.
use aurora::vstack::{Span16, VStack, ALIGN, CHUNK};

#[test]
fn leave_frees_everything_the_call_allocated() {
    let mut v = VStack::new();
    v.enter();
    let base = v.used();
    v.leave();

    for _ in 0..10_000 {
        v.enter();
        let _ = v.allocate(240_888);
        let _ = v.allocate(240_888);
        v.leave();
    }
    assert_eq!(
        v.used(),
        base,
        "ten thousand calls must return to the same bump offset"
    );
}

/// Steady state must not allocate. After the first pass the chunk list is
/// warm, so a second identical pass adds no chunks at all.
#[test]
fn chunks_are_reused_not_reallocated() {
    let mut v = VStack::new();
    for _ in 0..50 {
        v.enter();
        let _ = v.allocate(1 << 20);
        v.leave();
    }
    let warm = v.chunks.len();
    for _ in 0..50 {
        v.enter();
        let _ = v.allocate(1 << 20);
        v.leave();
    }
    assert_eq!(
        v.chunks.len(),
        warm,
        "a warm arena must not allocate another chunk"
    );
}

/// Nesting is what a call chain does, so marks must nest exactly.
#[test]
fn nested_frames_unwind_in_order() {
    let mut v = VStack::new();
    let start = v.used();
    v.enter();
    let a = v.allocate(4096);
    let mid = v.used();
    v.enter();
    let b = v.allocate(4096);
    assert_ne!(
        (a.chunk, a.off),
        (b.chunk, b.off),
        "an inner frame must not reuse a live outer pointer"
    );
    v.leave();
    assert_eq!(v.used(), mid, "inner leave restores the middle");
    v.leave();
    assert_eq!(v.used(), start, "outer leave restores the start");
}

/// An allocation larger than a whole chunk must still work - the arena is
/// bounded by memory, not by CHUNK.
#[test]
fn an_allocation_bigger_than_a_chunk_still_works() {
    let mut v = VStack::new();
    v.enter();
    let huge = CHUNK * 3;
    let p = v.allocate(huge);
    // Writing the whole span proves the region is really that big.
    v.fill(p, 0xAB);
    assert_eq!(v.byte(p, huge - 1), 0xAB);
    v.leave();
}

/// Distinct allocations in one frame must not overlap.
#[test]
fn allocations_in_one_frame_are_disjoint() {
    let mut v = VStack::new();
    v.enter();
    let n = 64usize;
    let ps: Vec<Span16> = (0..n).map(|_| v.allocate(1024)).collect();
    for (i, p) in ps.iter().enumerate() {
        v.fill(*p, i as u8);
    }
    for (i, p) in ps.iter().enumerate() {
        assert_eq!(v.byte(*p, 0), i as u8, "allocation {i} was overwritten");
        assert_eq!(
            v.byte(*p, 1023),
            i as u8,
            "allocation {i} tail clobbered"
        );
    }
    v.leave();
}

/// Every place must satisfy the alignment the code generator assumes.
#[test]
fn every_allocation_is_aligned() {
    let mut v = VStack::new();
    v.enter();
    for sz in [1usize, 7, 8, 9, 15, 16, 17, 1000] {
        let p = v.allocate(sz);
        assert_eq!(p.off % ALIGN, 0, "size {sz} came back misaligned");
    }
    v.leave();
}

/// An unbalanced leave must not corrupt an outer frame's memory.
#[test]
fn a_stray_leave_does_not_free_an_outer_frame() {
    let mut v = VStack::new();
    v.enter();
    let _ = v.allocate(4096);
    let held = v.used();
    // Drain any marks still held, then over-pop.
    for _ in 0..8 {
        v.leave();
    }
    let after = v.used();
    assert!(
        after <= held,
        "leave must never hand out memory that is still live"
    );
}

/// The peak is the most that was in use, until it is reset.
#[test]
fn the_peak_outlasts_the_frame() {
    let mut v = VStack::new();
    v.enter();
    let _ = v.allocate(100);
    assert_eq!(v.used(), 112, "rounded up to the alignment");
    v.leave();
    assert_eq!(v.used(), 0);
    assert_eq!(v.peak, 112);
    v.reset_peak();
    assert_eq!(v.peak, 0);
}

/// A chunk that is left behind counts whole.
#[test]
fn what_a_chunk_has_left_over_counts_as_used() {
    let mut v = VStack::new();
    let _ = v.allocate(CHUNK - 16);
    let _ = v.allocate(32);
    assert_eq!(v.used(), 4_194_336);
    assert_eq!(v.chunks.len(), 2);
    assert_eq!(v.chunks[1].len(), CHUNK);
}

/// Each chunk that is appended is at least as big as the last.
#[test]
fn an_appended_chunk_is_no_smaller_than_the_last() {
    let mut v = VStack::new();
    let _ = v.allocate(12 << 20);
    let _ = v.allocate(16);
    let _ = v.allocate(8 << 20);
    assert_eq!(v.used(), 20_971_536);
    let sizes: Vec<usize> = v.chunks.iter().map(Vec::len).collect();
    assert_eq!(sizes, vec![12 << 20, 12 << 20]);
}

/// A free chunk that is too small is replaced by one of twice its size or more.
#[test]
fn a_free_chunk_grows_when_it_is_too_small() {
    let mut v = VStack::new();
    v.enter();
    let _ = v.allocate(CHUNK);
    let _ = v.allocate(CHUNK);
    v.leave();
    let _ = v.allocate(CHUNK);
    let _ = v.allocate(CHUNK + 16);
    assert_eq!(v.chunks[1].len(), 2 * CHUNK);
    assert_eq!(v.used(), 2 * CHUNK + 16);
}

/// A second pass of the same allocations gives the same places and adds no chunk,
/// whatever the first pass had to add.
#[test]
fn a_second_pass_allocates_nothing() {
    let sizes = [16, CHUNK, 3 * CHUNK, 1, CHUNK - 16, 100, 2 * CHUNK];
    let mut v = VStack::new();
    let mut passes: Vec<(Vec<Span16>, usize, Vec<usize>)> = vec![];
    for _ in 0..3 {
        let before = v.used();
        v.enter();
        let blocks: Vec<Span16> = sizes.iter().map(|n| v.allocate(*n)).collect();
        let used = v.used();
        v.leave();
        assert_eq!(v.used(), before);
        passes.push((blocks, used, v.chunks.iter().map(Vec::len).collect()));
    }
    assert!(passes[0] == passes[1] && passes[1] == passes[2]);
}

/// A frame gives back what it took, with frames of its own inside it.
#[test]
fn a_frame_with_frames_inside_gives_everything_back() {
    let mut v = VStack::new();
    let _ = v.allocate(CHUNK - 32);
    let before = v.used();
    v.enter();
    let a = v.allocate(64);
    v.fill(a, 1);
    v.enter();
    let _ = v.allocate(5 * CHUNK);
    v.leave();
    let _ = v.allocate(6 * CHUNK);
    assert_eq!(v.byte(a, 63), 1);
    v.leave();
    assert_eq!(v.used(), before);
}

/// A block stays its own while frames inside its own come and go.
#[test]
fn inner_frames_leave_outer_blocks_alone() {
    let mut v = VStack::new();
    v.enter();
    let mut held: Vec<Span16> = vec![];
    for i in 0..6u8 {
        let b = v.allocate(100 + i as usize);
        v.fill(b, i);
        held.push(b);
        v.enter();
        let inner = v.allocate(CHUNK / 2 * (i as usize + 1));
        for b in &held {
            let apart = inner.chunk != b.chunk
                || inner.off + inner.len <= b.off
                || b.off + b.len <= inner.off;
            assert!(apart);
        }
        v.fill(inner, 0xEE);
        v.leave();
    }
    for (i, b) in held.iter().enumerate() {
        assert!((0..100).all(|k| v.byte(*b, k) == i as u8));
        assert!(held[i + 1..].iter().all(|c| c.chunk != b.chunk || b.off + b.len <= c.off));
    }
    v.leave();
    assert_eq!(v.used(), 0);
}

/// What no memory holds is known before it is asked for.
#[test]
fn a_request_beyond_memory_is_told_beforehand() {
    let mut v = VStack::new();
    for n in [0, 1, CHUNK, 3 * CHUNK] {
        assert!(v.can_serve(n));
    }
    assert!(!v.can_serve(usize::MAX));
    assert!(!v.can_serve(isize::MAX as usize));
    assert!(v.can_serve(isize::MAX as usize - 15));
    let _ = v.allocate(16);
    assert!(!v.can_serve(isize::MAX as usize - 15), "the chunk there is counts");
    assert!(v.can_serve(CHUNK - 16));
}
