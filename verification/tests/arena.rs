use aurora::arena::{frame_arena_used, Arena, Block};

#[test]
fn frame_arena_allocates_then_resets() {
    let mut a = Arena::new();
    a.frame_reset();
    let base = frame_arena_used(&a);
    let p = a.frame_alloc(b"hello");
    let used = a.read(p);
    assert_eq!(used, b"hello");
    assert!(frame_arena_used(&a) > base, "allocation advances the arena");
    a.frame_reset();
    assert_eq!(frame_arena_used(&a), 0, "reset frees the whole frame");
}

#[test]
fn arena_pointers_stay_valid_across_many_allocs() {
    let mut a = Arena::new();
    a.frame_reset();
    let first = a.frame_alloc(b"abcd");
    // Force growth past a chunk so reallocation would move a naive Vec.
    for _ in 0..300_000 {
        let _ = a.frame_alloc(b"xxxxxxxx");
    }
    assert_eq!(a.read(first), b"abcd", "early pointer must remain valid");
}

/// A block that does not fit what is left of a chunk goes to the next one whole.
#[test]
fn a_block_is_never_split() {
    let mut a = Arena::new();
    let big = vec![7u8; 0x10_0000 - 3];
    let x = a.frame_alloc(&big);
    let y = a.frame_alloc(b"12345678");
    let z = a.frame_alloc(&vec![9u8; 0x20_0000]);
    assert_eq!(a.read(x), big);
    assert_eq!(a.read(y), b"12345678");
    assert_eq!(a.read(z).len(), 0x20_0000);
    assert_ne!(x.chunk, y.chunk);
}

/// A block larger than a chunk counts in full.
#[test]
fn a_large_block_counts_in_full() {
    let mut a = Arena::new();
    a.frame_reset();
    let _ = a.frame_alloc(&vec![1u8; 3 << 20]);
    assert_eq!(frame_arena_used(&a), 3 << 20);
    let _ = a.frame_alloc(b"");
    assert_eq!(frame_arena_used(&a), (3 << 20) + 8, "nothing takes a word");
    let full = a.frame_alloc(&vec![2u8; 1 << 20]);
    assert_eq!(frame_arena_used(&a), (3 << 20) + (1 << 20) + (1 << 20));
    assert_eq!((full.off, full.chunk), (0, 2));
    assert_eq!((a.cur, a.next_id), (2, 3));
}

/// No block shares a byte with another, and each keeps its bytes.
#[test]
fn blocks_keep_apart() {
    let mut a = Arena::new();
    let items: Vec<Vec<u8>> =
        [5usize, 0, 1 << 20, 8, (1 << 20) + 1, 13, 1].iter().map(|n| vec![*n as u8 ^ 0x5a; *n]).collect();
    let blocks: Vec<Block> = items.iter().map(|b| a.frame_alloc(b)).collect();
    for (i, b) in blocks.iter().enumerate() {
        assert_eq!(a.read(*b), items[i]);
        for c in &blocks[i + 1..] {
            assert!(b.chunk != c.chunk || b.off + b.len <= c.off || c.off + c.len <= b.off);
        }
    }
}

/// What no memory holds is known before it is asked for.
#[test]
fn a_block_beyond_memory_is_told_beforehand() {
    let a = Arena::new();
    for n in [0, 1, 1 << 20, (1 << 20) + 1, 1 << 30] {
        assert!(a.can_serve(n));
    }
    assert!(!a.can_serve(usize::MAX));
    assert!(!a.can_serve(isize::MAX as usize - 7));
}
