use collam::block::BlockPtr;
use collam::heap::Heap;
use collam::{calloc, free, malloc, realloc};

const BASE: usize = 0x10000;

fn heap() -> Heap {
    Heap::new(BASE, 1 << 20).expect("unable to create heap")
}

fn free_blocks(heap: &Heap) -> Vec<(usize, usize)> {
    heap.list
        .debug(&heap.mem)
        .iter()
        .map(|(ptr, block)| (ptr.as_ptr(), block.size))
        .collect()
}

fn image(heap: &Heap) -> Vec<u8> {
    heap.mem.read_bytes(heap.mem.base(), heap.mem.brk() - heap.mem.base())
}

fn size_at(heap: &Heap, p: usize) -> usize {
    BlockPtr::from_mem_region(p).expect("no block").size(&heap.mem)
}

/// No two free blocks touch, and they ascend by address.
fn assert_list_sound(heap: &Heap) {
    let blocks = free_blocks(heap);
    for pair in blocks.windows(2) {
        assert!(pair[0].0 < pair[1].0);
        assert!(pair[0].0 + 16 + pair[0].1 < pair[1].0);
    }
    for (addr, size) in blocks {
        assert!(addr >= heap.mem.base());
        assert!(addr + 16 + size <= heap.mem.brk());
        assert!(BlockPtr { addr }.as_ref(&heap.mem).verify());
    }
}

#[test]
fn malloc_free_malloc_same_size() {
    let mut heap = heap();
    let first = malloc(&mut heap, 64);
    assert_ne!(first, 0);
    free(&mut heap, first);
    let second = malloc(&mut heap, 64);
    assert_eq!(second, first);
    assert!(free_blocks(&heap).is_empty());
}

#[test]
fn malloc_splits_a_free_region() {
    let mut heap = heap();
    let region = heap.request(4096).expect("unable to request block");
    heap.list
        .insert(&mut heap.mem, region)
        .expect("unable to insert");
    let p = malloc(&mut heap, 256);
    assert_eq!(p, region.as_ptr() + 16);
    assert_eq!(free_blocks(&heap), vec![(p + 256, 3824)]);
}

#[test]
fn malloc_coalesce_forward_and_backward() {
    let mut heap = heap();
    let a = malloc(&mut heap, 64);
    let b = malloc(&mut heap, 64);
    let c = malloc(&mut heap, 64);
    free(&mut heap, b);
    assert_eq!(free_blocks(&heap), vec![(b - 16, 64)]);
    free(&mut heap, a);
    assert_eq!(free_blocks(&heap), vec![(a - 16, 144)]);
    free(&mut heap, c);
    assert_eq!(free_blocks(&heap), vec![(a - 16, 224)]);
}

#[test]
fn free_twice_is_a_no_op() {
    let mut heap = heap();
    let p = malloc(&mut heap, 128);
    free(&mut heap, p);
    let blocks = free_blocks(&heap);
    let bytes = image(&heap);
    free(&mut heap, p);
    assert_eq!(free_blocks(&heap), blocks);
    assert_eq!(blocks, vec![(p - 16, 128)]);
    assert_eq!(image(&heap), bytes);
}

#[test]
fn free_of_null_is_a_no_op() {
    let mut heap = heap();
    let p = malloc(&mut heap, 32);
    let bytes = image(&heap);
    free(&mut heap, 0);
    assert_eq!(image(&heap), bytes);
    assert!(free_blocks(&heap).is_empty());
    assert_eq!(size_at(&heap, p), 32);
}

#[test]
fn malloc_returns_null_when_nothing_is_left() {
    let mut heap = Heap::new(BASE, 64).expect("unable to create heap");
    assert_eq!(malloc(&mut heap, 49), 0);
    assert_eq!(malloc(&mut heap, usize::MAX), 0);
    let p = malloc(&mut heap, 48);
    assert_eq!(p, BASE + 16);
    assert_eq!(malloc(&mut heap, 0), 0);
    assert_eq!(malloc(&mut heap, 1), 0);
}

#[test]
fn malloc_of_nothing_hands_out_the_smallest_payload() {
    let mut heap = heap();
    let p = malloc(&mut heap, 0);
    assert_ne!(p, 0);
    assert_eq!(size_at(&heap, p), 16);
    let q = malloc(&mut heap, 0);
    assert_eq!(q, p + 32);
}

#[test]
fn realloc_grow_copies_bytes() {
    let mut heap = heap();
    let p = malloc(&mut heap, 32);
    let pattern: Vec<u8> = (0x00..0x20).collect();
    heap.mem.write_bytes(p, &pattern);
    let q = realloc(&mut heap, p, 128);
    assert_ne!(q, 0);
    assert_ne!(q, p);
    assert_eq!(heap.mem.read_bytes(q, 32), pattern);
    assert!(size_at(&heap, q) >= 128);
    // the old block went back to the free list
    assert_eq!(free_blocks(&heap), vec![(p - 16, 32)]);
    assert_list_sound(&heap);

    free(&mut heap, q);
    assert_list_sound(&heap);
    // all of the heap is one free block again
    assert_eq!(
        free_blocks(&heap),
        vec![(BASE, heap.mem.brk() - BASE - 16)]
    );
    assert_eq!(heap.mem.brk(), BASE + 48 + 144);
}

#[test]
fn realloc_of_null_is_malloc() {
    let mut heap = heap();
    let p = realloc(&mut heap, 0, 100);
    assert_eq!(p, BASE + 16);
    assert_eq!(size_at(&heap, p), 112);
    assert_eq!(realloc(&mut heap, 0, usize::MAX), 0);
}

#[test]
fn realloc_to_nothing_is_free() {
    let mut heap = heap();
    let p = malloc(&mut heap, 100);
    let _q = malloc(&mut heap, 16);
    assert_eq!(realloc(&mut heap, p, 0), 0);
    assert_eq!(free_blocks(&heap), vec![(p - 16, 112)]);
}

#[test]
fn realloc_to_the_same_or_a_smaller_size_stays_in_place() {
    let mut heap = heap();
    let p = malloc(&mut heap, 512);
    let _q = malloc(&mut heap, 16);
    let pattern: Vec<u8> = (0..=255).collect();
    heap.mem.write_bytes(p, &pattern);

    assert_eq!(realloc(&mut heap, p, 512), p);
    assert_eq!(size_at(&heap, p), 512);
    assert!(free_blocks(&heap).is_empty());

    // too little would be left for a block of its own
    assert_eq!(realloc(&mut heap, p, 480), p);
    assert_eq!(size_at(&heap, p), 512);
    assert!(free_blocks(&heap).is_empty());

    assert_eq!(realloc(&mut heap, p, 200), p);
    assert_eq!(size_at(&heap, p), 208);
    assert_eq!(free_blocks(&heap), vec![(p + 208, 512 - 208 - 16)]);
    assert_eq!(heap.mem.read_bytes(p, 200), pattern[..200].to_vec());
    assert_list_sound(&heap);
}

#[test]
fn realloc_to_a_larger_size_moves_the_payload() {
    let mut heap = heap();
    let a = malloc(&mut heap, 64);
    let b = malloc(&mut heap, 64);
    let c = malloc(&mut heap, 256);
    let d = malloc(&mut heap, 16);
    let pattern_a: Vec<u8> = (0..64).map(|i| 3 * i as u8).collect();
    let pattern_b: Vec<u8> = (0..64).map(|i| 200 - i as u8).collect();
    heap.mem.write_bytes(a, &pattern_a);
    heap.mem.write_bytes(b, &pattern_b);
    free(&mut heap, c);

    // the new block is the first fit: the free block that c left
    let q = realloc(&mut heap, a, 100);
    assert_eq!(q, c);
    assert_eq!(size_at(&heap, q), 112);
    assert_eq!(heap.mem.read_bytes(q, 64), pattern_a);
    assert_eq!(heap.mem.read_bytes(b, 64), pattern_b);
    assert_eq!(
        free_blocks(&heap),
        vec![(a - 16, 64), (c + 112, 256 - 112 - 16)]
    );
    assert_list_sound(&heap);
    assert!(d > c);
}

#[test]
fn realloc_that_cannot_be_served_changes_nothing() {
    let mut heap = Heap::new(BASE, 128).expect("unable to create heap");
    let p = malloc(&mut heap, 64);
    let pattern: Vec<u8> = (0..64).collect();
    heap.mem.write_bytes(p, &pattern);
    let bytes = image(&heap);
    assert_eq!(realloc(&mut heap, p, 65), 0);
    assert_eq!(realloc(&mut heap, p, usize::MAX), 0);
    assert_eq!(image(&heap), bytes);
    assert!(free_blocks(&heap).is_empty());
    assert_eq!(size_at(&heap, p), 64);
}

#[test]
fn realloc_of_what_is_no_payload_returns_null() {
    let mut heap = heap();
    let p = malloc(&mut heap, 64);
    let q = malloc(&mut heap, 64);
    let bytes = image(&heap);
    assert_eq!(realloc(&mut heap, p + 8, 32), 0);
    assert_eq!(realloc(&mut heap, p + 16, 32), 0);
    assert_eq!(realloc(&mut heap, BASE, 32), 0);
    assert_eq!(realloc(&mut heap, usize::MAX - 15, 32), 0);
    assert_eq!(image(&heap), bytes);

    // a block that is free already
    free(&mut heap, p);
    let bytes = image(&heap);
    assert_eq!(realloc(&mut heap, p, 32), 0);
    assert_eq!(realloc(&mut heap, p, 512), 0);
    assert_eq!(image(&heap), bytes);
    assert_eq!(free_blocks(&heap), vec![(p - 16, 64)]);
    assert_eq!(size_at(&heap, q), 64);
}

#[test]
fn calloc_hands_out_zeroed_bytes() {
    let mut heap = heap();
    let p = malloc(&mut heap, 256);
    let _q = malloc(&mut heap, 16);
    heap.mem.write_bytes(p, &[0xAAu8; 256]);
    free(&mut heap, p);

    let r = calloc(&mut heap, 10, 10);
    assert_eq!(r, p);
    assert_eq!(size_at(&heap, r), 112);
    assert_eq!(heap.mem.read_bytes(r, 100), vec![0u8; 100]);
    // what lies behind the bytes asked for is left as it is
    assert_eq!(heap.mem.read_bytes(r + 100, 12), vec![0xAAu8; 12]);
    assert_eq!(free_blocks(&heap), vec![(r + 112, 256 - 112 - 16)]);
    assert_list_sound(&heap);

    // a block that is handed out whole is zeroed as far as was asked
    let s = calloc(&mut heap, 4, 20);
    assert_eq!(s, r + 112 + 16);
    assert_eq!(size_at(&heap, s), 128);
    assert_eq!(heap.mem.read_bytes(s, 80), vec![0u8; 80]);
    assert_eq!(heap.mem.read_bytes(s + 80, 48), vec![0xAAu8; 48]);
    assert!(free_blocks(&heap).is_empty());
}

#[test]
fn calloc_of_nothing_hands_out_the_smallest_payload() {
    let mut heap = heap();
    let p = calloc(&mut heap, 0, 100);
    assert_ne!(p, 0);
    assert_eq!(size_at(&heap, p), 16);
    let q = calloc(&mut heap, 7, 0);
    assert_eq!(q, p + 32);
}

#[test]
fn calloc_returns_null_when_nothing_is_left() {
    let mut heap = Heap::new(BASE, 64).expect("unable to create heap");
    assert_eq!(calloc(&mut heap, 7, 7), 0);
    assert_eq!(calloc(&mut heap, 1, usize::MAX), 0);
    assert_eq!(heap.mem.brk(), BASE);
    assert_eq!(calloc(&mut heap, 6, 8), BASE + 16);
}

#[test]
fn a_quiescent_heap_holds_one_block_or_none() {
    let mut heap = heap();
    let mut live = Vec::new();
    for round in 0..3 {
        for n in [40usize, 8, 120, 64, 1, 500, 33] {
            let p = malloc(&mut heap, n + round);
            assert_ne!(p, 0);
            assert_eq!(p % 16, 0);
            assert!(size_at(&heap, p) >= n + round);
            live.push(p);
        }
        let grown = realloc(&mut heap, live[2], 300);
        assert_ne!(grown, 0);
        live[2] = grown;
        let shrunk = realloc(&mut heap, live[5], 100);
        assert_eq!(shrunk, live[5]);
        for i in [3usize, 0, 6, 1, 5, 2, 4] {
            free(&mut heap, live[i]);
            assert_list_sound(&heap);
        }
        live.clear();
        let blocks = free_blocks(&heap);
        assert_eq!(blocks.len(), 1);
        assert_eq!(blocks[0].0, BASE);
        assert_eq!(blocks[0].0 + 16 + blocks[0].1, heap.mem.brk());
    }
}
