use collam::block::{BlockPtr, BLOCK_META_SIZE};
use collam::heap::{pad, Heap, PAGE_SIZE};

const BASE: usize = 0x10000;

fn heap() -> Heap {
    Heap::new(BASE, 1 << 20).expect("unable to create heap")
}

/// The address and payload size of each free block, from the lowest on.
fn free_blocks(heap: &Heap) -> Vec<(usize, usize)> {
    heap.list
        .debug(&heap.mem)
        .iter()
        .map(|(ptr, block)| (ptr.as_ptr(), block.size))
        .collect()
}

fn image(heap: &Heap) -> Vec<u8> {
    heap.mem.read_bytes(heap.mem.base(), heap.mem.brk() - heap.mem.base())
}

#[test]
fn new_heap_is_empty() {
    let heap = heap();
    assert_eq!(heap.mem.base(), BASE);
    assert_eq!(heap.mem.brk(), BASE);
    assert_eq!(heap.mem.limit(), 1 << 20);
    assert!(free_blocks(&heap).is_empty());
}

#[test]
fn new_heap_needs_a_sound_base() {
    assert!(Heap::new(0, 4096).is_none());
    assert!(Heap::new(8, 4096).is_none());
    assert!(Heap::new(0x1008, 4096).is_none());
    assert!(Heap::new(usize::MAX - 15, 4096).is_none());
    assert!(Heap::new(16, 0).is_some());
    assert!(Heap::new(usize::MAX - 15, 0).is_some());
}

#[test]
fn pad_rounds_up_to_the_alignment() {
    assert_eq!(pad(0), Some(16));
    assert_eq!(pad(1), Some(16));
    assert_eq!(pad(16), Some(16));
    assert_eq!(pad(17), Some(32));
    assert_eq!(pad(240), Some(240));
    assert_eq!(pad(241), Some(256));
    assert_eq!(pad(usize::MAX - 15), Some(usize::MAX - 15));
    assert_eq!(pad(usize::MAX - 14), None);
    assert_eq!(pad(usize::MAX), None);
}

#[test]
fn allocate_free_allocate_same_size() {
    let mut heap = heap();
    let first = heap.allocate(64).expect("unable to allocate memory");
    heap.free_block(first);
    let second = heap.allocate(64).expect("unable to allocate memory");
    assert_eq!(second, first);
    assert!(free_blocks(&heap).is_empty());
}

#[test]
fn split_on_allocate() {
    let mut heap = heap();
    let region = heap.request(4096).expect("unable to request block");
    heap.list
        .insert(&mut heap.mem, region)
        .expect("unable to insert");
    assert_eq!(free_blocks(&heap), vec![(region.as_ptr(), 4096)]);

    let p = heap.allocate(256).expect("unable to allocate memory");
    assert_eq!(p, region.mem_region());
    assert_eq!(region.size(&heap.mem), 256);
    assert_eq!(free_blocks(&heap), vec![(p + 256, 4096 - 16 - 256)]);
    assert_eq!(free_blocks(&heap)[0].1, 3824);
}

#[test]
fn no_split_when_remainder_too_small() {
    let mut heap = heap();
    let block = heap.request(256).expect("unable to request block");
    let fence = heap.allocate(16).expect("unable to allocate memory");
    heap.list
        .insert(&mut heap.mem, block)
        .expect("unable to insert");
    assert_eq!(free_blocks(&heap), vec![(block.as_ptr(), 256)]);
    let brk = heap.mem.brk();

    // 256 - 208 - 16 = 32 bytes would be left: the block is handed out whole
    let p = heap.allocate(208).expect("unable to allocate memory");
    assert_eq!(p, block.mem_region());
    assert_eq!(block.size(&heap.mem), 256);
    assert!(free_blocks(&heap).is_empty());
    assert_eq!(heap.mem.brk(), brk);
    assert!(fence > p);
}

#[test]
fn a_block_too_small_to_split_and_too_large_to_fit_is_passed_over() {
    let mut heap = heap();
    let block = heap.request(256).expect("unable to request block");
    let _fence = heap.allocate(16).expect("unable to allocate memory");
    heap.list
        .insert(&mut heap.mem, block)
        .expect("unable to insert");
    let brk = heap.mem.brk();

    // 240 is neither the size of the block nor smaller by what a block is worth
    let p = heap.allocate(240).expect("unable to allocate memory");
    assert_eq!(p, brk + BLOCK_META_SIZE);
    assert_eq!(heap.mem.brk(), brk + BLOCK_META_SIZE + 240);
    assert_eq!(free_blocks(&heap), vec![(block.as_ptr(), 256)]);

    // the very size of the block is served by it
    let q = heap.allocate(256).expect("unable to allocate memory");
    assert_eq!(q, block.mem_region());
    assert!(free_blocks(&heap).is_empty());
}

#[test]
fn coalesce_forward_and_backward() {
    let mut heap = heap();
    let a = heap.allocate(64).expect("unable to allocate memory");
    let b = heap.allocate(64).expect("unable to allocate memory");
    let c = heap.allocate(64).expect("unable to allocate memory");
    assert_eq!(a, BASE + 16);
    assert_eq!(b, a + 80);
    assert_eq!(c, b + 80);

    heap.free_block(b);
    assert_eq!(free_blocks(&heap), vec![(b - 16, 64)]);
    heap.free_block(a);
    assert_eq!(free_blocks(&heap), vec![(a - 16, 64 + 16 + 64)]);
    heap.free_block(c);
    assert_eq!(free_blocks(&heap), vec![(a - 16, 144 + 16 + 64)]);
    assert_eq!(free_blocks(&heap)[0].1, 224);
    // one block that spans all of the heap
    assert_eq!(heap.mem.brk(), BASE + 240);
}

#[test]
fn double_free_detected() {
    let mut heap = heap();
    let p = heap.allocate(128).expect("unable to allocate memory");
    heap.free_block(p);
    let blocks = free_blocks(&heap);
    let bytes = image(&heap);
    assert_eq!(blocks, vec![(p - 16, 128)]);

    heap.free_block(p);
    assert_eq!(free_blocks(&heap), blocks);
    assert_eq!(image(&heap), bytes);
    assert_eq!(heap.mem.brk(), BASE + 16 + 128);
}

#[test]
fn double_free_of_a_swallowed_block_is_ignored() {
    let mut heap = heap();
    let a = heap.allocate(64).expect("unable to allocate memory");
    let b = heap.allocate(64).expect("unable to allocate memory");
    let _c = heap.allocate(64).expect("unable to allocate memory");
    heap.free_block(a);
    heap.free_block(b);
    assert_eq!(free_blocks(&heap), vec![(a - 16, 144)]);
    let bytes = image(&heap);

    // the header of b was overwritten with zero when a swallowed it
    assert!(!BlockPtr::from_mem_region(b).unwrap().as_ref(&heap.mem).verify());
    heap.free_block(b);
    assert_eq!(free_blocks(&heap), vec![(a - 16, 144)]);
    assert_eq!(image(&heap), bytes);
    heap.free_block(a);
    assert_eq!(free_blocks(&heap), vec![(a - 16, 144)]);
    assert_eq!(image(&heap), bytes);
}

#[test]
fn free_of_what_is_no_payload_is_ignored() {
    let mut heap = heap();
    let p = heap.allocate(64).expect("unable to allocate memory");
    let bytes = image(&heap);
    let strays = [
        0,
        8,
        16,
        17,
        p + 1,
        p + 8,
        p + 16,
        BASE,
        BASE - 16,
        p + 4096,
        usize::MAX,
        usize::MAX - 15,
    ];
    for q in strays {
        heap.free_block(q);
        assert!(free_blocks(&heap).is_empty());
        assert_eq!(image(&heap), bytes);
    }
}

#[test]
fn free_of_a_block_with_a_broken_header_is_ignored() {
    let mut heap = heap();
    let p = heap.allocate(64).expect("unable to allocate memory");
    let _q = heap.allocate(64).expect("unable to allocate memory");
    let block = BlockPtr::from_mem_region(p).unwrap();

    // a tag that is not the tag of a header
    let mut header = block.as_ref(&heap.mem);
    header.magic = 0xDEAF;
    block.store(&mut heap.mem, &header);
    heap.free_block(p);
    assert!(free_blocks(&heap).is_empty());

    // a size that reaches past the program break
    header.magic = 0xDEAD;
    header.size = 4096;
    block.store(&mut heap.mem, &header);
    heap.free_block(p);
    assert!(free_blocks(&heap).is_empty());

    // a size that is no multiple of the alignment, and none at all
    header.size = 72;
    block.store(&mut heap.mem, &header);
    heap.free_block(p);
    assert!(free_blocks(&heap).is_empty());
    header.size = 0;
    block.store(&mut heap.mem, &header);
    heap.free_block(p);
    assert!(free_blocks(&heap).is_empty());

    // the header as it was
    header.size = 64;
    block.store(&mut heap.mem, &header);
    heap.free_block(p);
    assert_eq!(free_blocks(&heap), vec![(p - 16, 64)]);
}

#[test]
fn allocate_returns_aligned_payloads_of_the_padded_size() {
    let mut heap = heap();
    for n in [0usize, 1, 15, 16, 17, 31, 32, 33, 100, 240, 1000, 4095, 4096, 4097] {
        let p = heap.allocate(n).expect("unable to allocate memory");
        assert_eq!(p % 16, 0);
        let block = BlockPtr::from_mem_region(p).expect("no block");
        let size = block.size(&heap.mem);
        assert!(size >= n);
        assert!(size >= 16);
        assert_eq!(size % 16, 0);
        assert!(size < n + 16 || size == 16);
        assert!(block.as_ref(&heap.mem).verify());
        assert_eq!(block.as_ref(&heap.mem).next, None);
        assert_eq!(block.as_ref(&heap.mem).prev, None);
    }
}

#[test]
fn allocate_fails_when_the_segment_is_full() {
    let mut heap = Heap::new(BASE, 256).expect("unable to create heap");
    let p = heap.allocate(100).expect("unable to allocate memory");
    assert_eq!(p, BASE + 16);
    assert_eq!(heap.mem.brk(), BASE + 16 + 112);
    // 128 bytes are left: room for a header and 112 bytes
    assert_eq!(heap.allocate(113), None);
    assert_eq!(heap.mem.brk(), BASE + 128);
    let q = heap.allocate(112).expect("unable to allocate memory");
    assert_eq!(q, BASE + 128 + 16);
    assert_eq!(heap.mem.brk(), BASE + 256);
    assert_eq!(heap.allocate(0), None);
    assert_eq!(heap.allocate(usize::MAX), None);
    assert_eq!(heap.allocate(usize::MAX - 15), None);
    assert_eq!(heap.mem.brk(), BASE + 256);
}

#[test]
fn allocate_takes_the_first_fit_by_address() {
    let mut heap = heap();
    let a = heap.allocate(96).expect("unable to allocate memory");
    let _f1 = heap.allocate(16).expect("unable to allocate memory");
    let b = heap.allocate(64).expect("unable to allocate memory");
    let _f2 = heap.allocate(16).expect("unable to allocate memory");
    let c = heap.allocate(64).expect("unable to allocate memory");
    let _f3 = heap.allocate(16).expect("unable to allocate memory");
    heap.free_block(c);
    heap.free_block(b);
    heap.free_block(a);
    assert_eq!(
        free_blocks(&heap),
        vec![(a - 16, 96), (b - 16, 64), (c - 16, 64)]
    );
    // a is larger than 64 bytes by less than a block is worth: b is the first fit
    assert_eq!(heap.allocate(64), Some(b));
    assert_eq!(heap.allocate(64), Some(c));
    // 48 bytes and what a block is worth: a serves, and is too small to be split
    assert_eq!(heap.allocate(48), Some(a));
    assert_eq!(BlockPtr::from_mem_region(a).unwrap().size(&heap.mem), 96);
    assert!(free_blocks(&heap).is_empty());
}

#[test]
fn allocate_leaves_other_payloads_alone() {
    let mut heap = heap();
    let a = heap.allocate(64).expect("unable to allocate memory");
    let b = heap.allocate(256).expect("unable to allocate memory");
    let c = heap.allocate(64).expect("unable to allocate memory");
    let pattern_a: Vec<u8> = (0..64).map(|i| i as u8).collect();
    let pattern_c: Vec<u8> = (0..64).map(|i| 255 - i as u8).collect();
    heap.mem.write_bytes(a, &pattern_a);
    heap.mem.write_bytes(c, &pattern_c);
    heap.free_block(b);
    let d = heap.allocate(100).expect("unable to allocate memory");
    assert_eq!(d, b);
    let e = heap.allocate(64).expect("unable to allocate memory");
    assert_eq!(e, b + 112 + 16);
    heap.free_block(d);
    heap.free_block(e);
    assert_eq!(free_blocks(&heap), vec![(b - 16, 256)]);
    assert_eq!(heap.mem.read_bytes(a, 64), pattern_a);
    assert_eq!(heap.mem.read_bytes(c, 64), pattern_c);
}

#[test]
fn the_only_free_block_is_given_back_when_it_spans_a_page() {
    let mut heap = heap();
    let p = heap.allocate(PAGE_SIZE - 16).expect("unable to allocate memory");
    assert_eq!(heap.mem.brk(), BASE + PAGE_SIZE);
    heap.free_block(p);
    assert!(free_blocks(&heap).is_empty());
    assert_eq!(heap.mem.brk(), BASE);

    // one byte less than a page stays
    let p = heap.allocate(PAGE_SIZE - 32).expect("unable to allocate memory");
    heap.free_block(p);
    assert_eq!(free_blocks(&heap), vec![(BASE, PAGE_SIZE - 32)]);
    assert_eq!(heap.mem.brk(), BASE + PAGE_SIZE - 16);
}

#[test]
fn the_top_block_gives_back_whole_pages_and_keeps_a_payload() {
    let mut heap = heap();
    let a = heap.allocate(64).expect("unable to allocate memory");
    let _b = heap.allocate(64).expect("unable to allocate memory");
    let c = heap.allocate(10000).expect("unable to allocate memory");
    let top = heap.mem.brk();
    assert_eq!(top, BASE + 80 + 80 + 16 + 10000);
    heap.free_block(a);
    assert_eq!(heap.mem.brk(), top);
    heap.free_block(c);
    // (10000 - 16) / 4096 = 2 pages are given back
    assert_eq!(heap.mem.brk(), top - 2 * PAGE_SIZE);
    assert_eq!(
        free_blocks(&heap),
        vec![(a - 16, 64), (c - 16, 10000 - 2 * PAGE_SIZE)]
    );
    assert_eq!(c - 16 + 16 + 10000 - 2 * PAGE_SIZE, heap.mem.brk());
}

#[test]
fn a_free_block_below_the_top_gives_nothing_back() {
    let mut heap = heap();
    let a = heap.allocate(3 * PAGE_SIZE).expect("unable to allocate memory");
    let _b = heap.allocate(64).expect("unable to allocate memory");
    let top = heap.mem.brk();
    heap.free_block(a);
    assert_eq!(heap.mem.brk(), top);
    assert_eq!(free_blocks(&heap), vec![(a - 16, 3 * PAGE_SIZE)]);
}

#[test]
fn all_freed_leaves_one_block_or_none() {
    let mut heap = heap();
    let mut live = Vec::new();
    for n in [24usize, 100, 64, 300, 16, 48, 1000] {
        live.push(heap.allocate(n).expect("unable to allocate memory"));
    }
    let top = heap.mem.brk();
    // free in an order that leaves holes first
    for i in [1usize, 3, 5, 0, 6, 2, 4] {
        heap.free_block(live[i]);
        let blocks = free_blocks(&heap);
        for pair in blocks.windows(2) {
            assert!(pair[0].0 + BLOCK_META_SIZE + pair[0].1 < pair[1].0);
        }
    }
    assert_eq!(heap.mem.brk(), top);
    assert_eq!(free_blocks(&heap), vec![(BASE, top - BASE - 16)]);

    // a second round over the same memory, large enough to be given back
    let big = heap.allocate(2 * PAGE_SIZE).expect("unable to allocate memory");
    let small = heap.allocate(32).expect("unable to allocate memory");
    heap.free_block(small);
    heap.free_block(big);
    assert!(free_blocks(&heap).is_empty());
    assert_eq!(heap.mem.brk(), BASE);
}

#[test]
fn split_insert_shrinks_a_block_in_place() {
    let mut heap = heap();
    let p = heap.allocate(512).expect("unable to allocate memory");
    let q = heap.allocate(16).expect("unable to allocate memory");
    let block = BlockPtr::from_mem_region(p).unwrap();
    let pattern: Vec<u8> = (0..100).map(|i| i as u8).collect();
    heap.mem.write_bytes(p, &pattern);

    heap.split_insert(block, 100);
    assert_eq!(block.size(&heap.mem), 112);
    assert_eq!(free_blocks(&heap), vec![(p + 112, 512 - 112 - 16)]);
    assert_eq!(heap.mem.read_bytes(p, 100), pattern);

    // too little would be left: nothing happens
    heap.split_insert(block, 64);
    assert_eq!(block.size(&heap.mem), 112);
    heap.split_insert(block, 112);
    assert_eq!(block.size(&heap.mem), 112);
    heap.split_insert(block, usize::MAX);
    assert_eq!(block.size(&heap.mem), 112);
    assert_eq!(free_blocks(&heap).len(), 1);

    // what is split off is fused with the free block behind it
    heap.split_insert(block, 16);
    assert_eq!(block.size(&heap.mem), 16);
    assert_eq!(free_blocks(&heap), vec![(p + 16, 512 - 16 - 16)]);
    assert!(q > p + 512);
}

#[test]
fn insert_takes_a_block_back() {
    let mut heap = heap();
    let p = heap.allocate(64).expect("unable to allocate memory");
    let _q = heap.allocate(64).expect("unable to allocate memory");
    let block = BlockPtr::from_mem_region(p).unwrap();
    heap.insert(block);
    assert_eq!(free_blocks(&heap), vec![(p - 16, 64)]);
    heap.insert(block);
    assert_eq!(free_blocks(&heap), vec![(p - 16, 64)]);
}

#[test]
fn request_raises_the_break_by_the_block() {
    let mut heap = Heap::new(BASE, 1024).expect("unable to create heap");
    let a = heap.request(256).expect("unable to request block");
    assert_eq!(a.as_ptr(), BASE);
    assert_eq!(heap.mem.brk(), BASE + 16 + 256);
    assert_eq!(a.size(&heap.mem), 256);
    assert!(a.as_ref(&heap.mem).verify());
    assert!(heap.request(1024).is_none());
    assert!(heap.request(usize::MAX - 15).is_none());
    assert_eq!(heap.mem.brk(), BASE + 16 + 256);
    let b = heap.request(1024 - 272 - 16).expect("unable to request block");
    assert_eq!(b.as_ptr(), BASE + 272);
    assert_eq!(heap.mem.brk(), BASE + 1024);
    assert!(free_blocks(&heap).is_empty());
}

#[test]
fn lookup_finds_intact_blocks_only() {
    let mut heap = heap();
    let p = heap.allocate(64).expect("unable to allocate memory");
    let q = heap.allocate(64).expect("unable to allocate memory");
    assert_eq!(heap.lookup(p), Some(BlockPtr { addr: p - 16 }));
    assert_eq!(heap.lookup(q), Some(BlockPtr { addr: q - 16 }));
    assert_eq!(heap.lookup(0), None);
    assert_eq!(heap.lookup(16), None);
    assert_eq!(heap.lookup(p + 8), None);
    assert_eq!(heap.lookup(p + 16), None);
    assert_eq!(heap.lookup(BASE), None);
    assert_eq!(heap.lookup(heap.mem.brk()), None);
    assert_eq!(heap.lookup(heap.mem.brk() + 16), None);
    assert_eq!(heap.lookup(usize::MAX - 15), None);
    // a block that is free is still a block
    heap.free_block(p);
    assert_eq!(heap.lookup(p), Some(BlockPtr { addr: p - 16 }));
    // a block that was swallowed is none
    heap.free_block(q);
    assert_eq!(heap.lookup(q), None);
    assert_eq!(heap.lookup(p), Some(BlockPtr { addr: p - 16 }));
}
