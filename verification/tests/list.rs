use collam::block::{BlockPtr, BLOCK_META_SIZE};
use collam::heap::Heap;
use collam::list::IntrusiveList;

fn heap() -> Heap {
    Heap::new(0x10000, 1 << 20).expect("unable to create heap")
}

/// The address and payload size of each listed block, from the head on.
fn listing(list: &IntrusiveList, heap: &Heap) -> Vec<(usize, usize)> {
    list.debug(&heap.mem)
        .iter()
        .map(|(ptr, block)| (ptr.as_ptr(), block.size))
        .collect()
}

#[test]
fn test_insert_after_no_merge() {
    let mut heap = heap();
    let mut list = IntrusiveList::new();
    assert_eq!(list.head, None);
    assert_eq!(list.tail, None);

    let block = heap.request(256).expect("unable to request block");
    // Block2 imitates a used block. So it will not be added to list
    let block2 = block.shrink(&mut heap.mem, 64).expect("unable to split block");
    let block3 = block2.shrink(&mut heap.mem, 64).expect("unable to split block");

    // Insert block1
    list.insert(&mut heap.mem, block).expect("unable to insert");
    assert_eq!(list.head, Some(block));
    assert_eq!(list.tail, Some(block));
    assert_eq!(block.as_ref(&heap.mem).next, None);
    assert_eq!(block.as_ref(&heap.mem).prev, None);

    // Insert block3
    list.insert(&mut heap.mem, block3).expect("unable to insert");
    assert_eq!(list.head, Some(block));
    assert_eq!(list.tail, Some(block3));
    assert_eq!(block.as_ref(&heap.mem).next, Some(block3));
    assert_eq!(block.as_ref(&heap.mem).prev, None);
    assert_eq!(block3.as_ref(&heap.mem).next, None);
    assert_eq!(block3.as_ref(&heap.mem).prev, Some(block));
}

#[test]
fn test_insert_before_no_merge() {
    let mut heap = heap();
    let mut list = IntrusiveList::new();
    assert_eq!(list.head, None);
    assert_eq!(list.tail, None);

    let block = heap.request(256).expect("unable to request block");
    // Block2 imitates a used block. So it will not be added to list
    let block2 = block.shrink(&mut heap.mem, 64).expect("unable to split block");
    let block3 = block2.shrink(&mut heap.mem, 64).expect("unable to split block");

    // Insert block3
    list.insert(&mut heap.mem, block3).expect("unable to insert");
    assert_eq!(list.head, Some(block3));
    assert_eq!(list.tail, Some(block3));
    assert_eq!(block3.as_ref(&heap.mem).next, None);
    assert_eq!(block3.as_ref(&heap.mem).prev, None);

    // Insert block1
    list.insert(&mut heap.mem, block).expect("unable to insert");
    assert_eq!(list.head, Some(block));
    assert_eq!(list.tail, Some(block3));
    assert_eq!(block.as_ref(&heap.mem).next, Some(block3));
    assert_eq!(block.as_ref(&heap.mem).prev, None);
    assert_eq!(block3.as_ref(&heap.mem).next, None);
    assert_eq!(block3.as_ref(&heap.mem).prev, Some(block));
}

#[test]
fn test_insert_merge() {
    let mut heap = heap();
    let mut list = IntrusiveList::new();
    assert_eq!(list.head, None);
    assert_eq!(list.tail, None);

    let block = heap.request(256).expect("unable to request block");
    let block2 = block.shrink(&mut heap.mem, 64).expect("unable to split block");
    let block3 = block2.shrink(&mut heap.mem, 64).expect("unable to split block");

    // Insert block1
    list.insert(&mut heap.mem, block).expect("unable to insert");
    assert_eq!(list.head, Some(block));
    assert_eq!(list.tail, Some(block));
    assert_eq!(block.as_ref(&heap.mem).next, None);
    assert_eq!(block.as_ref(&heap.mem).prev, None);
    assert_eq!(block.size(&heap.mem), 64);

    // Insert block2
    list.insert(&mut heap.mem, block2).expect("unable to insert");
    assert_eq!(list.head, Some(block));
    assert_eq!(list.tail, Some(block));
    assert_eq!(block.as_ref(&heap.mem).next, None);
    assert_eq!(block.as_ref(&heap.mem).prev, None);
    assert_eq!(block.size(&heap.mem), 64 + BLOCK_META_SIZE + 64);

    // Insert block3
    list.insert(&mut heap.mem, block3).expect("unable to insert");
    assert_eq!(list.head, Some(block));
    assert_eq!(list.tail, Some(block));
    assert_eq!(block.as_ref(&heap.mem).next, None);
    assert_eq!(block.as_ref(&heap.mem).prev, None);
    assert!(block.size(&heap.mem) > 64 + BLOCK_META_SIZE + 64 + BLOCK_META_SIZE);
}

#[test]
fn test_pop_exact_size() {
    let mut heap = heap();
    let mut list = IntrusiveList::new();
    let block = heap.request(512).expect("unable to request block");
    // Block2 imitates a used block. So it will not be added to list
    let block2 = block.shrink(&mut heap.mem, 64).expect("unable to split block");
    let block3 = block2.shrink(&mut heap.mem, 64).expect("unable to split block");

    // Insert block1
    list.insert(&mut heap.mem, block).expect("unable to insert");
    // Insert block3
    list.insert(&mut heap.mem, block3).expect("unable to insert");

    let result = list.pop(&mut heap.mem, 64).expect("got no block");
    assert_eq!(result, block);
    assert_eq!(result.as_ref(&heap.mem).next, None);
    assert_eq!(result.as_ref(&heap.mem).prev, None);
    assert_eq!(result.size(&heap.mem), 64);
}

#[test]
fn test_pop_smaller_size() {
    let mut heap = heap();
    let mut list = IntrusiveList::new();
    let block = heap.request(512).expect("unable to request block");
    // Block2 imitates a used block. So it will not be added to list
    let block2 = block.shrink(&mut heap.mem, 64).expect("unable to split block");
    let block3 = block2.shrink(&mut heap.mem, 64).expect("unable to split block");

    // Insert block1
    list.insert(&mut heap.mem, block).expect("unable to insert");
    // Insert block3
    list.insert(&mut heap.mem, block3).expect("unable to insert");

    let result = list.pop(&mut heap.mem, 16).expect("got no block");
    assert_eq!(result, block);
    assert_eq!(result.as_ref(&heap.mem).next, None);
    assert_eq!(result.as_ref(&heap.mem).prev, None);
    assert_eq!(result.size(&heap.mem), 64);
}

#[test]
fn test_debug() {
    let mut heap = heap();
    let mut list = IntrusiveList::new();
    let block = heap.request(256).expect("unable to request block");
    // Block2 imitates a used block. So it will not be added to list
    let block2 = block.shrink(&mut heap.mem, 64).expect("unable to split block");
    let block3 = block2.shrink(&mut heap.mem, 64).expect("unable to split block");

    // Insert block1
    list.insert(&mut heap.mem, block).expect("unable to insert");
    // Insert block3
    list.insert(&mut heap.mem, block3).expect("unable to insert");
    let blocks = list.debug(&heap.mem);
    assert_eq!(blocks.len(), 2);
    assert_eq!(blocks[0].0, block);
    assert_eq!(blocks[0].1.size, 64);
    assert_eq!(blocks[0].1.next, Some(block3));
    assert_eq!(blocks[0].1.prev, None);
    assert_eq!(blocks[1].0, block3);
    assert_eq!(blocks[1].1.size, 96);
    assert_eq!(blocks[1].1.prev, Some(block));
    assert_eq!(blocks[1].1.next, None);
    assert!(blocks[1].1.verify());
}

/// Five blocks of 64 bytes in a row, none of them listed.
fn five(heap: &mut Heap) -> [BlockPtr; 5] {
    let a = heap.request(5 * 80 - 16).expect("unable to request block");
    let b = a.shrink(&mut heap.mem, 64).expect("unable to split block");
    let c = b.shrink(&mut heap.mem, 64).expect("unable to split block");
    let d = c.shrink(&mut heap.mem, 64).expect("unable to split block");
    let e = d.shrink(&mut heap.mem, 64).expect("unable to split block");
    assert_eq!(e.size(&heap.mem), 64);
    [a, b, c, d, e]
}

#[test]
fn new_list_is_empty() {
    let heap = heap();
    let list = IntrusiveList::new();
    assert_eq!(list.head, None);
    assert_eq!(list.tail, None);
    assert!(list.debug(&heap.mem).is_empty());
}

#[test]
fn insert_keeps_the_order_of_addresses() {
    let mut heap = heap();
    let mut list = IntrusiveList::new();
    let [a, _b, c, _d, e] = five(&mut heap);
    list.insert(&mut heap.mem, e).expect("unable to insert");
    list.insert(&mut heap.mem, a).expect("unable to insert");
    list.insert(&mut heap.mem, c).expect("unable to insert");
    assert_eq!(
        listing(&list, &heap),
        vec![(a.as_ptr(), 64), (c.as_ptr(), 64), (e.as_ptr(), 64)]
    );
    assert_eq!(list.head, Some(a));
    assert_eq!(list.tail, Some(e));
    assert_eq!(a.as_ref(&heap.mem).next, Some(c));
    assert_eq!(c.as_ref(&heap.mem).prev, Some(a));
    assert_eq!(c.as_ref(&heap.mem).next, Some(e));
    assert_eq!(e.as_ref(&heap.mem).prev, Some(c));
    // no listed block ends where the next one starts
    let blocks = listing(&list, &heap);
    for pair in blocks.windows(2) {
        assert!(pair[0].0 + BLOCK_META_SIZE + pair[0].1 < pair[1].0);
    }
}

#[test]
fn insert_fuses_with_the_block_below() {
    let mut heap = heap();
    let mut list = IntrusiveList::new();
    let [a, b, _c, _d, e] = five(&mut heap);
    list.insert(&mut heap.mem, a).expect("unable to insert");
    list.insert(&mut heap.mem, e).expect("unable to insert");
    list.insert(&mut heap.mem, b).expect("unable to insert");
    assert_eq!(listing(&list, &heap), vec![(a.as_ptr(), 144), (e.as_ptr(), 64)]);
    assert!(!b.as_ref(&heap.mem).verify());
    assert_eq!(a.as_ref(&heap.mem).next, Some(e));
    assert_eq!(e.as_ref(&heap.mem).prev, Some(a));
}

#[test]
fn insert_fuses_with_the_block_above() {
    let mut heap = heap();
    let mut list = IntrusiveList::new();
    let [a, _b, _c, d, e] = five(&mut heap);
    list.insert(&mut heap.mem, a).expect("unable to insert");
    list.insert(&mut heap.mem, e).expect("unable to insert");
    list.insert(&mut heap.mem, d).expect("unable to insert");
    assert_eq!(listing(&list, &heap), vec![(a.as_ptr(), 64), (d.as_ptr(), 144)]);
    assert!(!e.as_ref(&heap.mem).verify());
    assert_eq!(list.tail, Some(d));
    assert_eq!(d.as_ref(&heap.mem).next, None);
    assert_eq!(d.as_ref(&heap.mem).prev, Some(a));
    assert_eq!(a.as_ref(&heap.mem).next, Some(d));
}

#[test]
fn insert_fuses_on_both_sides() {
    let mut heap = heap();
    let mut list = IntrusiveList::new();
    let [a, b, c, d, e] = five(&mut heap);
    list.insert(&mut heap.mem, a).expect("unable to insert");
    list.insert(&mut heap.mem, c).expect("unable to insert");
    list.insert(&mut heap.mem, e).expect("unable to insert");
    list.insert(&mut heap.mem, b).expect("unable to insert");
    assert_eq!(listing(&list, &heap), vec![(a.as_ptr(), 224), (e.as_ptr(), 64)]);
    list.insert(&mut heap.mem, d).expect("unable to insert");
    assert_eq!(listing(&list, &heap), vec![(a.as_ptr(), 384)]);
    assert_eq!(list.head, Some(a));
    assert_eq!(list.tail, Some(a));
    assert_eq!(a.as_ref(&heap.mem).next, None);
    assert_eq!(a.as_ref(&heap.mem).prev, None);
}

#[test]
fn insert_of_a_listed_block_is_an_error() {
    let mut heap = heap();
    let mut list = IntrusiveList::new();
    let [a, _b, c, _d, e] = five(&mut heap);
    list.insert(&mut heap.mem, a).expect("unable to insert");
    list.insert(&mut heap.mem, c).expect("unable to insert");
    list.insert(&mut heap.mem, e).expect("unable to insert");
    let before = listing(&list, &heap);
    assert_eq!(list.insert(&mut heap.mem, c), Err(()));
    assert_eq!(list.insert(&mut heap.mem, a), Err(()));
    assert_eq!(list.insert(&mut heap.mem, e), Err(()));
    assert_eq!(listing(&list, &heap), before);
    assert_eq!(c.as_ref(&heap.mem).next, Some(e));
    assert_eq!(c.as_ref(&heap.mem).prev, Some(a));
}

#[test]
fn insert_of_a_block_inside_a_listed_block_is_an_error() {
    let mut heap = heap();
    let mut list = IntrusiveList::new();
    let big = heap.request(512).expect("unable to request block");
    list.insert(&mut heap.mem, big).expect("unable to insert");
    // a header that somebody wrote into the free payload
    let inner = BlockPtr::new(&mut heap.mem, big.as_ptr() + 64, 64);
    assert_eq!(list.insert(&mut heap.mem, inner), Err(()));
    assert_eq!(listing(&list, &heap), vec![(big.as_ptr(), 512)]);
}

#[test]
fn find_higher_block_finds_the_next_by_address() {
    let mut heap = heap();
    let mut list = IntrusiveList::new();
    let [a, b, c, d, e] = five(&mut heap);
    assert_eq!(list.find_higher_block(&heap.mem, c), Ok(None));
    list.insert(&mut heap.mem, a).expect("unable to insert");
    list.insert(&mut heap.mem, c).expect("unable to insert");
    list.insert(&mut heap.mem, e).expect("unable to insert");
    assert_eq!(list.find_higher_block(&heap.mem, b), Ok(Some(c)));
    assert_eq!(list.find_higher_block(&heap.mem, d), Ok(Some(e)));
    assert_eq!(list.find_higher_block(&heap.mem, a), Err(()));
    assert_eq!(list.find_higher_block(&heap.mem, c), Err(()));
    assert_eq!(list.find_higher_block(&heap.mem, e), Err(()));
    assert_eq!(
        list.find_higher_block(&heap.mem, BlockPtr { addr: a.as_ptr() - 16 }),
        Ok(Some(a))
    );
    assert_eq!(
        list.find_higher_block(&heap.mem, BlockPtr { addr: e.as_ptr() + 16 }),
        Ok(None)
    );
}

#[test]
fn pop_takes_the_first_fit() {
    let mut heap = heap();
    let mut list = IntrusiveList::new();
    let a = heap.request(1024).expect("unable to request block");
    let gap1 = a.shrink(&mut heap.mem, 32).expect("unable to split block");
    let b = gap1.shrink(&mut heap.mem, 64).expect("unable to split block");
    let gap2 = b.shrink(&mut heap.mem, 128).expect("unable to split block");
    let c = gap2.shrink(&mut heap.mem, 64).expect("unable to split block");
    list.insert(&mut heap.mem, a).expect("unable to insert");
    list.insert(&mut heap.mem, b).expect("unable to insert");
    list.insert(&mut heap.mem, c).expect("unable to insert");
    assert_eq!(a.size(&heap.mem), 32);
    assert_eq!(b.size(&heap.mem), 128);
    let big = c.size(&heap.mem);
    assert_eq!(big, 1024 - 48 - 80 - 144 - 80);

    // 96 bytes: a is too small, b is larger by less than a block is worth, c serves
    assert_eq!(list.pop(&mut heap.mem, 96), Some(c));
    assert_eq!(listing(&list, &heap), vec![(a.as_ptr(), 32), (b.as_ptr(), 128)]);
    list.insert(&mut heap.mem, c).expect("unable to insert");

    // 80 bytes: b is larger by exactly what a block is worth
    assert_eq!(list.pop(&mut heap.mem, 80), Some(b));
    assert_eq!(listing(&list, &heap), vec![(a.as_ptr(), 32), (c.as_ptr(), big)]);
    assert_eq!(b.as_ref(&heap.mem).next, None);
    assert_eq!(b.as_ref(&heap.mem).prev, None);
    assert_eq!(a.as_ref(&heap.mem).next, Some(c));
    assert_eq!(c.as_ref(&heap.mem).prev, Some(a));

    // nothing serves a request beyond every block
    assert_eq!(list.pop(&mut heap.mem, 4096), None);
    assert_eq!(list.pop(&mut heap.mem, usize::MAX), None);
    assert_eq!(listing(&list, &heap), vec![(a.as_ptr(), 32), (c.as_ptr(), big)]);

    // the head and the tail can be taken
    assert_eq!(list.pop(&mut heap.mem, 32), Some(a));
    assert_eq!(list.head, Some(c));
    assert_eq!(list.pop(&mut heap.mem, big), Some(c));
    assert_eq!(list.head, None);
    assert_eq!(list.tail, None);
    assert_eq!(list.pop(&mut heap.mem, 16), None);
}

#[test]
fn remove_unlinks_a_block_at_any_place() {
    let mut heap = heap();
    let mut list = IntrusiveList::new();
    let [a, _b, c, _d, e] = five(&mut heap);
    list.insert(&mut heap.mem, a).expect("unable to insert");
    list.insert(&mut heap.mem, c).expect("unable to insert");
    list.insert(&mut heap.mem, e).expect("unable to insert");

    assert_eq!(list.remove(&mut heap.mem, c), c);
    assert_eq!(listing(&list, &heap), vec![(a.as_ptr(), 64), (e.as_ptr(), 64)]);
    assert_eq!(c.as_ref(&heap.mem).next, None);
    assert_eq!(c.as_ref(&heap.mem).prev, None);
    assert!(c.as_ref(&heap.mem).verify());
    assert_eq!(a.as_ref(&heap.mem).next, Some(e));
    assert_eq!(e.as_ref(&heap.mem).prev, Some(a));

    assert_eq!(list.remove(&mut heap.mem, e), e);
    assert_eq!(list.head, Some(a));
    assert_eq!(list.tail, Some(a));
    assert_eq!(a.as_ref(&heap.mem).next, None);

    assert_eq!(list.remove(&mut heap.mem, a), a);
    assert_eq!(list.head, None);
    assert_eq!(list.tail, None);
}

#[test]
fn shorten_tail_cuts_the_last_block() {
    let mut heap = heap();
    let mut list = IntrusiveList::new();
    let [a, _b, c, _d, _e] = five(&mut heap);
    list.insert(&mut heap.mem, a).expect("unable to insert");
    list.insert(&mut heap.mem, c).expect("unable to insert");
    list.shorten_tail(&mut heap.mem, 32);
    assert_eq!(listing(&list, &heap), vec![(a.as_ptr(), 64), (c.as_ptr(), 32)]);
    list.shorten_tail(&mut heap.mem, 16);
    assert_eq!(c.size(&heap.mem), 16);
    assert_eq!(c.as_ref(&heap.mem).prev, Some(a));
}

#[test]
fn locate_tells_a_free_place_from_a_taken_one() {
    let mut heap = heap();
    let mut list = IntrusiveList::new();
    let [a, b, c, d, e] = five(&mut heap);
    assert_eq!(list.locate(&heap.mem, c), Ok(None));
    list.insert(&mut heap.mem, a).expect("unable to insert");
    list.insert(&mut heap.mem, c).expect("unable to insert");
    list.insert(&mut heap.mem, e).expect("unable to insert");
    assert_eq!(list.locate(&heap.mem, b), Ok(Some(c)));
    assert_eq!(list.locate(&heap.mem, d), Ok(Some(e)));
    assert_eq!(list.locate(&heap.mem, a), Err(()));
    assert_eq!(list.locate(&heap.mem, c), Err(()));
    assert_eq!(list.locate(&heap.mem, e), Err(()));

    // a block that reaches into the listed block above it
    b.set_size(&mut heap.mem, 80);
    assert_eq!(list.locate(&heap.mem, b), Err(()));
    b.set_size(&mut heap.mem, 64);

    // a block that starts inside the listed block below it
    let inside = BlockPtr::new(&mut heap.mem, c.as_ptr() + 32, 16);
    assert_eq!(list.locate(&heap.mem, inside), Err(()));
    assert_eq!(list.insert(&mut heap.mem, inside), Err(()));
}
