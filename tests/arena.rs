use leveldb::arena::{Arena, Region, K_BLOCK_SIZE};
use std::cell::RefCell;
use std::rc::Rc;

fn check_current_block(arena: &Arena, is_null: bool, bytes: usize) {
    assert_eq!(!arena.has_current_block(), is_null);
    assert_eq!(arena.bytes_remaining(), bytes);
}

fn overlaps(a: &Region, b: &Region) -> bool {
    a.block == b.block && a.offset < b.offset + b.len && b.offset < a.offset + a.len
}

#[test]
fn new() {
    let arena = Arena::new();
    check_current_block(&arena, true, 0);
    assert_eq!(arena.memory_usage(), 0);
}

#[test]
fn alloc_new() {
    let mut arena = Arena::new();

    let _ = arena.alloc_new(128);
    check_current_block(&arena, true, 0);
    assert_eq!(arena.memory_usage(), 128);

    let _ = arena.alloc_new(256);
    check_current_block(&arena, true, 0);
    assert_eq!(arena.memory_usage(), 256 + 128);
}

#[test]
fn alloc_fallback() {
    let mut arena = Arena::new();
    let _ = arena.alloc_fallback(1025);
    check_current_block(&arena, true, 0);
    assert_eq!(arena.memory_usage(), 1025);

    let _ = arena.alloc_fallback(512);
    check_current_block(&arena, false, K_BLOCK_SIZE - 512);
    assert_eq!(arena.memory_usage(), 1025 + K_BLOCK_SIZE as i64);
}

#[test]
fn alloc_aligned() {
    let mut arena = Arena::new();
    let ptr_size = ::std::mem::size_of::<usize>();
    assert!(ptr_size > 1);

    let _ = arena.alloc_fallback(1);
    let _ = arena.alloc_aliged(512);
    check_current_block(&arena, false, K_BLOCK_SIZE - 512 - ptr_size);
}

#[test]
fn allocate() {
    let mut arena = Arena::new();

    let _ = arena.allocate(128);

    check_current_block(&arena, false, 3968); // 4096 - 128
    assert_eq!(arena.memory_usage(), 4096);

    let _ = arena.allocate(1024); //should allocate from existing block

    check_current_block(&arena, false, 2944); //3968 - 1024
    assert_eq!(arena.memory_usage(), 4096);

    let _ = arena.allocate(8192); //should allocate new block

    check_current_block(&arena, false, 2944);
    assert_eq!(arena.memory_usage(), 12288); //8192 + 4096

    let _ = arena.allocate(2048); // should allocate from existing block
    check_current_block(&arena, false, 896); // 2944 - 2048
    assert_eq!(arena.memory_usage(), 12288);

    let _ = arena.allocate(1024); // should allocate new block

    check_current_block(&arena, false, 3072); // 4096 - 1024
    assert_eq!(arena.memory_usage(), 16384); //12288 + 4096
}

#[test]
fn arena_ref() {
    let arena_ref: Rc<RefCell<Arena>> = Rc::new(RefCell::new(Arena::new()));
    assert_eq!(arena_ref.as_ptr().is_null(), false);
    assert_eq!(arena_ref.borrow_mut().memory_usage(), 0);

    let _ = arena_ref.borrow_mut().allocate(128);
    assert_eq!(arena_ref.borrow_mut().memory_usage(), 4096); //Block allocated
}

#[test]
fn bump_accounting_keeps_current_block() {
    let mut arena = Arena::new();
    let first = arena.allocate(128);
    assert_eq!(first, Region { block: 0, offset: 0, len: 128 });
    assert_eq!(arena.bytes_remaining(), K_BLOCK_SIZE - 128);
    let big = arena.allocate(K_BLOCK_SIZE);
    assert_eq!(big, Region { block: 1, offset: 0, len: K_BLOCK_SIZE });
    assert_eq!(arena.bytes_remaining(), K_BLOCK_SIZE - 128);
    assert_eq!(arena.memory_usage(), 2 * K_BLOCK_SIZE as i64);
    let next = arena.allocate(16);
    assert_eq!(next, Region { block: 0, offset: 128, len: 16 });
}

#[test]
fn aligned_regions_at_every_misalignment() {
    let align = std::cmp::max(std::mem::size_of::<usize>(), 8);
    for prior in 1..=align {
        let mut arena = Arena::new();
        let _ = arena.allocate(prior);
        let r = arena.alloc_aliged(24);
        assert_eq!(r.offset % align, 0);
        assert_eq!(r.len, 24);
        assert!(r.offset >= prior);
    }
}

#[test]
fn regions_never_overlap() {
    let mut arena = Arena::new();
    let mut regions = Vec::new();
    let sizes = [3usize, 100, 1500, 7, 900, 4000, 1, 1024, 1025, 64];
    for (i, s) in sizes.iter().enumerate() {
        let r = if i % 2 == 0 { arena.allocate(*s) } else { arena.alloc_aliged(*s) };
        assert_eq!(r.len, *s);
        regions.push(r);
    }
    for i in 0..regions.len() {
        for j in 0..i {
            assert!(!overlaps(&regions[i], &regions[j]));
        }
    }
}

#[test]
fn region_bytes_are_written_in_place() {
    let mut arena = Arena::new();
    let a = arena.allocate(4);
    let b = arena.allocate(3);
    assert_eq!(arena.region_bytes(a), &[0, 0, 0, 0]);
    arena.write_byte(a, 3, 7);
    arena.write_byte(b, 0, 9);
    assert_eq!(arena.region_bytes(a), &[0, 0, 0, 7]);
    assert_eq!(arena.region_bytes(b), &[9, 0, 0]);
}

#[test]
fn new_blocks_are_zero_and_old_contents_stay() {
    let mut arena = Arena::new();
    let a = arena.allocate(128);
    assert!(arena.region_bytes(a).iter().all(|b| *b == 0));
    arena.write_byte(a, 0, 5);
    let big = arena.allocate(K_BLOCK_SIZE);
    assert_eq!(arena.region_bytes(big).len(), K_BLOCK_SIZE);
    assert!(arena.region_bytes(big).iter().all(|b| *b == 0));
    let own = arena.alloc_new(100);
    assert!(arena.region_bytes(own).iter().all(|b| *b == 0));
    let fresh = arena.alloc_fallback(64);
    assert!(arena.region_bytes(fresh).iter().all(|b| *b == 0));
    let aligned = arena.alloc_aliged(40);
    assert!(arena.region_bytes(aligned).iter().all(|b| *b == 0));
    assert_eq!(arena.region_bytes(a)[0], 5);
}
