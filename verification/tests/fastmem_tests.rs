use fastmem::{FastMem, FastMemStore};

#[test]
fn test_fill_one_class_to_exhaustion() {
    // arena of 128 bytes, one size class of width 16: exactly eight slots
    // fit, the ninth request reports exhaustion
    let store: FastMemStore<128, 8> = FastMemStore::new();
    let mut fm: FastMem<128, 8> = store.init();
    let mut boxes = Vec::new();
    for k in 0..8usize {
        let b = fm.try_new([0u8; 16]).unwrap();
        assert_eq!(b.address(), k * 16);
        boxes.push(b);
    }
    assert_eq!(fm.free_size(), 0);
    assert!(fm.try_new([0u8; 16]).is_none());
    // and again: exhaustion is stable
    assert!(fm.try_new([0u8; 16]).is_none());
    assert_eq!(fm.free_size(), 0);
}

#[test]
fn test_recycle_same_address() {
    // release then reallocate of the same class returns the same slot
    let store: FastMemStore<128, 8> = FastMemStore::new();
    let mut fm: FastMem<128, 8> = store.init();
    let b = fm.try_new(8u8).unwrap();
    let a = b.address();
    fm.release(b);
    let b2 = fm.try_new(7u8).unwrap();
    assert_eq!(b2.address(), a);
    assert_eq!(*b2.get(), 7u8);
}

#[test]
fn test_distinct_classes_disjoint() {
    // a one-byte value and a four-byte value land in distinct classes;
    // the second slot is aligned for its type and overlaps nothing
    let store: FastMemStore<128, 8> = FastMemStore::new();
    let mut fm: FastMem<128, 8> = store.init();
    let b1 = fm.try_new(1u8).unwrap();
    let b2 = fm.try_new(0x1234_5678u32).unwrap();
    assert_eq!(b2.address() % std::mem::align_of::<u32>(), 0);
    assert!(
        b2.address() >= b1.address() + 1 || b1.address() >= b2.address() + std::mem::size_of::<u32>()
    );
    assert_eq!(*b1.get(), 1u8);
    assert_eq!(*b2.get(), 0x1234_5678u32);
}

#[test]
fn test_successive_allocations_disjoint() {
    // two allocations of one class with no release in between occupy
    // disjoint byte ranges
    let store: FastMemStore<64, 4> = FastMemStore::new();
    let mut fm: FastMem<64, 4> = store.init();
    let b1 = fm.try_new(1u64).unwrap();
    let b2 = fm.try_new(2u64).unwrap();
    assert!(b2.address() >= b1.address() + 8 || b1.address() >= b2.address() + 8);
    assert_eq!(*b1.get(), 1u64);
    assert_eq!(*b2.get(), 2u64);
}

#[test]
fn test_steady_state_consumption_bounded() {
    // repeated alloc/release cycles of one class reuse one slot and never
    // move the arena cursor past the first allocation
    let store: FastMemStore<64, 4> = FastMemStore::new();
    let mut fm: FastMem<64, 4> = store.init();
    let b = fm.try_new(5u32).unwrap();
    let free_after_first = fm.free_size();
    let addr = b.address();
    fm.release(b);
    let mut k: u32 = 0;
    while k < 100 {
        let b = fm.try_new(k).unwrap();
        assert_eq!(b.address(), addr);
        assert_eq!(fm.free_size(), free_after_first);
        assert_eq!(fm.release(b), k);
        k += 1;
    }
}

#[test]
fn test_exhaustion_deterministic() {
    // once the free bytes cannot fit a class with an empty stack, that
    // class's requests fail, deterministically, while smaller classes may
    // still be served
    let store: FastMemStore<16, 4> = FastMemStore::new();
    let mut fm: FastMem<16, 4> = store.init();
    let b1 = fm.try_new([0u8; 12]).unwrap();
    assert_eq!(b1.address(), 0);
    assert_eq!(fm.free_size(), 4);
    assert!(fm.try_new([1u8; 12]).is_none());
    assert!(fm.try_new([2u8; 12]).is_none());
    assert_eq!(fm.free_size(), 4);
    let b2 = fm.try_new(9u8).unwrap();
    assert_eq!(b2.address(), 12);
}

#[test]
fn test_class_table_full() {
    // with a single class allowed, a request with a second distinct
    // (size, align) key reports exhaustion; the known class still works
    let store: FastMemStore<128, 1> = FastMemStore::new();
    let mut fm: FastMem<128, 1> = store.init();
    let b1 = fm.try_new(1u8).unwrap();
    assert_eq!(b1.address(), 0);
    assert!(fm.try_new(1u32).is_none());
    let b2 = fm.try_new(2u8).unwrap();
    assert_eq!(b2.address(), 1);
}

#[test]
fn test_zero_sized_values() {
    let store: FastMemStore<8, 2> = FastMemStore::new();
    let mut fm: FastMem<8, 2> = store.init();
    let b = fm.try_new(()).unwrap();
    assert_eq!(b.address(), 0);
    assert_eq!(fm.free_size(), 8);
}

#[test]
fn test_box_value_access() {
    let store: FastMemStore<64, 4> = FastMemStore::new();
    let mut fm: FastMem<64, 4> = store.init();
    let mut b = fm.try_new(40u64).unwrap();
    assert_eq!(*b.get(), 40);
    *b.get_mut() = 41;
    assert_eq!(*b.get(), 41);
    let v = fm.release(b);
    assert_eq!(v, 41);
}

#[test]
fn test_recycled_slot_rewritten() {
    // a recycled slot carries the newly written value, not the stale one
    let store: FastMemStore<64, 4> = FastMemStore::new();
    let mut fm: FastMem<64, 4> = store.init();
    let b = fm.try_new(111u16).unwrap();
    fm.release(b);
    let b2 = fm.try_new(222u16).unwrap();
    assert_eq!(*b2.get(), 222u16);
}

#[test]
fn test_free_size_reporting() {
    let store: FastMemStore<32, 4> = FastMemStore::new();
    let mut fm: FastMem<32, 4> = store.init();
    assert_eq!(fm.free_size(), 32);
    let b1 = fm.try_new(1u8).unwrap();
    assert_eq!(fm.free_size(), 31);
    let b4 = fm.try_new(4u32).unwrap();
    // padding to the four-byte boundary is consumed as well
    assert_eq!(fm.free_size(), 24);
    drop(b1);
    drop(b4);
}
