use fastmem::heap::{Heap, RacyCell};

#[test]
fn test_heap() {
    let mut heap = Heap::new();
    heap.init(128);
    assert_eq!(heap.free_size(), 128);

    // 0000 A B B _
    // 0004 C C C C
    // 0008 D D D D
    // 000c D D _ _
    // 0010 E E E E

    // A: one byte
    let p1 = heap.allocate(1, 1).unwrap();
    assert_eq!(p1, 0);

    // B: two bytes, byte aligned, no padding
    let p2 = heap.allocate(2, 1).unwrap();
    assert_eq!(p2, 1);

    // C: four bytes aligned to 4, padded past offset 3
    let p3 = heap.allocate(4, 4).unwrap();
    assert_eq!(p3, 4);

    // D: six bytes aligned to 2, no padding
    let p4 = heap.allocate(6, 2).unwrap();
    assert_eq!(p4, 8);

    // E: four bytes aligned to 4, padded past offset 14
    let p5 = heap.allocate(4, 4).unwrap();
    assert_eq!(p5, 0x10);

    assert_eq!(heap.free_size(), 128 - 0x14);
}

#[test]
fn test_heap_exhaustion() {
    let mut heap = Heap::new();
    heap.init(8);
    assert_eq!(heap.allocate(8, 1), Some(0));
    assert_eq!(heap.allocate(1, 1), None);
    assert_eq!(heap.free_size(), 0);
}

#[test]
fn test_heap_padding_overflow_boundary() {
    let mut heap = Heap::new();
    heap.init(10);
    assert_eq!(heap.allocate(1, 1), Some(0));
    // padding alone can exhaust the arena
    assert_eq!(heap.allocate(1, 16), None);
    // and failure leaves the cursor untouched
    assert_eq!(heap.free_size(), 9);
    assert_eq!(heap.allocate(4, 4), Some(4));
}

#[test]
fn test_racy_cell() {
    let mut c = RacyCell::new(3u32);
    assert_eq!(*c.get(), 3);
    *c.get_mut() = 5;
    assert_eq!(*c.get(), 5);
}
