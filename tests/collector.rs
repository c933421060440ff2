use gcrt::{alloc_raw, force_collect, safepoint_poll, Collector, GcErr, Scan};

#[derive(Debug, PartialEq, Eq, Clone)]
struct S(usize, u32);
impl Scan for S {}

impl S {
    // The in-memory layout of `S`: the `usize`, the `u32`, then padding.
    fn to_bytes(&self) -> Vec<u8> {
        let mut b = Vec::new();
        b.extend_from_slice(&(self.0 as u64).to_le_bytes());
        b.extend_from_slice(&self.1.to_le_bytes());
        b.extend_from_slice(&[0u8; 4]);
        assert_eq!(b.len(), std::mem::size_of::<S>());
        b
    }

    fn from_bytes(b: &[u8]) -> S {
        let mut u = [0u8; 8];
        u.copy_from_slice(&b[0..8]);
        let mut v = [0u8; 4];
        v.copy_from_slice(&b[8..12]);
        S(u64::from_le_bytes(u) as usize, u32::from_le_bytes(v))
    }
}

fn read_back(gc: &Collector, addr: usize) -> S {
    S::from_bytes(&gc.read_bytes(addr, 16))
}

#[test]
fn simple_alloc() {
    let s = S(1234, 5678);
    s.scan();
    let mut gc = Collector::new();
    gc.mk_heap(1024);

    let raw_gcptr = gc.alloc_obj(&s.to_bytes()).unwrap();

    let gcval = read_back(&gc, raw_gcptr);
    assert_eq!(gcval, S(1234, 5678));
}

#[test]
fn alloc_err_if_oom() {
    let s = S(1234, 5678);
    let mut gc = Collector::new();
    gc.mk_heap(32);

    let obj1 = gc.alloc_obj(&s.clone().to_bytes());
    let obj2 = gc.alloc_obj(&s.clone().to_bytes());
    println!("{:?}", obj2);

    assert!(obj1.is_ok());
    assert!(obj2.is_err());
}

#[test]
fn oom_error_carries_message() {
    let mut gc = Collector::new();
    gc.mk_heap(8);
    match gc.alloc_obj(&[1u8; 8]) {
        Err(GcErr::OOM(msg)) => assert_eq!(msg, "No free space available"),
        other => panic!("expected an out-of-memory error, got {:?}", other),
    }
}

#[test]
fn allocation_without_heap_fails() {
    let mut gc = Collector::new();
    assert!(matches!(gc.alloc_obj(&[]), Err(GcErr::OOM(_))));
}

#[test]
fn allocations_read_back_in_order() {
    let mut gc = Collector::new();
    gc.mk_heap(64);
    let a = gc.alloc_obj(&[1, 2, 3]).unwrap();
    let b = gc.alloc_obj(&[9; 10]).unwrap();
    let c = gc.alloc_obj(&S(7, 8).to_bytes()).unwrap();
    assert_eq!((a, b, c), (0, 3, 13));
    assert_eq!(gc.read_bytes(a, 3), vec![1, 2, 3]);
    assert_eq!(gc.read_bytes(b, 10), vec![9; 10]);
    assert_eq!(read_back(&gc, c), S(7, 8));
    // The bytes after the last block are untouched.
    assert_eq!(gc.read_bytes(29, 35), vec![0; 35]);
}

#[test]
fn exhaustion_after_floor_of_size_minus_one_over_object_size() {
    let s = S(1, 2).to_bytes();
    let mut gc = Collector::new();
    gc.mk_heap(100);
    // (100 - 1) / 16 == 6 allocations fit.
    for i in 0..6 {
        assert_eq!(gc.alloc_obj(&s).unwrap(), 16 * i);
    }
    assert!(gc.alloc_obj(&s).is_err());
    assert!(gc.alloc_obj(&s).is_err());
    // A smaller object still fits in what is left.
    assert_eq!(gc.alloc_obj(&[5u8; 3]).unwrap(), 96);
}

#[test]
fn block_may_not_end_at_heap_end() {
    let s = S(3, 4).to_bytes();
    let mut exact = Collector::new();
    exact.mk_heap(16);
    assert!(exact.alloc_obj(&s).is_err());
    let mut one_more = Collector::new();
    one_more.mk_heap(17);
    assert_eq!(one_more.alloc_obj(&s).unwrap(), 0);
}

#[test]
fn failed_allocation_clears_collection_request() {
    let mut gc = Collector::new();
    gc.mk_heap(4);
    gc.collect_next();
    assert!(gc.alloc_obj(&[0u8; 8]).is_err());
    assert!(!gc.should_collect());
}

#[test]
fn poll_collects_only_when_requested() {
    let mut gc = Collector::new();
    gc.mk_heap(64);
    let a = alloc_raw(&mut gc, &[4, 5, 6]).unwrap();
    assert!(!gc.should_collect());
    safepoint_poll(&mut gc);
    assert!(!gc.should_collect());
    gc.collect_next();
    gc.collect_next();
    assert!(gc.should_collect());
    safepoint_poll(&mut gc);
    assert!(!gc.should_collect());
    // Nothing is freed by a collection: the object is still there.
    assert_eq!(gc.read_bytes(a, 3), vec![4, 5, 6]);
    assert_eq!(alloc_raw(&mut gc, &[7]).unwrap(), 3);
}

#[test]
fn force_collect_runs_without_request() {
    let mut gc = Collector::new();
    gc.mk_heap(16);
    gc.collect_next();
    force_collect(&mut gc);
    assert!(!gc.should_collect());
    force_collect(&mut gc);
    assert!(!gc.should_collect());
}

#[test]
fn mk_heap_resets_bump_pointer() {
    let mut gc = Collector::new();
    gc.mk_heap(16);
    assert_eq!(gc.alloc_obj(&[1; 10]).unwrap(), 0);
    gc.mk_heap(16);
    assert_eq!(gc.alloc_obj(&[2; 10]).unwrap(), 0);
    assert_eq!(gc.read_bytes(0, 16), vec![2, 2, 2, 2, 2, 2, 2, 2, 2, 2, 0, 0, 0, 0, 0, 0]);
}
