use balloc::{get_slot_size, AllocOutcome, Balloc, FreeOutcome, ReallocOutcome};

fn addr(r: AllocOutcome) -> usize {
    match r {
        AllocOutcome::Address(a) => a,
        _ => panic!("expected an address"),
    }
}

#[test]
fn size_classes_round_up() {
    assert_eq!(get_slot_size(1), 1);
    assert_eq!(get_slot_size(8), 1);
    assert_eq!(get_slot_size(9), 2);
    assert_eq!(get_slot_size(64), 8);
    assert_eq!(get_slot_size(505), 64);
    assert_eq!(get_slot_size(512), 64);
    for n in 1..=512usize {
        let c = get_slot_size(n);
        assert_eq!(c, (n + 7) / 8);
        assert!(c * 8 >= n);
        assert!(1 <= c && c <= 64);
    }
    for n in 1..512usize {
        assert!(get_slot_size(n) <= get_slot_size(n + 1));
    }
}

#[test]
fn two_small_allocations_share_a_page() {
    let mut b = Balloc::new();
    let a1 = addr(b.allocate(8));
    let a2 = addr(b.allocate(8));
    assert_ne!(a1, 0);
    assert_ne!(a2, 0);
    assert_ne!(a1, a2);
    assert_eq!(a1 & !4095, a2 & !4095);
}

#[test]
fn large_requests_are_delegated() {
    let mut b = Balloc::new();
    assert_eq!(b.allocate(513), AllocOutcome::Delegated);
    assert_eq!(b.allocate(4096), AllocOutcome::Delegated);
    assert_eq!(b.allocate_zeroed(513), AllocOutcome::Delegated);
    assert_eq!(b.deallocate(0x2000, 513), FreeOutcome::Delegated);
    assert_eq!(b.reallocate(0x2000, 513, 700), ReallocOutcome::Delegated);
}

#[test]
fn free_then_allocate_returns_same_address() {
    let mut b = Balloc::new();
    let a = addr(b.allocate(64));
    assert_eq!(b.deallocate(a, 64), FreeOutcome::Freed);
    let a2 = addr(b.allocate(64));
    assert_eq!(a, a2);
}

#[test]
fn reuse_comes_before_the_cursor() {
    let mut b = Balloc::new();
    let a1 = addr(b.allocate(16));
    let a2 = addr(b.allocate(16));
    let a3 = addr(b.allocate(16));
    assert_eq!(b.deallocate(a1, 16), FreeOutcome::Freed);
    assert_eq!(b.deallocate(a2, 16), FreeOutcome::Freed);
    // the most recently freed slot comes back first, before the cursor moves
    assert_eq!(addr(b.allocate(16)), a2);
    assert_eq!(addr(b.allocate(16)), a1);
    let a4 = addr(b.allocate(16));
    assert_ne!(a4, a1);
    assert_ne!(a4, a2);
    assert_ne!(a4, a3);
}

#[test]
fn realloc_preserves_contents() {
    let mut b = Balloc::new();
    let a = addr(b.allocate(40));
    for k in 0..40usize {
        b.store(a + k, (k as u8).wrapping_mul(7).wrapping_add(3));
    }
    let a2 = match b.reallocate(a, 40, 41) {
        ReallocOutcome::Moved(a2) => a2,
        _ => panic!("expected a move to a new slot"),
    };
    assert_ne!(a, a2);
    for k in 0..40usize {
        assert_eq!(b.load(a2 + k), (k as u8).wrapping_mul(7).wrapping_add(3));
    }
}

#[test]
fn realloc_within_a_class_keeps_the_address() {
    let mut b = Balloc::new();
    let a = addr(b.allocate(40));
    b.store(a, 77);
    assert_eq!(b.reallocate(a, 40, 38), ReallocOutcome::Unchanged);
    assert_eq!(b.reallocate(a, 40, 33), ReallocOutcome::Unchanged);
    assert_eq!(b.load(a), 77);
}

#[test]
fn realloc_growth_past_the_ceiling_is_promoted() {
    let mut b = Balloc::new();
    let a = addr(b.allocate(40));
    b.store(a, 9);
    assert_eq!(b.reallocate(a, 40, 513), ReallocOutcome::Promoted);
    // the old slot is untouched until the caller frees it
    assert_eq!(b.load(a), 9);
    assert_eq!(b.deallocate(a, 40), FreeOutcome::Freed);
}

#[test]
fn zeroed_allocation_is_zero_filled() {
    let mut b = Balloc::new();
    let a = addr(b.allocate(16));
    for k in 0..16usize {
        b.store(a + k, 0xAA);
    }
    assert_eq!(b.deallocate(a, 16), FreeOutcome::Freed);
    let a2 = addr(b.allocate_zeroed(16));
    // reuse-first hands the dirtied slot back, now zeroed
    assert_eq!(a, a2);
    for k in 0..16usize {
        assert_eq!(b.load(a2 + k), 0);
    }
}

#[test]
fn writes_round_trip_across_the_whole_slot() {
    let mut b = Balloc::new();
    // a 12-byte request gets a 16-byte slot: every slot byte is usable
    let a = addr(b.allocate(12));
    for k in 0..16usize {
        b.store(a + k, k as u8);
    }
    for k in 0..16usize {
        assert_eq!(b.load(a + k), k as u8);
    }
}

#[test]
fn no_two_live_allocations_overlap() {
    let mut b = Balloc::new();
    let sizes = [8usize, 24, 64, 8, 512, 200, 8, 24, 512, 64];
    let mut spans: Vec<(usize, usize)> = Vec::new();
    for &n in sizes.iter() {
        let c = get_slot_size(n);
        let a = addr(b.allocate(n));
        spans.push((a, a + c * 8));
    }
    for i in 0..spans.len() {
        for j in 0..spans.len() {
            if i != j {
                let (s1, e1) = spans[i];
                let (s2, e2) = spans[j];
                assert!(e1 <= s2 || e2 <= s1);
            }
        }
    }
}

#[test]
fn exhausted_page_is_released_and_frees_reclaim_it() {
    let mut b = Balloc::new();
    // a class-64 page holds 7 slots: the seventh allocation exhausts it and
    // evicts it from the cache
    let mut addrs: Vec<usize> = Vec::new();
    for _ in 0..7 {
        addrs.push(addr(b.allocate(512)));
    }
    let base = addrs[0] & !4095;
    for &a in addrs.iter() {
        assert_eq!(a & !4095, base);
    }
    // the eighth allocation comes from a fresh page
    let a8 = addr(b.allocate(512));
    assert_ne!(a8 & !4095, base);
    // the orphaned page's slots stay readable and writable
    b.store(addrs[0], 0x5A);
    assert_eq!(b.load(addrs[0]), 0x5A);
    // frees against the orphaned page go through the shared list; the last
    // one reclaims the page
    for &a in addrs.iter() {
        assert_eq!(b.deallocate(a, 512), FreeOutcome::Freed);
    }
    // the class still serves allocations afterwards
    let a9 = addr(b.allocate(512));
    assert_eq!(b.deallocate(a9, 512), FreeOutcome::Freed);
    assert_eq!(b.deallocate(a8, 512), FreeOutcome::Freed);
}
