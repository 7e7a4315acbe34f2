//! Polymorphic inline caches: hits, capacity, megamorphic transition and
//! liveness of cached shapes.

use boa_vm::inline_cache::{
    CacheEntry, GcHeap, InlineCache, Shape, Slot, SlotAttributes, WeakShape, PIC_CAPACITY,
};

fn slot(index: u32) -> Slot {
    Slot {
        index,
        attributes: SlotAttributes {
            writable: true,
            enumerable: true,
            configurable: true,
            get: false,
            set: false,
            prototype: false,
            found: true,
            not_cachable: false,
        },
    }
}

#[test]
fn miss_then_set_then_hit() {
    let mut gc = GcHeap::new();
    let shape = gc.alloc_shape(0x10, None);
    let mut ic = InlineCache::new("test".to_string());
    assert_eq!(ic.get(&shape, &gc), None);
    ic.set(&shape, slot(3), &gc);
    assert_eq!(ic.get(&shape, &gc), Some(slot(3)));
    assert!(!ic.megamorphic);
    assert_eq!(ic.name, "test");
}

#[test]
fn polymorphic_up_to_capacity_then_megamorphic() {
    let mut gc = GcHeap::new();
    let shapes: Vec<Shape> = (0..5).map(|i| gc.alloc_shape(0x100 + i, None)).collect();
    let mut ic = InlineCache::new("test".to_string());
    for (i, s) in shapes.iter().take(PIC_CAPACITY).enumerate() {
        ic.set(s, slot(i as u32), &gc);
    }
    assert!(!ic.megamorphic);
    assert_eq!(ic.entries.len(), 4);
    for (i, s) in shapes.iter().take(PIC_CAPACITY).enumerate() {
        assert_eq!(ic.get(s, &gc), Some(slot(i as u32)));
    }
    ic.set(&shapes[4], slot(4), &gc);
    assert!(ic.megamorphic);
    assert_eq!(ic.entries.len(), 0);
    for s in &shapes {
        assert_eq!(ic.get(s, &gc), None);
    }
    // A megamorphic cache stays empty.
    ic.set(&shapes[0], slot(0), &gc);
    assert!(ic.megamorphic);
    assert_eq!(ic.entries.len(), 0);
}

#[test]
fn collected_shapes_are_evicted_before_the_cache_fills() {
    let mut gc = GcHeap::new();
    let shapes: Vec<Shape> = (0..5).map(|i| gc.alloc_shape(0x100 + i, None)).collect();
    let mut ic = InlineCache::new("test".to_string());
    for (i, s) in shapes.iter().take(4).enumerate() {
        ic.set(s, slot(i as u32), &gc);
    }
    gc.collect(shapes[1].alloc);
    ic.set(&shapes[4], slot(4), &gc);
    assert!(!ic.megamorphic);
    assert_eq!(ic.entries.len(), 4);
    assert_eq!(ic.get(&shapes[4], &gc), Some(slot(4)));
    assert_eq!(ic.get(&shapes[1], &gc), None);
}

#[test]
fn reused_address_of_a_collected_shape_does_not_hit() {
    let mut gc = GcHeap::new();
    let old = gc.alloc_shape(0x500, None);
    let mut ic = InlineCache::new("test".to_string());
    ic.set(&old, slot(1), &gc);
    gc.collect(old.alloc);
    let fresh = gc.alloc_shape(0x500, None);
    assert_eq!(fresh.addr, old.addr);
    assert_ne!(fresh.alloc, old.alloc);
    assert_eq!(ic.get(&fresh, &gc), None);
}

#[test]
fn entry_match_is_address_and_liveness() {
    let mut gc = GcHeap::new();
    let a = gc.alloc_shape(1, None);
    let b = gc.alloc_shape(2, None);
    let e = CacheEntry::new(&a, slot(0));
    assert!(e.matches(&a, &gc));
    assert!(!e.matches(&b, &gc));
    assert!(WeakShape::from_shape(&a).is_upgradable(&gc));
    gc.collect(a.alloc);
    assert!(!e.matches(&a, &gc));
    assert!(!WeakShape::from_shape(&a).is_upgradable(&gc));
    assert!(gc.is_live(b.alloc));
}

#[test]
fn cacheable_and_accessor_slots() {
    let mut s = slot(0);
    assert!(s.is_cacheable());
    assert!(!s.attributes.is_accessor_descriptor());
    s.attributes.set = true;
    assert!(s.attributes.is_accessor_descriptor());
    assert!(s.attributes.has_set() && !s.attributes.has_get());
    s.attributes.not_cachable = true;
    assert!(!s.is_cacheable());
    s.attributes.not_cachable = false;
    s.attributes.found = false;
    assert!(!s.is_cacheable());
}
