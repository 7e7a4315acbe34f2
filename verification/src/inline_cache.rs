//! Polymorphic inline caches for property accesses.
//!
//! An inline cache remembers, for one access site, up to [`PIC_CAPACITY`]
//! shapes together with the slot where the accessed property lives in
//! objects of that shape. A hit is a shape-address match on an entry whose
//! shape is still alive; once more shapes than fit are seen, the site turns
//! megamorphic and stops caching.
//!
//! Liveness of a cached shape is tracked through a weak reference to its
//! allocation. An address alone is not enough: once a shape is collected its
//! address may be reused by a fresh, unrelated shape, so the address compare
//! and the liveness check are fused in [`CacheEntry::matches`].
use vstd::prelude::*;

use arrayvec::ArrayVec;

verus! {

/// Maximum number of shapes a polymorphic inline cache holds.
pub const PIC_CAPACITY: usize = 4;

/// The attributes of a property slot.
#[derive(Clone, Copy, Debug, PartialEq, Eq, Structural)]
pub struct SlotAttributes {
    pub writable: bool,
    pub enumerable: bool,
    pub configurable: bool,
    /// The slot holds a getter (accessor property).
    pub get: bool,
    /// The slot holds a setter (accessor property).
    pub set: bool,
    /// The property lives in the object's prototype, not the object itself.
    pub prototype: bool,
    /// The lookup found the property.
    pub found: bool,
    /// The lookup went through something that must not be cached.
    pub not_cachable: bool,
}

impl SlotAttributes {
    pub open spec fn spec_is_accessor_descriptor(&self) -> bool {
        self.get || self.set
    }

    /// Whether the slot is an accessor (getter and/or setter).
    pub fn is_accessor_descriptor(&self) -> (r: bool)
        ensures
            r == self.spec_is_accessor_descriptor(),
    {
        self.get || self.set
    }

    pub fn has_get(&self) -> (r: bool)
        ensures
            r == self.get,
    {
        self.get
    }

    pub fn has_set(&self) -> (r: bool)
        ensures
            r == self.set,
    {
        self.set
    }
}

/// Where a property lives: its index in the property storage and its
/// attributes. An accessor occupies two storage cells: getter at `index`,
/// setter at `index + 1`.
#[derive(Clone, Copy, Debug, PartialEq, Eq, Structural)]
pub struct Slot {
    pub index: u32,
    pub attributes: SlotAttributes,
}

impl Slot {
    pub open spec fn spec_is_cacheable(&self) -> bool {
        self.attributes.found && !self.attributes.not_cachable
    }

    /// Whether a lookup that produced this slot may seed an inline cache.
    pub fn is_cacheable(&self) -> (r: bool)
        ensures
            r == self.spec_is_cacheable(),
    {
        self.attributes.found && !self.attributes.not_cachable
    }
}

/// The garbage collector's view of shape allocations: which ones are alive.
/// Allocation ids are never reused, whereas addresses may be.
#[derive(Clone, Debug)]
pub struct GcHeap {
    pub live: Vec<u64>,
    pub next_alloc: u64,
}

impl GcHeap {
    /// The allocations that are still alive.
    pub open spec fn live_set(&self) -> Set<u64> {
        self.live@.to_set()
    }

    pub fn new() -> (h: GcHeap)
        ensures
            h.live@ == Seq::<u64>::empty(),
            h.next_alloc == 0,
    {
        GcHeap { live: Vec::new(), next_alloc: 0 }
    }

    /// Whether the allocation `alloc` is still alive.
    pub fn is_live(&self, alloc: u64) -> (r: bool)
        ensures
            r == self.live@.contains(alloc),
    {
        let mut i: usize = 0;
        while i < self.live.len()
            invariant
                i <= self.live@.len(),
                forall|j: int| 0 <= j < i ==> self.live@[j] != alloc,
            decreases self.live@.len() - i,
        {
            if self.live[i] == alloc {
                return true;
            }
            i = i + 1;
        }
        false
    }

    /// Allocate a shape at `addr`; it is alive until collected.
    pub fn alloc_shape(&mut self, addr: usize, prototype: Option<usize>) -> (shape: Shape)
        requires
            old(self).next_alloc < u64::MAX,
        ensures
            shape.addr == addr,
            shape.prototype == prototype,
            shape.alloc == old(self).next_alloc,
            final(self).next_alloc == old(self).next_alloc + 1,
            final(self).live@ == old(self).live@.push(old(self).next_alloc),
    {
        let alloc = self.next_alloc;
        self.live.push(alloc);
        self.next_alloc = alloc + 1;
        Shape { addr, alloc, prototype }
    }

    /// Collect the allocation `alloc`: weak references to it stop upgrading.
    pub fn collect(&mut self, alloc: u64)
        ensures
            final(self).next_alloc == old(self).next_alloc,
            forall|a: u64| final(self).live@.contains(a) <==> (old(self).live@.contains(a) && a != alloc),
    {
        let mut kept: Vec<u64> = Vec::new();
        let mut i: usize = 0;
        while i < self.live.len()
            invariant
                i <= self.live@.len(),
                forall|a: u64|
                    kept@.contains(a) <==> (self.live@.subrange(0, i as int).contains(a) && a
                        != alloc),
            decreases self.live@.len() - i,
        {
            let a = self.live[i];
            let ghost old_kept = kept@;
            if a != alloc {
                kept.push(a);
            }
            proof {
                assert(self.live@.subrange(0, i + 1) =~= self.live@.subrange(0, i as int).push(a));
                assert forall|b: u64| kept@.contains(b) <==> (self.live@.subrange(0, i + 1).contains(b)
                    && b != alloc) by {
                    crate::peephole::rewrite::lemma_push_contains(
                        self.live@.subrange(0, i as int),
                        a,
                        b,
                    );
                    if a != alloc {
                        crate::peephole::rewrite::lemma_push_contains(old_kept, a, b);
                    }
                }
            }
            i = i + 1;
        }
        assert(self.live@.subrange(0, i as int) =~= self.live@);
        self.live = kept;
    }
}

/// A (strong) handle on a shape: its address and its allocation.
#[derive(Clone, Copy, Debug, PartialEq, Eq, Structural)]
pub struct Shape {
    pub addr: usize,
    pub alloc: u64,
    /// The prototype object of objects with this shape, if any.
    pub prototype: Option<usize>,
}

impl Shape {
    /// Address of the shape's allocation, the key of the inline-cache compare.
    pub fn to_addr_usize(&self) -> (a: usize)
        ensures
            a == self.addr,
    {
        self.addr
    }
}

/// A weak reference to a shape allocation.
#[derive(Clone, Copy, Debug, PartialEq, Eq, Structural)]
pub struct WeakShape {
    pub alloc: u64,
}

impl WeakShape {
    pub fn from_shape(shape: &Shape) -> (w: WeakShape)
        ensures
            w.alloc == shape.alloc,
    {
        WeakShape { alloc: shape.alloc }
    }

    /// Whether the referenced shape is still alive.
    pub fn is_upgradable(&self, heap: &GcHeap) -> (r: bool)
        ensures
            r == heap.live@.contains(self.alloc),
    {
        heap.is_live(self.alloc)
    }
}

/// A cached shape-to-slot mapping.
#[derive(Clone, Copy, Debug, PartialEq, Eq, Structural)]
pub struct CacheEntry {
    /// Address of the cached shape's allocation. Only read together with
    /// the liveness check, in [`CacheEntry::matches`].
    shape_addr: usize,
    /// Weak reference to the cached shape.
    pub shape: WeakShape,
    /// Slot where the property lives in objects of that shape.
    pub slot: Slot,
}

impl CacheEntry {
    pub closed spec fn spec_shape_addr(&self) -> usize {
        self.shape_addr
    }

    pub closed spec fn spec_alloc(&self) -> u64 {
        self.shape.alloc
    }

    pub closed spec fn spec_slot(&self) -> Slot {
        self.slot
    }

    /// The entry that caches `slot` for `shape`.
    pub closed spec fn spec_new(shape: Shape, slot: Slot) -> CacheEntry {
        CacheEntry { shape_addr: shape.addr, shape: WeakShape { alloc: shape.alloc }, slot }
    }

    /// The entry caching `slot` for `shape` remembers the shape's address
    /// and allocation, and the slot.
    pub proof fn lemma_spec_new(shape: Shape, slot: Slot)
        ensures
            CacheEntry::spec_new(shape, slot).spec_shape_addr() == shape.addr,
            CacheEntry::spec_new(shape, slot).spec_alloc() == shape.alloc,
            CacheEntry::spec_new(shape, slot).spec_slot() == slot,
    {
    }

    /// Whether this entry is a hit for `shape`: same address, and the cached
    /// allocation still alive.
    pub open spec fn spec_matches(&self, shape: Shape, live: Seq<u64>) -> bool {
        self.spec_shape_addr() == shape.addr && live.contains(self.spec_alloc())
    }

    /// An entry caching `slot` for `shape`.
    pub fn new(shape: &Shape, slot: Slot) -> (e: CacheEntry)
        ensures
            e == CacheEntry::spec_new(*shape, slot),
            e.spec_shape_addr() == shape.addr,
            e.spec_alloc() == shape.alloc,
            e.spec_slot() == slot,
    {
        CacheEntry { shape_addr: shape.to_addr_usize(), shape: WeakShape::from_shape(shape), slot }
    }

    /// The address to show for this entry: the cached shape's while it is
    /// alive, 0 once it has been collected.
    pub fn display_addr(&self, heap: &GcHeap) -> (a: usize)
        ensures
            a == if heap.live@.contains(self.spec_alloc()) {
                self.spec_shape_addr()
            } else {
                0
            },
    {
        if self.shape.is_upgradable(heap) {
            self.shape_addr
        } else {
            0
        }
    }

    /// Fused address + liveness check.
    pub fn matches(&self, shape: &Shape, heap: &GcHeap) -> (r: bool)
        ensures
            r == self.spec_matches(*shape, heap.live@),
    {
        self.shape_addr == shape.to_addr_usize() && self.shape.is_upgradable(heap)
    }
}

#[verifier::external_type_specification]
#[verifier::external_body]
#[verifier::reject_recursive_types(T)]
pub struct ExArrayVec<T, const CAP: usize>(ArrayVec<T, CAP>);

/// The entries an inline cache's `ArrayVec` holds, in order.
pub uninterp spec fn pic_entries(v: ArrayVec<CacheEntry, 4>) -> Seq<CacheEntry>;

/// The entries of `s` whose shape is still alive, in order.
pub open spec fn keep_live(s: Seq<CacheEntry>, live: Seq<u64>) -> Seq<CacheEntry>
    decreases s.len(),
{
    if s.len() == 0 {
        s
    } else {
        keep_live(s.drop_last(), live) + if live.contains(s.last().spec_alloc()) {
            seq![s.last()]
        } else {
            Seq::empty()
        }
    }
}

/// `ArrayVec::new`: an empty vector.
#[verifier::external_body]
fn pic_new() -> (v: ArrayVec<CacheEntry, 4>)
    ensures
        pic_entries(v) == Seq::<CacheEntry>::empty(),
{
    ArrayVec::new()
}

/// `ArrayVec::as_slice`: the elements, at most `CAP` of them, in order.
#[verifier::external_body]
fn pic_as_slice(v: &ArrayVec<CacheEntry, 4>) -> (r: &[CacheEntry])
    ensures
        r@ == pic_entries(*v),
        r@.len() <= PIC_CAPACITY,
{
    v.as_slice()
}

/// `ArrayVec::retain` with a closure that keeps the live entries: keeps,
/// in order, the elements for which the closure returns true.
#[verifier::external_body]
fn pic_retain_live(v: &mut ArrayVec<CacheEntry, 4>, heap: &GcHeap)
    ensures
        pic_entries(*final(v)) == keep_live(pic_entries(*old(v)), heap.live@),
{
    v.retain(|entry| entry.shape.is_upgradable(heap))
}

/// `ArrayVec::try_push`: appends when below capacity, else fails and
/// leaves the vector unchanged.
#[verifier::external_body]
fn pic_try_push(v: &mut ArrayVec<CacheEntry, 4>, e: CacheEntry) -> (ok: bool)
    ensures
        pic_entries(*old(v)).len() < PIC_CAPACITY ==> ok && pic_entries(*final(v)) == pic_entries(
            *old(v),
        ).push(e),
        pic_entries(*old(v)).len() >= PIC_CAPACITY ==> !ok && pic_entries(*final(v))
            == pic_entries(*old(v)),
{
    v.try_push(e).is_ok()
}

/// `ArrayVec::clear`: removes every element.
#[verifier::external_body]
fn pic_clear(v: &mut ArrayVec<CacheEntry, 4>)
    ensures
        pic_entries(*final(v)) == Seq::<CacheEntry>::empty(),
{
    v.clear()
}

/// An inline cache for a property access.
pub struct InlineCache {
    /// The property that is accessed.
    pub name: String,
    /// The cached shape-to-slot entries.
    pub entries: ArrayVec<CacheEntry, 4>,
    /// Whether this site has seen too many shapes to be cached.
    pub megamorphic: bool,
}

/// The slot of the first entry of `s` that is a hit for `shape`.
pub open spec fn first_hit(s: Seq<CacheEntry>, shape: Shape, live: Seq<u64>, i: int) -> Option<
    Slot,
>
    decreases s.len() - i,
{
    if i < 0 || i >= s.len() {
        None
    } else if s[i].spec_matches(shape, live) {
        Some(s[i].spec_slot())
    } else {
        first_hit(s, shape, live, i + 1)
    }
}

/// Every entry kept by `keep_live` is one of the entries it was given, and live.
pub proof fn lemma_keep_live_subset(s: Seq<CacheEntry>, live: Seq<u64>)
    ensures
        keep_live(s, live).len() <= s.len(),
        forall|i: int|
            0 <= i < keep_live(s, live).len() ==> s.contains(#[trigger] keep_live(s, live)[i])
                && live.contains(keep_live(s, live)[i].spec_alloc()),
    decreases s.len(),
{
    if s.len() > 0 {
        lemma_keep_live_subset(s.drop_last(), live);
        let k = keep_live(s, live);
        let p = keep_live(s.drop_last(), live);
        assert forall|i: int| 0 <= i < k.len() implies s.contains(#[trigger] k[i])
            && live.contains(k[i].spec_alloc()) by {
            if i < p.len() {
                assert(k[i] == p[i]);
                let j = choose|j: int| 0 <= j < s.drop_last().len() && s.drop_last()[j] == p[i];
                assert(s[j] == p[i]);
            } else {
                assert(k[i] == s.last());
                assert(s[s.len() - 1] == s.last());
            }
        }
    }
}

/// A lookup misses when no entry is a hit.
pub proof fn lemma_first_hit_none(s: Seq<CacheEntry>, shape: Shape, live: Seq<u64>, i: int)
    requires
        0 <= i,
        forall|j: int| i <= j < s.len() ==> !(#[trigger] s[j]).spec_matches(shape, live),
    ensures
        first_hit(s, shape, live, i) is None,
    decreases s.len() - i,
{
    if i < s.len() {
        lemma_first_hit_none(s, shape, live, i + 1);
    }
}

/// A lookup finds the first hit.
pub proof fn lemma_first_hit_found(s: Seq<CacheEntry>, shape: Shape, live: Seq<u64>, i: int, k: int)
    requires
        0 <= i <= k < s.len(),
        forall|j: int| i <= j < k ==> !(#[trigger] s[j]).spec_matches(shape, live),
        s[k].spec_matches(shape, live),
    ensures
        first_hit(s, shape, live, i) == Some(s[k].spec_slot()),
    decreases k - i,
{
    if i < k {
        lemma_first_hit_found(s, shape, live, i + 1, k);
    }
}

/// After a miss for a live shape, caching a slot for it makes the next
/// lookup of that shape hit that slot, unless the cache turned megamorphic.
pub proof fn lemma_miss_then_set_hits(ic: InlineCache, shape: Shape, slot: Slot, live: Seq<u64>)
    requires
        !ic.megamorphic,
        ic.spec_get(shape, live) is None,
        live.contains(shape.alloc),
        keep_live(ic.view_entries(), live).len() < PIC_CAPACITY,
    ensures
        first_hit(
            keep_live(ic.view_entries(), live).push(CacheEntry::spec_new(shape, slot)),
            shape,
            live,
            0,
        ) == Some(slot),
{
    let old_entries = ic.view_entries();
    let kept = keep_live(old_entries, live);
    let next = kept.push(CacheEntry::spec_new(shape, slot));
    lemma_keep_live_subset(old_entries, live);
    assert forall|j: int| 0 <= j < kept.len() implies !(#[trigger] next[j]).spec_matches(
        shape,
        live,
    ) by {
        assert(next[j] == kept[j]);
        let q = choose|q: int| 0 <= q < old_entries.len() && old_entries[q] == kept[j];
        if old_entries[q].spec_matches(shape, live) {
            lemma_first_hit_found_some(old_entries, shape, live, q);
        }
    }
    lemma_first_hit_found(next, shape, live, 0, kept.len() as int);
}

/// If some entry is a hit, the lookup does not miss.
pub proof fn lemma_first_hit_found_some(s: Seq<CacheEntry>, shape: Shape, live: Seq<u64>, k: int)
    requires
        0 <= k < s.len(),
        s[k].spec_matches(shape, live),
    ensures
        first_hit(s, shape, live, 0) is Some,
    decreases k,
{
    let first = choose|f: int| 0 <= f <= k && s[f].spec_matches(shape, live) && forall|j: int|
        0 <= j < f ==> !(#[trigger] s[j]).spec_matches(shape, live);
    if exists|f: int|
        0 <= f <= k && s[f].spec_matches(shape, live) && forall|j: int|
            0 <= j < f ==> !(#[trigger] s[j]).spec_matches(shape, live) {
        lemma_first_hit_found(s, shape, live, 0, first);
    } else {
        lemma_min_hit_exists(s, shape, live, k);
    }
}

/// Among hits at or before `k` there is a first one.
pub proof fn lemma_min_hit_exists(s: Seq<CacheEntry>, shape: Shape, live: Seq<u64>, k: int)
    requires
        0 <= k < s.len(),
        s[k].spec_matches(shape, live),
    ensures
        exists|f: int|
            0 <= f <= k && s[f].spec_matches(shape, live) && forall|j: int|
                0 <= j < f ==> !(#[trigger] s[j]).spec_matches(shape, live),
    decreases k,
{
    if exists|j: int| 0 <= j < k && s[j].spec_matches(shape, live) {
        let j = choose|j: int| 0 <= j < k && s[j].spec_matches(shape, live);
        lemma_min_hit_exists(s, shape, live, j);
    } else {
        assert(forall|j: int| 0 <= j < k ==> !(#[trigger] s[j]).spec_matches(shape, live));
    }
}

impl InlineCache {
    /// The entries held.
    pub open spec fn view_entries(&self) -> Seq<CacheEntry> {
        pic_entries(self.entries)
    }

    /// A megamorphic cache holds no entries.
    pub open spec fn wf(&self) -> bool {
        self.megamorphic ==> self.view_entries().len() == 0
    }

    /// What a lookup of `shape` returns.
    pub open spec fn spec_get(&self, shape: Shape, live: Seq<u64>) -> Option<Slot> {
        if self.megamorphic {
            None
        } else {
            first_hit(self.view_entries(), shape, live, 0)
        }
    }

    pub fn new(name: String) -> (ic: InlineCache)
        ensures
            ic.name == name,
            ic.view_entries() == Seq::<CacheEntry>::empty(),
            !ic.megamorphic,
            ic.wf(),
    {
        InlineCache { name, entries: pic_new(), megamorphic: false }
    }

    /// Cache a `(shape, slot)` pair. Entries whose shape was collected are
    /// evicted first; if the cache is then still full, it turns megamorphic
    /// and drops every entry. A megamorphic cache is left alone.
    pub fn set(&mut self, shape: &Shape, slot: Slot, heap: &GcHeap)
        ensures
            old(self).megamorphic ==> final(self).view_entries() == old(self).view_entries()
                && final(self).megamorphic,
            !old(self).megamorphic && keep_live(old(self).view_entries(), heap.live@).len()
                < PIC_CAPACITY ==> !final(self).megamorphic && final(self).view_entries()
                == keep_live(old(self).view_entries(), heap.live@).push(
                CacheEntry::spec_new(*shape, slot),
            ),
            !old(self).megamorphic && keep_live(old(self).view_entries(), heap.live@).len()
                >= PIC_CAPACITY ==> final(self).megamorphic && final(self).view_entries()
                == Seq::<CacheEntry>::empty(),
            final(self).name == old(self).name,
            old(self).wf() ==> final(self).wf(),
    {
        if self.megamorphic {
            return ;
        }
        pic_retain_live(&mut self.entries, heap);
        let new_entry = CacheEntry::new(shape, slot);
        if !pic_try_push(&mut self.entries, new_entry) {
            self.megamorphic = true;
            pic_clear(&mut self.entries);
        }
    }

    /// Fast lookup: the slot of the first live entry cached for `shape`, or
    /// `None` on a miss or when megamorphic.
    pub fn get(&self, shape: &Shape, heap: &GcHeap) -> (r: Option<Slot>)
        ensures
            r == self.spec_get(*shape, heap.live@),
    {
        if self.megamorphic {
            return None;
        }
        let entries = pic_as_slice(&self.entries);
        let mut i: usize = 0;
        while i < entries.len()
            invariant
                i <= entries@.len(),
                !self.megamorphic,
                entries@ == self.view_entries(),
                first_hit(entries@, *shape, heap.live@, 0) == first_hit(
                    entries@,
                    *shape,
                    heap.live@,
                    i as int,
                ),
            decreases entries@.len() - i,
        {
            if entries[i].matches(shape, heap) {
                assert(entries@[i as int].spec_slot() == entries@[i as int].slot);
                return Some(entries[i].slot);
            }
            i = i + 1;
        }
        None
    }
}

} // verus!

verus! {

/// A found slot is the slot of an entry that is a hit.
proof fn lemma_first_hit_witness(s: Seq<CacheEntry>, shape: Shape, live: Seq<u64>, i: int)
    requires
        0 <= i,
        first_hit(s, shape, live, i) is Some,
    ensures
        exists|k: int|
            i <= k < s.len() && s[k].spec_matches(shape, live) && s[k].spec_slot() == first_hit(
                s,
                shape,
                live,
                i,
            ).unwrap(),
    decreases s.len() - i,
{
    if !s[i].spec_matches(shape, live) {
        lemma_first_hit_witness(s, shape, live, i + 1);
    }
}

/// A lookup hits exactly when the cache is not megamorphic and some entry
/// caches the shape's address with its allocation still alive; what it
/// returns is that entry's slot.
pub proof fn lemma_get_hits_iff(ic: InlineCache, shape: Shape, live: Seq<u64>)
    ensures
        ic.spec_get(shape, live) is Some <==> (!ic.megamorphic && exists|k: int|
            0 <= k < ic.view_entries().len() && ic.view_entries()[k].spec_matches(shape, live)),
        ic.spec_get(shape, live) matches Some(slot) ==> exists|k: int|
            0 <= k < ic.view_entries().len() && ic.view_entries()[k].spec_matches(shape, live)
                && ic.view_entries()[k].spec_slot() == slot,
{
    let s = ic.view_entries();
    if !ic.megamorphic {
        if exists|k: int| 0 <= k < s.len() && s[k].spec_matches(shape, live) {
            let k = choose|k: int| 0 <= k < s.len() && s[k].spec_matches(shape, live);
            lemma_first_hit_found_some(s, shape, live, k);
            lemma_first_hit_witness(s, shape, live, 0);
        } else {
            lemma_first_hit_none(s, shape, live, 0);
        }
    }
}

} // verus!
