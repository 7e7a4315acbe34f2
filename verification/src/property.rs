//! Property access opcodes and their inline-cache fast paths.
//!
//! The handlers read and write property storage directly when the access
//! site's inline cache hits on the object's shape. Everything else (a miss,
//! a primitive base, a getter or setter to run) is handed back to the
//! caller as an action: run the generic `[[Get]]`/`[[Set]]`, or call an
//! accessor, and then let [`seed_cache`] and [`finish_set_by_name`] decide
//! how the cache and the result are updated.
use vstd::prelude::*;

use crate::inline_cache::{GcHeap, InlineCache, Shape, Slot, PIC_CAPACITY};

verus! {

/// Index of an object in the heap.
pub type ObjectId = usize;

/// Index of a string in the heap's string table.
pub type StringId = usize;

/// A JavaScript value. Floats are carried by their bits only; the
/// handlers here never compute with them.
#[derive(Clone, Copy, Debug, PartialEq, Eq, Structural)]
pub enum JsValue {
    Undefined,
    Null,
    Boolean(bool),
    Integer32(i32),
    Float64Bits(u64),
    String(StringId),
    Symbol(usize),
    Object(ObjectId),
}

/// Element storage kind of an object with dense storage.
#[derive(Clone, Copy, Debug, PartialEq, Eq, Structural)]
pub enum DenseKind {
    DenseI32,
    DenseF64,
    DenseElement,
}

/// The representation of an object's indexed properties.
#[derive(Clone, Copy, Debug, PartialEq, Eq, Structural)]
pub enum IndexedProperties {
    DenseI32,
    DenseF64,
    DenseElement,
    SparseElement,
    SparseProperty,
}

/// The dense kind of indexed storage, or `None` when it is sparse (no
/// element-cache seeding for sparse sites).
pub fn indexed_properties_dense_kind(props: &IndexedProperties) -> (k: Option<DenseKind>)
    ensures
        k == match *props {
            IndexedProperties::DenseI32 => Some(DenseKind::DenseI32),
            IndexedProperties::DenseF64 => Some(DenseKind::DenseF64),
            IndexedProperties::DenseElement => Some(DenseKind::DenseElement),
            _ => None,
        },
{
    match props {
        IndexedProperties::DenseI32 => Some(DenseKind::DenseI32),
        IndexedProperties::DenseF64 => Some(DenseKind::DenseF64),
        IndexedProperties::DenseElement => Some(DenseKind::DenseElement),
        IndexedProperties::SparseElement | IndexedProperties::SparseProperty => None,
    }
}

/// An object: its shape, its named-property storage, and the facts the
/// handlers consult.
#[derive(Clone, Debug)]
pub struct ObjectData {
    pub shape: Shape,
    pub storage: Vec<JsValue>,
    pub is_array: bool,
    pub extensible: bool,
    pub indexed_properties: IndexedProperties,
    /// Indexed elements, meaningful while the storage is dense.
    pub elements: Vec<JsValue>,
}

/// The objects and strings the handlers can reach, and the collector's
/// view of shapes.
pub struct Heap {
    pub objects: Vec<ObjectData>,
    pub strings: Vec<Vec<u16>>,
    pub gc: GcHeap,
}

/// The registers of the executing frame together with the heap and the
/// code block's inline caches.
pub struct Vm {
    pub registers: Vec<JsValue>,
    pub heap: Heap,
    pub ic: Vec<InlineCache>,
    /// Whether the executing code block is strict-mode code.
    pub strict: bool,
    /// The code block's element-access caches.
    pub element_ic: Vec<ElementInlineCache>,
    /// Bindings and environments, for the name handlers.
    pub names: crate::name::NameState,
}

/// The parts of the frame that property accesses leave alone.
pub open spec fn code_same(before: &Vm, after: &Vm) -> bool {
    &&& after.strict == before.strict
    &&& after.names == before.names
}

/// The slot the cache offers for the object `id`, if it hits.
pub open spec fn cached_slot(heap: &Heap, ic: &InlineCache, id: ObjectId) -> Option<Slot> {
    ic.spec_get(heap.objects@[id as int].shape, heap.gc.live@)
}

/// The object holding a cached slot: the prototype for prototype slots.
pub open spec fn slot_holder(heap: &Heap, id: ObjectId, slot: Slot) -> Option<ObjectId> {
    if slot.attributes.prototype {
        heap.objects@[id as int].shape.prototype
    } else {
        Some(id)
    }
}

/// Reading the cached slot of `id` stays within the storage it names
/// (otherwise the lookup would panic).
pub open spec fn cached_read_ok(heap: &Heap, ic: &InlineCache, id: ObjectId) -> bool {
    &&& id < heap.objects@.len()
    &&& cached_slot(heap, ic, id) matches Some(slot) ==> match slot_holder(heap, id, slot) {
        Some(h) => h < heap.objects@.len() && slot.index < heap.objects@[h as int].storage@.len(),
        None => true,
    }
}

/// The value at storage cell `index` of object `h`.
pub open spec fn cell(heap: &Heap, h: ObjectId, index: int) -> JsValue {
    heap.objects@[h as int].storage@[index]
}

/// What the no-getter fast path reads.
pub open spec fn spec_ic_read_no_getter(source: JsValue, heap: &Heap, ic: &InlineCache) -> Option<
    JsValue,
> {
    match source {
        JsValue::Object(id) => match cached_slot(heap, ic, id) {
            Some(slot) => if slot.attributes.get {
                None
            } else {
                match slot_holder(heap, id, slot) {
                    Some(h) => Some(cell(heap, h, slot.index as int)),
                    None => None,
                }
            },
            None => None,
        },
        _ => None,
    }
}

/// Inline-cache hit path for reads: the value of a cached data slot of an
/// object source, or `None` for every situation that needs the slow path
/// (a miss, a primitive source, a getter, a missing prototype).
pub fn try_ic_read_no_getter(source: &JsValue, heap: &Heap, ic: &InlineCache) -> (r: Option<
    JsValue,
>)
    requires
        source matches JsValue::Object(id) ==> cached_read_ok(heap, ic, *id),
    ensures
        r == spec_ic_read_no_getter(*source, heap, ic),
{
    let id = match source {
        JsValue::Object(id) => *id,
        _ => {
            return None;
        },
    };
    let obj = &heap.objects[id];
    let slot = match ic.get(&obj.shape, &heap.gc) {
        Some(slot) => slot,
        None => {
            return None;
        },
    };
    if slot.attributes.has_get() {
        return None;
    }
    if slot.attributes.prototype {
        match obj.shape.prototype {
            Some(p) => Some(heap.objects[p].storage[slot.index as usize]),
            None => None,
        }
    } else {
        Some(obj.storage[slot.index as usize])
    }
}

/// What a by-name read asks the caller to do.
#[derive(Clone, Copy, Debug, PartialEq, Eq, Structural)]
pub enum GetAction {
    /// The value was found and written to the destination register.
    Done,
    /// Call `getter` with `this` as receiver and no arguments; write its
    /// result to the destination register.
    CallGetter { getter: JsValue, this: JsValue },
    /// Run the generic `[[Get]]` on the base object of the source with
    /// `this` as receiver: for a by-name read of the cache's property name,
    /// then [`seed_cache`] with the slot it reports; for a by-value read of
    /// the converted key.
    Slow { this: JsValue },
}

/// The `length` fast paths: the length cell of an array, or the length of
/// a string primitive.
pub open spec fn spec_length_fast(source: JsValue, heap: &Heap) -> Option<JsValue> {
    match source {
        JsValue::Object(id) => if heap.objects@[id as int].is_array {
            Some(cell(heap, id, 0))
        } else {
            None
        },
        JsValue::String(sid) => Some(spec_index_value(heap.strings@[sid as int]@.len() as u32)),
        _ => None,
    }
}

/// What a by-name read produces, when it does not take the slow path: the
/// value to write, or a getter to call with `receiver` as `this`.
pub open spec fn spec_get_by_name(
    length: bool,
    source: JsValue,
    receiver: JsValue,
    heap: &Heap,
    ic: &InlineCache,
) -> (
    Option<JsValue>,
    GetAction,
) {
    if length && spec_length_fast(source, heap) is Some {
        (spec_length_fast(source, heap), GetAction::Done)
    } else {
        match source {
            JsValue::Object(id) => match cached_slot(heap, ic, id) {
                Some(slot) => {
                    let holder = slot_holder(heap, id, slot).unwrap();
                    let result = cell(heap, holder, slot.index as int);
                    if slot.attributes.get && result is Object {
                        (None, GetAction::CallGetter { getter: result, this: receiver })
                    } else {
                        (Some(result), GetAction::Done)
                    }
                },
                None => (None, GetAction::Slow { this: receiver }),
            },
            _ => (None, GetAction::Slow { this: receiver }),
        }
    }
}

/// Reading by name from `source` cannot panic: the length cell of an array
/// exists, a string is known and its length fits a `u32`, and a cache hit
/// names an existing prototype and storage cell.
pub open spec fn get_by_name_ok(length: bool, source: JsValue, heap: &Heap, ic: &InlineCache) -> bool {
    &&& source matches JsValue::Object(id) ==> {
        &&& cached_read_ok(heap, ic, id)
        &&& length && heap.objects@[id as int].is_array ==> heap.objects@[id as int].storage@.len()
            > 0
        &&& cached_slot(heap, ic, id) matches Some(slot) ==> slot_holder(heap, id, slot) is Some
    }
    &&& length ==> (source matches JsValue::String(sid) ==> sid < heap.strings@.len()
        && heap.strings@[sid as int]@.len() <= u32::MAX)
}

pub open spec fn registers_ok(vm: &Vm, regs: Seq<u32>) -> bool {
    forall|i: int| 0 <= i < regs.len() ==> regs[i] < vm.registers@.len()
}

/// Read the property named by inline cache `index` from `source`, with
/// `receiver` as `this` for a getter. With `LENGTH`, arrays and string
/// primitives answer `length` directly.
pub fn get_by_name<const LENGTH: bool>(
    dst: u32,
    source: &JsValue,
    receiver: &JsValue,
    index: u32,
    vm: &mut Vm,
) -> (action: GetAction)
    requires
        dst < old(vm).registers@.len(),
        index < old(vm).ic@.len(),
        get_by_name_ok(LENGTH, *source, &old(vm).heap, &old(vm).ic@[index as int]),
    ensures
        final(vm).heap == old(vm).heap,
        final(vm).ic == old(vm).ic,
        final(vm).element_ic == old(vm).element_ic,
        code_same(old(vm), final(vm)),
        action == spec_get_by_name(
            LENGTH,
            *source,
            *receiver,
            &old(vm).heap,
            &old(vm).ic@[index as int],
        ).1,
        final(vm).registers@ == match spec_get_by_name(
            LENGTH,
            *source,
            *receiver,
            &old(vm).heap,
            &old(vm).ic@[index as int],
        ).0 {
            Some(v) => old(vm).registers@.update(dst as int, v),
            None => old(vm).registers@,
        },
{
    if LENGTH {
        match source {
            JsValue::Object(id) => {
                if vm.heap.objects[*id].is_array {
                    let value = vm.heap.objects[*id].storage[0];
                    vm.registers.set(dst as usize, value);
                    return GetAction::Done;
                }
            },
            JsValue::String(sid) => {
                let len = vm.heap.strings[*sid].len();
                vm.registers.set(dst as usize, index_value(len as u32));
                return GetAction::Done;
            },
            _ => {},
        }
    }
    let id = match source {
        JsValue::Object(id) => *id,
        _ => {
            return GetAction::Slow { this: *receiver };
        },
    };
    let ic = &vm.ic[index as usize];
    let obj = &vm.heap.objects[id];
    match ic.get(&obj.shape, &vm.heap.gc) {
        Some(slot) => {
            let result = if slot.attributes.prototype {
                let p = match obj.shape.prototype {
                    Some(p) => p,
                    None => {
                        return GetAction::Slow { this: *receiver };
                    },
                };
                vm.heap.objects[p].storage[slot.index as usize]
            } else {
                obj.storage[slot.index as usize]
            };
            if slot.attributes.has_get() {
                if let JsValue::Object(_) = result {
                    return GetAction::CallGetter { getter: result, this: *receiver };
                }
            }
            vm.registers.set(dst as usize, result);
            GetAction::Done
        },
        None => GetAction::Slow { this: *receiver },
    }
}

/// After the generic lookup reported `slot` for an object of shape
/// `shape`: cache it when the lookup allows caching.
pub fn seed_cache(ic: &mut InlineCache, shape: &Shape, slot: Slot, gc: &GcHeap)
    ensures
        slot.spec_is_cacheable() ==> (old(ic).megamorphic ==> final(ic).view_entries() == old(
            ic,
        ).view_entries() && final(ic).megamorphic),
        slot.spec_is_cacheable() && !old(ic).megamorphic ==> final(ic).megamorphic == (
        crate::inline_cache::keep_live(old(ic).view_entries(), gc.live@).len() >= PIC_CAPACITY),
        slot.spec_is_cacheable() && !old(ic).megamorphic && !final(ic).megamorphic
            ==> final(ic).view_entries() == crate::inline_cache::keep_live(
            old(ic).view_entries(),
            gc.live@,
        ).push(crate::inline_cache::CacheEntry::spec_new(*shape, slot)),
        !slot.spec_is_cacheable() ==> *final(ic) == *old(ic),
        final(ic).name == old(ic).name,
{
    if slot.is_cacheable() {
        ic.set(shape, slot, gc);
    }
}

/// `GetLengthProperty`: the no-getter cache fast path, then the length and
/// by-name paths.
pub struct GetLengthProperty;

impl GetLengthProperty {
    pub fn operation(dst: u32, object: u32, index: u32, vm: &mut Vm) -> (action: GetAction)
        requires
            registers_ok(old(vm), seq![dst, object]),
            index < old(vm).ic@.len(),
            get_by_name_ok(
                true,
                old(vm).registers@[object as int],
                &old(vm).heap,
                &old(vm).ic@[index as int],
            ),
        ensures
            final(vm).heap == old(vm).heap,
            final(vm).ic == old(vm).ic,
            final(vm).element_ic == old(vm).element_ic,
            code_same(old(vm), final(vm)),
            get_effect(
                true,
                old(vm).registers@[object as int],
                old(vm).registers@[object as int],
                dst,
                index,
                *old(vm),
                *final(vm),
                action,
            ),
    {
        run_get::<true>(dst, object, object, index, vm)
    }
}

/// `GetPropertyByName`: get a property by name from an object.
pub struct GetPropertyByName;

impl GetPropertyByName {
    pub fn operation(dst: u32, object: u32, index: u32, vm: &mut Vm) -> (action: GetAction)
        requires
            registers_ok(old(vm), seq![dst, object]),
            index < old(vm).ic@.len(),
            get_by_name_ok(
                false,
                old(vm).registers@[object as int],
                &old(vm).heap,
                &old(vm).ic@[index as int],
            ),
        ensures
            final(vm).heap == old(vm).heap,
            final(vm).ic == old(vm).ic,
            final(vm).element_ic == old(vm).element_ic,
            code_same(old(vm), final(vm)),
            get_effect(
                false,
                old(vm).registers@[object as int],
                old(vm).registers@[object as int],
                dst,
                index,
                *old(vm),
                *final(vm),
                action,
            ),
    {
        run_get::<false>(dst, object, object, index, vm)
    }
}

/// `GetPropertyByNameWithThis`: get a property by name from `value`, with
/// `receiver` as `this` for a getter.
pub struct GetPropertyByNameWithThis;

impl GetPropertyByNameWithThis {
    pub fn operation(dst: u32, receiver: u32, value: u32, index: u32, vm: &mut Vm) -> (action:
        GetAction)
        requires
            registers_ok(old(vm), seq![dst, receiver, value]),
            index < old(vm).ic@.len(),
            get_by_name_ok(
                false,
                old(vm).registers@[value as int],
                &old(vm).heap,
                &old(vm).ic@[index as int],
            ),
        ensures
            final(vm).heap == old(vm).heap,
            final(vm).ic == old(vm).ic,
            final(vm).element_ic == old(vm).element_ic,
            code_same(old(vm), final(vm)),
            get_effect(
                false,
                old(vm).registers@[value as int],
                old(vm).registers@[receiver as int],
                dst,
                index,
                *old(vm),
                *final(vm),
                action,
            ),
    {
        run_get::<false>(dst, receiver, value, index, vm)
    }
}

/// The effect of a by-name read handler on `source`, with `receiver` as
/// `this` for a getter: the no-getter cache fast path first, then
/// [`get_by_name`].
pub open spec fn get_effect(
    length: bool,
    source: JsValue,
    receiver: JsValue,
    dst: u32,
    index: u32,
    before: Vm,
    after: Vm,
    action: GetAction,
) -> bool {
    let ic = &before.ic@[index as int];
    match spec_ic_read_no_getter(source, &before.heap, ic) {
        Some(v) => action == GetAction::Done && after.registers@ == before.registers@.update(
            dst as int,
            v,
        ),
        None => {
            let (value, act) = spec_get_by_name(length, source, receiver, &before.heap, ic);
            &&& action == act
            &&& after.registers@ == match value {
                Some(v) => before.registers@.update(dst as int, v),
                None => before.registers@,
            }
        },
    }
}

fn run_get<const LENGTH: bool>(dst: u32, receiver: u32, object: u32, index: u32, vm: &mut Vm) -> (action:
    GetAction)
    requires
        registers_ok(old(vm), seq![dst, receiver, object]),
        index < old(vm).ic@.len(),
        get_by_name_ok(
            LENGTH,
            old(vm).registers@[object as int],
            &old(vm).heap,
            &old(vm).ic@[index as int],
        ),
    ensures
        final(vm).heap == old(vm).heap,
        final(vm).ic == old(vm).ic,
        final(vm).element_ic == old(vm).element_ic,
        code_same(old(vm), final(vm)),
        get_effect(
            LENGTH,
            old(vm).registers@[object as int],
            old(vm).registers@[receiver as int],
            dst,
            index,
            *old(vm),
            *final(vm),
            action,
        ),
{
    assert(seq![dst, receiver, object][0] == dst && seq![dst, receiver, object][1] == receiver
        && seq![dst, receiver, object][2] == object);
    let source = vm.registers[object as usize];
    let this = vm.registers[receiver as usize];
    if let Some(result) = try_ic_read_no_getter(&source, &vm.heap, &vm.ic[index as usize]) {
        vm.registers.set(dst as usize, result);
        return GetAction::Done;
    }
    get_by_name::<LENGTH>(dst, &source, &this, index, vm)
}

} // verus!

verus! {

/// Where the no-setter fast path writes: the holder object and the storage
/// cell of a cached data slot.
pub open spec fn spec_ic_write_target(target: JsValue, heap: &Heap, ic: &InlineCache) -> Option<
    (ObjectId, int),
> {
    match target {
        JsValue::Object(id) => match cached_slot(heap, ic, id) {
            Some(slot) => if slot.attributes.spec_is_accessor_descriptor() {
                None
            } else {
                match slot_holder(heap, id, slot) {
                    Some(h) => Some((h, slot.index as int)),
                    None => None,
                }
            },
            None => None,
        },
        _ => None,
    }
}

/// `after` is `before` with storage cell `index` of object `h` set to `v`.
pub open spec fn heap_written(before: &Heap, after: &Heap, h: ObjectId, index: int, v: JsValue) -> bool {
    &&& after.strings == before.strings
    &&& after.gc == before.gc
    &&& after.objects@.len() == before.objects@.len()
    &&& forall|i: int|
        0 <= i < before.objects@.len() && i != h ==> #[trigger] after.objects@[i]
            == before.objects@[i]
    &&& after.objects@[h as int].shape == before.objects@[h as int].shape
    &&& after.objects@[h as int].is_array == before.objects@[h as int].is_array
    &&& after.objects@[h as int].extensible == before.objects@[h as int].extensible
    &&& after.objects@[h as int].indexed_properties == before.objects@[h as int].indexed_properties
    &&& after.objects@[h as int].elements@ == before.objects@[h as int].elements@
    &&& after.objects@[h as int].storage@ == before.objects@[h as int].storage@.update(index, v)
}

/// Set storage cell `index` of object `h` to `v`.
pub(crate) fn write_storage(heap: &mut Heap, h: ObjectId, index: usize, v: JsValue)
    requires
        h < old(heap).objects@.len(),
        index < old(heap).objects@[h as int].storage@.len(),
    ensures
        heap_written(old(heap), final(heap), h, index as int, v),
{
    heap.objects[h].storage.set(index, v);
}

/// Inline-cache hit path for writes: store `value` into the cached data
/// slot of an object target. On every situation that needs the slow path
/// (a miss, a primitive target, an accessor, a missing prototype) the heap
/// is left alone and `value` is handed back.
pub fn try_ic_write_no_setter(target: &JsValue, value: JsValue, heap: &mut Heap, ic: &InlineCache) -> (r:
    Result<(), JsValue>)
    requires
        target matches JsValue::Object(id) ==> cached_read_ok(old(heap), ic, *id),
    ensures
        match spec_ic_write_target(*target, old(heap), ic) {
            Some((h, index)) => r is Ok && heap_written(old(heap), final(heap), h, index, value),
            None => r == Err::<(), JsValue>(value) && *final(heap) == *old(heap),
        },
{
    let id = match target {
        JsValue::Object(id) => *id,
        _ => {
            return Err(value);
        },
    };
    let slot = match ic.get(&heap.objects[id].shape, &heap.gc) {
        Some(slot) => slot,
        None => {
            return Err(value);
        },
    };
    if slot.attributes.is_accessor_descriptor() {
        return Err(value);
    }
    let holder = if slot.attributes.prototype {
        match heap.objects[id].shape.prototype {
            Some(p) => p,
            None => {
                return Err(value);
            },
        }
    } else {
        id
    };
    write_storage(heap, holder, slot.index as usize, value);
    Ok(())
}

} // verus!

verus! {

/// What a by-name write asks the caller to do.
#[derive(Clone, Copy, Debug, PartialEq, Eq, Structural)]
pub enum SetAction {
    /// The value was stored (or there was nothing to call).
    Done,
    /// Call `setter` with `this` as receiver and `value` as its only argument.
    CallSetter { setter: JsValue, this: JsValue, value: JsValue },
    /// Run the generic `[[Set]]` of the cache's property name with `value` on
    /// the target (for a primitive, on the object `ToObject` makes of it,
    /// which throws for `undefined` and `null`), then [`finish_set_by_name`].
    Slow { value: JsValue },
}

/// Errors the property handlers raise themselves.
#[derive(Clone, Debug, PartialEq, Eq)]
pub enum PropertyError {
    /// `TypeError`: a strict-mode write to the named property failed.
    NonWritable { name: String },
    /// `TypeError`: a strict-mode write to the property `key` failed.
    NonWritableKey { key: PropertyKey },
    /// The register that should hold a function holds no object.
    NotAnObject,
    /// `TypeError`: a by-value access to a property of `undefined` or `null`.
    NotObjectCoercible,
}

/// The check a by-value access makes of its base before the key is
/// converted: `undefined` and `null` have no properties, a `TypeError`.
/// The caller runs `ToPropertyKey` only once this check has passed, so a
/// key whose conversion calls into script is never converted for such a
/// base.
pub fn check_base(base: &JsValue) -> (r: Result<(), PropertyError>)
    ensures
        r == if base is Undefined || base is Null {
            Err::<(), PropertyError>(PropertyError::NotObjectCoercible)
        } else {
            Ok::<(), PropertyError>(())
        },
{
    match base {
        JsValue::Undefined | JsValue::Null => Err(PropertyError::NotObjectCoercible),
        _ => Ok(()),
    }
}

/// The object a by-name write goes through: the target itself when it is
/// an object, else `wrapper`, what `ToObject` gave for the primitive target
/// (`None` when the target is `undefined` or `null`, where it throws).
pub open spec fn write_object(target: JsValue, wrapper: Option<ObjectId>) -> Option<ObjectId> {
    match target {
        JsValue::Object(id) => Some(id),
        _ => wrapper,
    }
}

/// What a by-name write of `value` through object `target` (see
/// [`write_object`]) does when the cache hits: the cell it stores into (a
/// data slot), or the action it asks for.
pub open spec fn spec_set_by_name(
    value: JsValue,
    target: Option<ObjectId>,
    receiver: JsValue,
    heap: &Heap,
    ic: &InlineCache,
) -> (Option<(ObjectId, int)>, SetAction) {
    match target {
        Some(id) => match cached_slot(heap, ic, id) {
            Some(slot) => {
                let holder = slot_holder(heap, id, slot).unwrap();
                if !slot.attributes.spec_is_accessor_descriptor() {
                    (Some((holder, slot.index as int)), SetAction::Done)
                } else {
                    let setter = cell(heap, holder, slot.index + 1);
                    if slot.attributes.set && setter is Object {
                        (None, SetAction::CallSetter { setter, this: receiver, value })
                    } else {
                        (None, SetAction::Done)
                    }
                }
            },
            None => (None, SetAction::Slow { value }),
        },
        None => (None, SetAction::Slow { value }),
    }
}

/// Writing by name to `target` cannot panic: a cache hit names an existing
/// holder object and storage cell (the setter cell after the getter for an
/// accessor).
pub open spec fn set_by_name_ok(target: Option<ObjectId>, heap: &Heap, ic: &InlineCache) -> bool {
    target matches Some(id) ==> {
        &&& cached_read_ok(heap, ic, id)
        &&& cached_slot(heap, ic, id) matches Some(slot) ==> {
            &&& slot_holder(heap, id, slot) matches Some(h)
            &&& slot.attributes.spec_is_accessor_descriptor() ==> slot.index + 1
                < heap.objects@[h as int].storage@.len()
        }
    }
}

/// The effect of a by-name write: the heap gets the stored value, nothing
/// else changes but what the action names.
pub open spec fn set_effect(
    value: JsValue,
    target: Option<ObjectId>,
    receiver: JsValue,
    index: u32,
    before: &Vm,
    after: &Vm,
    action: SetAction,
) -> bool {
    let (write, act) = spec_set_by_name(
        value,
        target,
        receiver,
        &before.heap,
        &before.ic@[index as int],
    );
    &&& action == act
    &&& after.registers == before.registers
    &&& after.ic == before.ic
    &&& after.element_ic == before.element_ic
    &&& code_same(before, after)
    &&& match write {
        Some((h, cell_index)) => heap_written(&before.heap, &after.heap, h, cell_index, value),
        None => after.heap == before.heap,
    }
}

/// Write the value in register `value` to the property named by inline
/// cache `index` of `value_object`, with `receiver` as `this` for a setter.
/// A primitive `value_object` goes through `wrapper`, the object `ToObject`
/// made of it, whose shape the cache is consulted with.
pub fn set_by_name(
    value: u32,
    value_object: &JsValue,
    wrapper: Option<ObjectId>,
    receiver: &JsValue,
    index: u32,
    vm: &mut Vm,
) -> (action: SetAction)
    requires
        value < old(vm).registers@.len(),
        index < old(vm).ic@.len(),
        set_by_name_ok(write_object(*value_object, wrapper), &old(vm).heap, &old(vm).ic@[index as int]),
    ensures
        set_effect(
            old(vm).registers@[value as int],
            write_object(*value_object, wrapper),
            *receiver,
            index,
            old(vm),
            final(vm),
            action,
        ),
{
    let value = vm.registers[value as usize];
    let id = match value_object {
        JsValue::Object(id) => *id,
        _ => match wrapper {
            Some(w) => w,
            None => {
                return SetAction::Slow { value };
            },
        },
    };
    let slot = match vm.ic[index as usize].get(&vm.heap.objects[id].shape, &vm.heap.gc) {
        Some(slot) => slot,
        None => {
            return SetAction::Slow { value };
        },
    };
    let holder = if slot.attributes.prototype {
        match vm.heap.objects[id].shape.prototype {
            Some(p) => p,
            None => {
                return SetAction::Done;
            },
        }
    } else {
        id
    };
    if !slot.attributes.is_accessor_descriptor() {
        write_storage(&mut vm.heap, holder, slot.index as usize, value);
        return SetAction::Done;
    }
    let cells = vm.heap.objects[holder].storage.len();
    assert(slot.index + 1 < cells);
    let setter = vm.heap.objects[holder].storage[slot.index as usize + 1];
    if slot.attributes.has_set() {
        if let JsValue::Object(_) = setter {
            return SetAction::CallSetter { setter, this: *receiver, value };
        }
    }
    SetAction::Done
}

/// Completion of the slow path of a by-name write, given what the generic
/// `[[Set]]` reported: whether it succeeded, the slot it went through, and
/// the shape of the object it wrote to. A failed write is a `TypeError` in
/// strict code; a successful cacheable one seeds the site's cache.
pub fn finish_set_by_name(succeeded: bool, slot: Slot, shape: &Shape, index: u32, vm: &mut Vm) -> (r:
    Result<(), PropertyError>)
    requires
        index < old(vm).ic@.len(),
    ensures
        !succeeded && old(vm).strict ==> r == Err::<(), PropertyError>(
            PropertyError::NonWritable { name: old(vm).ic@[index as int].name },
        ) && *final(vm) == *old(vm),
        !(!succeeded && old(vm).strict) ==> r is Ok,
        !(succeeded && slot.spec_is_cacheable()) ==> *final(vm) == *old(vm),
        succeeded && slot.spec_is_cacheable() ==> seeded(
            &old(vm).ic@[index as int],
            &final(vm).ic@[index as int],
            *shape,
            slot,
            old(vm).heap.gc.live@,
        ),
        final(vm).registers == old(vm).registers,
        final(vm).heap == old(vm).heap,
        final(vm).element_ic == old(vm).element_ic,
        code_same(old(vm), final(vm)),
        final(vm).ic@.len() == old(vm).ic@.len(),
        forall|i: int|
            0 <= i < old(vm).ic@.len() && i != index ==> #[trigger] final(vm).ic@[i] == old(
                vm,
            ).ic@[i],
{
    if !succeeded && vm.strict {
        return Err(PropertyError::NonWritable { name: vm.ic[index as usize].name.clone() });
    }
    if succeeded && slot.is_cacheable() {
        vm.ic[index as usize].set(shape, slot, &vm.heap.gc);
    }
    Ok(())
}

/// What caching `slot` for `shape` does to a cache: a megamorphic cache is
/// left alone; otherwise the dead entries are evicted and the new entry is
/// appended, or, when the cache is still full, it turns megamorphic.
pub open spec fn seeded(before: &InlineCache, after: &InlineCache, shape: Shape, slot: Slot, live: Seq<u64>) -> bool {
    let kept = crate::inline_cache::keep_live(before.view_entries(), live);
    &&& after.name == before.name
    &&& before.megamorphic ==> after.megamorphic && after.view_entries() == before.view_entries()
    &&& !before.megamorphic && kept.len() < PIC_CAPACITY ==> !after.megamorphic
        && after.view_entries() == kept.push(crate::inline_cache::CacheEntry::spec_new(shape, slot))
    &&& !before.megamorphic && kept.len() >= PIC_CAPACITY ==> after.megamorphic
        && after.view_entries() == Seq::<crate::inline_cache::CacheEntry>::empty()
}

/// `SetPropertyByName`: set a property by name of an object.
/// `wrapper` is what `ToObject` gives for a primitive target (see
/// [`write_object`]); it is not read for an object target.
pub struct SetPropertyByName;

impl SetPropertyByName {
    pub fn operation(value: u32, object: u32, index: u32, wrapper: Option<ObjectId>, vm: &mut Vm) -> (action:
        SetAction)
        requires
            registers_ok(old(vm), seq![value, object]),
            index < old(vm).ic@.len(),
            set_by_name_ok(
                write_object(old(vm).registers@[object as int], wrapper),
                &old(vm).heap,
                &old(vm).ic@[index as int],
            ),
        ensures
            set_effect(
                old(vm).registers@[value as int],
                write_object(old(vm).registers@[object as int], wrapper),
                old(vm).registers@[object as int],
                index,
                old(vm),
                final(vm),
                action,
            ),
    {
        run_set(value, object, object, index, wrapper, vm)
    }
}

/// `SetPropertyByNameWithThis`: set a property by name of an object, with
/// `receiver` as `this` for a setter; `wrapper` as for [`SetPropertyByName`].
pub struct SetPropertyByNameWithThis;

impl SetPropertyByNameWithThis {
    pub fn operation(
        value: u32,
        receiver: u32,
        object: u32,
        index: u32,
        wrapper: Option<ObjectId>,
        vm: &mut Vm,
    ) -> (action: SetAction)
        requires
            registers_ok(old(vm), seq![value, receiver, object]),
            index < old(vm).ic@.len(),
            set_by_name_ok(
                write_object(old(vm).registers@[object as int], wrapper),
                &old(vm).heap,
                &old(vm).ic@[index as int],
            ),
        ensures
            set_effect(
                old(vm).registers@[value as int],
                write_object(old(vm).registers@[object as int], wrapper),
                old(vm).registers@[receiver as int],
                index,
                old(vm),
                final(vm),
                action,
            ),
    {
        assert(seq![value, receiver, object][1] == receiver);
        run_set(value, receiver, object, index, wrapper, vm)
    }
}

/// A by-name write handler: the no-setter cache fast path first, then
/// [`set_by_name`].
fn run_set(value: u32, receiver: u32, object: u32, index: u32, wrapper: Option<ObjectId>, vm: &mut Vm) -> (action:
    SetAction)
    requires
        value < old(vm).registers@.len(),
        receiver < old(vm).registers@.len(),
        object < old(vm).registers@.len(),
        index < old(vm).ic@.len(),
        set_by_name_ok(
            write_object(old(vm).registers@[object as int], wrapper),
            &old(vm).heap,
            &old(vm).ic@[index as int],
        ),
    ensures
        set_effect(
            old(vm).registers@[value as int],
            write_object(old(vm).registers@[object as int], wrapper),
            old(vm).registers@[receiver as int],
            index,
            old(vm),
            final(vm),
            action,
        ),
{
    let value_now = vm.registers[value as usize];
    let target = vm.registers[object as usize];
    let this = vm.registers[receiver as usize];
    if try_ic_write_no_setter(&target, value_now, &mut vm.heap, &vm.ic[index as usize]).is_ok() {
        return SetAction::Done;
    }
    set_by_name(value, &target, wrapper, &this, index, vm)
}

} // verus!

verus! {

/// A monomorphic element-access cache: the last array shape seen at a
/// `GetPropertyByValue` site together with its dense storage kind. A hit is,
/// as for named caches, an address match on a still-live shape.
pub struct ElementInlineCache {
    entry: Option<(CacheKey, DenseKind)>,
}

/// Address and allocation of a cached shape.
#[derive(Clone, Copy, Debug, PartialEq, Eq, Structural)]
pub struct CacheKey {
    pub addr: usize,
    pub alloc: u64,
}

impl ElementInlineCache {
    pub closed spec fn spec_entry(&self) -> Option<(CacheKey, DenseKind)> {
        self.entry
    }

    /// What a lookup of `shape` returns: the cached kind on a hit.
    pub open spec fn spec_matches(&self, shape: Shape, live: Seq<u64>) -> Option<DenseKind> {
        match self.spec_entry() {
            Some((key, kind)) => if key.addr == shape.addr && live.contains(key.alloc) {
                Some(kind)
            } else {
                None
            },
            None => None,
        }
    }

    /// An unseeded cache.
    pub fn new() -> (c: ElementInlineCache)
        ensures
            c.spec_entry() is None,
    {
        ElementInlineCache { entry: None }
    }

    /// The storage kind the cache was seeded with, if any.
    pub fn dense_kind(&self) -> (k: Option<DenseKind>)
        ensures
            k == match self.spec_entry() {
                Some((_, kind)) => Some(kind),
                None => None,
            },
    {
        match self.entry {
            Some((_, kind)) => Some(kind),
            None => None,
        }
    }

    /// Remember `shape` with storage kind `kind`, replacing what was cached.
    pub fn seed(&mut self, shape: &Shape, kind: DenseKind)
        ensures
            final(self).spec_entry() == Some((CacheKey { addr: shape.addr, alloc: shape.alloc }, kind)),
    {
        self.entry = Some((CacheKey { addr: shape.addr, alloc: shape.alloc }, kind));
    }

    /// Fused address + liveness check; the cached kind on a hit.
    pub fn matches(&self, shape: &Shape, heap: &GcHeap) -> (k: Option<DenseKind>)
        ensures
            k == self.spec_matches(*shape, heap.live@),
    {
        match self.entry {
            Some((key, kind)) => {
                if key.addr == shape.addr && heap.is_live(key.alloc) {
                    Some(kind)
                } else {
                    None
                }
            },
            None => None,
        }
    }
}

/// A property key after `ToPropertyKey`.
#[derive(Clone, Copy, Debug, PartialEq, Eq, Structural)]
pub enum PropertyKey {
    Index(u32),
    String(StringId),
    Symbol(usize),
}

/// The element at `index` of dense indexed storage, or `None` when the
/// storage is sparse or the index is out of bounds.
pub open spec fn spec_dense_property(obj: &ObjectData, index: u32) -> Option<JsValue> {
    if indexed_dense(obj.indexed_properties) && index < obj.elements@.len() {
        Some(obj.elements@[index as int])
    } else {
        None
    }
}

pub open spec fn indexed_dense(p: IndexedProperties) -> bool {
    !(p is SparseElement || p is SparseProperty)
}

impl ObjectData {
    /// The element at `index` when the indexed storage is dense.
    pub fn get_dense_property(&self, index: u32) -> (r: Option<JsValue>)
        ensures
            r == spec_dense_property(self, index),
    {
        let dense = indexed_properties_dense_kind(&self.indexed_properties).is_some();
        if dense && (index as usize) < self.elements.len() {
            Some(self.elements[index as usize])
        } else {
            None
        }
    }
}

/// The bits of the IEEE-754 double that holds an integer in `[2^31, 2^32)`:
/// biased exponent 1023 + 31 (`0x41e` in the top bits), and the integer's
/// low 31 bits as the top of the mantissa.
pub open spec fn spec_large_index_bits(i: u32) -> u64 {
    0x41e0_0000_0000_0000u64 | (((i - 0x8000_0000u32) as u64) << 21u64)
}

/// The JavaScript number for an array index: an `Integer32` when it fits,
/// a double otherwise.
pub open spec fn spec_index_value(i: u32) -> JsValue {
    if i <= i32::MAX {
        JsValue::Integer32(i as i32)
    } else {
        JsValue::Float64Bits(spec_large_index_bits(i))
    }
}

/// The value of an index key, as `PropertyKey::Index(i).into()` gives it.
pub fn index_value(i: u32) -> (v: JsValue)
    ensures
        v == spec_index_value(i),
{
    if i <= 0x7fff_ffffu32 {
        JsValue::Integer32(i as i32)
    } else {
        let mantissa: u64 = ((i - 0x8000_0000u32) as u64) << 21u64;
        JsValue::Float64Bits(0x41e0_0000_0000_0000u64 | mantissa)
    }
}

/// The UTF-16 code units of `"length"`.
pub open spec fn length_units() -> Seq<u16> {
    seq![108u16, 101u16, 110u16, 103u16, 116u16, 104u16]
}

/// Whether `units` spells `"length"`.
fn is_length(units: &Vec<u16>) -> (r: bool)
    ensures
        r == (units@ == length_units()),
{
    let r = units.len() == 6 && units[0] == 108 && units[1] == 101 && units[2] == 110
        && units[3] == 103 && units[4] == 116 && units[5] == 104;
    assert(r ==> units@ =~= length_units());
    r
}

/// What the keyed fast paths of a by-value read produce: the value for the
/// destination register, whether the key register receives the key back,
/// and the element-cache seed, if any. `None` sends the read to the
/// generic `[[Get]]`.
pub open spec fn spec_keyed_read(base: JsValue, key: PropertyKey, heap: &Heap) -> Option<(KeyedRead, Option<DenseKind>)> {
    match key {
        PropertyKey::Index(i) => match base {
            JsValue::Object(id) => if heap.objects@[id as int].is_array {
                match spec_dense_property(&heap.objects@[id as int], i) {
                    Some(e) => Some((KeyedRead::Value(e), dense_kind_of(heap.objects@[id as int].indexed_properties))),
                    None => None,
                }
            } else {
                None
            },
            JsValue::String(sid) => if i < heap.strings@[sid as int]@.len() {
                Some((KeyedRead::CodeUnit(heap.strings@[sid as int]@[i as int]), None))
            } else {
                Some((KeyedRead::Value(JsValue::Undefined), None))
            },
            _ => None,
        },
        PropertyKey::String(k) => match base {
            JsValue::String(sid) => if heap.strings@[k as int]@ == length_units() {
                Some((KeyedRead::Value(spec_index_value(heap.strings@[sid as int]@.len() as u32)), None))
            } else {
                None
            },
            _ => None,
        },
        PropertyKey::Symbol(_) => None,
    }
}

pub open spec fn dense_kind_of(p: IndexedProperties) -> Option<DenseKind> {
    match p {
        IndexedProperties::DenseI32 => Some(DenseKind::DenseI32),
        IndexedProperties::DenseF64 => Some(DenseKind::DenseF64),
        IndexedProperties::DenseElement => Some(DenseKind::DenseElement),
        _ => None,
    }
}

/// A keyed read result: a value, or a one-code-unit string to allocate.
#[derive(Clone, Copy, Debug, PartialEq, Eq, Structural)]
pub enum KeyedRead {
    Value(JsValue),
    CodeUnit(u16),
}

} // verus!

verus! {

/// The element-cache fast path of a by-value read: a non-negative integer
/// key into dense storage of an object whose shape the cache remembers.
pub open spec fn spec_element_fast(key: JsValue, base: JsValue, heap: &Heap, eic: &ElementInlineCache) -> Option<JsValue> {
    match (key, base) {
        (JsValue::Integer32(k), JsValue::Object(id)) => if k >= 0 && eic.spec_matches(
            heap.objects@[id as int].shape,
            heap.gc.live@,
        ) is Some {
            spec_dense_property(&heap.objects@[id as int], k as u32)
        } else {
            None
        },
        _ => None,
    }
}

/// The value a property key converts back to.
pub open spec fn spec_key_value(key: PropertyKey) -> JsValue {
    match key {
        PropertyKey::Index(i) => spec_index_value(i),
        PropertyKey::String(s) => JsValue::String(s),
        PropertyKey::Symbol(s) => JsValue::Symbol(s),
    }
}

/// `after` is `before` with one more string, holding `units`.
pub open spec fn heap_with_string(before: &Heap, after: &Heap, units: Seq<u16>) -> bool {
    &&& after.objects == before.objects
    &&& after.gc == before.gc
    &&& after.strings@.len() == before.strings@.len() + 1
    &&& forall|i: int| 0 <= i < before.strings@.len() ==> #[trigger] after.strings@[i] == before.strings@[i]
    &&& after.strings@[before.strings@.len() as int]@ == units
}

/// `after` is `before` with cache `index` seeded with `shape` and `kind`.
pub open spec fn element_seeded(before: Seq<ElementInlineCache>, after: Seq<ElementInlineCache>, index: int, shape: Shape, kind: DenseKind) -> bool {
    &&& after.len() == before.len()
    &&& forall|i: int| 0 <= i < before.len() && i != index ==> #[trigger] after[i] == before[i]
    &&& after[index].spec_entry() == Some((CacheKey { addr: shape.addr, alloc: shape.alloc }, kind))
}

/// Reading by value cannot panic: the base and key name existing objects
/// and strings, string lengths fit a `u32`, and one more string can
/// be allocated.
pub open spec fn get_by_value_ok(base: JsValue, key: PropertyKey, heap: &Heap) -> bool {
    &&& base matches JsValue::Object(id) ==> id < heap.objects@.len()
    &&& base matches JsValue::String(sid) ==> sid < heap.strings@.len()
        && heap.strings@[sid as int]@.len() <= u32::MAX
    &&& key matches PropertyKey::String(k) ==> k < heap.strings@.len()
    &&& heap.strings@.len() < usize::MAX
}

/// The effect of a by-value read of register `object` at the key in
/// register `key`, converted to `pkey`, into register `dst`, with register
/// `receiver` as `this` for the generic `[[Get]]`.
pub open spec fn value_read_effect(
    push_key: bool,
    dst: u32,
    key: u32,
    receiver: u32,
    object: u32,
    ic_index: u32,
    pkey: PropertyKey,
    before: &Vm,
    after: &Vm,
    action: GetAction,
) -> bool {
    let key_value = before.registers@[key as int];
    let base = before.registers@[object as int];
    let heap = &before.heap;
    let pushed = if push_key {
        before.registers@.update(key as int, spec_key_value(pkey))
    } else {
        before.registers@
    };
    &&& after.ic == before.ic
    &&& code_same(before, after)
    &&& match spec_element_fast(key_value, base, heap, &before.element_ic@[ic_index as int]) {
        Some(e) => {
            &&& action == GetAction::Done
            &&& after.registers@ == before.registers@.update(dst as int, e)
            &&& after.heap == before.heap
            &&& after.element_ic == before.element_ic
        },
        None => match spec_keyed_read(base, pkey, heap) {
            Some((KeyedRead::Value(v), seed)) => {
                &&& action == GetAction::Done
                &&& after.registers@ == pushed.update(dst as int, v)
                &&& after.heap == before.heap
                &&& match seed {
                    Some(kind) => element_seeded(
                        before.element_ic@,
                        after.element_ic@,
                        ic_index as int,
                        heap.objects@[base->Object_0 as int].shape,
                        kind,
                    ),
                    None => after.element_ic == before.element_ic,
                }
            },
            Some((KeyedRead::CodeUnit(u), _)) => {
                &&& action == GetAction::Done
                &&& heap_with_string(heap, &after.heap, seq![u])
                &&& after.registers@ == pushed.update(
                    dst as int,
                    JsValue::String(heap.strings@.len() as usize),
                )
                &&& after.element_ic == before.element_ic
            },
            None => {
                &&& action == (GetAction::Slow { this: before.registers@[receiver as int] })
                &&& after.registers == before.registers
                &&& after.heap == before.heap
                &&& after.element_ic == before.element_ic
            },
        },
    }
}

/// Read `object[key]` into `dst`, given `pkey`, the key after
/// `ToPropertyKey` (which the caller runs after [`check_base`], since it
/// may call into script; for the non-negative integers of the element fast
/// path it is their index). Register `receiver` is `this` for the generic
/// `[[Get]]`. The element cache answers dense reads of remembered shapes;
/// then dense array elements (seeding the element cache), code units and
/// the length of string primitives are read directly. With `PUSH_KEY` the
/// key register receives the converted key.
pub fn get_by_value<const PUSH_KEY: bool>(
    dst: u32,
    key: u32,
    receiver: u32,
    object: u32,
    ic_index: u32,
    pkey: &PropertyKey,
    vm: &mut Vm,
) -> (action: GetAction)
    requires
        registers_ok(old(vm), seq![dst, key, receiver, object]),
        ic_index < old(vm).element_ic@.len(),
        get_by_value_ok(old(vm).registers@[object as int], *pkey, &old(vm).heap),
    ensures
        value_read_effect(PUSH_KEY, dst, key, receiver, object, ic_index, *pkey, old(vm), final(vm), action),
{
    assert(seq![dst, key, receiver, object][1] == key && seq![dst, key, receiver, object][2] == receiver
        && seq![dst, key, receiver, object][3] == object);
    let key_value = vm.registers[key as usize];
    let base = vm.registers[object as usize];
    let this = vm.registers[receiver as usize];
    if let JsValue::Integer32(k) = key_value {
        if k >= 0 {
            if let JsValue::Object(id) = base {
                if vm.element_ic[ic_index as usize].matches(&vm.heap.objects[id].shape, &vm.heap.gc).is_some() {
                    if let Some(element) = vm.heap.objects[id].get_dense_property(k as u32) {
                        vm.registers.set(dst as usize, element);
                        return GetAction::Done;
                    }
                }
            }
        }
    }
    match *pkey {
        PropertyKey::Index(i) => {
            match base {
                JsValue::Object(id) => {
                    if vm.heap.objects[id].is_array {
                        if let Some(element) = vm.heap.objects[id].get_dense_property(i) {
                            let kind = indexed_properties_dense_kind(
                                &vm.heap.objects[id].indexed_properties,
                            );
                            if let Some(kind) = kind {
                                let shape = vm.heap.objects[id].shape;
                                vm.element_ic[ic_index as usize].seed(&shape, kind);
                            }
                            if PUSH_KEY {
                                vm.registers.set(key as usize, index_value(i));
                            }
                            vm.registers.set(dst as usize, element);
                            return GetAction::Done;
                        }
                    }
                    GetAction::Slow { this }
                },
                JsValue::String(sid) => {
                    let len = vm.heap.strings[sid].len();
                    let value = if (i as usize) < len {
                        let unit = vm.heap.strings[sid][i as usize];
                        let new_id = vm.heap.strings.len();
                        let mut units: Vec<u16> = Vec::new();
                        units.push(unit);
                        assert(units@ =~= seq![unit]);
                        vm.heap.strings.push(units);
                        JsValue::String(new_id)
                    } else {
                        JsValue::Undefined
                    };
                    if PUSH_KEY {
                        vm.registers.set(key as usize, index_value(i));
                    }
                    vm.registers.set(dst as usize, value);
                    GetAction::Done
                },
                _ => GetAction::Slow { this },
            }
        },
        PropertyKey::String(k) => {
            if let JsValue::String(sid) = base {
                if is_length(&vm.heap.strings[k]) {
                    let len = vm.heap.strings[sid].len();
                    if PUSH_KEY {
                        vm.registers.set(key as usize, JsValue::String(k));
                    }
                    vm.registers.set(dst as usize, index_value(len as u32));
                    return GetAction::Done;
                }
            }
            GetAction::Slow { this }
        },
        PropertyKey::Symbol(_) => GetAction::Slow { this },
    }
}

} // verus!

verus! {

/// Whether `value` can be stored in dense storage of kind `p` as it is.
pub open spec fn fits_dense(p: IndexedProperties, value: JsValue) -> bool {
    match p {
        IndexedProperties::DenseI32 => value is Integer32,
        IndexedProperties::DenseF64 => value is Float64Bits,
        IndexedProperties::DenseElement => true,
        _ => false,
    }
}

impl ObjectData {
    /// Whether element `index` of dense storage can be overwritten with
    /// `value` in place: it is in bounds and the storage kind holds the
    /// value as it is.
    pub fn dense_accepts(&self, index: u32, value: &JsValue) -> (r: bool)
        ensures
            r == (fits_dense(self.indexed_properties, *value) && index < self.elements@.len()),
    {
        let fits = match self.indexed_properties {
            IndexedProperties::DenseI32 => matches!(value, JsValue::Integer32(_)),
            IndexedProperties::DenseF64 => matches!(value, JsValue::Float64Bits(_)),
            IndexedProperties::DenseElement => true,
            IndexedProperties::SparseElement | IndexedProperties::SparseProperty => false,
        };
        fits && (index as usize) < self.elements.len()
    }

    /// Overwrite element `index` of dense storage with `value`, when
    /// [`ObjectData::dense_accepts`] allows it. Anything else (an append, a
    /// change of storage kind, sparse storage) is left to the generic
    /// `[[Set]]`, and nothing changes.
    pub fn set_dense_property(&mut self, index: u32, value: &JsValue) -> (done: bool)
        ensures
            done == (fits_dense(old(self).indexed_properties, *value) && index
                < old(self).elements@.len()),
            done ==> final(self).elements@ == old(self).elements@.update(index as int, *value),
            !done ==> final(self).elements@ == old(self).elements@,
            final(self).shape == old(self).shape,
            final(self).storage == old(self).storage,
            final(self).is_array == old(self).is_array,
            final(self).extensible == old(self).extensible,
            final(self).indexed_properties == old(self).indexed_properties,
    {
        if self.dense_accepts(index, value) {
            self.elements.set(index as usize, *value);
            true
        } else {
            false
        }
    }
}

/// The element a fast by-value write stores into: `(object, index)` for a
/// write of an index key to an extensible array whose dense storage takes
/// the value in place.
pub open spec fn spec_element_write(base: JsValue, key: PropertyKey, value: JsValue, heap: &Heap) -> Option<(ObjectId, u32)> {
    match (base, key) {
        (JsValue::Object(id), PropertyKey::Index(i)) => {
            let obj = heap.objects@[id as int];
            if obj.is_array && obj.extensible && fits_dense(obj.indexed_properties, value) && i
                < obj.elements@.len() {
                Some((id, i))
            } else {
                None
            }
        },
        _ => None,
    }
}

/// `after` is `before` with element `index` of object `id` set to `v`.
pub open spec fn element_written(before: &Heap, after: &Heap, id: ObjectId, index: u32, v: JsValue) -> bool {
    &&& after.strings == before.strings
    &&& after.gc == before.gc
    &&& after.objects@.len() == before.objects@.len()
    &&& forall|i: int|
        0 <= i < before.objects@.len() && i != id ==> #[trigger] after.objects@[i]
            == before.objects@[i]
    &&& after.objects@[id as int].shape == before.objects@[id as int].shape
    &&& after.objects@[id as int].storage == before.objects@[id as int].storage
    &&& after.objects@[id as int].is_array == before.objects@[id as int].is_array
    &&& after.objects@[id as int].extensible == before.objects@[id as int].extensible
    &&& after.objects@[id as int].indexed_properties == before.objects@[id as int].indexed_properties
    &&& after.objects@[id as int].elements@ == before.objects@[id as int].elements@.update(
        index as int,
        v,
    )
}

/// What a by-value write asks the caller to do.
#[derive(Clone, Copy, Debug, PartialEq, Eq, Structural)]
pub enum SetValueAction {
    /// The element was stored.
    Done,
    /// Convert the target with `ToObject`, run the generic `[[Set]]` of the
    /// converted key with `value` and `this` as receiver, then
    /// [`finish_set_by_value`].
    Slow { value: JsValue, this: JsValue },
}

/// `SetPropertyByValue`: set a property by value of an object.
pub struct SetPropertyByValue;

impl SetPropertyByValue {
    /// Store the value in register `value` at `object[key]`, given `pkey`,
    /// the key after `ToPropertyKey` (run by the caller after
    /// [`check_base`], since it may call into script). In-place writes to the dense elements of an extensible
    /// array are done here; everything else is handed back.
    pub fn operation(value: u32, key: u32, receiver: u32, object: u32, pkey: &PropertyKey, vm: &mut Vm) -> (action:
        SetValueAction)
        requires
            registers_ok(old(vm), seq![value, key, receiver, object]),
            old(vm).registers@[object as int] matches JsValue::Object(id) ==> id < old(
                vm,
            ).heap.objects@.len(),
        ensures
            final(vm).registers == old(vm).registers,
            final(vm).ic == old(vm).ic,
            final(vm).element_ic == old(vm).element_ic,
            code_same(old(vm), final(vm)),
            match spec_element_write(
                old(vm).registers@[object as int],
                *pkey,
                old(vm).registers@[value as int],
                &old(vm).heap,
            ) {
                Some((id, i)) => action == SetValueAction::Done && element_written(
                    &old(vm).heap,
                    &final(vm).heap,
                    id,
                    i,
                    old(vm).registers@[value as int],
                ),
                None => action == (SetValueAction::Slow {
                    value: old(vm).registers@[value as int],
                    this: old(vm).registers@[receiver as int],
                }) && final(vm).heap == old(vm).heap,
            },
    {
        assert(seq![value, key, receiver, object][2] == receiver);
        assert(seq![value, key, receiver, object][3] == object);
        let v = vm.registers[value as usize];
        let this = vm.registers[receiver as usize];
        if let JsValue::Object(id) = vm.registers[object as usize] {
            if let PropertyKey::Index(i) = *pkey {
                let fast = vm.heap.objects[id].is_array && vm.heap.objects[id].extensible
                    && vm.heap.objects[id].dense_accepts(i, &v);
                if fast {
                    vm.heap.objects[id].set_dense_property(i, &v);
                    return SetValueAction::Done;
                }
            }
        }
        SetValueAction::Slow { value: v, this }
    }
}

/// Completion of the slow path of a by-value write: a failed write of
/// `key` is a `TypeError` in strict code.
pub fn finish_set_by_value(succeeded: bool, key: &PropertyKey, vm: &Vm) -> (r: Result<(), PropertyError>)
    ensures
        r == if !succeeded && vm.strict {
            Err(PropertyError::NonWritableKey { key: *key })
        } else {
            Ok(())
        },
{
    if !succeeded && vm.strict {
        Err(PropertyError::NonWritableKey { key: *key })
    } else {
        Ok(())
    }
}

} // verus!

verus! {

/// An accessor property descriptor, enumerable and configurable as the
/// class and object-literal accessor definitions make them.
#[derive(Clone, Copy, Debug, PartialEq, Eq, Structural)]
pub struct AccessorDescriptor {
    pub get: Option<JsValue>,
    pub set: Option<JsValue>,
    pub enumerable: bool,
    pub configurable: bool,
}

/// Define an accessor property `key` on `target` (after `ToObject`) with
/// `descriptor`.
#[derive(Clone, Copy, Debug, PartialEq, Eq, Structural)]
pub struct DefineAccessor {
    pub target: JsValue,
    pub key: PropertyKey,
    pub descriptor: AccessorDescriptor,
}

/// The descriptor that installs `getter`, keeping the setter the property
/// already has.
pub open spec fn spec_getter_descriptor(getter: JsValue, existing_set: Option<JsValue>) -> AccessorDescriptor {
    AccessorDescriptor { get: Some(getter), set: existing_set, enumerable: true, configurable: true }
}

/// The descriptor that installs `setter`, keeping the getter the property
/// already has.
pub open spec fn spec_setter_descriptor(setter: JsValue, existing_get: Option<JsValue>) -> AccessorDescriptor {
    AccessorDescriptor { get: existing_get, set: Some(setter), enumerable: true, configurable: true }
}

/// `SetPropertyGetterByName`: install the getter in register `value` as
/// the property named by constant `index` of the object in register
/// `object`. `existing_set` is the setter of that own property, if any
/// (looked up by the caller after `ToObject`).
pub struct SetPropertyGetterByName;

impl SetPropertyGetterByName {
    pub fn operation(object: u32, value: u32, index: u32, existing_set: Option<JsValue>, vm: &Vm) -> (d:
        DefineAccessor)
        requires
            registers_ok(vm, seq![object, value]),
            index < vm.names.constants@.len(),
        ensures
            d == (DefineAccessor {
                target: vm.registers@[object as int],
                key: PropertyKey::String(vm.names.constants@[index as int]),
                descriptor: spec_getter_descriptor(vm.registers@[value as int], existing_set),
            }),
    {
        assert(seq![object, value][1] == value);
        DefineAccessor {
            target: vm.registers[object as usize],
            key: PropertyKey::String(vm.names.constants[index as usize]),
            descriptor: AccessorDescriptor {
                get: Some(vm.registers[value as usize]),
                set: existing_set,
                enumerable: true,
                configurable: true,
            },
        }
    }
}

/// `SetPropertyGetterByValue`: install the getter in register `value` as
/// the property `key` (the converted key register) of the object in
/// register `object`.
pub struct SetPropertyGetterByValue;

impl SetPropertyGetterByValue {
    pub fn operation(value: u32, key: &PropertyKey, object: u32, existing_set: Option<JsValue>, vm: &Vm) -> (d:
        DefineAccessor)
        requires
            registers_ok(vm, seq![value, object]),
        ensures
            d == (DefineAccessor {
                target: vm.registers@[object as int],
                key: *key,
                descriptor: spec_getter_descriptor(vm.registers@[value as int], existing_set),
            }),
    {
        assert(seq![value, object][1] == object);
        DefineAccessor {
            target: vm.registers[object as usize],
            key: *key,
            descriptor: AccessorDescriptor {
                get: Some(vm.registers[value as usize]),
                set: existing_set,
                enumerable: true,
                configurable: true,
            },
        }
    }
}

/// `SetPropertySetterByName`: install the setter in register `value` as
/// the property named by constant `index` of the object in register
/// `object`, keeping its getter `existing_get`.
pub struct SetPropertySetterByName;

impl SetPropertySetterByName {
    pub fn operation(object: u32, value: u32, index: u32, existing_get: Option<JsValue>, vm: &Vm) -> (d:
        DefineAccessor)
        requires
            registers_ok(vm, seq![object, value]),
            index < vm.names.constants@.len(),
        ensures
            d == (DefineAccessor {
                target: vm.registers@[object as int],
                key: PropertyKey::String(vm.names.constants@[index as int]),
                descriptor: spec_setter_descriptor(vm.registers@[value as int], existing_get),
            }),
    {
        assert(seq![object, value][1] == value);
        DefineAccessor {
            target: vm.registers[object as usize],
            key: PropertyKey::String(vm.names.constants[index as usize]),
            descriptor: AccessorDescriptor {
                get: existing_get,
                set: Some(vm.registers[value as usize]),
                enumerable: true,
                configurable: true,
            },
        }
    }
}

/// `SetPropertySetterByValue`: install the setter in register `value` as
/// the property `key` of the object in register `object`.
pub struct SetPropertySetterByValue;

impl SetPropertySetterByValue {
    pub fn operation(value: u32, key: &PropertyKey, object: u32, existing_get: Option<JsValue>, vm: &Vm) -> (d:
        DefineAccessor)
        requires
            registers_ok(vm, seq![value, object]),
        ensures
            d == (DefineAccessor {
                target: vm.registers@[object as int],
                key: *key,
                descriptor: spec_setter_descriptor(vm.registers@[value as int], existing_get),
            }),
    {
        assert(seq![value, object][1] == object);
        DefineAccessor {
            target: vm.registers[object as usize],
            key: *key,
            descriptor: AccessorDescriptor {
                get: existing_get,
                set: Some(vm.registers[value as usize]),
                enumerable: true,
                configurable: true,
            },
        }
    }
}

/// The prefix `SetFunctionName` gives a function's name: `get` for 1,
/// `set` for 2, none otherwise.
#[derive(Clone, Copy, Debug, PartialEq, Eq, Structural)]
pub enum NamePrefix {
    Getter,
    Setter,
}

/// `SetFunctionName`'s choice of prefix.
pub fn function_name_prefix(prefix: u32) -> (p: Option<NamePrefix>)
    ensures
        p == if prefix == 1 {
            Some(NamePrefix::Getter)
        } else if prefix == 2 {
            Some(NamePrefix::Setter)
        } else {
            None
        },
{
    if prefix == 1 {
        Some(NamePrefix::Getter)
    } else if prefix == 2 {
        Some(NamePrefix::Setter)
    } else {
        None
    }
}

} // verus!

verus! {

/// `GetPropertyByValue`: read a property by value into `dst`.
pub struct GetPropertyByValue;

impl GetPropertyByValue {
    pub fn operation(
        dst: u32,
        key: u32,
        receiver: u32,
        object: u32,
        ic_index: u32,
        pkey: &PropertyKey,
        vm: &mut Vm,
    ) -> (action: GetAction)
        requires
            registers_ok(old(vm), seq![dst, key, receiver, object]),
            ic_index < old(vm).element_ic@.len(),
            get_by_value_ok(old(vm).registers@[object as int], *pkey, &old(vm).heap),
        ensures
            value_read_effect(false, dst, key, receiver, object, ic_index, *pkey, old(vm), final(vm), action),
    {
        get_by_value::<false>(dst, key, receiver, object, ic_index, pkey, vm)
    }
}

/// `GetPropertyByValuePush`: read a property by value into `dst`, and
/// store the converted key back into the key register.
pub struct GetPropertyByValuePush;

impl GetPropertyByValuePush {
    pub fn operation(
        dst: u32,
        key: u32,
        receiver: u32,
        object: u32,
        ic_index: u32,
        pkey: &PropertyKey,
        vm: &mut Vm,
    ) -> (action: GetAction)
        requires
            registers_ok(old(vm), seq![dst, key, receiver, object]),
            ic_index < old(vm).element_ic@.len(),
            get_by_value_ok(old(vm).registers@[object as int], *pkey, &old(vm).heap),
        ensures
            value_read_effect(true, dst, key, receiver, object, ic_index, *pkey, old(vm), final(vm), action),
    {
        get_by_value::<true>(dst, key, receiver, object, ic_index, pkey, vm)
    }
}

/// `InstanceOf`: store the outcome of `lhs instanceof rhs` (which the
/// caller computes, since it may call into script through
/// `Symbol.hasInstance`) in `dst`.
pub struct InstanceOf;

impl InstanceOf {
    pub fn operation(dst: u32, outcome: bool, vm: &mut Vm)
        requires
            dst < old(vm).registers@.len(),
        ensures
            final(vm).registers@ == old(vm).registers@.update(dst as int, JsValue::Boolean(outcome)),
            final(vm).heap == old(vm).heap,
            final(vm).ic == old(vm).ic,
            final(vm).element_ic == old(vm).element_ic,
            code_same(old(vm), final(vm)),
    {
        vm.registers.set(dst as usize, JsValue::Boolean(outcome));
    }
}

} // verus!

verus! {

/// A by-name write that stores through the cache is seen by the next
/// by-name read through the same cache: with the cache, the shapes and the
/// collector's view unchanged, reading the property gives back the value
/// written.
pub proof fn lemma_set_then_get(value: JsValue, id: ObjectId, receiver: JsValue, before: Heap, after: Heap, ic: InlineCache)
    requires
        set_by_name_ok(Some(id), &before, &ic),
        spec_set_by_name(value, Some(id), receiver, &before, &ic).0 matches Some((h, k))
            && heap_written(&before, &after, h, k, value),
    ensures
        spec_ic_read_no_getter(JsValue::Object(id), &after, &ic) == Some(value),
        spec_get_by_name(false, JsValue::Object(id), JsValue::Object(id), &after, &ic) == (
            Some(value),
            GetAction::Done,
        ),
{
    let (h, k) = spec_set_by_name(value, Some(id), receiver, &before, &ic).0.unwrap();
    assert(after.objects@[id as int].shape == before.objects@[id as int].shape);
    assert(cached_slot(&after, &ic, id) == cached_slot(&before, &ic, id));
    let slot = cached_slot(&before, &ic, id).unwrap();
    assert(slot_holder(&after, id, slot) == slot_holder(&before, id, slot));
    assert(cell(&after, h, k) == value);
}

} // verus!

verus! {

/// Give `function` the name `key`, with `prefix` before it.
#[derive(Clone, Copy, Debug, PartialEq, Eq, Structural)]
pub struct FunctionNaming {
    pub function: ObjectId,
    pub key: PropertyKey,
    pub prefix: Option<NamePrefix>,
}

/// `SetFunctionName`: name the function in register `function` after the
/// string or symbol in register `name`, with the prefix operand `prefix`
/// (1 for `get`, 2 for `set`).
pub struct SetFunctionName;

impl SetFunctionName {
    pub fn operation(function: u32, name: u32, prefix: u32, vm: &Vm) -> (r: Result<
        FunctionNaming,
        PropertyError,
    >)
        requires
            registers_ok(vm, seq![function, name]),
            vm.registers@[name as int] is String || vm.registers@[name as int] is Symbol,
        ensures
            match vm.registers@[function as int] {
                JsValue::Object(f) => r == Ok::<FunctionNaming, PropertyError>(
                    FunctionNaming {
                        function: f,
                        key: match vm.registers@[name as int] {
                            JsValue::String(s) => PropertyKey::String(s),
                            _ => PropertyKey::Symbol(vm.registers@[name as int]->Symbol_0),
                        },
                        prefix: if prefix == 1 {
                            Some(NamePrefix::Getter)
                        } else if prefix == 2 {
                            Some(NamePrefix::Setter)
                        } else {
                            None
                        },
                    },
                ),
                _ => r == Err::<FunctionNaming, PropertyError>(PropertyError::NotAnObject),
            },
    {
        assert(seq![function, name][1] == name);
        let key = match vm.registers[name as usize] {
            JsValue::String(s) => PropertyKey::String(s),
            JsValue::Symbol(s) => PropertyKey::Symbol(s),
            _ => {
                return Err(PropertyError::NotAnObject);
            },
        };
        let prefix = function_name_prefix(prefix);
        match vm.registers[function as usize] {
            JsValue::Object(f) => Ok(FunctionNaming { function: f, key, prefix }),
            _ => Err(PropertyError::NotAnObject),
        }
    }
}

} // verus!

verus! {

/// A by-value read that seeds the element cache makes the next read of a
/// non-negative integer key into the same object's dense storage a cache
/// hit, while the object's shape lives and its storage stays dense.
pub proof fn lemma_seed_then_element_hit(
    before: Vm,
    after: Vm,
    key: u32,
    receiver: u32,
    object: u32,
    ic_index: u32,
    pkey: PropertyKey,
    dst: u32,
    action: GetAction,
    k: i32,
)
    requires
        registers_ok(&before, seq![dst, key, receiver, object]),
        ic_index < before.element_ic@.len(),
        value_read_effect(false, dst, key, receiver, object, ic_index, pkey, &before, &after, action),
        spec_element_fast(before.registers@[key as int], before.registers@[object as int], &before.heap, &before.element_ic@[ic_index as int]) is None,
        spec_keyed_read(before.registers@[object as int], pkey, &before.heap) matches Some((_, Some(_))),
        before.registers@[object as int] matches JsValue::Object(id) && before.heap.gc.live@.contains(
            before.heap.objects@[id as int].shape.alloc,
        ),
        k >= 0,
        spec_dense_property(&before.heap.objects@[before.registers@[object as int]->Object_0 as int], k as u32) is Some,
    ensures
        spec_element_fast(
            JsValue::Integer32(k),
            before.registers@[object as int],
            &after.heap,
            &after.element_ic@[ic_index as int],
        ) == spec_dense_property(&before.heap.objects@[before.registers@[object as int]->Object_0 as int], k as u32),
{
}

} // verus!
