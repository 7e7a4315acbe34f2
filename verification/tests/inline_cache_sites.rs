//! Inline caches filled by the property handlers at an access site: a miss
//! takes the generic path, whose reported slot seeds the cache.

use boa_vm::inline_cache::{GcHeap, InlineCache, Shape, Slot, SlotAttributes};
use boa_vm::name::NameState;
use boa_vm::property::{
    finish_set_by_name, seed_cache, DenseKind, ElementInlineCache, GetAction,
    GetPropertyByName, GetPropertyByValue, Heap, IndexedProperties, JsValue, ObjectData,
    PropertyKey, SetAction, SetPropertyByName, SetPropertyByValue, SetValueAction, Vm,
};

fn own_slot(index: u32) -> Slot {
    Slot {
        index,
        attributes: SlotAttributes {
            writable: true,
            enumerable: true,
            configurable: true,
            get: false,
            set: false,
            prototype: false,
            found: true,
            not_cachable: false,
        },
    }
}

/// A site reading or writing `o.test` (one named cache, one element cache)
/// and one object per given property list; `test` is the last property.
fn site(objects: &[usize]) -> (Vm, Vec<Shape>) {
    let mut gc = GcHeap::new();
    let mut shapes = Vec::new();
    let mut data = Vec::new();
    for (i, n) in objects.iter().enumerate() {
        let shape = gc.alloc_shape(0x1000 + 0x10 * i, None);
        shapes.push(shape);
        data.push(ObjectData {
            shape,
            storage: (0..*n).map(|v| JsValue::Integer32(v as i32)).collect(),
            is_array: false,
            extensible: true,
            indexed_properties: IndexedProperties::SparseProperty,
            elements: Vec::new(),
        });
    }
    let vm = Vm {
        registers: vec![JsValue::Undefined; 3],
        heap: Heap { objects: data, strings: Vec::new(), gc },
        ic: vec![InlineCache::new("test".to_string())],
        strict: false,
        element_ic: vec![ElementInlineCache::new()],
        names: NameState {
            environments: Vec::new(),
            global: Vec::new(),
            bindings: Vec::new(),
            constants: Vec::new(),
            binding_stack: Vec::new(),
            locator_stable: true,
            global_object: 0,
        },
    };
    (vm, shapes)
}

/// `return o.test` for object `o`: on a miss the generic lookup finds
/// `test` as the last own property and the handler seeds the cache.
fn read_test(vm: &mut Vm, o: usize, shapes: &[Shape]) {
    vm.registers[1] = JsValue::Object(o);
    if matches!(GetPropertyByName::operation(0, 1, 0, vm), GetAction::Slow { .. }) {
        let slot = own_slot(vm.heap.objects[o].storage.len() as u32 - 1);
        let gc = vm.heap.gc.clone();
        seed_cache(&mut vm.ic[0], &shapes[o], slot, &gc);
    }
}

#[test]
fn set_property_by_name_set_inline_cache_on_property_load() {
    let (mut vm, shapes) = site(&[1]);
    assert_eq!(vm.ic.len(), 1);
    assert_eq!(vm.ic[0].entries.len(), 0);
    read_test(&mut vm, 0, &shapes);
    assert_eq!(vm.ic[0].entries.len(), 1);
    assert_eq!(vm.ic[0].entries[0].display_addr(&vm.heap.gc), shapes[0].to_addr_usize());
}

#[test]
fn get_property_by_name_set_inline_cache_on_property_load() {
    // `o.test = 30`
    let (mut vm, shapes) = site(&[1]);
    assert_eq!(vm.ic.len(), 1);
    assert_eq!(vm.ic[0].entries.len(), 0);
    vm.registers[1] = JsValue::Object(0);
    vm.registers[2] = JsValue::Integer32(30);
    let action = SetPropertyByName::operation(2, 1, 0, None, &mut vm);
    assert_eq!(action, SetAction::Slow { value: JsValue::Integer32(30) });
    // The generic [[Set]] succeeds through the own slot `test`.
    vm.heap.objects[0].storage[0] = JsValue::Integer32(30);
    assert_eq!(finish_set_by_name(true, own_slot(0), &shapes[0], 0, &mut vm), Ok(()));
    assert_eq!(vm.ic[0].entries.len(), 1);
    assert_eq!(vm.ic[0].entries[0].display_addr(&vm.heap.gc), shapes[0].to_addr_usize());
}

#[test]
fn test_polymorphic_inline_cache() {
    let (mut vm, shapes) = site(&[1, 2, 2, 2]);
    assert_eq!(vm.ic.len(), 1);
    assert_eq!(vm.ic[0].entries.len(), 0);
    assert!(!vm.ic[0].megamorphic);
    for o in 0..4 {
        read_test(&mut vm, o, &shapes);
    }
    assert_eq!(vm.ic[0].entries.len(), 4);
    assert!(!vm.ic[0].megamorphic);
}

#[test]
fn test_megamorphic_inline_cache() {
    let (mut vm, shapes) = site(&[1, 2, 2, 2, 2, 2]);
    for o in 0..5 {
        read_test(&mut vm, o, &shapes);
    }
    assert_eq!(vm.ic[0].entries.len(), 0);
    assert!(vm.ic[0].megamorphic);
    // A repeated miss stays empty.
    read_test(&mut vm, 5, &shapes);
    assert_eq!(vm.ic[0].entries.len(), 0);
    assert!(vm.ic[0].megamorphic);
}

/// `arr` as a dense array of `elements` with storage kind `kind`.
fn array_site(elements: Vec<JsValue>, kind: IndexedProperties) -> Vm {
    let (mut vm, _) = site(&[1]);
    let arr = &mut vm.heap.objects[0];
    arr.is_array = true;
    arr.indexed_properties = kind;
    arr.elements = elements;
    vm.registers[2] = JsValue::Object(0);
    vm
}

/// `return arr[i]`: the element handler's answer, or `None` when it hands
/// the read to the generic `[[Get]]` with the array as receiver.
fn read_element(vm: &mut Vm, i: i32) -> Option<JsValue> {
    vm.registers[1] = JsValue::Integer32(i);
    match GetPropertyByValue::operation(0, 1, 2, 2, 0, &PropertyKey::Index(i as u32), vm) {
        GetAction::Done => Some(vm.registers[0]),
        GetAction::Slow { this } => {
            assert_eq!(this, vm.registers[2]);
            None
        },
        other => panic!("unexpected action {other:?}"),
    }
}

fn ints(v: &[i32]) -> Vec<JsValue> {
    v.iter().map(|x| JsValue::Integer32(*x)).collect()
}

#[test]
fn element_ic_get_dense_array_seeds_and_hits() {
    let mut vm = array_site(ints(&[1, 2, 3]), IndexedProperties::DenseI32);
    assert_eq!(vm.element_ic.len(), 1);
    assert!(vm.element_ic[0].dense_kind().is_none());
    assert_eq!(read_element(&mut vm, 1), Some(JsValue::Integer32(2)));
    assert_eq!(vm.element_ic[0].dense_kind(), Some(DenseKind::DenseI32));
    assert_eq!(read_element(&mut vm, 0), Some(JsValue::Integer32(1)));
}

#[test]
fn element_ic_get_out_of_bounds_returns_undefined() {
    let mut vm = array_site(ints(&[10, 20]), IndexedProperties::DenseI32);
    let _ = read_element(&mut vm, 0);
    assert!(vm.element_ic[0].dense_kind().is_some());
    // Out of bounds the handler defers to the generic `[[Get]]` (which
    // answers `undefined` for a missing index) and leaves the cache alone.
    let kind = vm.element_ic[0].dense_kind();
    assert_eq!(read_element(&mut vm, 99), None);
    assert_eq!(vm.element_ic[0].dense_kind(), kind);
    assert_eq!(vm.registers[0], JsValue::Integer32(10));
}

#[test]
fn element_ic_get_shape_miss_falls_back_to_slow_path() {
    let mut vm = array_site(ints(&[1, 2, 3]), IndexedProperties::DenseI32);
    assert_eq!(read_element(&mut vm, 2), Some(JsValue::Integer32(3)));
    let mut floats = array_site(
        vec![JsValue::Float64Bits(1.5f64.to_bits()), JsValue::Float64Bits(2.5f64.to_bits())],
        IndexedProperties::DenseF64,
    );
    floats.element_ic = vm.element_ic;
    match read_element(&mut floats, 0) {
        Some(JsValue::Float64Bits(b)) => assert!((f64::from_bits(b) - 1.5).abs() < f64::EPSILON),
        other => panic!("expected a double, got {other:?}"),
    }
}

#[test]
fn element_ic_get_non_array_receiver_works() {
    // A plain object with numeric string keys: no element fast path.
    let (mut vm, _) = site(&[2]);
    vm.registers[1] = JsValue::Integer32(0);
    vm.registers[2] = JsValue::Object(0);
    let action = GetPropertyByValue::operation(0, 1, 2, 2, 0, &PropertyKey::Index(0), &mut vm);
    assert_eq!(action, GetAction::Slow { this: JsValue::Object(0) });
    assert!(vm.element_ic[0].dense_kind().is_none());
}

#[test]
fn element_ic_set_dense_array_seeds_and_hits() {
    let mut vm = array_site(ints(&[0, 0, 0]), IndexedProperties::DenseI32);
    for (i, v) in [(1, 42), (2, 99)] {
        vm.registers[0] = JsValue::Integer32(v);
        let action = SetPropertyByValue::operation(0, 1, 2, 2, &PropertyKey::Index(i), &mut vm);
        assert_eq!(action, SetValueAction::Done);
        assert_eq!(read_element(&mut vm, i as i32), Some(JsValue::Integer32(v)));
    }
}

#[test]
fn element_ic_get_sparse_array_correct() {
    let mut vm = array_site(ints(&[1, 2, 3]), IndexedProperties::DenseI32);
    let r0 = read_element(&mut vm, 0);
    // A hole turns the storage sparse: the cache must not answer from it.
    vm.heap.objects[0].indexed_properties = IndexedProperties::SparseElement;
    vm.registers[1] = JsValue::Integer32(1);
    let action = GetPropertyByValue::operation(0, 1, 2, 2, 0, &PropertyKey::Index(1), &mut vm);
    assert_eq!(action, GetAction::Slow { this: JsValue::Object(0) });
    assert_eq!(r0, Some(JsValue::Integer32(1)));
}

#[test]
fn element_ic_get_shape_change_mid_loop_correct() {
    let mut vm = array_site(ints(&[10, 20, 30]), IndexedProperties::DenseI32);
    let mut sum = 0;
    for i in 0..3 {
        match read_element(&mut vm, i) {
            Some(JsValue::Integer32(v)) => sum += v,
            other => panic!("expected an integer element, got {other:?}"),
        }
        if i == 1 {
            // `arr.extra = true`: a named property moves the array to a new shape.
            let shape = vm.heap.gc.alloc_shape(0x2000, None);
            let arr = &mut vm.heap.objects[0];
            arr.shape = shape;
            arr.storage.push(JsValue::Boolean(true));
        }
    }
    assert_eq!(sum, 60);
}
