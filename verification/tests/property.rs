//! Property-access handlers and their inline-cache fast paths, on a small
//! heap built by hand.

use boa_vm::inline_cache::{GcHeap, InlineCache, Shape, Slot, SlotAttributes};
use boa_vm::name::NameState;
use boa_vm::property::{
    check_base, finish_set_by_name, finish_set_by_value, function_name_prefix, get_by_name, index_value,
    indexed_properties_dense_kind, seed_cache, try_ic_read_no_getter, try_ic_write_no_setter,
    DenseKind, ElementInlineCache, GetAction, GetLengthProperty, GetPropertyByName,
    GetPropertyByNameWithThis, GetPropertyByValue, GetPropertyByValuePush, Heap,
    IndexedProperties, InstanceOf, JsValue, NamePrefix, ObjectData, PropertyError, PropertyKey,
    SetAction, SetFunctionName, SetPropertyByName, SetPropertyByNameWithThis, SetPropertyByValue,
    SetPropertyGetterByName, SetPropertySetterByValue, SetValueAction, Vm,
};

fn attrs() -> SlotAttributes {
    SlotAttributes {
        writable: true,
        enumerable: true,
        configurable: true,
        get: false,
        set: false,
        prototype: false,
        found: true,
        not_cachable: false,
    }
}

fn data_slot(index: u32) -> Slot {
    Slot { index, attributes: attrs() }
}

fn object(shape: Shape, storage: Vec<JsValue>) -> ObjectData {
    ObjectData {
        shape,
        storage,
        is_array: false,
        extensible: true,
        indexed_properties: IndexedProperties::SparseProperty,
        elements: Vec::new(),
    }
}

fn names() -> NameState {
    NameState {
        environments: Vec::new(),
        global: Vec::new(),
        bindings: Vec::new(),
        constants: vec![0],
        binding_stack: Vec::new(),
        locator_stable: true,
        global_object: 0,
    }
}

/// A VM with object 0 of shape at address 0x100 holding `[Integer32(7),
/// Integer32(8)]`, one named cache for `"x"` and one element cache.
fn vm() -> (Vm, Shape) {
    let mut gc = GcHeap::new();
    let shape = gc.alloc_shape(0x100, None);
    let heap = Heap {
        objects: vec![object(shape, vec![JsValue::Integer32(7), JsValue::Integer32(8)])],
        strings: vec!["length".encode_utf16().collect(), "abc".encode_utf16().collect()],
        gc,
    };
    let vm = Vm {
        registers: vec![JsValue::Undefined; 4],
        heap,
        ic: vec![InlineCache::new("x".to_string())],
        strict: false,
        element_ic: vec![ElementInlineCache::new()],
        names: names(),
    };
    (vm, shape)
}

#[test]
fn get_by_name_misses_then_hits_after_seeding() {
    let (mut vm, shape) = vm();
    vm.registers[1] = JsValue::Object(0);
    let action = GetPropertyByName::operation(0, 1, 0, &mut vm);
    assert_eq!(action, GetAction::Slow { this: JsValue::Object(0) });
    assert_eq!(vm.registers[0], JsValue::Undefined);

    let gc = vm.heap.gc.clone();
    seed_cache(&mut vm.ic[0], &shape, data_slot(1), &gc);
    let action = GetPropertyByName::operation(0, 1, 0, &mut vm);
    assert_eq!(action, GetAction::Done);
    assert_eq!(vm.registers[0], JsValue::Integer32(8));
}

#[test]
fn uncacheable_slot_is_not_seeded() {
    let (mut vm, shape) = vm();
    let mut slot = data_slot(0);
    slot.attributes.not_cachable = true;
    let gc = vm.heap.gc.clone();
    seed_cache(&mut vm.ic[0], &shape, slot, &gc);
    assert!(vm.ic[0].get(&shape, &gc).is_none());
}

#[test]
fn get_by_name_with_getter_asks_for_a_call() {
    let (mut vm, shape) = vm();
    let getter = JsValue::Object(0);
    vm.heap.objects[0].storage[0] = getter;
    let mut slot = data_slot(0);
    slot.attributes.get = true;
    let gc = vm.heap.gc.clone();
    vm.ic[0].set(&shape, slot, &gc);
    vm.registers[1] = JsValue::Object(0);
    vm.registers[2] = JsValue::Integer32(1);
    let action = GetPropertyByNameWithThis::operation(0, 2, 1, 0, &mut vm);
    assert_eq!(action, GetAction::CallGetter { getter, this: JsValue::Integer32(1) });
    assert_eq!(vm.registers[0], JsValue::Undefined);
}

#[test]
fn get_by_name_reads_prototype_slots() {
    let mut gc = GcHeap::new();
    let proto_shape = gc.alloc_shape(0x200, None);
    let shape = gc.alloc_shape(0x300, Some(1));
    let heap = Heap {
        objects: vec![object(shape, vec![]), object(proto_shape, vec![JsValue::Boolean(true)])],
        strings: vec![],
        gc,
    };
    let mut vm = Vm {
        registers: vec![JsValue::Object(0), JsValue::Undefined],
        heap,
        ic: vec![InlineCache::new("p".to_string())],
        strict: false,
        element_ic: vec![],
        names: names(),
    };
    let mut slot = data_slot(0);
    slot.attributes.prototype = true;
    let gc = vm.heap.gc.clone();
    vm.ic[0].set(&shape, slot, &gc);
    assert_eq!(try_ic_read_no_getter(&JsValue::Object(0), &vm.heap, &vm.ic[0]), Some(JsValue::Boolean(true)));
    assert_eq!(GetPropertyByName::operation(1, 0, 0, &mut vm), GetAction::Done);
    assert_eq!(vm.registers[1], JsValue::Boolean(true));
}

#[test]
fn length_of_arrays_and_strings() {
    let (mut vm, _) = vm();
    vm.heap.objects[0].is_array = true;
    vm.registers[1] = JsValue::Object(0);
    assert_eq!(GetLengthProperty::operation(0, 1, 0, &mut vm), GetAction::Done);
    assert_eq!(vm.registers[0], JsValue::Integer32(7));

    vm.registers[1] = JsValue::String(1);
    assert_eq!(GetLengthProperty::operation(0, 1, 0, &mut vm), GetAction::Done);
    assert_eq!(vm.registers[0], JsValue::Integer32(3));

    vm.registers[1] = JsValue::Boolean(false);
    assert_eq!(GetLengthProperty::operation(0, 1, 0, &mut vm), GetAction::Slow { this: JsValue::Boolean(false) });
}

#[test]
fn get_by_name_direct_call() {
    let (mut vm, shape) = vm();
    let gc = vm.heap.gc.clone();
    vm.ic[0].set(&shape, data_slot(0), &gc);
    assert_eq!(get_by_name::<false>(3, &JsValue::Object(0), &JsValue::Object(0), 0, &mut vm), GetAction::Done);
    assert_eq!(vm.registers[3], JsValue::Integer32(7));
}

#[test]
fn set_then_get_through_the_cache() {
    let (mut vm, shape) = vm();
    let gc = vm.heap.gc.clone();
    vm.ic[0].set(&shape, data_slot(1), &gc);
    vm.registers[1] = JsValue::Object(0);
    vm.registers[2] = JsValue::Integer32(42);
    assert_eq!(SetPropertyByName::operation(2, 1, 0, None, &mut vm), SetAction::Done);
    assert_eq!(vm.heap.objects[0].storage[1], JsValue::Integer32(42));
    assert_eq!(GetPropertyByName::operation(3, 1, 0, &mut vm), GetAction::Done);
    assert_eq!(vm.registers[3], JsValue::Integer32(42));
}

#[test]
fn set_by_name_miss_and_undefined_take_the_slow_path() {
    let (mut vm, _) = vm();
    vm.registers[1] = JsValue::Object(0);
    vm.registers[2] = JsValue::Null;
    assert_eq!(
        SetPropertyByName::operation(2, 1, 0, None, &mut vm),
        SetAction::Slow { value: JsValue::Null }
    );
    // `undefined` has no wrapper: the slow path's `ToObject` throws.
    vm.registers[1] = JsValue::Undefined;
    assert_eq!(
        SetPropertyByName::operation(2, 1, 0, None, &mut vm),
        SetAction::Slow { value: JsValue::Null }
    );
}

#[test]
fn set_by_name_with_setter_asks_for_a_call() {
    let (mut vm, shape) = vm();
    let mut slot = data_slot(0);
    slot.attributes.get = true;
    slot.attributes.set = true;
    vm.heap.objects[0].storage = vec![JsValue::Undefined, JsValue::Object(0)];
    let gc = vm.heap.gc.clone();
    vm.ic[0].set(&shape, slot, &gc);
    vm.registers[0] = JsValue::Integer32(5);
    vm.registers[1] = JsValue::Object(0);
    vm.registers[2] = JsValue::Integer32(9);
    let action = SetPropertyByNameWithThis::operation(0, 2, 1, 0, None, &mut vm);
    assert_eq!(
        action,
        SetAction::CallSetter {
            setter: JsValue::Object(0),
            this: JsValue::Integer32(9),
            value: JsValue::Integer32(5)
        }
    );
}

#[test]
fn set_by_name_on_a_primitive_uses_the_wrapper_shape() {
    // Object 0 stands for the wrapper `ToObject` made of the string target;
    // its shape is cached with a setter.
    let (mut vm, shape) = vm();
    let mut slot = data_slot(0);
    slot.attributes.get = true;
    slot.attributes.set = true;
    vm.heap.objects[0].storage = vec![JsValue::Undefined, JsValue::Object(0)];
    let gc = vm.heap.gc.clone();
    vm.ic[0].set(&shape, slot, &gc);
    let cache_before = vm.ic[0].entries.len();
    let storage_before = vm.heap.objects[0].storage.clone();
    vm.registers[1] = JsValue::String(1);
    vm.registers[2] = JsValue::Integer32(4);
    let action = SetPropertyByName::operation(2, 1, 0, Some(0), &mut vm);
    assert_eq!(
        action,
        SetAction::CallSetter {
            setter: JsValue::Object(0),
            this: JsValue::String(1),
            value: JsValue::Integer32(4)
        }
    );
    // Nothing is stored and the cache is left as it was.
    assert_eq!(vm.ic[0].entries.len(), cache_before);
    assert_eq!(vm.heap.objects[0].storage, storage_before);

    // A data slot on the wrapper's shape is written in the wrapper.
    let (mut vm, shape) = self::vm();
    let gc = vm.heap.gc.clone();
    vm.ic[0].set(&shape, data_slot(1), &gc);
    vm.registers[1] = JsValue::Boolean(true);
    vm.registers[2] = JsValue::Integer32(6);
    assert_eq!(SetPropertyByName::operation(2, 1, 0, Some(0), &mut vm), SetAction::Done);
    assert_eq!(vm.heap.objects[0].storage[1], JsValue::Integer32(6));
}

#[test]
fn try_ic_write_hands_the_value_back_on_a_miss() {
    let (mut vm, _) = vm();
    let r = try_ic_write_no_setter(&JsValue::Object(0), JsValue::Integer32(3), &mut vm.heap, &vm.ic[0]);
    assert_eq!(r, Err(JsValue::Integer32(3)));
    assert_eq!(vm.heap.objects[0].storage[0], JsValue::Integer32(7));
}

#[test]
fn failed_strict_write_is_a_type_error() {
    let (mut vm, shape) = vm();
    vm.strict = true;
    let r = finish_set_by_name(false, data_slot(0), &shape, 0, &mut vm);
    assert_eq!(r, Err(PropertyError::NonWritable { name: "x".to_string() }));
    vm.strict = false;
    assert_eq!(finish_set_by_name(false, data_slot(0), &shape, 0, &mut vm), Ok(()));
    assert!(vm.ic[0].get(&shape, &vm.heap.gc).is_none());
    assert_eq!(finish_set_by_name(true, data_slot(1), &shape, 0, &mut vm), Ok(()));
    assert_eq!(vm.ic[0].get(&shape, &vm.heap.gc), Some(data_slot(1)));

    vm.strict = true;
    let key = PropertyKey::Index(3);
    assert_eq!(finish_set_by_value(false, &key, &vm), Err(PropertyError::NonWritableKey { key }));
    assert_eq!(finish_set_by_value(true, &key, &vm), Ok(()));
}

fn array_vm() -> (Vm, Shape) {
    let (mut vm, shape) = vm();
    let obj = &mut vm.heap.objects[0];
    obj.is_array = true;
    obj.indexed_properties = IndexedProperties::DenseI32;
    obj.elements = vec![JsValue::Integer32(1), JsValue::Integer32(2), JsValue::Integer32(3)];
    (vm, shape)
}

#[test]
fn element_cache_seeds_on_a_dense_read_and_then_hits() {
    let (mut vm, shape) = array_vm();
    assert!(vm.element_ic[0].dense_kind().is_none());
    vm.registers[1] = JsValue::Integer32(1);
    vm.registers[2] = JsValue::Object(0);
    let action = GetPropertyByValue::operation(0, 1, 2, 2, 0, &PropertyKey::Index(1), &mut vm);
    assert_eq!(action, GetAction::Done);
    assert_eq!(vm.registers[0], JsValue::Integer32(2));
    assert_eq!(vm.element_ic[0].dense_kind(), Some(DenseKind::DenseI32));
    assert_eq!(vm.element_ic[0].matches(&shape, &vm.heap.gc), Some(DenseKind::DenseI32));

    vm.registers[1] = JsValue::Integer32(0);
    let action = GetPropertyByValue::operation(0, 1, 2, 2, 0, &PropertyKey::Index(0), &mut vm);
    assert_eq!(action, GetAction::Done);
    assert_eq!(vm.registers[0], JsValue::Integer32(1));
}

#[test]
fn out_of_bounds_element_read_takes_the_slow_path() {
    let (mut vm, _) = array_vm();
    vm.registers[1] = JsValue::Integer32(99);
    vm.registers[2] = JsValue::Object(0);
    let action = GetPropertyByValue::operation(0, 1, 2, 2, 0, &PropertyKey::Index(99), &mut vm);
    assert_eq!(action, GetAction::Slow { this: JsValue::Object(0) });
}

#[test]
fn by_value_slow_path_reads_with_the_receiver() {
    let (mut vm, _) = array_vm();
    vm.registers[1] = JsValue::Integer32(99);
    vm.registers[2] = JsValue::Object(0);
    vm.registers[3] = JsValue::Integer32(7);
    let action = GetPropertyByValue::operation(0, 1, 3, 2, 0, &PropertyKey::Index(99), &mut vm);
    assert_eq!(action, GetAction::Slow { this: JsValue::Integer32(7) });
}

#[test]
fn sparse_array_is_not_cached() {
    let (mut vm, _) = array_vm();
    vm.heap.objects[0].indexed_properties = IndexedProperties::SparseElement;
    vm.registers[1] = JsValue::Integer32(1);
    vm.registers[2] = JsValue::Object(0);
    let action = GetPropertyByValue::operation(0, 1, 2, 2, 0, &PropertyKey::Index(1), &mut vm);
    assert_eq!(action, GetAction::Slow { this: JsValue::Object(0) });
    assert!(vm.element_ic[0].dense_kind().is_none());
}

#[test]
fn string_index_and_length_reads() {
    let (mut vm, _) = vm();
    vm.registers[2] = JsValue::String(1);
    vm.registers[1] = JsValue::Integer32(2);
    let action = GetPropertyByValuePush::operation(0, 1, 2, 2, 0, &PropertyKey::Index(2), &mut vm);
    assert_eq!(action, GetAction::Done);
    assert_eq!(vm.registers[0], JsValue::String(2));
    assert_eq!(vm.heap.strings[2], vec![u16::from(b'c')]);
    assert_eq!(vm.registers[1], JsValue::Integer32(2));

    let action = GetPropertyByValue::operation(0, 1, 2, 2, 0, &PropertyKey::Index(3), &mut vm);
    assert_eq!(action, GetAction::Done);
    assert_eq!(vm.registers[0], JsValue::Undefined);

    let action = GetPropertyByValue::operation(0, 1, 2, 2, 0, &PropertyKey::String(0), &mut vm);
    assert_eq!(action, GetAction::Done);
    assert_eq!(vm.registers[0], JsValue::Integer32(3));

    let action = GetPropertyByValue::operation(0, 1, 2, 2, 0, &PropertyKey::String(1), &mut vm);
    assert_eq!(action, GetAction::Slow { this: JsValue::String(1) });
}

#[test]
fn pushed_key_of_a_large_index_is_a_double() {
    assert_eq!(index_value(5), JsValue::Integer32(5));
    assert_eq!(index_value(0x7fff_ffff), JsValue::Integer32(i32::MAX));
    assert_eq!(index_value(0x8000_0000), JsValue::Float64Bits(2_147_483_648f64.to_bits()));
    assert_eq!(index_value(0xffff_fffe), JsValue::Float64Bits(4_294_967_294f64.to_bits()));
}

#[test]
fn dense_kind_of_indexed_storage() {
    assert_eq!(indexed_properties_dense_kind(&IndexedProperties::DenseF64), Some(DenseKind::DenseF64));
    assert_eq!(
        indexed_properties_dense_kind(&IndexedProperties::DenseElement),
        Some(DenseKind::DenseElement)
    );
    assert_eq!(indexed_properties_dense_kind(&IndexedProperties::SparseProperty), None);
}

#[test]
fn dense_array_write_in_place() {
    let (mut vm, _) = array_vm();
    vm.registers[0] = JsValue::Integer32(42);
    vm.registers[2] = JsValue::Object(0);
    let action = SetPropertyByValue::operation(0, 1, 3, 2, &PropertyKey::Index(1), &mut vm);
    assert_eq!(action, SetValueAction::Done);
    assert_eq!(vm.heap.objects[0].elements[1], JsValue::Integer32(42));

    // A value the storage kind cannot hold, an append, or a non-extensible
    // array go through the generic [[Set]].
    vm.registers[0] = JsValue::Boolean(true);
    let action = SetPropertyByValue::operation(0, 1, 3, 2, &PropertyKey::Index(1), &mut vm);
    assert_eq!(action, SetValueAction::Slow { value: JsValue::Boolean(true), this: JsValue::Undefined });
    vm.registers[0] = JsValue::Integer32(1);
    let action = SetPropertyByValue::operation(0, 1, 3, 2, &PropertyKey::Index(3), &mut vm);
    assert!(matches!(action, SetValueAction::Slow { .. }));
    vm.heap.objects[0].extensible = false;
    let action = SetPropertyByValue::operation(0, 1, 3, 2, &PropertyKey::Index(0), &mut vm);
    assert!(matches!(action, SetValueAction::Slow { .. }));
    assert_eq!(vm.heap.objects[0].elements[0], JsValue::Integer32(1));
}

#[test]
fn accessor_definitions_keep_the_other_half() {
    let (mut vm, _) = vm();
    vm.registers[0] = JsValue::Object(0);
    vm.registers[1] = JsValue::Symbol(4);
    let d = SetPropertyGetterByName::operation(0, 1, 0, Some(JsValue::Null), &vm);
    assert_eq!(d.target, JsValue::Object(0));
    assert_eq!(d.key, PropertyKey::String(0));
    assert_eq!(d.descriptor.get, Some(JsValue::Symbol(4)));
    assert_eq!(d.descriptor.set, Some(JsValue::Null));
    assert!(d.descriptor.enumerable && d.descriptor.configurable);

    let d = SetPropertySetterByValue::operation(1, &PropertyKey::Index(2), 0, None, &vm);
    assert_eq!(d.key, PropertyKey::Index(2));
    assert_eq!(d.descriptor.get, None);
    assert_eq!(d.descriptor.set, Some(JsValue::Symbol(4)));
}

#[test]
fn function_name_prefixes() {
    assert_eq!(function_name_prefix(0), None);
    assert_eq!(function_name_prefix(1), Some(NamePrefix::Getter));
    assert_eq!(function_name_prefix(2), Some(NamePrefix::Setter));
    assert_eq!(function_name_prefix(3), None);

    let (mut vm, _) = vm();
    vm.registers[0] = JsValue::Object(0);
    vm.registers[1] = JsValue::String(1);
    let n = SetFunctionName::operation(0, 1, 2, &vm).unwrap();
    assert_eq!(n.function, 0);
    assert_eq!(n.key, PropertyKey::String(1));
    assert_eq!(n.prefix, Some(NamePrefix::Setter));
    vm.registers[0] = JsValue::Undefined;
    assert_eq!(SetFunctionName::operation(0, 1, 2, &vm), Err(PropertyError::NotAnObject));
}

#[test]
fn instance_of_stores_a_boolean() {
    let (mut vm, _) = vm();
    InstanceOf::operation(3, true, &mut vm);
    assert_eq!(vm.registers[3], JsValue::Boolean(true));
}

#[test]
fn by_value_base_check_comes_before_the_key() {
    assert_eq!(check_base(&JsValue::Undefined), Err(PropertyError::NotObjectCoercible));
    assert_eq!(check_base(&JsValue::Null), Err(PropertyError::NotObjectCoercible));
    assert_eq!(check_base(&JsValue::String(0)), Ok(()));
    assert_eq!(check_base(&JsValue::Object(0)), Ok(()));
}
