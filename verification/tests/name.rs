//! Assignment to bindings by name.

use boa_vm::inline_cache::{GcHeap, InlineCache, Slot, SlotAttributes};
use boa_vm::name::{
    finish_set_name_global, try_set_binding_fast, verify_initialized, BindingLocator, BindingScope, Environment,
    NameAction, NameError, NameState, SetName, SetNameByLocator, SetNameGlobal,
    ThrowMutateImmutable,
};
use boa_vm::property::{ElementInlineCache, Heap, IndexedProperties, JsValue, ObjectData, Vm};

fn vm() -> Vm {
    let mut gc = GcHeap::new();
    let shape = gc.alloc_shape(0x40, None);
    let global = ObjectData {
        shape,
        storage: vec![JsValue::Integer32(0)],
        is_array: false,
        extensible: true,
        indexed_properties: IndexedProperties::SparseProperty,
        elements: Vec::new(),
    };
    let names = NameState {
        environments: vec![
            Environment::Declarative(vec![Some(JsValue::Null), None]),
            Environment::Object(0),
        ],
        global: vec![Some(JsValue::Boolean(false)), None],
        bindings: vec![
            BindingLocator { name: 10, scope: BindingScope::Stack(0), binding_index: 0 },
            BindingLocator { name: 11, scope: BindingScope::Stack(0), binding_index: 1 },
            BindingLocator { name: 12, scope: BindingScope::GlobalDeclarative, binding_index: 0 },
            BindingLocator { name: 13, scope: BindingScope::GlobalObject, binding_index: 0 },
            BindingLocator { name: 14, scope: BindingScope::Stack(1), binding_index: 0 },
        ],
        constants: vec![21, 22],
        binding_stack: Vec::new(),
        locator_stable: true,
        global_object: 0,
    };
    Vm {
        registers: vec![JsValue::Integer32(5), JsValue::Undefined],
        heap: Heap { objects: vec![global], strings: Vec::new(), gc },
        ic: vec![InlineCache::new("g".to_string())],
        strict: false,
        element_ic: vec![ElementInlineCache::new()],
        names,
    }
}

fn declarative(vm: &Vm, e: usize) -> Vec<Option<JsValue>> {
    match &vm.names.environments[e] {
        Environment::Declarative(b) => b.clone(),
        Environment::Object(_) => panic!("not declarative"),
    }
}

#[test]
fn set_name_writes_initialised_declarative_bindings() {
    let mut vm = vm();
    assert_eq!(SetName::operation(0, 0, &mut vm), NameAction::Done);
    assert_eq!(declarative(&vm, 0)[0], Some(JsValue::Integer32(5)));
    assert_eq!(SetName::operation(0, 2, &mut vm), NameAction::Done);
    assert_eq!(vm.names.global[0], Some(JsValue::Integer32(5)));
}

#[test]
fn set_name_hands_back_what_needs_resolution() {
    let mut vm = vm();
    let value = JsValue::Integer32(5);
    for index in [1u32, 3, 4] {
        let locator = vm.names.bindings[index as usize];
        assert_eq!(SetName::operation(0, index, &mut vm), NameAction::Assign { locator, value });
    }
    assert_eq!(declarative(&vm, 0)[1], None);

    vm.names.locator_stable = false;
    let locator = vm.names.bindings[0];
    assert_eq!(SetName::operation(0, 0, &mut vm), NameAction::Assign { locator, value });
    assert_eq!(declarative(&vm, 0)[0], Some(JsValue::Null));
}

#[test]
fn fast_binding_write_gives_the_value_back_when_it_cannot_write() {
    let mut state = vm().names;
    assert_eq!(try_set_binding_fast(&mut state, 2, JsValue::Null), None);
    assert_eq!(try_set_binding_fast(&mut state, 3, JsValue::Null), Some(JsValue::Null));
}

#[test]
fn mutate_immutable_names_the_binding() {
    let vm = vm();
    assert_eq!(ThrowMutateImmutable::operation(1, &vm), NameError::MutateImmutable { name: 22 });
}

#[test]
fn uninitialised_bindings_raise_reference_errors() {
    let mut vm = vm();
    let b = vm.names.bindings.clone();
    assert_eq!(verify_initialized(&b[1], true, &vm), Ok(()));
    assert_eq!(
        verify_initialized(&b[1], false, &vm),
        Err(NameError::UninitializedBinding { name: 11 })
    );
    assert_eq!(
        verify_initialized(&b[2], false, &vm),
        Err(NameError::UninitializedBinding { name: 12 })
    );
    // Sloppy assignments to global and object-environment properties
    // create them.
    assert_eq!(verify_initialized(&b[3], false, &vm), Ok(()));
    assert_eq!(verify_initialized(&b[4], false, &vm), Ok(()));
    vm.strict = true;
    assert_eq!(
        verify_initialized(&b[3], false, &vm),
        Err(NameError::UninitializedGlobalProperty { name: 13 })
    );
    assert_eq!(
        verify_initialized(&b[4], false, &vm),
        Err(NameError::UninitializedProperty { name: 14 })
    );
}

#[test]
fn set_name_global_writes_through_the_cache() {
    let mut vm = vm();
    let global = vm.names.bindings[3];
    // A cold cache: the ordinary assignment, then the write is cached.
    assert_eq!(
        SetNameGlobal::operation(0, &global, 0, &mut vm),
        NameAction::AssignGlobal { locator: global, value: JsValue::Integer32(5) }
    );
    let shape = vm.heap.objects[0].shape;
    let slot = Slot {
        index: 0,
        attributes: SlotAttributes {
            writable: true,
            enumerable: true,
            configurable: false,
            get: false,
            set: false,
            prototype: false,
            found: true,
            not_cachable: false,
        },
    };
    finish_set_name_global(true, slot, 0, &mut vm);
    assert_eq!(vm.ic[0].get(&shape, &vm.heap.gc), Some(slot));
    assert_eq!(SetNameGlobal::operation(0, &global, 0, &mut vm), NameAction::Done);
    assert_eq!(vm.heap.objects[0].storage[0], JsValue::Integer32(5));

    // A failed or uncacheable write is not cached.
    let mut cold = self::vm();
    finish_set_name_global(false, slot, 0, &mut cold);
    assert!(cold.ic[0].get(&shape, &cold.heap.gc).is_none());
    let mut uncacheable = slot;
    uncacheable.attributes.not_cachable = true;
    finish_set_name_global(true, uncacheable, 0, &mut cold);
    assert!(cold.ic[0].get(&shape, &cold.heap.gc).is_none());

    // A read-only slot takes the ordinary `SetName` path.
    let mut read_only = slot;
    read_only.attributes.writable = false;
    let mut vm2 = self::vm();
    let gc = vm2.heap.gc.clone();
    vm2.ic[0].set(&shape, read_only, &gc);
    assert_eq!(
        SetNameGlobal::operation(0, &global, 0, &mut vm2),
        NameAction::AssignGlobal { locator: global, value: JsValue::Integer32(5) }
    );

    // Rebound outside the global object: the ordinary assignment.
    let rebound = vm.names.bindings[4];
    assert_eq!(
        SetNameGlobal::operation(0, &rebound, 0, &mut vm),
        NameAction::AssignResolved { locator: rebound, value: JsValue::Integer32(5) }
    );
}

#[test]
fn set_name_global_miss_in_strict_code_is_a_reference_error() {
    // The global object has no property `name` yet, the cache is cold and
    // the code is strict: the miss goes through the initialisation check.
    let mut vm = vm();
    vm.strict = true;
    let global = vm.names.bindings[3];
    let before = vm.heap.objects[0].storage.clone();
    let action = SetNameGlobal::operation(0, &global, 0, &mut vm);
    assert_eq!(action, NameAction::AssignGlobal { locator: global, value: JsValue::Integer32(5) });
    assert_eq!(
        verify_initialized(&global, false, &vm),
        Err(NameError::UninitializedGlobalProperty { name: 13 })
    );
    assert_eq!(vm.heap.objects[0].storage, before);
}

#[test]
fn set_name_by_locator_pops_the_pushed_locator() {
    let mut vm = vm();
    assert_eq!(SetNameByLocator::operation(0, &mut vm), Err(NameError::MissingLocator));
    let locator = vm.names.bindings[2];
    vm.names.binding_stack.push(locator);
    assert_eq!(
        SetNameByLocator::operation(0, &mut vm),
        Ok(NameAction::AssignResolved { locator, value: JsValue::Integer32(5) })
    );
    assert!(vm.names.binding_stack.is_empty());
}

fn utf16(s: &str) -> Vec<u16> {
    s.encode_utf16().collect()
}

#[test]
fn error_messages_name_the_binding() {
    let strings = vec![utf16("x"), vec![0x61, 0xD800, 0x62], utf16("a\u{1F600}")];
    assert_eq!(
        NameError::MutateImmutable { name: 0 }.message(&strings),
        Some(utf16("cannot mutate an immutable binding 'x'"))
    );
    assert_eq!(
        NameError::UninitializedGlobalProperty { name: 0 }.message(&strings),
        Some(utf16("cannot assign to uninitialized global property `x`"))
    );
    assert_eq!(
        NameError::UninitializedBinding { name: 2 }.message(&strings),
        Some(utf16("cannot assign to uninitialized binding `a\u{1F600}`"))
    );
    // An unpaired surrogate is shown escaped.
    assert_eq!(
        NameError::UninitializedProperty { name: 1 }.message(&strings),
        Some(utf16("cannot assign to uninitialized property `a\\uD800b`"))
    );
    assert_eq!(NameError::MissingLocator.message(&strings), None);
}
