//! Assignment to bindings by name.
//!
//! Writes into plain declarative environments, and into data properties of
//! the global object that an inline cache remembers, are done here. The
//! rest (resolving a binding on the environment chain, the initialisation
//! check the engine answers, the binding write itself) is handed back to the caller as an action; [`verify_initialized`] then
//! decides which reference error, if any, an uninitialised binding raises.
use vstd::prelude::*;
use vstd::string::StringSliceAdditionalSpecFns;

use crate::inline_cache::Slot;
use crate::property::{
    cached_read_ok, cached_slot, code_same, heap_written, registers_ok, seeded, JsValue, ObjectId,
    StringId, Vm,
};

verus! {

/// Where a binding lives.
#[derive(Clone, Copy, Debug, PartialEq, Eq, Structural)]
pub enum BindingScope {
    /// A property of the global object.
    GlobalObject,
    /// The global declarative environment.
    GlobalDeclarative,
    /// The environment at this index of the environment stack.
    Stack(u32),
}

/// A resolved reference to a binding: its name, where it lives and its
/// index in that environment.
#[derive(Clone, Copy, Debug, PartialEq, Eq, Structural)]
pub struct BindingLocator {
    pub name: StringId,
    pub scope: BindingScope,
    pub binding_index: u32,
}

impl BindingLocator {
    /// Whether the binding is a property of the global object.
    pub fn is_global(&self) -> (r: bool)
        ensures
            r == (self.scope is GlobalObject),
    {
        matches!(self.scope, BindingScope::GlobalObject)
    }
}

/// An environment on the stack.
#[derive(Clone, Debug)]
pub enum Environment {
    /// Bindings by index; `None` is an uninitialised binding.
    Declarative(Vec<Option<JsValue>>),
    /// The bindings are the properties of this object (a `with` scope).
    Object(ObjectId),
}

/// The binding state the name handlers read and write.
pub struct NameState {
    /// The environment stack.
    pub environments: Vec<Environment>,
    /// The global declarative environment.
    pub global: Vec<Option<JsValue>>,
    /// The code block's binding locators, as compiled.
    pub bindings: Vec<BindingLocator>,
    /// The code block's constant strings.
    pub constants: Vec<StringId>,
    /// Locators pushed by an earlier instruction for `SetNameByLocator`.
    pub binding_stack: Vec<BindingLocator>,
    /// Whether compiled locators still describe the environment stack (no
    /// `eval` or `with` has added environments the compiler did not see).
    pub locator_stable: bool,
    /// The global object.
    pub global_object: ObjectId,
}

/// An error the name handlers raise themselves.
#[derive(Clone, Copy, Debug, PartialEq, Eq, Structural)]
pub enum NameError {
    /// `TypeError`: assignment to an immutable binding.
    MutateImmutable { name: StringId },
    /// `ReferenceError`: assignment to an uninitialised global property in
    /// strict code.
    UninitializedGlobalProperty { name: StringId },
    /// `ReferenceError`: assignment to an uninitialised declarative binding.
    UninitializedBinding { name: StringId },
    /// `ReferenceError`: assignment to an uninitialised property of an
    /// object environment in strict code.
    UninitializedProperty { name: StringId },
    /// No locator was pushed for `SetNameByLocator`.
    MissingLocator,
}

/// What an assignment by name asks the caller to do.
#[derive(Clone, Copy, Debug, PartialEq, Eq, Structural)]
pub enum NameAction {
    /// The value was assigned.
    Done,
    /// Resolve `locator` on the environment chain, check it with
    /// [`verify_initialized`], and assign `value` to it.
    Assign { locator: BindingLocator, value: JsValue },
    /// Check the resolved `locator` with [`verify_initialized`] and assign
    /// `value` to it.
    AssignResolved { locator: BindingLocator, value: JsValue },
    /// Check the resolved global-object `locator` with
    /// [`verify_initialized`], assign `value` to it, then
    /// [`finish_set_name_global`] with the slot the write went through.
    AssignGlobal { locator: BindingLocator, value: JsValue },
}

/// The declarative bindings a locator's scope names, when they are plain
/// declarative ones.
pub open spec fn declarative_of(names: &NameState, scope: BindingScope) -> Option<Seq<Option<JsValue>>> {
    match scope {
        BindingScope::Stack(e) => match names.environments@[e as int] {
            Environment::Declarative(b) => Some(b@),
            Environment::Object(_) => None,
        },
        BindingScope::GlobalDeclarative => Some(names.global@),
        BindingScope::GlobalObject => None,
    }
}

/// Whether the fast path of `SetName` assigns binding `index`: the
/// locators are stable and the binding is an initialised one of a plain
/// declarative environment.
pub open spec fn fast_assign(names: &NameState, index: int) -> bool {
    let b = names.bindings@[index];
    &&& names.locator_stable
    &&& declarative_of(names, b.scope) matches Some(env)
    &&& env[b.binding_index as int] is Some
}

/// A locator can be used without panicking: its stack environment exists
/// and its index is in range of a declarative environment.
pub open spec fn locator_ok(names: &NameState, b: BindingLocator) -> bool {
    &&& b.scope matches BindingScope::Stack(e) ==> e < names.environments@.len()
    &&& declarative_of(names, b.scope) matches Some(env) ==> b.binding_index < env.len()
}

/// `after` is `before` with the binding `b` set to `value`.
pub open spec fn binding_assigned(before: &NameState, after: &NameState, b: BindingLocator, value: JsValue) -> bool {
    &&& after.bindings == before.bindings
    &&& after.constants == before.constants
    &&& after.binding_stack == before.binding_stack
    &&& after.locator_stable == before.locator_stable
    &&& after.global_object == before.global_object
    &&& after.environments@.len() == before.environments@.len()
    &&& match b.scope {
        BindingScope::Stack(e) => {
            &&& after.global == before.global
            &&& forall|i: int|
                0 <= i < before.environments@.len() && i != e ==> #[trigger] after.environments@[i]
                    == before.environments@[i]
            &&& after.environments@[e as int] matches Environment::Declarative(nb)
            &&& nb@ == declarative_of(before, b.scope)->0.update(b.binding_index as int, Some(value))
        },
        _ => {
            &&& after.environments == before.environments
            &&& after.global@ == before.global@.update(b.binding_index as int, Some(value))
        },
    }
}

/// Assign `value` to binding `index` of the code block when that can be
/// done without resolving it; otherwise hand `value` back.
pub fn try_set_binding_fast(names: &mut NameState, index: usize, value: JsValue) -> (r: Option<JsValue>)
    requires
        index < old(names).bindings@.len(),
        locator_ok(old(names), old(names).bindings@[index as int]),
    ensures
        fast_assign(old(names), index as int) ==> r is None && binding_assigned(
            old(names),
            final(names),
            old(names).bindings@[index as int],
            value,
        ),
        !fast_assign(old(names), index as int) ==> r == Some(value) && *final(names) == *old(names),
{
    if !names.locator_stable {
        return Some(value);
    }
    let b = names.bindings[index];
    let bi = b.binding_index as usize;
    match b.scope {
        BindingScope::Stack(e) => {
            let initialised = match &names.environments[e as usize] {
                Environment::Declarative(env) => env[bi].is_some(),
                Environment::Object(_) => false,
            };
            if initialised {
                match &mut names.environments[e as usize] {
                    Environment::Declarative(env) => {
                        env.set(bi, Some(value));
                    },
                    Environment::Object(_) => {},
                }
                return None;
            }
            Some(value)
        },
        BindingScope::GlobalDeclarative => {
            if names.global[bi].is_some() {
                names.global.set(bi, Some(value));
                return None;
            }
            Some(value)
        },
        BindingScope::GlobalObject => Some(value),
    }
}

/// `ThrowMutateImmutable`: the error for an assignment to the immutable
/// binding named by constant `index`; [`NameError::message`] gives the text
/// it is raised with.
pub struct ThrowMutateImmutable;

impl ThrowMutateImmutable {
    pub fn operation(index: u32, vm: &Vm) -> (e: NameError)
        requires
            index < vm.names.constants@.len(),
        ensures
            e == (NameError::MutateImmutable { name: vm.names.constants@[index as int] }),
    {
        NameError::MutateImmutable { name: vm.names.constants[index as usize] }
    }
}

/// The error, if any, for an assignment to the binding `locator` that the
/// engine reports uninitialised.
pub open spec fn spec_uninitialized_error(locator: BindingLocator, strict: bool, names: &NameState) -> Option<NameError> {
    let name = locator.name;
    match locator.scope {
        BindingScope::GlobalObject => if strict {
            Some(NameError::UninitializedGlobalProperty { name })
        } else {
            None
        },
        BindingScope::GlobalDeclarative => Some(NameError::UninitializedBinding { name }),
        BindingScope::Stack(e) => match names.environments@[e as int] {
            Environment::Declarative(_) => Some(NameError::UninitializedBinding { name }),
            Environment::Object(_) => if strict {
                Some(NameError::UninitializedProperty { name })
            } else {
                None
            },
        },
    }
}

/// Assigning to an uninitialised binding. A binding of a declarative
/// environment (a `let`, `const` or class binding in its temporal dead
/// zone) is a reference error naming it, in strict and sloppy code alike. A
/// property of the global object or of an object environment is an error
/// naming it only in strict code; sloppy code creates it.
pub proof fn lemma_uninitialized_assignment(locator: BindingLocator, names: NameState, strict: bool)
    requires
        locator.scope matches BindingScope::Stack(e) ==> e < names.environments@.len(),
    ensures
        declarative_of(&names, locator.scope) is Some ==> spec_uninitialized_error(
            locator,
            strict,
            &names,
        ) == Some(NameError::UninitializedBinding { name: locator.name }),
        declarative_of(&names, locator.scope) is Some ==> spec_uninitialized_error(
            locator,
            strict,
            &names,
        ) == spec_uninitialized_error(locator, !strict, &names),
        declarative_of(&names, locator.scope) is None && !strict ==> spec_uninitialized_error(
            locator,
            strict,
            &names,
        ) is None,
        declarative_of(&names, locator.scope) is None && strict ==> spec_uninitialized_error(
            locator,
            strict,
            &names,
        ) == if locator.scope is GlobalObject {
            Some(NameError::UninitializedGlobalProperty { name: locator.name })
        } else {
            Some(NameError::UninitializedProperty { name: locator.name })
        },
{
}

/// An assignment is read back: after setting binding `b` to `value`, `b`
/// holds `value`, and every other binding of a declarative environment
/// holds what it held before.
pub proof fn lemma_assigned_binding_reads_back(
    before: NameState,
    after: NameState,
    b: BindingLocator,
    value: JsValue,
    c: BindingLocator,
)
    requires
        binding_assigned(&before, &after, b, value),
        locator_ok(&before, b),
        declarative_of(&before, b.scope) is Some,
        locator_ok(&before, c),
        declarative_of(&before, c.scope) is Some,
    ensures
        declarative_of(&after, b.scope) matches Some(env) && env[b.binding_index as int] == Some(
            value,
        ),
        !(c.scope == b.scope && c.binding_index == b.binding_index) ==> (declarative_of(
            &after,
            c.scope,
        ) matches Some(env) && env.len() == declarative_of(&before, c.scope)->0.len()
            && env[c.binding_index as int] == declarative_of(&before, c.scope)->0[c.binding_index as int]),
{
}

/// Check the binding `locator` before an assignment, given whether the
/// engine reports it initialised: an uninitialised binding is a reference
/// error, except for sloppy-mode assignments to global or object-environment
/// properties, which create them.
pub fn verify_initialized(locator: &BindingLocator, initialized: bool, vm: &Vm) -> (r: Result<(), NameError>)
    requires
        locator.scope matches BindingScope::Stack(e) ==> e < vm.names.environments@.len(),
    ensures
        initialized ==> r is Ok,
        !initialized ==> r == match spec_uninitialized_error(*locator, vm.strict, &vm.names) {
            Some(e) => Err(e),
            None => Ok(()),
        },
{
    if initialized {
        return Ok(());
    }
    let name = locator.name;
    let error = match locator.scope {
        BindingScope::GlobalObject => {
            if vm.strict {
                Some(NameError::UninitializedGlobalProperty { name })
            } else {
                None
            }
        },
        BindingScope::GlobalDeclarative => Some(NameError::UninitializedBinding { name }),
        BindingScope::Stack(e) => match &vm.names.environments[e as usize] {
            Environment::Declarative(_) => Some(NameError::UninitializedBinding { name }),
            Environment::Object(_) => {
                if vm.strict {
                    Some(NameError::UninitializedProperty { name })
                } else {
                    None
                }
            },
        },
    };
    match error {
        Some(e) => Err(e),
        None => Ok(()),
    }
}

/// The effect of an assignment handler that leaves heap and caches alone.
pub open spec fn names_only(before: &Vm, after: &Vm) -> bool {
    &&& after.registers == before.registers
    &&& after.heap == before.heap
    &&& after.ic == before.ic
    &&& after.element_ic == before.element_ic
    &&& after.strict == before.strict
}

/// `SetName`: find a binding on the environment chain and assign the value
/// in register `value` to it.
pub struct SetName;

impl SetName {
    pub fn operation(value: u32, index: u32, vm: &mut Vm) -> (action: NameAction)
        requires
            value < old(vm).registers@.len(),
            index < old(vm).names.bindings@.len(),
            locator_ok(&old(vm).names, old(vm).names.bindings@[index as int]),
        ensures
            names_only(old(vm), final(vm)),
            fast_assign(&old(vm).names, index as int) ==> action == NameAction::Done
                && binding_assigned(
                &old(vm).names,
                &final(vm).names,
                old(vm).names.bindings@[index as int],
                old(vm).registers@[value as int],
            ),
            !fast_assign(&old(vm).names, index as int) ==> action == (NameAction::Assign {
                locator: old(vm).names.bindings@[index as int],
                value: old(vm).registers@[value as int],
            }) && final(vm).names == old(vm).names,
    {
        let v = vm.registers[value as usize];
        match try_set_binding_fast(&mut vm.names, index as usize, v) {
            None => NameAction::Done,
            Some(v) => NameAction::Assign { locator: vm.names.bindings[index as usize], value: v },
        }
    }
}

/// Whether the global-object fast path of `SetNameGlobal` writes `slot`:
/// a writable data property of the global object itself.
pub open spec fn global_fast_slot(slot: Slot) -> bool {
    &&& !slot.attributes.prototype
    &&& !slot.attributes.get
    &&& !slot.attributes.set
    &&& slot.attributes.writable
}

/// `SetNameGlobal`: assign to a name that was compiled as a global-object
/// property, through inline cache `ic_index` when it still is one. On a
/// cache miss, on a slot the fast path does not write, and when the binding
/// now resolves elsewhere, the assignment takes the ordinary `SetName` path:
/// [`verify_initialized`] on the resolved locator, then the binding write;
/// a write to the global object is then cached by
/// [`finish_set_name_global`].
pub struct SetNameGlobal;

impl SetNameGlobal {
    /// `locator` is the code block's binding `index` after resolution on
    /// the environment chain (run by the caller; it may consult `with`
    /// objects).
    pub fn operation(value: u32, locator: &BindingLocator, ic_index: u32, vm: &mut Vm) -> (action:
        NameAction)
        requires
            value < old(vm).registers@.len(),
            ic_index < old(vm).ic@.len(),
            cached_read_ok(&old(vm).heap, &old(vm).ic@[ic_index as int], old(vm).names.global_object),
        ensures
            final(vm).registers == old(vm).registers,
            final(vm).ic == old(vm).ic,
            final(vm).element_ic == old(vm).element_ic,
            code_same(old(vm), final(vm)),
            ({
                let v = old(vm).registers@[value as int];
                let g = old(vm).names.global_object;
                if !(locator.scope is GlobalObject) {
                    action == (NameAction::AssignResolved { locator: *locator, value: v })
                        && final(vm).heap == old(vm).heap
                } else {
                    match cached_slot(&old(vm).heap, &old(vm).ic@[ic_index as int], g) {
                        Some(slot) => if global_fast_slot(slot) {
                            action == NameAction::Done && heap_written(
                                &old(vm).heap,
                                &final(vm).heap,
                                g,
                                slot.index as int,
                                v,
                            )
                        } else {
                            action == (NameAction::AssignGlobal { locator: *locator, value: v })
                                && final(vm).heap == old(vm).heap
                        },
                        None => action == (NameAction::AssignGlobal { locator: *locator, value: v })
                            && final(vm).heap == old(vm).heap,
                    }
                }
            }),
    {
        let v = vm.registers[value as usize];
        if !locator.is_global() {
            return NameAction::AssignResolved { locator: *locator, value: v };
        }
        let g = vm.names.global_object;
        match vm.ic[ic_index as usize].get(&vm.heap.objects[g].shape, &vm.heap.gc) {
            Some(slot) => {
                let a = slot.attributes;
                if !a.prototype && !a.get && !a.set && a.writable {
                    crate::property::write_storage(&mut vm.heap, g, slot.index as usize, v);
                    return NameAction::Done;
                }
                NameAction::AssignGlobal { locator: *locator, value: v }
            },
            None => NameAction::AssignGlobal { locator: *locator, value: v },
        }
    }
}

/// Completion of the slow path of `SetNameGlobal`, given whether the write
/// to the global object succeeded and the slot it went through: a
/// successful cacheable write seeds inline cache `ic_index` with the global
/// object's shape.
pub fn finish_set_name_global(succeeded: bool, slot: Slot, ic_index: u32, vm: &mut Vm)
    requires
        ic_index < old(vm).ic@.len(),
        old(vm).names.global_object < old(vm).heap.objects@.len(),
    ensures
        !(succeeded && slot.spec_is_cacheable()) ==> *final(vm) == *old(vm),
        succeeded && slot.spec_is_cacheable() ==> seeded(
            &old(vm).ic@[ic_index as int],
            &final(vm).ic@[ic_index as int],
            old(vm).heap.objects@[old(vm).names.global_object as int].shape,
            slot,
            old(vm).heap.gc.live@,
        ),
        final(vm).registers == old(vm).registers,
        final(vm).heap == old(vm).heap,
        final(vm).element_ic == old(vm).element_ic,
        code_same(old(vm), final(vm)),
        final(vm).ic@.len() == old(vm).ic@.len(),
        forall|i: int|
            0 <= i < old(vm).ic@.len() && i != ic_index ==> #[trigger] final(vm).ic@[i] == old(
                vm,
            ).ic@[i],
{
    if succeeded && slot.is_cacheable() {
        let shape = vm.heap.objects[vm.names.global_object].shape;
        vm.ic[ic_index as usize].set(&shape, slot, &vm.heap.gc);
    }
}

/// `SetNameByLocator`: assign the value in register `value` to the binding
/// an earlier instruction pushed.
pub struct SetNameByLocator;

impl SetNameByLocator {
    pub fn operation(value: u32, vm: &mut Vm) -> (r: Result<NameAction, NameError>)
        requires
            value < old(vm).registers@.len(),
        ensures
            names_only(old(vm), final(vm)),
            old(vm).names.binding_stack@.len() == 0 ==> r == Err::<NameAction, NameError>(
                NameError::MissingLocator,
            ) && final(vm).names == old(vm).names,
            old(vm).names.binding_stack@.len() > 0 ==> {
                &&& r == Ok::<NameAction, NameError>(
                    NameAction::AssignResolved {
                        locator: old(vm).names.binding_stack@.last(),
                        value: old(vm).registers@[value as int],
                    },
                )
                &&& final(vm).names.binding_stack@ == old(vm).names.binding_stack@.drop_last()
                &&& final(vm).names.environments == old(vm).names.environments
                &&& final(vm).names.global == old(vm).names.global
                &&& final(vm).names.bindings == old(vm).names.bindings
                &&& final(vm).names.constants == old(vm).names.constants
                &&& final(vm).names.locator_stable == old(vm).names.locator_stable
                &&& final(vm).names.global_object == old(vm).names.global_object
            },
    {
        if vm.names.binding_stack.len() == 0 {
            return Err(NameError::MissingLocator);
        }
        let locator = match vm.names.binding_stack.pop() {
            Some(l) => l,
            None => {
                return Err(NameError::MissingLocator);
            },
        };
        let v = vm.registers[value as usize];
        Ok(NameAction::AssignResolved { locator, value: v })
    }
}

} // verus!

verus! {

/// UTF-16 code units of an ASCII text.
pub open spec fn ascii_units(t: Seq<char>) -> Seq<u16> {
    t.map_values(|c: char| c as u16)
}

/// Whether unit `i` of `s` is a surrogate without its partner.
pub open spec fn unpaired_surrogate(s: Seq<u16>, i: int) -> bool {
    let u = s[i];
    ||| 0xD800 <= u <= 0xDBFF && !(i + 1 < s.len() && 0xDC00 <= s[i + 1] <= 0xDFFF)
    ||| 0xDC00 <= u <= 0xDFFF && !(i > 0 && 0xD800 <= s[i - 1] <= 0xDBFF)
}

/// The upper-case hexadecimal digit for `d < 16`, as a code unit.
pub open spec fn hex_unit(d: int) -> u16 {
    if d < 10 {
        (48 + d) as u16
    } else {
        (55 + d) as u16
    }
}

/// What unit `i` of `s` becomes when the string is shown: itself, or, for
/// an unpaired surrogate, the escape `\uXXXX` with four upper-case digits.
pub open spec fn shown_unit(s: Seq<u16>, i: int) -> Seq<u16> {
    let u = s[i] as int;
    if unpaired_surrogate(s, i) {
        seq![
            92u16,
            117u16,
            hex_unit(u / 4096),
            hex_unit((u / 256) % 16),
            hex_unit((u / 16) % 16),
            hex_unit(u % 16),
        ]
    } else {
        seq![s[i]]
    }
}

/// The first `k` units of `s` as shown.
pub open spec fn shown_upto(s: Seq<u16>, k: int) -> Seq<u16>
    decreases k,
{
    if k <= 0 {
        Seq::empty()
    } else {
        shown_upto(s, k - 1) + shown_unit(s, k - 1)
    }
}

/// A string as error messages show it: well-formed text as it is, each
/// unpaired surrogate escaped.
pub open spec fn shown(s: Seq<u16>) -> Seq<u16> {
    shown_upto(s, s.len() as int)
}

/// The message text of `error`, whose names are indices into `strings`:
/// the text before the name, the name as shown, and the text after it.
pub open spec fn spec_message(error: NameError, strings: Seq<Seq<u16>>) -> Option<Seq<u16>> {
    match error {
        NameError::MutateImmutable { name } => Some(
            ascii_units("cannot mutate an immutable binding '"@) + shown(strings[name as int])
                + ascii_units("'"@),
        ),
        NameError::UninitializedGlobalProperty { name } => Some(
            ascii_units("cannot assign to uninitialized global property `"@) + shown(
                strings[name as int],
            ) + ascii_units("`"@),
        ),
        NameError::UninitializedBinding { name } => Some(
            ascii_units("cannot assign to uninitialized binding `"@) + shown(strings[name as int])
                + ascii_units("`"@),
        ),
        NameError::UninitializedProperty { name } => Some(
            ascii_units("cannot assign to uninitialized property `"@) + shown(strings[name as int])
                + ascii_units("`"@),
        ),
        NameError::MissingLocator => None,
    }
}

/// Append the units of the ASCII text `text` to `out`.
fn push_ascii(out: &mut Vec<u16>, text: &str)
    requires
        text.is_ascii(),
    ensures
        final(out)@ == old(out)@ + ascii_units(text@),
{
    broadcast use vstd::string::is_ascii_spec_bytes;

    let bytes = text.as_bytes();
    assert(bytes@ == text.spec_bytes());
    assert(vstd::string::is_ascii(text));
    let ghost start = out@;
    let mut i: usize = 0;
    while i < bytes.len()
        invariant
            bytes@ =~= Seq::new(text@.len(), |k: int| text@[k] as u8),
            vstd::string::is_ascii(text),
            i <= bytes@.len(),
            out@ =~= start + ascii_units(text@.subrange(0, i as int)),
        decreases bytes@.len() - i,
    {
        let b = bytes[i];
        let ghost c = text@[i as int];
        assert('\0' <= c <= '\u{7f}');
        assert(b as u16 == c as u16);
        out.push(b as u16);
        i = i + 1;
        assert(ascii_units(text@.subrange(0, i as int)) =~= ascii_units(
            text@.subrange(0, i as int - 1),
        ).push(c as u16));
    }
    assert(text@.subrange(0, i as int) =~= text@);
}

/// The digit `d < 16` as an upper-case hexadecimal code unit.
fn hex_digit(d: u16) -> (u: u16)
    requires
        d < 16,
    ensures
        u == hex_unit(d as int),
{
    if d < 10 {
        48 + d
    } else {
        55 + d
    }
}

/// Append `s` as shown (see [`shown`]) to `out`.
fn push_shown(out: &mut Vec<u16>, s: &Vec<u16>)
    ensures
        final(out)@ == old(out)@ + shown(s@),
{
    let ghost start = out@;
    let n = s.len();
    let mut i: usize = 0;
    while i < n
        invariant
            n == s@.len(),
            i <= n,
            out@ =~= start + shown_upto(s@, i as int),
        decreases n - i,
    {
        let u = s[i];
        let high = 0xD800 <= u && u <= 0xDBFF;
        let low = 0xDC00 <= u && u <= 0xDFFF;
        let next_low = i + 1 < n && 0xDC00 <= s[i + 1] && s[i + 1] <= 0xDFFF;
        let prev_high = i > 0 && 0xD800 <= s[i - 1] && s[i - 1] <= 0xDBFF;
        let ghost before = out@;
        if (high && !next_low) || (low && !prev_high) {
            assert(unpaired_surrogate(s@, i as int));
            out.push(92);
            out.push(117);
            out.push(hex_digit(u / 4096));
            out.push(hex_digit((u / 256) % 16));
            out.push(hex_digit((u / 16) % 16));
            out.push(hex_digit(u % 16));
            assert(out@ =~= before + shown_unit(s@, i as int));
        } else {
            assert(!unpaired_surrogate(s@, i as int));
            out.push(u);
            assert(out@ =~= before + shown_unit(s@, i as int));
        }
        assert(shown_upto(s@, i + 1) == shown_upto(s@, i as int) + shown_unit(s@, i as int));
        i = i + 1;
    }
}

impl NameError {
    /// The message the error carries when it is raised, as UTF-16 code
    /// units; `None` for [`NameError::MissingLocator`], an internal error.
    pub fn message(&self, strings: &Vec<Vec<u16>>) -> (m: Option<Vec<u16>>)
        requires
            match *self {
                NameError::MutateImmutable { name } => name < strings@.len(),
                NameError::UninitializedGlobalProperty { name } => name < strings@.len(),
                NameError::UninitializedBinding { name } => name < strings@.len(),
                NameError::UninitializedProperty { name } => name < strings@.len(),
                NameError::MissingLocator => true,
            },
        ensures
            match (m, spec_message(*self, strings@.map_values(|v: Vec<u16>| v@))) {
                (Some(a), Some(b)) => a@ == b,
                (None, None) => true,
                _ => false,
            },
    {
        let (before, name, after) = match *self {
            NameError::MutateImmutable { name } => ("cannot mutate an immutable binding '", name, "'"),
            NameError::UninitializedGlobalProperty { name } => (
                "cannot assign to uninitialized global property `",
                name,
                "`",
            ),
            NameError::UninitializedBinding { name } => (
                "cannot assign to uninitialized binding `",
                name,
                "`",
            ),
            NameError::UninitializedProperty { name } => (
                "cannot assign to uninitialized property `",
                name,
                "`",
            ),
            NameError::MissingLocator => {
                return None;
            },
        };
        proof {
            reveal_strlit("cannot mutate an immutable binding '");
            reveal_strlit("cannot assign to uninitialized global property `");
            reveal_strlit("cannot assign to uninitialized binding `");
            reveal_strlit("cannot assign to uninitialized property `");
            reveal_strlit("'");
            reveal_strlit("`");
        }
        assert(before.is_ascii());
        assert(after.is_ascii());
        let mut out: Vec<u16> = Vec::new();
        push_ascii(&mut out, before);
        push_shown(&mut out, &strings[name]);
        push_ascii(&mut out, after);
        assert(strings@.map_values(|v: Vec<u16>| v@)[name as int] == strings@[name as int]@);
        Some(out)
    }
}

} // verus!
