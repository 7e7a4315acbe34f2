//! Address bookkeeping for the Move-elision pass: where each opcode stores
//! bytecode addresses, the set of every offset a control-flow edge can land
//! on, and the byte-removal rewriter that deletes dead `Move`s.
//!
//! Jump destinations are absolute byte offsets, so deleting bytes shifts
//! every later offset; the rewriter remaps every stored address (jump
//! operands, jump tables, handler ranges, source-map PCs) through one
//! monotonic old-to-new offset map.
use vstd::prelude::*;

use crate::bytecode::{
    instr_len, instr_ok, lemma_starts, lemma_write_read, lemma_write_shift, le_u32, op_at,
    read_u32, seq_write, starts_from, wf_from, write_u32, Address, Bytecode, Entry, Handler,
    Opcode,
};
use super::{find_safe_move_elisions, safe_move_elisions, Elision};
use super::control_flow::jump_destinations;
use thin_vec::ThinVec;

verus! {

/// Where a given opcode stores bytecode address operand(s), if any.
#[derive(Clone, Copy, Debug, PartialEq, Eq, Structural)]
pub enum AddrKind {
    /// No address operands.
    NoAddress,
    /// A single address operand immediately after the opcode byte.
    Single,
    /// `JumpTable`: a `u32` index at `pc + 1`, the array length at `pc + 5`
    /// and the addresses from `pc + 9`.
    Table,
}

pub open spec fn spec_address_kind(opcode: Opcode) -> AddrKind {
    match opcode {
        Opcode::Jump | Opcode::JumpIfTrue | Opcode::JumpIfFalse | Opcode::JumpIfNotUndefined
        | Opcode::JumpIfNullOrUndefined | Opcode::JumpIfNotLessThan
        | Opcode::JumpIfNotLessThanOrEqual | Opcode::JumpIfNotGreaterThan
        | Opcode::JumpIfNotGreaterThanOrEqual | Opcode::JumpIfNotEqual | Opcode::Case
        | Opcode::TemplateLookup | Opcode::LogicalAnd | Opcode::LogicalOr | Opcode::Coalesce =>
            AddrKind::Single,
        Opcode::JumpTable => AddrKind::Table,
        _ => AddrKind::NoAddress,
    }
}

/// Classify an opcode's address layout.
pub fn address_kind(opcode: Opcode) -> (k: AddrKind)
    ensures
        k == spec_address_kind(opcode),
{
    match opcode {
        Opcode::Jump | Opcode::JumpIfTrue | Opcode::JumpIfFalse | Opcode::JumpIfNotUndefined
        | Opcode::JumpIfNullOrUndefined | Opcode::JumpIfNotLessThan
        | Opcode::JumpIfNotLessThanOrEqual | Opcode::JumpIfNotGreaterThan
        | Opcode::JumpIfNotGreaterThanOrEqual | Opcode::JumpIfNotEqual | Opcode::Case
        | Opcode::TemplateLookup | Opcode::LogicalAnd | Opcode::LogicalOr | Opcode::Coalesce =>
            AddrKind::Single,
        Opcode::JumpTable => AddrKind::Table,
        _ => AddrKind::NoAddress,
    }
}

/// Opcodes with a single address keep it inside their fixed-size encoding.
pub proof fn lemma_single_address_fits(opcode: Opcode)
    requires
        spec_address_kind(opcode) == AddrKind::Single,
    ensures
        opcode.spec_fixed_operand_bytes() >= 4,
        opcode != Opcode::JumpTable,
{
}

/// Offsets of the address operands of the instruction at `pc`.
pub open spec fn slots_at(s: Seq<u8>, pc: int) -> Seq<int> {
    match spec_address_kind(op_at(s, pc)) {
        AddrKind::NoAddress => Seq::empty(),
        AddrKind::Single => seq![pc + 1],
        AddrKind::Table => Seq::new(le_u32(s, pc + 5) as nat, |i: int| pc + 9 + 4 * i),
    }
}

/// Offsets of every address operand of the instructions from `pc` on.
pub open spec fn slots_from(s: Seq<u8>, pc: int) -> Seq<int>
    decreases s.len() - pc,
{
    if 0 <= pc < s.len() && instr_ok(s, pc) {
        slots_at(s, pc) + slots_from(s, pc + instr_len(s, pc))
    } else {
        Seq::empty()
    }
}

/// The two control-flow entry points of each handler: `start` and `end`.
pub open spec fn handler_points(h: Seq<Handler>) -> Seq<u32>
    decreases h.len(),
{
    if h.len() == 0 {
        Seq::empty()
    } else {
        handler_points(h.drop_last()) + seq![h.last().start.0, h.last().end.0]
    }
}

/// Every offset some control-flow edge can land on, with repetitions:
/// each jump, branch and jump-table destination, then each handler's
/// `start` and `end`.
pub open spec fn target_seq(s: Seq<u8>, h: Seq<Handler>) -> Seq<u32> {
    slots_from(s, 0).map_values(|slot: int| le_u32(s, slot)) + handler_points(h)
}

pub open spec fn strictly_sorted(v: Seq<u32>) -> bool {
    forall|i: int, j: int| 0 <= i < j < v.len() ==> v[i] < v[j]
}

/// The address slots of every instruction, in order.
pub fn for_each_address_slot(bytecode: &Bytecode) -> (slots: Vec<usize>)
    requires
        bytecode.wf(),
    ensures
        slots@.map_values(|x: usize| x as int) == slots_from(bytecode.bytes@, 0),
        forall|i: int| 0 <= i < slots@.len() ==> #[trigger] slots@[i] + 4 <= bytecode.bytes@.len(),
{
    let ghost s = bytecode.bytes@;
    let bytes = &bytecode.bytes;
    let n = bytes.len();
    let mut out: Vec<usize> = Vec::new();
    let mut pc: usize = 0;
    assert(out@.map_values(|x: usize| x as int) + slots_from(s, 0) =~= slots_from(s, 0));
    while pc < n
        invariant
            n == s.len(),
            s == bytecode.bytes@,
            bytes == &bytecode.bytes,
            pc <= n,
            wf_from(s, pc as int),
            out@.map_values(|x: usize| x as int) + slots_from(s, pc as int) == slots_from(s, 0),
            forall|i: int| 0 <= i < out@.len() ==> #[trigger] out@[i] + 4 <= n,
        decreases n - pc,
    {
        let ghost before = out@;
        let opcode = Opcode::decode(bytes[pc]);
        match address_kind(opcode) {
            AddrKind::NoAddress => {},
            AddrKind::Single => {
                proof {
                    lemma_single_address_fits(opcode);
                }
                out.push(pc + 1);
            },
            AddrKind::Table => {
                let len = read_u32(bytes, pc + 5) as usize;
                let mut i: usize = 0;
                while i < len
                    invariant
                        n == s.len(),
                        s == bytecode.bytes@,
                        pc < n,
                        instr_ok(s, pc as int),
                        op_at(s, pc as int) == Opcode::JumpTable,
                        len == le_u32(s, pc + 5),
                        i <= len,
                        out@ == before + Seq::new(i as nat, |k: int| (pc + 9 + 4 * k) as usize),
                        forall|k: int| 0 <= k < out@.len() ==> #[trigger] out@[k] + 4 <= n,
                    decreases len - i,
                {
                    out.push(pc + 9 + i * 4);
                    proof {
                        assert(out@ =~= before + Seq::new(
                            (i + 1) as nat,
                            |k: int| (pc + 9 + 4 * k) as usize,
                        ));
                    }
                    i = i + 1;
                }
            },
        }
        let next = bytecode.next_instruction(pc);
        proof {
            assert(out@.map_values(|x: usize| x as int) =~= before.map_values(|x: usize| x as int)
                + slots_at(s, pc as int));
            assert(slots_from(s, pc as int) == slots_at(s, pc as int) + slots_from(
                s,
                next as int,
            ));
            assert(out@.map_values(|x: usize| x as int) + slots_from(s, next as int)
                =~= before.map_values(|x: usize| x as int) + slots_from(s, pc as int));
        }
        pc = next;
    }
    assert(slots_from(s, n as int) == Seq::<int>::empty());
    assert(out@.map_values(|x: usize| x as int) =~= out@.map_values(|x: usize| x as int)
        + slots_from(s, n as int));
    out
}

pub proof fn lemma_push_contains<A>(s: Seq<A>, a: A, y: A)
    ensures
        s.push(a).contains(y) <==> (s.contains(y) || y == a),
{
    if s.push(a).contains(y) {
        let k = choose|k: int| 0 <= k < s.push(a).len() && s.push(a)[k] == y;
        if k < s.len() {
            assert(s[k] == y);
        }
    }
    if s.contains(y) {
        let k = choose|k: int| 0 <= k < s.len() && s[k] == y;
        assert(s.push(a)[k] == y);
    }
    if y == a {
        assert(s.push(a)[s.len() as int] == y);
    }
}

/// Index of the first element of the sorted `v` that is not below `x`.
pub fn lower_bound(v: &Vec<u32>, x: u32) -> (r: usize)
    requires
        strictly_sorted(v@),
    ensures
        r <= v@.len(),
        forall|i: int| 0 <= i < r ==> v@[i] < x,
        forall|i: int| r <= i < v@.len() ==> v@[i] >= x,
{
    let mut lo: usize = 0;
    let mut hi: usize = v.len();
    while lo < hi
        invariant
            lo <= hi <= v@.len(),
            strictly_sorted(v@),
            forall|i: int| 0 <= i < lo ==> v@[i] < x,
            forall|i: int| hi <= i < v@.len() ==> v@[i] >= x,
        decreases hi - lo,
    {
        let mid = lo + (hi - lo) / 2;
        if v[mid] < x {
            lo = mid + 1;
        } else {
            hi = mid;
        }
    }
    lo
}

/// Membership in a strictly sorted vector, by binary search.
pub fn sorted_contains(v: &Vec<u32>, x: u32) -> (r: bool)
    requires
        strictly_sorted(v@),
    ensures
        r == v@.contains(x),
{
    let pos = lower_bound(v, x);
    if pos < v.len() && v[pos] == x {
        true
    } else {
        proof {
            if v@.contains(x) {
                let k = choose|k: int| 0 <= k < v@.len() && v@[k] == x;
                if k >= pos {
                    if k > pos {
                        assert(v@[pos as int] < v@[k]);
                    }
                }
            }
        }
        false
    }
}

/// Add `x` to the strictly sorted set `v`.
pub fn insert_sorted(v: &mut Vec<u32>, x: u32)
    requires
        strictly_sorted(old(v)@),
    ensures
        strictly_sorted(final(v)@),
        forall|y: u32| final(v)@.contains(y) <==> (old(v)@.contains(y) || y == x),
{
    let pos = lower_bound(v, x);
    if pos < v.len() && v[pos] == x {
        assert(v@.contains(x));
        assert(forall|y: u32| v@.contains(y) <==> (old(v)@.contains(y) || y == x));
    } else {
        let ghost o = v@;
        v.insert(pos, x);
        assert(o == old(v)@);
        assert(v@ == o.insert(pos as int, x));
        proof {
            assert forall|i: int, j: int| 0 <= i < j < v@.len() implies v@[i] < v@[j] by {
                if i == pos && j > pos {
                    assert(o[j - 1] >= x);
                    if j - 1 > pos {
                        assert(o[pos as int] < o[j - 1]);
                    }
                }
            }
            assert forall|y: u32| v@.contains(y) <==> (old(v)@.contains(y) || y == x) by {
                lemma_insert_contains(o, pos as int, x, y);
            }
        }
    }
}

pub proof fn lemma_insert_contains(o: Seq<u32>, pos: int, x: u32, y: u32)
    requires
        0 <= pos <= o.len(),
    ensures
        o.insert(pos, x).contains(y) <==> (o.contains(y) || y == x),
{
    let v = o.insert(pos, x);
    if o.contains(y) {
        let k = choose|k: int| 0 <= k < o.len() && o[k] == y;
        if k < pos {
            assert(v[k] == y);
        } else {
            assert(v[k + 1] == y);
        }
    }
    if y == x {
        assert(v[pos] == x);
    }
    if v.contains(y) {
        let k = choose|k: int| 0 <= k < v.len() && v[k] == y;
        if k < pos {
            assert(o[k] == y);
        } else if k > pos {
            assert(o[k - 1] == y);
        }
    }
}

/// Every offset that some control-flow edge can land on, sorted and
/// without repetitions: the destination of every jump, branch and
/// jump-table entry, plus each handler's `start` and catch entry `end`.
pub fn jump_targets(bytecode: &Bytecode, handlers: &[Handler]) -> (targets: Vec<u32>)
    requires
        bytecode.wf(),
    ensures
        strictly_sorted(targets@),
        forall|x: u32| targets@.contains(x) <==> target_seq(bytecode.bytes@, handlers@).contains(x),
{
    let ghost s = bytecode.bytes@;
    let slots = for_each_address_slot(bytecode);
    let ghost addrs = slots_from(s, 0).map_values(|slot: int| le_u32(s, slot));
    let mut targets: Vec<u32> = Vec::new();
    let mut i: usize = 0;
    while i < slots.len()
        invariant
            s == bytecode.bytes@,
            slots@.map_values(|x: usize| x as int) == slots_from(s, 0),
            forall|k: int| 0 <= k < slots@.len() ==> #[trigger] slots@[k] + 4 <= s.len(),
            addrs == slots_from(s, 0).map_values(|slot: int| le_u32(s, slot)),
            i <= slots@.len(),
            strictly_sorted(targets@),
            forall|x: u32| targets@.contains(x) <==> addrs.subrange(0, i as int).contains(x),
        decreases slots@.len() - i,
    {
        let a = read_u32(&bytecode.bytes, slots[i]);
        insert_sorted(&mut targets, a);
        proof {
            assert(slots@.map_values(|x: usize| x as int)[i as int] == slots@[i as int] as int);
            assert(addrs[i as int] == a);
            assert(addrs.subrange(0, i + 1) =~= addrs.subrange(0, i as int).push(a));
            assert forall|x: u32| targets@.contains(x) <==> addrs.subrange(0, i + 1).contains(x) by {
                lemma_push_contains(addrs.subrange(0, i as int), a, x);
            }
        }
        i = i + 1;
    }
    assert(addrs.len() == slots@.len());
    assert(addrs.subrange(0, i as int) =~= addrs);
    let mut j: usize = 0;
    while j < handlers.len()
        invariant
            j <= handlers@.len(),
            strictly_sorted(targets@),
            forall|x: u32|
                targets@.contains(x) <==> (addrs.contains(x) || handler_points(
                    handlers@.subrange(0, j as int),
                ).contains(x)),
        decreases handlers@.len() - j,
    {
        let h = handlers[j];
        insert_sorted(&mut targets, h.start.0);
        insert_sorted(&mut targets, h.end.0);
        proof {
            let hs = handlers@.subrange(0, j + 1);
            assert(hs.drop_last() =~= handlers@.subrange(0, j as int));
            let p = handler_points(hs);
            let q = handler_points(handlers@.subrange(0, j as int));
            assert(p == q + seq![h.start.0, h.end.0]);
            assert forall|x: u32| p.contains(x) <==> (q.contains(x) || x == h.start.0 || x
                == h.end.0) by {
                if p.contains(x) {
                    let k = choose|k: int| 0 <= k < p.len() && p[k] == x;
                    if k < q.len() {
                        assert(q[k] == x);
                    }
                }
                if q.contains(x) {
                    let k = choose|k: int| 0 <= k < q.len() && q[k] == x;
                    assert(p[k] == x);
                }
                if x == h.start.0 {
                    assert(p[q.len() as int] == x);
                }
                if x == h.end.0 {
                    assert(p[q.len() as int + 1] == x);
                }
            }
            assert forall|x: u32|
                targets@.contains(x) <==> (addrs.contains(x) || p.contains(x)) by {
            }
        }
        j = j + 1;
    }
    assert(handlers@.subrange(0, j as int) =~= handlers@);
    proof {
        let t = target_seq(s, handlers@);
        let hp = handler_points(handlers@);
        assert(t == addrs + hp);
        assert forall|x: u32|
            targets@.contains(x) <==> target_seq(bytecode.bytes@, handlers@).contains(x) by {
            assert(targets@.contains(x) <==> (addrs.contains(x) || hp.contains(x)));
            if t.contains(x) {
                let k = choose|k: int| 0 <= k < t.len() && t[k] == x;
                if k < addrs.len() {
                    assert(addrs[k] == x);
                } else {
                    assert(hp[k - addrs.len()] == x);
                }
            }
            if addrs.contains(x) {
                let k = choose|k: int| 0 <= k < addrs.len() && addrs[k] == x;
                assert(t[k] == x);
            }
            if hp.contains(x) {
                let k = choose|k: int| 0 <= k < hp.len() && hp[k] == x;
                assert(t[k + addrs.len()] == x);
            }
        }
    }
    targets
}

/// Whether some elision deletes the `Move` at `pc`.
pub open spec fn moves_removed(el: Seq<Elision>, pc: int) -> bool {
    exists|j: int| 0 <= j < el.len() && el[j].move_pc as int == pc
}

/// Size of the rewritten bytecode before the `k`-th old instruction: the
/// total length of the instructions before it that survive.
pub open spec fn kept_len(s: Seq<u8>, el: Seq<Elision>, k: int) -> int
    decreases k,
{
    if k <= 0 {
        0
    } else {
        let pc = starts_from(s, 0)[k - 1];
        kept_len(s, el, k - 1) + if moves_removed(el, pc) {
            0
        } else {
            instr_len(s, pc)
        }
    }
}

/// The old-to-new offset map: an instruction start goes to where the first
/// surviving instruction at or after it lands, the end of the buffer to the
/// end of the new buffer, and any other offset to 0.
pub open spec fn remap(s: Seq<u8>, el: Seq<Elision>, addr: int) -> int {
    let st = starts_from(s, 0);
    if addr == s.len() {
        kept_len(s, el, st.len() as int)
    } else if st.contains(addr) {
        kept_len(s, el, st.index_of(addr))
    } else {
        0
    }
}

/// The first elision whose consumer sits at `pc`, scanning from `j`.
pub open spec fn patch_from(el: Seq<Elision>, pc: int, j: int) -> Option<Elision>
    decreases el.len() - j,
{
    if j < 0 || j >= el.len() {
        None
    } else if el[j].op_pc as int == pc {
        Some(el[j])
    } else {
        patch_from(el, pc, j + 1)
    }
}

pub open spec fn patch_for(el: Seq<Elision>, pc: int) -> Option<Elision> {
    patch_from(el, pc, 0)
}

/// `x` (one `JumpTable` instruction) with its first `i` addresses remapped.
pub open spec fn remap_table(s: Seq<u8>, el: Seq<Elision>, x: Seq<u8>, i: int) -> Seq<u8>
    decreases i,
{
    if i <= 0 {
        x
    } else {
        let y = remap_table(s, el, x, i - 1);
        seq_write(y, 9 + 4 * (i - 1), remap(s, el, le_u32(y, 9 + 4 * (i - 1)) as int) as u32)
    }
}

/// The consumer patch of the instruction at `pc`, if it has one.
pub open spec fn patched_instr(s: Seq<u8>, el: Seq<Elision>, pc: int) -> Seq<u8> {
    let raw = s.subrange(pc, pc + instr_len(s, pc));
    match patch_for(el, pc) {
        Some(e) => seq_write(raw, 1 + 4 * e.op_operand_idx, e.src),
        None => raw,
    }
}

/// The bytes that the instruction at `pc` becomes: the consumer operand
/// retargeted to `src`, and every address remapped.
pub open spec fn rewritten_instr(s: Seq<u8>, el: Seq<Elision>, pc: int) -> Seq<u8> {
    let patched = patched_instr(s, el, pc);
    match spec_address_kind(op_at(s, pc)) {
        AddrKind::NoAddress => patched,
        AddrKind::Single => seq_write(
            patched,
            1,
            remap(s, el, le_u32(patched, 1) as int) as u32,
        ),
        AddrKind::Table => remap_table(s, el, patched, le_u32(patched, 5) as int),
    }
}

/// The rewritten bytes of the first `k` old instructions.
pub open spec fn rewrite_upto(s: Seq<u8>, el: Seq<Elision>, k: int) -> Seq<u8>
    decreases k,
{
    if k <= 0 {
        Seq::empty()
    } else {
        let pc = starts_from(s, 0)[k - 1];
        rewrite_upto(s, el, k - 1) + if moves_removed(el, pc) {
            Seq::empty()
        } else {
            rewritten_instr(s, el, pc)
        }
    }
}

/// Each elision deletes a `Move` that starts an instruction, and patches a
/// register operand of the listed consumer that follows it.
pub open spec fn elisions_shaped(s: Seq<u8>, el: Seq<Elision>) -> bool {
    forall|j: int|
        #![trigger el[j]]
        0 <= j < el.len() ==> exists|k: int|
            {
                &&& 0 <= k
                &&& k + 1 < starts_from(s, 0).len()
                &&& #[trigger] starts_from(s, 0)[k] == el[j].move_pc as int
                &&& starts_from(s, 0)[k + 1] == el[j].op_pc as int
                &&& op_at(s, el[j].move_pc as int) == Opcode::Move
                &&& super::operand_info::spec_operand_info(op_at(s, el[j].op_pc as int)) is Some
                &&& el[j].op_operand_idx < super::operand_info::spec_operand_info(
                    op_at(s, el[j].op_pc as int),
                ).unwrap().len()
            }
}

/// Every stored address (jump operands, table entries, handler ranges and
/// source-map pcs) lies within the buffer or at its end.
pub open spec fn addresses_in_range(
    s: Seq<u8>,
    handlers: Seq<Handler>,
    entries: Seq<Entry>,
) -> bool {
    &&& forall|k: int, i: int|
        0 <= k < starts_from(s, 0).len() && 0 <= i < slots_at(s, starts_from(s, 0)[k]).len()
            ==> le_u32(s, #[trigger] slots_at(s, starts_from(s, 0)[k])[i]) <= s.len()
    &&& forall|i: int|
        0 <= i < handlers.len() ==> (#[trigger] handlers[i]).start.0 <= s.len()
            && handlers[i].end.0 <= s.len()
    &&& forall|i: int| 0 <= i < entries.len() ==> (#[trigger] entries[i]).pc <= s.len()
}

/// Whether some elision deletes the instruction at `pc`, as a vector of
/// flags indexed by offset.
fn removal_flags(old_len: usize, elisions: &[Elision]) -> (remove: Vec<bool>)
    requires
        forall|j: int| 0 <= j < elisions@.len() ==> (#[trigger] elisions@[j]).move_pc < old_len,
    ensures
        remove@.len() == old_len,
        forall|a: int| 0 <= a < old_len ==> #[trigger] remove@[a] == moves_removed(elisions@, a),
{
    let mut remove: Vec<bool> = Vec::new();
    let mut i: usize = 0;
    while i < old_len
        invariant
            i <= old_len,
            remove@.len() == i,
            forall|a: int| 0 <= a < i ==> !#[trigger] remove@[a],
        decreases old_len - i,
    {
        remove.push(false);
        i = i + 1;
    }
    let mut j: usize = 0;
    while j < elisions.len()
        invariant
            j <= elisions@.len(),
            remove@.len() == old_len,
            forall|q: int| 0 <= q < elisions@.len() ==> (#[trigger] elisions@[q]).move_pc < old_len,
            forall|a: int|
                0 <= a < old_len ==> #[trigger] remove@[a] == exists|q: int|
                    0 <= q < j && elisions@[q].move_pc as int == a,
        decreases elisions@.len() - j,
    {
        let pc = elisions[j].move_pc as usize;
        remove.set(pc, true);
        proof {
            assert forall|a: int| 0 <= a < old_len implies #[trigger] remove@[a] == exists|q: int|
                0 <= q < j + 1 && elisions@[q].move_pc as int == a by {
                if a == pc as int {
                    assert(elisions@[j as int].move_pc as int == a);
                }
            }
        }
        j = j + 1;
    }
    remove
}

/// A patch found for `pc` is an elision whose consumer is at `pc`.
pub proof fn lemma_patch_from(el: Seq<Elision>, pc: int, j: int)
    requires
        patch_from(el, pc, j) is Some,
    ensures
        exists|q: int|
            0 <= q < el.len() && el[q] == patch_from(el, pc, j).unwrap() && el[q].op_pc as int
                == pc,
    decreases el.len() - j,
{
    if el[j].op_pc as int == pc {
        assert(el[j] == patch_from(el, pc, j).unwrap());
    } else {
        lemma_patch_from(el, pc, j + 1);
    }
}

/// A consumer that gets patched has register-operand metadata, hence no
/// address operands, and the patched slot lies inside the instruction.
pub proof fn lemma_patch_shape(s: Seq<u8>, el: Seq<Elision>, pc: int)
    requires
        elisions_shaped(s, el),
        patch_for(el, pc) is Some,
    ensures
        super::operand_info::spec_operand_info(op_at(s, pc)) is Some,
        spec_address_kind(op_at(s, pc)) == AddrKind::NoAddress,
        op_at(s, pc) != Opcode::JumpTable,
        1 + 4 * patch_for(el, pc).unwrap().op_operand_idx + 4 <= instr_len(s, pc),
{
    lemma_patch_from(el, pc, 0);
    let q = choose|q: int|
        0 <= q < el.len() && el[q] == patch_from(el, pc, 0).unwrap() && el[q].op_pc as int == pc;
    assert(el[q] == el[q]);
    super::operand_info::lemma_operand_info_layout(op_at(s, pc));
}

/// Remapping table entries leaves every other byte and the length alone.
pub proof fn lemma_remap_table_frame(s: Seq<u8>, el: Seq<Elision>, x: Seq<u8>, i: int)
    requires
        0 <= i,
        9 + 4 * i <= x.len(),
    ensures
        remap_table(s, el, x, i).len() == x.len(),
        forall|p: int|
            0 <= p < x.len() && !(9 <= p < 9 + 4 * i) ==> #[trigger] remap_table(s, el, x, i)[p]
                == x[p],
    decreases i,
{
    if i > 0 {
        lemma_remap_table_frame(s, el, x, i - 1);
        let y = remap_table(s, el, x, i - 1);
        lemma_write_read(y, 9 + 4 * (i - 1), remap(s, el, le_u32(y, 9 + 4 * (i - 1)) as int) as u32);
    }
}

/// The offset map, as a vector indexed by old offset (`0..=old_len`), and
/// the length of the rewritten bytecode.
fn offset_map(bytecode: &Bytecode, remove: &Vec<bool>, elisions: &[Elision]) -> (r: (Vec<u32>, u32))
    requires
        bytecode.wf(),
        bytecode.bytes@.len() < u32::MAX,
        remove@.len() == bytecode.bytes@.len(),
        forall|a: int|
            0 <= a < bytecode.bytes@.len() ==> #[trigger] remove@[a] == moves_removed(elisions@, a),
    ensures
        r.0@.len() == bytecode.bytes@.len() + 1,
        forall|a: int|
            0 <= a <= bytecode.bytes@.len() ==> #[trigger] r.0@[a] == remap(
                bytecode.bytes@,
                elisions@,
                a,
            ) as u32,
        r.1 == kept_len(bytecode.bytes@, elisions@, starts_from(bytecode.bytes@, 0).len() as int),
        forall|a: int|
            0 <= a <= bytecode.bytes@.len() ==> remap(bytecode.bytes@, elisions@, a) <= r.1,
{
    let ghost s = bytecode.bytes@;
    let ghost el = elisions@;
    let ghost st = starts_from(s, 0);
    proof {
        lemma_starts(s, 0);
    }
    let old_len = bytecode.bytes.len();
    let mut old_to_new: Vec<u32> = Vec::new();
    let mut i: usize = 0;
    while i <= old_len
        invariant
            i <= old_len + 1,
            old_len == s.len(),
            s.len() < u32::MAX,
            old_to_new@.len() == i,
            forall|a: int| 0 <= a < i ==> #[trigger] old_to_new@[a] == 0,
        decreases old_len + 1 - i,
    {
        old_to_new.push(0);
        i = i + 1;
    }
    let mut new_len: u32 = 0;
    let mut pc: usize = 0;
    let ghost mut k: int = 0;
    assert(starts_from(s, 0) =~= st.subrange(0, st.len() as int));
    while pc < old_len
        invariant
            old_len == s.len(),
            s == bytecode.bytes@,
            s.len() <= u32::MAX,
            st == starts_from(s, 0),
            remove@.len() == s.len(),
            forall|a: int| 0 <= a < s.len() ==> #[trigger] remove@[a] == moves_removed(el, a),
            el == elisions@,
            forall|i: int|
                0 <= i < st.len() ==> 0 <= #[trigger] st[i] < s.len() && instr_ok(s, st[i]),
            forall|i: int, j: int| 0 <= i < j < st.len() ==> st[i] < st[j],
            pc <= old_len,
            0 <= k <= st.len(),
            wf_from(s, pc as int),
            starts_from(s, pc as int) == st.subrange(k, st.len() as int),
            new_len == kept_len(s, el, k),
            new_len <= pc,
            old_to_new@.len() == old_len + 1,
            forall|a: int|
                0 <= a <= old_len ==> #[trigger] old_to_new@[a] == (if st.contains(a)
                    && st.index_of(a) < k {
                    kept_len(s, el, st.index_of(a)) as u32
                } else {
                    0u32
                }),
            forall|i: int| 0 <= i < k ==> kept_len(s, el, i) <= new_len,
        decreases old_len - pc,
    {
        let next = bytecode.next_instruction(pc);
        proof {
            assert(starts_from(s, pc as int) == seq![pc as int] + starts_from(s, next as int));
            assert(starts_from(s, pc as int).len() > 0);
            assert(k < st.len());
            assert(st.subrange(k, st.len() as int)[0] == st[k]);
            assert(st[k] == pc);
            let t = st.subrange(k, st.len() as int);
            assert(t == seq![pc as int] + starts_from(s, next as int));
            assert(starts_from(s, next as int) =~= t.subrange(1, t.len() as int));
            assert(t.subrange(1, t.len() as int) =~= st.subrange(k + 1, st.len() as int));
            assert(st.contains(pc as int));
            assert(st.index_of(pc as int) == k) by {
                let c = st.index_of(pc as int);
                if c < k || c > k {
                    assert(st[c] != st[k]);
                }
            }
        }
        old_to_new.set(pc, new_len);
        if !remove[pc] {
            new_len = new_len + (next - pc) as u32;
        }
        proof {
            assert forall|a: int| 0 <= a <= old_len implies #[trigger] old_to_new@[a] == (if st.contains(a)
                && st.index_of(a) < k + 1 {
                kept_len(s, el, st.index_of(a)) as u32
            } else {
                0u32
            }) by {
                if a != pc as int && st.contains(a) && st.index_of(a) == k {
                    assert(st[st.index_of(a)] == a);
                }
            }
        }
        pc = next;
        proof {
            k = k + 1;
        }
    }
    proof {
        assert(st.subrange(k, st.len() as int).len() == 0);
        assert(k == st.len());
        assert(!st.contains(old_len as int));
    }
    old_to_new.set(old_len, new_len);
    proof {
        assert forall|a: int| 0 <= a <= old_len implies #[trigger] old_to_new@[a] == remap(
            s,
            el,
            a,
        ) as u32 by {}
        assert forall|a: int| 0 <= a <= old_len implies remap(s, el, a) <= new_len by {
            if a != old_len && st.contains(a) {
                assert(0 <= st.index_of(a) < k);
            }
        }
    }
    (old_to_new, new_len)
}

pub proof fn lemma_le_subrange(s: Seq<u8>, a: int, b: int, p: int)
    requires
        0 <= a <= b <= s.len(),
        0 <= p,
        a + p + 4 <= b,
    ensures
        le_u32(s.subrange(a, b), p) == le_u32(s, a + p),
{
    let t = s.subrange(a, b);
    assert(t[p] == s[a + p]);
    assert(t[p + 1] == s[a + p + 1]);
    assert(t[p + 2] == s[a + p + 2]);
    assert(t[p + 3] == s[a + p + 3]);
}

/// The jump-table entry `i` of `x` is untouched by remapping the entries
/// before it.
pub proof fn lemma_remap_table_entry(s: Seq<u8>, el: Seq<Elision>, x: Seq<u8>, i: int)
    requires
        0 <= i,
        9 + 4 * (i + 1) <= x.len(),
    ensures
        le_u32(remap_table(s, el, x, i), 9 + 4 * i) == le_u32(x, 9 + 4 * i),
{
    lemma_remap_table_frame(s, el, x, i);
    let y = remap_table(s, el, x, i);
    assert(y[9 + 4 * i] == x[9 + 4 * i]);
    assert(y[9 + 4 * i + 1] == x[9 + 4 * i + 1]);
    assert(y[9 + 4 * i + 2] == x[9 + 4 * i + 2]);
    assert(y[9 + 4 * i + 3] == x[9 + 4 * i + 3]);
}

/// Append the rewritten form of the instruction at `pc`.
fn append_rewritten(
    bytecode: &Bytecode,
    old_to_new: &Vec<u32>,
    elisions: &[Elision],
    pc: usize,
    next: usize,
    out: &mut Vec<u8>,
    Ghost(k): Ghost<int>,
    Ghost(handlers): Ghost<Seq<Handler>>,
    Ghost(entries): Ghost<Seq<Entry>>,
)
    requires
        bytecode.wf(),
        bytecode.bytes@.len() < u32::MAX,
        old_to_new@.len() == bytecode.bytes@.len() + 1,
        forall|a: int|
            0 <= a <= bytecode.bytes@.len() ==> #[trigger] old_to_new@[a] == remap(
                bytecode.bytes@,
                elisions@,
                a,
            ) as u32,
        elisions_shaped(bytecode.bytes@, elisions@),
        addresses_in_range(bytecode.bytes@, handlers, entries),
        0 <= k < starts_from(bytecode.bytes@, 0).len(),
        starts_from(bytecode.bytes@, 0)[k] == pc,
        instr_ok(bytecode.bytes@, pc as int),
        next == pc + instr_len(bytecode.bytes@, pc as int),
    ensures
        final(out)@ == old(out)@ + rewritten_instr(bytecode.bytes@, elisions@, pc as int),
{
    let ghost s = bytecode.bytes@;
    let ghost el = elisions@;
    let ghost st = starts_from(s, 0);
    let bytes = &bytecode.bytes;
    let ghost before = out@;
    let ghost raw = s.subrange(pc as int, next as int);
    let start = out.len();
    let mut q: usize = pc;
    while q < next
        invariant
            pc <= q <= next <= s.len(),
            s == bytecode.bytes@,
            bytes == &bytecode.bytes,
            out@ == before + s.subrange(pc as int, q as int),
        decreases next - q,
    {
        out.push(bytes[q]);
        proof {
            assert(out@ =~= before + s.subrange(pc as int, q + 1));
        }
        q = q + 1;
    }
    let patch = find_patch(elisions, pc as u32);
    let ghost patched = patched_instr(s, el, pc as int);
    match patch {
        Some(e) => {
            proof {
                lemma_patch_shape(s, el, pc as int);
                lemma_write_shift(before, raw, 1 + 4 * e.op_operand_idx, e.src);
            }
            let _n = out.len();
            write_u32(out, start + 1 + e.op_operand_idx * 4, e.src);
        },
        None => {},
    }
    assert(out@ == before + patched);
    assert(patched.len() == instr_len(s, pc as int)) by {
        if patch is Some {
            lemma_patch_shape(s, el, pc as int);
            lemma_write_read(raw, 1 + 4 * patch->0.op_operand_idx, patch->0.src);
        }
    }
    let opcode = Opcode::decode(bytes[pc]);
    match address_kind(opcode) {
        AddrKind::NoAddress => {},
        AddrKind::Single => {
            proof {
                lemma_single_address_fits(opcode);
                if patch is Some {
                    lemma_patch_shape(s, el, pc as int);
                }
                assert(patched == raw);
                lemma_write_shift(before, patched, 1, 0);
                lemma_le_subrange(s, pc as int, next as int, 1);
                assert(slots_at(s, st[k]) == seq![pc + 1]);
                assert(slots_at(s, st[k])[0] == pc + 1);
                assert(le_u32(s, slots_at(s, st[k])[0]) <= s.len());
            }
            let _n = out.len();
            let a = read_u32(&*out, start + 1);
            let v = old_to_new[a as usize];
            proof {
                lemma_write_shift(before, patched, 1, v);
            }
            write_u32(out, start + 1, v);
        },
        AddrKind::Table => {
            proof {
                if patch is Some {
                    lemma_patch_shape(s, el, pc as int);
                }
                assert(patched == raw);
                lemma_write_shift(before, patched, 5, 0);
                lemma_le_subrange(s, pc as int, next as int, 5);
            }
            let _n = out.len();
            let len = read_u32(&*out, start + 5) as usize;
            let mut i: usize = 0;
            assert(out@ == before + remap_table(s, el, patched, 0));
            while i < len
                invariant
                    s == bytecode.bytes@,
                    s.len() < u32::MAX,
                    el == elisions@,
                    st == starts_from(s, 0),
                    0 <= k < st.len(),
                    st[k] == pc,
                    instr_ok(s, pc as int),
                    op_at(s, pc as int) == Opcode::JumpTable,
                    next == pc + instr_len(s, pc as int),
                    raw == s.subrange(pc as int, next as int),
                    patched == raw,
                    len == le_u32(s, pc + 5),
                    start == before.len(),
                    i <= len,
                    out@ == before + remap_table(s, el, patched, i as int),
                    old_to_new@.len() == s.len() + 1,
                    forall|a: int|
                        0 <= a <= s.len() ==> #[trigger] old_to_new@[a] == remap(s, el, a)
                            as u32,
                    addresses_in_range(s, handlers, entries),
                decreases len - i,
            {
                let ghost y = remap_table(s, el, patched, i as int);
                proof {
                    lemma_remap_table_frame(s, el, patched, i as int);
                    lemma_remap_table_entry(s, el, patched, i as int);
                    lemma_write_shift(before, y, 9 + 4 * i, 0);
                    lemma_le_subrange(s, pc as int, next as int, 9 + 4 * i);
                    assert(slots_at(s, st[k])[i as int] == pc + 9 + 4 * i);
                    assert(le_u32(s, slots_at(s, st[k])[i as int]) <= s.len());
                }
                let _n = out.len();
                let off = start + 9 + i * 4;
                let a = read_u32(&*out, off);
                let v = old_to_new[a as usize];
                proof {
                    lemma_write_shift(before, y, 9 + 4 * i, v);
                }
                write_u32(out, off, v);
                i = i + 1;
            }
        },
    }
    assert(out@ == before + rewritten_instr(s, el, pc as int));
}

/// The bytes of the rewritten bytecode: every surviving instruction in
/// order, consumers retargeted and addresses remapped through `old_to_new`.
fn emit_rewritten(
    bytecode: &Bytecode,
    remove: &Vec<bool>,
    old_to_new: &Vec<u32>,
    elisions: &[Elision],
    Ghost(handlers): Ghost<Seq<Handler>>,
    Ghost(entries): Ghost<Seq<Entry>>,
) -> (out: Vec<u8>)
    requires
        bytecode.wf(),
        bytecode.bytes@.len() < u32::MAX,
        remove@.len() == bytecode.bytes@.len(),
        forall|a: int|
            0 <= a < bytecode.bytes@.len() ==> #[trigger] remove@[a] == moves_removed(elisions@, a),
        old_to_new@.len() == bytecode.bytes@.len() + 1,
        forall|a: int|
            0 <= a <= bytecode.bytes@.len() ==> #[trigger] old_to_new@[a] == remap(
                bytecode.bytes@,
                elisions@,
                a,
            ) as u32,
        elisions_shaped(bytecode.bytes@, elisions@),
        addresses_in_range(bytecode.bytes@, handlers, entries),
    ensures
        out@ == rewrite_upto(
            bytecode.bytes@,
            elisions@,
            starts_from(bytecode.bytes@, 0).len() as int,
        ),
{
    let ghost s = bytecode.bytes@;
    let ghost el = elisions@;
    let ghost st = starts_from(s, 0);
    proof {
        lemma_starts(s, 0);
    }
    let bytes = &bytecode.bytes;
    let old_len = bytes.len();
    let mut out: Vec<u8> = Vec::new();
    let mut pc: usize = 0;
    let ghost mut k: int = 0;
    assert(starts_from(s, 0) =~= st.subrange(0, st.len() as int));
    while pc < old_len
        invariant
            bytecode.wf(),
            old_len == s.len(),
            s == bytecode.bytes@,
            bytes == &bytecode.bytes,
            s.len() < u32::MAX,
            st == starts_from(s, 0),
            el == elisions@,
            remove@.len() == s.len(),
            forall|a: int| 0 <= a < s.len() ==> #[trigger] remove@[a] == moves_removed(el, a),
            old_to_new@.len() == s.len() + 1,
            forall|a: int| 0 <= a <= s.len() ==> #[trigger] old_to_new@[a] == remap(s, el, a) as u32,
            elisions_shaped(s, el),
            addresses_in_range(s, handlers, entries),
            forall|i: int|
                0 <= i < st.len() ==> 0 <= #[trigger] st[i] < s.len() && instr_ok(s, st[i]),
            pc <= old_len,
            0 <= k <= st.len(),
            wf_from(s, pc as int),
            starts_from(s, pc as int) == st.subrange(k, st.len() as int),
            out@ == rewrite_upto(s, el, k),
        decreases old_len - pc,
    {
        let next = bytecode.next_instruction(pc);
        proof {
            assert(starts_from(s, pc as int) == seq![pc as int] + starts_from(s, next as int));
            assert(starts_from(s, pc as int).len() > 0);
            assert(k < st.len());
            let t = st.subrange(k, st.len() as int);
            assert(t[0] == st[k]);
            assert(st[k] == pc);
            assert(starts_from(s, next as int) =~= t.subrange(1, t.len() as int));
            assert(t.subrange(1, t.len() as int) =~= st.subrange(k + 1, st.len() as int));
        }
        if !remove[pc] {
            append_rewritten(bytecode, old_to_new, elisions, pc, next, &mut out, Ghost(k), Ghost(handlers), Ghost(entries));
        }
        proof {
            assert(out@ =~= rewrite_upto(s, el, k + 1));
        }
        pc = next;
        proof {
            k = k + 1;
        }
    }
    proof {
        assert(st.subrange(k, st.len() as int).len() == 0);
    }
    out
}

#[verifier::external_type_specification]
#[verifier::external_body]
#[verifier::reject_recursive_types(T)]
pub struct ExThinVec<T>(ThinVec<T>);

/// The handlers a `ThinVec<Handler>` holds, in order.
pub uninterp spec fn handler_list(v: ThinVec<Handler>) -> Seq<Handler>;

/// `ThinVec::new`: an empty vector (no allocation).
#[verifier::external_body]
fn handler_list_new() -> (v: ThinVec<Handler>)
    ensures
        handler_list(v) == Seq::<Handler>::empty(),
{
    ThinVec::new()
}

/// `ThinVec::push`: appends `h` at the back.
#[verifier::external_body]
fn handler_list_push(v: &mut ThinVec<Handler>, h: Handler)
    ensures
        handler_list(*final(v)) == handler_list(*old(v)).push(h),
{
    v.push(h)
}

/// `ThinVec::as_slice`: the elements, in order.
#[verifier::external_body]
fn handler_list_as_slice(v: &ThinVec<Handler>) -> (r: &[Handler])
    ensures
        r@ == handler_list(*v),
{
    v.as_slice()
}

/// A handler with both ends remapped.
pub open spec fn remap_handler(s: Seq<u8>, el: Seq<Elision>, h: Handler) -> Handler {
    Handler {
        start: Address(remap(s, el, h.start.0 as int) as u32),
        end: Address(remap(s, el, h.end.0 as int) as u32),
        environment_count: h.environment_count,
    }
}

/// A source-map entry with its pc remapped.
pub open spec fn remap_entry(s: Seq<u8>, el: Seq<Elision>, e: Entry) -> Entry {
    Entry { pc: remap(s, el, e.pc as int) as u32, position: e.position }
}

/// Collapse each run of consecutive entries with equal pcs to its last entry.
pub open spec fn dedup_keep_last(v: Seq<Entry>) -> Seq<Entry>
    decreases v.len(),
{
    if v.len() == 0 {
        Seq::empty()
    } else {
        let r = dedup_keep_last(v.drop_last());
        if r.len() > 0 && r.last().pc == v.last().pc {
            r.drop_last().push(v.last())
        } else {
            r.push(v.last())
        }
    }
}

/// Handler ranges through the offset map.
fn remap_handlers(
    handlers: &[Handler],
    old_to_new: &Vec<u32>,
    Ghost(s): Ghost<Seq<u8>>,
    Ghost(el): Ghost<Seq<Elision>>,
) -> (r: ThinVec<Handler>)
    requires
        old_to_new@.len() == s.len() + 1,
        forall|a: int| 0 <= a <= s.len() ==> #[trigger] old_to_new@[a] == remap(s, el, a) as u32,
        forall|i: int|
            0 <= i < handlers@.len() ==> (#[trigger] handlers@[i]).start.0 <= s.len()
                && handlers@[i].end.0 <= s.len(),
    ensures
        handler_list(r) == handlers@.map_values(|h: Handler| remap_handler(s, el, h)),
{
    let mut out = handler_list_new();
    let mut i: usize = 0;
    while i < handlers.len()
        invariant
            i <= handlers@.len(),
            old_to_new@.len() == s.len() + 1,
            forall|a: int| 0 <= a <= s.len() ==> #[trigger] old_to_new@[a] == remap(s, el, a) as u32,
            forall|j: int|
                0 <= j < handlers@.len() ==> (#[trigger] handlers@[j]).start.0 <= s.len()
                    && handlers@[j].end.0 <= s.len(),
            handler_list(out) == handlers@.subrange(0, i as int).map_values(
                |h: Handler| remap_handler(s, el, h),
            ),
        decreases handlers@.len() - i,
    {
        let h = handlers[i];
        let start = old_to_new[h.start.0 as usize];
        let end = old_to_new[h.end.0 as usize];
        handler_list_push(
            &mut out,
            Handler {
                start: Address(start),
                end: Address(end),
                environment_count: h.environment_count,
            },
        );
        proof {
            assert(handlers@.subrange(0, i + 1).map_values(|h: Handler| remap_handler(s, el, h))
                =~= handlers@.subrange(0, i as int).map_values(
                |h: Handler| remap_handler(s, el, h),
            ).push(remap_handler(s, el, h)));
        }
        i = i + 1;
    }
    assert(handlers@.subrange(0, i as int) =~= handlers@);
    out
}

/// Source-map entries through the offset map; where several old pcs land
/// on one new pc, the last entry is kept, since it belongs to the
/// surviving instruction at that offset.
fn remap_entries(
    entries: &[Entry],
    old_to_new: &Vec<u32>,
    Ghost(s): Ghost<Seq<u8>>,
    Ghost(el): Ghost<Seq<Elision>>,
) -> (r: Vec<Entry>)
    requires
        old_to_new@.len() == s.len() + 1,
        forall|a: int| 0 <= a <= s.len() ==> #[trigger] old_to_new@[a] == remap(s, el, a) as u32,
        forall|i: int| 0 <= i < entries@.len() ==> (#[trigger] entries@[i]).pc <= s.len(),
    ensures
        r@ == dedup_keep_last(entries@.map_values(|e: Entry| remap_entry(s, el, e))),
{
    let ghost mapped = entries@.map_values(|e: Entry| remap_entry(s, el, e));
    let mut out: Vec<Entry> = Vec::new();
    let mut i: usize = 0;
    while i < entries.len()
        invariant
            i <= entries@.len(),
            old_to_new@.len() == s.len() + 1,
            forall|a: int| 0 <= a <= s.len() ==> #[trigger] old_to_new@[a] == remap(s, el, a) as u32,
            forall|j: int| 0 <= j < entries@.len() ==> (#[trigger] entries@[j]).pc <= s.len(),
            mapped == entries@.map_values(|e: Entry| remap_entry(s, el, e)),
            out@ == dedup_keep_last(mapped.subrange(0, i as int)),
        decreases entries@.len() - i,
    {
        let entry = entries[i];
        let e = Entry { pc: old_to_new[entry.pc as usize], position: entry.position };
        proof {
            let m = mapped.subrange(0, i + 1);
            assert(m.drop_last() =~= mapped.subrange(0, i as int));
            assert(m.last() == e);
        }
        let n = out.len();
        if n > 0 && out[n - 1].pc == e.pc {
            out.set(n - 1, e);
            proof {
                assert(out@ =~= dedup_keep_last(mapped.subrange(0, i as int)).drop_last().push(e));
            }
        } else {
            out.push(e);
        }
        i = i + 1;
    }
    assert(mapped.subrange(0, i as int) =~= mapped);
    out
}

/// The consumer patch for the instruction at `pc`, if any.
fn find_patch(elisions: &[Elision], pc: u32) -> (r: Option<Elision>)
    ensures
        r == patch_for(elisions@, pc as int),
{
    let mut j: usize = 0;
    while j < elisions.len()
        invariant
            j <= elisions@.len(),
            patch_for(elisions@, pc as int) == patch_from(elisions@, pc as int, j as int),
        decreases elisions@.len() - j,
    {
        if elisions[j].op_pc == pc {
            return Some(elisions[j]);
        }
        j = j + 1;
    }
    None
}

/// Every elision the analysis finds has the shape the rewriter relies on.
pub proof fn lemma_elisions_shaped(s: Seq<u8>, handlers: Seq<Handler>, n: int)
    requires
        wf_from(s, 0),
        s.len() <= u32::MAX,
        0 <= n <= super::listing(s).len(),
    ensures
        elisions_shaped(
            s,
            super::elisions_upto(super::listing(s), n, target_seq(s, handlers)),
        ),
        forall|j: int|
            0 <= j < super::elisions_upto(super::listing(s), n, target_seq(s, handlers)).len()
                ==> (#[trigger] super::elisions_upto(
                super::listing(s),
                n,
                target_seq(s, handlers),
            )[j]).move_pc < s.len(),
    decreases n,
{
    let l = super::listing(s);
    let t = target_seq(s, handlers);
    let st = starts_from(s, 0);
    lemma_starts(s, 0);
    if n > 0 {
        lemma_elisions_shaped(s, handlers, n - 1);
        let prev = super::elisions_upto(l, n - 1, t);
        let cur = super::elisions_upto(l, n, t);
        match super::candidate(l, n - 1, t) {
            Some(e) => {
                let i = n - 1;
                assert(cur == prev.push(e));
                assert(l[i] == super::listing_line(s, st[i]));
                assert(l[i + 1] == super::listing_line(s, st[i + 1]));
                assert(e.move_pc as int == st[i]);
                assert(e.op_pc as int == st[i + 1]);
                let ops = l[i + 1].2;
                let idx = choose|idx: int| super::occurs_once_at(ops, e.dst, idx);
                assert(super::occurs_once_at(ops, e.dst, idx));
                assert forall|j: int| #![trigger cur[j]] 0 <= j < cur.len() implies exists|k: int|
                    {
                        &&& 0 <= k
                        &&& k + 1 < starts_from(s, 0).len()
                        &&& #[trigger] starts_from(s, 0)[k] == cur[j].move_pc as int
                        &&& starts_from(s, 0)[k + 1] == cur[j].op_pc as int
                        &&& op_at(s, cur[j].move_pc as int) == Opcode::Move
                        &&& super::operand_info::spec_operand_info(
                            op_at(s, cur[j].op_pc as int),
                        ) is Some
                        &&& cur[j].op_operand_idx < super::operand_info::spec_operand_info(
                            op_at(s, cur[j].op_pc as int),
                        ).unwrap().len()
                    } by {
                    if j < prev.len() {
                        assert(cur[j] == prev[j]);
                    } else {
                        assert(cur[j] == e);
                        assert(starts_from(s, 0)[i] == e.move_pc as int);
                    }
                }
                assert forall|j: int| 0 <= j < cur.len() implies (#[trigger] cur[j]).move_pc
                    < s.len() by {
                    if j < prev.len() {
                        assert(cur[j] == prev[j]);
                    }
                }
            },
            None => {
                assert(cur =~= prev);
            },
        }
    }
}

/// The rewritten form of an instruction is as long as the instruction it replaces.
pub proof fn lemma_rewritten_len(s: Seq<u8>, el: Seq<Elision>, pc: int)
    requires
        elisions_shaped(s, el),
        instr_ok(s, pc),
    ensures
        rewritten_instr(s, el, pc).len() == instr_len(s, pc),
        patched_instr(s, el, pc).len() == instr_len(s, pc),
{
    let raw = s.subrange(pc, pc + instr_len(s, pc));
    if patch_for(el, pc) is Some {
        lemma_patch_shape(s, el, pc);
        let e = patch_for(el, pc).unwrap();
        lemma_write_read(raw, 1 + 4 * e.op_operand_idx, e.src);
    }
    let patched = patched_instr(s, el, pc);
    match spec_address_kind(op_at(s, pc)) {
        AddrKind::NoAddress => {},
        AddrKind::Single => {
            lemma_single_address_fits(op_at(s, pc));
            lemma_write_read(patched, 1, remap(s, el, le_u32(patched, 1) as int) as u32);
        },
        AddrKind::Table => {
            if patch_for(el, pc) is Some {
                lemma_patch_shape(s, el, pc);
            }
            lemma_le_subrange(s, pc, pc + instr_len(s, pc), 5);
            lemma_remap_table_frame(s, el, patched, le_u32(patched, 5) as int);
        },
    }
}

/// The rewritten prefix of `k` instructions is `kept_len(k)` bytes long,
/// and extends every shorter rewritten prefix.
pub proof fn lemma_rewrite_prefix(s: Seq<u8>, el: Seq<Elision>, k: int, m: int)
    requires
        elisions_shaped(s, el),
        0 <= m <= k <= starts_from(s, 0).len(),
    ensures
        rewrite_upto(s, el, k).len() == kept_len(s, el, k),
        0 <= kept_len(s, el, m) <= kept_len(s, el, k),
        rewrite_upto(s, el, k).subrange(0, kept_len(s, el, m)) == rewrite_upto(s, el, m),
    decreases k,
{
    lemma_starts(s, 0);
    if k > 0 {
        let pc = starts_from(s, 0)[k - 1];
        lemma_rewritten_len(s, el, pc);
        if m < k {
            lemma_rewrite_prefix(s, el, k - 1, m);
            lemma_rewrite_prefix(s, el, k - 1, k - 1);
            assert(rewrite_upto(s, el, k).subrange(0, kept_len(s, el, m)) =~= rewrite_upto(
                s,
                el,
                k - 1,
            ).subrange(0, kept_len(s, el, m)));
        } else {
            lemma_rewrite_prefix(s, el, k - 1, k - 1);
            assert(rewrite_upto(s, el, k).subrange(0, kept_len(s, el, k)) =~= rewrite_upto(
                s,
                el,
                k,
            ));
        }
    } else {
        assert(rewrite_upto(s, el, k).subrange(0, 0) =~= rewrite_upto(s, el, 0));
    }
}

/// Rewriting maps the start of old instruction `k` to `kept_len(k)`.
pub proof fn lemma_remap_start(s: Seq<u8>, el: Seq<Elision>, k: int)
    requires
        0 <= k < starts_from(s, 0).len(),
    ensures
        remap(s, el, starts_from(s, 0)[k]) == kept_len(s, el, k),
{
    lemma_starts(s, 0);
    let st = starts_from(s, 0);
    assert(st.contains(st[k]));
    let c = st.index_of(st[k]);
    if c != k {
        assert(st[c] != st[k]);
    }
}

/// Where jumps land after the rewrite: the bytes at the remapped start of
/// every surviving old instruction are that instruction's rewritten form,
/// and a deleted `Move` remaps to the same place as the instruction after
/// it.
pub proof fn lemma_elide_moves_lands(s: Seq<u8>, h: Seq<Handler>, k: int)
    requires
        wf_from(s, 0),
        s.len() <= u32::MAX,
        0 <= k < starts_from(s, 0).len(),
    ensures
        ({
            let el = safe_move_elisions(s, h);
            let st = starts_from(s, 0);
            let out = elided_bytes(s, h);
            &&& !moves_removed(el, st[k]) ==> out.subrange(
                remap(s, el, st[k]),
                remap(s, el, st[k]) + instr_len(s, st[k]),
            ) == (if el.len() == 0 {
                s.subrange(st[k], st[k] + instr_len(s, st[k]))
            } else {
                rewritten_instr(s, el, st[k])
            })
            &&& moves_removed(el, st[k]) ==> k + 1 < st.len() && !moves_removed(el, st[k + 1])
                && remap(s, el, st[k]) == remap(s, el, st[k + 1])
        }),
{
    let el = safe_move_elisions(s, h);
    let st = starts_from(s, 0);
    let n = st.len() as int;
    lemma_starts(s, 0);
    lemma_elisions_shaped(s, h, super::listing(s).len() as int);
    lemma_remap_start(s, el, k);
    lemma_kept_len_no_removal(s, el, k);
    if !moves_removed(el, st[k]) {
        if el.len() == 0 {
            assert(s.subrange(st[k], st[k] + instr_len(s, st[k])) == s.subrange(st[k], st[k]
                + instr_len(s, st[k])));
        } else {
            lemma_rewrite_prefix(s, el, n, k + 1);
            lemma_rewrite_prefix(s, el, k + 1, k);
            lemma_rewritten_len(s, el, st[k]);
            let full = rewrite_upto(s, el, n);
            let p1 = rewrite_upto(s, el, k + 1);
            assert(full.subrange(0, kept_len(s, el, k + 1)) == p1);
            assert(full.subrange(kept_len(s, el, k), kept_len(s, el, k + 1)) =~= p1.subrange(
                kept_len(s, el, k),
                kept_len(s, el, k + 1),
            ));
            assert(p1 == rewrite_upto(s, el, k) + rewritten_instr(s, el, st[k]));
            assert(p1.subrange(kept_len(s, el, k), kept_len(s, el, k + 1)) =~= rewritten_instr(
                s,
                el,
                st[k],
            ));
        }
    } else {
        lemma_removed_move_followed(s, el, k);
        lemma_remap_start(s, el, k + 1);
    }
}

/// A deleted `Move` is followed by its consumer, which survives.
pub proof fn lemma_removed_move_followed(s: Seq<u8>, el: Seq<Elision>, k: int)
    requires
        elisions_shaped(s, el),
        0 <= k < starts_from(s, 0).len(),
        moves_removed(el, starts_from(s, 0)[k]),
    ensures
        k + 1 < starts_from(s, 0).len(),
        !moves_removed(el, starts_from(s, 0)[k + 1]),
{
    let st = starts_from(s, 0);
    let n = st.len() as int;
    lemma_starts(s, 0);
        let j = choose|j: int| 0 <= j < el.len() && el[j].move_pc as int == st[k];
        assert(el[j] == el[j]);
        let kk = choose|kk: int|
            {
                &&& 0 <= kk
                &&& kk + 1 < starts_from(s, 0).len()
                &&& #[trigger] starts_from(s, 0)[kk] == el[j].move_pc as int
                &&& starts_from(s, 0)[kk + 1] == el[j].op_pc as int
                &&& op_at(s, el[j].move_pc as int) == Opcode::Move
                &&& super::operand_info::spec_operand_info(op_at(s, el[j].op_pc as int)) is Some
                &&& el[j].op_operand_idx < super::operand_info::spec_operand_info(
                    op_at(s, el[j].op_pc as int),
                ).unwrap().len()
            };
        if kk != k {
            assert(st[kk] != st[k]);
        }
        assert(k + 1 < n);
        if moves_removed(el, st[k + 1]) {
            let j2 = choose|j2: int| 0 <= j2 < el.len() && el[j2].move_pc as int == st[k + 1];
            assert(el[j2] == el[j2]);
            assert(op_at(s, st[k + 1]) == Opcode::Move);
            super::operand_info::lemma_operand_info_layout(op_at(s, el[j].op_pc as int));
        }
}

/// `kept_len` grows by the instruction length exactly when it survives.
pub proof fn lemma_kept_len_no_removal(s: Seq<u8>, el: Seq<Elision>, k: int)
    requires
        0 <= k < starts_from(s, 0).len(),
    ensures
        kept_len(s, el, k + 1) == kept_len(s, el, k) + if moves_removed(
            el,
            starts_from(s, 0)[k],
        ) {
            0
        } else {
            instr_len(s, starts_from(s, 0)[k])
        },
        el.len() == 0 ==> kept_len(s, el, k) == starts_from(s, 0)[k],
    decreases k,
{
    lemma_starts(s, 0);
    if el.len() == 0 && k > 0 {
        lemma_kept_len_no_removal(s, el, k - 1);
    }
}

/// The number of elisions whose `Move` lies in `[lo, hi)`.
pub open spec fn moves_in(el: Seq<Elision>, lo: int, hi: int) -> int
    decreases el.len(),
{
    if el.len() == 0 {
        0
    } else {
        moves_in(el.drop_last(), lo, hi) + if lo <= el.last().move_pc < hi {
            1int
        } else {
            0
        }
    }
}

/// The deleted `Move`s come in increasing order.
pub open spec fn moves_increasing(el: Seq<Elision>) -> bool {
    forall|a: int, b: int| 0 <= a < b < el.len() ==> el[a].move_pc < el[b].move_pc
}

proof fn lemma_moves_in_zero(el: Seq<Elision>, lo: int, hi: int)
    requires
        forall|j: int| 0 <= j < el.len() ==> !(lo <= (#[trigger] el[j]).move_pc < hi),
    ensures
        moves_in(el, lo, hi) == 0,
    decreases el.len(),
{
    if el.len() > 0 {
        assert forall|j: int| 0 <= j < el.drop_last().len() implies !(lo <= (
        #[trigger] el.drop_last()[j]).move_pc < hi) by {
            assert(el.drop_last()[j] == el[j]);
        }
        lemma_moves_in_zero(el.drop_last(), lo, hi);
        assert(el.last() == el[el.len() - 1]);
    }
}

proof fn lemma_moves_in_split(el: Seq<Elision>, lo: int, mid: int, hi: int)
    requires
        lo <= mid <= hi,
    ensures
        moves_in(el, lo, hi) == moves_in(el, lo, mid) + moves_in(el, mid, hi),
    decreases el.len(),
{
    if el.len() > 0 {
        lemma_moves_in_split(el.drop_last(), lo, mid, hi);
    }
}

proof fn lemma_moves_in_one(el: Seq<Elision>, x: int)
    requires
        moves_increasing(el),
    ensures
        moves_in(el, x, x + 1) == if moves_removed(el, x) {
            1int
        } else {
            0
        },
    decreases el.len(),
{
    if el.len() > 0 {
        let d = el.drop_last();
        assert forall|a: int, b: int| 0 <= a < b < d.len() implies d[a].move_pc < d[b].move_pc by {
            assert(d[a] == el[a] && d[b] == el[b]);
        }
        lemma_moves_in_one(d, x);
        assert(el.last() == el[el.len() - 1]);
        if el.last().move_pc as int == x {
            assert forall|j: int| 0 <= j < d.len() implies !(x <= (#[trigger] d[j]).move_pc < x
                + 1) by {
                assert(d[j] == el[j]);
            }
            lemma_moves_in_zero(d, x, x + 1);
        } else {
            if moves_removed(el, x) {
                let j = choose|j: int| 0 <= j < el.len() && el[j].move_pc as int == x;
                assert(d[j] == el[j]);
            }
            if moves_removed(d, x) {
                let j = choose|j: int| 0 <= j < d.len() && d[j].move_pc as int == x;
                assert(d[j] == el[j]);
            }
        }
    }
}

proof fn lemma_moves_in_all(el: Seq<Elision>, n: int)
    requires
        forall|j: int| 0 <= j < el.len() ==> (#[trigger] el[j]).move_pc < n,
    ensures
        moves_in(el, 0, n) == el.len(),
    decreases el.len(),
{
    if el.len() > 0 {
        assert forall|j: int| 0 <= j < el.drop_last().len() implies (
        #[trigger] el.drop_last()[j]).move_pc < n by {
            assert(el.drop_last()[j] == el[j]);
        }
        lemma_moves_in_all(el.drop_last(), n);
        assert(el.last() == el[el.len() - 1]);
    }
}

/// The analysis finds elisions in increasing order of their `Move`, none
/// past the window it last looked at.
pub(crate) proof fn lemma_elisions_increasing(s: Seq<u8>, handlers: Seq<Handler>, n: int)
    requires
        wf_from(s, 0),
        s.len() <= u32::MAX,
        0 <= n <= super::listing(s).len(),
    ensures
        moves_increasing(super::elisions_upto(super::listing(s), n, target_seq(s, handlers))),
        n > 0 ==> forall|j: int|
            0 <= j < super::elisions_upto(super::listing(s), n, target_seq(s, handlers)).len()
                ==> (#[trigger] super::elisions_upto(
                super::listing(s),
                n,
                target_seq(s, handlers),
            )[j]).move_pc <= starts_from(s, 0)[n - 1],
    decreases n,
{
    let l = super::listing(s);
    let t = target_seq(s, handlers);
    let st = starts_from(s, 0);
    lemma_starts(s, 0);
    if n > 0 {
        lemma_elisions_increasing(s, handlers, n - 1);
        let prev = super::elisions_upto(l, n - 1, t);
        let cur = super::elisions_upto(l, n, t);
        if n > 1 {
            assert(st[n - 2] < st[n - 1]);
        }
        match super::candidate(l, n - 1, t) {
            Some(e) => {
                assert(cur == prev.push(e));
                assert(l[n - 1] == super::listing_line(s, st[n - 1]));
                assert(e.move_pc as int == st[n - 1]);
                assert forall|j: int| 0 <= j < cur.len() implies (#[trigger] cur[j]).move_pc
                    <= st[n - 1] by {
                    if j < prev.len() {
                        assert(cur[j] == prev[j]);
                    }
                }
                assert forall|a: int, b: int| 0 <= a < b < cur.len() implies cur[a].move_pc
                    < cur[b].move_pc by {
                    assert(cur[a] == prev[a]);
                    if b < prev.len() {
                        assert(cur[b] == prev[b]);
                    }
                }
            },
            None => {
                assert(cur =~= prev);
            },
        }
    }
}

/// The end of old instruction `k`'s predecessors: its start, or the end of
/// the buffer past the last instruction.
pub open spec fn start_or_end(s: Seq<u8>, k: int) -> int {
    if k < starts_from(s, 0).len() {
        starts_from(s, 0)[k]
    } else {
        s.len() as int
    }
}

/// Before old instruction `k`, the rewritten bytes are the old ones less
/// nine for each deleted `Move`.
#[verifier::spinoff_prover]
#[verifier::rlimit(40)]
proof fn lemma_kept_len_count(s: Seq<u8>, el: Seq<Elision>, k: int)
    requires
        wf_from(s, 0),
        elisions_shaped(s, el),
        moves_increasing(el),
        0 <= k <= starts_from(s, 0).len(),
    ensures
        kept_len(s, el, k) + 9 * moves_in(el, 0, start_or_end(s, k)) == start_or_end(s, k),
    decreases k,
{
    let st = starts_from(s, 0);
    let n = st.len() as int;
    lemma_starts(s, 0);
    if k == 0 {
        assert(start_or_end(s, 0) == 0);
        lemma_moves_in_zero(el, 0, 0);
    } else {
        lemma_kept_len_count(s, el, k - 1);
        let pc = st[k - 1];
        let next = start_or_end(s, k);
        assert(next == pc + instr_len(s, pc));
        lemma_moves_in_split(el, 0, pc, next);
        lemma_moves_in_split(el, pc, pc + 1, next);
        assert forall|j: int| 0 <= j < el.len() implies !(pc + 1 <= (#[trigger] el[j]).move_pc
            < next) by {
            let q = choose|q: int|
                {
                    &&& 0 <= q
                    &&& q + 1 < starts_from(s, 0).len()
                    &&& #[trigger] starts_from(s, 0)[q] == el[j].move_pc as int
                    &&& starts_from(s, 0)[q + 1] == el[j].op_pc as int
                    &&& op_at(s, el[j].move_pc as int) == Opcode::Move
                    &&& super::operand_info::spec_operand_info(op_at(s, el[j].op_pc as int)) is Some
                    &&& el[j].op_operand_idx < super::operand_info::spec_operand_info(
                        op_at(s, el[j].op_pc as int),
                    ).unwrap().len()
                };
            if q < k - 1 {
                assert(st[q] < st[k - 1]);
            } else if q > k - 1 {
                assert(st[q] >= st[k]);
            }
        }
        lemma_moves_in_zero(el, pc + 1, next);
        lemma_moves_in_one(el, pc);
        if moves_removed(el, pc) {
            let j = choose|j: int| 0 <= j < el.len() && el[j].move_pc as int == pc;
            assert(el[j] == el[j]);
            assert(op_at(s, pc) == Opcode::Move);
        }
    }
}

/// The rewrite deletes nine bytes (a `Move`: its opcode and two register
/// operands) per elision and nothing else.
pub proof fn lemma_elide_moves_len(s: Seq<u8>, h: Seq<Handler>)
    requires
        wf_from(s, 0),
        s.len() <= u32::MAX,
    ensures
        elided_bytes(s, h).len() == s.len() - 9 * safe_move_elisions(s, h).len(),
{
    let el = safe_move_elisions(s, h);
    if el.len() > 0 {
        let n = starts_from(s, 0).len() as int;
        lemma_starts(s, 0);
        assert(super::listing(s).len() == n);
        lemma_elisions_shaped(s, h, n);
        lemma_elisions_increasing(s, h, n);
        lemma_rewrite_prefix(s, el, n, n);
        lemma_kept_len_count(s, el, n);
        lemma_moves_in_all(el, s.len() as int);
    }
}

/// Result of [`elide_moves`]: the rewritten bytecode and its remapped
/// handler and source-map tables.
pub struct Rewritten {
    pub bytecode: Bytecode,
    pub handlers: ThinVec<Handler>,
    pub source_entries: Vec<Entry>,
}

/// Delete the `Move` of each elision, retarget its consumer, and remap
/// every address: jump operands and tables, handler ranges, source-map pcs.
fn rewrite(
    bytecode: &Bytecode,
    handlers: &[Handler],
    source_entries: &[Entry],
    elisions: &[Elision],
) -> (r: Rewritten)
    requires
        bytecode.wf(),
        bytecode.bytes@.len() < u32::MAX,
        elisions_shaped(bytecode.bytes@, elisions@),
        forall|j: int|
            0 <= j < elisions@.len() ==> (#[trigger] elisions@[j]).move_pc < bytecode.bytes@.len(),
        addresses_in_range(bytecode.bytes@, handlers@, source_entries@),
    ensures
        r.bytecode.bytes@ == rewrite_upto(
            bytecode.bytes@,
            elisions@,
            starts_from(bytecode.bytes@, 0).len() as int,
        ),
        handler_list(r.handlers) == handlers@.map_values(
            |h: Handler| remap_handler(bytecode.bytes@, elisions@, h),
        ),
        r.source_entries@ == dedup_keep_last(
            source_entries@.map_values(|e: Entry| remap_entry(bytecode.bytes@, elisions@, e)),
        ),
{
    let ghost s = bytecode.bytes@;
    let ghost el = elisions@;
    let old_len = bytecode.bytes.len();
    let remove = removal_flags(old_len, elisions);
    let (old_to_new, _new_len) = offset_map(bytecode, &remove, elisions);
    let out = emit_rewritten(
        bytecode,
        &remove,
        &old_to_new,
        elisions,
        Ghost(handlers@),
        Ghost(source_entries@),
    );
    let new_handlers = remap_handlers(handlers, &old_to_new, Ghost(s), Ghost(el));
    let entries = remap_entries(source_entries, &old_to_new, Ghost(s), Ghost(el));
    Rewritten { bytecode: Bytecode { bytes: out }, handlers: new_handlers, source_entries: entries }
}

/// What [`elide_moves`] produces for a bytecode buffer with the given
/// handlers: nothing changes when no elision is safe.
pub open spec fn elided_bytes(s: Seq<u8>, h: Seq<Handler>) -> Seq<u8> {
    let el = safe_move_elisions(s, h);
    if el.len() == 0 {
        s
    } else {
        rewrite_upto(s, el, starts_from(s, 0).len() as int)
    }
}

pub open spec fn elided_handlers(s: Seq<u8>, h: Seq<Handler>) -> Seq<Handler> {
    let el = safe_move_elisions(s, h);
    if el.len() == 0 {
        h
    } else {
        h.map_values(|x: Handler| remap_handler(s, el, x))
    }
}

pub open spec fn elided_entries(s: Seq<u8>, h: Seq<Handler>, e: Seq<Entry>) -> Seq<Entry> {
    let el = safe_move_elisions(s, h);
    if el.len() == 0 {
        e
    } else {
        dedup_keep_last(e.map_values(|x: Entry| remap_entry(s, el, x)))
    }
}

/// Apply the Move-elision pass to a finished code block's bytecode: run
/// the analysis and, if it finds safe elisions, remove the dead `Move`s
/// and remap all addresses; otherwise return the inputs untouched.
pub fn elide_moves(
    bytecode: Bytecode,
    handlers: ThinVec<Handler>,
    source_entries: Vec<Entry>,
) -> (r: Rewritten)
    requires
        bytecode.wf(),
        safe_move_elisions(bytecode.bytes@, handler_list(handlers)).len() > 0 ==> {
            &&& bytecode.bytes@.len() < u32::MAX
            &&& addresses_in_range(bytecode.bytes@, handler_list(handlers), source_entries@)
        },
    ensures
        r.bytecode.bytes@ == elided_bytes(bytecode.bytes@, handler_list(handlers)),
        handler_list(r.handlers) == elided_handlers(bytecode.bytes@, handler_list(handlers)),
        r.source_entries@ == elided_entries(
            bytecode.bytes@,
            handler_list(handlers),
            source_entries@,
        ),
{
    let elisions = find_safe_move_elisions(&bytecode, handler_list_as_slice(&handlers));
    if elisions.len() == 0 {
        return Rewritten { bytecode, handlers, source_entries };
    }
    proof {
        lemma_elisions_shaped(
            bytecode.bytes@,
            handler_list(handlers),
            super::listing(bytecode.bytes@).len() as int,
        );
    }
    rewrite(&bytecode, handler_list_as_slice(&handlers), source_entries.as_slice(), elisions.as_slice())
}

/// [`elide_moves`] on a code block whose exception handlers are given as a
/// slice: the handler list is built from them in order.
pub fn elide_moves_with_handlers(
    bytecode: Bytecode,
    handlers: &[Handler],
    source_entries: Vec<Entry>,
) -> (r: Rewritten)
    requires
        bytecode.wf(),
        safe_move_elisions(bytecode.bytes@, handlers@).len() > 0 ==> {
            &&& bytecode.bytes@.len() < u32::MAX
            &&& addresses_in_range(bytecode.bytes@, handlers@, source_entries@)
        },
    ensures
        r.bytecode.bytes@ == elided_bytes(bytecode.bytes@, handlers@),
        handler_list(r.handlers) == elided_handlers(bytecode.bytes@, handlers@),
        r.source_entries@ == elided_entries(bytecode.bytes@, handlers@, source_entries@),
{
    let mut list = handler_list_new();
    let mut i: usize = 0;
    while i < handlers.len()
        invariant
            i <= handlers@.len(),
            handler_list(list) =~= handlers@.subrange(0, i as int),
        decreases handlers@.len() - i,
    {
        handler_list_push(&mut list, handlers[i]);
        i = i + 1;
        assert(handler_list(list) =~= handlers@.subrange(0, i as int));
    }
    assert(handler_list(list) =~= handlers@);
    elide_moves(bytecode, list, source_entries)
}

} // verus!

verus! {

/// `x` is an instruction boundary of `out`: where an instruction starts,
/// or the end of the buffer.
pub open spec fn is_boundary(out: Seq<u8>, x: int) -> bool {
    x == out.len() || starts_from(out, 0).contains(x)
}

/// `x` is some offset through the offset map.
pub open spec fn remapped_value(s: Seq<u8>, el: Seq<Elision>, x: u32) -> bool {
    exists|v: int| x == #[trigger] remap(s, el, v) as u32
}

/// Entry `i` of a jump table whose first `m` entries were remapped holds
/// the remapped entry it had before.
proof fn lemma_remap_table_value(s: Seq<u8>, el: Seq<Elision>, x: Seq<u8>, m: int, i: int)
    requires
        0 <= i < m,
        9 + 4 * m <= x.len(),
    ensures
        le_u32(remap_table(s, el, x, m), 9 + 4 * i) == remap(s, el, le_u32(x, 9 + 4 * i) as int) as u32,
    decreases m,
{
    let y = remap_table(s, el, x, m - 1);
    lemma_remap_table_frame(s, el, x, m - 1);
    let v = remap(s, el, le_u32(y, 9 + 4 * (m - 1)) as int) as u32;
    lemma_write_read(y, 9 + 4 * (m - 1), v);
    if i == m - 1 {
        lemma_remap_table_entry(s, el, x, i);
    } else {
        lemma_remap_table_value(s, el, x, m - 1, i);
        let z = remap_table(s, el, x, m);
        assert(z[9 + 4 * i] == y[9 + 4 * i]);
        assert(z[9 + 4 * i + 1] == y[9 + 4 * i + 1]);
        assert(z[9 + 4 * i + 2] == y[9 + 4 * i + 2]);
        assert(z[9 + 4 * i + 3] == y[9 + 4 * i + 3]);
    }
}

/// The rewritten form of an instruction keeps its opcode and, for a jump
/// table, its length; every address it holds went through the offset map.
proof fn lemma_rewritten_shape(s: Seq<u8>, el: Seq<Elision>, pc: int)
    requires
        elisions_shaped(s, el),
        instr_ok(s, pc),
    ensures
        ({
            let r = rewritten_instr(s, el, pc);
            &&& r.len() == instr_len(s, pc)
            &&& r[0] == s[pc]
            &&& op_at(s, pc) == Opcode::JumpTable ==> le_u32(r, 5) == le_u32(s, pc + 5)
            &&& forall|i: int|
                0 <= i < slots_at(s, pc).len() ==> remapped_value(
                    s,
                    el,
                    le_u32(r, #[trigger] slots_at(s, pc)[i] - pc),
                )
        }),
{
    let raw = s.subrange(pc, pc + instr_len(s, pc));
    let patched = patched_instr(s, el, pc);
    let r = rewritten_instr(s, el, pc);
    lemma_rewritten_len(s, el, pc);
    if patch_for(el, pc) is Some {
        lemma_patch_shape(s, el, pc);
        let e = patch_for(el, pc).unwrap();
        lemma_write_read(raw, 1 + 4 * e.op_operand_idx, e.src);
    }
    assert(patched[0] == s[pc]);
    match spec_address_kind(op_at(s, pc)) {
        AddrKind::NoAddress => {},
        AddrKind::Single => {
            lemma_single_address_fits(op_at(s, pc));
            let v = remap(s, el, le_u32(patched, 1) as int);
            lemma_write_read(patched, 1, v as u32);
            assert forall|i: int| 0 <= i < slots_at(s, pc).len() implies remapped_value(
                s,
                el,
                le_u32(r, #[trigger] slots_at(s, pc)[i] - pc),
            ) by {
                assert(slots_at(s, pc)[i] - pc == 1);
                assert(le_u32(r, 1) == remap(s, el, le_u32(patched, 1) as int) as u32);
            }
        },
        AddrKind::Table => {
            assert(op_at(s, pc) == Opcode::JumpTable);
            let m = le_u32(patched, 5) as int;
            lemma_le_subrange(s, pc, pc + instr_len(s, pc), 5);
            if patch_for(el, pc) is Some {
                lemma_patch_shape(s, el, pc);
            }
            assert(patched == raw);
            assert(m == le_u32(s, pc + 5));
            lemma_remap_table_frame(s, el, patched, m);
            assert(r[5] == patched[5] && r[6] == patched[6] && r[7] == patched[7] && r[8]
                == patched[8]);
            assert forall|i: int| 0 <= i < slots_at(s, pc).len() implies remapped_value(
                s,
                el,
                le_u32(r, #[trigger] slots_at(s, pc)[i] - pc),
            ) by {
                assert(slots_at(s, pc)[i] - pc == 9 + 4 * i);
                lemma_remap_table_value(s, el, patched, m, i);
            }
        },
    }
}

} // verus!

verus! {

/// The elisions found in a well-formed buffer have the shape the rewriter
/// relies on, and the output is their rewrite.
proof fn lemma_found_shaped(s: Seq<u8>, h: Seq<Handler>)
    requires
        wf_from(s, 0),
        s.len() <= u32::MAX,
    ensures
        elisions_shaped(s, safe_move_elisions(s, h)),
        super::listing(s).len() == starts_from(s, 0).len(),
{
    lemma_starts(s, 0);
    assert(super::listing(s).len() == starts_from(s, 0).len());
    lemma_elisions_shaped(s, h, starts_from(s, 0).len() as int);
}

/// Old instruction `k` is a valid instruction, followed by the next start
/// or the end of the buffer.
proof fn lemma_start_k(s: Seq<u8>, k: int)
    requires
        wf_from(s, 0),
        0 <= k < starts_from(s, 0).len(),
    ensures
        instr_ok(s, starts_from(s, 0)[k]),
        instr_len(s, starts_from(s, 0)[k]) >= 1,
{
    lemma_starts(s, 0);
}

/// A surviving old instruction `k` sits, rewritten, at `kept_len(k)` of the
/// output: a valid instruction of the same length whose addresses all went
/// through the offset map.
proof fn lemma_out_instr(s: Seq<u8>, h: Seq<Handler>, k: int)
    requires
        wf_from(s, 0),
        s.len() <= u32::MAX,
        safe_move_elisions(s, h).len() > 0,
        0 <= k < starts_from(s, 0).len(),
        !moves_removed(safe_move_elisions(s, h), starts_from(s, 0)[k]),
    ensures
        ({
            let el = safe_move_elisions(s, h);
            let out = elided_bytes(s, h);
            let at = kept_len(s, el, k);
            &&& 0 <= at < out.len()
            &&& instr_ok(out, at)
            &&& instr_len(out, at) == instr_len(s, starts_from(s, 0)[k])
            &&& kept_len(s, el, k + 1) == at + instr_len(out, at)
            &&& forall|i: int|
                0 <= i < slots_at(out, at).len() ==> remapped_value(
                    s,
                    el,
                    le_u32(out, #[trigger] slots_at(out, at)[i]),
                )
        }),
{
    let el = safe_move_elisions(s, h);
    let st = starts_from(s, 0);
    let n = st.len() as int;
    let out = elided_bytes(s, h);
    let pc = st[k];
    let at = kept_len(s, el, k);
    let len = instr_len(s, pc);
    lemma_found_shaped(s, h);
    lemma_start_k(s, k);
    let r = rewritten_instr(s, el, pc);
    assert(out.subrange(at, at + len) == r) by {
        lemma_elide_moves_lands(s, h, k);
        lemma_remap_start(s, el, k);
    }
    assert(0 <= at && kept_len(s, el, k + 1) <= out.len()) by {
        lemma_rewrite_prefix(s, el, n, k + 1);
        lemma_rewrite_prefix(s, el, n, k);
    }
    assert(kept_len(s, el, k + 1) == at + len) by {
        lemma_kept_len_no_removal(s, el, k);
    }
    lemma_rewritten_shape(s, el, pc);
    assert(out[at] == r[0]);
    assert(op_at(out, at) == op_at(s, pc));
    if op_at(s, pc) == Opcode::JumpTable {
        lemma_le_subrange(out, at, at + len, 5);
        assert(le_u32(out, at + 5) == le_u32(r, 5));
    }
    assert(instr_len(out, at) == len);
    assert forall|i: int| 0 <= i < slots_at(out, at).len() implies remapped_value(
        s,
        el,
        le_u32(out, #[trigger] slots_at(out, at)[i]),
    ) by {
        assert(slots_at(out, at).len() == slots_at(s, pc).len());
        let off = slots_at(s, pc)[i] - pc;
        assert(slots_at(out, at)[i] == at + off);
        match spec_address_kind(op_at(s, pc)) {
            AddrKind::Single => {
                lemma_single_address_fits(op_at(s, pc));
            },
            _ => {},
        }
        assert(off + 4 <= len);
        lemma_le_subrange(out, at, at + len, off);
        assert(le_u32(out, at + off) == le_u32(r, off));
    }
}

/// `kept_len` of a removed old instruction is that of the next one, and
/// the output ends at `kept_len` of them all.
proof fn lemma_kept_facts(s: Seq<u8>, h: Seq<Handler>, k: int)
    requires
        wf_from(s, 0),
        s.len() <= u32::MAX,
        safe_move_elisions(s, h).len() > 0,
        0 <= k <= starts_from(s, 0).len(),
    ensures
        ({
            let el = safe_move_elisions(s, h);
            let st = starts_from(s, 0);
            &&& elided_bytes(s, h).len() == kept_len(s, el, st.len() as int)
            &&& 0 <= kept_len(s, el, k) <= elided_bytes(s, h).len()
            &&& k < st.len() && moves_removed(el, st[k]) ==> kept_len(s, el, k + 1) == kept_len(
                s,
                el,
                k,
            )
        }),
{
    let el = safe_move_elisions(s, h);
    let n = starts_from(s, 0).len() as int;
    lemma_found_shaped(s, h);
    lemma_rewrite_prefix(s, el, n, k);
    if k < n {
        lemma_kept_len_no_removal(s, el, k);
    }
}

/// The output decodes cleanly from `kept_len(k)` to its end.
proof fn lemma_out_wf(s: Seq<u8>, h: Seq<Handler>, k: int)
    requires
        wf_from(s, 0),
        s.len() <= u32::MAX,
        safe_move_elisions(s, h).len() > 0,
        0 <= k <= starts_from(s, 0).len(),
    ensures
        wf_from(elided_bytes(s, h), kept_len(s, safe_move_elisions(s, h), k)),
    decreases starts_from(s, 0).len() - k,
{
    let el = safe_move_elisions(s, h);
    let st = starts_from(s, 0);
    let n = st.len() as int;
    let out = elided_bytes(s, h);
    lemma_kept_facts(s, h, k);
    if k < n {
        lemma_out_wf(s, h, k + 1);
        if !moves_removed(el, st[k]) {
            lemma_out_instr(s, h, k);
        }
    }
}

/// The instruction starts of the output from `kept_len(j)` on are the
/// `kept_len` of the surviving old instructions from `j` on.
proof fn lemma_out_starts(s: Seq<u8>, h: Seq<Handler>, j: int)
    requires
        wf_from(s, 0),
        s.len() <= u32::MAX,
        safe_move_elisions(s, h).len() > 0,
        0 <= j <= starts_from(s, 0).len(),
    ensures
        forall|k: int|
            j <= k < starts_from(s, 0).len() && !moves_removed(
                safe_move_elisions(s, h),
                starts_from(s, 0)[k],
            ) ==> starts_from(elided_bytes(s, h), kept_len(s, safe_move_elisions(s, h), j)).contains(
                #[trigger] kept_len(s, safe_move_elisions(s, h), k),
            ),
    decreases starts_from(s, 0).len() - j,
{
    let el = safe_move_elisions(s, h);
    let st = starts_from(s, 0);
    let n = st.len() as int;
    let out = elided_bytes(s, h);
    let here = starts_from(out, kept_len(s, el, j));
    lemma_kept_facts(s, h, j);
    if j < n {
        lemma_out_starts(s, h, j + 1);
        let rest = starts_from(out, kept_len(s, el, j + 1));
        if moves_removed(el, st[j]) {
            assert(here == rest);
            assert forall|k: int|
                j <= k < n && !moves_removed(el, st[k]) implies here.contains(
                #[trigger] kept_len(s, el, k),
            ) by {
                assert(k != j);
            }
        } else {
            lemma_out_instr(s, h, j);
            assert(here == seq![kept_len(s, el, j)] + rest);
            assert forall|k: int|
                j <= k < n && !moves_removed(el, st[k]) implies here.contains(
                #[trigger] kept_len(s, el, k),
            ) by {
                if k == j {
                    assert(here[0] == kept_len(s, el, j));
                } else {
                    let q = choose|q: int| 0 <= q < rest.len() && rest[q] == kept_len(s, el, k);
                    assert(here[q + 1] == rest[q]);
                }
            }
        }
    }
}

} // verus!

verus! {

/// `kept_len(k)` is an instruction boundary of the output.
proof fn lemma_kept_boundary(s: Seq<u8>, h: Seq<Handler>, k: int)
    requires
        wf_from(s, 0),
        s.len() <= u32::MAX,
        safe_move_elisions(s, h).len() > 0,
        0 <= k <= starts_from(s, 0).len(),
    ensures
        is_boundary(elided_bytes(s, h), kept_len(s, safe_move_elisions(s, h), k)),
    decreases starts_from(s, 0).len() - k,
{
    let el = safe_move_elisions(s, h);
    let st = starts_from(s, 0);
    let n = st.len() as int;
    lemma_kept_facts(s, h, k);
    if k < n {
        if moves_removed(el, st[k]) {
            assert(k + 1 < n) by {
                lemma_found_shaped(s, h);
                lemma_removed_move_followed(s, el, k);
            }
            lemma_kept_boundary(s, h, k + 1);
        } else {
            lemma_out_starts(s, h, 0);
            assert(kept_len(s, el, 0) == 0);
        }
    }
}

/// Every offset through the offset map is an instruction boundary of the
/// output, and fits a `u32`.
proof fn lemma_remap_boundary(s: Seq<u8>, h: Seq<Handler>, a: int)
    requires
        wf_from(s, 0),
        s.len() <= u32::MAX,
        safe_move_elisions(s, h).len() > 0,
    ensures
        is_boundary(elided_bytes(s, h), remap(s, safe_move_elisions(s, h), a)),
        0 <= remap(s, safe_move_elisions(s, h), a) <= u32::MAX,
{
    let el = safe_move_elisions(s, h);
    let st = starts_from(s, 0);
    let n = st.len() as int;
    lemma_elide_moves_len(s, h);
    let k = if a == s.len() {
        n
    } else if st.contains(a) {
        st.index_of(a)
    } else {
        0
    };
    lemma_kept_facts(s, h, k);
    lemma_kept_boundary(s, h, k);
    assert(kept_len(s, el, 0) == 0);
}

/// The address operands of the output from `kept_len(j)` on all went
/// through the offset map.
proof fn lemma_out_slots(s: Seq<u8>, h: Seq<Handler>, j: int)
    requires
        wf_from(s, 0),
        s.len() <= u32::MAX,
        safe_move_elisions(s, h).len() > 0,
        0 <= j <= starts_from(s, 0).len(),
    ensures
        forall|i: int|
            0 <= i < slots_from(elided_bytes(s, h), kept_len(s, safe_move_elisions(s, h), j)).len()
                ==> remapped_value(
                s,
                safe_move_elisions(s, h),
                le_u32(
                    elided_bytes(s, h),
                    #[trigger] slots_from(
                        elided_bytes(s, h),
                        kept_len(s, safe_move_elisions(s, h), j),
                    )[i],
                ),
            ),
    decreases starts_from(s, 0).len() - j,
{
    let el = safe_move_elisions(s, h);
    let st = starts_from(s, 0);
    let n = st.len() as int;
    let out = elided_bytes(s, h);
    let at = kept_len(s, el, j);
    let here = slots_from(out, at);
    lemma_kept_facts(s, h, j);
    if j < n {
        lemma_out_slots(s, h, j + 1);
        let rest = slots_from(out, kept_len(s, el, j + 1));
        if moves_removed(el, st[j]) {
            assert(here == rest);
        } else {
            lemma_out_instr(s, h, j);
            let mine = slots_at(out, at);
            assert(here == mine + rest);
            assert forall|i: int| 0 <= i < here.len() implies remapped_value(
                s,
                el,
                le_u32(out, #[trigger] here[i]),
            ) by {
                if i < mine.len() {
                    assert(here[i] == mine[i]);
                } else {
                    assert(here[i] == rest[i - mine.len()]);
                }
            }
        }
    }
}

/// Remapping keeps the order of an offset before a boundary.
proof fn lemma_remap_mono(s: Seq<u8>, h: Seq<Handler>, a: int, b: int)
    requires
        wf_from(s, 0),
        s.len() <= u32::MAX,
        safe_move_elisions(s, h).len() > 0,
        a <= b,
        b == s.len() || starts_from(s, 0).contains(b),
    ensures
        remap(s, safe_move_elisions(s, h), a) <= remap(s, safe_move_elisions(s, h), b),
{
    let el = safe_move_elisions(s, h);
    let st = starts_from(s, 0);
    let n = st.len() as int;
    lemma_starts(s, 0);
    let kb = if b == s.len() {
        n
    } else {
        st.index_of(b)
    };
    lemma_kept_facts(s, h, kb);
    if a == s.len() {
        assert(b == s.len());
    } else if st.contains(a) {
        let ka = st.index_of(a);
        if kb < ka {
            assert(st[kb] < st[ka]);
        }
        lemma_found_shaped(s, h);
        lemma_rewrite_prefix(s, el, kb, ka);
    } else {
        lemma_kept_facts(s, h, 0);
    }
}

/// The rewritten bytecode is internally consistent: it decodes instruction
/// by instruction exactly to its end, every jump and jump-table address
/// lands on an instruction boundary, as does either end of every handler
/// range, and a handler range whose end was a boundary stays in order.
pub proof fn lemma_elide_moves_boundaries(s: Seq<u8>, h: Seq<Handler>)
    requires
        wf_from(s, 0),
        s.len() <= u32::MAX,
        safe_move_elisions(s, h).len() > 0,
    ensures
        wf_from(elided_bytes(s, h), 0),
        forall|i: int|
            0 <= i < slots_from(elided_bytes(s, h), 0).len() ==> is_boundary(
                elided_bytes(s, h),
                le_u32(elided_bytes(s, h), #[trigger] slots_from(elided_bytes(s, h), 0)[i]) as int,
            ),
        forall|i: int|
            0 <= i < h.len() ==> is_boundary(
                elided_bytes(s, h),
                (#[trigger] elided_handlers(s, h)[i]).start.0 as int,
            ) && is_boundary(elided_bytes(s, h), elided_handlers(s, h)[i].end.0 as int),
        forall|i: int|
            0 <= i < h.len() && (#[trigger] h[i]).start.0 <= h[i].end.0 && (h[i].end.0 == s.len()
                || starts_from(s, 0).contains(h[i].end.0 as int)) ==> elided_handlers(
                s,
                h,
            )[i].start.0 <= elided_handlers(s, h)[i].end.0,
{
    let el = safe_move_elisions(s, h);
    let out = elided_bytes(s, h);
    assert(kept_len(s, el, 0) == 0);
    lemma_out_wf(s, h, 0);
    lemma_out_slots(s, h, 0);
    assert forall|i: int| 0 <= i < slots_from(out, 0).len() implies is_boundary(
        out,
        le_u32(out, #[trigger] slots_from(out, 0)[i]) as int,
    ) by {
        let x = le_u32(out, slots_from(out, 0)[i]);
        assert(remapped_value(s, el, x));
        let v = choose|v: int| x == #[trigger] remap(s, el, v) as u32;
        lemma_remap_boundary(s, h, v);
    }
    assert forall|i: int| 0 <= i < h.len() implies is_boundary(
        out,
        (#[trigger] elided_handlers(s, h)[i]).start.0 as int,
    ) && is_boundary(out, elided_handlers(s, h)[i].end.0 as int) by {
        lemma_remap_boundary(s, h, h[i].start.0 as int);
        lemma_remap_boundary(s, h, h[i].end.0 as int);
    }
    assert forall|i: int|
        0 <= i < h.len() && (#[trigger] h[i]).start.0 <= h[i].end.0 && (h[i].end.0 == s.len()
            || starts_from(s, 0).contains(h[i].end.0 as int)) implies elided_handlers(
        s,
        h,
    )[i].start.0 <= elided_handlers(s, h)[i].end.0 by {
        lemma_remap_boundary(s, h, h[i].start.0 as int);
        lemma_remap_boundary(s, h, h[i].end.0 as int);
        lemma_remap_mono(s, h, h[i].start.0 as int, h[i].end.0 as int);
    }
}

} // verus!

verus! {

/// Opcodes with register-operand metadata carry no address.
proof fn lemma_listed_no_address(op: Opcode)
    requires
        super::operand_info::spec_operand_info(op) is Some,
    ensures
        spec_address_kind(op) == AddrKind::NoAddress,
{
}

/// Two listings with the same opcodes and registers line by line.
pub open spec fn same_code(a: Seq<(u32, Opcode, Seq<u32>)>, b: Seq<(u32, Opcode, Seq<u32>)>) -> bool {
    &&& a.len() == b.len()
    &&& forall|i: int| 0 <= i < a.len() ==> (#[trigger] a[i]).1 == b[i].1 && a[i].2 == b[i].2
}

/// Running does not look at pcs.
proof fn lemma_run_same_code(
    m: super::semantics::Machine,
    a: Seq<(u32, Opcode, Seq<u32>)>,
    b: Seq<(u32, Opcode, Seq<u32>)>,
    r: spec_fn(u32) -> int,
    st: int,
)
    requires
        same_code(a, b),
    ensures
        super::semantics::run(m, a, r, st) == super::semantics::run(m, b, r, st),
    decreases a.len(),
{
    if a.len() > 0 {
        assert(a[0].1 == b[0].1 && a[0].2 == b[0].2);
        assert(same_code(a.drop_first(), b.drop_first())) by {
            assert forall|i: int| 0 <= i < a.drop_first().len() implies (
            #[trigger] a.drop_first()[i]).1 == b.drop_first()[i].1 && a.drop_first()[i].2
                == b.drop_first()[i].2 by {
                assert(a.drop_first()[i] == a[i + 1] && b.drop_first()[i] == b[i + 1]);
            }
        }
        let op = a[0].1;
        let regs = a[0].2;
        if op == Opcode::Move {
            let r2 = super::semantics::after_move(r, regs[0], regs[1]);
            lemma_run_same_code(m, a.drop_first(), b.drop_first(), r2, st);
        } else if super::semantics::listed(a[0]) {
            let info = super::operand_info::spec_operand_info(op).unwrap();
            let obs = super::semantics::reads_of(info, regs, r);
            lemma_run_same_code(
                m,
                a.drop_first(),
                b.drop_first(),
                super::semantics::after_listed(m, op, info, regs, obs, st, r),
                (m.rest)(op, obs, st),
            );
        } else {
            lemma_run_same_code(
                m,
                a.drop_first(),
                b.drop_first(),
                (m.other_registers)(op, r, st),
                (m.other_rest)(op, r, st),
            );
        }
    }
}

/// A surviving old instruction decodes, where the output holds it, to the
/// same opcode and to its registers with the consumer's operand retargeted.
#[verifier::rlimit(50)]
proof fn lemma_out_line(s: Seq<u8>, h: Seq<Handler>, k: int)
    requires
        wf_from(s, 0),
        s.len() <= u32::MAX,
        safe_move_elisions(s, h).len() > 0,
        0 <= k < starts_from(s, 0).len(),
        !moves_removed(safe_move_elisions(s, h), starts_from(s, 0)[k]),
    ensures
        ({
            let el = safe_move_elisions(s, h);
            let out = elided_bytes(s, h);
            let line = super::listing_line(out, kept_len(s, el, k));
            let want = super::semantics::patched_line(super::listing(s)[k], el);
            line.1 == want.1 && line.2 == want.2
        }),
{
    let el = safe_move_elisions(s, h);
    let st = starts_from(s, 0);
    let out = elided_bytes(s, h);
    let pc = st[k];
    let at = kept_len(s, el, k);
    let len = instr_len(s, pc);
    lemma_found_shaped(s, h);
    lemma_start_k(s, k);
    lemma_out_instr(s, h, k);
    let r = rewritten_instr(s, el, pc);
    assert(out.subrange(at, at + len) == r) by {
        lemma_elide_moves_lands(s, h, k);
        lemma_remap_start(s, el, k);
    }
    lemma_rewritten_len(s, el, pc);
    let raw = s.subrange(pc, pc + len);
    let op = op_at(s, pc);
    assert(super::listing(s)[k] == super::listing_line(s, pc)) by {
        lemma_starts(s, 0);
    }
    assert(pc < u32::MAX) by {
        lemma_starts(s, 0);
    }
    assert((pc as u32) as int == pc);
    lemma_rewritten_shape(s, el, pc);
    assert(out[at] == r[0]);
    assert(op_at(out, at) == op);
    match patch_for(el, pc) {
        Some(e) => {
            lemma_patch_shape(s, el, pc);
            lemma_patch_from(el, pc, 0);
            let q = choose|q: int|
                0 <= q < el.len() && el[q] == patch_from(el, pc, 0).unwrap() && el[q].op_pc as int
                    == pc;
            assert(el[q] == el[q]);
            let info = super::operand_info::spec_operand_info(op).unwrap();
            let idx = e.op_operand_idx as int;
            super::operand_info::lemma_operand_info_layout(op);
            let kk = choose|kk: int|
                {
                    &&& 0 <= kk
                    &&& kk + 1 < starts_from(s, 0).len()
                    &&& #[trigger] starts_from(s, 0)[kk] == el[q].move_pc as int
                    &&& starts_from(s, 0)[kk + 1] == el[q].op_pc as int
                    &&& op_at(s, el[q].move_pc as int) == Opcode::Move
                    &&& super::operand_info::spec_operand_info(op_at(s, el[q].op_pc as int)) is Some
                    &&& el[q].op_operand_idx < super::operand_info::spec_operand_info(
                        op_at(s, el[q].op_pc as int),
                    ).unwrap().len()
                };
            assert(idx < info.len());
            assert(r == seq_write(raw, 1 + 4 * idx, e.src));
            lemma_write_read(raw, 1 + 4 * idx, e.src);
            let got = super::instruction_registers(out, at);
            let want = super::instruction_registers(s, pc).update(idx, e.src);
            assert forall|i: int| 0 <= i < info.len() implies got[i] == want[i] by {
                lemma_le_subrange(out, at, at + len, 1 + 4 * i);
                lemma_le_subrange(s, pc, pc + len, 1 + 4 * i);
                if i != idx {
                    assert(r[1 + 4 * i] == raw[1 + 4 * i]);
                    assert(r[1 + 4 * i + 1] == raw[1 + 4 * i + 1]);
                    assert(r[1 + 4 * i + 2] == raw[1 + 4 * i + 2]);
                    assert(r[1 + 4 * i + 3] == raw[1 + 4 * i + 3]);
                }
            }
            assert(got =~= want);
        },
        None => {
            if super::operand_info::spec_operand_info(op) is Some {
                lemma_listed_no_address(op);
                super::operand_info::lemma_operand_info_layout(op);
                let info = super::operand_info::spec_operand_info(op).unwrap();
                assert(r == raw);
                let got = super::instruction_registers(out, at);
                let want = super::instruction_registers(s, pc);
                assert forall|i: int| 0 <= i < info.len() implies got[i] == want[i] by {
                    lemma_le_subrange(out, at, at + len, 1 + 4 * i);
                    lemma_le_subrange(s, pc, pc + len, 1 + 4 * i);
                }
                assert(got =~= want);
            } else if op == Opcode::Move {
                assert(r == raw);
                lemma_le_subrange(out, at, at + len, 1);
                lemma_le_subrange(s, pc, pc + len, 1);
                lemma_le_subrange(out, at, at + len, 5);
                lemma_le_subrange(s, pc, pc + len, 5);
            }
        },
    }
}

} // verus!

verus! {

/// The output's instructions from `kept_len(j)` on decode to the lines of
/// the listing from `j` on with the elisions applied.
proof fn lemma_out_listing(s: Seq<u8>, h: Seq<Handler>, j: int)
    requires
        wf_from(s, 0),
        s.len() <= u32::MAX,
        safe_move_elisions(s, h).len() > 0,
        0 <= j <= starts_from(s, 0).len(),
    ensures
        ({
            let el = safe_move_elisions(s, h);
            let out = elided_bytes(s, h);
            let got = starts_from(out, kept_len(s, el, j));
            let want = super::semantics::elided_from(super::listing(s), el, j);
            &&& got.len() == want.len()
            &&& forall|i: int|
                0 <= i < got.len() ==> super::listing_line(out, #[trigger] got[i]).1 == want[i].1
                    && super::listing_line(out, got[i]).2 == want[i].2
        }),
    decreases starts_from(s, 0).len() - j,
{
    let el = safe_move_elisions(s, h);
    let st = starts_from(s, 0);
    let n = st.len() as int;
    let out = elided_bytes(s, h);
    let l = super::listing(s);
    let got = starts_from(out, kept_len(s, el, j));
    let want = super::semantics::elided_from(l, el, j);
    lemma_kept_facts(s, h, j);
    assert(l.len() == n) by {
        lemma_found_shaped(s, h);
    }
    if j == n {
        assert(got =~= Seq::<int>::empty());
        assert(want =~= Seq::<(u32, Opcode, Seq<u32>)>::empty());
    } else {
        lemma_out_listing(s, h, j + 1);
        let got1 = starts_from(out, kept_len(s, el, j + 1));
        let want1 = super::semantics::elided_from(l, el, j + 1);
        assert(l[j].0 as int == st[j]) by {
            lemma_starts(s, 0);
        }
        if moves_removed(el, st[j]) {
            assert(got == got1);
            assert(want == want1);
        } else {
            lemma_out_instr(s, h, j);
            lemma_out_line(s, h, j);
            let at = kept_len(s, el, j);
            assert(got == seq![at] + got1);
            let line = super::semantics::patched_line(l[j], el);
            assert(want == seq![line] + want1);
            assert forall|i: int| 0 <= i < got.len() implies super::listing_line(
                out,
                #[trigger] got[i],
            ).1 == want[i].1 && super::listing_line(out, got[i]).2 == want[i].2 by {
                if i > 0 {
                    assert(got[i] == got1[i - 1]);
                    assert(want[i] == want1[i - 1]);
                }
            }
        }
    }
}

/// The rewrite is safe: run in order from the same register file and
/// machine state, whatever the instructions compute, the rewritten bytecode
/// observes exactly what the bytecode it was made from observes.
pub proof fn lemma_elide_moves_preserves_observations(
    s: Seq<u8>,
    h: Seq<Handler>,
    m: super::semantics::Machine,
    r: spec_fn(u32) -> int,
    st: int,
)
    requires
        wf_from(s, 0),
        s.len() <= u32::MAX,
    ensures
        super::semantics::run(m, super::listing(elided_bytes(s, h)), r, st) == super::semantics::run(
            m,
            super::listing(s),
            r,
            st,
        ),
{
    let el = safe_move_elisions(s, h);
    if el.len() > 0 {
        let out = elided_bytes(s, h);
        let l = super::listing(s);
        assert(kept_len(s, el, 0) == 0);
        lemma_out_listing(s, h, 0);
        let lo = super::listing(out);
        let le = super::semantics::elided_listing(l, el);
        assert(same_code(lo, le)) by {
            assert forall|i: int| 0 <= i < lo.len() implies (#[trigger] lo[i]).1 == le[i].1 && lo[i].2
                == le[i].2 by {
                assert(lo[i] == super::listing_line(out, starts_from(out, 0)[i]));
            }
        }
        lemma_run_same_code(m, lo, le, r, st);
        super::semantics::lemma_elision_preserves_observations(s, h, m, r, st);
    }
}

/// The pcs of a source map strictly increase.
pub open spec fn entry_pcs_increasing(e: Seq<Entry>) -> bool {
    forall|i: int, j: int| 0 <= i < j < e.len() ==> #[trigger] e[i].pc < #[trigger] e[j].pc
}

/// Collapsing runs of equal pcs in a sequence whose pcs never decrease
/// leaves pcs that strictly increase, ending with the last one.
proof fn lemma_dedup_increasing(v: Seq<Entry>)
    requires
        forall|i: int, j: int| 0 <= i <= j < v.len() ==> #[trigger] v[i].pc <= #[trigger] v[j].pc,
    ensures
        entry_pcs_increasing(dedup_keep_last(v)),
        v.len() > 0 ==> dedup_keep_last(v).len() > 0 && dedup_keep_last(v).last().pc == v.last().pc,
    decreases v.len(),
{
    if v.len() > 0 {
        let w = v.drop_last();
        assert forall|i: int, j: int| 0 <= i <= j < w.len() implies #[trigger] w[i].pc
            <= #[trigger] w[j].pc by {
            assert(w[i] == v[i] && w[j] == v[j]);
        }
        lemma_dedup_increasing(w);
        let r = dedup_keep_last(w);
        let d = dedup_keep_last(v);
        if w.len() > 0 {
            assert(v[w.len() - 1].pc <= v[v.len() - 1].pc);
        }
        if r.len() > 0 && r.last().pc == v.last().pc {
            assert(d == r.drop_last().push(v.last()));
            assert forall|i: int, j: int| 0 <= i < j < d.len() implies #[trigger] d[i].pc
                < #[trigger] d[j].pc by {
                if j == d.len() - 1 {
                    assert(d[i] == r[i]);
                    assert(r[i].pc < r[r.len() - 1].pc);
                } else {
                    assert(d[i] == r[i] && d[j] == r[j]);
                }
            }
        } else {
            assert(d == r.push(v.last()));
            assert forall|i: int, j: int| 0 <= i < j < d.len() implies #[trigger] d[i].pc
                < #[trigger] d[j].pc by {
                if j == d.len() - 1 {
                    assert(d[i] == r[i]);
                    if i < r.len() - 1 {
                        assert(r[i].pc < r[r.len() - 1].pc);
                    }
                } else {
                    assert(d[i] == r[i] && d[j] == r[j]);
                }
            }
        }
    }
}

/// The source map stays sorted: when the pcs of the source map strictly
/// increase and each is an instruction boundary, the pcs of the rewritten
/// source map strictly increase too.
pub proof fn lemma_elided_entries_sorted(s: Seq<u8>, h: Seq<Handler>, e: Seq<Entry>)
    requires
        wf_from(s, 0),
        s.len() <= u32::MAX,
        entry_pcs_increasing(e),
        forall|i: int| 0 <= i < e.len() ==> is_boundary(s, (#[trigger] e[i]).pc as int),
    ensures
        entry_pcs_increasing(elided_entries(s, h, e)),
{
    let el = safe_move_elisions(s, h);
    if el.len() > 0 {
        let mapped = e.map_values(|x: Entry| remap_entry(s, el, x));
        lemma_elide_moves_len(s, h);
        lemma_starts(s, 0);
        assert forall|i: int, j: int| 0 <= i <= j < mapped.len() implies #[trigger] mapped[i].pc
            <= #[trigger] mapped[j].pc by {
            let a = e[i].pc as int;
            let b = e[j].pc as int;
            if i < j {
                assert(e[i].pc < e[j].pc);
            }
            lemma_remap_mono(s, h, a, b);
            let st = starts_from(s, 0);
            let ka = if a == s.len() { st.len() as int } else { st.index_of(a) };
            let kb = if b == s.len() { st.len() as int } else { st.index_of(b) };
            lemma_kept_facts(s, h, ka);
            lemma_kept_facts(s, h, kb);
        }
        lemma_dedup_increasing(mapped);
    }
}

/// A copy of an instruction's bytes branches where the instruction does.
proof fn lemma_destinations_of_copy(out: Seq<u8>, at: int, r: Seq<u8>)
    requires
        0 <= at,
        at + r.len() <= out.len(),
        out.subrange(at, at + r.len()) == r,
        r.len() >= 1,
        spec_address_kind(op_at(r, 0)) == AddrKind::Single ==> r.len() >= 5,
        op_at(r, 0) == Opcode::JumpTable ==> r.len() >= 9 && r.len() >= 9 + 4 * le_u32(r, 5),
    ensures
        jump_destinations(out, at) == jump_destinations(r, 0),
{
    assert(out[at] == r[0]);
    assert(op_at(out, at) == op_at(r, 0));
    match spec_address_kind(op_at(r, 0)) {
        AddrKind::NoAddress => {},
        AddrKind::Single => {
            lemma_le_subrange(out, at, at + r.len(), 1);
        },
        AddrKind::Table => {
            lemma_le_subrange(out, at, at + r.len(), 5);
            let m = le_u32(r, 5) as int;
            assert forall|i: int| 0 <= i < m implies #[trigger] jump_destinations(out, at)[i]
                == jump_destinations(r, 0)[i] by {
                lemma_le_subrange(out, at, at + r.len(), 9 + 4 * i);
            }
            assert(jump_destinations(out, at) =~= jump_destinations(r, 0));
        },
    }
}

/// The rewritten form of an instruction branches, through the offset map,
/// to where the instruction branched.
proof fn lemma_rewritten_destinations(s: Seq<u8>, el: Seq<Elision>, pc: int)
    requires
        elisions_shaped(s, el),
        instr_ok(s, pc),
    ensures
        jump_destinations(rewritten_instr(s, el, pc), 0) == jump_destinations(s, pc).map_values(
            |t: u32| remap(s, el, t as int) as u32,
        ),
{
    let len = instr_len(s, pc);
    let raw = s.subrange(pc, pc + len);
    let patched = patched_instr(s, el, pc);
    let r = rewritten_instr(s, el, pc);
    lemma_rewritten_shape(s, el, pc);
    lemma_rewritten_len(s, el, pc);
    assert(op_at(r, 0) == op_at(s, pc));
    match spec_address_kind(op_at(s, pc)) {
        AddrKind::NoAddress => {
            assert(jump_destinations(r, 0) =~= jump_destinations(s, pc).map_values(
                |t: u32| remap(s, el, t as int) as u32,
            ));
        },
        AddrKind::Single => {
            if patch_for(el, pc) is Some {
                lemma_patch_shape(s, el, pc);
            }
            assert(patched == raw);
            lemma_single_address_fits(op_at(s, pc));
            lemma_le_subrange(s, pc, pc + len, 1);
            let v = remap(s, el, le_u32(patched, 1) as int);
            lemma_write_read(patched, 1, v as u32);
            assert(jump_destinations(r, 0) =~= jump_destinations(s, pc).map_values(
                |t: u32| remap(s, el, t as int) as u32,
            ));
        },
        AddrKind::Table => {
            if patch_for(el, pc) is Some {
                lemma_patch_shape(s, el, pc);
            }
            assert(patched == raw);
            let m = le_u32(s, pc + 5) as int;
            lemma_le_subrange(s, pc, pc + len, 5);
            assert(le_u32(r, 5) == m);
            assert forall|i: int| 0 <= i < m implies #[trigger] jump_destinations(r, 0)[i] == remap(
                s,
                el,
                jump_destinations(s, pc)[i] as int,
            ) as u32 by {
                lemma_remap_table_value(s, el, patched, m, i);
                lemma_le_subrange(s, pc, pc + len, 9 + 4 * i);
            }
            assert(jump_destinations(r, 0) =~= jump_destinations(s, pc).map_values(
                |t: u32| remap(s, el, t as int) as u32,
            ));
        },
    }
}

/// After the rewrite, every surviving instruction branches, from its new
/// place, to the new place of each of its old destinations: a jump, branch,
/// `switch` case, template lookup or short circuit keeps its target
/// instruction, and a jump table keeps every entry.
pub proof fn lemma_elide_moves_retargets(s: Seq<u8>, h: Seq<Handler>, k: int)
    requires
        wf_from(s, 0),
        s.len() <= u32::MAX,
        safe_move_elisions(s, h).len() > 0,
        0 <= k < starts_from(s, 0).len(),
        !moves_removed(safe_move_elisions(s, h), starts_from(s, 0)[k]),
    ensures
        jump_destinations(
            elided_bytes(s, h),
            remap(s, safe_move_elisions(s, h), starts_from(s, 0)[k]),
        ) == jump_destinations(s, starts_from(s, 0)[k]).map_values(
            |t: u32| remap(s, safe_move_elisions(s, h), t as int) as u32,
        ),
{
    let el = safe_move_elisions(s, h);
    let st = starts_from(s, 0);
    let pc = st[k];
    let out = elided_bytes(s, h);
    lemma_found_shaped(s, h);
    lemma_start_k(s, k);
    lemma_elide_moves_lands(s, h, k);
    lemma_remap_start(s, el, k);
    lemma_out_instr(s, h, k);
    lemma_kept_facts(s, h, k + 1);
    lemma_rewritten_shape(s, el, pc);
    lemma_rewritten_destinations(s, el, pc);
    let r = rewritten_instr(s, el, pc);
    let at = remap(s, el, pc);
    assert(op_at(r, 0) == op_at(s, pc));
    if spec_address_kind(op_at(r, 0)) == AddrKind::Single {
        lemma_single_address_fits(op_at(s, pc));
    }
    lemma_destinations_of_copy(out, at, r);
}

} // verus!
