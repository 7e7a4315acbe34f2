//! What the Move elision preserves.
//!
//! Instructions are run in order over a register file. A `Move` copies a
//! register. A listed opcode reads the registers of its `Read` operands and
//! writes those of its `Write` operands with values computed from what it
//! read and from the rest of the machine (accumulator, stack, ...), which it
//! may also change. Any other instruction may observe and change every
//! register and the rest of the machine. Whatever these computations are,
//! the listing with its safe elisions applied observes exactly what the
//! unrewritten listing observes, instruction by instruction.
use vstd::prelude::*;

use super::operand_info::{spec_operand_info, OperandRole};
use super::rewrite::{moves_removed, patch_for, patch_from, target_seq};
use crate::bytecode::Handler;
use super::{candidate, dead_after, elisions_upto, listing, occurs_once_at, safe_move_elisions, Elision};
use crate::bytecode::{lemma_starts, starts_from, wf_from, Opcode};

verus! {

/// How instructions compute, beyond the dataflow of their register
/// operands: for a listed opcode, the value written to a register and the
/// new state of the rest of the machine, from the values read and that
/// state; for any other instruction, the new register file and state.
pub struct Machine {
    pub written: spec_fn(Opcode, Seq<int>, int, u32) -> int,
    pub rest: spec_fn(Opcode, Seq<int>, int) -> int,
    pub other_registers: spec_fn(Opcode, spec_fn(u32) -> int, int) -> spec_fn(u32) -> int,
    pub other_rest: spec_fn(Opcode, spec_fn(u32) -> int, int) -> int,
}

/// What one instruction observes.
pub enum Observed {
    /// A listed opcode: the values of its operands, by position (0 for a
    /// written operand).
    Reads(Seq<int>),
    /// Any other instruction: the whole register file and machine state.
    Everything(spec_fn(u32) -> int, int),
}

/// A listed opcode with its register operands.
pub open spec fn listed(line: (u32, Opcode, Seq<u32>)) -> bool {
    &&& line.1 != Opcode::Move
    &&& spec_operand_info(line.1) matches Some(info)
    &&& info.len() == line.2.len()
}

/// The operand values a listed instruction reads.
pub open spec fn reads_of(info: Seq<OperandRole>, regs: Seq<u32>, r: spec_fn(u32) -> int) -> Seq<int> {
    Seq::new(regs.len(), |j: int| if info[j] == OperandRole::Read { r(regs[j]) } else { 0 })
}

/// Whether a listed instruction writes register `x`.
pub open spec fn writes_to(info: Seq<OperandRole>, regs: Seq<u32>, x: u32) -> bool {
    exists|j: int| 0 <= j < regs.len() && regs[j] == x && info[j] == OperandRole::Write
}

/// The register file after `Move dst, src`.
pub open spec fn after_move(r: spec_fn(u32) -> int, dst: u32, src: u32) -> spec_fn(u32) -> int {
    |x: u32| if x == dst { r(src) } else { r(x) }
}

/// The register file after a listed instruction that read `obs`.
pub open spec fn after_listed(
    m: Machine,
    op: Opcode,
    info: Seq<OperandRole>,
    regs: Seq<u32>,
    obs: Seq<int>,
    st: int,
    r: spec_fn(u32) -> int,
) -> spec_fn(u32) -> int {
    |x: u32|
        if writes_to(info, regs, x) {
            (m.written)(op, obs, st, x)
        } else {
            r(x)
        }
}

/// Running the lines `l` in order from register file `r` and machine state
/// `st`: what each instruction other than `Move` observes.
pub open spec fn run(m: Machine, l: Seq<(u32, Opcode, Seq<u32>)>, r: spec_fn(u32) -> int, st: int) -> Seq<
    Observed,
>
    decreases l.len(),
{
    if l.len() == 0 {
        Seq::empty()
    } else {
        let op = l[0].1;
        let regs = l[0].2;
        if op == Opcode::Move {
            run(m, l.drop_first(), after_move(r, regs[0], regs[1]), st)
        } else if listed(l[0]) {
            let info = spec_operand_info(op).unwrap();
            let obs = reads_of(info, regs, r);
            seq![Observed::Reads(obs)] + run(
                m,
                l.drop_first(),
                after_listed(m, op, info, regs, obs, st, r),
                (m.rest)(op, obs, st),
            )
        } else {
            seq![Observed::Everything(r, st)] + run(
                m,
                l.drop_first(),
                (m.other_registers)(op, r, st),
                (m.other_rest)(op, r, st),
            )
        }
    }
}

/// A line with the operand its elision retargets, if any.
pub open spec fn patched_line(line: (u32, Opcode, Seq<u32>), el: Seq<Elision>) -> (u32, Opcode, Seq<u32>) {
    match patch_for(el, line.0 as int) {
        Some(e) => (line.0, line.1, line.2.update(e.op_operand_idx as int, e.src)),
        None => line,
    }
}

/// The lines from `k` on with the elisions applied: each deleted `Move`
/// gone, each consumer retargeted.
pub open spec fn elided_from(l: Seq<(u32, Opcode, Seq<u32>)>, el: Seq<Elision>, k: int) -> Seq<
    (u32, Opcode, Seq<u32>),
>
    decreases l.len() - k,
{
    if k < 0 || k >= l.len() {
        Seq::empty()
    } else if moves_removed(el, l[k].0 as int) {
        elided_from(l, el, k + 1)
    } else {
        seq![patched_line(l[k], el)] + elided_from(l, el, k + 1)
    }
}

/// The listing with the elisions applied.
pub open spec fn elided_listing(l: Seq<(u32, Opcode, Seq<u32>)>, el: Seq<Elision>) -> Seq<
    (u32, Opcode, Seq<u32>),
> {
    elided_from(l, el, 0)
}

/// The lines' pcs increase.
pub open spec fn pcs_increasing(l: Seq<(u32, Opcode, Seq<u32>)>) -> bool {
    forall|i: int, j: int| 0 <= i < j < l.len() ==> l[i].0 < l[j].0
}

/// Every elision found comes from some window.
proof fn lemma_found_from_window(l: Seq<(u32, Opcode, Seq<u32>)>, n: int, t: Seq<u32>)
    requires
        0 <= n,
    ensures
        forall|j: int|
            #![trigger elisions_upto(l, n, t)[j]]
            0 <= j < elisions_upto(l, n, t).len() ==> exists|i: int|
                0 <= i < n && #[trigger] candidate(l, i, t) == Some(elisions_upto(l, n, t)[j]),
    decreases n,
{
    if n > 0 {
        lemma_found_from_window(l, n - 1, t);
        let prev = elisions_upto(l, n - 1, t);
        let cur = elisions_upto(l, n, t);
        assert forall|j: int| #![trigger cur[j]] 0 <= j < cur.len() implies exists|i: int|
            0 <= i < n && #[trigger] candidate(l, i, t) == Some(cur[j]) by {
            if j < prev.len() {
                assert(cur[j] == prev[j]);
                let i = choose|i: int| 0 <= i < n - 1 && #[trigger] candidate(l, i, t) == Some(prev[j]);
                assert(candidate(l, i, t) == Some(cur[j]));
            } else {
                assert(candidate(l, n - 1, t) == Some(cur[j]));
            }
        }
    }
}

/// Every window's elision is found.
proof fn lemma_window_found(l: Seq<(u32, Opcode, Seq<u32>)>, n: int, t: Seq<u32>, i: int)
    requires
        0 <= i < n,
        candidate(l, i, t) is Some,
    ensures
        elisions_upto(l, n, t).contains(candidate(l, i, t).unwrap()),
    decreases n,
{
    let cur = elisions_upto(l, n, t);
    if i < n - 1 {
        lemma_window_found(l, n - 1, t, i);
        let prev = elisions_upto(l, n - 1, t);
        let j = choose|j: int| 0 <= j < prev.len() && prev[j] == candidate(l, i, t).unwrap();
        assert(cur[j] == prev[j]);
    } else {
        let prev = elisions_upto(l, n - 1, t);
        assert(cur[prev.len() as int] == candidate(l, i, t).unwrap());
    }
}

/// The facts a window's elision carries.
proof fn lemma_candidate_facts(l: Seq<(u32, Opcode, Seq<u32>)>, k: int, t: Seq<u32>)
    requires
        candidate(l, k, t) is Some,
    ensures
        ({
            let e = candidate(l, k, t).unwrap();
            &&& 0 <= k && k + 1 < l.len()
            &&& l[k].1 == Opcode::Move
            &&& e.move_pc == l[k].0
            &&& e.op_pc == l[k + 1].0
            &&& e.dst == l[k].2[0]
            &&& e.src == l[k].2[1]
            &&& listed(l[k + 1])
            &&& occurs_once_at(l[k + 1].2, e.dst, e.op_operand_idx as int)
            &&& spec_operand_info(l[k + 1].1).unwrap()[e.op_operand_idx as int] == OperandRole::Read
            &&& dead_after(l, k + 2, e.dst)
        }),
{
}

/// Where an elision of the listing's own found ones deletes a `Move` or
/// retargets a consumer, the window is the one at that line.
proof fn lemma_elision_at(l: Seq<(u32, Opcode, Seq<u32>)>, t: Seq<u32>, k: int)
    requires
        pcs_increasing(l),
        0 <= k < l.len(),
    ensures
        moves_removed(elisions_upto(l, l.len() as int, t), l[k].0 as int) <==> candidate(l, k, t) is Some,
        candidate(l, k, t) is Some ==> patch_for(elisions_upto(l, l.len() as int, t), l[k + 1].0 as int)
            == candidate(l, k, t),
        (k == 0 || !moves_removed(elisions_upto(l, l.len() as int, t), l[k - 1].0 as int)) ==> patch_for(
            elisions_upto(l, l.len() as int, t),
            l[k].0 as int,
        ) is None,
{
    let n = l.len() as int;
    let el = elisions_upto(l, n, t);
    lemma_found_from_window(l, n, t);
    if moves_removed(el, l[k].0 as int) {
        let j = choose|j: int| 0 <= j < el.len() && el[j].move_pc as int == l[k].0 as int;
        let i = choose|i: int| 0 <= i < n && #[trigger] candidate(l, i, t) == Some(el[j]);
        lemma_candidate_facts(l, i, t);
        if i < k {
            assert(l[i].0 < l[k].0);
        } else if i > k {
            assert(l[k].0 < l[i].0);
        }
    }
    if candidate(l, k, t) is Some {
        let e = candidate(l, k, t).unwrap();
        lemma_candidate_facts(l, k, t);
        lemma_window_found(l, n, t, k);
        let j0 = choose|j: int| 0 <= j < el.len() && el[j] == e;
        assert(el[j0].move_pc as int == l[k].0 as int);
        assert forall|j: int| 0 <= j < el.len() && el[j].op_pc as int == l[k + 1].0 as int implies el[j]
            == e by {
            let i = choose|i: int| 0 <= i < n && #[trigger] candidate(l, i, t) == Some(el[j]);
            lemma_candidate_facts(l, i, t);
            if i < k {
                assert(l[i + 1].0 < l[k + 1].0);
            } else if i > k {
                assert(l[k + 1].0 < l[i + 1].0);
            }
        }
        lemma_patch_unique(el, l[k + 1].0 as int, e, 0, j0);
    }
    if k == 0 || !moves_removed(el, l[k - 1].0 as int) {
        assert forall|j: int| 0 <= j < el.len() implies el[j].op_pc as int != l[k].0 as int by {
            let i = choose|i: int| 0 <= i < n && #[trigger] candidate(l, i, t) == Some(el[j]);
            lemma_candidate_facts(l, i, t);
            if el[j].op_pc as int == l[k].0 as int {
                if i + 1 < k {
                    assert(l[i + 1].0 < l[k].0);
                } else if i + 1 > k {
                    assert(l[k].0 < l[i + 1].0);
                } else {
                    assert(el[j].move_pc as int == l[k - 1].0 as int);
                }
            }
        }
        lemma_patch_none(el, l[k].0 as int, 0);
    }
}

/// The first patch at `pc` is `e` when `e` is at `j0` and every patch at
/// `pc` is `e`.
proof fn lemma_patch_unique(el: Seq<Elision>, pc: int, e: Elision, j: int, j0: int)
    requires
        0 <= j <= j0 < el.len(),
        el[j0] == e,
        e.op_pc as int == pc,
        forall|q: int| 0 <= q < el.len() && el[q].op_pc as int == pc ==> el[q] == e,
    ensures
        patch_from(el, pc, j) == Some(e),
    decreases j0 - j,
{
    if el[j].op_pc as int != pc {
        lemma_patch_unique(el, pc, e, j + 1, j0);
    }
}

/// No patch at `pc` when no elision's consumer is there.
proof fn lemma_patch_none(el: Seq<Elision>, pc: int, j: int)
    requires
        0 <= j,
        forall|q: int| 0 <= q < el.len() ==> el[q].op_pc as int != pc,
    ensures
        patch_from(el, pc, j) is None,
    decreases el.len() - j,
{
    if j < el.len() {
        lemma_patch_none(el, pc, j + 1);
    }
}

/// Lockstep: the unrewritten lines from `k` on, and the same lines with the
/// found elisions applied, observe the same when their register files agree
/// outside a set of registers each of which is dead from `k` on.
proof fn lemma_lockstep(
    m: Machine,
    l: Seq<(u32, Opcode, Seq<u32>)>,
    t: Seq<u32>,
    k: int,
    r: spec_fn(u32) -> int,
    r2: spec_fn(u32) -> int,
    st: int,
    pend: Set<u32>,
)
    requires
        pcs_increasing(l),
        0 <= k <= l.len(),
        k > 0 ==> !moves_removed(elisions_upto(l, l.len() as int, t), l[k - 1].0 as int),
        forall|x: u32| !pend.contains(x) ==> r(x) == r2(x),
        forall|x: u32| pend.contains(x) ==> dead_after(l, k, x),
    ensures
        run(m, l.subrange(k, l.len() as int), r, st) == run(
            m,
            elided_from(l, elisions_upto(l, l.len() as int, t), k),
            r2,
            st,
        ),
    decreases l.len() - k,
{
    let n = l.len() as int;
    let el = elisions_upto(l, n, t);
    let sub = l.subrange(k, n);
    if k == n {
        assert(sub =~= Seq::<(u32, Opcode, Seq<u32>)>::empty());
        return;
    }
    lemma_elision_at(l, t, k);
    assert(sub[0] == l[k]);
    assert(sub.drop_first() =~= l.subrange(k + 1, n));
    let op = l[k].1;
    let regs = l[k].2;
    if candidate(l, k, t) is Some {
        let e = candidate(l, k, t).unwrap();
        lemma_candidate_facts(l, k, t);
        lemma_elision_at(l, t, k + 1);
        let d = e.dst;
        let s = e.src;
        let idx = e.op_operand_idx as int;
        assert(!pend.contains(s));
        let rm = after_move(r, d, s);
        let sub1 = l.subrange(k + 1, n);
        assert(sub1[0] == l[k + 1]);
        assert(sub1.drop_first() =~= l.subrange(k + 2, n));
        let op1 = l[k + 1].1;
        let regs1 = l[k + 1].2;
        let info = spec_operand_info(op1).unwrap();
        let regs2 = regs1.update(idx, s);
        let line2 = (l[k + 1].0, op1, regs2);
        assert(patched_line(l[k + 1], el) == line2);
        let rest_el = elided_from(l, el, k + 2);
        assert(elided_from(l, el, k) == elided_from(l, el, k + 1));
        assert(elided_from(l, el, k + 1) == seq![line2] + rest_el);
        let el_seq = seq![line2] + rest_el;
        assert(el_seq[0] == line2);
        assert(el_seq.drop_first() =~= rest_el);
        let obs = reads_of(info, regs1, rm);
        let obs2 = reads_of(info, regs2, r2);
        assert forall|j: int| 0 <= j < regs1.len() implies obs[j] == obs2[j] by {
            if info[j] == OperandRole::Read {
                if j == idx {
                    assert(regs1[j] == d);
                } else {
                    let x = regs1[j];
                    assert(x != d);
                    if pend.contains(x) {
                        assert(dead_after(l, k, x));
                        assert(x != s);
                        assert(dead_after(l, k + 1, x));
                    }
                }
            }
        }
        assert(obs =~= obs2);
        assert forall|x: u32| writes_to(info, regs1, x) == writes_to(info, regs2, x) by {
            if writes_to(info, regs1, x) {
                let j = choose|j: int| 0 <= j < regs1.len() && regs1[j] == x && info[j] == OperandRole::Write;
                assert(regs2[j] == x);
            }
            if writes_to(info, regs2, x) {
                let j = choose|j: int| 0 <= j < regs2.len() && regs2[j] == x && info[j] == OperandRole::Write;
                assert(j != idx);
                assert(regs1[j] == x);
            }
        }
        let st2 = (m.rest)(op1, obs, st);
        let rc = after_listed(m, op1, info, regs1, obs, st, rm);
        let r2c = after_listed(m, op1, info, regs2, obs2, st, r2);
        let pend2 = Set::new(
            |x: u32| x == d || (pend.contains(x) && x != d && !writes_to(info, regs1, x)),
        );
        assert forall|x: u32| pend2.contains(x) implies dead_after(l, k + 2, x) by {
            if x != d {
                assert(dead_after(l, k, x));
                assert(x != s);
                assert(dead_after(l, k + 1, x));
                assert forall|j: int| 0 <= j < regs1.len() && regs1[j] == x implies info[j]
                    != OperandRole::Read && info[j] != OperandRole::Write by {
                    if info[j] == OperandRole::Write {
                        assert(writes_to(info, regs1, x));
                    }
                }
            }
        }
        lemma_lockstep(m, l, t, k + 2, rc, r2c, st2, pend2);
        assert(run(m, sub, r, st) == run(m, sub1, rm, st));
        assert(run(m, sub1, rm, st) == seq![Observed::Reads(obs)] + run(
            m,
            l.subrange(k + 2, n),
            rc,
            st2,
        ));
        assert(run(m, el_seq, r2, st) == seq![Observed::Reads(obs2)] + run(m, rest_el, r2c, st2));
    } else if op == Opcode::Move {
        let d = regs[0];
        let s = regs[1];
        assert(!pend.contains(s));
        assert(patched_line(l[k], el) == l[k]);
        let rest_el = elided_from(l, el, k + 1);
        let el_seq = seq![l[k]] + rest_el;
        assert(elided_from(l, el, k) == el_seq);
        assert(el_seq[0] == l[k]);
        assert(el_seq.drop_first() =~= rest_el);
        let pend2 = Set::new(|x: u32| pend.contains(x) && x != d);
        assert forall|x: u32| pend2.contains(x) implies dead_after(l, k + 1, x) by {
            assert(dead_after(l, k, x));
        }
        lemma_lockstep(m, l, t, k + 1, after_move(r, d, s), after_move(r2, d, s), st, pend2);
    } else if listed(l[k]) {
        let info = spec_operand_info(op).unwrap();
        assert(patched_line(l[k], el) == l[k]);
        let rest_el = elided_from(l, el, k + 1);
        let el_seq = seq![l[k]] + rest_el;
        assert(elided_from(l, el, k) == el_seq);
        assert(el_seq[0] == l[k]);
        assert(el_seq.drop_first() =~= rest_el);
        let obs = reads_of(info, regs, r);
        let obs2 = reads_of(info, regs, r2);
        assert forall|j: int| 0 <= j < regs.len() implies obs[j] == obs2[j] by {
            if info[j] == OperandRole::Read && pend.contains(regs[j]) {
                assert(dead_after(l, k, regs[j]));
            }
        }
        assert(obs =~= obs2);
        let pend2 = Set::new(|x: u32| pend.contains(x) && !writes_to(info, regs, x));
        assert forall|x: u32| pend2.contains(x) implies dead_after(l, k + 1, x) by {
            assert(dead_after(l, k, x));
            assert forall|j: int| 0 <= j < regs.len() && regs[j] == x implies info[j]
                != OperandRole::Read && info[j] != OperandRole::Write by {
                if info[j] == OperandRole::Write {
                    assert(writes_to(info, regs, x));
                }
            }
        }
        lemma_lockstep(
            m,
            l,
            t,
            k + 1,
            after_listed(m, op, info, regs, obs, st, r),
            after_listed(m, op, info, regs, obs2, st, r2),
            (m.rest)(op, obs, st),
            pend2,
        );
    } else {
        assert(patched_line(l[k], el) == l[k]);
        let rest_el = elided_from(l, el, k + 1);
        let el_seq = seq![l[k]] + rest_el;
        assert(elided_from(l, el, k) == el_seq);
        assert(el_seq[0] == l[k]);
        assert(el_seq.drop_first() =~= rest_el);
        assert forall|x: u32| #[trigger] r(x) == r2(x) by {
            if pend.contains(x) {
                assert(dead_after(l, k, x));
            }
        }
        assert(r =~= r2);
        lemma_lockstep(
            m,
            l,
            t,
            k + 1,
            (m.other_registers)(op, r, st),
            (m.other_registers)(op, r2, st),
            (m.other_rest)(op, r, st),
            Set::empty(),
        );
    }
}

/// The pcs of a well-formed buffer's listing increase.
proof fn lemma_listing_pcs(s: Seq<u8>)
    requires
        wf_from(s, 0),
        s.len() <= u32::MAX,
    ensures
        pcs_increasing(listing(s)),
{
    lemma_starts(s, 0);
    let st = starts_from(s, 0);
    let l = listing(s);
    assert forall|i: int, j: int| 0 <= i < j < l.len() implies l[i].0 < l[j].0 by {
        assert(l[i].0 == st[i] as u32 && l[j].0 == st[j] as u32);
        assert(st[i] < st[j]);
    }
}

/// The Move elision is safe: run in order from the same register file
/// and machine state, whatever the instructions compute, the listing with
/// its safe elisions applied observes exactly what the listing observes.
pub proof fn lemma_elision_preserves_observations(
    s: Seq<u8>,
    h: Seq<Handler>,
    m: Machine,
    r: spec_fn(u32) -> int,
    st: int,
)
    requires
        wf_from(s, 0),
        s.len() <= u32::MAX,
    ensures
        run(m, listing(s), r, st) == run(
            m,
            elided_listing(listing(s), safe_move_elisions(s, h)),
            r,
            st,
        ),
{
    let l = listing(s);
    lemma_listing_pcs(s);
    lemma_lockstep(m, l, target_seq(s, h), 0, r, r, st, Set::empty());
    assert(l.subrange(0, l.len() as int) =~= l);
}

/// The safe elisions are exactly what the windows of adjacent instructions
/// offer, in ascending order of their `Move`: each one comes from a
/// qualifying window, each qualifying window's elision is among them, and
/// their `Move`s strictly ascend.
pub proof fn lemma_safe_move_elisions_are_the_windows(s: Seq<u8>, h: Seq<Handler>)
    requires
        wf_from(s, 0),
        s.len() <= u32::MAX,
    ensures
        forall|j: int|
            #![trigger safe_move_elisions(s, h)[j]]
            0 <= j < safe_move_elisions(s, h).len() ==> exists|i: int|
                0 <= i < listing(s).len() && #[trigger] candidate(listing(s), i, target_seq(s, h))
                    == Some(safe_move_elisions(s, h)[j]),
        forall|i: int|
            0 <= i < listing(s).len() && (#[trigger] candidate(listing(s), i, target_seq(s, h))) is Some
                ==> safe_move_elisions(s, h).contains(
                candidate(listing(s), i, target_seq(s, h)).unwrap(),
            ),
        forall|a: int, b: int|
            0 <= a < b < safe_move_elisions(s, h).len() ==> (#[trigger] safe_move_elisions(s, h)[a]).move_pc
                < (#[trigger] safe_move_elisions(s, h)[b]).move_pc,
{
    let l = listing(s);
    let t = target_seq(s, h);
    let n = l.len() as int;
    lemma_found_from_window(l, n, t);
    assert forall|i: int|
        0 <= i < n && (#[trigger] candidate(l, i, t)) is Some implies safe_move_elisions(s, h).contains(
        candidate(l, i, t).unwrap(),
    ) by {
        lemma_window_found(l, n, t, i);
    }
    super::rewrite::lemma_elisions_increasing(s, h, n);
}

} // verus!
