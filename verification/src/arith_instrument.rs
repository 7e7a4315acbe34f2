//! Opportunity instrumentation for adaptive arithmetic opcodes.
//!
//! For every dynamic execution of an instrumented binary-arithmetic opcode
//! we record, keyed by the static site `(code block, pc, operator kind)`,
//! how often the site ran and how its operand pair was classified: both
//! `i32` without overflow (specialisable), both `i32` with overflow (a
//! specialised opcode would deopt), numeric with a float, or anything else.
//! The counts answer whether quickening has work to do on a workload.
use vstd::prelude::*;

verus! {

/// Per-operator-kind tag, so the report can break down by opcode family.
#[derive(Clone, Copy, Debug, PartialEq, Eq, Structural)]
pub enum ArithKind {
    Add,
    Sub,
    Mul,
    Div,
    Mod,
    Pow,
    BitAnd,
    BitOr,
    BitXor,
    Shl,
    Shr,
    Ushr,
    Eq,
    NotEq,
    Gt,
    Ge,
    Lt,
    Le,
}

impl ArithKind {
    /// The name the report prints for this kind.
    pub open spec fn spec_name(self) -> Seq<char> {
        match self {
            ArithKind::Add => "Add"@,
            ArithKind::Sub => "Sub"@,
            ArithKind::Mul => "Mul"@,
            ArithKind::Div => "Div"@,
            ArithKind::Mod => "Mod"@,
            ArithKind::Pow => "Pow"@,
            ArithKind::BitAnd => "BitAnd"@,
            ArithKind::BitOr => "BitOr"@,
            ArithKind::BitXor => "BitXor"@,
            ArithKind::Shl => "ShiftLeft"@,
            ArithKind::Shr => "ShiftRight"@,
            ArithKind::Ushr => "UnsignedShiftRight"@,
            ArithKind::Eq => "Eq"@,
            ArithKind::NotEq => "NotEq"@,
            ArithKind::Gt => "GreaterThan"@,
            ArithKind::Ge => "GreaterThanOrEq"@,
            ArithKind::Lt => "LessThan"@,
            ArithKind::Le => "LessThanOrEq"@,
        }
    }

    pub fn as_str(self) -> (s: &'static str)
        ensures
            s@ == self.spec_name(),
    {
        match self {
            ArithKind::Add => "Add",
            ArithKind::Sub => "Sub",
            ArithKind::Mul => "Mul",
            ArithKind::Div => "Div",
            ArithKind::Mod => "Mod",
            ArithKind::Pow => "Pow",
            ArithKind::BitAnd => "BitAnd",
            ArithKind::BitOr => "BitOr",
            ArithKind::BitXor => "BitXor",
            ArithKind::Shl => "ShiftLeft",
            ArithKind::Shr => "ShiftRight",
            ArithKind::Ushr => "UnsignedShiftRight",
            ArithKind::Eq => "Eq",
            ArithKind::NotEq => "NotEq",
            ArithKind::Gt => "GreaterThan",
            ArithKind::Ge => "GreaterThanOrEq",
            ArithKind::Lt => "LessThan",
            ArithKind::Le => "LessThanOrEq",
        }
    }
}

/// Operand-pair classification for one dynamic execution.
#[derive(Clone, Copy, Debug, PartialEq, Eq, Structural)]
pub enum OperandClass {
    /// Both `i32`, and the `i32` operation does not overflow.
    MonoI32,
    /// Both `i32`, but the `i32` operation overflows.
    I32Overflow,
    /// Both numeric, at least one a float.
    F64,
    /// Anything else.
    Other,
}

/// Execution counts of one site.
#[derive(Clone, Copy, Debug, PartialEq, Eq, Structural)]
pub struct Counts {
    pub total: u64,
    pub mono_i32: u64,
    pub i32_ovf: u64,
    pub float64: u64,
    pub other: u64,
}

impl Counts {
    pub fn zero() -> (c: Counts)
        ensures
            c == (Counts { total: 0, mono_i32: 0, i32_ovf: 0, float64: 0, other: 0 }),
    {
        Counts { total: 0, mono_i32: 0, i32_ovf: 0, float64: 0, other: 0 }
    }

    /// Every execution has exactly one class.
    pub open spec fn consistent(self) -> bool {
        self.mono_i32 + self.i32_ovf + self.float64 + self.other == self.total
    }
}

/// The counts after one more execution classified as `class`.
pub open spec fn bump(c: Counts, class: OperandClass) -> Counts {
    Counts {
        total: (c.total + 1) as u64,
        mono_i32: if class == OperandClass::MonoI32 {
            (c.mono_i32 + 1) as u64
        } else {
            c.mono_i32
        },
        i32_ovf: if class == OperandClass::I32Overflow {
            (c.i32_ovf + 1) as u64
        } else {
            c.i32_ovf
        },
        float64: if class == OperandClass::F64 {
            (c.float64 + 1) as u64
        } else {
            c.float64
        },
        other: if class == OperandClass::Other {
            (c.other + 1) as u64
        } else {
            c.other
        },
    }
}

/// A static arithmetic site.
#[derive(Clone, Copy, Debug, PartialEq, Eq, Structural)]
pub struct SiteKey {
    /// Identity of the executing code block.
    pub code_block: usize,
    pub pc: u32,
    pub kind: ArithKind,
}

/// The recorded counts of every site seen so far, at most one entry per site.
pub struct Registry {
    pub sites: Vec<(SiteKey, Counts)>,
}

/// The counts recorded for `key` among `s[i..]`.
pub open spec fn lookup_from(s: Seq<(SiteKey, Counts)>, key: SiteKey, i: int) -> Option<Counts>
    decreases s.len() - i,
{
    if i < 0 || i >= s.len() {
        None
    } else if s[i].0 == key {
        Some(s[i].1)
    } else {
        lookup_from(s, key, i + 1)
    }
}

pub open spec fn lookup(s: Seq<(SiteKey, Counts)>, key: SiteKey) -> Option<Counts> {
    lookup_from(s, key, 0)
}

/// A lookup finds the entry with the key, the only one.
pub proof fn lemma_lookup_at(s: Seq<(SiteKey, Counts)>, key: SiteKey, i: int, k: int)
    requires
        0 <= i <= k < s.len(),
        s[k].0 == key,
        forall|j: int| i <= j < s.len() && j != k ==> s[j].0 != key,
    ensures
        lookup_from(s, key, i) == Some(s[k].1),
    decreases k - i,
{
    if i < k {
        lemma_lookup_at(s, key, i + 1, k);
    }
}

/// A lookup of an absent key finds nothing.
pub proof fn lemma_lookup_absent(s: Seq<(SiteKey, Counts)>, key: SiteKey, i: int)
    requires
        0 <= i,
        forall|j: int| i <= j < s.len() ==> s[j].0 != key,
    ensures
        lookup_from(s, key, i) is None,
    decreases s.len() - i,
{
    if i < s.len() {
        lemma_lookup_absent(s, key, i + 1);
    }
}

impl Registry {
    /// Each site appears at most once and its counts add up.
    pub open spec fn wf(&self) -> bool {
        &&& forall|i: int, j: int|
            0 <= i < j < self.sites@.len() ==> self.sites@[i].0 != self.sites@[j].0
        &&& forall|i: int| 0 <= i < self.sites@.len() ==> (#[trigger] self.sites@[i]).1.consistent()
    }

    pub open spec fn counts(&self, key: SiteKey) -> Option<Counts> {
        lookup(self.sites@, key)
    }

    pub fn new() -> (r: Registry)
        ensures
            r.wf(),
            forall|k: SiteKey| r.counts(k) is None,
    {
        Registry { sites: Vec::new() }
    }

    /// The counts recorded for a site, if any.
    pub fn get(&self, key: SiteKey) -> (r: Option<Counts>)
        requires
            self.wf(),
        ensures
            r == self.counts(key),
    {
        let mut i: usize = 0;
        while i < self.sites.len()
            invariant
                i <= self.sites@.len(),
                self.wf(),
                forall|j: int| 0 <= j < i ==> self.sites@[j].0 != key,
            decreases self.sites@.len() - i,
        {
            if self.sites[i].0 == key {
                proof {
                    lemma_lookup_at(self.sites@, key, 0, i as int);
                }
                return Some(self.sites[i].1);
            }
            i = i + 1;
        }
        proof {
            lemma_lookup_absent(self.sites@, key, 0);
        }
        None
    }

    /// Record one dynamic execution of an instrumented arithmetic opcode at
    /// site `(code_block, pc, kind)`, with operand classification `class`.
    pub fn record(&mut self, code_block: usize, pc: u32, kind: ArithKind, class: OperandClass)
        requires
            old(self).wf(),
            old(self).counts(SiteKey { code_block, pc, kind }) matches Some(c) ==> c.total
                < u64::MAX,
        ensures
            final(self).wf(),
            final(self).counts(SiteKey { code_block, pc, kind }) == Some(
                bump(
                    match old(self).counts(SiteKey { code_block, pc, kind }) {
                        Some(c) => c,
                        None => Counts { total: 0, mono_i32: 0, i32_ovf: 0, float64: 0, other: 0 },
                    },
                    class,
                ),
            ),
            forall|k: SiteKey|
                k != (SiteKey { code_block, pc, kind }) ==> final(self).counts(k) == old(
                    self,
                ).counts(k),
    {
        let key = SiteKey { code_block, pc, kind };
        let ghost old_sites = self.sites@;
        let mut i: usize = 0;
        while i < self.sites.len() && self.sites[i].0 != key
            invariant
                i <= self.sites@.len(),
                self.sites@ == old_sites,
                self.wf(),
                forall|j: int| 0 <= j < i ==> self.sites@[j].0 != key,
            decreases self.sites@.len() - i,
        {
            i = i + 1;
        }
        let entry = if i < self.sites.len() {
            proof {
                lemma_lookup_at(old_sites, key, 0, i as int);
            }
            self.sites[i].1
        } else {
            proof {
                lemma_lookup_absent(old_sites, key, 0);
            }
            Counts::zero()
        };
        let mut c = entry;
        c.total = c.total + 1;
        match class {
            OperandClass::MonoI32 => c.mono_i32 = c.mono_i32 + 1,
            OperandClass::I32Overflow => c.i32_ovf = c.i32_ovf + 1,
            OperandClass::F64 => c.float64 = c.float64 + 1,
            OperandClass::Other => c.other = c.other + 1,
        }
        assert(c == bump(entry, class));
        if i < self.sites.len() {
            self.sites.set(i, (key, c));
            proof {
                let s = self.sites@;
                assert forall|a: int, b: int| 0 <= a < b < s.len() implies s[a].0 != s[b].0 by {
                    assert(s[a].0 == old_sites[a].0);
                    assert(s[b].0 == old_sites[b].0);
                }
                lemma_lookup_at(s, key, 0, i as int);
                assert forall|k: SiteKey| k != key implies lookup(s, k) == lookup(old_sites, k) by {
                    lemma_lookup_same(old_sites, s, k, 0);
                }
            }
        } else {
            self.sites.push((key, c));
            proof {
                let s = self.sites@;
                assert forall|a: int, b: int| 0 <= a < b < s.len() implies s[a].0 != s[b].0 by {
                    if b < old_sites.len() {
                        assert(s[a] == old_sites[a]);
                        assert(s[b] == old_sites[b]);
                    }
                }
                lemma_lookup_at(s, key, 0, old_sites.len() as int);
                assert forall|k: SiteKey| k != key implies lookup(s, k) == lookup(old_sites, k) by {
                    lemma_lookup_push(old_sites, (key, c), k, 0);
                }
            }
        }
    }
}

/// Lookups of other keys ignore an entry that only changed its counts.
pub proof fn lemma_lookup_same(
    a: Seq<(SiteKey, Counts)>,
    b: Seq<(SiteKey, Counts)>,
    k: SiteKey,
    i: int,
)
    requires
        a.len() == b.len(),
        0 <= i,
        forall|j: int| 0 <= j < a.len() ==> a[j].0 == b[j].0,
        forall|j: int| 0 <= j < a.len() && a[j].0 == k ==> a[j] == b[j],
    ensures
        lookup_from(a, k, i) == lookup_from(b, k, i),
    decreases a.len() - i,
{
    if i < a.len() {
        lemma_lookup_same(a, b, k, i + 1);
    }
}

/// Lookups of other keys ignore an appended entry.
pub proof fn lemma_lookup_push(
    a: Seq<(SiteKey, Counts)>,
    e: (SiteKey, Counts),
    k: SiteKey,
    i: int,
)
    requires
        0 <= i,
        e.0 != k,
    ensures
        lookup_from(a.push(e), k, i) == lookup_from(a, k, i),
    decreases a.len() + 1 - i,
{
    if i < a.len() {
        assert(a.push(e)[i] == a[i]);
        lemma_lookup_push(a, e, k, i + 1);
    } else if i == a.len() {
        assert(a.push(e)[i] == e);
        assert(lookup_from(a.push(e), k, i + 1) is None);
    }
}

} // verus!

verus! {

/// Field `f` of a count record: total, mono_i32, i32_ovf, float64, other.
pub open spec fn field(c: Counts, f: int) -> int {
    if f == 0 {
        c.total as int
    } else if f == 1 {
        c.mono_i32 as int
    } else if f == 2 {
        c.i32_ovf as int
    } else if f == 3 {
        c.float64 as int
    } else {
        c.other as int
    }
}

/// Whether a site belongs to a group: every site for `None`, the sites of
/// one operator kind for `Some(kind)`.
pub open spec fn in_group(key: SiteKey, kind: Option<ArithKind>) -> bool {
    match kind {
        None => true,
        Some(k) => key.kind == k,
    }
}

/// The sum of field `f` over the sites of `s` in group `kind`.
pub open spec fn group_sum(s: Seq<(SiteKey, Counts)>, kind: Option<ArithKind>, f: int) -> int
    decreases s.len(),
{
    if s.len() == 0 {
        0
    } else {
        group_sum(s.drop_last(), kind, f) + if in_group(s.last().0, kind) {
            field(s.last().1, f)
        } else {
            0
        }
    }
}

/// `c` holds, field by field, the sums over the sites of `s` in group `kind`.
pub open spec fn sums_to(c: Counts, s: Seq<(SiteKey, Counts)>, kind: Option<ArithKind>) -> bool {
    forall|f: int| 0 <= f < 5 ==> #[trigger] field(c, f) == group_sum(s, kind, f)
}

/// Sorted by total, largest first.
pub open spec fn sorted_desc<K>(s: Seq<(K, Counts)>) -> bool {
    forall|a: int, b: int| 0 <= a < b < s.len() ==> s[a].1.total >= s[b].1.total
}

/// The sum of the totals of the first `n` entries of `s` (all of them when
/// there are fewer).
pub open spec fn prefix_total<K>(s: Seq<(K, Counts)>, n: int) -> int
    decreases n,
{
    if n <= 0 || s.len() == 0 {
        0
    } else if n > s.len() {
        prefix_total(s, s.len() as int)
    } else {
        prefix_total(s, n - 1) + s[n - 1].1.total
    }
}

/// The hot-site cut-offs of the report.
pub open spec fn top_cutoffs() -> Seq<usize> {
    seq![1usize, 5, 10, 20, 50]
}

/// What the opportunity report prints, before formatting.
pub struct Summary {
    /// Number of static sites.
    pub n_sites: usize,
    /// Counts summed over every site.
    pub grand: Counts,
    /// Counts summed per operator kind, largest total first.
    pub by_kind: Vec<(ArithKind, Counts)>,
    /// The sites, largest total first.
    pub by_site: Vec<(SiteKey, Counts)>,
    /// For each cut-off `n` of 1, 5, 10, 20 and 50: the executions of the
    /// `n` hottest sites.
    pub top_totals: Vec<u64>,
}

/// A group's sum of any field is at most the sum of all totals.
pub proof fn lemma_group_sum_bound(s: Seq<(SiteKey, Counts)>, kind: Option<ArithKind>, f: int)
    requires
        0 <= f < 5,
        forall|i: int| 0 <= i < s.len() ==> (#[trigger] s[i]).1.consistent(),
    ensures
        0 <= group_sum(s, kind, f) <= group_sum(s, None, 0),
    decreases s.len(),
{
    if s.len() > 0 {
        assert forall|i: int| 0 <= i < s.drop_last().len() implies (#[trigger] s.drop_last()[i]).1.consistent() by {
            assert(s.drop_last()[i] == s[i]);
        }
        lemma_group_sum_bound(s.drop_last(), kind, f);
        assert(s[s.len() - 1].1.consistent());
    }
}

/// Sums over a prefix grow by the next site.
pub proof fn lemma_group_sum_step(s: Seq<(SiteKey, Counts)>, i: int, kind: Option<ArithKind>, f: int)
    requires
        0 <= i < s.len(),
    ensures
        group_sum(s.subrange(0, i + 1), kind, f) == group_sum(s.subrange(0, i), kind, f) + if in_group(
            s[i].0,
            kind,
        ) {
            field(s[i].1, f)
        } else {
            0
        },
{
    assert(s.subrange(0, i + 1).drop_last() =~= s.subrange(0, i));
}

/// A prefix sums to no more than the whole.
pub proof fn lemma_group_sum_prefix(s: Seq<(SiteKey, Counts)>, i: int, kind: Option<ArithKind>, f: int)
    requires
        0 <= i <= s.len(),
        0 <= f < 5,
    ensures
        group_sum(s.subrange(0, i), kind, f) <= group_sum(s, kind, f),
    decreases s.len() - i,
{
    if i < s.len() {
        lemma_group_sum_prefix(s, i + 1, kind, f);
        lemma_group_sum_step(s, i, kind, f);
    } else {
        assert(s.subrange(0, i) =~= s);
    }
}

/// A group no site belongs to sums to zero.
pub proof fn lemma_group_sum_absent(s: Seq<(SiteKey, Counts)>, kind: ArithKind, f: int)
    requires
        forall|i: int| 0 <= i < s.len() ==> (#[trigger] s[i]).0.kind != kind,
    ensures
        group_sum(s, Some(kind), f) == 0,
    decreases s.len(),
{
    if s.len() > 0 {
        assert forall|i: int| 0 <= i < s.drop_last().len() implies (#[trigger] s.drop_last()[i]).0.kind != kind by {
            assert(s.drop_last()[i] == s[i]);
        }
        lemma_group_sum_absent(s.drop_last(), kind, f);
        assert(s[s.len() - 1].0.kind != kind);
    }
}

/// Field-wise sum of two count records.
fn add_counts(a: Counts, b: Counts) -> (c: Counts)
    requires
        forall|f: int| 0 <= f < 5 ==> field(a, f) + field(b, f) <= u64::MAX,
    ensures
        forall|f: int| 0 <= f < 5 ==> #[trigger] field(c, f) == field(a, f) + field(b, f),
{
    assert(field(a, 0) + field(b, 0) <= u64::MAX);
    assert(field(a, 1) + field(b, 1) <= u64::MAX);
    assert(field(a, 2) + field(b, 2) <= u64::MAX);
    assert(field(a, 3) + field(b, 3) <= u64::MAX);
    assert(field(a, 4) + field(b, 4) <= u64::MAX);
    Counts {
        total: a.total + b.total,
        mono_i32: a.mono_i32 + b.mono_i32,
        i32_ovf: a.i32_ovf + b.i32_ovf,
        float64: a.float64 + b.float64,
        other: a.other + b.other,
    }
}

/// Inserting an entry adds its total to the sum of totals.
pub proof fn lemma_prefix_total_insert<K>(s: Seq<(K, Counts)>, pos: int, x: (K, Counts), n: int)
    requires
        0 <= pos <= s.len(),
        0 <= n <= s.len() + 1,
    ensures
        n <= pos ==> prefix_total(s.insert(pos, x), n) == prefix_total(s, n),
        n > pos ==> prefix_total(s.insert(pos, x), n) == prefix_total(s, n - 1) + x.1.total,
    decreases n,
{
    if n > 0 {
        lemma_prefix_total_insert(s, pos, x, n - 1);
    }
}

/// The sum of the totals of a prefix is at most that of a longer prefix.
pub proof fn lemma_prefix_total_mono<K>(s: Seq<(K, Counts)>, m: int, n: int)
    requires
        0 <= m <= n <= s.len(),
    ensures
        0 <= prefix_total(s, m) <= prefix_total(s, n),
    decreases n,
{
    if m < n {
        lemma_prefix_total_mono(s, m, n - 1);
    } else if m > 0 {
        lemma_prefix_total_mono(s, m - 1, m - 1);
    }
}

/// The sum of the first `n` totals is the sum over that prefix.
pub proof fn lemma_prefix_total_group(s: Seq<(SiteKey, Counts)>, n: int)
    requires
        0 <= n <= s.len(),
    ensures
        prefix_total(s, n) == group_sum(s.subrange(0, n), None, 0),
    decreases n,
{
    if n > 0 {
        lemma_prefix_total_group(s, n - 1);
        lemma_group_sum_step(s, n - 1, None, 0);
    } else {
        assert(s.subrange(0, 0) =~= Seq::<(SiteKey, Counts)>::empty());
    }
}

/// `v` sorted by total, largest first (an insertion sort), together with
/// where each entry came from.
fn sort_by_total_desc<K: Copy>(v: &Vec<(K, Counts)>) -> (r: (Vec<(K, Counts)>, Ghost<Seq<int>>))
    ensures
        r.0@.to_multiset() == v@.to_multiset(),
        r.0@.len() == v@.len(),
        sorted_desc(r.0@),
        prefix_total(r.0@, v@.len() as int) == prefix_total(v@, v@.len() as int),
        r.1@.len() == v@.len(),
        forall|k: int| 0 <= k < v@.len() ==> 0 <= #[trigger] r.1@[k] < v@.len() && r.0@[k] == v@[r.1@[k]],
        forall|a: int, b: int| 0 <= a < b < v@.len() ==> r.1@[a] != r.1@[b],
{
    let mut out: Vec<(K, Counts)> = Vec::new();
    let ghost mut perm: Seq<int> = Seq::empty();
    let mut i: usize = 0;
    assert(v@.subrange(0, 0) =~= Seq::<(K, Counts)>::empty());
    while i < v.len()
        invariant
            i <= v@.len(),
            out@.len() == i,
            perm.len() == i,
            out@.to_multiset() == v@.subrange(0, i as int).to_multiset(),
            sorted_desc(out@),
            prefix_total(out@, i as int) == prefix_total(v@, i as int),
            forall|k: int| 0 <= k < i ==> 0 <= #[trigger] perm[k] < i && out@[k] == v@[perm[k]],
            forall|a: int, b: int| 0 <= a < b < i ==> perm[a] != perm[b],
        decreases v@.len() - i,
    {
        let x = v[i];
        let mut pos: usize = 0;
        while pos < out.len() && out[pos].1.total >= x.1.total
            invariant
                pos <= out@.len(),
                sorted_desc(out@),
                forall|j: int| 0 <= j < pos ==> out@[j].1.total >= x.1.total,
            decreases out@.len() - pos,
        {
            pos = pos + 1;
        }
        let ghost before = out@;
        let ghost old_perm = perm;
        out.insert(pos, x);
        proof {
            perm = perm.insert(pos as int, i as int);
            assert(out@ == before.insert(pos as int, x));
            assert(v@.subrange(0, i + 1) =~= v@.subrange(0, i as int).push(x));
            vstd::seq_lib::to_multiset_build(v@.subrange(0, i as int), x);
            vstd::seq_lib::to_multiset_insert(before, pos as int, x);
            lemma_prefix_total_insert(before, pos as int, x, i + 1);
            assert(prefix_total(v@, i + 1) == prefix_total(v@, i as int) + v@[i as int].1.total);
            assert forall|a: int, b: int| 0 <= a < b < out@.len() implies out@[a].1.total
                >= out@[b].1.total by {
                if pos < before.len() {
                    assert(before[pos as int].1.total < x.1.total);
                }
            }
            assert forall|k: int| 0 <= k < i + 1 implies 0 <= #[trigger] perm[k] < i + 1 && out@[k]
                == v@[perm[k]] by {
                if k < pos {
                    assert(perm[k] == old_perm[k]);
                } else if k > pos {
                    assert(perm[k] == old_perm[k - 1]);
                }
            }
            assert forall|a: int, b: int| 0 <= a < b < i + 1 implies perm[a] != perm[b] by {
                if a < pos && b < pos {
                    assert(perm[a] == old_perm[a] && perm[b] == old_perm[b]);
                } else if a < pos && b > pos {
                    assert(perm[a] == old_perm[a] && perm[b] == old_perm[b - 1]);
                } else if a > pos && b > pos {
                    assert(perm[a] == old_perm[a - 1] && perm[b] == old_perm[b - 1]);
                } else if a == pos {
                    assert(perm[b] == old_perm[b - 1]);
                } else {
                    assert(perm[a] == old_perm[a]);
                }
            }
        }
        i = i + 1;
    }
    assert(v@.subrange(0, v@.len() as int) =~= v@);
    (out, Ghost(perm))
}

} // verus!

verus! {

/// The grand totals of `sites`.
fn grand_totals(sites: &Vec<(SiteKey, Counts)>) -> (grand: Counts)
    requires
        forall|i: int| 0 <= i < sites@.len() ==> (#[trigger] sites@[i]).1.consistent(),
        group_sum(sites@, None, 0) <= u64::MAX,
    ensures
        sums_to(grand, sites@, None),
{
    let ghost all = sites@;
    proof {
        assert forall|f: int| 0 <= f < 5 implies #[trigger] group_sum(all, None, f) <= u64::MAX by {
            lemma_group_sum_bound(all, None, f);
        }
    }
    let mut grand = Counts::zero();
    let mut i: usize = 0;
    assert(all.subrange(0, 0) =~= Seq::<(SiteKey, Counts)>::empty());
    while i < sites.len()
        invariant
            i <= all.len(),
            sites@ == all,
            forall|f: int| 0 <= f < 5 ==> #[trigger] group_sum(all, None, f) <= u64::MAX,
            sums_to(grand, all.subrange(0, i as int), None),
        decreases all.len() - i,
    {
        proof {
            assert forall|f: int| 0 <= f < 5 implies #[trigger] field(grand, f) + field(
                all[i as int].1,
                f,
            ) <= u64::MAX by {
                lemma_group_sum_step(all, i as int, None, f);
                lemma_group_sum_prefix(all, i + 1, None, f);
            }
        }
        let next = add_counts(grand, sites[i].1);
        proof {
            assert forall|f: int| 0 <= f < 5 implies #[trigger] field(next, f) == group_sum(
                all.subrange(0, i + 1),
                None,
                f,
            ) by {
                lemma_group_sum_step(all, i as int, None, f);
            }
        }
        grand = next;
        i = i + 1;
    }
    assert(all.subrange(0, all.len() as int) =~= all);
    grand
}

/// The entries have pairwise distinct kinds.
#[verifier::opaque]
pub open spec fn kt_distinct(t: Seq<(ArithKind, Counts)>) -> bool {
    forall|a: int, b: int| 0 <= a < b < t.len() ==> t[a].0 != t[b].0
}

/// Each entry sums the sites of its kind.
#[verifier::opaque]
pub open spec fn kt_sums(t: Seq<(ArithKind, Counts)>, sites: Seq<(SiteKey, Counts)>) -> bool {
    forall|j: int| 0 <= j < t.len() ==> sums_to(#[trigger] t[j].1, sites, Some(t[j].0))
}

/// Each entry's kind occurs among the sites.
#[verifier::opaque]
pub open spec fn kt_sound(t: Seq<(ArithKind, Counts)>, sites: Seq<(SiteKey, Counts)>) -> bool {
    forall|j: int|
        0 <= j < t.len() ==> exists|q: int|
            0 <= q < sites.len() && #[trigger] sites[q].0.kind == (#[trigger] t[j]).0
}

/// Each site's kind has an entry.
#[verifier::opaque]
pub open spec fn kt_complete(t: Seq<(ArithKind, Counts)>, sites: Seq<(SiteKey, Counts)>) -> bool {
    forall|q: int|
        0 <= q < sites.len() ==> exists|j: int|
            0 <= j < t.len() && (#[trigger] t[j]).0 == (#[trigger] sites[q]).0.kind
}

/// Entries with pairwise distinct kinds, each summing the sites of its
/// kind, covering exactly the kinds that occur among `sites`.
pub open spec fn kind_table(t: Seq<(ArithKind, Counts)>, sites: Seq<(SiteKey, Counts)>) -> bool {
    &&& kt_distinct(t)
    &&& kt_sums(t, sites)
    &&& kt_sound(t, sites)
    &&& kt_complete(t, sites)
}

/// A kind table over a prefix, with the entry of the next site's kind
/// replaced by the sum that includes it, is a kind table over the longer
/// prefix.
proof fn lemma_kind_table_add(
    t: Seq<(ArithKind, Counts)>,
    all: Seq<(SiteKey, Counts)>,
    i: int,
    j: int,
    sum: Counts,
)
    requires
        0 <= i < all.len(),
        0 <= j < t.len(),
        kind_table(t, all.subrange(0, i)),
        t[j].0 == all[i].0.kind,
        sums_to(sum, all.subrange(0, i + 1), Some(all[i].0.kind)),
    ensures
        kind_table(t.update(j, (all[i].0.kind, sum)), all.subrange(0, i + 1)),
{
    let kind = all[i].0.kind;
    let prefix = all.subrange(0, i);
    let next_prefix = all.subrange(0, i + 1);
    let u = t.update(j, (kind, sum));
    assert forall|q: int| 0 <= q < i implies #[trigger] next_prefix[q] == prefix[q] by {}
    assert(kt_distinct(u)) by {
        reveal(kt_distinct);
        assert forall|a: int, b: int| 0 <= a < b < u.len() implies u[a].0 != u[b].0 by {
            assert(u[a].0 == t[a].0 && u[b].0 == t[b].0);
        }
    }
    assert(kt_sums(u, next_prefix)) by {
        reveal(kt_sums);
        assert forall|jj: int| 0 <= jj < u.len() implies sums_to(
            #[trigger] u[jj].1,
            next_prefix,
            Some(u[jj].0),
        ) by {
            if jj != j {
                assert(u[jj] == t[jj]);
                assert(sums_to(t[jj].1, prefix, Some(t[jj].0)));
                assert(t[jj].0 != kind) by {
                    reveal(kt_distinct);
                }
                assert forall|f: int| 0 <= f < 5 implies #[trigger] field(u[jj].1, f) == group_sum(
                    next_prefix,
                    Some(u[jj].0),
                    f,
                ) by {
                    lemma_group_sum_step(all, i, Some(u[jj].0), f);
                }
            }
        }
    }
    assert(kt_sound(u, next_prefix)) by {
        reveal(kt_sound);
        assert forall|jj: int| 0 <= jj < u.len() implies exists|q: int|
            0 <= q < next_prefix.len() && #[trigger] next_prefix[q].0.kind == (#[trigger] u[jj]).0 by {
            assert(u[jj].0 == t[jj].0);
            let q = choose|q: int|
                0 <= q < prefix.len() && #[trigger] prefix[q].0.kind == (#[trigger] t[jj]).0;
            assert(next_prefix[q] == prefix[q]);
        }
    }
    assert(kt_complete(u, next_prefix)) by {
        reveal(kt_complete);
        assert forall|q: int| 0 <= q < next_prefix.len() implies exists|jj: int|
            0 <= jj < u.len() && (#[trigger] u[jj]).0 == (#[trigger] next_prefix[q]).0.kind by {
            if q < i {
                assert(next_prefix[q] == prefix[q]);
                let jj = choose|jj: int|
                    0 <= jj < t.len() && (#[trigger] t[jj]).0 == (#[trigger] prefix[q]).0.kind;
                assert(u[jj].0 == t[jj].0);
            } else {
                assert(u[j].0 == next_prefix[q].0.kind);
            }
        }
    }
}

/// A kind table over a prefix, extended with the next site when no entry
/// has its kind, is a kind table over the longer prefix.
proof fn lemma_kind_table_push(t: Seq<(ArithKind, Counts)>, all: Seq<(SiteKey, Counts)>, i: int)
    requires
        0 <= i < all.len(),
        kind_table(t, all.subrange(0, i)),
        forall|q: int| 0 <= q < t.len() ==> t[q].0 != all[i].0.kind,
    ensures
        kind_table(t.push((all[i].0.kind, all[i].1)), all.subrange(0, i + 1)),
{
    let kind = all[i].0.kind;
    let c = all[i].1;
    let prefix = all.subrange(0, i);
    let next_prefix = all.subrange(0, i + 1);
    let u = t.push((kind, c));
    assert forall|q: int| 0 <= q < i implies #[trigger] next_prefix[q] == prefix[q] by {}
    assert forall|q: int| 0 <= q < prefix.len() implies (#[trigger] prefix[q]).0.kind != kind by {
        reveal(kt_complete);
        let jj = choose|jj: int|
            0 <= jj < t.len() && (#[trigger] t[jj]).0 == (#[trigger] prefix[q]).0.kind;
    }
    assert(kt_distinct(u)) by {
        reveal(kt_distinct);
        assert forall|a: int, b: int| 0 <= a < b < u.len() implies u[a].0 != u[b].0 by {
            if b < t.len() {
                assert(u[a] == t[a] && u[b] == t[b]);
            } else {
                assert(u[a] == t[a]);
            }
        }
    }
    assert(kt_sums(u, next_prefix)) by {
        reveal(kt_sums);
        assert forall|jj: int| 0 <= jj < u.len() implies sums_to(
            #[trigger] u[jj].1,
            next_prefix,
            Some(u[jj].0),
        ) by {
            if jj < t.len() {
                assert(u[jj] == t[jj]);
                assert(sums_to(t[jj].1, prefix, Some(t[jj].0)));
            }
            assert forall|f: int| 0 <= f < 5 implies #[trigger] field(u[jj].1, f) == group_sum(
                next_prefix,
                Some(u[jj].0),
                f,
            ) by {
                lemma_group_sum_step(all, i, Some(u[jj].0), f);
                if jj == t.len() {
                    lemma_group_sum_absent(prefix, kind, f);
                }
            }
        }
    }
    assert(kt_sound(u, next_prefix)) by {
        reveal(kt_sound);
        assert forall|jj: int| 0 <= jj < u.len() implies exists|q: int|
            0 <= q < next_prefix.len() && #[trigger] next_prefix[q].0.kind == (#[trigger] u[jj]).0 by {
            if jj < t.len() {
                assert(u[jj] == t[jj]);
                let q = choose|q: int|
                    0 <= q < prefix.len() && #[trigger] prefix[q].0.kind == (#[trigger] t[jj]).0;
                assert(next_prefix[q] == prefix[q]);
            } else {
                assert(next_prefix[i].0.kind == u[jj].0);
            }
        }
    }
    assert(kt_complete(u, next_prefix)) by {
        reveal(kt_complete);
        assert forall|q: int| 0 <= q < next_prefix.len() implies exists|jj: int|
            0 <= jj < u.len() && (#[trigger] u[jj]).0 == (#[trigger] next_prefix[q]).0.kind by {
            if q < i {
                assert(next_prefix[q] == prefix[q]);
                let jj = choose|jj: int|
                    0 <= jj < t.len() && (#[trigger] t[jj]).0 == (#[trigger] prefix[q]).0.kind;
                assert(u[jj] == t[jj]);
            } else {
                assert(u[t.len() as int].0 == next_prefix[q].0.kind);
            }
        }
    }
}

/// No entries make the kind table of no sites.
proof fn lemma_kind_table_empty(all: Seq<(SiteKey, Counts)>)
    ensures
        kind_table(Seq::empty(), all.subrange(0, 0)),
{
    reveal(kt_distinct);
    reveal(kt_sums);
    reveal(kt_sound);
    reveal(kt_complete);
}

/// The per-kind totals of `sites`, in order of first appearance.
fn kind_totals(sites: &Vec<(SiteKey, Counts)>) -> (t: Vec<(ArithKind, Counts)>)
    requires
        forall|i: int| 0 <= i < sites@.len() ==> (#[trigger] sites@[i]).1.consistent(),
        group_sum(sites@, None, 0) <= u64::MAX,
    ensures
        kind_table(t@, sites@),
{
    let ghost all = sites@;
    let mut by_kind: Vec<(ArithKind, Counts)> = Vec::new();
    let mut i: usize = 0;
    proof {
        lemma_kind_table_empty(all);
    }
    while i < sites.len()
        invariant
            i <= all.len(),
            sites@ == all,
            forall|q: int| 0 <= q < all.len() ==> (#[trigger] all[q]).1.consistent(),
            group_sum(all, None, 0) <= u64::MAX,
            kind_table(by_kind@, all.subrange(0, i as int)),
        decreases all.len() - i,
    {
        let (key, c) = sites[i];
        let kind = key.kind;
        let mut j: usize = 0;
        while j < by_kind.len() && by_kind[j].0 != kind
            invariant
                j <= by_kind@.len(),
                forall|q: int| 0 <= q < j ==> by_kind@[q].0 != kind,
            decreases by_kind@.len() - j,
        {
            j = j + 1;
        }
        assert(all[i as int] == (key, c));
        if j < by_kind.len() {
            let entry = by_kind[j].1;
            proof {
                reveal(kt_sums);
                assert forall|f: int| 0 <= f < 5 implies #[trigger] field(entry, f) + field(c, f)
                    <= u64::MAX by {
                    assert(sums_to(by_kind@[j as int].1, all.subrange(0, i as int), Some(kind)));
                    lemma_group_sum_step(all, i as int, Some(kind), f);
                    lemma_group_sum_prefix(all, i + 1, Some(kind), f);
                    lemma_group_sum_bound(all, Some(kind), f);
                }
            }
            let sum = add_counts(entry, c);
            proof {
                reveal(kt_sums);
                assert forall|f: int| 0 <= f < 5 implies #[trigger] field(sum, f) == group_sum(
                    all.subrange(0, i + 1),
                    Some(kind),
                    f,
                ) by {
                    assert(sums_to(by_kind@[j as int].1, all.subrange(0, i as int), Some(kind)));
                    lemma_group_sum_step(all, i as int, Some(kind), f);
                }
                lemma_kind_table_add(by_kind@, all, i as int, j as int, sum);
            }
            by_kind.set(j, (kind, sum));
        } else {
            proof {
                lemma_kind_table_push(by_kind@, all, i as int);
            }
            by_kind.push((kind, c));
        }
        i = i + 1;
    }
    assert(all.subrange(0, all.len() as int) =~= all);
    by_kind
}

/// A reordering of a kind table is a kind table.
proof fn lemma_kind_table_perm(
    t: Seq<(ArithKind, Counts)>,
    u: Seq<(ArithKind, Counts)>,
    perm: Seq<int>,
    sites: Seq<(SiteKey, Counts)>,
)
    requires
        kind_table(t, sites),
        u.len() == t.len(),
        u.to_multiset() == t.to_multiset(),
        perm.len() == t.len(),
        forall|k: int| 0 <= k < t.len() ==> 0 <= #[trigger] perm[k] < t.len() && u[k] == t[perm[k]],
        forall|a: int, b: int| 0 <= a < b < t.len() ==> perm[a] != perm[b],
    ensures
        kind_table(u, sites),
{
    assert(kt_distinct(u)) by {
        reveal(kt_distinct);
        assert forall|a: int, b: int| 0 <= a < b < u.len() implies u[a].0 != u[b].0 by {
            assert(u[a] == t[perm[a]] && u[b] == t[perm[b]]);
            if perm[a] < perm[b] {
            } else {
                assert(perm[b] < perm[a]);
            }
        }
    }
    assert(kt_sums(u, sites)) by {
        reveal(kt_sums);
        assert forall|j: int| 0 <= j < u.len() implies sums_to(#[trigger] u[j].1, sites, Some(u[j].0)) by {
            assert(u[j] == t[perm[j]]);
        }
    }
    assert(kt_sound(u, sites)) by {
        reveal(kt_sound);
        assert forall|j: int| 0 <= j < u.len() implies exists|q: int|
            0 <= q < sites.len() && #[trigger] sites[q].0.kind == (#[trigger] u[j]).0 by {
            assert(u[j] == t[perm[j]]);
            let q = choose|q: int|
                0 <= q < sites.len() && #[trigger] sites[q].0.kind == (#[trigger] t[perm[j]]).0;
        }
    }
    assert(kt_complete(u, sites)) by {
        reveal(kt_complete);
        assert forall|q: int| 0 <= q < sites.len() implies exists|j: int|
            0 <= j < u.len() && (#[trigger] u[j]).0 == (#[trigger] sites[q]).0.kind by {
            let jt = choose|jt: int|
                0 <= jt < t.len() && (#[trigger] t[jt]).0 == (#[trigger] sites[q]).0.kind;
            vstd::seq_lib::to_multiset_contains(t, t[jt]);
            vstd::seq_lib::to_multiset_contains(u, t[jt]);
            assert(t.contains(t[jt]));
            let ju = choose|ju: int| 0 <= ju < u.len() && u[ju] == t[jt];
            assert(u[ju].0 == sites[q].0.kind);
        }
    }
}

/// For each cut-off `n`, the sum of the totals of the first `n` entries.
fn hot_totals(by_site: &Vec<(SiteKey, Counts)>) -> (tops: Vec<u64>)
    requires
        prefix_total(by_site@, by_site@.len() as int) <= u64::MAX,
    ensures
        tops@.len() == 5,
        forall|t: int|
            0 <= t < 5 ==> #[trigger] tops@[t] == prefix_total(by_site@, top_cutoffs()[t] as int),
{
    let cutoffs: [usize; 5] = [1, 5, 10, 20, 50];
    assert(cutoffs@ == top_cutoffs());
    let mut tops: Vec<u64> = Vec::new();
    let mut t: usize = 0;
    while t < 5
        invariant
            t <= 5,
            cutoffs@ == top_cutoffs(),
            prefix_total(by_site@, by_site@.len() as int) <= u64::MAX,
            tops@.len() == t,
            forall|q: int|
                0 <= q < t ==> #[trigger] tops@[q] == prefix_total(by_site@, top_cutoffs()[q] as int),
        decreases 5 - t,
    {
        let top = cutoffs[t];
        let mut sum: u64 = 0;
        let mut k: usize = 0;
        while k < top && k < by_site.len()
            invariant
                k <= top,
                k <= by_site@.len(),
                prefix_total(by_site@, by_site@.len() as int) <= u64::MAX,
                sum == prefix_total(by_site@, k as int),
            decreases top - k,
        {
            proof {
                lemma_prefix_total_mono(by_site@, k + 1, by_site@.len() as int);
            }
            sum = sum + by_site[k].1.total;
            k = k + 1;
        }
        proof {
            if top as int > by_site@.len() {
                assert(prefix_total(by_site@, top as int) == prefix_total(
                    by_site@,
                    by_site@.len() as int,
                ));
            }
        }
        tops.push(sum);
        t = t + 1;
    }
    tops
}

impl Registry {
    /// What the opportunity report says of the recorded sites: their
    /// number, the grand totals, the per-kind totals and the sites, both
    /// largest first, and how many executions the hottest 1, 5, 10, 20 and
    /// 50 sites account for.
    pub fn summarize(&self) -> (s: Summary)
        requires
            self.wf(),
            group_sum(self.sites@, None, 0) <= u64::MAX,
        ensures
            s.n_sites == self.sites@.len(),
            sums_to(s.grand, self.sites@, None),
            kind_table(s.by_kind@, self.sites@),
            sorted_desc(s.by_kind@),
            s.by_site@.to_multiset() == self.sites@.to_multiset(),
            s.by_site@.len() == self.sites@.len(),
            sorted_desc(s.by_site@),
            s.top_totals@.len() == 5,
            forall|t: int|
                0 <= t < 5 ==> #[trigger] s.top_totals@[t] == prefix_total(
                    s.by_site@,
                    top_cutoffs()[t] as int,
                ),
    {
        let grand = grand_totals(&self.sites);
        let by_kind = kind_totals(&self.sites);
        let (by_kind_sorted, Ghost(kperm)) = sort_by_total_desc(&by_kind);
        proof {
            lemma_kind_table_perm(by_kind@, by_kind_sorted@, kperm, self.sites@);
        }
        let (by_site, Ghost(_sperm)) = sort_by_total_desc(&self.sites);
        proof {
            lemma_prefix_total_group(self.sites@, self.sites@.len() as int);
            assert(self.sites@.subrange(0, self.sites@.len() as int) =~= self.sites@);
        }
        let top_totals = hot_totals(&by_site);
        Summary { n_sites: self.sites.len(), grand, by_kind: by_kind_sorted, by_site, top_totals }
    }
}

} // verus!

verus! {

/// Whether a specialised `i32` opcode of kind `kind` would have to deopt
/// on operands `x` and `y`: the `i32` operation overflows, or its result
/// is not an `i32` in JavaScript (negative zero from `*`, a fraction from
/// `/`, negative zero from `%`). Comparisons and bitwise operators never do.
pub open spec fn spec_i32_deopts(kind: ArithKind, x: i32, y: i32) -> bool {
    match kind {
        ArithKind::Add => x.checked_add(y) is None,
        ArithKind::Sub => x.checked_sub(y) is None,
        ArithKind::Mul => match x.checked_mul(y) {
            None => true,
            Some(v) => !(v != 0 || (if x < y { x } else { y }) >= 0),
        },
        ArithKind::Div => match x.checked_div(y) {
            None => true,
            Some(d) => y * d != x,
        },
        ArithKind::Pow => y < 0 || !(i32::MIN <= vstd::arithmetic::power::pow(x as int, y as nat)
            <= i32::MAX),
        ArithKind::Mod => y == 0 || (x.checked_rem(y) == Some(0i32) && x < 0),
        _ => false,
    }
}

/// Whether `x` to the power `y` overflows `i32` (`y` non-negative).
fn pow_overflows(x: i32, y: i32) -> (r: bool)
    requires
        y >= 0,
    ensures
        r == !(i32::MIN <= vstd::arithmetic::power::pow(x as int, y as nat) <= i32::MAX),
{
    let ghost e: nat = y as nat;
    if x == 0 || x == 1 {
        proof {
            lemma_pow_fixed(x as int, e);
        }
        return false;
    }
    if x == -1 {
        proof {
            lemma_pow_minus_one(e);
        }
        return false;
    }
    let mut acc: i32 = 1;
    let mut k: i32 = 0;
    proof {
        vstd::arithmetic::power::lemma_pow0(x as int);
    }
    while k < y
        invariant
            0 <= k <= y,
            x != 0 && x != 1 && x != -1,
            acc as int == vstd::arithmetic::power::pow(x as int, k as nat),
        decreases y - k,
    {
        proof {
            vstd::arithmetic::power::lemma_pow_adds(x as int, k as nat, 1);
            vstd::arithmetic::power::lemma_pow1(x as int);
        }
        match acc.checked_mul(x) {
            Some(v) => {
                acc = v;
            },
            None => {
                proof {
                    lemma_pow_grows(x, (k + 1) as nat, y as nat);
                }
                return true;
            },
        }
        k = k + 1;
    }
    false
}

/// Powers of 0 and 1 stay in range.
proof fn lemma_pow_fixed(x: int, e: nat)
    requires
        x == 0 || x == 1,
    ensures
        0 <= vstd::arithmetic::power::pow(x, e) <= 1,
    decreases e,
{
    reveal(vstd::arithmetic::power::pow);
    if e > 0 {
        lemma_pow_fixed(x, (e - 1) as nat);
    }
}

/// Powers of -1 are -1 or 1.
proof fn lemma_pow_minus_one(e: nat)
    ensures
        -1 <= vstd::arithmetic::power::pow(-1, e) <= 1,
    decreases e,
{
    reveal(vstd::arithmetic::power::pow);
    if e > 0 {
        lemma_pow_minus_one((e - 1) as nat);
    }
}

/// Once a power of a base of magnitude at least 2 is out of `i32` range,
/// every higher power is too.
proof fn lemma_pow_grows(x: i32, k: nat, n: nat)
    requires
        x != 0 && x != 1 && x != -1,
        k <= n,
        !(i32::MIN <= vstd::arithmetic::power::pow(x as int, k) <= i32::MAX),
    ensures
        !(i32::MIN <= vstd::arithmetic::power::pow(x as int, n) <= i32::MAX),
    decreases n - k,
{
    if k < n {
        let p = vstd::arithmetic::power::pow(x as int, k);
        vstd::arithmetic::power::lemma_pow_adds(x as int, k, 1);
        vstd::arithmetic::power::lemma_pow1(x as int);
        let q = vstd::arithmetic::power::pow(x as int, k + 1);
        assert(q == p * x);
        assert(q > i32::MAX || q < i32::MIN) by (nonlinear_arith)
            requires
                q == p * x,
                p > i32::MAX || p < i32::MIN,
                x >= 2 || x <= -2,
        ;
        lemma_pow_grows(x, k + 1, n);
    }
}

/// The deopt predicate of the instrumentation for operator `kind`.
pub fn i32_deopts(kind: ArithKind, x: i32, y: i32) -> (r: bool)
    requires
        kind == ArithKind::Mod ==> !(x == i32::MIN && y == -1),
    ensures
        r == spec_i32_deopts(kind, x, y),
{
    match kind {
        ArithKind::Add => x.checked_add(y).is_none(),
        ArithKind::Sub => x.checked_sub(y).is_none(),
        ArithKind::Mul => match x.checked_mul(y) {
            None => true,
            Some(v) => !(v != 0 || (if x < y { x } else { y }) >= 0),
        },
        ArithKind::Div => match x.checked_div(y) {
            None => true,
            Some(d) => {
                assert((y as int) * (d as int) <= 0x8000_0000 * 0x8000_0000 && (y as int) * (d as int)
                    >= -0x8000_0000 * 0x8000_0000) by (nonlinear_arith)
                    requires
                        -0x8000_0000 <= y <= 0x7fff_ffff,
                        -0x8000_0000 <= d <= 0x7fff_ffff,
                ;
                (y as i64) * (d as i64) != x as i64
            },
        },
        ArithKind::Pow => y < 0 || pow_overflows(x, y),
        ArithKind::Mod => y == 0 || (x.checked_rem(y) == Some(0i32) && x < 0),
        _ => false,
    }
}

} // verus!

verus! {

/// Summed counts keep the per-site law: every execution has exactly one
/// class, so the class counts of a group add up to its total.
pub proof fn lemma_sums_consistent(c: Counts, s: Seq<(SiteKey, Counts)>, kind: Option<ArithKind>)
    requires
        forall|i: int| 0 <= i < s.len() ==> (#[trigger] s[i]).1.consistent(),
        sums_to(c, s, kind),
    ensures
        c.consistent(),
{
    lemma_group_sum_classes(s, kind);
    assert(field(c, 0) == group_sum(s, kind, 0));
    assert(field(c, 1) == group_sum(s, kind, 1));
    assert(field(c, 2) == group_sum(s, kind, 2));
    assert(field(c, 3) == group_sum(s, kind, 3));
    assert(field(c, 4) == group_sum(s, kind, 4));
}

/// Over any group, the class sums add up to the total sum.
proof fn lemma_group_sum_classes(s: Seq<(SiteKey, Counts)>, kind: Option<ArithKind>)
    requires
        forall|i: int| 0 <= i < s.len() ==> (#[trigger] s[i]).1.consistent(),
    ensures
        group_sum(s, kind, 1) + group_sum(s, kind, 2) + group_sum(s, kind, 3) + group_sum(s, kind, 4)
            == group_sum(s, kind, 0),
    decreases s.len(),
{
    if s.len() > 0 {
        assert forall|i: int| 0 <= i < s.drop_last().len() implies (#[trigger] s.drop_last()[i]).1.consistent() by {
            assert(s.drop_last()[i] == s[i]);
        }
        lemma_group_sum_classes(s.drop_last(), kind);
        assert(s[s.len() - 1].1.consistent());
    }
}

/// Whether `v` is an `i32`.
pub open spec fn fits_i32(v: int) -> bool {
    i32::MIN <= v <= i32::MAX
}

/// `y` divides `x` exactly, with a quotient that is an `i32`.
pub open spec fn i32_quotient_exists(x: int, y: int) -> bool {
    exists|q: int| fits_i32(q) && #[trigger] (q * y) == x
}

/// `y` divides `x` exactly.
pub open spec fn divides(y: int, x: int) -> bool {
    exists|q: int| #[trigger] (q * y) == x
}

/// An exact division of non-negative numbers.
proof fn lemma_exact_quotient(a: int, b: int, q: int)
    requires
        a >= 0,
        b > 0,
        q * b == a,
    ensures
        a / b == q,
        a % b == 0,
{
    vstd::arithmetic::mul::lemma_mul_is_commutative(q, b);
    vstd::arithmetic::div_mod::lemma_div_multiples_vanish(q, b);
    vstd::arithmetic::div_mod::lemma_mod_multiples_basic(q, b);
}

/// A zero remainder of non-negative numbers gives the exact quotient.
proof fn lemma_zero_remainder(a: int, b: int)
    requires
        a >= 0,
        b > 0,
        a % b == 0,
    ensures
        (a / b) * b == a,
{
    vstd::arithmetic::div_mod::lemma_fundamental_div_mod(a, b);
    vstd::arithmetic::mul::lemma_mul_is_commutative(b, a / b);
}

/// When `q * y == x`, Rust's truncating division of `x` by `y` is `q` (and
/// is `None` exactly when `q` is no `i32`).
proof fn lemma_checked_div_exact(x: i32, y: i32, q: int)
    requires
        y != 0,
        q * y == x,
    ensures
        x.checked_div(y) == if fits_i32(q) {
            Some(q as i32)
        } else {
            None::<i32>
        },
{
    let xi = x as int;
    let yi = y as int;
    if xi == 0 {
        assert(q == 0) by (nonlinear_arith)
            requires
                q * yi == 0,
                yi != 0,
        ;
    } else if xi > 0 && yi > 0 {
        lemma_exact_quotient(xi, yi, q);
    } else if xi < 0 && yi < 0 {
        assert(q * (yi * -1) == xi * -1) by (nonlinear_arith)
            requires
                q * yi == xi,
        ;
        lemma_exact_quotient(xi * -1, yi * -1, q);
    } else if xi < 0 {
        assert((-q) * yi == xi * -1) by (nonlinear_arith)
            requires
                q * yi == xi,
        ;
        lemma_exact_quotient(xi * -1, yi, -q);
    } else {
        assert((-q) * (yi * -1) == xi) by (nonlinear_arith)
            requires
                q * yi == xi,
        ;
        lemma_exact_quotient(xi, yi * -1, -q);
    }
}

/// Rust's truncating remainder of `x` by `y` is zero exactly when `y`
/// divides `x` (away from the overflowing `i32::MIN % -1`).
proof fn lemma_checked_rem_zero(x: i32, y: i32)
    requires
        y != 0,
        !(x == i32::MIN && y == -1),
    ensures
        (x.checked_rem(y) == Some(0i32)) == divides(y as int, x as int),
{
    let xi = x as int;
    let yi = y as int;
    if xi == 0 {
        assert(0 * yi == xi);
    } else if xi > 0 && yi > 0 {
        if xi % yi == 0 {
            lemma_zero_remainder(xi, yi);
            assert((xi / yi) * yi == xi);
        }
        if divides(yi, xi) {
            let q = choose|q: int| #[trigger] (q * yi) == xi;
            lemma_exact_quotient(xi, yi, q);
        }
    } else if xi < 0 && yi < 0 {
        let a = xi * -1;
        let b = yi * -1;
        if a % b == 0 {
            lemma_zero_remainder(a, b);
            assert((a / b) * yi == xi) by (nonlinear_arith)
                requires
                    (a / b) * b == a,
                    a == xi * -1,
                    b == yi * -1,
            ;
        }
        if divides(yi, xi) {
            let q = choose|q: int| #[trigger] (q * yi) == xi;
            assert(q * b == a) by (nonlinear_arith)
                requires
                    q * yi == xi,
                    a == xi * -1,
                    b == yi * -1,
            ;
            lemma_exact_quotient(a, b, q);
        }
    } else if xi < 0 {
        let a = xi * -1;
        if a % yi == 0 {
            lemma_zero_remainder(a, yi);
            assert((-(a / yi)) * yi == xi) by (nonlinear_arith)
                requires
                    (a / yi) * yi == a,
                    a == xi * -1,
            ;
        }
        if divides(yi, xi) {
            let q = choose|q: int| #[trigger] (q * yi) == xi;
            assert((-q) * yi == a) by (nonlinear_arith)
                requires
                    q * yi == xi,
                    a == xi * -1,
            ;
            lemma_exact_quotient(a, yi, -q);
        }
    } else {
        let b = yi * -1;
        if xi % b == 0 {
            lemma_zero_remainder(xi, b);
            assert((-(xi / b)) * yi == xi) by (nonlinear_arith)
                requires
                    (xi / b) * b == xi,
                    b == yi * -1,
            ;
        }
        if divides(yi, xi) {
            let q = choose|q: int| #[trigger] (q * yi) == xi;
            assert((-q) * b == xi) by (nonlinear_arith)
                requires
                    q * yi == xi,
                    b == yi * -1,
            ;
            lemma_exact_quotient(xi, b, -q);
        }
    }
}

/// When a specialised `i32` opcode must give up, in exact arithmetic: `+`,
/// `-` and `**` when the exact result is no `i32` (or, for `**`, the
/// exponent is negative); `*` also when the product is zero with a negative
/// factor (JavaScript's `-0`, whichever factor it is); `/` unless the
/// divisor divides exactly with an `i32` quotient; `%` on a zero divisor or
/// an exact division of a negative dividend (`-0` again). Comparisons and
/// bitwise operators never give up.
pub proof fn lemma_i32_deopts_exact(kind: ArithKind, x: i32, y: i32)
    ensures
        kind == ArithKind::Add ==> (spec_i32_deopts(kind, x, y) <==> !fits_i32(x + y)),
        kind == ArithKind::Sub ==> (spec_i32_deopts(kind, x, y) <==> !fits_i32(x - y)),
        kind == ArithKind::Mul ==> (spec_i32_deopts(kind, x, y) <==> (!fits_i32(x * y) || (x * y
            == 0 && (x < 0 || y < 0)))),
        kind == ArithKind::Mul ==> spec_i32_deopts(kind, x, y) == spec_i32_deopts(kind, y, x),
        kind == ArithKind::Div ==> (spec_i32_deopts(kind, x, y) <==> (y == 0 || !i32_quotient_exists(
            x as int,
            y as int,
        ))),
        kind == ArithKind::Mod && !(x == i32::MIN && y == -1) ==> (spec_i32_deopts(kind, x, y) <==> (y
            == 0 || (x < 0 && divides(y as int, x as int)))),
        kind == ArithKind::Pow ==> (spec_i32_deopts(kind, x, y) <==> (y < 0 || !fits_i32(
            vstd::arithmetic::power::pow(x as int, y as nat),
        ))),
        !(kind is Add || kind is Sub || kind is Mul || kind is Div || kind is Mod || kind is Pow)
            ==> !spec_i32_deopts(kind, x, y),
{
    assert((x as int) * (y as int) == (y as int) * (x as int)) by (nonlinear_arith);
    if kind == ArithKind::Mul {
        if x * y == 0 {
            assert(x == 0 || y == 0) by (nonlinear_arith)
                requires
                    (x as int) * (y as int) == 0,
            ;
        }
    }
    if kind == ArithKind::Div && y != 0 {
        if i32_quotient_exists(x as int, y as int) {
            let q = choose|q: int| fits_i32(q) && #[trigger] (q * (y as int)) == x as int;
            lemma_checked_div_exact(x, y, q);
            assert((y as int) * q == x as int) by (nonlinear_arith)
                requires
                    q * (y as int) == x as int,
            ;
        } else {
            match x.checked_div(y) {
                Some(d) => {
                    if (y as int) * (d as int) == x as int {
                        assert((d as int) * (y as int) == x as int) by (nonlinear_arith)
                            requires
                                (y as int) * (d as int) == x as int,
                        ;
                        assert(fits_i32(d as int));
                        assert(i32_quotient_exists(x as int, y as int));
                    }
                },
                None => {},
            }
        }
    }
    if kind == ArithKind::Mod && y != 0 && !(x == i32::MIN && y == -1) {
        lemma_checked_rem_zero(x, y);
    }
}

} // verus!
