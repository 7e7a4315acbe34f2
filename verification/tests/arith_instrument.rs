//! Arithmetic-site instrumentation: recording, the report's aggregates and
//! the per-operator deopt predicates.

use boa_vm::arith_instrument::{i32_deopts, ArithKind, Counts, OperandClass, Registry, SiteKey};

fn counts(total: u64, mono_i32: u64, i32_ovf: u64, float64: u64, other: u64) -> Counts {
    Counts { total, mono_i32, i32_ovf, float64, other }
}

#[test]
fn record_counts_each_class_per_site() {
    let mut r = Registry::new();
    let key = SiteKey { code_block: 0x1000, pc: 4, kind: ArithKind::Add };
    assert_eq!(r.get(key), None);
    r.record(0x1000, 4, ArithKind::Add, OperandClass::MonoI32);
    r.record(0x1000, 4, ArithKind::Add, OperandClass::MonoI32);
    r.record(0x1000, 4, ArithKind::Add, OperandClass::I32Overflow);
    r.record(0x1000, 4, ArithKind::Add, OperandClass::F64);
    r.record(0x1000, 4, ArithKind::Add, OperandClass::Other);
    assert_eq!(r.get(key), Some(counts(5, 2, 1, 1, 1)));
    // Another kind at the same pc is another site.
    r.record(0x1000, 4, ArithKind::Sub, OperandClass::Other);
    assert_eq!(r.get(key), Some(counts(5, 2, 1, 1, 1)));
    assert_eq!(r.get(SiteKey { kind: ArithKind::Sub, ..key }), Some(counts(1, 0, 0, 0, 1)));
    assert_eq!(r.sites.len(), 2);
}

#[test]
fn summary_of_sites() {
    let mut r = Registry::new();
    for _ in 0..3 {
        r.record(1, 0, ArithKind::Add, OperandClass::MonoI32);
    }
    r.record(1, 13, ArithKind::Mul, OperandClass::F64);
    for _ in 0..5 {
        r.record(2, 0, ArithKind::Add, OperandClass::Other);
    }
    let s = r.summarize();
    assert_eq!(s.n_sites, 3);
    assert_eq!(s.grand, counts(9, 3, 0, 1, 5));
    assert_eq!(s.by_kind.len(), 2);
    assert_eq!(s.by_kind[0], (ArithKind::Add, counts(8, 3, 0, 0, 5)));
    assert_eq!(s.by_kind[1], (ArithKind::Mul, counts(1, 0, 0, 1, 0)));
    let totals: Vec<u64> = s.by_site.iter().map(|(_, c)| c.total).collect();
    assert_eq!(totals, vec![5, 3, 1]);
    assert_eq!(s.by_site[0].0, SiteKey { code_block: 2, pc: 0, kind: ArithKind::Add });
    assert_eq!(s.top_totals, vec![5, 9, 9, 9, 9]);
}

#[test]
fn summary_of_nothing() {
    let s = Registry::new().summarize();
    assert_eq!(s.n_sites, 0);
    assert_eq!(s.grand, counts(0, 0, 0, 0, 0));
    assert!(s.by_kind.is_empty() && s.by_site.is_empty());
    assert_eq!(s.top_totals, vec![0; 5]);
}

#[test]
fn report_names_of_kinds() {
    assert_eq!(ArithKind::Add.as_str(), "Add");
    assert_eq!(ArithKind::Shl.as_str(), "ShiftLeft");
    assert_eq!(ArithKind::Ushr.as_str(), "UnsignedShiftRight");
    assert_eq!(ArithKind::Le.as_str(), "LessThanOrEq");
}

#[test]
fn add_sub_deopt_on_overflow() {
    assert!(!i32_deopts(ArithKind::Add, i32::MAX - 1, 1));
    assert!(i32_deopts(ArithKind::Add, i32::MAX, 1));
    assert!(i32_deopts(ArithKind::Sub, i32::MIN, 1));
    assert!(!i32_deopts(ArithKind::Sub, -5, 7));
}

#[test]
fn mul_deopts_on_overflow_and_negative_zero() {
    assert!(!i32_deopts(ArithKind::Mul, 6, 7));
    assert!(i32_deopts(ArithKind::Mul, 65536, 65536));
    assert!(i32_deopts(ArithKind::Mul, 0, -3));
    assert!(!i32_deopts(ArithKind::Mul, 0, 3));
}

#[test]
fn div_deopts_unless_exact() {
    assert!(!i32_deopts(ArithKind::Div, 6, 3));
    assert!(!i32_deopts(ArithKind::Div, -6, 3));
    assert!(i32_deopts(ArithKind::Div, 7, 2));
    assert!(i32_deopts(ArithKind::Div, 1, 0));
    assert!(i32_deopts(ArithKind::Div, i32::MIN, -1));
}

#[test]
fn pow_deopts_on_negative_exponent_or_overflow() {
    assert!(!i32_deopts(ArithKind::Pow, 2, 30));
    assert!(i32_deopts(ArithKind::Pow, 2, 31));
    assert!(!i32_deopts(ArithKind::Pow, -2, 31));
    assert!(i32_deopts(ArithKind::Pow, 2, -1));
    assert!(!i32_deopts(ArithKind::Pow, 1, i32::MAX));
    assert!(!i32_deopts(ArithKind::Pow, -1, i32::MAX));
    assert!(!i32_deopts(ArithKind::Pow, 0, 0));
    assert!(i32_deopts(ArithKind::Pow, 3, 1000));
}

#[test]
fn mod_deopts_on_zero_divisor_and_negative_zero() {
    assert!(i32_deopts(ArithKind::Mod, 5, 0));
    assert!(i32_deopts(ArithKind::Mod, -4, 2));
    assert!(!i32_deopts(ArithKind::Mod, -5, 2));
    assert!(!i32_deopts(ArithKind::Mod, 4, 2));
}

#[test]
fn comparisons_and_bitwise_never_deopt() {
    for kind in [ArithKind::BitAnd, ArithKind::Shl, ArithKind::Eq, ArithKind::Lt] {
        assert!(!i32_deopts(kind, i32::MIN, -1));
    }
}
