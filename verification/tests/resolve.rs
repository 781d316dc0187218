use cohdl_check::ast::{BinOp, Expr, Ident, Span};
use cohdl_check::diag::{Code, Diagnostics};
use cohdl_check::eval::{resolve_locals, Env, LocalExpr, NameKind, Ty, Value};

fn sp(start: usize) -> Span {
    Span { file: 0, start, end: start + 1 }
}

fn id(n: &str, at: usize) -> Ident {
    Ident { name: n.to_string(), span: sp(at) }
}

fn lit(n: i64) -> Expr {
    Expr::Int(n, sp(0))
}

fn name(n: &str) -> Expr {
    Expr::Name(id(n, 0))
}

fn add(l: Expr, r: Expr) -> Expr {
    Expr::Binary { op: BinOp::Add, lhs: Box::new(l), rhs: Box::new(r), span: sp(0) }
}

fn konst(n: &str, at: usize, value: Expr) -> LocalExpr {
    LocalExpr { name: id(n, at), value, ty: Some(Ty::Int), span: sp(at) }
}

fn array(n: &str, at: usize, value: Expr) -> LocalExpr {
    LocalExpr { name: id(n, at), value, ty: None, span: sp(at) }
}

fn int_of(env: &Env, n: &str) -> Option<i64> {
    match env.names.get(&n.to_string()) {
        Some(NameKind::Const(Value::Int(v))) => Some(*v),
        _ => None,
    }
}

#[test]
fn forward_references_resolve_to_their_values() {
    let mut env = Env::empty();
    let mut d = Diagnostics::new();
    let locals = vec![konst("A", 1, add(name("C"), lit(1))), konst("C", 2, lit(2)), array("arr", 3, name("A"))];
    resolve_locals(&locals, &mut env, &Vec::new(), &mut d);
    assert_eq!(d.len(), 0, "{}", d.render());
    assert_eq!(int_of(&env, "A"), Some(3));
    assert_eq!(int_of(&env, "C"), Some(2));
    assert_eq!(env.array_lens.get(&"arr".to_string()), Some(&3));
    assert!(!env.unknown_arrays.contains_key(&"arr".to_string()));
}

#[test]
fn cycles_get_no_value_and_one_report() {
    let mut env = Env::empty();
    let mut d = Diagnostics::new();
    let locals = vec![konst("A", 1, name("B")), konst("B", 2, name("A")), konst("S", 3, add(name("S"), lit(1)))];
    resolve_locals(&locals, &mut env, &Vec::new(), &mut d);
    assert_eq!(int_of(&env, "A"), None);
    assert_eq!(int_of(&env, "S"), None);
    let codes: Vec<Code> = (0..d.len()).map(|i| d.get(i).code).collect();
    assert_eq!(codes, vec![Code::E1407, Code::E1407], "{}", d.render());
    assert_eq!(d.get(0).message, "cyclic dependency: `A` → `B` → `A`");
    assert_eq!(d.get(1).message, "cyclic dependency: `S` → `S`");
    assert!(matches!(env.names.get(&"B".to_string()), Some(NameKind::Unknown(Ty::Int))));
}

#[test]
fn short_arrays_and_wrong_kinds() {
    let mut env = Env::empty();
    let mut d = Diagnostics::new();
    resolve_locals(&vec![array("a", 1, lit(0))], &mut env, &Vec::new(), &mut d);
    assert_eq!(d.get(0).code, Code::E211);
    assert_eq!(d.get(0).message, "array length `0` must be 1 or more");
    assert!(env.unknown_arrays.contains_key(&"a".to_string()));

    let mut env = Env::empty();
    let mut d = Diagnostics::new();
    let two_mm = Expr::Length(
        cohdl_check::ast::UnitValue {
            unit: cohdl_check::ast::UnitType::Length,
            femto: 2_000_000_000_000_000,
            text: "2mm".to_string(),
        },
        sp(0),
    );
    resolve_locals(&vec![konst("N", 1, two_mm)], &mut env, &Vec::new(), &mut d);
    assert_eq!(d.get(0).code, Code::E1401);
    assert_eq!(d.get(0).message, "const `N` must be an Int, but `2mm` is a Length");
    assert!(matches!(env.names.get(&"N".to_string()), Some(NameKind::Unknown(Ty::Int))));
}

#[test]
fn failed_sites_are_not_evaluated_again() {
    let mut env = Env::empty();
    let mut d = Diagnostics::new();
    let locals = vec![konst("A", 1, Expr::Int(5, Span { file: 0, start: 10, end: 11 }))];
    let failed = vec![Span { file: 0, start: 10, end: 11 }];
    resolve_locals(&locals, &mut env, &failed, &mut d);
    assert_eq!(d.len(), 0);
    assert_eq!(int_of(&env, "A"), None);
}

fn bin(op: BinOp, l: Expr, r: Expr, at: usize) -> Expr {
    Expr::Binary { op, lhs: Box::new(l), rhs: Box::new(r), span: sp(at) }
}

fn codes(d: &Diagnostics) -> Vec<Code> {
    (0..d.len()).map(|i| d.get(i).code).collect()
}

#[test]
fn mixed_const_array_cycle_reports_one_chain() {
    let mut env = Env::empty();
    let mut d = Diagnostics::new();
    let locals = vec![
        konst("N", 1, Expr::Len(id("a", 5), sp(5))),
        array("a", 2, name("N")),
    ];
    resolve_locals(&locals, &mut env, &Vec::new(), &mut d);
    assert_eq!(codes(&d), vec![Code::E1407], "{}", d.render());
    assert_eq!(d.get(0).message, "cyclic dependency: `N` → `a`.len → `N`");
    assert!(matches!(env.names.get(&"N".to_string()), Some(NameKind::Unknown(Ty::Int))));
    assert!(env.unknown_arrays.contains_key(&"a".to_string()));
    assert!(env.array_lens.get(&"a".to_string()).is_none());
}

#[test]
fn later_locals_are_visible_and_zero_divisors_reported() {
    let mut env = Env::empty();
    let mut d = Diagnostics::new();
    let locals = vec![
        konst("ZERO", 1, bin(BinOp::Sub, name("OTHER"), lit(2), 1)),
        konst("OTHER", 2, lit(2)),
        konst("BAD", 3, bin(BinOp::Div, lit(1), name("ZERO"), 30)),
    ];
    resolve_locals(&locals, &mut env, &Vec::new(), &mut d);
    assert_eq!(int_of(&env, "OTHER"), Some(2));
    assert_eq!(int_of(&env, "ZERO"), Some(0));
    assert!(matches!(env.names.get(&"BAD".to_string()), Some(NameKind::Unknown(Ty::Int))));
    assert_eq!(codes(&d), vec![Code::E1403], "{}", d.render());
    assert_eq!(d.get(0).span, sp(30));
}

#[test]
fn mutual_constants_report_one_cycle_and_stay_unknown() {
    let mut env = Env::empty();
    let mut d = Diagnostics::new();
    let locals = vec![konst("A", 1, name("B")), konst("B", 2, name("A"))];
    resolve_locals(&locals, &mut env, &Vec::new(), &mut d);
    assert_eq!(codes(&d), vec![Code::E1407], "{}", d.render());
    assert_eq!(d.get(0).message, "cyclic dependency: `A` → `B` → `A`");
    assert!(matches!(env.names.get(&"A".to_string()), Some(NameKind::Unknown(Ty::Int))));
    assert!(matches!(env.names.get(&"B".to_string()), Some(NameKind::Unknown(Ty::Int))));
}

#[test]
fn array_lengths_are_recorded_or_rejected() {
    let mut env = Env::empty();
    let mut d = Diagnostics::new();
    resolve_locals(&vec![array("a", 1, lit(2))], &mut env, &Vec::new(), &mut d);
    assert_eq!(d.len(), 0);
    assert_eq!(env.array_lens.get(&"a".to_string()), Some(&2));
    assert!(!env.unknown_arrays.contains_key(&"a".to_string()));

    let mut env = Env::empty();
    let mut d = Diagnostics::new();
    let locals = vec![konst("N", 1, bin(BinOp::Sub, lit(0), lit(1), 1)), array("b", 2, Expr::Paren(Box::new(name("N")), sp(20)))];
    resolve_locals(&locals, &mut env, &Vec::new(), &mut d);
    assert_eq!(int_of(&env, "N"), Some(-1));
    assert_eq!(codes(&d), vec![Code::E211], "{}", d.render());
    assert_eq!(d.get(0).message, "array length `-1` must be 1 or more");
    assert_eq!(d.get(0).span, sp(20));
    assert!(env.unknown_arrays.contains_key(&"b".to_string()));
    assert!(env.array_lens.get(&"b".to_string()).is_none());
}

#[test]
fn unknown_inputs_leave_locals_unknown() {
    let mut env = Env::empty();
    env.names.insert("P".to_string(), NameKind::Unknown(Ty::Int));
    let mut d = Diagnostics::new();
    let locals = vec![konst("Q", 1, add(name("P"), lit(1))), array("c", 2, name("Q"))];
    resolve_locals(&locals, &mut env, &Vec::new(), &mut d);
    assert_eq!(d.len(), 0, "{}", d.render());
    assert!(matches!(env.names.get(&"Q".to_string()), Some(NameKind::Unknown(Ty::Int))));
    assert!(env.unknown_arrays.contains_key(&"c".to_string()));
}
