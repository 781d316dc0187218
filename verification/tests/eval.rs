use cohdl_check::ast::{BinOp, Expr, Ident, Span, UnaryOp, UnitType, UnitValue};
use cohdl_check::diag::{Code, Diagnostics};
use cohdl_check::eval::{
    eval, eval_if_concrete, length_text, length_value, type_check, Env, NameKind, Ty, Value,
};

fn sp(start: usize, end: usize) -> Span {
    Span { file: 0, start, end }
}

fn lit(n: i64) -> Expr {
    Expr::Int(n, sp(0, 1))
}

fn mm(femto: i128, text: &str) -> Expr {
    Expr::Length(
        UnitValue { unit: UnitType::Length, femto, text: text.to_string() },
        sp(0, 1),
    )
}

fn bin(op: BinOp, l: Expr, r: Expr) -> Expr {
    Expr::Binary { op, lhs: Box::new(l), rhs: Box::new(r), span: sp(0, 10) }
}

fn neg(e: Expr) -> Expr {
    Expr::Unary { op: UnaryOp::Neg, rhs: Box::new(e), span: sp(0, 10) }
}

fn paren(e: Expr) -> Expr {
    Expr::Paren(Box::new(e), sp(0, 10))
}

fn name(n: &str) -> Expr {
    Expr::Name(Ident { name: n.to_string(), span: sp(0, n.len()) })
}

fn ev(e: &Expr) -> Result<Value, String> {
    let env = Env::empty();
    let mut diags = Diagnostics::new();
    match eval(e, &env, &mut diags) {
        Some(v) if !diags.has_errors() => Ok(v),
        _ => Err(diags.render()),
    }
}

fn femto(v: &Value) -> i128 {
    match v {
        Value::Length(u) => u.femto,
        Value::Int(_) => panic!("expected a Length"),
    }
}

const MM: i128 = 1_000_000_000_000_000;

#[test]
fn precedence_and_assoc() {
    // 2 + 3 * 4
    let e = bin(BinOp::Add, lit(2), bin(BinOp::Mul, lit(3), lit(4)));
    assert!(matches!(ev(&e), Ok(Value::Int(14))));
    // 10 - 4 - 3
    let e = bin(BinOp::Sub, bin(BinOp::Sub, lit(10), lit(4)), lit(3));
    assert!(matches!(ev(&e), Ok(Value::Int(3))));
    // 7 / 2
    assert!(matches!(ev(&bin(BinOp::Div, lit(7), lit(2))), Ok(Value::Int(3))));
    // -7 / 2
    assert!(matches!(ev(&bin(BinOp::Div, lit(-7), lit(2))), Ok(Value::Int(-3))));
    // -7 % 2
    assert!(matches!(ev(&bin(BinOp::Rem, lit(-7), lit(2))), Ok(Value::Int(-1))));
    // (1 + 2) * 3
    let e = bin(BinOp::Mul, paren(bin(BinOp::Add, lit(1), lit(2))), lit(3));
    assert!(matches!(ev(&e), Ok(Value::Int(9))));
}

#[test]
fn int_domain_errors() {
    assert!(ev(&bin(BinOp::Add, lit(9223372036854775807), lit(1))).unwrap_err().contains("E1402"));
    assert!(ev(&bin(BinOp::Div, lit(i64::MIN), lit(-1))).unwrap_err().contains("E1402"));
    assert!(ev(&bin(BinOp::Div, lit(1), lit(0))).unwrap_err().contains("E1403"));
    assert!(ev(&bin(BinOp::Rem, lit(1), lit(0))).unwrap_err().contains("E1403"));
    assert!(ev(&neg(paren(lit(i64::MIN)))).unwrap_err().contains("E1402"));
}

#[test]
fn length_domain() {
    // 10mm + 2 * 4mm
    let e = bin(BinOp::Add, mm(10 * MM, "10mm"), bin(BinOp::Mul, lit(2), mm(4 * MM, "4mm")));
    assert_eq!(femto(&ev(&e).unwrap()), 18_000_000_000_000_000);
    // 1.00mm + 0mm
    let e = bin(BinOp::Add, mm(MM, "1.00mm"), mm(0, "0mm"));
    assert_eq!(femto(&ev(&e).unwrap()), 1_000_000_000_000_000);
    assert_eq!(length_text(1_000_000_000_000_000), "1mm");
    assert_eq!(length_text(-500_000_000_000_000), "-0.5mm");
    // 1mm / 8
    assert_eq!(femto(&ev(&bin(BinOp::Div, mm(MM, "1mm"), lit(8))).unwrap()), 125_000_000_000_000);
    // 1mm / 3
    assert!(ev(&bin(BinOp::Div, mm(MM, "1mm"), lit(3))).unwrap_err().contains("E1402"));
    // 10mm + 2
    assert!(ev(&bin(BinOp::Add, mm(10 * MM, "10mm"), lit(2))).unwrap_err().contains("E1401"));
    // 1mm * 1mm
    assert!(ev(&bin(BinOp::Mul, mm(MM, "1mm"), mm(MM, "1mm"))).unwrap_err().contains("E1401"));
    // 1mm / 0
    assert!(ev(&bin(BinOp::Div, mm(MM, "1mm"), lit(0))).unwrap_err().contains("E1403"));
}

#[test]
fn non_length_unit_literal_is_e1401() {
    let volts = || {
        Expr::Length(
            UnitValue { unit: UnitType::Voltage, femto: 3 * MM, text: "3V".to_string() },
            sp(0, 2),
        )
    };
    assert!(ev(&volts()).unwrap_err().contains("E1401"));
    assert!(ev(&bin(BinOp::Add, volts(), mm(MM, "1mm"))).unwrap_err().contains("E1401"));
}

#[test]
fn unknown_names_and_arrays() {
    let expr = bin(BinOp::Add, name("MYSTERY"), lit(1));
    let mut diags = Diagnostics::new();
    let v = eval(&expr, &Env::empty(), &mut diags);
    assert!(v.is_none());
    let r = diags.render();
    assert!(r.contains("E202") && r.contains("MYSTERY"), "{r}");

    let expr = Expr::Len(Ident { name: "arr".to_string(), span: sp(0, 3) }, sp(0, 7));
    let mut diags = Diagnostics::new();
    let v = eval(&expr, &Env::empty(), &mut diags);
    assert!(v.is_none());
    let r = diags.render();
    assert!(r.contains("E202") && r.contains("unknown array"), "{r}");
}

#[test]
fn type_check_unknown_names_type_without_values() {
    // (X + X) * Y
    let expr = bin(BinOp::Mul, paren(bin(BinOp::Add, name("X"), name("X"))), name("Y"));
    let mut env = Env::empty();
    env.names.insert("X".to_string(), NameKind::Unknown(Ty::Length));
    env.names.insert("Y".to_string(), NameKind::Unknown(Ty::Int));
    let mut diags = Diagnostics::new();
    let t = type_check(&expr, &env, &mut diags);
    let rr = diags.render();
    assert!(!diags.has_errors(), "unknown-typed names must type-check:\n{rr}");
    assert!(matches!(t, Some(Ty::Length)));
}

#[test]
fn type_check_surfaces_known_zero_divisor() {
    // (1 / 0) * X
    let expr = bin(BinOp::Mul, paren(bin(BinOp::Div, lit(1), lit(0))), name("X"));
    let mut env = Env::empty();
    env.names.insert("X".to_string(), NameKind::Unknown(Ty::Int));
    let mut diags = Diagnostics::new();
    let _ = type_check(&expr, &env, &mut diags);
    let r = diags.render();
    assert!(r.contains("E1403"), "a known zero divisor must surface:\n{r}");
}

#[test]
fn length_value_helpers() {
    let v = length_value(-500_000_000_000_000);
    assert_eq!(v.text, "-0.5mm");
    assert_eq!(v.unit, UnitType::Length);
    assert_eq!(v.femto, -500_000_000_000_000);
}

#[test]
fn computed_lengths_carry_canonical_text() {
    // 1mm / 8 is 0.125mm; 3mm - 4mm is -1mm; 2 * 1.50mm is 3mm
    let v = ev(&bin(BinOp::Div, mm(MM, "1mm"), lit(8))).unwrap();
    assert!(matches!(&v, Value::Length(u) if u.text == "0.125mm"));
    let v = ev(&bin(BinOp::Sub, mm(3 * MM, "3mm"), mm(4 * MM, "4mm"))).unwrap();
    assert!(matches!(&v, Value::Length(u) if u.text == "-1mm"));
    let v = ev(&bin(BinOp::Mul, lit(2), mm(3 * MM / 2, "1.50mm"))).unwrap();
    assert!(matches!(&v, Value::Length(u) if u.text == "3mm"));
    // a literal keeps its own spelling
    let v = ev(&paren(mm(3 * MM / 2, "1.50mm"))).unwrap();
    assert!(matches!(&v, Value::Length(u) if u.text == "1.50mm"));
    assert_eq!(length_text(0), "0mm");
    assert_eq!(length_text(1), "0.000000000000001mm");
    assert_eq!(length_text(12_345_000_000_000_000_000), "12345mm");
}

#[test]
fn diagnostic_messages_name_the_expression() {
    let e = bin(BinOp::Add, lit(9223372036854775807), lit(1));
    let r = ev(&e).unwrap_err();
    assert_eq!(r, "error[E1402]: Int overflow in `9223372036854775807 + 1`\n");
    let r = ev(&bin(BinOp::Div, lit(1), lit(0))).unwrap_err();
    assert_eq!(r, "error[E1403]: division by zero in `1 / 0`\n");
    let r = ev(&bin(BinOp::Add, mm(10 * MM, "10mm"), lit(2))).unwrap_err();
    assert_eq!(
        r,
        "error[E1401]: `10mm + 2`: a Length + an Int is not a supported operation — Int combines with Int; Length adds/subtracts Length, scales by Int, divides by Int\n"
    );
}

#[test]
fn names_in_the_environment() {
    let mut env = Env::empty();
    env.names.insert("N".to_string(), NameKind::Const(Value::Int(4)));
    env.names.insert("i".to_string(), NameKind::Binder(2));
    env.names.insert(
        "P".to_string(),
        NameKind::GenericLength(UnitValue {
            unit: UnitType::Length,
            femto: 2 * MM,
            text: "2.0mm".to_string(),
        }),
    );
    env.names.insert("p".to_string(), NameKind::NonValue);
    env.array_lens.insert("a".to_string(), 3);
    env.unknown_arrays.insert("b".to_string(), ());
    let mut d = Diagnostics::new();
    // N * i + a.len = 11
    let alen = Expr::Len(Ident { name: "a".to_string(), span: sp(0, 1) }, sp(0, 5));
    let e = bin(BinOp::Add, bin(BinOp::Mul, name("N"), name("i")), alen);
    assert!(matches!(eval(&e, &env, &mut d), Some(Value::Int(11))));
    // a forwarded generic keeps its spelling
    assert!(matches!(eval(&name("P"), &env, &mut d), Some(Value::Length(u)) if u.text == "2.0mm"));
    assert!(!d.has_errors());
    // an array of unknown length has no value but no error either
    let blen = Expr::Len(Ident { name: "b".to_string(), span: sp(0, 1) }, sp(0, 5));
    assert!(eval(&blen, &env, &mut d).is_none());
    assert!(!d.has_errors());
    assert!(matches!(type_check(&blen, &env, &mut d), Some(Ty::Int)));
    // a pin is known but not a value
    assert!(eval(&name("p"), &env, &mut d).is_none());
    assert_eq!(d.get(0).code, Code::E1401);
    // `.len` of a non-array name
    let plen = Expr::Len(Ident { name: "p".to_string(), span: sp(0, 1) }, sp(0, 5));
    assert!(eval(&plen, &env, &mut d).is_none());
    assert_eq!(d.get(1).code, Code::E1401);
    assert!(d.get(1).message.contains("is not an array"));
    // only fully known expressions are evaluated by eval_if_concrete
    assert!(eval_if_concrete(&bin(BinOp::Add, name("N"), lit(1)), &env).is_some());
    assert!(eval_if_concrete(&bin(BinOp::Add, blen, lit(1)), &env).is_none());
}

#[test]
fn scaling_commutes_and_division_undoes_it() {
    let left = ev(&bin(BinOp::Mul, lit(-3), mm(7 * MM / 2, "3.5mm"))).unwrap();
    let right = ev(&bin(BinOp::Mul, mm(7 * MM / 2, "3.5mm"), lit(-3))).unwrap();
    assert_eq!(femto(&left), -21 * MM / 2);
    assert_eq!(femto(&right), femto(&left));
    let back = ev(&bin(BinOp::Div, bin(BinOp::Mul, mm(7 * MM / 2, "3.50mm"), lit(-3)), lit(-3))).unwrap();
    assert_eq!(femto(&back), 7 * MM / 2);
    match back {
        Value::Length(u) => assert_eq!(u.text, "3.5mm"),
        Value::Int(_) => panic!("expected a Length"),
    }
}

#[test]
fn values_come_without_errors_and_silence_means_unknown() {
    let mut env = Env::empty();
    env.names.insert("U".to_string(), NameKind::Unknown(Ty::Int));
    let mut d = Diagnostics::new();
    let t = type_check(&bin(BinOp::Add, lit(1), lit(2)), &env, &mut d);
    assert!(matches!(t, Some(Ty::Int)));
    assert_eq!(d.len(), 0);
    let r = eval(&bin(BinOp::Add, name("U"), lit(2)), &env, &mut d);
    assert!(r.is_none());
    assert_eq!(d.len(), 0);
    assert!(eval_if_concrete(&bin(BinOp::Add, name("U"), lit(2)), &env).is_none());
    let r = eval(&bin(BinOp::Div, lit(1), lit(0)), &env, &mut d);
    assert!(r.is_none());
    assert_eq!(d.get(0).code, Code::E1403);
}
