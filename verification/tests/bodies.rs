use cohdl_check::ast::{
    BinOp, CallStmt, ConstStmt, ConstTy, DesignDef, DeviceDef, Expr, FnDef, FnParam, FnParamTy,
    ForStmt, GenericBound, GenericParam, Ident, InstStmt, LayoutBlock, LayoutFor, NcStmt, NetStmt,
    PartDef, PinDef, PinRef, Port, PortConn, Span, Stmt, SubdesignDef, SubdesignUseStmt, TypeRef,
    UnitType, UnitValue,
};
use cohdl_check::bodies::{
    check_design_bodies, check_fn_bodies, check_layout_bound, check_loop_body_bound,
    check_subdesign_body, checked_int,
};
use cohdl_check::diag::{Code, Diagnostics};
use cohdl_check::eval::NameKind;
use cohdl_check::strmap::StrMap;
use cohdl_check::world::World;

fn sp(start: usize) -> Span {
    Span { file: 0, start, end: start + 1 }
}

fn id(n: &str) -> Ident {
    Ident { name: n.to_string(), span: sp(0) }
}

fn id_at(n: &str, at: usize) -> Ident {
    Ident { name: n.to_string(), span: sp(at) }
}

fn lit(n: i64) -> Expr {
    Expr::Int(n, sp(0))
}

fn name(n: &str) -> Expr {
    Expr::Name(id(n))
}

fn mm2() -> Expr {
    Expr::Length(UnitValue { unit: UnitType::Length, femto: 2_000_000_000_000_000, text: "2mm".to_string() }, sp(0))
}

fn ty(n: &str) -> TypeRef {
    TypeRef { name: id(n), variant: None, generic_args: Vec::new(), span: sp(0) }
}

fn pin(base: &str, p: Option<&str>) -> PinRef {
    PinRef { base: id(base), index: None, pin: p.map(id), span: sp(0) }
}

fn inst(n: &str, t: &str, at: usize) -> Stmt {
    Stmt::Inst(InstStmt { attrs: Vec::new(), name: id_at(n, at), ty: ty(t), array_len: None, span: sp(at) })
}

fn net(members: Vec<PinRef>) -> Stmt {
    Stmt::Net(NetStmt { name: None, members, span: sp(0) })
}

fn nc(members: Vec<PinRef>) -> Stmt {
    Stmt::Nc(NcStmt { members, span: sp(0) })
}

fn konst(n: &str, t: ConstTy, value: Expr) -> Stmt {
    Stmt::Const(ConstStmt { name: id(n), ty: t, value, span: sp(0) })
}

fn for_loop(label: &str, binder: &str, end: Expr, body: Vec<Stmt>) -> Stmt {
    Stmt::For(ForStmt { label: id(label), binder: id(binder), start: lit(0), end, body, span: sp(0) })
}

fn pin_param(n: &str) -> FnParam {
    FnParam { name: id(n), ty: FnParamTy::Pin(sp(0)), span: sp(0) }
}

fn int_generic(n: &str) -> GenericParam {
    GenericParam { name: id(n), bound: GenericBound::Int(sp(0)), default: None }
}

fn div(l: Expr, r: Expr) -> Expr {
    Expr::Binary { op: BinOp::Div, lhs: Box::new(l), rhs: Box::new(r), span: sp(7) }
}

/// A package with a two-pin capacitor part and a two-pin host part.
fn library() -> World {
    let mut w = World::new();
    for (dev, part, pins) in [("CapDev", "C100N", ["A", "B"]), ("Host", "HOST", ["P", "Q"])] {
        w.devices.insert(
            dev.to_string(),
            DeviceDef {
                name: id(dev),
                generics: Vec::new(),
                pins: pins.iter().map(|p| PinDef { name: id(p) }).collect(),
                variants: Vec::new(),
            },
        );
        w.parts.insert(part.to_string(), PartDef { name: id(part), device: ty(dev) });
    }
    w.traits.insert("Cap".to_string(), ());
    w
}

fn add_fn(w: &mut World, n: &str, generics: Vec<GenericParam>, params: Vec<FnParam>, body: Vec<Stmt>) {
    w.fns.insert(n.to_string(), FnDef { name: id(n), generics, params, body });
}

fn codes(d: &Diagnostics) -> Vec<Code> {
    (0..d.len()).map(|i| d.get(i).code).collect()
}

fn messages(d: &Diagnostics) -> Vec<String> {
    (0..d.len()).map(|i| d.get(i).message.clone()).collect()
}

#[test]
fn uncalled_fn_duplicate_local_is_reported() {
    let mut w = library();
    add_fn(
        &mut w,
        "unused",
        Vec::new(),
        vec![pin_param("p")],
        vec![
            inst("c", "C100N", 10),
            inst("c", "C100N", 20),
            net(vec![pin("p", None), pin("c", Some("A"))]),
            nc(vec![pin("c", Some("B"))]),
        ],
    );
    let mut d = Diagnostics::new();
    check_fn_bodies(&w, &mut d);
    assert_eq!(codes(&d), vec![Code::E201]);
    assert_eq!(d.get(0).message, "`c` is already defined in this scope");
    assert_eq!(d.get(0).span.start, 20);
}

#[test]
fn empty_loop_hides_nothing_decidable() {
    let mut w = library();
    add_fn(
        &mut w,
        "f",
        vec![int_generic("N")],
        vec![pin_param("p")],
        vec![for_loop(
            "empty",
            "i",
            lit(0),
            vec![konst("BAD", ConstTy::Int, div(name("i"), lit(0))), net(vec![pin("p", None)])],
        )],
    );
    let mut d = Diagnostics::new();
    check_fn_bodies(&w, &mut d);
    assert!(codes(&d).contains(&Code::E1403), "{:?}", messages(&d));

    let mut w = library();
    add_fn(
        &mut w,
        "g",
        Vec::new(),
        vec![pin_param("p")],
        vec![for_loop("empty", "i", lit(0), vec![net(vec![pin("missing", Some("P"))])])],
    );
    let mut d = Diagnostics::new();
    check_fn_bodies(&w, &mut d);
    assert_eq!(codes(&d), vec![Code::E202]);
    assert_eq!(d.get(0).message, "unknown instance or parameter `missing` in this scope");

    let mut w = library();
    add_fn(
        &mut w,
        "h",
        Vec::new(),
        vec![pin_param("p")],
        vec![for_loop(
            "empty",
            "i",
            lit(0),
            vec![konst("X", ConstTy::Int, div(lit(1), name("i"))), net(vec![pin("p", None)])],
        )],
    );
    let mut d = Diagnostics::new();
    check_fn_bodies(&w, &mut d);
    assert!(!codes(&d).contains(&Code::E1403), "1 / i waits for a real i: {:?}", messages(&d));
}

#[test]
fn const_and_loop_bound_kinds_in_a_design() {
    let mut w = library();
    w.designs.insert(
        "Board".to_string(),
        DesignDef { name: id("Board"), body: vec![konst("A", ConstTy::Int, mm2()), inst("h", "HOST", 0)] },
    );
    let mut d = Diagnostics::new();
    check_design_bodies(&w, &mut d);
    assert!(codes(&d).contains(&Code::E1401), "{:?}", messages(&d));

    let mut w = library();
    w.designs.insert(
        "Board".to_string(),
        DesignDef {
            name: id("Board"),
            body: vec![
                konst("L", ConstTy::Length, mm2()),
                inst("h", "HOST", 0),
                for_loop("x", "i", name("L"), vec![net(vec![pin("h", Some("P"))])]),
            ],
        },
    );
    let mut d = Diagnostics::new();
    check_design_bodies(&w, &mut d);
    assert!(codes(&d).contains(&Code::E1401), "{:?}", messages(&d));
}

fn sub_use(n: &str, t: &str, conns: Vec<PortConn>) -> Stmt {
    Stmt::SubdesignUse(SubdesignUseStmt { name: id(n), ty: ty(t), array_len: None, conns, span: sp(33) })
}

#[test]
fn fn_body_rejects_a_use_site_that_a_subdesign_admits() {
    let mut w = library();
    w.subdesigns.insert(
        "S".to_string(),
        SubdesignDef { name: id("S"), generics: Vec::new(), ports: vec![Port { name: id("P"), span: sp(0) }], body: Vec::new() },
    );
    add_fn(&mut w, "f", Vec::new(), vec![pin_param("p")], vec![sub_use("s", "S", Vec::new())]);
    let mut d = Diagnostics::new();
    check_fn_bodies(&w, &mut d);
    assert_eq!(codes(&d), vec![Code::E1307]);
    assert_eq!(
        d.get(0).message,
        "a `subdesign` use site needs a retained hierarchy path — a `fn` expands inline and cannot contain one; move it into the design or a subdesign"
    );
    assert_eq!(d.get(0).span.start, 33);

    let outer = SubdesignDef {
        name: id("Outer"),
        generics: Vec::new(),
        ports: vec![Port { name: id("X"), span: sp(0) }],
        body: vec![sub_use("s", "S", vec![PortConn { port: id("P"), value: pin("X", None), span: sp(0) }])],
    };
    let mut d = Diagnostics::new();
    check_subdesign_body(&w, "Outer", &outer, &mut d);
    assert_eq!(codes(&d), Vec::<Code>::new(), "{:?}", messages(&d));
}

#[test]
fn port_references_are_checked_against_the_use_site() {
    let mut w = library();
    w.subdesigns.insert(
        "S".to_string(),
        SubdesignDef { name: id("S"), generics: Vec::new(), ports: vec![Port { name: id("P"), span: sp(0) }], body: Vec::new() },
    );
    w.designs.insert(
        "Board".to_string(),
        DesignDef {
            name: id("Board"),
            body: vec![sub_use("s", "S", Vec::new()), net(vec![pin("s", Some("Q"))])],
        },
    );
    let mut d = Diagnostics::new();
    check_design_bodies(&w, &mut d);
    assert!(codes(&d).contains(&Code::E1301), "{:?}", messages(&d));
    assert!(messages(&d).contains(&"subdesign `S` (use site `s`) has no port named `Q`".to_string()));
}

#[test]
fn pin_references_of_concrete_instances() {
    let mut w = library();
    add_fn(
        &mut w,
        "f",
        Vec::new(),
        vec![pin_param("p")],
        vec![
            inst("c", "C100N", 0),
            net(vec![pin("c", Some("Z")), pin("p", Some("X"))]),
            nc(vec![pin("c", None)]),
        ],
    );
    let mut d = Diagnostics::new();
    check_fn_bodies(&w, &mut d);
    assert_eq!(codes(&d), vec![Code::E203, Code::E602, Code::E602], "{:?}", messages(&d));
    assert_eq!(d.get(0).message, "device `CapDev` (instance `c`) has no pin named `Z`");
    assert_eq!(d.get(1).message, "`p` is a `Pin` parameter — it is already a pin and has no `.X`");
    assert_eq!(d.get(2).message, "`c` is an instance — reference one of its pins (e.g. `c.A`)");
}

#[test]
fn call_arity_and_kinds() {
    let mut w = library();
    add_fn(&mut w, "helper", Vec::new(), vec![pin_param("p")], vec![net(vec![pin("p", None)])]);
    w.designs.insert(
        "Board".to_string(),
        DesignDef {
            name: id("Board"),
            body: vec![
                inst("h", "HOST", 0),
                Stmt::Call(CallStmt {
                    callee: id("helper"),
                    generic_args: Vec::new(),
                    args: vec![pin("h", Some("P")), pin("h", Some("Q"))],
                    span: sp(0),
                }),
                Stmt::Call(CallStmt { callee: id("C100N"), generic_args: Vec::new(), args: Vec::new(), span: sp(0) }),
            ],
        },
    );
    let mut d = Diagnostics::new();
    check_design_bodies(&w, &mut d);
    let c = codes(&d);
    assert!(c.contains(&Code::E502), "{:?}", messages(&d));
    assert!(messages(&d).contains(&"fn `helper` takes 1 argument, but 2 were given".to_string()));
    assert!(c.contains(&Code::E205), "{:?}", messages(&d));
}

#[test]
fn instance_kinds() {
    let mut w = library();
    add_fn(
        &mut w,
        "f",
        vec![GenericParam { name: id("V"), bound: GenericBound::Unit(UnitType::Voltage, sp(0)), default: None }],
        Vec::new(),
        vec![inst("a", "Cap", 0), inst("b", "V", 1)],
    );
    let mut d = Diagnostics::new();
    check_fn_bodies(&w, &mut d);
    assert_eq!(codes(&d), vec![Code::E205, Code::E205]);
    assert_eq!(d.get(0).message, "`Cap` is a trait — `inst` requires a concrete device or part");
    assert_eq!(
        d.get(1).message,
        "`V` is a unit-typed generic value, not a device or part — `inst` requires a concrete device or part"
    );
}

#[test]
fn bound_loop_body_admits_no_instances_and_sees_values() {
    let w = library();
    let mut names: StrMap<NameKind> = StrMap::new();
    names.insert("N".to_string(), NameKind::GenericInt(0));
    let bases: StrMap<()> = StrMap::new();
    let lens: StrMap<i64> = StrMap::new();
    let body = vec![inst("c", "C100N", 5), konst("BAD", ConstTy::Int, div(lit(1), name("N")))];
    let mut d = Diagnostics::new();
    check_loop_body_bound(&w, &body, &names, &bases, &lens, &mut d);
    let c = codes(&d);
    assert!(c.contains(&Code::E1406), "{:?}", messages(&d));
    assert!(c.contains(&Code::E1403), "{:?}", messages(&d));
    assert!(messages(&d).contains(
        &"`inst` is not admitted inside a `for` body — declare the array outside the loop and repeat only connections, calls and placements here".to_string()
    ));
}

#[test]
fn bound_loop_body_reports_a_redeclared_known_name() {
    let w = library();
    let mut names: StrMap<NameKind> = StrMap::new();
    names.insert("K".to_string(), NameKind::Binder(3));
    let bases: StrMap<()> = StrMap::new();
    let lens: StrMap<i64> = StrMap::new();
    let body = vec![konst("K", ConstTy::Int, lit(1))];
    let mut d = Diagnostics::new();
    check_loop_body_bound(&w, &body, &names, &bases, &lens, &mut d);
    assert_eq!(codes(&d), vec![Code::E201]);
}

#[test]
fn layout_loop_labels_are_unique() {
    let w = library();
    let names: StrMap<NameKind> = StrMap::new();
    let lens: StrMap<i64> = StrMap::new();
    let lf = |label: &str| LayoutFor {
        label: id(label),
        binder: id("i"),
        start: lit(0),
        end: lit(2),
        consts: Vec::new(),
        placements: Vec::new(),
        loops: Vec::new(),
        span: sp(0),
    };
    let block = LayoutBlock { consts: Vec::new(), placements: Vec::new(), loops: vec![lf("row"), lf("row")], span: sp(0) };
    let mut d = Diagnostics::new();
    check_layout_bound(&w, &block, &names, &lens, &mut d);
    assert_eq!(codes(&d), vec![Code::E201]);
    assert_eq!(d.get(0).message, "`row` is already defined in this scope");
    let block = LayoutBlock { consts: Vec::new(), placements: Vec::new(), loops: vec![lf("row"), lf("col")], span: sp(0) };
    let mut d = Diagnostics::new();
    check_layout_bound(&w, &block, &names, &lens, &mut d);
    assert_eq!(d.len(), 0);
}

#[test]
fn bare_numbers_for_int_parameters() {
    let mut d = Diagnostics::new();
    assert_eq!(checked_int(&"12".to_string(), sp(0), &mut d), Some(12));
    assert_eq!(checked_int(&"-9223372036854775808".to_string(), sp(0), &mut d), Some(i64::MIN));
    assert_eq!(d.len(), 0);
    assert_eq!(checked_int(&"9223372036854775808".to_string(), sp(0), &mut d), None);
    assert_eq!(d.get(0).code, Code::E1402);
    assert_eq!(d.get(0).message, "`9223372036854775808` does not fit in an Int");
    assert_eq!(checked_int(&"12a".to_string(), sp(0), &mut d), None);
    assert_eq!(d.get(1).code, Code::E1401);
    assert_eq!(d.get(1).message, "`12a` is not an Int literal");
}

#[test]
fn bound_loop_body_with_unknown_divisor_reports_nothing() {
    let w = library();
    let mut names: StrMap<NameKind> = StrMap::new();
    names.insert("N".to_string(), NameKind::Unknown(cohdl_check::eval::Ty::Int));
    let bases: StrMap<()> = StrMap::new();
    let lens: StrMap<i64> = StrMap::new();
    let body = vec![konst("BAD", ConstTy::Int, div(lit(1), name("N")))];
    let mut d = Diagnostics::new();
    check_loop_body_bound(&w, &body, &names, &bases, &lens, &mut d);
    assert_eq!(d.len(), 0, "{:?}", messages(&d));
}

#[test]
fn layout_loop_consts_are_resolved_under_the_bound_values() {
    let w = library();
    let mut names: StrMap<NameKind> = StrMap::new();
    names.insert("Z".to_string(), NameKind::Const(cohdl_check::eval::Value::Int(0)));
    let lens: StrMap<i64> = StrMap::new();
    let inner = LayoutFor {
        label: id("row"),
        binder: id("i"),
        start: lit(0),
        end: lit(2),
        consts: vec![ConstStmt { name: id("Q"), ty: ConstTy::Int, value: div(name("i"), name("Z")), span: sp(0) }],
        placements: Vec::new(),
        loops: Vec::new(),
        span: sp(0),
    };
    let block = LayoutBlock { consts: Vec::new(), placements: Vec::new(), loops: vec![inner], span: sp(0) };
    let mut d = Diagnostics::new();
    check_layout_bound(&w, &block, &names, &lens, &mut d);
    assert_eq!(codes(&d), vec![Code::E1403], "{:?}", messages(&d));
}

#[test]
fn nested_loop_bodies_are_checked_in_fn_bodies() {
    let mut w = library();
    let inner = for_loop("inner", "j", lit(2), vec![net(vec![pin("missing", Some("P"))])]);
    let outer = for_loop("outer", "i", lit(2), vec![inner]);
    add_fn(&mut w, "g", Vec::new(), vec![pin_param("p")], vec![outer]);
    let mut d = Diagnostics::new();
    check_fn_bodies(&w, &mut d);
    assert!(codes(&d).contains(&Code::E202), "{:?}", messages(&d));
}

#[test]
fn a_valid_fn_body_gets_no_error() {
    let mut w = library();
    let body = vec![
        konst("K", ConstTy::Int, lit(2)),
        for_loop("each", "i", name("K"), vec![net(vec![pin("p", None)])]),
    ];
    add_fn(&mut w, "ok", Vec::new(), vec![pin_param("p")], body);
    let mut d = Diagnostics::new();
    check_fn_bodies(&w, &mut d);
    assert_eq!(d.len(), 0, "{:?}", messages(&d));
}

fn plus(l: Expr, r: Expr) -> Expr {
    Expr::Binary { op: BinOp::Add, lhs: Box::new(l), rhs: Box::new(r), span: sp(9) }
}

#[test]
fn forward_constants_and_sibling_loop_scopes_get_no_error() {
    let mut w = library();
    let body = vec![
        konst("A", ConstTy::Int, plus(name("C"), lit(1))),
        konst("C", ConstTy::Int, lit(2)),
        for_loop("left", "i", lit(0), vec![konst("X", ConstTy::Int, plus(name("i"), name("A"))), net(vec![pin("p", None)])]),
        for_loop("right", "i", lit(0), vec![konst("X", ConstTy::Int, plus(name("i"), name("C"))), net(vec![pin("p", None)])]),
    ];
    add_fn(&mut w, "unused", Vec::new(), vec![pin_param("p")], body);
    let mut d = Diagnostics::new();
    check_fn_bodies(&w, &mut d);
    assert_eq!(d.len(), 0, "{:?}", messages(&d));
    let mut again = Diagnostics::new();
    check_fn_bodies(&w, &mut again);
    assert_eq!(messages(&again), messages(&d));
}
