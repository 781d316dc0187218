use cohdl_check::ast::{
    BinOp, CallStmt, ConstStmt, ConstTy, DesignDef, DeviceDef, Expr, FnDef, FnParam, FnParamTy,
    ForStmt, GenericArg, GenericBound, GenericParam, Ident, IndexSel, InstStmt, LayoutBlock,
    LayoutFor, NetStmt, PartDef, PathSeg, PinDef, PinRef, Placement, Span, Stmt, TypeRef,
    UnitType, UnitValue,
};
use cohdl_check::bodies::{check_design_bodies, check_fn_bodies};
use cohdl_check::diag::{Code, Diagnostics};
use cohdl_check::world::World;

const FEMTO: i128 = 1_000_000_000_000_000;

fn sp(start: usize) -> Span {
    Span { file: 0, start, end: start + 1 }
}

fn id(n: &str) -> Ident {
    Ident { name: n.to_string(), span: sp(0) }
}

fn id_at(n: &str, at: usize) -> Ident {
    Ident { name: n.to_string(), span: sp(at) }
}

fn lit(n: i64) -> Expr {
    Expr::Int(n, sp(0))
}

fn mm(n: i128) -> Expr {
    Expr::Length(UnitValue { unit: UnitType::Length, femto: n * FEMTO, text: format!("{n}mm") }, sp(0))
}

fn name(n: &str) -> Expr {
    Expr::Name(id(n))
}

fn bin(op: BinOp, l: Expr, r: Expr) -> Expr {
    Expr::Binary { op, lhs: Box::new(l), rhs: Box::new(r), span: sp(0) }
}

fn ty(n: &str) -> TypeRef {
    TypeRef { name: id(n), variant: None, generic_args: Vec::new(), span: sp(0) }
}

fn pin(base: &str, p: Option<&str>) -> PinRef {
    PinRef { base: id(base), index: None, pin: p.map(id), span: sp(0) }
}

fn indexed(base: &str, index: Expr, p: &str) -> PinRef {
    PinRef { base: id(base), index: Some(IndexSel::Single(index, sp(0))), pin: Some(id(p)), span: sp(0) }
}

fn inst(n: &str, t: &str) -> Stmt {
    Stmt::Inst(InstStmt { attrs: Vec::new(), name: id(n), ty: ty(t), array_len: None, span: sp(0) })
}

fn inst_array(n: &str, t: &str, len: Expr) -> Stmt {
    Stmt::Inst(InstStmt { attrs: Vec::new(), name: id(n), ty: ty(t), array_len: Some((len, sp(0))), span: sp(0) })
}

fn net(members: Vec<PinRef>) -> Stmt {
    Stmt::Net(NetStmt { name: None, members, span: sp(0) })
}

fn named_net(n: &str, at: usize, members: Vec<PinRef>) -> Stmt {
    Stmt::Net(NetStmt { name: Some(id_at(n, at)), members, span: sp(at) })
}

fn konst(n: &str, t: ConstTy, value: Expr) -> Stmt {
    Stmt::Const(ConstStmt { name: id(n), ty: t, value, span: sp(0) })
}

fn konst_at(n: &str, at: usize, t: ConstTy, value: Expr) -> Stmt {
    Stmt::Const(ConstStmt { name: id_at(n, at), ty: t, value, span: sp(at) })
}

fn empty_for(label: &str, binder: &str, body: Vec<Stmt>) -> Stmt {
    for_at(label, 0, binder, lit(0), body)
}

fn for_at(label: &str, at: usize, binder: &str, end: Expr, body: Vec<Stmt>) -> Stmt {
    Stmt::For(ForStmt { label: id_at(label, at), binder: id(binder), start: lit(0), end, body, span: sp(at) })
}

fn call(callee: &str, generic_args: Vec<GenericArg>, args: Vec<PinRef>) -> Stmt {
    Stmt::Call(CallStmt { callee: id(callee), generic_args, args, span: sp(0) })
}

fn pin_param(n: &str) -> FnParam {
    FnParam { name: id(n), ty: FnParamTy::Pin(sp(0)), span: sp(0) }
}

fn int_generic(n: &str) -> GenericParam {
    GenericParam { name: id(n), bound: GenericBound::Int(sp(0)), default: None }
}

fn length_generic(n: &str) -> GenericParam {
    GenericParam { name: id(n), bound: GenericBound::Unit(UnitType::Length, sp(0)), default: None }
}

/// A package with a two-pin part `P` of device `D`.
fn library() -> World {
    let mut w = World::new();
    w.devices.insert(
        "D".to_string(),
        DeviceDef {
            name: id("D"),
            generics: Vec::new(),
            pins: vec![PinDef { name: id("A") }, PinDef { name: id("B") }],
            variants: Vec::new(),
        },
    );
    w.parts.insert("P".to_string(), PartDef { name: id("P"), device: ty("D") });
    w
}

fn add_fn(w: &mut World, n: &str, generics: Vec<GenericParam>, params: Vec<FnParam>, body: Vec<Stmt>) {
    w.fns.insert(n.to_string(), FnDef { name: id(n), generics, params, body });
}

fn add_design(w: &mut World, body: Vec<Stmt>) {
    w.designs.insert("B".to_string(), DesignDef { name: id("B"), body });
}

fn run(w: &World) -> Diagnostics {
    let mut d = Diagnostics::new();
    check_fn_bodies(w, &mut d);
    check_design_bodies(w, &mut d);
    d
}

fn codes(d: &Diagnostics) -> Vec<Code> {
    (0..d.len()).map(|i| d.get(i).code).collect()
}

fn count(d: &Diagnostics, c: Code) -> usize {
    codes(d).iter().filter(|x| **x == c).count()
}

fn board(w: &mut World) {
    add_design(w, vec![inst("a", "P"), net(vec![pin("a", Some("A")), pin("a", Some("B"))])]);
}

#[test]
fn constants_are_forward_declared_and_scoped_to_each_body() {
    let mut w = library();
    add_fn(
        &mut w,
        "unused",
        Vec::new(),
        vec![pin_param("p")],
        vec![
            konst("A", ConstTy::Int, bin(BinOp::Add, name("C"), lit(1))),
            konst("C", ConstTy::Int, lit(2)),
            empty_for("left", "i", vec![konst("X", ConstTy::Int, bin(BinOp::Add, name("i"), name("A"))), net(vec![pin("p", None)])]),
            empty_for("right", "i", vec![konst("X", ConstTy::Int, bin(BinOp::Add, name("i"), name("C"))), net(vec![pin("p", None)])]),
        ],
    );
    add_design(
        &mut w,
        vec![
            inst("a", "P"),
            net(vec![pin("a", Some("A")), pin("a", Some("B"))]),
            Stmt::Layout(LayoutBlock {
                consts: vec![
                    ConstStmt { name: id("X"), ty: ConstTy::Length, value: bin(BinOp::Add, name("Y"), mm(1)), span: sp(0) },
                    ConstStmt { name: id("Y"), ty: ConstTy::Length, value: mm(2), span: sp(0) },
                ],
                placements: vec![Placement {
                    path: vec![PathSeg { name: id("a"), index: None }],
                    at: (name("X"), mm(0)),
                    rotate: None,
                    span: sp(0),
                }],
                loops: Vec::new(),
                span: sp(0),
            }),
        ],
    );
    let d = run(&w);
    assert_eq!(codes(&d), Vec::<Code>::new(), "{}", d.render());
}

#[test]
fn empty_loops_check_concrete_pins_and_function_arity() {
    for (operation, code) in [
        (net(vec![pin("a", Some("MISSING"))]), Code::E203),
        (call("f", Vec::new(), vec![pin("a", Some("A")), pin("a", Some("B"))]), Code::E502),
    ] {
        let mut w = library();
        add_fn(&mut w, "f", Vec::new(), vec![pin_param("p")], vec![net(vec![pin("p", None)])]);
        add_design(
            &mut w,
            vec![inst("a", "P"), empty_for("empty", "i", vec![operation]), net(vec![pin("a", Some("A")), pin("a", Some("B"))])],
        );
        let d = run(&w);
        assert!(codes(&d).contains(&code), "{}", d.render());
    }
}

#[test]
fn only_declared_arrays_have_a_length_in_unused_definitions() {
    let len_of = |n: &str| Expr::Len(id(n), sp(0));
    let bodies = vec![
        vec![konst("N", ConstTy::Int, len_of("p"))],
        vec![
            inst("a", "P"),
            konst("N", ConstTy::Int, len_of("a")),
            net(vec![pin("p", None), pin("a", Some("A")), pin("a", Some("B"))]),
        ],
    ];
    for body in bodies {
        let mut w = library();
        add_fn(&mut w, "f", Vec::new(), vec![pin_param("p")], body);
        board(&mut w);
        let d = run(&w);
        assert!(codes(&d).contains(&Code::E1401), "{}", d.render());
    }
    let mut w = library();
    add_fn(
        &mut w,
        "f",
        vec![int_generic("N")],
        vec![pin_param("p")],
        vec![
            konst("M", ConstTy::Int, len_of("a")),
            inst_array("a", "P", name("N")),
            net(vec![pin("p", None), indexed("a", lit(0), "A"), indexed("a", lit(0), "B")]),
        ],
    );
    board(&mut w);
    let d = run(&w);
    assert_eq!(d.len(), 0, "unknown-valued array remains valid: {}", d.render());
}

#[test]
fn known_local_constants_expose_zero_divisors_even_uncalled() {
    let mut w = library();
    add_fn(
        &mut w,
        "f",
        Vec::new(),
        vec![pin_param("p")],
        vec![
            konst("ZERO", ConstTy::Int, bin(BinOp::Sub, name("OTHER"), lit(2))),
            konst("OTHER", ConstTy::Int, lit(2)),
            konst("BAD", ConstTy::Int, bin(BinOp::Div, lit(1), name("ZERO"))),
            net(vec![pin("p", None)]),
        ],
    );
    board(&mut w);
    let d = run(&w);
    assert!(codes(&d).contains(&Code::E1403), "{}", d.render());
    assert!(!codes(&d).contains(&Code::E202), "{}", d.render());
}

#[test]
fn constant_shadowing_and_scope_escape_are_rejected() {
    let layout_const = Stmt::Layout(LayoutBlock {
        consts: vec![ConstStmt { name: id("p"), ty: ConstTy::Length, value: mm(1), span: sp(0) }],
        placements: Vec::new(),
        loops: Vec::new(),
        span: sp(0),
    });
    let cases = vec![
        (vec![int_generic("N")], vec![konst("N", ConstTy::Int, lit(2)), net(vec![pin("p", None)])]),
        (Vec::new(), vec![empty_for("each", "i", vec![konst("p", ConstTy::Int, lit(1))]), net(vec![pin("p", None)])]),
        (Vec::new(), vec![layout_const, net(vec![pin("p", None)])]),
    ];
    for (generics, body) in cases {
        let mut w = library();
        add_fn(&mut w, "f", generics, vec![pin_param("p")], body);
        board(&mut w);
        let d = run(&w);
        assert!(codes(&d).contains(&Code::E201), "{}", d.render());
    }
    let mut w = library();
    add_fn(
        &mut w,
        "f",
        Vec::new(),
        vec![pin_param("p")],
        vec![
            empty_for("left", "i", vec![konst("X", ConstTy::Int, lit(1))]),
            empty_for("right", "i", vec![konst("Y", ConstTy::Int, name("X"))]),
            net(vec![pin("p", None)]),
        ],
    );
    board(&mut w);
    let d = run(&w);
    assert!(codes(&d).contains(&Code::E202), "loop-local X cannot escape: {}", d.render());
}

#[test]
fn real_loop_binding_and_layout_forward_constants_share_the_environment() {
    let mut w = library();
    add_design(
        &mut w,
        vec![
            inst_array("a", "P", lit(2)),
            for_at(
                "wire",
                0,
                "i",
                lit(2),
                vec![konst("X", ConstTy::Int, name("i")), net(vec![indexed("a", name("X"), "A"), indexed("a", name("X"), "B")])],
            ),
            Stmt::Layout(LayoutBlock {
                consts: Vec::new(),
                placements: Vec::new(),
                loops: vec![LayoutFor {
                    label: id("place_each"),
                    binder: id("i"),
                    start: lit(0),
                    end: lit(2),
                    consts: vec![
                        ConstStmt { name: id("X"), ty: ConstTy::Length, value: bin(BinOp::Add, name("Y"), mm(1)), span: sp(0) },
                        ConstStmt { name: id("Y"), ty: ConstTy::Length, value: bin(BinOp::Mul, name("i"), mm(2)), span: sp(0) },
                    ],
                    placements: vec![Placement {
                        path: vec![PathSeg { name: id("a"), index: Some((name("i"), sp(0))) }],
                        at: (name("X"), mm(0)),
                        rotate: None,
                        span: sp(0),
                    }],
                    loops: Vec::new(),
                    span: sp(0),
                }],
                span: sp(0),
            }),
        ],
    );
    let d = run(&w);
    assert_eq!(d.len(), 0, "{}", d.render());
}

#[test]
fn constant_cycles_are_reported_in_unused_and_layout_scopes() {
    let mut w = library();
    add_fn(
        &mut w,
        "f",
        Vec::new(),
        vec![pin_param("p")],
        vec![konst("A", ConstTy::Int, name("B")), konst("B", ConstTy::Int, name("A")), net(vec![pin("p", None)])],
    );
    add_design(&mut w, Vec::new());
    let d = run(&w);
    assert!(codes(&d).contains(&Code::E1407), "{}", d.render());
    assert!(!codes(&d).contains(&Code::E202), "{}", d.render());

    let mut w = library();
    add_design(
        &mut w,
        vec![Stmt::Layout(LayoutBlock {
            consts: vec![
                ConstStmt { name: id("X"), ty: ConstTy::Length, value: name("Y"), span: sp(0) },
                ConstStmt { name: id("Y"), ty: ConstTy::Length, value: name("X"), span: sp(0) },
            ],
            placements: Vec::new(),
            loops: Vec::new(),
            span: sp(0),
        })],
    );
    let d = run(&w);
    assert!(codes(&d).contains(&Code::E1407), "{}", d.render());
    assert!(!codes(&d).contains(&Code::E202), "{}", d.render());
}

#[test]
fn invalid_bare_int_arguments_are_rejected_in_uncalled_helpers() {
    for (number, code) in [("1.5", Code::E1401), ("9223372036854775808", Code::E1402)] {
        let mut w = library();
        add_fn(&mut w, "f", vec![int_generic("N")], vec![pin_param("p")], vec![net(vec![pin("p", None)])]);
        add_fn(
            &mut w,
            "unused",
            Vec::new(),
            vec![pin_param("p")],
            vec![call("f", vec![GenericArg::Number(number.to_string(), sp(0))], vec![pin("p", None)])],
        );
        add_design(&mut w, Vec::new());
        let d = run(&w);
        assert!(codes(&d).contains(&code), "{number}: {}", d.render());
    }
}

#[test]
fn generic_argument_types_are_checked_without_entering_the_callee() {
    let args: Vec<(&str, fn() -> GenericArg)> = vec![
        ("count", || GenericArg::Name(id("L"))),
        ("count", || GenericArg::Expr(bin(BinOp::Add, name("L"), mm(0)))),
        ("count", || {
            GenericArg::Unit(UnitValue { unit: UnitType::Length, femto: FEMTO, text: "1mm".to_string() }, sp(0))
        }),
        ("pitch", || GenericArg::Name(id("N"))),
        ("pitch", || GenericArg::Expr(bin(BinOp::Add, name("N"), lit(0)))),
    ];
    for (callee, arg) in args {
        for in_design in [false, true] {
            let mut w = library();
            add_fn(&mut w, "count", vec![int_generic("N")], Vec::new(), Vec::new());
            add_fn(&mut w, "pitch", vec![length_generic("PITCH")], Vec::new(), Vec::new());
            let consts = vec![konst("L", ConstTy::Length, mm(1)), konst("N", ConstTy::Int, lit(1))];
            let c = call(callee, vec![arg()], Vec::new());
            if in_design {
                let mut body = consts;
                body.push(empty_for("skipped", "i", vec![c]));
                add_design(&mut w, body);
            } else {
                let mut body = consts;
                body.push(c);
                add_fn(&mut w, "unused", Vec::new(), Vec::new(), body);
                add_design(&mut w, Vec::new());
            }
            let d = run(&w);
            assert!(codes(&d).contains(&Code::E1401), "{callee} in design {in_design}: {}", d.render());
        }
    }
    let mut w = library();
    add_fn(
        &mut w,
        "f",
        vec![int_generic("N"), length_generic("PITCH")],
        Vec::new(),
        vec![konst("BAD", ConstTy::Int, bin(BinOp::Div, lit(1), name("N")))],
    );
    add_fn(
        &mut w,
        "unused",
        vec![int_generic("M"), length_generic("STEP")],
        Vec::new(),
        vec![empty_for("skipped", "i", vec![call("f", vec![GenericArg::Name(id("M")), GenericArg::Name(id("STEP"))], Vec::new())])],
    );
    add_design(&mut w, Vec::new());
    let d = run(&w);
    assert_eq!(d.len(), 0, "unknown values remain unspecialized: {}", d.render());
}

#[test]
fn duplicate_declarations_report_the_later_site() {
    let lf = |label: &str, at: usize| LayoutFor {
        label: id_at(label, at),
        binder: id("i"),
        start: lit(0),
        end: lit(0),
        consts: Vec::new(),
        placements: Vec::new(),
        loops: Vec::new(),
        span: sp(at),
    };
    let mut w = library();
    add_design(
        &mut w,
        vec![Stmt::Layout(LayoutBlock { consts: Vec::new(), placements: Vec::new(), loops: vec![lf("clash", 10), lf("clash", 20)], span: sp(0) })],
    );
    let d = run(&w);
    assert_eq!(codes(&d), vec![Code::E201], "{}", d.render());
    assert_eq!(d.get(0).span.start, 20);

    for body in [
        vec![konst_at("clash", 10, ConstTy::Int, lit(1)), named_net("clash", 20, vec![pin("p", None)])],
        vec![named_net("clash", 10, vec![pin("p", None)]), konst_at("clash", 20, ConstTy::Int, lit(1))],
    ] {
        let mut w = library();
        add_fn(&mut w, "unused", Vec::new(), vec![pin_param("p")], body);
        add_design(&mut w, Vec::new());
        let d = run(&w);
        assert_eq!(count(&d, Code::E201), 1, "{}", d.render());
        assert_eq!(d.get(0).span.start, 20);
    }

    // Every report of a repeated loop label names the later site.
    let mut w = library();
    add_design(&mut w, vec![for_at("clash", 10, "i", lit(0), Vec::new()), for_at("clash", 20, "j", lit(0), Vec::new())]);
    let d = run(&w);
    assert!(count(&d, Code::E201) >= 1, "{}", d.render());
    assert!((0..d.len()).all(|i| d.get(i).span.start == 20), "{}", d.render());

    let mut w = library();
    add_fn(
        &mut w,
        "unused",
        Vec::new(),
        vec![pin_param("p")],
        vec![named_net("same", 10, vec![pin("p", None)]), named_net("same", 20, vec![pin("p", None)])],
    );
    add_design(&mut w, Vec::new());
    let d = run(&w);
    assert_eq!(count(&d, Code::E201), 0, "repeated net declarations still merge: {}", d.render());
}

#[test]
fn pin_expressions_have_one_consistent_kind_error() {
    for expression in [bin(BinOp::Add, name("p"), lit(1)), Expr::Len(id("p"), sp(0))] {
        let mut w = library();
        add_fn(
            &mut w,
            "f",
            Vec::new(),
            vec![pin_param("p")],
            vec![konst("N", ConstTy::Int, expression), net(vec![pin("p", None)])],
        );
        add_design(&mut w, Vec::new());
        let d = run(&w);
        assert_eq!(count(&d, Code::E1401), 1, "{}", d.render());
        assert!(!codes(&d).contains(&Code::E202), "a Pin parameter is known but not a value: {}", d.render());
    }
}

fn layout_loop_placing(end: i64, at: (Expr, Expr)) -> Stmt {
    Stmt::Layout(LayoutBlock {
        consts: Vec::new(),
        placements: Vec::new(),
        loops: vec![LayoutFor {
            label: id("p"),
            binder: id("i"),
            start: lit(0),
            end: lit(end),
            consts: Vec::new(),
            placements: vec![Placement { path: vec![PathSeg { name: id("a"), index: None }], at, rotate: None, span: sp(0) }],
            loops: Vec::new(),
            span: sp(0),
        }],
        span: sp(0),
    })
}

fn pitch_at(at: usize) -> Expr {
    bin(BinOp::Mul, name("i"), Expr::Name(id_at("PITCH", at)))
}

#[test]
fn undefined_coordinate_name_reports_once_in_any_loop() {
    for end in [0, 1, 50] {
        let mut w = library();
        add_design(
            &mut w,
            vec![inst("a", "P"), net(vec![pin("a", Some("A"))]), layout_loop_placing(end, (pitch_at(40), mm(0)))],
        );
        let d = run(&w);
        assert_eq!(codes(&d), vec![Code::E202], "{}", d.render());
        assert!(d.get(0).message.contains("PITCH"));
        assert_eq!(d.get(0).span.start, 40);
    }
}

#[test]
fn separate_undefined_expression_sites_are_not_collapsed() {
    let mut w = library();
    add_design(&mut w, vec![inst("a", "P"), layout_loop_placing(50, (pitch_at(40), pitch_at(60)))]);
    let d = run(&w);
    assert_eq!(codes(&d), vec![Code::E202, Code::E202], "{}", d.render());
    assert_eq!((d.get(0).span.start, d.get(1).span.start), (40, 60));
}

#[test]
fn undefined_helper_expression_is_checked_once() {
    let mut w = library();
    add_fn(
        &mut w,
        "hook",
        Vec::new(),
        vec![pin_param("p")],
        vec![for_at(
            "w",
            0,
            "i",
            lit(3),
            vec![konst("X", ConstTy::Length, pitch_at(70)), net(vec![pin("p", None)])],
        )],
    );
    add_design(&mut w, vec![inst("h", "P"), net(vec![pin("h", Some("A"))])]);
    let d = run(&w);
    assert_eq!(codes(&d), vec![Code::E202], "{}", d.render());
    assert_eq!(d.get(0).span.start, 70);
}

fn assert_named_loop_net(d: &Diagnostics, at: usize, net_name: &str) {
    assert_eq!(codes(d), vec![Code::E1406], "{}", d.render());
    let m = &d.get(0).message;
    assert!(m.contains(net_name), "{m}");
    assert!(m.contains("outside") && m.contains("net _"), "{m}");
    assert_eq!(d.get(0).span.start, at);
}

fn host_library() -> World {
    let mut w = library();
    w.devices.insert(
        "H".to_string(),
        DeviceDef { name: id("H"), generics: Vec::new(), pins: vec![PinDef { name: id("V") }], variants: Vec::new() },
    );
    w.parts.insert("HP".to_string(), PartDef { name: id("HP"), device: ty("H") });
    w
}

#[test]
fn named_net_in_design_loop_is_rejected_at_its_name() {
    let mut w = host_library();
    add_design(
        &mut w,
        vec![
            inst("h", "HP"),
            inst_array("d", "P", lit(3)),
            for_at("wire", 0, "i", lit(3), vec![named_net("BAD", 55, vec![pin("h", Some("V")), indexed("d", name("i"), "A")])]),
        ],
    );
    assert_named_loop_net(&run(&w), 55, "BAD");
}

#[test]
fn named_net_in_nested_or_empty_loops_is_rejected() {
    let mut w = host_library();
    add_design(
        &mut w,
        vec![
            inst("h", "HP"),
            net(vec![pin("h", Some("V"))]),
            for_at("row", 0, "r", lit(0), vec![for_at("col", 0, "c", lit(3), vec![named_net("BAD", 77, vec![pin("h", Some("V"))])])]),
        ],
    );
    assert_named_loop_net(&run(&w), 77, "BAD");
}

#[test]
fn named_net_in_loops_of_unused_definitions_is_rejected() {
    let mut w = host_library();
    add_fn(&mut w, "unused", Vec::new(), vec![pin_param("p")], vec![empty_for("wire", "i", vec![named_net("BAD", 12, vec![pin("p", None)])])]);
    add_design(&mut w, vec![inst("h", "HP"), net(vec![pin("h", Some("V"))])]);
    assert_named_loop_net(&run(&w), 12, "BAD");

    let mut w = host_library();
    let sub = cohdl_check::ast::SubdesignDef {
        name: id("Unused"),
        generics: Vec::new(),
        ports: vec![cohdl_check::ast::Port { name: id("P"), span: sp(0) }],
        body: vec![empty_for("wire", "i", vec![named_net("BAD", 13, vec![pin("P", None)])])],
    };
    let mut d = Diagnostics::new();
    cohdl_check::bodies::check_subdesign_body(&w, "Unused", &sub, &mut d);
    assert_named_loop_net(&d, 13, "BAD");
    add_design(&mut w, Vec::new());
}

#[test]
fn shadowing_an_outer_rail_inside_a_loop_is_one_e1406() {
    let mut w = host_library();
    add_design(
        &mut w,
        vec![
            inst("h", "HP"),
            inst_array("d", "P", lit(3)),
            named_net("VCC", 20, vec![pin("h", Some("V"))]),
            for_at("wire", 0, "i", lit(3), vec![named_net("VCC", 40, vec![indexed("d", name("i"), "A")])]),
        ],
    );
    assert_named_loop_net(&run(&w), 40, "VCC");
}

#[test]
fn same_net_name_at_two_sites_reports_each() {
    let mut w = host_library();
    add_fn(&mut w, "f1", Vec::new(), vec![pin_param("a")], vec![empty_for("w", "i", vec![named_net("BAD", 5, vec![pin("a", None)])])]);
    add_fn(&mut w, "f2", Vec::new(), vec![pin_param("a")], vec![empty_for("w", "i", vec![named_net("BAD", 9, vec![pin("a", None)])])]);
    add_design(&mut w, Vec::new());
    let d = run(&w);
    assert_eq!(codes(&d), vec![Code::E1406, Code::E1406], "{}", d.render());
    assert_ne!(d.get(0).span.start, d.get(1).span.start);
}

#[test]
fn anonymous_loop_nets_and_outer_named_nets_are_admitted() {
    let mut w = host_library();
    add_design(
        &mut w,
        vec![
            inst("h", "HP"),
            inst_array("d", "P", lit(3)),
            named_net("VCC", 20, vec![pin("h", Some("V"))]),
            for_at("wire", 0, "i", lit(3), vec![net(vec![pin("h", Some("V")), indexed("d", name("i"), "A")])]),
        ],
    );
    let d = run(&w);
    assert_eq!(d.len(), 0, "{}", d.render());
    let mut w = host_library();
    add_fn(&mut w, "hook", Vec::new(), vec![pin_param("a"), pin_param("b")], vec![named_net("PRIVATE", 3, vec![pin("a", None), pin("b", None)])]);
    add_design(&mut w, Vec::new());
    assert_eq!(run(&w).len(), 0);
}

fn cap_library() -> World {
    let mut w = World::new();
    w.devices.insert(
        "D".to_string(),
        DeviceDef {
            name: id("D"),
            generics: vec![GenericParam {
                name: id("C"),
                bound: GenericBound::Unit(UnitType::Capacitance, sp(0)),
                default: None,
            }],
            pins: vec![PinDef { name: id("A") }, PinDef { name: id("B") }],
            variants: Vec::new(),
        },
    );
    w
}

fn inst_with_arg(arg: GenericArg) -> Stmt {
    Stmt::Inst(InstStmt {
        attrs: Vec::new(),
        name: id("x"),
        ty: TypeRef { name: id("D"), variant: None, generic_args: vec![arg], span: sp(0) },
        array_len: None,
        span: sp(0),
    })
}

fn unit(text: &str, unit: UnitType, femto: i128, at: usize) -> UnitValue {
    let _ = at;
    UnitValue { unit, femto, text: text.to_string() }
}

fn assert_one_wrong_unit(d: &Diagnostics, at: usize, value: &str, found: &str) {
    let e112: Vec<usize> = (0..d.len()).filter(|i| d.get(*i).code == Code::E112).collect();
    assert_eq!(e112.len(), 1, "{}", d.render());
    let x = d.get(e112[0]);
    assert_eq!(
        x.message,
        format!("generic argument for `C` has the wrong unit type: expected `Capacitance`, found `{found}`")
    );
    assert_eq!(x.label, Some(format!("`{value}` is a `{found}`")));
    assert_eq!(x.span.start, at);
    assert!(x.secondary.is_none() && x.help.is_none());
}

#[test]
fn wrong_unit_arguments_are_checked_once_in_every_body_context() {
    let cases: Vec<(fn() -> GenericArg, &str, &str)> = vec![
        (|| GenericArg::Unit(unit("1.5V", UnitType::Voltage, 0, 0), sp(30)), "1.5V", "Voltage"),
        (|| GenericArg::Unit(unit("1.50mm", UnitType::Length, 1_500_000_000_000_000, 0), sp(30)), "1.50mm", "Length"),
        (
            || {
                GenericArg::Expr(Expr::Paren(
                    Box::new(Expr::Length(unit("1.50mm", UnitType::Length, 1_500_000_000_000_000, 0), sp(31))),
                    sp(30),
                ))
            },
            "1.50mm",
            "Length",
        ),
        (
            || {
                GenericArg::Expr(Expr::Binary {
                    op: BinOp::Add,
                    lhs: Box::new(Expr::Length(unit("1.50mm", UnitType::Length, 1_500_000_000_000_000, 0), sp(30))),
                    rhs: Box::new(mm(0)),
                    span: sp(30),
                })
            },
            "1.50mm + 0mm",
            "Length",
        ),
    ];
    for (arg, value, found) in cases {
        // in a design, an unused fn, and an unused subdesign
        let body = || vec![inst_with_arg(arg()), net(vec![pin("x", Some("A")), pin("x", Some("B"))])];
        let mut w = cap_library();
        add_design(&mut w, body());
        assert_one_wrong_unit(&run(&w), 30, value, found);
        let mut w = cap_library();
        add_fn(&mut w, "f", Vec::new(), Vec::new(), body());
        add_design(&mut w, Vec::new());
        assert_one_wrong_unit(&run(&w), 30, value, found);
        let w = cap_library();
        let s = cohdl_check::ast::SubdesignDef { name: id("S"), generics: Vec::new(), ports: Vec::new(), body: body() };
        let mut d = Diagnostics::new();
        cohdl_check::bodies::check_subdesign_body(&w, "S", &s, &mut d);
        assert_one_wrong_unit(&d, 30, value, found);
    }
}

#[test]
fn unknown_length_expressions_are_the_wrong_unit_too() {
    let l_plus = || {
        GenericArg::Expr(Expr::Binary { op: BinOp::Add, lhs: Box::new(name("L")), rhs: Box::new(mm(0)), span: sp(30) })
    };
    let paren_l = || GenericArg::Expr(Expr::Paren(Box::new(name("L")), sp(30)));
    for (arg, value) in [(l_plus as fn() -> GenericArg, "L + 0mm"), (paren_l as fn() -> GenericArg, "(L)")] {
        let mut w = cap_library();
        add_fn(
            &mut w,
            "f",
            vec![length_generic("L")],
            Vec::new(),
            vec![inst_with_arg(arg()), net(vec![pin("x", Some("A")), pin("x", Some("B"))])],
        );
        add_design(&mut w, Vec::new());
        assert_one_wrong_unit(&run(&w), 30, value, "Length");
    }
    // A const in the lexical environment keeps the written expression.
    let mut w = cap_library();
    add_design(
        &mut w,
        vec![
            konst("L", ConstTy::Length, Expr::Length(unit("1.50mm", UnitType::Length, 1_500_000_000_000_000, 0), sp(0))),
            inst_with_arg(l_plus()),
            net(vec![pin("x", Some("A")), pin("x", Some("B"))]),
        ],
    );
    assert_one_wrong_unit(&run(&w), 30, "L + 0mm", "Length");
}

#[test]
fn empty_loop_keeps_the_static_wrong_unit_error() {
    let mut w = cap_library();
    add_design(
        &mut w,
        vec![empty_for(
            "empty",
            "i",
            vec![inst_with_arg(GenericArg::Unit(unit("1.5V", UnitType::Voltage, 0, 0), sp(30)))],
        )],
    );
    let d = run(&w);
    let mut c = codes(&d);
    c.sort_by_key(|x| x.as_str());
    assert_eq!(c, vec![Code::E112, Code::E1406], "{}", d.render());
}

#[test]
fn mixed_const_array_cycles_have_one_complete_chain() {
    let mut w = library();
    add_design(
        &mut w,
        vec![konst("N", ConstTy::Int, Expr::Len(id("a"), sp(0))), inst_array("a", "P", name("N"))],
    );
    let d = run(&w);
    assert_eq!(codes(&d), vec![Code::E1407], "{}", d.render());
    assert_eq!(d.get(0).message, "cyclic dependency: `N` → `a`.len → `N`");
}

#[test]
fn integer_literal_arguments_have_one_precise_code() {
    for (literal, code) in [
        ("9223372036854775808", Code::E1402),
        ("-9223372036854775809", Code::E1402),
        ("1.5", Code::E1401),
        ("-1.5", Code::E1401),
    ] {
        let mut w = library();
        add_fn(&mut w, "f", vec![int_generic("N")], vec![pin_param("p")], vec![net(vec![pin("p", None)])]);
        add_design(
            &mut w,
            vec![
                inst("a", "P"),
                call("f", vec![GenericArg::Number(literal.to_string(), sp(0))], vec![pin("a", Some("A"))]),
                net(vec![pin("a", Some("A")), pin("a", Some("B"))]),
            ],
        );
        let d = run(&w);
        assert_eq!(codes(&d), vec![code], "{literal}: {}", d.render());
    }
    for literal in ["0", "9223372036854775807", "-9223372036854775808"] {
        let mut w = library();
        add_fn(&mut w, "f", vec![int_generic("N")], vec![pin_param("p")], vec![net(vec![pin("p", None)])]);
        add_design(
            &mut w,
            vec![inst("a", "P"), call("f", vec![GenericArg::Number(literal.to_string(), sp(0))], vec![pin("a", Some("A"))])],
        );
        assert_eq!(run(&w).len(), 0, "valid Int {literal}");
    }
}

#[test]
fn caller_loop_labels_do_not_enter_the_callee_scope() {
    let mut w = library();
    add_fn(&mut w, "f", Vec::new(), vec![pin_param("p")], vec![for_at("links", 0, "i", lit(1), vec![net(vec![pin("p", None)])])]);
    add_design(
        &mut w,
        vec![
            inst("a", "P"),
            net(vec![pin("a", Some("A")), pin("a", Some("B"))]),
            for_at("links", 0, "i", lit(2), vec![call("f", Vec::new(), vec![pin("a", Some("A"))])]),
        ],
    );
    assert_eq!(run(&w).len(), 0);
}

fn sub_with_int_generic(w: &mut World) {
    w.subdesigns.insert(
        "S".to_string(),
        cohdl_check::ast::SubdesignDef {
            name: id("S"),
            generics: vec![int_generic("N")],
            ports: vec![cohdl_check::ast::Port { name: id("IN"), span: sp(0) }],
            body: Vec::new(),
        },
    );
}

fn use_s(arg: GenericArg) -> Stmt {
    Stmt::SubdesignUse(cohdl_check::ast::SubdesignUseStmt {
        name: id("s"),
        ty: TypeRef { name: id("S"), variant: None, generic_args: vec![arg], span: sp(0) },
        array_len: None,
        conns: Vec::new(),
        span: sp(0),
    })
}

fn both_pins_of_array(n: &str) -> Stmt {
    net(vec![indexed(n, lit(0), "A"), indexed(n, lit(0), "B"), indexed(n, lit(1), "A"), indexed(n, lit(1), "B")])
}

#[test]
fn array_lengths_and_local_lengths_can_be_forwarded_together() {
    let mut w = library();
    add_fn(
        &mut w,
        "wire",
        vec![int_generic("N"), length_generic("PITCH")],
        vec![pin_param("p")],
        vec![konst("WIDTH", ConstTy::Length, bin(BinOp::Mul, name("N"), name("PITCH"))), net(vec![pin("p", None)])],
    );
    add_design(
        &mut w,
        vec![
            konst("STEP", ConstTy::Length, mm(2)),
            inst_array("a", "P", lit(2)),
            call(
                "wire",
                vec![GenericArg::Expr(Expr::Len(id("a"), sp(0))), GenericArg::Name(id("STEP"))],
                vec![indexed("a", lit(0), "A")],
            ),
            both_pins_of_array("a"),
        ],
    );
    let d = run(&w);
    assert_eq!(d.len(), 0, "{}", d.render());
}

#[test]
fn forward_array_lengths_reach_subdesign_generics() {
    for arg in [
        GenericArg::Name(id("COUNT")),
        GenericArg::Expr(Expr::Len(id("a"), sp(0))),
        GenericArg::Expr(Expr::Paren(Box::new(Expr::Len(id("a"), sp(0))), sp(0))),
        GenericArg::Expr(bin(BinOp::Add, Expr::Len(id("a"), sp(0)), lit(1))),
    ] {
        let mut w = library();
        sub_with_int_generic(&mut w);
        add_design(
            &mut w,
            vec![
                konst("COUNT", ConstTy::Int, Expr::Len(id("a"), sp(0))),
                use_s(arg),
                inst_array("a", "P", lit(2)),
                both_pins_of_array("a"),
            ],
        );
        let d = run(&w);
        assert_eq!(d.len(), 0, "{}", d.render());
    }
}

#[test]
fn sibling_layout_constants_are_isolated_and_may_reference_binders() {
    let side = |label: &str, start: i64| LayoutFor {
        label: id(label),
        binder: id("i"),
        start: lit(start),
        end: lit(start + 1),
        consts: vec![ConstStmt { name: id("X"), ty: ConstTy::Length, value: bin(BinOp::Mul, name("i"), mm(2)), span: sp(0) }],
        placements: vec![Placement {
            path: vec![PathSeg { name: id("a"), index: Some((name("i"), sp(0))) }],
            at: (name("X"), mm(0)),
            rotate: None,
            span: sp(0),
        }],
        loops: Vec::new(),
        span: sp(0),
    };
    let mut w = library();
    add_design(
        &mut w,
        vec![
            inst_array("a", "P", lit(2)),
            both_pins_of_array("a"),
            Stmt::Layout(LayoutBlock { consts: Vec::new(), placements: Vec::new(), loops: vec![side("left", 0), side("right", 1)], span: sp(0) }),
        ],
    );
    let d = run(&w);
    assert_eq!(d.len(), 0, "{}", d.render());
}

#[test]
fn empty_loop_checks_a_forward_constant_zero() {
    let mut w = library();
    add_fn(
        &mut w,
        "unused",
        vec![int_generic("N")],
        vec![pin_param("p")],
        vec![empty_for(
            "empty",
            "i",
            vec![
                konst("BAD", ConstTy::Int, bin(BinOp::Div, name("N"), name("ZERO"))),
                konst("ZERO", ConstTy::Int, lit(0)),
                net(vec![pin("p", None)]),
            ],
        )],
    );
    board(&mut w);
    let d = run(&w);
    assert!(codes(&d).contains(&Code::E1403), "{}", d.render());
    assert!(!codes(&d).contains(&Code::E202), "{}", d.render());
}

#[test]
fn duplicate_sibling_labels_still_fail_after_scope_isolation() {
    let mut w = library();
    add_design(
        &mut w,
        vec![
            inst("a", "P"),
            empty_for("repeated", "i", vec![konst("X", ConstTy::Int, name("i")), net(vec![pin("a", Some("A"))])]),
            empty_for("repeated", "i", vec![konst("X", ConstTy::Int, name("i")), net(vec![pin("a", Some("B"))])]),
            net(vec![pin("a", Some("A")), pin("a", Some("B"))]),
        ],
    );
    let d = run(&w);
    assert!(codes(&d).contains(&Code::E201), "{}", d.render());
}
