use cohdl_check::ast::{
    BinOp, CallStmt, ConstStmt, ConstTy, DesignDef, Expr, FnDef, FnParam, FnParamTy, GenericBound,
    GenericParam, Ident, IndexSel, LayoutBlock, LayoutFor, NcStmt, NetStmt, PinRef, Placement,
    PortConn, Span, Stmt, SubdesignDef, SubdesignUseStmt, TypeRef,
};
use cohdl_check::diag::{Code, Diagnostics};
use cohdl_check::meter::{fmt_count, fmt_limit, metering_needed, Meter};
use cohdl_check::world::World;

fn sp() -> Span {
    Span { file: 0, start: 0, end: 1 }
}

fn id(n: &str) -> Ident {
    Ident { name: n.to_string(), span: sp() }
}

fn mm_lit(n: i128, text: &str) -> Expr {
    Expr::Length(
        cohdl_check::ast::UnitValue {
            unit: cohdl_check::ast::UnitType::Length,
            femto: n * 1_000_000_000_000_000,
            text: text.to_string(),
        },
        sp(),
    )
}

fn lit(n: i64) -> Expr {
    Expr::Int(n, sp())
}

fn pin(base: &str, index: Option<IndexSel>, p: Option<&str>) -> PinRef {
    PinRef { base: id(base), index, pin: p.map(id), span: sp() }
}

fn ty(n: &str) -> TypeRef {
    TypeRef { name: id(n), variant: None, generic_args: Vec::new(), span: sp() }
}

fn nc(members: Vec<PinRef>) -> Stmt {
    Stmt::Nc(NcStmt { members, span: sp() })
}

fn design(body: Vec<Stmt>) -> DesignDef {
    DesignDef { name: id("B"), body }
}

fn call(callee: &str, args: Vec<PinRef>) -> Stmt {
    Stmt::Call(CallStmt { callee: id(callee), generic_args: Vec::new(), args, span: sp() })
}

fn pin_param(n: &str) -> FnParam {
    FnParam { name: id(n), ty: FnParamTy::Pin(sp()), span: sp() }
}

fn for_loop(body: Vec<Stmt>) -> Stmt {
    Stmt::For(cohdl_check::ast::ForStmt {
        label: id("looped"),
        binder: id("n"),
        start: lit(0),
        end: lit(1000001),
        body,
        span: sp(),
    })
}

#[test]
fn counts_are_grouped_by_thousands() {
    assert_eq!(fmt_count(0), "0");
    assert_eq!(fmt_count(999), "999");
    assert_eq!(fmt_count(1000), "1,000");
    assert_eq!(fmt_count(100001), "100,001");
    assert_eq!(fmt_limit(1000000), "1,000,000");
    assert_eq!(fmt_count(18446744073709551615), "18,446,744,073,709,551,615");
}

#[test]
fn iteration_budget_is_exact_and_trips_once() {
    let mut m = Meter::new(true);
    let mut diags = Diagnostics::new();
    for _ in 0..100000 {
        assert!(m.enter_iteration(sp(), &mut diags));
    }
    assert_eq!(m.iterations, 100000);
    assert!(!m.tripped());
    assert!(!m.enter_iteration(sp(), &mut diags));
    assert!(m.tripped());
    assert_eq!(diags.len(), 1);
    let d = diags.get(0);
    assert_eq!(d.code, Code::E1405);
    assert_eq!(
        d.message,
        "iteration 100001 would exceed the deterministic expansion budget: 100,001 iterations (limit 100,000)"
    );
    // Every later call answers false and reports nothing more.
    assert!(!m.enter_iteration(sp(), &mut diags));
    assert!(!m.charge(1, "x", sp(), &mut diags));
    assert!(!m.enter_frame(sp(), &mut diags));
    assert_eq!(diags.len(), 1);
}

#[test]
fn frame_budget_is_exact() {
    let mut m = Meter::new(true);
    let mut diags = Diagnostics::new();
    for _ in 0..64 {
        assert!(m.enter_frame(sp(), &mut diags));
    }
    assert!(!m.enter_frame(sp(), &mut diags));
    assert_eq!(diags.len(), 1);
    assert_eq!(
        diags.get(0).message,
        "loop nesting would exceed the deterministic expansion budget: 65 active frames (limit 64)"
    );
}

#[test]
fn leaving_a_frame_undoes_entering_it() {
    let mut m = Meter::new(true);
    let mut diags = Diagnostics::new();
    assert!(m.enter_frame(sp(), &mut diags));
    assert!(m.enter_frame(sp(), &mut diags));
    m.leave_frame();
    assert_eq!(m.frames, 1);
    m.leave_frame();
    m.leave_frame();
    assert_eq!(m.frames, 0);
    assert_eq!(diags.len(), 0);
}

#[test]
fn work_budget_is_exact() {
    let mut m = Meter::new(true);
    let mut diags = Diagnostics::new();
    assert!(m.charge(1000000, "instance", sp(), &mut diags));
    assert_eq!(m.work, 1000000);
    assert!(!m.charge(1, "net member", sp(), &mut diags));
    assert_eq!(diags.len(), 1);
    assert_eq!(
        diags.get(0).message,
        "net member would exceed the deterministic expansion budget: 1000001 work items (limit 1,000,000)"
    );
}

#[test]
fn wrapping_work_charge_trips() {
    let mut m = Meter::new(true);
    let mut diags = Diagnostics::new();
    assert!(m.charge(1, "a", sp(), &mut diags));
    assert!(!m.charge(u64::MAX, "b", sp(), &mut diags));
    assert_eq!(
        diags.get(0).message,
        "b would exceed the deterministic expansion budget: 0 work items (limit 1,000,000)"
    );
    let mut m = Meter::new(true);
    let mut diags = Diagnostics::new();
    assert!(!m.charge(u64::MAX, "c", sp(), &mut diags));
    assert_eq!(
        diags.get(0).message,
        "c would exceed the deterministic expansion budget: 9223372036854775807 work items (limit 1,000,000)"
    );
}

#[test]
fn inactive_meter_never_counts() {
    let mut m = Meter::new(false);
    let mut diags = Diagnostics::new();
    assert!(m.charge(u64::MAX, "x", sp(), &mut diags));
    for _ in 0..200000 {
        assert!(m.enter_iteration(sp(), &mut diags));
    }
    for _ in 0..100 {
        assert!(m.enter_frame(sp(), &mut diags));
    }
    assert_eq!((m.work, m.iterations, m.frames), (0, 0, 0));
    assert!(!m.tripped());
    assert_eq!(diags.len(), 0);
}

#[test]
fn literal_design_is_not_metered() {
    let world = World::new();
    let d = design(vec![
        nc(vec![pin("a0", None, Some("P")), pin("a0", None, Some("Q"))]),
        Stmt::Net(NetStmt {
            name: None,
            members: vec![pin("a", Some(IndexSel::Single(lit(0), sp())), Some("P"))],
            span: sp(),
        }),
    ]);
    assert!(!metering_needed(&world, &d));
}

#[test]
fn const_and_loop_activate_metering() {
    let world = World::new();
    let c = Stmt::Const(ConstStmt { name: id("N"), ty: ConstTy::Int, value: lit(1), span: sp() });
    assert!(metering_needed(&world, &design(vec![c])));
    assert!(metering_needed(&world, &design(vec![for_loop(Vec::new())])));
}

#[test]
fn uncalled_m2_helper_does_not_meter_but_a_call_does() {
    let mut world = World::new();
    world.fns.insert(
        "helper".to_string(),
        FnDef {
            name: id("helper"),
            generics: Vec::new(),
            params: vec![pin_param("p")],
            body: vec![for_loop(vec![nc(vec![pin("p", None, None)])])],
        },
    );
    let quiet = design(vec![nc(vec![pin("host", None, Some("P"))])]);
    assert!(!metering_needed(&world, &quiet));
    let calling = design(vec![call("helper", vec![pin("host", None, Some("P"))])]);
    assert!(metering_needed(&world, &calling));
}

#[test]
fn int_generic_of_a_called_fn_activates_metering() {
    let mut world = World::new();
    world.fns.insert(
        "helper".to_string(),
        FnDef {
            name: id("helper"),
            generics: vec![GenericParam { name: id("K"), bound: GenericBound::Int(sp()), default: None }],
            params: vec![pin_param("p")],
            body: vec![nc(vec![pin("p", None, None)])],
        },
    );
    assert!(metering_needed(&world, &design(vec![call("helper", Vec::new())])));
}

#[test]
fn recursive_literal_fns_terminate_unmetered() {
    let mut world = World::new();
    world.fns.insert(
        "a".to_string(),
        FnDef { name: id("a"), generics: Vec::new(), params: Vec::new(), body: vec![call("b", Vec::new())] },
    );
    world.fns.insert(
        "b".to_string(),
        FnDef { name: id("b"), generics: Vec::new(), params: Vec::new(), body: vec![call("a", Vec::new())] },
    );
    assert!(!metering_needed(&world, &design(vec![call("a", Vec::new())])));
}

#[test]
fn layout_loops_and_placements() {
    let world = World::new();
    let literal_place = Placement {
        path: vec![cohdl_check::ast::PathSeg { name: id("a"), index: None }],
        at: (mm_lit(1, "1mm"), mm_lit(-2, "-2mm")),
        rotate: Some(lit(90)),
        span: sp(),
    };
    let block = LayoutBlock { consts: Vec::new(), placements: vec![literal_place], loops: Vec::new(), span: sp() };
    let d = design(vec![
        Stmt::Inst(cohdl_check::ast::InstStmt { attrs: Vec::new(), name: id("a"), ty: ty("HOST"), array_len: None, span: sp() }),
        nc(vec![pin("a", None, Some("P")), pin("a", None, Some("Q"))]),
        Stmt::Layout(block),
    ]);
    assert!(!metering_needed(&world, &d));
    // A negated literal is still a literal.
    let negated = Placement {
        path: vec![cohdl_check::ast::PathSeg { name: id("a"), index: None }],
        at: (
            mm_lit(1, "1mm"),
            Expr::Unary { op: cohdl_check::ast::UnaryOp::Neg, rhs: Box::new(mm_lit(2, "2mm")), span: sp() },
        ),
        rotate: Some(Expr::Paren(Box::new(lit(90)), sp())),
        span: sp(),
    };
    let block = LayoutBlock { consts: Vec::new(), placements: vec![negated], loops: Vec::new(), span: sp() };
    assert!(!metering_needed(&world, &design(vec![Stmt::Layout(block)])));
    let empty_loop = LayoutFor {
        label: id("empty"),
        binder: id("i"),
        start: lit(0),
        end: lit(0),
        consts: Vec::new(),
        placements: Vec::new(),
        loops: Vec::new(),
        span: sp(),
    };
    let block = LayoutBlock { consts: Vec::new(), placements: Vec::new(), loops: vec![empty_loop], span: sp() };
    assert!(metering_needed(&world, &design(vec![Stmt::Layout(block)])));
    let computed = Placement {
        path: vec![cohdl_check::ast::PathSeg { name: id("a"), index: None }],
        at: (Expr::Name(id("X")), lit(0)),
        rotate: None,
        span: sp(),
    };
    let block = LayoutBlock { consts: Vec::new(), placements: vec![computed], loops: Vec::new(), span: sp() };
    assert!(metering_needed(&world, &design(vec![Stmt::Layout(block)])));
}

#[test]
fn computed_selectors_activate_metering_at_every_reference_site() {
    let mut world = World::new();
    world.fns.insert(
        "helper".to_string(),
        FnDef {
            name: id("helper"),
            generics: Vec::new(),
            params: vec![pin_param("p")],
            body: vec![Stmt::Net(NetStmt { name: None, members: vec![pin("p", None, None)], span: sp() })],
        },
    );
    world.subdesigns.insert(
        "S".to_string(),
        SubdesignDef { name: id("S"), generics: Vec::new(), ports: Vec::new(), body: Vec::new() },
    );
    let computed = || {
        Some(IndexSel::Single(
            Expr::Binary { op: BinOp::Add, lhs: Box::new(lit(0)), rhs: Box::new(lit(0)), span: sp() },
            sp(),
        ))
    };
    let by_call = design(vec![call("helper", vec![pin("a", computed(), Some("P"))])]);
    assert!(metering_needed(&world, &by_call));
    let by_use = design(vec![Stmt::SubdesignUse(SubdesignUseStmt {
        name: id("s"),
        ty: ty("S"),
        array_len: None,
        conns: vec![PortConn { port: id("P"), value: pin("a", computed(), Some("P")), span: sp() }],
        span: sp(),
    })]);
    assert!(metering_needed(&world, &by_use));
    let by_nc = design(vec![nc(vec![pin("a", computed(), Some("Q"))])]);
    assert!(metering_needed(&world, &by_nc));
    let plain_call = design(vec![call("helper", vec![pin("a", Some(IndexSel::Single(lit(0), sp())), Some("P"))])]);
    assert!(!metering_needed(&world, &plain_call));
    let bypass = |index: Option<IndexSel>| {
        design(vec![
            Stmt::Inst(cohdl_check::ast::InstStmt {
                attrs: vec![cohdl_check::ast::InstAttr {
                    name: id("bypass"),
                    refs: vec![pin("a", index, Some("P"))],
                    span: sp(),
                }],
                name: id("b"),
                ty: ty("HOST"),
                array_len: None,
                span: sp(),
            }),
            nc(vec![pin("b", None, Some("P")), pin("b", None, Some("Q"))]),
        ])
    };
    assert!(metering_needed(&world, &bypass(computed())));
    assert!(!metering_needed(&world, &bypass(Some(IndexSel::Single(lit(0), sp())))));
}

#[test]
fn a_fn_sharing_a_visited_subdesign_name_is_not_entered() {
    let mut world = World::new();
    world.subdesigns.insert(
        "X".to_string(),
        SubdesignDef { name: id("X"), generics: Vec::new(), ports: Vec::new(), body: Vec::new() },
    );
    world.fns.insert(
        "X".to_string(),
        FnDef {
            name: id("X"),
            generics: Vec::new(),
            params: Vec::new(),
            body: vec![Stmt::Const(ConstStmt { name: id("N"), ty: ConstTy::Int, value: lit(1), span: sp() })],
        },
    );
    let use_x = Stmt::SubdesignUse(SubdesignUseStmt {
        name: id("s"),
        ty: ty("X"),
        array_len: None,
        conns: Vec::new(),
        span: sp(),
    });
    assert!(!metering_needed(&world, &design(vec![use_x, call("X", Vec::new())])));
    assert!(metering_needed(&world, &design(vec![call("X", Vec::new())])));
}

#[test]
fn a_meter_trips_only_on_a_refused_call() {
    let mut m = Meter::new(true);
    let mut d = Diagnostics::new();
    assert!(m.charge(999_999, "placing", sp(), &mut d));
    assert!(!m.tripped());
    assert!(m.charge(1, "placing", sp(), &mut d));
    assert!(!m.tripped());
    assert!(!m.charge(1, "placing", sp(), &mut d));
    assert!(m.tripped());
    assert_eq!(d.len(), 1);
    assert_eq!(d.get(0).code, Code::E1405);
}
