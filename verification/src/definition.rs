//! The statement-kind pass over a definition body: instance and call
//! kinds, variant selection, device generic arguments, call arguments, pin
//! references, and nested subdesign use sites, each checked against the
//! reference bases the body declares.
use crate::ast::{
    FnParam, FnParamTy, GenericBound, GenericParam, PinRef, PortConn, Stmt, SubdesignUseStmt,
};
use crate::diag::{err, Code, DiagView, Diagnostic, Diagnostics};
use crate::refs::{
    call_args_diags, call_kind_diags, check_call_args, check_call_kind, check_device_generic_args,
    check_inst_kind, check_pin_ref, check_sub_use_site, check_variant_selection,
    classify_inst_base, device_generic_diags, inst_kind_diags, is_inst_base, pin_ref_diags,
    port_names, sub_use_diags, variant_selection_diags, Base,
};
use crate::strmap::StrMap;
use crate::text::push_str;
use crate::world::{short, short_text, World};
use vstd::prelude::*;

verus! {

// ---------------------------------------------------------------------------
// Generic parameter classes
// ---------------------------------------------------------------------------

/// The names of the trait-bound generic parameters: valid instance types.
pub open spec fn trait_generic_names(gs: Seq<GenericParam>) -> Set<Seq<char>> {
    Set::new(
        |n: Seq<char>|
            exists|i: int| 0 <= i < gs.len() && gs[i].name.name@ == n && #[trigger] gs[i].bound is Traits,
    )
}

/// The names of the unit-bound generic parameters: values, never types.
pub open spec fn unit_generic_names(gs: Seq<GenericParam>) -> Set<Seq<char>> {
    Set::new(
        |n: Seq<char>|
            exists|i: int| 0 <= i < gs.len() && gs[i].name.name@ == n && #[trigger] gs[i].bound is Unit,
    )
}

/// The names of the generic parameters whose bound is a trait list (when
/// `traits`) or a unit (otherwise).
pub fn generic_class(gs: &Vec<GenericParam>, traits: bool) -> (m: StrMap<()>)
    ensures
        traits ==> m@.dom() == trait_generic_names(gs@),
        !traits ==> m@.dom() == unit_generic_names(gs@),
{
    let mut m: StrMap<()> = StrMap::new();
    let mut i: usize = 0;
    while i < gs.len()
        invariant
            i <= gs@.len(),
            traits ==> m@.dom() == trait_generic_names(gs@.take(i as int)),
            !traits ==> m@.dom() == unit_generic_names(gs@.take(i as int)),
        decreases gs@.len() - i,
    {
        let g = &gs[i];
        let hit = match &g.bound {
            GenericBound::Traits(_) => traits,
            GenericBound::Unit(_, _) => !traits,
            GenericBound::Int(_) => false,
        };
        let ghost before = m@.dom();
        if hit {
            m.insert(g.name.name.clone(), ());
        }
        proof {
            let t = gs@.take(i + 1);
            assert(t[i as int] == gs@[i as int]);
            assert forall|k: int| 0 <= k < i implies t[k] == gs@.take(i as int)[k] by {}
            if traits {
                assert(m@.dom() =~= trait_generic_names(t)) by {
                    assert forall|n: Seq<char>| m@.dom().contains(n) implies trait_generic_names(t).contains(n) by {
                        if !before.contains(n) {
                            assert(t[i as int].name.name@ == n && t[i as int].bound is Traits);
                        } else {
                            let k = choose|k: int|
                                0 <= k < i && gs@.take(i as int)[k].name.name@ == n
                                    && #[trigger] gs@.take(i as int)[k].bound is Traits;
                            assert(t[k].bound is Traits);
                        }
                    }
                    assert forall|n: Seq<char>| trait_generic_names(t).contains(n) implies m@.dom().contains(n) by {
                        let k = choose|k: int| 0 <= k < t.len() && t[k].name.name@ == n && #[trigger] t[k].bound is Traits;
                        if k < i {
                            assert(gs@.take(i as int)[k].bound is Traits);
                            assert(trait_generic_names(gs@.take(i as int)).contains(n));
                        }
                    }
                }
            } else {
                assert(m@.dom() =~= unit_generic_names(t)) by {
                    assert forall|n: Seq<char>| m@.dom().contains(n) implies unit_generic_names(t).contains(n) by {
                        if !before.contains(n) {
                            assert(t[i as int].name.name@ == n && t[i as int].bound is Unit);
                        } else {
                            let k = choose|k: int|
                                0 <= k < i && gs@.take(i as int)[k].name.name@ == n
                                    && #[trigger] gs@.take(i as int)[k].bound is Unit;
                            assert(t[k].bound is Unit);
                        }
                    }
                    assert forall|n: Seq<char>| unit_generic_names(t).contains(n) implies m@.dom().contains(n) by {
                        let k = choose|k: int| 0 <= k < t.len() && t[k].name.name@ == n && #[trigger] t[k].bound is Unit;
                        if k < i {
                            assert(gs@.take(i as int)[k].bound is Unit);
                            assert(unit_generic_names(gs@.take(i as int)).contains(n));
                        }
                    }
                }
            }
        }
        i = i + 1;
    }
    assert(gs@.take(gs@.len() as int) =~= gs@);
    m
}

// ---------------------------------------------------------------------------
// Reference bases
// ---------------------------------------------------------------------------

/// Whether statement `s` declares a reference base named `name`.
pub open spec fn stmt_declares(s: Stmt, name: Seq<char>) -> bool {
    match s {
        Stmt::Inst(i) => i.name.name@ == name,
        Stmt::SubdesignUse(u) => u.name.name@ == name,
        _ => false,
    }
}

/// The index of the last of `body[..n]` that declares `name`, or -1.
pub open spec fn last_body_decl(body: Seq<Stmt>, n: int, name: Seq<char>) -> int
    decreases n,
{
    if n <= 0 {
        -1
    } else if stmt_declares(body[n - 1], name) {
        n - 1
    } else {
        last_body_decl(body, n - 1, name)
    }
}

/// The index of the last of `params[..n]` named `name`, or -1.
pub open spec fn last_param(params: Seq<FnParam>, n: int, name: Seq<char>) -> int
    decreases n,
{
    if n <= 0 {
        -1
    } else if params[n - 1].name.name@ == name {
        n - 1
    } else {
        last_param(params, n - 1, name)
    }
}

/// `b` is what a parameter denotes: a pin parameter is used bare; an
/// instance parameter of generic or trait type is abstract.
pub open spec fn is_param_base(b: Base, p: FnParam) -> bool {
    match p.ty {
        FnParamTy::Pin(_) => b is Pin,
        _ => b is Abstract,
    }
}

/// `b` is what a nested subdesign use site denotes: the subdesign's short
/// name and its ports, or abstract when the type is no subdesign.
pub open spec fn is_sub_base(b: Base, world: World, u: SubdesignUseStmt) -> bool {
    let n = u.ty.name.name@;
    if world.subdesigns@.contains_key(n) {
        b matches Base::Sub { sub_short, ports } && sub_short@ == short_text(n) && ports@.dom()
            == port_names(world.subdesigns@[n])
    } else {
        b is Abstract
    }
}

/// `b` is what declaring statement `s` denotes.
pub open spec fn is_stmt_base(b: Base, world: World, tg: Set<Seq<char>>, s: Stmt) -> bool {
    match s {
        Stmt::Inst(i) => is_inst_base(b, world, tg, i),
        Stmt::SubdesignUse(u) => is_sub_base(b, world, u),
        _ => false,
    }
}

/// `m` holds the reference bases of the first `np` parameters and the first
/// `nb` body statements: exactly the declared names, each denoting what its
/// last declaration denotes, a body declaration overriding a parameter.
pub open spec fn bases_upto(
    m: Map<Seq<char>, Base>,
    world: World,
    tg: Set<Seq<char>>,
    params: Seq<FnParam>,
    np: int,
    body: Seq<Stmt>,
    nb: int,
) -> bool {
    &&& forall|name: Seq<char>|
        #[trigger] m.contains_key(name) <==> (last_body_decl(body, nb, name) >= 0 || last_param(
            params,
            np,
            name,
        ) >= 0)
    &&& forall|name: Seq<char>| #[trigger]
        m.contains_key(name) ==> if last_body_decl(body, nb, name) >= 0 {
            is_stmt_base(m[name], world, tg, body[last_body_decl(body, nb, name)])
        } else {
            is_param_base(m[name], params[last_param(params, np, name)])
        }
}

/// `m` holds the reference bases of a whole definition.
pub open spec fn bases_of(
    m: Map<Seq<char>, Base>,
    world: World,
    tg: Set<Seq<char>>,
    params: Seq<FnParam>,
    body: Seq<Stmt>,
) -> bool {
    bases_upto(m, world, tg, params, params.len() as int, body, body.len() as int)
}

proof fn lemma_last_param_range(params: Seq<FnParam>, n: int, name: Seq<char>)
    requires
        0 <= n,
    ensures
        -1 <= last_param(params, n, name) < n,
        last_param(params, n, name) >= 0 ==> params[last_param(params, n, name)].name.name@ == name,
    decreases n,
{
    if n > 0 && params[n - 1].name.name@ != name {
        lemma_last_param_range(params, n - 1, name);
    }
}

proof fn lemma_last_body_range(body: Seq<Stmt>, n: int, name: Seq<char>)
    requires
        0 <= n,
    ensures
        -1 <= last_body_decl(body, n, name) < n,
        last_body_decl(body, n, name) >= 0 ==> stmt_declares(body[last_body_decl(body, n, name)], name),
    decreases n,
{
    if n > 0 && !stmt_declares(body[n - 1], name) {
        lemma_last_body_range(body, n - 1, name);
    }
}

/// The reference bases of a definition: its value parameters, then every
/// instance and nested use site of its body, a later declaration of a name
/// replacing an earlier one.
pub fn collect_bases<'a>(
    world: &'a World,
    trait_generics: &StrMap<()>,
    params: &Vec<FnParam>,
    body: &Vec<Stmt>,
) -> (m: StrMap<Base<'a>>)
    ensures
        bases_of(m@, *world, trait_generics@.dom(), params@, body@),
{
    let ghost tg = trait_generics@.dom();
    let mut m: StrMap<Base<'a>> = StrMap::new();
    let mut p: usize = 0;
    while p < params.len()
        invariant
            p <= params@.len(),
            tg == trait_generics@.dom(),
            bases_upto(m@, *world, tg, params@, p as int, body@, 0),
        decreases params@.len() - p,
    {
        let prm = &params[p];
        let b = match &prm.ty {
            FnParamTy::Pin(_) => Base::Pin,
            _ => Base::Abstract,
        };
        let ghost old_m = m@;
        m.insert(prm.name.name.clone(), b);
        proof {
            let x = prm.name.name@;
            assert forall|name: Seq<char>| #[trigger]
                m@.contains_key(name) <==> (last_body_decl(body@, 0, name) >= 0 || last_param(
                    params@,
                    p + 1,
                    name,
                ) >= 0) by {
                lemma_last_param_range(params@, p as int, name);
            }
            assert forall|name: Seq<char>| #[trigger]
                m@.contains_key(name) implies is_param_base(
                m@[name],
                params@[last_param(params@, p + 1, name)],
            ) by {
                lemma_last_param_range(params@, p as int, name);
            }
        }
        p = p + 1;
    }
    let mut k: usize = 0;
    while k < body.len()
        invariant
            k <= body@.len(),
            p == params@.len(),
            tg == trait_generics@.dom(),
            bases_upto(m@, *world, tg, params@, p as int, body@, k as int),
        decreases body@.len() - k,
    {
        let ghost old_m = m@;
        match &body[k] {
            Stmt::Inst(i) => {
                let b = classify_inst_base(world, trait_generics, i);
                m.insert(i.name.name.clone(), b);
            },
            Stmt::SubdesignUse(u) => {
                let b = match world.subdesigns.get(&u.ty.name.name) {
                    Some(sd) => {
                        let mut ports: StrMap<()> = StrMap::new();
                        let mut q: usize = 0;
                        while q < sd.ports.len()
                            invariant
                                q <= sd.ports@.len(),
                                ports@.dom() == sd.ports@.take(q as int).map_values(
                                    |pt: crate::ast::Port| pt.name.name@,
                                ).to_set(),
                            decreases sd.ports@.len() - q,
                        {
                            ports.insert(sd.ports[q].name.name.clone(), ());
                            proof {
                                let f = |pt: crate::ast::Port| pt.name.name@;
                                let a = sd.ports@.take(q as int).map_values(f);
                                let c = sd.ports@.take(q + 1).map_values(f);
                                assert(c =~= a.push(sd.ports@[q as int].name.name@));
                                a.lemma_push_to_set_commute(sd.ports@[q as int].name.name@);
                            }
                            q = q + 1;
                        }
                        proof {
                            assert(sd.ports@.take(sd.ports@.len() as int) =~= sd.ports@);
                        }
                        Base::Sub { sub_short: short(&u.ty.name.name), ports }
                    },
                    None => Base::Abstract,
                };
                m.insert(u.name.name.clone(), b);
            },
            _ => {},
        }
        proof {
            assert forall|name: Seq<char>| #[trigger]
                m@.contains_key(name) <==> (last_body_decl(body@, k + 1, name) >= 0 || last_param(
                    params@,
                    p as int,
                    name,
                ) >= 0) by {
                lemma_last_body_range(body@, k as int, name);
            }
            assert forall|name: Seq<char>| #[trigger]
                m@.contains_key(name) implies if last_body_decl(body@, k + 1, name) >= 0 {
                is_stmt_base(m@[name], *world, tg, body@[last_body_decl(body@, k + 1, name)])
            } else {
                is_param_base(m@[name], params@[last_param(params@, p as int, name)])
            } by {
                lemma_last_body_range(body@, k as int, name);
            }
        }
        k = k + 1;
    }
    m
}

// ---------------------------------------------------------------------------
// The walk
// ---------------------------------------------------------------------------

pub open spec fn fn_sub_use_msg() -> Seq<char> {
    "a `subdesign` use site needs a retained hierarchy path — a `fn` expands inline and cannot contain one; move it into the design or a subdesign"@
}

/// The reference errors of `members` from index `i` on.
pub open spec fn refs_diags(bases: Map<Seq<char>, Base>, members: Seq<PinRef>, i: int) -> Seq<DiagView>
    decreases members.len() - i,
{
    if i < 0 || i >= members.len() {
        Seq::empty()
    } else {
        pin_ref_diags(bases, members[i]) + refs_diags(bases, members, i + 1)
    }
}

/// The reference errors of a use site's connections from index `i` on: a
/// bare name may be a net, so only dotted references are checked.
pub open spec fn conn_refs_diags(bases: Map<Seq<char>, Base>, conns: Seq<PortConn>, i: int) -> Seq<
    DiagView,
>
    decreases conns.len() - i,
{
    if i < 0 || i >= conns.len() {
        Seq::empty()
    } else {
        (if conns[i].value.pin.is_some() {
            pin_ref_diags(bases, conns[i].value)
        } else {
            Seq::empty()
        }) + conn_refs_diags(bases, conns, i + 1)
    }
}

/// The errors the statement-kind pass reports for one statement.
pub open spec fn walk_stmt_diags(
    world: World,
    tg: Set<Seq<char>>,
    ug: Set<Seq<char>>,
    bases: Map<Seq<char>, Base>,
    allow_sub_use: bool,
    s: Stmt,
) -> Seq<DiagView>
    decreases s, 0int,
{
    match s {
        Stmt::Inst(inst) => inst_kind_diags(world, tg, ug, inst.ty.name) + variant_selection_diags(
            world,
            inst,
        ) + device_generic_diags(world, inst),
        Stmt::Call(call) => call_kind_diags(world, call.callee) + call_args_diags(world, bases, call),
        Stmt::Net(n) => refs_diags(bases, n.members@, 0),
        Stmt::Nc(nc) => refs_diags(bases, nc.members@, 0),
        Stmt::Layout(_) => Seq::empty(),
        Stmt::Const(_) => Seq::empty(),
        Stmt::For(f) => walk_diags(world, tg, ug, bases, allow_sub_use, f.body@, 0),
        Stmt::SubdesignUse(sub) => if !allow_sub_use {
            seq![err(Code::E1307, sub.span, fn_sub_use_msg())]
        } else {
            sub_use_diags(world, sub) + conn_refs_diags(bases, sub.conns@, 0)
        },
    }
}

/// The errors the statement-kind pass reports for `stmts` from index `i`
/// on, recursing into loop bodies.
pub open spec fn walk_diags(
    world: World,
    tg: Set<Seq<char>>,
    ug: Set<Seq<char>>,
    bases: Map<Seq<char>, Base>,
    allow_sub_use: bool,
    stmts: Seq<Stmt>,
    i: int,
) -> Seq<DiagView>
    decreases stmts, stmts.len() - i,
{
    if i < 0 || i >= stmts.len() {
        Seq::empty()
    } else {
        walk_stmt_diags(world, tg, ug, bases, allow_sub_use, stmts[i]) + walk_diags(
            world,
            tg,
            ug,
            bases,
            allow_sub_use,
            stmts,
            i + 1,
        )
    }
}

fn check_refs(world: &World, bases: &StrMap<Base>, members: &Vec<PinRef>, diags: &mut Diagnostics)
    ensures
        final(diags)@ == old(diags)@ + refs_diags(bases@, members@, 0),
{
    let ghost d0 = diags@;
    let mut m: usize = 0;
    while m < members.len()
        invariant
            m <= members@.len(),
            diags@ + refs_diags(bases@, members@, m as int) == d0 + refs_diags(bases@, members@, 0),
        decreases members@.len() - m,
    {
        let ghost before = diags@;
        check_pin_ref(world, bases, &members[m], diags);
        proof {
            assert(diags@ + refs_diags(bases@, members@, m + 1) =~= before + refs_diags(bases@, members@, m as int));
        }
        m = m + 1;
    }
    assert(diags@ =~= d0 + refs_diags(bases@, members@, 0));
}

fn check_conn_refs(world: &World, bases: &StrMap<Base>, conns: &Vec<PortConn>, diags: &mut Diagnostics)
    ensures
        final(diags)@ == old(diags)@ + conn_refs_diags(bases@, conns@, 0),
{
    let ghost d0 = diags@;
    let mut c: usize = 0;
    while c < conns.len()
        invariant
            c <= conns@.len(),
            diags@ + conn_refs_diags(bases@, conns@, c as int) == d0 + conn_refs_diags(bases@, conns@, 0),
        decreases conns@.len() - c,
    {
        let ghost before = diags@;
        if conns[c].value.pin.is_some() {
            check_pin_ref(world, bases, &conns[c].value, diags);
        }
        proof {
            assert(diags@ + conn_refs_diags(bases@, conns@, c + 1) =~= before + conn_refs_diags(bases@, conns@, c as int));
        }
        c = c + 1;
    }
    assert(diags@ =~= d0 + conn_refs_diags(bases@, conns@, 0));
}

/// The statement-kind pass over `stmts`, recursing into loop bodies. A
/// nested subdesign use site is admitted only where `allow_sub_use` holds
/// (subdesign and design bodies): a fn expands inline (E1307).
pub fn walk(
    world: &World,
    trait_generics: &StrMap<()>,
    unit_generics: &StrMap<()>,
    bases: &StrMap<Base>,
    allow_sub_use: bool,
    stmts: &Vec<Stmt>,
    diags: &mut Diagnostics,
)
    ensures
        final(diags)@ == old(diags)@ + walk_diags(
            *world,
            trait_generics@.dom(),
            unit_generics@.dom(),
            bases@,
            allow_sub_use,
            stmts@,
            0,
        ),
    decreases stmts,
{
    let ghost tg = trait_generics@.dom();
    let ghost ug = unit_generics@.dom();
    let ghost d0 = diags@;
    let mut idx: usize = 0;
    while idx < stmts.len()
        invariant
            idx <= stmts@.len(),
            tg == trait_generics@.dom(),
            ug == unit_generics@.dom(),
            diags@ + walk_diags(*world, tg, ug, bases@, allow_sub_use, stmts@, idx as int) == d0
                + walk_diags(*world, tg, ug, bases@, allow_sub_use, stmts@, 0),
        decreases stmts@.len() - idx,
    {
        let ghost before = diags@;
        match &stmts[idx] {
            Stmt::Inst(inst) => {
                check_inst_kind(world, trait_generics, unit_generics, &inst.ty.name, diags);
                check_variant_selection(world, inst, diags);
                check_device_generic_args(world, inst, diags);
            },
            Stmt::Call(call) => {
                check_call_kind(world, &call.callee, diags);
                check_call_args(world, call, bases, diags);
            },
            Stmt::Net(n) => {
                check_refs(world, bases, &n.members, diags);
            },
            Stmt::Nc(nc) => {
                check_refs(world, bases, &nc.members, diags);
            },
            Stmt::Layout(_) => {},
            Stmt::Const(_) => {},
            Stmt::For(f) => {
                walk(world, trait_generics, unit_generics, bases, allow_sub_use, &f.body, diags);
            },
            Stmt::SubdesignUse(sub) => {
                if !allow_sub_use {
                    let mut m = String::new();
                    push_str(
                        &mut m,
                        "a `subdesign` use site needs a retained hierarchy path — a `fn` expands inline and cannot contain one; move it into the design or a subdesign",
                    );
                    diags.push(Diagnostic::error(Code::E1307, sub.span, m));
                } else {
                    check_sub_use_site(world, sub, diags);
                    check_conn_refs(world, bases, &sub.conns, diags);
                }
            },
        }
        proof {
            assert(diags@ =~= before + walk_stmt_diags(*world, tg, ug, bases@, allow_sub_use, stmts@[idx as int]));
            assert(diags@ + walk_diags(*world, tg, ug, bases@, allow_sub_use, stmts@, idx + 1) =~= before
                + walk_diags(*world, tg, ug, bases@, allow_sub_use, stmts@, idx as int));
        }
        idx = idx + 1;
    }
    assert(diags@ =~= d0 + walk_diags(*world, tg, ug, bases@, allow_sub_use, stmts@, 0));
}

} // verus!
