//! Declaration-time validation of every fn, subdesign and design body,
//! whether or not a design ever instantiates it.
//!
//! Expansion fully checks a fn only where it is inlined into the selected
//! design, so an uncalled body would otherwise escape checking. This pass
//! validates what is statically knowable: instance and call kinds, variant
//! selection, generic argument arity and unit-literal types, call arity,
//! pin references, duplicate local declarations, const kinds, loop bounds,
//! and which statements a loop body admits. Uncalled bodies keep unknown
//! generic and binder values and never specialize a callee.
use crate::ast::{
    expr_text, text_of, ConstStmt, ConstTy, Expr, GenericArg, GenericBound, GenericParam, Ident,
    IndexSel, LayoutBlock, LayoutFor, PathSeg, PinRef, Placement, PortConn, Span, Stmt, UnitType,
    CallStmt, InstStmt, NetStmt, SubdesignUseStmt,
};
use crate::diag::{all_reported, err, reported, Code, DiagView, Diagnostic, Diagnostics};
use crate::ast::ForStmt;
use crate::eval::{
    extends, lemma_extends_append, resolve_locals, type_check, type_check_spec, Env, LocalExpr,
    NameKind, Ty,
};
use crate::refs::{wrong_unit_argument, wrong_unit_diag};
use crate::strmap::{is_sorted_listing, lemma_sorted_listing_unique, sorted_listing, StrMap};
use crate::text::{cat, concat, push_str};
use crate::world::World;
use crate::ast::{FnParam, FnParamTy, Port, SubdesignDef};
use crate::definition::{
    bases_of, collect_bases, fn_sub_use_msg, generic_class, trait_generic_names, unit_generic_names,
    walk, walk_diags, walk_stmt_diags,
};
use crate::refs::Base;
use vstd::prelude::*;

verus! {

/// The static-validation context of one lexical scope: the name kinds for
/// type checking, the declared arrays, the loop labels seen so far, and
/// every name declared so far (for duplicate detection).
pub struct StaticCtx<'a> {
    pub world: &'a World,
    /// Whether unknown generic-argument names are reported here.
    pub check_names: bool,
    pub generic_names: StrMap<()>,
    pub env: Env,
    pub labels: StrMap<()>,
    pub seen_locals: StrMap<()>,
}

impl<'a> StaticCtx<'a> {
    /// An exact copy of the context.
    pub fn duplicate(&self) -> (c: StaticCtx<'a>)
        ensures
            c.world == self.world,
            c.check_names == self.check_names,
            c.generic_names@ == self.generic_names@,
            c.env.names@ == self.env.names@,
            c.env.array_lens@ == self.env.array_lens@,
            c.env.unknown_arrays@ == self.env.unknown_arrays@,
            c.labels@ == self.labels@,
            c.seen_locals@ == self.seen_locals@,
    {
        StaticCtx {
            world: self.world,
            check_names: self.check_names,
            generic_names: self.generic_names.duplicate(),
            env: self.env.duplicate(),
            labels: self.labels.duplicate(),
            seen_locals: self.seen_locals.duplicate(),
        }
    }
}

pub open spec fn duplicate_msg(name: Seq<char>) -> Seq<char> {
    concat(seq!["`"@, name, "` is already defined in this scope"@])
}

/// E201: a name declared twice in one scope.
pub fn duplicate(id: &Ident, diags: &mut Diagnostics)
    ensures
        final(diags)@ == old(diags)@.push(err(Code::E201, id.span, duplicate_msg(id.name@))),
{
    let v = vec!["`", id.name.as_str(), "` is already defined in this scope"];
    let m = cat(&v);
    proof {
        assert(v@.map_values(|p: &str| p@) =~= seq!["`"@, id.name@, "` is already defined in this scope"@]);
    }
    diags.push(Diagnostic::error(Code::E201, id.span, m));
}

/// The type a const declares.
pub open spec fn const_ty(t: ConstTy) -> Ty {
    match t {
        ConstTy::Int => Ty::Int,
        ConstTy::Length => Ty::Length,
    }
}

/// A const as a local of the dependency resolver.
pub fn const_local(c: &ConstStmt) -> (l: LocalExpr)
    ensures
        l.name == c.name,
        l.value == c.value,
        l.span == c.span,
        l.ty == Some(const_ty(c.ty)),
{
    LocalExpr {
        name: c.name.clone(),
        value: c.value.clone(),
        span: c.span,
        ty: Some(
            match c.ty {
                ConstTy::Int => Ty::Int,
                ConstTy::Length => Ty::Length,
            },
        ),
    }
}

// ---------------------------------------------------------------------------
// Static type checks of expressions
// ---------------------------------------------------------------------------

/// "Int" / "Length".
pub open spec fn ty_word(t: Ty) -> Seq<char> {
    match t {
        Ty::Int => "Int"@,
        Ty::Length => "Length"@,
    }
}

fn ty_word_str(t: Ty) -> (s: &'static str)
    ensures
        s@ == ty_word(t),
{
    match t {
        Ty::Int => "Int",
        Ty::Length => "Length",
    }
}

pub open spec fn wrong_kind_msg(what: Seq<char>, want: Ty, e: Expr, actual: Ty) -> Seq<char> {
    concat(
        seq![what, " must be an "@, ty_word(want), ", but `"@, text_of(e), "` is a "@, ty_word(actual)],
    )
}

/// The errors of statically checking that `e` has type `want`: those of
/// type checking, then E1401 when it has another type.
pub open spec fn stc_diags(env: Env, e: Expr, want: Ty, what: Seq<char>) -> Seq<DiagView> {
    let (t, d) = type_check_spec(e, env);
    match t {
        Some(t) => if t == want {
            d
        } else {
            d.push(err(Code::E1401, e.span_of(), wrong_kind_msg(what, want, e, t)))
        },
        None => d,
    }
}

/// Type-checks `e` with any resulting kind (a generic argument may be an
/// Int or a Length); still reports value errors. An ill-typed expression
/// counts as an Int.
pub fn static_type_check_any(ctx: &StaticCtx, e: &Expr, diags: &mut Diagnostics) -> (t: Ty)
    ensures
        t == match type_check_spec(*e, ctx.env).0 {
            Some(t) => t,
            None => Ty::Int,
        },
        final(diags)@ == old(diags)@ + type_check_spec(*e, ctx.env).1,
{
    match type_check(e, &ctx.env, diags) {
        Some(t) => t,
        None => Ty::Int,
    }
}

/// Type-checks `e` statically, requiring type `want` (E1401 otherwise);
/// value errors of concrete subexpressions are reported too.
pub fn static_type_check(ctx: &StaticCtx, e: &Expr, want: Ty, what: &str, diags: &mut Diagnostics)
    ensures
        final(diags)@ == old(diags)@ + stc_diags(ctx.env, *e, want, what@),
{
    match type_check(e, &ctx.env, diags) {
        Some(t) => {
            if t != want {
                let text = expr_text(e);
                let v = vec![what, " must be an ", ty_word_str(want), ", but `", text.as_str(), "` is a ", ty_word_str(t)];
                let m = cat(&v);
                proof {
                    assert(v@.map_values(|p: &str| p@) =~= seq![
                        what@,
                        " must be an "@,
                        ty_word(want),
                        ", but `"@,
                        text_of(*e),
                        "` is a "@,
                        ty_word(t),
                    ]);
                }
                diags.push(Diagnostic::error(Code::E1401, e.span(), m));
            }
        },
        None => {},
    }
    assert(final(diags)@ =~= old(diags)@ + stc_diags(ctx.env, *e, want, what@));
}

/// The errors of statically checking each of `es` from index `i` on.
pub open spec fn stc_all(env: Env, es: Seq<Expr>, want: Ty, what: Seq<char>, i: int) -> Seq<DiagView>
    decreases es.len() - i,
{
    if i < 0 || i >= es.len() {
        Seq::empty()
    } else {
        stc_diags(env, es[i], want, what) + stc_all(env, es, want, what, i + 1)
    }
}

/// The errors of statically checking an index selector: indexes, range
/// bounds and strides are Ints.
pub open spec fn selector_diags(env: Env, sel: Option<IndexSel>) -> Seq<DiagView> {
    match sel {
        Some(IndexSel::Single(e, _)) => stc_diags(env, e, Ty::Int, "an index"@),
        Some(IndexSel::List(items, _)) => stc_all(env, items@, Ty::Int, "an index"@, 0),
        Some(IndexSel::Range { start, end, step, .. }) => stc_diags(env, start, Ty::Int, "a range bound"@)
            + stc_diags(env, end, Ty::Int, "a range bound"@) + match step {
            Some(s) => stc_diags(env, s, Ty::Int, "a stride"@),
            None => Seq::empty(),
        },
        None => Seq::empty(),
    }
}

/// Statically checks the index selector of a reference.
pub fn check_selector_static(ctx: &StaticCtx, member: &PinRef, diags: &mut Diagnostics)
    ensures
        final(diags)@ == old(diags)@ + selector_diags(ctx.env, member.index),
{
    match &member.index {
        Some(IndexSel::Single(e, _)) => static_type_check(ctx, e, Ty::Int, "an index", diags),
        Some(IndexSel::List(items, _)) => {
            let ghost d0 = diags@;
            let mut i: usize = 0;
            while i < items.len()
                invariant
                    i <= items@.len(),
                    diags@ + stc_all(ctx.env, items@, Ty::Int, "an index"@, i as int) == d0 + stc_all(
                        ctx.env,
                        items@,
                        Ty::Int,
                        "an index"@,
                        0,
                    ),
                decreases items@.len() - i,
            {
                let ghost before = diags@;
                static_type_check(ctx, &items[i], Ty::Int, "an index", diags);
                proof {
                    assert(diags@ + stc_all(ctx.env, items@, Ty::Int, "an index"@, i + 1) =~= before
                        + stc_all(ctx.env, items@, Ty::Int, "an index"@, i as int));
                }
                i = i + 1;
            }
            assert(stc_all(ctx.env, items@, Ty::Int, "an index"@, i as int) == Seq::<DiagView>::empty());
            assert(diags@ =~= d0 + stc_all(ctx.env, items@, Ty::Int, "an index"@, 0));
        },
        Some(IndexSel::Range { start, end, step, .. }) => {
            static_type_check(ctx, start, Ty::Int, "a range bound", diags);
            static_type_check(ctx, end, Ty::Int, "a range bound", diags);
            match step {
                Some(step) => static_type_check(ctx, step, Ty::Int, "a stride", diags),
                None => {},
            }
        },
        None => {},
    }
    assert(final(diags)@ =~= old(diags)@ + selector_diags(ctx.env, member.index));
}

/// The errors of the indexes of a placement path from segment `i` on.
pub open spec fn path_diags(env: Env, path: Seq<PathSeg>, i: int) -> Seq<DiagView>
    decreases path.len() - i,
{
    if i < 0 || i >= path.len() {
        Seq::empty()
    } else {
        (match path[i].index {
            Some((e, _)) => stc_diags(env, e, Ty::Int, "an index"@),
            None => Seq::empty(),
        }) + path_diags(env, path, i + 1)
    }
}

/// The errors of a placement: coordinates are Lengths, the rotation and
/// the path's indexes are Ints.
pub open spec fn placement_diags(env: Env, p: Placement) -> Seq<DiagView> {
    stc_diags(env, p.at.0, Ty::Length, "placement x"@) + stc_diags(env, p.at.1, Ty::Length, "placement y"@)
        + match p.rotate {
        Some(r) => stc_diags(env, r, Ty::Int, "a rotation"@),
        None => Seq::empty(),
    } + path_diags(env, p.path@, 0)
}

/// Statically type-checks a placement's expressions.
pub fn check_placement_static(ctx: &StaticCtx, p: &Placement, diags: &mut Diagnostics)
    ensures
        final(diags)@ == old(diags)@ + placement_diags(ctx.env, *p),
{
    static_type_check(ctx, &p.at.0, Ty::Length, "placement x", diags);
    static_type_check(ctx, &p.at.1, Ty::Length, "placement y", diags);
    match &p.rotate {
        Some(r) => static_type_check(ctx, r, Ty::Int, "a rotation", diags),
        None => {},
    }
    let ghost d0 = diags@;
    let mut i: usize = 0;
    while i < p.path.len()
        invariant
            i <= p.path@.len(),
            diags@ + path_diags(ctx.env, p.path@, i as int) == d0 + path_diags(ctx.env, p.path@, 0),
        decreases p.path@.len() - i,
    {
        let ghost before = diags@;
        match &p.path[i].index {
            Some((e, _)) => static_type_check(ctx, e, Ty::Int, "an index", diags),
            None => {},
        }
        proof {
            assert(diags@ + path_diags(ctx.env, p.path@, i + 1) =~= before + path_diags(
                ctx.env,
                p.path@,
                i as int,
            ));
        }
        i = i + 1;
    }
    assert(path_diags(ctx.env, p.path@, i as int) == Seq::<DiagView>::empty());
    assert(final(diags)@ =~= old(diags)@ + placement_diags(ctx.env, *p));
}

// ---------------------------------------------------------------------------
// Integer literals written as generic arguments
// ---------------------------------------------------------------------------

pub open spec fn is_digit(c: char) -> bool {
    '0' as int <= c as int <= '9' as int
}

pub open spec fn all_digits(s: Seq<char>) -> bool {
    forall|i: int| 0 <= i < s.len() ==> is_digit(#[trigger] s[i])
}

/// The value of a string of decimal digits.
pub open spec fn digits_value(s: Seq<char>) -> nat
    decreases s.len(),
{
    if s.len() == 0 {
        0
    } else {
        digits_value(s.drop_last()) * 10 + (s.last() as int - '0' as int) as nat
    }
}

/// The value of a decimal integer literal with an optional leading `-`,
/// or `None` when the text is not one.
pub open spec fn int_literal(s: Seq<char>) -> Option<int> {
    if s.len() > 1 && s[0] == '-' && all_digits(s.skip(1)) {
        Some(-(digits_value(s.skip(1)) as int))
    } else if s.len() > 0 && all_digits(s) {
        Some(digits_value(s) as int)
    } else {
        None
    }
}

pub open spec fn not_int_msg(n: Seq<char>) -> Seq<char> {
    concat(seq!["`"@, n, "` is not an Int literal"@])
}

pub open spec fn int_range_msg(n: Seq<char>) -> Seq<char> {
    concat(seq!["`"@, n, "` does not fit in an Int"@])
}

/// The value of a bare number written for an Int parameter, or its error:
/// E1401 when it is not an integer literal, E1402 when it does not fit.
pub open spec fn checked_int_outcome(n: Seq<char>, span: Span) -> (Option<i64>, Seq<DiagView>) {
    match int_literal(n) {
        None => (None, seq![err(Code::E1401, span, not_int_msg(n))]),
        Some(v) => if i64::MIN <= v <= i64::MAX {
            (Some(v as i64), Seq::empty())
        } else {
            (None, seq![err(Code::E1402, span, int_range_msg(n))])
        },
    }
}

/// A bare number must be an integer literal that fits in an Int; it never
/// falls back to zero.
pub fn checked_int(n: &String, span: Span, diags: &mut Diagnostics) -> (r: Option<i64>)
    ensures
        r == checked_int_outcome(n@, span).0,
        final(diags)@ == old(diags)@ + checked_int_outcome(n@, span).1,
{
    let len = n.as_str().unicode_len();
    let negative = len > 1 && n.as_str().get_char(0) == '-';
    let start: usize = if negative {
        1
    } else {
        0
    };
    let ghost digits = n@.skip(start as int);
    let limit: u128 = 9_223_372_036_854_775_808;
    let mut acc: u128 = 0;
    let mut big = false;
    let mut ok = len > 0;
    let mut i = start;
    proof {
        assert(digits.take(0) =~= Seq::<char>::empty());
    }
    while i < len
        invariant
            len == n@.len(),
            limit == 9_223_372_036_854_775_808,
            start <= i <= len,
            digits == n@.skip(start as int),
            ok ==> all_digits(digits.take(i - start)),
            ok ==> len > 0,
            !ok ==> !all_digits(digits) || len == 0,
            ok && !big ==> acc == digits_value(digits.take(i - start)) && acc <= limit,
            ok && big ==> digits_value(digits.take(i - start)) > limit,
        decreases len - i,
    {
        let c = n.as_str().get_char(i);
        let ghost pre = digits.take(i - start);
        assert(digits.take(i + 1 - start) =~= pre.push(c));
        assert(digits[i - start] == c);
        if (c as u32) < ('0' as u32) || (c as u32) > ('9' as u32) {
            ok = false;
        } else if ok {
            let d = (c as u32 - '0' as u32) as u128;
            assert(pre.push(c).drop_last() =~= pre);
            assert(pre.push(c).last() == c);
            assert(digits_value(pre.push(c)) == digits_value(pre) * 10 + d);
            if !big {
                assert(acc <= limit);
                let next = acc * 10 + d;
                if next > limit {
                    big = true;
                } else {
                    acc = next;
                }
            }
        }
        i = i + 1;
    }
    proof {
        assert(digits.take(len - start) =~= digits);
        if negative {
            assert(n@.skip(1) == digits);
        } else {
            assert(n@.skip(0) =~= n@);
        }
    }
    if !ok {
        let v = vec!["`", n.as_str(), "` is not an Int literal"];
        let m = cat(&v);
        proof {
            assert(v@.map_values(|p: &str| p@) =~= seq!["`"@, n@, "` is not an Int literal"@]);
        }
        diags.push(Diagnostic::error(Code::E1401, span, m));
        return None;
    }
    let fits = if negative {
        !big
    } else {
        !big && acc < limit
    };
    if !fits {
        let v = vec!["`", n.as_str(), "` does not fit in an Int"];
        let m = cat(&v);
        proof {
            assert(v@.map_values(|p: &str| p@) =~= seq!["`"@, n@, "` does not fit in an Int"@]);
        }
        diags.push(Diagnostic::error(Code::E1402, span, m));
        return None;
    }
    assert(final(diags)@ =~= old(diags)@ + checked_int_outcome(n@, span).1);
    if negative {
        if acc == limit {
            Some(i64::MIN)
        } else {
            Some(-(acc as i64))
        }
    } else {
        Some(acc as i64)
    }
}

// ---------------------------------------------------------------------------
// Named generic arguments
// ---------------------------------------------------------------------------

/// The value type a parameter expects, when it is an Int or a Length.
pub open spec fn expected_ty(params: Option<Seq<GenericParam>>, i: int) -> Option<Ty> {
    match params {
        Some(p) => if 0 <= i < p.len() {
            match p[i].bound {
                GenericBound::Int(_) => Some(Ty::Int),
                GenericBound::Unit(u, _) => if u == UnitType::Length {
                    Some(Ty::Length)
                } else {
                    None
                },
                GenericBound::Traits(_) => None,
            }
        } else {
            None
        },
        None => None,
    }
}

/// Whether the `i`-th parameter is an Int.
pub open spec fn int_param(params: Option<Seq<GenericParam>>, i: int) -> bool {
    match params {
        Some(p) => 0 <= i < p.len() && p[i].bound is Int,
        None => false,
    }
}

/// Whether `e` is a unit literal inside any number of parentheses.
pub open spec fn bare_literal(e: Expr) -> bool
    decreases e,
{
    match e {
        Expr::Length(_, _) => true,
        Expr::Paren(inner, _) => bare_literal(*inner),
        _ => false,
    }
}

/// The spelling of the unit literal inside any number of parentheses.
pub open spec fn literal_spelling(e: Expr) -> Seq<char>
    decreases e,
{
    match e {
        Expr::Length(v, _) => v.text@,
        Expr::Paren(inner, _) => literal_spelling(*inner),
        _ => text_of(e),
    }
}

/// How a computed generic argument is shown: a unit literal, even in
/// parentheses, by its own spelling; anything else by its source text.
pub open spec fn arg_spelling(e: Expr) -> Seq<char> {
    if bare_literal(e) {
        literal_spelling(e)
    } else {
        text_of(e)
    }
}

fn is_bare_literal(e: &Expr) -> (b: bool)
    ensures
        b == bare_literal(*e),
    decreases e,
{
    match e {
        Expr::Length(_, _) => true,
        Expr::Paren(inner, _) => is_bare_literal(inner),
        _ => false,
    }
}

fn literal_spelling_of(e: &Expr) -> (s: String)
    ensures
        s@ == literal_spelling(*e),
    decreases e,
{
    match e {
        Expr::Length(v, _) => v.text.clone(),
        Expr::Paren(inner, _) => literal_spelling_of(inner),
        _ => expr_text(e),
    }
}

fn spelling_of(e: &Expr) -> (s: String)
    ensures
        s@ == arg_spelling(*e),
{
    if is_bare_literal(e) {
        literal_spelling_of(e)
    } else {
        expr_text(e)
    }
}

/// The errors of one generic argument, checked against its parameter (if
/// known) in the static context.
pub open spec fn named_arg_diags(
    ctx: StaticCtx,
    params: Option<Seq<GenericParam>>,
    arg: GenericArg,
    i: int,
) -> Seq<DiagView> {
    let env = ctx.env;
    let expected = expected_ty(params, i);
    match arg {
        GenericArg::Name(id) => {
            let n = id.name@;
            (match expected {
                Some(t) => if env.names@.contains_key(n) {
                    stc_diags(env, Expr::Name(id), t, "a generic argument"@)
                } else {
                    Seq::empty()
                },
                None => Seq::empty(),
            }) + if !ctx.check_names || ctx.generic_names@.contains_key(n) || (env.names@.contains_key(n)
                && !(env.names@[n] is NonValue)) || ctx.world.symbols@.contains_key(n) {
                Seq::empty()
            } else {
                seq![err(Code::E202, id.span, concat(seq!["cannot find `"@, n, "` in this scope"@]))]
            }
        },
        GenericArg::Expr(e) => match expected {
            Some(t) => stc_diags(env, e, t, "a generic argument"@),
            None => {
                let (t, d) = type_check_spec(e, env);
                let ty = match t {
                    Some(t) => t,
                    None => Ty::Int,
                };
                d + match params {
                    Some(p) => if 0 <= i < p.len() {
                        match p[i].bound {
                            GenericBound::Unit(u, _) => if ty == Ty::Length {
                                seq![wrong_unit_diag(p[i], u, UnitType::Length, arg_spelling(e), e.span_of())]
                            } else {
                                Seq::empty()
                            },
                            _ => Seq::empty(),
                        }
                    } else {
                        Seq::empty()
                    },
                    None => Seq::empty(),
                }
            },
        },
        GenericArg::Unit(value, span) => if expected == Some(Ty::Int) {
            stc_diags(env, Expr::Length(value, span), Ty::Int, "a generic argument"@)
        } else {
            Seq::empty()
        },
        GenericArg::Number(n, span) => if int_param(params, i) {
            checked_int_outcome(n@, span).1
        } else {
            Seq::empty()
        },
    }
}

/// The errors of the generic arguments from index `i` on.
pub open spec fn named_args_diags(
    ctx: StaticCtx,
    params: Option<Seq<GenericParam>>,
    args: Seq<GenericArg>,
    i: int,
) -> Seq<DiagView>
    decreases args.len() - i,
{
    if i < 0 || i >= args.len() {
        Seq::empty()
    } else {
        named_arg_diags(ctx, params, args[i], i) + named_args_diags(ctx, params, args, i + 1)
    }
}

/// The view of optional parameters.
pub open spec fn opt_params(p: Option<&Vec<GenericParam>>) -> Option<Seq<GenericParam>> {
    match p {
        Some(v) => Some(v@),
        None => None,
    }
}

/// Checks the `i`-th generic argument against its parameter.
#[verifier::spinoff_prover]
#[verifier::rlimit(30)]
fn check_named_generic_arg(
    ctx: &StaticCtx,
    arg: &GenericArg,
    params: Option<&Vec<GenericParam>>,
    i: usize,
    diags: &mut Diagnostics,
)
    ensures
        final(diags)@ == old(diags)@ + named_arg_diags(*ctx, opt_params(params), *arg, i as int),
{
    let ghost ps = opt_params(params);
    let param: Option<&GenericParam> = match params {
        Some(p) => if i < p.len() {
            Some(&p[i])
        } else {
            None
        },
        None => None,
    };
    let expected: Option<Ty> = match param {
        Some(param) => match &param.bound {
            GenericBound::Int(_) => Some(Ty::Int),
            GenericBound::Unit(u, _) => if *u == UnitType::Length {
                Some(Ty::Length)
            } else {
                None
            },
            GenericBound::Traits(_) => None,
        },
        None => None,
    };
    assert(expected == expected_ty(ps, i as int));
    match arg {
        GenericArg::Name(id) => {
            match expected {
                Some(t) => {
                    if ctx.env.names.contains_key(&id.name) {
                        static_type_check(ctx, &Expr::Name(id.clone()), t, "a generic argument", diags);
                    }
                },
                None => {},
            }
            let value_name = match ctx.env.names.get(&id.name) {
                Some(NameKind::NonValue) => false,
                Some(_) => true,
                None => false,
            };
            if !(!ctx.check_names || ctx.generic_names.contains_key(&id.name) || value_name
                || ctx.world.symbols.contains_key(&id.name)) {
                let v = vec!["cannot find `", id.name.as_str(), "` in this scope"];
                let m = cat(&v);
                proof {
                    assert(v@.map_values(|p: &str| p@) =~= seq!["cannot find `"@, id.name@, "` in this scope"@]);
                }
                diags.push(Diagnostic::error(Code::E202, id.span, m));
            }
        },
        GenericArg::Expr(e) => {
            match expected {
                Some(t) => static_type_check(ctx, e, t, "a generic argument", diags),
                None => {
                    let ty = static_type_check_any(ctx, e, diags);
                    match param {
                        Some(param) => match &param.bound {
                            GenericBound::Unit(unit, _) => {
                                if ty == Ty::Length {
                                    // A Length-typed argument, known or not, is
                                    // the wrong unit for any other unit.
                                    let spelling = spelling_of(e);
                                    diags.push(
                                        wrong_unit_argument(param, *unit, UnitType::Length, spelling.as_str(), e.span()),
                                    );
                                }
                            },
                            _ => {},
                        },
                        None => {},
                    }
                },
            }
        },
        GenericArg::Unit(value, span) => {
            if expected == Some(Ty::Int) {
                static_type_check(ctx, &Expr::Length(value.clone(), *span), Ty::Int, "a generic argument", diags);
            }
        },
        GenericArg::Number(n, span) => {
            let is_int = match param {
                Some(param) => match &param.bound {
                    GenericBound::Int(_) => true,
                    _ => false,
                },
                None => false,
            };
            if is_int {
                let _ = checked_int(n, *span, diags);
            }
        },
    }
    assert(final(diags)@ =~= old(diags)@ + named_arg_diags(*ctx, ps, *arg, i as int));
}

/// Generic arguments: a name must resolve to a generic in scope, a value
/// name or a declared symbol (E202); an Int or Length parameter's argument
/// must type-check to that kind; a computed Length for another unit is
/// E112; a bare number for an Int must be an Int literal.
pub fn check_named_generic_args(
    ctx: &StaticCtx,
    args: &Vec<GenericArg>,
    params: Option<&Vec<GenericParam>>,
    diags: &mut Diagnostics,
)
    ensures
        final(diags)@ == old(diags)@ + named_args_diags(*ctx, opt_params(params), args@, 0),
{
    let ghost ps = opt_params(params);
    let ghost d0 = diags@;
    let mut i: usize = 0;
    while i < args.len()
        invariant
            i <= args@.len(),
            ps == opt_params(params),
            diags@ + named_args_diags(*ctx, ps, args@, i as int) == d0 + named_args_diags(
                *ctx,
                ps,
                args@,
                0,
            ),
        decreases args@.len() - i,
    {
        let ghost before = diags@;
        check_named_generic_arg(ctx, &args[i], params, i, diags);
        proof {
            assert(diags@ + named_args_diags(*ctx, ps, args@, i + 1) =~= before + named_args_diags(
                *ctx,
                ps,
                args@,
                i as int,
            ));
        }
        i = i + 1;
    }
    assert(named_args_diags(*ctx, ps, args@, i as int) == Seq::<DiagView>::empty());
    assert(final(diags)@ =~= old(diags)@ + named_args_diags(*ctx, ps, args@, 0));
}

// ---------------------------------------------------------------------------
// Lexical scopes
// ---------------------------------------------------------------------------

/// The declaration a statement makes in its scope: the name, whether it is
/// of a kind that may never share a name (a const or loop label), and
/// whether it is unique among instances (nets may repeat).
pub open spec fn stmt_decl(s: Stmt) -> Option<(Ident, bool, bool)> {
    match s {
        Stmt::Inst(i) => Some((i.name, false, true)),
        Stmt::SubdesignUse(u) => Some((u.name, false, true)),
        Stmt::Const(c) => Some((c.name, true, true)),
        Stmt::For(f) => Some((f.label, true, true)),
        Stmt::Net(n) => match n.name {
            Some(name) => Some((name, false, false)),
            None => None,
        },
        _ => None,
    }
}

/// The local a statement contributes to dependency resolution: a const,
/// or the length of an instance or subdesign array.
pub open spec fn stmt_local(s: Stmt) -> Option<LocalExpr> {
    match s {
        Stmt::Inst(i) => match i.array_len {
            Some((v, _)) => Some(LocalExpr { name: i.name, value: v, span: v.span_of(), ty: None }),
            None => None,
        },
        Stmt::SubdesignUse(u) => match u.array_len {
            Some((v, _)) => Some(LocalExpr { name: u.name, value: v, span: v.span_of(), ty: None }),
            None => None,
        },
        Stmt::Const(c) => Some(LocalExpr { name: c.name, value: c.value, span: c.span, ty: Some(const_ty(c.ty)) }),
        _ => None,
    }
}

pub open spec fn opt_seq<T>(o: Option<T>) -> Seq<T> {
    match o {
        Some(x) => seq![x],
        None => Seq::empty(),
    }
}

pub open spec fn decls_of(stmts: Seq<Stmt>) -> Seq<(Ident, bool, bool)>
    decreases stmts.len(),
{
    if stmts.len() == 0 {
        Seq::empty()
    } else {
        decls_of(stmts.drop_last()) + opt_seq(stmt_decl(stmts.last()))
    }
}

pub open spec fn locals_of(stmts: Seq<Stmt>) -> Seq<LocalExpr>
    decreases stmts.len(),
{
    if stmts.len() == 0 {
        Seq::empty()
    } else {
        locals_of(stmts.drop_last()) + opt_seq(stmt_local(stmts.last()))
    }
}

/// The duplicate-declaration errors of `decls` from index `i` on, where
/// `seen` holds the names of enclosing scopes and `local` the kinds declared
/// so far in this scope. Only the later declaration is reported: a const or
/// label conflicts with any declaration of its name, an instance with an
/// instance, and nets may repeat.
pub open spec fn dup_diags(
    decls: Seq<(Ident, bool, bool)>,
    seen: Set<Seq<char>>,
    local: Map<Seq<char>, (bool, bool)>,
    i: int,
) -> Seq<DiagView>
    decreases decls.len() - i,
{
    if i < 0 || i >= decls.len() {
        Seq::empty()
    } else {
        let (id, new_kind, unique) = decls[i];
        let n = id.name@;
        let dup_here = local.contains_key(n) && (new_kind || local[n].0 || (unique && local[n].1));
        let here = if (unique && seen.contains(n)) || dup_here {
            seq![err(Code::E201, id.span, duplicate_msg(n))]
        } else {
            Seq::empty()
        };
        let e = if local.contains_key(n) {
            local[n]
        } else {
            (false, false)
        };
        here + dup_diags(decls, seen, local.insert(n, (e.0 || new_kind, e.1 || unique)), i + 1)
    }
}

/// The names declared by `decls`.
pub open spec fn decl_names(decls: Seq<(Ident, bool, bool)>) -> Set<Seq<char>> {
    decls.map_values(|d: (Ident, bool, bool)| d.0.name@).to_set()
}

/// The names of a scope's instances and use sites: the declarations that
/// are neither new kinds of name nor allowed to repeat.
pub open spec fn site_names(decls: Seq<(Ident, bool, bool)>) -> Set<Seq<char>> {
    Set::new(|k: Seq<char>| exists|j: int| 0 <= j < decls.len() && #[trigger] decls[j].0.name@ == k && !decls[j].1 && decls[j].2)
}

proof fn lemma_site_names_push(decls: Seq<(Ident, bool, bool)>, d: (Ident, bool, bool))
    ensures
        site_names(decls.push(d)) == if !d.1 && d.2 {
            site_names(decls).insert(d.0.name@)
        } else {
            site_names(decls)
        },
{
    let q = decls.push(d);
    assert forall|k: Seq<char>| site_names(decls).contains(k) implies site_names(q).contains(k) by {
        let j = choose|j: int| 0 <= j < decls.len() && #[trigger] decls[j].0.name@ == k && !decls[j].1 && decls[j].2;
        assert(q[j] == decls[j]);
    }
    assert forall|k: Seq<char>| site_names(q).contains(k) implies site_names(decls).contains(k) || (k == d.0.name@ && !d.1 && d.2) by {
        let j = choose|j: int| 0 <= j < q.len() && #[trigger] q[j].0.name@ == k && !q[j].1 && q[j].2;
        if j < decls.len() {
            assert(q[j] == decls[j]);
        }
    }
    if !d.1 && d.2 {
        assert(q[decls.len() as int] == d);
        assert(site_names(q) =~= site_names(decls).insert(d.0.name@));
    } else {
        assert(site_names(q) =~= site_names(decls));
    }
}

/// Outside a scope's locals, reserving it only adds its instances and use
/// sites, as names without a value, where they were not visible before.
#[verifier::opaque]
pub open spec fn outside_kept(
    old_ctx: StaticCtx,
    ctx: StaticCtx,
    decls: Seq<(Ident, bool, bool)>,
    locals: Seq<LocalExpr>,
) -> bool {
    forall|k: Seq<char>|
        #![trigger ctx.env.names@.contains_key(k)]
        !crate::eval::pending_of(locals).contains_key(k) ==> {
            &&& ctx.env.names@.contains_key(k) == (old_ctx.env.names@.contains_key(k) || site_names(decls).contains(k))
            &&& ctx.env.names@.contains_key(k) ==> ctx.env.names@[k] == if old_ctx.env.names@.contains_key(k) {
                old_ctx.env.names@[k]
            } else {
                NameKind::NonValue
            }
            &&& ctx.env.array_lens@.contains_key(k) == old_ctx.env.array_lens@.contains_key(k)
            &&& ctx.env.array_lens@.contains_key(k) ==> ctx.env.array_lens@[k] == old_ctx.env.array_lens@[k]
            &&& ctx.env.unknown_arrays@.contains_key(k) == old_ctx.env.unknown_arrays@.contains_key(k)
        }
}

/// What reserving a scope guarantees.
pub open spec fn scope_reserved(
    old_ctx: StaticCtx,
    ctx: StaticCtx,
    decls: Seq<(Ident, bool, bool)>,
    locals: Seq<LocalExpr>,
    old_diags: Seq<DiagView>,
    diags: Seq<DiagView>,
) -> bool {
    &&& ctx.world == old_ctx.world
    &&& ctx.check_names == old_ctx.check_names
    &&& ctx.generic_names@ == old_ctx.generic_names@
    &&& ctx.labels@ == old_ctx.labels@
    &&& ctx.seen_locals@.dom() == old_ctx.seen_locals@.dom() + decl_names(decls)
    &&& outside_kept(old_ctx, ctx, decls, locals)
    &&& extends(diags, old_diags + dup_diags(decls, old_ctx.seen_locals@.dom(), Map::empty(), 0))
    &&& diags == crate::eval::all_spec(
        crate::eval::pending_of(locals),
        crate::eval::failure_spans(old_diags + dup_diags(decls, old_ctx.seen_locals@.dom(), Map::empty(), 0)),
        ctx.env,
        crate::strmap::sorted_listing(crate::eval::pending_of(locals).dom()),
        (Set::empty(), Set::empty(), old_diags + dup_diags(decls, old_ctx.seen_locals@.dom(), Map::empty(), 0)),
    ).2
    &&& forall|j: int|
        0 <= j < locals.len() ==> crate::eval::local_claim(
            crate::eval::pending_of(locals)[(#[trigger] locals[j]).name.name@],
            locals[j].name.name@,
            ctx.env,
        )
    &&& forall|j: int|
        0 <= j < locals.len() ==> crate::eval::value_claim(
            crate::eval::pending_of(locals)[(#[trigger] locals[j]).name.name@],
            locals[j].name.name@,
            ctx.env,
        )
    &&& forall|j: int|
        0 <= j < locals.len() && !crate::eval::on_cycle(
            crate::eval::pending_of(locals),
            (#[trigger] locals[j]).name.name@,
        ) ==> crate::eval::outcome(
            crate::eval::pending_of(locals)[locals[j].name.name@],
            locals[j].name.name@,
            ctx.env,
            crate::eval::failure_spans(old_diags + dup_diags(decls, old_ctx.seen_locals@.dom(), Map::empty(), 0)),
            diags,
        )
}

proof fn lemma_set_of_push(s: Seq<Seq<char>>, x: Seq<char>)
    ensures
        s.push(x).to_set() == s.to_set().insert(x),
{
    let q = s.push(x);
    assert forall|y: Seq<char>| q.to_set().contains(y) <==> s.to_set().insert(x).contains(y) by {
        if q.to_set().contains(y) {
            let j = choose|j: int| 0 <= j < q.len() && q[j] == y;
            if j < s.len() {
                assert(s.to_set().contains(s[j]));
            }
        }
        if s.to_set().contains(y) {
            let j = choose|j: int| 0 <= j < s.len() && s[j] == y;
            assert(q[j] == y);
        }
        if y == x {
            assert(q[s.len() as int] == y);
        }
    }
    assert(q.to_set() =~= s.to_set().insert(x));
}

/// Reserves a scope's declarations: reports duplicates (only the later
/// site), records the names as seen, then resolves the scope's consts and
/// array lengths in dependency order.
#[verifier::spinoff_prover]
#[verifier::rlimit(40)]
fn reserve_scope(
    ctx: &mut StaticCtx,
    decls: &Vec<(Ident, bool, bool)>,
    locals: &Vec<LocalExpr>,
    diags: &mut Diagnostics,
)
    requires
        forall|k: Seq<char>| #[trigger] site_names(decls@).contains(k) ==> old(ctx).env.names@.contains_key(k),
    ensures
        scope_reserved(*old(ctx), *final(ctx), decls@, locals@, old(diags)@, final(diags)@),
{
    let ghost seen0 = ctx.seen_locals@.dom();
    let ghost d0 = diags@;
    let mut local_names: StrMap<(bool, bool)> = StrMap::new();
    let mut i: usize = 0;
    while i < decls.len()
        invariant
            i <= decls@.len(),
            seen0 == ctx.seen_locals@.dom(),
            diags@ + dup_diags(decls@, seen0, local_names@, i as int) == d0 + dup_diags(
                decls@,
                seen0,
                Map::empty(),
                0,
            ),
        decreases decls@.len() - i,
    {
        let ghost before = diags@;
        let ghost local0 = local_names@;
        let d = &decls[i];
        let name = &d.0.name;
        let new_kind = d.1;
        let unique = d.2;
        let earlier = match local_names.get(name) {
            Some(e) => *e,
            None => (false, false),
        };
        let exists = local_names.contains_key(name);
        let duplicate_here = exists && (new_kind || earlier.0 || (unique && earlier.1));
        if (unique && ctx.seen_locals.contains_key(name)) || duplicate_here {
            duplicate(&d.0, diags);
        }
        local_names.insert(name.clone(), (earlier.0 || new_kind, earlier.1 || unique));
        proof {
            assert(diags@ + dup_diags(decls@, seen0, local_names@, i + 1) =~= before + dup_diags(
                decls@,
                seen0,
                local0,
                i as int,
            ));
        }
        i = i + 1;
    }
    assert(dup_diags(decls@, seen0, local_names@, i as int) == Seq::<DiagView>::empty());
    assert(diags@ =~= d0 + dup_diags(decls@, seen0, Map::empty(), 0));
    let ghost names_seq = decls@.map_values(|d: (Ident, bool, bool)| d.0.name@);
    let mut k: usize = 0;
    while k < decls.len()
        invariant
            k <= decls@.len(),
            names_seq == decls@.map_values(|d: (Ident, bool, bool)| d.0.name@),
            ctx.seen_locals@.dom() == seen0 + names_seq.take(k as int).to_set(),
            ctx.world == old(ctx).world,
            ctx.check_names == old(ctx).check_names,
            ctx.generic_names@ == old(ctx).generic_names@,
            ctx.labels@ == old(ctx).labels@,
            ctx.env == old(ctx).env,
        decreases decls@.len() - k,
    {
        ctx.seen_locals.insert(decls[k].0.name.clone(), ());
        proof {
            assert(names_seq.take(k + 1) =~= names_seq.take(k as int).push(names_seq[k as int]));
            lemma_set_of_push(names_seq.take(k as int), names_seq[k as int]);
            assert(ctx.seen_locals@.dom() =~= seen0 + names_seq.take(k + 1).to_set());
        }
        k = k + 1;
    }
    proof {
        assert(names_seq.take(decls@.len() as int) =~= names_seq);
    }
    // Expressions whose failure this body has already reported are not
    // evaluated again.
    let failed = crate::eval::expression_failures(diags);
    let ghost d1 = diags@;
    resolve_locals(locals, &mut ctx.env, &failed, diags);
    proof {
        crate::eval::lemma_extends_trans_pub(d1, diags@);
        reveal(outside_kept);
        assert forall|k: Seq<char>| #![trigger ctx.env.names@.contains_key(k)]
            !crate::eval::pending_of(locals@).contains_key(k) implies {
            &&& ctx.env.names@.contains_key(k) == (old(ctx).env.names@.contains_key(k) || site_names(decls@).contains(k))
            &&& ctx.env.names@.contains_key(k) ==> ctx.env.names@[k] == if old(ctx).env.names@.contains_key(k) {
                old(ctx).env.names@[k]
            } else {
                NameKind::NonValue
            }
            &&& ctx.env.array_lens@.contains_key(k) == old(ctx).env.array_lens@.contains_key(k)
            &&& ctx.env.array_lens@.contains_key(k) ==> ctx.env.array_lens@[k] == old(ctx).env.array_lens@[k]
            &&& ctx.env.unknown_arrays@.contains_key(k) == old(ctx).env.unknown_arrays@.contains_key(k)
        } by {
            if site_names(decls@).contains(k) {
                assert(old(ctx).env.names@.contains_key(k));
            }
        }
    }
}

/// Reserve this lexical body's names before checking any expression: nets
/// may be declared repeatedly, but a const or label may not share a name.
pub fn prepare_scope(ctx: &mut StaticCtx, stmts: &Vec<Stmt>, diags: &mut Diagnostics)
    ensures
        scope_reserved(*old(ctx), *final(ctx), decls_of(stmts@), locals_of(stmts@), old(diags)@, final(diags)@),
{
    let mut decls: Vec<(Ident, bool, bool)> = Vec::new();
    let mut locals: Vec<LocalExpr> = Vec::new();
    let mut i: usize = 0;
    while i < stmts.len()
        invariant
            i <= stmts@.len(),
            decls@ == decls_of(stmts@.take(i as int)),
            locals@ == locals_of(stmts@.take(i as int)),
            ctx.world == old(ctx).world,
            ctx.check_names == old(ctx).check_names,
            ctx.generic_names@ == old(ctx).generic_names@,
            ctx.labels@ == old(ctx).labels@,
            ctx.seen_locals@ == old(ctx).seen_locals@,
            ctx.env.array_lens@ == old(ctx).env.array_lens@,
            ctx.env.unknown_arrays@ == old(ctx).env.unknown_arrays@,
            forall|k: Seq<char>|
                #![trigger ctx.env.names@.contains_key(k)]
                ctx.env.names@.contains_key(k) == (old(ctx).env.names@.contains_key(k) || site_names(decls@).contains(k))
                    && (ctx.env.names@.contains_key(k) ==> ctx.env.names@[k] == if old(ctx).env.names@.contains_key(k) {
                    old(ctx).env.names@[k]
                } else {
                    NameKind::NonValue
                }),
        decreases stmts@.len() - i,
    {
        let ghost d_before = decls@;
        let ghost n_before = ctx.env.names@;
        proof {
            assert(stmts@.take(i + 1).drop_last() =~= stmts@.take(i as int));
            assert(stmts@.take(i + 1).last() == stmts@[i as int]);
        }
        match &stmts[i] {
            Stmt::Inst(inst) => {
                decls.push((inst.name.clone(), false, true));
                ctx.env.names.insert_if_absent(inst.name.name.clone(), NameKind::NonValue);
                match &inst.array_len {
                    Some((value, _)) => {
                        locals.push(LocalExpr { name: inst.name.clone(), value: value.clone(), span: value.span(), ty: None });
                    },
                    None => {},
                }
            },
            Stmt::SubdesignUse(u) => {
                decls.push((u.name.clone(), false, true));
                ctx.env.names.insert_if_absent(u.name.name.clone(), NameKind::NonValue);
                match &u.array_len {
                    Some((value, _)) => {
                        locals.push(LocalExpr { name: u.name.clone(), value: value.clone(), span: value.span(), ty: None });
                    },
                    None => {},
                }
            },
            Stmt::Const(c) => {
                decls.push((c.name.clone(), true, true));
                locals.push(const_local(c));
            },
            Stmt::For(f) => {
                decls.push((f.label.clone(), true, true));
            },
            Stmt::Net(n) => match &n.name {
                Some(name) => {
                    decls.push((name.clone(), false, false));
                },
                None => {},
            },
            _ => {},
        }
        proof {
            assert(decls@ =~= decls_of(stmts@.take(i + 1)));
            assert(locals@ =~= locals_of(stmts@.take(i + 1)));
            assert forall|k: Seq<char>| #![trigger ctx.env.names@.contains_key(k)]
                ctx.env.names@.contains_key(k) == (old(ctx).env.names@.contains_key(k) || site_names(decls@).contains(k))
                    && (ctx.env.names@.contains_key(k) ==> ctx.env.names@[k] == if old(ctx).env.names@.contains_key(k) {
                    old(ctx).env.names@[k]
                } else {
                    NameKind::NonValue
                }) by {
                if decls@.len() > d_before.len() {
                    assert(decls@ == d_before.push(decls@.last()));
                    lemma_site_names_push(d_before, decls@.last());
                } else {
                    assert(decls@ == d_before);
                }
            }
        }
        i = i + 1;
    }
    proof {
        assert(stmts@.take(stmts@.len() as int) =~= stmts@);
        assert forall|k: Seq<char>| #[trigger] site_names(decls@).contains(k) implies ctx.env.names@.contains_key(k) by {
            assert(ctx.env.names@.contains_key(k) == (old(ctx).env.names@.contains_key(k) || site_names(decls@).contains(k)));
        }
    }
    let ghost mid = *ctx;
    reserve_scope(ctx, &decls, &locals, diags);
    proof {
        reveal(outside_kept);
        assert(outside_kept(mid, *ctx, decls@, locals@));
        assert forall|k: Seq<char>| #![trigger ctx.env.names@.contains_key(k)]
            !crate::eval::pending_of(locals@).contains_key(k) implies {
            &&& ctx.env.names@.contains_key(k) == (old(ctx).env.names@.contains_key(k) || site_names(decls@).contains(k))
            &&& ctx.env.names@.contains_key(k) ==> ctx.env.names@[k] == if old(ctx).env.names@.contains_key(k) {
                old(ctx).env.names@[k]
            } else {
                NameKind::NonValue
            }
            &&& ctx.env.array_lens@.contains_key(k) == old(ctx).env.array_lens@.contains_key(k)
            &&& ctx.env.array_lens@.contains_key(k) ==> ctx.env.array_lens@[k] == old(ctx).env.array_lens@[k]
            &&& ctx.env.unknown_arrays@.contains_key(k) == old(ctx).env.unknown_arrays@.contains_key(k)
        } by {
            assert(ctx.env.names@.contains_key(k) == (mid.env.names@.contains_key(k) || site_names(decls@).contains(k)));
            assert(mid.env.names@.contains_key(k) == (old(ctx).env.names@.contains_key(k) || site_names(decls@).contains(k)));
        }
        assert(outside_kept(*old(ctx), *ctx, decls@, locals@));
    }
}

/// Consts as statements.
pub open spec fn const_stmts(cs: Seq<ConstStmt>) -> Seq<Stmt> {
    cs.map_values(|c: ConstStmt| Stmt::Const(c))
}

/// Reserve a layout scope's consts (a scope of consts only).
pub fn prepare_consts(ctx: &mut StaticCtx, consts: &Vec<ConstStmt>, diags: &mut Diagnostics)
    ensures
        scope_reserved(
            *old(ctx),
            *final(ctx),
            decls_of(const_stmts(consts@)),
            locals_of(const_stmts(consts@)),
            old(diags)@,
            final(diags)@,
        ),
{
    let mut decls: Vec<(Ident, bool, bool)> = Vec::new();
    let mut locals: Vec<LocalExpr> = Vec::new();
    let mut i: usize = 0;
    while i < consts.len()
        invariant
            i <= consts@.len(),
            decls@ == decls_of(const_stmts(consts@.take(i as int))),
            forall|j: int| 0 <= j < decls@.len() ==> (#[trigger] decls@[j]).1,
            locals@ == locals_of(const_stmts(consts@.take(i as int))),
        decreases consts@.len() - i,
    {
        proof {
            assert(const_stmts(consts@.take(i + 1)).drop_last() =~= const_stmts(consts@.take(i as int)));
            assert(const_stmts(consts@.take(i + 1)).last() == Stmt::Const(consts@[i as int]));
        }
        let c = &consts[i];
        decls.push((c.name.clone(), true, true));
        locals.push(const_local(c));
        proof {
            assert(decls@ =~= decls_of(const_stmts(consts@.take(i + 1))));
            assert(locals@ =~= locals_of(const_stmts(consts@.take(i + 1))));
        }
        i = i + 1;
    }
    proof {
        assert(consts@.take(consts@.len() as int) =~= consts@);
        assert forall|k: Seq<char>| #[trigger] site_names(decls@).contains(k) implies ctx.env.names@.contains_key(k) by {
            let j = choose|j: int| 0 <= j < decls@.len() && #[trigger] decls@[j].0.name@ == k && !decls@[j].1 && decls@[j].2;
            assert(decls@[j].1);
        }
    }
    reserve_scope(ctx, &decls, &locals, diags);
}

// ---------------------------------------------------------------------------
// Statements
// ---------------------------------------------------------------------------


proof fn lemma_prefix_reported(a: Seq<DiagView>, xs: Seq<DiagView>, ds: Seq<DiagView>)
    requires
        extends(ds, a + xs),
    ensures
        all_reported(ds, xs),
{
    assert forall|j: int| 0 <= j < xs.len() implies reported(ds, #[trigger] xs[j]) by {
        assert(ds.subrange(0, (a + xs).len() as int)[a.len() + j] == ds[a.len() + j]);
        assert((a + xs)[a.len() + j] == xs[j]);
    }
}

proof fn lemma_reported_extends(a: Seq<DiagView>, b: Seq<DiagView>)
    requires
        extends(b, a),
    ensures
        forall|d: DiagView| reported(a, d) ==> reported(b, d),
{
    assert forall|d: DiagView| reported(a, d) implies reported(b, d) by {
        let j = choose|j: int| 0 <= j < a.len() && a[j] == d;
        assert(b.subrange(0, a.len() as int)[j] == b[j]);
    }
}

proof fn lemma_extends_refl(a: Seq<DiagView>)
    ensures
        extends(a, a),
{
    assert(a.subrange(0, a.len() as int) =~= a);
}

pub open spec fn inst_in_loop_msg() -> Seq<char> {
    "`inst` is not admitted inside a `for` body — declare the array outside the loop and repeat only connections, calls and placements here"@
}

pub open spec fn sub_in_loop_msg() -> Seq<char> {
    "a `subdesign` use site is not admitted inside a `for` body — declare it outside the loop"@
}

proof fn push_step(a: Seq<DiagView>, before: Seq<DiagView>, d: DiagView)
    requires
        extends(before, a),
    ensures
        extends(before.push(d), a),
{
    assert(before.push(d).subrange(0, a.len() as int) =~= before.subrange(0, a.len() as int));
}

proof fn app_step(a: Seq<DiagView>, before: Seq<DiagView>, x: Seq<DiagView>)
    requires
        extends(before, a),
    ensures
        extends(before + x, a),
{
    assert((before + x).subrange(0, a.len() as int) =~= before.subrange(0, a.len() as int));
}

proof fn ext_step(a: Seq<DiagView>, before: Seq<DiagView>, now: Seq<DiagView>)
    requires
        extends(before, a),
        extends(now, before),
    ensures
        extends(now, a),
{
    assert(now.subrange(0, a.len() as int) =~= before.subrange(0, a.len() as int));
}

proof fn reserved_step(a: Seq<DiagView>, before: Seq<DiagView>, dup: Seq<DiagView>, now: Seq<DiagView>)
    requires
        extends(before, a),
        extends(now, before + dup),
    ensures
        extends(now, a),
{
    app_step(a, before, dup);
    ext_step(a, before + dup, now);
}

/// What checking a statement list guarantees of the context: the same
/// world and name policy, and a label ledger that only grows.
pub open spec fn ctx_kept(old_ctx: StaticCtx, ctx: StaticCtx) -> bool {
    &&& ctx.world == old_ctx.world
    &&& ctx.check_names == old_ctx.check_names
    &&& ctx.generic_names@ == old_ctx.generic_names@
    &&& old_ctx.labels@.dom().subset_of(ctx.labels@.dom())
}

/// The generics of the device a name denotes.
fn device_generics<'a>(world: &'a World, name: &String) -> (g: Option<&'a Vec<GenericParam>>)
    ensures
        match g {
            Some(g) => world.devices@.contains_key(name@) && *g == world.devices@[name@].generics,
            None => !world.devices@.contains_key(name@),
        },
{
    match world.devices.get(name) {
        Some(d) => Some(&d.generics),
        None => None,
    }
}

/// The generics of the subdesign a name denotes.
fn subdesign_generics<'a>(world: &'a World, name: &String) -> (g: Option<&'a Vec<GenericParam>>)
    ensures
        match g {
            Some(g) => world.subdesigns@.contains_key(name@) && *g == world.subdesigns@[name@].generics,
            None => !world.subdesigns@.contains_key(name@),
        },
{
    match world.subdesigns.get(name) {
        Some(d) => Some(&d.generics),
        None => None,
    }
}

/// The generics of the fn a name denotes.
fn fn_generics<'a>(world: &'a World, name: &String) -> (g: Option<&'a Vec<GenericParam>>)
    ensures
        match g {
            Some(g) => world.fns@.contains_key(name@) && *g == world.fns@[name@].generics,
            None => !world.fns@.contains_key(name@),
        },
{
    match world.fns.get(name) {
        Some(d) => Some(&d.generics),
        None => None,
    }
}

/// The selector errors of each reference in `members` from index `i` on.
pub open spec fn members_diags(env: Env, members: Seq<PinRef>, i: int) -> Seq<DiagView>
    decreases members.len() - i,
{
    if i < 0 || i >= members.len() {
        Seq::empty()
    } else {
        selector_diags(env, members[i].index) + members_diags(env, members, i + 1)
    }
}

/// Checks the selectors of every reference in `members`.
#[verifier::spinoff_prover]
fn check_members_static(ctx: &StaticCtx, members: &Vec<PinRef>, diags: &mut Diagnostics)
    ensures
        final(diags)@ == old(diags)@ + members_diags(ctx.env, members@, 0),
{
    let ghost d0 = diags@;
    let mut m: usize = 0;
    while m < members.len()
        invariant
            m <= members@.len(),
            diags@ + members_diags(ctx.env, members@, m as int) == d0 + members_diags(ctx.env, members@, 0),
        decreases members@.len() - m,
    {
        let ghost before = diags@;
        check_selector_static(ctx, &members[m], diags);
        proof {
            assert(diags@ + members_diags(ctx.env, members@, m + 1) =~= before + members_diags(
                ctx.env,
                members@,
                m as int,
            ));
        }
        m = m + 1;
    }
    assert(members_diags(ctx.env, members@, m as int) == Seq::<DiagView>::empty());
    assert(diags@ =~= d0 + members_diags(ctx.env, members@, 0));
}

/// The errors of the placements from index `i` on.
pub open spec fn placements_diags(env: Env, ps: Seq<Placement>, i: int) -> Seq<DiagView>
    decreases ps.len() - i,
{
    if i < 0 || i >= ps.len() {
        Seq::empty()
    } else {
        placement_diags(env, ps[i]) + placements_diags(env, ps, i + 1)
    }
}

proof fn lemma_placements_unfold(env: Env, ps: Seq<Placement>, i: int)
    requires
        0 <= i < ps.len(),
    ensures
        placements_diags(env, ps, i) == placement_diags(env, ps[i]) + placements_diags(env, ps, i + 1),
{
}

/// Checks a list of placements in one context.
#[verifier::spinoff_prover]
fn check_placements_static(ctx: &StaticCtx, placements: &Vec<Placement>, diags: &mut Diagnostics)
    ensures
        final(diags)@ == old(diags)@ + placements_diags(ctx.env, placements@, 0),
        extends(final(diags)@, old(diags)@),
{
    let ghost d0 = diags@;
    let mut p: usize = 0;
    while p < placements.len()
        invariant
            p <= placements@.len(),
            diags@ + placements_diags(ctx.env, placements@, p as int) == d0 + placements_diags(
                ctx.env,
                placements@,
                0,
            ),
        decreases placements@.len() - p,
    {
        let ghost before = diags@;
        check_placement_static(ctx, &placements[p], diags);
        proof {
            lemma_placements_unfold(ctx.env, placements@, p as int);
            let here = placement_diags(ctx.env, placements@[p as int]);
            let rest = placements_diags(ctx.env, placements@, p + 1);
            assert((before + here) + rest =~= before + (here + rest));
        }
        p = p + 1;
    }
    assert(diags@ =~= d0 + placements_diags(ctx.env, placements@, 0));
    proof {
        lemma_extends_append(d0, placements_diags(ctx.env, placements@, 0));
    }
}

/// Checks a layout block: its consts form their own scope, then its
/// placements and loops are checked in it. Only the label ledger returns.
#[verifier::spinoff_prover]
fn check_layout_block(ctx: &mut StaticCtx, block: &LayoutBlock, diags: &mut Diagnostics)
    ensures
        ctx_kept(*old(ctx), *final(ctx)),
        final(ctx).env == old(ctx).env,
        final(ctx).seen_locals == old(ctx).seen_locals,
        extends(final(diags)@, old(diags)@),
        all_reported(
            final(diags)@,
            dup_diags(decls_of(const_stmts(block.consts@)), old(ctx).seen_locals@.dom(), Map::empty(), 0),
        ),
        forall|i: int|
            0 <= i < block.loops@.len() && (old(ctx).seen_locals@.contains_key(
                (#[trigger] block.loops@[i]).label.name@,
            ) || decl_names(decls_of(const_stmts(block.consts@))).contains(block.loops@[i].label.name@))
                ==> reported(
                final(diags)@,
                err(Code::E201, block.loops@[i].label.span, duplicate_msg(block.loops@[i].label.name@)),
            ),
        layout_block_owed(*old(ctx), *block, final(diags)@),
        block_exact(*old(ctx), *block, old(ctx).labels@.dom(), old(diags)@, final(ctx).labels@.dom(), final(diags)@),
{
    let mut inner = ctx.duplicate();
    let ghost entered = inner;
    proof {
        lemma_extends_refl(diags@);
    }
    let ghost d0 = diags@;
    let ghost dups = dup_diags(decls_of(const_stmts(block.consts@)), ctx.seen_locals@.dom(), Map::empty(), 0);
    prepare_consts(&mut inner, &block.consts, diags);
    proof {
        reserved_step(old(diags)@, d0, dups, diags@);
        lemma_prefix_reported(d0, dups, diags@);
    }
    let ghost d1 = diags@;
    let ghost scope = inner;
    check_placements_static(&inner, &block.placements, diags);
    proof {
        ext_step(old(diags)@, d1, diags@);
        lemma_reported_extends(d1, diags@);
    }
    let ghost d2 = diags@;
    check_layout_for_static(&mut inner, &block.loops, diags);
    proof {
        ext_step(old(diags)@, d2, diags@);
        lemma_reported_extends(d2, diags@);
        ext_step(d1, d2, diags@);
        lemma_extends_refl(diags@);
        lemma_reserved_made(entered, scope, const_stmts(block.consts@), d0, d1, diags@);
        lemma_prefix_reported(d1, placements_diags(scope.env, block.placements@, 0), diags@);
        let c = choose|c: StaticCtx|
            #[trigger] labels_entry(scope, block.loops@, c) && forall|k: int|
                0 <= k < block.loops@.len() ==> layout_loop_owed(c, #[trigger] block.loops@[k], diags@);
        lemma_made_alike(entered, *old(ctx), scope, const_stmts(block.consts@), diags@);
        assert(scope_made(*old(ctx), scope, const_stmts(block.consts@), diags@) && labels_entry(scope, block.loops@, c));
        reveal(scope_entered);
        assert(scope_entered(entered, scope, const_stmts(block.consts@), d0, d1));
        assert(d2 == d1 + placements_diags(scope.env, block.placements@, 0));
        let c2 = choose|c2: StaticCtx|
            #[trigger] labels_entry(scope, block.loops@, c2) && loops_run(
                c2,
                block.loops@,
                scope.labels@.dom(),
                label_dups(scope.seen_locals@.dom(), block.loops@, d2),
                inner.labels@.dom(),
                diags@,
            );
        assert(scope.labels@.dom() =~= old(ctx).labels@.dom());
        assert(copy_of(*old(ctx), entered) && scope_entered(entered, scope, const_stmts(block.consts@), d0, d1)
            && labels_entry(scope, block.loops@, c2));
    }
    ctx.labels = inner.labels;
}

/// What a layout block owes depends only on what is read of its context.
proof fn lemma_block_owed_alike(a: StaticCtx, b: StaticCtx, block: LayoutBlock, ds: Seq<DiagView>)
    requires
        layout_block_owed(a, block, ds),
        a.world == b.world,
        a.check_names == b.check_names,
        a.generic_names@ == b.generic_names@,
        a.seen_locals@ == b.seen_locals@,
    ensures
        layout_block_owed(b, block, ds),
{
    let (scope, c) = choose|scope: StaticCtx, c: StaticCtx|
        #![trigger scope_made(a, scope, const_stmts(block.consts@), ds), labels_entry(scope, block.loops@, c)]
        scope_made(a, scope, const_stmts(block.consts@), ds) && all_reported(
            ds,
            placements_diags(scope.env, block.placements@, 0),
        ) && labels_entry(scope, block.loops@, c) && forall|k: int|
            0 <= k < block.loops@.len() ==> layout_loop_owed(c, #[trigger] block.loops@[k], ds);
    lemma_made_alike(a, b, scope, const_stmts(block.consts@), ds);
    assert(scope_made(b, scope, const_stmts(block.consts@), ds) && labels_entry(scope, block.loops@, c));
}

/// A layout block's exact check depends only on what is read of its
/// context.
proof fn lemma_block_exact_alike(
    a: StaticCtx,
    b: StaticCtx,
    blk: LayoutBlock,
    la: Set<Seq<char>>,
    da: Seq<DiagView>,
    lb: Set<Seq<char>>,
    db: Seq<DiagView>,
)
    requires
        block_exact(a, blk, la, da, lb, db),
        same_checks(a, b),
        a.seen_locals@ == b.seen_locals@,
    ensures
        block_exact(b, blk, la, da, lb, db),
{
    let (inner, scope, dp, c) = choose|inner: StaticCtx, scope: StaticCtx, dp: Seq<DiagView>, c: StaticCtx|
        #![trigger copy_of(a, inner), scope_entered(inner, scope, const_stmts(blk.consts@), da, dp), labels_entry(scope, blk.loops@, c)]
        copy_of(a, inner) && scope_entered(inner, scope, const_stmts(blk.consts@), da, dp) && labels_entry(
            scope,
            blk.loops@,
            c,
        ) && loops_run(
            c,
            blk.loops@,
            la,
            label_dups(scope.seen_locals@.dom(), blk.loops@, dp + placements_diags(scope.env, blk.placements@, 0)),
            lb,
            db,
        );
    assert(copy_of(b, inner));
}

/// Whether a scope was made from a context depends only on what is read of
/// that context.
proof fn lemma_made_alike(a: StaticCtx, b: StaticCtx, scope: StaticCtx, stmts: Seq<Stmt>, ds: Seq<DiagView>)
    requires
        scope_made(a, scope, stmts, ds),
        a.world == b.world,
        a.check_names == b.check_names,
        a.generic_names@ == b.generic_names@,
        a.seen_locals@ == b.seen_locals@,
    ensures
        scope_made(b, scope, stmts, ds),
{
}

/// Checks one layout loop: its label is new to the ledger, its binder to
/// the scope, its bounds are Ints; its binder and consts form its own scope
/// for its placements and nested loops.
#[verifier::spinoff_prover]
fn check_layout_loop(ctx: &mut StaticCtx, f: &LayoutFor, diags: &mut Diagnostics)
    ensures
        ctx_kept(*old(ctx), *final(ctx)),
        final(ctx).env == old(ctx).env,
        final(ctx).seen_locals == old(ctx).seen_locals,
        extends(final(diags)@, old(diags)@),
        all_reported(final(diags)@, layout_bound_diags(old(ctx).env, *f)),
        layout_loop_owed(*old(ctx), *f, final(diags)@),
        loop_exact(*old(ctx), *f, old(ctx).labels@.dom(), old(diags)@, final(ctx).labels@.dom(), final(diags)@),
    decreases f,
{
    let ghost b0 = diags@;
    proof {
        lemma_extends_refl(b0);
    }
    if ctx.labels.contains_key(&f.label.name) {
        duplicate(&f.label, diags);
        proof {
            push_step(b0, b0, diags@.last());
        }
    } else {
        ctx.labels.insert(f.label.name.clone(), ());
    }
    let ghost b1 = diags@;
    if ctx.seen_locals.contains_key(&f.binder.name) {
        duplicate(&f.binder, diags);
        proof {
            push_step(b0, b1, diags@.last());
        }
    }
    let ghost b2 = diags@;
    static_type_check(ctx, &f.start, Ty::Int, "a loop bound", diags);
    static_type_check(ctx, &f.end, Ty::Int, "a loop bound", diags);
    proof {
        let x = layout_bound_diags(old(ctx).env, *f);
        assert(diags@ =~= b2 + x);
        lemma_extends_refl(diags@);
        lemma_prefix_reported(b2, x, diags@);
        app_step(b0, b2, x);
    }
    let ghost bb = diags@;
    proof {
        assert(bb =~= layout_head(*old(ctx), *f, old(ctx).labels@.dom(), old(diags)@));
        assert(ctx.labels@.dom() =~= old(ctx).labels@.dom().insert(f.label.name@));
    }
    let mut inner = ctx.duplicate();
    inner.env.names.insert(f.binder.name.clone(), NameKind::Unknown(Ty::Int));
    inner.seen_locals.insert(f.binder.name.clone(), ());
    let ghost seen_inner = inner.seen_locals@.dom();
    let ghost entered = inner;
    prepare_consts(&mut inner, &f.consts, diags);
    proof {
        reserved_step(bb, bb, dup_diags(decls_of(const_stmts(f.consts@)), seen_inner, Map::empty(), 0), diags@);
    }
    let ghost scope = inner;
    let ghost b5 = diags@;
    check_placements_static(&inner, &f.placements, diags);
    let ghost b6 = diags@;
    check_layout_for_static(&mut inner, &f.loops, diags);
    proof {
        ext_step(bb, b5, b6);
        ext_step(bb, b6, diags@);
        lemma_reported_extends(bb, diags@);
        ext_step(b0, bb, diags@);
        ext_step(b5, b6, diags@);
        assert(binder_entry(*old(ctx), f.binder.name@, entered));
        lemma_layout_loop_done(*old(ctx), *f, entered, scope, bb, b5, diags@);
        reveal(scope_entered);
        assert(scope_entered(entered, scope, const_stmts(f.consts@), bb, b5));
        assert(b6 == b5 + placements_diags(scope.env, f.placements@, 0));
        let c = choose|c: StaticCtx|
            #[trigger] labels_entry(scope, f.loops@, c) && loops_run(
                c,
                f.loops@,
                scope.labels@.dom(),
                label_dups(scope.seen_locals@.dom(), f.loops@, b6),
                inner.labels@.dom(),
                diags@,
            );
        assert(scope.labels@.dom() =~= old(ctx).labels@.dom().insert(f.label.name@));
        assert(binder_entry(*old(ctx), f.binder.name@, entered) && scope_entered(entered, scope, const_stmts(f.consts@), bb, b5)
            && labels_entry(scope, f.loops@, c));
    }
    ctx.labels = inner.labels;
}

/// A first layout loop checked, then the rest, is the whole run.
#[verifier::spinoff_prover]
proof fn lemma_loops_cons(
    ctx: StaticCtx,
    rest: Seq<LayoutFor>,
    la: Set<Seq<char>>,
    da: Seq<DiagView>,
    lm: Set<Seq<char>>,
    dm: Seq<DiagView>,
    lb: Set<Seq<char>>,
    db: Seq<DiagView>,
)
    requires
        rest.len() > 0,
        loop_exact(ctx, rest[0], la, da, lm, dm),
        loops_run(ctx, rest.drop_first(), lm, dm, lb, db),
    ensures
        loops_run(ctx, rest, la, da, lb, db),
{
    reveal(loops_run);
    let f = rest[0];
    let (inner, scope, dp, c) = choose|inner: StaticCtx, scope: StaticCtx, dp: Seq<DiagView>, c: StaticCtx|
        #![trigger binder_entry(ctx, f.binder.name@, inner), scope_entered(inner, scope, const_stmts(f.consts@), layout_head(ctx, f, la, da), dp), labels_entry(scope, f.loops@, c)]
        binder_entry(ctx, f.binder.name@, inner) && scope_entered(
            inner,
            scope,
            const_stmts(f.consts@),
            layout_head(ctx, f, la, da),
            dp,
        ) && labels_entry(scope, f.loops@, c) && loops_run(
            c,
            f.loops@,
            la.insert(f.label.name@),
            label_dups(scope.seen_locals@.dom(), f.loops@, dp + placements_diags(scope.env, f.placements@, 0)),
            lm,
            dm,
        );
    assert(binder_entry(ctx, f.binder.name@, inner) && scope_entered(inner, scope, const_stmts(f.consts@), layout_head(ctx, f, la, da), dp)
        && labels_entry(scope, f.loops@, c));
    assert(loop_effect(ctx, rest[0], la, da, lm, dm));
}

/// Checking one more layout loop carries the run of a loop list on.
#[verifier::spinoff_prover]
#[verifier::rlimit(40)]
proof fn lemma_loops_step(
    c: StaticCtx,
    loops: Seq<LayoutFor>,
    j: int,
    l0: Set<Seq<char>>,
    d0: Seq<DiagView>,
    la: Set<Seq<char>>,
    da: Seq<DiagView>,
    lm: Set<Seq<char>>,
    dm: Seq<DiagView>,
)
    requires
        0 <= j < loops.len(),
        loop_exact(c, loops[j], la, da, lm, dm),
        forall|lb: Set<Seq<char>>, db: Seq<DiagView>|
            #[trigger] loops_run(c, loops.subrange(j, loops.len() as int), la, da, lb, db) ==> loops_run(c, loops, l0, d0, lb, db),
    ensures
        forall|lb: Set<Seq<char>>, db: Seq<DiagView>|
            #[trigger] loops_run(c, loops.subrange(j + 1, loops.len() as int), lm, dm, lb, db) ==> loops_run(c, loops, l0, d0, lb, db),
{
    let rest = loops.subrange(j, loops.len() as int);
    assert(rest.drop_first() =~= loops.subrange(j + 1, loops.len() as int));
    assert(rest[0] == loops[j]);
    assert forall|lb: Set<Seq<char>>, db: Seq<DiagView>|
        #[trigger] loops_run(c, loops.subrange(j + 1, loops.len() as int), lm, dm, lb, db) implies loops_run(c, loops, l0, d0, lb, db) by {
        lemma_loops_cons(c, rest, la, da, lm, dm, lb, db);
    }
}

/// A layout loop's exact check depends only on what is read of its context.
proof fn lemma_loop_exact_alike(
    a: StaticCtx,
    b: StaticCtx,
    f: LayoutFor,
    la: Set<Seq<char>>,
    da: Seq<DiagView>,
    lb: Set<Seq<char>>,
    db: Seq<DiagView>,
)
    requires
        loop_exact(a, f, la, da, lb, db),
        reads_alike(a, b),
    ensures
        loop_exact(b, f, la, da, lb, db),
{
    let (inner, scope, dp, c) = choose|inner: StaticCtx, scope: StaticCtx, dp: Seq<DiagView>, c: StaticCtx|
        #![trigger binder_entry(a, f.binder.name@, inner), scope_entered(inner, scope, const_stmts(f.consts@), layout_head(a, f, la, da), dp), labels_entry(scope, f.loops@, c)]
        binder_entry(a, f.binder.name@, inner) && scope_entered(
            inner,
            scope,
            const_stmts(f.consts@),
            layout_head(a, f, la, da),
            dp,
        ) && labels_entry(scope, f.loops@, c) && loops_run(
            c,
            f.loops@,
            la.insert(f.label.name@),
            label_dups(scope.seen_locals@.dom(), f.loops@, dp + placements_diags(scope.env, f.placements@, 0)),
            lb,
            db,
        );
    assert(layout_head(a, f, la, da) == layout_head(b, f, la, da));
    assert(binder_entry(b, f.binder.name@, inner));
}

/// A layout loop whose binder scope was entered, whose consts were
/// reserved and whose placements and nested loops were then checked owes
/// nothing more.
proof fn lemma_layout_loop_done(
    ctx: StaticCtx,
    f: LayoutFor,
    entered: StaticCtx,
    scope: StaticCtx,
    bb: Seq<DiagView>,
    b5: Seq<DiagView>,
    ds: Seq<DiagView>,
)
    requires
        binder_entry(ctx, f.binder.name@, entered),
        scope_reserved(entered, scope, decls_of(const_stmts(f.consts@)), locals_of(const_stmts(f.consts@)), bb, b5),
        extends(ds, b5 + placements_diags(scope.env, f.placements@, 0)),
        extends(ds, b5),
        all_reported(ds, layout_bound_diags(ctx.env, f)),
        exists|c: StaticCtx|
            #[trigger] labels_entry(scope, f.loops@, c) && forall|k: int|
                0 <= k < f.loops@.len() ==> layout_loop_owed(c, #[trigger] f.loops@[k], ds),
    ensures
        layout_loop_owed(ctx, f, ds),
{
    lemma_reserved_made(entered, scope, const_stmts(f.consts@), bb, b5, ds);
    lemma_prefix_reported(b5, placements_diags(scope.env, f.placements@, 0), ds);
    let c = choose|c: StaticCtx|
        #[trigger] labels_entry(scope, f.loops@, c) && forall|k: int|
            0 <= k < f.loops@.len() ==> layout_loop_owed(c, #[trigger] f.loops@[k], ds);
    reveal(layout_loop_owed);
    assert(binder_entry(ctx, f.binder.name@, entered) && scope_made(entered, scope, const_stmts(f.consts@), ds)
        && labels_entry(scope, f.loops@, c));
}

/// The kind errors of a layout loop's bounds.
pub open spec fn layout_bound_diags(env: Env, f: LayoutFor) -> Seq<DiagView> {
    stc_diags(env, f.start, Ty::Int, "a loop bound"@) + stc_diags(env, f.end, Ty::Int, "a loop bound"@)
}

/// Checks layout loops: every label of the list is reserved before any
/// loop body is checked; each loop's binder and consts form its own scope.
#[verifier::spinoff_prover]
pub fn check_layout_for_static(ctx: &mut StaticCtx, loops: &Vec<LayoutFor>, diags: &mut Diagnostics)
    ensures
        ctx_kept(*old(ctx), *final(ctx)),
        final(ctx).env == old(ctx).env,
        old(ctx).seen_locals@.dom().subset_of(final(ctx).seen_locals@.dom()),
        extends(final(diags)@, old(diags)@),
        forall|i: int|
            0 <= i < loops@.len() && old(ctx).seen_locals@.contains_key(
                (#[trigger] loops@[i]).label.name@,
            ) ==> reported(
                final(diags)@,
                err(Code::E201, loops@[i].label.span, duplicate_msg(loops@[i].label.name@)),
            ),
        forall|i: int|
            0 <= i < loops@.len() ==> all_reported(final(diags)@, layout_bound_diags(old(ctx).env, #[trigger] loops@[i])),
        exists|c: StaticCtx|
            #[trigger] labels_entry(*old(ctx), loops@, c) && forall|k: int|
                0 <= k < loops@.len() ==> layout_loop_owed(c, #[trigger] loops@[k], final(diags)@),
        exists|c: StaticCtx|
            #[trigger] labels_entry(*old(ctx), loops@, c) && loops_run(
                c,
                loops@,
                old(ctx).labels@.dom(),
                label_dups(old(ctx).seen_locals@.dom(), loops@, old(diags)@),
                final(ctx).labels@.dom(),
                final(diags)@,
            ),
    decreases loops,
{
    proof {
        lemma_extends_refl(diags@);
    }
    // All labels are visible to collision checks even when declared later.
    let mut i: usize = 0;
    while i < loops.len()
        invariant
            i <= loops@.len(),
            ctx_kept(*old(ctx), *ctx),
            ctx.env == old(ctx).env,
            ctx.seen_locals == old(ctx).seen_locals,
            extends(diags@, old(diags)@),
            diags@ == label_dups(old(ctx).seen_locals@.dom(), loops@.take(i as int), old(diags)@),
            ctx.labels@ == old(ctx).labels@,
            forall|j: int|
                0 <= j < i && old(ctx).seen_locals@.contains_key((#[trigger] loops@[j]).label.name@)
                    ==> reported(
                    diags@,
                    err(Code::E201, loops@[j].label.span, duplicate_msg(loops@[j].label.name@)),
                ),
        decreases loops@.len() - i,
    {
        proof {
            assert(loops@.take(i + 1).drop_last() =~= loops@.take(i as int));
            assert(loops@.take(i + 1).last() == loops@[i as int]);
        }
        if ctx.seen_locals.contains_key(&loops[i].label.name) {
            let ghost before = diags@;
            duplicate(&loops[i].label, diags);
            proof {
                push_step(old(diags)@, before, diags@.last());
                lemma_extends_refl(before);
                push_step(before, before, diags@.last());
                lemma_reported_extends(before, diags@);
                assert(diags@[diags@.len() - 1] == err(
                    Code::E201,
                    loops@[i as int].label.span,
                    duplicate_msg(loops@[i as int].label.name@),
                ));
            }
        }
        i = i + 1;
    }
    proof {
        assert(loops@.take(loops@.len() as int) =~= loops@);
        assert(loops@.take(0) =~= Seq::<LayoutFor>::empty());
    }
    let ghost d1 = diags@;
    proof {
        lemma_extends_refl(d1);
    }
    let ghost labels = loops@.map_values(|f: LayoutFor| f.label.name@);
    let mut k: usize = 0;
    while k < loops.len()
        invariant
            k <= loops@.len(),
            labels == loops@.map_values(|f: LayoutFor| f.label.name@),
            ctx_kept(*old(ctx), *ctx),
            ctx.env == old(ctx).env,
            ctx.seen_locals@.dom() == old(ctx).seen_locals@.dom() + labels.take(k as int).to_set(),
            extends(diags@, d1),
            diags@ == d1,
            ctx.labels@ == old(ctx).labels@,
        decreases loops@.len() - k,
    {
        ctx.seen_locals.insert(loops[k].label.name.clone(), ());
        proof {
            assert(labels.take(k + 1) =~= labels.take(k as int).push(labels[k as int]));
            lemma_set_of_push(labels.take(k as int), labels[k as int]);
            assert(ctx.seen_locals@.dom() =~= old(ctx).seen_locals@.dom() + labels.take(k + 1).to_set());
        }
        k = k + 1;
    }
    proof {
        assert(labels.take(loops@.len() as int) =~= labels);
    }
    let ghost c = *ctx;
    proof {
        assert(labels_entry(*old(ctx), loops@, c));
    }
    proof {
        assert(loops@.subrange(0, loops@.len() as int) =~= loops@);
    }
    let mut j: usize = 0;
    while j < loops.len()
        invariant
            j <= loops@.len(),
            ctx_kept(*old(ctx), *ctx),
            ctx.env == old(ctx).env,
            ctx.env == c.env,
            ctx.seen_locals == c.seen_locals,
            ctx.world == c.world,
            ctx.check_names == c.check_names,
            ctx.generic_names@ == c.generic_names@,
            old(ctx).seen_locals@.dom().subset_of(ctx.seen_locals@.dom()),
            extends(diags@, d1),
            forall|k: int| 0 <= k < j ==> all_reported(diags@, layout_bound_diags(old(ctx).env, #[trigger] loops@[k])),
            forall|k: int| 0 <= k < j ==> layout_loop_owed(c, #[trigger] loops@[k], diags@),
            forall|lb: Set<Seq<char>>, db: Seq<DiagView>|
                #[trigger] loops_run(c, loops@.subrange(j as int, loops@.len() as int), ctx.labels@.dom(), diags@, lb, db)
                    ==> loops_run(c, loops@, old(ctx).labels@.dom(), d1, lb, db),
        decreases loops@.len() - j,
    {
        let ghost b0 = diags@;
        let ghost cj = *ctx;
        check_layout_loop(ctx, &loops[j], diags);
        proof {
            lemma_loop_exact_alike(cj, c, loops@[j as int], cj.labels@.dom(), b0, ctx.labels@.dom(), diags@);
            lemma_loops_step(c, loops@, j as int, old(ctx).labels@.dom(), d1, cj.labels@.dom(), b0, ctx.labels@.dom(), diags@);
            ext_step(d1, b0, diags@);
            lemma_reported_extends(b0, diags@);
            lemma_layout_loop_owed_alike(cj, c, loops@[j as int], diags@);
            assert forall|k: int| 0 <= k < j implies layout_loop_owed(c, #[trigger] loops@[k], diags@) by {
                lemma_layout_loop_owed_grows(c, loops@[k], b0, diags@);
            }
        }
        j = j + 1;
    }
    proof {
        assert(loops@.subrange(loops@.len() as int, loops@.len() as int) =~= Seq::<LayoutFor>::empty());
        reveal(loops_run);
        assert(loops_run(c, loops@.subrange(loops@.len() as int, loops@.len() as int), ctx.labels@.dom(), diags@, ctx.labels@.dom(), diags@));
        lemma_reported_extends(d1, diags@);
        ext_step(old(diags)@, d1, diags@);
    }
}

pub open spec fn named_net_in_loop_msg(name: Seq<char>) -> Seq<char> {
    concat(
        seq![
            "named net `"@,
            name,
            "` is not admitted inside a `for` body — declare it outside the loop and connect it here through an anonymous `net _`"@,
        ],
    )
}

/// The statement-admission error a statement gets inside a `for` body, if
/// any: instances, subdesign use sites and named nets are declared outside
/// loops (at the net's name).
pub open spec fn loop_admission(s: Stmt) -> Option<DiagView> {
    match s {
        Stmt::Inst(i) => Some(err(Code::E1406, i.span, inst_in_loop_msg())),
        Stmt::SubdesignUse(u) => Some(err(Code::E1406, u.span, sub_in_loop_msg())),
        Stmt::Net(n) => match n.name {
            Some(id) => Some(err(Code::E1406, id.span, named_net_in_loop_msg(id.name@))),
            None => None,
        },
        _ => None,
    }
}

/// The generics of a declared device, subdesign or fn, by name.
pub open spec fn device_params(world: World, n: Seq<char>) -> Option<Seq<GenericParam>> {
    if world.devices@.contains_key(n) {
        Some(world.devices@[n].generics@)
    } else {
        None
    }
}

pub open spec fn subdesign_params(world: World, n: Seq<char>) -> Option<Seq<GenericParam>> {
    if world.subdesigns@.contains_key(n) {
        Some(world.subdesigns@[n].generics@)
    } else {
        None
    }
}

pub open spec fn fn_params(world: World, n: Seq<char>) -> Option<Seq<GenericParam>> {
    if world.fns@.contains_key(n) {
        Some(world.fns@[n].generics@)
    } else {
        None
    }
}

/// The selector errors of a use site's connections from index `i` on.
pub open spec fn conn_selector_diags(env: Env, conns: Seq<PortConn>, i: int) -> Seq<DiagView>
    decreases conns.len() - i,
{
    if i < 0 || i >= conns.len() {
        Seq::empty()
    } else {
        selector_diags(env, conns[i].value.index) + conn_selector_diags(env, conns, i + 1)
    }
}

/// The errors the checks of one statement report in its own scope: generic
/// arguments against the parameters of what it names, loop bounds, and the
/// selectors of its references. A loop body and a layout block are checked
/// in scopes of their own.
pub open spec fn stmt_checks(ctx: StaticCtx, s: Stmt) -> Seq<DiagView> {
    match s {
        Stmt::Inst(i) => named_args_diags(
            ctx,
            device_params(*ctx.world, i.ty.name.name@),
            i.ty.generic_args@,
            0,
        ),
        Stmt::SubdesignUse(u) => named_args_diags(
            ctx,
            subdesign_params(*ctx.world, u.ty.name.name@),
            u.ty.generic_args@,
            0,
        ) + conn_selector_diags(ctx.env, u.conns@, 0),
        Stmt::For(f) => stc_diags(ctx.env, f.start, Ty::Int, "a loop bound"@) + stc_diags(
            ctx.env,
            f.end,
            Ty::Int,
            "a loop bound"@,
        ),
        Stmt::Call(c) => named_args_diags(ctx, fn_params(*ctx.world, c.callee.name@), c.generic_args@, 0)
            + members_diags(ctx.env, c.args@, 0),
        Stmt::Net(n) => members_diags(ctx.env, n.members@, 0),
        Stmt::Nc(n) => members_diags(ctx.env, n.members@, 0),
        _ => Seq::empty(),
    }
}

/// Two contexts that agree on what argument checks read.
pub open spec fn same_checks(a: StaticCtx, b: StaticCtx) -> bool {
    &&& a.world == b.world
    &&& a.check_names == b.check_names
    &&& a.generic_names@ == b.generic_names@
    &&& a.env == b.env
}

proof fn lemma_named_args_same(
    a: StaticCtx,
    b: StaticCtx,
    params: Option<Seq<GenericParam>>,
    args: Seq<GenericArg>,
    i: int,
)
    requires
        same_checks(a, b),
    ensures
        named_args_diags(a, params, args, i) == named_args_diags(b, params, args, i),
    decreases args.len() - i,
{
    if 0 <= i < args.len() {
        lemma_named_args_same(a, b, params, args, i + 1);
        assert(named_arg_diags(a, params, args[i], i) == named_arg_diags(b, params, args[i], i));
    }
}

proof fn lemma_stmt_checks_same(a: StaticCtx, b: StaticCtx, s: Stmt)
    requires
        same_checks(a, b),
    ensures
        stmt_checks(a, s) == stmt_checks(b, s),
{
    match s {
        Stmt::Inst(i) => {
            lemma_named_args_same(a, b, device_params(*a.world, i.ty.name.name@), i.ty.generic_args@, 0);
        },
        Stmt::SubdesignUse(u) => {
            lemma_named_args_same(a, b, subdesign_params(*a.world, u.ty.name.name@), u.ty.generic_args@, 0);
        },
        Stmt::Call(c) => {
            lemma_named_args_same(a, b, fn_params(*a.world, c.callee.name@), c.generic_args@, 0);
        },
        _ => {},
    }
}

proof fn lemma_all_reported_extends(a: Seq<DiagView>, b: Seq<DiagView>, x: Seq<DiagView>)
    requires
        all_reported(a, x),
        extends(b, a),
    ensures
        all_reported(b, x),
{
    lemma_reported_extends(a, b);
}

#[verifier::spinoff_prover]
fn check_conn_selectors(ctx: &StaticCtx, conns: &Vec<PortConn>, diags: &mut Diagnostics)
    ensures
        final(diags)@ == old(diags)@ + conn_selector_diags(ctx.env, conns@, 0),
{
    let ghost d0 = diags@;
    let mut c: usize = 0;
    while c < conns.len()
        invariant
            c <= conns@.len(),
            diags@ + conn_selector_diags(ctx.env, conns@, c as int) == d0 + conn_selector_diags(
                ctx.env,
                conns@,
                0,
            ),
        decreases conns@.len() - c,
    {
        let ghost before = diags@;
        check_selector_static(ctx, &conns[c].value, diags);
        proof {
            assert(diags@ + conn_selector_diags(ctx.env, conns@, c + 1) =~= before + conn_selector_diags(
                ctx.env,
                conns@,
                c as int,
            ));
        }
        c = c + 1;
    }
    assert(diags@ =~= d0 + conn_selector_diags(ctx.env, conns@, 0));
}

/// An instance in its scope: not inside a loop body (E1406), and its
/// generic arguments against the device's parameters.
/// The errors checking a statement other than a loop or a layout block
/// reports in its scope: its admission inside a loop body, then its checks.
pub open spec fn simple_diags(ctx: StaticCtx, s: Stmt, in_loop: bool) -> Seq<DiagView> {
    (if in_loop && loop_admission(s).is_some() {
        seq![loop_admission(s).unwrap()]
    } else {
        Seq::empty()
    }) + stmt_checks(ctx, s)
}

fn check_inst_stmt(ctx: &StaticCtx, i: &InstStmt, in_loop: bool, diags: &mut Diagnostics)
    ensures
        final(diags)@ == old(diags)@ + simple_diags(*ctx, Stmt::Inst(*i), in_loop),
        extends(final(diags)@, old(diags)@),
        in_loop ==> reported(final(diags)@, loop_admission(Stmt::Inst(*i)).unwrap()),
        all_reported(final(diags)@, stmt_checks(*ctx, Stmt::Inst(*i))),
{
    let ghost b0 = diags@;
    proof {
        lemma_extends_refl(b0);
    }
    if in_loop {
        let mut m = String::new();
        push_str(
            &mut m,
            "`inst` is not admitted inside a `for` body — declare the array outside the loop and repeat only connections, calls and placements here",
        );
        diags.push(Diagnostic::error(Code::E1406, i.span, m));
        proof {
            push_step(b0, b0, diags@.last());
            assert(diags@[diags@.len() - 1] == loop_admission(Stmt::Inst(*i)).unwrap());
        }
    }
    let ghost b1 = diags@;
    let g = device_generics(ctx.world, &i.ty.name.name);
    check_named_generic_args(ctx, &i.ty.generic_args, g, diags);
    proof {
        let x = named_args_diags(*ctx, opt_params(g), i.ty.generic_args@, 0);
        lemma_extends_refl(diags@);
        lemma_prefix_reported(b1, x, diags@);
        lemma_extends_refl(b1);
        app_step(b1, b1, x);
        lemma_reported_extends(b1, diags@);
        app_step(b0, b1, x);
        assert(diags@ =~= old(diags)@ + simple_diags(*ctx, Stmt::Inst(*i), in_loop));
    }
}

/// A nested use site in its scope: not inside a loop body (E1406), its
/// generic arguments, and the selectors of its connections.
fn check_use_stmt(ctx: &StaticCtx, u: &SubdesignUseStmt, in_loop: bool, diags: &mut Diagnostics)
    ensures
        final(diags)@ == old(diags)@ + simple_diags(*ctx, Stmt::SubdesignUse(*u), in_loop),
        extends(final(diags)@, old(diags)@),
        in_loop ==> reported(final(diags)@, loop_admission(Stmt::SubdesignUse(*u)).unwrap()),
        all_reported(final(diags)@, stmt_checks(*ctx, Stmt::SubdesignUse(*u))),
{
    let ghost b0 = diags@;
    proof {
        lemma_extends_refl(b0);
    }
    if in_loop {
        let mut m = String::new();
        push_str(
            &mut m,
            "a `subdesign` use site is not admitted inside a `for` body — declare it outside the loop",
        );
        diags.push(Diagnostic::error(Code::E1406, u.span, m));
        proof {
            push_step(b0, b0, diags@.last());
            assert(diags@[diags@.len() - 1] == loop_admission(Stmt::SubdesignUse(*u)).unwrap());
        }
    }
    let ghost b1 = diags@;
    let g = subdesign_generics(ctx.world, &u.ty.name.name);
    check_named_generic_args(ctx, &u.ty.generic_args, g, diags);
    check_conn_selectors(ctx, &u.conns, diags);
    proof {
        let x = named_args_diags(*ctx, opt_params(g), u.ty.generic_args@, 0) + conn_selector_diags(
            ctx.env,
            u.conns@,
            0,
        );
        assert(diags@ =~= b1 + x);
        lemma_extends_refl(diags@);
        lemma_prefix_reported(b1, x, diags@);
        lemma_extends_refl(b1);
        app_step(b1, b1, x);
        lemma_reported_extends(b1, diags@);
        app_step(b0, b1, x);
        assert(diags@ =~= old(diags)@ + simple_diags(*ctx, Stmt::SubdesignUse(*u), in_loop));
    }
}

/// A net in its scope: a named net is not admitted inside a loop body
/// (E1406 at its name), and its members' selectors.
fn check_net_stmt(ctx: &StaticCtx, n: &NetStmt, in_loop: bool, diags: &mut Diagnostics)
    ensures
        final(diags)@ == old(diags)@ + simple_diags(*ctx, Stmt::Net(*n), in_loop),
        extends(final(diags)@, old(diags)@),
        in_loop && loop_admission(Stmt::Net(*n)).is_some() ==> reported(
            final(diags)@,
            loop_admission(Stmt::Net(*n)).unwrap(),
        ),
        all_reported(final(diags)@, stmt_checks(*ctx, Stmt::Net(*n))),
{
    let ghost b0 = diags@;
    proof {
        lemma_extends_refl(b0);
    }
    if in_loop {
        match &n.name {
            Some(id) => {
                let v = vec![
                    "named net `",
                    id.name.as_str(),
                    "` is not admitted inside a `for` body — declare it outside the loop and connect it here through an anonymous `net _`",
                ];
                let m = cat(&v);
                proof {
                    assert(v@.map_values(|p: &str| p@) =~= seq![
                        "named net `"@,
                        id.name@,
                        "` is not admitted inside a `for` body — declare it outside the loop and connect it here through an anonymous `net _`"@,
                    ]);
                }
                diags.push(Diagnostic::error(Code::E1406, id.span, m));
                proof {
                    push_step(b0, b0, diags@.last());
                    assert(diags@[diags@.len() - 1] == loop_admission(Stmt::Net(*n)).unwrap());
                }
            },
            None => {},
        }
    }
    let ghost b1 = diags@;
    check_members_static(ctx, &n.members, diags);
    proof {
        let x = members_diags(ctx.env, n.members@, 0);
        lemma_extends_refl(diags@);
        lemma_prefix_reported(b1, x, diags@);
        lemma_extends_refl(b1);
        app_step(b1, b1, x);
        lemma_reported_extends(b1, diags@);
        app_step(b0, b1, x);
        assert(diags@ =~= old(diags)@ + simple_diags(*ctx, Stmt::Net(*n), in_loop));
    }
}

/// A call in its scope: its generic arguments against the fn's parameters,
/// and its arguments' selectors.
fn check_call_stmt(ctx: &StaticCtx, call: &CallStmt, diags: &mut Diagnostics)
    ensures
        final(diags)@ == old(diags)@ + stmt_checks(*ctx, Stmt::Call(*call)),
        extends(final(diags)@, old(diags)@),
        all_reported(final(diags)@, stmt_checks(*ctx, Stmt::Call(*call))),
{
    let ghost b0 = diags@;
    let g = fn_generics(ctx.world, &call.callee.name);
    check_named_generic_args(ctx, &call.generic_args, g, diags);
    check_members_static(ctx, &call.args, diags);
    proof {
        let x = named_args_diags(*ctx, opt_params(g), call.generic_args@, 0) + members_diags(
            ctx.env,
            call.args@,
            0,
        );
        assert(diags@ =~= b0 + x);
        lemma_extends_refl(diags@);
        lemma_prefix_reported(b0, x, diags@);
        lemma_extends_append(b0, x);
    }
}

/// `inner` is the scope a `for` body starts in when entered from `scope`:
/// everything as in `scope`, and the binder an Int of unknown value that
/// the body may not redeclare.
pub open spec fn loop_entry(scope: StaticCtx, f: ForStmt, inner: StaticCtx) -> bool {
    &&& inner.world == scope.world
    &&& inner.check_names == scope.check_names
    &&& inner.generic_names@ == scope.generic_names@
    &&& inner.env.names@ == scope.env.names@.insert(f.binder.name@, NameKind::Unknown(Ty::Int))
    &&& inner.env.array_lens@ == scope.env.array_lens@
    &&& inner.env.unknown_arrays@ == scope.env.unknown_arrays@
    &&& inner.seen_locals@ == scope.seen_locals@.insert(f.binder.name@, ())
}

/// `scope` is what reserving the body `stmts` in `ctx` made, given the
/// errors `ds`: the same world and name policy, the body's names added to
/// those seen, every local const and array length resolved (a value of its
/// kind or unknown, and a value only its expression's), and every local on
/// no cycle given its outcome, where the failed sites are those reported
/// before the body's expressions were checked.
pub open spec fn scope_made(ctx: StaticCtx, scope: StaticCtx, stmts: Seq<Stmt>, ds: Seq<DiagView>) -> bool {
    let locals = locals_of(stmts);
    let pending = crate::eval::pending_of(locals);
    &&& scope.world == ctx.world
    &&& scope.check_names == ctx.check_names
    &&& scope.generic_names@ == ctx.generic_names@
    &&& scope.seen_locals@.dom() == ctx.seen_locals@.dom() + decl_names(decls_of(stmts))
    &&& forall|j: int|
        0 <= j < locals.len() ==> crate::eval::local_claim(
            pending[(#[trigger] locals[j]).name.name@],
            locals[j].name.name@,
            scope.env,
        ) && crate::eval::value_claim(pending[locals[j].name.name@], locals[j].name.name@, scope.env)
    &&& exists|n: int|
        0 <= n <= ds.len() && #[trigger] locals_settled(locals, scope.env, crate::eval::failure_spans(ds.take(n)), ds)
}

/// Every local of `locals` on no cycle has its outcome in `env`.
pub open spec fn locals_settled(locals: Seq<LocalExpr>, env: Env, failed: Seq<Span>, ds: Seq<DiagView>) -> bool {
    let pending = crate::eval::pending_of(locals);
    forall|j: int|
        0 <= j < locals.len() && !crate::eval::on_cycle(pending, (#[trigger] locals[j]).name.name@)
            ==> crate::eval::outcome(pending[locals[j].name.name@], locals[j].name.name@, env, failed, ds)
}

/// Every error that checking the body `stmts` in `ctx` owes, found in `ds`:
/// the duplicate declarations; inside a loop, the statements a loop body
/// does not admit; the checks of every statement in the body's own scope;
/// for every `for`, everything its body owes in the scope it enters; and
/// for every layout block, everything it owes.
#[verifier::opaque]
pub open spec fn body_owed(ctx: StaticCtx, stmts: Seq<Stmt>, in_loop: bool, ds: Seq<DiagView>) -> bool
    decreases stmts,
{
    &&& all_reported(ds, dup_diags(decls_of(stmts), ctx.seen_locals@.dom(), Map::empty(), 0))
    &&& in_loop ==> forall|k: int|
        0 <= k < stmts.len() && (#[trigger] loop_admission(stmts[k])).is_some() ==> reported(
            ds,
            loop_admission(stmts[k]).unwrap(),
        )
    &&& exists|scope: StaticCtx|
        #[trigger] scope_made(ctx, scope, stmts, ds) && (forall|k: int|
            0 <= k < stmts.len() ==> all_reported(ds, stmt_checks(scope, #[trigger] stmts[k]))) && (
        forall|k: int|
            0 <= k < stmts.len() && (#[trigger] stmts[k]) is For ==> exists|inner: StaticCtx|
                loop_entry(scope, stmts[k]->For_0, inner) && body_owed(
                    inner,
                    stmts[k]->For_0.body@,
                    true,
                    ds,
                )) && (forall|k: int|
            0 <= k < stmts.len() && (#[trigger] stmts[k]) is Layout ==> layout_block_owed(
                scope,
                stmts[k]->Layout_0,
                ds,
            ))
}

/// `inner` is the scope entered from `scope` with `binder`, an Int of
/// unknown value that may not be redeclared.
pub open spec fn binder_entry(scope: StaticCtx, binder: Seq<char>, inner: StaticCtx) -> bool {
    &&& inner.world == scope.world
    &&& inner.check_names == scope.check_names
    &&& inner.generic_names@ == scope.generic_names@
    &&& inner.env.names@ == scope.env.names@.insert(binder, NameKind::Unknown(Ty::Int))
    &&& inner.env.array_lens@ == scope.env.array_lens@
    &&& inner.env.unknown_arrays@ == scope.env.unknown_arrays@
    &&& inner.seen_locals@ == scope.seen_locals@.insert(binder, ())
}

/// `c` is `scope` with the labels of `loops` reserved as seen names.
pub open spec fn labels_entry(scope: StaticCtx, loops: Seq<LayoutFor>, c: StaticCtx) -> bool {
    &&& c.world == scope.world
    &&& c.check_names == scope.check_names
    &&& c.generic_names@ == scope.generic_names@
    &&& c.env.names@ == scope.env.names@
    &&& c.env.array_lens@ == scope.env.array_lens@
    &&& c.env.unknown_arrays@ == scope.env.unknown_arrays@
    &&& c.seen_locals@.dom() == scope.seen_locals@.dom() + loops.map_values(|f: LayoutFor| f.label.name@).to_set()
}

/// Two contexts that a layout check reads alike.
pub open spec fn reads_alike(a: StaticCtx, b: StaticCtx) -> bool {
    &&& a.world == b.world
    &&& a.check_names == b.check_names
    &&& a.generic_names@ == b.generic_names@
    &&& a.env == b.env
    &&& a.seen_locals@ == b.seen_locals@
}

/// The duplicate-label errors of a list of layout loops, in order: each
/// loop whose label is already a name of the scope `seen`.
pub open spec fn label_dups(seen: Set<Seq<char>>, loops: Seq<LayoutFor>, da: Seq<DiagView>) -> Seq<DiagView>
    decreases loops.len(),
{
    if loops.len() == 0 {
        da
    } else {
        let d = label_dups(seen, loops.drop_last(), da);
        if seen.contains(loops.last().label.name@) {
            d.push(err(Code::E201, loops.last().label.span, duplicate_msg(loops.last().label.name@)))
        } else {
            d
        }
    }
}

/// The errors a layout loop reports before its scope: its label when the
/// ledger `labels` holds it, its binder when the scope declares it, then its
/// bounds as Ints.
pub open spec fn layout_head(ctx: StaticCtx, f: LayoutFor, labels: Set<Seq<char>>, da: Seq<DiagView>) -> Seq<DiagView> {
    let d1 = if labels.contains(f.label.name@) {
        da.push(err(Code::E201, f.label.span, duplicate_msg(f.label.name@)))
    } else {
        da
    };
    let d2 = if ctx.seen_locals@.contains_key(f.binder.name@) {
        d1.push(err(Code::E201, f.binder.span, duplicate_msg(f.binder.name@)))
    } else {
        d1
    };
    d2 + layout_bound_diags(ctx.env, f)
}

/// What a layout loop does to the ledger and the errors, apart from its
/// scope: its head is reported and its label added, and the rest only adds.
pub open spec fn loop_effect(
    ctx: StaticCtx,
    f: LayoutFor,
    la: Set<Seq<char>>,
    da: Seq<DiagView>,
    lb: Set<Seq<char>>,
    db: Seq<DiagView>,
) -> bool {
    la.insert(f.label.name@).subset_of(lb) && extends(db, layout_head(ctx, f, la, da))
}

/// Checking the layout loops `loops` in order from `ctx`, whose names
/// already include their labels, turns the ledger `la` and errors `da` into
/// exactly `lb` and `db`: each loop reports its head, then enters the scope
/// its binder opens, where its consts are reserved exactly, its placements
/// are checked, and its nested loops are checked likewise once their
/// labels are reported where duplicate and reserved.
#[verifier::opaque]
pub open spec fn loops_run(
    ctx: StaticCtx,
    loops: Seq<LayoutFor>,
    la: Set<Seq<char>>,
    da: Seq<DiagView>,
    lb: Set<Seq<char>>,
    db: Seq<DiagView>,
) -> bool
    decreases loops,
{
    if loops.len() == 0 {
        lb == la && db == da
    } else {
        exists|lm: Set<Seq<char>>, dm: Seq<DiagView>|
            #[trigger] loop_effect(ctx, loops[0], la, da, lm, dm) && (exists|inner: StaticCtx, scope: StaticCtx, dp: Seq<DiagView>, c: StaticCtx|
                #![trigger binder_entry(ctx, loops[0].binder.name@, inner), scope_entered(inner, scope, const_stmts(loops[0].consts@), layout_head(ctx, loops[0], la, da), dp), labels_entry(scope, loops[0].loops@, c)]
                binder_entry(ctx, loops[0].binder.name@, inner) && scope_entered(
                    inner,
                    scope,
                    const_stmts(loops[0].consts@),
                    layout_head(ctx, loops[0], la, da),
                    dp,
                ) && labels_entry(scope, loops[0].loops@, c) && loops_run(
                    c,
                    loops[0].loops@,
                    la.insert(loops[0].label.name@),
                    label_dups(
                        scope.seen_locals@.dom(),
                        loops[0].loops@,
                        dp + placements_diags(scope.env, loops[0].placements@, 0),
                    ),
                    lm,
                    dm,
                )) && loops_run(ctx, loops.drop_first(), lm, dm, lb, db)
    }
}

/// Checking one layout loop from `ctx`: what `loops_run` asks of a first
/// loop.
pub open spec fn loop_exact(
    ctx: StaticCtx,
    f: LayoutFor,
    la: Set<Seq<char>>,
    da: Seq<DiagView>,
    lb: Set<Seq<char>>,
    db: Seq<DiagView>,
) -> bool {
    &&& loop_effect(ctx, f, la, da, lb, db)
    &&& exists|inner: StaticCtx, scope: StaticCtx, dp: Seq<DiagView>, c: StaticCtx|
        #![trigger binder_entry(ctx, f.binder.name@, inner), scope_entered(inner, scope, const_stmts(f.consts@), layout_head(ctx, f, la, da), dp), labels_entry(scope, f.loops@, c)]
        binder_entry(ctx, f.binder.name@, inner) && scope_entered(
            inner,
            scope,
            const_stmts(f.consts@),
            layout_head(ctx, f, la, da),
            dp,
        ) && labels_entry(scope, f.loops@, c) && loops_run(
            c,
            f.loops@,
            la.insert(f.label.name@),
            label_dups(scope.seen_locals@.dom(), f.loops@, dp + placements_diags(scope.env, f.placements@, 0)),
            lb,
            db,
        )
}

/// `inner` is an exact copy of `ctx`, as far as checks read it.
pub open spec fn copy_of(ctx: StaticCtx, inner: StaticCtx) -> bool {
    &&& inner.world == ctx.world
    &&& inner.check_names == ctx.check_names
    &&& inner.generic_names@ == ctx.generic_names@
    &&& inner.env.names@ == ctx.env.names@
    &&& inner.env.array_lens@ == ctx.env.array_lens@
    &&& inner.env.unknown_arrays@ == ctx.env.unknown_arrays@
    &&& inner.seen_locals@ == ctx.seen_locals@
}

/// Checking a layout block in `ctx` turns the ledger `la` and errors `da`
/// into exactly `lb` and `db`: its consts are reserved exactly in a scope
/// of their own, its placements checked there, then its loops' labels are
/// reported where duplicate and reserved, and its loops checked.
pub open spec fn block_exact(
    ctx: StaticCtx,
    b: LayoutBlock,
    la: Set<Seq<char>>,
    da: Seq<DiagView>,
    lb: Set<Seq<char>>,
    db: Seq<DiagView>,
) -> bool {
    exists|inner: StaticCtx, scope: StaticCtx, dp: Seq<DiagView>, c: StaticCtx|
        #![trigger copy_of(ctx, inner), scope_entered(inner, scope, const_stmts(b.consts@), da, dp), labels_entry(scope, b.loops@, c)]
        copy_of(ctx, inner) && scope_entered(inner, scope, const_stmts(b.consts@), da, dp) && labels_entry(
            scope,
            b.loops@,
            c,
        ) && loops_run(
            c,
            b.loops@,
            la,
            label_dups(scope.seen_locals@.dom(), b.loops@, dp + placements_diags(scope.env, b.placements@, 0)),
            lb,
            db,
        )
}

/// Everything a layout loop owes when entered from `ctx`: its bounds
/// checked as Ints there, its consts resolved in the scope its binder
/// opens, its placements checked there, and each nested loop likewise once
/// their labels are reserved.
#[verifier::opaque]
pub open spec fn layout_loop_owed(ctx: StaticCtx, f: LayoutFor, ds: Seq<DiagView>) -> bool
    decreases f,
{
    &&& all_reported(ds, layout_bound_diags(ctx.env, f))
    &&& exists|inner: StaticCtx, scope: StaticCtx, c: StaticCtx|
        #![trigger binder_entry(ctx, f.binder.name@, inner), scope_made(inner, scope, const_stmts(f.consts@), ds), labels_entry(scope, f.loops@, c)]
        binder_entry(ctx, f.binder.name@, inner) && scope_made(inner, scope, const_stmts(f.consts@), ds)
            && all_reported(ds, placements_diags(scope.env, f.placements@, 0)) && labels_entry(
            scope,
            f.loops@,
            c,
        ) && forall|k: int| 0 <= k < f.loops@.len() ==> layout_loop_owed(c, #[trigger] f.loops@[k], ds)
}

/// Everything a layout block owes in `ctx`: its consts resolved in a scope
/// of their own, its placements checked there, and each of its loops.
pub open spec fn layout_block_owed(ctx: StaticCtx, block: LayoutBlock, ds: Seq<DiagView>) -> bool {
    exists|scope: StaticCtx, c: StaticCtx|
        #![trigger scope_made(ctx, scope, const_stmts(block.consts@), ds), labels_entry(scope, block.loops@, c)]
        scope_made(ctx, scope, const_stmts(block.consts@), ds) && all_reported(
            ds,
            placements_diags(scope.env, block.placements@, 0),
        ) && labels_entry(scope, block.loops@, c) && forall|k: int|
            0 <= k < block.loops@.len() ==> layout_loop_owed(c, #[trigger] block.loops@[k], ds)
}

/// A reserved scope is made, whatever is reported after it.
proof fn lemma_reserved_made(
    old_ctx: StaticCtx,
    scope: StaticCtx,
    stmts: Seq<Stmt>,
    d0: Seq<DiagView>,
    d1: Seq<DiagView>,
    ds: Seq<DiagView>,
)
    requires
        scope_reserved(old_ctx, scope, decls_of(stmts), locals_of(stmts), d0, d1),
        extends(ds, d1),
    ensures
        scope_made(old_ctx, scope, stmts, ds),
{
    let locals = locals_of(stmts);
    let pending = crate::eval::pending_of(locals);
    let pre = d0 + dup_diags(decls_of(stmts), old_ctx.seen_locals@.dom(), Map::empty(), 0);
    let n = pre.len() as int;
    crate::eval::lemma_extends_trans_pub(d1, ds);
    assert(ds.take(n) =~= pre);
    assert forall|j: int|
        0 <= j < locals.len() && !crate::eval::on_cycle(pending, (#[trigger] locals[j]).name.name@)
            implies crate::eval::outcome(
            pending[locals[j].name.name@],
            locals[j].name.name@,
            scope.env,
            crate::eval::failure_spans(pre),
            ds,
        ) by {
        crate::eval::lemma_outcome_grows(
            pending[locals[j].name.name@],
            locals[j].name.name@,
            scope.env,
            crate::eval::failure_spans(pre),
            d1,
            ds,
        );
    }
    assert(locals_settled(locals, scope.env, crate::eval::failure_spans(ds.take(n)), ds));
}

/// A made scope stays made as further errors are reported.
proof fn lemma_scope_made_grows(ctx: StaticCtx, scope: StaticCtx, stmts: Seq<Stmt>, a: Seq<DiagView>, b: Seq<DiagView>)
    requires
        scope_made(ctx, scope, stmts, a),
        extends(b, a),
    ensures
        scope_made(ctx, scope, stmts, b),
{
    let locals = locals_of(stmts);
    let pending = crate::eval::pending_of(locals);
    let n = choose|n: int|
        0 <= n <= a.len() && #[trigger] locals_settled(locals, scope.env, crate::eval::failure_spans(a.take(n)), a);
    assert(b.take(n) =~= a.take(n)) by {
        assert(b.subrange(0, a.len() as int) == a);
    }
    assert forall|j: int|
        0 <= j < locals.len() && !crate::eval::on_cycle(pending, (#[trigger] locals[j]).name.name@)
            implies crate::eval::outcome(
            pending[locals[j].name.name@],
            locals[j].name.name@,
            scope.env,
            crate::eval::failure_spans(b.take(n)),
            b,
        ) by {
        crate::eval::lemma_outcome_grows(
            pending[locals[j].name.name@],
            locals[j].name.name@,
            scope.env,
            crate::eval::failure_spans(a.take(n)),
            a,
            b,
        );
    }
    assert(locals_settled(locals, scope.env, crate::eval::failure_spans(b.take(n)), b));
}

/// What a layout loop owes stays found as further errors are reported.
#[verifier::spinoff_prover]
proof fn lemma_layout_loop_owed_grows(ctx: StaticCtx, f: LayoutFor, a: Seq<DiagView>, b: Seq<DiagView>)
    requires
        layout_loop_owed(ctx, f, a),
        extends(b, a),
    ensures
        layout_loop_owed(ctx, f, b),
    decreases f,
{
    reveal(layout_loop_owed);
    lemma_reported_extends(a, b);
    let (inner, scope, c) = choose|inner: StaticCtx, scope: StaticCtx, c: StaticCtx|
        #![trigger binder_entry(ctx, f.binder.name@, inner), scope_made(inner, scope, const_stmts(f.consts@), a), labels_entry(scope, f.loops@, c)]
        binder_entry(ctx, f.binder.name@, inner) && scope_made(inner, scope, const_stmts(f.consts@), a)
            && all_reported(a, placements_diags(scope.env, f.placements@, 0)) && labels_entry(
            scope,
            f.loops@,
            c,
        ) && forall|k: int| 0 <= k < f.loops@.len() ==> layout_loop_owed(c, #[trigger] f.loops@[k], a);
    lemma_scope_made_grows(inner, scope, const_stmts(f.consts@), a, b);
    lemma_all_reported_extends(a, b, layout_bound_diags(ctx.env, f));
    assert forall|k: int| 0 <= k < f.loops@.len() implies layout_loop_owed(c, #[trigger] f.loops@[k], b) by {
        lemma_layout_loop_owed_grows(c, f.loops@[k], a, b);
    }
    assert(binder_entry(ctx, f.binder.name@, inner) && scope_made(inner, scope, const_stmts(f.consts@), b)
        && labels_entry(scope, f.loops@, c));
}

/// What a layout loop owes depends only on what a layout check reads.
proof fn lemma_layout_loop_owed_alike(a: StaticCtx, b: StaticCtx, f: LayoutFor, ds: Seq<DiagView>)
    requires
        layout_loop_owed(a, f, ds),
        reads_alike(a, b),
    ensures
        layout_loop_owed(b, f, ds),
{
    reveal(layout_loop_owed);
    let (inner, scope, c) = choose|inner: StaticCtx, scope: StaticCtx, c: StaticCtx|
        #![trigger binder_entry(a, f.binder.name@, inner), scope_made(inner, scope, const_stmts(f.consts@), ds), labels_entry(scope, f.loops@, c)]
        binder_entry(a, f.binder.name@, inner) && scope_made(inner, scope, const_stmts(f.consts@), ds)
            && all_reported(ds, placements_diags(scope.env, f.placements@, 0)) && labels_entry(
            scope,
            f.loops@,
            c,
        ) && forall|k: int| 0 <= k < f.loops@.len() ==> layout_loop_owed(c, #[trigger] f.loops@[k], ds);
    assert(binder_entry(b, f.binder.name@, inner));
}

/// What a layout block owes stays found as further errors are reported.
proof fn lemma_layout_block_owed_grows(ctx: StaticCtx, block: LayoutBlock, a: Seq<DiagView>, b: Seq<DiagView>)
    requires
        layout_block_owed(ctx, block, a),
        extends(b, a),
    ensures
        layout_block_owed(ctx, block, b),
{
    lemma_reported_extends(a, b);
    let (scope, c) = choose|scope: StaticCtx, c: StaticCtx|
        #![trigger scope_made(ctx, scope, const_stmts(block.consts@), a), labels_entry(scope, block.loops@, c)]
        scope_made(ctx, scope, const_stmts(block.consts@), a) && all_reported(
            a,
            placements_diags(scope.env, block.placements@, 0),
        ) && labels_entry(scope, block.loops@, c) && forall|k: int|
            0 <= k < block.loops@.len() ==> layout_loop_owed(c, #[trigger] block.loops@[k], a);
    lemma_scope_made_grows(ctx, scope, const_stmts(block.consts@), a, b);
    assert forall|k: int| 0 <= k < block.loops@.len() implies layout_loop_owed(c, #[trigger] block.loops@[k], b) by {
        lemma_layout_loop_owed_grows(c, block.loops@[k], a, b);
    }
    assert(scope_made(ctx, scope, const_stmts(block.consts@), b) && labels_entry(scope, block.loops@, c));
}

/// What a body owes stays found as further errors are reported.
#[verifier::spinoff_prover]
#[verifier::rlimit(40)]
proof fn lemma_body_owed_grows(ctx: StaticCtx, stmts: Seq<Stmt>, in_loop: bool, a: Seq<DiagView>, b: Seq<DiagView>)
    requires
        body_owed(ctx, stmts, in_loop, a),
        extends(b, a),
    ensures
        body_owed(ctx, stmts, in_loop, b),
    decreases stmts,
{
    reveal(body_owed);
    lemma_reported_extends(a, b);
    let scope = choose|scope: StaticCtx|
        #[trigger] scope_made(ctx, scope, stmts, a) && (forall|k: int|
            0 <= k < stmts.len() ==> all_reported(a, stmt_checks(scope, #[trigger] stmts[k]))) && (
        forall|k: int|
            0 <= k < stmts.len() && (#[trigger] stmts[k]) is For ==> exists|inner: StaticCtx|
                loop_entry(scope, stmts[k]->For_0, inner) && body_owed(
                    inner,
                    stmts[k]->For_0.body@,
                    true,
                    a,
                )) && (forall|k: int|
            0 <= k < stmts.len() && (#[trigger] stmts[k]) is Layout ==> layout_block_owed(
                scope,
                stmts[k]->Layout_0,
                a,
            ));
    assert forall|k: int| 0 <= k < stmts.len() && (#[trigger] stmts[k]) is Layout implies layout_block_owed(scope, stmts[k]->Layout_0, b) by {
        lemma_layout_block_owed_grows(scope, stmts[k]->Layout_0, a, b);
    }
    lemma_scope_made_grows(ctx, scope, stmts, a, b);
    assert(scope_made(ctx, scope, stmts, b));
    assert forall|k: int| 0 <= k < stmts.len() && (#[trigger] stmts[k]) is For implies exists|inner: StaticCtx|
        loop_entry(scope, stmts[k]->For_0, inner) && body_owed(inner, stmts[k]->For_0.body@, true, b) by {
        let inner = choose|inner: StaticCtx|
            loop_entry(scope, stmts[k]->For_0, inner) && body_owed(inner, stmts[k]->For_0.body@, true, a);
        lemma_body_owed_grows(inner, stmts[k]->For_0.body@, true, a, b);
    }
}

/// The errors a `for` reports before its body: its label when the ledger
/// `labels` already holds it, its binder when the scope already declares
/// it, then its bounds as Ints.
pub open spec fn for_head(ctx: StaticCtx, f: ForStmt, labels: Set<Seq<char>>, da: Seq<DiagView>) -> Seq<DiagView> {
    let d1 = if labels.contains(f.label.name@) {
        da.push(err(Code::E201, f.label.span, duplicate_msg(f.label.name@)))
    } else {
        da
    };
    let d2 = if ctx.seen_locals@.contains_key(f.binder.name@) {
        d1.push(err(Code::E201, f.binder.span, duplicate_msg(f.binder.name@)))
    } else {
        d1
    };
    d2 + stc_diags(ctx.env, f.start, Ty::Int, "a loop bound"@) + stc_diags(ctx.env, f.end, Ty::Int, "a loop bound"@)
}

/// Reserving the scope of the body `stmts` from `ctx` makes `scope` and
/// turns the errors `da` into `dp`.
#[verifier::opaque]
pub open spec fn scope_entered(ctx: StaticCtx, scope: StaticCtx, stmts: Seq<Stmt>, da: Seq<DiagView>, dp: Seq<DiagView>) -> bool {
    scope_reserved(ctx, scope, decls_of(stmts), locals_of(stmts), da, dp)
}

/// What checking statement `s` in `ctx` does to the label ledger `la` and
/// the errors `da`, giving `lb` and `db`, apart from a loop's body: a `for`
/// reports its head and adds its label, and its body only adds errors and
/// labels; a layout block owes what it owes and only adds errors and labels;
/// any other statement reports exactly its own errors.
pub open spec fn stmt_effect(
    ctx: StaticCtx,
    s: Stmt,
    in_loop: bool,
    la: Set<Seq<char>>,
    da: Seq<DiagView>,
    lb: Set<Seq<char>>,
    db: Seq<DiagView>,
) -> bool {
    match s {
        Stmt::For(f) => la.insert(f.label.name@).subset_of(lb) && extends(db, for_head(ctx, f, la, da)),
        Stmt::Layout(b) => extends(db, da) && la.subset_of(lb) && layout_block_owed(ctx, b, db) && block_exact(
            ctx,
            b,
            la,
            da,
            lb,
            db,
        ),
        _ => lb == la && db == da + simple_diags(ctx, s, in_loop),
    }
}

/// Checking the statements `stmts` in order in the scope `ctx`, with the
/// label ledger `la`, turns the errors `da` into exactly `db` and the ledger
/// into `lb`: each statement does what `stmt_effect` says, and the body of a
/// `for` is checked from the scope it enters, with its label in the ledger:
/// reserving that scope reports the duplicate declarations and the errors
/// of resolving its consts and array lengths, exactly, and then its
/// statements are checked there.
#[verifier::opaque]
pub open spec fn stmts_exact(
    ctx: StaticCtx,
    stmts: Seq<Stmt>,
    in_loop: bool,
    la: Set<Seq<char>>,
    da: Seq<DiagView>,
    lb: Set<Seq<char>>,
    db: Seq<DiagView>,
) -> bool
    decreases stmts,
{
    if stmts.len() == 0 {
        lb == la && db == da
    } else {
        exists|lm: Set<Seq<char>>, dm: Seq<DiagView>|
            #[trigger] stmt_effect(ctx, stmts[0], in_loop, la, da, lm, dm) && (match stmts[0] {
                Stmt::For(f) => exists|inner: StaticCtx, scope: StaticCtx, dp: Seq<DiagView>|
                    #![trigger loop_entry(ctx, f, inner), scope_entered(inner, scope, f.body@, for_head(ctx, f, la, da), dp)]
                    loop_entry(ctx, f, inner) && scope_entered(inner, scope, f.body@, for_head(ctx, f, la, da), dp)
                        && stmts_exact(scope, f.body@, true, la.insert(f.label.name@), dp, lm, dm),
                _ => true,
            }) && stmts_exact(ctx, stmts.drop_first(), in_loop, lm, dm, lb, db)
    }
}

/// Checking the body `stmts` from `ctx`: reserving its scope reports the
/// duplicate declarations and the errors of resolving its consts and array
/// lengths, exactly; then its statements are checked in that scope.
pub open spec fn body_exact(
    ctx: StaticCtx,
    stmts: Seq<Stmt>,
    in_loop: bool,
    la: Set<Seq<char>>,
    da: Seq<DiagView>,
    lb: Set<Seq<char>>,
    db: Seq<DiagView>,
) -> bool {
    exists|scope: StaticCtx, dp: Seq<DiagView>|
        #[trigger] scope_entered(ctx, scope, stmts, da, dp) && stmts_exact(scope, stmts, in_loop, la, dp, lb, db)
}

/// Checking statement `s` in `ctx`: what `stmts_exact` asks of a first
/// statement.
pub open spec fn step_exact(
    ctx: StaticCtx,
    s: Stmt,
    in_loop: bool,
    la: Set<Seq<char>>,
    da: Seq<DiagView>,
    lb: Set<Seq<char>>,
    db: Seq<DiagView>,
) -> bool {
    &&& stmt_effect(ctx, s, in_loop, la, da, lb, db)
    &&& s matches Stmt::For(f) ==> exists|inner: StaticCtx|
        #[trigger] loop_entry(ctx, f, inner) && body_exact(
            inner,
            f.body@,
            true,
            la.insert(f.label.name@),
            for_head(ctx, f, la, da),
            lb,
            db,
        )
}

/// Checks one statement in its scope: its loop admission (inside a loop
/// body), its generic arguments, loop bounds and selectors; a loop body in
/// a scope of its own, and a layout block likewise.
#[verifier::spinoff_prover]
fn check_stmt(ctx: &mut StaticCtx, s: &Stmt, in_loop: bool, diags: &mut Diagnostics)
    ensures
        ctx_kept(*old(ctx), *final(ctx)),
        final(ctx).env == old(ctx).env,
        extends(final(diags)@, old(diags)@),
        *s is For ==> final(ctx).labels@.contains_key(s->For_0.label.name@),
        in_loop && loop_admission(*s).is_some() ==> reported(final(diags)@, loop_admission(*s).unwrap()),
        all_reported(final(diags)@, stmt_checks(*old(ctx), *s)),
        final(ctx).seen_locals@ == old(ctx).seen_locals@,
        *s is For ==> exists|inner: StaticCtx|
            loop_entry(*old(ctx), s->For_0, inner) && body_owed(inner, s->For_0.body@, true, final(diags)@),
        *s is Layout ==> layout_block_owed(*old(ctx), s->Layout_0, final(diags)@),
        step_exact(
            *old(ctx),
            *s,
            in_loop,
            old(ctx).labels@.dom(),
            old(diags)@,
            final(ctx).labels@.dom(),
            final(diags)@,
        ),
    decreases s,
{
    let ghost b0 = diags@;
    proof {
        lemma_extends_refl(b0);
    }
    match s {
        Stmt::Inst(i) => {
            check_inst_stmt(ctx, i, in_loop, diags);
        },
        Stmt::SubdesignUse(u) => {
            check_use_stmt(ctx, u, in_loop, diags);
        },
        Stmt::Const(_) => {
            proof {
                assert(diags@ =~= old(diags)@ + simple_diags(*old(ctx), *s, in_loop));
            }
        },
        Stmt::For(f) => {
            if ctx.labels.contains_key(&f.label.name) {
                duplicate(&f.label, diags);
                proof {
                    push_step(b0, b0, diags@.last());
                }
            } else {
                ctx.labels.insert(f.label.name.clone(), ());
            }
            let ghost b1 = diags@;
            if ctx.seen_locals.contains_key(&f.binder.name) {
                duplicate(&f.binder, diags);
                proof {
                    push_step(b0, b1, diags@.last());
                }
            }
            let ghost b2 = diags@;
            static_type_check(ctx, &f.start, Ty::Int, "a loop bound", diags);
            static_type_check(ctx, &f.end, Ty::Int, "a loop bound", diags);
            proof {
                let x = stc_diags(ctx.env, f.start, Ty::Int, "a loop bound"@) + stc_diags(
                    ctx.env,
                    f.end,
                    Ty::Int,
                    "a loop bound"@,
                );
                assert(diags@ =~= b2 + x);
                lemma_extends_refl(diags@);
                lemma_prefix_reported(b2, x, diags@);
                app_step(b0, b2, x);
            }
            let ghost b4 = diags@;
            proof {
                assert(b4 =~= for_head(*old(ctx), *f, old(ctx).labels@.dom(), old(diags)@));
                assert(ctx.labels@.dom() =~= old(ctx).labels@.dom().insert(f.label.name@));
            }
            let mut inner = ctx.duplicate();
            inner.env.names.insert(f.binder.name.clone(), NameKind::Unknown(Ty::Int));
            inner.seen_locals.insert(f.binder.name.clone(), ());
            let ghost entered = inner;
            proof {
                assert(loop_entry(*old(ctx), *f, entered));
            }
            check_stmts(&mut inner, &f.body, true, diags);
            proof {
                ext_step(b0, b4, diags@);
                lemma_reported_extends(b4, diags@);
                assert(body_owed(entered, f.body@, true, diags@));
                assert(body_exact(entered, f.body@, true, old(ctx).labels@.dom().insert(f.label.name@), b4, inner.labels@.dom(), diags@));
            }
            ctx.labels = inner.labels;
        },
        Stmt::Call(call) => {
            check_call_stmt(ctx, call, diags);
        },
        Stmt::Net(n) => {
            check_net_stmt(ctx, n, in_loop, diags);
        },
        Stmt::Nc(nc) => {
            check_members_static(ctx, &nc.members, diags);
            proof {
                let x = members_diags(ctx.env, nc.members@, 0);
                lemma_extends_refl(diags@);
                lemma_prefix_reported(b0, x, diags@);
                lemma_extends_append(b0, x);
                assert(diags@ =~= old(diags)@ + simple_diags(*old(ctx), *s, in_loop));
            }
        },
        Stmt::Layout(block) => {
            check_layout_block(ctx, block, diags);
        },
    }
}

/// Definition and bound validation of one lexical body: reserve its
/// declarations and resolve its consts, then check every statement. Child
/// consts and binders never leak; only the label ledger returns.
#[verifier::spinoff_prover]
pub fn check_stmts(ctx: &mut StaticCtx, stmts: &Vec<Stmt>, in_loop: bool, diags: &mut Diagnostics)
    ensures
        ctx_kept(*old(ctx), *final(ctx)),
        extends(final(diags)@, old(diags)@),
        forall|k: int|
            0 <= k < stmts@.len() && (#[trigger] stmts@[k]) is For ==> final(ctx).labels@.contains_key(
                stmts@[k]->For_0.label.name@,
            ),
        in_loop ==> forall|k: int|
            0 <= k < stmts@.len() && (#[trigger] loop_admission(stmts@[k])).is_some() ==> reported(
                final(diags)@,
                loop_admission(stmts@[k]).unwrap(),
            ),
        all_reported(final(diags)@, dup_diags(decls_of(stmts@), old(ctx).seen_locals@.dom(), Map::empty(), 0)),
        forall|k: int|
            0 <= k < stmts@.len() ==> all_reported(final(diags)@, stmt_checks(*final(ctx), #[trigger] stmts@[k])),
        body_owed(*old(ctx), stmts@, in_loop, final(diags)@),
        body_exact(
            *old(ctx),
            stmts@,
            in_loop,
            old(ctx).labels@.dom(),
            old(diags)@,
            final(ctx).labels@.dom(),
            final(diags)@,
        ),
        scope_made(*old(ctx), *final(ctx), stmts@, final(diags)@),
        outside_kept(*old(ctx), *final(ctx), decls_of(stmts@), locals_of(stmts@)),
    decreases stmts,
{
    proof {
        lemma_extends_refl(diags@);
    }
    let ghost d0 = diags@;
    let ghost seen0 = ctx.seen_locals@.dom();
    let ghost dups = dup_diags(decls_of(stmts@), seen0, Map::empty(), 0);
    prepare_scope(ctx, stmts, diags);
    proof {
        reserved_step(old(diags)@, d0, dups, diags@);
        lemma_prefix_reported(d0, dups, diags@);
    }
    let ghost scope = *ctx;
    let ghost d_prep = diags@;
    proof {
        lemma_extends_refl(d_prep);
        assert(stmts@.subrange(0, stmts@.len() as int) =~= stmts@);
    }
    let mut idx: usize = 0;
    while idx < stmts.len()
        invariant
            idx <= stmts@.len(),
            ctx_kept(*old(ctx), *ctx),
            same_checks(scope, *ctx),
            ctx.seen_locals@ == scope.seen_locals@,
            extends(diags@, d_prep),
            forall|lb: Set<Seq<char>>, db: Seq<DiagView>|
                #[trigger] stmts_exact(scope, stmts@.subrange(idx as int, stmts@.len() as int), in_loop, ctx.labels@.dom(), diags@, lb, db)
                    ==> stmts_exact(scope, stmts@, in_loop, scope.labels@.dom(), d_prep, lb, db),
            forall|k: int|
                0 <= k < idx && (#[trigger] stmts@[k]) is For ==> exists|inner: StaticCtx|
                    loop_entry(scope, stmts@[k]->For_0, inner) && body_owed(
                        inner,
                        stmts@[k]->For_0.body@,
                        true,
                        diags@,
                    ),
            forall|k: int|
                0 <= k < idx && (#[trigger] stmts@[k]) is Layout ==> layout_block_owed(
                    scope,
                    stmts@[k]->Layout_0,
                    diags@,
                ),
            extends(diags@, old(diags)@),
            forall|k: int|
                0 <= k < idx && (#[trigger] stmts@[k]) is For ==> ctx.labels@.contains_key(
                    stmts@[k]->For_0.label.name@,
                ),
            in_loop ==> forall|k: int|
                0 <= k < idx && (#[trigger] loop_admission(stmts@[k])).is_some() ==> reported(
                    diags@,
                    loop_admission(stmts@[k]).unwrap(),
                ),
            dups == dup_diags(decls_of(stmts@), old(ctx).seen_locals@.dom(), Map::empty(), 0),
            all_reported(diags@, dups),
            forall|k: int| 0 <= k < idx ==> all_reported(diags@, stmt_checks(scope, #[trigger] stmts@[k])),
        decreases stmts@.len() - idx,
    {
        let ghost b0 = diags@;
        let ghost c0 = *ctx;
        check_stmt(ctx, &stmts[idx], in_loop, diags);
        proof {
            lemma_step_alike(c0, scope, stmts@[idx as int], in_loop, c0.labels@.dom(), b0, ctx.labels@.dom(), diags@);
            lemma_stmts_step(scope, stmts@, in_loop, idx as int, scope.labels@.dom(), d_prep, c0.labels@.dom(), b0, ctx.labels@.dom(), diags@);
            lemma_stmt_checks_same(c0, scope, stmts@[idx as int]);
            ext_step(old(diags)@, b0, diags@);
            lemma_reported_extends(b0, diags@);
            crate::eval::lemma_extends_trans_pub(b0, diags@);
            assert forall|k: int| 0 <= k <= idx && (#[trigger] stmts@[k]) is For implies exists|inner: StaticCtx|
                loop_entry(scope, stmts@[k]->For_0, inner) && body_owed(inner, stmts@[k]->For_0.body@, true, diags@) by {
                if k < idx {
                    let inner = choose|inner: StaticCtx|
                        loop_entry(scope, stmts@[k]->For_0, inner) && body_owed(inner, stmts@[k]->For_0.body@, true, b0);
                    lemma_body_owed_grows(inner, stmts@[k]->For_0.body@, true, b0, diags@);
                } else {
                    let inner = choose|inner: StaticCtx|
                        loop_entry(c0, stmts@[k]->For_0, inner) && body_owed(inner, stmts@[k]->For_0.body@, true, diags@);
                    assert(loop_entry(scope, stmts@[k]->For_0, inner));
                }
            }
            assert forall|k: int| 0 <= k <= idx && (#[trigger] stmts@[k]) is Layout implies layout_block_owed(
                scope,
                stmts@[k]->Layout_0,
                diags@,
            ) by {
                if k < idx {
                    lemma_layout_block_owed_grows(scope, stmts@[k]->Layout_0, b0, diags@);
                } else {
                    lemma_block_owed_alike(c0, scope, stmts@[k]->Layout_0, diags@);
                }
            }
        }
        idx = idx + 1;
    }
    proof {
        assert forall|k: int| 0 <= k < stmts@.len() implies all_reported(diags@, stmt_checks(*ctx, #[trigger] stmts@[k])) by {
            lemma_stmt_checks_same(scope, *ctx, stmts@[k]);
        }
        let locals = locals_of(stmts@);
        let pending = crate::eval::pending_of(locals);
        let pre = old(diags)@ + dups;
        let n = pre.len() as int;
        crate::eval::lemma_extends_trans_pub(d_prep, diags@);
        assert(diags@.take(n) =~= pre);
        assert forall|j: int|
            0 <= j < locals.len() && !crate::eval::on_cycle(pending, (#[trigger] locals[j]).name.name@)
                implies crate::eval::outcome(
                pending[locals[j].name.name@],
                locals[j].name.name@,
                scope.env,
                crate::eval::failure_spans(pre),
                diags@,
            ) by {
            crate::eval::lemma_outcome_grows(
                pending[locals[j].name.name@],
                locals[j].name.name@,
                scope.env,
                crate::eval::failure_spans(pre),
                d_prep,
                diags@,
            );
        }
        assert(locals_settled(locals, scope.env, crate::eval::failure_spans(diags@.take(n)), diags@));
        assert(scope_made(*old(ctx), scope, stmts@, diags@));
        reveal(body_owed);
        assert(stmts@.subrange(stmts@.len() as int, stmts@.len() as int) =~= Seq::<Stmt>::empty());
        reveal(stmts_exact);
        assert(stmts_exact(scope, stmts@.subrange(stmts@.len() as int, stmts@.len() as int), in_loop, ctx.labels@.dom(), diags@, ctx.labels@.dom(), diags@));
        assert(scope_reserved(*old(ctx), scope, decls_of(stmts@), locals_of(stmts@), old(diags)@, d_prep));
        reveal(scope_entered);
        assert(scope_entered(*old(ctx), scope, stmts@, old(diags)@, d_prep));
        assert(scope_made(*old(ctx), *ctx, stmts@, diags@));
        reveal(outside_kept);
        assert(ctx.env == scope.env);
    }
}

/// A first statement checked, then the rest, is the whole run.
#[verifier::spinoff_prover]
proof fn lemma_exact_cons(
    ctx: StaticCtx,
    rest: Seq<Stmt>,
    in_loop: bool,
    la: Set<Seq<char>>,
    da: Seq<DiagView>,
    lm: Set<Seq<char>>,
    dm: Seq<DiagView>,
    lb: Set<Seq<char>>,
    db: Seq<DiagView>,
)
    requires
        rest.len() > 0,
        step_exact(ctx, rest[0], in_loop, la, da, lm, dm),
        stmts_exact(ctx, rest.drop_first(), in_loop, lm, dm, lb, db),
    ensures
        stmts_exact(ctx, rest, in_loop, la, da, lb, db),
{
    reveal(stmts_exact);
    match rest[0] {
        Stmt::For(f) => {
            let inner = choose|inner: StaticCtx|
                #[trigger] loop_entry(ctx, f, inner) && body_exact(
                    inner,
                    f.body@,
                    true,
                    la.insert(f.label.name@),
                    for_head(ctx, f, la, da),
                    lm,
                    dm,
                );
            let (sc, dp) = choose|sc: StaticCtx, dp: Seq<DiagView>|
                #[trigger] scope_entered(inner, sc, f.body@, for_head(ctx, f, la, da), dp)
                    && stmts_exact(sc, f.body@, true, la.insert(f.label.name@), dp, lm, dm);
            assert(loop_entry(ctx, f, inner) && scope_entered(inner, sc, f.body@, for_head(ctx, f, la, da), dp));
        },
        _ => {},
    }
    assert(stmt_effect(ctx, rest[0], in_loop, la, da, lm, dm));
}

/// Checking one more statement carries the run of a body's statements on.
proof fn lemma_stmts_step(
    scope: StaticCtx,
    stmts: Seq<Stmt>,
    in_loop: bool,
    k: int,
    l0: Set<Seq<char>>,
    d0: Seq<DiagView>,
    la: Set<Seq<char>>,
    da: Seq<DiagView>,
    lm: Set<Seq<char>>,
    dm: Seq<DiagView>,
)
    requires
        0 <= k < stmts.len(),
        step_exact(scope, stmts[k], in_loop, la, da, lm, dm),
        forall|lb: Set<Seq<char>>, db: Seq<DiagView>|
            #[trigger] stmts_exact(scope, stmts.subrange(k, stmts.len() as int), in_loop, la, da, lb, db)
                ==> stmts_exact(scope, stmts, in_loop, l0, d0, lb, db),
    ensures
        forall|lb: Set<Seq<char>>, db: Seq<DiagView>|
            #[trigger] stmts_exact(scope, stmts.subrange(k + 1, stmts.len() as int), in_loop, lm, dm, lb, db)
                ==> stmts_exact(scope, stmts, in_loop, l0, d0, lb, db),
{
    let rest = stmts.subrange(k, stmts.len() as int);
    assert(rest.drop_first() =~= stmts.subrange(k + 1, stmts.len() as int));
    assert(rest[0] == stmts[k]);
    assert forall|lb: Set<Seq<char>>, db: Seq<DiagView>|
        #[trigger] stmts_exact(scope, stmts.subrange(k + 1, stmts.len() as int), in_loop, lm, dm, lb, db)
            implies stmts_exact(scope, stmts, in_loop, l0, d0, lb, db) by {
        lemma_exact_cons(scope, rest, in_loop, la, da, lm, dm, lb, db);
    }
}

/// A statement's exact check depends only on what is read of its context.
proof fn lemma_step_alike(
    a: StaticCtx,
    b: StaticCtx,
    s: Stmt,
    in_loop: bool,
    la: Set<Seq<char>>,
    da: Seq<DiagView>,
    lb: Set<Seq<char>>,
    db: Seq<DiagView>,
)
    requires
        step_exact(a, s, in_loop, la, da, lb, db),
        same_checks(a, b),
        a.seen_locals@ == b.seen_locals@,
    ensures
        step_exact(b, s, in_loop, la, da, lb, db),
{
    match s {
        Stmt::For(f) => {
            let inner = choose|inner: StaticCtx|
                #[trigger] loop_entry(a, f, inner) && body_exact(
                    inner,
                    f.body@,
                    true,
                    la.insert(f.label.name@),
                    for_head(a, f, la, da),
                    lb,
                    db,
                );
            assert(loop_entry(b, f, inner));
            assert(for_head(a, f, la, da) == for_head(b, f, la, da));
        },
        Stmt::Layout(blk) => {
            lemma_block_owed_alike(a, b, blk, db);
            lemma_block_exact_alike(a, b, blk, la, da, lb, db);
        },
        _ => {
            lemma_stmt_checks_same(a, b, s);
        },
    }
}

// ---------------------------------------------------------------------------
// Whole definitions
// ---------------------------------------------------------------------------

proof fn lemma_dup_has_redeclaration(
    decls: Seq<(Ident, bool, bool)>,
    seen: Set<Seq<char>>,
    local: Map<Seq<char>, (bool, bool)>,
    k: int,
    i: int,
)
    requires
        0 <= k <= i < decls.len(),
        decls[i].2,
        seen.contains(decls[i].0.name@),
    ensures
        reported(
            dup_diags(decls, seen, local, k),
            err(Code::E201, decls[i].0.span, duplicate_msg(decls[i].0.name@)),
        ),
    decreases i - k,
{
    let (id, new_kind, unique) = decls[k];
    let n = id.name@;
    let e = if local.contains_key(n) {
        local[n]
    } else {
        (false, false)
    };
    let next = local.insert(n, (e.0 || new_kind, e.1 || unique));
    let rest = dup_diags(decls, seen, next, k + 1);
    let here = dup_diags(decls, seen, local, k).subrange(0, dup_diags(decls, seen, local, k).len() - rest.len());
    assert(dup_diags(decls, seen, local, k) == here + rest);
    if k == i {
        assert(dup_diags(decls, seen, local, k)[0] == err(Code::E201, id.span, duplicate_msg(n)));
    } else {
        lemma_dup_has_redeclaration(decls, seen, next, k + 1, i);
        let j = choose|j: int|
            0 <= j < rest.len() && rest[j] == err(Code::E201, decls[i].0.span, duplicate_msg(decls[i].0.name@));
        assert((here + rest)[here.len() + j] == rest[j]);
    }
}

/// A const, loop label, instance or use site that reuses a name of an
/// enclosing scope (a generic, a parameter, a binder or an outer local) is
/// reported as E201 at its own site, wherever the scope's duplicate
/// declarations are reported.
pub proof fn law_known_name_redeclared(
    ds: Seq<DiagView>,
    decls: Seq<(Ident, bool, bool)>,
    seen: Set<Seq<char>>,
    i: int,
)
    requires
        all_reported(ds, dup_diags(decls, seen, Map::empty(), 0)),
        0 <= i < decls.len(),
        decls[i].2,
        seen.contains(decls[i].0.name@),
    ensures
        reported(ds, err(Code::E201, decls[i].0.span, duplicate_msg(decls[i].0.name@))),
{
    let xs = dup_diags(decls, seen, Map::empty(), 0);
    lemma_dup_has_redeclaration(decls, seen, Map::empty(), 0, i);
    let j = choose|j: int|
        0 <= j < xs.len() && xs[j] == err(Code::E201, decls[i].0.span, duplicate_msg(decls[i].0.name@));
    assert(reported(ds, xs[j]));
}

proof fn lemma_nets_repeat(
    decls: Seq<(Ident, bool, bool)>,
    seen: Set<Seq<char>>,
    local: Map<Seq<char>, (bool, bool)>,
    k: int,
)
    requires
        0 <= k,
        forall|j: int| 0 <= j < decls.len() ==> !(#[trigger] decls[j]).1 && !decls[j].2,
        forall|n: Seq<char>| #[trigger] local.contains_key(n) ==> !local[n].0 && !local[n].1,
    ensures
        dup_diags(decls, seen, local, k) == Seq::<DiagView>::empty(),
    decreases decls.len() - k,
{
    if k < decls.len() {
        let (id, new_kind, unique) = decls[k];
        let n = id.name@;
        let e = if local.contains_key(n) {
            local[n]
        } else {
            (false, false)
        };
        let next = local.insert(n, (e.0 || new_kind, e.1 || unique));
        lemma_nets_repeat(decls, seen, next, k + 1);
    }
}

/// Net names may be declared repeatedly, even reusing a name of an
/// enclosing scope: a scope whose only declarations are nets has no
/// duplicate-declaration error.
pub proof fn law_nets_may_repeat(decls: Seq<(Ident, bool, bool)>, seen: Set<Seq<char>>)
    requires
        forall|j: int| 0 <= j < decls.len() ==> !(#[trigger] decls[j]).1 && !decls[j].2,
    ensures
        dup_diags(decls, seen, Map::empty(), 0) == Seq::<DiagView>::empty(),
{
    lemma_nets_repeat(decls, seen, Map::empty(), 0);
}

/// The names a definition's body starts with: its generics and parameters.
pub open spec fn definition_seen(generics: Seq<GenericParam>, params: Seq<FnParam>) -> Set<Seq<char>> {
    generics.map_values(|g: GenericParam| g.name.name@).to_set() + params.map_values(
        |p: FnParam| p.name.name@,
    ).to_set()
}

/// `ctx` is where checking a definition's body starts: its generics and
/// parameters are the names in scope (values unknown), the names seen, and
/// the generic names that arguments may mention; no arrays; unknown names
/// in generic arguments are reported.
pub open spec fn def_start(ctx: StaticCtx, world: World, generics: Seq<GenericParam>, params: Seq<FnParam>) -> bool {
    &&& *ctx.world == world
    &&& ctx.check_names
    &&& ctx.generic_names@.dom() == generics.map_values(|g: GenericParam| g.name.name@).to_set()
    &&& ctx.env.names@ == param_kinds(generic_kinds(generics), params)
    &&& ctx.env.array_lens@ == Map::<Seq<char>, i64>::empty()
    &&& ctx.env.unknown_arrays@ == Map::<Seq<char>, ()>::empty()
    &&& ctx.seen_locals@.dom() == definition_seen(generics, params)
}

/// Checking a definition turns the errors `d0` into exactly `d1`: the
/// statement-kind pass against the bases it declares, then its body's
/// static checks from where they start, with an empty label ledger.
pub open spec fn def_checked(
    world: World,
    generics: Seq<GenericParam>,
    params: Seq<FnParam>,
    body: Seq<Stmt>,
    allow_sub_use: bool,
    d0: Seq<DiagView>,
    d1: Seq<DiagView>,
) -> bool {
    exists|m: Map<Seq<char>, Base>, c: StaticCtx, lb: Set<Seq<char>>|
        #![trigger bases_of(m, world, trait_generic_names(generics), params, body), def_start(c, world, generics, params), body_exact(c, body, false, Set::empty(), d0 + walk_diags(world, trait_generic_names(generics), unit_generic_names(generics), m, allow_sub_use, body, 0), lb, d1)]
        bases_of(m, world, trait_generic_names(generics), params, body) && def_start(c, world, generics, params)
            && body_exact(
            c,
            body,
            false,
            Set::empty(),
            d0 + walk_diags(world, trait_generic_names(generics), unit_generic_names(generics), m, allow_sub_use, body, 0),
            lb,
            d1,
        )
}

/// Every error the statement-kind pass finds in a definition, every
/// duplicate declaration at the top level of its body, and everything its
/// body owes to the static checks from where checking starts, is in `ds`.
pub open spec fn body_reported(
    ds: Seq<DiagView>,
    world: World,
    generics: Seq<GenericParam>,
    params: Seq<FnParam>,
    body: Seq<Stmt>,
    allow_sub_use: bool,
) -> bool {
    &&& all_reported(
        ds,
        dup_diags(decls_of(body), definition_seen(generics, params), Map::empty(), 0),
    )
    &&& exists|c: StaticCtx| #[trigger] def_start(c, world, generics, params) && body_owed(c, body, false, ds)
    &&& exists|m: Map<Seq<char>, Base>|
        #![trigger bases_of(m, world, trait_generic_names(generics), params, body)]
        bases_of(m, world, trait_generic_names(generics), params, body) && forall|j: int|
            0 <= j < walk_diags(
                world,
                trait_generic_names(generics),
                unit_generic_names(generics),
                m,
                allow_sub_use,
                body,
                0,
            ).len() ==> reported(
                ds,
                #[trigger] walk_diags(
                    world,
                    trait_generic_names(generics),
                    unit_generic_names(generics),
                    m,
                    allow_sub_use,
                    body,
                    0,
                )[j],
            )
}

proof fn lemma_body_reported_extends(
    a: Seq<DiagView>,
    b: Seq<DiagView>,
    world: World,
    generics: Seq<GenericParam>,
    params: Seq<FnParam>,
    body: Seq<Stmt>,
    allow_sub_use: bool,
)
    requires
        body_reported(a, world, generics, params, body, allow_sub_use),
        extends(b, a),
    ensures
        body_reported(b, world, generics, params, body, allow_sub_use),
{
    lemma_reported_extends(a, b);
    let tg = trait_generic_names(generics);
    let m = choose|m: Map<Seq<char>, Base>|
        #![trigger bases_of(m, world, tg, params, body)]
        bases_of(m, world, tg, params, body) && forall|j: int|
            0 <= j < walk_diags(world, tg, unit_generic_names(generics), m, allow_sub_use, body, 0).len()
                ==> reported(a, #[trigger] walk_diags(world, tg, unit_generic_names(generics), m, allow_sub_use, body, 0)[j]);
    assert(bases_of(m, world, tg, params, body));
    let c = choose|c: StaticCtx| #[trigger] def_start(c, world, generics, params) && body_owed(c, body, false, a);
    lemma_body_owed_grows(c, body, false, a, b);
    assert(def_start(c, world, generics, params));
}

proof fn lemma_walk_has_sub_use_error(
    world: World,
    tg: Set<Seq<char>>,
    ug: Set<Seq<char>>,
    bases: Map<Seq<char>, Base>,
    stmts: Seq<Stmt>,
    i: int,
    k: int,
)
    requires
        0 <= i <= k < stmts.len(),
        stmts[k] is SubdesignUse,
    ensures
        reported(
            walk_diags(world, tg, ug, bases, false, stmts, i),
            err(Code::E1307, stmts[k]->SubdesignUse_0.span, fn_sub_use_msg()),
        ),
    decreases k - i,
{
    let here = walk_stmt_diags(world, tg, ug, bases, false, stmts[i]);
    let rest = walk_diags(world, tg, ug, bases, false, stmts, i + 1);
    assert(walk_diags(world, tg, ug, bases, false, stmts, i) == here + rest);
    if i == k {
        assert((here + rest)[0] == here[0]);
    } else {
        lemma_walk_has_sub_use_error(world, tg, ug, bases, stmts, i + 1, k);
        let j = choose|j: int|
            0 <= j < rest.len() && rest[j] == err(Code::E1307, stmts[k]->SubdesignUse_0.span, fn_sub_use_msg());
        assert((here + rest)[here.len() + j] == rest[j]);
    }
}

/// A fn body cannot hold a subdesign use site: wherever the statement-kind
/// pass of a fn body is reported, each use site at its top level is
/// reported as E1307.
pub proof fn law_fn_body_rejects_sub_use(
    ds: Seq<DiagView>,
    world: World,
    generics: Seq<GenericParam>,
    params: Seq<FnParam>,
    body: Seq<Stmt>,
    k: int,
)
    requires
        body_reported(ds, world, generics, params, body, false),
        0 <= k < body.len(),
        body[k] is SubdesignUse,
    ensures
        reported(ds, err(Code::E1307, body[k]->SubdesignUse_0.span, fn_sub_use_msg())),
{
    let tg = trait_generic_names(generics);
    let ug = unit_generic_names(generics);
    let m = choose|m: Map<Seq<char>, Base>|
        #![trigger bases_of(m, world, tg, params, body)]
        bases_of(m, world, tg, params, body) && forall|j: int|
            0 <= j < walk_diags(world, tg, ug, m, false, body, 0).len() ==> reported(
                ds,
                #[trigger] walk_diags(world, tg, ug, m, false, body, 0)[j],
            );
    assert(bases_of(m, world, tg, params, body));
    lemma_walk_has_sub_use_error(world, tg, ug, m, body, 0, k);
    let w = walk_diags(world, tg, ug, m, false, body, 0);
    let j = choose|j: int| 0 <= j < w.len() && w[j] == err(Code::E1307, body[k]->SubdesignUse_0.span, fn_sub_use_msg());
    assert(reported(ds, w[j]));
}

/// The kind of name a generic parameter is in its definition's body.
pub open spec fn generic_kind(g: GenericParam) -> NameKind {
    match g.bound {
        GenericBound::Int(_) => NameKind::Unknown(Ty::Int),
        GenericBound::Unit(u, _) => if u == UnitType::Length {
            NameKind::Unknown(Ty::Length)
        } else {
            NameKind::NonValue
        },
        GenericBound::Traits(_) => NameKind::NonValue,
    }
}

/// The name kinds of generics, a later parameter of a name replacing an
/// earlier one.
pub open spec fn generic_kinds(gs: Seq<GenericParam>) -> Map<Seq<char>, NameKind>
    decreases gs.len(),
{
    if gs.len() == 0 {
        Map::empty()
    } else {
        generic_kinds(gs.drop_last()).insert(gs.last().name.name@, generic_kind(gs.last()))
    }
}

/// `base` with every parameter name of `ps` bound to no value.
pub open spec fn param_kinds(base: Map<Seq<char>, NameKind>, ps: Seq<FnParam>) -> Map<Seq<char>, NameKind>
    decreases ps.len(),
{
    if ps.len() == 0 {
        base
    } else {
        param_kinds(base, ps.drop_last()).insert(ps.last().name.name@, NameKind::NonValue)
    }
}

/// The name kinds a definition body starts with: Int generics and Length
/// generics are values of unknown magnitude; other generics and every
/// parameter are no values, a parameter overriding a generic of its name.
fn definition_names(generics: &Vec<GenericParam>, params: &Vec<FnParam>) -> (m: StrMap<NameKind>)
    ensures
        m@ == param_kinds(generic_kinds(generics@), params@),
{
    let mut m: StrMap<NameKind> = StrMap::new();
    let mut i: usize = 0;
    while i < generics.len()
        invariant
            i <= generics@.len(),
            m@ == generic_kinds(generics@.take(i as int)),
        decreases generics@.len() - i,
    {
        let g = &generics[i];
        let kind = match &g.bound {
            GenericBound::Int(_) => NameKind::Unknown(Ty::Int),
            GenericBound::Unit(u, _) => if *u == UnitType::Length {
                NameKind::Unknown(Ty::Length)
            } else {
                NameKind::NonValue
            },
            GenericBound::Traits(_) => NameKind::NonValue,
        };
        m.insert(g.name.name.clone(), kind);
        proof {
            assert(generics@.take(i + 1).drop_last() =~= generics@.take(i as int));
            assert(generics@.take(i + 1).last() == generics@[i as int]);
        }
        i = i + 1;
    }
    proof {
        assert(generics@.take(generics@.len() as int) =~= generics@);
    }
    let ghost base = m@;
    let mut j: usize = 0;
    while j < params.len()
        invariant
            j <= params@.len(),
            base == generic_kinds(generics@),
            m@ == param_kinds(base, params@.take(j as int)),
        decreases params@.len() - j,
    {
        m.insert(params[j].name.name.clone(), NameKind::NonValue);
        proof {
            assert(params@.take(j + 1).drop_last() =~= params@.take(j as int));
            assert(params@.take(j + 1).last() == params@[j as int]);
        }
        j = j + 1;
    }
    proof {
        assert(params@.take(params@.len() as int) =~= params@);
    }
    m
}

/// The generic names of a definition, and those names together with its
/// parameter names.
fn definition_locals(generics: &Vec<GenericParam>, params: &Vec<FnParam>) -> (r: (StrMap<()>, StrMap<()>))
    ensures
        r.0@.dom() == generics@.map_values(|g: GenericParam| g.name.name@).to_set(),
        r.1@.dom() == definition_seen(generics@, params@),
{
    let ghost gnames = generics@.map_values(|g: GenericParam| g.name.name@);
    let ghost pnames = params@.map_values(|p: FnParam| p.name.name@);
    let mut gen: StrMap<()> = StrMap::new();
    let mut seen: StrMap<()> = StrMap::new();
    let mut i: usize = 0;
    while i < generics.len()
        invariant
            i <= generics@.len(),
            gnames == generics@.map_values(|g: GenericParam| g.name.name@),
            seen@.dom() == gnames.take(i as int).to_set(),
            gen@.dom() == gnames.take(i as int).to_set(),
        decreases generics@.len() - i,
    {
        gen.insert(generics[i].name.name.clone(), ());
        seen.insert(generics[i].name.name.clone(), ());
        proof {
            assert(gnames.take(i + 1) =~= gnames.take(i as int).push(gnames[i as int]));
            lemma_set_of_push(gnames.take(i as int), gnames[i as int]);
        }
        i = i + 1;
    }
    proof {
        assert(gnames.take(generics@.len() as int) =~= gnames);
    }
    let mut j: usize = 0;
    while j < params.len()
        invariant
            j <= params@.len(),
            gnames == generics@.map_values(|g: GenericParam| g.name.name@),
            pnames == params@.map_values(|p: FnParam| p.name.name@),
            seen@.dom() == gnames.to_set() + pnames.take(j as int).to_set(),
            gen@.dom() == gnames.to_set(),
        decreases params@.len() - j,
    {
        seen.insert(params[j].name.name.clone(), ());
        proof {
            assert(pnames.take(j + 1) =~= pnames.take(j as int).push(pnames[j as int]));
            lemma_set_of_push(pnames.take(j as int), pnames[j as int]);
            assert(seen@.dom() =~= gnames.to_set() + pnames.take(j + 1).to_set());
        }
        j = j + 1;
    }
    proof {
        assert(pnames.take(params@.len() as int) =~= pnames);
    }
    (gen, seen)
}

/// Checks one definition body: the statement-kind pass against the bases
/// it declares, then the uniform static validation of its declarations,
/// const kinds, loop bounds and loop-body admissions.
#[verifier::spinoff_prover]
fn check_one(
    world: &World,
    generics: &Vec<GenericParam>,
    params: &Vec<FnParam>,
    body: &Vec<Stmt>,
    allow_sub_use: bool,
    diags: &mut Diagnostics,
)
    ensures
        exists|m: Map<Seq<char>, Base>|
            #![trigger bases_of(m, *world, trait_generic_names(generics@), params@, body@)]
            bases_of(m, *world, trait_generic_names(generics@), params@, body@) && extends(
                final(diags)@,
                old(diags)@ + walk_diags(
                    *world,
                    trait_generic_names(generics@),
                    unit_generic_names(generics@),
                    m,
                    allow_sub_use,
                    body@,
                    0,
                ),
            ),
        body_reported(final(diags)@, *world, generics@, params@, body@, allow_sub_use),
        def_checked(*world, generics@, params@, body@, allow_sub_use, old(diags)@, final(diags)@),
{
    let trait_generics = generic_class(generics, true);
    let unit_generics = generic_class(generics, false);
    let bases = collect_bases(world, &trait_generics, params, body);
    walk(world, &trait_generics, &unit_generics, &bases, allow_sub_use, body, diags);
    let ghost d1 = diags@;
    let (generic_names, seen_locals) = definition_locals(generics, params);
    let mut env = Env::empty();
    env.names = definition_names(generics, params);
    let mut ctx = StaticCtx {
        world,
        check_names: true,
        generic_names,
        env,
        labels: StrMap::new(),
        seen_locals,
    };
    let ghost seen0 = ctx.seen_locals@.dom();
    let ghost start = ctx;
    proof {
        assert(def_start(start, *world, generics@, params@));
    }
    check_stmts(&mut ctx, body, false, diags);
    proof {
        assert(body_owed(start, body@, false, diags@));
        assert(start.labels@.dom() =~= Set::<Seq<char>>::empty());
        assert(body_exact(start, body@, false, Set::empty(), d1, ctx.labels@.dom(), diags@));
        assert(seen0 == definition_seen(generics@, params@));
        let tg = trait_generic_names(generics@);
        let ug = unit_generic_names(generics@);
        let w = walk_diags(*world, tg, ug, bases@, allow_sub_use, body@, 0);
        assert(bases_of(bases@, *world, tg, params@, body@));
        assert forall|j: int| 0 <= j < w.len() implies reported(diags@, #[trigger] w[j]) by {
            assert(diags@.subrange(0, d1.len() as int)[old(diags)@.len() + j] == d1[old(diags)@.len() + j]);
            assert(d1[old(diags)@.len() + j] == w[j]);
        }
    }
}

/// Checking the fns named `keys`, in order, turns the errors `d0` into
/// exactly `d1`.
pub open spec fn fns_checked(world: World, keys: Seq<Seq<char>>, d0: Seq<DiagView>, d1: Seq<DiagView>) -> bool
    decreases keys.len(),
{
    if keys.len() == 0 {
        d1 == d0
    } else {
        exists|dm: Seq<DiagView>|
            #[trigger] def_checked(
                world,
                world.fns@[keys.last()].generics@,
                world.fns@[keys.last()].params@,
                world.fns@[keys.last()].body@,
                false,
                dm,
                d1,
            ) && fns_checked(world, keys.drop_last(), d0, dm)
    }
}

/// Checking the designs named `keys`, in order, turns the errors `d0` into
/// exactly `d1`.
pub open spec fn designs_checked(world: World, keys: Seq<Seq<char>>, d0: Seq<DiagView>, d1: Seq<DiagView>) -> bool
    decreases keys.len(),
{
    if keys.len() == 0 {
        d1 == d0
    } else {
        exists|dm: Seq<DiagView>|
            #[trigger] def_checked(world, Seq::empty(), Seq::empty(), world.designs@[keys.last()].body@, true, dm, d1)
                && designs_checked(world, keys.drop_last(), d0, dm)
    }
}

/// Validates every fn body up front, whether or not a design calls it.
pub fn check_fn_bodies(world: &World, diags: &mut Diagnostics)
    ensures
        extends(final(diags)@, old(diags)@),
        forall|name: Seq<char>| #[trigger]
            world.fns@.contains_key(name) ==> body_reported(
                final(diags)@,
                *world,
                world.fns@[name].generics@,
                world.fns@[name].params@,
                world.fns@[name].body@,
                false,
            ),
        fns_checked(*world, sorted_listing(world.fns@.dom()), old(diags)@, final(diags)@),
{
    let keys = world.fns.keys();
    let ghost kv = keys@.map_values(|k: String| k@);
    proof {
        lemma_extends_refl(diags@);
        assert(kv =~= world.fns.key_seq());
        assert(is_sorted_listing(sorted_listing(world.fns@.dom()), world.fns@.dom()));
        lemma_sorted_listing_unique(kv, sorted_listing(world.fns@.dom()), world.fns@.dom());
        assert(kv.take(0) =~= Seq::<Seq<char>>::empty());
    }
    let mut i: usize = 0;
    while i < keys.len()
        invariant
            i <= keys@.len(),
            keys@.len() == world.fns.key_seq().len(),
            forall|j: int| 0 <= j < keys@.len() ==> #[trigger] keys@[j]@ == world.fns.key_seq()[j],
            world.fns.key_seq().to_set() == world.fns@.dom(),
            extends(diags@, old(diags)@),
            kv == keys@.map_values(|k: String| k@),
            fns_checked(*world, kv.take(i as int), old(diags)@, diags@),
            forall|j: int|
                0 <= j < i ==> body_reported(
                    diags@,
                    *world,
                    world.fns@[#[trigger] keys@[j]@].generics@,
                    world.fns@[keys@[j]@].params@,
                    world.fns@[keys@[j]@].body@,
                    false,
                ),
        decreases keys@.len() - i,
    {
        let ghost before = diags@;
        proof {
            assert(world.fns.key_seq()[i as int] == keys@[i as int]@);
            assert(world.fns.key_seq().to_set().contains(keys@[i as int]@));
        }
        let f = world.fns.get(&keys[i]).unwrap();
        check_one(world, &f.generics, &f.params, &f.body, false, diags);
        proof {
            assert(kv.take(i + 1).drop_last() =~= kv.take(i as int));
            assert(kv.take(i + 1).last() == keys@[i as int]@);
            assert(def_checked(*world, f.generics@, f.params@, f.body@, false, before, diags@));
            assert(fns_checked(*world, kv.take(i + 1), old(diags)@, diags@));
            let tg = trait_generic_names(f.generics@);
            let m = choose|m: Map<Seq<char>, Base>|
                #![trigger bases_of(m, *world, tg, f.params@, f.body@)]
                bases_of(m, *world, tg, f.params@, f.body@) && extends(
                    diags@,
                    before + walk_diags(*world, tg, unit_generic_names(f.generics@), m, false, f.body@, 0),
                );
            let w = walk_diags(*world, tg, unit_generic_names(f.generics@), m, false, f.body@, 0);
            lemma_extends_refl(before);
            app_step(before, before, w);
            ext_step(before, before + w, diags@);
            ext_step(old(diags)@, before, diags@);
            assert forall|j: int| 0 <= j < i + 1 implies body_reported(
                diags@,
                *world,
                world.fns@[#[trigger] keys@[j]@].generics@,
                world.fns@[keys@[j]@].params@,
                world.fns@[keys@[j]@].body@,
                false,
            ) by {
                if j < i {
                    lemma_body_reported_extends(
                        before,
                        diags@,
                        *world,
                        world.fns@[keys@[j]@].generics@,
                        world.fns@[keys@[j]@].params@,
                        world.fns@[keys@[j]@].body@,
                        false,
                    );
                }
            }
        }
        i = i + 1;
    }
    proof {
        assert(kv.take(keys@.len() as int) =~= kv);
        assert forall|name: Seq<char>| #[trigger] world.fns@.contains_key(name) implies body_reported(
            diags@,
            *world,
            world.fns@[name].generics@,
            world.fns@[name].params@,
            world.fns@[name].body@,
            false,
        ) by {
            assert(world.fns.key_seq().to_set().contains(name));
            let j = choose|j: int| 0 <= j < world.fns.key_seq().len() && world.fns.key_seq()[j] == name;
            assert(keys@[j]@ == name);
        }
    }
}

/// A subdesign's ports seen as the pin parameters of a fn.
pub open spec fn port_params(ports: Seq<Port>) -> Seq<FnParam> {
    ports.map_values(|p: Port| FnParam { name: p.name, ty: FnParamTy::Pin(p.span), span: p.span })
}

/// A subdesign body is checked as if it were a fn whose parameters are its
/// pin-shaped ports, with nested use sites admitted: an unused subdesign
/// cannot hide what an uncalled fn cannot.
pub fn check_subdesign_body(world: &World, _fq: &str, s: &SubdesignDef, diags: &mut Diagnostics)
    ensures
        exists|m: Map<Seq<char>, Base>|
            #![trigger bases_of(m, *world, trait_generic_names(s.generics@), port_params(s.ports@), s.body@)]
            bases_of(m, *world, trait_generic_names(s.generics@), port_params(s.ports@), s.body@)
                && extends(
                final(diags)@,
                old(diags)@ + walk_diags(
                    *world,
                    trait_generic_names(s.generics@),
                    unit_generic_names(s.generics@),
                    m,
                    true,
                    s.body@,
                    0,
                ),
            ),
        body_reported(final(diags)@, *world, s.generics@, port_params(s.ports@), s.body@, true),
        def_checked(*world, s.generics@, port_params(s.ports@), s.body@, true, old(diags)@, final(diags)@),
{
    let mut params: Vec<FnParam> = Vec::new();
    let mut i: usize = 0;
    while i < s.ports.len()
        invariant
            i <= s.ports@.len(),
            params@ == port_params(s.ports@.take(i as int)),
        decreases s.ports@.len() - i,
    {
        let p = &s.ports[i];
        params.push(FnParam { name: p.name.clone(), ty: FnParamTy::Pin(p.span), span: p.span });
        proof {
            assert(port_params(s.ports@.take(i + 1)) =~= port_params(s.ports@.take(i as int)).push(
                FnParam { name: p.name, ty: FnParamTy::Pin(p.span), span: p.span },
            ));
        }
        i = i + 1;
    }
    proof {
        assert(s.ports@.take(s.ports@.len() as int) =~= s.ports@);
    }
    check_one(world, &s.generics, &params, &s.body, true, diags);
}

/// Every design body gets the static validation a fn body gets, with
/// nested subdesign use sites admitted.
pub fn check_design_bodies(world: &World, diags: &mut Diagnostics)
    ensures
        extends(final(diags)@, old(diags)@),
        forall|name: Seq<char>| #[trigger]
            world.designs@.contains_key(name) ==> body_reported(
                final(diags)@,
                *world,
                Seq::empty(),
                Seq::empty(),
                world.designs@[name].body@,
                true,
            ),
        designs_checked(*world, sorted_listing(world.designs@.dom()), old(diags)@, final(diags)@),
{
    let keys = world.designs.keys();
    let ghost kv = keys@.map_values(|k: String| k@);
    proof {
        assert(kv =~= world.designs.key_seq());
        assert(is_sorted_listing(sorted_listing(world.designs@.dom()), world.designs@.dom()));
        lemma_sorted_listing_unique(kv, sorted_listing(world.designs@.dom()), world.designs@.dom());
        assert(kv.take(0) =~= Seq::<Seq<char>>::empty());
    }
    let no_generics: Vec<GenericParam> = Vec::new();
    let no_params: Vec<FnParam> = Vec::new();
    proof {
        lemma_extends_refl(diags@);
    }
    let mut i: usize = 0;
    while i < keys.len()
        invariant
            i <= keys@.len(),
            no_generics@ == Seq::<GenericParam>::empty(),
            no_params@ == Seq::<FnParam>::empty(),
            keys@.len() == world.designs.key_seq().len(),
            forall|j: int| 0 <= j < keys@.len() ==> #[trigger] keys@[j]@ == world.designs.key_seq()[j],
            world.designs.key_seq().to_set() == world.designs@.dom(),
            extends(diags@, old(diags)@),
            kv == keys@.map_values(|k: String| k@),
            designs_checked(*world, kv.take(i as int), old(diags)@, diags@),
            forall|j: int|
                0 <= j < i ==> body_reported(
                    diags@,
                    *world,
                    Seq::empty(),
                    Seq::empty(),
                    world.designs@[#[trigger] keys@[j]@].body@,
                    true,
                ),
        decreases keys@.len() - i,
    {
        let ghost before = diags@;
        proof {
            assert(world.designs.key_seq()[i as int] == keys@[i as int]@);
            assert(world.designs.key_seq().to_set().contains(keys@[i as int]@));
        }
        let d = world.designs.get(&keys[i]).unwrap();
        check_one(world, &no_generics, &no_params, &d.body, true, diags);
        proof {
            assert(kv.take(i + 1).drop_last() =~= kv.take(i as int));
            assert(kv.take(i + 1).last() == keys@[i as int]@);
            assert(def_checked(*world, Seq::empty(), Seq::empty(), d.body@, true, before, diags@));
            assert(designs_checked(*world, kv.take(i + 1), old(diags)@, diags@));
            let tg = trait_generic_names(no_generics@);
            let m = choose|m: Map<Seq<char>, Base>|
                #![trigger bases_of(m, *world, tg, no_params@, d.body@)]
                bases_of(m, *world, tg, no_params@, d.body@) && extends(
                    diags@,
                    before + walk_diags(*world, tg, unit_generic_names(no_generics@), m, true, d.body@, 0),
                );
            let w = walk_diags(*world, tg, unit_generic_names(no_generics@), m, true, d.body@, 0);
            lemma_extends_refl(before);
            app_step(before, before, w);
            ext_step(before, before + w, diags@);
            ext_step(old(diags)@, before, diags@);
            assert forall|j: int| 0 <= j < i + 1 implies body_reported(
                diags@,
                *world,
                Seq::empty(),
                Seq::empty(),
                world.designs@[#[trigger] keys@[j]@].body@,
                true,
            ) by {
                if j < i {
                    lemma_body_reported_extends(
                        before,
                        diags@,
                        *world,
                        Seq::empty(),
                        Seq::empty(),
                        world.designs@[keys@[j]@].body@,
                        true,
                    );
                }
            }
        }
        i = i + 1;
    }
    proof {
        assert(kv.take(keys@.len() as int) =~= kv);
        assert forall|name: Seq<char>| #[trigger] world.designs@.contains_key(name) implies body_reported(
            diags@,
            *world,
            Seq::empty(),
            Seq::empty(),
            world.designs@[name].body@,
            true,
        ) by {
            assert(world.designs.key_seq().to_set().contains(name));
            let j = choose|j: int| 0 <= j < world.designs.key_seq().len() && world.designs.key_seq()[j] == name;
            assert(keys@[j]@ == name);
        }
    }
}

/// The context of an activation whose names are known: no generic-name
/// policy, the given name kinds and array lengths, and every known name and
/// base already declared.
fn bound_context<'a>(
    world: &'a World,
    names: &StrMap<NameKind>,
    bases: &StrMap<()>,
    array_lens: &StrMap<i64>,
) -> (ctx: StaticCtx<'a>)
    ensures
        ctx.world == world,
        !ctx.check_names,
        ctx.generic_names@ == Map::<Seq<char>, ()>::empty(),
        ctx.env.names@ == names@,
        ctx.env.array_lens@ == array_lens@,
        ctx.env.unknown_arrays@ == Map::<Seq<char>, ()>::empty(),
        ctx.labels@ == Map::<Seq<char>, ()>::empty(),
        ctx.seen_locals@.dom() == names@.dom().union(bases@.dom()),
{
    let mut seen: StrMap<()> = bases.duplicate();
    let keys = names.keys();
    let mut i: usize = 0;
    while i < keys.len()
        invariant
            i <= keys@.len(),
            keys@.len() == names.key_seq().len(),
            forall|j: int| 0 <= j < keys@.len() ==> #[trigger] keys@[j]@ == names.key_seq()[j],
            seen@.dom() == bases@.dom().union(names.key_seq().take(i as int).to_set()),
        decreases keys@.len() - i,
    {
        seen.insert(keys[i].clone(), ());
        proof {
            let t = names.key_seq().take(i as int);
            assert(names.key_seq().take(i + 1) =~= t.push(keys@[i as int]@));
            t.lemma_push_to_set_commute(keys@[i as int]@);
            assert(seen@.dom() =~= bases@.dom().union(names.key_seq().take(i + 1).to_set()));
        }
        i = i + 1;
    }
    proof {
        assert(names.key_seq().take(keys@.len() as int) =~= names.key_seq());
        assert(seen@.dom() =~= names@.dom().union(bases@.dom()));
    }
    StaticCtx {
        world,
        check_names: false,
        generic_names: StrMap::new(),
        env: Env { names: names.duplicate(), array_lens: array_lens.duplicate(), unknown_arrays: StrMap::new() },
        labels: StrMap::new(),
        seen_locals: seen,
    }
}

/// `ctx` is where checking under an activation's known names starts: those
/// names with their values, the arrays of known length, no arrays of
/// unknown length, and as seen names the known names and `bases`; unknown
/// names in generic arguments are not reported.
pub open spec fn bound_start(
    ctx: StaticCtx,
    world: World,
    names: Map<Seq<char>, NameKind>,
    bases: Set<Seq<char>>,
    array_lens: Map<Seq<char>, i64>,
) -> bool {
    &&& *ctx.world == world
    &&& !ctx.check_names
    &&& ctx.generic_names@ == Map::<Seq<char>, ()>::empty()
    &&& ctx.env.names@ == names
    &&& ctx.env.array_lens@ == array_lens
    &&& ctx.env.unknown_arrays@ == Map::<Seq<char>, ()>::empty()
    &&& ctx.seen_locals@.dom() == names.dom().union(bases)
}

/// Statically validates a loop body once per loop entry under the
/// activation's known names: consts, binders, and the generics bound by
/// the call. Instances and use sites are not admitted in it (E1406).
pub fn check_loop_body_bound(
    world: &World,
    body: &Vec<Stmt>,
    names: &StrMap<NameKind>,
    bases: &StrMap<()>,
    array_lens: &StrMap<i64>,
    diags: &mut Diagnostics,
)
    ensures
        extends(final(diags)@, old(diags)@),
        forall|k: int|
            0 <= k < body@.len() && (#[trigger] loop_admission(body@[k])).is_some() ==> reported(
                final(diags)@,
                loop_admission(body@[k]).unwrap(),
            ),
        all_reported(
            final(diags)@,
            dup_diags(decls_of(body@), names@.dom().union(bases@.dom()), Map::empty(), 0),
        ),
        exists|c: StaticCtx|
            #[trigger] bound_start(c, *world, names@, bases@.dom(), array_lens@) && body_owed(
                c,
                body@,
                true,
                final(diags)@,
            ),
        exists|c: StaticCtx, lb: Set<Seq<char>>|
            #![trigger bound_start(c, *world, names@, bases@.dom(), array_lens@), body_exact(c, body@, true, Set::empty(), old(diags)@, lb, final(diags)@)]
            bound_start(c, *world, names@, bases@.dom(), array_lens@) && body_exact(
                c,
                body@,
                true,
                Set::empty(),
                old(diags)@,
                lb,
                final(diags)@,
            ),
{
    let mut ctx = bound_context(world, names, bases, array_lens);
    let ghost start = ctx;
    check_stmts(&mut ctx, body, true, diags);
    proof {
        assert(bound_start(start, *world, names@, bases@.dom(), array_lens@));
        assert(start.labels@.dom() =~= Set::<Seq<char>>::empty());
        assert(body_exact(start, body@, true, Set::empty(), old(diags)@, ctx.labels@.dom(), diags@));
    }
}

/// Statically validates a layout block under an activation's known names.
pub fn check_layout_bound(
    world: &World,
    block: &LayoutBlock,
    names: &StrMap<NameKind>,
    array_lens: &StrMap<i64>,
    diags: &mut Diagnostics,
)
    ensures
        extends(final(diags)@, old(diags)@),
        all_reported(
            final(diags)@,
            dup_diags(decls_of(const_stmts(block.consts@)), names@.dom(), Map::empty(), 0),
        ),
        forall|i: int|
            0 <= i < block.loops@.len() && (names@.contains_key((#[trigger] block.loops@[i]).label.name@)
                || decl_names(decls_of(const_stmts(block.consts@))).contains(block.loops@[i].label.name@))
                ==> reported(
                final(diags)@,
                err(Code::E201, block.loops@[i].label.span, duplicate_msg(block.loops@[i].label.name@)),
            ),
        exists|c: StaticCtx|
            #[trigger] bound_start(c, *world, names@, Set::empty(), array_lens@) && layout_block_owed(
                c,
                *block,
                final(diags)@,
            ),
        exists|c: StaticCtx, lb: Set<Seq<char>>|
            #![trigger bound_start(c, *world, names@, Set::empty(), array_lens@), block_exact(c, *block, Set::empty(), old(diags)@, lb, final(diags)@)]
            bound_start(c, *world, names@, Set::empty(), array_lens@) && block_exact(
                c,
                *block,
                Set::empty(),
                old(diags)@,
                lb,
                final(diags)@,
            ),
{
    let no_bases: StrMap<()> = StrMap::new();
    let mut ctx = bound_context(world, names, &no_bases, array_lens);
    proof {
        assert(ctx.seen_locals@.dom() =~= names@.dom());
    }
    let ghost start = ctx;
    check_layout_block(&mut ctx, block, diags);
    proof {
        assert(names@.dom().union(Set::<Seq<char>>::empty()) =~= names@.dom());
        assert(bound_start(start, *world, names@, Set::empty(), array_lens@));
        assert(start.labels@.dom() =~= Set::<Seq<char>>::empty());
        assert(block_exact(start, *block, Set::empty(), old(diags)@, ctx.labels@.dom(), diags@));
    }
}

} // verus!
