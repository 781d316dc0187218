//! The compile-time Int/Length expression evaluator.
//!
//! Two exact domains: `Int` is a signed 64-bit integer; `Length` is a count
//! of femto-millimetres (10^-15 mm) in `i128`. Nothing is ever rounded: a
//! division that is not exact is an error (E1402), and so is any overflow.
//! The environment says which names and arrays are visible and which of them
//! still have unknown values.
use crate::ast::{expr_text, op_sym, op_text, text_of, BinOp, Expr, Ident, Span, UnaryOp, UnitType, UnitValue, UnitView};
use crate::diag::{all_reported, err, reported, Code, DiagView, Diagnostic, Diagnostics};
use crate::strmap::{is_sorted_listing, lemma_sorted_listing_unique, sorted_listing, Duplicate, StrMap};
use crate::text::{int_text, mm_femto, mm_text, push_char, push_str};
use vstd::prelude::*;

verus! {

/// A fully evaluated expression value. A `Length` keeps its source spelling
/// when it is a literal or a plain forward of one; computed lengths carry
/// the canonical spelling.
#[derive(Debug)]
pub enum Value {
    Int(i64),
    Length(UnitValue),
}

/// The mathematical content of a value.
pub enum ValueView {
    Int(i64),
    Length(UnitView),
}

impl View for Value {
    type V = ValueView;

    open spec fn view(&self) -> ValueView {
        match self {
            Value::Int(n) => ValueView::Int(*n),
            Value::Length(u) => ValueView::Length(u@),
        }
    }
}

impl Clone for Value {
    fn clone(&self) -> (r: Self)
        ensures
            r == *self,
    {
        match self {
            Value::Int(n) => Value::Int(*n),
            Value::Length(u) => Value::Length(u.clone()),
        }
    }
}

/// The view of an optional value.
pub open spec fn opt_view(v: Option<Value>) -> Option<ValueView> {
    match v {
        Some(v) => Some(v@),
        None => None,
    }
}

/// The two value domains.
#[derive(Clone, Copy, Debug, PartialEq, Eq, Structural)]
pub enum Ty {
    Int,
    Length,
}

/// The domain of a value.
pub open spec fn ty_of(v: ValueView) -> Ty {
    match v {
        ValueView::Int(_) => Ty::Int,
        ValueView::Length(_) => Ty::Length,
    }
}

/// What a name means during evaluation and type checking.
#[derive(Debug)]
pub enum NameKind {
    /// A visible pin, instance, net, or non-expression generic: known to
    /// exist, but not a value.
    NonValue,
    Const(Value),
    Binder(i64),
    GenericInt(i64),
    GenericLength(UnitValue),
    /// A name of known type whose value is not known here.
    Unknown(Ty),
}

impl Clone for NameKind {
    fn clone(&self) -> (r: Self)
        ensures
            r == *self,
    {
        match self {
            NameKind::NonValue => NameKind::NonValue,
            NameKind::Const(v) => NameKind::Const(v.clone()),
            NameKind::Binder(i) => NameKind::Binder(*i),
            NameKind::GenericInt(i) => NameKind::GenericInt(*i),
            NameKind::GenericLength(u) => NameKind::GenericLength(u.clone()),
            NameKind::Unknown(t) => NameKind::Unknown(*t),
        }
    }
}

impl Duplicate for NameKind {
    fn duplicate(&self) -> (r: Self) {
        self.clone()
    }
}

/// The names and arrays visible to an expression. An array is either of
/// known length (`array_lens`) or of unknown length (`unknown_arrays`).
pub struct Env {
    pub names: StrMap<NameKind>,
    pub array_lens: StrMap<i64>,
    pub unknown_arrays: StrMap<()>,
}

impl Env {
    /// The environment with no names and no arrays.
    pub fn empty() -> (env: Env)
        ensures
            env.names@ == Map::<Seq<char>, NameKind>::empty(),
            env.array_lens@ == Map::<Seq<char>, i64>::empty(),
            env.unknown_arrays@ == Map::<Seq<char>, ()>::empty(),
    {
        Env { names: StrMap::new(), array_lens: StrMap::new(), unknown_arrays: StrMap::new() }
    }

    /// An exact copy of the environment.
    pub fn duplicate(&self) -> (env: Env)
        ensures
            env.names@ == self.names@,
            env.array_lens@ == self.array_lens@,
            env.unknown_arrays@ == self.unknown_arrays@,
    {
        Env {
            names: self.names.duplicate(),
            array_lens: self.array_lens.duplicate(),
            unknown_arrays: self.unknown_arrays.duplicate(),
        }
    }
}

// ---------------------------------------------------------------------------
// Messages
// ---------------------------------------------------------------------------

/// "an Int" / "a Length".
pub open spec fn ty_text(t: Ty) -> Seq<char> {
    match t {
        Ty::Int => "an Int"@,
        Ty::Length => "a Length"@,
    }
}

pub fn ty_name_ty(t: Ty) -> (s: &'static str)
    ensures
        s@ == ty_text(t),
{
    match t {
        Ty::Int => "an Int",
        Ty::Length => "a Length",
    }
}

pub fn ty_name(v: &Value) -> (s: &'static str)
    ensures
        s@ == ty_text(ty_of(v@)),
{
    match v {
        Value::Int(_) => "an Int",
        Value::Length(_) => "a Length",
    }
}

pub open spec fn overflow_msg(e: Expr) -> Seq<char> {
    "Int overflow in `"@ + text_of(e) + "`"@
}

pub open spec fn overflow_len_msg(e: Expr) -> Seq<char> {
    "Length overflow in `"@ + text_of(e) + "`"@
}

pub open spec fn div_zero_msg(e: Expr) -> Seq<char> {
    "division by zero in `"@ + text_of(e) + "`"@
}

pub open spec fn inexact_msg(e: Expr) -> Seq<char> {
    "`"@ + text_of(e) + "` is not exactly representable — Length division must be exact (no rounding)"@
}

pub open spec fn mismatch_msg(e: Expr, op: BinOp, l: Seq<char>, r: Seq<char>) -> Seq<char> {
    "`"@ + text_of(e) + "`: "@ + l + " "@ + op_text(op) + " "@ + r
        + " is not a supported operation — Int combines with Int; Length adds/subtracts Length, scales by Int, divides by Int"@
}

pub open spec fn not_length_msg(v: UnitView) -> Seq<char> {
    "`"@ + v.text + "` is a `"@ + v.unit.name_text() + "` — expected an Int or Length expression"@
}

pub open spec fn non_value_msg(name: Seq<char>) -> Seq<char> {
    "`"@ + name + "` is not a compile-time Int or Length value"@
}

pub open spec fn unknown_name_msg(name: Seq<char>) -> Seq<char> {
    "unknown name `"@ + name
        + "` in this expression — expected a const, a loop variable or an Int/Length generic parameter"@
}

pub open spec fn not_array_msg(name: Seq<char>) -> Seq<char> {
    "`"@ + name + "` is not an array — `.len` requires a visible array"@
}

pub open spec fn unknown_array_msg(name: Seq<char>) -> Seq<char> {
    "unknown array `"@ + name + "` — `.len` reads a visible array's declared length"@
}

fn wrap_expr(pre: &str, e: &Expr, post: &str) -> (s: String)
    ensures
        s@ == pre@ + text_of(*e) + post@,
{
    let mut s = String::new();
    push_str(&mut s, pre);
    let t = expr_text(e);
    push_str(&mut s, t.as_str());
    push_str(&mut s, post);
    assert(s@ =~= pre@ + text_of(*e) + post@);
    s
}

fn wrap_name(pre: &str, name: &String, post: &str) -> (s: String)
    ensures
        s@ == pre@ + name@ + post@,
{
    let mut s = String::new();
    push_str(&mut s, pre);
    push_str(&mut s, name.as_str());
    push_str(&mut s, post);
    assert(s@ =~= pre@ + name@ + post@);
    s
}

fn overflow(diags: &mut Diagnostics, span: Span, e: &Expr) -> (r: Option<Value>)
    ensures
        r.is_none(),
        final(diags)@ == old(diags)@.push(err(Code::E1402, span, overflow_msg(*e))),
{
    diags.push(Diagnostic::error(Code::E1402, span, wrap_expr("Int overflow in `", e, "`")));
    None
}

fn overflow_len(diags: &mut Diagnostics, span: Span, e: &Expr) -> (r: Option<Value>)
    ensures
        r.is_none(),
        final(diags)@ == old(diags)@.push(err(Code::E1402, span, overflow_len_msg(*e))),
{
    diags.push(Diagnostic::error(Code::E1402, span, wrap_expr("Length overflow in `", e, "`")));
    None
}

fn div_zero(diags: &mut Diagnostics, span: Span, e: &Expr) -> (r: Option<Value>)
    ensures
        r.is_none(),
        final(diags)@ == old(diags)@.push(err(Code::E1403, span, div_zero_msg(*e))),
{
    diags.push(Diagnostic::error(Code::E1403, span, wrap_expr("division by zero in `", e, "`")));
    None
}

fn mismatch_text(e: &Expr, op: BinOp, l: &str, r: &str) -> (s: String)
    ensures
        s@ == mismatch_msg(*e, op, l@, r@),
{
    let mut s = wrap_expr("`", e, "`: ");
    push_str(&mut s, l);
    push_str(&mut s, " ");
    push_char(&mut s, op_sym(op));
    push_str(&mut s, " ");
    push_str(&mut s, r);
    push_str(
        &mut s,
        " is not a supported operation — Int combines with Int; Length adds/subtracts Length, scales by Int, divides by Int",
    );
    assert(s@ =~= mismatch_msg(*e, op, l@, r@));
    s
}

fn kind_mismatch(diags: &mut Diagnostics, span: Span, e: &Expr, op: BinOp, l: &str, r: &str) -> (res:
    Option<Value>)
    ensures
        res.is_none(),
        final(diags)@ == old(diags)@.push(err(Code::E1401, span, mismatch_msg(*e, op, l@, r@))),
{
    diags.push(Diagnostic::error(Code::E1401, span, mismatch_text(e, op, l, r)));
    None
}

// ---------------------------------------------------------------------------
// Lengths
// ---------------------------------------------------------------------------

/// Canonical text of a length: exact millimetres followed by `mm`.
pub open spec fn length_text_of(femto: i128) -> Seq<char> {
    mm_text(femto as int) + seq!['m', 'm']
}

/// The canonical length value of `femto` femto-millimetres.
pub open spec fn length_view(femto: i128) -> UnitView {
    UnitView { unit: UnitType::Length, femto, text: length_text_of(femto) }
}

/// The canonical text `"<mm>mm"` of a length in femto-millimetres.
pub fn length_text(femto: i128) -> (s: String)
    ensures
        s@ == length_text_of(femto),
{
    let mut s = mm_femto(femto);
    push_char(&mut s, 'm');
    push_char(&mut s, 'm');
    assert(s@ =~= length_text_of(femto));
    s
}

/// A Length value with canonical text.
pub fn length_value(femto: i128) -> (v: UnitValue)
    ensures
        v@ == length_view(femto),
{
    UnitValue { unit: UnitType::Length, femto, text: length_text(femto) }
}

// ---------------------------------------------------------------------------
// Specification of evaluation
// ---------------------------------------------------------------------------

/// An Int result, or E1402 when it overflowed.
pub open spec fn int_outcome(r: Option<i64>, span: Span, e: Expr) -> (Option<ValueView>, Seq<DiagView>) {
    match r {
        Some(n) => (Some(ValueView::Int(n)), Seq::empty()),
        None => (None, seq![err(Code::E1402, span, overflow_msg(e))]),
    }
}

/// A Length result with canonical text, or E1402 when it overflowed.
pub open spec fn len_outcome(r: Option<i128>, span: Span, e: Expr) -> (Option<ValueView>, Seq<DiagView>) {
    match r {
        Some(f) => (Some(ValueView::Length(length_view(f))), Seq::empty()),
        None => (None, seq![err(Code::E1402, span, overflow_len_msg(e))]),
    }
}

/// The outcome of a binary operation on two values: the value, or the errors.
pub open spec fn binary_spec(op: BinOp, l: ValueView, r: ValueView, span: Span, e: Expr) -> (
    Option<ValueView>,
    Seq<DiagView>,
) {
    let ovl = (None::<ValueView>, seq![err(Code::E1402, span, overflow_len_msg(e))]);
    let dz = (None::<ValueView>, seq![err(Code::E1403, span, div_zero_msg(e))]);
    match (op, l, r) {
        (BinOp::Add, ValueView::Int(a), ValueView::Int(b)) => int_outcome(a.checked_add(b), span, e),
        (BinOp::Sub, ValueView::Int(a), ValueView::Int(b)) => int_outcome(a.checked_sub(b), span, e),
        (BinOp::Mul, ValueView::Int(a), ValueView::Int(b)) => int_outcome(a.checked_mul(b), span, e),
        (BinOp::Div, ValueView::Int(a), ValueView::Int(b)) => if b == 0 {
            dz
        } else {
            int_outcome(a.checked_div(b), span, e)
        },
        (BinOp::Rem, ValueView::Int(a), ValueView::Int(b)) => if b == 0 {
            dz
        } else {
            int_outcome(a.checked_rem(b), span, e)
        },
        (BinOp::Add, ValueView::Length(a), ValueView::Length(b)) => len_outcome(a.femto.checked_add(b.femto), span, e),
        (BinOp::Sub, ValueView::Length(a), ValueView::Length(b)) => len_outcome(a.femto.checked_sub(b.femto), span, e),
        (BinOp::Mul, ValueView::Int(a), ValueView::Length(b)) => len_outcome(b.femto.checked_mul(a as i128), span, e),
        (BinOp::Mul, ValueView::Length(b), ValueView::Int(a)) => len_outcome(b.femto.checked_mul(a as i128), span, e),
        (BinOp::Div, ValueView::Length(a), ValueView::Int(b)) => if b == 0 {
            dz
        } else {
            match a.femto.checked_rem(b as i128) {
                None => ovl,
                Some(rem) => if rem != 0 {
                    (None, seq![err(Code::E1402, span, inexact_msg(e))])
                } else {
                    len_outcome(a.femto.checked_div(b as i128), span, e)
                },
            }
        },
        _ => (
            None,
            seq![err(Code::E1401, span, mismatch_msg(e, op, ty_text(ty_of(l)), ty_text(ty_of(r))))],
        ),
    }
}

/// The value of a unit literal used as an expression: a Length, or E1401.
pub open spec fn length_literal_spec(v: UnitView, span: Span) -> (Option<UnitView>, Seq<DiagView>) {
    if v.unit == UnitType::Length {
        (Some(v), Seq::empty())
    } else {
        (None, seq![err(Code::E1401, span, not_length_msg(v))])
    }
}

/// `.len` of an array that is neither of known nor of unknown length.
pub open spec fn len_error(env: Env, id: Ident, span: Span) -> DiagView {
    if env.names@.contains_key(id.name@) {
        err(Code::E1401, span, not_array_msg(id.name@))
    } else {
        err(Code::E202, span, unknown_array_msg(id.name@))
    }
}

/// A name that is visible but has no value, or is not visible at all.
pub open spec fn name_error(env: Env, id: Ident) -> DiagView {
    if env.names@.contains_key(id.name@) {
        err(Code::E1401, id.span, non_value_msg(id.name@))
    } else {
        err(Code::E202, id.span, unknown_name_msg(id.name@))
    }
}

/// The outcome of evaluating `e` under `env`: its value, or `None`; and the
/// errors reported along the way. Evaluation stops at the first failing
/// operand; a name of unknown value yields `None` without an error.
pub open spec fn eval_spec(e: Expr, env: Env) -> (Option<ValueView>, Seq<DiagView>)
    decreases e,
{
    match e {
        Expr::Int(n, _) => (Some(ValueView::Int(n)), Seq::empty()),
        Expr::Length(v, span) => {
            let (r, d) = length_literal_spec(v@, span);
            (
                match r {
                    Some(u) => Some(ValueView::Length(u)),
                    None => None,
                },
                d,
            )
        },
        Expr::Paren(inner, _) => eval_spec(*inner, env),
        Expr::Name(id) => if env.names@.contains_key(id.name@) {
            match env.names@[id.name@] {
                NameKind::Const(v) => (Some(v@), Seq::empty()),
                NameKind::Binder(i) => (Some(ValueView::Int(i)), Seq::empty()),
                NameKind::GenericInt(i) => (Some(ValueView::Int(i)), Seq::empty()),
                NameKind::GenericLength(u) => {
                    let (r, d) = length_literal_spec(u@, id.span);
                    (
                        match r {
                            Some(u) => Some(ValueView::Length(u)),
                            None => None,
                        },
                        d,
                    )
                },
                NameKind::Unknown(_) => (None, Seq::empty()),
                NameKind::NonValue => (None, seq![name_error(env, id)]),
            }
        } else {
            (None, seq![name_error(env, id)])
        },
        Expr::Len(id, span) => if env.array_lens@.contains_key(id.name@) {
            (Some(ValueView::Int(env.array_lens@[id.name@])), Seq::empty())
        } else if env.unknown_arrays@.contains_key(id.name@) {
            (None, Seq::empty())
        } else {
            (None, seq![len_error(env, id, span)])
        },
        Expr::Unary { op, rhs, span } => {
            let (v, d) = eval_spec(*rhs, env);
            match v {
                None => (None, d),
                Some(v) => match (op, v) {
                    (UnaryOp::Plus, v) => (Some(v), d),
                    (UnaryOp::Neg, ValueView::Int(i)) => if i == i64::MIN {
                        (None, d.push(err(Code::E1402, span, overflow_msg(e))))
                    } else {
                        (Some(ValueView::Int((-i) as i64)), d)
                    },
                    (UnaryOp::Neg, ValueView::Length(u)) => if u.femto == i128::MIN {
                        (None, d.push(err(Code::E1402, span, overflow_len_msg(e))))
                    } else {
                        (Some(ValueView::Length(length_view((-u.femto) as i128))), d)
                    },
                },
            }
        },
        Expr::Binary { op, lhs, rhs, span } => {
            let (l, dl) = eval_spec(*lhs, env);
            match l {
                None => (None, dl),
                Some(lv) => {
                    let (r, dr) = eval_spec(*rhs, env);
                    match r {
                        None => (None, dl + dr),
                        Some(rv) => {
                            let (res, db) = binary_spec(op, lv, rv, span, e);
                            (res, dl + dr + db)
                        },
                    }
                },
            }
        },
    }
}

/// Whether `e` mentions only literals and names and arrays of known value.
pub open spec fn is_concrete(e: Expr, env: Env) -> bool
    decreases e,
{
    match e {
        Expr::Int(_, _) => true,
        Expr::Length(_, _) => true,
        Expr::Paren(inner, _) => is_concrete(*inner, env),
        Expr::Name(id) => env.names@.contains_key(id.name@) && match env.names@[id.name@] {
            NameKind::Const(_) => true,
            NameKind::Binder(_) => true,
            NameKind::GenericInt(_) => true,
            NameKind::GenericLength(_) => true,
            _ => false,
        },
        Expr::Len(id, _) => env.array_lens@.contains_key(id.name@),
        Expr::Unary { rhs, .. } => is_concrete(*rhs, env),
        Expr::Binary { lhs, rhs, .. } => is_concrete(*lhs, env) && is_concrete(*rhs, env),
    }
}

/// The value of `e` when it is concrete; `None` otherwise.
pub open spec fn eval_if_concrete_spec(e: Expr, env: Env) -> Option<ValueView> {
    if is_concrete(e, env) {
        eval_spec(e, env).0
    } else {
        None
    }
}

/// The result type of a binary operator on two operand types, if supported.
pub open spec fn binary_ty(op: BinOp, l: Ty, r: Ty) -> Option<Ty> {
    match (op, l, r) {
        (_, Ty::Int, Ty::Int) => Some(Ty::Int),
        (BinOp::Add, Ty::Length, Ty::Length) => Some(Ty::Length),
        (BinOp::Sub, Ty::Length, Ty::Length) => Some(Ty::Length),
        (BinOp::Mul, Ty::Int, Ty::Length) => Some(Ty::Length),
        (BinOp::Mul, Ty::Length, Ty::Int) => Some(Ty::Length),
        (BinOp::Div, Ty::Length, Ty::Int) => Some(Ty::Length),
        _ => None,
    }
}

/// The outcome of type checking `e` under `env`: its type, or `None`; and
/// the errors reported. Besides type errors, this reports the value errors
/// of every binary node whose operands are both concrete, of every concrete
/// negation, and of every division or remainder by a concrete zero.
pub open spec fn type_check_spec(e: Expr, env: Env) -> (Option<Ty>, Seq<DiagView>)
    decreases e,
{
    match e {
        Expr::Int(_, _) => (Some(Ty::Int), Seq::empty()),
        Expr::Length(v, span) => {
            let (r, d) = length_literal_spec(v@, span);
            (
                match r {
                    Some(_) => Some(Ty::Length),
                    None => None,
                },
                d,
            )
        },
        Expr::Paren(inner, _) => type_check_spec(*inner, env),
        Expr::Name(id) => if env.names@.contains_key(id.name@) {
            match env.names@[id.name@] {
                NameKind::Const(v) => (Some(ty_of(v@)), Seq::empty()),
                NameKind::Binder(_) => (Some(Ty::Int), Seq::empty()),
                NameKind::GenericInt(_) => (Some(Ty::Int), Seq::empty()),
                NameKind::GenericLength(u) => {
                    let (r, d) = length_literal_spec(u@, id.span);
                    (
                        match r {
                            Some(_) => Some(Ty::Length),
                            None => None,
                        },
                        d,
                    )
                },
                NameKind::Unknown(t) => (Some(t), Seq::empty()),
                NameKind::NonValue => (None, seq![name_error(env, id)]),
            }
        } else {
            (None, seq![name_error(env, id)])
        },
        Expr::Len(id, span) => if env.array_lens@.contains_key(id.name@)
            || env.unknown_arrays@.contains_key(id.name@) {
            (Some(Ty::Int), Seq::empty())
        } else {
            (None, seq![len_error(env, id, span)])
        },
        Expr::Unary { rhs, .. } => {
            let (t, d) = type_check_spec(*rhs, env);
            match t {
                None => (None, d),
                Some(t) => if is_concrete(e, env) {
                    (Some(t), d + eval_spec(e, env).1)
                } else {
                    (Some(t), d)
                },
            }
        },
        Expr::Binary { op, lhs, rhs, span } => {
            let (lt, dl) = type_check_spec(*lhs, env);
            match lt {
                None => (None, dl),
                Some(lt) => {
                    let (rt, dr) = type_check_spec(*rhs, env);
                    match rt {
                        None => (None, dl + dr),
                        Some(rt) => match binary_ty(op, lt, rt) {
                            None => (
                                None,
                                dl + dr + seq![
                                    err(
                                        Code::E1401,
                                        span,
                                        mismatch_msg(e, op, ty_text(lt), ty_text(rt)),
                                    ),
                                ],
                            ),
                            Some(t) => {
                                let extra = match (
                                    eval_if_concrete_spec(*lhs, env),
                                    eval_if_concrete_spec(*rhs, env),
                                ) {
                                    (Some(lv), Some(rv)) => binary_spec(op, lv, rv, span, e).1,
                                    (_, r) => if (op == BinOp::Div || op == BinOp::Rem) && r
                                        == Some(ValueView::Int(0)) {
                                        binary_spec(
                                            op,
                                            ValueView::Int(0),
                                            ValueView::Int(0),
                                            span,
                                            e,
                                        ).1
                                    } else {
                                        Seq::empty()
                                    },
                                };
                                (Some(t), dl + dr + extra)
                            },
                        },
                    }
                },
            }
        },
    }
}

// ---------------------------------------------------------------------------
// Evaluation
// ---------------------------------------------------------------------------

fn binary(op: BinOp, l: Value, r: Value, span: Span, e: &Expr, diags: &mut Diagnostics) -> (res:
    Option<Value>)
    ensures
        opt_view(res) == binary_spec(op, l@, r@, span, *e).0,
        final(diags)@ == old(diags)@ + binary_spec(op, l@, r@, span, *e).1,
{
    let ghost spec = binary_spec(op, l@, r@, span, *e);
    let res = match (op, l, r) {
        (BinOp::Add, Value::Int(a), Value::Int(b)) => match a.checked_add(b) {
            Some(n) => Some(Value::Int(n)),
            None => overflow(diags, span, e),
        },
        (BinOp::Sub, Value::Int(a), Value::Int(b)) => match a.checked_sub(b) {
            Some(n) => Some(Value::Int(n)),
            None => overflow(diags, span, e),
        },
        (BinOp::Mul, Value::Int(a), Value::Int(b)) => match a.checked_mul(b) {
            Some(n) => Some(Value::Int(n)),
            None => overflow(diags, span, e),
        },
        (BinOp::Div, Value::Int(_), Value::Int(0)) => div_zero(diags, span, e),
        (BinOp::Rem, Value::Int(_), Value::Int(0)) => div_zero(diags, span, e),
        // `i64::MIN / -1` overflows: reported as E1402.
        (BinOp::Div, Value::Int(a), Value::Int(b)) => match a.checked_div(b) {
            Some(n) => Some(Value::Int(n)),
            None => overflow(diags, span, e),
        },
        (BinOp::Rem, Value::Int(a), Value::Int(b)) => match a.checked_rem(b) {
            Some(n) => Some(Value::Int(n)),
            None => overflow(diags, span, e),
        },
        // Computed lengths carry the canonical spelling.
        (BinOp::Add, Value::Length(a), Value::Length(b)) => match a.femto.checked_add(b.femto) {
            Some(f) => Some(Value::Length(length_value(f))),
            None => overflow_len(diags, span, e),
        },
        (BinOp::Sub, Value::Length(a), Value::Length(b)) => match a.femto.checked_sub(b.femto) {
            Some(f) => Some(Value::Length(length_value(f))),
            None => overflow_len(diags, span, e),
        },
        (BinOp::Mul, Value::Int(a), Value::Length(b)) => match b.femto.checked_mul(a as i128) {
            Some(f) => Some(Value::Length(length_value(f))),
            None => overflow_len(diags, span, e),
        },
        (BinOp::Mul, Value::Length(b), Value::Int(a)) => match b.femto.checked_mul(a as i128) {
            Some(f) => Some(Value::Length(length_value(f))),
            None => overflow_len(diags, span, e),
        },
        (BinOp::Div, Value::Length(_), Value::Int(0)) => div_zero(diags, span, e),
        (BinOp::Div, Value::Length(a), Value::Int(b)) => {
            let b = b as i128;
            match a.femto.checked_rem(b) {
                None => overflow_len(diags, span, e),
                Some(remainder) => {
                    if remainder != 0 {
                        diags.push(
                            Diagnostic::error(
                                Code::E1402,
                                span,
                                wrap_expr(
                                    "`",
                                    e,
                                    "` is not exactly representable — Length division must be exact (no rounding)",
                                ),
                            ),
                        );
                        None
                    } else {
                        match a.femto.checked_div(b) {
                            Some(f) => Some(Value::Length(length_value(f))),
                            None => overflow_len(diags, span, e),
                        }
                    }
                },
            }
        },
        (op, lv, rv) => kind_mismatch(diags, span, e, op, ty_name(&lv), ty_name(&rv)),
    };
    proof {
        assert(final(diags)@ =~= old(diags)@ + spec.1);
    }
    res
}

/// The Length of a unit literal, or E1401 when its unit is not Length.
fn length_literal(v: &UnitValue, span: Span, diags: &mut Diagnostics) -> (r: Option<UnitValue>)
    ensures
        match r {
            Some(u) => Some(u@) == length_literal_spec(v@, span).0,
            None => length_literal_spec(v@, span).0.is_none(),
        },
        final(diags)@ == old(diags)@ + length_literal_spec(v@, span).1,
{
    if v.unit == UnitType::Length {
        assert(final(diags)@ =~= old(diags)@ + length_literal_spec(v@, span).1);
        Some(v.clone())
    } else {
        let mut s = String::new();
        push_str(&mut s, "`");
        push_str(&mut s, v.text.as_str());
        push_str(&mut s, "` is a `");
        push_str(&mut s, v.unit.unit_name());
        push_str(&mut s, "` — expected an Int or Length expression");
        assert(s@ =~= not_length_msg(v@));
        diags.push(Diagnostic::error(Code::E1401, span, s));
        assert(final(diags)@ =~= old(diags)@ + length_literal_spec(v@, span).1);
        None
    }
}

fn push_name_error(env: &Env, id: &Ident, diags: &mut Diagnostics)
    ensures
        final(diags)@ == old(diags)@.push(name_error(*env, *id)),
{
    if env.names.contains_key(&id.name) {
        diags.push(
            Diagnostic::error(
                Code::E1401,
                id.span,
                wrap_name("`", &id.name, "` is not a compile-time Int or Length value"),
            ),
        );
    } else {
        diags.push(
            Diagnostic::error(
                Code::E202,
                id.span,
                wrap_name(
                    "unknown name `",
                    &id.name,
                    "` in this expression — expected a const, a loop variable or an Int/Length generic parameter",
                ),
            ),
        );
    }
}

fn push_len_error(env: &Env, id: &Ident, span: Span, diags: &mut Diagnostics)
    ensures
        final(diags)@ == old(diags)@.push(len_error(*env, *id, span)),
{
    if env.names.contains_key(&id.name) {
        diags.push(
            Diagnostic::error(
                Code::E1401,
                span,
                wrap_name("`", &id.name, "` is not an array — `.len` requires a visible array"),
            ),
        );
    } else {
        diags.push(
            Diagnostic::error(
                Code::E202,
                span,
                wrap_name(
                    "unknown array `",
                    &id.name,
                    "` — `.len` reads a visible array's declared length",
                ),
            ),
        );
    }
}

/// Evaluates `e` under `env`, reporting every error into `diags`.
#[verifier::spinoff_prover]
pub fn eval(e: &Expr, env: &Env, diags: &mut Diagnostics) -> (r: Option<Value>)
    ensures
        opt_view(r) == eval_spec(*e, *env).0,
        final(diags)@ == old(diags)@ + eval_spec(*e, *env).1,
    decreases e,
{
    let ghost spec = eval_spec(*e, *env);
    let r = match e {
        Expr::Int(n, _) => Some(Value::Int(*n)),
        // A literal keeps its own spelling.
        Expr::Length(v, span) => match length_literal(v, *span, diags) {
            Some(u) => Some(Value::Length(u)),
            None => None,
        },
        Expr::Paren(inner, _) => eval(inner, env, diags),
        Expr::Name(id) => match env.names.get(&id.name) {
            Some(NameKind::Const(v)) => Some(v.clone()),
            Some(NameKind::Binder(i)) => Some(Value::Int(*i)),
            Some(NameKind::GenericInt(i)) => Some(Value::Int(*i)),
            // A forwarded Length keeps the spelling it was bound with.
            Some(NameKind::GenericLength(u)) => match length_literal(u, id.span, diags) {
                Some(u) => Some(Value::Length(u)),
                None => None,
            },
            // The caller decides: definition validation type-checks unknowns
            // instead of evaluating them.
            Some(NameKind::Unknown(_)) => None,
            Some(NameKind::NonValue) => {
                push_name_error(env, id, diags);
                None
            },
            None => {
                push_name_error(env, id, diags);
                None
            },
        },
        Expr::Len(id, span) => match env.array_lens.get(&id.name) {
            Some(n) => Some(Value::Int(*n)),
            None => {
                if env.unknown_arrays.contains_key(&id.name) {
                    None
                } else {
                    push_len_error(env, id, *span, diags);
                    None
                }
            },
        },
        Expr::Unary { op, rhs, span } => {
            match eval(rhs, env, diags) {
                None => None,
                Some(v) => match (op, v) {
                    (UnaryOp::Plus, v) => Some(v),
                    (UnaryOp::Neg, Value::Int(i)) => {
                        if i == i64::MIN {
                            overflow(diags, *span, e)
                        } else {
                            Some(Value::Int(-i))
                        }
                    },
                    (UnaryOp::Neg, Value::Length(f)) => {
                        if f.femto == i128::MIN {
                            overflow_len(diags, *span, e)
                        } else {
                            Some(Value::Length(length_value(-f.femto)))
                        }
                    },
                },
            }
        },
        Expr::Binary { op, lhs, rhs, span } => {
            match eval(lhs, env, diags) {
                None => None,
                Some(l) => match eval(rhs, env, diags) {
                    None => None,
                    Some(r) => binary(*op, l, r, *span, e, diags),
                },
            }
        },
    };
    proof {
        assert(final(diags)@ =~= old(diags)@ + spec.1);
    }
    r
}

/// Whether `e` is fully concrete: no unknown names and no arrays of unknown
/// length.
pub fn is_concrete_expr(e: &Expr, env: &Env) -> (b: bool)
    ensures
        b == is_concrete(*e, *env),
    decreases e,
{
    match e {
        Expr::Int(_, _) => true,
        Expr::Length(_, _) => true,
        Expr::Paren(inner, _) => is_concrete_expr(inner, env),
        Expr::Name(id) => match env.names.get(&id.name) {
            Some(NameKind::Const(_)) => true,
            Some(NameKind::Binder(_)) => true,
            Some(NameKind::GenericInt(_)) => true,
            Some(NameKind::GenericLength(_)) => true,
            _ => false,
        },
        Expr::Len(id, _) => env.array_lens.contains_key(&id.name),
        Expr::Unary { rhs, .. } => is_concrete_expr(rhs, env),
        Expr::Binary { lhs, rhs, .. } => is_concrete_expr(lhs, env) && is_concrete_expr(rhs, env),
    }
}

/// Evaluates `e` only when it is fully concrete; `None` otherwise. No
/// diagnostics are reported either way.
pub fn eval_if_concrete(e: &Expr, env: &Env) -> (r: Option<Value>)
    ensures
        opt_view(r) == eval_if_concrete_spec(*e, *env),
{
    if is_concrete_expr(e, env) {
        let mut scratch = Diagnostics::new();
        eval(e, env, &mut scratch)
    } else {
        None
    }
}

/// Type-checks `e` under `env`, where names may have unknown values. Mirrors
/// `binary` over `Ty`: `Int op Int` is an Int; `Length ± Length`,
/// `Int * Length`, `Length * Int` and `Length / Int` are Lengths; anything
/// else is E1401. Value errors (overflow, a known zero divisor) are reported
/// wherever the operands that decide them are concrete.
#[verifier::spinoff_prover]
#[verifier::rlimit(40)]
pub fn type_check(e: &Expr, env: &Env, diags: &mut Diagnostics) -> (r: Option<Ty>)
    ensures
        r == type_check_spec(*e, *env).0,
        final(diags)@ == old(diags)@ + type_check_spec(*e, *env).1,
    decreases e,
{
    let ghost spec = type_check_spec(*e, *env);
    let r = match e {
        Expr::Int(_, _) => Some(Ty::Int),
        Expr::Length(v, span) => match length_literal(v, *span, diags) {
            Some(_) => Some(Ty::Length),
            None => None,
        },
        Expr::Paren(inner, _) => type_check(inner, env, diags),
        Expr::Name(id) => match env.names.get(&id.name) {
            Some(NameKind::Const(v)) => Some(
                match v {
                    Value::Int(_) => Ty::Int,
                    Value::Length(_) => Ty::Length,
                },
            ),
            Some(NameKind::Binder(_)) => Some(Ty::Int),
            Some(NameKind::GenericInt(_)) => Some(Ty::Int),
            Some(NameKind::GenericLength(u)) => match length_literal(u, id.span, diags) {
                Some(_) => Some(Ty::Length),
                None => None,
            },
            Some(NameKind::Unknown(t)) => Some(*t),
            Some(NameKind::NonValue) => {
                push_name_error(env, id, diags);
                None
            },
            None => {
                push_name_error(env, id, diags);
                None
            },
        },
        // `.len` of an array of unknown length is still an Int.
        Expr::Len(id, span) => {
            if env.array_lens.contains_key(&id.name) || env.unknown_arrays.contains_key(&id.name) {
                Some(Ty::Int)
            } else {
                push_len_error(env, id, *span, diags);
                None
            }
        },
        Expr::Unary { rhs, .. } => {
            match type_check(rhs, env, diags) {
                None => None,
                Some(t) => {
                    // A concrete operand may still overflow under negation.
                    if is_concrete_expr(e, env) {
                        let _ = eval(e, env, diags);
                    }
                    Some(t)
                },
            }
        },
        Expr::Binary { op, lhs, rhs, span } => {
            match type_check(lhs, env, diags) {
                None => None,
                Some(lt) => match type_check(rhs, env, diags) {
                    None => None,
                    Some(rt) => {
                        let result = match (op, lt, rt) {
                            (_, Ty::Int, Ty::Int) => Some(Ty::Int),
                            (BinOp::Add, Ty::Length, Ty::Length) => Some(Ty::Length),
                            (BinOp::Sub, Ty::Length, Ty::Length) => Some(Ty::Length),
                            (BinOp::Mul, Ty::Int, Ty::Length) => Some(Ty::Length),
                            (BinOp::Mul, Ty::Length, Ty::Int) => Some(Ty::Length),
                            (BinOp::Div, Ty::Length, Ty::Int) => Some(Ty::Length),
                            _ => None,
                        };
                        match result {
                            None => {
                                diags.push(
                                    Diagnostic::error(
                                        Code::E1401,
                                        *span,
                                        mismatch_text(e, *op, ty_name_ty(lt), ty_name_ty(rt)),
                                    ),
                                );
                            },
                            Some(_) => {
                                // Value errors surface wherever both operands
                                // are concrete, and a concrete zero divisor
                                // surfaces even under an unknown dividend.
                                let lv = eval_if_concrete(lhs, env);
                                let rv = eval_if_concrete(rhs, env);
                                match (lv, rv) {
                                    (Some(lv), Some(rv)) => {
                                        let _ = binary(*op, lv, rv, *span, e, diags);
                                    },
                                    (_, rv) => {
                                        let zero_divisor = match rv {
                                            Some(Value::Int(0)) => true,
                                            _ => false,
                                        };
                                        if (*op == BinOp::Div || *op == BinOp::Rem) && zero_divisor {
                                            let _ = binary(
                                                *op,
                                                Value::Int(0),
                                                Value::Int(0),
                                                *span,
                                                e,
                                                diags,
                                            );
                                        }
                                    },
                                }
                            },
                        }
                        result
                    },
                },
            }
        },
    };
    proof {
        assert(final(diags)@ =~= old(diags)@ + spec.1);
    }
    r
}

// ---------------------------------------------------------------------------
// Laws of the evaluator
// ---------------------------------------------------------------------------

/// A binary operation that yields a value yields one of the type that the
/// type table gives for its operand types.
pub proof fn lemma_binary_type(op: BinOp, l: ValueView, r: ValueView, span: Span, e: Expr)
    requires
        binary_spec(op, l, r, span, e).0.is_some(),
    ensures
        binary_ty(op, ty_of(l), ty_of(r)) == Some(ty_of(binary_spec(op, l, r, span, e).0.unwrap())),
{
}

/// Negation is the additive inverse: wherever `x` has the Int value `i`
/// (other than the least Int), `-x` has the value that sums with `i` to
/// zero, without an error of its own.
pub proof fn law_negation_is_additive_inverse(x: Expr, env: Env, i: i64, span: Span)
    requires
        eval_spec(x, env).0 == Some(ValueView::Int(i)),
        i != i64::MIN,
    ensures
        match eval_spec(Expr::Unary { op: UnaryOp::Neg, rhs: Box::new(x), span }, env).0 {
            Some(ValueView::Int(j)) => i + j == 0,
            _ => false,
        },
        eval_spec(Expr::Unary { op: UnaryOp::Neg, rhs: Box::new(x), span }, env).1 == eval_spec(x, env).1,
{
}

/// Negating a Length (other than the least) gives the Length that sums
/// with it to zero, with canonical text.
pub proof fn law_length_negation_is_additive_inverse(x: Expr, env: Env, u: UnitView, span: Span)
    requires
        eval_spec(x, env).0 == Some(ValueView::Length(u)),
        u.femto != i128::MIN,
    ensures
        match eval_spec(Expr::Unary { op: UnaryOp::Neg, rhs: Box::new(x), span }, env).0 {
            Some(ValueView::Length(w)) => w.femto + u.femto == 0 && w == length_view(w.femto),
            _ => false,
        },
{
}

/// The least Int has no negation: `-x` then yields no value and reports
/// E1402.
pub proof fn law_negating_least_int_overflows(x: Expr, env: Env, span: Span)
    requires
        eval_spec(x, env).0 == Some(ValueView::Int(i64::MIN)),
    ensures
        eval_spec(Expr::Unary { op: UnaryOp::Neg, rhs: Box::new(x), span }, env).0.is_none(),
        ({
            let d = eval_spec(Expr::Unary { op: UnaryOp::Neg, rhs: Box::new(x), span }, env).1;
            d.len() > 0 && d.last().code == Code::E1402
        }),
{
}

/// Negating twice gives an Int back unchanged, and `+x` is `x`.
pub proof fn law_double_negation(x: Expr, env: Env, i: i64, s1: Span, s2: Span)
    requires
        eval_spec(x, env).0 == Some(ValueView::Int(i)),
        i != i64::MIN,
    ensures
        eval_spec(
            Expr::Unary {
                op: UnaryOp::Neg,
                rhs: Box::new(Expr::Unary { op: UnaryOp::Neg, rhs: Box::new(x), span: s1 }),
                span: s2,
            },
            env,
        ).0 == Some(ValueView::Int(i)),
        eval_spec(Expr::Unary { op: UnaryOp::Plus, rhs: Box::new(x), span: s1 }, env) == eval_spec(x, env),
{
    law_negation_is_additive_inverse(x, env, i, s1);
    let inner = Expr::Unary { op: UnaryOp::Neg, rhs: Box::new(x), span: s1 };
    let j = match eval_spec(inner, env).0 {
        Some(ValueView::Int(j)) => j,
        _ => 0,
    };
    law_negation_is_additive_inverse(inner, env, j, s2);
}

/// Subtracting is adding the negation: when `a` and `b` have Int values
/// (`b` not the least Int), `a - b` and `a + (-b)` have the same value.
pub proof fn law_subtraction_adds_negation(a: Expr, b: Expr, env: Env, x: i64, y: i64, s1: Span, s2: Span, s3: Span)
    requires
        eval_spec(a, env).0 == Some(ValueView::Int(x)),
        eval_spec(b, env).0 == Some(ValueView::Int(y)),
        y != i64::MIN,
    ensures
        eval_spec(Expr::Binary { op: BinOp::Sub, lhs: Box::new(a), rhs: Box::new(b), span: s1 }, env).0
            == eval_spec(
            Expr::Binary {
                op: BinOp::Add,
                lhs: Box::new(a),
                rhs: Box::new(Expr::Unary { op: UnaryOp::Neg, rhs: Box::new(b), span: s2 }),
                span: s3,
            },
            env,
        ).0,
{
    law_negation_is_additive_inverse(b, env, y, s2);
}

/// The type table is exactly the set of operand types for which some
/// operation can succeed: `binary_ty(op, lt, rt)` is `t` if and only if some
/// values of types `lt` and `rt` combine under `op` into a value of type
/// `t`. So a Length times a Length, or anything by a Length, never types.
pub proof fn law_type_table_is_exact(op: BinOp, lt: Ty, rt: Ty, t: Ty, span: Span, e: Expr)
    ensures
        binary_ty(op, lt, rt) == Some(t) <==> exists|l: ValueView, r: ValueView|
            ty_of(l) == lt && ty_of(r) == rt && (#[trigger] binary_spec(op, l, r, span, e)).0 is Some
                && ty_of(binary_spec(op, l, r, span, e).0->0) == t,
{
    let one = ValueView::Int(1);
    let zero_len = ValueView::Length(length_view(0));
    if binary_ty(op, lt, rt) == Some(t) {
        let l = if lt == Ty::Int { one } else { zero_len };
        let r = if rt == Ty::Int { one } else { zero_len };
        assert(binary_spec(op, l, r, span, e).0 is Some);
        assert(ty_of(binary_spec(op, l, r, span, e).0->0) == t);
    }
    if exists|l: ValueView, r: ValueView|
        ty_of(l) == lt && ty_of(r) == rt && (#[trigger] binary_spec(op, l, r, span, e)).0 is Some
            && ty_of(binary_spec(op, l, r, span, e).0->0) == t {
        let (l, r) = choose|l: ValueView, r: ValueView|
            ty_of(l) == lt && ty_of(r) == rt && (#[trigger] binary_spec(op, l, r, span, e)).0 is Some
                && ty_of(binary_spec(op, l, r, span, e).0->0) == t;
        lemma_binary_type(op, l, r, span, e);
    }
}

/// A binary node type-checks to `t` only where some values of its
/// operands' types combine into a value of type `t`: type checking admits
/// no operation that evaluation would always refuse.
pub proof fn law_binary_type_check_is_realizable(e: Expr, env: Env, t: Ty)
    requires
        e is Binary,
        type_check_spec(e, env).0 == Some(t),
    ensures
        ({
            let lhs = *(e->Binary_lhs);
            let rhs = *(e->Binary_rhs);
            exists|l: ValueView, r: ValueView|
                ty_of(l) == type_check_spec(lhs, env).0->0 && ty_of(r) == type_check_spec(rhs, env).0->0
                    && (#[trigger] binary_spec(e->Binary_op, l, r, e->Binary_span, e)).0 is Some
                    && ty_of(binary_spec(e->Binary_op, l, r, e->Binary_span, e).0->0) == t
        }),
{
    let lhs = *(e->Binary_lhs);
    let rhs = *(e->Binary_rhs);
    let lt = type_check_spec(lhs, env).0->0;
    let rt = type_check_spec(rhs, env).0->0;
    assert(binary_ty(e->Binary_op, lt, rt) == Some(t));
    law_type_table_is_exact(e->Binary_op, lt, rt, t, e->Binary_span, e);
}

/// Int division truncates toward zero and the remainder makes up the
/// difference: when `a / b` and `a % b` both have values `q` and `r`, then
/// `q * b + r == a`, `r` is smaller than `b` in size, and a nonzero `r` has
/// the sign of `a`.
pub proof fn law_int_division_truncates(a: i64, b: i64, s1: Span, e1: Expr, s2: Span, e2: Expr)
    requires
        binary_spec(BinOp::Div, ValueView::Int(a), ValueView::Int(b), s1, e1).0.is_some(),
        binary_spec(BinOp::Rem, ValueView::Int(a), ValueView::Int(b), s2, e2).0.is_some(),
    ensures
        match (
            binary_spec(BinOp::Div, ValueView::Int(a), ValueView::Int(b), s1, e1).0,
            binary_spec(BinOp::Rem, ValueView::Int(a), ValueView::Int(b), s2, e2).0,
        ) {
            (Some(ValueView::Int(q)), Some(ValueView::Int(r))) => {
                &&& q * b + r == a
                &&& (if r < 0 { -(r as int) } else { r as int }) < (if b < 0 { -(b as int) } else { b as int })
                &&& r == 0 || ((r < 0) == (a < 0))
            },
            _ => false,
        },
{
    let x = a as int;
    let d = b as int;
    assert(d != 0);
    if x == 0 {
    } else if x > 0 && d > 0 {
        assert(x == d * (x / d) + x % d && 0 <= x % d < d) by (nonlinear_arith)
            requires d > 0;
        assert((x / d) * d == d * (x / d)) by (nonlinear_arith);
    } else if x < 0 && d < 0 {
        let nx = x * -1;
        let nd = d * -1;
        assert(nx == nd * (nx / nd) + nx % nd && 0 <= nx % nd < nd) by (nonlinear_arith)
            requires nd > 0;
        assert((nx / nd) * d == -(nd * (nx / nd))) by (nonlinear_arith)
            requires nd == d * -1;
    } else if x < 0 {
        let nx = x * -1;
        assert(nx == d * (nx / d) + nx % d && 0 <= nx % d < d) by (nonlinear_arith)
            requires d > 0;
        assert(((nx / d) * -1) * d == -(d * (nx / d))) by (nonlinear_arith);
    } else {
        let nd = d * -1;
        assert(x == nd * (x / nd) + x % nd && 0 <= x % nd < nd) by (nonlinear_arith)
            requires nd > 0;
        assert(((x / nd) * -1) * d == nd * (x / nd)) by (nonlinear_arith)
            requires nd == d * -1;
    }
}

/// Length arithmetic is exact: a sum, difference or scaled Length that has
/// a value is the exact sum, difference or product of the operands, in
/// canonical form.
pub proof fn law_length_arith_exact(op: BinOp, l: ValueView, r: ValueView, span: Span, e: Expr)
    requires
        binary_spec(op, l, r, span, e).0.is_some(),
        ty_of(l) == Ty::Length || ty_of(r) == Ty::Length,
        op != BinOp::Div,
    ensures
        match (binary_spec(op, l, r, span, e).0, l, r) {
            (Some(ValueView::Length(w)), ValueView::Length(a), ValueView::Length(b)) => w == length_view(w.femto) && (
            if op == BinOp::Add {
                w.femto == a.femto + b.femto
            } else {
                op == BinOp::Sub && w.femto == a.femto - b.femto
            }),
            (Some(ValueView::Length(w)), ValueView::Int(k), ValueView::Length(b)) => op == BinOp::Mul
                && w.femto == k * b.femto && w == length_view(w.femto),
            (Some(ValueView::Length(w)), ValueView::Length(a), ValueView::Int(k)) => op == BinOp::Mul
                && w.femto == a.femto * k && w == length_view(w.femto),
            _ => false,
        },
{
    match (op, l, r) {
        (BinOp::Mul, ValueView::Int(k), ValueView::Length(b)) => {
            assert((b.femto as int) * (k as int) == (k as int) * (b.femto as int)) by (nonlinear_arith);
        },
        _ => {},
    }
}

/// Type soundness: whenever evaluation yields a value, type checking in the
/// same environment yields that value's type.
pub proof fn lemma_eval_type_sound(e: Expr, env: Env)
    requires
        eval_spec(e, env).0.is_some(),
    ensures
        type_check_spec(e, env).0 == Some(ty_of(eval_spec(e, env).0.unwrap())),
    decreases e,
{
    match e {
        Expr::Paren(inner, _) => {
            lemma_eval_type_sound(*inner, env);
        },
        Expr::Unary { rhs, .. } => {
            lemma_eval_type_sound(*rhs, env);
        },
        Expr::Binary { op, lhs, rhs, span } => {
            lemma_eval_type_sound(*lhs, env);
            lemma_eval_type_sound(*rhs, env);
            let lv = eval_spec(*lhs, env).0.unwrap();
            let rv = eval_spec(*rhs, env).0.unwrap();
            lemma_binary_type(op, lv, rv, span, e);
        },
        _ => {},
    }
}

/// A binary operation reports an error exactly when it yields no value.
proof fn lemma_binary_silent(op: BinOp, l: ValueView, r: ValueView, span: Span, e: Expr)
    ensures
        binary_spec(op, l, r, span, e).0.is_some() <==> binary_spec(op, l, r, span, e).1.len() == 0,
{
}

/// A value comes without any error, and only from a concrete expression.
pub proof fn lemma_value_is_silent(e: Expr, env: Env)
    requires
        eval_spec(e, env).0.is_some(),
    ensures
        eval_spec(e, env).1 == Seq::<DiagView>::empty(),
        is_concrete(e, env),
    decreases e,
{
    match e {
        Expr::Paren(inner, _) => {
            lemma_value_is_silent(*inner, env);
        },
        Expr::Unary { rhs, .. } => {
            lemma_value_is_silent(*rhs, env);
        },
        Expr::Binary { op, lhs, rhs, span } => {
            lemma_value_is_silent(*lhs, env);
            lemma_value_is_silent(*rhs, env);
            let lv = eval_spec(*lhs, env).0.unwrap();
            let rv = eval_spec(*rhs, env).0.unwrap();
            lemma_binary_silent(op, lv, rv, span, e);
            assert(eval_spec(e, env).1 =~= Seq::<DiagView>::empty());
        },
        _ => {},
    }
}

/// Evaluation yields no value without an error only where the expression
/// mentions a name or an array whose value is unknown.
pub proof fn lemma_silent_none_is_unknown(e: Expr, env: Env)
    requires
        eval_spec(e, env).0.is_none(),
        eval_spec(e, env).1.len() == 0,
    ensures
        !is_concrete(e, env),
    decreases e,
{
    match e {
        Expr::Paren(inner, _) => {
            lemma_silent_none_is_unknown(*inner, env);
        },
        Expr::Unary { op, rhs, .. } => {
            if eval_spec(*rhs, env).0.is_none() {
                lemma_silent_none_is_unknown(*rhs, env);
            }
        },
        Expr::Binary { op, lhs, rhs, span } => {
            if eval_spec(*lhs, env).0.is_none() {
                lemma_silent_none_is_unknown(*lhs, env);
            } else if eval_spec(*rhs, env).0.is_none() {
                let dl = eval_spec(*lhs, env).1;
                let dr = eval_spec(*rhs, env).1;
                assert((dl + dr).len() == dl.len() + dr.len());
                lemma_silent_none_is_unknown(*rhs, env);
            } else {
                let lv = eval_spec(*lhs, env).0.unwrap();
                let rv = eval_spec(*rhs, env).0.unwrap();
                lemma_binary_silent(op, lv, rv, span, e);
            }
        },
        _ => {},
    }
}

/// Type checking reports nothing where evaluation yields a value.
pub proof fn lemma_type_check_silent_on_value(e: Expr, env: Env)
    requires
        eval_spec(e, env).0.is_some(),
    ensures
        type_check_spec(e, env).1 == Seq::<DiagView>::empty(),
    decreases e,
{
    lemma_eval_type_sound(e, env);
    lemma_value_is_silent(e, env);
    match e {
        Expr::Paren(inner, _) => {
            lemma_type_check_silent_on_value(*inner, env);
        },
        Expr::Unary { rhs, .. } => {
            lemma_type_check_silent_on_value(*rhs, env);
            assert(type_check_spec(e, env).1 =~= Seq::<DiagView>::empty());
        },
        Expr::Binary { op, lhs, rhs, span } => {
            lemma_type_check_silent_on_value(*lhs, env);
            lemma_type_check_silent_on_value(*rhs, env);
            lemma_eval_type_sound(*lhs, env);
            lemma_eval_type_sound(*rhs, env);
            lemma_value_is_silent(*lhs, env);
            lemma_value_is_silent(*rhs, env);
            let lv = eval_spec(*lhs, env).0.unwrap();
            let rv = eval_spec(*rhs, env).0.unwrap();
            lemma_binary_type(op, lv, rv, span, e);
            lemma_binary_silent(op, lv, rv, span, e);
            assert(type_check_spec(e, env).1 =~= Seq::<DiagView>::empty());
        },
        _ => {},
    }
}

/// Scaling a Length by an Int gives the same outcome in either order.
pub proof fn lemma_scale_commutes(k: i64, x: UnitView, span: Span, e: Expr)
    ensures
        binary_spec(BinOp::Mul, ValueView::Int(k), ValueView::Length(x), span, e) == binary_spec(
            BinOp::Mul,
            ValueView::Length(x),
            ValueView::Int(k),
            span,
            e,
        ),
{
}

/// Scaling a Length by a nonzero Int and dividing by the same Int gives the
/// Length back, in canonical spelling, with no error.
pub proof fn lemma_scale_round_trip(k: i64, x: UnitView, span: Span, e1: Expr, e2: Expr)
    requires
        k != 0,
        binary_spec(BinOp::Mul, ValueView::Length(x), ValueView::Int(k), span, e1).0.is_some(),
    ensures
        binary_spec(
            BinOp::Div,
            binary_spec(BinOp::Mul, ValueView::Length(x), ValueView::Int(k), span, e1).0.unwrap(),
            ValueView::Int(k),
            span,
            e2,
        ) == (Some(ValueView::Length(length_view(x.femto))), Seq::<DiagView>::empty()),
{
    let a = x.femto as int;
    let d = k as int;
    let p = a * d;
    assert(i128::MIN <= p <= i128::MAX);
    let pf = p as i128;
    assert(binary_spec(BinOp::Mul, ValueView::Length(x), ValueView::Int(k), span, e1).0.unwrap()
        == ValueView::Length(length_view(pf)));
    let aa = if a < 0 { -a } else { a };
    let dd = if d < 0 { -d } else { d };
    assert(aa >= 0 && dd > 0);
    assert(aa * dd == if p < 0 { -p } else { p }) by (nonlinear_arith)
        requires
            aa == if a < 0 { -a } else { a },
            dd == if d < 0 { -d } else { d },
            p == a * d,
    ;
    vstd::arithmetic::div_mod::lemma_mod_multiples_basic(aa, dd);
    vstd::arithmetic::div_mod::lemma_div_by_multiple(aa, dd);
    if p == i128::MIN && d == -1 {
        assert(a == -p) by (nonlinear_arith)
            requires
                p == a * d,
                d == -1,
        ;
        assert(false);
    }
    assert(pf.checked_rem(k as i128) == Some(0i128));
    if a == 0 {
        assert(p == 0) by (nonlinear_arith)
            requires
                p == a * d,
                a == 0,
        ;
    } else if a > 0 && d > 0 {
        assert(p / d == a);
    } else if a < 0 && d < 0 {
        assert(p > 0) by (nonlinear_arith)
            requires
                p == a * d,
                a < 0,
                d < 0,
        ;
        assert(p == aa * dd);
        assert(d * -1 == dd);
        assert(p / dd == aa);
    } else if a < 0 {
        assert(p < 0) by (nonlinear_arith)
            requires
                p == a * d,
                a < 0,
                d > 0,
        ;
        assert(p * -1 == aa * dd);
        assert(d == dd);
        assert((aa * dd) / dd == aa);
    } else {
        assert(p < 0) by (nonlinear_arith)
            requires
                p == a * d,
                a > 0,
                d < 0,
        ;
        assert(p * -1 == aa * dd);
        assert(d * -1 == dd);
        assert((aa * dd) / dd == aa);
    }
    assert(pf.checked_div(k as i128) == Some(x.femto));
}

/// Int arithmetic is exact: a sum, difference or product that yields a
/// value yields the mathematical one (no wrapping).
pub proof fn lemma_int_arith_exact(op: BinOp, a: i64, b: i64, span: Span, e: Expr)
    requires
        op == BinOp::Add || op == BinOp::Sub || op == BinOp::Mul,
        binary_spec(op, ValueView::Int(a), ValueView::Int(b), span, e).0.is_some(),
    ensures
        binary_spec(op, ValueView::Int(a), ValueView::Int(b), span, e).0 == Some(
            ValueView::Int(
                (if op == BinOp::Add {
                    a + b
                } else if op == BinOp::Sub {
                    a - b
                } else {
                    a * b
                }) as i64,
            ),
        ),
{
}

/// Length division is exact: when `a / b` yields a Length, multiplying it
/// back by `b` gives exactly `a`; otherwise nothing was rounded away silently.
pub proof fn lemma_length_division_exact(a: UnitView, b: i64, span: Span, e: Expr)
    requires
        binary_spec(BinOp::Div, ValueView::Length(a), ValueView::Int(b), span, e).0.is_some(),
    ensures
        ({
            let q = binary_spec(BinOp::Div, ValueView::Length(a), ValueView::Int(b), span, e).0.unwrap();
            q matches ValueView::Length(u) && u.femto * b == a.femto && u.unit == UnitType::Length
        }),
{
    let x = a.femto as int;
    let d = b as int;
    assert(d != 0);
    let rem = a.femto.checked_rem(b as i128).unwrap();
    let quo = a.femto.checked_div(b as i128).unwrap();
    assert(rem == 0);
    let q = quo as int;
    if x > 0 && d > 0 {
        assert(q * d == x) by (nonlinear_arith)
            requires
                d > 0,
                x % d == 0,
                q == x / d,
        ;
    } else if x < 0 && d < 0 {
        assert(q * d == x) by (nonlinear_arith)
            requires
                d < 0,
                (-x) % (-d) == 0,
                q == (-x) / (-d),
        ;
    } else if x < 0 && d > 0 {
        assert(q * d == x) by (nonlinear_arith)
            requires
                d > 0,
                (-x) % d == 0,
                q == -((-x) / d),
        ;
    } else if x > 0 && d < 0 {
        assert(q * d == x) by (nonlinear_arith)
            requires
                d < 0,
                x % (-d) == 0,
                q == -(x / (-d)),
        ;
    } else {
        assert(x == 0);
        assert(q == 0);
        assert(q * d == x) by (nonlinear_arith)
            requires
                q == 0,
                x == 0,
        ;
    }
    let r = binary_spec(BinOp::Div, ValueView::Length(a), ValueView::Int(b), span, e);
    assert(r.0 == Some(ValueView::Length(length_view(quo))));
}

// ---------------------------------------------------------------------------
// Local dependency resolution
// ---------------------------------------------------------------------------

/// One lexical dependency: a typed const, or an array's Int length
/// (`ty: None`).
#[derive(Debug)]
pub struct LocalExpr {
    pub name: Ident,
    pub value: Expr,
    pub ty: Option<Ty>,
    pub span: Span,
}

impl Clone for LocalExpr {
    fn clone(&self) -> (r: Self)
        ensures
            r == *self,
    {
        LocalExpr { name: self.name.clone(), value: self.value.clone(), ty: self.ty, span: self.span }
    }
}

/// Whether a failed subexpression lies inside `span`: such a failure
/// prevents evaluating the enclosing expression.
pub open spec fn failed_within(span: Span, failed: Seq<Span>) -> bool {
    exists|i: int|
        0 <= i < failed.len() && (#[trigger] failed[i]).file == span.file && span.start
            <= failed[i].start && failed[i].end <= span.end
}

/// A failed subexpression prevents evaluating its enclosing expression.
/// These sites belong to one definition or activation.
pub fn expression_failed(span: Span, failed: &Vec<Span>) -> (b: bool)
    ensures
        b == failed_within(span, failed@),
{
    let mut i: usize = 0;
    while i < failed.len()
        invariant
            i <= failed@.len(),
            forall|j: int|
                0 <= j < i ==> !((#[trigger] failed@[j]).file == span.file && span.start
                    <= failed@[j].start && failed@[j].end <= span.end),
        decreases failed@.len() - i,
    {
        let bad = failed[i];
        if bad.file == span.file && span.start <= bad.start && bad.end <= span.end {
            return true;
        }
        i = i + 1;
    }
    false
}

/// Whether a code marks an invariant expression failure (undefined names
/// included; dynamic index bounds are checked per activation elsewhere).
pub open spec fn is_expression_failure(c: Code) -> bool {
    c == Code::E1401 || c == Code::E1402 || c == Code::E1403 || c == Code::E1407 || c == Code::E211
        || c == Code::E202
}

/// The spans of the expression failures among `ds`, in order.
pub open spec fn failure_spans(ds: Seq<DiagView>) -> Seq<Span>
    decreases ds.len(),
{
    if ds.len() == 0 {
        Seq::empty()
    } else if is_expression_failure(ds.last().code) {
        failure_spans(ds.drop_last()).push(ds.last().span)
    } else {
        failure_spans(ds.drop_last())
    }
}

/// The spans of every reported expression failure.
pub fn expression_failures(diags: &Diagnostics) -> (r: Vec<Span>)
    ensures
        r@ == failure_spans(diags@),
{
    let mut r: Vec<Span> = Vec::new();
    let mut i: usize = 0;
    while i < diags.len()
        invariant
            i <= diags@.len(),
            r@ == failure_spans(diags@.take(i as int)),
        decreases diags@.len() - i,
    {
        let d = diags.get(i);
        assert(diags@.take(i + 1).drop_last() =~= diags@.take(i as int));
        let c = d.code;
        if c == Code::E1401 || c == Code::E1402 || c == Code::E1403 || c == Code::E1407 || c
            == Code::E211 || c == Code::E202 {
            r.push(d.span);
        }
        i = i + 1;
    }
    assert(diags@.take(diags@.len() as int) =~= diags@);
    r
}

/// The names an expression reads, in source order.
pub open spec fn refs_of(e: Expr) -> Seq<Seq<char>>
    decreases e,
{
    match e {
        Expr::Name(id) => seq![id.name@],
        Expr::Len(id, _) => seq![id.name@],
        Expr::Unary { rhs, .. } => refs_of(*rhs),
        Expr::Paren(inner, _) => refs_of(*inner),
        Expr::Binary { lhs, rhs, .. } => refs_of(*lhs) + refs_of(*rhs),
        _ => Seq::empty(),
    }
}

fn references(e: &Expr, out: &mut Vec<String>)
    ensures
        final(out)@.map_values(|s: String| s@) == old(out)@.map_values(|s: String| s@) + refs_of(*e),
    decreases e,
{
    match e {
        Expr::Name(id) => {
            out.push(id.name.clone());
        },
        Expr::Len(id, _) => {
            out.push(id.name.clone());
        },
        Expr::Unary { rhs, .. } => references(rhs, out),
        Expr::Paren(inner, _) => references(inner, out),
        Expr::Binary { lhs, rhs, .. } => {
            references(lhs, out);
            references(rhs, out);
        },
        _ => {},
    }
    assert(final(out)@.map_values(|s: String| s@) =~= old(out)@.map_values(|s: String| s@)
        + refs_of(*e));
}

/// What resolution guarantees of one pending local `n`: a const is visible
/// with its declared type, as an unknown or as a value of that type; an
/// array has either a known length of at least 1 or an unknown length.
pub open spec fn local_claim(l: LocalExpr, n: Seq<char>, env: Env) -> bool {
    match l.ty {
        Some(t) => env.names@.contains_key(n) && (env.names@[n] == NameKind::Unknown(t) || (
        env.names@[n] matches NameKind::Const(v) && ty_of(v@) == t)),
        None => (env.array_lens@.contains_key(n) != env.unknown_arrays@.contains_key(n)) && (
        env.array_lens@.contains_key(n) ==> env.array_lens@[n] >= 1),
    }
}

pub open spec fn local_claims(pending: Map<Seq<char>, LocalExpr>, env: Env) -> bool {
    forall|n: Seq<char>| #[trigger] pending.contains_key(n) ==> local_claim(pending[n], n, env)
}

/// `a` and `b` give the name `k` the same meaning: the same kind and
/// value, and the same array length or unknown-length array.
pub open spec fn same_meaning(a: Env, b: Env, k: Seq<char>) -> bool {
    &&& a.names@.contains_key(k) == b.names@.contains_key(k)
    &&& a.names@.contains_key(k) ==> a.names@[k] == b.names@[k]
    &&& a.array_lens@.contains_key(k) == b.array_lens@.contains_key(k)
    &&& a.array_lens@.contains_key(k) ==> a.array_lens@[k] == b.array_lens@[k]
    &&& a.unknown_arrays@.contains_key(k) == b.unknown_arrays@.contains_key(k)
}

/// Evaluation reads the environment only at the names an expression
/// mentions.
pub proof fn lemma_eval_reads_only_refs(e: Expr, a: Env, b: Env)
    requires
        forall|k: Seq<char>| refs_of(e).contains(k) ==> same_meaning(a, b, k),
    ensures
        is_concrete(e, a) == is_concrete(e, b),
        eval_spec(e, a) == eval_spec(e, b),
        eval_if_concrete_spec(e, a) == eval_if_concrete_spec(e, b),
        type_check_spec(e, a) == type_check_spec(e, b),
    decreases e,
{
    match e {
        Expr::Name(id) => {
            assert(refs_of(e)[0] == id.name@);
            assert(same_meaning(a, b, id.name@));
        },
        Expr::Len(id, _) => {
            assert(refs_of(e)[0] == id.name@);
            assert(same_meaning(a, b, id.name@));
        },
        Expr::Paren(inner, _) => {
            lemma_eval_reads_only_refs(*inner, a, b);
        },
        Expr::Unary { rhs, .. } => {
            lemma_eval_reads_only_refs(*rhs, a, b);
        },
        Expr::Binary { lhs, rhs, .. } => {
            let l = refs_of(*lhs);
            let r = refs_of(*rhs);
            assert forall|k: Seq<char>| l.contains(k) implies same_meaning(a, b, k) by {
                let j = choose|j: int| 0 <= j < l.len() && l[j] == k;
                assert((l + r)[j] == k);
            }
            assert forall|k: Seq<char>| r.contains(k) implies same_meaning(a, b, k) by {
                let j = choose|j: int| 0 <= j < r.len() && r[j] == k;
                assert((l + r)[l.len() + j] == k);
            }
            lemma_eval_reads_only_refs(*lhs, a, b);
            lemma_eval_reads_only_refs(*rhs, a, b);
        },
        _ => {},
    }
}

/// A resolved local holds the value of its expression: a const that holds
/// a value holds the concrete value of its expression, and an array with a
/// known length has the concrete value of its length expression.
pub open spec fn value_claim(l: LocalExpr, n: Seq<char>, env: Env) -> bool {
    match l.ty {
        Some(_) => env.names@.contains_key(n) ==> match env.names@[n] {
            NameKind::Const(v) => eval_if_concrete_spec(l.value, env) == Some(v@),
            _ => true,
        },
        None => env.array_lens@.contains_key(n) ==> eval_if_concrete_spec(l.value, env) == Some(
            ValueView::Int(env.array_lens@[n]),
        ),
    }
}

/// Whether local `l` named `n` holds a value in `env`.
pub open spec fn holds_value(l: LocalExpr, n: Seq<char>, env: Env) -> bool {
    match l.ty {
        Some(_) => env.names@.contains_key(n) && env.names@[n] is Const,
        None => env.array_lens@.contains_key(n),
    }
}

/// The type a local must have: its declared type, or Int for an array
/// length.
pub open spec fn want_ty(l: LocalExpr) -> Ty {
    match l.ty {
        Some(t) => t,
        None => Ty::Int,
    }
}

/// E1401's message for local `n`, whose expression has type `actual`.
pub open spec fn kind_msg(l: LocalExpr, n: Seq<char>, actual: Ty) -> Seq<char> {
    (if l.ty is Some {
        "const"@
    } else {
        "array length"@
    }) + " `"@ + n + "` must be "@ + ty_text(want_ty(l)) + ", but `"@ + text_of(l.value)
        + "` is "@ + ty_text(actual)
}

/// E211's message for an array length `i` below 1.
pub open spec fn short_len_msg(i: int) -> Seq<char> {
    "array length `"@ + int_text(i) + "` must be 1 or more"@
}

/// What resolution makes of local `n`, declared as `l`, in `env` with the
/// errors `ds`: a local whose expression holds a failed site stays unknown;
/// otherwise the errors of type-checking its expression are reported; one
/// that does not type-check stays unknown; one of the wrong type is E1401
/// and stays unknown; one that is not concrete stays unknown; a const that
/// is concrete holds its value; an array length below 1 is E211 and stays
/// unknown, and one of at least 1 is recorded.
pub open spec fn outcome(l: LocalExpr, n: Seq<char>, env: Env, failed: Seq<Span>, ds: Seq<DiagView>) -> bool {
    if failed_within(l.value.span_of(), failed) {
        !holds_value(l, n, env)
    } else {
        &&& all_reported(ds, type_check_spec(l.value, env).1)
        &&& match type_check_spec(l.value, env).0 {
            None => !holds_value(l, n, env),
            Some(t) => if t != want_ty(l) {
                reported(ds, err(Code::E1401, l.value.span_of(), kind_msg(l, n, t))) && !holds_value(
                    l,
                    n,
                    env,
                )
            } else {
                match eval_if_concrete_spec(l.value, env) {
                    None => !holds_value(l, n, env),
                    Some(v) => match l.ty {
                        Some(_) => env.names@.contains_key(n) && (env.names@[n] matches NameKind::Const(
                            c,
                        ) && c@ == v),
                        None => match v {
                            ValueView::Int(i) => if i < 1 {
                                reported(ds, err(Code::E211, l.value.span_of(), short_len_msg(i as int)))
                                    && !holds_value(l, n, env)
                            } else {
                                env.array_lens@.contains_key(n) && env.array_lens@[n] == i
                            },
                            _ => true,
                        },
                    },
                }
            },
        }
    }
}

/// Local `a` mentions local `b`.
pub open spec fn depends_on(pending: Map<Seq<char>, LocalExpr>, a: Seq<char>, b: Seq<char>) -> bool {
    pending.contains_key(a) && refs_of(pending[a].value).contains(b)
}

/// Each local of `p` mentions the next.
pub open spec fn dep_path(pending: Map<Seq<char>, LocalExpr>, p: Seq<Seq<char>>) -> bool {
    forall|i: int| #![trigger p[i]] 0 <= i < p.len() - 1 ==> depends_on(pending, p[i], p[i + 1])
}

/// Local `n` depends on itself, through its own expression or through
/// other locals.
pub open spec fn on_cycle(pending: Map<Seq<char>, LocalExpr>, n: Seq<char>) -> bool {
    exists|p: Seq<Seq<char>>| p.len() >= 2 && p[0] == n && p.last() == n && #[trigger] dep_path(pending, p)
}

/// Every resolved local that is on no cycle had all its locals resolved
/// first and has its outcome.
spec fn settled_ok(
    pending: Map<Seq<char>, LocalExpr>,
    done: Set<Seq<char>>,
    env: Env,
    failed: Seq<Span>,
    ds: Seq<DiagView>,
) -> bool {
    forall|k: Seq<char>|
        #[trigger] done.contains(k) && pending.contains_key(k) && !on_cycle(pending, k) ==> (
        forall|r: Seq<char>| refs_of(pending[k].value).contains(r) && pending.contains_key(r) ==> done.contains(r))
            && outcome(pending[k], k, env, failed, ds)
}

proof fn lemma_reported_extends(a: Seq<DiagView>, b: Seq<DiagView>)
    requires
        extends(b, a),
    ensures
        forall|d: DiagView| reported(a, d) ==> reported(b, d),
        forall|xs: Seq<DiagView>| all_reported(a, xs) ==> all_reported(b, xs),
{
    assert forall|d: DiagView| reported(a, d) implies reported(b, d) by {
        let j = choose|j: int| 0 <= j < a.len() && a[j] == d;
        assert(b.subrange(0, a.len() as int)[j] == b[j]);
    }
}

proof fn lemma_all_reported_append(a: Seq<DiagView>, t: Seq<DiagView>)
    ensures
        all_reported(a + t, t),
{
    assert forall|j: int| 0 <= j < t.len() implies reported(a + t, #[trigger] t[j]) by {
        assert((a + t)[a.len() + j] == t[j]);
    }
}

/// An outcome survives changes elsewhere and further errors.
proof fn lemma_outcome_frame(
    l: LocalExpr,
    n: Seq<char>,
    a: Env,
    b: Env,
    failed: Seq<Span>,
    da: Seq<DiagView>,
    db: Seq<DiagView>,
)
    requires
        outcome(l, n, a, failed, da),
        same_meaning(a, b, n),
        forall|k: Seq<char>| refs_of(l.value).contains(k) ==> same_meaning(a, b, k),
        extends(db, da),
    ensures
        outcome(l, n, b, failed, db),
{
    lemma_eval_reads_only_refs(l.value, a, b);
    lemma_reported_extends(da, db);
}

/// An outcome stays as further errors are reported.
pub proof fn lemma_outcome_grows(
    l: LocalExpr,
    n: Seq<char>,
    env: Env,
    failed: Seq<Span>,
    da: Seq<DiagView>,
    db: Seq<DiagView>,
)
    requires
        outcome(l, n, env, failed, da),
        extends(db, da),
    ensures
        outcome(l, n, env, failed, db),
{
    lemma_outcome_frame(l, n, env, env, failed, da, db);
}

/// Settled outcomes survive a step that changes no resolved name and only
/// adds errors.
proof fn lemma_settled_frame(
    pending: Map<Seq<char>, LocalExpr>,
    done: Set<Seq<char>>,
    a: Env,
    b: Env,
    failed: Seq<Span>,
    da: Seq<DiagView>,
    db: Seq<DiagView>,
)
    requires
        settled_ok(pending, done, a, failed, da),
        forall|k: Seq<char>| done.contains(k) || !pending.contains_key(k) ==> #[trigger] same_meaning(a, b, k),
        extends(db, da),
    ensures
        settled_ok(pending, done, b, failed, db),
{
    assert forall|k: Seq<char>| #[trigger] done.contains(k) && pending.contains_key(k) && !on_cycle(pending, k) implies
        (forall|r: Seq<char>| refs_of(pending[k].value).contains(r) && pending.contains_key(r) ==> done.contains(r))
            && outcome(pending[k], k, b, failed, db) by {
        assert forall|r: Seq<char>| refs_of(pending[k].value).contains(r) implies same_meaning(a, b, r) by {
            if pending.contains_key(r) {
                assert(done.contains(r));
            }
        }
        assert(same_meaning(a, b, k));
        lemma_outcome_frame(pending[k], k, a, b, failed, da, db);
    }
}

/// Every resolved local holds the value of its expression, and one that
/// holds a value depends only on resolved locals.
spec fn done_ok(pending: Map<Seq<char>, LocalExpr>, done: Set<Seq<char>>, env: Env, failed: Seq<Span>) -> bool {
    forall|k: Seq<char>|
        #[trigger] done.contains(k) && pending.contains_key(k) ==> resolved_ok(pending, done, env, k, failed)
}

/// Local `k` holds the value of its expression, and if it holds one, it
/// does not mention itself and every local it mentions is resolved.
spec fn resolved_ok(
    pending: Map<Seq<char>, LocalExpr>,
    done: Set<Seq<char>>,
    env: Env,
    k: Seq<char>,
    failed: Seq<Span>,
) -> bool {
    &&& value_claim(pending[k], k, env)
    &&& holds_value(pending[k], k, env) ==> !failed_within(pending[k].value.span_of(), failed)
    &&& holds_value(pending[k], k, env) ==> !refs_of(pending[k].value).contains(k)
    &&& holds_value(pending[k], k, env) ==> forall|r: Seq<char>|
        refs_of(pending[k].value).contains(r) && pending.contains_key(r) ==> done.contains(r)
}

/// A local not yet resolved holds no value.
spec fn undone_unknown(pending: Map<Seq<char>, LocalExpr>, done: Set<Seq<char>>, env: Env) -> bool {
    forall|k: Seq<char>|
        #[trigger] pending.contains_key(k) && !done.contains(k) ==> !holds_value(pending[k], k, env)
}

/// `a` and `b` agree on every name outside `dom`.
pub open spec fn agree_outside(a: Env, b: Env, dom: Set<Seq<char>>) -> bool {
    &&& forall|k: Seq<char>|
        !dom.contains(k) ==> (#[trigger] a.names@.contains_key(k) == b.names@.contains_key(k) && (
        a.names@.contains_key(k) ==> a.names@[k] == b.names@[k]))
    &&& forall|k: Seq<char>|
        !dom.contains(k) ==> (#[trigger] a.array_lens@.contains_key(k)
            == b.array_lens@.contains_key(k) && (a.array_lens@.contains_key(k)
            ==> a.array_lens@[k] == b.array_lens@[k]))
    &&& forall|k: Seq<char>|
        !dom.contains(k) ==> #[trigger] a.unknown_arrays@.contains_key(k)
            == b.unknown_arrays@.contains_key(k)
}

/// `b` starts with `a`.
pub open spec fn extends(b: Seq<DiagView>, a: Seq<DiagView>) -> bool {
    a.len() <= b.len() && b.subrange(0, a.len() as int) == a
}

/// Extension is transitive: whatever extends `b` extends every prefix of `b`.
pub proof fn lemma_extends_trans_pub(b: Seq<DiagView>, c: Seq<DiagView>)
    requires
        extends(c, b),
    ensures
        forall|a: Seq<DiagView>| extends(b, a) ==> extends(c, a),
{
    assert forall|a: Seq<DiagView>| extends(b, a) implies extends(c, a) by {
        lemma_extends_trans(a, b, c);
    }
}

proof fn lemma_extends_trans(a: Seq<DiagView>, b: Seq<DiagView>, c: Seq<DiagView>)
    requires
        extends(b, a),
        extends(c, b),
    ensures
        extends(c, a),
{
    assert(c.subrange(0, a.len() as int) =~= b.subrange(0, a.len() as int));
}

proof fn lemma_extends_push(a: Seq<DiagView>, d: DiagView)
    ensures
        extends(a.push(d), a),
{
    assert(a.push(d).subrange(0, a.len() as int) =~= a);
}

pub proof fn lemma_extends_append(a: Seq<DiagView>, t: Seq<DiagView>)
    ensures
        extends(a + t, a),
{
    assert((a + t).subrange(0, a.len() as int) =~= a);
}

spec fn stack_ok(stack: Seq<String>, dom: Set<Seq<char>>) -> bool {
    &&& forall|i: int| 0 <= i < stack.len() ==> dom.contains(#[trigger] stack[i]@)
    &&& forall|i: int, j: int| 0 <= i < j < stack.len() ==> (#[trigger] stack[i])@ != (#[trigger] stack[j])@
}

proof fn lemma_stack_bound(stack: Seq<String>, dom: Set<Seq<char>>)
    requires
        stack_ok(stack, dom),
        dom.finite(),
    ensures
        stack.len() <= dom.len(),
{
    let vs = stack.map_values(|s: String| s@);
    assert(vs.no_duplicates()) by {
        assert forall|i: int, j: int| 0 <= i < vs.len() && 0 <= j < vs.len() && i != j implies vs[i]
            != vs[j] by {
            if i < j {
                assert(stack[i]@ != stack[j]@);
            } else {
                assert(stack[j]@ != stack[i]@);
            }
        }
    }
    vs.unique_seq_to_set();
    assert(vs.to_set().subset_of(dom)) by {
        assert forall|x: Seq<char>| vs.to_set().contains(x) implies dom.contains(x) by {
            let i = choose|i: int| 0 <= i < vs.len() && vs[i] == x;
            assert(dom.contains(stack[i]@));
        }
    }
    vstd::set_lib::lemma_len_subset(vs.to_set(), dom);
}

/// No error of `ds` reports a cycle.
pub open spec fn no_cycle_code(ds: Seq<DiagView>) -> bool {
    forall|j: int| 0 <= j < ds.len() ==> (#[trigger] ds[j]).code != Code::E1407
}

/// `d` reports a cycle among the locals: E1407 at the local that closes
/// it, whose message renders a chain of locals, each mentioning the next,
/// from that local back to itself; none of them holds a value in `env`.
pub open spec fn cycle_report(pending: Map<Seq<char>, LocalExpr>, env: Env, d: DiagView) -> bool {
    exists|c: Seq<Seq<char>>|
        #[trigger] dep_path(pending, c) && c.len() >= 2 && c[0] == c.last() && pending.contains_key(c.last())
            && d == err(Code::E1407, pending[c.last()].span, "cyclic dependency: "@ + cycle_spec(pending, c))
            && forall|i: int| 0 <= i < c.len() ==> !holds_value(pending[c[i]], c[i], env)
}

/// Every cycle error among those `b` adds to `a` reports a cycle.
pub open spec fn reports_ok(pending: Map<Seq<char>, LocalExpr>, env: Env, a: Seq<DiagView>, b: Seq<DiagView>) -> bool {
    forall|j: int| a.len() <= j < b.len() && (#[trigger] b[j]).code == Code::E1407 ==> cycle_report(pending, env, b[j])
}

/// A cycle report whose locals are all resolved.
spec fn cycle_report_done(pending: Map<Seq<char>, LocalExpr>, done: Set<Seq<char>>, env: Env, d: DiagView) -> bool {
    exists|c: Seq<Seq<char>>|
        #[trigger] dep_path(pending, c) && c.len() >= 2 && c[0] == c.last() && pending.contains_key(c.last())
            && d == err(Code::E1407, pending[c.last()].span, "cyclic dependency: "@ + cycle_spec(pending, c))
            && forall|i: int| 0 <= i < c.len() ==> done.contains(c[i]) && !holds_value(pending[c[i]], c[i], env)
}

spec fn reports_done(
    pending: Map<Seq<char>, LocalExpr>,
    done: Set<Seq<char>>,
    env: Env,
    a: Seq<DiagView>,
    b: Seq<DiagView>,
) -> bool {
    forall|j: int| a.len() <= j < b.len() && (#[trigger] b[j]).code == Code::E1407 ==> cycle_report_done(pending, done, env, b[j])
}

/// Cycle reports survive steps that keep resolved locals as they are.
proof fn lemma_reports_frame(
    pending: Map<Seq<char>, LocalExpr>,
    d1: Set<Seq<char>>,
    d2: Set<Seq<char>>,
    e1: Env,
    e2: Env,
    a: Seq<DiagView>,
    b: Seq<DiagView>,
)
    requires
        reports_done(pending, d1, e1, a, b),
        d1.subset_of(d2),
        forall|k: Seq<char>| #[trigger] d1.contains(k) ==> same_meaning(e1, e2, k),
    ensures
        reports_done(pending, d2, e2, a, b),
{
    assert forall|j: int| a.len() <= j < b.len() && (#[trigger] b[j]).code == Code::E1407 implies cycle_report_done(pending, d2, e2, b[j]) by {
        let c = choose|c: Seq<Seq<char>>|
            #[trigger] dep_path(pending, c) && c.len() >= 2 && c[0] == c.last() && pending.contains_key(c.last())
                && b[j] == err(Code::E1407, pending[c.last()].span, "cyclic dependency: "@ + cycle_spec(pending, c))
                && forall|i: int| 0 <= i < c.len() ==> d1.contains(c[i]) && !holds_value(pending[c[i]], c[i], e1);
        assert forall|i: int| 0 <= i < c.len() implies d2.contains(c[i]) && !holds_value(pending[c[i]], c[i], e2) by {
            assert(d1.contains(c[i]));
            assert(same_meaning(e1, e2, c[i]));
        }
    }
}

proof fn lemma_no_cycle_concat(a: Seq<DiagView>, b: Seq<DiagView>)
    requires
        no_cycle_code(a),
        no_cycle_code(b),
    ensures
        no_cycle_code(a + b),
{
    assert forall|j: int| 0 <= j < (a + b).len() implies (#[trigger] (a + b)[j]).code != Code::E1407 by {
        if j < a.len() {
            assert((a + b)[j] == a[j]);
        } else {
            assert((a + b)[j] == b[j - a.len()]);
        }
    }
}

/// Evaluation never reports a cycle.
proof fn lemma_eval_no_cycle(e: Expr, env: Env)
    ensures
        no_cycle_code(eval_spec(e, env).1),
    decreases e,
{
    match e {
        Expr::Paren(inner, _) => {
            lemma_eval_no_cycle(*inner, env);
        },
        Expr::Unary { rhs, .. } => {
            lemma_eval_no_cycle(*rhs, env);
            let d = eval_spec(*rhs, env).1;
            assert forall|x: DiagView| x.code != Code::E1407 implies no_cycle_code(d.push(x)) by {
                assert forall|j: int| 0 <= j < d.push(x).len() implies (#[trigger] d.push(x)[j]).code != Code::E1407 by {
                    if j < d.len() {
                        assert(d.push(x)[j] == d[j]);
                    }
                }
            }
        },
        Expr::Binary { op, lhs, rhs, span } => {
            lemma_eval_no_cycle(*lhs, env);
            lemma_eval_no_cycle(*rhs, env);
            let dl = eval_spec(*lhs, env).1;
            let dr = eval_spec(*rhs, env).1;
            lemma_no_cycle_concat(dl, dr);
            if eval_spec(*lhs, env).0.is_some() && eval_spec(*rhs, env).0.is_some() {
                let lv = eval_spec(*lhs, env).0.unwrap();
                let rv = eval_spec(*rhs, env).0.unwrap();
                lemma_no_cycle_concat(dl + dr, binary_spec(op, lv, rv, span, e).1);
            }
        },
        _ => {},
    }
}

/// Type checking never reports a cycle.
proof fn lemma_type_check_no_cycle(e: Expr, env: Env)
    ensures
        no_cycle_code(type_check_spec(e, env).1),
    decreases e,
{
    match e {
        Expr::Paren(inner, _) => {
            lemma_type_check_no_cycle(*inner, env);
        },
        Expr::Unary { rhs, .. } => {
            lemma_type_check_no_cycle(*rhs, env);
            lemma_eval_no_cycle(e, env);
            lemma_no_cycle_concat(type_check_spec(*rhs, env).1, eval_spec(e, env).1);
        },
        Expr::Binary { op, lhs, rhs, span } => {
            lemma_type_check_no_cycle(*lhs, env);
            lemma_type_check_no_cycle(*rhs, env);
            let dl = type_check_spec(*lhs, env).1;
            let dr = type_check_spec(*rhs, env).1;
            lemma_no_cycle_concat(dl, dr);
            let l0 = eval_if_concrete_spec(*lhs, env);
            let r0 = eval_if_concrete_spec(*rhs, env);
            if l0.is_some() && r0.is_some() {
                lemma_no_cycle_concat(dl + dr, binary_spec(op, l0.unwrap(), r0.unwrap(), span, e).1);
            } else {
                lemma_no_cycle_concat(dl + dr, binary_spec(op, ValueView::Int(0), ValueView::Int(0), span, e).1);
            }
            lemma_no_cycle_concat(dl + dr, Seq::<DiagView>::empty());
            assert forall|lt: Ty, rt: Ty| true implies no_cycle_code(dl + dr + seq![err(Code::E1401, span, mismatch_msg(e, op, ty_text(lt), ty_text(rt)))]) by {
                let x = seq![err(Code::E1401, span, mismatch_msg(e, op, ty_text(lt), ty_text(rt)))];
                assert(no_cycle_code(x));
                lemma_no_cycle_concat(dl + dr, x);
            }
        },
        _ => {},
    }
}

/// Cycle reports of consecutive steps are those of the whole run.
proof fn lemma_reports_step(
    pending: Map<Seq<char>, LocalExpr>,
    done: Set<Seq<char>>,
    env: Env,
    a: Seq<DiagView>,
    m: Seq<DiagView>,
    b: Seq<DiagView>,
)
    requires
        reports_done(pending, done, env, a, m),
        reports_done(pending, done, env, m, b),
        extends(m, a),
        extends(b, m),
    ensures
        reports_done(pending, done, env, a, b),
{
    assert forall|j: int| a.len() <= j < b.len() && (#[trigger] b[j]).code == Code::E1407 implies cycle_report_done(pending, done, env, b[j]) by {
        if j < m.len() {
            assert(b.subrange(0, m.len() as int)[j] == b[j]);
            assert(m[j] == b[j]);
        }
    }
}

/// None of the errors `b` adds to `a` reports a cycle.
spec fn no_new_cycle(a: Seq<DiagView>, b: Seq<DiagView>) -> bool {
    forall|j: int| a.len() <= j < b.len() ==> (#[trigger] b[j]).code != Code::E1407
}

proof fn lemma_no_new_cycle_append(a: Seq<DiagView>, t: Seq<DiagView>)
    requires
        no_cycle_code(t),
    ensures
        no_new_cycle(a, a + t),
{
    assert forall|j: int| a.len() <= j < (a + t).len() implies (#[trigger] (a + t)[j]).code != Code::E1407 by {
        assert((a + t)[j] == t[j - a.len()]);
    }
}

proof fn lemma_no_new_cycle_push(a: Seq<DiagView>, m: Seq<DiagView>, d: DiagView)
    requires
        no_new_cycle(a, m),
        extends(m, a),
        d.code != Code::E1407,
    ensures
        no_new_cycle(a, m.push(d)),
{
    assert forall|j: int| a.len() <= j < m.push(d).len() implies (#[trigger] m.push(d)[j]).code != Code::E1407 by {
        if j < m.len() {
            assert(m.push(d)[j] == m[j]);
        }
    }
}

/// A run that adds no cycle error adds no cycle report.
proof fn lemma_reports_none(
    pending: Map<Seq<char>, LocalExpr>,
    done: Set<Seq<char>>,
    env: Env,
    a: Seq<DiagView>,
    b: Seq<DiagView>,
)
    requires
        no_new_cycle(a, b),
    ensures
        reports_done(pending, done, env, a, b),
{
}

/// No local on the resolution stack holds a value.
spec fn stack_unknown(pending: Map<Seq<char>, LocalExpr>, stack: Seq<String>, env: Env) -> bool {
    forall|i: int| 0 <= i < stack.len() ==> !holds_value(pending[#[trigger] stack[i]@], stack[i]@, env)
}

/// Each local on the resolution stack mentions the one above it.
spec fn stack_linked(pending: Map<Seq<char>, LocalExpr>, stack: Seq<String>) -> bool {
    forall|i: int| #![trigger stack[i]] 0 <= i < stack.len() - 1 ==> depends_on(pending, stack[i]@, stack[i + 1]@)
}

/// When the top of a linked stack mentions the local at `pos`, every local
/// from `pos` up lies on a cycle.
#[verifier::spinoff_prover]
proof fn lemma_stack_cycle(pending: Map<Seq<char>, LocalExpr>, stack: Seq<String>, pos: int, j: int)
    requires
        0 <= pos <= j < stack.len(),
        stack_linked(pending, stack),
        depends_on(pending, stack.last()@, stack[pos]@),
    ensures
        on_cycle(pending, stack[j]@),
{
    let m = stack.len() - j;
    let p = Seq::new(
        (m + j - pos + 1) as nat,
        |i: int|
            if i < m {
                stack[j + i]@
            } else {
                stack[pos + i - m]@
            },
    );
    assert forall|i: int| #![trigger p[i]] 0 <= i < p.len() - 1 implies depends_on(pending, p[i], p[i + 1]) by {
        if i < m - 1 {
            assert(depends_on(pending, stack[j + i]@, stack[j + i + 1]@));
        } else if i >= m {
            assert(depends_on(pending, stack[pos + i - m]@, stack[pos + i - m + 1]@));
        }
    }
    assert(p[0] == stack[j]@);
    assert(p[p.len() - 1] == stack[j]@);
    assert(dep_path(pending, p));
}

/// How one local of a cycle is named: an array by its length.
pub open spec fn cycle_member_text(pending: Map<Seq<char>, LocalExpr>, n: Seq<char>) -> Seq<char> {
    "`"@ + n + "`"@ + if pending.contains_key(n) && pending[n].ty is None {
        ".len"@
    } else {
        Seq::empty()
    }
}

/// The locals of a cycle in order, joined by arrows.
pub open spec fn cycle_spec(pending: Map<Seq<char>, LocalExpr>, cycle: Seq<Seq<char>>) -> Seq<char>
    decreases cycle.len(),
{
    if cycle.len() == 0 {
        Seq::empty()
    } else {
        cycle_spec(pending, cycle.drop_last()) + (if cycle.len() > 1 {
            " → "@
        } else {
            Seq::empty()
        }) + cycle_member_text(pending, cycle.last())
    }
}

/// A name kind that carries a value.
pub open spec fn value_kind(k: NameKind) -> bool {
    k is Const || k is Binder || k is GenericInt || k is GenericLength
}

/// No local const has a known array length, and no local array is a name
/// with a value: a local is read only as what it declares.
pub open spec fn kinds_separate(pending: Map<Seq<char>, LocalExpr>, env: Env) -> bool {
    forall|k: Seq<char>|
        #[trigger] pending.contains_key(k) ==> (pending[k].ty is Some ==> !env.array_lens@.contains_key(k)) && (
        pending[k].ty is None ==> !(env.names@.contains_key(k) && value_kind(env.names@[k])))
}

/// No chain of locals, each mentioning the next, leads from a local back
/// to itself with every local of it holding a value.
spec fn value_cycle_free(pending: Map<Seq<char>, LocalExpr>, env: Env) -> bool {
    forall|p: Seq<Seq<char>>|
        #[trigger] dep_path(pending, p) && p.len() >= 2 && p[0] == p.last() ==> exists|i: int|
            0 <= i < p.len() && !holds_value(pending[p[i]], p[i], env)
}

/// A concrete expression mentions only names with values and arrays of
/// known length.
proof fn lemma_concrete_refs(e: Expr, env: Env, r: Seq<char>)
    requires
        is_concrete(e, env),
        refs_of(e).contains(r),
    ensures
        (env.names@.contains_key(r) && value_kind(env.names@[r])) || env.array_lens@.contains_key(r),
    decreases e,
{
    match e {
        Expr::Name(id) => {
            assert(refs_of(e)[0] == id.name@);
        },
        Expr::Len(id, _) => {
            assert(refs_of(e)[0] == id.name@);
        },
        Expr::Paren(inner, _) => {
            lemma_concrete_refs(*inner, env, r);
        },
        Expr::Unary { rhs, .. } => {
            lemma_concrete_refs(*rhs, env, r);
        },
        Expr::Binary { lhs, rhs, .. } => {
            let l = refs_of(*lhs);
            let rr = refs_of(*rhs);
            let j = choose|j: int| 0 <= j < (l + rr).len() && (l + rr)[j] == r;
            if j < l.len() {
                assert(l[j] == r);
                lemma_concrete_refs(*lhs, env, r);
            } else {
                assert(rr[j - l.len()] == r);
                lemma_concrete_refs(*rhs, env, r);
            }
        },
        _ => {},
    }
}

/// A local holding a value makes every local it mentions hold one.
proof fn lemma_value_spreads(pending: Map<Seq<char>, LocalExpr>, env: Env, k: Seq<char>, r: Seq<char>)
    requires
        pending.contains_key(k),
        holds_value(pending[k], k, env),
        value_claim(pending[k], k, env),
        depends_on(pending, k, r),
        pending.contains_key(r),
        local_claim(pending[r], r, env),
        kinds_separate(pending, env),
    ensures
        holds_value(pending[r], r, env),
{
    assert(eval_if_concrete_spec(pending[k].value, env).is_some());
    lemma_concrete_refs(pending[k].value, env, r);
    assert(pending.contains_key(r));
}

/// Every local on a cycle stays without a value, when no chain of valued
/// locals closes and locals are read only as what they declare.
proof fn lemma_cycle_unknown(pending: Map<Seq<char>, LocalExpr>, env: Env, n: Seq<char>)
    requires
        on_cycle(pending, n),
        value_cycle_free(pending, env),
        kinds_separate(pending, env),
        local_claims(pending, env),
        forall|k: Seq<char>| #[trigger] pending.contains_key(k) ==> value_claim(pending[k], k, env),
    ensures
        pending.contains_key(n) ==> !holds_value(pending[n], n, env),
{
    let p = choose|p: Seq<Seq<char>>| p.len() >= 2 && p[0] == n && p.last() == n && #[trigger] dep_path(pending, p);
    if pending.contains_key(n) && holds_value(pending[n], n, env) {
        lemma_all_valued(pending, env, p, p.len() - 1);
        assert(dep_path(pending, p) && p.len() >= 2 && p[0] == p.last());
        let i = choose|i: int| 0 <= i < p.len() && !holds_value(pending[p[i]], p[i], env);
        assert(false);
    }
}

proof fn lemma_all_valued(pending: Map<Seq<char>, LocalExpr>, env: Env, p: Seq<Seq<char>>, i: int)
    requires
        dep_path(pending, p),
        p.len() >= 2,
        p[0] == p.last(),
        0 <= i < p.len(),
        pending.contains_key(p[0]),
        holds_value(pending[p[0]], p[0], env),
        kinds_separate(pending, env),
        local_claims(pending, env),
        forall|k: Seq<char>| #[trigger] pending.contains_key(k) ==> value_claim(pending[k], k, env),
    ensures
        forall|j: int| 0 <= j <= i ==> pending.contains_key(p[j]) && holds_value(pending[#[trigger] p[j]], p[j], env),
    decreases i,
{
    if i > 0 {
        lemma_all_valued(pending, env, p, i - 1);
        assert(depends_on(pending, p[i - 1], p[i]));
        assert(pending.contains_key(p[i])) by {
            if i < p.len() - 1 {
                assert(depends_on(pending, p[i], p[i + 1]));
            } else {
                assert(p[i] == p[0]);
            }
        }
        lemma_value_spreads(pending, env, p[i - 1], p[i]);
    }
}

/// Giving one more local a value keeps chains of valued locals open, when
/// no valued local mentions it and it does not mention itself.
proof fn lemma_value_cycle_step(
    pending: Map<Seq<char>, LocalExpr>,
    x: Seq<char>,
    done: Set<Seq<char>>,
    e0: Env,
    e1: Env,
    failed: Seq<Span>,
)
    requires
        value_cycle_free(pending, e0),
        forall|k: Seq<char>| k != x ==> #[trigger] same_meaning(e0, e1, k),
        pending.contains_key(x),
        !done.contains(x),
        !refs_of(pending[x].value).contains(x),
        done_ok(pending, done, e0, failed),
        undone_unknown(pending, done, e0),
    ensures
        value_cycle_free(pending, e1),
{
    assert forall|p: Seq<Seq<char>>| #[trigger] dep_path(pending, p) && p.len() >= 2 && p[0] == p.last() implies exists|i: int|
        0 <= i < p.len() && !holds_value(pending[p[i]], p[i], e1) by {
        if forall|i: int| 0 <= i < p.len() ==> holds_value(pending[p[i]], p[i], e1) {
            if exists|i: int| 0 <= i < p.len() && p[i] == x {
                let i = choose|i: int| 0 <= i < p.len() && p[i] == x;
                let j = if i > 0 { i - 1 } else { p.len() - 2 };
                assert(p[j + 1] == x);
                assert(depends_on(pending, p[j], p[j + 1]));
                let v = p[j];
                if v != x {
                    assert(holds_value(pending[v], v, e1));
                    assert(same_meaning(e0, e1, v));
                    assert(holds_value(pending[v], v, e0));
                    assert(done.contains(v));
                    assert(resolved_ok(pending, done, e0, v, failed));
                    assert(done.contains(x));
                }
                assert(false);
            } else {
                assert forall|i: int| 0 <= i < p.len() implies holds_value(pending[p[i]], p[i], e0) by {
                    assert(holds_value(pending[p[i]], p[i], e1));
                    assert(same_meaning(e0, e1, p[i]));
                }
                let w = choose|i: int| 0 <= i < p.len() && !holds_value(pending[p[i]], p[i], e0);
                assert(false);
            }
        }
    }
}

// ---------------------------------------------------------------------------
// Resolution, step by step
// ---------------------------------------------------------------------------

/// The locals of `pending` that hold a value in `env`.
pub open spec fn valued(pending: Map<Seq<char>, LocalExpr>, env: Env) -> Set<Seq<char>> {
    Set::new(|k: Seq<char>| pending.contains_key(k) && holds_value(pending[k], k, env))
}

/// The state of a resolution: the locals resolved so far, the locals that
/// hold a value, and every error reported.
pub open spec fn run_state(
    pending: Map<Seq<char>, LocalExpr>,
    done: Set<Seq<char>>,
    env: Env,
    diags: Seq<DiagView>,
) -> (Set<Seq<char>>, Set<Seq<char>>, Seq<DiagView>) {
    (done, valued(pending, env), diags)
}

/// Where `n` stands on a stack that holds it once.
pub open spec fn stack_pos(stack: Seq<Seq<char>>, n: Seq<char>) -> int {
    choose|i: int| 0 <= i < stack.len() && stack[i] == n
}

/// Closing the cycle that `name` forms with the stack from where it stands:
/// one E1407 rendering the cycle, and every local of it resolved, without a
/// value.
pub open spec fn close_spec(
    pending: Map<Seq<char>, LocalExpr>,
    stack: Seq<Seq<char>>,
    name: Seq<char>,
    st: (Set<Seq<char>>, Set<Seq<char>>, Seq<DiagView>),
) -> (Set<Seq<char>>, Set<Seq<char>>, Seq<DiagView>) {
    let cycle = stack.subrange(stack_pos(stack, name), stack.len() as int).push(name);
    (
        st.0 + cycle.to_set(),
        st.1,
        st.2.push(err(Code::E1407, pending[name].span, "cyclic dependency: "@ + cycle_spec(pending, cycle))),
    )
}

/// Settling `name` once the locals it mentions are resolved, reading values
/// in `env`: it is resolved; unless its expression holds a failed site, the
/// errors of type-checking it are reported, then E1401 for the wrong type;
/// a concrete const takes its value, and a concrete array length takes its
/// value when at least 1 and is E211 otherwise.
pub open spec fn settle_spec(
    pending: Map<Seq<char>, LocalExpr>,
    failed: Seq<Span>,
    env: Env,
    name: Seq<char>,
    st: (Set<Seq<char>>, Set<Seq<char>>, Seq<DiagView>),
) -> (Set<Seq<char>>, Set<Seq<char>>, Seq<DiagView>) {
    let l = pending[name];
    let done = st.0.insert(name);
    if failed_within(l.value.span_of(), failed) {
        (done, st.1, st.2)
    } else {
        let tc = type_check_spec(l.value, env);
        let ds = st.2 + tc.1;
        match tc.0 {
            None => (done, st.1, ds),
            Some(t) => if t != want_ty(l) {
                (done, st.1, ds.push(err(Code::E1401, l.value.span_of(), kind_msg(l, name, t))))
            } else {
                match eval_if_concrete_spec(l.value, env) {
                    None => (done, st.1, ds),
                    Some(v) => match l.ty {
                        Some(_) => (done, st.1.insert(name), ds),
                        None => match v {
                            ValueView::Int(i) => if i < 1 {
                                (done, st.1, ds.push(err(Code::E211, l.value.span_of(), short_len_msg(i as int))))
                            } else {
                                (done, st.1.insert(name), ds)
                            },
                            _ => (done, st.1, ds),
                        },
                    },
                }
            },
        }
    }
}

/// Resolving `name` with `stack` being resolved above it: nothing if it is
/// resolved; closing a cycle if it is on the stack; otherwise resolving the
/// locals it mentions in order, then settling it unless a cycle through it
/// resolved it meanwhile.
pub open spec fn node_spec(
    pending: Map<Seq<char>, LocalExpr>,
    failed: Seq<Span>,
    env: Env,
    name: Seq<char>,
    stack: Seq<Seq<char>>,
    st: (Set<Seq<char>>, Set<Seq<char>>, Seq<DiagView>),
) -> (Set<Seq<char>>, Set<Seq<char>>, Seq<DiagView>)
    decreases pending.dom().len() - stack.len(), 1int, 0int,
{
    if st.0.contains(name) {
        st
    } else if stack.contains(name) {
        close_spec(pending, stack, name, st)
    } else if !pending.contains_key(name) || stack.len() >= pending.dom().len() {
        st
    } else {
        let st1 = refs_spec(pending, failed, env, stack.push(name), refs_of(pending[name].value), 0, st);
        if st1.0.contains(name) {
            st1
        } else {
            settle_spec(pending, failed, env, name, st1)
        }
    }
}

/// Resolving the locals among `refs`, from index `i` on, in order.
pub open spec fn refs_spec(
    pending: Map<Seq<char>, LocalExpr>,
    failed: Seq<Span>,
    env: Env,
    stack: Seq<Seq<char>>,
    refs: Seq<Seq<char>>,
    i: int,
    st: (Set<Seq<char>>, Set<Seq<char>>, Seq<DiagView>),
) -> (Set<Seq<char>>, Set<Seq<char>>, Seq<DiagView>)
    decreases pending.dom().len() - stack.len() + 1, 0int, refs.len() - i,
{
    if i < 0 || i >= refs.len() || stack.len() > pending.dom().len() {
        st
    } else {
        let st1 = if pending.contains_key(refs[i]) {
            node_spec(pending, failed, env, refs[i], stack, st)
        } else {
            st
        };
        refs_spec(pending, failed, env, stack, refs, i + 1, st1)
    }
}

/// Resolving each of `names` in turn from an empty stack.
pub open spec fn all_spec(
    pending: Map<Seq<char>, LocalExpr>,
    failed: Seq<Span>,
    env: Env,
    names: Seq<Seq<char>>,
    st: (Set<Seq<char>>, Set<Seq<char>>, Seq<DiagView>),
) -> (Set<Seq<char>>, Set<Seq<char>>, Seq<DiagView>)
    decreases names.len(),
{
    if names.len() == 0 {
        st
    } else {
        node_spec(pending, failed, env, names.last(), Seq::empty(), all_spec(pending, failed, env, names.drop_last(), st))
    }
}

/// `fenv` agrees with `env` on every resolved local and every name that is
/// not a local.
pub open spec fn fixed_on(pending: Map<Seq<char>, LocalExpr>, fenv: Env, env: Env, done: Set<Seq<char>>) -> bool {
    forall|k: Seq<char>| (done.contains(k) || !pending.contains_key(k)) ==> #[trigger] same_meaning(env, fenv, k)
}

/// Settling reads the environment only at the names the local mentions.
proof fn lemma_settle_reads(
    pending: Map<Seq<char>, LocalExpr>,
    failed: Seq<Span>,
    a: Env,
    b: Env,
    name: Seq<char>,
    st: (Set<Seq<char>>, Set<Seq<char>>, Seq<DiagView>),
)
    requires
        forall|k: Seq<char>| refs_of(pending[name].value).contains(k) ==> same_meaning(a, b, k),
    ensures
        settle_spec(pending, failed, a, name, st) == settle_spec(pending, failed, b, name, st),
{
    lemma_eval_reads_only_refs(pending[name].value, a, b);
}

/// Which locals hold a value after a step that changes no other name.
proof fn lemma_valued_step(pending: Map<Seq<char>, LocalExpr>, name: Seq<char>, e0: Env, e1: Env)
    requires
        pending.contains_key(name),
        forall|k: Seq<char>| k != name ==> #[trigger] same_meaning(e0, e1, k),
        !holds_value(pending[name], name, e0),
    ensures
        valued(pending, e1) == (if holds_value(pending[name], name, e1) {
            valued(pending, e0).insert(name)
        } else {
            valued(pending, e0)
        }),
{
    assert forall|k: Seq<char>| k != name implies (pending.contains_key(k) && holds_value(pending[k], k, e0))
        == (pending.contains_key(k) && holds_value(pending[k], k, e1)) by {
        assert(same_meaning(e0, e1, k));
    }
    if holds_value(pending[name], name, e1) {
        assert(valued(pending, e1) =~= valued(pending, e0).insert(name));
    } else {
        assert(valued(pending, e1) =~= valued(pending, e0));
    }
}

fn cycle_text(pending: &StrMap<LocalExpr>, cycle: &Vec<String>) -> (s: String)
    ensures
        s@ == cycle_spec(pending@, cycle@.map_values(|c: String| c@)),
{
    let ghost names = cycle@.map_values(|c: String| c@);
    let mut s = String::new();
    let mut i: usize = 0;
    proof {
        assert(names.take(0) =~= Seq::<Seq<char>>::empty());
        assert(s@ =~= Seq::<char>::empty());
    }
    while i < cycle.len()
        invariant
            i <= cycle@.len(),
            names == cycle@.map_values(|c: String| c@),
            s@ == cycle_spec(pending@, names.take(i as int)),
        decreases cycle@.len() - i,
    {
        let ghost before = s@;
        if i > 0 {
            push_str(&mut s, " → ");
        }
        push_str(&mut s, "`");
        push_str(&mut s, cycle[i].as_str());
        push_str(&mut s, "`");
        match pending.get(&cycle[i]) {
            Some(l) => {
                if l.ty.is_none() {
                    push_str(&mut s, ".len");
                }
            },
            None => {},
        }
        proof {
            let t = names.take(i + 1);
            assert(t.drop_last() =~= names.take(i as int));
            assert(t.last() == cycle@[i as int]@);
            assert(s@ =~= cycle_spec(pending@, t));
        }
        i = i + 1;
    }
    proof {
        assert(names.take(cycle@.len() as int) =~= names);
    }
    s
}

/// The locals of a linked stack from `pos` up, followed by the local at
/// `pos` that the top mentions, form a chain back to that local.
proof fn lemma_cycle_path(pending: Map<Seq<char>, LocalExpr>, stack: Seq<String>, pos: int, cv: Seq<Seq<char>>)
    requires
        0 <= pos < stack.len(),
        stack_linked(pending, stack),
        depends_on(pending, stack.last()@, stack[pos]@),
        cv.len() == stack.len() - pos + 1,
        forall|j: int| 0 <= j < cv.len() ==> #[trigger] cv[j] == if j < cv.len() - 1 {
            stack[pos + j]@
        } else {
            stack[pos]@
        },
    ensures
        dep_path(pending, cv),
        cv[0] == cv.last(),
{
    let sl = stack.len() as int;
    assert forall|i: int| #![trigger cv[i]] 0 <= i < cv.len() - 1 implies depends_on(pending, cv[i], cv[i + 1]) by {
        assert(cv[i] == stack[pos + i]@);
        if i < sl - pos - 1 {
            assert(cv[i + 1] == stack[pos + i + 1]@);
            assert(depends_on(pending, stack[pos + i]@, stack[pos + i + 1]@));
        } else {
            assert(cv[i + 1] == stack[pos]@);
            assert(stack[pos + i] == stack.last());
        }
    }
    assert(cv[0] == stack[pos]@);
    assert(cv[cv.len() - 1] == stack[pos]@);
}

/// Records the cycle that `name` closes on the resolution stack: reports
/// E1407 at `name` and marks every local on the cycle resolved, without a
/// value.
#[verifier::spinoff_prover]
fn close_cycle(
    pending: &StrMap<LocalExpr>,
    name: &String,
    pos: usize,
    env: &Env,
    done: &mut StrMap<()>,
    stack: &Vec<String>,
    failed: &Vec<Span>,
    diags: &mut Diagnostics,
)
    requires
        pending@.contains_key(name@),
        pos < stack@.len(),
        stack@[pos as int]@ == name@,
        stack_ok(stack@, pending@.dom()),
        stack_linked(pending@, stack@),
        depends_on(pending@, stack@.last()@, name@),
        done_ok(pending@, old(done)@.dom(), *env, failed@),
        undone_unknown(pending@, old(done)@.dom(), *env),
        settled_ok(pending@, old(done)@.dom(), *env, failed@, old(diags)@),
        stack_unknown(pending@, stack@, *env),
    ensures
        extends(final(diags)@, old(diags)@),
        done_ok(pending@, final(done)@.dom(), *env, failed@),
        undone_unknown(pending@, final(done)@.dom(), *env),
        settled_ok(pending@, final(done)@.dom(), *env, failed@, final(diags)@),
        reports_done(pending@, final(done)@.dom(), *env, old(diags)@, final(diags)@),
        old(done)@.dom().subset_of(final(done)@.dom()),
        final(done)@.dom().contains(name@),
        run_state(pending@, final(done)@.dom(), *env, final(diags)@) == close_spec(
            pending@,
            stack@.map_values(|s: String| s@),
            name@,
            run_state(pending@, old(done)@.dom(), *env, old(diags)@),
        ),
{
    let mut cycle: Vec<String> = Vec::new();
    let mut i = pos;
    while i < stack.len()
        invariant
            pos <= i <= stack@.len(),
            stack_ok(stack@, pending@.dom()),
            cycle@.len() == i - pos,
            forall|j: int| 0 <= j < cycle@.len() ==> (#[trigger] cycle@[j])@ == stack@[pos + j]@,
            forall|j: int| 0 <= j < cycle@.len() ==> pending@.contains_key(#[trigger] cycle@[j]@),
        decreases stack@.len() - i,
    {
        cycle.push(stack[i].clone());
        i = i + 1;
    }
    cycle.push(name.clone());
    let ghost cv = cycle@.map_values(|c: String| c@);
    proof {
        assert forall|j: int| 0 <= j < cv.len() implies #[trigger] cv[j] == if j < cv.len() - 1 {
            stack@[pos + j]@
        } else {
            name@
        } by {}
        lemma_cycle_path(pending@, stack@, pos as int, cv);
        assert forall|j: int| 0 <= j < cycle@.len() implies on_cycle(pending@, #[trigger] cycle@[j]@) by {
            if j < cycle@.len() - 1 {
                lemma_stack_cycle(pending@, stack@, pos as int, pos + j);
            } else {
                lemma_stack_cycle(pending@, stack@, pos as int, pos as int);
            }
        }
    }
    let mut message = String::new();
    push_str(&mut message, "cyclic dependency: ");
    let rendered = cycle_text(pending, &cycle);
    push_str(&mut message, rendered.as_str());
    let span = match pending.get(name) {
        Some(l) => l.span,
        None => {
            proof {
                assert(false);
            }
            return;
        },
    };
    diags.push(Diagnostic::error(Code::E1407, span, message));
    proof {
        assert(cv.last() == name@);
        assert(diags@.last() == err(Code::E1407, pending@[cv.last()].span, "cyclic dependency: "@ + cycle_spec(pending@, cv)));
        lemma_extends_push(old(diags)@, diags@.last());
        lemma_settled_frame(pending@, done@.dom(), *env, *env, failed@, old(diags)@, diags@);
    }
    let mut k: usize = 0;
    while k < cycle.len()
        invariant
            k <= cycle@.len(),
            forall|j: int| 0 <= j < cycle@.len() ==> pending@.contains_key(#[trigger] cycle@[j]@),
            forall|j: int| 0 <= j < cycle@.len() ==> on_cycle(pending@, #[trigger] cycle@[j]@),
            cycle@[cycle@.len() - 1]@ == name@,
            cycle@.len() > 0,
            done_ok(pending@, done@.dom(), *env, failed@),
            undone_unknown(pending@, done@.dom(), *env),
            settled_ok(pending@, done@.dom(), *env, failed@, diags@),
            old(done)@.dom().subset_of(done@.dom()),
            cv == cycle@.map_values(|c: String| c@),
            diags@.len() == old(diags)@.len() + 1,
            diags@.last() == err(Code::E1407, pending@[cv.last()].span, "cyclic dependency: "@ + cycle_spec(pending@, cv)),
            dep_path(pending@, cv),
            cv.len() >= 2,
            cv[0] == cv.last(),
            forall|j: int| 0 <= j < k ==> done@.dom().contains(#[trigger] cycle@[j]@),
            done@.dom() == old(done)@.dom() + cv.take(k as int).to_set(),
            diags@ == old(diags)@.push(err(Code::E1407, pending@[cv.last()].span, "cyclic dependency: "@ + cycle_spec(pending@, cv))),
        decreases cycle@.len() - k,
    {
        let ghost d0 = done@.dom();
        let ghost c = cycle@[k as int]@;
        done.insert(cycle[k].clone(), ());
        proof {
            assert(done@.dom() == d0.insert(c));
            assert(cv.take(k + 1) =~= cv.take(k as int).push(c));
            cv.take(k as int).lemma_push_to_set_commute(c);
            assert(done@.dom() =~= old(done)@.dom() + cv.take(k + 1).to_set());
            if !d0.contains(c) {
                assert(pending@.contains_key(c));
                assert(!holds_value(pending@[c], c, *env));
            }
            assert forall|x: Seq<char>| #[trigger] done@.dom().contains(x) && pending@.contains_key(x) implies resolved_ok(pending@, done@.dom(), *env, x, failed@) by {
                if x != c || d0.contains(c) {
                    assert(d0.contains(x));
                }
            }
            assert forall|x: Seq<char>| #[trigger] pending@.contains_key(x) && !done@.dom().contains(x) implies !holds_value(pending@[x], x, *env) by {
                assert(!d0.contains(x));
            }
            assert(on_cycle(pending@, c));
            assert forall|x: Seq<char>| #[trigger] done@.dom().contains(x) && pending@.contains_key(x) && !on_cycle(pending@, x) implies
                (forall|r: Seq<char>| refs_of(pending@[x].value).contains(r) && pending@.contains_key(r) ==> done@.dom().contains(r))
                    && outcome(pending@[x], x, *env, failed@, diags@) by {
                assert(d0.contains(x));
            }
        }
        k = k + 1;
    }
    proof {
        assert(done@.dom().contains(cycle@[cycle@.len() - 1]@));
        assert forall|i: int| 0 <= i < cv.len() implies done@.dom().contains(cv[i]) && !holds_value(pending@[cv[i]], cv[i], *env) by {
            assert(cv[i] == cycle@[i]@);
            if i < cv.len() - 1 {
                assert(cv[i] == stack@[pos + i]@);
            } else {
                assert(cv[i] == stack@[pos as int]@);
            }
        }
        assert(cycle_report_done(pending@, done@.dom(), *env, diags@[diags@.len() - 1]));
        assert(reports_done(pending@, done@.dom(), *env, old(diags)@, diags@));
        let sv = stack@.map_values(|s: String| s@);
        assert(sv[pos as int] == name@);
        let sp = stack_pos(sv, name@);
        assert(0 <= sp < sv.len() && sv[sp] == name@);
        if sp != pos {
            if sp < pos {
                assert(stack@[sp]@ != stack@[pos as int]@);
            } else {
                assert(stack@[pos as int]@ != stack@[sp]@);
            }
        }
        assert(sv.subrange(pos as int, sv.len() as int).push(name@) =~= cv);
        assert(cv.take(cv.len() as int) =~= cv);
    }
}

/// Gives a local whose dependencies are all resolved its outcome: it is
/// marked resolved; unless its expression contains a failed site it is
/// type-checked (E1401 for the wrong kind) and, when concrete, gets its
/// value (an array length below 1 is E211).
#[verifier::spinoff_prover]
fn settle(
    pending: &StrMap<LocalExpr>,
    name: &String,
    local: &LocalExpr,
    env: &mut Env,
    done: &mut StrMap<()>,
    failed: &Vec<Span>,
    diags: &mut Diagnostics,
)
    requires
        pending@.contains_key(name@),
        *local == pending@[name@],
        !old(done)@.dom().contains(name@),
        forall|r: Seq<char>|
            refs_of(local.value).contains(r) && pending@.contains_key(r) ==> old(
                done,
            )@.dom().contains(r),
        local_claims(pending@, *old(env)),
        done_ok(pending@, old(done)@.dom(), *old(env), failed@),
        undone_unknown(pending@, old(done)@.dom(), *old(env)),
        settled_ok(pending@, old(done)@.dom(), *old(env), failed@, old(diags)@),
        value_cycle_free(pending@, *old(env)),
    ensures
        value_cycle_free(pending@, *final(env)),
        kinds_separate(pending@, *old(env)) ==> kinds_separate(pending@, *final(env)),
        local_claims(pending@, *final(env)),
        agree_outside(*old(env), *final(env), pending@.dom()),
        extends(final(diags)@, old(diags)@),
        done_ok(pending@, final(done)@.dom(), *final(env), failed@),
        undone_unknown(pending@, final(done)@.dom(), *final(env)),
        settled_ok(pending@, final(done)@.dom(), *final(env), failed@, final(diags)@),
        no_new_cycle(old(diags)@, final(diags)@),
        run_state(pending@, final(done)@.dom(), *final(env), final(diags)@) == settle_spec(
            pending@,
            failed@,
            *old(env),
            name@,
            run_state(pending@, old(done)@.dom(), *old(env), old(diags)@),
        ),
        final(done)@.dom() == old(done)@.dom().insert(name@),
        forall|k: Seq<char>| k != name@ ==> #[trigger] same_meaning(*old(env), *final(env), k),
{
    proof {
        lemma_extends_append(old(diags)@, Seq::empty());
        assert(old(diags)@ + Seq::<DiagView>::empty() =~= old(diags)@);
    }
    let ghost d_prev = done@.dom();
    done.insert(name.clone(), ());
    proof {
        assert(!holds_value(pending@[name@], name@, *env));
        assert(done_ok(pending@, done@.dom(), *env, failed@)) by {
            assert forall|x: Seq<char>| #[trigger] done@.dom().contains(x) && pending@.contains_key(x) implies resolved_ok(pending@, done@.dom(), *env, x, failed@) by {
                if x != name@ {
                    assert(d_prev.contains(x));
                }
            }
        }
        assert(undone_unknown(pending@, done@.dom(), *env)) by {
            assert forall|x: Seq<char>| #[trigger] pending@.contains_key(x) && !done@.dom().contains(x) implies !holds_value(pending@[x], x, *env) by {
                assert(!d_prev.contains(x));
            }
        }
    }
    if expression_failed(local.value.span(), failed) {
        proof {
            lemma_settle_close(pending@, name@, d_prev, *old(env), *env, failed@, old(diags)@, diags@);
            lemma_valued_step(pending@, name@, *old(env), *env);
            assert(run_state(pending@, done@.dom(), *env, diags@) == settle_spec(pending@, failed@, *old(env), name@, run_state(pending@, old(done)@.dom(), *old(env), old(diags)@)));
        }
        return;
    }
    let want = match local.ty {
        Some(t) => t,
        None => Ty::Int,
    };
    let ghost before_tc = diags@;
    proof {
        lemma_type_check_no_cycle(local.value, *env);
        lemma_no_new_cycle_append(before_tc, type_check_spec(local.value, *env).1);
    }
    let actual = match type_check(&local.value, env, diags) {
        Some(t) => t,
        None => {
            proof {
                lemma_extends_append(before_tc, type_check_spec(local.value, *env).1);
                lemma_extends_trans(old(diags)@, before_tc, diags@);
                lemma_all_reported_append(before_tc, type_check_spec(local.value, *env).1);
                lemma_settle_close(pending@, name@, d_prev, *old(env), *env, failed@, old(diags)@, diags@);
                lemma_valued_step(pending@, name@, *old(env), *env);
                assert(run_state(pending@, done@.dom(), *env, diags@) == settle_spec(pending@, failed@, *old(env), name@, run_state(pending@, old(done)@.dom(), *old(env), old(diags)@)));
            }
            return;
        },
    };
    proof {
        lemma_extends_append(before_tc, type_check_spec(local.value, *env).1);
        lemma_extends_trans(old(diags)@, before_tc, diags@);
        lemma_all_reported_append(before_tc, type_check_spec(local.value, *env).1);
    }
    let ghost after_tc = diags@;
    if actual != want {
        let mut message = String::new();
        match local.ty {
            Some(_) => push_str(&mut message, "const"),
            None => push_str(&mut message, "array length"),
        }
        push_str(&mut message, " `");
        push_str(&mut message, name.as_str());
        push_str(&mut message, "` must be ");
        push_str(&mut message, ty_name_ty(want));
        push_str(&mut message, ", but `");
        let t = expr_text(&local.value);
        push_str(&mut message, t.as_str());
        push_str(&mut message, "` is ");
        push_str(&mut message, ty_name_ty(actual));
        proof {
            assert(message@ =~= kind_msg(*local, name@, actual));
        }
        let ghost d0 = diags@;
        diags.push(Diagnostic::error(Code::E1401, local.value.span(), message));
        proof {
            lemma_extends_push(d0, diags@.last());
            lemma_extends_trans(old(diags)@, d0, diags@);
            lemma_reported_extends(d0, diags@);
            assert(diags@[diags@.len() - 1] == err(Code::E1401, local.value.span_of(), kind_msg(*local, name@, actual)));
            lemma_settle_close(pending@, name@, d_prev, *old(env), *env, failed@, old(diags)@, diags@);
            lemma_no_new_cycle_push(old(diags)@, d0, diags@.last());
            lemma_valued_step(pending@, name@, *old(env), *env);
            assert(run_state(pending@, done@.dom(), *env, diags@) == settle_spec(pending@, failed@, *old(env), name@, run_state(pending@, old(done)@.dom(), *old(env), old(diags)@)));
        }
        return;
    }
    let ghost env0 = *env;
    let ghost dn = done@.dom();
    proof {
        assert(!refs_of(local.value).contains(name@));
    }
    match eval_if_concrete(&local.value, env) {
        Some(value) => {
            proof {
                lemma_eval_type_sound(local.value, *env);
            }
            match local.ty {
                Some(_) => {
                    env.names.insert(name.clone(), NameKind::Const(value));
                },
                None => {
                    match value {
                        Value::Int(n) => {
                            if n < 1 {
                                let mut message = String::new();
                                push_str(&mut message, "array length `");
                                let t = crate::text::int_string(n as i128);
                                push_str(&mut message, t.as_str());
                                push_str(&mut message, "` must be 1 or more");
                                proof {
                                    assert(message@ =~= short_len_msg(n as int));
                                }
                                let ghost d0 = diags@;
                                diags.push(Diagnostic::error(Code::E211, local.value.span(), message));
                                proof {
                                    lemma_extends_push(d0, diags@.last());
                                    lemma_extends_trans(old(diags)@, d0, diags@);
                                    lemma_reported_extends(d0, diags@);
                                    assert(diags@[diags@.len() - 1] == err(Code::E211, local.value.span_of(), short_len_msg(n as int)));
                                    lemma_no_new_cycle_push(old(diags)@, d0, diags@.last());
                                }
                            } else {
                                env.array_lens.insert(name.clone(), n);
                                env.unknown_arrays.remove(name);
                            }
                        },
                        Value::Length(_) => {},
                    }
                },
            }
            proof {
                assert forall|k: Seq<char>| k != name@ implies #[trigger] same_meaning(env0, *env, k) by {}
                assert forall|x: Seq<char>| #[trigger] done@.dom().contains(x) && pending@.contains_key(x) implies resolved_ok(pending@, done@.dom(), *env, x, failed@) by {
                    if x == name@ {
                        lemma_eval_reads_only_refs(local.value, env0, *env);
                    } else if holds_value(pending@[x], x, *env) {
                        assert(holds_value(pending@[x], x, env0));
                        assert(d_prev.contains(x));
                        assert(!refs_of(pending@[x].value).contains(name@));
                        lemma_eval_reads_only_refs(pending@[x].value, env0, *env);
                    }
                }
                lemma_eval_reads_only_refs(local.value, env0, *env);
                lemma_value_cycle_step(pending@, name@, d_prev, env0, *env, failed@);
                if kinds_separate(pending@, env0) {
                    assert forall|k: Seq<char>| #[trigger] pending@.contains_key(k) implies (pending@[k].ty is Some ==> !env.array_lens@.contains_key(k)) && (
                        pending@[k].ty is None ==> !(env.names@.contains_key(k) && value_kind(env.names@[k]))) by {
                        if k != name@ {
                            assert(same_meaning(env0, *env, k));
                        }
                    }
                }
                if diags@ == after_tc {
                    lemma_extends_append(after_tc, Seq::empty());
                    assert(after_tc + Seq::<DiagView>::empty() =~= after_tc);
                }
                lemma_reported_extends(after_tc, diags@);
                assert(outcome(*local, name@, *env, failed@, diags@));
                lemma_settle_close(pending@, name@, d_prev, *old(env), *env, failed@, old(diags)@, diags@);
                lemma_valued_step(pending@, name@, *old(env), *env);
                assert(run_state(pending@, done@.dom(), *env, diags@) == settle_spec(pending@, failed@, *old(env), name@, run_state(pending@, old(done)@.dom(), *old(env), old(diags)@)));
            }
        },
        None => {
            proof {
                lemma_settle_close(pending@, name@, d_prev, *old(env), *env, failed@, old(diags)@, diags@);
                lemma_valued_step(pending@, name@, *old(env), *env);
                assert(run_state(pending@, done@.dom(), *env, diags@) == settle_spec(pending@, failed@, *old(env), name@, run_state(pending@, old(done)@.dom(), *old(env), old(diags)@)));
            }
        },
    }
}

/// A local given its outcome joins the settled ones; the outcomes of the
/// others, which do not mention it, are untouched.
proof fn lemma_settle_close(
    pending: Map<Seq<char>, LocalExpr>,
    name: Seq<char>,
    d_prev: Set<Seq<char>>,
    env0: Env,
    env: Env,
    failed: Seq<Span>,
    ds0: Seq<DiagView>,
    ds: Seq<DiagView>,
)
    requires
        settled_ok(pending, d_prev, env0, failed, ds0),
        pending.contains_key(name),
        !d_prev.contains(name),
        forall|r: Seq<char>| refs_of(pending[name].value).contains(r) && pending.contains_key(r) ==> d_prev.contains(r),
        forall|k: Seq<char>| k != name ==> #[trigger] same_meaning(env0, env, k),
        extends(ds, ds0),
        outcome(pending[name], name, env, failed, ds),
    ensures
        settled_ok(pending, d_prev.insert(name), env, failed, ds),
{
    let d = d_prev.insert(name);
    assert forall|k: Seq<char>| #[trigger] d.contains(k) && pending.contains_key(k) && !on_cycle(pending, k) implies
        (forall|r: Seq<char>| refs_of(pending[k].value).contains(r) && pending.contains_key(r) ==> d.contains(r))
            && outcome(pending[k], k, env, failed, ds) by {
        if k != name {
            assert(d_prev.contains(k));
            assert forall|r: Seq<char>| refs_of(pending[k].value).contains(r) implies same_meaning(env0, env, r) by {
                if r == name {
                    assert(d_prev.contains(r));
                }
            }
            lemma_outcome_frame(pending[k], k, env0, env, failed, ds0, ds);
        }
    }
}

#[verifier::spinoff_prover]
fn resolve(
    pending: &StrMap<LocalExpr>,
    name: &String,
    env: &mut Env,
    done: &mut StrMap<()>,
    stack: &mut Vec<String>,
    failed: &Vec<Span>,
    diags: &mut Diagnostics,
)
    requires
        pending@.contains_key(name@),
        pending@.dom().finite(),
        stack_ok(old(stack)@, pending@.dom()),
        stack_linked(pending@, old(stack)@),
        old(stack)@.len() > 0 ==> depends_on(pending@, old(stack)@.last()@, name@),
        local_claims(pending@, *old(env)),
        done_ok(pending@, old(done)@.dom(), *old(env), failed@),
        undone_unknown(pending@, old(done)@.dom(), *old(env)),
        settled_ok(pending@, old(done)@.dom(), *old(env), failed@, old(diags)@),
        stack_unknown(pending@, old(stack)@, *old(env)),
        value_cycle_free(pending@, *old(env)),
    ensures
        value_cycle_free(pending@, *final(env)),
        kinds_separate(pending@, *old(env)) ==> kinds_separate(pending@, *final(env)),
        final(stack)@ == old(stack)@,
        local_claims(pending@, *final(env)),
        agree_outside(*old(env), *final(env), pending@.dom()),
        extends(final(diags)@, old(diags)@),
        done_ok(pending@, final(done)@.dom(), *final(env), failed@),
        undone_unknown(pending@, final(done)@.dom(), *final(env)),
        settled_ok(pending@, final(done)@.dom(), *final(env), failed@, final(diags)@),
        reports_done(pending@, final(done)@.dom(), *final(env), old(diags)@, final(diags)@),
        stack_unknown(pending@, old(stack)@, *final(env)),
        old(done)@.dom().subset_of(final(done)@.dom()),
        final(done)@.dom().contains(name@),
        forall|k: Seq<char>|
            #[trigger] old(done)@.dom().contains(k) ==> same_meaning(*old(env), *final(env), k),
        forall|fenv: Env|
            #[trigger] fixed_on(pending@, fenv, *final(env), final(done)@.dom()) ==> node_spec(
                pending@,
                failed@,
                fenv,
                name@,
                old(stack)@.map_values(|s: String| s@),
                run_state(pending@, old(done)@.dom(), *old(env), old(diags)@),
            ) == run_state(pending@, final(done)@.dom(), *final(env), final(diags)@),
    decreases pending@.dom().len() - old(stack)@.len(),
{
    proof {
        lemma_extends_append(old(diags)@, Seq::empty());
        assert(old(diags)@ + Seq::<DiagView>::empty() =~= old(diags)@);
    }
    if done.contains_key(name) {
        return;
    }
    // Is `name` already being resolved further up? Then it closes a cycle.
    let mut pos: usize = 0;
    while pos < stack.len()
        invariant
            pos <= stack@.len(),
            forall|j: int| 0 <= j < pos ==> (#[trigger] stack@[j])@ != name@,
        ensures
            pos <= stack@.len(),
            pos < stack@.len() ==> stack@[pos as int]@ == name@,
        decreases stack@.len() - pos,
    {
        if stack[pos] == *name {
            break;
        }
        pos = pos + 1;
    }
    if pos < stack.len() {
        close_cycle(pending, name, pos, env, done, stack, failed, diags);
        proof {
            let sv = stack@.map_values(|s: String| s@);
            assert(sv[pos as int] == name@);
            assert(sv.contains(name@));
        }
        return;
    }
    let ghost sv0 = old(stack)@.map_values(|s: String| s@);
    proof {
        assert(!sv0.contains(name@)) by {
            if sv0.contains(name@) {
                let j = choose|j: int| 0 <= j < sv0.len() && sv0[j] == name@;
                assert(stack@[j]@ != name@);
            }
        }
    }
    let local = match pending.get(name) {
        Some(l) => l.clone(),
        None => {
            return;
        },
    };
    stack.push(name.clone());
    proof {
        assert(stack_ok(stack@, pending@.dom())) by {
            assert forall|i: int, j: int| 0 <= i < j < stack@.len() implies (#[trigger] stack@[i])@
                != (#[trigger] stack@[j])@ by {
                if j == stack@.len() - 1 {
                    assert(stack@[i] == old(stack)@[i]);
                }
            }
        }
        lemma_stack_bound(stack@, pending@.dom());
        assert(stack_linked(pending@, stack@)) by {
            assert forall|i: int| #![trigger stack@[i]] 0 <= i < stack@.len() - 1 implies depends_on(pending@, stack@[i]@, stack@[i + 1]@) by {
                if i < stack@.len() - 2 {
                    assert(stack@[i] == old(stack)@[i]);
                    assert(stack@[i + 1] == old(stack)@[i + 1]);
                    assert(depends_on(pending@, old(stack)@[i]@, old(stack)@[i + 1]@));
                } else {
                    assert(stack@[i] == old(stack)@.last());
                }
            }
        }
    }
    let mut refs: Vec<String> = Vec::new();
    references(&local.value, &mut refs);
    proof {
        assert(refs@.map_values(|s: String| s@) =~= refs_of(local.value));
    }
    proof {
        assert(stack@.map_values(|s: String| s@) =~= sv0.push(name@));
    }
    let mut r: usize = 0;
    while r < refs.len()
        invariant
            r <= refs@.len(),
            refs@.map_values(|s: String| s@) == refs_of(local.value),
            pending@.dom().finite(),
            stack@ == old(stack)@.push(*name),
            stack_ok(stack@, pending@.dom()),
            stack_linked(pending@, stack@),
            pending@[name@] == local,
            settled_ok(pending@, done@.dom(), *env, failed@, diags@),
            reports_done(pending@, done@.dom(), *env, old(diags)@, diags@),
            stack_unknown(pending@, stack@, *env),
            stack@.len() <= pending@.dom().len(),
            local_claims(pending@, *env),
            agree_outside(*old(env), *env, pending@.dom()),
            extends(diags@, old(diags)@),
            done_ok(pending@, done@.dom(), *env, failed@),
            undone_unknown(pending@, done@.dom(), *env),
            old(done)@.dom().subset_of(done@.dom()),
            forall|k: Seq<char>|
                #[trigger] old(done)@.dom().contains(k) ==> same_meaning(*old(env), *env, k),
            forall|j: int|
                0 <= j < r && pending@.contains_key(#[trigger] refs@[j]@) ==> done@.dom().contains(
                    refs@[j]@,
                ),
            sv0 == old(stack)@.map_values(|s: String| s@),
            value_cycle_free(pending@, *env),
            kinds_separate(pending@, *old(env)) ==> kinds_separate(pending@, *env),
            stack@.map_values(|s: String| s@) == sv0.push(name@),
            forall|fenv: Env|
                #[trigger] fixed_on(pending@, fenv, *env, done@.dom()) ==> refs_spec(
                    pending@,
                    failed@,
                    fenv,
                    sv0.push(name@),
                    refs_of(local.value),
                    0,
                    run_state(pending@, old(done)@.dom(), *old(env), old(diags)@),
                ) == refs_spec(
                    pending@,
                    failed@,
                    fenv,
                    sv0.push(name@),
                    refs_of(local.value),
                    r as int,
                    run_state(pending@, done@.dom(), *env, diags@),
                ),
        decreases refs@.len() - r,
    {
        if pending.contains_key(&refs[r]) {
            proof {
                assert(refs@[r as int]@ == refs@.map_values(|s: String| s@)[r as int]);
                assert(refs_of(local.value).contains(refs@[r as int]@));
            }
            let ghost before_env = *env;
            let ghost before_diags = diags@;
            let ghost before_done = done@.dom();
            resolve(pending, &refs[r], env, done, stack, failed, diags);
            proof {
                lemma_reports_frame(pending@, before_done, done@.dom(), before_env, *env, old(diags)@, before_diags);
                lemma_reports_step(pending@, done@.dom(), *env, old(diags)@, before_diags, diags@);
                lemma_extends_trans(old(diags)@, before_diags, diags@);
                assert forall|k: Seq<char>| #[trigger] old(done)@.dom().contains(k) implies same_meaning(*old(env), *env, k) by {
                    assert(before_done.contains(k));
                    assert(same_meaning(before_env, *env, k));
                }
                assert forall|fenv: Env| #[trigger] fixed_on(pending@, fenv, *env, done@.dom()) implies refs_spec(
                    pending@, failed@, fenv, sv0.push(name@), refs_of(local.value), 0, run_state(pending@, old(done)@.dom(), *old(env), old(diags)@),
                ) == refs_spec(
                    pending@, failed@, fenv, sv0.push(name@), refs_of(local.value), r + 1,
                    run_state(pending@, done@.dom(), *env, diags@),
                ) by {
                    lemma_fixed_back(pending@, fenv, before_env, before_done, *env, done@.dom());
                    assert(refs_of(local.value)[r as int] == refs@[r as int]@);
                }
            }
        } else {
            proof {
                assert(refs_of(local.value)[r as int] == refs@[r as int]@);
            }
        }
        r = r + 1;
    }
    stack.pop();
    proof {
        assert(stack@ =~= old(stack)@);
    }
    if done.contains_key(name) {
        proof {
            assert forall|fenv: Env| #[trigger] fixed_on(pending@, fenv, *env, done@.dom()) implies node_spec(
                pending@, failed@, fenv, name@, sv0, run_state(pending@, old(done)@.dom(), *old(env), old(diags)@),
            ) == run_state(pending@, done@.dom(), *env, diags@) by {
                assert(refs_spec(pending@, failed@, fenv, sv0.push(name@), refs_of(local.value), refs@.len() as int,
                    run_state(pending@, done@.dom(), *env, diags@)) == run_state(pending@, done@.dom(), *env, diags@));
            }
        }
        return;
    }
    proof {
        assert forall|x: Seq<char>| refs_of(local.value).contains(x) && pending@.contains_key(x) implies done@.dom().contains(x) by {
            let j = choose|j: int| 0 <= j < refs_of(local.value).len() && refs_of(local.value)[j] == x;
            assert(refs@[j]@ == refs@.map_values(|s: String| s@)[j]);
        }
    }
    let ghost env1 = *env;
    let ghost diags1 = diags@;
    let ghost done1 = done@.dom();
    settle(pending, name, &local, env, done, failed, diags);
    proof {
        lemma_reports_frame(pending@, done1, done@.dom(), env1, *env, old(diags)@, diags1);
        lemma_reports_none(pending@, done@.dom(), *env, diags1, diags@);
        lemma_reports_step(pending@, done@.dom(), *env, old(diags)@, diags1, diags@);
        assert forall|i: int| 0 <= i < old(stack)@.len() implies !holds_value(pending@[#[trigger] old(stack)@[i]@], old(stack)@[i]@, *env) by {
            assert(old(stack)@[i]@ != name@);
            assert(same_meaning(env1, *env, old(stack)@[i]@));
        }
        lemma_extends_trans(old(diags)@, diags1, diags@);
        assert forall|k: Seq<char>| #[trigger] old(done)@.dom().contains(k) implies same_meaning(*old(env), *env, k) by {
            assert(k != name@);
            assert(same_meaning(env1, *env, k));
        }
        assert forall|fenv: Env| #[trigger] fixed_on(pending@, fenv, *env, done@.dom()) implies node_spec(
            pending@, failed@, fenv, name@, sv0, run_state(pending@, old(done)@.dom(), *old(env), old(diags)@),
        ) == run_state(pending@, done@.dom(), *env, diags@) by {
            assert forall|k: Seq<char>| #[trigger] done1.contains(k) implies same_meaning(env1, *env, k) by {
                assert(k != name@);
            }
            lemma_fixed_back(pending@, fenv, env1, done1, *env, done@.dom());
            let st1 = run_state(pending@, done1, env1, diags1);
            assert(refs_spec(pending@, failed@, fenv, sv0.push(name@), refs_of(local.value), refs@.len() as int, st1) == st1);
            assert forall|k: Seq<char>| refs_of(pending@[name@].value).contains(k) implies same_meaning(fenv, env1, k) by {
                assert(same_meaning(env1, fenv, k));
            }
            lemma_settle_reads(pending@, failed@, fenv, env1, name@, st1);
        }
    }
}

/// A future environment that agrees with a later state agrees with an
/// earlier one, when the earlier resolved locals kept their meaning.
proof fn lemma_fixed_back(
    pending: Map<Seq<char>, LocalExpr>,
    fenv: Env,
    e1: Env,
    d1: Set<Seq<char>>,
    e2: Env,
    d2: Set<Seq<char>>,
)
    requires
        fixed_on(pending, fenv, e2, d2),
        d1.subset_of(d2),
        forall|k: Seq<char>| #[trigger] d1.contains(k) ==> same_meaning(e1, e2, k),
        agree_outside(e1, e2, pending.dom()),
    ensures
        fixed_on(pending, fenv, e1, d1),
{
    assert forall|k: Seq<char>| (d1.contains(k) || !pending.contains_key(k)) implies #[trigger] same_meaning(e1, fenv, k) by {
        assert(same_meaning(e2, fenv, k));
        if d1.contains(k) {
            assert(same_meaning(e1, e2, k));
        }
    }
}

/// Resolves a body's local consts and array lengths in dependency order,
/// in a type-only or a bound environment. Every local is first declared
/// with an unknown value; then each one that type-checks and is concrete
/// gets its value. Cycles are E1407; a const of the wrong type, or a length
/// that is not an Int, is E1401; an array length below 1 is E211. Locals
/// whose expression contains a failed site (`failed`) are not evaluated.
///
/// Every local on no cycle gets its `outcome`: later declarations are
/// visible to earlier ones, and the errors of type-checking its expression
/// are reported. Every E1407 it reports renders a chain of locals, each
/// mentioning the next, from the local it is reported at back to itself,
/// and none of the locals of that chain holds a value.
#[verifier::spinoff_prover]
#[verifier::rlimit(80)]
pub fn resolve_locals(
    locals: &Vec<LocalExpr>,
    env: &mut Env,
    failed: &Vec<Span>,
    diags: &mut Diagnostics,
)
    ensures
        forall|i: int|
            0 <= i < locals@.len() ==> local_claim(
                pending_of(locals@)[(#[trigger] locals@[i]).name.name@],
                locals@[i].name.name@,
                *final(env),
            ),
        forall|i: int|
            0 <= i < locals@.len() ==> pending_of(locals@).contains_key(
                (#[trigger] locals@[i]).name.name@,
            ),
        forall|i: int|
            0 <= i < locals@.len() ==> value_claim(
                pending_of(locals@)[(#[trigger] locals@[i]).name.name@],
                locals@[i].name.name@,
                *final(env),
            ),
        forall|i: int|
            0 <= i < locals@.len() && refs_of(
                pending_of(locals@)[(#[trigger] locals@[i]).name.name@].value,
            ).contains(locals@[i].name.name@) ==> !holds_value(
                pending_of(locals@)[locals@[i].name.name@],
                locals@[i].name.name@,
                *final(env),
            ),
        forall|i: int|
            0 <= i < locals@.len() && failed_within(
                pending_of(locals@)[(#[trigger] locals@[i]).name.name@].value.span_of(),
                failed@,
            ) ==> !holds_value(
                pending_of(locals@)[locals@[i].name.name@],
                locals@[i].name.name@,
                *final(env),
            ),
        forall|i: int|
            0 <= i < locals@.len() && !on_cycle(pending_of(locals@), (#[trigger] locals@[i]).name.name@)
                ==> outcome(
                pending_of(locals@)[locals@[i].name.name@],
                locals@[i].name.name@,
                *final(env),
                failed@,
                final(diags)@,
            ),
        reports_ok(pending_of(locals@), *final(env), old(diags)@, final(diags)@),
        agree_outside(*old(env), *final(env), pending_of(locals@).dom()),
        extends(final(diags)@, old(diags)@),
        kinds_separate(pending_of(locals@), *old(env)) ==> forall|i: int|
            0 <= i < locals@.len() && on_cycle(pending_of(locals@), (#[trigger] locals@[i]).name.name@)
                ==> !holds_value(pending_of(locals@)[locals@[i].name.name@], locals@[i].name.name@, *final(env)),
        ({
            let run = all_spec(
                pending_of(locals@),
                failed@,
                *final(env),
                sorted_listing(pending_of(locals@).dom()),
                (Set::empty(), Set::empty(), old(diags)@),
            );
            &&& final(diags)@ == run.2
            &&& valued(pending_of(locals@), *final(env)) == run.1
        }),
{
    let mut pending: StrMap<LocalExpr> = StrMap::new();
    let mut i: usize = 0;
    while i < locals.len()
        invariant
            i <= locals@.len(),
            pending@ == pending_of(locals@.take(i as int)),
            local_claims(pending@, *env),
            agree_outside(*old(env), *env, pending@.dom()),
            forall|k: Seq<char>| #[trigger] pending@.contains_key(k) ==> !holds_value(pending@[k], k, *env),
            forall|k: Seq<char>| #[trigger] env.array_lens@.contains_key(k) ==> old(env).array_lens@.contains_key(k),
            forall|k: Seq<char>|
                #[trigger] env.names@.contains_key(k) && value_kind(env.names@[k]) ==> old(env).names@.contains_key(k)
                    && old(env).names@[k] == env.names@[k],
        decreases locals@.len() - i,
    {
        let local = &locals[i];
        let ghost before = *env;
        match local.ty {
            Some(ty) => {
                env.names.insert(local.name.name.clone(), NameKind::Unknown(ty));
            },
            None => {
                env.array_lens.remove(&local.name.name);
                env.unknown_arrays.insert(local.name.name.clone(), ());
            },
        }
        pending.insert(local.name.name.clone(), local.clone());
        proof {
            assert(locals@.take(i + 1).drop_last() =~= locals@.take(i as int));
        }
        i = i + 1;
    }
    proof {
        assert(locals@.take(locals@.len() as int) =~= locals@);
    }
    let ghost env_init = *env;
    proof {
        assert forall|p: Seq<Seq<char>>| #[trigger] dep_path(pending@, p) && p.len() >= 2 && p[0] == p.last() implies exists|i: int|
            0 <= i < p.len() && !holds_value(pending@[p[i]], p[i], *env) by {
            assert(depends_on(pending@, p[0], p[1]));
        }
        if kinds_separate(pending@, *old(env)) {
            assert forall|k: Seq<char>| #[trigger] pending@.contains_key(k) implies (pending@[k].ty is Some ==> !env.array_lens@.contains_key(k)) && (
                pending@[k].ty is None ==> !(env.names@.contains_key(k) && value_kind(env.names@[k]))) by {
                if env.names@.contains_key(k) && value_kind(env.names@[k]) {
                    assert(old(env).names@.contains_key(k));
                }
            }
        }
    }
    let names = pending.keys();
    let mut done: StrMap<()> = StrMap::new();
    let mut stack: Vec<String> = Vec::new();
    let ghost d_start = diags@;
    proof {
        lemma_extends_append(d_start, Seq::empty());
        assert(d_start + Seq::<DiagView>::empty() =~= d_start);
    }
    let ghost kv = names@.map_values(|s: String| s@);
    proof {
        assert(kv =~= pending.key_seq());
        assert(is_sorted_listing(pending.key_seq(), pending@.dom()));
        assert(is_sorted_listing(sorted_listing(pending@.dom()), pending@.dom()));
        lemma_sorted_listing_unique(kv, sorted_listing(pending@.dom()), pending@.dom());
        assert(valued(pending@, *env) =~= Set::<Seq<char>>::empty());
        assert(kv.take(0) =~= Seq::<Seq<char>>::empty());
    }
    let mut k: usize = 0;
    while k < names.len()
        invariant
            kv == names@.map_values(|s: String| s@),
            forall|fenv: Env|
                #[trigger] fixed_on(pending@, fenv, *env, done@.dom()) ==> all_spec(
                    pending@,
                    failed@,
                    fenv,
                    kv.take(k as int),
                    (Set::<Seq<char>>::empty(), Set::<Seq<char>>::empty(), d_start),
                ) == run_state(pending@, done@.dom(), *env, diags@),
            k <= names@.len(),
            pending@ == pending_of(locals@),
            pending@.dom().finite(),
            names@.len() == pending.key_seq().len(),
            forall|j: int| 0 <= j < names@.len() ==> #[trigger] names@[j]@ == pending.key_seq()[j],
            pending.key_seq().to_set() == pending@.dom(),
            stack@.len() == 0,
            local_claims(pending@, *env),
            agree_outside(*old(env), *env, pending@.dom()),
            extends(diags@, d_start),
            d_start == old(diags)@,
            done_ok(pending@, done@.dom(), *env, failed@),
            undone_unknown(pending@, done@.dom(), *env),
            settled_ok(pending@, done@.dom(), *env, failed@, diags@),
            reports_done(pending@, done@.dom(), *env, d_start, diags@),
            value_cycle_free(pending@, *env),
            kinds_separate(pending@, *old(env)) ==> kinds_separate(pending@, env_init),
            kinds_separate(pending@, env_init) ==> kinds_separate(pending@, *env),
            forall|j: int| 0 <= j < k ==> done@.dom().contains(#[trigger] names@[j]@),
        decreases names@.len() - k,
    {
        let ghost before = diags@;
        proof {
            assert(pending.key_seq().to_set().contains(pending.key_seq()[k as int]));
        }
        let ghost before_done = done@.dom();
        let ghost before_env = *env;
        resolve(&pending, &names[k], env, &mut done, &mut stack, failed, diags);
        proof {
            lemma_reports_frame(pending@, before_done, done@.dom(), before_env, *env, d_start, before);
            lemma_reports_step(pending@, done@.dom(), *env, d_start, before, diags@);
            lemma_extends_trans(d_start, before, diags@);
            assert(stack@.map_values(|s: String| s@) =~= Seq::<Seq<char>>::empty());
            lemma_all_step(pending@, failed@, kv, k as int, (Set::<Seq<char>>::empty(), Set::<Seq<char>>::empty(), d_start), before_env, before_done, before, *env, done@.dom(), diags@);
        }
        k = k + 1;
    }
    proof {
        lemma_pending_names(locals@);
        assert forall|n: Seq<char>| #[trigger] pending@.contains_key(n) implies done@.dom().contains(n) by {
            assert(pending.key_seq().to_set().contains(n));
            let j = choose|j: int| 0 <= j < pending.key_seq().len() && pending.key_seq()[j] == n;
            assert(names@[j]@ == n);
        }
        assert(kv.take(names@.len() as int) =~= kv);
        assert(fixed_on(pending@, *env, *env, done@.dom()));
        if kinds_separate(pending@, *old(env)) {
            assert forall|n: Seq<char>| #[trigger] pending@.contains_key(n) implies value_claim(pending@[n], n, *env) by {
                assert(resolved_ok(pending@, done@.dom(), *env, n, failed@));
            }
            assert forall|i: int| 0 <= i < locals@.len() && on_cycle(pending@, (#[trigger] locals@[i]).name.name@)
                implies !holds_value(pending@[locals@[i].name.name@], locals@[i].name.name@, *env) by {
                lemma_cycle_unknown(pending@, *env, locals@[i].name.name@);
            }
        }
    }
}

/// One more top-level resolution extends the run over the first names.
proof fn lemma_all_step(
    pending: Map<Seq<char>, LocalExpr>,
    failed: Seq<Span>,
    kv: Seq<Seq<char>>,
    k: int,
    st0: (Set<Seq<char>>, Set<Seq<char>>, Seq<DiagView>),
    e0: Env,
    d0: Set<Seq<char>>,
    g0: Seq<DiagView>,
    e1: Env,
    d1: Set<Seq<char>>,
    g1: Seq<DiagView>,
)
    requires
        0 <= k < kv.len(),
        forall|fenv: Env| #[trigger] fixed_on(pending, fenv, e0, d0) ==> all_spec(pending, failed, fenv, kv.take(k), st0)
            == run_state(pending, d0, e0, g0),
        forall|fenv: Env| #[trigger] fixed_on(pending, fenv, e1, d1) ==> node_spec(
            pending,
            failed,
            fenv,
            kv[k],
            Seq::empty(),
            run_state(pending, d0, e0, g0),
        ) == run_state(pending, d1, e1, g1),
        d0.subset_of(d1),
        forall|x: Seq<char>| #[trigger] d0.contains(x) ==> same_meaning(e0, e1, x),
        agree_outside(e0, e1, pending.dom()),
    ensures
        forall|fenv: Env| #[trigger] fixed_on(pending, fenv, e1, d1) ==> all_spec(pending, failed, fenv, kv.take(k + 1), st0)
            == run_state(pending, d1, e1, g1),
{
    assert forall|fenv: Env| #[trigger] fixed_on(pending, fenv, e1, d1) implies all_spec(pending, failed, fenv, kv.take(k + 1), st0)
        == run_state(pending, d1, e1, g1) by {
        lemma_fixed_back(pending, fenv, e0, d0, e1, d1);
        assert(kv.take(k + 1).drop_last() =~= kv.take(k));
        assert(kv.take(k + 1).last() == kv[k]);
    }
}

proof fn lemma_pending_names(locals: Seq<LocalExpr>)
    ensures
        forall|i: int|
            0 <= i < locals.len() ==> pending_of(locals).contains_key(
                (#[trigger] locals[i]).name.name@,
            ),
    decreases locals.len(),
{
    if locals.len() > 0 {
        lemma_pending_names(locals.drop_last());
        assert forall|i: int| 0 <= i < locals.len() implies pending_of(locals).contains_key(
            (#[trigger] locals[i]).name.name@,
        ) by {
            if i < locals.len() - 1 {
                assert(locals.drop_last()[i] == locals[i]);
            }
        }
    }
}

/// The pending local of each name: the last local that declares it.
pub open spec fn pending_of(locals: Seq<LocalExpr>) -> Map<Seq<char>, LocalExpr>
    decreases locals.len(),
{
    if locals.len() == 0 {
        Map::empty()
    } else {
        pending_of(locals.drop_last()).insert(locals.last().name.name@, locals.last())
    }
}

} // verus!
