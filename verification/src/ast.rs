//! Source positions, identifiers, unit values and compile-time expressions.
use crate::text::{int_string, int_text, push_char, push_str};
use vstd::prelude::*;

verus! {

/// A byte range of one source file.
#[derive(Clone, Copy, Debug, PartialEq, Eq, Structural)]
pub struct Span {
    pub file: u32,
    pub start: usize,
    pub end: usize,
}

/// A name together with where it was written.
#[derive(Debug)]
pub struct Ident {
    pub name: String,
    pub span: Span,
}

impl Clone for Ident {
    fn clone(&self) -> (r: Self)
        ensures
            r == *self,
    {
        Ident { name: self.name.clone(), span: self.span }
    }
}

/// The physical dimension of a unit literal.
#[derive(Clone, Copy, Debug, PartialEq, Eq, Structural)]
pub enum UnitType {
    Length,
    Voltage,
    Current,
    Resistance,
    Capacitance,
    Inductance,
    Frequency,
    Temperature,
    Power,
}

impl UnitType {
    /// The dimension's name as written in diagnostics.
    pub open spec fn name_text(self) -> Seq<char> {
        match self {
            UnitType::Length => "Length"@,
            UnitType::Voltage => "Voltage"@,
            UnitType::Current => "Current"@,
            UnitType::Resistance => "Resistance"@,
            UnitType::Capacitance => "Capacitance"@,
            UnitType::Inductance => "Inductance"@,
            UnitType::Frequency => "Frequency"@,
            UnitType::Temperature => "Temperature"@,
            UnitType::Power => "Power"@,
        }
    }

    /// The dimension's name as written in diagnostics.
    pub fn unit_name(&self) -> (s: &'static str)
        ensures
            s@ == self.name_text(),
    {
        match self {
            UnitType::Length => "Length",
            UnitType::Voltage => "Voltage",
            UnitType::Current => "Current",
            UnitType::Resistance => "Resistance",
            UnitType::Capacitance => "Capacitance",
            UnitType::Inductance => "Inductance",
            UnitType::Frequency => "Frequency",
            UnitType::Temperature => "Temperature",
            UnitType::Power => "Power",
        }
    }
}

/// An exact unit quantity: its dimension, its magnitude in femto-units
/// (10^-15 of the base unit, femto-millimetres for lengths), and its
/// source spelling.
#[derive(Debug)]
pub struct UnitValue {
    pub unit: UnitType,
    pub femto: i128,
    pub text: String,
}

/// The mathematical content of a unit value.
pub struct UnitView {
    pub unit: UnitType,
    pub femto: i128,
    pub text: Seq<char>,
}

impl View for UnitValue {
    type V = UnitView;

    open spec fn view(&self) -> UnitView {
        UnitView { unit: self.unit, femto: self.femto, text: self.text@ }
    }
}

impl Clone for UnitValue {
    fn clone(&self) -> (r: Self)
        ensures
            r == *self,
    {
        UnitValue { unit: self.unit, femto: self.femto, text: self.text.clone() }
    }
}

#[derive(Clone, Copy, Debug, PartialEq, Eq, Structural)]
pub enum UnaryOp {
    Plus,
    Neg,
}

#[derive(Clone, Copy, Debug, PartialEq, Eq, Structural)]
pub enum BinOp {
    Add,
    Sub,
    Mul,
    Div,
    Rem,
}

/// A compile-time Int/Length expression.
#[derive(Debug)]
#[allow(inconsistent_fields)]
pub enum Expr {
    Int(i64, Span),
    /// A unit literal; it may carry a unit other than Length, which the
    /// evaluator rejects by its actual unit.
    Length(UnitValue, Span),
    Paren(Box<Expr>, Span),
    Name(Ident),
    /// `name.len` — the declared length of a visible array.
    Len(Ident, Span),
    Unary { op: UnaryOp, rhs: Box<Expr>, span: Span },
    Binary { op: BinOp, lhs: Box<Expr>, rhs: Box<Expr>, span: Span },
}

impl Clone for Expr {
    fn clone(&self) -> (r: Self)
        ensures
            r == *self,
        decreases self,
    {
        match self {
            Expr::Int(n, s) => Expr::Int(*n, *s),
            Expr::Length(v, s) => Expr::Length(v.clone(), *s),
            Expr::Paren(inner, s) => Expr::Paren(Box::new((**inner).clone()), *s),
            Expr::Name(id) => Expr::Name(id.clone()),
            Expr::Len(id, s) => Expr::Len(id.clone(), *s),
            Expr::Unary { op, rhs, span } => Expr::Unary {
                op: *op,
                rhs: Box::new((**rhs).clone()),
                span: *span,
            },
            Expr::Binary { op, lhs, rhs, span } => Expr::Binary {
                op: *op,
                lhs: Box::new((**lhs).clone()),
                rhs: Box::new((**rhs).clone()),
                span: *span,
            },
        }
    }
}

/// The symbol of a binary operator.
pub open spec fn op_text(op: BinOp) -> Seq<char> {
    match op {
        BinOp::Add => seq!['+'],
        BinOp::Sub => seq!['-'],
        BinOp::Mul => seq!['*'],
        BinOp::Div => seq!['/'],
        BinOp::Rem => seq!['%'],
    }
}

/// The symbol of a binary operator.
pub fn op_sym(op: BinOp) -> (c: char)
    ensures
        seq![c] == op_text(op),
{
    match op {
        BinOp::Add => '+',
        BinOp::Sub => '-',
        BinOp::Mul => '*',
        BinOp::Div => '/',
        BinOp::Rem => '%',
    }
}

/// The canonical source text of an expression.
pub open spec fn text_of(e: Expr) -> Seq<char>
    decreases e,
{
    match e {
        Expr::Int(n, _) => int_text(n as int),
        Expr::Length(v, _) => v.text@,
        Expr::Paren(inner, _) => seq!['('] + text_of(*inner) + seq![')'],
        Expr::Name(id) => id.name@,
        Expr::Len(id, _) => id.name@ + seq!['.', 'l', 'e', 'n'],
        Expr::Unary { op, rhs, .. } => match op {
            UnaryOp::Plus => seq!['+'] + text_of(*rhs),
            UnaryOp::Neg => seq!['-'] + text_of(*rhs),
        },
        Expr::Binary { op, lhs, rhs, .. } => text_of(*lhs) + seq![' '] + op_text(op) + seq![' ']
            + text_of(*rhs),
    }
}

fn push_expr_text(s: &mut String, e: &Expr)
    ensures
        final(s)@ == old(s)@ + text_of(*e),
    decreases e,
{
    match e {
        Expr::Int(n, _) => {
            let t = int_string(*n as i128);
            push_str(s, t.as_str());
        },
        Expr::Length(v, _) => {
            push_str(s, v.text.as_str());
        },
        Expr::Paren(inner, _) => {
            push_char(s, '(');
            push_expr_text(s, inner);
            push_char(s, ')');
        },
        Expr::Name(id) => {
            push_str(s, id.name.as_str());
        },
        Expr::Len(id, _) => {
            push_str(s, id.name.as_str());
            push_char(s, '.');
            push_char(s, 'l');
            push_char(s, 'e');
            push_char(s, 'n');
        },
        Expr::Unary { op, rhs, .. } => {
            match op {
                UnaryOp::Plus => push_char(s, '+'),
                UnaryOp::Neg => push_char(s, '-'),
            }
            push_expr_text(s, rhs);
        },
        Expr::Binary { op, lhs, rhs, .. } => {
            push_expr_text(s, lhs);
            push_char(s, ' ');
            push_char(s, op_sym(*op));
            push_char(s, ' ');
            push_expr_text(s, rhs);
        },
    }
    assert(final(s)@ =~= old(s)@ + text_of(*e));
}

/// The canonical source text of an expression.
pub fn expr_text(e: &Expr) -> (s: String)
    ensures
        s@ == text_of(*e),
{
    let mut s = String::new();
    push_expr_text(&mut s, e);
    assert(s@ =~= text_of(*e));
    s
}

impl Expr {
    /// Where the expression was written.
    pub open spec fn span_of(self) -> Span {
        match self {
            Expr::Int(_, s) => s,
            Expr::Length(_, s) => s,
            Expr::Paren(_, s) => s,
            Expr::Name(id) => id.span,
            Expr::Len(_, s) => s,
            Expr::Unary { span, .. } => span,
            Expr::Binary { span, .. } => span,
        }
    }

    /// Where the expression was written.
    pub fn span(&self) -> (s: Span)
        ensures
            s == self.span_of(),
    {
        match self {
            Expr::Int(_, s) => *s,
            Expr::Length(_, s) => *s,
            Expr::Paren(_, s) => *s,
            Expr::Name(id) => id.span,
            Expr::Len(_, s) => *s,
            Expr::Unary { span, .. } => *span,
            Expr::Binary { span, .. } => *span,
        }
    }
}

} // verus!

verus! {

/// The declared type of a `const`.
#[derive(Clone, Copy, Debug, PartialEq, Eq, Structural)]
pub enum ConstTy {
    Int,
    Length,
}

/// `const NAME: TY = VALUE`
#[derive(Debug)]
pub struct ConstStmt {
    pub name: Ident,
    pub ty: ConstTy,
    pub value: Expr,
    pub span: Span,
}

/// The bound of a generic parameter.
#[derive(Debug)]
pub enum GenericBound {
    /// `const N: Int`
    Int(Span),
    /// A unit-typed value, e.g. `V: Voltage`.
    Unit(UnitType, Span),
    /// A type bounded by traits, e.g. `T: Led`.
    Traits(Vec<Ident>),
}

/// A generic parameter of a device, fn or subdesign.
#[derive(Debug)]
pub struct GenericParam {
    pub name: Ident,
    pub bound: GenericBound,
    /// The source text of the default argument, if any.
    pub default: Option<String>,
}

/// One generic argument as written.
#[derive(Debug)]
pub enum GenericArg {
    /// A bare name (a generic passthrough, a device, a const...).
    Name(Ident),
    /// A computed expression.
    Expr(Expr),
    /// A unit literal such as `100nF`.
    Unit(UnitValue, Span),
    /// A bare number, kept as written.
    Number(String, Span),
}

/// A reference to a device, part or subdesign with its selectors.
#[derive(Debug)]
pub struct TypeRef {
    pub name: Ident,
    pub variant: Option<Ident>,
    pub generic_args: Vec<GenericArg>,
    pub span: Span,
}

/// An index selector on a reference.
#[derive(Debug)]
pub enum IndexSel {
    Single(Expr, Span),
    Range { start: Expr, end: Expr, inclusive: bool, step: Option<Expr>, span: Span },
    List(Vec<Expr>, Span),
}

/// `base[index].pin`
#[derive(Debug)]
pub struct PinRef {
    pub base: Ident,
    pub index: Option<IndexSel>,
    pub pin: Option<Ident>,
    pub span: Span,
}

/// An attribute written before an instance, such as
/// `#[bypass(a[0].P, 100nF)]`: its name and the pin references among its
/// arguments.
#[derive(Debug)]
pub struct InstAttr {
    pub name: Ident,
    pub refs: Vec<PinRef>,
    pub span: Span,
}

/// `inst NAME: TYPE` or `inst NAME: [TYPE; LEN]`, with its attributes.
#[derive(Debug)]
pub struct InstStmt {
    pub attrs: Vec<InstAttr>,
    pub name: Ident,
    pub ty: TypeRef,
    pub array_len: Option<(Expr, Span)>,
    pub span: Span,
}

/// `PORT: value` in a subdesign use site.
#[derive(Debug)]
pub struct PortConn {
    pub port: Ident,
    pub value: PinRef,
    pub span: Span,
}

/// `subdesign NAME: TYPE { PORT: value, ... }`
#[derive(Debug)]
pub struct SubdesignUseStmt {
    pub name: Ident,
    pub ty: TypeRef,
    pub array_len: Option<(Expr, Span)>,
    pub conns: Vec<PortConn>,
    pub span: Span,
}

/// `callee::<generics>(args)`
#[derive(Debug)]
pub struct CallStmt {
    pub callee: Ident,
    pub generic_args: Vec<GenericArg>,
    pub args: Vec<PinRef>,
    pub span: Span,
}

/// `net NAME: members` (the name may be absent: `net _: ...`)
#[derive(Debug)]
pub struct NetStmt {
    pub name: Option<Ident>,
    pub members: Vec<PinRef>,
    pub span: Span,
}

/// `nc: members`
#[derive(Debug)]
pub struct NcStmt {
    pub members: Vec<PinRef>,
    pub span: Span,
}

/// One segment of a placement path, with an optional index.
#[derive(Debug)]
pub struct PathSeg {
    pub name: Ident,
    pub index: Option<(Expr, Span)>,
}

/// `place PATH at (x, y) rotate R`
#[derive(Debug)]
pub struct Placement {
    pub path: Vec<PathSeg>,
    pub at: (Expr, Expr),
    pub rotate: Option<Expr>,
    pub span: Span,
}

/// `for LABEL: BINDER in START..END { ... }` inside a layout block.
#[derive(Debug)]
pub struct LayoutFor {
    pub label: Ident,
    pub binder: Ident,
    pub start: Expr,
    pub end: Expr,
    pub consts: Vec<ConstStmt>,
    pub placements: Vec<Placement>,
    pub loops: Vec<LayoutFor>,
    pub span: Span,
}

/// `layout { ... }`
#[derive(Debug)]
pub struct LayoutBlock {
    pub consts: Vec<ConstStmt>,
    pub placements: Vec<Placement>,
    pub loops: Vec<LayoutFor>,
    pub span: Span,
}

/// `for LABEL: BINDER in START..END { ... }` in a circuit body.
#[derive(Debug)]
pub struct ForStmt {
    pub label: Ident,
    pub binder: Ident,
    pub start: Expr,
    pub end: Expr,
    pub body: Vec<Stmt>,
    pub span: Span,
}

/// A statement of a fn, subdesign or design body.
#[derive(Debug)]
pub enum Stmt {
    Const(ConstStmt),
    For(ForStmt),
    Inst(InstStmt),
    SubdesignUse(SubdesignUseStmt),
    Call(CallStmt),
    Layout(LayoutBlock),
    Net(NetStmt),
    Nc(NcStmt),
}

/// The type of a fn parameter.
#[derive(Debug)]
pub enum FnParamTy {
    /// A single pin.
    Pin(Span),
    /// An instance whose type is a generic parameter.
    Generic(Ident),
    /// `impl Trait` instance.
    ImplTrait(Vec<Ident>, Span),
}

#[derive(Debug)]
pub struct FnParam {
    pub name: Ident,
    pub ty: FnParamTy,
    pub span: Span,
}

/// `fn NAME<generics>(params) { body }`
#[derive(Debug)]
pub struct FnDef {
    pub name: Ident,
    pub generics: Vec<GenericParam>,
    pub params: Vec<FnParam>,
    pub body: Vec<Stmt>,
}

/// A port of a subdesign.
#[derive(Debug)]
pub struct Port {
    pub name: Ident,
    pub span: Span,
}

/// `subdesign NAME<generics> { ports; body }`
#[derive(Debug)]
pub struct SubdesignDef {
    pub name: Ident,
    pub generics: Vec<GenericParam>,
    pub ports: Vec<Port>,
    pub body: Vec<Stmt>,
}

/// `design NAME { body }`
#[derive(Debug)]
pub struct DesignDef {
    pub name: Ident,
    pub body: Vec<Stmt>,
}

/// A pin of a device.
#[derive(Debug)]
pub struct PinDef {
    pub name: Ident,
}

/// A structural variant of a device, with its own pins.
#[derive(Debug)]
pub struct VariantDef {
    pub name: String,
    pub pins: Vec<PinDef>,
}

/// `device NAME<generics> { pins; variants }`
#[derive(Debug)]
pub struct DeviceDef {
    pub name: Ident,
    pub generics: Vec<GenericParam>,
    pub pins: Vec<PinDef>,
    pub variants: Vec<VariantDef>,
}

/// `part NAME: DEVICE[VARIANT]`
#[derive(Debug)]
pub struct PartDef {
    pub name: Ident,
    pub device: TypeRef,
}

} // verus!
