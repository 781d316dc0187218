//! Expansion metering: deterministic budgets so that a parameterized design
//! cannot expand without bound before the compiler notices.
//!
//! Three limits, charged before anything is materialized, so a tripped meter
//! leaves nothing half-built: 100,000 cumulative entered iterations,
//! 1,000,000 work items, 64 active loop frames. Metering is active only when
//! the reachable expansion graph uses parameterized syntax; a purely literal
//! graph is never counted or limited.
use crate::ast::{
    DesignDef, Expr, GenericArg, GenericBound, GenericParam, IndexSel, InstAttr, LayoutBlock,
    PinRef, Placement, PortConn, Span, Stmt,
};
use crate::strmap::StrMap;
use crate::world::World;
use crate::diag::{err, Code, Diagnostic, Diagnostics};
use crate::text::{nat_text, push_char, push_nat, push_str};
use vstd::prelude::*;

verus! {

pub const MAX_ITERATIONS: u64 = 100_000;

pub const MAX_WORK_ITEMS: u64 = 1_000_000;

pub const MAX_FRAMES: usize = 64;

/// `digits` with a `,` before every group of three digits counted from the
/// right, up to position `i`.
pub open spec fn grouped(digits: Seq<char>, i: int) -> Seq<char>
    decreases i,
{
    if i <= 0 {
        Seq::empty()
    } else {
        let p = grouped(digits, i - 1);
        let p = if i - 1 > 0 && (digits.len() - (i - 1)) % 3 == 0 {
            p.push(',')
        } else {
            p
        };
        p.push(digits[i - 1])
    }
}

/// `n` in decimal with thousands separators, e.g. `100,001`.
pub open spec fn count_text(n: nat) -> Seq<char> {
    grouped(nat_text(n), nat_text(n).len() as int)
}

/// `n` in decimal with thousands separators.
pub fn fmt_count(n: u64) -> (s: String)
    ensures
        s@ == count_text(n as nat),
{
    let mut digits = String::new();
    push_nat(&mut digits, n as u128);
    assert(digits@ =~= nat_text(n as nat));
    let len = digits.as_str().unicode_len();
    let mut out = String::new();
    let mut i: usize = 0;
    assert(out@ =~= grouped(digits@, 0));
    while i < len
        invariant
            len == digits@.len(),
            i <= len,
            out@ == grouped(digits@, i as int),
        decreases len - i,
    {
        if i > 0 && (len - i) % 3 == 0 {
            push_char(&mut out, ',');
        }
        push_char(&mut out, digits.as_str().get_char(i));
        i = i + 1;
    }
    out
}

/// A limit in decimal with thousands separators.
pub fn fmt_limit(n: u64) -> (s: String)
    ensures
        s@ == count_text(n as nat),
{
    fmt_count(n)
}

/// The budget ledger. Every method answers `true` while within budget; the
/// first overflow reports one E1405 (with the site) and answers `false`, and
/// so does every later call, so no caller goes on materializing after a trip.
pub struct Meter {
    pub active: bool,
    pub iterations: u64,
    pub work: u64,
    pub frames: usize,
    /// Set by the first overflow and never cleared.
    pub tripped: bool,
}

/// The sum of `a` and `b` modulo 2^64.
pub open spec fn wrapped_sum(a: u64, b: u64) -> u64 {
    if a + b > u64::MAX {
        (a + b - 0x1_0000_0000_0000_0000) as u64
    } else {
        (a + b) as u64
    }
}

/// The smaller of two counts.
pub open spec fn min_u64(a: u64, b: u64) -> u64 {
    if a <= b {
        a
    } else {
        b
    }
}

pub open spec fn work_msg(what: Seq<char>, next: u64) -> Seq<char> {
    what + " would exceed the deterministic expansion budget: "@ + nat_text(
        min_u64(next, (u64::MAX / 2) as u64) as nat,
    ) + " work items (limit "@ + count_text(MAX_WORK_ITEMS as nat) + ")"@
}

pub open spec fn iteration_msg(next: u64) -> Seq<char> {
    "iteration "@ + nat_text(next as nat) + " would exceed the deterministic expansion budget: "@
        + count_text(next as nat) + " iterations (limit "@ + count_text(MAX_ITERATIONS as nat)
        + ")"@
}

pub open spec fn frame_msg(frames: nat) -> Seq<char> {
    "loop nesting would exceed the deterministic expansion budget: "@ + nat_text(frames)
        + " active frames (limit "@ + nat_text(MAX_FRAMES as nat) + ")"@
}

impl Meter {
    /// Whether the meter has tripped.
    pub open spec fn is_tripped(&self) -> bool {
        self.tripped
    }

    /// An active, untripped meter has never exceeded any limit.
    pub open spec fn within_budget(&self) -> bool {
        self.active && !self.tripped ==> self.iterations <= MAX_ITERATIONS && self.work
            <= MAX_WORK_ITEMS && self.frames <= MAX_FRAMES
    }

    /// The meter after charging `n` work items, and the answer.
    pub open spec fn charge_next(self, n: u64) -> (Meter, bool) {
        if !self.active || self.tripped {
            (self, !self.tripped)
        } else if self.work + n > u64::MAX || wrapped_sum(self.work, n) > MAX_WORK_ITEMS {
            (Meter { tripped: true, ..self }, false)
        } else {
            (Meter { work: wrapped_sum(self.work, n), ..self }, true)
        }
    }

    /// The meter after entering one more iteration, and the answer.
    pub open spec fn enter_iteration_next(self) -> (Meter, bool) {
        if !self.active || self.tripped {
            (self, !self.tripped)
        } else if self.iterations + 1 > MAX_ITERATIONS {
            (Meter { tripped: true, ..self }, false)
        } else {
            (Meter { iterations: (self.iterations + 1) as u64, ..self }, true)
        }
    }

    /// The meter after entering one more loop frame, and the answer.
    pub open spec fn enter_frame_next(self) -> (Meter, bool) {
        if !self.active || self.tripped {
            (self, !self.tripped)
        } else if self.frames + 1 > MAX_FRAMES {
            (Meter { tripped: true, ..self }, false)
        } else {
            (Meter { frames: (self.frames + 1) as usize, ..self }, true)
        }
    }

    /// The meter after leaving a loop frame.
    pub open spec fn leave_frame_next(self) -> Meter {
        if self.frames > 0 {
            Meter { frames: (self.frames - 1) as usize, ..self }
        } else {
            self
        }
    }

    /// A fresh meter, counting only when `active`.
    pub fn new(active: bool) -> (m: Meter)
        ensures
            m.active == active,
            m.iterations == 0,
            m.work == 0,
            m.frames == 0,
            !m.is_tripped(),
            m.within_budget(),
    {
        Meter { active, iterations: 0, work: 0, frames: 0, tripped: false }
    }

    /// Whether a budget has been exceeded (assembly is skipped after a trip).
    pub fn tripped(&self) -> (b: bool)
        ensures
            b == self.is_tripped(),
    {
        self.tripped
    }

    /// Charges `n` work items; on the first overflow reports E1405 (once)
    /// and answers `false`.
    pub fn charge(&mut self, n: u64, what: &str, span: Span, diags: &mut Diagnostics) -> (ok: bool)
        ensures
            (*final(self), ok) == old(self).charge_next(n),
            old(self).within_budget() ==> final(self).within_budget(),
            final(diags)@ == (if !old(self).is_tripped() && final(self).is_tripped() {
                old(diags)@.push(
                    err(Code::E1405, span, work_msg(what@, wrapped_sum(old(self).work, n))),
                )
            } else {
                old(diags)@
            }),
    {
        if !self.active || self.tripped {
            return !self.tripped;
        }
        let over = n > u64::MAX - self.work;
        let next: u64 = if over {
            n - (u64::MAX - self.work) - 1
        } else {
            self.work + n
        };
        if over || next > MAX_WORK_ITEMS {
            self.tripped = true;
            let shown: u64 = if next <= u64::MAX / 2 {
                next
            } else {
                u64::MAX / 2
            };
            let mut message = String::new();
            push_str(&mut message, what);
            push_str(&mut message, " would exceed the deterministic expansion budget: ");
            push_nat(&mut message, shown as u128);
            push_str(&mut message, " work items (limit ");
            let limit = fmt_limit(MAX_WORK_ITEMS);
            push_str(&mut message, limit.as_str());
            push_str(&mut message, ")");
            assert(message@ =~= work_msg(what@, wrapped_sum(old(self).work, n)));
            diags.push(Diagnostic::error(Code::E1405, span, message));
            return false;
        }
        self.work = next;
        true
    }

    /// One more entered iteration; the first overflow (the entry after the
    /// limit) reports E1405 naming the failing count.
    pub fn enter_iteration(&mut self, span: Span, diags: &mut Diagnostics) -> (ok: bool)
        requires
            old(self).active && !old(self).tripped ==> old(self).iterations < u64::MAX,
        ensures
            (*final(self), ok) == old(self).enter_iteration_next(),
            old(self).within_budget() ==> final(self).within_budget(),
            final(diags)@ == (if !old(self).is_tripped() && final(self).is_tripped() {
                old(diags)@.push(
                    err(Code::E1405, span, iteration_msg((old(self).iterations + 1) as u64)),
                )
            } else {
                old(diags)@
            }),
    {
        if !self.active || self.tripped {
            return !self.tripped;
        }
        if self.iterations >= MAX_ITERATIONS {
            self.tripped = true;
            let next = self.iterations + 1;
            let mut message = String::new();
            push_str(&mut message, "iteration ");
            push_nat(&mut message, next as u128);
            push_str(&mut message, " would exceed the deterministic expansion budget: ");
            let count = fmt_count(next);
            push_str(&mut message, count.as_str());
            push_str(&mut message, " iterations (limit ");
            let limit = fmt_limit(MAX_ITERATIONS);
            push_str(&mut message, limit.as_str());
            push_str(&mut message, ")");
            assert(message@ =~= iteration_msg((old(self).iterations + 1) as u64));
            diags.push(Diagnostic::error(Code::E1405, span, message));
            return false;
        }
        self.iterations = self.iterations + 1;
        true
    }

    /// Enters a loop frame; the nesting depth (64 active frames) is part of
    /// the budget.
    pub fn enter_frame(&mut self, span: Span, diags: &mut Diagnostics) -> (ok: bool)
        requires
            old(self).active && !old(self).tripped ==> old(self).frames < usize::MAX,
        ensures
            (*final(self), ok) == old(self).enter_frame_next(),
            old(self).within_budget() ==> final(self).within_budget(),
            final(diags)@ == (if !old(self).is_tripped() && final(self).is_tripped() {
                old(diags)@.push(err(Code::E1405, span, frame_msg((old(self).frames + 1) as nat)))
            } else {
                old(diags)@
            }),
    {
        if !self.active || self.tripped {
            return !self.tripped;
        }
        if self.frames >= MAX_FRAMES {
            self.tripped = true;
            let mut message = String::new();
            push_str(&mut message, "loop nesting would exceed the deterministic expansion budget: ");
            push_nat(&mut message, (self.frames as u128) + 1);
            push_str(&mut message, " active frames (limit ");
            push_nat(&mut message, MAX_FRAMES as u128);
            push_str(&mut message, ")");
            assert(message@ =~= frame_msg((old(self).frames + 1) as nat));
            diags.push(Diagnostic::error(Code::E1405, span, message));
            return false;
        }
        self.frames = self.frames + 1;
        true
    }

    /// Leaves a loop frame.
    pub fn leave_frame(&mut self)
        ensures
            *final(self) == old(self).leave_frame_next(),
            old(self).within_budget() ==> final(self).within_budget(),
    {
        if self.frames > 0 {
            self.frames = self.frames - 1;
        }
    }
}

/// One metered operation.
pub enum MeterCall {
    Charge(u64),
    EnterIteration,
    EnterFrame,
    LeaveFrame,
}

/// The meter after one operation, and whether that operation reported an
/// E1405 (exactly when it tripped the meter).
pub open spec fn step(m: Meter, c: MeterCall) -> (Meter, bool) {
    let next = match c {
        MeterCall::Charge(n) => m.charge_next(n).0,
        MeterCall::EnterIteration => m.enter_iteration_next().0,
        MeterCall::EnterFrame => m.enter_frame_next().0,
        MeterCall::LeaveFrame => m.leave_frame_next(),
    };
    (next, !m.tripped && next.tripped)
}

/// The meter after a sequence of operations, and how many E1405 reports
/// they made.
pub open spec fn run(m: Meter, calls: Seq<MeterCall>) -> (Meter, nat)
    decreases calls.len(),
{
    if calls.len() == 0 {
        (m, 0)
    } else {
        let (prev, n) = run(m, calls.drop_last());
        let (next, reported) = step(prev, calls.last());
        (next, if reported { n + 1 } else { n })
    }
}

/// A tripped meter stays tripped, answers `false` to every charge and
/// entry, and changes no count except by leaving frames.
pub proof fn lemma_trip_is_sticky(m: Meter, n: u64)
    requires
        m.tripped,
    ensures
        m.charge_next(n) == (m, false),
        m.enter_iteration_next() == (m, false),
        m.enter_frame_next() == (m, false),
        m.leave_frame_next().tripped,
{
}

/// An inactive meter never counts and never trips.
pub proof fn lemma_inactive_never_counts(m: Meter, n: u64)
    requires
        !m.active,
        !m.tripped,
    ensures
        m.charge_next(n) == (m, true),
        m.enter_iteration_next() == (m, true),
        m.enter_frame_next() == (m, true),
{
}

/// Leaving a frame undoes entering one.
pub proof fn lemma_leave_undoes_enter(m: Meter)
    requires
        m.enter_frame_next().1,
        m.active,
    ensures
        m.enter_frame_next().0.leave_frame_next() == m,
{
}

/// However long a sequence of operations, it reports E1405 at most once,
/// and it reports it exactly when it trips a meter that had not tripped.
pub proof fn lemma_reports_at_most_once(m: Meter, calls: Seq<MeterCall>)
    ensures
        run(m, calls).1 <= 1,
        run(m, calls).1 == 1 <==> (!m.tripped && run(m, calls).0.tripped),
        m.tripped ==> run(m, calls).0.tripped,
    decreases calls.len(),
{
    if calls.len() > 0 {
        lemma_reports_at_most_once(m, calls.drop_last());
        let prev = run(m, calls.drop_last()).0;
        if prev.tripped {
            lemma_trip_is_sticky(prev, 0);
        }
    }
}

/// What one operation answers: whether it was admitted. Leaving a frame
/// always is.
pub open spec fn answer(m: Meter, c: MeterCall) -> bool {
    match c {
        MeterCall::Charge(n) => m.charge_next(n).1,
        MeterCall::EnterIteration => m.enter_iteration_next().1,
        MeterCall::EnterFrame => m.enter_frame_next().1,
        MeterCall::LeaveFrame => true,
    }
}

/// A meter trips only where an operation is refused: when a sequence of
/// operations leaves an untripped meter tripped, one of them answered
/// `false`.
pub proof fn lemma_trip_needs_refusal(m: Meter, calls: Seq<MeterCall>)
    requires
        !m.tripped,
        run(m, calls).0.tripped,
    ensures
        exists|i: int| 0 <= i < calls.len() && !answer(run(m, calls.take(i)).0, #[trigger] calls[i]),
    decreases calls.len(),
{
    let prev = run(m, calls.drop_last()).0;
    let i = calls.len() - 1;
    if prev.tripped {
        lemma_trip_needs_refusal(m, calls.drop_last());
        let j = choose|j: int|
            0 <= j < calls.drop_last().len() && !answer(
                run(m, calls.drop_last().take(j)).0,
                #[trigger] calls.drop_last()[j],
            );
        assert(calls.drop_last().take(j) =~= calls.take(j));
        assert(calls.drop_last()[j] == calls[j]);
    } else {
        assert(calls.take(i) =~= calls.drop_last());
        assert(!answer(run(m, calls.take(i)).0, calls[i]));
    }
}

/// The meter after `k` entered iterations.
pub open spec fn after_iterations(m: Meter, k: nat) -> Meter
    decreases k,
{
    if k == 0 {
        m
    } else {
        after_iterations(m, (k - 1) as nat).enter_iteration_next().0
    }
}

/// The iteration budget is exact: from a fresh active meter, the first
/// 100,000 entries are admitted and counted, and the 100,001st trips it.
pub proof fn lemma_iteration_budget_exact(m: Meter, k: nat)
    requires
        m.active,
        !m.tripped,
        m.iterations == 0,
        k <= MAX_ITERATIONS,
    ensures
        after_iterations(m, k) == (Meter { iterations: k as u64, ..m }),
        k < MAX_ITERATIONS ==> after_iterations(m, k).enter_iteration_next().1,
        k == MAX_ITERATIONS ==> !after_iterations(m, k).enter_iteration_next().1
            && after_iterations(m, k).enter_iteration_next().0.tripped,
    decreases k,
{
    if k > 0 {
        lemma_iteration_budget_exact(m, (k - 1) as nat);
    }
}

// ---------------------------------------------------------------------------
// When metering is active
// ---------------------------------------------------------------------------

/// An expression is parameterized when it is anything but a literal: an
/// integer or unit literal, possibly signed or parenthesized, is literal;
/// names, `.len` and binary operations are parameterized.
pub open spec fn is_m2_expr(e: Expr) -> bool
    decreases e,
{
    match e {
        Expr::Int(_, _) => false,
        Expr::Length(_, _) => false,
        Expr::Paren(inner, _) => is_m2_expr(*inner),
        Expr::Unary { rhs, .. } => is_m2_expr(*rhs),
        _ => true,
    }
}

pub open spec fn is_m2_opt_expr(e: Option<Expr>) -> bool {
    match e {
        Some(e) => is_m2_expr(e),
        None => false,
    }
}

/// An optional indexed position whose expression is parameterized.
pub open spec fn is_m2_indexed(e: Option<(Expr, Span)>) -> bool {
    match e {
        Some((e, _)) => is_m2_expr(e),
        None => false,
    }
}

pub open spec fn any_m2_expr(es: Seq<Expr>) -> bool {
    exists|i: int| 0 <= i < es.len() && is_m2_expr(#[trigger] es[i])
}

pub open spec fn is_m2_sel(sel: IndexSel) -> bool {
    match sel {
        IndexSel::Single(e, _) => is_m2_expr(e),
        IndexSel::Range { start, end, step, .. } => is_m2_expr(start) || is_m2_expr(end)
            || is_m2_opt_expr(step),
        IndexSel::List(items, _) => any_m2_expr(items@),
    }
}

/// Some member's index selector is parameterized.
/// Some attribute of an instance references a pin through a parameterized
/// selector.
pub open spec fn attrs_m2(attrs: Seq<InstAttr>) -> bool {
    exists|i: int| 0 <= i < attrs.len() && members_m2(#[trigger] attrs[i].refs@)
}

pub open spec fn members_m2(members: Seq<PinRef>) -> bool {
    exists|i: int|
        0 <= i < members.len() && (#[trigger] members[i]).index is Some && is_m2_sel(
            members[i].index->0,
        )
}

/// Some connection's value has a parameterized index selector.
pub open spec fn conns_m2(conns: Seq<PortConn>) -> bool {
    exists|i: int|
        0 <= i < conns.len() && (#[trigger] conns[i]).value.index is Some && is_m2_sel(
            conns[i].value.index->0,
        )
}

/// A layout placement with a parameterized position, rotation or path index.
pub open spec fn placement_m2(p: Placement) -> bool {
    ||| is_m2_expr(p.at.0)
    ||| is_m2_expr(p.at.1)
    ||| is_m2_opt_expr(p.rotate)
    ||| exists|k: int| 0 <= k < p.path@.len() && is_m2_indexed(#[trigger] p.path@[k].index)
}

/// A layout block with consts, a loop, or a parameterized placement.
pub open spec fn layout_m2(block: LayoutBlock) -> bool {
    ||| block.consts@.len() > 0
    ||| block.loops@.len() > 0
    ||| exists|k: int| 0 <= k < block.placements@.len() && placement_m2(#[trigger] block.placements@[k])
}

/// Some generic parameter is Int-bound.
pub open spec fn has_int_generic(gs: Seq<GenericParam>) -> bool {
    exists|i: int| 0 <= i < gs.len() && (#[trigger] gs[i]).bound is Int
}

/// Some generic argument is a computed expression.
pub open spec fn has_expr_arg(args: Seq<GenericArg>) -> bool {
    exists|i: int| 0 <= i < args.len() && (#[trigger] args[i]) is Expr
}

/// A statement that is itself parameterized syntax, looking at most at the
/// generics of the definition it uses.
pub open spec fn stmt_m2(world: World, s: Stmt) -> bool {
    match s {
        Stmt::Const(_) => true,
        Stmt::For(_) => true,
        Stmt::Inst(i) => is_m2_indexed(i.array_len) || has_expr_arg(i.ty.generic_args@) || attrs_m2(
            i.attrs@,
        ),
        Stmt::SubdesignUse(u) => is_m2_indexed(u.array_len) || conns_m2(u.conns@) || (
        world.subdesigns@.contains_key(u.ty.name.name@) && has_int_generic(
            world.subdesigns@[u.ty.name.name@].generics@,
        )),
        Stmt::Call(c) => has_expr_arg(c.generic_args@) || members_m2(c.args@) || (world.fns@.contains_key(c.callee.name@)
            && has_int_generic(world.fns@[c.callee.name@].generics@)),
        Stmt::Layout(b) => layout_m2(b),
        Stmt::Net(n) => members_m2(n.members@),
        Stmt::Nc(nc) => members_m2(nc.members@),
    }
}

/// The definition a statement expands into, if any: a declared subdesign
/// of a use site, or a declared fn of a call.
pub open spec fn stmt_edge(world: World, s: Stmt) -> Option<Seq<char>> {
    match s {
        Stmt::SubdesignUse(u) => if world.subdesigns@.contains_key(u.ty.name.name@) {
            Some(u.ty.name.name@)
        } else {
            None
        },
        Stmt::Call(c) => if world.fns@.contains_key(c.callee.name@) {
            Some(c.callee.name@)
        } else {
            None
        },
        _ => None,
    }
}

/// No statement of `body` is parameterized, and every definition it
/// expands into is in `s`.
pub open spec fn body_clean(world: World, body: Seq<Stmt>, s: Set<Seq<char>>) -> bool {
    forall|i: int|
        0 <= i < body.len() ==> !stmt_m2(world, #[trigger] body[i]) && (stmt_edge(world, body[i]) is Some
            ==> s.contains(stmt_edge(world, body[i])->0))
}

/// Every definition named `n` has a clean body with respect to `s`.
pub open spec fn def_clean(world: World, n: Seq<char>, s: Set<Seq<char>>) -> bool {
    &&& world.fns@.contains_key(n) ==> body_clean(world, world.fns@[n].body@, s)
    &&& world.subdesigns@.contains_key(n) ==> body_clean(world, world.subdesigns@[n].body@, s)
}

/// `s` is closed under expansion and free of parameterized syntax.
pub open spec fn defs_closed(world: World, s: Set<Seq<char>>) -> bool {
    forall|n: Seq<char>| #[trigger] s.contains(n) ==> def_clean(world, n, s)
}

/// Everything a design expands into, transitively, is literal syntax: some
/// closed set of definitions covers the design's expansions and none of
/// them, nor the design body, uses parameterized syntax.
pub open spec fn expansion_literal(world: World, design_body: Seq<Stmt>) -> bool {
    exists|s: Set<Seq<char>>| body_clean(world, design_body, s) && defs_closed(world, s)
}

/// No name is both a fn and a subdesign.
pub open spec fn names_disjoint(world: World) -> bool {
    forall|n: Seq<char>| #[trigger] world.fns@.contains_key(n) ==> !world.subdesigns@.contains_key(n)
}

/// All definition names of the world.
pub open spec fn def_names(world: World) -> Set<Seq<char>> {
    world.fns@.dom().union(world.subdesigns@.dom())
}

proof fn lemma_def_clean_mono(world: World, n: Seq<char>, a: Set<Seq<char>>, b: Set<Seq<char>>)
    requires
        def_clean(world, n, a),
        a.subset_of(b),
    ensures
        def_clean(world, n, b),
{
}

/// Whether `e` mentions a name, an array's `.len` or a binary operation
/// anywhere: whether its value depends on more than the literals written
/// in it. Integer and unit literals, signed or parenthesized, mention none.
pub open spec fn mentions_parameter(e: Expr) -> bool
    decreases e,
{
    match e {
        Expr::Name(_) => true,
        Expr::Len(_, _) => true,
        Expr::Binary { .. } => true,
        Expr::Paren(inner, _) => mentions_parameter(*inner),
        Expr::Unary { rhs, .. } => mentions_parameter(*rhs),
        Expr::Int(_, _) => false,
        Expr::Length(_, _) => false,
    }
}

/// Whether an index selector mentions a parameter in any of its bounds,
/// its step or its items.
pub open spec fn selector_mentions_parameter(sel: IndexSel) -> bool {
    match sel {
        IndexSel::Single(e, _) => mentions_parameter(e),
        IndexSel::Range { start, end, step, .. } => mentions_parameter(start) || mentions_parameter(end) || (
        step is Some && mentions_parameter(step->0)),
        IndexSel::List(items, _) => exists|k: int| 0 <= k < items@.len() && mentions_parameter(#[trigger] items@[k]),
    }
}

/// An expression counts as parameterized syntax exactly when it mentions
/// a name, a `.len` or a binary operation.
pub proof fn law_parameterized_means_mentions_parameter(e: Expr)
    ensures
        is_m2_expr(e) == mentions_parameter(e),
    decreases e,
{
    match e {
        Expr::Paren(inner, _) => law_parameterized_means_mentions_parameter(*inner),
        Expr::Unary { rhs, .. } => law_parameterized_means_mentions_parameter(*rhs),
        _ => {},
    }
}

/// A selector mentioning a parameter is parameterized syntax.
proof fn lemma_selector_parameterized(sel: IndexSel)
    requires
        selector_mentions_parameter(sel),
    ensures
        is_m2_sel(sel),
{
    match sel {
        IndexSel::Single(e, _) => law_parameterized_means_mentions_parameter(e),
        IndexSel::Range { start, end, step, .. } => {
            law_parameterized_means_mentions_parameter(start);
            law_parameterized_means_mentions_parameter(end);
            if step is Some {
                law_parameterized_means_mentions_parameter(step->0);
            }
        },
        IndexSel::List(items, _) => {
            let k = choose|k: int| 0 <= k < items@.len() && mentions_parameter(#[trigger] items@[k]);
            law_parameterized_means_mentions_parameter(items@[k]);
        },
    }
}

/// A design whose body references pins through a selector that mentions a
/// name, a `.len` or a binary operation (in a net, an nc or a call's
/// arguments) does not expand as literal syntax, so it is metered.
pub proof fn law_parameterized_selector_is_metered(world: World, body: Seq<Stmt>, i: int, members: Seq<PinRef>, k: int)
    requires
        0 <= i < body.len(),
        (body[i] is Net && body[i]->Net_0.members@ == members) || (body[i] is Nc && body[i]->Nc_0.members@
            == members) || (body[i] is Call && body[i]->Call_0.args@ == members),
        0 <= k < members.len(),
        members[k].index is Some,
        selector_mentions_parameter(members[k].index->0),
    ensures
        !expansion_literal(world, body),
{
    lemma_selector_parameterized(members[k].index->0);
    assert(members_m2(members));
    assert(stmt_m2(world, body[i]));
}

/// A design that declares an instance array whose length mentions a name,
/// a `.len` or a binary operation does not expand as literal syntax.
pub proof fn law_parameterized_array_length_is_metered(world: World, body: Seq<Stmt>, i: int)
    requires
        0 <= i < body.len(),
        body[i] is Inst,
        body[i]->Inst_0.array_len is Some,
        mentions_parameter((body[i]->Inst_0.array_len->0).0),
    ensures
        !expansion_literal(world, body),
{
    law_parameterized_means_mentions_parameter((body[i]->Inst_0.array_len->0).0);
    assert(stmt_m2(world, body[i]));
}

/// A selector that mentions no name, `.len` or binary operation is literal
/// syntax: integer and unit literals, signed or parenthesized, never ask
/// for metering.
pub proof fn law_literal_selectors_are_not_parameterized(sel: IndexSel)
    requires
        !selector_mentions_parameter(sel),
    ensures
        !is_m2_sel(sel),
{
    match sel {
        IndexSel::Single(e, _) => law_parameterized_means_mentions_parameter(e),
        IndexSel::Range { start, end, step, .. } => {
            law_parameterized_means_mentions_parameter(start);
            law_parameterized_means_mentions_parameter(end);
            if step is Some {
                law_parameterized_means_mentions_parameter(step->0);
            }
        },
        IndexSel::List(items, _) => {
            assert forall|k: int| 0 <= k < items@.len() implies !is_m2_expr(#[trigger] items@[k]) by {
                law_parameterized_means_mentions_parameter(items@[k]);
            }
        },
    }
}

fn expr_is_m2(e: &Expr) -> (r: bool)
    ensures
        r == is_m2_expr(*e),
    decreases e,
{
    match e {
        Expr::Int(_, _) => false,
        Expr::Length(_, _) => false,
        Expr::Paren(inner, _) => expr_is_m2(inner),
        Expr::Unary { rhs, .. } => expr_is_m2(rhs),
        _ => true,
    }
}

fn opt_expr_is_m2(e: &Option<Expr>) -> (r: bool)
    ensures
        r == is_m2_opt_expr(*e),
{
    match e {
        Some(e) => expr_is_m2(e),
        None => false,
    }
}

fn index_sel_is_m2(sel: &IndexSel) -> (r: bool)
    ensures
        r == is_m2_sel(*sel),
{
    match sel {
        IndexSel::Single(e, _) => expr_is_m2(e),
        IndexSel::Range { start, end, step, .. } => expr_is_m2(start) || expr_is_m2(end)
            || opt_expr_is_m2(step),
        IndexSel::List(items, sp) => {
            let mut i: usize = 0;
            while i < items.len()
                invariant
                    *sel == IndexSel::List(*items, *sp),
                    i <= items@.len(),
                    forall|k: int| 0 <= k < i ==> !is_m2_expr(#[trigger] items@[k]),
                decreases items@.len() - i,
            {
                if expr_is_m2(&items[i]) {
                    assert(is_m2_expr(items@[i as int]));
                    return true;
                }
                i = i + 1;
            }
            false
        },
    }
}

fn attrs_are_m2(attrs: &Vec<InstAttr>) -> (r: bool)
    ensures
        r == attrs_m2(attrs@),
{
    let mut i: usize = 0;
    while i < attrs.len()
        invariant
            i <= attrs@.len(),
            forall|j: int| 0 <= j < i ==> !members_m2(#[trigger] attrs@[j].refs@),
        decreases attrs@.len() - i,
    {
        if members_are_m2(&attrs[i].refs) {
            return true;
        }
        i = i + 1;
    }
    false
}

fn members_are_m2(members: &Vec<PinRef>) -> (r: bool)
    ensures
        r == members_m2(members@),
{
    let mut i: usize = 0;
    while i < members.len()
        invariant
            i <= members@.len(),
            forall|k: int|
                0 <= k < i ==> !((#[trigger] members@[k]).index is Some && is_m2_sel(
                    members@[k].index->0,
                )),
        decreases members@.len() - i,
    {
        match &members[i].index {
            Some(sel) => {
                if index_sel_is_m2(sel) {
                    return true;
                }
            },
            None => {},
        }
        i = i + 1;
    }
    false
}

fn conns_are_m2(conns: &Vec<PortConn>) -> (r: bool)
    ensures
        r == conns_m2(conns@),
{
    let mut i: usize = 0;
    while i < conns.len()
        invariant
            i <= conns@.len(),
            forall|k: int|
                0 <= k < i ==> !((#[trigger] conns@[k]).value.index is Some && is_m2_sel(
                    conns@[k].value.index->0,
                )),
        decreases conns@.len() - i,
    {
        match &conns[i].value.index {
            Some(sel) => {
                if index_sel_is_m2(sel) {
                    return true;
                }
            },
            None => {},
        }
        i = i + 1;
    }
    false
}

fn generics_have_int(generics: &Vec<GenericParam>) -> (r: bool)
    ensures
        r == has_int_generic(generics@),
{
    let mut i: usize = 0;
    while i < generics.len()
        invariant
            i <= generics@.len(),
            forall|k: int| 0 <= k < i ==> !((#[trigger] generics@[k]).bound is Int),
        decreases generics@.len() - i,
    {
        match &generics[i].bound {
            GenericBound::Int(_) => {
                return true;
            },
            _ => {},
        }
        i = i + 1;
    }
    false
}

fn args_have_expr(args: &Vec<GenericArg>) -> (r: bool)
    ensures
        r == has_expr_arg(args@),
{
    let mut i: usize = 0;
    while i < args.len()
        invariant
            i <= args@.len(),
            forall|k: int| 0 <= k < i ==> !((#[trigger] args@[k]) is Expr),
        decreases args@.len() - i,
    {
        match &args[i] {
            GenericArg::Expr(_) => {
                return true;
            },
            _ => {},
        }
        i = i + 1;
    }
    false
}

fn placement_is_m2(p: &Placement) -> (r: bool)
    ensures
        r == placement_m2(*p),
{
    if expr_is_m2(&p.at.0) || expr_is_m2(&p.at.1) || opt_expr_is_m2(&p.rotate) {
        return true;
    }
    let mut k: usize = 0;
    while k < p.path.len()
        invariant
            k <= p.path@.len(),
            forall|j: int| 0 <= j < k ==> !is_m2_indexed(#[trigger] p.path@[j].index),
        decreases p.path@.len() - k,
    {
        match &p.path[k].index {
            Some((e, _)) => {
                if expr_is_m2(e) {
                    return true;
                }
            },
            None => {},
        }
        k = k + 1;
    }
    false
}

fn layout_has_m2(block: &LayoutBlock) -> (r: bool)
    ensures
        r == layout_m2(*block),
{
    if block.consts.len() > 0 || block.loops.len() > 0 {
        return true;
    }
    let mut k: usize = 0;
    while k < block.placements.len()
        invariant
            k <= block.placements@.len(),
            forall|j: int| 0 <= j < k ==> !placement_m2(#[trigger] block.placements@[j]),
        decreases block.placements@.len() - k,
    {
        if placement_is_m2(&block.placements[k]) {
            return true;
        }
        k = k + 1;
    }
    false
}

/// The expansions from `v` on are fewer once `n` is also visited.
proof fn lemma_visit_shrinks(u: Set<Seq<char>>, v0: Set<Seq<char>>, v: Set<Seq<char>>, n: Seq<char>)
    requires
        u.finite(),
        v0.subset_of(v),
        u.contains(n),
        !v.contains(n),
    ensures
        u.difference(v.insert(n)).len() < u.difference(v0).len(),
{
    let a = u.difference(v.insert(n));
    let b = u.difference(v0).remove(n);
    assert(a.subset_of(b));
    vstd::set_lib::lemma_len_subset(a, b);
    assert(u.difference(v0).contains(n));
}

/// Entering a definition not yet visited keeps the scanned names distinct
/// and new, and the visited set their union with what was visited before.
proof fn lemma_scan_extend(
    v0: Set<Seq<char>>,
    vb: Set<Seq<char>>,
    scanned: Seq<Seq<char>>,
    name: Seq<char>,
    inner: Seq<Seq<char>>,
)
    requires
        scanned.no_duplicates(),
        forall|i: int| 0 <= i < scanned.len() ==> !v0.contains(#[trigger] scanned[i]),
        vb == v0 + scanned.to_set(),
        !vb.contains(name),
        inner.no_duplicates(),
        forall|i: int| 0 <= i < inner.len() ==> !vb.insert(name).contains(#[trigger] inner[i]),
    ensures
        (scanned.push(name) + inner).no_duplicates(),
        forall|i: int| 0 <= i < (scanned.push(name) + inner).len() ==> !v0.contains(
            #[trigger] (scanned.push(name) + inner)[i],
        ),
        vb.insert(name) + inner.to_set() == v0 + (scanned.push(name) + inner).to_set(),
{
    let t = scanned.push(name) + inner;
    assert forall|i: int| 0 <= i < t.len() implies !v0.contains(#[trigger] t[i]) by {
        if i < scanned.len() {
            assert(t[i] == scanned[i]);
        } else if i == scanned.len() {
            assert(t[i] == name);
        } else {
            assert(t[i] == inner[i - scanned.len() - 1]);
        }
    }
    assert forall|i: int, j: int| 0 <= i < t.len() && 0 <= j < t.len() && i != j implies t[i] != t[j] by {
        assert(forall|k: int| 0 <= k < scanned.len() ==> scanned.to_set().contains(#[trigger] scanned[k]));
        if i < scanned.len() && j < scanned.len() {
        } else if i < scanned.len() && j == scanned.len() {
            assert(vb.contains(scanned[i]));
        } else if j < scanned.len() && i == scanned.len() {
            assert(vb.contains(scanned[j]));
        } else if i < scanned.len() {
            assert(t[j] == inner[j - scanned.len() - 1]);
            assert(vb.contains(scanned[i]));
        } else if j < scanned.len() {
            assert(t[i] == inner[i - scanned.len() - 1]);
            assert(vb.contains(scanned[j]));
        } else if i == scanned.len() {
            assert(t[j] == inner[j - scanned.len() - 1]);
        } else if j == scanned.len() {
            assert(t[i] == inner[i - scanned.len() - 1]);
        } else {
            assert(t[i] == inner[i - scanned.len() - 1]);
            assert(t[j] == inner[j - scanned.len() - 1]);
        }
    }
    assert(vb.insert(name) + inner.to_set() =~= v0 + t.to_set()) by {
        assert forall|x: Seq<char>| t.to_set().contains(x) implies (vb.insert(name) + inner.to_set()).contains(x) by {
            let i = choose|i: int| 0 <= i < t.len() && t[i] == x;
            if i < scanned.len() {
                assert(scanned.to_set().contains(scanned[i]));
            } else if i > scanned.len() {
                assert(t[i] == inner[i - scanned.len() - 1]);
                assert(inner.to_set().contains(inner[i - scanned.len() - 1]));
            }
        }
        assert forall|x: Seq<char>| scanned.to_set().contains(x) implies t.to_set().contains(x) by {
            let i = choose|i: int| 0 <= i < scanned.len() && scanned[i] == x;
            assert(t[i] == x);
        }
        assert forall|x: Seq<char>| inner.to_set().contains(x) implies t.to_set().contains(x) by {
            let i = choose|i: int| 0 <= i < inner.len() && inner[i] == x;
            assert(t[scanned.len() + 1 + i] == x);
        }
        assert(t[scanned.len() as int] == name);
    }
}

/// Whether `body`, or a definition it expands into that is not yet in
/// `visited`, uses parameterized syntax. Each definition is entered once:
/// the second part of the result lists, in order, the definitions whose
/// bodies were scanned; none of them was visited before, none is scanned
/// twice, and they are exactly the newly visited names.
fn body_has_m2(world: &World, body: &Vec<Stmt>, visited: &mut StrMap<()>) -> (res: (bool, Ghost<Seq<Seq<char>>>))
    requires
        old(visited)@.dom().subset_of(def_names(*world)),
    ensures
        ({
            let scanned = res.1@;
            &&& scanned.no_duplicates()
            &&& forall|i: int| 0 <= i < scanned.len() ==> !old(visited)@.dom().contains(#[trigger] scanned[i])
            &&& final(visited)@.dom() == old(visited)@.dom() + scanned.to_set()
        }),
        old(visited)@.dom().subset_of(final(visited)@.dom()),
        final(visited)@.dom().subset_of(def_names(*world)),
        forall|s: Set<Seq<char>>|
            #![trigger defs_closed(*world, s), body_clean(*world, body@, s)]
            defs_closed(*world, s) && old(visited)@.dom().subset_of(s) && body_clean(*world, body@, s)
                ==> !res.0 && final(visited)@.dom().subset_of(s),
        !res.0 && names_disjoint(*world) ==> body_clean(*world, body@, final(visited)@.dom()),
        !res.0 && names_disjoint(*world) ==> forall|n: Seq<char>|
            #[trigger] final(visited)@.dom().contains(n) && !old(visited)@.dom().contains(n)
                ==> def_clean(*world, n, final(visited)@.dom()),
    decreases def_names(*world).difference(old(visited)@.dom()).len(),
{
    proof {
        world.fns.lemma_dom_finite();
        world.subdesigns.lemma_dom_finite();
    }
    let ghost v0 = visited@.dom();
    let ghost mut scanned: Seq<Seq<char>> = Seq::empty();
    let mut idx: usize = 0;
    while idx < body.len()
        invariant
            idx <= body@.len(),
            v0 == old(visited)@.dom(),
            scanned.no_duplicates(),
            forall|i: int| 0 <= i < scanned.len() ==> !v0.contains(#[trigger] scanned[i]),
            visited@.dom() == v0 + scanned.to_set(),
            def_names(*world).finite(),
            v0.subset_of(visited@.dom()),
            visited@.dom().subset_of(def_names(*world)),
            forall|s: Set<Seq<char>>|
                #![trigger defs_closed(*world, s), body_clean(*world, body@, s)]
                defs_closed(*world, s) && v0.subset_of(s) && body_clean(*world, body@, s)
                    ==> visited@.dom().subset_of(s),
            names_disjoint(*world) ==> forall|j: int|
                0 <= j < idx ==> !stmt_m2(*world, #[trigger] body@[j]) && (stmt_edge(
                    *world,
                    body@[j],
                ) is Some ==> visited@.dom().contains(stmt_edge(*world, body@[j])->0)),
            names_disjoint(*world) ==> forall|n: Seq<char>|
                #[trigger] visited@.dom().contains(n) && !v0.contains(n) ==> def_clean(
                    *world,
                    n,
                    visited@.dom(),
                ),
        decreases body@.len() - idx,
    {
        let ghost vb = visited@.dom();
        let ghost st = body@[idx as int];
        match &body[idx] {
            Stmt::Const(_) => {
                assert(stmt_m2(*world, st));
                return (true, Ghost(scanned));
            },
            Stmt::For(_) => {
                assert(stmt_m2(*world, st));
                return (true, Ghost(scanned));
            },
            Stmt::Inst(i) => {
                match &i.array_len {
                    Some((e, _)) => {
                        if expr_is_m2(e) {
                            assert(stmt_m2(*world, st));
                            return (true, Ghost(scanned));
                        }
                    },
                    None => {},
                }
                if args_have_expr(&i.ty.generic_args) || attrs_are_m2(&i.attrs) {
                    assert(stmt_m2(*world, st));
                    return (true, Ghost(scanned));
                }
            },
            Stmt::SubdesignUse(u) => {
                match &u.array_len {
                    Some((e, _)) => {
                        if expr_is_m2(e) {
                            assert(stmt_m2(*world, st));
                            return (true, Ghost(scanned));
                        }
                    },
                    None => {},
                }
                if conns_are_m2(&u.conns) {
                    assert(stmt_m2(*world, st));
                    return (true, Ghost(scanned));
                }
                let name = &u.ty.name.name;
                match world.subdesigns.get(name) {
                    Some(sd) => {
                        if generics_have_int(&sd.generics) {
                            assert(stmt_m2(*world, st));
                            return (true, Ghost(scanned));
                        }
                        if !visited.contains_key(name) {
                            visited.insert(name.clone(), ());
                            proof {
                                lemma_visit_shrinks(def_names(*world), v0, vb, name@);
                            }
                            let ghost vn = visited@.dom();
                            let (sub, Ghost(inner)) = body_has_m2(world, &sd.body, visited);
                            proof {
                                lemma_scan_extend(v0, vb, scanned, name@, inner);
                                scanned = scanned.push(name@) + inner;
                                assert forall|s: Set<Seq<char>>|
                                    #![trigger defs_closed(*world, s), body_clean(*world, body@, s)]
                                    defs_closed(*world, s) && v0.subset_of(s) && body_clean(*world, body@, s)
                                        implies !sub && visited@.dom().subset_of(s) by {
                                    assert(!stmt_m2(*world, body@[idx as int]));
                                    assert(s.contains(name@));
                                    assert(def_clean(*world, name@, s));
                                    assert(body_clean(*world, sd.body@, s));
                                    assert(vn.subset_of(s));
                                }
                            }
                            if sub {
                                return (true, Ghost(scanned));
                            }
                            proof {
                                if names_disjoint(*world) {
                                    let vf = visited@.dom();
                                    assert forall|n: Seq<char>| #[trigger] vf.contains(n) && !v0.contains(n) implies def_clean(*world, n, vf) by {
                                        if n == name@ {
                                            assert(!world.fns@.contains_key(n));
                                        } else if vb.contains(n) {
                                            lemma_def_clean_mono(*world, n, vb, vf);
                                        }
                                    }
                                }
                            }
                        }
                    },
                    None => {},
                }
            },
            Stmt::Call(call) => {
                if args_have_expr(&call.generic_args) || members_are_m2(&call.args) {
                    assert(stmt_m2(*world, st));
                    return (true, Ghost(scanned));
                }
                let name = &call.callee.name;
                match world.fns.get(name) {
                    Some(fd) => {
                        if generics_have_int(&fd.generics) {
                            assert(stmt_m2(*world, st));
                            return (true, Ghost(scanned));
                        }
                        if !visited.contains_key(name) {
                            visited.insert(name.clone(), ());
                            proof {
                                lemma_visit_shrinks(def_names(*world), v0, vb, name@);
                            }
                            let ghost vn = visited@.dom();
                            let (sub, Ghost(inner)) = body_has_m2(world, &fd.body, visited);
                            proof {
                                lemma_scan_extend(v0, vb, scanned, name@, inner);
                                scanned = scanned.push(name@) + inner;
                                assert forall|s: Set<Seq<char>>|
                                    #![trigger defs_closed(*world, s), body_clean(*world, body@, s)]
                                    defs_closed(*world, s) && v0.subset_of(s) && body_clean(*world, body@, s)
                                        implies !sub && visited@.dom().subset_of(s) by {
                                    assert(!stmt_m2(*world, body@[idx as int]));
                                    assert(s.contains(name@));
                                    assert(def_clean(*world, name@, s));
                                    assert(body_clean(*world, fd.body@, s));
                                    assert(vn.subset_of(s));
                                }
                            }
                            if sub {
                                return (true, Ghost(scanned));
                            }
                            proof {
                                if names_disjoint(*world) {
                                    let vf = visited@.dom();
                                    assert forall|n: Seq<char>| #[trigger] vf.contains(n) && !v0.contains(n) implies def_clean(*world, n, vf) by {
                                        if n == name@ {
                                            assert(!world.subdesigns@.contains_key(n));
                                        } else if vb.contains(n) {
                                            lemma_def_clean_mono(*world, n, vb, vf);
                                        }
                                    }
                                }
                            }
                        }
                    },
                    None => {},
                }
            },
            Stmt::Layout(block) => {
                if layout_has_m2(block) {
                    assert(stmt_m2(*world, st));
                    return (true, Ghost(scanned));
                }
            },
            Stmt::Net(n) => {
                if members_are_m2(&n.members) {
                    assert(stmt_m2(*world, st));
                    return (true, Ghost(scanned));
                }
            },
            Stmt::Nc(nc) => {
                if members_are_m2(&nc.members) {
                    assert(stmt_m2(*world, st));
                    return (true, Ghost(scanned));
                }
            },
        }
        proof {
            let vf = visited@.dom();
            if names_disjoint(*world) {
                assert forall|j: int| 0 <= j < idx + 1 implies !stmt_m2(*world, #[trigger] body@[j]) && (stmt_edge(
                    *world,
                    body@[j],
                ) is Some ==> vf.contains(stmt_edge(*world, body@[j])->0)) by {
                    if j < idx {
                        assert(vb.subset_of(vf));
                    }
                }
            }
        }
        idx = idx + 1;
    }
    (false, Ghost(scanned))
}

/// Whether expansion of `design` must be metered. It answers true only when
/// the syntactic expansion graph the design roots uses parameterized
/// syntax: a const, a loop, a layout const or loop, a non-literal array
/// length, a non-literal selector of a net, nc, call argument, use-site
/// connection or instance attribute, a non-literal placement, a computed
/// generic argument, or an Int generic of a used definition. Devices and parts contribute nothing.
/// Where no name is both a fn and a subdesign it answers true whenever that
/// is so; each name is entered once, so a fn sharing a subdesign's name
/// may go unvisited.
pub fn metering_needed(world: &World, design: &DesignDef) -> (r: bool)
    ensures
        r ==> !expansion_literal(*world, design.body@),
        !r && names_disjoint(*world) ==> expansion_literal(*world, design.body@),
{
    let mut visited: StrMap<()> = StrMap::new();
    let (r, _) = body_has_m2(world, &design.body, &mut visited);
    proof {
        if r {
            assert forall|s: Set<Seq<char>>| !(body_clean(*world, design.body@, s) && defs_closed(*world, s)) by {
                if body_clean(*world, design.body@, s) && defs_closed(*world, s) {
                    assert(Set::<Seq<char>>::empty().subset_of(s));
                }
            }
        }
        if !r && names_disjoint(*world) {
            let vf = visited@.dom();
            assert(defs_closed(*world, vf));
            assert(body_clean(*world, design.body@, vf));
        }
    }
    r
}

} // verus!
