//! Diagnostics: coded errors at a source span, with an optional help line
//! and an optional secondary span.
use crate::ast::Span;
use crate::text::{push_char, push_str};
use vstd::prelude::*;

verus! {

/// The error codes this checker reports.
#[derive(Clone, Copy, Debug, PartialEq, Eq, Structural)]
pub enum Code {
    E112,
    E201,
    E202,
    E203,
    E205,
    E211,
    E401,
    E502,
    E503,
    E602,
    E904,
    E1301,
    E1303,
    E1307,
    E1401,
    E1402,
    E1403,
    E1405,
    E1406,
    E1407,
}

impl Code {
    pub open spec fn text(self) -> Seq<char> {
        match self {
            Code::E112 => "E112"@,
            Code::E201 => "E201"@,
            Code::E202 => "E202"@,
            Code::E203 => "E203"@,
            Code::E205 => "E205"@,
            Code::E211 => "E211"@,
            Code::E401 => "E401"@,
            Code::E502 => "E502"@,
            Code::E503 => "E503"@,
            Code::E602 => "E602"@,
            Code::E904 => "E904"@,
            Code::E1301 => "E1301"@,
            Code::E1303 => "E1303"@,
            Code::E1307 => "E1307"@,
            Code::E1401 => "E1401"@,
            Code::E1402 => "E1402"@,
            Code::E1403 => "E1403"@,
            Code::E1405 => "E1405"@,
            Code::E1406 => "E1406"@,
            Code::E1407 => "E1407"@,
        }
    }

    /// The code as written in reports, e.g. `E1402`.
    pub fn as_str(&self) -> (s: &'static str)
        ensures
            s@ == self.text(),
    {
        match self {
            Code::E112 => "E112",
            Code::E201 => "E201",
            Code::E202 => "E202",
            Code::E203 => "E203",
            Code::E205 => "E205",
            Code::E211 => "E211",
            Code::E401 => "E401",
            Code::E502 => "E502",
            Code::E503 => "E503",
            Code::E602 => "E602",
            Code::E904 => "E904",
            Code::E1301 => "E1301",
            Code::E1303 => "E1303",
            Code::E1307 => "E1307",
            Code::E1401 => "E1401",
            Code::E1402 => "E1402",
            Code::E1403 => "E1403",
            Code::E1405 => "E1405",
            Code::E1406 => "E1406",
            Code::E1407 => "E1407",
        }
    }
}

/// One reported error.
#[derive(Debug)]
pub struct Diagnostic {
    pub code: Code,
    pub span: Span,
    pub message: String,
    /// What the primary span shows, when it is labelled.
    pub label: Option<String>,
    pub help: Option<String>,
    pub secondary: Option<(Span, String)>,
}

/// The mathematical content of a diagnostic.
pub struct DiagView {
    pub code: Code,
    pub span: Span,
    pub message: Seq<char>,
    pub label: Option<Seq<char>>,
    pub help: Option<Seq<char>>,
    pub secondary: Option<(Span, Seq<char>)>,
}

/// Whether `d` was reported.
pub open spec fn reported(ds: Seq<DiagView>, d: DiagView) -> bool {
    exists|j: int| 0 <= j < ds.len() && ds[j] == d
}

/// Every one of `xs` was reported.
pub open spec fn all_reported(ds: Seq<DiagView>, xs: Seq<DiagView>) -> bool {
    forall|j: int| 0 <= j < xs.len() ==> reported(ds, #[trigger] xs[j])
}

/// An error without label, help or secondary span.
pub open spec fn err(code: Code, span: Span, message: Seq<char>) -> DiagView {
    DiagView { code, span, message, label: None, help: None, secondary: None }
}

/// An error with a help line.
pub open spec fn err_help(code: Code, span: Span, message: Seq<char>, help: Seq<char>) -> DiagView {
    DiagView { code, span, message, label: None, help: Some(help), secondary: None }
}

/// An error whose primary span carries a label.
pub open spec fn err_label(code: Code, span: Span, message: Seq<char>, label: Seq<char>) -> DiagView {
    DiagView { code, span, message, label: Some(label), help: None, secondary: None }
}

impl View for Diagnostic {
    type V = DiagView;

    open spec fn view(&self) -> DiagView {
        DiagView {
            code: self.code,
            span: self.span,
            message: self.message@,
            label: match self.label {
                Some(l) => Some(l@),
                None => None,
            },
            help: match self.help {
                Some(h) => Some(h@),
                None => None,
            },
            secondary: match self.secondary {
                Some((s, m)) => Some((s, m@)),
                None => None,
            },
        }
    }
}

impl Diagnostic {
    /// An error with `code` at `span`.
    pub fn error(code: Code, span: Span, message: String) -> (d: Diagnostic)
        ensures
            d@ == err(code, span, message@),
    {
        Diagnostic { code, span, message, label: None, help: None, secondary: None }
    }

    /// The same error with a label on its primary span.
    pub fn with_label(self, label: String) -> (d: Diagnostic)
        ensures
            d@ == (DiagView { label: Some(label@), ..self@ }),
    {
        Diagnostic { label: Some(label), ..self }
    }

    /// The same error with a help line.
    pub fn with_help(self, help: String) -> (d: Diagnostic)
        ensures
            d@ == (DiagView { help: Some(help@), ..self@ }),
    {
        Diagnostic { help: Some(help), ..self }
    }

    /// The same error with a secondary span and its label.
    pub fn with_secondary(self, span: Span, label: String) -> (d: Diagnostic)
        ensures
            d@ == (DiagView { secondary: Some((span, label@)), ..self@ }),
    {
        Diagnostic { secondary: Some((span, label)), ..self }
    }
}

/// An ordered collection of reported errors.
#[derive(Debug)]
pub struct Diagnostics {
    items: Vec<Diagnostic>,
}

impl View for Diagnostics {
    type V = Seq<DiagView>;

    closed spec fn view(&self) -> Seq<DiagView> {
        self.items@.map_values(|d: Diagnostic| d@)
    }
}

impl Diagnostics {
    /// No errors.
    pub fn new() -> (d: Diagnostics)
        ensures
            d@ == Seq::<DiagView>::empty(),
    {
        let d = Diagnostics { items: Vec::new() };
        assert(d@ =~= Seq::<DiagView>::empty());
        d
    }

    /// Appends one error.
    pub fn push(&mut self, d: Diagnostic)
        ensures
            final(self)@ == old(self)@.push(d@),
    {
        self.items.push(d);
        assert(final(self)@ =~= old(self)@.push(d@));
    }

    /// The number of reported errors.
    pub fn len(&self) -> (n: usize)
        ensures
            n == self@.len(),
    {
        self.items.len()
    }

    /// Whether any error was reported.
    pub fn has_errors(&self) -> (b: bool)
        ensures
            b == (self@.len() > 0),
    {
        self.items.len() > 0
    }

    /// The `i`-th error.
    pub fn get(&self, i: usize) -> (d: &Diagnostic)
        requires
            i < self@.len(),
        ensures
            d@ == self@[i as int],
    {
        &self.items[i]
    }

    /// All errors as text, one `error[CODE]: message` line each.
    pub fn render(&self) -> (s: String)
        ensures
            s@ == render_all(self@),
    {
        let mut s = String::new();
        let mut i: usize = 0;
        while i < self.items.len()
            invariant
                i <= self.items@.len(),
                s@ == render_all(self@.take(i as int)),
            decreases self.items@.len() - i,
        {
            let d = &self.items[i];
            push_str(&mut s, "error[");
            push_str(&mut s, d.code.as_str());
            push_str(&mut s, "]: ");
            push_str(&mut s, d.message.as_str());
            push_char(&mut s, '\n');
            assert(self@.take(i + 1).drop_last() =~= self@.take(i as int));
            i = i + 1;
            assert(s@ =~= render_all(self@.take(i as int)));
        }
        assert(self@.take(self@.len() as int) =~= self@);
        s
    }
}

/// The report line of one error.
pub open spec fn render_one(d: DiagView) -> Seq<char> {
    "error["@ + d.code.text() + "]: "@ + d.message + seq!['\n']
}

/// The report of a sequence of errors, in order.
pub open spec fn render_all(ds: Seq<DiagView>) -> Seq<char>
    decreases ds.len(),
{
    if ds.len() == 0 {
        Seq::empty()
    } else {
        render_all(ds.drop_last()) + render_one(ds.last())
    }
}

} // verus!
