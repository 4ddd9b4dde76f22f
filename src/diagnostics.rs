use vstd::prelude::*;

use crate::span::Span;

verus! {

/// What went wrong, or what a later phase wants to point at.
#[derive(Clone, Debug)]
pub enum DiagnosticKind {
    FileNotFound(String),
    UnexpectedToken,
    SyntaxError(String),
    UnknownIdentifier,
    ModuleNotFound(String),
    NotAFunction,
    UnusedParameter,
    UnusedFunction,
    DuplicatedOperator,
    /// Expected type, type found, and the two types of the context, by name.
    TypeConflict(String, String, String, String),
    UnresolvedType(String),
    IsNotAPropertyOf(String, Span),
    /// The index found and the length it should stay under.
    OutOfBounds(u64, u64),
    OrphaneSignature(String),
    NoMain,
    NoError,
}

impl DiagnosticKind {
    /// A copy of this kind.
    pub fn duplicate(&self) -> (r: Self)
        ensures
            r == *self,
    {
        match self {
            DiagnosticKind::FileNotFound(p) => DiagnosticKind::FileNotFound(p.clone()),
            DiagnosticKind::UnexpectedToken => DiagnosticKind::UnexpectedToken,
            DiagnosticKind::SyntaxError(m) => DiagnosticKind::SyntaxError(m.clone()),
            DiagnosticKind::UnknownIdentifier => DiagnosticKind::UnknownIdentifier,
            DiagnosticKind::ModuleNotFound(p) => DiagnosticKind::ModuleNotFound(p.clone()),
            DiagnosticKind::NotAFunction => DiagnosticKind::NotAFunction,
            DiagnosticKind::UnusedParameter => DiagnosticKind::UnusedParameter,
            DiagnosticKind::UnusedFunction => DiagnosticKind::UnusedFunction,
            DiagnosticKind::DuplicatedOperator => DiagnosticKind::DuplicatedOperator,
            DiagnosticKind::TypeConflict(a, b, c, d) => DiagnosticKind::TypeConflict(
                a.clone(),
                b.clone(),
                c.clone(),
                d.clone(),
            ),
            DiagnosticKind::UnresolvedType(t) => DiagnosticKind::UnresolvedType(t.clone()),
            DiagnosticKind::IsNotAPropertyOf(t, sp) => DiagnosticKind::IsNotAPropertyOf(t.clone(), *sp),
            DiagnosticKind::OutOfBounds(g, e) => DiagnosticKind::OutOfBounds(*g, *e),
            DiagnosticKind::OrphaneSignature(n) => DiagnosticKind::OrphaneSignature(n.clone()),
            DiagnosticKind::NoMain => DiagnosticKind::NoMain,
            DiagnosticKind::NoError => DiagnosticKind::NoError,
        }
    }
}

/// A diagnostic: a kind and the span of source text it is about.
#[derive(Clone, Debug)]
pub struct Diagnostic {
    pub span: Span,
    pub kind: DiagnosticKind,
}

impl Diagnostic {
    pub fn new(span: Span, kind: DiagnosticKind) -> (r: Self)
        ensures
            r.span == span,
            r.kind == kind,
    {
        Diagnostic { span, kind }
    }

    /// The sentinel that stands for a run without error.
    pub fn new_empty() -> (r: Self)
        ensures
            r.span == Span::empty_spec(),
            r.kind == DiagnosticKind::NoError,
    {
        Diagnostic { span: Span::empty(), kind: DiagnosticKind::NoError }
    }

    pub fn new_file_not_found(span: Span, path: String) -> (r: Self)
        ensures
            r.span == span,
            r.kind == DiagnosticKind::FileNotFound(path),
    {
        Self::new(span, DiagnosticKind::FileNotFound(path))
    }

    pub fn new_unexpected_token(span: Span) -> (r: Self)
        ensures
            r.span == span,
            r.kind == DiagnosticKind::UnexpectedToken,
    {
        Self::new(span, DiagnosticKind::UnexpectedToken)
    }

    pub fn new_syntax_error(span: Span, msg: String) -> (r: Self)
        ensures
            r.span == span,
            r.kind == DiagnosticKind::SyntaxError(msg),
    {
        Self::new(span, DiagnosticKind::SyntaxError(msg))
    }

    pub fn new_unknown_identifier(span: Span) -> (r: Self)
        ensures
            r.span == span,
            r.kind == DiagnosticKind::UnknownIdentifier,
    {
        Self::new(span, DiagnosticKind::UnknownIdentifier)
    }

    pub fn new_unused_function(span: Span) -> (r: Self)
        ensures
            r.span == span,
            r.kind == DiagnosticKind::UnusedFunction,
    {
        Self::new(span, DiagnosticKind::UnusedFunction)
    }

    pub fn new_module_not_found(span: Span, path: String) -> (r: Self)
        ensures
            r.span == span,
            r.kind == DiagnosticKind::ModuleNotFound(path),
    {
        Self::new(span, DiagnosticKind::ModuleNotFound(path))
    }

    pub fn new_unresolved_type(span: Span, t: String) -> (r: Self)
        ensures
            r.span == span,
            r.kind == DiagnosticKind::UnresolvedType(t),
    {
        Self::new(span, DiagnosticKind::UnresolvedType(t))
    }

    pub fn new_out_of_bounds(span: Span, got: u64, expected: u64) -> (r: Self)
        ensures
            r.span == span,
            r.kind == DiagnosticKind::OutOfBounds(got, expected),
    {
        Self::new(span, DiagnosticKind::OutOfBounds(got, expected))
    }

    pub fn new_duplicated_operator(span: Span) -> (r: Self)
        ensures
            r.span == span,
            r.kind == DiagnosticKind::DuplicatedOperator,
    {
        Self::new(span, DiagnosticKind::DuplicatedOperator)
    }

    pub fn new_orphane_signature(span: Span, name: String) -> (r: Self)
        ensures
            r.span == span,
            r.kind == DiagnosticKind::OrphaneSignature(name),
    {
        Self::new(span, DiagnosticKind::OrphaneSignature(name))
    }

    pub fn new_no_main() -> (r: Self)
        ensures
            r.span == Span::empty_spec(),
            r.kind == DiagnosticKind::NoMain,
    {
        Self::new(Span::empty(), DiagnosticKind::NoMain)
    }

    pub fn new_is_not_a_property_of(span: Span, span2: Span, t: String) -> (r: Self)
        ensures
            r.span == span,
            r.kind == DiagnosticKind::IsNotAPropertyOf(t, span2),
    {
        Self::new(span, DiagnosticKind::IsNotAPropertyOf(t, span2))
    }

    pub fn new_type_conflict(
        span: Span,
        expected: String,
        got: String,
        in1: String,
        in2: String,
    ) -> (r: Self)
        ensures
            r.span == span,
            r.kind == DiagnosticKind::TypeConflict(expected, got, in1, in2),
    {
        Self::new(span, DiagnosticKind::TypeConflict(expected, got, in1, in2))
    }

    /// A copy of this diagnostic.
    pub fn duplicate(&self) -> (r: Self)
        ensures
            r == *self,
    {
        Diagnostic { span: self.span, kind: self.kind.duplicate() }
    }

    pub fn get_kind(&self) -> (r: &DiagnosticKind)
        ensures
            *r == self.kind,
    {
        &self.kind
    }
}

/// A span that also names its file, for reports that cover several files.
#[derive(Clone, Debug, PartialEq, Eq, Hash)]
pub struct Spaned {
    pub file_path: String,
    pub start: usize,
    pub end: usize,
}

impl Spaned {
    pub fn new(file_path: String, start: usize, end: usize) -> (r: Self)
        ensures
            r.file_path@ == file_path@,
            r.start == start,
            r.end == end,
    {
        Spaned { start, end, file_path }
    }

    pub fn new_placeholder() -> (r: Self)
        ensures
            r.file_path@.len() == 0,
            r.start == 0,
            r.end == 0,
    {
        Spaned { start: 0, end: 0, file_path: String::new() }
    }
}

/// The severity of a collected diagnostic.
#[derive(Clone, Copy, Debug, PartialEq, Eq, Structural)]
pub enum DiagnosticType {
    Warning,
    Error,
}

impl Default for DiagnosticType {
    fn default() -> (r: Self)
        ensures
            r == DiagnosticType::Error,
    {
        DiagnosticType::Error
    }
}

/// An append-only list of diagnostics, each with its severity, and a flag
/// that is set as soon as one of them is an error.
#[derive(Clone, Debug)]
pub struct Diagnostics {
    pub list: Vec<Diagnostic>,
    pub list_types: Vec<DiagnosticType>,
    pub must_stop: bool,
}

impl Diagnostics {
    /// One severity for each diagnostic, and the stop flag set only when an
    /// error is among them.
    pub open spec fn wf(&self) -> bool {
        &&& self.list@.len() == self.list_types@.len()
        &&& self.must_stop ==> self.list_types@.contains(DiagnosticType::Error)
    }

    /// The first error, if any was collected.
    pub fn first_error(&self) -> (r: Option<&Diagnostic>)
        requires
            self.wf(),
        ensures
            match r {
                Some(d) => exists|i: int|
                    0 <= i < self.list@.len() && self.list_types@[i] == DiagnosticType::Error && *d
                        == self.list@[i] && forall|j: int|
                        0 <= j < i ==> self.list_types@[j] != DiagnosticType::Error,
                None => !self.list_types@.contains(DiagnosticType::Error),
            },
            self.must_stop ==> r is Some,
    {
        let mut i: usize = 0;
        while i < self.list_types.len()
            invariant
                self.wf(),
                i <= self.list_types@.len(),
                forall|j: int| 0 <= j < i ==> self.list_types@[j] != DiagnosticType::Error,
            decreases self.list_types@.len() - i,
        {
            if self.list_types[i] == DiagnosticType::Error {
                return Some(&self.list[i]);
            }
            i = i + 1;
        }
        None
    }

    pub fn new() -> (r: Self)
        ensures
            r.wf(),
            r.list@.len() == 0,
            !r.must_stop,
    {
        Diagnostics { list: Vec::new(), list_types: Vec::new(), must_stop: false }
    }

    /// Records an error: the parse that collects it has failed.
    pub fn push_error(&mut self, diag: Diagnostic)
        requires
            old(self).wf(),
        ensures
            final(self).wf(),
            final(self).list@ == old(self).list@.push(diag),
            final(self).list_types@ == old(self).list_types@.push(DiagnosticType::Error),
            final(self).must_stop,
    {
        self.must_stop = true;
        self.list.push(diag);
        self.list_types.push(DiagnosticType::Error);
        proof {
            assert(self.list_types@[self.list_types@.len() - 1] == DiagnosticType::Error);
        }
    }

    /// Records a warning; the stop flag stays as it was.
    pub fn push_warning(&mut self, diag: Diagnostic)
        requires
            old(self).wf(),
        ensures
            final(self).wf(),
            final(self).list@ == old(self).list@.push(diag),
            final(self).list_types@ == old(self).list_types@.push(DiagnosticType::Warning),
            final(self).must_stop == old(self).must_stop,
    {
        let ghost before = self.list_types@;
        self.list.push(diag);
        self.list_types.push(DiagnosticType::Warning);
        proof {
            if self.must_stop {
                let i = choose|i: int| 0 <= i < before.len() && before[i] == DiagnosticType::Error;
                assert(self.list_types@[i] == DiagnosticType::Error);
            }
        }
    }

    /// Appends all of `other`, in order; the result must stop if either did.
    pub fn append(&mut self, other: Self)
        requires
            old(self).wf(),
            other.wf(),
        ensures
            final(self).wf(),
            final(self).list@ == old(self).list@ + other.list@,
            final(self).list_types@ == old(self).list_types@ + other.list_types@,
            final(self).must_stop == (old(self).must_stop || other.must_stop),
    {
        let mut other = other;
        let ghost mine = self.list_types@;
        let ghost theirs = other.list_types@;
        self.list.append(&mut other.list);
        self.list_types.append(&mut other.list_types);
        self.must_stop = self.must_stop || other.must_stop;
        proof {
            if old(self).must_stop {
                let i = choose|i: int| 0 <= i < mine.len() && mine[i] == DiagnosticType::Error;
                assert(self.list_types@[i] == DiagnosticType::Error);
            } else if other.must_stop {
                let i = choose|i: int| 0 <= i < theirs.len() && theirs[i] == DiagnosticType::Error;
                assert(self.list_types@[mine.len() + i] == DiagnosticType::Error);
            }
        }
    }
}

} // verus!
