//! The ways in which a build fails.

use vstd::prelude::*;

verus! {

/// What went wrong. Every failure ends the build.
#[derive(Clone, Copy, Debug, PartialEq, Eq, Structural)]
pub enum ErrorKind {
    /// A source file is missing or cannot be read.
    SourceReadError,
    /// An import specifier cannot be made into a canonical path.
    PathResolutionError,
    /// An import statement has no source literal that can be extracted.
    MalformedImport,
    /// An import statement binds no name that can be determined.
    UnresolvableBindingError,
    /// The entry module is not among the modules to link.
    EntryNotInTableError,
}

/// A failure, with the path of the module it came from and, where there is
/// one, the text of the statement at fault. A part that is not known is empty.
#[derive(Debug)]
pub struct BundleError {
    pub kind: ErrorKind,
    pub path: String,
    pub statement: Vec<u8>,
}

/// A failure as a mathematical value.
pub struct ErrorView {
    pub kind: ErrorKind,
    pub path: Seq<char>,
    pub statement: Seq<u8>,
}

impl View for BundleError {
    type V = ErrorView;

    open spec fn view(&self) -> ErrorView {
        ErrorView { kind: self.kind, path: self.path@, statement: self.statement@ }
    }
}

impl ErrorView {
    /// The same failure, told of the module at `path`.
    pub open spec fn located(self, path: Seq<char>) -> ErrorView {
        ErrorView { kind: self.kind, path, statement: self.statement }
    }
}

impl BundleError {
    /// A failure of kind `kind` in the module at `path`, with no statement.
    pub fn new(kind: ErrorKind, path: &str) -> (e: BundleError)
        ensures
            e@ == (ErrorView { kind, path: path@, statement: Seq::empty() }),
    {
        BundleError { kind, path: path.to_owned(), statement: Vec::new() }
    }

    /// The same failure, told of the module at `path`.
    pub fn located(self, path: &str) -> (e: BundleError)
        ensures
            e@ == self@.located(path@),
    {
        BundleError { kind: self.kind, path: path.to_owned(), statement: self.statement }
    }

    /// The name of the kind of failure.
    pub fn kind_name(&self) -> (name: &'static str)
        ensures
            name@ == kind_name(self.kind),
    {
        match self.kind {
            ErrorKind::SourceReadError => "SourceReadError",
            ErrorKind::PathResolutionError => "PathResolutionError",
            ErrorKind::MalformedImport => "MalformedImport",
            ErrorKind::UnresolvableBindingError => "UnresolvableBindingError",
            ErrorKind::EntryNotInTableError => "EntryNotInTableError",
        }
    }
}

/// The name under which each kind of failure is reported.
pub open spec fn kind_name(kind: ErrorKind) -> Seq<char> {
    match kind {
        ErrorKind::SourceReadError => "SourceReadError"@,
        ErrorKind::PathResolutionError => "PathResolutionError"@,
        ErrorKind::MalformedImport => "MalformedImport"@,
        ErrorKind::UnresolvableBindingError => "UnresolvableBindingError"@,
        ErrorKind::EntryNotInTableError => "EntryNotInTableError"@,
    }
}

} // verus!
