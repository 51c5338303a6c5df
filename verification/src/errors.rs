//! The failure values of parsing and name resolution.  Each carries the
//! offending name or segment; the first error anywhere aborts resolution.

use vstd::prelude::*;

verus! {

/// Ghost mirror of the failure values: each variant carries the offending
/// name or segment as a sequence of characters.
pub enum ErrV {
    Syntax,
    Unknown(Seq<char>),
    PathRes(Seq<char>),
    Privacy(Seq<char>),
    InvalidExport(Seq<char>),
    Shadowing(Seq<char>),
}

/// Malformed input text, raised by the parser and merely propagated by the
/// resolver.
#[derive(Debug, Clone, PartialEq, Eq)]
pub struct SyntaxError;

/// A path's first segment has no visible binding in any enclosing scope.
#[derive(Debug, Clone, PartialEq, Eq)]
pub struct UnknownNameError(pub String);

/// A later path segment has no matching name in the namespace being walked.
#[derive(Debug, Clone, PartialEq, Eq)]
pub struct PathResolutionError(pub String);

/// An export directive's argument does not name a declared local item.
#[derive(Debug, Clone, PartialEq, Eq)]
pub struct InvalidExportError(pub String);

/// An explicit binding name collides with a name already declared in the
/// same, still-open namespace.
#[derive(Debug, Clone, PartialEq, Eq)]
pub struct ShadowingError(pub String);

/// A later path segment exists but the item that would need to expose it is
/// not exported.
#[derive(Debug, Clone, PartialEq, Eq)]
pub struct PrivacyError(pub String);

/// A library file name must end with a known extension and use only
/// alphanumeric characters and underscores.
#[derive(Debug, Clone, PartialEq, Eq)]
pub struct InvalidLibraryFileName(pub String);

/// An item was applied to the wrong number of arguments (used by the
/// downstream materialization stage).
#[derive(Debug, Clone, PartialEq, Eq)]
pub struct WrongNumberOfArguments(pub String, pub usize, pub usize);

/// An item was applied to an argument of the wrong kind (used by the
/// downstream materialization stage).
#[derive(Debug, Clone, PartialEq, Eq)]
pub struct WrongTypeOfArguments(pub String, pub usize, pub String, pub String);

/// The failure value produced by parsing and name resolution.  The first
/// error anywhere in the recursive descent aborts the entire resolution and
/// is propagated unchanged to the caller.
#[derive(Debug, Clone, PartialEq, Eq)]
pub enum ResolutionError {
    Syntax(SyntaxError),
    UnknownName(UnknownNameError),
    PathResolution(PathResolutionError),
    Privacy(PrivacyError),
    InvalidExport(InvalidExportError),
    Shadowing(ShadowingError),
}

impl View for ResolutionError {
    type V = ErrV;

    open spec fn view(&self) -> ErrV {
        match self {
            ResolutionError::Syntax(_) => ErrV::Syntax,
            ResolutionError::UnknownName(e) => ErrV::Unknown(e.0@),
            ResolutionError::PathResolution(e) => ErrV::PathRes(e.0@),
            ResolutionError::Privacy(e) => ErrV::Privacy(e.0@),
            ResolutionError::InvalidExport(e) => ErrV::InvalidExport(e.0@),
            ResolutionError::Shadowing(e) => ErrV::Shadowing(e.0@),
        }
    }
}

} // verus!
