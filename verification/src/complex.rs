//! The complex number type itself is built on floating point and lives in
//! the unverified code around this library; the error its parser reports is
//! shared from here.

use vstd::prelude::*;

verus! {

/// The error returned when a string is not a complex number literal.
#[derive(Debug, Clone, Copy, PartialEq, Eq, Structural)]
pub struct ParseComplexError;

} // verus!
