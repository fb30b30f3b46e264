//! Error codes reported by the units engine.
use vstd::prelude::*;

use crate::text::decimal_chars;
use crate::text::push_decimal;

verus! {

/// Numeric error codes, numbered as in the GNU units C library.
#[derive(Debug, Clone, Copy, PartialEq, Eq, Structural)]
pub enum ErrorCode {
    /// Successful conversion (no error).
    Normal,
    /// Expression could not be parsed.
    Parse,
    /// Incompatible dimensions in addition or subtraction.
    BadSum,
    /// Result is not a dimensionless number.
    NotANumber,
    /// Root of a non-integer dimension.
    NotRoot,
    /// Unit name not found in the database.
    UnknownUnit,
    /// Function argument outside its valid domain.
    NotInDomain,
    /// Function argument has wrong dimensions.
    BadFuncArg,
    /// Dimensional unit raised to an irrational exponent.
    IrrationalExponent,
    /// Expression is not a function or table (used for fallback logic).
    NotAFunc,
    /// Invalid numeric literal.
    BadNum,
}

impl ErrorCode {
    /// The number that the GNU units C library uses for this code.
    pub open spec fn number(self) -> i32 {
        match self {
            ErrorCode::Normal => 0,
            ErrorCode::Parse => 1,
            ErrorCode::BadSum => 5,
            ErrorCode::NotANumber => 6,
            ErrorCode::NotRoot => 7,
            ErrorCode::UnknownUnit => 8,
            ErrorCode::NotInDomain => 10,
            ErrorCode::BadFuncArg => 11,
            ErrorCode::IrrationalExponent => 12,
            ErrorCode::NotAFunc => 13,
            ErrorCode::BadNum => 20,
        }
    }

    /// Whether some error code carries the number `code`.
    pub open spec fn is_known_number(code: i32) -> bool {
        code == 0 || code == 1 || code == 5 || code == 6 || code == 7 || code == 8
            || code == 10 || code == 11 || code == 12 || code == 13 || code == 20
    }

    /// Returns the C library's number for this code.
    pub fn raw(&self) -> (n: i32)
        ensures
            n == self.number(),
    {
        match self {
            ErrorCode::Normal => 0,
            ErrorCode::Parse => 1,
            ErrorCode::BadSum => 5,
            ErrorCode::NotANumber => 6,
            ErrorCode::NotRoot => 7,
            ErrorCode::UnknownUnit => 8,
            ErrorCode::NotInDomain => 10,
            ErrorCode::BadFuncArg => 11,
            ErrorCode::IrrationalExponent => 12,
            ErrorCode::NotAFunc => 13,
            ErrorCode::BadNum => 20,
        }
    }

    /// Maps a raw C library code to an [`ErrorCode`]; unknown numbers map
    /// to [`ErrorCode::Parse`].
    pub fn from_raw(code: i32) -> (e: ErrorCode)
        ensures
            Self::is_known_number(code) ==> e.number() == code,
            !Self::is_known_number(code) ==> e == ErrorCode::Parse,
    {
        match code {
            0 => ErrorCode::Normal,
            1 => ErrorCode::Parse,
            5 => ErrorCode::BadSum,
            6 => ErrorCode::NotANumber,
            7 => ErrorCode::NotRoot,
            8 => ErrorCode::UnknownUnit,
            10 => ErrorCode::NotInDomain,
            11 => ErrorCode::BadFuncArg,
            12 => ErrorCode::IrrationalExponent,
            13 => ErrorCode::NotAFunc,
            20 => ErrorCode::BadNum,
            _ => ErrorCode::Parse,
        }
    }
}

/// Distinct codes carry distinct numbers, and reading a code's number back
/// gives the code itself.
pub proof fn lemma_error_code_number_roundtrip(e: ErrorCode, f: ErrorCode)
    ensures
        ErrorCode::is_known_number(e.number()),
        e.number() == f.number() ==> e == f,
{
}

/// Wraps an error code returned by the units engine.
#[derive(Debug, Clone, Copy, PartialEq, Eq, Structural)]
pub struct UnitsError(pub ErrorCode);

impl UnitsError {
    /// Returns the error code as defined in [`ErrorCode`].
    pub fn code(&self) -> (c: ErrorCode)
        ensures
            c == self.0,
    {
        self.0
    }

    /// Returns `true` when the error indicates a dimensionless reduction failed.
    pub fn is_not_dimensionless(&self) -> (b: bool)
        ensures
            b == (self.0 == ErrorCode::NotANumber),
    {
        self.0 == ErrorCode::NotANumber
    }

    /// Returns `true` when the expression was invalid (unknown/unparseable).
    pub fn is_invalid_unit(&self) -> (b: bool)
        ensures
            b == (self.0 == ErrorCode::UnknownUnit || self.0 == ErrorCode::Parse),
    {
        self.0 == ErrorCode::UnknownUnit || self.0 == ErrorCode::Parse
    }

    /// The human-readable message `GNU units error code <n>`.
    pub open spec fn message_spec(self) -> Seq<char> {
        "GNU units error code "@ + decimal_chars(self.0.number() as int)
    }

    /// Renders the error as `GNU units error code <n>`.
    pub fn message(&self) -> (s: String)
        ensures
            s@ == self.message_spec(),
    {
        let mut s = String::from_str("GNU units error code ");
        let n = self.0.raw();
        push_decimal(&mut s, n as i64);
        proof { reveal_strlit("GNU units error code "); }
        s
    }
}

} // verus!
