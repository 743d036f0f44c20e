//! The error numbers that the conversions report.

use vstd::prelude::*;

verus! {

/// A C error number, as the conversions report it (`errno` in C).
#[derive(Clone, Copy, Debug, PartialEq, Eq, Structural)]
pub struct Errno(pub i32);

/// `ERANGE` on Linux: the result did not fit.
pub open spec fn range_error() -> Errno {
    Errno(34)
}

/// `EINVAL` on Linux: the base was invalid.
pub open spec fn invalid_argument() -> Errno {
    Errno(22)
}

/// Reads `libc::ERANGE`, which the libc crate defines as 34 for Linux.
#[verifier::external_body]
fn erange_code() -> (code: i32)
    ensures
        code == 34,
{
    libc::ERANGE
}

/// Reads `libc::EINVAL`, which the libc crate defines as 22 for Linux.
#[verifier::external_body]
fn einval_code() -> (code: i32)
    ensures
        code == 22,
{
    libc::EINVAL
}

/// The error a conversion reports when its result does not fit.
pub fn range_errno() -> (e: Errno)
    ensures
        e == range_error(),
{
    Errno(erange_code())
}

/// The error an integer conversion reports for an invalid base.
pub fn invalid_errno() -> (e: Errno)
    ensures
        e == invalid_argument(),
{
    Errno(einval_code())
}

/// Stores `code` in the calling thread's `errno` through `errno::set_errno`.
/// The thread-local value is not modelled, so nothing is stated of it.
#[verifier::external_body]
fn store_errno(code: i32) {
    errno::set_errno(errno::Errno(code))
}

/// Sets the calling thread's `errno` to `error`, if there is one; leaves it
/// alone otherwise.
pub fn set_integer_errno(error: Option<Errno>) {
    if let Some(e) = error {
        store_errno(e.0);
    }
}

} // verus!
