//! Integer kernel errors.
//!
//! The kernel models failure as a negative integer error number; this module
//! keeps the convention, with the invariant that a constructed error always
//! holds a valid number.

use vstd::prelude::*;

verus! {

/// The largest magnitude a kernel error number can have.
pub const MAX_ERRNO: i32 = 4095;

/// Operation not permitted.
pub const EPERM: i32 = 1;

/// No such file or directory.
pub const ENOENT: i32 = 2;

/// Interrupted system call.
pub const EINTR: i32 = 4;

/// I/O error.
pub const EIO: i32 = 5;

/// Try again.
pub const EAGAIN: i32 = 11;

/// Out of memory.
pub const ENOMEM: i32 = 12;

/// Permission denied.
pub const EACCES: i32 = 13;

/// Bad address.
pub const EFAULT: i32 = 14;

/// Device or resource busy.
pub const EBUSY: i32 = 16;

/// File exists.
pub const EEXIST: i32 = 17;

/// No such device.
pub const ENODEV: i32 = 19;

/// Invalid argument.
pub const EINVAL: i32 = 22;

/// Math result not representable.
pub const ERANGE: i32 = 34;

/// Restart the system call.
pub const ERESTARTSYS: i32 = 512;

/// Generic integer kernel error.
///
/// The value is always a valid error number: negative, and no smaller than
/// `-MAX_ERRNO`.
#[derive(Clone, Copy, Debug, PartialEq, Eq, Structural)]
pub struct Error(i32);

impl Error {
    /// The error number held, always negative.
    pub closed spec fn spec_code(self) -> int {
        self.0 as int
    }

    /// The value is a valid error number.
    pub open spec fn spec_valid(self) -> bool {
        -MAX_ERRNO <= self.spec_code() < 0
    }

    /// Creates an [`Error`] from a kernel error code.
    ///
    /// Passing an out-of-range number is a caller bug; such a call yields
    /// `EINVAL` rather than an invalid error value.
    pub fn from_kernel_errno(errno: i32) -> (r: Error)
        ensures
            r.spec_valid(),
            r.spec_code() == if -MAX_ERRNO <= errno < 0 {
                errno as int
            } else {
                -EINVAL as int
            },
    {
        if errno < -MAX_ERRNO || errno >= 0 {
            return Error(-EINVAL);
        }
        Error(errno)
    }

    /// Creates an [`Error`] from a kernel error code known to be in range.
    pub fn from_kernel_errno_unchecked(errno: i32) -> (r: Error)
        requires
            -MAX_ERRNO <= errno < 0,
        ensures
            r.spec_code() == errno as int,
            r.spec_valid(),
    {
        Error(errno)
    }

    /// Creates the error for a positive error number such as [`EINVAL`].
    pub fn from_errno_positive(errno: i32) -> (r: Error)
        requires
            0 < errno <= MAX_ERRNO,
        ensures
            r.spec_code() == -errno as int,
            r.spec_valid(),
    {
        Error(-errno)
    }

    /// Returns the kernel error code.
    pub fn to_kernel_errno(self) -> (r: i32)
        ensures
            r as int == self.spec_code(),
    {
        self.0
    }
}

/// Whether a kernel pointer value is an "error pointer": an address in the
/// top `MAX_ERRNO` values of the address space, which carries a negative
/// error number rather than a valid address.
pub open spec fn is_err_ptr(ptr: usize) -> bool {
    ptr as int >= usize::MAX as int + 1 - MAX_ERRNO as int
}

/// Transforms a kernel "error pointer" to a normal pointer: a value in the
/// top `MAX_ERRNO` addresses is decoded into the error it embeds, any
/// other value passes through unchanged.
pub fn from_kernel_err_ptr(ptr: usize) -> (r: Result<usize, Error>)
    ensures
        r is Err <==> is_err_ptr(ptr),
        r matches Ok(p) ==> p == ptr,
        r matches Err(e) ==> e.spec_code() == ptr as int - (usize::MAX as int + 1),
{
    if ptr >= usize::MAX - (MAX_ERRNO as usize - 1) {
        let magnitude = (usize::MAX - ptr) + 1;
        Err(Error::from_kernel_errno_unchecked(-(magnitude as i32)))
    } else {
        Ok(ptr)
    }
}

/// Turns a result into the C calling convention: the value itself on
/// success, the negative error number on failure.
pub fn from_kernel_result_helper(r: Result<i32, Error>) -> (c: i32)
    ensures
        c as int == match r {
            Ok(v) => v as int,
            Err(e) => e.spec_code(),
        },
{
    match r {
        Ok(v) => v,
        Err(e) => e.to_kernel_errno(),
    }
}

} // verus!
