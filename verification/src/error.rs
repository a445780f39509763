//! The errors of the library, and how a return value of the system is read as one.

use vstd::prelude::*;

verus! {

/// What went wrong in a file operation.
#[derive(Clone, Copy, Debug, PartialEq, Eq, Structural)]
pub enum FileError {
    /// A system call failed and left this number in `errno`.
    Os(i32),
    /// A directory was wanted, and the entry is something else.
    NotADirectory,
    /// Something other than a directory was wanted, and the entry is a directory.
    IsADirectory,
}

/// What a system call's return value means: a negative one is a failure, told by `errno`.
pub open spec fn os_result(ret: i32, errno: i32) -> Result<i32, FileError> {
    if ret < 0 {
        Err(FileError::Os(errno))
    } else {
        Ok(ret)
    }
}

/// Reads the return value of a system call that left `errno` behind.
pub fn check_os_err(ret: i32, errno: i32) -> (r: Result<i32, FileError>)
    ensures
        r == os_result(ret, errno),
        ret < 0 ==> r is Err && r->Err_0 == FileError::Os(errno),
        ret >= 0 ==> r is Ok && r->Ok_0 == ret,
{
    if ret < 0 {
        Err(FileError::Os(errno))
    } else {
        Ok(ret)
    }
}

} // verus!
