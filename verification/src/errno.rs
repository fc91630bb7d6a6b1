//! The errors a system call can end in, and how they reach the program.

use vstd::prelude::*;

verus! {

/// A Linux error, and the kernel's own restart requests, which never leave it.
#[derive(Clone, Copy, Debug, PartialEq, Eq, Structural)]
pub enum Errno {
    EPERM,
    ENOENT,
    ESRCH,
    EINTR,
    EIO,
    ENXIO,
    E2BIG,
    ENOEXEC,
    EBADF,
    ECHILD,
    EAGAIN,
    ENOMEM,
    EACCES,
    EFAULT,
    ENOTBLK,
    EBUSY,
    EEXIST,
    EXDEV,
    ENODEV,
    ENOTDIR,
    EISDIR,
    EINVAL,
    ENFILE,
    EMFILE,
    ENOTTY,
    ETXTBSY,
    EFBIG,
    ENOSPC,
    ESPIPE,
    EROFS,
    EMLINK,
    EPIPE,
    ERANGE,
    EDEADLK,
    ENAMETOOLONG,
    ENOLCK,
    ENOSYS,
    ENOTEMPTY,
    ELOOP,
    ENODATA,
    EOVERFLOW,
    EOPNOTSUPP,
    ETIMEDOUT,
    ERESTARTSYS,
    ERESTARTNOINTR,
    ERESTARTNOHAND,
    ERESTARTBLOCK,
}

impl Errno {
    /// The number Linux gives the error.
    pub open spec fn spec_number(self) -> int {
        match self {
            Errno::EPERM => 1,
            Errno::ENOENT => 2,
            Errno::ESRCH => 3,
            Errno::EINTR => 4,
            Errno::EIO => 5,
            Errno::ENXIO => 6,
            Errno::E2BIG => 7,
            Errno::ENOEXEC => 8,
            Errno::EBADF => 9,
            Errno::ECHILD => 10,
            Errno::EAGAIN => 11,
            Errno::ENOMEM => 12,
            Errno::EACCES => 13,
            Errno::EFAULT => 14,
            Errno::ENOTBLK => 15,
            Errno::EBUSY => 16,
            Errno::EEXIST => 17,
            Errno::EXDEV => 18,
            Errno::ENODEV => 19,
            Errno::ENOTDIR => 20,
            Errno::EISDIR => 21,
            Errno::EINVAL => 22,
            Errno::ENFILE => 23,
            Errno::EMFILE => 24,
            Errno::ENOTTY => 25,
            Errno::ETXTBSY => 26,
            Errno::EFBIG => 27,
            Errno::ENOSPC => 28,
            Errno::ESPIPE => 29,
            Errno::EROFS => 30,
            Errno::EMLINK => 31,
            Errno::EPIPE => 32,
            Errno::ERANGE => 34,
            Errno::EDEADLK => 35,
            Errno::ENAMETOOLONG => 36,
            Errno::ENOLCK => 37,
            Errno::ENOSYS => 38,
            Errno::ENOTEMPTY => 39,
            Errno::ELOOP => 40,
            Errno::ENODATA => 61,
            Errno::EOVERFLOW => 75,
            Errno::EOPNOTSUPP => 95,
            Errno::ETIMEDOUT => 110,
            Errno::ERESTARTSYS => 512,
            Errno::ERESTARTNOINTR => 513,
            Errno::ERESTARTNOHAND => 514,
            Errno::ERESTARTBLOCK => 516,
        }
    }

    /// The number Linux gives the error.
    pub fn number(self) -> (n: u16)
        ensures
            n == self.spec_number(),
            0 < n < 4096,
    {
        match self {
            Errno::EPERM => 1,
            Errno::ENOENT => 2,
            Errno::ESRCH => 3,
            Errno::EINTR => 4,
            Errno::EIO => 5,
            Errno::ENXIO => 6,
            Errno::E2BIG => 7,
            Errno::ENOEXEC => 8,
            Errno::EBADF => 9,
            Errno::ECHILD => 10,
            Errno::EAGAIN => 11,
            Errno::ENOMEM => 12,
            Errno::EACCES => 13,
            Errno::EFAULT => 14,
            Errno::ENOTBLK => 15,
            Errno::EBUSY => 16,
            Errno::EEXIST => 17,
            Errno::EXDEV => 18,
            Errno::ENODEV => 19,
            Errno::ENOTDIR => 20,
            Errno::EISDIR => 21,
            Errno::EINVAL => 22,
            Errno::ENFILE => 23,
            Errno::EMFILE => 24,
            Errno::ENOTTY => 25,
            Errno::ETXTBSY => 26,
            Errno::EFBIG => 27,
            Errno::ENOSPC => 28,
            Errno::ESPIPE => 29,
            Errno::EROFS => 30,
            Errno::EMLINK => 31,
            Errno::EPIPE => 32,
            Errno::ERANGE => 34,
            Errno::EDEADLK => 35,
            Errno::ENAMETOOLONG => 36,
            Errno::ENOLCK => 37,
            Errno::ENOSYS => 38,
            Errno::ENOTEMPTY => 39,
            Errno::ELOOP => 40,
            Errno::ENODATA => 61,
            Errno::EOVERFLOW => 75,
            Errno::EOPNOTSUPP => 95,
            Errno::ETIMEDOUT => 110,
            Errno::ERESTARTSYS => 512,
            Errno::ERESTARTNOINTR => 513,
            Errno::ERESTARTNOHAND => 514,
            Errno::ERESTARTBLOCK => 516,
        }
    }

    /// What a system call that ends in the error returns: its number, negated.
    pub fn as_return_value(self) -> (value: i64)
        ensures
            value == -self.spec_number(),
    {
        -(self.number() as i64)
    }

    /// Whether it is one of the kernel's own restart requests.
    pub open spec fn spec_is_restart(self) -> bool {
        self == Errno::ERESTARTSYS || self == Errno::ERESTARTNOINTR || self
            == Errno::ERESTARTNOHAND || self == Errno::ERESTARTBLOCK
    }

    /// Whether it is one of the kernel's own restart requests, which never
    /// reach the program.
    pub fn is_restart(self) -> (yes: bool)
        ensures
            yes == self.spec_is_restart(),
    {
        matches!(self, Errno::ERESTARTSYS | Errno::ERESTARTNOINTR | Errno::ERESTARTNOHAND
            | Errno::ERESTARTBLOCK)
    }
}

/// Every error is a return value a C library takes for one: -4095 to -1.
pub proof fn law_errors_return_as_negative(e: Errno)
    ensures
        -4095 <= -e.spec_number() <= -1,
{
}

/// No two errors have one number.
pub proof fn law_errors_are_told_apart(a: Errno, b: Errno)
    requires
        a.spec_number() == b.spec_number(),
    ensures
        a == b,
{
}

/// The restart requests are the only numbers of 512 and above, so no error a
/// program can be told is mistaken for one.
pub proof fn law_restart_requests_are_apart(e: Errno)
    ensures
        e.spec_is_restart() <==> e.spec_number() >= 512,
{
}

/// The numbers programs know the errors by.
pub proof fn law_an_error_is_the_number_programs_know()
    ensures
        Errno::EPERM.spec_number() == 1 && Errno::ENOENT.spec_number() == 2,
        Errno::ESRCH.spec_number() == 3 && Errno::EINTR.spec_number() == 4,
        Errno::EIO.spec_number() == 5 && Errno::ENXIO.spec_number() == 6,
        Errno::E2BIG.spec_number() == 7 && Errno::ENOEXEC.spec_number() == 8,
        Errno::EBADF.spec_number() == 9 && Errno::ECHILD.spec_number() == 10,
        Errno::EAGAIN.spec_number() == 11 && Errno::ENOMEM.spec_number() == 12,
        Errno::EACCES.spec_number() == 13 && Errno::EFAULT.spec_number() == 14,
        Errno::EBUSY.spec_number() == 16 && Errno::EEXIST.spec_number() == 17,
        Errno::ENODEV.spec_number() == 19 && Errno::ENOTDIR.spec_number() == 20,
        Errno::EISDIR.spec_number() == 21 && Errno::EINVAL.spec_number() == 22,
        Errno::EMFILE.spec_number() == 24 && Errno::ENOTTY.spec_number() == 25,
        Errno::EFBIG.spec_number() == 27 && Errno::ENOSPC.spec_number() == 28,
        Errno::ESPIPE.spec_number() == 29 && Errno::ERANGE.spec_number() == 34,
        Errno::ENAMETOOLONG.spec_number() == 36 && Errno::ENOLCK.spec_number() == 37,
        Errno::ENOSYS.spec_number() == 38 && Errno::ELOOP.spec_number() == 40,
        Errno::ENODATA.spec_number() == 61 && Errno::EOVERFLOW.spec_number() == 75,
        Errno::EOPNOTSUPP.spec_number() == 95 && Errno::ETIMEDOUT.spec_number() == 110,
        Errno::ENOTBLK.spec_number() == 15 && Errno::ENFILE.spec_number() == 23,
        Errno::EXDEV.spec_number() == 18 && Errno::ETXTBSY.spec_number() == 26,
        Errno::EROFS.spec_number() == 30 && Errno::EMLINK.spec_number() == 31,
        Errno::EPIPE.spec_number() == 32 && Errno::EDEADLK.spec_number() == 35,
        Errno::ENOTEMPTY.spec_number() == 39,
        Errno::ERESTARTSYS.spec_number() == 512 && Errno::ERESTARTNOINTR.spec_number() == 513,
        Errno::ERESTARTNOHAND.spec_number() == 514 && Errno::ERESTARTBLOCK.spec_number() == 516,
{
}

} // verus!
