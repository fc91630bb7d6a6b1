//! The calls the handlers of this layer tell apart by name.

use vstd::prelude::*;

verus! {

/// A Linux system call, whatever number the machine gives it.
#[derive(Clone, Copy, Debug, PartialEq, Eq, Structural)]
pub enum Syscall {
    Alarm,
    Brk,
    Capget,
    Capset,
    Chroot,
    CopyFileRange,
    Fallocate,
    Fdatasync,
    Fgetxattr,
    Flistxattr,
    Fremovexattr,
    Fsetxattr,
    Fstatfs,
    Fstatfs64,
    Fsync,
    Getegid,
    Geteuid,
    Getgid,
    Getgroups,
    Getitimer,
    Getpid,
    Getpriority,
    Getresgid,
    Getresuid,
    Getrlimit,
    GetRobustList,
    Getuid,
    Getxattr,
    IoprioGet,
    IoprioSet,
    Kill,
    Lgetxattr,
    Listxattr,
    Llistxattr,
    Lremovexattr,
    Lsetxattr,
    Mount,
    Pause,
    Personality,
    Pipe,
    Pipe2,
    PivotRoot,
    Prctl,
    Prlimit64,
    Readahead,
    Removexattr,
    Rseq,
    SchedGetaffinity,
    SchedGetparam,
    SchedGetPriorityMax,
    SchedGetPriorityMin,
    SchedGetscheduler,
    SchedRrGetInterval,
    SchedRrGetIntervalTime64,
    SchedSetaffinity,
    SchedSetparam,
    SchedSetscheduler,
    Sendfile,
    Sendfile64,
    Setfsgid,
    Setfsuid,
    Setgid,
    Setgroups,
    Setitimer,
    Setpriority,
    Setregid,
    Setresgid,
    Setresuid,
    Setreuid,
    Setrlimit,
    SetRobustList,
    Setuid,
    Setxattr,
    Splice,
    Statfs,
    Statfs64,
    Sync,
    Syncfs,
    Tgkill,
    Tkill,
    Truncate,
    Truncate64,
    Umount2,
    Write,
}

} // verus!
