//! The system call layer of a small kernel that runs Linux programs.
//!
//! Each module holds the rules of one family of calls: how the arguments are
//! decoded, which request is refused with which error and in which order, and
//! what the kernel's own tables look like afterwards.

pub mod abi;
pub mod attributes;
pub mod bytes;
pub mod credentials;
pub mod deliver;
pub mod dispatch;
pub mod epoll;
pub mod errno;
pub mod eventfd;
pub mod exec;
pub mod family;
pub mod fd;
pub mod file;
pub mod flock;
pub mod fsctl;
pub mod futex;
pub mod image;
pub mod kill;
pub mod launch;
pub mod limits;
pub mod load;
pub mod memfd;
pub mod memfile;
pub mod memory;
pub mod nr;
pub mod process;
pub mod records;
pub mod time;
pub mod uaccess;
