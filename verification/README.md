# syscall

The system call layer of a kernel that runs Linux programs, as a library
verified with Verus. For each call it decides what the program is told, what
changes, and what the rest of the kernel has to do; every decision is stated as
a contract and proved.

## What is where

| Module | What it decides |
| --- | --- |
| `dispatch`, `nr`, `errno`, `abi` | which call goes where, and how an answer is encoded |
| `uaccess`, `bytes`, `time` | a program's memory as the calls reach it, and what they read there |
| `fd`, `file`, `memfile` | descriptors, and moving bytes through them |
| `flock`, `records` | locks on a whole file and on ranges of its bytes |
| `fsctl`, `memfd`, `eventfd`, `epoll` | file systems as a whole, anonymous files, counters, and waiting on many descriptors |
| `memory` | `mmap`, `munmap`, `mprotect`, `mremap`, `msync`, `brk` |
| `load`, `image`, `exec`, `launch` | placing an ELF image, replacing a program, starting the first one |
| `family`, `process`, `credentials` | making processes and threads, waiting for them, and who they are |
| `attributes`, `limits` | what a process has said of itself, and what it may use |
| `kill`, `deliver` | sending signals, delivering them, and the calls they interrupt |
| `futex` | sleeping on a word of memory, and being woken for it |

`app/` holds the loops between the library and the rest of a kernel: what waits,
sleeps, opens files or changes page tables is behind the traits of
`app/host.rs`.

## How it is stated

A program's memory is a map from addresses to bytes, a descriptor table a map
from numbers to slots, a lock table a map from owners to locks. Contracts speak
of these values. Where a call needs something that only the rest of the kernel
can do, it is split: one function says what to do, another takes what came of it
and says what the program is told. `execve`, signal delivery and the waiting
calls are state machines of that kind.

What holds of several functions together is stated in the proof functions whose
names begin with `law_`.
