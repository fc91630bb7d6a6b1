//! A process, as the calls that name one by its number see it.

use vstd::prelude::*;

use crate::credentials::Credentials;
use crate::errno::Errno;

verus! {

/// What the handlers read of a process.
#[derive(Debug)]
pub struct Process {
    /// Its number.
    pub pid: u32,
    /// When it started. A number can be used again; a number and a start time
    /// together are never used twice.
    pub started: u64,
    /// The ids of its threads, but for the first, whose id is the process's.
    pub threads: Vec<u32>,
    /// Its process group.
    pub pgid: u32,
    /// The file name of the program it runs.
    pub comm: Vec<u8>,
    /// Who it is.
    pub credentials: Credentials,
}

/// Where the live process `pid` is.
pub open spec fn spec_find(live: Seq<Process>, pid: int, from: int) -> Option<int>
    decreases live.len() - from,
{
    if from < 0 || from >= live.len() {
        None
    } else if live[from].pid == pid {
        Some(from)
    } else {
        spec_find(live, pid, from + 1)
    }
}

/// Where the live process `pid` is, if there is one.
pub fn find(live: &Vec<Process>, pid: u32) -> (at: Option<usize>)
    ensures
        match at {
            Some(i) => spec_find(live@, pid as int, 0) == Some(i as int) && i < live@.len()
                && live@[i as int].pid == pid,
            None => spec_find(live@, pid as int, 0) is None,
        },
{
    let mut i: usize = 0;
    while i < live.len()
        invariant
            i <= live@.len(),
            spec_find(live@, pid as int, 0) == spec_find(live@, pid as int, i as int),
        decreases live@.len() - i,
    {
        if live[i].pid == pid {
            return Some(i);
        }
        i = i + 1;
    }
    None
}

impl Process {
    /// Whether `tid` is one of its threads.
    pub open spec fn runs(self, tid: int) -> bool {
        self.pid == tid || exists|i: int|
            0 <= i < self.threads@.len() && #[trigger] self.threads@[i] == tid
    }

    /// Whether `tid` is one of its threads.
    pub fn has_thread(&self, tid: u32) -> (yes: bool)
        ensures
            yes == self.runs(tid as int),
    {
        if self.pid == tid {
            return true;
        }
        let mut i: usize = 0;
        while i < self.threads.len()
            invariant
                i <= self.threads@.len(),
                forall|j: int| 0 <= j < i ==> #[trigger] self.threads@[j] != tid,
            decreases self.threads@.len() - i,
        {
            if self.threads[i] == tid {
                return true;
            }
            i = i + 1;
        }
        false
    }
}

/// Where the live process with the thread `tid` is.
pub open spec fn spec_find_thread(live: Seq<Process>, tid: int, from: int) -> Option<int>
    decreases live.len() - from,
{
    if from < 0 || from >= live.len() {
        None
    } else if live[from].runs(tid) {
        Some(from)
    } else {
        spec_find_thread(live, tid, from + 1)
    }
}

/// Where the live process with the thread `tid` is, if there is one.
pub fn find_thread(live: &Vec<Process>, tid: u32) -> (at: Option<usize>)
    ensures
        match at {
            Some(i) => spec_find_thread(live@, tid as int, 0) == Some(i as int) && i < live@.len(),
            None => spec_find_thread(live@, tid as int, 0) is None,
        },
{
    let mut i: usize = 0;
    while i < live.len()
        invariant
            i <= live@.len(),
            spec_find_thread(live@, tid as int, 0) == spec_find_thread(
                live@,
                tid as int,
                i as int,
            ),
        decreases live@.len() - i,
    {
        if live[i].has_thread(tid) {
            return Some(i);
        }
        i = i + 1;
    }
    None
}

/// A found process has the number it was looked for by; without one, no
/// process has it.
pub proof fn lemma_find(live: Seq<Process>, pid: int, from: int)
    requires
        0 <= from,
    ensures
        match spec_find(live, pid, from) {
            Some(i) => from <= i < live.len() && live[i].pid == pid,
            None => forall|j: int| from <= j < live.len() ==> live[j].pid != pid,
        },
    decreases live.len() - from,
{
    if from < live.len() && live[from].pid != pid {
        lemma_find(live, pid, from + 1);
    }
}

/// The process a call that takes a number is about.
#[derive(Clone, Copy, Debug, PartialEq, Eq, Structural)]
pub enum Subject {
    /// The caller itself: number 0, or its own.
    Caller,
    /// Another live process, by its place in the list of them.
    Other(usize),
}

/// The process `pid` names to `process`: the caller for zero or its own
/// number, else a live process; `ESRCH` for a number nothing has.
pub open spec fn spec_subject(process: Process, live: Seq<Process>, pid: int) -> Result<
    Subject,
    Errno,
> {
    if pid == 0 || pid == process.pid {
        Ok(Subject::Caller)
    } else {
        match spec_find(live, pid, 0) {
            Some(i) => Ok(Subject::Other(i as usize)),
            None => Err(Errno::ESRCH),
        }
    }
}

/// The process a [`Subject`] stands for.
pub open spec fn spec_of(process: Process, live: Seq<Process>, subject: Subject) -> Process {
    match subject {
        Subject::Caller => process,
        Subject::Other(i) => live[i as int],
    }
}

/// Resolve a `pid_t` argument: zero is the caller, anything else must be a
/// live process. The caller is recognised by its own number too, whether or
/// not it is among the live ones.
///
/// `ESRCH` for a number nothing has, negative ones included.
pub fn subject(process: &Process, live: &Vec<Process>, pid: i32) -> (found: Result<Subject, Errno>)
    ensures
        found == spec_subject(*process, live@, pid as int),
        match found {
            Ok(Subject::Other(i)) => i < live@.len() && live@[i as int].pid == pid,
            _ => true,
        },
{
    if pid < 0 {
        proof {
            lemma_find(live@, pid as int, 0);
        }
        return Err(Errno::ESRCH);
    }
    if pid == 0 || pid as u32 == process.pid {
        return Ok(Subject::Caller);
    }
    match find(live, pid as u32) {
        Some(i) => Ok(Subject::Other(i)),
        None => Err(Errno::ESRCH),
    }
}

/// The process a [`Subject`] stands for.
pub fn of<'a>(process: &'a Process, live: &'a Vec<Process>, subject: Subject) -> (found: &'a Process)
    requires
        match subject {
            Subject::Other(i) => i < live@.len(),
            Subject::Caller => true,
        },
    ensures
        *found == spec_of(*process, live@, subject),
{
    match subject {
        Subject::Caller => process,
        Subject::Other(i) => &live[i],
    }
}

/// A process asked after by its number is the caller for zero or its own, and
/// else the first that lives by that number; nobody for a number nobody has.
pub proof fn law_a_process_is_found_by_its_number(process: Process, live: Seq<Process>, pid: int)
    requires
        live.len() <= usize::MAX,
    ensures
        spec_subject(process, live, pid) == Ok::<Subject, Errno>(Subject::Caller) <==> pid == 0
            || pid == process.pid,
        spec_subject(process, live, pid) matches Ok(found) ==> pid != 0 ==> spec_of(
            process,
            live,
            found,
        ).pid == pid,
        spec_subject(process, live, pid) matches Err(e) ==> e == Errno::ESRCH && forall|i: int|
            0 <= i < live.len() ==> (#[trigger] live[i]).pid != pid,
        spec_of(process, live, Subject::Caller) == process,
{
    lemma_find(live, pid, 0);
}

/// A thread is one of its process's if its id is the process's own, or among
/// those of its threads.
pub proof fn law_a_thread_is_one_of_its_processes(process: Process, tid: u32)
    ensures
        process.runs(tid as int) <==> process.pid == tid || process.threads@.contains(tid),
{
    if process.threads@.contains(tid) {
        let i = choose|i: int| 0 <= i < process.threads@.len() && process.threads@[i] == tid;
        assert(process.threads@[i] == tid);
    }
}

} // verus!
