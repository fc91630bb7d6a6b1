//! Starting the first process from the root filesystem.
//!
//! The first process starts as root already, so its file's set-id bits are not
//! honoured.

use vstd::prelude::*;

use crate::errno::Errno;
use crate::exec::{linker_for, spec_refused, ExecError, SetIds};
use crate::load::LoadError;

verus! {

/// How often the number of the first process is looked at, before another one
/// is settled for.
pub const INIT_PID_WAITS: u32 = 200;

/// How long to sleep between looks, in nanoseconds.
pub const INIT_PID_WAIT_NANOS: u64 = 5_000_000;

/// A program that was opened.
#[derive(Debug)]
pub struct Opened {
    /// The open file.
    pub program: usize,
    /// Its path, absolute and with every symbolic link resolved.
    pub exe: Vec<u8>,
}

/// Open a program, given what opening its file came to. What the file's set-id
/// bits give is dropped.
pub fn open(found: Result<(usize, Vec<u8>, SetIds), Errno>) -> (opened: Result<Opened, Errno>)
    ensures
        match found {
            Ok((program, exe, _)) => opened matches Ok(o) && o.program == program && o.exe@
                == exe@,
            Err(e) => opened == Err::<Opened, Errno>(e),
        },
{
    match found {
        Ok((program, exe, _)) => Ok(Opened { program, exe }),
        Err(e) => Err(e),
    }
}

/// What running the first process needs before anything is loaded.
#[derive(Debug)]
pub struct Running {
    /// The dynamic linker to open, if the program asks for one.
    pub linker: Option<Vec<u8>>,
    /// What its set-id bits give: nothing.
    pub set_ids: SetIds,
}

/// Run the first process, given the linker its program asks for.
///
/// `Linker` with `ENOEXEC` for a program that asks for a linker without saying
/// which, and with the error reading it met otherwise.
pub fn run(linker: Result<Option<Vec<u8>>, LoadError>) -> (running: Result<Running, ExecError>)
    ensures
        match linker {
            Ok(path) => running matches Ok(r) && r.linker == path && r.set_ids == (SetIds {
                uid: None,
                gid: None,
            }),
            Err(e) => running == Err::<Running, ExecError>(ExecError::Linker(spec_refused(e))),
        },
{
    match linker_for(linker) {
        Ok(path) => Ok(Running { linker: path, set_ids: SetIds { uid: None, gid: None } }),
        Err(e) => Err(ExecError::Linker(e)),
    }
}

/// Whether to sleep and look again for the first process's number, after
/// `looks` of them: the last one's can still be held for a moment by its task
/// on the way out.
pub fn look_again(looks: u32, free: bool) -> (again: bool)
    ensures
        again == (!free && looks < INIT_PID_WAITS),
{
    !free && looks < INIT_PID_WAITS
}

/// Why the first process did not run.
#[derive(Clone, Copy, Debug, PartialEq, Eq)]
pub enum Failure {
    /// The dynamic linker its program asks for could not be opened or read.
    Linker(Errno),
    /// Anything else.
    Exec(ExecError),
}

/// How the first process ended: with a status, or why it did not run.
pub fn start(ended: Result<i32, ExecError>) -> (result: Result<i32, Failure>)
    ensures
        result == match ended {
            Ok(status) => Ok::<i32, Failure>(status),
            Err(ExecError::Linker(errno)) => Err(Failure::Linker(errno)),
            Err(other) => Err(Failure::Exec(other)),
        },
{
    match ended {
        Ok(status) => Ok(status),
        Err(ExecError::Linker(errno)) => Err(Failure::Linker(errno)),
        Err(other) => Err(Failure::Exec(other)),
    }
}

/// The first process runs the file that was opened, with nobody's ids, and with
/// the linker its program asks for.
pub proof fn law_the_first_process_is_given_nothing_more(
    found: Result<(usize, Vec<u8>, SetIds), Errno>,
    opened: Result<Opened, Errno>,
    linker: Result<Option<Vec<u8>>, LoadError>,
    running: Result<Running, ExecError>,
)
    requires
        call_ensures(open, (found,), opened),
        call_ensures(run, (linker,), running),
    ensures
        opened is Ok <==> found is Ok,
        opened matches Ok(o) ==> o.program == found->Ok_0.0 && o.exe@ == found->Ok_0.1@,
        running is Ok <==> linker is Ok,
        running matches Ok(r) ==> r.set_ids.uid is None && r.set_ids.gid is None && linker == Ok::<
            Option<Vec<u8>>,
            LoadError,
        >(r.linker),
        linker matches Err(LoadError::Read(e)) ==> running == Err::<Running, ExecError>(
            ExecError::Linker(e),
        ),
{
}

/// How the first process ended is told: with its status, or why it did not run;
/// and its number is waited for no more than so often.
pub proof fn law_the_end_of_the_first_process_is_told(
    ended: Result<i32, ExecError>,
    result: Result<i32, Failure>,
    looks: u32,
    free: bool,
    again: bool,
)
    requires
        call_ensures(start, (ended,), result),
        call_ensures(look_again, (looks, free), again),
    ensures
        ended matches Ok(status) ==> result == Ok::<i32, Failure>(status),
        ended is Err ==> result is Err,
        ended matches Err(ExecError::Linker(e)) ==> result == Err::<i32, Failure>(
            Failure::Linker(e),
        ),
        again <==> !free && looks < 200,
{
}

} // verus!
