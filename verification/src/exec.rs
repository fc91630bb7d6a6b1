//! Replacing a program by another: what `execve` refuses, what it hands the
//! new program, and where it can no longer go back.
//!
//! Everything that can be refused is refused first: the path, the argument
//! and environment strings, the file, a `#!` interpreter, the dynamic linker
//! and the ELF headers. Until then a failure is an error the old program can
//! handle. Then the old program's memory goes, and a failure from there on
//! ends the process.

use vstd::prelude::*;

use crate::abi::Arch;
use crate::attributes::{forget_robust_list, spec_forget_robust_list, Table};
use crate::credentials::{spec_exec_ids, Credentials, Identity, Ids};
use crate::deliver::StackRecord;
use crate::errno::Errno;
use crate::fd::{
    file, named, spec_file, spec_start_for, start_for, FdTable, FileType, OpenFile, Start,
    AT_FDCWD, PATH_MAX,
};
use crate::load::{LoadError, Loaded, Source, SpaceError, PAGE_SIZE};
use crate::memory::MMAP_MIN_ADDR;
use crate::process::Process;
use crate::uaccess::{AddressSpace, CStr, CString, Memory};

verus! {

/// How much address space a program's stack gets.
pub const STACK_SIZE: u64 = 0x80_0000;

/// Address space kept inaccessible beneath the stack, so that an overflow
/// faults rather than writing into the next mapping.
pub const STACK_GUARD: u64 = 0x10_0000;

/// The most the argument vector, environment and auxiliary vector may occupy.
pub const STARTUP_BYTES: usize = 262_144;

/// What a stack pointer is a multiple of when a program starts.
pub const STACK_ALIGN: u64 = 16;

/// The longest argument or environment string, its terminator among it.
pub const MAX_ARG_STRLEN: usize = 131_072;

/// The longest `#!` line read.
pub const INTERPRETER_LINE: usize = 256;

/// The status of a process that lost its program: 128 and the number of
/// `SIGSEGV`.
pub const LOST_STATUS: i32 = 139;

/// Run the file the descriptor itself names when the path is empty.
pub const AT_EMPTY_PATH: u32 = 0x1000;

/// Refuse a path whose last component is a symbolic link.
pub const AT_SYMLINK_NOFOLLOW: u32 = 0x100;

// ---------------------------------------------------------------------------
// The stack region
// ---------------------------------------------------------------------------

/// Where the stack ends: as high in the user half as a page allows. The top
/// page is left out, so that walking off the end of the stack faults.
pub open spec fn spec_stack_top(user_end: u64) -> int {
    let top = user_end - PAGE_SIZE;
    top - top % STACK_ALIGN as int
}

/// Where the stack ends.
pub fn stack_top(user_end: u64) -> (top: u64)
    requires
        user_end >= PAGE_SIZE,
    ensures
        top == spec_stack_top(user_end),
{
    let top: u64 = user_end - PAGE_SIZE;
    top - top % STACK_ALIGN
}

/// A part of the address space set aside for the stack.
#[derive(Clone, Copy, Debug, PartialEq, Eq, Structural)]
pub struct Reservation {
    /// Where it starts.
    pub start: u64,
    /// How long it is.
    pub len: u64,
    /// Whether it can be read and written, or not touched at all.
    pub usable: bool,
}

/// What is set aside for the stack, in order: the stack itself, the addresses
/// above it, and the guard beneath it where there is room for one.
pub open spec fn spec_stack_region(user_end: u64) -> Seq<Reservation> {
    let top = spec_stack_top(user_end);
    let low = top - STACK_SIZE;
    let first = seq![
        Reservation { start: low as u64, len: STACK_SIZE, usable: true },
        Reservation { start: top as u64, len: (user_end - top) as u64, usable: false },
    ];
    if low >= STACK_GUARD {
        first.push(
            Reservation { start: (low - STACK_GUARD) as u64, len: STACK_GUARD, usable: false },
        )
    } else {
        first
    }
}

/// What is set aside for the stack, in the order it is asked for.
pub fn stack_region(user_end: u64) -> (region: Vec<Reservation>)
    requires
        user_end >= PAGE_SIZE + STACK_ALIGN + STACK_SIZE,
    ensures
        region@ == spec_stack_region(user_end),
{
    let top: u64 = stack_top(user_end);
    let low: u64 = top - STACK_SIZE;
    let mut region: Vec<Reservation> = Vec::new();
    region.push(Reservation { start: low, len: STACK_SIZE, usable: true });
    region.push(Reservation { start: top, len: user_end - top, usable: false });
    if low >= STACK_GUARD {
        region.push(Reservation { start: low - STACK_GUARD, len: STACK_GUARD, usable: false });
    }
    assert(region@ =~= spec_stack_region(user_end));
    region
}

/// The stack is the only part set aside that can be touched; what is above it
/// reaches to the end of the user half and is at least a page; what is beneath
/// it touches it; and a program's first stack pointer is aligned.
pub proof fn law_the_stack_is_guarded_on_both_sides(user_end: u64)
    requires
        user_end >= PAGE_SIZE + STACK_ALIGN + STACK_SIZE + STACK_GUARD,
    ensures
        ({
            let region = spec_stack_region(user_end);
            &&& region.len() == 3
            &&& region[0].usable && !region[1].usable && !region[2].usable
            &&& region[0].start + region[0].len == region[1].start
            &&& region[1].start + region[1].len == user_end
            &&& region[1].len >= PAGE_SIZE
            &&& region[2].start + region[2].len == region[0].start
            &&& region[1].start % STACK_ALIGN == 0
        }),
{
}

/// Why a program could not be started.
#[derive(Clone, Copy, Debug, PartialEq, Eq)]
pub enum ExecError {
    /// The image could not be loaded.
    Load(LoadError),
    /// The address space refused the stack.
    Space(SpaceError),
    /// The startup image did not fit, or could not be written.
    Startup,
    /// The program was loaded, but its task could not be started.
    Start,
    /// The dynamic linker the program names could not be read.
    Linker(Errno),
}

/// An image loaded into an empty address space, with its stack set aside.
#[derive(Clone, Copy, Debug, PartialEq, Eq, Structural)]
pub struct Image {
    /// Where the loader put it.
    pub loaded: Loaded,
    /// The top of the stack. A program with nothing on its stack starts with
    /// its stack pointer here.
    pub stack_top: u64,
}

/// The first of the first `n` outcomes that is an error.
pub open spec fn first_error(outcomes: Seq<Result<(), SpaceError>>, n: int) -> Option<SpaceError>
    decreases n,
{
    if n <= 0 {
        None
    } else {
        match first_error(outcomes, n - 1) {
            Some(e) => Some(e),
            None => match outcomes[n - 1] {
                Ok(_) => None,
                Err(e) => Some(e),
            },
        }
    }
}

/// What loading into an empty space comes to: the loader's error, or the first
/// the stack met, or the image.
pub open spec fn spec_load_into(
    loaded: Result<Loaded, LoadError>,
    outcomes: Seq<Result<(), SpaceError>>,
    user_end: u64,
) -> Result<Image, ExecError> {
    match loaded {
        Err(e) => Err(ExecError::Load(e)),
        Ok(loaded) => match first_error(outcomes, outcomes.len() as int) {
            Some(e) => Err(ExecError::Space(e)),
            None => Ok(Image { loaded, stack_top: spec_stack_top(user_end) as u64 }),
        },
    }
}

/// Whether `outcomes` is what came of the parts of the stack, in order, as far
/// as they were tried: none need be for an image that could not be loaded, and
/// none behind the first that failed.
pub open spec fn set_aside(
    loaded: Result<Loaded, LoadError>,
    outcomes: Seq<Result<(), SpaceError>>,
    user_end: u64,
) -> bool {
    ||| loaded is Err
    ||| outcomes.len() == spec_stack_region(user_end).len()
    ||| 0 < outcomes.len() < spec_stack_region(user_end).len() && outcomes.last() is Err
}

/// Load an image, given what the loader said and what came of each part of
/// [`stack_region`], in order, up to the first that failed.
pub fn load_into(
    loaded: Result<Loaded, LoadError>,
    outcomes: &Vec<Result<(), SpaceError>>,
    user_end: u64,
) -> (image: Result<Image, ExecError>)
    requires
        user_end >= PAGE_SIZE + STACK_ALIGN + STACK_SIZE,
        set_aside(loaded, outcomes@, user_end),
    ensures
        image == spec_load_into(loaded, outcomes@, user_end),
{
    let placed = match loaded {
        Ok(placed) => placed,
        Err(e) => return Err(ExecError::Load(e)),
    };
    let mut i: usize = 0;
    while i < outcomes.len()
        invariant
            i <= outcomes@.len(),
            first_error(outcomes@, i as int) is None,
            loaded == Ok::<Loaded, LoadError>(placed),
        decreases outcomes@.len() - i,
    {
        if let Err(e) = outcomes[i] {
            proof {
                lemma_first_error(outcomes@, i + 1, outcomes@.len() as int, e);
            }
            return Err(ExecError::Space(e));
        }
        i = i + 1;
    }
    Ok(Image { loaded: placed, stack_top: stack_top(user_end) })
}

/// The first error stays the first, however many outcomes follow.
proof fn lemma_first_error(
    outcomes: Seq<Result<(), SpaceError>>,
    i: int,
    n: int,
    e: SpaceError,
)
    requires
        i <= n,
        first_error(outcomes, i) == Some(e),
    ensures
        first_error(outcomes, n) == Some(e),
    decreases n - i,
{
    if i < n {
        assert(first_error(outcomes, i + 1) == Some(e));
        lemma_first_error(outcomes, i + 1, n, e);
    }
}

/// Where a program starts.
#[derive(Clone, Copy, Debug, PartialEq, Eq, Structural)]
pub struct Startup {
    /// The first instruction.
    pub entry: u64,
    /// The stack pointer.
    pub stack: u64,
    /// The start argument.
    pub argument: u64,
}

/// Load an image that came from no file into a new process that starts with
/// nothing on its stack: a native program, told what it has by its start
/// argument, which is zero until it is started with another.
pub fn load_native(
    loaded: Result<Loaded, LoadError>,
    outcomes: &Vec<Result<(), SpaceError>>,
    user_end: u64,
) -> (startup: Result<Startup, ExecError>)
    requires
        user_end >= PAGE_SIZE + STACK_ALIGN + STACK_SIZE,
        set_aside(loaded, outcomes@, user_end),
    ensures
        startup == match spec_load_into(loaded, outcomes@, user_end) {
            Ok(image) => Ok::<Startup, ExecError>(
                Startup { entry: image.loaded.start, stack: image.stack_top, argument: 0 },
            ),
            Err(e) => Err(e),
        },
{
    let image = load_into(loaded, outcomes, user_end)?;
    Ok(Startup { entry: image.loaded.start, stack: image.stack_top, argument: 0 })
}

// ---------------------------------------------------------------------------
// What the program is told
// ---------------------------------------------------------------------------

/// What the machine's processor can do.
pub const AT_HWCAP: u64 = 16;

/// More of what it can do.
pub const AT_HWCAP2: u64 = 26;

/// The size of a page.
pub const AT_PAGESZ: u64 = 6;

/// Where the program headers are.
pub const AT_PHDR: u64 = 3;

/// The size of one.
pub const AT_PHENT: u64 = 4;

/// How many there are.
pub const AT_PHNUM: u64 = 5;

/// The program's entry point.
pub const AT_ENTRY: u64 = 9;

/// Where the dynamic linker is, or zero.
pub const AT_BASE: u64 = 7;

/// The real user id.
pub const AT_UID: u64 = 11;

/// The effective user id.
pub const AT_EUID: u64 = 12;

/// The real group id.
pub const AT_GID: u64 = 13;

/// The effective group id.
pub const AT_EGID: u64 = 14;

/// Whether the program starts with ids that are not its caller's own.
pub const AT_SECURE: u64 = 23;

/// Clock ticks in a second.
pub const AT_CLKTCK: u64 = 17;

/// The ids a file's set-user-id and set-group-id bits give a program.
#[derive(Clone, Copy, Debug, PartialEq, Eq)]
pub struct SetIds {
    /// The user id, with the bit set.
    pub uid: Option<u32>,
    /// The group id, with the bit set.
    pub gid: Option<u32>,
}

/// A program to load, and the two names it goes by.
#[derive(Debug)]
pub struct Executable {
    /// The image: bytes in memory, or a file whose headers have been read.
    pub image: Source,
    /// The absolute path of the file the image was read from.
    pub exe: Vec<u8>,
    /// The filename it was asked for by.
    pub exec_fn: Vec<u8>,
    /// The ids the file's set-id bits give it.
    pub set_ids: SetIds,
    /// The dynamic linker's image, when the program named one.
    pub interpreter: Option<Source>,
}

/// A program that came from no file: with no path, both its names are its first
/// argument, or nothing, and there are no set-id bits to honour.
pub fn unfiled(image: Source, interpreter: Option<Source>, args: &Vec<Vec<u8>>) -> (program:
    Executable)
    ensures
        program.image == image,
        program.interpreter == interpreter,
        program.set_ids == (SetIds { uid: None, gid: None }),
        program.exe@ == program.exec_fn@,
        program.exec_fn@ == if args@.len() == 0 {
            Seq::<u8>::empty()
        } else {
            args@[0]@
        },
{
    let (exe, exec_fn) = if args.len() == 0 {
        (Vec::new(), Vec::new())
    } else {
        (copied(args[0].as_slice()), copied(args[0].as_slice()))
    };
    Executable { image, exe, exec_fn, set_ids: SetIds { uid: None, gid: None }, interpreter }
}

/// How running a program ended, given how loading it, starting its task and
/// waiting for it did: the status it exited with, or why there is none.
pub fn run_as(loaded: Result<(), ExecError>, started: bool, ended: Option<i32>) -> (status: Result<
    i32,
    ExecError,
>)
    ensures
        status == match loaded {
            Err(e) => Err::<i32, ExecError>(e),
            Ok(_) => match ended {
                Some(code) if started => Ok(code),
                _ => Err(ExecError::Start),
            },
        },
{
    loaded?;
    if !started {
        return Err(ExecError::Start);
    }
    match ended {
        Some(code) => Ok(code),
        None => Err(ExecError::Start),
    }
}

/// The auxiliary vector: what the kernel tells a program about itself.
pub open spec fn spec_auxv(
    loaded: Loaded,
    hwcap: u64,
    hwcap2: u64,
    user: Ids,
    group: Ids,
    secure: bool,
) -> Seq<(u64, u64)> {
    seq![
        (AT_HWCAP, hwcap),
        (AT_HWCAP2, hwcap2),
        (AT_PAGESZ, PAGE_SIZE),
        (AT_PHDR, loaded.phdr),
        (AT_PHENT, loaded.phent),
        (AT_PHNUM, loaded.phnum),
        (AT_ENTRY, loaded.entry),
        (AT_BASE, loaded.base),
        (AT_UID, user.real as u64),
        (AT_EUID, user.effective as u64),
        (AT_GID, group.real as u64),
        (AT_EGID, group.effective as u64),
        (
            AT_SECURE,
            if secure {
                1
            } else {
                0
            },
        ),
        (AT_CLKTCK, 100u64),
    ]
}

/// The auxiliary vector.
fn auxv(loaded: &Loaded, hwcap: u64, hwcap2: u64, user: Ids, group: Ids, secure: bool) -> (list: Vec<
    (u64, u64),
>)
    ensures
        list@ == spec_auxv(*loaded, hwcap, hwcap2, user, group, secure),
{
    let mut list: Vec<(u64, u64)> = Vec::new();
    list.push((AT_HWCAP, hwcap));
    list.push((AT_HWCAP2, hwcap2));
    list.push((AT_PAGESZ, PAGE_SIZE));
    list.push((AT_PHDR, loaded.phdr));
    list.push((AT_PHENT, loaded.phent));
    list.push((AT_PHNUM, loaded.phnum));
    list.push((AT_ENTRY, loaded.entry));
    list.push((AT_BASE, loaded.base));
    list.push((AT_UID, user.real as u64));
    list.push((AT_EUID, user.effective as u64));
    list.push((AT_GID, group.real as u64));
    list.push((AT_EGID, group.effective as u64));
    list.push(
        (
            AT_SECURE,
            if secure {
                1
            } else {
                0
            },
        ),
    );
    list.push((AT_CLKTCK, 100));
    assert(list@ =~= spec_auxv(*loaded, hwcap, hwcap2, user, group, secure));
    list
}

/// What a startup stack is built from, beside the strings.
#[derive(Debug)]
pub struct Populating {
    /// Where the heap starts: above the program's highest segment.
    pub heap_base: u64,
    /// Where the startup image is written, right below the top of the stack.
    pub base: u64,
    /// The auxiliary vector.
    pub auxv: Vec<(u64, u64)>,
    /// Whether a pointer is eight bytes rather than four.
    pub wide: bool,
}

/// Prepare the startup stack of a loaded program: the process takes the ids
/// the program starts with, and the auxiliary vector says so.
pub fn populate(
    image: &Image,
    credentials: &mut Credentials,
    set_ids: SetIds,
    hwcap: u64,
    hwcap2: u64,
    arch: Arch,
) -> (plan: Populating)
    requires
        image.stack_top >= STARTUP_BYTES,
    ensures
        final(credentials)@ == (Identity {
            user: spec_exec_ids(old(credentials)@.user, set_ids.uid),
            group: spec_exec_ids(old(credentials)@.group, set_ids.gid),
            groups: old(credentials)@.groups,
        }),
        plan.heap_base == image.loaded.end,
        plan.base == image.stack_top - STARTUP_BYTES,
        plan.wide == (arch != Arch::Arm),
        plan.auxv@ == spec_auxv(
            image.loaded,
            hwcap,
            hwcap2,
            final(credentials)@.user,
            final(credentials)@.group,
            final(credentials)@.user.effective != final(credentials)@.user.real
                || final(credentials)@.group.effective != final(credentials)@.group.real,
        ),
{
    let secure = credentials.exec(set_ids.uid, set_ids.gid);
    let list = auxv(&image.loaded, hwcap, hwcap2, credentials.user, credentials.group, secure);
    Populating {
        heap_base: image.loaded.end,
        base: image.stack_top - STARTUP_BYTES as u64,
        auxv: list,
        wide: arch != Arch::Arm,
    }
}

/// Where a program whose startup stack was prepared starts: at its first
/// instruction, with the stack pointer the built image has. `Startup` if the
/// image did not fit, or could not be written.
pub fn populated(image: &Image, built: Option<u64>, written: bool) -> (startup: Result<
    Startup,
    ExecError,
>)
    ensures
        startup == match built {
            Some(sp) if written => Ok::<Startup, ExecError>(
                Startup { entry: image.loaded.start, stack: sp, argument: 0 },
            ),
            _ => Err(ExecError::Startup),
        },
{
    match built {
        Some(sp) => if written {
            Ok(Startup { entry: image.loaded.start, stack: sp, argument: 0 })
        } else {
            Err(ExecError::Startup)
        },
        None => Err(ExecError::Startup),
    }
}

/// What `execve` answers for an image the loader refuses before the point of
/// no return: the error reading the file met, and `ENOEXEC` for anything about
/// the image itself.
pub open spec fn spec_refused(error: LoadError) -> Errno {
    match error {
        LoadError::Read(errno) => errno,
        _ => Errno::ENOEXEC,
    }
}

/// What `execve` answers for an image the loader refuses.
pub fn refused(error: LoadError) -> (errno: Errno)
    ensures
        errno == spec_refused(error),
{
    match error {
        LoadError::Read(errno) => errno,
        _ => Errno::ENOEXEC,
    }
}

/// The dynamic linker to open for an image, given what it says of one.
///
/// `ENOEXEC` for an image that asks for a linker without saying which, and the
/// error that reading it met otherwise.
pub fn linker_for(found: Result<Option<Vec<u8>>, LoadError>) -> (path: Result<
    Option<Vec<u8>>,
    Errno,
>)
    ensures
        match found {
            Ok(name) => path == Ok::<Option<Vec<u8>>, Errno>(name),
            Err(e) => path == Err::<Option<Vec<u8>>, Errno>(spec_refused(e)),
        },
{
    match found {
        Ok(name) => Ok(name),
        Err(e) => Err(refused(e)),
    }
}

/// What is unmapped to take every mapping out of the user half: its start and
/// its length. Nothing is ever mapped below the start.
pub fn empty_user_half(user_end: u64) -> (range: (u64, u64))
    requires
        user_end >= MMAP_MIN_ADDR,
    ensures
        range.0 == MMAP_MIN_ADDR,
        range.0 + range.1 == user_end,
{
    (MMAP_MIN_ADDR, user_end - MMAP_MIN_ADDR)
}

/// What a failed `execve` past its point of no return ends the process with.
pub fn lost_status() -> (status: i32)
    ensures
        status == LOST_STATUS,
{
    LOST_STATUS
}

// ---------------------------------------------------------------------------
// Argument strings
// ---------------------------------------------------------------------------

/// What a list of strings holds.
pub open spec fn texts(list: Seq<Vec<u8>>) -> Seq<Seq<u8>> {
    list.map(|i: int, s: Vec<u8>| s@)
}

/// The strings of the array of pointers at `at`, and what is left of `budget`:
/// each string costs its bytes, its terminator and its pointer.
///
/// `EFAULT` for a pointer or a string that cannot be read, or a string of
/// [`MAX_ARG_STRLEN`] bytes or more; `E2BIG` for one that costs more than is
/// left.
pub open spec fn spec_strings(m: Memory, slot: int, budget: int, word: nat) -> Result<
    (Seq<Seq<u8>>, int),
    Errno,
>
    decreases budget,
{
    if !m.can_read(slot, word as int) {
        Err(Errno::EFAULT)
    } else if m.number(slot, word) == 0 {
        Ok((Seq::empty(), budget))
    } else {
        match m.cstr(m.number(slot, word) as int, MAX_ARG_STRLEN as nat) {
            CStr::Complete(text) => {
                let left = budget - (text.len() + 1 + word);
                if left < 0 {
                    Err(Errno::E2BIG)
                } else {
                    match spec_strings(m, slot + word, left, word) {
                        Ok((rest, rest_budget)) => Ok((seq![text] + rest, rest_budget)),
                        Err(e) => Err(e),
                    }
                }
            },
            _ => Err(Errno::EFAULT),
        }
    }
}

/// [`spec_strings`], with a null array an empty one.
pub open spec fn spec_read_strings(m: Memory, at: u64, budget: int, word: nat) -> Result<
    (Seq<Seq<u8>>, int),
    Errno,
> {
    if at == 0 {
        Ok((Seq::empty(), budget))
    } else {
        spec_strings(m, at as int, budget, word)
    }
}

/// The same outcome for a list that starts with `head`.
pub open spec fn after(head: Seq<Seq<u8>>, rest: Result<(Seq<Seq<u8>>, int), Errno>) -> Result<
    (Seq<Seq<u8>>, int),
    Errno,
> {
    match rest {
        Ok((tail, budget)) => Ok((head + tail, budget)),
        Err(e) => Err(e),
    }
}

/// Read a `NULL`-terminated array of string pointers from the program,
/// charging each string to `budget`. A null array is an empty one.
pub fn read_strings(space: &AddressSpace, at: u64, budget: &mut usize, arch: Arch) -> (strings: Result<
    Vec<Vec<u8>>,
    Errno,
>)
    requires
        space.wf(),
    ensures
        match strings {
            Ok(list) => spec_read_strings(
                space@,
                at,
                *old(budget) as int,
                arch.spec_word(),
            ) == Ok::<(Seq<Seq<u8>>, int), Errno>((texts(list@), *final(budget) as int)),
            Err(e) => spec_read_strings(space@, at, *old(budget) as int, arch.spec_word()) == Err::<
                (Seq<Seq<u8>>, int),
                Errno,
            >(e),
        },
        *final(budget) <= *old(budget),
{
    let mut strings: Vec<Vec<u8>> = Vec::new();
    assert(texts(strings@) =~= Seq::<Seq<u8>>::empty());
    if at == 0 {
        return Ok(strings);
    }
    let word: usize = arch.word();
    let mut slot: u64 = at;
    let ghost all = spec_strings(space@, at as int, *budget as int, word as nat);
    proof {
        if let Ok((tail, left)) = all {
            assert(texts(strings@) + tail =~= tail);
        }
    }
    let ghost first = *budget;
    loop
        invariant
            space.wf(),
            word == 4 || word == 8,
            *budget <= first,
            all == after(
                texts(strings@),
                spec_strings(space@, slot as int, *budget as int, word as nat),
            ),
            word == arch.spec_word(),
            at != 0,
            all == spec_read_strings(space@, at, first as int, arch.spec_word()),
            first == *old(budget),
        decreases *budget,
    {
        let pointer: u64 = space.get_number(slot, word)?;
        if pointer == 0 {
            assert(texts(strings@) + Seq::<Seq<u8>>::empty() =~= texts(strings@));
            return Ok(strings);
        }
        let text: Vec<u8> = match space.copy_cstr_from_user(pointer, MAX_ARG_STRLEN) {
            CString::Complete(text) => text,
            _ => return Err(Errno::EFAULT),
        };
        let len: usize = text.len();
        if len >= *budget || *budget - len < 1 + word {
            return Err(Errno::E2BIG);
        }
        let ghost before = strings@;
        let ghost left = *budget - (len + 1 + word);
        *budget = *budget - len - 1 - word;
        strings.push(text);
        proof {
            assert(space@.bytes.dom().contains(slot + word - 1));
            if slot + word > u64::MAX {
                space.lemma_unmapped_above(slot + word - 1);
            }
            let rest = spec_strings(space@, slot + word, left, word as nat);
            if let Ok((tail, _)) = rest {
                assert(texts(strings@) + tail =~= texts(before) + (seq![text@] + tail));
            }
        }
        slot = slot + word as u64;
    }
}

// ---------------------------------------------------------------------------
// Scripts
// ---------------------------------------------------------------------------

/// Whether a byte is white space.
pub open spec fn spec_space(b: u8) -> bool {
    b == 0x20 || b == 0x09 || b == 0x0A || b == 0x0C || b == 0x0D
}

/// Whether a byte is white space.
fn is_space(b: u8) -> (yes: bool)
    ensures
        yes == spec_space(b),
{
    b == 0x20 || b == 0x09 || b == 0x0A || b == 0x0C || b == 0x0D
}

/// How many bytes at the start of `s` are white space, or are not.
pub open spec fn leading(s: Seq<u8>, white: bool) -> nat
    decreases s.len(),
{
    if s.len() == 0 || spec_space(s[0]) != white {
        0
    } else {
        1 + leading(s.drop_first(), white)
    }
}

/// How many bytes at the end of `s` are white space.
pub open spec fn trailing(s: Seq<u8>) -> nat
    decreases s.len(),
{
    if s.len() == 0 || !spec_space(s.last()) {
        0
    } else {
        1 + trailing(s.drop_last())
    }
}

/// `s` without the white space at its ends.
pub open spec fn trimmed(s: Seq<u8>) -> Seq<u8> {
    let from = leading(s, true);
    if from >= s.len() {
        Seq::empty()
    } else {
        s.subrange(from as int, s.len() - trailing(s))
    }
}

/// How many of the first `most` bytes come before a newline.
pub open spec fn line_len(s: Seq<u8>, most: nat) -> nat
    decreases most,
{
    if most == 0 || s.len() == 0 || s[0] == 0x0A {
        0
    } else {
        1 + line_len(s.drop_first(), (most - 1) as nat)
    }
}

/// The interpreter and its one optional argument from a `#!` line: the first
/// word of it, and the rest, each without white space at its ends. `ENOEXEC`
/// if there is no word.
pub open spec fn spec_interpreter_line(image: Seq<u8>) -> Result<
    (Seq<u8>, Option<Seq<u8>>),
    Errno,
> {
    if image.len() < 2 {
        Err(Errno::ENOEXEC)
    } else {
        let rest = image.skip(2);
        let line = trimmed(rest.take(line_len(rest, INTERPRETER_LINE as nat) as int));
        let split = leading(line, false) as int;
        let argument = trimmed(line.skip(split));
        if split == 0 {
            Err(Errno::ENOEXEC)
        } else {
            Ok(
                (
                    line.take(split),
                    if argument.len() == 0 {
                        None
                    } else {
                        Some(argument)
                    },
                ),
            )
        }
    }
}

/// A prefix is no longer than the whole.
proof fn lemma_leading(s: Seq<u8>, white: bool)
    ensures
        leading(s, white) <= s.len(),
        forall|i: int| 0 <= i < leading(s, white) ==> spec_space(#[trigger] s[i]) == white,
        leading(s, white) < s.len() ==> spec_space(s[leading(s, white) as int]) != white,
    decreases s.len(),
{
    if s.len() > 0 && spec_space(s[0]) == white {
        let tail = s.drop_first();
        lemma_leading(tail, white);
        assert forall|i: int| 0 <= i < leading(s, white) implies spec_space(#[trigger] s[i])
            == white by {
            if i > 0 {
                assert(s[i] == tail[i - 1]);
            }
        }
        assert(leading(s, white) < s.len() ==> s[leading(s, white) as int] == tail[leading(
            tail,
            white,
        ) as int]);
    }
}

/// White space at the end stops at the last byte that is none.
proof fn lemma_trailing(s: Seq<u8>)
    ensures
        trailing(s) <= s.len(),
        trailing(s) < s.len() ==> !spec_space(s[s.len() - trailing(s) - 1]),
        forall|i: int| s.len() - trailing(s) <= i < s.len() ==> spec_space(#[trigger] s[i]),
    decreases s.len(),
{
    if s.len() > 0 && spec_space(s.last()) {
        let head = s.drop_last();
        lemma_trailing(head);
        assert forall|i: int| s.len() - trailing(s) <= i < s.len() implies spec_space(
            #[trigger] s[i],
        ) by {
            if i < s.len() - 1 {
                assert(s[i] == head[i]);
            }
        }
    }
}

/// How many bytes at the start of `s` are white space, or are not.
fn count_leading(s: &[u8], white: bool) -> (n: usize)
    ensures
        n == leading(s@, white),
        n <= s@.len(),
{
    let mut i: usize = 0;
    assert(s@.skip(0) =~= s@);
    while i < s.len() && is_space(s[i]) == white
        invariant
            i <= s@.len(),
            leading(s@, white) == i + leading(s@.skip(i as int), white),
        decreases s@.len() - i,
    {
        assert(s@.skip(i as int).drop_first() =~= s@.skip(i + 1));
        i = i + 1;
    }
    assert(leading(s@.skip(i as int), white) == 0);
    i
}

/// How many bytes at the end of `s` are white space.
fn count_trailing(s: &[u8]) -> (n: usize)
    ensures
        n == trailing(s@),
        n <= s@.len(),
{
    let mut end: usize = s.len();
    assert(s@.take(s@.len() as int) =~= s@);
    while end > 0 && is_space(s[end - 1])
        invariant
            end <= s@.len(),
            trailing(s@) == s@.len() - end + trailing(s@.take(end as int)),
        decreases end,
    {
        assert(s@.take(end as int).drop_last() =~= s@.take(end - 1));
        end = end - 1;
    }
    assert(trailing(s@.take(end as int)) == 0);
    s.len() - end
}

/// `s` without the white space at its ends.
fn trim(s: &[u8]) -> (out: Vec<u8>)
    ensures
        out@ == trimmed(s@),
{
    let from: usize = count_leading(s, true);
    if from >= s.len() {
        let none: Vec<u8> = Vec::new();
        assert(none@ =~= Seq::<u8>::empty());
        return none;
    }
    proof {
        lemma_leading(s@, true);
        lemma_trailing(s@);
    }
    let to: usize = s.len() - count_trailing(s);
    copied(vstd::slice::slice_subrange(s, from, to))
}

/// The same bytes.
pub fn copied(s: &[u8]) -> (out: Vec<u8>)
    ensures
        out@ == s@,
{
    let mut out: Vec<u8> = Vec::new();
    let mut i: usize = 0;
    while i < s.len()
        invariant
            i <= s@.len(),
            out@ == s@.take(i as int),
        decreases s@.len() - i,
    {
        out.push(s[i]);
        assert(s@.take(i + 1) =~= s@.take(i as int).push(s@[i as int]));
        i = i + 1;
    }
    assert(s@.take(s@.len() as int) =~= s@);
    out
}

/// How many of the first `most` bytes come before a newline.
fn count_line(s: &[u8], most: usize) -> (n: usize)
    ensures
        n == line_len(s@, most as nat),
        n <= s@.len(),
{
    let mut i: usize = 0;
    assert(s@.skip(0) =~= s@);
    while i < most && i < s.len() && s[i] != 0x0A
        invariant
            i <= s@.len(),
            i <= most,
            line_len(s@, most as nat) == i + line_len(s@.skip(i as int), (most - i) as nat),
        decreases s@.len() - i,
    {
        assert(s@.skip(i as int).drop_first() =~= s@.skip(i + 1));
        i = i + 1;
    }
    assert(line_len(s@.skip(i as int), (most - i) as nat) == 0);
    i
}

/// What a text, if there is one, holds.
pub open spec fn text_of(text: Option<Vec<u8>>) -> Option<Seq<u8>> {
    match text {
        Some(text) => Some(text@),
        None => None,
    }
}

/// What a pair of texts holds.
pub open spec fn pair_view(pair: (Vec<u8>, Option<Vec<u8>>)) -> (Seq<u8>, Option<Seq<u8>>) {
    (pair.0@, text_of(pair.1))
}

/// The interpreter and its one optional argument from a `#!` line.
pub fn interpreter_line(image: &[u8]) -> (line: Result<(Vec<u8>, Option<Vec<u8>>), Errno>)
    ensures
        match line {
            Ok(pair) => spec_interpreter_line(image@) == Ok::<(Seq<u8>, Option<Seq<u8>>), Errno>(
                pair_view(pair),
            ),
            Err(e) => spec_interpreter_line(image@) == Err::<(Seq<u8>, Option<Seq<u8>>), Errno>(e),
        },
{
    if image.len() < 2 {
        return Err(Errno::ENOEXEC);
    }
    let rest = vstd::slice::slice_subrange(image, 2, image.len());
    assert(rest@ =~= image@.skip(2));
    let end: usize = count_line(rest, INTERPRETER_LINE);
    let whole = vstd::slice::slice_subrange(rest, 0, end);
    assert(whole@ =~= rest@.take(end as int));
    let line = trim(whole);
    let split: usize = count_leading(line.as_slice(), false);
    if split == 0 {
        return Err(Errno::ENOEXEC);
    }
    let interpreter = copied(vstd::slice::slice_subrange(line.as_slice(), 0, split));
    assert(interpreter@ =~= line@.take(split as int));
    let after_it = vstd::slice::slice_subrange(line.as_slice(), split, line.len());
    assert(after_it@ =~= line@.skip(split as int));
    let argument = trim(after_it);
    if argument.len() == 0 {
        Ok((interpreter, None))
    } else {
        Ok((interpreter, Some(argument)))
    }
}

/// An interpreter named on a `#!` line is a word: not empty, and without white
/// space. Its argument is not empty and has none at its ends.
pub proof fn law_an_interpreter_is_a_word(image: Seq<u8>)
    ensures
        match spec_interpreter_line(image) {
            Ok((interpreter, argument)) => {
                &&& interpreter.len() > 0
                &&& forall|i: int|
                    0 <= i < interpreter.len() ==> !spec_space(#[trigger] interpreter[i])
                &&& match argument {
                    Some(text) => text.len() > 0 && !spec_space(text[0]) && !spec_space(
                        text.last(),
                    ),
                    None => true,
                }
            },
            Err(e) => e == Errno::ENOEXEC,
        },
{
    if image.len() >= 2 {
        let rest = image.skip(2);
        let line = trimmed(rest.take(line_len(rest, INTERPRETER_LINE as nat) as int));
        lemma_leading(line, false);
        let split = leading(line, false) as int;
        let tail = line.skip(split);
        lemma_leading(tail, true);
        lemma_trailing(tail);
    }
}

// ---------------------------------------------------------------------------
// A name through a descriptor
// ---------------------------------------------------------------------------

/// A number in decimal.
pub open spec fn decimal(n: nat) -> Seq<u8>
    decreases n,
{
    if n < 10 {
        seq![(0x30 + n) as u8]
    } else {
        decimal(n / 10).push((0x30 + n % 10) as u8)
    }
}

/// A signed number in decimal.
pub open spec fn signed_decimal(n: int) -> Seq<u8> {
    if n < 0 {
        seq![0x2Du8] + decimal((-n) as nat)
    } else {
        decimal(n as nat)
    }
}

/// Append a number in decimal.
fn push_decimal(out: &mut Vec<u8>, n: u32)
    ensures
        final(out)@ == old(out)@ + decimal(n as nat),
    decreases n,
{
    if n >= 10 {
        push_decimal(out, n / 10);
    }
    let ghost before = out@;
    out.push((0x30 + n % 10) as u8);
    proof {
        if n >= 10 {
            assert(out@ =~= old(out)@ + decimal(n as nat));
        } else {
            assert(out@ =~= old(out)@ + decimal(n as nat));
        }
    }
}

/// `/dev/fd/`.
pub open spec fn dev_fd() -> Seq<u8> {
    seq![0x2Fu8, 0x64, 0x65, 0x76, 0x2F, 0x66, 0x64, 0x2F]
}

/// The name a script run through a descriptor is handed to its interpreter
/// under: `/dev/fd/` and the number, and the relative path if there is one.
pub open spec fn spec_descriptor_path(dirfd: int, path: Seq<u8>) -> Seq<u8> {
    let name = dev_fd() + signed_decimal(dirfd);
    if path.len() == 0 {
        name
    } else {
        name + seq![0x2Fu8] + path
    }
}

/// The name a script run through a descriptor is handed to its interpreter
/// under: the only one that means the right file from wherever the interpreter
/// runs.
pub fn descriptor_path(dirfd: i32, path: &[u8]) -> (name: Vec<u8>)
    ensures
        name@ == spec_descriptor_path(dirfd as int, path@),
{
    let mut name: Vec<u8> = Vec::new();
    name.push(0x2F);
    name.push(0x64);
    name.push(0x65);
    name.push(0x76);
    name.push(0x2F);
    name.push(0x66);
    name.push(0x64);
    name.push(0x2F);
    assert(name@ =~= dev_fd());
    let digits: u32 = if dirfd < 0 {
        name.push(0x2D);
        (-(dirfd as i64)) as u32
    } else {
        dirfd as u32
    };
    push_decimal(&mut name, digits);
    assert(name@ =~= dev_fd() + signed_decimal(dirfd as int));
    if path.len() > 0 {
        name.push(0x2F);
        let mut tail = copied(path);
        name.append(&mut tail);
        assert(name@ =~= spec_descriptor_path(dirfd as int, path@));
    }
    name
}

// ---------------------------------------------------------------------------
// The request
// ---------------------------------------------------------------------------

/// What a program asked `execve` for.
#[derive(Debug)]
pub struct Request {
    /// The path.
    pub path: Vec<u8>,
    /// The arguments.
    pub args: Vec<Vec<u8>>,
    /// The environment.
    pub env: Vec<Vec<u8>>,
}

/// [`Request`] as a mathematical value.
#[verifier::ext_equal]
pub ghost struct Asked {
    /// The path.
    pub path: Seq<u8>,
    /// The arguments.
    pub args: Seq<Seq<u8>>,
    /// The environment.
    pub env: Seq<Seq<u8>>,
}

impl Request {
    /// The request as a mathematical value.
    pub open spec fn view(self) -> Asked {
        Asked { path: self.path@, args: texts(self.args@), env: texts(self.env@) }
    }
}

/// What a program asked `execve` for, or why it is refused: `EINVAL` for an
/// unknown flag, `EFAULT` for a path that cannot be read or does not end,
/// `ENOENT` for an empty one unless that was allowed, and then what
/// [`spec_read_strings`] refuses, of the arguments before the environment.
pub open spec fn spec_request(
    m: Memory,
    path: u64,
    argv: u64,
    envp: u64,
    flags: u32,
    word: nat,
) -> Result<Asked, Errno> {
    if flags & !(AT_EMPTY_PATH | AT_SYMLINK_NOFOLLOW) != 0 {
        Err(Errno::EINVAL)
    } else {
        match m.cstr(path as int, PATH_MAX as nat) {
            CStr::Complete(path) => if path.len() == 0 && flags & AT_EMPTY_PATH == 0 {
                Err(Errno::ENOENT)
            } else {
                match spec_read_strings(m, argv, STARTUP_BYTES as int, word) {
                    Err(e) => Err(e),
                    Ok((args, left)) => match spec_read_strings(m, envp, left, word) {
                        Err(e) => Err(e),
                        Ok((env, _)) => Ok(Asked { path, args, env }),
                    },
                }
            },
            _ => Err(Errno::EFAULT),
        }
    }
}

/// Read what a program asked `execve` for.
fn read_request(
    space: &AddressSpace,
    path: u64,
    argv: u64,
    envp: u64,
    flags: u32,
    arch: Arch,
) -> (request: Result<Request, Errno>)
    requires
        space.wf(),
    ensures
        match request {
            Ok(request) => spec_request(
                space@,
                path,
                argv,
                envp,
                flags,
                arch.spec_word(),
            ) == Ok::<Asked, Errno>(request@),
            Err(e) => spec_request(space@, path, argv, envp, flags, arch.spec_word()) == Err::<
                Asked,
                Errno,
            >(e),
        },
{
    if flags & !(AT_EMPTY_PATH | AT_SYMLINK_NOFOLLOW) != 0 {
        return Err(Errno::EINVAL);
    }
    let path: Vec<u8> = match space.copy_cstr_from_user(path, PATH_MAX) {
        CString::Complete(path) => path,
        _ => return Err(Errno::EFAULT),
    };
    if path.len() == 0 && flags & AT_EMPTY_PATH == 0 {
        return Err(Errno::ENOENT);
    }
    let mut budget: usize = STARTUP_BYTES;
    let args = read_strings(space, argv, &mut budget, arch)?;
    let env = read_strings(space, envp, &mut budget, arch)?;
    Ok(Request { path, args, env })
}

/// Where the program to run is looked for.
#[derive(Clone, Copy, Debug, PartialEq, Eq, Structural)]
pub enum Finding {
    /// It is what a description names, to be read through the description
    /// itself, or opened afresh if that one cannot be read.
    Descriptor { file: usize, reopen: bool },
    /// It is at the path, which starts here; and its last component must not
    /// be a symbolic link.
    Path { start: Start, nofollow: bool },
}

/// Where the program to run is looked for: for an empty path, what the
/// descriptor names, which must be a regular file (`EACCES`), and otherwise
/// the path, from the directory the descriptor names.
pub open spec fn spec_finding(
    table: FdTable,
    open: Seq<OpenFile>,
    dirfd: int,
    path: Seq<u8>,
    flags: u32,
) -> Result<Finding, Errno> {
    if path.len() == 0 {
        match spec_file(table, open, dirfd) {
            Err(e) => Err(e),
            Ok(file) => if file.kind != FileType::Regular {
                Err(Errno::EACCES)
            } else {
                Ok(Finding::Descriptor { file: table@[dirfd].file, reopen: !file.readable })
            },
        }
    } else {
        match spec_start_for(table, open, dirfd, path) {
            Err(e) => Err(e),
            Ok(start) => Ok(
                Finding::Path { start, nofollow: flags & AT_SYMLINK_NOFOLLOW != 0 },
            ),
        }
    }
}

/// The regular file a descriptor names, to be opened as a program.
///
/// `EACCES` for anything but a regular file. A description that cannot read is
/// opened afresh from where it points: running a file needs no read access
/// through the descriptor.
pub fn open_descriptor(table: &FdTable, open: &Vec<OpenFile>, dirfd: i32) -> (finding: Result<
    Finding,
    Errno,
>)
    requires
        named(*table, open@.len()),
    ensures
        finding == spec_finding(*table, open@, dirfd as int, Seq::empty(), 0),
{
    let named_file = file(table, open, dirfd)?;
    if named_file.kind != FileType::Regular {
        return Err(Errno::EACCES);
    }
    let k: usize = table.get(dirfd)?;
    Ok(Finding::Descriptor { file: k, reopen: !named_file.readable })
}

/// Where the program to run is looked for.
fn find_program(
    table: &FdTable,
    open: &Vec<OpenFile>,
    dirfd: i32,
    path: &[u8],
    flags: u32,
) -> (finding: Result<Finding, Errno>)
    requires
        named(*table, open@.len()),
    ensures
        finding == spec_finding(*table, open@, dirfd as int, path@, flags),
{
    if path.len() == 0 {
        return open_descriptor(table, open, dirfd);
    }
    let start = start_for(table, open, dirfd, path)?;
    Ok(Finding::Path { start, nofollow: flags & AT_SYMLINK_NOFOLLOW != 0 })
}

/// The name the program was asked for by, which a script's interpreter is
/// handed and the program is told: the path itself when it means the same
/// from anywhere, and a name through the descriptor when it does not.
pub open spec fn spec_exec_fn(finding: Finding, dirfd: int, path: Seq<u8>) -> Seq<u8> {
    match finding {
        Finding::Path { start: Start::Default, .. } => path,
        _ => spec_descriptor_path(dirfd, path),
    }
}

// ---------------------------------------------------------------------------
// What the old program leaves behind
// ---------------------------------------------------------------------------

/// What a thread asked for in its program's memory.
#[derive(Clone, Copy, Debug, PartialEq, Eq, Structural)]
pub struct ThreadMemory {
    /// Where its id is cleared when it ends.
    pub clear_child_tid: Option<u64>,
    /// Its alternate signal stack.
    pub altstack: Option<StackRecord>,
}

/// Forget what was in the memory a new program replaces: the process's robust
/// list, the address the calling thread asked to have cleared, and its
/// alternate stack.
pub fn reset(table: &mut Table, live: &Vec<Process>, process: &Process, thread: &mut ThreadMemory)
    requires
        old(table).wf(),
    ensures
        final(table).wf(),
        final(table)@ == spec_forget_robust_list(old(table)@, live@, *process),
        *final(thread) == (ThreadMemory { clear_child_tid: None, altstack: None }),
{
    forget_robust_list(table, live, process);
    thread.clear_child_tid = None;
    thread.altstack = None;
}

// ---------------------------------------------------------------------------
// One step at a time
// ---------------------------------------------------------------------------

/// What `execve` waits for.
#[derive(Clone, Copy, Debug, PartialEq, Eq, Structural)]
pub enum Phase {
    /// What the path's last component is.
    Resolving,
    /// The program's file.
    Opening,
    /// The file of the interpreter a script names.
    Interpreting,
    /// The name of the dynamic linker the program asks for.
    Naming,
    /// The linker's file.
    Linking,
    /// What the loader says of both.
    Checking,
    /// The end of every other thread.
    Threading,
    /// The end of the old program's memory: the point of no return.
    Emptying,
    /// The process as a new program finds it.
    Resetting,
    /// The new program's memory.
    Populating,
    /// The end of the descriptors marked for it, with where the new program
    /// starts.
    Closing(Startup),
    /// Nothing any more.
    Over,
}

/// What happened.
#[derive(Debug)]
pub enum Event {
    /// The path's last component was looked at.
    Resolved(Result<FileType, Errno>),
    /// A program's file was opened: its first bytes, the path it was found at,
    /// and what its set-id bits give.
    Opened(Result<(Vec<u8>, Vec<u8>, SetIds), Errno>),
    /// The dynamic linker the program asks for was looked for.
    Named(Result<Option<Vec<u8>>, LoadError>),
    /// The linker's file was opened.
    LinkerOpened(Result<(), Errno>),
    /// The loader looked at the headers.
    Checked(Result<(), LoadError>),
    /// Every other thread ended.
    ThreadsEnded(Result<(), Errno>),
    /// The old program's memory went.
    Emptied(Result<(), SpaceError>),
    /// The process is as a new program finds it.
    Reset,
    /// The new program was loaded, and its stack built.
    Populated(Result<Startup, ExecError>),
    /// The marked descriptors are closed.
    Closed,
}

/// What to do next.
#[derive(Clone, Copy, Debug, PartialEq, Eq, Structural)]
pub enum Action {
    /// Look at the path's last component.
    Resolve,
    /// Open the program's file.
    Open,
    /// Open the file of the interpreter.
    OpenInterpreter,
    /// Look for the linker the program asks for.
    NameLinker,
    /// Open the linker's file.
    OpenLinker,
    /// Have the loader look at the headers.
    Check,
    /// End every other thread.
    EndThreads,
    /// Take the old program's memory away.
    Empty,
    /// Put the process back to how a new program finds it: signal handlers at
    /// their defaults, and nothing left of what it asked for in the memory
    /// that is gone. [`reset`] is the last part.
    Reset,
    /// Load the new program and build its stack.
    Populate,
    /// Close the descriptors marked for it, with [`crate::records::close_marked`],
    /// and record that the process has run a program.
    Close,
    /// Enter it.
    Enter(Startup),
    /// Answer the old program with this error.
    Refuse(Errno),
    /// End the process: there is nothing to return to.
    Lose,
}

/// An `execve` on its way.
#[derive(Debug)]
pub struct Execve {
    /// What it waits for.
    pub phase: Phase,
    /// Where the program is looked for.
    pub finding: Finding,
    /// The path, as it was given.
    pub path: Vec<u8>,
    /// The name the program was asked for by.
    pub exec_fn: Vec<u8>,
    /// The arguments.
    pub args: Vec<Vec<u8>>,
    /// The environment.
    pub env: Vec<Vec<u8>>,
    /// The path of the file that is loaded, which the process is recorded to
    /// run.
    pub exe: Vec<u8>,
    /// What the file's set-id bits give.
    pub set_ids: SetIds,
    /// The interpreter a script names.
    pub interpreter: Vec<u8>,
    /// The dynamic linker the program asks for.
    pub linker: Vec<u8>,
}

/// [`Execve`] as a mathematical value.
#[verifier::ext_equal]
pub ghost struct Progress {
    pub phase: Phase,
    pub finding: Finding,
    pub path: Seq<u8>,
    pub exec_fn: Seq<u8>,
    pub args: Seq<Seq<u8>>,
    pub env: Seq<Seq<u8>>,
    pub exe: Seq<u8>,
    pub set_ids: SetIds,
    pub interpreter: Seq<u8>,
    pub linker: Seq<u8>,
}

impl Execve {
    /// The state as a mathematical value.
    pub open spec fn view(self) -> Progress {
        Progress {
            phase: self.phase,
            finding: self.finding,
            path: self.path@,
            exec_fn: self.exec_fn@,
            args: texts(self.args@),
            env: texts(self.env@),
            exe: self.exe@,
            set_ids: self.set_ids,
            interpreter: self.interpreter@,
            linker: self.linker@,
        }
    }
}

/// The first phase.
pub open spec fn first_phase(finding: Finding) -> Phase {
    match finding {
        Finding::Path { nofollow: true, .. } => Phase::Resolving,
        _ => Phase::Opening,
    }
}

/// How an `execve` starts: what it was asked for, and where that is looked
/// for.
pub open spec fn spec_execve(
    m: Memory,
    table: FdTable,
    open: Seq<OpenFile>,
    dirfd: int,
    path: u64,
    argv: u64,
    envp: u64,
    flags: u32,
    word: nat,
) -> Result<Progress, Errno> {
    match spec_request(m, path, argv, envp, flags, word) {
        Err(e) => Err(e),
        Ok(asked) => match spec_finding(table, open, dirfd, asked.path, flags) {
            Err(e) => Err(e),
            Ok(finding) => Ok(
                Progress {
                    phase: first_phase(finding),
                    finding,
                    path: asked.path,
                    exec_fn: spec_exec_fn(finding, dirfd, asked.path),
                    args: asked.args,
                    env: asked.env,
                    exe: Seq::empty(),
                    set_ids: SetIds { uid: None, gid: None },
                    interpreter: Seq::empty(),
                    linker: Seq::empty(),
                },
            ),
        },
    }
}

/// The one body of `execve` and `execveat`.
fn execve_at(
    space: &AddressSpace,
    table: &FdTable,
    open: &Vec<OpenFile>,
    dirfd: i32,
    path: u64,
    argv: u64,
    envp: u64,
    flags: u32,
    arch: Arch,
) -> (state: Result<Execve, Errno>)
    requires
        space.wf(),
        named(*table, open@.len()),
    ensures
        match state {
            Ok(state) => spec_execve(
                space@,
                *table,
                open@,
                dirfd as int,
                path,
                argv,
                envp,
                flags,
                arch.spec_word(),
            ) == Ok::<Progress, Errno>(state@),
            Err(e) => spec_execve(
                space@,
                *table,
                open@,
                dirfd as int,
                path,
                argv,
                envp,
                flags,
                arch.spec_word(),
            ) == Err::<Progress, Errno>(e),
        },
{
    let request = read_request(space, path, argv, envp, flags, arch)?;
    let finding = find_program(table, open, dirfd, request.path.as_slice(), flags)?;
    let exec_fn = match finding {
        Finding::Path { start: Start::Default, .. } => copied(request.path.as_slice()),
        _ => descriptor_path(dirfd, request.path.as_slice()),
    };
    let phase = match finding {
        Finding::Path { nofollow, .. } => if nofollow {
            Phase::Resolving
        } else {
            Phase::Opening
        },
        _ => Phase::Opening,
    };
    let state = Execve {
        phase,
        finding,
        path: request.path,
        exec_fn,
        args: request.args,
        env: request.env,
        exe: Vec::new(),
        set_ids: SetIds { uid: None, gid: None },
        interpreter: Vec::new(),
        linker: Vec::new(),
    };
    assert(state@.exe =~= Seq::<u8>::empty());
    assert(state@.interpreter =~= Seq::<u8>::empty());
    assert(state@.linker =~= Seq::<u8>::empty());
    Ok(state)
}

/// `execve`: replace the running program with the one at `path`.
pub fn sys_execve(
    space: &AddressSpace,
    table: &FdTable,
    open: &Vec<OpenFile>,
    path: u64,
    argv: u64,
    envp: u64,
    arch: Arch,
) -> (state: Result<Execve, Errno>)
    requires
        space.wf(),
        named(*table, open@.len()),
    ensures
        match state {
            Ok(state) => spec_execve(
                space@,
                *table,
                open@,
                AT_FDCWD as int,
                path,
                argv,
                envp,
                0,
                arch.spec_word(),
            ) == Ok::<Progress, Errno>(state@),
            Err(e) => spec_execve(
                space@,
                *table,
                open@,
                AT_FDCWD as int,
                path,
                argv,
                envp,
                0,
                arch.spec_word(),
            ) == Err::<Progress, Errno>(e),
        },
{
    execve_at(space, table, open, AT_FDCWD, path, argv, envp, 0, arch)
}

/// `execveat`: [`sys_execve`], with a relative path resolved from the
/// directory `dirfd` names. With [`AT_EMPTY_PATH`] and an empty path it runs
/// the file `dirfd` itself names; with [`AT_SYMLINK_NOFOLLOW`] a path that
/// ends in a symbolic link is `ELOOP`. Any other flag is `EINVAL`.
pub fn sys_execveat(
    space: &AddressSpace,
    table: &FdTable,
    open: &Vec<OpenFile>,
    dirfd: i32,
    path: u64,
    argv: u64,
    envp: u64,
    flags: u32,
    arch: Arch,
) -> (state: Result<Execve, Errno>)
    requires
        space.wf(),
        named(*table, open@.len()),
    ensures
        match state {
            Ok(state) => spec_execve(
                space@,
                *table,
                open@,
                dirfd as int,
                path,
                argv,
                envp,
                flags,
                arch.spec_word(),
            ) == Ok::<Progress, Errno>(state@),
            Err(e) => spec_execve(
                space@,
                *table,
                open@,
                dirfd as int,
                path,
                argv,
                envp,
                flags,
                arch.spec_word(),
            ) == Err::<Progress, Errno>(e),
        },
{
    execve_at(space, table, open, dirfd, path, argv, envp, flags, arch)
}

/// Whether a file is a script, by its first two bytes.
pub open spec fn is_script(head: Seq<u8>) -> bool {
    head.len() >= 2 && head[0] == 0x23 && head[1] == 0x21
}

/// Whether a file is a script.
fn script(head: &[u8]) -> (yes: bool)
    ensures
        yes == is_script(head@),
{
    head.len() >= 2 && head[0] == 0x23 && head[1] == 0x21
}

/// What a script's interpreter is run with: its own name, its argument if it
/// has one, the script's name, and the arguments behind the first.
pub open spec fn script_args(
    interpreter: Seq<u8>,
    argument: Option<Seq<u8>>,
    exec_fn: Seq<u8>,
    args: Seq<Seq<u8>>,
) -> Seq<Seq<u8>> {
    let head = match argument {
        Some(argument) => seq![interpreter, argument, exec_fn],
        None => seq![interpreter, exec_fn],
    };
    if args.len() > 0 {
        head + args.skip(1)
    } else {
        head
    }
}

/// What a script's interpreter is run with.
fn rewrite(
    interpreter: &[u8],
    argument: Option<Vec<u8>>,
    exec_fn: &[u8],
    args: &Vec<Vec<u8>>,
) -> (replaced: Vec<Vec<u8>>)
    ensures
        texts(replaced@) == script_args(
            interpreter@,
            text_of(argument),
            exec_fn@,
            texts(args@),
        ),
{
    let mut replaced: Vec<Vec<u8>> = Vec::new();
    replaced.push(copied(interpreter));
    let ghost told = text_of(argument);
    if let Some(text) = argument {
        replaced.push(text);
    }
    replaced.push(copied(exec_fn));
    let ghost head = match told {
        Some(text) => seq![interpreter@, text, exec_fn@],
        None => seq![interpreter@, exec_fn@],
    };
    assert(texts(replaced@) =~= head);
    let mut i: usize = 1;
    while i < args.len()
        invariant
            1 <= i,
            i <= args@.len() || i == 1,
            args@.len() > 0 ==> texts(replaced@) == head + texts(args@).subrange(1, i as int),
            args@.len() == 0 ==> texts(replaced@) == head,
        decreases args@.len() - i,
    {
        let ghost before = replaced@;
        replaced.push(copied(args[i].as_slice()));
        assert(texts(replaced@) =~= texts(before).push(args@[i as int]@));
        assert(texts(args@).subrange(1, i + 1) =~= texts(args@).subrange(1, i as int).push(
            args@[i as int]@,
        ));
        assert(texts(replaced@) =~= head + texts(args@).subrange(1, i + 1));
        i = i + 1;
    }
    proof {
        if args@.len() > 0 {
            assert(texts(args@).subrange(1, args@.len() as int) =~= texts(args@).skip(1));
        }
    }
    replaced
}

/// Whether `event` is what `phase` waits for.
pub open spec fn expected(phase: Phase, event: Event) -> bool {
    match event {
        Event::Resolved(_) => phase == Phase::Resolving,
        Event::Opened(_) => phase == Phase::Opening || phase == Phase::Interpreting,
        Event::Named(_) => phase == Phase::Naming,
        Event::LinkerOpened(_) => phase == Phase::Linking,
        Event::Checked(_) => phase == Phase::Checking,
        Event::ThreadsEnded(_) => phase == Phase::Threading,
        Event::Emptied(_) => phase == Phase::Emptying,
        Event::Reset => phase == Phase::Resetting,
        Event::Populated(_) => phase == Phase::Populating,
        Event::Closed => phase is Closing,
    }
}

/// The end, with this error for the old program.
pub open spec fn refusal(p: Progress, e: Errno) -> (Progress, Action) {
    (Progress { phase: Phase::Over, ..p }, Action::Refuse(e))
}

/// The state and what to do once `event` has happened.
pub open spec fn spec_next(p: Progress, event: Event, no_new_privs: bool) -> (Progress, Action) {
    match event {
        Event::Resolved(found) => match found {
            Err(e) => refusal(p, e),
            Ok(FileType::Symlink) => refusal(p, Errno::ELOOP),
            Ok(_) => (Progress { phase: Phase::Opening, ..p }, Action::Open),
        },
        Event::Opened(opened) => match opened {
            Err(e) => refusal(p, e),
            Ok((head, exe, set_ids)) => if !is_script(head@) {
                (
                    Progress { phase: Phase::Naming, exe: exe@, set_ids, ..p },
                    Action::NameLinker,
                )
            } else if p.phase == Phase::Interpreting {
                refusal(p, Errno::ENOEXEC)
            } else {
                match spec_interpreter_line(head@) {
                    Err(e) => refusal(p, e),
                    Ok((interpreter, argument)) => (
                        Progress {
                            phase: Phase::Interpreting,
                            args: script_args(interpreter, argument, p.exec_fn, p.args),
                            interpreter,
                            ..p
                        },
                        Action::OpenInterpreter,
                    ),
                }
            },
        },
        Event::Named(found) => match found {
            Err(e) => refusal(p, spec_refused(e)),
            Ok(None) => (Progress { phase: Phase::Checking, ..p }, Action::Check),
            Ok(Some(path)) => (
                Progress { phase: Phase::Linking, linker: path@, ..p },
                Action::OpenLinker,
            ),
        },
        Event::LinkerOpened(opened) => match opened {
            Err(e) => refusal(p, e),
            Ok(_) => (Progress { phase: Phase::Checking, ..p }, Action::Check),
        },
        Event::Checked(checked) => match checked {
            Err(e) => refusal(p, spec_refused(e)),
            Ok(_) => (Progress { phase: Phase::Threading, ..p }, Action::EndThreads),
        },
        Event::ThreadsEnded(ended) => match ended {
            Err(e) => refusal(p, e),
            Ok(_) => (Progress { phase: Phase::Emptying, ..p }, Action::Empty),
        },
        Event::Emptied(emptied) => match emptied {
            Err(_) => (Progress { phase: Phase::Over, ..p }, Action::Lose),
            Ok(_) => (Progress { phase: Phase::Resetting, ..p }, Action::Reset),
        },
        Event::Reset => (
            Progress {
                phase: Phase::Populating,
                set_ids: if no_new_privs {
                    SetIds { uid: None, gid: None }
                } else {
                    p.set_ids
                },
                ..p
            },
            Action::Populate,
        ),
        Event::Populated(populated) => match populated {
            Err(_) => (Progress { phase: Phase::Over, ..p }, Action::Lose),
            Ok(startup) => (Progress { phase: Phase::Closing(startup), ..p }, Action::Close),
        },
        Event::Closed => (
            Progress { phase: Phase::Over, ..p },
            Action::Enter(p.phase->Closing_0),
        ),
    }
}

impl Execve {
    /// What to do first.
    pub fn first(&self) -> (action: Action)
        ensures
            action == if self.phase == Phase::Resolving {
                Action::Resolve
            } else {
                Action::Open
            },
    {
        if self.phase == Phase::Resolving {
            Action::Resolve
        } else {
            Action::Open
        }
    }

    fn refuse(&mut self, e: Errno) -> (action: Action)
        ensures
            (final(self)@, action) == refusal(old(self)@, e),
    {
        self.phase = Phase::Over;
        Action::Refuse(e)
    }

    /// A program's file was opened.
    ///
    /// A script names its interpreter on its first line, which runs with the
    /// script's name in place of its own first argument. One level: an
    /// interpreter that is itself a script is refused. The file actually
    /// loaded is the interpreter's, so it is the one recorded, and its set-id
    /// bits are the ones that count: a set-user-id script gives nothing away.
    fn opened(&mut self, opened: Result<(Vec<u8>, Vec<u8>, SetIds), Errno>) -> (action: Action)
        ensures
            (final(self)@, action) == spec_next(old(self)@, Event::Opened(opened), false),
    {
        let (head, exe, set_ids) = match opened {
            Ok(found) => found,
            Err(e) => return self.refuse(e),
        };
        if !script(head.as_slice()) {
            self.exe = exe;
            self.set_ids = set_ids;
            self.phase = Phase::Naming;
            return Action::NameLinker;
        }
        if self.phase == Phase::Interpreting {
            return self.refuse(Errno::ENOEXEC);
        }
        match interpreter_line(head.as_slice()) {
            Err(e) => self.refuse(e),
            Ok((interpreter, argument)) => {
                self.args = rewrite(
                    interpreter.as_slice(),
                    argument,
                    self.exec_fn.as_slice(),
                    &self.args,
                );
                self.interpreter = interpreter;
                self.phase = Phase::Interpreting;
                Action::OpenInterpreter
            },
        }
    }

    /// Take the next step, now that `event` has happened.
    ///
    /// `no_new_privs` gives up set-id programs for good: the file's bits are
    /// read and then dropped.
    pub fn next(&mut self, event: Event, no_new_privs: bool) -> (action: Action)
        requires
            expected(old(self).phase, event),
        ensures
            (final(self)@, action) == spec_next(old(self)@, event, no_new_privs),
    {
        match event {
            Event::Resolved(found) => match found {
                Err(e) => self.refuse(e),
                Ok(FileType::Symlink) => self.refuse(Errno::ELOOP),
                Ok(_) => {
                    self.phase = Phase::Opening;
                    Action::Open
                },
            },
            Event::Opened(opened) => self.opened(opened),
            Event::Named(found) => match linker_for(found) {
                Err(e) => self.refuse(e),
                Ok(None) => {
                    self.phase = Phase::Checking;
                    Action::Check
                },
                Ok(Some(path)) => {
                    self.linker = path;
                    self.phase = Phase::Linking;
                    Action::OpenLinker
                },
            },
            Event::LinkerOpened(opened) => match opened {
                Err(e) => self.refuse(e),
                Ok(_) => {
                    self.phase = Phase::Checking;
                    Action::Check
                },
            },
            Event::Checked(checked) => match checked {
                Err(e) => self.refuse(refused(e)),
                Ok(_) => {
                    self.phase = Phase::Threading;
                    Action::EndThreads
                },
            },
            Event::ThreadsEnded(ended) => match ended {
                Err(e) => self.refuse(e),
                Ok(_) => {
                    self.phase = Phase::Emptying;
                    Action::Empty
                },
            },
            Event::Emptied(emptied) => match emptied {
                Err(_) => {
                    self.phase = Phase::Over;
                    Action::Lose
                },
                Ok(_) => {
                    self.phase = Phase::Resetting;
                    Action::Reset
                },
            },
            Event::Reset => {
                if no_new_privs {
                    self.set_ids = SetIds { uid: None, gid: None };
                }
                self.phase = Phase::Populating;
                Action::Populate
            },
            Event::Populated(populated) => match populated {
                Err(_) => {
                    self.phase = Phase::Over;
                    Action::Lose
                },
                Ok(startup) => {
                    self.phase = Phase::Closing(startup);
                    Action::Close
                },
            },
            Event::Closed => {
                let phase = self.phase;
                self.phase = Phase::Over;
                match phase {
                    Phase::Closing(startup) => Action::Enter(startup),
                    _ => Action::Lose,
                }
            },
        }
    }
}

/// Whether the old program's memory may be gone.
pub open spec fn past_return(phase: Phase) -> bool {
    phase == Phase::Emptying || phase == Phase::Resetting || phase == Phase::Populating
        || phase is Closing
}

/// Whether a run of events, each what its phase waits for, leads from one
/// state to another.
pub open spec fn run_of(p: Progress, events: Seq<Event>, no_new_privs: bool) -> Progress
    decreases events.len(),
{
    if events.len() == 0 {
        p
    } else {
        spec_next(run_of(p, events.drop_last(), no_new_privs), events.last(), no_new_privs).0
    }
}

/// Whether each of a run of events is what its phase waits for.
pub open spec fn run_expected(p: Progress, events: Seq<Event>, no_new_privs: bool) -> bool
    decreases events.len(),
{
    events.len() == 0 || {
        &&& run_expected(p, events.drop_last(), no_new_privs)
        &&& expected(run_of(p, events.drop_last(), no_new_privs).phase, events.last())
    }
}

/// What an error means depends on where it comes: before the old program's
/// memory is taken away it is an answer to the old program, and from there on
/// it ends the process.
pub proof fn law_an_error_is_an_answer_until_there_is_no_return(
    p: Progress,
    event: Event,
    no_new_privs: bool,
)
    requires
        expected(p.phase, event),
    ensures
        spec_next(p, event, no_new_privs).1 is Refuse ==> !past_return(p.phase),
        spec_next(p, event, no_new_privs).1 is Lose ==> past_return(p.phase),
        past_return(p.phase) ==> (past_return(spec_next(p, event, no_new_privs).0.phase)
            || spec_next(p, event, no_new_privs).0.phase == Phase::Over),
        spec_next(p, event, no_new_privs).1 == Action::Empty ==> p.phase == Phase::Threading,
{
}

/// Once the old program's memory is to be taken away, no run of events gets an
/// `execve` back to where an error could be answered.
pub proof fn law_there_is_no_way_back(p: Progress, events: Seq<Event>, no_new_privs: bool)
    requires
        past_return(p.phase),
        run_expected(p, events, no_new_privs),
    ensures
        past_return(run_of(p, events, no_new_privs).phase) || run_of(
            p,
            events,
            no_new_privs,
        ).phase == Phase::Over,
    decreases events.len(),
{
    if events.len() > 0 {
        law_there_is_no_way_back(p, events.drop_last(), no_new_privs);
    }
}

/// A program whose process gave up new privileges starts without what its
/// file's set-id bits would give.
pub proof fn law_no_new_privs_drops_set_ids(p: Progress)
    requires
        p.phase == Phase::Resetting,
    ensures
        spec_next(p, Event::Reset, true).0.set_ids == (SetIds { uid: None, gid: None }),
        spec_next(p, Event::Reset, true).1 == Action::Populate,
{
}

/// A new program is entered only where it was loaded, once the marked
/// descriptors are closed; it is loaded only once the process is reset; and
/// that is done only once the old program's memory is gone.
pub proof fn law_a_program_enters_a_fresh_process(p: Progress, event: Event, no_new_privs: bool)
    requires
        expected(p.phase, event),
    ensures
        spec_next(p, event, no_new_privs).1 is Enter ==> p.phase == Phase::Closing(
            spec_next(p, event, no_new_privs).1->Enter_0,
        ) && event is Closed,
        spec_next(p, event, no_new_privs).0.phase is Closing ==> p.phase == Phase::Populating
            && event == Event::Populated(Ok(spec_next(p, event, no_new_privs).0.phase->Closing_0)),
        spec_next(p, event, no_new_privs).0.phase == Phase::Populating ==> p.phase
            == Phase::Resetting && event is Reset,
        spec_next(p, event, no_new_privs).0.phase == Phase::Resetting ==> p.phase
            == Phase::Emptying && event is Emptied,
{
}

/// A script's set-id bits are never the ones its program runs with.
pub proof fn law_a_script_gives_no_ids_away(
    p: Progress,
    head: Vec<u8>,
    exe: Vec<u8>,
    set_ids: SetIds,
)
    requires
        p.phase == Phase::Opening,
        is_script(head@),
    ensures
        spec_next(p, Event::Opened(Ok((head, exe, set_ids))), false).0.set_ids == p.set_ids,
{
}

/// The file that is loaded is the one recorded: a program's own, and of a
/// script its interpreter's, never the script's.
pub proof fn law_what_is_loaded_is_recorded(
    p: Progress,
    event: Event,
    head: Vec<u8>,
    exe: Vec<u8>,
    set_ids: SetIds,
    no_new_privs: bool,
)
    requires
        expected(p.phase, event),
    ensures
        ({
            let after = spec_next(p, event, no_new_privs).0;
            &&& event == Event::Opened(Ok((head, exe, set_ids))) && !is_script(head@) ==> after.exe
                == exe@
            &&& event == Event::Opened(Ok((head, exe, set_ids))) && is_script(head@) ==> after.exe
                == p.exe && after.phase != Phase::Naming
            &&& !(event is Opened) ==> after.exe == p.exe
        }),
{
}

// ---------------------------------------------------------------------------
// What replacing a program is for
// ---------------------------------------------------------------------------

/// A script runs: its interpreter comes first, then the argument on its line if
/// there is one, then the name it was asked for by, and then, unchanged, every
/// argument behind the first.
pub proof fn law_a_script_runs_under_its_own_name(
    p: Progress,
    head: Vec<u8>,
    exe: Vec<u8>,
    set_ids: SetIds,
    no_new_privs: bool,
)
    requires
        p.phase == Phase::Opening,
        head@.len() >= 2,
        head@[0] == 0x23 && head@[1] == 0x21,
        spec_interpreter_line(head@) is Ok,
    ensures
        ({
            let (q, action) = spec_next(p, Event::Opened(Ok((head, exe, set_ids))), no_new_privs);
            let (interpreter, argument) = spec_interpreter_line(head@)->Ok_0;
            let kept: int = if p.args.len() > 0 {
                p.args.len() - 1
            } else {
                0
            };
            let first: int = if argument is Some {
                3
            } else {
                2
            };
            &&& action == Action::OpenInterpreter
            &&& q.interpreter == interpreter
            &&& q.args.len() == first + kept
            &&& q.args[0] == interpreter
            &&& argument matches Some(text) ==> q.args[1] == text
            &&& q.args[first - 1] == p.exec_fn
            &&& forall|i: int| 0 <= i < kept ==> #[trigger] q.args[first + i] == p.args[i + 1]
            &&& q.exec_fn == p.exec_fn && q.env == p.env && q.path == p.path
        }),
{
}

proof fn lemma_line(s: Seq<u8>, most: nat)
    ensures
        line_len(s, most) <= s.len(),
        line_len(s, most) <= most,
        forall|i: int| 0 <= i < line_len(s, most) ==> #[trigger] s[i] != 0x0A,
        line_len(s, most) == most || line_len(s, most) == s.len() || s[line_len(s, most) as int]
            == 0x0A,
    decreases most,
{
    if most > 0 && s.len() > 0 && s[0] != 0x0A {
        let tail = s.drop_first();
        lemma_line(tail, (most - 1) as nat);
        assert forall|i: int| 0 <= i < line_len(s, most) implies #[trigger] s[i] != 0x0A by {
            if i > 0 {
                assert(s[i] == tail[i - 1]);
            }
        }
        let n = line_len(tail, (most - 1) as nat) as int;
        assert(n < tail.len() ==> s[n + 1] == tail[n]);
    }
}

/// Whether a byte is a space, a tab, a newline, a form feed or a carriage
/// return.
pub open spec fn blank(b: u8) -> bool {
    b == 32 || b == 9 || b == 10 || b == 12 || b == 13
}

/// Whether a `#!` line of `image` ends at `end`: with the first newline behind
/// the two characters, the image, or the most that is looked at.
pub open spec fn line_ends(image: Seq<u8>, end: int) -> bool {
    &&& 2 <= end <= image.len()
    &&& end <= 258
    &&& forall|i: int| 2 <= i < end ==> #[trigger] image[i] != 10
    &&& end == 258 || end == image.len() || image[end] == 10
}

/// Whether `word` is in `image` at `at`.
pub open spec fn word_at(image: Seq<u8>, at: int, word: Seq<u8>) -> bool {
    &&& 0 <= at
    &&& at + word.len() <= image.len()
    &&& forall|i: int| 0 <= i < word.len() ==> #[trigger] image[at + i] == word[i]
}

/// Whether everything from `from` up to `to` is blank.
pub open spec fn blank_between(image: Seq<u8>, from: int, to: int) -> bool {
    forall|i: int| from <= i < to ==> blank(#[trigger] image[i])
}

/// Whether `named` is what the line of `image` that ends at `end` says, with
/// its first word at `at` and its second at `next`: the interpreter is the
/// first, the argument everything from the second to the last, and besides
/// them the line is blank. A line that is blank throughout names nobody.
pub open spec fn line_says(
    image: Seq<u8>,
    end: int,
    at: int,
    next: int,
    named: Result<(Seq<u8>, Option<Seq<u8>>), Errno>,
) -> bool {
    &&& line_ends(image, end)
    &&& 2 <= at <= end
    &&& blank_between(image, 2, at)
    &&& match named {
        Err(e) => e == Errno::ENOEXEC && at == end,
        Ok((interpreter, None)) => {
            &&& word_at(image, at, interpreter)
            &&& at + interpreter.len() <= end
            &&& blank_between(image, (at + interpreter.len()) as int, end)
        },
        Ok((interpreter, Some(argument))) => {
            &&& word_at(image, at, interpreter)
            &&& at + interpreter.len() < next
            &&& blank_between(image, (at + interpreter.len()) as int, next)
            &&& word_at(image, next, argument)
            &&& next + argument.len() <= end
            &&& blank_between(image, (next + argument.len()) as int, end)
        },
    }
}

/// What a `#!` line names is what is on it.
pub proof fn law_a_line_names_what_is_on_it(image: Seq<u8>)
    requires
        image.len() >= 2,
    ensures
        exists|end: int, at: int, next: int|
            line_says(image, end, at, next, spec_interpreter_line(image)),
{
    let rest = image.skip(2);
    let len = line_len(rest, INTERPRETER_LINE as nat) as int;
    lemma_line(rest, INTERPRETER_LINE as nat);
    let full = rest.take(len);
    let line = trimmed(full);
    let from = leading(full, true) as int;
    let end = 2 + len;
    assert forall|i: int| 2 <= i < end implies #[trigger] image[i] != 10 by {
        assert(image[i] == rest[i - 2]);
    }
    assert(end < image.len() ==> image[end] == rest[len]);
    assert(line_ends(image, end));
    lemma_leading(full, true);
    lemma_trailing(full);
    let at = 2 + from;
    assert forall|i: int| 2 <= i < at implies blank(#[trigger] image[i]) by {
        assert(image[i] == full[i - 2]);
    }
    assert(blank_between(image, 2, at));
    lemma_leading(line, false);
    let split = leading(line, false) as int;
    let tail = line.skip(split);
    lemma_leading(tail, true);
    lemma_trailing(tail);
    let gap = leading(tail, true) as int;
    let next = at + split + gap;
    if from >= full.len() {
        assert(line.len() == 0);
        assert(split == 0);
        assert(line_says(image, end, at, next, spec_interpreter_line(image)));
    } else {
        let close = full.len() - trailing(full);
        assert(from < close) by {
            if close <= from {
                assert(spec_space(full[from]));
            }
        }
        assert(line == full.subrange(from, close));
        assert forall|i: int| 0 <= i < line.len() implies #[trigger] line[i] == image[at + i] by {
            assert(line[i] == full[from + i]);
        }
        assert(line[0] == full[from]);
        assert(split > 0);
        let interpreter = line.take(split);
        assert forall|i: int| 0 <= i < interpreter.len() implies #[trigger] image[at + i]
            == interpreter[i] by {
            assert(line[i] == image[at + i]);
        }
        assert(word_at(image, at, interpreter));
        assert forall|i: int| at + line.len() <= i < end implies blank(#[trigger] image[i]) by {
            assert(image[i] == full[i - 2]);
        }
        assert forall|i: int| at + split <= i < next implies blank(#[trigger] image[i]) by {
            let t = i - at - split;
            assert(spec_space(tail[t]));
            assert(tail[t] == line[i - at]);
            assert(line[i - at] == image[at + (i - at)]);
        }
        let argument = trimmed(tail);
        if argument.len() == 0 {
            assert(tail.len() <= gap) by {
                if gap < tail.len() {
                    let stop = tail.len() - trailing(tail);
                    assert(stop > gap) by {
                        if stop <= gap {
                            assert(spec_space(tail[gap]));
                        }
                    }
                }
            }
            assert(blank_between(image, at + split, end)) by {
                assert forall|i: int| at + split <= i < end implies blank(#[trigger] image[i]) by {
                    if i < at + line.len() {
                        assert(i < next);
                    }
                }
            }
            assert(interpreter.len() == split);
        } else {
            let stop = tail.len() - trailing(tail);
            assert(argument == tail.subrange(gap, stop));
            assert forall|i: int| 0 <= i < argument.len() implies #[trigger] image[next + i]
                == argument[i] by {
                assert(argument[i] == tail[gap + i]);
                assert(tail[gap + i] == line[split + gap + i]);
                assert(line[split + gap + i] == image[at + (split + gap + i)]);
            }
            assert(word_at(image, next, argument));
            assert forall|i: int| next + argument.len() <= i < end implies blank(
                #[trigger] image[i],
            ) by {
                if i < at + line.len() {
                    let t = i - at - split;
                    assert(spec_space(tail[t]));
                    assert(tail[t] == line[i - at]);
                    assert(line[i - at] == image[at + (i - at)]);
                }
            }
            assert(gap > 0) by {
                if gap == 0 {
                    assert(tail[0] == line[split]);
                }
            }
            assert(blank_between(image, (at + interpreter.len()) as int, next));
            assert(blank_between(image, (next + argument.len()) as int, end));
        }
        assert(line_says(image, end, at, next, spec_interpreter_line(image)));
    }
}

/// What a list of strings costs: each its bytes, a terminator and a pointer.
pub open spec fn cost(list: Seq<Seq<u8>>, word: nat) -> int
    decreases list.len(),
{
    if list.len() == 0 {
        0
    } else {
        cost(list.skip(1), word) + list[0].len() + 1 + word
    }
}

/// The strings read are the array's: one for each pointer up to the first that
/// is null, in order, each what its pointer leads to; and what they cost is
/// what is taken off the budget.
pub proof fn law_the_strings_are_the_arrays(m: Memory, slot: int, budget: int, word: nat, i: int)
    requires
        spec_strings(m, slot, budget, word) is Ok,
    ensures
        ({
            let (list, left) = spec_strings(m, slot, budget, word)->Ok_0;
            &&& left == budget - cost(list, word)
            &&& list.len() > 0 ==> left >= 0
            &&& m.can_read(slot + list.len() * word, word as int)
            &&& m.number(slot + list.len() * word, word) == 0
            &&& 0 <= i < list.len() ==> {
                &&& m.can_read(slot + i * word, word as int)
                &&& m.number(slot + i * word, word) != 0
                &&& m.cstr(m.number(slot + i * word, word) as int, 131_072) == CStr::Complete(
                    list[i],
                )
            }
        }),
    decreases budget,
{
    let (list, left) = spec_strings(m, slot, budget, word)->Ok_0;
    if m.number(slot, word) != 0 {
        if let CStr::Complete(text) = m.cstr(m.number(slot, word) as int, MAX_ARG_STRLEN as nat) {
            let spare = budget - (text.len() + 1 + word);
            law_the_strings_are_the_arrays(m, slot + word, spare, word, i - 1);
            let rest = spec_strings(m, slot + word, spare, word)->Ok_0.0;
            assert(list.skip(1) =~= rest);
            assert(word + rest.len() * word == list.len() * word) by (nonlinear_arith)
                requires
                    list.len() == rest.len() + 1,
            ;
            assert(word + (i - 1) * word == i * word) by (nonlinear_arith);
            if i > 0 {
                assert(0 <= i < list.len() ==> list[i] == rest[i - 1]);
            }
        }
    } else {
        assert(0 * word == 0) by (nonlinear_arith);
    }
}

/// What `execve` runs is what it was asked for: the path, the arguments and the
/// environment that are in the caller's memory, under the caller's name for it.
pub proof fn law_what_is_asked_for_is_what_runs(
    m: Memory,
    table: FdTable,
    open: Seq<OpenFile>,
    dirfd: int,
    path: u64,
    argv: u64,
    envp: u64,
    flags: u32,
    word: nat,
)
    ensures
        spec_execve(m, table, open, dirfd, path, argv, envp, flags, word) matches Ok(p) ==> {
            &&& flags & !0x1100 == 0
            &&& m.cstr(path as int, 4096) == CStr::Complete(p.path)
            &&& p.path.len() == 0 ==> flags & 0x1000 != 0
            &&& argv == 0 ==> p.args.len() == 0
            &&& envp == 0 ==> p.env.len() == 0
            &&& argv != 0 ==> {
                &&& spec_strings(m, argv as int, 262_144, word) is Ok
                &&& spec_strings(m, argv as int, 262_144, word)->Ok_0.0 == p.args
            }
            &&& envp != 0 ==> {
                let left = 262_144 - cost(p.args, word);
                &&& spec_strings(m, envp as int, left, word) is Ok
                &&& spec_strings(m, envp as int, left, word)->Ok_0.0 == p.env
            }
            &&& p.phase == Phase::Resolving <==> (p.path.len() > 0 && flags & 0x100 != 0)
            &&& p.phase != Phase::Resolving ==> p.phase == Phase::Opening
            &&& p.path.len() > 0 && (p.path[0] == 0x2F || dirfd == -100) ==> p.exec_fn == p.path
            &&& p.path.len() == 0 ==> p.finding is Descriptor && table@.dom().contains(dirfd)
                && p.finding->file == table@[dirfd].file
            &&& p.path.len() > 0 && p.path[0] != 0x2F && dirfd != -100 ==> p.finding
                == (Finding::Path {
                start: Start::Directory(table@[dirfd].file),
                nofollow: flags & 0x100 != 0,
            })
            &&& p.set_ids == (SetIds { uid: None, gid: None })
        },
        flags & !0x1100 != 0 ==> spec_execve(m, table, open, dirfd, path, argv, envp, flags, word)
            == Err::<Progress, Errno>(Errno::EINVAL),
{
    assert(0x1000u32 | 0x100u32 == 0x1100) by (bit_vector);
    if let Ok(p) = spec_execve(m, table, open, dirfd, path, argv, envp, flags, word) {
        let (list, left) = spec_read_strings(m, argv, 262_144, word)->Ok_0;
        if argv != 0 {
            law_the_strings_are_the_arrays(m, argv as int, 262_144, word, 0);
        }
        if envp != 0 {
            assert(spec_strings(m, envp as int, left, word) is Ok);
        }
    }
}

/// What a number's digits are worth.
pub open spec fn worth(digits: Seq<u8>) -> int
    decreases digits.len(),
{
    if digits.len() == 0 {
        0
    } else {
        10 * worth(digits.drop_last()) + (digits.last() - 0x30)
    }
}

/// A number in decimal is digits, worth the number, with no zero in front.
pub proof fn law_a_number_is_worth_its_digits(n: nat)
    ensures
        worth(decimal(n)) == n,
        decimal(n).len() > 0,
        forall|i: int| 0 <= i < decimal(n).len() ==> 0x30 <= #[trigger] decimal(n)[i] <= 0x39,
        decimal(n)[0] == 0x30 ==> n == 0,
    decreases n,
{
    if n < 10 {
        assert(decimal(n).drop_last() =~= Seq::<u8>::empty());
        assert(worth(decimal(n).drop_last()) == 0);
        assert(decimal(n).last() == 0x30 + n);
    } else {
        law_a_number_is_worth_its_digits(n / 10);
        let last = (0x30 + n % 10) as u8;
        assert(decimal(n) == decimal(n / 10).push(last));
        assert(decimal(n).drop_last() =~= decimal(n / 10));
        assert forall|i: int| 0 <= i < decimal(n).len() implies 0x30 <= #[trigger] decimal(n)[i]
            <= 0x39 by {
            if i < decimal(n / 10).len() {
                assert(decimal(n)[i] == decimal(n / 10)[i]);
            }
        }
        assert(decimal(n)[0] == decimal(n / 10)[0]);
    }
}

/// A name through a descriptor leads through `/dev/fd/` and the descriptor's
/// number, and on along the path.
pub proof fn law_a_descriptors_name_leads_through_it(dirfd: int, path: Seq<u8>)
    requires
        dirfd >= 0,
    ensures
        ({
            let name = spec_descriptor_path(dirfd, path);
            let digits = decimal(dirfd as nat);
            &&& name.take(8) == seq![0x2Fu8, 0x64, 0x65, 0x76, 0x2F, 0x66, 0x64, 0x2F]
            &&& name.subrange(8, 8 + digits.len() as int) == digits
            &&& path.len() == 0 ==> name.len() == 8 + digits.len() as int
            &&& path.len() > 0 ==> name[8 + digits.len() as int] == 0x2F && name.skip(
                9 + digits.len() as int,
            ) == path
        }),
{
    let name = spec_descriptor_path(dirfd, path);
    let digits = decimal(dirfd as nat);
    assert(name.take(8) =~= seq![0x2Fu8, 0x64, 0x65, 0x76, 0x2F, 0x66, 0x64, 0x2F]);
    assert(name.subrange(8, 8 + digits.len() as int) =~= digits);
    if path.len() > 0 {
        assert(name.skip(9 + digits.len() as int) =~= path);
    }
}

/// Loading succeeds exactly if the image was loaded and every part of its
/// stack set aside; else the first failure is the answer.
pub proof fn law_the_first_failure_is_the_answer(
    loaded: Result<Loaded, LoadError>,
    outcomes: Seq<Result<(), SpaceError>>,
    user_end: u64,
    i: int,
)
    requires
        user_end >= 4096 + 16,
    ensures
        loaded matches Err(e) ==> spec_load_into(loaded, outcomes, user_end) == Err::<
            Image,
            ExecError,
        >(ExecError::Load(e)),
        loaded is Ok && 0 <= i < outcomes.len() && outcomes[i] is Err && (forall|j: int|
            0 <= j < i ==> #[trigger] outcomes[j] is Ok) ==> spec_load_into(
            loaded,
            outcomes,
            user_end,
        ) == Err::<Image, ExecError>(ExecError::Space(outcomes[i]->Err_0)),
        loaded is Ok && (forall|j: int|
            0 <= j < outcomes.len() ==> #[trigger] outcomes[j] is Ok) ==> {
            let image = spec_load_into(loaded, outcomes, user_end)->Ok_0;
            &&& spec_load_into(loaded, outcomes, user_end) is Ok
            &&& image.loaded == loaded->Ok_0
            &&& image.stack_top % 16 == 0
            &&& image.stack_top <= user_end - 4096 < image.stack_top + 16
        },
{
    if forall|j: int| 0 <= j < outcomes.len() ==> #[trigger] outcomes[j] is Ok {
        lemma_no_error(outcomes, outcomes.len() as int);
    }
    if 0 <= i < outcomes.len() && outcomes[i] is Err && (forall|j: int|
        0 <= j < i ==> #[trigger] outcomes[j] is Ok) {
        lemma_no_error(outcomes, i);
        lemma_first_error(outcomes, i + 1, outcomes.len() as int, outcomes[i]->Err_0);
    }
}

proof fn lemma_no_error(outcomes: Seq<Result<(), SpaceError>>, n: int)
    requires
        n <= outcomes.len(),
        forall|j: int| 0 <= j < n ==> #[trigger] outcomes[j] is Ok,
    ensures
        first_error(outcomes, n) is None,
    decreases n,
{
    if n > 0 {
        lemma_no_error(outcomes, n - 1);
    }
}

/// The parts set aside for a stack are the stack itself, eight mebibytes that
/// can be touched, and two that cannot: everything above it, and a mebibyte
/// beneath it where there is room for one.
pub proof fn law_the_stack_is_as_large_as_it_should_be(user_end: u64)
    requires
        user_end >= 4096 + 16 + 0x80_0000,
    ensures
        ({
            let region = spec_stack_region(user_end);
            &&& region[0].usable && region[0].len == 0x80_0000
            &&& !region[1].usable && region[1].start == region[0].start + 0x80_0000
            &&& region[1].start + region[1].len == user_end
            &&& 4096 <= region[1].len < 4096 + 16
            &&& region.len() == 3 <==> region[0].start >= 0x10_0000
            &&& region.len() == 3 ==> !region[2].usable && region[2].len == 0x10_0000
                && region[2].start + 0x10_0000 == region[0].start
            &&& region.len() == 2 || region.len() == 3
        }),
{
}

/// Whether `list` says that `key` is `value`, and says nothing else of `key`.
pub open spec fn says(list: Seq<(u64, u64)>, key: u64, value: u64) -> bool {
    &&& list.contains((key, value))
    &&& forall|i: int| 0 <= i < list.len() && (#[trigger] list[i]).0 == key ==> list[i].1 == value
}

/// A program is told, under the numbers it looks for them by, where its
/// headers, its entry and its linker are, who it runs as, and whether it was
/// given more than its caller had.
pub proof fn law_a_program_is_told_what_it_needs(
    loaded: Loaded,
    hwcap: u64,
    hwcap2: u64,
    user: Ids,
    group: Ids,
    secure: bool,
)
    ensures
        ({
            let list = spec_auxv(loaded, hwcap, hwcap2, user, group, secure);
            &&& says(list, 3, loaded.phdr)
            &&& says(list, 4, loaded.phent)
            &&& says(list, 5, loaded.phnum)
            &&& says(list, 6, 4096)
            &&& says(list, 7, loaded.base)
            &&& says(list, 9, loaded.entry)
            &&& says(list, 11, user.real as u64)
            &&& says(list, 12, user.effective as u64)
            &&& says(list, 13, group.real as u64)
            &&& says(list, 14, group.effective as u64)
            &&& says(list, 16, hwcap)
            &&& says(list, 17, 100)
            &&& says(list, 23, if secure { 1u64 } else { 0 })
            &&& says(list, 26, hwcap2)
        }),
{
    let list = spec_auxv(loaded, hwcap, hwcap2, user, group, secure);
    assert(list[0] == (16u64, hwcap));
    assert(list[1] == (26u64, hwcap2));
    assert(list[2] == (6u64, 4096u64));
    assert(list[3] == (3u64, loaded.phdr));
    assert(list[4] == (4u64, loaded.phent));
    assert(list[5] == (5u64, loaded.phnum));
    assert(list[6] == (9u64, loaded.entry));
    assert(list[7] == (7u64, loaded.base));
    assert(list[8] == (11u64, user.real as u64));
    assert(list[9] == (12u64, user.effective as u64));
    assert(list[10] == (13u64, group.real as u64));
    assert(list[11] == (14u64, group.effective as u64));
    assert(list[12].0 == 23u64);
    assert(list[13] == (17u64, 100u64));
}

/// What `execve` does next is what its phase waits for, so that nothing is
/// waited for that was not asked.
pub proof fn law_what_is_asked_is_what_is_waited_for(p: Progress, event: Event, no_new_privs: bool)
    requires
        expected(p.phase, event),
    ensures
        ({
            let (q, action) = spec_next(p, event, no_new_privs);
            &&& q.phase == Phase::Opening <==> action == Action::Open
            &&& q.phase == Phase::Interpreting <==> action == Action::OpenInterpreter
            &&& q.phase == Phase::Naming <==> action == Action::NameLinker
            &&& q.phase == Phase::Linking <==> action == Action::OpenLinker
            &&& q.phase == Phase::Checking <==> action == Action::Check
            &&& q.phase == Phase::Threading <==> action == Action::EndThreads
            &&& q.phase == Phase::Emptying <==> action == Action::Empty
            &&& q.phase == Phase::Resetting <==> action == Action::Reset
            &&& q.phase == Phase::Populating <==> action == Action::Populate
            &&& q.phase is Closing <==> action == Action::Close
            &&& q.phase == Phase::Over <==> (action is Enter || action is Refuse || action is Lose)
        }),
{
}

/// No step of an `execve` is left out: each is taken only behind the one it
/// needs, once that went well. What was asked for stays as it was, but for a
/// script's arguments.
pub proof fn law_no_step_is_left_out(p: Progress, event: Event, no_new_privs: bool)
    requires
        expected(p.phase, event),
    ensures
        ({
            let (q, action) = spec_next(p, event, no_new_privs);
            &&& q.phase == Phase::Opening ==> p.phase == Phase::Resolving
            &&& q.phase == Phase::Interpreting ==> p.phase == Phase::Opening
            &&& q.phase == Phase::Naming ==> p.phase == Phase::Opening || p.phase
                == Phase::Interpreting
            &&& q.phase == Phase::Linking ==> p.phase == Phase::Naming && event is Named
                && event->Named_0 is Ok && event->Named_0->Ok_0 is Some && q.linker
                == event->Named_0->Ok_0->0@
            &&& q.phase == Phase::Checking ==> p.phase == Phase::Linking || (p.phase
                == Phase::Naming && event == Event::Named(Ok(None)))
            &&& q.phase == Phase::Threading ==> p.phase == Phase::Checking && event
                is Checked && event->Checked_0 is Ok
            &&& q.phase == Phase::Emptying ==> p.phase == Phase::Threading && event
                is ThreadsEnded && event->ThreadsEnded_0 is Ok
            &&& q.phase == Phase::Resetting ==> event is Emptied && event->Emptied_0 is Ok
            &&& q.finding == p.finding && q.path == p.path && q.exec_fn == p.exec_fn && q.env
                == p.env
            &&& q.phase != Phase::Interpreting ==> q.args == p.args
        }),
{
}

/// A step that fails ends the `execve`: before the point of no return with the
/// error it met, or `ENOEXEC` for what is wrong with the image; and from there
/// on with the process. A step that goes well refuses nothing, but for a
/// symbolic link, and a script that cannot be run.
pub proof fn law_a_failed_step_is_told_as_it_is(p: Progress, event: Event, no_new_privs: bool)
    requires
        expected(p.phase, event),
    ensures
        ({
            let action = spec_next(p, event, no_new_privs).1;
            &&& event matches Event::Resolved(Err(e)) ==> action == Action::Refuse(e)
            &&& event == Event::Resolved(Ok(FileType::Symlink)) ==> action == Action::Refuse(
                Errno::ELOOP,
            )
            &&& event matches Event::Resolved(Ok(kind)) ==> kind != FileType::Symlink ==> action
                == Action::Open
            &&& event matches Event::Opened(Err(e)) ==> action == Action::Refuse(e)
            &&& event matches Event::Named(Err(e)) ==> action == Action::Refuse(
                if e is Read {
                    e->Read_0
                } else {
                    Errno::ENOEXEC
                },
            )
            &&& event matches Event::Named(Ok(_)) ==> !(action is Refuse)
            &&& event matches Event::LinkerOpened(Err(e)) ==> action == Action::Refuse(e)
            &&& event matches Event::LinkerOpened(Ok(_)) ==> action == Action::Check
            &&& event matches Event::Checked(Err(e)) ==> action == Action::Refuse(
                if e is Read {
                    e->Read_0
                } else {
                    Errno::ENOEXEC
                },
            )
            &&& event matches Event::Checked(Ok(_)) ==> action == Action::EndThreads
            &&& event matches Event::ThreadsEnded(Err(e)) ==> action == Action::Refuse(e)
            &&& event matches Event::ThreadsEnded(Ok(_)) ==> action == Action::Empty
            &&& event matches Event::Emptied(Err(_)) ==> action == Action::Lose
            &&& event matches Event::Emptied(Ok(_)) ==> action == Action::Reset
            &&& event matches Event::Populated(Err(_)) ==> action == Action::Lose
            &&& event matches Event::Populated(Ok(_)) ==> action == Action::Close
            &&& event matches Event::Opened(Ok((head, _, _))) ==> p.phase == Phase::Interpreting
                && head@.len() >= 2 && head@[0] == 0x23 && head@[1] == 0x21 ==> action
                == Action::Refuse(Errno::ENOEXEC)
            &&& event matches Event::Opened(Ok((head, _, _))) ==> !(head@.len() >= 2 && head@[0]
                == 0x23 && head@[1] == 0x21) ==> action == Action::NameLinker
        }),
{
}

/// A program keeps what its file's set-id bits give, unless its process gave up
/// new privileges.
pub proof fn law_set_ids_are_the_loaded_files(
    p: Progress,
    head: Vec<u8>,
    exe: Vec<u8>,
    set_ids: SetIds,
    event: Event,
    no_new_privs: bool,
)
    requires
        expected(p.phase, event),
    ensures
        ({
            let q = spec_next(p, event, no_new_privs).0;
            &&& event == Event::Opened(Ok((head, exe, set_ids))) && q.phase == Phase::Naming
                ==> q.set_ids == set_ids
            &&& !(event is Opened) && !(event is Reset && no_new_privs) ==> q.set_ids == p.set_ids
        }),
{
}

/// A program starts at its first instruction, on the stack that was built, if
/// that could be written.
pub proof fn law_a_program_starts_on_its_stack(
    image: Image,
    built: Option<u64>,
    written: bool,
    startup: Result<Startup, ExecError>,
)
    requires
        call_ensures(populated, (&image, built, written), startup),
    ensures
        startup is Ok <==> built is Some && written,
        startup matches Ok(s) ==> s.entry == image.loaded.start && Some(s.stack) == built
            && s.argument == 0,
        startup matches Err(e) ==> e == ExecError::Startup,
{
}

/// A program that ran is answered by its status, and one that did not by why.
pub proof fn law_a_program_that_ran_is_told_by_its_status(
    loaded: Result<(), ExecError>,
    started: bool,
    ended: Option<i32>,
    status: Result<i32, ExecError>,
)
    requires
        call_ensures(run_as, (loaded, started, ended), status),
    ensures
        status is Ok <==> loaded is Ok && started && ended is Some,
        status matches Ok(code) ==> ended == Some(code),
        loaded matches Err(e) ==> status == Err::<i32, ExecError>(e),
        loaded is Ok && !started ==> status == Err::<i32, ExecError>(ExecError::Start),
{
}

/// Everything a program could have mapped is emptied, and nothing it could not.
pub proof fn law_the_whole_user_half_is_emptied(user_end: u64, range: (u64, u64), status: i32)
    requires
        user_end >= 0x1_0000,
        call_ensures(empty_user_half, (user_end,), range),
        call_ensures(lost_status, (), status),
    ensures
        range.0 == 0x1_0000,
        range.0 + range.1 == user_end,
        status == 139,
{
}

/// A program from no file is named by its first argument, and has nobody's ids.
pub proof fn law_an_unfiled_program_is_named_by_its_argument(
    image: Source,
    interpreter: Option<Source>,
    args: Vec<Vec<u8>>,
    program: Executable,
)
    requires
        call_ensures(unfiled, (image, interpreter, &args), program),
    ensures
        program.image == image && program.interpreter == interpreter,
        program.set_ids == (SetIds { uid: None, gid: None }),
        args@.len() > 0 ==> program.exe@ == args@[0]@ && program.exec_fn@ == args@[0]@,
        args@.len() == 0 ==> program.exe@.len() == 0 && program.exec_fn@.len() == 0,
{
}

/// What the loader refuses is told as `ENOEXEC`, but for an error reading the
/// file, which is told as it is; so is a linker that cannot be named.
pub proof fn law_a_bad_image_is_no_program(error: LoadError, errno: Errno)
    requires
        call_ensures(refused, (error,), errno),
    ensures
        error matches LoadError::Read(e) ==> errno == e,
        !(error is Read) ==> errno == Errno::ENOEXEC,
{
}

/// An array of strings is refused for the first thing wrong with it: a pointer
/// or a string that cannot be read, and strings that cost more than there is.
pub proof fn law_strings_that_cannot_be_had_are_refused(
    m: Memory,
    slot: int,
    budget: int,
    word: nat,
)
    ensures
        ({
            let read = spec_strings(m, slot, budget, word);
            let at = m.number(slot, word) as int;
            &&& !m.can_read(slot, word as int) ==> read == Err::<(Seq<Seq<u8>>, int), Errno>(
                Errno::EFAULT,
            )
            &&& m.can_read(slot, word as int) && at == 0 ==> read == Ok::<
                (Seq<Seq<u8>>, int),
                Errno,
            >((Seq::empty(), budget))
            &&& m.can_read(slot, word as int) && at != 0 && !(m.cstr(at, 131_072) is Complete)
                ==> read == Err::<(Seq<Seq<u8>>, int), Errno>(Errno::EFAULT)
            &&& m.can_read(slot, word as int) && at != 0 && m.cstr(at, 131_072) is Complete
                && m.cstr(at, 131_072)->Complete_0.len() + 1 + word > budget ==> read == Err::<
                (Seq<Seq<u8>>, int),
                Errno,
            >(Errno::E2BIG)
            &&& m.can_read(slot, word as int) && at != 0 && m.cstr(at, 131_072) is Complete
                && m.cstr(at, 131_072)->Complete_0.len() + 1 + word <= budget ==> (read is Ok
                <==> spec_strings(
                m,
                slot + word,
                budget - (m.cstr(at, 131_072)->Complete_0.len() + 1 + word),
                word,
            ) is Ok)
            &&& read matches Err(e) ==> e == Errno::EFAULT || e == Errno::E2BIG
        }),
    decreases budget,
{
    if let CStr::Complete(text) = m.cstr(m.number(slot, word) as int, 131_072) {
        if text.len() + 1 + word <= budget {
            law_strings_that_cannot_be_had_are_refused(
                m,
                slot + word,
                budget - (text.len() + 1 + word),
                word,
            );
        }
    }
}

} // verus!
