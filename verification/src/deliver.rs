//! Signals reaching a program: the way back to user mode, handler frames, the
//! return from a handler, faults, and the calls that wait for a signal.
//!
//! A call that waits also stops waiting when a signal is deliverable. What it
//! returns then is one of the kernel's own restart requests, which never
//! reaches the program: on the way back to user mode each becomes a restart of
//! the interrupted call, or `EINTR`.
//!
//! * `ERESTARTSYS`: the call restarts if a handler with `SA_RESTART` runs, or
//!   if no handler runs at all; otherwise `EINTR`.
//! * `ERESTARTNOHAND`: `EINTR` if a handler runs, restart if none does.
//! * `ERESTARTNOINTR`: always restarts.
//! * `ERESTARTBLOCK`: `EINTR` if a handler runs; otherwise the call is entered
//!   again as one that waits out only the time left.

use vstd::prelude::*;

use crate::abi::{bits_32, signed_32, spec_signed_32, Arch, TimeWidth};
use crate::bytes::{
    byte_span, lay_over, le_bytes, le_decode, le_encode, le_value, lemma_byte_spans, lemma_le_bytes_len,
    lemma_le_round_trip, lemma_le_value_bound, overlaid,
};
use crate::errno::Errno;
use crate::time::{read_timespec, spec_timespec};
use crate::uaccess::{AddressSpace, Memory};

verus! {

/// How many signals one way back to user mode acts on: one more than there are
/// signals, so that every pending one can be taken, and a bound, so that a
/// stop and continue sent in a tight loop cannot keep a task in the kernel.
pub const DELIVERY_ROUNDS: usize = 65;

/// The default action.
pub const SIG_DFL: u64 = 0;

/// No action.
pub const SIG_IGN: u64 = 1;

/// A call the handler interrupted starts again.
pub const SA_RESTART: u64 = 0x1000_0000;

/// The signal of a bad memory access.
pub const SIGSEGV: u32 = 11;

/// Bytes in a signal set.
pub const SIGSET_SIZE: u64 = 8;

/// The two signals nothing can block: the ninth and the nineteenth bit.
pub const UNBLOCKABLE: u64 = 0x4_0100;

// ---------------------------------------------------------------------------
// Frames
// ---------------------------------------------------------------------------

/// A frame that could not be written, or was not accepted back.
#[derive(Clone, Copy, Debug, PartialEq, Eq, Structural)]
pub struct BadFrame;

/// A `stack_t` as a frame records it.
#[derive(Clone, Copy, Debug, PartialEq, Eq, Structural)]
pub struct StackRecord {
    /// Where the stack is.
    pub sp: u64,
    /// Its flags.
    pub flags: i32,
    /// How long it is.
    pub size: u64,
}

/// A frame's bytes while they are built or read. Offsets are checked, so that
/// a mistake in a layout is a refused frame.
#[derive(Debug)]
pub struct FrameBytes {
    /// The bytes.
    pub bytes: Vec<u8>,
}

/// What putting `data` at `at` comes to: a bad frame unless it fits.
pub open spec fn spec_put(bytes: Seq<u8>, at: int, data: Seq<u8>) -> Result<Seq<u8>, BadFrame> {
    if at + data.len() <= bytes.len() {
        Ok(overlaid(bytes, at, data))
    } else {
        Err(BadFrame)
    }
}

/// What putting a `stack_t` comes to: pointer, `int` flags and size, in native
/// words; the first that does not fit ends it.
pub open spec fn spec_put_stack(bytes: Seq<u8>, at: int, stack: StackRecord, word: nat) -> (
    Seq<u8>,
    Result<(), BadFrame>,
) {
    match spec_put(bytes, at, le_bytes(stack.sp as nat, word)) {
        Err(e) => (bytes, Err(e)),
        Ok(one) => match spec_put(one, at + word, le_bytes(spec_flag_bits(stack.flags), 4)) {
            Err(e) => (one, Err(e)),
            Ok(two) => match spec_put(two, at + 2 * word, le_bytes(stack.size as nat, word)) {
                Err(e) => (two, Err(e)),
                Ok(three) => (three, Ok(())),
            },
        },
    }
}

/// The bits of a signed 32-bit number.
pub open spec fn spec_flag_bits(v: i32) -> nat {
    if v < 0 {
        (v + 0x1_0000_0000) as nat
    } else {
        v as nat
    }
}

/// The number in the `len` bytes at `at`: a bad frame unless they are there.
pub open spec fn spec_number_at(bytes: Seq<u8>, at: int, len: int) -> Result<nat, BadFrame> {
    if at + len <= bytes.len() {
        Ok(le_value(bytes.subrange(at, at + len)))
    } else {
        Err(BadFrame)
    }
}

/// The `stack_t` at `at`.
pub open spec fn spec_stack_at(bytes: Seq<u8>, at: int, word: int) -> Result<
    StackRecord,
    BadFrame,
> {
    match spec_number_at(bytes, at, word) {
        Err(e) => Err(e),
        Ok(sp) => match spec_number_at(bytes, at + word, 4) {
            Err(e) => Err(e),
            Ok(flags) => match spec_number_at(bytes, at + 2 * word, word) {
                Err(e) => Err(e),
                Ok(size) => Ok(
                    StackRecord {
                        sp: sp as u64,
                        flags: spec_signed_32(flags as int) as i32,
                        size: size as u64,
                    },
                ),
            },
        },
    }
}

impl FrameBytes {
    /// The frame's bytes.
    pub open spec fn view(self) -> Seq<u8> {
        self.bytes@
    }

    /// `len` zero bytes.
    pub fn zeroed(len: usize) -> (frame: FrameBytes)
        ensures
            frame@ == Seq::new(len as nat, |i: int| 0u8),
    {
        let mut bytes: Vec<u8> = Vec::new();
        while bytes.len() < len
            invariant
                bytes@.len() <= len,
                forall|i: int| 0 <= i < bytes@.len() ==> bytes@[i] == 0,
            decreases len - bytes@.len(),
        {
            bytes.push(0);
        }
        assert(bytes@ =~= Seq::new(len as nat, |i: int| 0u8));
        FrameBytes { bytes }
    }

    /// `len` bytes of the program's memory at `at`.
    pub fn read(space: &AddressSpace, at: u64, len: usize) -> (frame: Result<FrameBytes, BadFrame>)
        requires
            space.wf(),
        ensures
            match frame {
                Ok(frame) => space@.can_read(at as int, len as int) && frame@ == space@.read(
                    at as int,
                    len as nat,
                ),
                Err(_) => !space@.can_read(at as int, len as int),
            },
    {
        match space.copy_from_user(at, len) {
            Ok(bytes) => Ok(FrameBytes { bytes }),
            Err(_) => Err(BadFrame),
        }
    }

    /// Write them into the program's memory at `at`.
    pub fn write(&self, space: &mut AddressSpace, at: u64) -> (done: Result<(), BadFrame>)
        requires
            old(space).wf(),
        ensures
            final(space).wf(),
            final(space).same_layout(*old(space)),
            match done {
                Ok(_) => old(space)@.can_write(at as int, self@.len() as int) && final(space)@
                    == old(space)@.store(at as int, self@),
                Err(_) => !old(space)@.can_write(at as int, self@.len() as int)
                    && *final(space) == *old(space),
            },
    {
        match space.copy_to_user(at, self.bytes.as_slice()) {
            Ok(_) => Ok(()),
            Err(_) => Err(BadFrame),
        }
    }

    /// Put `data` at `at`.
    pub fn put(&mut self, at: usize, data: &[u8]) -> (done: Result<(), BadFrame>)
        ensures
            match spec_put(old(self)@, at as int, data@) {
                Ok(after) => done is Ok && final(self)@ == after,
                Err(_) => done is Err && final(self)@ == old(self)@,
            },
    {
        if data.len() > self.bytes.len() || at > self.bytes.len() - data.len() {
            return Err(BadFrame);
        }
        lay_over(&mut self.bytes, at, data);
        Ok(())
    }

    /// Put a 32-bit value at `at`.
    pub fn put_u32(&mut self, at: usize, value: u32) -> (done: Result<(), BadFrame>)
        ensures
            match spec_put(old(self)@, at as int, le_bytes(value as nat, 4)) {
                Ok(after) => done is Ok && final(self)@ == after,
                Err(_) => done is Err && final(self)@ == old(self)@,
            },
    {
        let data = le_encode(value as u64, 4);
        self.put(at, data.as_slice())
    }

    /// Put a 64-bit value at `at`.
    pub fn put_u64(&mut self, at: usize, value: u64) -> (done: Result<(), BadFrame>)
        ensures
            match spec_put(old(self)@, at as int, le_bytes(value as nat, 8)) {
                Ok(after) => done is Ok && final(self)@ == after,
                Err(_) => done is Err && final(self)@ == old(self)@,
            },
    {
        let data = le_encode(value, 8);
        self.put(at, data.as_slice())
    }

    /// Put a native word at `at`.
    fn put_word(&mut self, at: usize, value: u64, arch: Arch) -> (done: Result<(), BadFrame>)
        ensures
            match spec_put(old(self)@, at as int, le_bytes(value as nat, arch.spec_word())) {
                Ok(after) => done is Ok && final(self)@ == after,
                Err(_) => done is Err && final(self)@ == old(self)@,
            },
    {
        let data = le_encode(value, arch.word());
        self.put(at, data.as_slice())
    }

    /// Put a `stack_t` at `at`: pointer, `int` flags, size, in native words.
    pub fn put_stack(&mut self, at: usize, stack: StackRecord, arch: Arch) -> (done: Result<
        (),
        BadFrame,
    >)
        ensures
            (final(self)@, done) == spec_put_stack(old(self)@, at as int, stack, arch.spec_word()),
    {
        let word: usize = arch.word();
        proof {
            lemma_le_bytes_len(stack.sp as nat, word as nat);
            lemma_le_bytes_len(spec_flag_bits(stack.flags), 4);
            lemma_le_bytes_len(stack.size as nat, word as nat);
        }
        self.put_word(at, stack.sp, arch)?;
        assert(at + word <= self@.len());
        let _fits: usize = self.bytes.len();
        self.put_u32(at + word, bits_32(stack.flags))?;
        if at > usize::MAX - 2 * word {
            return Err(BadFrame);
        }
        self.put_word(at + 2 * word, stack.size, arch)?;
        Ok(())
    }

    /// The `len` bytes at `at`.
    pub fn get(&self, at: usize, len: usize) -> (found: Result<&[u8], BadFrame>)
        ensures
            match found {
                Ok(data) => at + len <= self@.len() && data@ == self@.subrange(
                    at as int,
                    at + len,
                ),
                Err(_) => at + len > self@.len(),
            },
    {
        if len > self.bytes.len() || at > self.bytes.len() - len {
            return Err(BadFrame);
        }
        Ok(vstd::slice::slice_subrange(self.bytes.as_slice(), at, at + len))
    }

    /// The number in the `len` bytes at `at`.
    fn number_at(&self, at: usize, len: usize) -> (found: Result<u64, BadFrame>)
        requires
            len <= 8,
        ensures
            match found {
                Ok(v) => spec_number_at(self@, at as int, len as int) == Ok::<nat, BadFrame>(
                    v as nat,
                ) && v < byte_span(len as nat),
                Err(e) => spec_number_at(self@, at as int, len as int) == Err::<nat, BadFrame>(e),
            },
    {
        let data = self.get(at, len)?;
        proof {
            lemma_le_value_bound(data@);
        }
        Ok(le_decode(data))
    }

    /// The 32-bit value at `at`.
    pub fn u32_at(&self, at: usize) -> (found: Result<u32, BadFrame>)
        ensures
            match found {
                Ok(v) => spec_number_at(self@, at as int, 4) == Ok::<nat, BadFrame>(v as nat),
                Err(e) => spec_number_at(self@, at as int, 4) == Err::<nat, BadFrame>(e),
            },
    {
        proof {
            lemma_byte_spans();
        }
        Ok(self.number_at(at, 4)? as u32)
    }

    /// The 64-bit value at `at`.
    pub fn u64_at(&self, at: usize) -> (found: Result<u64, BadFrame>)
        ensures
            match found {
                Ok(v) => spec_number_at(self@, at as int, 8) == Ok::<nat, BadFrame>(v as nat),
                Err(e) => spec_number_at(self@, at as int, 8) == Err::<nat, BadFrame>(e),
            },
    {
        self.number_at(at, 8)
    }

    /// The `stack_t` at `at`.
    pub fn stack_at(&self, at: usize, arch: Arch) -> (found: Result<StackRecord, BadFrame>)
        ensures
            found == spec_stack_at(self@, at as int, arch.spec_word() as int),
    {
        let word: usize = arch.word();
        let sp: u64 = self.number_at(at, word)?;
        let _fits: usize = self.bytes.len();
        let flags: u32 = self.u32_at(at + word)?;
        if at > usize::MAX - 2 * word {
            return Err(BadFrame);
        }
        let size: u64 = self.number_at(at + 2 * word, word)?;
        Ok(StackRecord { sp, flags: signed_32(flags), size })
    }
}

/// What was put at a place is what is found there.
pub proof fn law_what_is_put_is_found(bytes: Seq<u8>, at: int, value: nat, len: nat)
    requires
        0 <= at,
        at + len <= bytes.len(),
        value < byte_span(len),
    ensures
        spec_put(bytes, at, le_bytes(value, len)) is Ok,
        spec_number_at(spec_put(bytes, at, le_bytes(value, len))->Ok_0, at, len as int) == Ok::<
            nat,
            BadFrame,
        >(value),
{
    lemma_le_bytes_len(value, len);
    let data = le_bytes(value, len);
    assert(overlaid(bytes, at, data).subrange(at, at + len) =~= data);
    lemma_le_round_trip(value, len);
}

/// What is put at one place is not found at another.
pub proof fn law_the_rest_of_a_frame_stays(
    bytes: Seq<u8>,
    at: int,
    data: Seq<u8>,
    from: int,
    len: int,
)
    requires
        0 <= at,
        at + data.len() <= bytes.len(),
        0 <= from,
        0 <= len,
        from + len <= at || at + data.len() <= from,
        from + len <= bytes.len(),
    ensures
        spec_number_at(overlaid(bytes, at, data), from, len) == spec_number_at(bytes, from, len),
{
    assert(overlaid(bytes, at, data).subrange(from, from + len) =~= bytes.subrange(
        from,
        from + len,
    ));
}

/// An alternate stack put into a frame is the one read back, on a machine
/// whose word holds it.
pub proof fn law_a_stack_record_round_trips(
    bytes: Seq<u8>,
    at: int,
    stack: StackRecord,
    word: nat,
)
    requires
        0 <= at,
        word == 4 || word == 8,
        at + 3 * word <= bytes.len(),
        stack.sp < byte_span(word),
        stack.size < byte_span(word),
    ensures
        spec_put_stack(bytes, at, stack, word).1 is Ok,
        spec_stack_at(spec_put_stack(bytes, at, stack, word).0, at, word as int) == Ok::<
            StackRecord,
            BadFrame,
        >(stack),
{
    let a = le_bytes(stack.sp as nat, word);
    let b = le_bytes(spec_flag_bits(stack.flags), 4);
    let c = le_bytes(stack.size as nat, word);
    lemma_byte_spans();
    lemma_le_bytes_len(stack.sp as nat, word);
    lemma_le_bytes_len(spec_flag_bits(stack.flags), 4);
    lemma_le_bytes_len(stack.size as nat, word);
    let one = overlaid(bytes, at, a);
    let two = overlaid(one, at + word, b);
    let three = overlaid(two, at + 2 * word, c);
    law_what_is_put_is_found(bytes, at, stack.sp as nat, word);
    law_the_rest_of_a_frame_stays(one, at + word, b, at, word as int);
    law_the_rest_of_a_frame_stays(two, at + 2 * word, c, at, word as int);
    law_what_is_put_is_found(one, at + word, spec_flag_bits(stack.flags), 4);
    law_the_rest_of_a_frame_stays(two, at + 2 * word, c, at + word, 4);
    law_what_is_put_is_found(two, at + 2 * word, stack.size as nat, word);
}

// ---------------------------------------------------------------------------
// Restarting an interrupted call
// ---------------------------------------------------------------------------

/// Which restart request a system call left in the return register.
#[derive(Clone, Copy, Debug, PartialEq, Eq, Structural)]
pub enum RestartKind {
    /// Restart under `SA_RESTART`, or with no handler.
    Sys,
    /// Always restart.
    NoIntr,
    /// Restart only with no handler.
    NoHand,
    /// Go on, for the time left, only with no handler.
    RestartBlock,
}

impl RestartKind {
    /// The restart request a return value carries, if it is one.
    pub open spec fn spec_of(value: int) -> Option<RestartKind> {
        if value == -Errno::ERESTARTSYS.spec_number() {
            Some(RestartKind::Sys)
        } else if value == -Errno::ERESTARTNOINTR.spec_number() {
            Some(RestartKind::NoIntr)
        } else if value == -Errno::ERESTARTNOHAND.spec_number() {
            Some(RestartKind::NoHand)
        } else if value == -Errno::ERESTARTBLOCK.spec_number() {
            Some(RestartKind::RestartBlock)
        } else {
            None
        }
    }

    /// The restart request a return value carries, if it is one. Any other
    /// value starts no restart: an ordinary result, or a live register on a
    /// way back that is no call's.
    pub fn of(value: i64) -> (kind: Option<RestartKind>)
        ensures
            kind == RestartKind::spec_of(value as int),
    {
        if value == Errno::ERESTARTSYS.as_return_value() {
            Some(RestartKind::Sys)
        } else if value == Errno::ERESTARTNOINTR.as_return_value() {
            Some(RestartKind::NoIntr)
        } else if value == Errno::ERESTARTNOHAND.as_return_value() {
            Some(RestartKind::NoHand)
        } else if value == Errno::ERESTARTBLOCK.as_return_value() {
            Some(RestartKind::RestartBlock)
        } else {
            None
        }
    }
}

/// Only a restart request is taken for one: no error a program can be told
/// starts a restart.
pub proof fn law_only_restart_requests_restart(e: Errno)
    ensures
        RestartKind::spec_of(-e.spec_number()) is Some <==> e.spec_is_restart(),
{
}

/// Whether an interrupted call restarts, given whether a handler runs and the
/// handler's flags.
///
/// With no handler every call restarts. With one, `ERESTARTNOINTR` always
/// does, `ERESTARTSYS` under `SA_RESTART`, and the others never.
pub open spec fn spec_restarts(kind: RestartKind, runs_handler: bool, flags: u64) -> bool {
    !runs_handler || match kind {
        RestartKind::NoIntr => true,
        RestartKind::Sys => flags & SA_RESTART != 0,
        RestartKind::NoHand => false,
        RestartKind::RestartBlock => false,
    }
}

/// Whether an interrupted call restarts.
pub fn restarts(kind: RestartKind, runs_handler: bool, flags: u64) -> (yes: bool)
    ensures
        yes == spec_restarts(kind, runs_handler, flags),
{
    if !runs_handler {
        return true;
    }
    match kind {
        RestartKind::NoIntr => true,
        RestartKind::Sys => flags & SA_RESTART != 0,
        RestartKind::NoHand => false,
        RestartKind::RestartBlock => false,
    }
}

/// The call that was interrupted: what the return value overwrote.
#[derive(Clone, Copy, Debug, PartialEq, Eq, Structural)]
pub struct Restart {
    /// Its number.
    pub nr: u64,
    /// Its first argument.
    pub arg0: u64,
}

/// How an interrupted call ends.
#[derive(Clone, Copy, Debug, PartialEq, Eq, Structural)]
pub enum Settled {
    /// The program is told it was interrupted: `EINTR`.
    Interrupted,
    /// The registers go back to the call's own instruction and arguments, so
    /// that resuming makes it again; or goes on with it, for the time left.
    Again { nr: u64, arg0: u64, rest: bool },
}

/// The interrupted call is made again.
pub open spec fn spec_restart_call(call: Restart, kind: RestartKind) -> Settled {
    Settled::Again { nr: call.nr, arg0: call.arg0, rest: kind == RestartKind::RestartBlock }
}

/// The interrupted call is made again: back to its own instruction, with the
/// argument the return value overwrote; one with time left is entered as one
/// that waits out only that.
pub fn restart_call(call: Restart, kind: RestartKind) -> (settled: Settled)
    ensures
        settled == spec_restart_call(call, kind),
{
    Settled::Again { nr: call.nr, arg0: call.arg0, rest: kind == RestartKind::RestartBlock }
}

/// An interrupted call, settled against a handler that is about to run.
pub open spec fn spec_resolve(call: Restart, kind: RestartKind, flags: u64) -> Settled {
    if spec_restarts(kind, true, flags) {
        spec_restart_call(call, kind)
    } else {
        Settled::Interrupted
    }
}

/// Settle an interrupted call against a handler that is about to run.
fn resolve_restart(call: Restart, kind: RestartKind, flags: u64) -> (settled: Settled)
    ensures
        settled == spec_resolve(call, kind, flags),
{
    if restarts(kind, true, flags) {
        restart_call(call, kind)
    } else {
        Settled::Interrupted
    }
}

// ---------------------------------------------------------------------------
// Delivery
// ---------------------------------------------------------------------------

/// What a signal does to a process that has said nothing about it.
#[derive(Clone, Copy, Debug, PartialEq, Eq, Structural)]
pub enum DefaultAction {
    /// It ends.
    Terminate,
    /// It ends, and leaves its memory behind.
    Core,
    /// It stops.
    Stop,
    /// Nothing.
    Ignore,
    /// It goes on, if it was stopped.
    Continue,
}

/// A signal taken for delivery.
#[derive(Clone, Copy, Debug, PartialEq, Eq, Structural)]
pub struct Taken {
    /// Its number.
    pub signal: u32,
    /// What it does by default.
    pub default: DefaultAction,
    /// Where its handler is, or one of the two that are no handler.
    pub handler: u64,
    /// The handler's flags.
    pub flags: u64,
    /// Where the handler returns to.
    pub restorer: u64,
}

impl Taken {
    /// Whether the signal runs a handler of the program's own: the only case
    /// that can turn a restart into `EINTR`.
    pub open spec fn handled(self) -> bool {
        self.handler != SIG_DFL && self.handler != SIG_IGN
    }

    /// A signal number is 1 to 64.
    pub open spec fn wf(self) -> bool {
        1 <= self.signal <= 64
    }
}

/// Whether a signal runs a handler of the program's own.
pub fn runs_a_handler(taken: &Taken) -> (yes: bool)
    ensures
        yes == taken.handled(),
{
    taken.handler != SIG_DFL && taken.handler != SIG_IGN
}

/// What a taken signal asks for.
#[derive(Clone, Copy, Debug, PartialEq, Eq, Structural)]
pub enum Act {
    /// Nothing.
    Nothing,
    /// End the process with this status.
    Kill(i32),
    /// Stop it, on account of this signal.
    Stop(u32),
    /// Enter the handler.
    Handle,
}

/// What a taken signal asks for: nothing if it is ignored, its default action,
/// or its handler. A process a signal ends has 128 and the signal for its
/// status.
pub open spec fn spec_act(taken: Taken) -> Act {
    if taken.handler == SIG_IGN {
        Act::Nothing
    } else if taken.handler == SIG_DFL {
        match taken.default {
            DefaultAction::Terminate => Act::Kill((128 + taken.signal) as i32),
            DefaultAction::Core => Act::Kill((128 + taken.signal) as i32),
            DefaultAction::Stop => Act::Stop(taken.signal),
            DefaultAction::Ignore => Act::Nothing,
            DefaultAction::Continue => Act::Nothing,
        }
    } else {
        Act::Handle
    }
}

/// What a taken signal asks for.
pub fn act(taken: &Taken) -> (what: Act)
    requires
        taken.wf(),
    ensures
        what == spec_act(*taken),
{
    if taken.handler == SIG_IGN {
        return Act::Nothing;
    }
    if taken.handler == SIG_DFL {
        return match taken.default {
            DefaultAction::Terminate => Act::Kill((128 + taken.signal) as i32),
            DefaultAction::Core => Act::Kill((128 + taken.signal) as i32),
            DefaultAction::Stop => Act::Stop(taken.signal),
            DefaultAction::Ignore => Act::Nothing,
            DefaultAction::Continue => Act::Nothing,
        };
    }
    Act::Handle
}

/// What the way back to user mode finds of the running task.
#[derive(Clone, Copy, Debug, PartialEq, Eq, Structural)]
pub struct Attention {
    /// Its process has ended.
    pub terminated: bool,
    /// Its process is stopped.
    pub stopped: bool,
    /// A signal is to be delivered, or a mask put back.
    pub signals: bool,
}

/// Whether the way back to user mode has anything to do for the running task;
/// never for one that is no program's.
pub fn needs_attention(task: Option<Attention>) -> (yes: bool)
    ensures
        yes == match task {
            Some(found) => found.terminated || found.stopped || found.signals,
            None => false,
        },
{
    match task {
        Some(found) => found.terminated || found.stopped || found.signals,
        None => false,
    }
}

/// What one round of delivery finds.
#[derive(Clone, Copy, Debug, PartialEq, Eq, Structural)]
pub enum Round {
    /// The process has ended.
    Ended,
    /// The process is stopped.
    Stopped,
    /// No signal is deliverable.
    Quiet,
    /// A signal was taken.
    Signal(Taken),
}

/// What a round does.
#[derive(Clone, Copy, Debug, PartialEq, Eq)]
pub enum Step {
    /// Wait until the process is continued or has ended, and look again.
    Wait,
    /// Settle the interrupted call, if this is what settles it, and do what
    /// the signal asks.
    Deliver { settled: Option<Settled>, act: Act },
    /// Delivery is over: settle the interrupted call, if nothing has, and go
    /// back to the program.
    Leave { settled: Option<Settled> },
}

/// One way back to user mode.
#[derive(Clone, Copy, Debug, PartialEq, Eq)]
pub struct Delivery {
    /// How many rounds are left.
    pub rounds: usize,
    /// The interrupted call, until something settles it.
    pub restart: Option<(Restart, RestartKind)>,
}

/// What is left of a delivery after a round, and what the round does.
///
/// The first signal that runs a handler settles the interrupted call: only a
/// handler can turn a restart into `EINTR`. A default action leaves it
/// pending, so a stop and a continue restart it without the program noticing,
/// and a later handler still gets to decide. If no handler ran, it restarts.
pub open spec fn spec_round(d: Delivery, round: Round) -> (Delivery, Step) {
    let leave = (
        Delivery { rounds: 0, restart: None },
        Step::Leave {
            settled: match d.restart {
                Some((call, kind)) => Some(spec_restart_call(call, kind)),
                None => None,
            },
        },
    );
    if d.rounds == 0 {
        leave
    } else {
        let left = (d.rounds - 1) as usize;
        match round {
            Round::Ended => leave,
            Round::Quiet => leave,
            Round::Stopped => (Delivery { rounds: left, ..d }, Step::Wait),
            Round::Signal(taken) => match d.restart {
                Some((call, kind)) if taken.handled() => (
                    Delivery { rounds: left, restart: None },
                    Step::Deliver {
                        settled: Some(spec_resolve(call, kind, taken.flags)),
                        act: spec_act(taken),
                    },
                ),
                _ => (
                    Delivery { rounds: left, ..d },
                    Step::Deliver { settled: None, act: spec_act(taken) },
                ),
            },
        }
    }
}

/// Start one way back to user mode. A call is taken for an interrupted one
/// only if it was recorded as such and its return value is a restart request,
/// so that a way back that is no call's is never rewound.
pub fn return_to_user(recorded: Option<Restart>, result: i64) -> (delivery: Delivery)
    ensures
        delivery.rounds == DELIVERY_ROUNDS,
        delivery.restart == match (recorded, RestartKind::spec_of(result as int)) {
            (Some(call), Some(kind)) => Some((call, kind)),
            _ => None,
        },
{
    let restart = match (recorded, RestartKind::of(result)) {
        (Some(call), Some(kind)) => Some((call, kind)),
        _ => None,
    };
    Delivery { rounds: DELIVERY_ROUNDS, restart }
}

impl Delivery {
    /// Settle what is left and go back to the program.
    fn leave(&mut self) -> (step: Step)
        ensures
            *final(self) == (Delivery { rounds: 0, restart: None }),
            step == (Step::Leave {
                settled: match old(self).restart {
                    Some((call, kind)) => Some(spec_restart_call(call, kind)),
                    None => None,
                },
            }),
    {
        let settled = match self.restart {
            Some((call, kind)) => Some(restart_call(call, kind)),
            None => None,
        };
        self.rounds = 0;
        self.restart = None;
        Step::Leave { settled }
    }

    /// One round of delivery.
    pub fn round(&mut self, round: Round) -> (step: Step)
        requires
            round matches Round::Signal(taken) ==> taken.wf(),
        ensures
            (*final(self), step) == spec_round(*old(self), round),
    {
        if self.rounds == 0 {
            return self.leave();
        }
        match round {
            Round::Ended => self.leave(),
            Round::Quiet => self.leave(),
            Round::Stopped => {
                self.rounds = self.rounds - 1;
                Step::Wait
            },
            Round::Signal(taken) => {
                self.rounds = self.rounds - 1;
                let what = act(&taken);
                match self.restart {
                    Some((call, kind)) => if runs_a_handler(&taken) {
                        self.restart = None;
                        Step::Deliver {
                            settled: Some(resolve_restart(call, kind, taken.flags)),
                            act: what,
                        }
                    } else {
                        Step::Deliver { settled: None, act: what }
                    },
                    None => Step::Deliver { settled: None, act: what },
                }
            },
        }
    }
}

/// A delivery after some rounds.
pub open spec fn rounds_of(d: Delivery, rounds: Seq<Round>) -> Delivery
    decreases rounds.len(),
{
    if rounds.len() == 0 {
        d
    } else {
        spec_round(rounds_of(d, rounds.drop_last()), rounds.last()).0
    }
}

/// How many times some rounds settle the interrupted call.
pub open spec fn times_settled(d: Delivery, rounds: Seq<Round>) -> nat
    decreases rounds.len(),
{
    if rounds.len() == 0 {
        0
    } else {
        let before = times_settled(d, rounds.drop_last());
        match spec_round(rounds_of(d, rounds.drop_last()), rounds.last()).1 {
            Step::Deliver { settled: Some(_), .. } => before + 1,
            Step::Leave { settled: Some(_) } => before + 1,
            _ => before,
        }
    }
}

/// An interrupted call is settled at most once, however many signals come;
/// and one that has not been is still there to be settled.
pub proof fn law_an_interrupted_call_is_settled_once(d: Delivery, rounds: Seq<Round>)
    ensures
        d.restart is None ==> times_settled(d, rounds) == 0 && rounds_of(d, rounds).restart is None,
        d.restart is Some ==> (if rounds_of(d, rounds).restart is Some {
            times_settled(d, rounds) == 0 && rounds_of(d, rounds).restart == d.restart
        } else {
            times_settled(d, rounds) == 1
        }),
    decreases rounds.len(),
{
    if rounds.len() > 0 {
        law_an_interrupted_call_is_settled_once(d, rounds.drop_last());
    }
}

/// A way back to user mode ends: after as many rounds as it has, the next one
/// leaves.
pub proof fn law_delivery_ends(d: Delivery, rounds: Seq<Round>, last: Round)
    requires
        rounds.len() >= d.rounds,
    ensures
        spec_round(rounds_of(d, rounds), last).1 is Leave,
{
    lemma_rounds_left(d, rounds);
}

proof fn lemma_rounds_left(d: Delivery, rounds: Seq<Round>)
    ensures
        rounds_of(d, rounds).rounds <= if rounds.len() >= d.rounds {
            0
        } else {
            d.rounds - rounds.len()
        },
    decreases rounds.len(),
{
    if rounds.len() > 0 {
        lemma_rounds_left(d, rounds.drop_last());
    }
}

/// A default action never makes a program see that its call was interrupted.
pub proof fn law_only_a_handler_interrupts(d: Delivery, round: Round)
    ensures
        match spec_round(d, round).1 {
            Step::Deliver { settled: Some(Settled::Interrupted), act } => act == Act::Handle,
            Step::Leave { settled: Some(settled) } => settled != Settled::Interrupted,
            _ => true,
        },
{
}

// ---------------------------------------------------------------------------
// Handlers
// ---------------------------------------------------------------------------

/// Everything needed to put a handler's frame on the stack.
#[derive(Debug)]
pub struct FrameRequest {
    /// The signal.
    pub signal: u32,
    /// Its `siginfo_t`.
    pub info: Vec<u8>,
    /// Where the handler is.
    pub handler: u64,
    /// The handler's flags.
    pub flags: u64,
    /// Where the handler returns to.
    pub restorer: u64,
    /// The mask the frame saves.
    pub mask: u64,
    /// The address the frame is built below.
    pub stack: u64,
    /// The alternate stack.
    pub altstack: StackRecord,
}

/// Enter a taken signal's handler: what the frame is made from. A bad frame if
/// the handler is no address a program may use.
pub fn run_handler(
    taken: &Taken,
    info: Vec<u8>,
    mask: u64,
    stack: u64,
    altstack: StackRecord,
    user_end: u64,
) -> (request: Result<FrameRequest, BadFrame>)
    ensures
        match request {
            Ok(r) => {
                &&& taken.handler < user_end
                &&& r.signal == taken.signal
                &&& r.info@ == info@
                &&& r.handler == taken.handler
                &&& r.flags == taken.flags
                &&& r.restorer == taken.restorer
                &&& r.mask == mask
                &&& r.stack == stack
                &&& r.altstack == altstack
            },
            Err(_) => taken.handler >= user_end,
        },
{
    if taken.handler >= user_end {
        return Err(BadFrame);
    }
    Ok(
        FrameRequest {
            signal: taken.signal,
            info,
            handler: taken.handler,
            flags: taken.flags,
            restorer: taken.restorer,
            mask,
            stack,
            altstack,
        },
    )
}

/// What becomes of a process whose handler was to be entered: it goes on, or
/// without a frame it cannot, and ends as a bad memory access ends it.
pub fn entered(frame: Result<(), BadFrame>) -> (what: Act)
    ensures
        what == match frame {
            Ok(_) => Act::Nothing,
            Err(_) => Act::Kill(139),
        },
{
    match frame {
        Ok(_) => Act::Nothing,
        Err(_) => Act::Kill(128 + SIGSEGV as i32),
    }
}

/// What was read back out of a frame, besides the registers.
#[derive(Clone, Copy, Debug, PartialEq, Eq, Structural)]
pub struct Restored {
    /// The mask the frame saved.
    pub mask: u64,
    /// The alternate stack it recorded.
    pub altstack: StackRecord,
}

/// What returning from a handler asks for.
#[derive(Clone, Copy, Debug, PartialEq, Eq, Structural)]
pub enum Left {
    /// Put back this mask and alternate stack, with this stack pointer.
    Resume { mask: u64, altstack: StackRecord, sp: u64 },
    /// End the process with this status.
    Kill(i32),
}

/// Return from a handler: put back the mask and alternate stack its frame
/// saved. A frame that cannot be read, or does not hold together, ends the
/// process as a bad memory access does: there is nothing left to return an
/// error to.
pub fn sigreturn(restored: Result<Restored, BadFrame>, sp: u64) -> (left: Left)
    ensures
        left == match restored {
            Ok(frame) => Left::Resume { mask: frame.mask, altstack: frame.altstack, sp },
            Err(_) => Left::Kill(139),
        },
{
    match restored {
        Ok(frame) => Left::Resume { mask: frame.mask, altstack: frame.altstack, sp },
        Err(_) => Left::Kill(128 + SIGSEGV as i32),
    }
}

/// What became of a signal raised against a thread.
#[derive(Clone, Copy, Debug, PartialEq, Eq, Structural)]
pub enum Posted {
    /// It is ignored.
    Ignored,
    /// It waits to be delivered.
    Queued,
    /// It ends the process.
    Fatal,
}

/// Raise a signal against the running task's thread for a fault its own
/// instruction took, given what became of it. Answers that, and the status to
/// end the process with when the signal is fatal; nothing for a task that is
/// no program's.
pub fn force(signal: u32, posted: Option<Posted>) -> (answer: (Option<Posted>, Option<i32>))
    requires
        1 <= signal <= 64,
    ensures
        answer.0 == posted,
        answer.1 == match posted {
            Some(Posted::Fatal) => Some((128 + signal) as i32),
            _ => None,
        },
{
    match posted {
        Some(Posted::Fatal) => (posted, Some((128 + signal) as i32)),
        _ => (posted, None),
    }
}

// ---------------------------------------------------------------------------
// Waiting for a signal
// ---------------------------------------------------------------------------

/// Whether a wait for a signal is over: one is deliverable, `also` holds, or
/// the deadline has passed.
pub fn wait_for_signal(pending: bool, also: bool, now: u64, deadline: u64) -> (over: bool)
    ensures
        over == (pending || also || now >= deadline),
{
    pending || also || now >= deadline
}

/// The signal set at `at`; `EFAULT` if it cannot be read.
pub open spec fn spec_sigset(m: Memory, at: u64) -> Result<u64, Errno> {
    if m.can_read(at as int, 8) {
        Ok(m.number(at as int, 8) as u64)
    } else {
        Err(Errno::EFAULT)
    }
}

/// Read an 8-byte signal set from the program.
fn read_sigset(space: &AddressSpace, at: u64) -> (set: Result<u64, Errno>)
    requires
        space.wf(),
    ensures
        set == spec_sigset(space@, at),
{
    space.get_number(at, 8)
}

/// `rt_sigsuspend`: the mask to block instead while waiting for a signal.
///
/// `EINVAL` for a set size other than eight; `EFAULT` for a set that cannot be
/// read. With the mask in place the call goes on as [`sys_pause`] does, asked
/// whether a signal outside the mask is deliverable.
pub fn sys_rt_sigsuspend(space: &AddressSpace, mask: u64, sigsetsize: u64) -> (wait: Result<
    u64,
    Errno,
>)
    requires
        space.wf(),
    ensures
        wait == if sigsetsize != SIGSET_SIZE {
            Err::<u64, Errno>(Errno::EINVAL)
        } else {
            spec_sigset(space@, mask)
        },
{
    if sigsetsize != SIGSET_SIZE {
        return Err(Errno::EINVAL);
    }
    read_sigset(space, mask)
}

/// One look at a call that waits for a signal.
#[derive(Clone, Copy, Debug, PartialEq, Eq)]
pub enum Look {
    /// Return this to the program.
    Answer(Result<usize, Errno>),
    /// Sleep until a signal comes, or until then, and look again.
    Sleep(u64),
}

/// `pause`, and `rt_sigsuspend` with its mask in place: sleep, with no end to
/// it, until a signal is deliverable, and then answer `EINTR`, always.
pub fn sys_pause(pending: bool, now: u64) -> (look: Look)
    ensures
        look == if pending || now == u64::MAX {
            Look::Answer(Err(Errno::EINTR))
        } else {
            Look::Sleep(u64::MAX)
        },
{
    if wait_for_signal(pending, false, now, u64::MAX) {
        return Look::Answer(Err(Errno::EINTR));
    }
    Look::Sleep(u64::MAX)
}

/// What `rt_sigpending` does to memory, and its answer.
pub open spec fn spec_sigpending(m: Memory, set: u64, at: u64, sigsetsize: u64) -> (
    Memory,
    Result<usize, Errno>,
) {
    if sigsetsize > SIGSET_SIZE {
        (m, Err(Errno::EINVAL))
    } else {
        match m.put(at as int, le_bytes(set as nat, sigsetsize as nat)) {
            Ok(after) => (after, Ok(0)),
            Err(e) => (m, Err(e)),
        }
    }
}

/// `rt_sigpending`: the pending signals the calling thread blocks, its own and
/// its process's: as many bytes of the set as are asked for.
///
/// `EINVAL` for a size above eight; `EFAULT` for a bad pointer.
pub fn sys_rt_sigpending(
    space: &mut AddressSpace,
    shared: u64,
    own: u64,
    blocked: u64,
    at: u64,
    sigsetsize: u64,
) -> (result: Result<usize, Errno>)
    requires
        old(space).wf(),
    ensures
        final(space).wf(),
        final(space).same_layout(*old(space)),
        (final(space)@, result) == spec_sigpending(
            old(space)@,
            (shared | own) & blocked,
            at,
            sigsetsize,
        ),
{
    if sigsetsize > SIGSET_SIZE {
        return Err(Errno::EINVAL);
    }
    let set: u64 = (shared | own) & blocked;
    proof {
        lemma_le_bytes_len(set as nat, sigsetsize as nat);
    }
    space.put_number(at, set, sigsetsize as usize)?;
    Ok(0)
}

/// A wait for one of a set of signals.
#[derive(Clone, Copy, Debug, PartialEq, Eq, Structural)]
pub struct SignalWait {
    /// The signals.
    pub set: u64,
    /// When to stop waiting.
    pub deadline: u64,
}

/// `now` and `nanos` later, or as late as there is.
pub open spec fn later(now: u64, nanos: u64) -> u64 {
    if now + nanos > u64::MAX {
        u64::MAX
    } else {
        (now + nanos) as u64
    }
}

/// What `rt_sigtimedwait` waits for, or why it is refused.
pub open spec fn spec_sigtimedwait(
    m: Memory,
    set: u64,
    timeout: u64,
    sigsetsize: u64,
    field: nat,
    now: u64,
) -> Result<SignalWait, Errno> {
    if sigsetsize != SIGSET_SIZE {
        Err(Errno::EINVAL)
    } else {
        match spec_sigset(m, set) {
            Err(e) => Err(e),
            Ok(asked) => {
                let wanted = asked & !UNBLOCKABLE;
                if timeout == 0 {
                    Ok(SignalWait { set: wanted, deadline: u64::MAX })
                } else {
                    match spec_timespec(m, timeout as int, field) {
                        Err(e) => Err(e),
                        Ok(nanos) => Ok(SignalWait { set: wanted, deadline: later(now, nanos) }),
                    }
                }
            },
        }
    }
}

/// `rt_sigtimedwait` and its wide form: what to wait for.
///
/// `EINVAL` for a set size other than eight or a bad timeout; `EFAULT` for a
/// bad pointer.
pub fn sys_rt_sigtimedwait(
    space: &AddressSpace,
    set: u64,
    timeout: u64,
    sigsetsize: u64,
    width: TimeWidth,
    now: u64,
    arch: Arch,
) -> (wait: Result<SignalWait, Errno>)
    requires
        space.wf(),
    ensures
        wait == spec_sigtimedwait(
            space@,
            set,
            timeout,
            sigsetsize,
            width.spec_field(arch),
            now,
        ),
{
    if sigsetsize != SIGSET_SIZE {
        return Err(Errno::EINVAL);
    }
    let wanted: u64 = read_sigset(space, set)? & !UNBLOCKABLE;
    if timeout == 0 {
        return Ok(SignalWait { set: wanted, deadline: u64::MAX });
    }
    let nanos: u64 = read_timespec(space, timeout, width.field(arch))?;
    let deadline: u64 = match now.checked_add(nanos) {
        Some(deadline) => deadline,
        None => u64::MAX,
    };
    Ok(SignalWait { set: wanted, deadline })
}

/// What `rt_sigtimedwait` does to memory once it has waited, and its answer.
pub open spec fn spec_sigtimedwait_end(
    m: Memory,
    taken: Option<(u32, Seq<u8>)>,
    info: u64,
    pending: bool,
) -> (Memory, Result<usize, Errno>) {
    match taken {
        Some((signal, bytes)) => if info == 0 {
            (m, Ok(signal as usize))
        } else {
            match m.put(info as int, bytes) {
                Ok(after) => (after, Ok(signal as usize)),
                Err(e) => (m, Err(e)),
            }
        },
        None => if pending {
            (m, Err(Errno::EINTR))
        } else {
            (m, Err(Errno::EAGAIN))
        },
    }
}

/// A taken signal and what its `siginfo_t` holds.
pub open spec fn taken_view(taken: Option<(u32, Vec<u8>)>) -> Option<(u32, Seq<u8>)> {
    match taken {
        Some((signal, info)) => Some((signal, info@)),
        None => None,
    }
}

/// The end of [`sys_rt_sigtimedwait`]: the number of the signal taken, its
/// `siginfo_t` written to `info`; `EINTR` when another signal arrived first,
/// and `EAGAIN` when the time passed first.
pub fn sigtimedwait_end(
    space: &mut AddressSpace,
    taken: Option<(u32, Vec<u8>)>,
    info: u64,
    pending: bool,
) -> (result: Result<usize, Errno>)
    requires
        old(space).wf(),
    ensures
        final(space).wf(),
        final(space).same_layout(*old(space)),
        (final(space)@, result) == spec_sigtimedwait_end(
            old(space)@,
            taken_view(taken),
            info,
            pending,
        ),
{
    match taken {
        Some((signal, bytes)) => {
            if info != 0 {
                space.copy_to_user(info, bytes.as_slice())?;
            }
            Ok(signal as usize)
        },
        None => if pending {
            Err(Errno::EINTR)
        } else {
            Err(Errno::EAGAIN)
        },
    }
}

/// No wait can take a signal that nothing can block.
pub proof fn law_no_wait_takes_the_unblockable(
    m: Memory,
    set: u64,
    timeout: u64,
    sigsetsize: u64,
    field: nat,
    now: u64,
)
    ensures
        match spec_sigtimedwait(m, set, timeout, sigsetsize, field, now) {
            Ok(wait) => wait.set & UNBLOCKABLE == 0,
            Err(_) => true,
        },
{
    if let Ok(asked) = spec_sigset(m, set) {
        assert((asked & !0x4_0100u64) & 0x4_0100u64 == 0) by (bit_vector);
    }
}

// ---------------------------------------------------------------------------
// What delivery is for
// ---------------------------------------------------------------------------

/// A handler the program installed is run, whatever the signal would do by
/// default; an ignored signal does nothing; and any other does what it does by
/// default, ending the process with 128 and its number if that ends it.
pub proof fn law_an_installed_handler_is_run(d: Delivery, taken: Taken)
    requires
        d.rounds > 0,
        1 <= taken.signal <= 64,
    ensures
        ({
            let step = spec_round(d, Round::Signal(taken)).1;
            let ends = taken.default == DefaultAction::Terminate || taken.default
                == DefaultAction::Core;
            &&& step is Deliver
            &&& step->act == Act::Handle <==> taken.handler != 0 && taken.handler != 1
            &&& taken.handler == 1 ==> step->act == Act::Nothing
            &&& step->act is Kill <==> taken.handler == 0 && ends
            &&& step->act matches Act::Kill(status) ==> status == 128 + taken.signal
            &&& step->act is Stop <==> taken.handler == 0 && taken.default == DefaultAction::Stop
            &&& step->act matches Act::Stop(signal) ==> signal == taken.signal
            &&& spec_round(d, Round::Signal(taken)).0.rounds == d.rounds - 1
        }),
{
}

/// The handler that is run settles the call it came in on: one that always
/// restarts is made again, as is one that may be while the handler asks for
/// that, and any other is told it was interrupted. A call made again is the
/// same call, with the argument it had.
pub proof fn law_a_handler_settles_the_call_it_came_in_on(
    d: Delivery,
    taken: Taken,
    call: Restart,
    kind: RestartKind,
)
    requires
        d.rounds > 0,
        d.restart == Some((call, kind)),
    ensures
        ({
            let (after, step) = spec_round(d, Round::Signal(taken));
            let runs = taken.handler != 0 && taken.handler != 1;
            let again = kind == RestartKind::NoIntr || (kind == RestartKind::Sys && taken.flags
                & 0x1000_0000 != 0);
            &&& step is Deliver
            &&& runs ==> after.restart is None
            &&& runs && again ==> step->Deliver_settled == Some(
                Settled::Again { nr: call.nr, arg0: call.arg0, rest: false },
            )
            &&& runs && !again ==> step->Deliver_settled == Some(Settled::Interrupted)
            &&& !runs ==> step->Deliver_settled is None && after.restart == d.restart
        }),
{
}

/// A call that no handler settled is made again: the same call, with the
/// argument it had, and for the time it has left if it is one that waits a
/// while. A stopped process waits, with its call as it was.
pub proof fn law_a_call_without_a_handler_is_made_again(d: Delivery, round: Round)
    ensures
        ({
            let (after, step) = spec_round(d, round);
            let over = d.rounds == 0 || round == Round::Quiet || round == Round::Ended;
            &&& over <==> step is Leave
            &&& over ==> after.rounds == 0 && after.restart is None
            &&& over && d.restart is None ==> step->Leave_settled is None
            &&& d.restart matches Some((call, kind)) ==> over ==> step->Leave_settled == Some(
                Settled::Again {
                    nr: call.nr,
                    arg0: call.arg0,
                    rest: kind == RestartKind::RestartBlock,
                },
            )
            &&& !over && round == Round::Stopped <==> step == Step::Wait
            &&& step == Step::Wait ==> after.restart == d.restart && after.rounds + 1 == d.rounds
        }),
{
}

/// A call asks to be restarted with one of four values, each of its own kind,
/// and with no other.
pub proof fn law_four_values_ask_for_a_restart(value: int)
    ensures
        RestartKind::spec_of(value) == Some(RestartKind::Sys) <==> value == -512,
        RestartKind::spec_of(value) == Some(RestartKind::NoIntr) <==> value == -513,
        RestartKind::spec_of(value) == Some(RestartKind::NoHand) <==> value == -514,
        RestartKind::spec_of(value) == Some(RestartKind::RestartBlock) <==> value == -516,
        RestartKind::spec_of(value) is None <==> !(value == -512 || value == -513 || value == -514
            || value == -516),
{
}

/// A wait for signals waits for exactly those asked for that can be blocked,
/// and for as long as asked: for ever without a time, and never less than now
/// with one.
pub proof fn law_a_wait_is_for_what_was_asked(
    m: Memory,
    set: u64,
    timeout: u64,
    sigsetsize: u64,
    field: nat,
    now: u64,
)
    ensures
        sigsetsize != 8 ==> spec_sigtimedwait(m, set, timeout, sigsetsize, field, now) == Err::<
            SignalWait,
            Errno,
        >(Errno::EINVAL),
        sigsetsize == 8 && !m.can_read(set as int, 8) ==> spec_sigtimedwait(
            m,
            set,
            timeout,
            sigsetsize,
            field,
            now,
        ) == Err::<SignalWait, Errno>(Errno::EFAULT),
        spec_sigtimedwait(m, set, timeout, sigsetsize, field, now) matches Ok(wait) ==> {
            let asked = m.number(set as int, 8) as u64;
            &&& wait.set & 0x4_0100 == 0
            &&& wait.set | (asked & 0x4_0100) == asked
            &&& timeout == 0 ==> wait.deadline == u64::MAX
            &&& wait.deadline >= now
            &&& timeout != 0 ==> {
                let nanos = spec_timespec(m, timeout as int, field)->Ok_0;
                &&& spec_timespec(m, timeout as int, field) is Ok
                &&& wait.deadline == now + nanos || (wait.deadline == u64::MAX && now + nanos
                    > u64::MAX)
            }
        },
        sigsetsize == 8 && m.can_read(set as int, 8) && timeout == 0 ==> spec_sigtimedwait(
            m,
            set,
            timeout,
            sigsetsize,
            field,
            now,
        ) is Ok,
{
    let asked = m.number(set as int, 8) as u64;
    assert((asked & !0x4_0100u64) & 0x4_0100u64 == 0) by (bit_vector);
    assert((asked & !0x4_0100u64) | (asked & 0x4_0100u64) == asked) by (bit_vector);
}

/// A signal that was taken is answered by its number, with its information
/// where that was asked for; without one the wait was interrupted, or it ran
/// out.
pub proof fn law_a_taken_signal_is_told(
    m: Memory,
    taken: Option<(u32, Seq<u8>)>,
    info: u64,
    pending: bool,
)
    ensures
        ({
            let (after, result) = spec_sigtimedwait_end(m, taken, info, pending);
            &&& taken is None ==> after == m && result == Err::<usize, Errno>(
                if pending {
                    Errno::EINTR
                } else {
                    Errno::EAGAIN
                },
            )
            &&& taken matches Some((signal, bytes)) ==> {
                &&& info == 0 ==> after == m && result == Ok::<usize, Errno>(signal as usize)
                &&& info != 0 && m.can_write(info as int, bytes.len() as int) ==> result == Ok::<
                    usize,
                    Errno,
                >(signal as usize) && after == m.store(info as int, bytes)
                &&& info != 0 && !m.can_write(info as int, bytes.len() as int) ==> result == Err::<
                    usize,
                    Errno,
                >(Errno::EFAULT) && after == m
            }
        }),
{
}

/// The pending set is told byte for byte: a program that asks for all of it
/// reads the set back.
pub proof fn law_the_pending_set_is_told(m: Memory, set: u64, at: u64, sigsetsize: u64)
    requires
        m.valid(),
    ensures
        ({
            let (after, result) = spec_sigpending(m, set, at, sigsetsize);
            &&& sigsetsize > 8 ==> result == Err::<usize, Errno>(Errno::EINVAL) && after == m
            &&& sigsetsize <= 8 && m.can_write(at as int, sigsetsize as int) ==> result == Ok::<
                usize,
                Errno,
            >(0)
            &&& sigsetsize == 8 && result is Ok ==> after.number(at as int, 8) == set
            &&& result matches Err(e) ==> after == m && (sigsetsize <= 8 ==> e == Errno::EFAULT)
        }),
{
    lemma_le_bytes_len(set as nat, sigsetsize as nat);
    if sigsetsize == 8 && m.can_write(at as int, 8) {
        crate::bytes::lemma_byte_spans();
        crate::bytes::lemma_le_round_trip(set as nat, 8);
        assert(m.can_read(at as int, 8)) by {
            assert forall|a: int| at <= a < at + 8 implies #[trigger] m.bytes.dom().contains(a) by {
                assert(m.writable.contains(a));
            }
        }
        crate::uaccess::lemma_read_after_store(
            m,
            at as int,
            le_bytes(set as nat, 8),
            at as int,
            8,
        );
    }
}

/// What a taken signal asks for, whatever it does by default: its handler is
/// entered if it has one.
pub proof fn law_a_taken_signal_asks_for_its_handler(taken: Taken, what: Act, runs: bool)
    requires
        call_ensures(act, (&taken,), what),
        call_ensures(runs_a_handler, (&taken,), runs),
    ensures
        what == Act::Handle <==> taken.handler != 0 && taken.handler != 1,
        runs <==> taken.handler != 0 && taken.handler != 1,
        taken.handler == 1 ==> what == Act::Nothing,
        taken.handler == 0 && (taken.default == DefaultAction::Ignore || taken.default
            == DefaultAction::Continue) ==> what == Act::Nothing,
{
}

/// A handler's frame holds what its signal came with, and is built only for a
/// handler in the user half; a process that cannot have one ends as a bad
/// memory access ends it.
pub proof fn law_a_frame_holds_what_the_signal_came_with(
    taken: Taken,
    info: Vec<u8>,
    mask: u64,
    stack: u64,
    altstack: StackRecord,
    user_end: u64,
    request: Result<FrameRequest, BadFrame>,
)
    requires
        call_ensures(run_handler, (&taken, info, mask, stack, altstack, user_end), request),
    ensures
        request is Ok <==> taken.handler < user_end,
        request matches Ok(r) ==> r.signal == taken.signal && r.info@ == info@ && r.handler
            == taken.handler && r.flags == taken.flags && r.restorer == taken.restorer && r.mask
            == mask && r.stack == stack && r.altstack == altstack,
{
}

/// A frame that was entered leaves nothing to do, and one that could not be
/// ends the process with 139.
pub proof fn law_a_process_without_a_frame_ends(frame: Result<(), BadFrame>, what: Act)
    requires
        call_ensures(entered, (frame,), what),
    ensures
        frame is Ok <==> what == Act::Nothing,
        frame is Err <==> what == Act::Kill(139),
{
}

/// Returning from a handler puts back what its frame saved, or ends the
/// process.
pub proof fn law_a_return_puts_back_what_was_saved(
    restored: Result<Restored, BadFrame>,
    sp: u64,
    left: Left,
)
    requires
        call_ensures(sigreturn, (restored, sp), left),
    ensures
        restored matches Ok(frame) ==> left == (Left::Resume {
            mask: frame.mask,
            altstack: frame.altstack,
            sp,
        }),
        restored is Err ==> left == Left::Kill(139),
{
}

/// A fault ends the process with 128 and its signal exactly if that is fatal.
pub proof fn law_a_fatal_fault_ends_the_process(
    signal: u32,
    posted: Option<Posted>,
    answer: (Option<Posted>, Option<i32>),
)
    requires
        1 <= signal <= 64,
        call_ensures(force, (signal, posted), answer),
    ensures
        answer.0 == posted,
        answer.1 is Some <==> posted == Some(Posted::Fatal),
        answer.1 matches Some(status) ==> status == 128 + signal,
{
}

/// A program that goes back to its own code is looked after exactly if it has
/// ended, is stopped, or has a signal; a task that is no program's never is.
pub proof fn law_only_a_program_is_looked_after(task: Option<Attention>, yes: bool)
    requires
        call_ensures(needs_attention, (task,), yes),
    ensures
        task is None ==> !yes,
        task matches Some(found) ==> (yes <==> found.terminated || found.stopped || found.signals),
{
}

/// A wait for a signal is over exactly if one is there, what else was waited
/// for is, or the time has come; and it never ends a moment before.
pub proof fn law_a_wait_ends_for_a_reason(
    pending: bool,
    also: bool,
    now: u64,
    deadline: u64,
    over: bool,
)
    requires
        call_ensures(wait_for_signal, (pending, also, now, deadline), over),
    ensures
        over <==> pending || also || deadline <= now,
{
}

/// `pause` answers only that it was interrupted, and only once a signal is
/// there.
pub proof fn law_a_pause_ends_with_a_signal(pending: bool, now: u64, look: Look)
    requires
        call_ensures(sys_pause, (pending, now), look),
        now < u64::MAX,
    ensures
        pending ==> look == Look::Answer(Err(Errno::EINTR)),
        !pending ==> look == Look::Sleep(u64::MAX),
{
}

/// A way back to a program rewinds a call only if that call was recorded, and
/// left one of the four restart requests.
pub proof fn law_only_a_recorded_call_is_rewound(
    recorded: Option<Restart>,
    result: i64,
    delivery: Delivery,
)
    requires
        call_ensures(return_to_user, (recorded, result), delivery),
    ensures
        delivery.restart is Some <==> recorded is Some && (result == -512 || result == -513
            || result == -514 || result == -516),
        delivery.restart matches Some((call, kind)) ==> recorded == Some(call),
        delivery.rounds == 65,
{
}

/// A number in a frame is there if its last byte is, and is worth its bytes.
pub proof fn law_a_frames_number_is_inside_it(bytes: Seq<u8>, at: int)
    requires
        0 <= at,
    ensures
        spec_number_at(bytes, at, 4) is Ok <==> at + 3 < bytes.len(),
        spec_number_at(bytes, at, 8) is Ok <==> at + 7 < bytes.len(),
        spec_number_at(bytes, at, 4) matches Ok(v) ==> v == bytes[at] + 256 * bytes[at + 1]
            + 65_536 * bytes[at + 2] + 16_777_216 * bytes[at + 3],
{
    if at + 3 < bytes.len() {
        crate::bytes::law_bytes_are_worth_their_place(
            bytes[at],
            bytes[at + 1],
            bytes[at + 2],
            bytes[at + 3],
        );
        assert(bytes.subrange(at, at + 4) =~= seq![
            bytes[at],
            bytes[at + 1],
            bytes[at + 2],
            bytes[at + 3],
        ]);
    }
}

} // verus!
