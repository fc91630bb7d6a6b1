//! `read` and `write`, and the calls that are those with a position or with
//! several buffers: `pread64`, `pwrite64`, `readv` and `writev`.
//!
//! What a file does with a request is the file's own business: a [`Backend`].
//! What is decided here is everything between it and the program: how a
//! transfer is cut into pieces of at most a page, when it stops, what count or
//! error the program is told, and what is given back when bytes a file handed
//! over could not be delivered. Each contract says exactly which requests the
//! file is sent and what is made of each reply, whatever the replies are.

use vstd::prelude::*;

use crate::abi::Arch;
use crate::errno::Errno;
use crate::fd::{named, FdTable, OpenFile};
use crate::uaccess::{AddressSpace, Memory};

verus! {

/// The most one piece of a transfer carries: a page.
pub const CHUNK: u64 = 4096;

/// The most segments one `readv` or `writev` may carry.
pub const IOV_MAX: u64 = 1024;

/// The most one call transfers. Larger requests are clamped rather than
/// refused.
pub const MAX_RW_COUNT: u64 = 0x7FFF_F000;

/// What a seek is measured from.
#[derive(Clone, Copy, Debug, PartialEq, Eq, Structural)]
pub enum Whence {
    /// The start.
    Start,
    /// The offset.
    Current,
    /// The end.
    End,
    /// The next data.
    Data,
    /// The next hole.
    Hole,
}

/// Where a transfer reads or writes.
#[derive(Clone, Copy, Debug, PartialEq, Eq, Structural)]
pub enum Position {
    /// At the description's offset, moving it.
    Current,
    /// At this offset, leaving the description's alone.
    At(u64),
}

/// A request a file was sent, and its reply.
#[allow(inconsistent_fields)]
pub ghost enum Event {
    /// Up to `want` bytes, at an offset or at the description's own.
    Read { at: Option<u64>, want: nat, reply: Result<Seq<u8>, Errno> },
    /// `data`, at an offset or at the description's own.
    Write { at: Option<u64>, data: Seq<u8>, reply: Result<nat, Errno> },
    /// Move the description's offset.
    Seek { offset: i64, whence: Whence, reply: Result<u64, Errno> },
    /// Bytes of a stream that could not be delivered, handed back.
    Unread { data: Seq<u8> },
    /// A new length.
    SetLen { len: u64, reply: Result<(), Errno> },
    /// At least this length.
    GrowTo { len: u64, reply: Result<(), Errno> },
    /// Write what is held back out.
    Sync { data_only: bool, reply: Result<(), Errno> },
    /// Whether writes go to the end, and whether calls wait.
    SetStatus { append: bool, nonblock: bool },
}

/// The bytes of a reply.
pub open spec fn bytes_of(reply: Result<Vec<u8>, Errno>) -> Result<Seq<u8>, Errno> {
    match reply {
        Ok(bytes) => Ok(bytes@),
        Err(e) => Err(e),
    }
}

/// The count of a reply.
pub open spec fn count_of(reply: Result<usize, Errno>) -> Result<nat, Errno> {
    match reply {
        Ok(n) => Ok(n as nat),
        Err(e) => Err(e),
    }
}

/// An open file, as something to send requests to.
///
/// A file may reply as it likes, and remembers what it was asked.
pub trait Backend: Sized {
    /// Every request so far, oldest first.
    spec fn log(&self) -> Seq<Event>;

    /// Whether the file is a stream.
    spec fn stream(&self) -> bool;

    /// Whether the file takes offsets.
    spec fn offsets(&self) -> bool;

    /// Whether the file is a stream: a pipe, a terminal. What has been read
    /// from one is gone from it.
    fn is_stream(&self) -> (yes: bool)
        ensures
            yes == self.stream(),
    ;

    /// Whether the file can be read and written at an offset.
    fn takes_offsets(&self) -> (yes: bool)
        ensures
            yes == self.offsets(),
    ;

    /// Up to `want` bytes, at `at` or at the description's own offset, which
    /// then moves past them.
    fn read(&mut self, at: Option<u64>, want: usize) -> (reply: Result<Vec<u8>, Errno>)
        ensures
            final(self).log() == old(self).log().push(
                Event::Read { at, want: want as nat, reply: bytes_of(reply) },
            ),
            final(self).stream() == old(self).stream(),
            final(self).offsets() == old(self).offsets(),
    ;

    /// Write `data` at `at`, or at the description's own offset, which then
    /// moves past it. Answers how much went, which is never more than there
    /// was.
    fn write(&mut self, at: Option<u64>, data: &[u8]) -> (reply: Result<usize, Errno>)
        ensures
            reply matches Ok(n) ==> n <= data@.len(),
            final(self).log() == old(self).log().push(
                Event::Write { at, data: data@, reply: count_of(reply) },
            ),
            final(self).stream() == old(self).stream(),
            final(self).offsets() == old(self).offsets(),
    ;

    /// Move the description's offset.
    fn seek(&mut self, offset: i64, whence: Whence) -> (reply: Result<u64, Errno>)
        ensures
            final(self).log() == old(self).log().push(Event::Seek { offset, whence, reply }),
            final(self).stream() == old(self).stream(),
            final(self).offsets() == old(self).offsets(),
    ;

    /// Take back bytes a read of a stream took but could not deliver. A stream
    /// that cannot, as a terminal cannot, lets them go.
    fn unread_stream(&mut self, data: &[u8])
        ensures
            final(self).log() == old(self).log().push(Event::Unread { data: data@ }),
            final(self).stream() == old(self).stream(),
            final(self).offsets() == old(self).offsets(),
    ;

    /// Set the file's length.
    fn set_len(&mut self, len: u64) -> (reply: Result<(), Errno>)
        ensures
            final(self).log() == old(self).log().push(Event::SetLen { len, reply }),
            final(self).stream() == old(self).stream(),
            final(self).offsets() == old(self).offsets(),
    ;

    /// Make the file at least `len` long.
    fn grow_to(&mut self, len: u64) -> (reply: Result<(), Errno>)
        ensures
            final(self).log() == old(self).log().push(Event::GrowTo { len, reply }),
            final(self).stream() == old(self).stream(),
            final(self).offsets() == old(self).offsets(),
    ;

    /// Write what is held back out.
    fn sync(&mut self, data_only: bool) -> (reply: Result<(), Errno>)
        ensures
            final(self).log() == old(self).log().push(Event::Sync { data_only, reply }),
            final(self).stream() == old(self).stream(),
            final(self).offsets() == old(self).offsets(),
    ;

    /// From now on, write at the end or not, and wait or not.
    fn set_status(&mut self, append: bool, nonblock: bool)
        ensures
            final(self).log() == old(self).log().push(Event::SetStatus { append, nonblock }),
            final(self).stream() == old(self).stream(),
            final(self).offsets() == old(self).offsets(),
    ;
}

/// The smaller of two numbers.
pub open spec fn min_int(a: int, b: int) -> int {
    if a < b {
        a
    } else {
        b
    }
}

fn min_u64(a: u64, b: u64) -> (out: u64)
    ensures
        out == min_int(a as int, b as int),
{
    if a < b {
        a
    } else {
        b
    }
}

/// Where the piece of a transfer after `done` bytes goes; an offset past the
/// largest number is `EINVAL`.
pub open spec fn piece_at(position: Position, done: int) -> Result<Option<u64>, Errno> {
    match position {
        Position::Current => Ok(None),
        Position::At(offset) => if offset + done <= u64::MAX {
            Ok(Some((offset + done) as u64))
        } else {
            Err(Errno::EINVAL)
        },
    }
}

fn next_at(position: Position, done: u64) -> (at: Result<Option<u64>, Errno>)
    ensures
        at == piece_at(position, done as int),
{
    match position {
        Position::Current => Ok(None),
        Position::At(offset) => match offset.checked_add(done) {
            Some(at) => Ok(Some(at)),
            None => Err(Errno::EINVAL),
        },
    }
}

/// What a transfer that fails part-way reports: what it did, or the error if
/// it did nothing.
pub open spec fn give_up(done: int, e: Errno) -> Result<u64, Errno> {
    if done > 0 {
        Ok(done as u64)
    } else {
        Err(e)
    }
}

/// What a file is told when bytes it handed over could not be delivered: a
/// stream takes them back, and a read at the offset moves the offset back.
pub open spec fn undone(
    events: Seq<Event>,
    stream: bool,
    position: Position,
    data: Seq<u8>,
) -> bool {
    let first: int = if stream {
        1
    } else {
        0
    };
    &&& stream ==> events.len() > 0 && events[0] == (Event::Unread { data })
    &&& if position == Position::Current && data.len() > 0 {
        &&& events.len() == first + 1
        &&& events[first] matches Event::Seek { offset, whence, .. }
        &&& offset == -data.len()
        &&& whence == Whence::Current
    } else {
        events.len() == first
    }
}

/// Whether `events` are the requests a read of `len` bytes into `buf` sends
/// once `done` bytes have arrived, and `result` and `after` what comes of the
/// replies.
pub open spec fn read_trace(
    events: Seq<Event>,
    m: Memory,
    buf: int,
    len: int,
    done: int,
    stream: bool,
    position: Position,
    result: Result<u64, Errno>,
    after: Memory,
) -> bool
    decreases events.len(),
{
    if done >= len {
        events.len() == 0 && result == Ok::<u64, Errno>(done as u64) && after == m
    } else {
        match piece_at(position, done) {
            Err(e) => events.len() == 0 && result == give_up(done, e) && after == m,
            Ok(place) => events.len() > 0 && match events[0] {
                Event::Read { at, want, reply } => {
                    &&& at == place
                    &&& want == min_int(len - done, CHUNK as int)
                    &&& match reply {
                        Err(e) => events.len() == 1 && result == give_up(done, e) && after == m,
                        Ok(data) => if data.len() > want {
                            events.len() == 1 && result == Err::<u64, Errno>(Errno::EIO) && after
                                == m
                        } else if buf + done > u64::MAX {
                            events.len() == 1 && result == Err::<u64, Errno>(Errno::EFAULT)
                                && after == m
                        } else if !m.can_write(buf + done, data.len() as int) {
                            undone(events.skip(1), stream, position, data) && result == give_up(
                                done,
                                Errno::EFAULT,
                            ) && after == m
                        } else if data.len() < want || stream {
                            events.len() == 1 && result == Ok::<u64, Errno>(
                                (done + data.len()) as u64,
                            ) && after == m.store(buf + done, data)
                        } else {
                            read_trace(
                                events.skip(1),
                                m.store(buf + done, data),
                                buf,
                                len,
                                done + data.len(),
                                stream,
                                position,
                                result,
                                after,
                            )
                        },
                    }
                },
                _ => false,
            },
        }
    }
}

/// Whether `events` are the requests [`read_into`] sends, and `result` and
/// `after` what comes of the replies. A read of nothing is still asked of the
/// file.
pub open spec fn read_done(
    events: Seq<Event>,
    m: Memory,
    buf: int,
    len: int,
    stream: bool,
    position: Position,
    result: Result<u64, Errno>,
    after: Memory,
) -> bool {
    if len == 0 {
        &&& after == m
        &&& events.len() == 1
        &&& events[0] matches Event::Read { at, want, reply }
        &&& want == 0
        &&& at == (match position {
            Position::Current => None,
            Position::At(offset) => Some(offset),
        })
        &&& result == match reply {
            Ok(_) => Ok(0u64),
            Err(e) => Err(e),
        }
    } else {
        read_trace(
            events,
            m,
            buf,
            min_int(len, MAX_RW_COUNT as int),
            0,
            stream,
            position,
            result,
            after,
        )
    }
}

/// What a file was asked since it had been asked `before`.
pub open spec fn since(log: Seq<Event>, before: Seq<Event>) -> Seq<Event> {
    log.skip(before.len() as int)
}

/// A log is what it was, and then what came since.
proof fn lemma_since(log: Seq<Event>, before: Seq<Event>)
    requires
        before.is_prefix_of(log),
    ensures
        log == before + since(log, before),
{
    assert(log =~= before + since(log, before));
}

/// A read that has come as far as `done` carries on as the whole read would.
#[verifier::opaque]
spec fn carries_on(
    prefix: Seq<Event>,
    m0: Memory,
    m: Memory,
    buf: int,
    len: int,
    done: int,
    stream: bool,
    position: Position,
) -> bool {
    forall|rest: Seq<Event>, result: Result<u64, Errno>, after: Memory| #[trigger]
        read_trace(rest, m, buf, len, done, stream, position, result, after) ==> read_trace(
            prefix + rest,
            m0,
            buf,
            len,
            0,
            stream,
            position,
            result,
            after,
        )
}

proof fn lemma_read_carries_on(
    prefix: Seq<Event>,
    event: Event,
    m0: Memory,
    m: Memory,
    buf: int,
    len: int,
    done: int,
    stream: bool,
    position: Position,
    data: Seq<u8>,
)
    requires
        carries_on(prefix, m0, m, buf, len, done, stream, position),
        0 <= done < len,
        piece_at(position, done) is Ok,
        event == (Event::Read {
            at: piece_at(position, done)->Ok_0,
            want: min_int(len - done, CHUNK as int) as nat,
            reply: Ok(data),
        }),
        data.len() == min_int(len - done, CHUNK as int),
        buf + done <= u64::MAX,
        m.can_write(buf + done, data.len() as int),
        !stream,
    ensures
        carries_on(
            prefix.push(event),
            m0,
            m.store(buf + done, data),
            buf,
            len,
            done + data.len(),
            stream,
            position,
        ),
{
    reveal(carries_on);
    assert forall|rest: Seq<Event>, result: Result<u64, Errno>, after: Memory| #[trigger]
        read_trace(
            rest,
            m.store(buf + done, data),
            buf,
            len,
            done + data.len(),
            stream,
            position,
            result,
            after,
        ) implies read_trace(
        prefix.push(event) + rest,
        m0,
        buf,
        len,
        0,
        stream,
        position,
        result,
        after,
    ) by {
        let longer = seq![event] + rest;
        assert(longer.skip(1) =~= rest);
        assert(longer[0] == event);
        assert(read_trace(longer, m, buf, len, done, stream, position, result, after));
        assert(prefix + longer =~= prefix.push(event) + rest);
    }
}

proof fn lemma_read_begins(m: Memory, buf: int, len: int, stream: bool, position: Position)
    ensures
        carries_on(Seq::empty(), m, m, buf, len, 0, stream, position),
{
    reveal(carries_on);
    assert forall|rest: Seq<Event>| #[trigger] (Seq::<Event>::empty() + rest) == rest by {
        assert(Seq::<Event>::empty() + rest =~= rest);
    }
}

proof fn lemma_read_ends(
    prefix: Seq<Event>,
    m0: Memory,
    m: Memory,
    buf: int,
    len: int,
    done: int,
    stream: bool,
    position: Position,
    rest: Seq<Event>,
    result: Result<u64, Errno>,
    after: Memory,
)
    requires
        carries_on(prefix, m0, m, buf, len, done, stream, position),
        read_trace(rest, m, buf, len, done, stream, position, result, after),
    ensures
        read_trace(prefix + rest, m0, buf, len, 0, stream, position, result, after),
{
    reveal(carries_on);
}

/// Move the offset back over bytes a read took but could not deliver. Only
/// for a read at the current offset.
pub fn unread<B: Backend>(file: &mut B, position: Position, got: usize)
    requires
        got <= CHUNK,
    ensures
        final(file).stream() == old(file).stream(),
        final(file).offsets() == old(file).offsets(),
        if position == Position::Current && got > 0 {
            &&& final(file).log().len() == old(file).log().len() + 1
            &&& final(file).log().take(old(file).log().len() as int) == old(file).log()
            &&& final(file).log().last() matches Event::Seek { offset, whence, .. }
            &&& offset == -got
            &&& whence == Whence::Current
        } else {
            *final(file) == *old(file)
        },
{
    if position != Position::Current || got == 0 {
        return ;
    }
    let back: i64 = got as i64;
    let _ = file.seek(-back, Whence::Current);
    proof {
        assert(file.log().take(old(file).log().len() as int) =~= old(file).log());
    }
}

/// Give back bytes a read took but could not deliver.
fn take_back<B: Backend>(file: &mut B, stream: bool, position: Position, data: &[u8])
    requires
        data@.len() <= CHUNK,
    ensures
        old(file).log().is_prefix_of(final(file).log()),
        final(file).stream() == old(file).stream(),
        final(file).offsets() == old(file).offsets(),
        undone(since(final(file).log(), old(file).log()), stream, position, data@),
{
    let ghost log = file.log();
    if stream {
        file.unread_stream(data);
    }
    let ghost middle = file.log();
    unread(file, position, data.len());
    proof {
        let tail = since(file.log(), log);
        if position == Position::Current && data@.len() > 0 {
            assert(file.log() =~= middle.push(file.log().last())) by {
                assert(file.log().take(middle.len() as int) =~= middle);
                assert(file.log() =~= file.log().take(middle.len() as int).push(file.log().last()));
            }
        }
        if stream {
            assert(tail[0] == Event::Unread { data: data@ });
        }
    }
}

/// Read from `file` into the program's `[buf, buf + len)`, reporting how much
/// arrived.
pub fn read_into<B: Backend>(
    space: &mut AddressSpace,
    file: &mut B,
    buf: u64,
    len: u64,
    position: Position,
) -> (result: Result<u64, Errno>)
    requires
        old(space).wf(),
    ensures
        final(space).wf(),
        final(space).same_layout(*old(space)),
        old(file).log().is_prefix_of(final(file).log()),
        final(file).stream() == old(file).stream(),
        final(file).offsets() == old(file).offsets(),
        read_done(
            since(final(file).log(), old(file).log()),
            old(space)@,
            buf as int,
            len as int,
            old(file).stream(),
            position,
            result,
            final(space)@,
        ),
        result matches Ok(n) ==> n <= len && n <= MAX_RW_COUNT,
{
    let ghost log0 = file.log();
    let ghost m0 = space@;
    if len == 0 {
        let at = match position {
            Position::Current => None,
            Position::At(offset) => Some(offset),
        };
        let reply = file.read(at, 0);
        proof {
            assert(since(file.log(), log0) =~= seq![
                Event::Read { at, want: 0, reply: bytes_of(reply) },
            ]);
        }
        return match reply {
            Ok(_) => Ok(0),
            Err(e) => Err(e),
        };
    }
    let most: u64 = min_u64(len, MAX_RW_COUNT);
    let stream = file.is_stream();
    let mut done: u64 = 0;
    let ghost mut prefix: Seq<Event> = Seq::empty();
    proof {
        lemma_read_begins(m0, buf as int, most as int, stream, position);
        assert(log0 + prefix =~= log0);
    }
    while done < most
        invariant
            space.wf(),
            space.same_layout(*old(space)),
            most == min_int(len as int, MAX_RW_COUNT as int),
            len > 0,
            done <= most,
            stream == file.stream(),
            file.stream() == old(file).stream(),
            file.offsets() == old(file).offsets(),
            log0 == old(file).log(),
            m0 == old(space)@,
            file.log() == log0 + prefix,
            carries_on(
                prefix,
                m0,
                space@,
                buf as int,
                most as int,
                done as int,
                stream,
                position,
            ),
        decreases most - done,
    {
        let ghost m = space@;
        let ghost log = file.log();
        let at = match next_at(position, done) {
            Ok(at) => at,
            Err(e) => {
                let result = if done > 0 {
                    Ok(done)
                } else {
                    Err(e)
                };
                proof {
                    let rest = Seq::<Event>::empty();
                    lemma_read_ends(
                        prefix,
                        m0,
                        m,
                        buf as int,
                        most as int,
                        done as int,
                        stream,
                        position,
                        rest,
                        result,
                        m,
                    );
                    assert(since(file.log(), log0) =~= prefix + rest);
                }
                return result;
            },
        };
        let want: u64 = min_u64(most - done, CHUNK);
        let reply = file.read(at, want as usize);
        let ghost event = Event::Read { at, want: want as nat, reply: bytes_of(reply) };
        let data = match reply {
            Ok(data) => data,
            Err(e) => {
                let result = if done > 0 {
                    Ok(done)
                } else {
                    Err(e)
                };
                proof {
                    let rest = seq![event];
                    lemma_read_ends(
                        prefix,
                        m0,
                        m,
                        buf as int,
                        most as int,
                        done as int,
                        stream,
                        position,
                        rest,
                        result,
                        m,
                    );
                    assert(since(file.log(), log0) =~= prefix + rest);
                }
                return result;
            },
        };
        let got: usize = data.len();
        if got > want as usize || done > u64::MAX - buf {
            let result: Result<u64, Errno> = if got > want as usize {
                Err(Errno::EIO)
            } else {
                Err(Errno::EFAULT)
            };
            proof {
                let rest = seq![event];
                lemma_read_ends(
                    prefix,
                    m0,
                    m,
                    buf as int,
                    most as int,
                    done as int,
                    stream,
                    position,
                    rest,
                    result,
                    m,
                );
                assert(since(file.log(), log0) =~= prefix + rest);
            }
            return result;
        }
        let outcome = space.copy_to_user(buf + done, data.as_slice());
        if outcome.is_err() {
            let ghost asked = file.log();
            take_back(file, stream, position, data.as_slice());
            let result = if done > 0 {
                Ok(done)
            } else {
                Err(Errno::EFAULT)
            };
            proof {
                let tail = since(file.log(), asked);
                let rest = seq![event] + tail;
                assert(rest.skip(1) =~= tail);
                lemma_read_ends(
                    prefix,
                    m0,
                    m,
                    buf as int,
                    most as int,
                    done as int,
                    stream,
                    position,
                    rest,
                    result,
                    m,
                );
                assert(file.log() =~= asked + tail);
                assert(since(file.log(), log0) =~= prefix + rest);
                assert(file.log() =~= log0 + (prefix + rest));
            }
            return result;
        }
        if got < want as usize || stream {
            let result = Ok(done + got as u64);
            proof {
                let rest = seq![event];
                lemma_read_ends(
                    prefix,
                    m0,
                    m,
                    buf as int,
                    most as int,
                    done as int,
                    stream,
                    position,
                    rest,
                    result,
                    space@,
                );
                assert(since(file.log(), log0) =~= prefix + rest);
            }
            return result;
        }
        proof {
            lemma_read_carries_on(
                prefix,
                event,
                m0,
                m,
                buf as int,
                most as int,
                done as int,
                stream,
                position,
                data@,
            );
            assert(file.log() =~= log0 + prefix.push(event));
            prefix = prefix.push(event);
        }
        done = done + got as u64;
    }
    proof {
        let rest = Seq::<Event>::empty();
        lemma_read_ends(
            prefix,
            m0,
            space@,
            buf as int,
            most as int,
            done as int,
            stream,
            position,
            rest,
            Ok(done),
            space@,
        );
        assert(since(file.log(), log0) =~= prefix + rest);
    }
    Ok(done)
}

/// Whether `events` are the requests a write of `len` bytes from `buf` sends
/// once `done` bytes have gone, and `result` what comes of the replies.
pub open spec fn write_trace(
    events: Seq<Event>,
    m: Memory,
    buf: int,
    len: int,
    done: int,
    position: Position,
    result: Result<u64, Errno>,
) -> bool
    decreases events.len(),
{
    let want = min_int(len - done, CHUNK as int);
    if done >= len {
        events.len() == 0 && result == Ok::<u64, Errno>(done as u64)
    } else if buf + done > u64::MAX {
        events.len() == 0 && result == Err::<u64, Errno>(Errno::EFAULT)
    } else if !m.can_read(buf + done, want) {
        events.len() == 0 && result == give_up(done, Errno::EFAULT)
    } else {
        match piece_at(position, done) {
            Err(e) => events.len() == 0 && result == give_up(done, e),
            Ok(place) => events.len() > 0 && match events[0] {
                Event::Write { at, data, reply } => {
                    &&& at == place
                    &&& data == m.read(buf + done, want as nat)
                    &&& match reply {
                        Err(e) => events.len() == 1 && result == give_up(done, e),
                        Ok(wrote) => if wrote < want {
                            events.len() == 1 && result == Ok::<u64, Errno>((done + wrote) as u64)
                        } else {
                            write_trace(
                                events.skip(1),
                                m,
                                buf,
                                len,
                                done + wrote,
                                position,
                                result,
                            )
                        },
                    }
                },
                _ => false,
            },
        }
    }
}

/// What a write of nothing answers: the checks a real write makes, and no
/// request to the file.
pub open spec fn spec_empty_write(writable: bool, offsets: bool, position: Position) -> Result<
    u64,
    Errno,
> {
    if !writable {
        Err(Errno::EBADF)
    } else if position is At && !offsets {
        Err(Errno::ESPIPE)
    } else {
        Ok(0)
    }
}

/// Whether `events` are the requests [`write_from`] sends, and `result` what
/// comes of the replies.
pub open spec fn write_done(
    events: Seq<Event>,
    m: Memory,
    buf: int,
    len: int,
    writable: bool,
    offsets: bool,
    position: Position,
    result: Result<u64, Errno>,
) -> bool {
    if len == 0 {
        events.len() == 0 && result == spec_empty_write(writable, offsets, position)
    } else {
        write_trace(events, m, buf, min_int(len, MAX_RW_COUNT as int), 0, position, result)
    }
}

#[verifier::opaque]
spec fn write_carries_on(
    prefix: Seq<Event>,
    m: Memory,
    buf: int,
    len: int,
    done: int,
    position: Position,
) -> bool {
    forall|rest: Seq<Event>, result: Result<u64, Errno>| #[trigger]
        write_trace(rest, m, buf, len, done, position, result) ==> write_trace(
            prefix + rest,
            m,
            buf,
            len,
            0,
            position,
            result,
        )
}

proof fn lemma_write_carries_on(
    prefix: Seq<Event>,
    event: Event,
    m: Memory,
    buf: int,
    len: int,
    done: int,
    position: Position,
)
    requires
        write_carries_on(prefix, m, buf, len, done, position),
        0 <= done < len,
        piece_at(position, done) is Ok,
        buf + done <= u64::MAX,
        ({
            let want = min_int(len - done, CHUNK as int);
            &&& m.can_read(buf + done, want)
            &&& event == (Event::Write {
                at: piece_at(position, done)->Ok_0,
                data: m.read(buf + done, want as nat),
                reply: Ok(want as nat),
            })
        }),
    ensures
        write_carries_on(
            prefix.push(event),
            m,
            buf,
            len,
            done + min_int(len - done, CHUNK as int),
            position,
        ),
{
    reveal(write_carries_on);
    let now = done + min_int(len - done, CHUNK as int);
    assert forall|rest: Seq<Event>, result: Result<u64, Errno>| #[trigger]
        write_trace(rest, m, buf, len, now, position, result) implies write_trace(
        prefix.push(event) + rest,
        m,
        buf,
        len,
        0,
        position,
        result,
    ) by {
        let longer = seq![event] + rest;
        assert(longer.skip(1) =~= rest);
        assert(longer[0] == event);
        assert(write_trace(longer, m, buf, len, done, position, result));
        assert(prefix + longer =~= prefix.push(event) + rest);
    }
}

proof fn lemma_write_begins(m: Memory, buf: int, len: int, position: Position)
    ensures
        write_carries_on(Seq::empty(), m, buf, len, 0, position),
{
    reveal(write_carries_on);
    assert forall|rest: Seq<Event>| #[trigger] (Seq::<Event>::empty() + rest) == rest by {
        assert(Seq::<Event>::empty() + rest =~= rest);
    }
}

proof fn lemma_write_ends(
    prefix: Seq<Event>,
    m: Memory,
    buf: int,
    len: int,
    done: int,
    position: Position,
    rest: Seq<Event>,
    result: Result<u64, Errno>,
)
    requires
        write_carries_on(prefix, m, buf, len, done, position),
        write_trace(rest, m, buf, len, done, position, result),
    ensures
        write_trace(prefix + rest, m, buf, len, 0, position, result),
{
    reveal(write_carries_on);
}

/// A write of nothing: the checks a real write makes, and no call into the
/// file, because under `O_APPEND` even an empty write would move the offset.
pub fn empty_write<B: Backend>(file: &B, writable: bool, position: Position) -> (result: Result<
    u64,
    Errno,
>)
    ensures
        result == spec_empty_write(writable, file.offsets(), position),
{
    if !writable {
        return Err(Errno::EBADF);
    }
    if let Position::At(_) = position {
        if !file.takes_offsets() {
            return Err(Errno::ESPIPE);
        }
    }
    Ok(0)
}

/// Write the program's `[buf, buf + len)` to `file`, which is open for writing
/// if `writable`, reporting how much went.
pub fn write_from<B: Backend>(
    space: &AddressSpace,
    file: &mut B,
    writable: bool,
    buf: u64,
    len: u64,
    position: Position,
) -> (result: Result<u64, Errno>)
    requires
        space.wf(),
    ensures
        old(file).log().is_prefix_of(final(file).log()),
        final(file).stream() == old(file).stream(),
        final(file).offsets() == old(file).offsets(),
        write_done(
            since(final(file).log(), old(file).log()),
            space@,
            buf as int,
            len as int,
            writable,
            old(file).offsets(),
            position,
            result,
        ),
        result matches Ok(n) ==> n <= len && n <= MAX_RW_COUNT,
{
    let ghost log0 = file.log();
    if len == 0 {
        proof {
            assert(since(file.log(), log0) =~= Seq::<Event>::empty());
        }
        return empty_write(file, writable, position);
    }
    let most: u64 = min_u64(len, MAX_RW_COUNT);
    let mut done: u64 = 0;
    let ghost mut prefix: Seq<Event> = Seq::empty();
    proof {
        lemma_write_begins(space@, buf as int, most as int, position);
        assert(log0 + prefix =~= log0);
    }
    while done < most
        invariant
            space.wf(),
            most == min_int(len as int, MAX_RW_COUNT as int),
            len > 0,
            done <= most,
            file.stream() == old(file).stream(),
            file.offsets() == old(file).offsets(),
            log0 == old(file).log(),
            file.log() == log0 + prefix,
            write_carries_on(
                prefix,
                space@,
                buf as int,
                most as int,
                done as int,
                position,
            ),
        decreases most - done,
    {
        let want: u64 = min_u64(most - done, CHUNK);
        let ghost none = Seq::<Event>::empty();
        if done > u64::MAX - buf {
            proof {
                let result = Err::<u64, Errno>(Errno::EFAULT);
                lemma_write_ends(
                    prefix,
                    space@,
                    buf as int,
                    most as int,
                    done as int,
                    position,
                    none,
                    result,
                );
                assert(since(file.log(), log0) =~= prefix + none);
            }
            return Err(Errno::EFAULT);
        }
        let copied = space.copy_from_user(buf + done, want as usize);
        let data = match copied {
            Ok(data) => data,
            Err(e) => {
                let result = if done > 0 {
                    Ok(done)
                } else {
                    Err(e)
                };
                proof {
                    lemma_write_ends(
                        prefix,
                        space@,
                        buf as int,
                        most as int,
                        done as int,
                        position,
                        none,
                        result,
                    );
                    assert(since(file.log(), log0) =~= prefix + none);
                }
                return result;
            },
        };
        let at = match next_at(position, done) {
            Ok(at) => at,
            Err(e) => {
                let result = if done > 0 {
                    Ok(done)
                } else {
                    Err(e)
                };
                proof {
                    lemma_write_ends(
                        prefix,
                        space@,
                        buf as int,
                        most as int,
                        done as int,
                        position,
                        none,
                        result,
                    );
                    assert(since(file.log(), log0) =~= prefix + none);
                }
                return result;
            },
        };
        let reply = file.write(at, data.as_slice());
        let ghost event = Event::Write { at, data: data@, reply: count_of(reply) };
        let ghost rest = seq![event];
        let wrote: usize = match reply {
            Ok(wrote) => wrote,
            Err(e) => {
                let result = if done > 0 {
                    Ok(done)
                } else {
                    Err(e)
                };
                proof {
                    lemma_write_ends(
                        prefix,
                        space@,
                        buf as int,
                        most as int,
                        done as int,
                        position,
                        rest,
                        result,
                    );
                    assert(since(file.log(), log0) =~= prefix + rest);
                }
                return result;
            },
        };
        if wrote < want as usize {
            let result = Ok(done + wrote as u64);
            proof {
                lemma_write_ends(
                    prefix,
                    space@,
                    buf as int,
                    most as int,
                    done as int,
                    position,
                    rest,
                    result,
                );
                assert(since(file.log(), log0) =~= prefix + rest);
            }
            return result;
        }
        proof {
            lemma_write_carries_on(
                prefix,
                event,
                space@,
                buf as int,
                most as int,
                done as int,
                position,
            );
            assert(file.log() =~= log0 + prefix.push(event));
            prefix = prefix.push(event);
        }
        done = done + wrote as u64;
    }
    proof {
        let rest = Seq::<Event>::empty();
        lemma_write_ends(
            prefix,
            space@,
            buf as int,
            most as int,
            done as int,
            position,
            rest,
            Ok(done),
        );
        assert(since(file.log(), log0) =~= prefix + rest);
    }
    Ok(done)
}

// ---------------------------------------------------------------------------
// Segments
// ---------------------------------------------------------------------------

/// The `iovec` numbered `index` of an array at `iov`: a base and a length in
/// native words.
pub open spec fn spec_iovec(m: Memory, iov: int, index: int, word: nat) -> Result<
    (u64, u64),
    Errno,
> {
    let at = iov + index * (2 * word);
    if at > u64::MAX {
        Err(Errno::EINVAL)
    } else if !m.can_read(at, word as int) {
        Err(Errno::EFAULT)
    } else if at + word > u64::MAX {
        Err(Errno::EINVAL)
    } else if !m.can_read(at + word, word as int) {
        Err(Errno::EFAULT)
    } else {
        Ok((m.number(at, word) as u64, m.number(at + word, word) as u64))
    }
}

/// The first `entries` segments of an array at `iov`, or why there are none:
/// the first entry that cannot be read, or a running total too large for 64
/// bits.
pub open spec fn spec_segments(m: Memory, iov: int, entries: nat, word: nat) -> Result<
    (Seq<(u64, u64)>, int),
    Errno,
>
    decreases entries,
{
    if entries == 0 {
        Ok((Seq::empty(), 0))
    } else {
        match spec_segments(m, iov, (entries - 1) as nat, word) {
            Err(e) => Err(e),
            Ok((segments, total)) => match spec_iovec(m, iov, entries - 1, word) {
                Err(e) => Err(e),
                Ok(segment) => if total + segment.1 > u64::MAX {
                    Err(Errno::EINVAL)
                } else {
                    Ok((segments.push(segment), total + segment.1))
                },
            },
        }
    }
}

/// A program's `iovec` array: at most [`IOV_MAX`] entries, and a total that
/// fits a non-negative return value.
pub open spec fn spec_iovecs(m: Memory, iov: int, entries: int, arch: Arch) -> Result<
    Seq<(u64, u64)>,
    Errno,
> {
    if entries > IOV_MAX {
        Err(Errno::EINVAL)
    } else {
        match spec_segments(m, iov, entries as nat, arch.spec_word()) {
            Err(e) => Err(e),
            Ok((segments, total)) => if total > arch.spec_most() {
                Err(Errno::EINVAL)
            } else {
                Ok(segments)
            },
        }
    }
}

proof fn lemma_segments_fail(m: Memory, iov: int, few: nat, many: nat, word: nat)
    requires
        few <= many,
        spec_segments(m, iov, few, word) is Err,
    ensures
        spec_segments(m, iov, many, word) == spec_segments(m, iov, few, word),
    decreases many,
{
    if few < many {
        lemma_segments_fail(m, iov, few, (many - 1) as nat, word);
    }
}

/// Read one pointer-sized little-endian word from the program's memory.
pub fn read_word(space: &AddressSpace, at: u64, arch: Arch) -> (value: Result<u64, Errno>)
    requires
        space.wf(),
    ensures
        match value {
            Ok(v) => space@.can_read(at as int, arch.spec_word() as int) && v == space@.number(
                at as int,
                arch.spec_word(),
            ),
            Err(e) => !space@.can_read(at as int, arch.spec_word() as int) && e == Errno::EFAULT,
        },
{
    space.get_number(at, arch.word())
}

/// Read one `struct iovec` out of the program's array, as native words.
pub fn read_iovec(space: &AddressSpace, iov: u64, index: u64, arch: Arch) -> (segment: Result<
    (u64, u64),
    Errno,
>)
    requires
        space.wf(),
        index <= IOV_MAX,
    ensures
        segment == spec_iovec(space@, iov as int, index as int, arch.spec_word()),
{
    let word: u64 = arch.word() as u64;
    proof {
        assert(index * (2 * word) <= 1024 * 16) by (nonlinear_arith)
            requires
                index <= 1024,
                word <= 8,
        ;
    }
    let at: u64 = match iov.checked_add(index * (2 * word)) {
        Some(at) => at,
        None => return Err(Errno::EINVAL),
    };
    let base: u64 = read_word(space, at, arch)?;
    let second: u64 = match at.checked_add(word) {
        Some(second) => second,
        None => return Err(Errno::EINVAL),
    };
    let len: u64 = read_word(space, second, arch)?;
    Ok((base, len))
}

/// Read and check a program's `iovec` array.
///
/// `EINVAL` for more than [`IOV_MAX`] entries, for an array that wraps the
/// address space, and for a total that does not fit a non-negative return
/// value; `EFAULT` for an entry that cannot be read.
pub fn read_iovecs(space: &AddressSpace, iov: u64, entries: u64, arch: Arch) -> (segments: Result<
    Vec<(u64, u64)>,
    Errno,
>)
    requires
        space.wf(),
    ensures
        match segments {
            Ok(list) => spec_iovecs(space@, iov as int, entries as int, arch) == Ok::<
                Seq<(u64, u64)>,
                Errno,
            >(list@),
            Err(e) => spec_iovecs(space@, iov as int, entries as int, arch) == Err::<
                Seq<(u64, u64)>,
                Errno,
            >(e),
        },
{
    if entries > IOV_MAX {
        return Err(Errno::EINVAL);
    }
    let mut segments: Vec<(u64, u64)> = Vec::new();
    let mut total: u64 = 0;
    let mut index: u64 = 0;
    while index < entries
        invariant
            space.wf(),
            index <= entries <= IOV_MAX,
            spec_segments(space@, iov as int, index as nat, arch.spec_word()) == Ok::<
                (Seq<(u64, u64)>, int),
                Errno,
            >((segments@, total as int)),
        decreases entries - index,
    {
        proof {
            if spec_segments(space@, iov as int, (index + 1) as nat, arch.spec_word()) is Err {
                lemma_segments_fail(
                    space@,
                    iov as int,
                    (index + 1) as nat,
                    entries as nat,
                    arch.spec_word(),
                );
            }
        }
        let segment = read_iovec(space, iov, index, arch)?;
        total = match total.checked_add(segment.1) {
            Some(total) => total,
            None => return Err(Errno::EINVAL),
        };
        segments.push(segment);
        index = index + 1;
    }
    if total > arch.most() {
        return Err(Errno::EINVAL);
    }
    Ok(segments)
}

/// A transferred count as a return value.
pub open spec fn spec_count(done: Result<u64, Errno>) -> Result<usize, Errno> {
    match done {
        Ok(n) => if n <= usize::MAX {
            Ok(n as usize)
        } else {
            Err(Errno::EINVAL)
        },
        Err(e) => Err(e),
    }
}

/// A transferred count as a return value.
pub fn count(done: Result<u64, Errno>) -> (out: Result<usize, Errno>)
    ensures
        out == spec_count(done),
{
    let done: u64 = done?;
    if done > usize::MAX as u64 {
        return Err(Errno::EINVAL);
    }
    Ok(done as usize)
}

/// Whether `events` are the requests that fill `segments` in order once
/// `done` bytes have arrived, stopping at the first that is not filled or
/// that a stream gave anything for: the first `cut` of them fill the first
/// segment, with the outcome `first`.
pub open spec fn readv_trace(
    events: Seq<Event>,
    m: Memory,
    segments: Seq<(u64, u64)>,
    done: u64,
    stream: bool,
    result: Result<u64, Errno>,
    after: Memory,
) -> bool
    decreases segments.len(),
{
    if segments.len() == 0 {
        events.len() == 0 && result == Ok::<u64, Errno>(done) && after == m
    } else {
        exists|cut: int, first: Result<u64, Errno>, between: Memory|
            {
                &&& 0 <= cut <= events.len()
                &&& #[trigger] read_done(
                    events.take(cut),
                    m,
                    segments[0].0 as int,
                    segments[0].1 as int,
                    stream,
                    Position::Current,
                    first,
                    between,
                )
                &&& match first {
                    Err(e) => cut == events.len() && after == between && result == give_up(
                        done as int,
                        e,
                    ),
                    Ok(got) => {
                        let now = crate::time::saturated(done + got) as u64;
                        if got < segments[0].1 || (stream && got > 0) {
                            cut == events.len() && after == between && result == Ok::<u64, Errno>(
                                now,
                            )
                        } else {
                            readv_trace(
                                events.skip(cut),
                                between,
                                segments.skip(1),
                                now,
                                stream,
                                result,
                                after,
                            )
                        }
                    },
                }
            }
    }
}

#[verifier::opaque]
spec fn readv_carries_on(
    prefix: Seq<Event>,
    m0: Memory,
    all: Seq<(u64, u64)>,
    m: Memory,
    segments: Seq<(u64, u64)>,
    done: u64,
    stream: bool,
) -> bool {
    forall|rest: Seq<Event>, result: Result<u64, Errno>, after: Memory| #[trigger]
        readv_trace(rest, m, segments, done, stream, result, after) ==> readv_trace(
            prefix + rest,
            m0,
            all,
            0,
            stream,
            result,
            after,
        )
}

proof fn lemma_readv_carries_on(
    prefix: Seq<Event>,
    events: Seq<Event>,
    m0: Memory,
    all: Seq<(u64, u64)>,
    m: Memory,
    segments: Seq<(u64, u64)>,
    done: u64,
    stream: bool,
    got: u64,
    between: Memory,
)
    requires
        readv_carries_on(prefix, m0, all, m, segments, done, stream),
        segments.len() > 0,
        got >= segments[0].1,
        !(stream && got > 0),
        read_done(
            events,
            m,
            segments[0].0 as int,
            segments[0].1 as int,
            stream,
            Position::Current,
            Ok(got),
            between,
        ),
    ensures
        readv_carries_on(
            prefix + events,
            m0,
            all,
            between,
            segments.skip(1),
            crate::time::saturated(done + got) as u64,
            stream,
        ),
{
    reveal(readv_carries_on);
    let now = crate::time::saturated(done + got) as u64;
    assert forall|rest: Seq<Event>, result: Result<u64, Errno>, after: Memory| #[trigger]
        readv_trace(rest, between, segments.skip(1), now, stream, result, after) implies readv_trace(
        prefix + events + rest,
        m0,
        all,
        0,
        stream,
        result,
        after,
    ) by {
        let longer = events + rest;
        let cut = events.len() as int;
        assert(longer.take(cut) =~= events);
        assert(longer.skip(cut) =~= rest);
        assert(readv_trace(longer, m, segments, done, stream, result, after));
        assert(prefix + longer =~= prefix + events + rest);
    }
}

proof fn lemma_readv_begins(m: Memory, segments: Seq<(u64, u64)>, stream: bool)
    ensures
        readv_carries_on(Seq::empty(), m, segments, m, segments, 0, stream),
{
    reveal(readv_carries_on);
    assert forall|rest: Seq<Event>| #[trigger] (Seq::<Event>::empty() + rest) == rest by {
        assert(Seq::<Event>::empty() + rest =~= rest);
    }
}

proof fn lemma_readv_ends(
    prefix: Seq<Event>,
    m0: Memory,
    all: Seq<(u64, u64)>,
    m: Memory,
    segments: Seq<(u64, u64)>,
    done: u64,
    stream: bool,
    rest: Seq<Event>,
    result: Result<u64, Errno>,
    after: Memory,
)
    requires
        readv_carries_on(prefix, m0, all, m, segments, done, stream),
        readv_trace(rest, m, segments, done, stream, result, after),
    ensures
        readv_trace(prefix + rest, m0, all, 0, stream, result, after),
{
    reveal(readv_carries_on);
}

/// Fill `segments` in order, stopping at the first that is not filled, since a
/// short read means there was no more to read.
fn read_segments<B: Backend>(
    space: &mut AddressSpace,
    file: &mut B,
    segments: &Vec<(u64, u64)>,
) -> (result: Result<u64, Errno>)
    requires
        old(space).wf(),
    ensures
        final(space).wf(),
        final(space).same_layout(*old(space)),
        old(file).log().is_prefix_of(final(file).log()),
        final(file).stream() == old(file).stream(),
        final(file).offsets() == old(file).offsets(),
        readv_trace(
            since(final(file).log(), old(file).log()),
            old(space)@,
            segments@,
            0,
            old(file).stream(),
            result,
            final(space)@,
        ),
{
    let ghost log0 = file.log();
    let ghost m0 = space@;
    let stream = file.is_stream();
    let mut done: u64 = 0;
    let mut i: usize = 0;
    let ghost mut prefix: Seq<Event> = Seq::empty();
    proof {
        lemma_readv_begins(m0, segments@, stream);
        assert(log0 + prefix =~= log0);
        assert(segments@.skip(0) =~= segments@);
    }
    while i < segments.len()
        invariant
            space.wf(),
            space.same_layout(*old(space)),
            i <= segments@.len(),
            stream == file.stream(),
            file.stream() == old(file).stream(),
            file.offsets() == old(file).offsets(),
            log0 == old(file).log(),
            m0 == old(space)@,
            file.log() == log0 + prefix,
            readv_carries_on(
                prefix,
                m0,
                segments@,
                space@,
                segments@.skip(i as int),
                done,
                stream,
            ),
        decreases segments@.len() - i,
    {
        let (base, len) = segments[i];
        let ghost m = space@;
        let ghost log = file.log();
        let ghost left = segments@.skip(i as int);
        let outcome = read_into(space, file, base, len, Position::Current);
        let ghost events = since(file.log(), log);
        proof {
            lemma_since(file.log(), log);
            assert(file.log() =~= log0 + (prefix + events));
            assert(left[0] == (base, len));
            assert(left.skip(1) =~= segments@.skip(i + 1));
            assert(events.take(events.len() as int) =~= events);
        }
        let got: u64 = match outcome {
            Ok(got) => got,
            Err(e) => {
                let result = if done > 0 {
                    Ok(done)
                } else {
                    Err(e)
                };
                proof {
                    lemma_readv_ends(
                        prefix,
                        m0,
                        segments@,
                        m,
                        left,
                        done,
                        stream,
                        events,
                        result,
                        space@,
                    );
                    assert(since(file.log(), log0) =~= prefix + events);
                }
                return result;
            },
        };
        let now: u64 = done.saturating_add(got);
        if got < len || (stream && got > 0) {
            proof {
                lemma_readv_ends(
                    prefix,
                    m0,
                    segments@,
                    m,
                    left,
                    done,
                    stream,
                    events,
                    Ok(now),
                    space@,
                );
                assert(since(file.log(), log0) =~= prefix + events);
            }
            return Ok(now);
        }
        proof {
            lemma_readv_carries_on(
                prefix,
                events,
                m0,
                segments@,
                m,
                left,
                done,
                stream,
                got,
                space@,
            );
            prefix = prefix + events;
        }
        done = now;
        i = i + 1;
    }
    proof {
        let rest = Seq::<Event>::empty();
        assert(segments@.skip(i as int).len() == 0);
        lemma_readv_ends(
            prefix,
            m0,
            segments@,
            space@,
            segments@.skip(i as int),
            done,
            stream,
            rest,
            Ok(done),
            space@,
        );
        assert(since(file.log(), log0) =~= prefix + rest);
    }
    Ok(done)
}

/// Whether `events` are the requests that write `segments` out in order once
/// `done` bytes have gone, stopping at the first that does not go whole: the
/// first `cut` of them write the first segment, with the outcome `first`.
pub open spec fn writev_trace(
    events: Seq<Event>,
    m: Memory,
    segments: Seq<(u64, u64)>,
    done: u64,
    writable: bool,
    offsets: bool,
    result: Result<u64, Errno>,
) -> bool
    decreases segments.len(),
{
    if segments.len() == 0 {
        events.len() == 0 && result == Ok::<u64, Errno>(done)
    } else {
        exists|cut: int, first: Result<u64, Errno>|
            {
                &&& 0 <= cut <= events.len()
                &&& #[trigger] write_done(
                    events.take(cut),
                    m,
                    segments[0].0 as int,
                    segments[0].1 as int,
                    writable,
                    offsets,
                    Position::Current,
                    first,
                )
                &&& match first {
                    Err(e) => cut == events.len() && result == give_up(done as int, e),
                    Ok(wrote) => {
                        let now = crate::time::saturated(done + wrote) as u64;
                        if wrote < min_int(segments[0].1 as int, MAX_RW_COUNT as int) {
                            cut == events.len() && result == Ok::<u64, Errno>(now)
                        } else {
                            writev_trace(
                                events.skip(cut),
                                m,
                                segments.skip(1),
                                now,
                                writable,
                                offsets,
                                result,
                            )
                        }
                    },
                }
            }
    }
}

#[verifier::opaque]
spec fn writev_carries_on(
    prefix: Seq<Event>,
    m: Memory,
    all: Seq<(u64, u64)>,
    segments: Seq<(u64, u64)>,
    done: u64,
    writable: bool,
    offsets: bool,
) -> bool {
    forall|rest: Seq<Event>, result: Result<u64, Errno>| #[trigger]
        writev_trace(rest, m, segments, done, writable, offsets, result) ==> writev_trace(
            prefix + rest,
            m,
            all,
            0,
            writable,
            offsets,
            result,
        )
}

proof fn lemma_writev_carries_on(
    prefix: Seq<Event>,
    events: Seq<Event>,
    m: Memory,
    all: Seq<(u64, u64)>,
    segments: Seq<(u64, u64)>,
    done: u64,
    writable: bool,
    offsets: bool,
    wrote: u64,
)
    requires
        writev_carries_on(prefix, m, all, segments, done, writable, offsets),
        segments.len() > 0,
        wrote >= min_int(segments[0].1 as int, MAX_RW_COUNT as int),
        write_done(
            events,
            m,
            segments[0].0 as int,
            segments[0].1 as int,
            writable,
            offsets,
            Position::Current,
            Ok(wrote),
        ),
    ensures
        writev_carries_on(
            prefix + events,
            m,
            all,
            segments.skip(1),
            crate::time::saturated(done + wrote) as u64,
            writable,
            offsets,
        ),
{
    reveal(writev_carries_on);
    let now = crate::time::saturated(done + wrote) as u64;
    assert forall|rest: Seq<Event>, result: Result<u64, Errno>| #[trigger]
        writev_trace(rest, m, segments.skip(1), now, writable, offsets, result) implies writev_trace(
        prefix + events + rest,
        m,
        all,
        0,
        writable,
        offsets,
        result,
    ) by {
        let longer = events + rest;
        let cut = events.len() as int;
        assert(longer.take(cut) =~= events);
        assert(longer.skip(cut) =~= rest);
        assert(writev_trace(longer, m, segments, done, writable, offsets, result));
        assert(prefix + longer =~= prefix + events + rest);
    }
}

proof fn lemma_writev_begins(
    m: Memory,
    segments: Seq<(u64, u64)>,
    writable: bool,
    offsets: bool,
)
    ensures
        writev_carries_on(Seq::empty(), m, segments, segments, 0, writable, offsets),
{
    reveal(writev_carries_on);
    assert forall|rest: Seq<Event>| #[trigger] (Seq::<Event>::empty() + rest) == rest by {
        assert(Seq::<Event>::empty() + rest =~= rest);
    }
}

proof fn lemma_writev_ends(
    prefix: Seq<Event>,
    m: Memory,
    all: Seq<(u64, u64)>,
    segments: Seq<(u64, u64)>,
    done: u64,
    writable: bool,
    offsets: bool,
    rest: Seq<Event>,
    result: Result<u64, Errno>,
)
    requires
        writev_carries_on(prefix, m, all, segments, done, writable, offsets),
        writev_trace(rest, m, segments, done, writable, offsets, result),
    ensures
        writev_trace(prefix + rest, m, all, 0, writable, offsets, result),
{
    reveal(writev_carries_on);
}

/// Write `segments` out in order.
fn write_segments<B: Backend>(
    space: &AddressSpace,
    file: &mut B,
    writable: bool,
    segments: &Vec<(u64, u64)>,
) -> (result: Result<u64, Errno>)
    requires
        space.wf(),
    ensures
        old(file).log().is_prefix_of(final(file).log()),
        final(file).stream() == old(file).stream(),
        final(file).offsets() == old(file).offsets(),
        writev_trace(
            since(final(file).log(), old(file).log()),
            space@,
            segments@,
            0,
            writable,
            old(file).offsets(),
            result,
        ),
{
    let ghost log0 = file.log();
    let ghost offsets = file.offsets();
    let mut done: u64 = 0;
    let mut i: usize = 0;
    let ghost mut prefix: Seq<Event> = Seq::empty();
    proof {
        lemma_writev_begins(space@, segments@, writable, offsets);
        assert(log0 + prefix =~= log0);
        assert(segments@.skip(0) =~= segments@);
    }
    while i < segments.len()
        invariant
            space.wf(),
            i <= segments@.len(),
            file.stream() == old(file).stream(),
            file.offsets() == old(file).offsets(),
            offsets == file.offsets(),
            log0 == old(file).log(),
            file.log() == log0 + prefix,
            writev_carries_on(
                prefix,
                space@,
                segments@,
                segments@.skip(i as int),
                done,
                writable,
                offsets,
            ),
        decreases segments@.len() - i,
    {
        let (base, len) = segments[i];
        let ghost log = file.log();
        let ghost left = segments@.skip(i as int);
        let outcome = write_from(space, file, writable, base, len, Position::Current);
        let ghost events = since(file.log(), log);
        proof {
            lemma_since(file.log(), log);
            assert(file.log() =~= log0 + (prefix + events));
            assert(left[0] == (base, len));
            assert(left.skip(1) =~= segments@.skip(i + 1));
            assert(events.take(events.len() as int) =~= events);
        }
        let wrote: u64 = match outcome {
            Ok(wrote) => wrote,
            Err(e) => {
                let result = if done > 0 {
                    Ok(done)
                } else {
                    Err(e)
                };
                proof {
                    lemma_writev_ends(
                        prefix,
                        space@,
                        segments@,
                        left,
                        done,
                        writable,
                        offsets,
                        events,
                        result,
                    );
                    assert(since(file.log(), log0) =~= prefix + events);
                }
                return result;
            },
        };
        let now: u64 = done.saturating_add(wrote);
        if wrote < min_u64(len, MAX_RW_COUNT) {
            proof {
                lemma_writev_ends(
                    prefix,
                    space@,
                    segments@,
                    left,
                    done,
                    writable,
                    offsets,
                    events,
                    Ok(now),
                );
                assert(since(file.log(), log0) =~= prefix + events);
            }
            return Ok(now);
        }
        proof {
            lemma_writev_carries_on(
                prefix,
                events,
                space@,
                segments@,
                left,
                done,
                writable,
                offsets,
                wrote,
            );
            prefix = prefix + events;
        }
        done = now;
        i = i + 1;
    }
    proof {
        let rest = Seq::<Event>::empty();
        assert(segments@.skip(i as int).len() == 0);
        lemma_writev_ends(
            prefix,
            space@,
            segments@,
            segments@.skip(i as int),
            done,
            writable,
            offsets,
            rest,
            Ok(done),
        );
        assert(since(file.log(), log0) =~= prefix + rest);
    }
    Ok(done)
}

/// Only file `k` of `before` was asked anything.
pub open spec fn only_asked<B: Backend>(before: Seq<B>, after: Seq<B>, k: int) -> bool {
    &&& after.len() == before.len()
    &&& forall|i: int| 0 <= i < before.len() && i != k ==> #[trigger] after[i] == before[i]
    &&& before[k].log().is_prefix_of(after[k].log())
}

/// What a read through descriptor `fd` comes to: `EBADF` for a descriptor
/// that names nothing, decided before the buffer is looked at; otherwise what
/// [`read_done`] says of the description it names.
pub open spec fn read_through<B: Backend>(
    table: FdTable,
    fd: int,
    before: Seq<B>,
    after: Seq<B>,
    m: Memory,
    m_after: Memory,
    buf: int,
    len: int,
    position: Position,
    result: Result<usize, Errno>,
) -> bool {
    if !table@.dom().contains(fd) {
        result == Err::<usize, Errno>(Errno::EBADF) && after == before && m_after == m
    } else {
        let k = table@[fd].file as int;
        &&& only_asked(before, after, k)
        &&& exists|r: Result<u64, Errno>| #[trigger]
            read_done(
                since(after[k].log(), before[k].log()),
                m,
                buf,
                len,
                before[k].stream(),
                position,
                r,
                m_after,
            ) && result == spec_count(r)
    }
}

fn read_at_position<B: Backend>(
    space: &mut AddressSpace,
    table: &FdTable,
    files: &mut Vec<B>,
    fd: i32,
    buf: u64,
    len: u64,
    position: Position,
) -> (result: Result<usize, Errno>)
    requires
        old(space).wf(),
        named(*table, old(files)@.len()),
    ensures
        final(space).wf(),
        final(space).same_layout(*old(space)),
        read_through(
            *table,
            fd as int,
            old(files)@,
            final(files)@,
            old(space)@,
            final(space)@,
            buf as int,
            len as int,
            position,
            result,
        ),
{
    let k: usize = table.get(fd)?;
    let result = read_into(space, &mut files[k], buf, len, position);
    count(result)
}

/// `read`.
pub fn sys_read<B: Backend>(
    space: &mut AddressSpace,
    table: &FdTable,
    files: &mut Vec<B>,
    fd: i32,
    buf: u64,
    len: u64,
) -> (result: Result<usize, Errno>)
    requires
        old(space).wf(),
        named(*table, old(files)@.len()),
    ensures
        final(space).wf(),
        final(space).same_layout(*old(space)),
        read_through(
            *table,
            fd as int,
            old(files)@,
            final(files)@,
            old(space)@,
            final(space)@,
            buf as int,
            len as int,
            Position::Current,
            result,
        ),
{
    read_at_position(space, table, files, fd, buf, len, Position::Current)
}

/// `pread64`. A negative offset is `EINVAL` before the descriptor is looked
/// at.
pub fn sys_pread64<B: Backend>(
    space: &mut AddressSpace,
    table: &FdTable,
    files: &mut Vec<B>,
    fd: i32,
    buf: u64,
    len: u64,
    offset: i64,
) -> (result: Result<usize, Errno>)
    requires
        old(space).wf(),
        named(*table, old(files)@.len()),
    ensures
        final(space).wf(),
        final(space).same_layout(*old(space)),
        if offset < 0 {
            result == Err::<usize, Errno>(Errno::EINVAL) && final(files)@ == old(files)@
                && *final(space) == *old(space)
        } else {
            read_through(
                *table,
                fd as int,
                old(files)@,
                final(files)@,
                old(space)@,
                final(space)@,
                buf as int,
                len as int,
                Position::At(offset as u64),
                result,
            )
        },
{
    if offset < 0 {
        return Err(Errno::EINVAL);
    }
    read_at_position(space, table, files, fd, buf, len, Position::At(offset as u64))
}

/// What a write through descriptor `fd` comes to: `EBADF` for a descriptor
/// that names nothing, decided before the buffer is looked at; otherwise what
/// [`write_done`] says of the description it names.
pub open spec fn write_through<B: Backend>(
    table: FdTable,
    open: Seq<OpenFile>,
    fd: int,
    before: Seq<B>,
    after: Seq<B>,
    m: Memory,
    buf: int,
    len: int,
    position: Position,
    result: Result<usize, Errno>,
) -> bool {
    if !table@.dom().contains(fd) {
        result == Err::<usize, Errno>(Errno::EBADF) && after == before
    } else {
        let k = table@[fd].file as int;
        &&& only_asked(before, after, k)
        &&& exists|r: Result<u64, Errno>| #[trigger]
            write_done(
                since(after[k].log(), before[k].log()),
                m,
                buf,
                len,
                open[k].writable,
                before[k].offsets(),
                position,
                r,
            ) && result == spec_count(r)
    }
}

fn write_at_position<B: Backend>(
    space: &AddressSpace,
    table: &FdTable,
    open: &Vec<OpenFile>,
    files: &mut Vec<B>,
    fd: i32,
    buf: u64,
    len: u64,
    position: Position,
) -> (result: Result<usize, Errno>)
    requires
        space.wf(),
        named(*table, old(files)@.len()),
        open@.len() == old(files)@.len(),
    ensures
        write_through(
            *table,
            open@,
            fd as int,
            old(files)@,
            final(files)@,
            space@,
            buf as int,
            len as int,
            position,
            result,
        ),
{
    let k: usize = table.get(fd)?;
    let writable = open[k].writable;
    let result = write_from(space, &mut files[k], writable, buf, len, position);
    count(result)
}

/// `write`. A write of nothing still checks the descriptor.
pub fn sys_write<B: Backend>(
    space: &AddressSpace,
    table: &FdTable,
    open: &Vec<OpenFile>,
    files: &mut Vec<B>,
    fd: i32,
    buf: u64,
    len: u64,
) -> (result: Result<usize, Errno>)
    requires
        space.wf(),
        named(*table, old(files)@.len()),
        open@.len() == old(files)@.len(),
    ensures
        write_through(
            *table,
            open@,
            fd as int,
            old(files)@,
            final(files)@,
            space@,
            buf as int,
            len as int,
            Position::Current,
            result,
        ),
{
    write_at_position(space, table, open, files, fd, buf, len, Position::Current)
}

/// `pwrite64`. A negative offset is `EINVAL` before the descriptor is looked
/// at.
pub fn sys_pwrite64<B: Backend>(
    space: &AddressSpace,
    table: &FdTable,
    open: &Vec<OpenFile>,
    files: &mut Vec<B>,
    fd: i32,
    buf: u64,
    len: u64,
    offset: i64,
) -> (result: Result<usize, Errno>)
    requires
        space.wf(),
        named(*table, old(files)@.len()),
        open@.len() == old(files)@.len(),
    ensures
        if offset < 0 {
            result == Err::<usize, Errno>(Errno::EINVAL) && final(files)@ == old(files)@
        } else {
            write_through(
                *table,
                open@,
                fd as int,
                old(files)@,
                final(files)@,
                space@,
                buf as int,
                len as int,
                Position::At(offset as u64),
                result,
            )
        },
{
    if offset < 0 {
        return Err(Errno::EINVAL);
    }
    write_at_position(space, table, open, files, fd, buf, len, Position::At(offset as u64))
}

/// `readv`: the descriptor is looked up, then the whole array read and
/// checked, and then the segments filled in order. With no segments the file
/// is asked nothing, and `EBADF` for one not open for reading.
pub fn sys_readv<B: Backend>(
    space: &mut AddressSpace,
    table: &FdTable,
    open: &Vec<OpenFile>,
    files: &mut Vec<B>,
    fd: i32,
    iov: u64,
    entries: u64,
    arch: Arch,
) -> (result: Result<usize, Errno>)
    requires
        old(space).wf(),
        named(*table, old(files)@.len()),
        open@.len() == old(files)@.len(),
    ensures
        final(space).wf(),
        final(space).same_layout(*old(space)),
        if !table@.dom().contains(fd as int) {
            result == Err::<usize, Errno>(Errno::EBADF) && final(files)@ == old(files)@ && final(space)@ == old(space)@
        } else {
            let k = table@[fd as int].file as int;
            match spec_iovecs(old(space)@, iov as int, entries as int, arch) {
                Err(e) => result == Err::<usize, Errno>(e) && final(files)@ == old(files)@
                    && final(space)@ == old(space)@,
                Ok(segments) => if segments.len() == 0 {
                    &&& final(files)@ == old(files)@
                    &&& final(space)@ == old(space)@
                    &&& result == if open@[k].readable {
                        Ok(0usize)
                    } else {
                        Err(Errno::EBADF)
                    }
                } else {
                    &&& only_asked(old(files)@, final(files)@, k)
                    &&& exists|r: Result<u64, Errno>| #[trigger]
                        readv_trace(
                            since(final(files)@[k].log(), old(files)@[k].log()),
                            old(space)@,
                            segments,
                            0,
                            old(files)@[k].stream(),
                            r,
                            final(space)@,
                        ) && result == spec_count(r)
                },
            }
        },
{
    let k: usize = table.get(fd)?;
    let segments = read_iovecs(space, iov, entries, arch)?;
    if segments.len() == 0 {
        return if open[k].readable {
            Ok(0)
        } else {
            Err(Errno::EBADF)
        };
    }
    let result = read_segments(space, &mut files[k], &segments);
    count(result)
}

/// `writev`: the descriptor is looked up, then the whole array read and
/// checked before anything is written, and then the segments written in
/// order. With no segments the file is asked nothing, and `EBADF` for one not
/// open for writing.
pub fn sys_writev<B: Backend>(
    space: &AddressSpace,
    table: &FdTable,
    open: &Vec<OpenFile>,
    files: &mut Vec<B>,
    fd: i32,
    iov: u64,
    entries: u64,
    arch: Arch,
) -> (result: Result<usize, Errno>)
    requires
        space.wf(),
        named(*table, old(files)@.len()),
        open@.len() == old(files)@.len(),
    ensures
        if !table@.dom().contains(fd as int) {
            result == Err::<usize, Errno>(Errno::EBADF) && final(files)@ == old(files)@
        } else {
            let k = table@[fd as int].file as int;
            match spec_iovecs(space@, iov as int, entries as int, arch) {
                Err(e) => result == Err::<usize, Errno>(e) && final(files)@ == old(files)@,
                Ok(segments) => if segments.len() == 0 {
                    &&& final(files)@ == old(files)@
                    &&& result == if open@[k].writable {
                        Ok(0usize)
                    } else {
                        Err(Errno::EBADF)
                    }
                } else {
                    &&& only_asked(old(files)@, final(files)@, k)
                    &&& exists|r: Result<u64, Errno>| #[trigger]
                        writev_trace(
                            since(final(files)@[k].log(), old(files)@[k].log()),
                            space@,
                            segments,
                            0,
                            open@[k].writable,
                            old(files)@[k].offsets(),
                            r,
                        ) && result == spec_count(r)
                },
            }
        },
{
    let k: usize = table.get(fd)?;
    let segments = read_iovecs(space, iov, entries, arch)?;
    let writable = open[k].writable;
    if segments.len() == 0 {
        return if writable {
            Ok(0)
        } else {
            Err(Errno::EBADF)
        };
    }
    let result = write_segments(space, &mut files[k], writable, &segments);
    count(result)
}

// ---------------------------------------------------------------------------
// What holds of every transfer
// ---------------------------------------------------------------------------

/// The bytes a file handed over in `events`, in the order it did.
pub open spec fn handed_over(events: Seq<Event>) -> Seq<u8>
    decreases events.len(),
{
    if events.len() == 0 {
        Seq::empty()
    } else {
        (match events[0] {
            Event::Read { reply: Ok(data), .. } => data,
            _ => Seq::empty(),
        }) + handed_over(events.skip(1))
    }
}

/// A read that reports `n` bytes put the first `n` bytes the file handed over
/// at the start of the program's buffer, in order, and changed nothing else.
pub proof fn law_a_read_delivers_what_the_file_gave(
    events: Seq<Event>,
    m: Memory,
    buf: int,
    len: int,
    done: int,
    stream: bool,
    position: Position,
    n: u64,
    after: Memory,
)
    requires
        0 <= done <= len <= MAX_RW_COUNT,
        read_trace(events, m, buf, len, done, stream, position, Ok(n), after),
    ensures
        done <= n <= len,
        n - done <= handed_over(events).len(),
        after == m.store(buf + done, handed_over(events).take(n - done)),
    decreases events.len(),
{
    let gave = handed_over(events);
    if done >= len || piece_at(position, done) is Err {
        assert(gave.take(0) =~= Seq::<u8>::empty());
        crate::uaccess::lemma_store_empty(m, buf + done);
    } else {
        match events[0] {
            Event::Read { at, want, reply } => match reply {
                Err(e) => {
                    assert(gave.take(0) =~= Seq::<u8>::empty());
                    crate::uaccess::lemma_store_empty(m, buf + done);
                },
                Ok(data) => {
                    let tail = handed_over(events.skip(1));
                    assert(gave == data + tail);
                    if !m.can_write(buf + done, data.len() as int) {
                        assert(gave.take(0) =~= Seq::<u8>::empty());
                        crate::uaccess::lemma_store_empty(m, buf + done);
                    } else if data.len() < want || stream {
                        assert(gave.take(n - done) =~= data);
                    } else {
                        let between = m.store(buf + done, data);
                        law_a_read_delivers_what_the_file_gave(
                            events.skip(1),
                            between,
                            buf,
                            len,
                            done + data.len(),
                            stream,
                            position,
                            n,
                            after,
                        );
                        let rest = tail.take(n - done - data.len());
                        crate::time::lemma_store_append(m, buf + done, data, rest);
                        assert(gave.take(n - done) =~= data + rest);
                    }
                },
            },
            _ => {},
        }
    }
}

/// The bytes a file was sent in `events`, in the order it was.
pub open spec fn sent(events: Seq<Event>) -> Seq<u8>
    decreases events.len(),
{
    if events.len() == 0 {
        Seq::empty()
    } else {
        (match events[0] {
            Event::Write { data, reply: Ok(wrote), .. } => data.take(wrote as int),
            _ => Seq::empty(),
        }) + sent(events.skip(1))
    }
}

/// Whether no reply claims more than was sent.
pub open spec fn honest(events: Seq<Event>) -> bool {
    forall|i: int|
        0 <= i < events.len() ==> match #[trigger] events[i] {
            Event::Write { data, reply: Ok(wrote), .. } => wrote <= data.len(),
            _ => true,
        }
}

/// A write that reports `n` bytes sent the file exactly the first `n` bytes of
/// the program's buffer, in order.
pub proof fn law_a_write_sends_what_the_program_has(
    events: Seq<Event>,
    m: Memory,
    buf: int,
    len: int,
    done: int,
    position: Position,
    n: u64,
)
    requires
        0 <= done <= len <= MAX_RW_COUNT,
        honest(events),
        write_trace(events, m, buf, len, done, position, Ok(n)),
    ensures
        done <= n <= len,
        sent(events) == m.read(buf + done, (n - done) as nat),
    decreases events.len(),
{
    let want = min_int(len - done, CHUNK as int);
    if done >= len || !m.can_read(buf + done, want) || piece_at(position, done) is Err {
        assert(sent(events) =~= m.read(buf + done, 0));
    } else {
        match events[0] {
            Event::Write { at, data, reply } => match reply {
                Err(e) => {
                    assert(sent(events.skip(1)) =~= Seq::<u8>::empty());
                    assert(sent(events) =~= m.read(buf + done, 0));
                },
                Ok(wrote) => {
                    assert(wrote <= data.len());
                    if wrote < want {
                        assert(sent(events.skip(1)) =~= Seq::<u8>::empty());
                        assert(sent(events) =~= m.read(buf + done, wrote));
                    } else {
                        assert(honest(events.skip(1))) by {
                            assert forall|i: int| 0 <= i < events.skip(1).len() implies match
                                #[trigger] events.skip(1)[i] {
                                Event::Write { data, reply: Ok(wrote), .. } => wrote <= data.len(),
                                _ => true,
                            } by {
                                assert(events.skip(1)[i] == events[i + 1]);
                            }
                        }
                        law_a_write_sends_what_the_program_has(
                            events.skip(1),
                            m,
                            buf,
                            len,
                            done + wrote,
                            position,
                            n,
                        );
                        assert(data.take(wrote as int) =~= data);
                        assert(sent(events) =~= m.read(buf + done, (n - done) as nat));
                    }
                },
            },
            _ => {},
        }
    }
}

/// Each piece of a read is asked for right behind the one before: at the offset
/// the call named and what has arrived, or at the description's own; a page at
/// most, never nothing, and never more than is still wanted.
pub proof fn law_a_read_asks_for_each_piece_in_turn(
    events: Seq<Event>,
    m: Memory,
    buf: int,
    len: int,
    done: int,
    stream: bool,
    position: Position,
    result: Result<u64, Errno>,
    after: Memory,
    i: int,
)
    requires
        0 <= done <= len,
        read_trace(events, m, buf, len, done, stream, position, result, after),
        0 <= i < events.len(),
        events[i] is Read,
    ensures
        ({
            let before = handed_over(events.take(i)).len();
            &&& position == Position::Current ==> events[i]->Read_at is None
            &&& position matches Position::At(offset) ==> events[i]->Read_at == Some(
                (offset + done + before) as u64,
            ) && offset + done + before <= u64::MAX
            &&& 0 < events[i]->want <= 4096
            &&& done + before + events[i]->want <= len
            &&& done + before + events[i]->want == len || events[i]->want == 4096
        }),
    decreases events.len(),
{
    assert(events.take(0) =~= Seq::<Event>::empty());
    if done < len && piece_at(position, done) is Ok && i > 0 {
        if let Event::Read { at, want, reply: Ok(data) } = events[0] {
            let rest = events.skip(1);
            assert(rest[i - 1] == events[i]);
            assert(events.take(i).skip(1) =~= rest.take(i - 1));
            assert(events.take(i)[0] == events[0]);
            assert(handed_over(events.take(i)) == data + handed_over(rest.take(i - 1)));
            if data.len() <= want && buf + done <= u64::MAX && m.can_write(
                buf + done,
                data.len() as int,
            ) && !(data.len() < want || stream) {
                law_a_read_asks_for_each_piece_in_turn(
                    rest,
                    m.store(buf + done, data),
                    buf,
                    len,
                    done + data.len(),
                    stream,
                    position,
                    result,
                    after,
                    i - 1,
                );
            }
        }
    }
}

/// A read ends as its last piece does: what has arrived by then, if anything
/// has, and else the file's error. It goes on only while pieces are full and
/// the file is no stream.
pub proof fn law_a_read_ends_as_its_last_piece_does(
    events: Seq<Event>,
    m: Memory,
    buf: int,
    len: int,
    stream: bool,
    position: Position,
    result: Result<u64, Errno>,
    after: Memory,
)
    requires
        0 < len <= MAX_RW_COUNT,
        0 <= buf,
        buf + len <= u64::MAX,
        read_trace(events, m, buf, len, 0, stream, position, result, after),
        events.len() > 0,
    ensures
        events[0] is Read,
        events[0]->Read_reply matches Err(e) ==> events.len() == 1 && result == Err::<u64, Errno>(e)
            && after == m,
        events[0]->Read_reply matches Ok(data) ==> {
            let want = events[0]->want;
            &&& data.len() <= want && m.can_write(buf, data.len() as int) && (data.len() < want
                || stream || want == len) ==> events.len() == 1 && result == Ok::<u64, Errno>(
                data.len() as u64,
            )
            &&& data.len() == want && m.can_write(buf, data.len() as int) && !stream && want < len
                && position == Position::Current ==> events.len() > 1
            &&& data.len() > want ==> result == Err::<u64, Errno>(Errno::EIO) && after == m
            &&& data.len() <= want && !m.can_write(buf, data.len() as int) ==> result == Err::<
                u64,
                Errno,
            >(Errno::EFAULT) && after == m
        },
{
    if let Event::Read { at, want, reply: Ok(data) } = events[0] {
        let rest = events.skip(1);
        if data.len() == want && m.can_write(buf, data.len() as int) && !stream {
            assert(read_trace(
                rest,
                m.store(buf + 0, data),
                buf,
                len,
                0 + data.len() as int,
                stream,
                position,
                result,
                after,
            ));
        }
    }
}

/// A failure part-way never loses what was done before it.
pub proof fn law_what_was_done_is_reported(done: int, e: Errno)
    requires
        0 <= done <= u64::MAX,
    ensures
        done > 0 ==> give_up(done, e) == Ok::<u64, Errno>(done as u64),
        done == 0 ==> give_up(done, e) == Err::<u64, Errno>(e),
{
}

/// Each piece of a write is sent right behind the one before: at the offset the
/// call named and what has gone, or at the description's own, with the bytes
/// the program has there; a page at most, and never nothing.
pub proof fn law_a_write_sends_each_piece_in_turn(
    events: Seq<Event>,
    m: Memory,
    buf: int,
    len: int,
    done: int,
    position: Position,
    result: Result<u64, Errno>,
    i: int,
)
    requires
        0 <= done <= len,
        honest(events),
        write_trace(events, m, buf, len, done, position, result),
        0 <= i < events.len(),
    ensures
        ({
            let before = sent(events.take(i)).len();
            &&& events[i] is Write
            &&& position == Position::Current ==> events[i]->Write_at is None
            &&& position matches Position::At(offset) ==> events[i]->Write_at == Some(
                (offset + done + before) as u64,
            ) && offset + done + before <= u64::MAX
            &&& 0 < events[i]->Write_data.len() <= 4096
            &&& done + before + events[i]->Write_data.len() <= len
            &&& events[i]->Write_data == m.read(
                buf + done + before,
                events[i]->Write_data.len(),
            )
        }),
    decreases events.len(),
{
    assert(events.take(0) =~= Seq::<Event>::empty());
    let want = min_int(len - done, CHUNK as int);
    if done < len && buf + done <= u64::MAX && m.can_read(buf + done, want) && piece_at(
        position,
        done,
    ) is Ok && i > 0 {
        if let Event::Write { at, data, reply: Ok(wrote) } = events[0] {
            let rest = events.skip(1);
            assert(rest[i - 1] == events[i]);
            assert(events.take(i).skip(1) =~= rest.take(i - 1));
            assert(events.take(i)[0] == events[0]);
            assert(wrote <= data.len());
            assert(sent(events.take(i)) == data.take(wrote as int) + sent(rest.take(i - 1)));
            assert(honest(rest)) by {
                assert forall|j: int| 0 <= j < rest.len() implies match #[trigger] rest[j] {
                    Event::Write { data, reply: Ok(wrote), .. } => wrote <= data.len(),
                    _ => true,
                } by {
                    assert(rest[j] == events[j + 1]);
                }
            }
            if wrote >= want {
                law_a_write_sends_each_piece_in_turn(
                    rest,
                    m,
                    buf,
                    len,
                    done + wrote,
                    position,
                    result,
                    i - 1,
                );
            }
        }
    }
}

/// A write ends as its last piece does: short where the file took less, and
/// with the file's error where nothing went.
pub proof fn law_a_write_ends_as_its_last_piece_does(
    events: Seq<Event>,
    m: Memory,
    buf: int,
    len: int,
    position: Position,
    result: Result<u64, Errno>,
)
    requires
        0 < len <= MAX_RW_COUNT,
        0 <= buf,
        buf + len <= u64::MAX,
        write_trace(events, m, buf, len, 0, position, result),
    ensures
        m.can_read(buf, len) ==> events.len() > 0,
        events.len() == 0 ==> result == Err::<u64, Errno>(Errno::EFAULT),
        events.len() > 0 ==> events[0] is Write,
        events.len() > 0 ==> (events[0]->Write_reply matches Err(e) ==> events.len() == 1 && result
            == Err::<u64, Errno>(e)),
        events.len() > 0 ==> (events[0]->Write_reply matches Ok(wrote) ==> {
            &&& wrote < events[0]->Write_data.len() || wrote == len ==> events.len() == 1 && result
                == Ok::<u64, Errno>(wrote as u64)
            &&& wrote == events[0]->Write_data.len() && wrote < len && m.can_read(buf, len)
                && position == Position::Current ==> events.len() > 1
        }),
{
    if m.can_read(buf, len) {
        assert(m.can_read(buf, min_int(len, CHUNK as int)));
    }
    if events.len() > 0 {
        if let Event::Write { at, data, reply: Ok(wrote) } = events[0] {
            if wrote >= data.len() {
                assert(write_trace(events.skip(1), m, buf, len, wrote as int, position, result));
                if wrote < len && m.can_read(buf, len) {
                    assert(m.can_read(buf + wrote, min_int(len - wrote, CHUNK as int)));
                }
            }
        }
    }
}

/// A write of nothing is refused only where a write could not be: on a file not
/// open for writing, and at an offset in one that takes none.
pub proof fn law_an_empty_write_is_checked(writable: bool, offsets: bool, position: Position)
    ensures
        spec_empty_write(writable, offsets, position) == Ok::<u64, Errno>(0) <==> writable && (
        position == Position::Current || offsets),
        spec_empty_write(writable, offsets, position) == Err::<u64, Errno>(Errno::EBADF)
            <==> !writable,
{
}

/// The segments of a vector are the array's: entry by entry a base and a
/// length, which together are no more than one call may move.
pub proof fn law_the_segments_are_the_arrays(m: Memory, iov: int, entries: nat, word: nat, i: int)
    requires
        spec_segments(m, iov, entries, word) is Ok,
        0 <= i < entries,
        word <= 8,
    ensures
        ({
            let (list, total) = spec_segments(m, iov, entries, word)->Ok_0;
            &&& list.len() == entries
            &&& list[i].0 == m.number(iov + i * (2 * word), word) as u64
            &&& list[i].1 == m.number(iov + i * (2 * word) + word, word) as u64
            &&& list[i].1 <= total
            &&& total <= u64::MAX
        }),
    decreases entries,
{
    if entries > 1 && i < entries - 1 {
        law_the_segments_are_the_arrays(m, iov, (entries - 1) as nat, word, i);
    }
    lemma_segments_len(m, iov, entries, word);
    if entries > 0 {
        lemma_segments_len(m, iov, (entries - 1) as nat, word);
    }
}

proof fn lemma_segments_len(m: Memory, iov: int, entries: nat, word: nat)
    ensures
        spec_segments(m, iov, entries, word) matches Ok((list, total)) ==> list.len() == entries
            && 0 <= total <= u64::MAX,
    decreases entries,
{
    if entries > 0 {
        lemma_segments_len(m, iov, (entries - 1) as nat, word);
    }
}

/// A vector has at most so many entries, and asks for no more than a call can
/// report.
pub proof fn law_a_vector_has_its_limits(m: Memory, iov: int, entries: int, arch: Arch)
    requires
        0 <= entries,
    ensures
        entries > 1024 ==> spec_iovecs(m, iov, entries, arch) == Err::<Seq<(u64, u64)>, Errno>(
            Errno::EINVAL,
        ),
        spec_iovecs(m, iov, entries, arch) matches Ok(list) ==> {
            let read = spec_segments(m, iov, entries as nat, arch.spec_word());
            &&& read is Ok && read->Ok_0.0 == list
            &&& list.len() == entries
            &&& arch == Arch::Arm ==> read->Ok_0.1 <= 0x7FFF_FFFF
            &&& arch != Arch::Arm ==> read->Ok_0.1 <= 0x7FFF_FFFF_FFFF_FFFF
        },
        entries == 0 ==> spec_iovecs(m, iov, entries, arch) == Ok::<Seq<(u64, u64)>, Errno>(
            Seq::empty(),
        ),
{
    lemma_segments_len(m, iov, entries as nat, arch.spec_word());
}

/// A call moves bytes through the description its descriptor names, and no
/// other file hears of it; a descriptor that names nothing moves none.
pub proof fn law_a_read_is_of_the_descriptors_file<B: Backend>(
    table: FdTable,
    fd: int,
    before: Seq<B>,
    after: Seq<B>,
    m: Memory,
    m_after: Memory,
    buf: int,
    len: int,
    position: Position,
    result: Result<usize, Errno>,
    i: int,
)
    requires
        read_through(table, fd, before, after, m, m_after, buf, len, position, result),
        0 <= len,
        0 <= i < before.len(),
    ensures
        !table@.dom().contains(fd) ==> result == Err::<usize, Errno>(Errno::EBADF) && after[i]
            == before[i] && m_after == m,
        table@.dom().contains(fd) && i != table@[fd].file ==> after[i] == before[i],
        result matches Ok(n) ==> table@.dom().contains(fd) && n <= len && n <= 0x7FFF_F000,
{
    if table@.dom().contains(fd) && result is Ok {
        let k = table@[fd].file as int;
        let r = choose|r: Result<u64, Errno>| #[trigger]
            read_done(
                since(after[k].log(), before[k].log()),
                m,
                buf,
                len,
                before[k].stream(),
                position,
                r,
                m_after,
            ) && result == spec_count(r);
        if len > 0 {
            law_a_read_delivers_what_the_file_gave(
                since(after[k].log(), before[k].log()),
                m,
                buf,
                min_int(len, MAX_RW_COUNT as int),
                0,
                before[k].stream(),
                position,
                r->Ok_0,
                m_after,
            );
        }
    }
}

/// A write goes to the description its descriptor names alone.
pub proof fn law_a_write_is_to_the_descriptors_file<B: Backend>(
    table: FdTable,
    open: Seq<OpenFile>,
    fd: int,
    before: Seq<B>,
    after: Seq<B>,
    m: Memory,
    buf: int,
    len: int,
    position: Position,
    result: Result<usize, Errno>,
    i: int,
)
    requires
        write_through(table, open, fd, before, after, m, buf, len, position, result),
        0 <= i < before.len(),
    ensures
        !table@.dom().contains(fd) ==> result == Err::<usize, Errno>(Errno::EBADF) && after[i]
            == before[i],
        table@.dom().contains(fd) && i != table@[fd].file ==> after[i] == before[i],
        table@.dom().contains(fd) && len == 0 ==> since(
            after[table@[fd].file as int].log(),
            before[table@[fd].file as int].log(),
        ).len() == 0,
        table@.dom().contains(fd) && len == 0 && !open[table@[fd].file as int].writable ==> result
            == Err::<usize, Errno>(Errno::EBADF),
{
}

/// A vector of no entries asks for nothing, and of one for what that one says;
/// an entry whose words cannot be read is refused.
pub proof fn law_a_vector_is_read_entry_by_entry(m: Memory, iov: u64, word: nat)
    requires
        word == 4 || word == 8,
        iov <= 0x7FFF_FFFF_FFFF_FFFF,
    ensures
        spec_segments(m, iov as int, 0, word) == Ok::<(Seq<(u64, u64)>, int), Errno>(
            (Seq::empty(), 0),
        ),
        spec_segments(m, iov as int, 1, word) is Ok <==> m.can_read(iov as int, word as int)
            && m.can_read(iov + word, word as int),
        spec_segments(m, iov as int, 1, word) matches Ok((list, total)) ==> list.len() == 1 && total
            == list[0].1,
        spec_segments(m, iov as int, 1, word) matches Err(e) ==> e == Errno::EFAULT,
{
    reveal_with_fuel(spec_segments, 2);
    assert(iov + 0 * (2 * word) == iov) by (nonlinear_arith);
}

/// What was read and cannot be delivered is put back: a stream is given its
/// bytes back, and a position that moved is moved back as far as it went.
pub proof fn law_what_is_not_delivered_is_put_back(
    events: Seq<Event>,
    stream: bool,
    position: Position,
    data: Seq<u8>,
)
    requires
        undone(events, stream, position, data),
    ensures
        stream ==> events.len() > 0 && events[0] == (Event::Unread { data }),
        position == Position::Current && data.len() > 0 ==> events.len() > 0 && (
        events.last() matches Event::Seek { offset, whence, .. } && offset + data.len() == 0
            && whence == Whence::Current),
        position != Position::Current || data.len() == 0 ==> forall|i: int|
            0 <= i < events.len() ==> !((#[trigger] events[i]) is Seek),
        !stream && (position != Position::Current || data.len() == 0) ==> events.len() == 0,
{
}

} // verus!
