//! A file held in memory: the plainest [`Backend`], a regular file, a
//! directory or a stream.

use vstd::prelude::*;

use crate::errno::Errno;
use crate::file::{
    bytes_of, count_of, min_int, read_done, read_trace, write_done, write_trace, Backend, Event,
    Position, Whence, CHUNK, MAX_RW_COUNT,
};
use crate::time::lemma_store_append;
use crate::uaccess::{
    lemma_read_after_store, lemma_store_empty, lemma_store_permissions, Memory,
};

verus! {

/// What an in-memory file is.
#[derive(Clone, Copy, Debug, PartialEq, Eq, Structural)]
pub enum Form {
    /// Bytes with an offset into them.
    Regular,
    /// A directory, which is not read or written.
    Directory,
    /// A queue of bytes to read, and somewhere for written ones to go.
    Stream,
}

/// A file held in memory.
pub struct MemoryFile {
    /// What it is.
    pub form: Form,
    /// Open for reading.
    pub readable: bool,
    /// Open for writing.
    pub writable: bool,
    /// Writes go to the end.
    pub append: bool,
    /// What it holds; for a stream, what is waiting to be read.
    pub contents: Vec<u8>,
    /// Where the next read or write is.
    pub offset: u64,
    /// What has been written to a stream.
    pub written: Vec<u8>,
    /// The most bytes it may hold.
    pub most: usize,
    /// Whether something in it is yet to be written out.
    pub unsynced: bool,
    /// What it was asked.
    pub asked: Ghost<Seq<Event>>,
}

/// The part of `s` from `at`, at most `want` long.
pub open spec fn window(s: Seq<u8>, at: int, want: int) -> Seq<u8> {
    if at >= s.len() {
        Seq::empty()
    } else {
        s.subrange(at, min_int(at + want, s.len() as int))
    }
}

/// `s` with `data` over it from `at`, zeros filling any gap.
pub open spec fn overwritten(s: Seq<u8>, at: int, data: Seq<u8>) -> Seq<u8> {
    Seq::new(
        if at + data.len() > s.len() {
            (at + data.len()) as nat
        } else {
            s.len()
        },
        |i: int|
            if at <= i < at + data.len() {
                data[i - at]
            } else if i < s.len() {
                s[i]
            } else {
                0u8
            },
    )
}

/// `s`, cut or filled with zeros to `len` bytes.
pub open spec fn resized(s: Seq<u8>, len: nat) -> Seq<u8> {
    Seq::new(
        len,
        |i: int|
            if i < s.len() {
                s[i]
            } else {
                0u8
            },
    )
}

fn copy_window(s: &Vec<u8>, at: u64, want: usize) -> (out: Vec<u8>)
    ensures
        out@ == window(s@, at as int, want as int),
{
    let mut out: Vec<u8> = Vec::new();
    if at >= s.len() as u64 {
        return out;
    }
    let start: usize = at as usize;
    while out.len() < want && start + out.len() < s.len()
        invariant
            start == at,
            start < s@.len(),
            out@.len() <= want,
            start + out@.len() <= s@.len(),
            s@.len() <= usize::MAX,
            out@ == s@.subrange(start as int, start + out@.len()),
        decreases want - out@.len(),
    {
        out.push(s[start + out.len()]);
        proof {
            assert(out@ =~= s@.subrange(start as int, start + out@.len()));
        }
    }
    proof {
        assert(out@ =~= window(s@, at as int, want as int));
    }
    out
}

impl MemoryFile {
    /// The file apart from its record of what it was asked: kind and modes.
    pub open spec fn same_kind(self, other: MemoryFile) -> bool {
        &&& self.form == other.form
        &&& self.readable == other.readable
        &&& self.writable == other.writable
        &&& self.append == other.append
        &&& self.most == other.most
    }

    /// A regular file holding `contents`, at its start.
    pub fn regular(contents: Vec<u8>, readable: bool, writable: bool, most: usize) -> (file:
        MemoryFile)
        ensures
            file.form == Form::Regular,
            file.contents@ == contents@,
            file.offset == 0,
            file.readable == readable,
            file.writable == writable,
            !file.append,
            !file.unsynced,
            file.most == most,
            file.log() == Seq::<Event>::empty(),
    {
        MemoryFile {
            form: Form::Regular,
            readable,
            writable,
            append: false,
            contents,
            offset: 0,
            written: Vec::new(),
            most,
            unsynced: false,
            asked: Ghost(Seq::empty()),
        }
    }

    /// A stream with `waiting` to be read.
    pub fn new_stream(waiting: Vec<u8>, most: usize) -> (file: MemoryFile)
        ensures
            file.form == Form::Stream,
            file.contents@ == waiting@,
            file.written@ == Seq::<u8>::empty(),
            file.readable,
            file.writable,
            file.most == most,
            file.log() == Seq::<Event>::empty(),
    {
        MemoryFile {
            form: Form::Stream,
            readable: true,
            writable: true,
            append: false,
            contents: waiting,
            offset: 0,
            written: Vec::new(),
            most,
            unsynced: false,
            asked: Ghost(Seq::empty()),
        }
    }

    /// A directory, open for reading.
    pub fn directory() -> (file: MemoryFile)
        ensures
            file.form == Form::Directory,
            file.readable,
            !file.writable,
            file.log() == Seq::<Event>::empty(),
    {
        MemoryFile {
            form: Form::Directory,
            readable: true,
            writable: false,
            append: false,
            contents: Vec::new(),
            offset: 0,
            written: Vec::new(),
            most: 0,
            unsynced: false,
            asked: Ghost(Seq::empty()),
        }
    }

    /// What a read at `at`, or at the offset, answers.
    pub open spec fn read_reply(self, at: Option<u64>, want: nat) -> Result<Seq<u8>, Errno> {
        if !self.readable {
            Err(Errno::EBADF)
        } else {
            match self.form {
                Form::Directory => Err(Errno::EISDIR),
                Form::Stream => if at is Some {
                    Err(Errno::ESPIPE)
                } else {
                    Ok(window(self.contents@, 0, want as int))
                },
                Form::Regular => Ok(
                    window(
                        self.contents@,
                        match at {
                            Some(place) => place as int,
                            None => self.offset as int,
                        },
                        want as int,
                    ),
                ),
            }
        }
    }

    /// Where a write at `at`, or at the offset, goes.
    pub open spec fn write_place(self, at: Option<u64>) -> int {
        match at {
            Some(place) => place as int,
            None => if self.append {
                self.contents@.len() as int
            } else {
                self.offset as int
            },
        }
    }

    /// What a write of `data` answers.
    pub open spec fn write_reply(self, at: Option<u64>, data: Seq<u8>) -> Result<nat, Errno> {
        if !self.writable {
            Err(Errno::EBADF)
        } else {
            match self.form {
                Form::Directory => Err(Errno::EISDIR),
                Form::Stream => if at is Some {
                    Err(Errno::ESPIPE)
                } else if self.written@.len() + data.len() > self.most {
                    Err(Errno::ENOSPC)
                } else {
                    Ok(data.len())
                },
                Form::Regular => if self.write_place(at) + data.len() > self.most {
                    Err(Errno::EFBIG)
                } else {
                    Ok(data.len())
                },
            }
        }
    }

    /// Where a seek lands, or why it does not.
    pub open spec fn seek_reply(self, offset: i64, whence: Whence) -> Result<u64, Errno> {
        let base = match whence {
            Whence::Start => 0,
            Whence::Current => self.offset as int,
            Whence::End => self.contents@.len() as int,
            _ => 0,
        };
        if self.form != Form::Regular {
            Err(Errno::ESPIPE)
        } else if whence == Whence::Data || whence == Whence::Hole {
            if offset < 0 || offset >= self.contents@.len() {
                Err(Errno::ENXIO)
            } else if whence == Whence::Data {
                Ok(offset as u64)
            } else {
                Ok(self.contents@.len() as u64)
            }
        } else if base + offset < 0 || base + offset > u64::MAX {
            Err(Errno::EINVAL)
        } else {
            Ok((base + offset) as u64)
        }
    }

    /// What setting the length to `len` answers.
    pub open spec fn set_len_reply(self, len: u64) -> Result<(), Errno> {
        if self.form != Form::Regular || !self.writable {
            Err(Errno::EINVAL)
        } else if len > self.most {
            Err(Errno::EFBIG)
        } else {
            Ok(())
        }
    }
}

fn resize(contents: &mut Vec<u8>, len: usize)
    ensures
        final(contents)@ == resized(old(contents)@, len as nat),
{
    let ghost before = contents@;
    while contents.len() > len
        invariant
            contents@.len() <= before.len(),
            contents@ == before.take(contents@.len() as int),
            len <= before.len() ==> len <= contents@.len(),
            len > before.len() ==> contents@.len() == before.len(),
        decreases contents@.len(),
    {
        let _ = contents.pop();
        proof {
            assert(contents@ =~= before.take(contents@.len() as int));
        }
    }
    while contents.len() < len
        invariant
            contents@.len() <= len,
            contents@.len() < len ==> contents@.len() >= before.len(),
            contents@ == resized(before, contents@.len()),
        decreases len - contents@.len(),
    {
        contents.push(0);
        proof {
            assert(contents@ =~= resized(before, contents@.len()));
        }
    }
    proof {
        assert(contents@ =~= resized(before, len as nat));
    }
}

fn overwrite(contents: &mut Vec<u8>, at: usize, data: &[u8])
    requires
        at + data@.len() <= usize::MAX,
    ensures
        final(contents)@ == overwritten(old(contents)@, at as int, data@),
{
    let ghost before = contents@;
    let end: usize = at + data.len();
    if contents.len() < end {
        resize(contents, end);
    }
    let ghost wide = contents@;
    let mut i: usize = 0;
    while i < data.len()
        invariant
            i <= data@.len(),
            at + data@.len() <= contents@.len(),
            at + data@.len() <= usize::MAX,
            contents@.len() == wide.len(),
            forall|k: int|
                0 <= k < wide.len() ==> #[trigger] contents@[k] == (if at <= k < at + i {
                    data@[k - at]
                } else {
                    wide[k]
                }),
        decreases data@.len() - i,
    {
        contents.set(at + i, data[i]);
        i = i + 1;
    }
    proof {
        assert(contents@ =~= overwritten(before, at as int, data@));
    }
}

impl Backend for MemoryFile {
    open spec fn log(&self) -> Seq<Event> {
        self.asked@
    }

    open spec fn stream(&self) -> bool {
        self.form == Form::Stream
    }

    open spec fn offsets(&self) -> bool {
        self.form != Form::Stream
    }

    fn is_stream(&self) -> (yes: bool) {
        match self.form {
            Form::Stream => true,
            _ => false,
        }
    }

    fn takes_offsets(&self) -> (yes: bool) {
        match self.form {
            Form::Stream => false,
            _ => true,
        }
    }

    fn read(&mut self, at: Option<u64>, want: usize) -> (reply: Result<Vec<u8>, Errno>)
        ensures
            bytes_of(reply) == old(self).read_reply(at, want as nat),
            final(self).same_kind(*old(self)),
            final(self).unsynced == old(self).unsynced,
            final(self).written@ == old(self).written@,
            final(self).offset == (if reply is Ok && at is None && old(self).form == Form::Regular {
                crate::time::saturated(old(self).offset + reply->Ok_0@.len())
            } else {
                old(self).offset as int
            }),
            final(self).contents@ == (if reply is Ok && old(self).form == Form::Stream {
                old(self).contents@.skip(reply->Ok_0@.len() as int)
            } else {
                old(self).contents@
            }),
    {
        let reply: Result<Vec<u8>, Errno> = if !self.readable {
            Err(Errno::EBADF)
        } else {
            match self.form {
                Form::Directory => Err(Errno::EISDIR),
                Form::Stream => {
                    if at.is_some() {
                        Err(Errno::ESPIPE)
                    } else {
                        let out = copy_window(&self.contents, 0, want);
                        let rest = self.contents.split_off(out.len());
                        proof {
                            assert(rest@ =~= old(self).contents@.skip(out@.len() as int));
                        }
                        self.contents = rest;
                        Ok(out)
                    }
                },
                Form::Regular => {
                    match at {
                        Some(place) => Ok(copy_window(&self.contents, place, want)),
                        None => {
                            let out = copy_window(&self.contents, self.offset, want);
                            self.offset = self.offset.saturating_add(out.len() as u64);
                            Ok(out)
                        },
                    }
                },
            }
        };
        self.asked = Ghost(
            self.asked@.push(Event::Read { at, want: want as nat, reply: bytes_of(reply) }),
        );
        reply
    }

    fn write(&mut self, at: Option<u64>, data: &[u8]) -> (reply: Result<usize, Errno>)
        ensures
            count_of(reply) == old(self).write_reply(at, data@),
            final(self).same_kind(*old(self)),
            final(self).unsynced == (old(self).unsynced || reply is Ok),
            reply is Err ==> final(self).contents@ == old(self).contents@ && final(self).written@
                == old(self).written@ && final(self).offset == old(self).offset,
            reply is Ok && old(self).form == Form::Stream ==> final(self).contents@
                == old(self).contents@ && final(self).written@ == old(self).written@ + data@
                && final(self).offset == old(self).offset,
            reply is Ok && old(self).form == Form::Regular ==> final(self).contents@
                == overwritten(old(self).contents@, old(self).write_place(at), data@)
                && final(self).written@ == old(self).written@ && final(self).offset == (if at
                is None {
                old(self).write_place(at) + data@.len()
            } else {
                old(self).offset as int
            }),
    {
        let n: usize = data.len();
        let reply: Result<usize, Errno> = if !self.writable {
            Err(Errno::EBADF)
        } else {
            match self.form {
                Form::Directory => Err(Errno::EISDIR),
                Form::Stream => {
                    if at.is_some() {
                        Err(Errno::ESPIPE)
                    } else if n > self.most || self.written.len() > self.most - n {
                        Err(Errno::ENOSPC)
                    } else {
                        self.written.extend_from_slice(data);
                        proof {
                            assert(self.written@ =~= old(self).written@ + data@);
                        }
                        Ok(n)
                    }
                },
                Form::Regular => {
                    let place: u64 = match at {
                        Some(place) => place,
                        None => if self.append {
                            self.contents.len() as u64
                        } else {
                            self.offset
                        },
                    };
                    if n > self.most || place > (self.most - n) as u64 {
                        Err(Errno::EFBIG)
                    } else {
                        overwrite(&mut self.contents, place as usize, data);
                        if at.is_none() {
                            self.offset = place + n as u64;
                        }
                        Ok(n)
                    }
                },
            }
        };
        if reply.is_ok() {
            self.unsynced = true;
        }
        self.asked = Ghost(
            self.asked@.push(Event::Write { at, data: data@, reply: count_of(reply) }),
        );
        reply
    }

    fn seek(&mut self, offset: i64, whence: Whence) -> (reply: Result<u64, Errno>)
        ensures
            reply == old(self).seek_reply(offset, whence),
            final(self).same_kind(*old(self)),
            final(self).unsynced == old(self).unsynced,
            final(self).contents@ == old(self).contents@,
            final(self).written@ == old(self).written@,
            final(self).offset == match reply {
                Ok(place) => place,
                Err(_) => old(self).offset,
            },
    {
        let reply: Result<u64, Errno> = match self.form {
            Form::Regular => {
                let len: i128 = self.contents.len() as i128;
                let asked: i128 = offset as i128;
                match whence {
                    Whence::Data => {
                        if asked < 0 || asked >= len {
                            Err(Errno::ENXIO)
                        } else {
                            Ok(offset as u64)
                        }
                    },
                    Whence::Hole => {
                        if asked < 0 || asked >= len {
                            Err(Errno::ENXIO)
                        } else {
                            Ok(self.contents.len() as u64)
                        }
                    },
                    _ => {
                        let base: i128 = match whence {
                            Whence::Start => 0,
                            Whence::Current => self.offset as i128,
                            _ => len,
                        };
                        let place: i128 = base + asked;
                        if place < 0 || place > u64::MAX as i128 {
                            Err(Errno::EINVAL)
                        } else {
                            Ok(place as u64)
                        }
                    },
                }
            },
            _ => Err(Errno::ESPIPE),
        };
        if let Ok(place) = reply {
            self.offset = place;
        }
        self.asked = Ghost(self.asked@.push(Event::Seek { offset, whence, reply }));
        reply
    }

    fn unread_stream(&mut self, data: &[u8])
        ensures
            final(self).same_kind(*old(self)),
            final(self).unsynced == old(self).unsynced,
            final(self).written@ == old(self).written@,
            final(self).offset == old(self).offset,
            final(self).contents@ == (if old(self).form == Form::Stream {
                data@ + old(self).contents@
            } else {
                old(self).contents@
            }),
    {
        if let Form::Stream = self.form {
            let mut front: Vec<u8> = Vec::new();
            front.extend_from_slice(data);
            front.append(&mut self.contents);
            proof {
                assert(front@ =~= data@ + old(self).contents@);
            }
            self.contents = front;
        }
        self.asked = Ghost(self.asked@.push(Event::Unread { data: data@ }));
    }

    fn set_len(&mut self, len: u64) -> (reply: Result<(), Errno>)
        ensures
            reply == old(self).set_len_reply(len),
            final(self).same_kind(*old(self)),
            final(self).unsynced == (old(self).unsynced || reply is Ok),
            final(self).written@ == old(self).written@,
            final(self).offset == old(self).offset,
            final(self).contents@ == (if reply is Ok {
                resized(old(self).contents@, len as nat)
            } else {
                old(self).contents@
            }),
    {
        let regular = match self.form {
            Form::Regular => true,
            _ => false,
        };
        let reply: Result<(), Errno> = if !regular || !self.writable {
            Err(Errno::EINVAL)
        } else if len > self.most as u64 {
            Err(Errno::EFBIG)
        } else {
            resize(&mut self.contents, len as usize);
            self.unsynced = true;
            Ok(())
        };
        self.asked = Ghost(self.asked@.push(Event::SetLen { len, reply }));
        reply
    }

    fn grow_to(&mut self, len: u64) -> (reply: Result<(), Errno>)
        ensures
            final(self).same_kind(*old(self)),
            final(self).unsynced == (old(self).unsynced || (reply is Ok && len
                > old(self).contents@.len())),
            final(self).written@ == old(self).written@,
            final(self).offset == old(self).offset,
            reply == (if len <= old(self).contents@.len() {
                Ok(())
            } else {
                old(self).set_len_reply(len)
            }),
            final(self).contents@ == (if reply is Ok && len > old(self).contents@.len() {
                resized(old(self).contents@, len as nat)
            } else {
                old(self).contents@
            }),
    {
        let regular = match self.form {
            Form::Regular => true,
            _ => false,
        };
        let reply: Result<(), Errno> = if len <= self.contents.len() as u64 {
            Ok(())
        } else if !regular || !self.writable {
            Err(Errno::EINVAL)
        } else if len > self.most as u64 {
            Err(Errno::EFBIG)
        } else {
            resize(&mut self.contents, len as usize);
            self.unsynced = true;
            Ok(())
        };
        self.asked = Ghost(self.asked@.push(Event::GrowTo { len, reply }));
        reply
    }

    fn sync(&mut self, data_only: bool) -> (reply: Result<(), Errno>)
        ensures
            reply == (if old(self).form == Form::Stream {
                Err::<(), Errno>(Errno::EINVAL)
            } else {
                Ok(())
            }),
            final(self).same_kind(*old(self)),
            final(self).contents@ == old(self).contents@,
            final(self).written@ == old(self).written@,
            final(self).offset == old(self).offset,
            final(self).unsynced == (old(self).unsynced && reply is Err),
    {
        let reply: Result<(), Errno> = match self.form {
            Form::Stream => Err(Errno::EINVAL),
            _ => {
                self.unsynced = false;
                Ok(())
            },
        };
        self.asked = Ghost(self.asked@.push(Event::Sync { data_only, reply }));
        reply
    }

    fn set_status(&mut self, append: bool, nonblock: bool)
        ensures
            final(self).append == append,
            final(self).form == old(self).form,
            final(self).readable == old(self).readable,
            final(self).writable == old(self).writable,
            final(self).most == old(self).most,
            final(self).contents@ == old(self).contents@,
            final(self).written@ == old(self).written@,
            final(self).offset == old(self).offset,
            final(self).unsynced == old(self).unsynced,
    {
        self.append = append;
        self.asked = Ghost(self.asked@.push(Event::SetStatus { append, nonblock }));
    }
}

// ---------------------------------------------------------------------------
// A file that keeps its bytes
// ---------------------------------------------------------------------------

/// What a file that keeps its bytes holds, and where its offset is.
#[verifier::ext_equal]
pub ghost struct Kept {
    /// What it holds.
    pub contents: Seq<u8>,
    /// Where the next read or write is.
    pub offset: int,
}

impl Kept {
    /// Where a request at `at`, or at the offset, goes.
    pub open spec fn place(self, at: Option<u64>) -> int {
        match at {
            Some(place) => place as int,
            None => self.offset,
        }
    }

    /// The offset after a request at `at` moved `n` bytes.
    pub open spec fn past(self, at: Option<u64>, n: int) -> int {
        match at {
            Some(_) => self.offset,
            None => self.offset + n,
        }
    }

    /// Whether such a file replies so: a read gets what is held there, and a
    /// write goes in, whole or in part.
    pub open spec fn replies(self, event: Event) -> bool {
        match event {
            Event::Read { at, want, reply } => reply == Ok::<Seq<u8>, Errno>(
                window(self.contents, self.place(at), want as int),
            ),
            Event::Write { data, reply, .. } => reply matches Ok(n) && n <= data.len(),
            _ => false,
        }
    }

    /// The file after it replied.
    pub open spec fn after(self, event: Event) -> Kept {
        match event {
            Event::Read { at, reply: Ok(data), .. } => Kept {
                offset: self.past(at, data.len() as int),
                ..self
            },
            Event::Write { at, data, reply: Ok(n) } => if n == 0 {
                self
            } else {
                Kept {
                    contents: overwritten(self.contents, self.place(at), data.take(n as int)),
                    offset: self.past(at, n as int),
                }
            },
            _ => self,
        }
    }

    /// Whether such a file replies so to one request after another.
    pub open spec fn replies_all(self, events: Seq<Event>) -> bool
        decreases events.len(),
    {
        events.len() == 0 || (self.replies(events[0]) && self.after(events[0]).replies_all(
            events.skip(1),
        ))
    }

    /// The file after it replied to them all.
    pub open spec fn after_all(self, events: Seq<Event>) -> Kept
        decreases events.len(),
    {
        if events.len() == 0 {
            self
        } else {
            self.after(events[0]).after_all(events.skip(1))
        }
    }
}

/// Writing two pieces one behind the other is writing them both.
proof fn lemma_overwritten_append(s: Seq<u8>, at: int, first: Seq<u8>, second: Seq<u8>)
    requires
        0 <= at,
    ensures
        overwritten(overwritten(s, at, first), at + first.len(), second) == overwritten(
            s,
            at,
            first + second,
        ),
{
    assert(overwritten(overwritten(s, at, first), at + first.len(), second) =~= overwritten(
        s,
        at,
        first + second,
    ));
}

/// What a file at `offset` holds once a write there has run its course.
proof fn lemma_kept_by_a_write(
    kept: Kept,
    events: Seq<Event>,
    m: Memory,
    buf: int,
    len: int,
    done: int,
    offset: u64,
    n: u64,
)
    requires
        0 <= done <= len <= MAX_RW_COUNT,
        write_trace(events, m, buf, len, done, Position::At(offset), Ok(n)),
        kept.replies_all(events),
    ensures
        done <= n <= len,
        kept.after_all(events) == if n == done {
            kept
        } else {
            Kept {
                contents: overwritten(
                    kept.contents,
                    offset + done,
                    m.read(buf + done, (n - done) as nat),
                ),
                ..kept
            }
        },
    decreases events.len(),
{
    if done < len && events.len() > 0 {
        match events[0] {
            Event::Write { at, data, reply: Ok(wrote) } => {
                let want = min_int(len - done, CHUNK as int);
                assert(data == m.read(buf + done, want as nat));
                assert(kept.replies(events[0]));
                let next = kept.after(events[0]);
                assert(kept.after_all(events) == next.after_all(events.skip(1)));
                if wrote < want {
                    assert(next.after_all(events.skip(1)) == next);
                    assert(data.take(wrote as int) =~= m.read(buf + done, wrote));
                } else {
                    lemma_kept_by_a_write(
                        next,
                        events.skip(1),
                        m,
                        buf,
                        len,
                        done + wrote,
                        offset,
                        n,
                    );
                    assert(data.take(wrote as int) =~= m.read(buf + done, wrote));
                    let rest = m.read(buf + done + wrote, (n - done - wrote) as nat);
                    lemma_overwritten_append(
                        kept.contents,
                        offset + done,
                        m.read(buf + done, wrote),
                        rest,
                    );
                    assert(m.read(buf + done, wrote) + rest =~= m.read(
                        buf + done,
                        (n - done) as nat,
                    ));
                    if n == done + wrote {
                        assert(m.read(buf + done, wrote) + rest =~= m.read(buf + done, wrote));
                    }
                }
            },
            _ => {},
        }
    }
}

/// What a read at `offset` of a file that keeps its bytes brings.
proof fn lemma_brought_by_a_read(
    kept: Kept,
    events: Seq<Event>,
    m: Memory,
    buf: int,
    len: int,
    done: int,
    offset: u64,
    result: Result<u64, Errno>,
    after: Memory,
)
    requires
        0 <= buf,
        0 <= done <= len <= MAX_RW_COUNT,
        read_trace(events, m, buf, len, done, false, Position::At(offset), result, after),
        kept.replies_all(events),
        m.can_write(buf + done, len - done),
        buf + len <= u64::MAX,
        offset + len <= u64::MAX,
    ensures
        ({
            let data = window(kept.contents, offset + done, len - done);
            &&& result == Ok::<u64, Errno>((done + data.len()) as u64)
            &&& after == m.store(buf + done, data)
        }),
    decreases events.len(),
{
    let data = window(kept.contents, offset + done, len - done);
    if done >= len {
        assert(data =~= Seq::<u8>::empty());
        lemma_store_empty(m, buf + done);
    } else {
        match events[0] {
            Event::Read { at, want, reply: Ok(got) } => {
                assert(kept.replies(events[0]));
                assert(got == window(kept.contents, offset + done, want as int));
                assert(m.can_write(buf + done, got.len() as int));
                if got.len() < want {
                    assert(got =~= data);
                } else {
                    let between = m.store(buf + done, got);
                    let next = kept.after(events[0]);
                    lemma_store_permissions(
                        m,
                        buf + done,
                        got,
                        buf + done + got.len(),
                        len - done - got.len(),
                    );
                    assert forall|a: int|
                        buf + done + got.len() <= a < buf + len implies #[trigger] m.writable.contains(
                        a,
                    ) by {}
                    lemma_brought_by_a_read(
                        next,
                        events.skip(1),
                        between,
                        buf,
                        len,
                        done + got.len(),
                        offset,
                        result,
                        after,
                    );
                    let rest = window(kept.contents, offset + done + got.len(), len - done - got.len());
                    lemma_store_append(m, buf + done, got, rest);
                    assert(got + rest =~= data);
                }
            },
            _ => {},
        }
    }
}

/// A file that keeps its bytes gives back what it was given: of a write that
/// reports `n` bytes, a read of as many at the same offset brings exactly
/// those.
pub proof fn law_a_file_gives_back_what_it_was_given(
    kept: Kept,
    offset: u64,
    written: Seq<Event>,
    m: Memory,
    from: int,
    len: int,
    n: u64,
    read: Seq<Event>,
    before: Memory,
    to: int,
    result: Result<u64, Errno>,
    after: Memory,
)
    requires
        0 <= len,
        write_done(written, m, from, len, true, true, Position::At(offset), Ok(n)),
        kept.replies_all(written),
        read_done(read, before, to, n as int, false, Position::At(offset), result, after),
        kept.after_all(written).replies_all(read),
        before.valid(),
        0 <= to,
        before.can_write(to, n as int),
        to + n <= u64::MAX,
        offset + n <= u64::MAX,
    ensures
        result == Ok::<u64, Errno>(n),
        after.read(to, n as nat) == m.read(from, n as nat),
{
    if len > 0 {
        let most = min_int(len, MAX_RW_COUNT as int);
        lemma_kept_by_a_write(kept, written, m, from, most, 0, offset, n);
    }
    if n == 0 {
        assert(after.read(to, 0) =~= m.read(from, 0));
        assert(kept.after_all(written).replies(read[0]));
    } else {
        let held = kept.after_all(written);
        let data = m.read(from, n as nat);
        lemma_brought_by_a_read(held, read, before, to, n as int, 0, offset, result, after);
        assert(window(held.contents, offset as int, n as int) =~= data);
        assert forall|a: int| to <= a < to + n implies #[trigger] before.bytes.dom().contains(
            a,
        ) by {
            assert(before.writable.contains(a));
        }
        lemma_read_after_store(before, to, data, to, n as nat);
    }
}

/// What is read at a place is what the file holds there, as much as was wanted
/// or as there is.
pub proof fn law_a_window_is_what_is_there(s: Seq<u8>, at: int, want: int, i: int)
    requires
        0 <= at,
        0 <= want,
    ensures
        at >= s.len() ==> window(s, at, want).len() == 0,
        at < s.len() && at + want <= s.len() ==> window(s, at, want).len() == want,
        at < s.len() && at + want > s.len() ==> window(s, at, want).len() == s.len() - at,
        0 <= i < window(s, at, want).len() ==> window(s, at, want)[i] == s[at + i],
{
}

/// What is written at a place is there afterwards, what was elsewhere stays,
/// and what is in between and was never written reads as zeros.
pub proof fn law_a_write_changes_its_own_place(s: Seq<u8>, at: int, data: Seq<u8>, i: int)
    requires
        0 <= at,
    ensures
        0 <= i < data.len() ==> overwritten(s, at, data)[at + i] == data[i],
        0 <= i < s.len() && (i < at || at + data.len() <= i) ==> overwritten(s, at, data)[i]
            == s[i],
        s.len() <= i < at ==> overwritten(s, at, data)[i] == 0,
        overwritten(s, at, data).len() >= s.len(),
        overwritten(s, at, data).len() >= at + data.len(),
        overwritten(s, at, data).len() == s.len() || overwritten(s, at, data).len() == at
            + data.len(),
{
}

/// A new length keeps what fits in it, and fills what is new with zeros.
pub proof fn law_a_new_length_keeps_what_fits(s: Seq<u8>, len: nat, i: int)
    ensures
        resized(s, len).len() == len,
        0 <= i < len && i < s.len() ==> resized(s, len)[i] == s[i],
        s.len() <= i < len ==> resized(s, len)[i] == 0,
{
}

/// A write goes where it was told: to an offset that was named, to the end of a
/// file that appends, and else to the file's own offset.
pub proof fn law_a_write_goes_where_it_was_told(file: MemoryFile, at: Option<u64>)
    ensures
        at matches Some(place) ==> file.write_place(at) == place,
        at is None && file.append ==> file.write_place(at) == file.contents@.len(),
        at is None && !file.append ==> file.write_place(at) == file.offset,
{
}

/// A seek lands as far from where it is measured as it was told, in a regular
/// file, and is refused where that is no place.
pub proof fn law_a_seek_lands_where_it_was_told(file: MemoryFile, offset: i64, whence: Whence)
    requires
        file.contents@.len() <= u64::MAX,
    ensures
        file.form != Form::Regular ==> file.seek_reply(offset, whence) == Err::<u64, Errno>(
            Errno::ESPIPE,
        ),
        file.form == Form::Regular ==> {
            let reply = file.seek_reply(offset, whence);
            &&& whence == Whence::Start ==> (reply is Ok <==> offset >= 0)
            &&& whence == Whence::Start ==> (reply matches Ok(at) ==> at == offset)
            &&& whence == Whence::Current ==> (reply matches Ok(at) ==> at - file.offset == offset)
            &&& whence == Whence::End ==> (reply matches Ok(at) ==> at - file.contents@.len()
                == offset)
            &&& whence == Whence::Data ==> (reply matches Ok(at) ==> at == offset && at
                < file.contents@.len())
            &&& whence == Whence::Hole ==> (reply matches Ok(at) ==> at == file.contents@.len())
            &&& whence == Whence::Current && 0 <= file.offset + offset <= u64::MAX ==> reply is Ok
            &&& whence == Whence::End && 0 <= file.contents@.len() + offset <= u64::MAX ==> reply
                is Ok
        },
{
}

/// A write is taken whole wherever it may be made and fits, and is refused for
/// the first thing that stands against it.
pub proof fn law_a_write_that_fits_is_taken(file: MemoryFile, at: Option<u64>, data: Seq<u8>)
    ensures
        ({
            let reply = file.write_reply(at, data);
            let place: int = match at {
                Some(place) => place as int,
                None => if file.append {
                    file.contents@.len() as int
                } else {
                    file.offset as int
                },
            };
            let fits = if file.form == Form::Stream {
                at is None && file.written@.len() + data.len() <= file.most
            } else {
                place + data.len() <= file.most
            };
            &&& reply is Ok <==> file.writable && file.form != Form::Directory && fits
            &&& reply matches Ok(n) ==> n == data.len()
            &&& !file.writable ==> reply == Err::<nat, Errno>(Errno::EBADF)
            &&& file.writable && file.form == Form::Directory ==> reply == Err::<nat, Errno>(
                Errno::EISDIR,
            )
            &&& file.writable && file.form == Form::Stream && at is Some ==> reply == Err::<
                nat,
                Errno,
            >(Errno::ESPIPE)
            &&& file.writable && file.form == Form::Stream && at is None && !fits ==> reply
                == Err::<nat, Errno>(Errno::ENOSPC)
            &&& file.writable && file.form == Form::Regular && !fits ==> reply == Err::<
                nat,
                Errno,
            >(Errno::EFBIG)
        }),
{
}

/// A length is set where a file may be written and has one, up to the most it
/// may have.
pub proof fn law_a_length_that_fits_is_set(file: MemoryFile, len: u64)
    ensures
        file.set_len_reply(len) is Ok <==> file.form == Form::Regular && file.writable && len
            <= file.most,
        file.set_len_reply(len) matches Err(e) ==> (e == Errno::EFBIG <==> file.form
            == Form::Regular && file.writable) && (e == Errno::EINVAL || e == Errno::EFBIG),
{
}

} // verus!
