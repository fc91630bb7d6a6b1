//! Turning an executable image into an address space a program can run in.
//!
//! What the headers of an image say is given; what is decided here is where it
//! goes, which of its pages are the file's own and which are copied, what
//! every page may be used for, and what is refused. The outcome is a
//! [`Placed`] image: the mappings to make, the copies to make into them, and
//! the protections to leave them with, for the address space to carry out.
//!
//! A page wholly inside one segment's file contents, and in no other segment,
//! is mapped from the file. The rest is anonymous memory that contents are
//! copied into. Permissions are computed per page: a page two segments share
//! gets the union of theirs, and an image for which that union is writable and
//! executable at once is refused.
//!
//! A program that names a dynamic linker is not entered: both images are
//! placed, and the linker is started and told where the program is.

use vstd::prelude::*;

use crate::errno::Errno;
use crate::file::{bytes_of, min_int, since, Backend, Event};
use crate::uaccess::{AddressSpace, Memory};

verus! {

pub const PAGE_SIZE: u64 = 4096;

/// A segment to be loaded.
pub const PT_LOAD: u32 = 1;

/// A segment that names the dynamic linker.
pub const PT_INTERP: u32 = 3;

/// Executable.
pub const PF_X: u32 = 1;

/// Writable.
pub const PF_W: u32 = 2;

/// Readable.
pub const PF_R: u32 = 4;

/// The longest linker name read from past an image's headers.
pub const INTERPRETER_MOST: u64 = 4096;

/// What is wrong with an image's headers.
#[derive(Clone, Copy, Debug, PartialEq, Eq, Structural)]
pub enum ElfError {
    /// They are not an executable's.
    Malformed,
    /// A segment's contents are not inside the image.
    SegmentOutOfBounds,
}

/// What the address space can refuse.
#[derive(Clone, Copy, Debug, PartialEq, Eq, Structural)]
pub enum SpaceError {
    /// No memory.
    OutOfMemory,
    /// The object behind a mapping refused.
    Backing,
    /// A page could not be read.
    Unreadable,
    /// Not a range of the user half.
    NotUserRange,
    /// Not a range at all, or one already mapped.
    BadRange,
    /// Nothing is mapped there.
    NotMapped,
    /// The mapping does not allow it.
    Refused,
    /// Past the end of the file mapped there.
    PastEnd,
}

/// Why an image could not be loaded.
#[derive(Clone, Copy, Debug, PartialEq, Eq, Structural)]
pub enum LoadError {
    /// Its headers were refused.
    Malformed(ElfError),
    /// Built for another machine.
    WrongMachine(u16),
    /// It names a linker and none was supplied.
    NeedsInterpreter,
    /// It names a linker and does not say which.
    BadInterpreter,
    /// The linker is linked to a fixed address.
    InterpreterNotPie,
    /// The linker names a linker of its own.
    InterpreterChain,
    /// It has nothing to load.
    Empty,
    /// A page would have to be both writable and executable.
    WriteExecute(u64),
    /// The entry point is not a user address.
    EntryNotUser(u64),
    /// The address space refused a mapping.
    Space(SpaceError),
    /// A segment's contents could not be written into the space.
    Copy,
    /// The file could not be read.
    Read(Errno),
}

/// One program header.
#[derive(Clone, Copy, Debug, PartialEq, Eq, Structural)]
pub struct Segment {
    /// What it is for.
    pub kind: u32,
    /// `PF_*`.
    pub flags: u32,
    /// Where its contents are in the file.
    pub offset: u64,
    /// Where it is linked.
    pub vaddr: u64,
    /// Bytes of it in the file.
    pub filesz: u64,
    /// Bytes of it in memory.
    pub memsz: u64,
}

/// An image's headers.
#[derive(Debug)]
pub struct Elf {
    /// The machine it is built for.
    pub machine: u16,
    /// It may be placed anywhere.
    pub pie: bool,
    /// Where execution starts, as linked.
    pub entry: u64,
    /// Where its program headers are in the file.
    pub phoff: u64,
    /// The size of one.
    pub phentsize: u16,
    /// How many there are.
    pub phnum: u16,
    /// The program headers.
    pub segments: Vec<Segment>,
}

/// Where an image's bytes are.
#[derive(Debug)]
pub enum Source {
    /// All of them, in kernel memory.
    Bytes(Vec<u8>),
    /// A file, of which the head has been read.
    File {
        /// The bytes that hold the headers.
        head: Vec<u8>,
        /// The length of the whole file.
        len: u64,
        /// Where in its object the file's first byte is, for a file whose
        /// pages can be mapped.
        object: Option<u64>,
    },
}

impl Source {
    /// The image's first bytes, which hold its headers.
    pub open spec fn spec_head(self) -> Seq<u8> {
        match self {
            Source::Bytes(bytes) => bytes@,
            Source::File { head, .. } => head@,
        }
    }

    /// The length of the whole image.
    pub open spec fn spec_len(self) -> int {
        match self {
            Source::Bytes(bytes) => bytes@.len() as int,
            Source::File { len, .. } => len as int,
        }
    }

    /// The image's first bytes, which hold its headers: all of it, for bytes
    /// in memory.
    pub fn head(&self) -> (bytes: &[u8])
        ensures
            bytes@ == self.spec_head(),
    {
        match self {
            Source::Bytes(bytes) => bytes.as_slice(),
            Source::File { head, .. } => head.as_slice(),
        }
    }

    /// The length of the whole image.
    pub fn len(&self) -> (len: u64)
        ensures
            len == self.spec_len(),
    {
        match self {
            Source::Bytes(bytes) => bytes.len() as u64,
            Source::File { len, .. } => *len,
        }
    }
}

// ---------------------------------------------------------------------------
// Pages and ranges
// ---------------------------------------------------------------------------

/// `address`, rounded down to its page.
pub open spec fn spec_page_down(address: int) -> int {
    address - address % 4096
}

/// `address`, rounded up to a page; the last page for one that would wrap.
pub open spec fn spec_page_up(address: int) -> int {
    if address + 4095 <= u64::MAX {
        spec_page_down(address + 4095)
    } else {
        spec_page_down(u64::MAX as int)
    }
}

/// `address`, rounded down to its page.
pub fn page_down(address: u64) -> (out: u64)
    ensures
        out == spec_page_down(address as int),
        out % 4096 == 0,
        out <= address,
{
    address - address % PAGE_SIZE
}

/// `address`, rounded up to a page; the last page for one that would wrap.
pub fn page_up(address: u64) -> (out: u64)
    ensures
        out == spec_page_up(address as int),
        out % 4096 == 0,
{
    match address.checked_add(PAGE_SIZE - 1) {
        Some(up) => page_down(up),
        None => page_down(u64::MAX),
    }
}

/// Whether `x` is in one of `pieces`, each `[start, end)`.
pub open spec fn covered(pieces: Seq<(u64, u64)>, x: int) -> bool {
    exists|i: int| 0 <= i < pieces.len() && (#[trigger] pieces[i]).0 <= x < pieces[i].1
}

/// Adding a piece covers what it covers, and nothing else.
proof fn lemma_covered_push(pieces: Seq<(u64, u64)>, piece: (u64, u64))
    ensures
        forall|x: int| #[trigger]
            covered(pieces.push(piece), x) == (covered(pieces, x) || piece.0 <= x < piece.1),
{
    assert forall|x: int| #[trigger]
        covered(pieces.push(piece), x) == (covered(pieces, x) || piece.0 <= x < piece.1) by {
        let more = pieces.push(piece);
        if covered(more, x) {
            let i = choose|i: int| 0 <= i < more.len() && (#[trigger] more[i]).0 <= x < more[i].1;
            if i < pieces.len() {
                assert(pieces[i] == more[i]);
            }
        }
        if covered(pieces, x) {
            let i = choose|i: int|
                0 <= i < pieces.len() && (#[trigger] pieces[i]).0 <= x < pieces[i].1;
            assert(more[i] == pieces[i]);
        }
        if piece.0 <= x < piece.1 {
            assert(more[pieces.len() as int] == piece);
        }
    }
}

/// Whether `pieces` go up, none reaching into the next.
pub open spec fn in_order(pieces: Seq<(u64, u64)>) -> bool {
    forall|i: int, j: int| 0 <= i < j < pieces.len() ==> pieces[i].1 <= pieces[j].0
}

/// Whether every end of every piece is a page's.
pub open spec fn paged(pieces: Seq<(u64, u64)>) -> bool {
    forall|i: int|
        0 <= i < pieces.len() ==> (#[trigger] pieces[i]).0 % 4096 == 0 && pieces[i].1 % 4096 == 0
}

/// What is left of one piece without `[cut, cut_end)`: all of it, or what is
/// below the cut and then what is above.
pub open spec fn left_of(piece: (u64, u64), cut: u64, cut_end: u64) -> Seq<(u64, u64)> {
    if cut_end <= piece.0 || piece.1 <= cut {
        seq![piece]
    } else {
        let below = if piece.0 < cut {
            seq![(piece.0, cut)]
        } else {
            Seq::empty()
        };
        let above = if cut_end < piece.1 {
            seq![(cut_end, piece.1)]
        } else {
            Seq::empty()
        };
        below + above
    }
}

/// What is left of `pieces` without `[cut, cut_end)`, piece by piece.
pub open spec fn spec_without(pieces: Seq<(u64, u64)>, cut: u64, cut_end: u64) -> Seq<(u64, u64)>
    decreases pieces.len(),
{
    if pieces.len() == 0 {
        Seq::empty()
    } else {
        spec_without(pieces.drop_last(), cut, cut_end) + left_of(pieces.last(), cut, cut_end)
    }
}

/// Whether no piece ends before it starts, but for one alone.
spec fn forward(pieces: Seq<(u64, u64)>) -> bool {
    pieces.len() <= 1 || forall|i: int|
        0 <= i < pieces.len() ==> (#[trigger] pieces[i]).0 <= pieces[i].1
}

/// Cutting keeps pieces in order, and their ends on pages.
proof fn lemma_without_in_order(pieces: Seq<(u64, u64)>, cut: u64, cut_end: u64)
    requires
        in_order(pieces),
        forward(pieces),
        cut <= cut_end,
    ensures
        in_order(spec_without(pieces, cut, cut_end)),
        forward(spec_without(pieces, cut, cut_end)),
        forall|i: int|
            0 <= i < spec_without(pieces, cut, cut_end).len() ==> (#[trigger] spec_without(
                pieces,
                cut,
                cut_end,
            )[i]).1 <= pieces.last().1,
        pieces.len() > 1 || (pieces.len() == 1 && pieces[0].0 <= pieces[0].1) ==> forall|i: int|
            0 <= i < spec_without(pieces, cut, cut_end).len() ==> (#[trigger] spec_without(
                pieces,
                cut,
                cut_end,
            )[i]).0 <= spec_without(pieces, cut, cut_end)[i].1,
    decreases pieces.len(),
{
    if pieces.len() > 0 {
        let fewer = pieces.drop_last();
        let last = pieces.last();
        lemma_without_in_order(fewer, cut, cut_end);
        let before = spec_without(fewer, cut, cut_end);
        let more = left_of(last, cut, cut_end);
        let all = spec_without(pieces, cut, cut_end);
        assert(all == before + more);
        if fewer.len() > 0 {
            assert(fewer.last() == pieces[pieces.len() - 2]);
            assert(fewer.last().1 <= last.0);
            assert(pieces[pieces.len() - 1].0 <= pieces[pieces.len() - 1].1);
            assert(pieces[pieces.len() - 2].0 <= pieces[pieces.len() - 2].1);
        } else {
            assert(before.len() == 0);
        }
        assert forall|i: int, j: int| 0 <= i < j < all.len() implies all[i].1 <= all[j].0 by {
            if j < before.len() {
                assert(all[i] == before[i] && all[j] == before[j]);
            } else if i < before.len() {
                assert(all[i] == before[i] && all[j] == more[j - before.len()]);
                assert(before[i].1 <= fewer.last().1);
            } else {
                assert(all[i] == more[i - before.len()] && all[j] == more[j - before.len()]);
            }
        }
        assert forall|i: int| 0 <= i < all.len() implies (#[trigger] all[i]).1 <= last.1 by {
            if i < before.len() {
                assert(all[i] == before[i]);
            } else {
                assert(all[i] == more[i - before.len()]);
            }
        }
        if pieces.len() > 1 || pieces[0].0 <= pieces[0].1 {
            assert forall|i: int| 0 <= i < all.len() implies (#[trigger] all[i]).0
                <= all[i].1 by {
                if i < before.len() {
                    assert(all[i] == before[i]);
                } else {
                    assert(all[i] == more[i - before.len()]);
                }
            }
        }
    }
}

/// Cutting leaves what is outside the cut.
proof fn lemma_without_covered(pieces: Seq<(u64, u64)>, cut: u64, cut_end: u64)
    ensures
        forall|x: int| #[trigger]
            covered(spec_without(pieces, cut, cut_end), x) == (covered(pieces, x) && !(cut <= x
                < cut_end)),
    decreases pieces.len(),
{
    if pieces.len() > 0 {
        let fewer = pieces.drop_last();
        let piece = pieces.last();
        let before = spec_without(fewer, cut, cut_end);
        let more = left_of(piece, cut, cut_end);
        let all = spec_without(pieces, cut, cut_end);
        lemma_without_covered(fewer, cut, cut_end);
        lemma_covered_push(fewer, piece);
        assert(fewer.push(piece) =~= pieces);
        assert forall|x: int| #[trigger] covered(all, x) == (covered(pieces, x) && !(cut <= x
            < cut_end)) by {
            assert(covered(before, x) == (covered(fewer, x) && !(cut <= x < cut_end)));
            if covered(all, x) {
                let i = choose|i: int| 0 <= i < all.len() && (#[trigger] all[i]).0 <= x < all[i].1;
                if i < before.len() {
                    assert(before[i] == all[i]);
                } else {
                    assert(more[i - before.len()] == all[i]);
                }
            }
            if covered(before, x) {
                let i = choose|i: int|
                    0 <= i < before.len() && (#[trigger] before[i]).0 <= x < before[i].1;
                assert(all[i] == before[i]);
            }
            if piece.0 <= x < piece.1 && !(cut <= x < cut_end) {
                let i: int = if more.len() == 2 && x >= cut_end {
                    1
                } else {
                    0
                };
                assert(more[i].0 <= x < more[i].1);
                assert(all[before.len() + i] == more[i]);
            }
        }
    }
}

/// Cutting at pages keeps every end on a page.
proof fn lemma_without_paged(pieces: Seq<(u64, u64)>, cut: u64, cut_end: u64)
    requires
        paged(pieces),
        cut % 4096 == 0,
        cut_end % 4096 == 0,
    ensures
        paged(spec_without(pieces, cut, cut_end)),
    decreases pieces.len(),
{
    if pieces.len() > 0 {
        let fewer = pieces.drop_last();
        let more = left_of(pieces.last(), cut, cut_end);
        let before = spec_without(fewer, cut, cut_end);
        assert(pieces[pieces.len() - 1].0 % 4096 == 0);
        lemma_without_paged(fewer, cut, cut_end);
        let all = spec_without(pieces, cut, cut_end);
        assert(all == before + more);
        assert forall|i: int| 0 <= i < all.len() implies (#[trigger] all[i]).0 % 4096 == 0
            && all[i].1 % 4096 == 0 by {
            if i < before.len() {
                assert(all[i] == before[i]);
            } else {
                assert(all[i] == more[i - before.len()]);
            }
        }
    }
}

/// `pieces` less `[cut, cut_end)`.
pub fn without(pieces: &Vec<(u64, u64)>, cut: u64, cut_end: u64) -> (left: Vec<(u64, u64)>)
    ensures
        left@ == spec_without(pieces@, cut, cut_end),
        forall|x: int| #[trigger]
            covered(left@, x) == (covered(pieces@, x) && !(cut <= x < cut_end)),
        cut <= cut_end && in_order(pieces@) && (forall|i: int|
            0 <= i < pieces@.len() ==> (#[trigger] pieces@[i]).0 <= pieces@[i].1) ==> in_order(
            left@,
        ),
{
    let mut left: Vec<(u64, u64)> = Vec::new();
    let mut i: usize = 0;
    proof {
        assert(left@ =~= spec_without(pieces@.take(0), cut, cut_end));
    }
    while i < pieces.len()
        invariant
            i <= pieces@.len(),
            left@ == spec_without(pieces@.take(i as int), cut, cut_end),
        decreases pieces@.len() - i,
    {
        let (start, end) = pieces[i];
        let ghost before = left@;
        if cut_end <= start || end <= cut {
            left.push((start, end));
        } else {
            if start < cut {
                left.push((start, cut));
            }
            if cut_end < end {
                left.push((cut_end, end));
            }
        }
        proof {
            assert(pieces@.take(i + 1).drop_last() =~= pieces@.take(i as int));
            assert(pieces@.take(i + 1).last() == (start, end));
            assert(left@ =~= before + left_of((start, end), cut, cut_end));
        }
        i = i + 1;
    }
    proof {
        assert(pieces@.take(pieces@.len() as int) =~= pieces@);
        lemma_without_covered(pieces@, cut, cut_end);
        if cut <= cut_end && in_order(pieces@) && (forall|i: int|
            0 <= i < pieces@.len() ==> (#[trigger] pieces@[i]).0 <= pieces@[i].1) {
            lemma_without_in_order(pieces@, cut, cut_end);
        }
    }
    left
}

/// Pages mapped from the file: `[start, end)`, from byte `offset` of the
/// file's object, with the permissions of the one segment they belong to.
#[derive(Clone, Copy, Debug, PartialEq, Eq, Structural)]
pub struct FileRun {
    pub start: u64,
    pub end: u64,
    pub offset: u64,
    pub flags: u32,
}

/// Whether `x` is in one of `runs`.
pub open spec fn in_runs(runs: Seq<FileRun>, x: int) -> bool {
    exists|i: int| 0 <= i < runs.len() && (#[trigger] runs[i]).start <= x < runs[i].end
}

/// `[start, end)` less every one of `runs`, one after the other.
pub open spec fn cut_by(start: u64, end: u64, runs: Seq<FileRun>) -> Seq<(u64, u64)>
    decreases runs.len(),
{
    if runs.len() == 0 {
        seq![(start, end)]
    } else {
        spec_without(
            cut_by(start, end, runs.drop_last()),
            runs.last().start,
            runs.last().end,
        )
    }
}

/// The pieces that hold anything.
pub open spec fn spec_nonempty(pieces: Seq<(u64, u64)>) -> Seq<(u64, u64)>
    decreases pieces.len(),
{
    if pieces.len() == 0 {
        Seq::empty()
    } else {
        let before = spec_nonempty(pieces.drop_last());
        if pieces.last().0 < pieces.last().1 {
            before.push(pieces.last())
        } else {
            before
        }
    }
}

/// Whether no run ends before it starts.
pub open spec fn runs_forward(runs: Seq<FileRun>) -> bool {
    forall|i: int| 0 <= i < runs.len() ==> (#[trigger] runs[i]).start <= runs[i].end
}

/// Whether every run is whole pages.
pub open spec fn runs_paged(runs: Seq<FileRun>) -> bool {
    forall|i: int|
        0 <= i < runs.len() ==> (#[trigger] runs[i]).start % 4096 == 0 && runs[i].end % 4096 == 0
}

/// Whether runs go up, none reaching into the next.
pub open spec fn runs_in_order(runs: Seq<FileRun>) -> bool {
    forall|i: int, j: int| 0 <= i < j < runs.len() ==> runs[i].end <= runs[j].start
}

proof fn lemma_cut_by(start: u64, end: u64, runs: Seq<FileRun>)
    ensures
        runs_forward(runs) ==> in_order(cut_by(start, end, runs)) && forward(
            cut_by(start, end, runs),
        ),
        runs_paged(runs) && start % 4096 == 0 && end % 4096 == 0 ==> paged(
            cut_by(start, end, runs),
        ),
    decreases runs.len(),
{
    if runs.len() > 0 {
        let fewer = runs.drop_last();
        lemma_cut_by(start, end, fewer);
        let last = runs[runs.len() - 1];
        if runs_forward(runs) {
            assert forall|i: int| 0 <= i < fewer.len() implies (#[trigger] fewer[i]).start
                <= fewer[i].end by {
                assert(fewer[i] == runs[i]);
            }
            assert(last.start <= last.end);
            lemma_without_in_order(cut_by(start, end, fewer), last.start, last.end);
        }
        if runs_paged(runs) && start % 4096 == 0 && end % 4096 == 0 {
            assert forall|i: int| 0 <= i < fewer.len() implies (#[trigger] fewer[i]).start % 4096
                == 0 && fewer[i].end % 4096 == 0 by {
                assert(fewer[i] == runs[i]);
            }
            assert(last.start % 4096 == 0);
            lemma_without_paged(cut_by(start, end, fewer), last.start, last.end);
        }
    }
}

/// Leaving out the empty pieces keeps the rest in order and on pages.
proof fn lemma_nonempty(pieces: Seq<(u64, u64)>)
    ensures
        in_order(pieces) && forward(pieces) ==> in_order(spec_nonempty(pieces)),
        paged(pieces) ==> paged(spec_nonempty(pieces)),
        forall|i: int|
            0 <= i < spec_nonempty(pieces).len() ==> pieces.contains(
                #[trigger] spec_nonempty(pieces)[i],
            ),
        forall|i: int|
            0 <= i < spec_nonempty(pieces).len() ==> (#[trigger] spec_nonempty(pieces)[i]).0
                < spec_nonempty(pieces)[i].1,
    decreases pieces.len(),
{
    if pieces.len() > 0 {
        let fewer = pieces.drop_last();
        let last = pieces.last();
        lemma_nonempty(fewer);
        let before = spec_nonempty(fewer);
        let all = spec_nonempty(pieces);
        assert forall|i: int| 0 <= i < all.len() implies pieces.contains(#[trigger] all[i]) by {
            if i < before.len() {
                assert(fewer.contains(before[i]));
                let j = choose|j: int| 0 <= j < fewer.len() && fewer[j] == before[i];
                assert(pieces[j] == all[i]);
            } else {
                assert(pieces[pieces.len() - 1] == all[i]);
            }
        }
        if in_order(pieces) && forward(pieces) {
            assert forall|i: int, j: int| 0 <= i < j < all.len() implies all[i].1 <= all[j].0 by {
                if j < before.len() {
                    assert(all[i] == before[i] && all[j] == before[j]);
                } else {
                    assert(fewer.contains(before[i]));
                    let k = choose|k: int| 0 <= k < fewer.len() && fewer[k] == before[i];
                    assert(pieces[k].1 <= pieces[pieces.len() - 1].0);
                }
            }
        }
        if paged(pieces) {
            assert forall|i: int| 0 <= i < fewer.len() implies (#[trigger] fewer[i]).0 % 4096 == 0
                && fewer[i].1 % 4096 == 0 by {
                assert(fewer[i] == pieces[i]);
            }
            assert(pieces[pieces.len() - 1].0 % 4096 == 0);
        }
    }
}

/// `[start, end)` less every one of `runs`: the pieces left, none of them
/// empty, lowest first and none reaching into the next, and whole pages where
/// everything is.
pub fn outside(start: u64, end: u64, runs: &Vec<FileRun>) -> (pieces: Vec<(u64, u64)>)
    ensures
        pieces@ == spec_nonempty(cut_by(start, end, runs@)),
        forall|x: int| #[trigger]
            covered(pieces@, x) == (start <= x < end && !in_runs(runs@, x)),
        forall|i: int| 0 <= i < pieces@.len() ==> (#[trigger] pieces@[i]).0 < pieces@[i].1,
        forall|i: int|
            0 <= i < pieces@.len() ==> start <= (#[trigger] pieces@[i]).0 && pieces@[i].1 <= end,
        runs_forward(runs@) ==> in_order(pieces@),
        runs_paged(runs@) && start % 4096 == 0 && end % 4096 == 0 ==> paged(pieces@),
{
    let mut pieces: Vec<(u64, u64)> = Vec::new();
    pieces.push((start, end));
    proof {
        assert forall|x: int| #[trigger] covered(pieces@, x) == (start <= x < end) by {
            assert(pieces@[0] == (start, end));
        }
        assert(pieces@ =~= cut_by(start, end, runs@.take(0)));
    }
    let mut k: usize = 0;
    while k < runs.len()
        invariant
            k <= runs@.len(),
            pieces@ == cut_by(start, end, runs@.take(k as int)),
            forall|x: int| #[trigger]
                covered(pieces@, x) == (start <= x < end && !in_runs(runs@.take(k as int), x)),
        decreases runs@.len() - k,
    {
        let run = runs[k];
        let ghost before = pieces@;
        pieces = without(&pieces, run.start, run.end);
        proof {
            assert(runs@.take(k + 1).drop_last() =~= runs@.take(k as int));
            assert forall|x: int| #[trigger] covered(pieces@, x) == (start <= x < end && !in_runs(
                runs@.take(k + 1),
                x,
            )) by {
                assert(covered(before, x) == (start <= x < end && !in_runs(
                    runs@.take(k as int),
                    x,
                )));
                let fewer = runs@.take(k as int);
                let more = runs@.take(k + 1);
                if in_runs(more, x) {
                    let i = choose|i: int|
                        0 <= i < more.len() && (#[trigger] more[i]).start <= x < more[i].end;
                    if i < k {
                        assert(fewer[i] == more[i]);
                    }
                }
                if in_runs(fewer, x) {
                    let i = choose|i: int|
                        0 <= i < fewer.len() && (#[trigger] fewer[i]).start <= x < fewer[i].end;
                    assert(more[i] == fewer[i]);
                }
                if run.start <= x < run.end {
                    assert(more[k as int] == run);
                }
            }
        }
        k = k + 1;
    }
    proof {
        assert(runs@.take(runs@.len() as int) =~= runs@);
        lemma_cut_by(start, end, runs@);
        lemma_nonempty(pieces@);
    }
    let kept = nonempty(&pieces);
    proof {
        assert forall|i: int| 0 <= i < kept@.len() implies start <= (#[trigger] kept@[i]).0
            && kept@[i].1 <= end by {
            let piece = kept@[i];
            assert(covered(kept@, piece.0 as int));
            assert(covered(kept@, piece.1 - 1));
            assert(covered(pieces@, piece.0 as int));
            assert(covered(pieces@, piece.1 - 1));
        }
    }
    kept
}

/// The pieces that hold anything.
fn nonempty(pieces: &Vec<(u64, u64)>) -> (kept: Vec<(u64, u64)>)
    ensures
        kept@ == spec_nonempty(pieces@),
        forall|x: int| #[trigger] covered(kept@, x) == covered(pieces@, x),
{
    let mut kept: Vec<(u64, u64)> = Vec::new();
    let mut i: usize = 0;
    proof {
        assert(kept@ =~= spec_nonempty(pieces@.take(0)));
    }
    while i < pieces.len()
        invariant
            i <= pieces@.len(),
            kept@ == spec_nonempty(pieces@.take(i as int)),
            forall|x: int| #[trigger] covered(kept@, x) == covered(pieces@.take(i as int), x),
        decreases pieces@.len() - i,
    {
        let piece = pieces[i];
        let ghost before = kept@;
        proof {
            lemma_covered_push(pieces@.take(i as int), piece);
            lemma_covered_push(kept@, piece);
            assert(pieces@.take(i + 1) =~= pieces@.take(i as int).push(piece));
            assert(pieces@.take(i + 1).drop_last() =~= pieces@.take(i as int));
        }
        if piece.0 < piece.1 {
            kept.push(piece);
        }
        proof {
            assert forall|x: int| #[trigger] covered(kept@, x) == covered(pieces@.take(i + 1), x) by {
                assert(covered(before, x) == covered(pieces@.take(i as int), x));
            }
        }
        i = i + 1;
    }
    proof {
        assert(pieces@.take(pieces@.len() as int) =~= pieces@);
    }
    kept
}

// ---------------------------------------------------------------------------
// Segments, moved
// ---------------------------------------------------------------------------

/// A number as 64 bits hold it.
pub open spec fn wrapped(v: int) -> int {
    v % 0x1_0000_0000_0000_0000
}

/// `a + b`, as 64 bits hold it.
pub fn wrap_add(a: u64, b: u64) -> (out: u64)
    ensures
        out == wrapped(a + b),
{
    if a > u64::MAX - b {
        let over: u128 = a as u128 + b as u128 - 0x1_0000_0000_0000_0000u128;
        over as u64
    } else {
        a + b
    }
}

/// `a - b`, as 64 bits hold it.
pub fn wrap_sub(a: u64, b: u64) -> (out: u64)
    ensures
        out == wrapped(a - b),
{
    if a >= b {
        a - b
    } else {
        let under: u128 = a as u128 + 0x1_0000_0000_0000_0000u128 - b as u128;
        under as u64
    }
}

/// A loadable segment, moved by its image's bias.
#[derive(Clone, Copy, Debug, PartialEq, Eq, Structural)]
pub struct Moved {
    /// Where it starts.
    pub at: u64,
    /// Where its file contents are in the file.
    pub offset: u64,
    /// How many bytes of it come from the file.
    pub filesz: u64,
    /// How many bytes it occupies.
    pub memsz: u64,
    /// `PF_*`.
    pub flags: u32,
}

impl Moved {
    /// The segment, moved by `bias`.
    pub open spec fn spec_of(segment: Segment, bias: u64) -> Moved {
        Moved {
            at: wrapped(segment.vaddr + bias) as u64,
            offset: segment.offset,
            filesz: segment.filesz,
            memsz: segment.memsz,
            flags: segment.flags,
        }
    }

    /// The segment, moved by `bias`.
    pub fn of(segment: &Segment, bias: u64) -> (moved: Moved)
        ensures
            moved == Moved::spec_of(*segment, bias),
    {
        Moved {
            at: wrap_add(segment.vaddr, bias),
            offset: segment.offset,
            filesz: segment.filesz,
            memsz: segment.memsz,
            flags: segment.flags,
        }
    }

    /// The first page any byte of it is on.
    pub open spec fn first_page(self) -> int {
        spec_page_down(self.at as int)
    }

    /// One past the last page any byte of it is on.
    pub open spec fn end_page(self) -> int {
        spec_page_up(wrapped(self.at + self.memsz))
    }

    /// Where its file contents end in memory.
    pub open spec fn spec_file_end(self) -> int {
        wrapped(self.at + self.filesz)
    }

    /// Whether the page at `x` is one of its pages.
    pub open spec fn touches(self, x: int) -> bool {
        self.first_page() <= x < self.end_page()
    }

    /// The pages it touches, `[first, end)`: every page any byte of it is on.
    pub fn pages(&self) -> (pages: (u64, u64))
        ensures
            pages.0 == self.first_page(),
            pages.1 == self.end_page(),
            pages.0 % 4096 == 0,
            pages.1 % 4096 == 0,
    {
        (page_down(self.at), page_up(wrap_add(self.at, self.memsz)))
    }

    /// Where its file contents end in memory.
    pub fn file_end(&self) -> (end: u64)
        ensures
            end == self.spec_file_end(),
    {
        wrap_add(self.at, self.filesz)
    }
}

/// Whether segment `k`'s file offset and address agree within a page, so that
/// a mapping of the file can show its bytes where they belong.
pub open spec fn congruent(segments: Seq<Moved>, k: int) -> bool {
    segments[k].filesz != 0 && (segments[k].at - segments[k].offset) % 4096 == 0
}

/// Whether no segment but `k` has a page at `x`.
pub open spec fn alone(segments: Seq<Moved>, k: int, x: int) -> bool {
    forall|j: int|
        0 <= j < segments.len() && j != k ==> !(#[trigger] segments[j]).touches(x)
}

/// Whether the byte at `x` can be mapped from the file for segment `k`: on a
/// page wholly inside its file contents, and in no other segment's pages.
pub open spec fn mappable(segments: Seq<Moved>, k: int, x: int) -> bool {
    &&& 0 <= k < segments.len()
    &&& congruent(segments, k)
    &&& spec_page_up(segments[k].at as int) <= x < spec_page_down(segments[k].spec_file_end())
    &&& alone(segments, k, x)
}

/// Whether `run` shows the file where segment `k` wants it: whole pages, all
/// of them mappable for `k`, from the right byte of the object.
pub open spec fn run_of(segments: Seq<Moved>, base: u64, run: FileRun, k: int) -> bool {
    &&& 0 <= k < segments.len()
    &&& run.start < run.end
    &&& run.start % 4096 == 0
    &&& run.end % 4096 == 0
    &&& run.flags == segments[k].flags
    &&& run.offset == segments[k].offset + (run.start - segments[k].at) + base
    &&& forall|x: int| run.start <= x < run.end ==> #[trigger] mappable(segments, k, x)
}

/// What is left of segment `k`'s whole pages of file contents without the
/// pages of the first `n` segments, itself aside.
pub open spec fn own_of(segments: Seq<Moved>, k: int, n: nat) -> Seq<(u64, u64)>
    decreases n,
{
    if n == 0 {
        seq![
            (
                spec_page_up(segments[k].at as int) as u64,
                spec_page_down(segments[k].spec_file_end()) as u64,
            ),
        ]
    } else {
        let before = own_of(segments, k, (n - 1) as nat);
        if n - 1 == k {
            before
        } else {
            spec_without(
                before,
                segments[n - 1].first_page() as u64,
                segments[n - 1].end_page() as u64,
            )
        }
    }
}

/// Whether every segment ends at or above where it starts, and holds what it
/// has from the file.
pub open spec fn shaped(segments: Seq<Moved>) -> bool {
    forall|k: int|
        0 <= k < segments.len() ==> (#[trigger] segments[k]).at + segments[k].memsz <= u64::MAX
            && segments[k].filesz <= segments[k].memsz
}

/// What a segment's own pages are.
#[verifier::rlimit(60)]
#[verifier::spinoff_prover]
proof fn lemma_own(segments: Seq<Moved>, k: int, n: nat)
    requires
        0 <= k < segments.len(),
        n <= segments.len(),
    ensures
        forall|x: int| #[trigger]
            covered(own_of(segments, k, n), x) == (spec_page_up(segments[k].at as int) <= x
                < spec_page_down(segments[k].spec_file_end()) && forall|j: int|
                0 <= j < n && j != k ==> !(#[trigger] segments[j]).touches(x)),
        paged(own_of(segments, k, n)),
        shaped(segments) ==> in_order(own_of(segments, k, n)) && forward(own_of(segments, k, n)),
    decreases n,
{
    let own = own_of(segments, k, n);
    if n == 0 {
        assert forall|x: int| #[trigger] covered(own, x) == (spec_page_up(segments[k].at as int)
            <= x < spec_page_down(segments[k].spec_file_end())) by {
            assert(own[0].0 == spec_page_up(segments[k].at as int));
            assert(own[0].1 == spec_page_down(segments[k].spec_file_end()));
        }
    } else {
        let m = (n - 1) as nat;
        lemma_own(segments, k, m);
        let before = own_of(segments, k, m);
        if m != k {
            let other = segments[m as int];
            let first = other.first_page() as u64;
            let last = other.end_page() as u64;
            lemma_without_covered(before, first, last);
            lemma_without_paged(before, first, last);
            if shaped(segments) {
                assert(first <= last);
                lemma_without_in_order(before, first, last);
            }
            assert forall|x: int| #[trigger] covered(own, x) == (spec_page_up(
                segments[k].at as int,
            ) <= x < spec_page_down(segments[k].spec_file_end()) && forall|j: int|
                0 <= j < n && j != k ==> !(#[trigger] segments[j]).touches(x)) by {
                assert(covered(own, x) == (covered(before, x) && !other.touches(x)));
            }
        } else {
            assert forall|x: int| #[trigger] covered(own, x) == (spec_page_up(
                segments[k].at as int,
            ) <= x < spec_page_down(segments[k].spec_file_end()) && forall|j: int|
                0 <= j < n && j != k ==> !(#[trigger] segments[j]).touches(x)) by {
                assert(covered(before, x) == covered(own, x));
            }
        }
    }
}

/// The parts of segment `k`'s file contents that are whole pages and in no
/// other segment's.
fn own_pages(segments: &Vec<Moved>, k: usize) -> (pieces: Vec<(u64, u64)>)
    requires
        k < segments@.len(),
    ensures
        pieces@ == own_of(segments@, k as int, segments@.len()),
{
    let segment = segments[k];
    let start: u64 = page_up(segment.at);
    let end: u64 = page_down(segment.file_end());
    let mut pieces: Vec<(u64, u64)> = Vec::new();
    pieces.push((start, end));
    proof {
        assert(pieces@ =~= own_of(segments@, k as int, 0));
    }
    let mut j: usize = 0;
    while j < segments.len()
        invariant
            k < segments@.len(),
            j <= segments@.len(),
            pieces@ == own_of(segments@, k as int, j as nat),
        decreases segments@.len() - j,
    {
        if j != k {
            let (first, last) = segments[j].pages();
            pieces = without(&pieces, first, last);
        }
        j = j + 1;
    }
    pieces
}

/// Where byte `start` of `segment` is in an object that holds the file's first
/// byte at `base`.
pub open spec fn object_offset(segment: Moved, base: u64, start: int) -> int {
    segment.offset + (start - segment.at) + base
}

/// The runs for `pieces` of `segment`: one for each that holds anything and
/// whose place in the object a number reaches.
pub open spec fn runs_from(segment: Moved, base: u64, pieces: Seq<(u64, u64)>) -> Seq<FileRun>
    decreases pieces.len(),
{
    if pieces.len() == 0 {
        Seq::empty()
    } else {
        let before = runs_from(segment, base, pieces.drop_last());
        let (start, end) = pieces.last();
        if start < end && object_offset(segment, base, start as int) <= u64::MAX {
            before.push(
                FileRun {
                    start,
                    end,
                    offset: object_offset(segment, base, start as int) as u64,
                    flags: segment.flags,
                },
            )
        } else {
            before
        }
    }
}

/// The runs of the first `n` segments, one segment's after the other's.
pub open spec fn all_runs(segments: Seq<Moved>, base: u64, n: nat) -> Seq<FileRun>
    decreases n,
{
    if n == 0 {
        Seq::empty()
    } else {
        let before = all_runs(segments, base, (n - 1) as nat);
        if congruent(segments, n - 1) {
            before + runs_from(
                segments[n - 1],
                base,
                own_of(segments, n - 1, segments.len()),
            )
        } else {
            before
        }
    }
}

/// `runs`, sorted by where they start, with `run` put in behind those that
/// start no higher.
pub open spec fn spec_insert(runs: Seq<FileRun>, run: FileRun) -> Seq<FileRun>
    decreases runs.len(),
{
    if runs.len() == 0 || runs.last().start <= run.start {
        runs.push(run)
    } else {
        spec_insert(runs.drop_last(), run).push(runs.last())
    }
}

/// `list`, sorted by where each run starts, those that start together left in
/// the order they had.
pub open spec fn sorted(list: Seq<FileRun>) -> Seq<FileRun>
    decreases list.len(),
{
    if list.len() == 0 {
        Seq::empty()
    } else {
        spec_insert(sorted(list.drop_last()), list.last())
    }
}

/// Whether each of `runs` starts no lower than those before it.
pub open spec fn rising_runs(runs: Seq<FileRun>) -> bool {
    forall|i: int, j: int| 0 <= i < j < runs.len() ==> runs[i].start <= runs[j].start
}

/// Whether no two of `runs` share an address.
spec fn apart(runs: Seq<FileRun>) -> bool {
    forall|i: int, j: int|
        0 <= i < j < runs.len() ==> runs[i].end <= runs[j].start || runs[j].end <= runs[i].start
}

proof fn lemma_spec_insert(runs: Seq<FileRun>, run: FileRun) -> (p: int)
    requires
        rising_runs(runs),
    ensures
        0 <= p <= runs.len(),
        spec_insert(runs, run) == runs.insert(p, run),
        forall|i: int| 0 <= i < p ==> (#[trigger] runs[i]).start <= run.start,
        forall|i: int| p <= i < runs.len() ==> (#[trigger] runs[i]).start > run.start,
        rising_runs(spec_insert(runs, run)),
    decreases runs.len(),
{
    if runs.len() == 0 || runs.last().start <= run.start {
        assert(runs.push(run) =~= runs.insert(runs.len() as int, run));
        runs.len() as int
    } else {
        let fewer = runs.drop_last();
        let p = lemma_spec_insert(fewer, run);
        assert(fewer.insert(p, run).push(runs.last()) =~= runs.insert(p, run));
        let after = runs.insert(p, run);
        assert forall|i: int| p <= i < runs.len() implies (#[trigger] runs[i]).start
            > run.start by {
            if i < fewer.len() {
                assert(fewer[i] == runs[i]);
            }
        }
        assert forall|i: int| 0 <= i < p implies (#[trigger] runs[i]).start <= run.start by {
            assert(fewer[i] == runs[i]);
        }
        assert forall|i: int, j: int| 0 <= i < j < after.len() implies after[i].start
            <= after[j].start by {
            let a = if i < p {
                i
            } else {
                i - 1
            };
            let b = if j < p {
                j
            } else {
                j - 1
            };
            if i != p {
                assert(after[i] == runs[a]);
            }
            if j != p {
                assert(after[j] == runs[b]);
            }
        }
        p
    }
}

/// Sorting keeps what there is, and puts runs that share no address in order.
proof fn lemma_sorted(list: Seq<FileRun>)
    ensures
        rising_runs(sorted(list)),
        forall|run: FileRun| #[trigger] sorted(list).contains(run) == list.contains(run),
        apart(list) ==> apart(sorted(list)),
    decreases list.len(),
{
    if list.len() > 0 {
        let fewer = list.drop_last();
        let run = list.last();
        lemma_sorted(fewer);
        let before = sorted(fewer);
        let p = lemma_spec_insert(before, run);
        let after = before.insert(p, run);
        assert(sorted(list) == after);
        assert forall|r: FileRun| #[trigger] after.contains(r) == list.contains(r) by {
            if after.contains(r) {
                let i = choose|i: int| 0 <= i < after.len() && after[i] == r;
                if i == p {
                    assert(list[list.len() - 1] == r);
                } else {
                    let j = if i < p {
                        i
                    } else {
                        i - 1
                    };
                    assert(before[j] == r);
                    assert(before.contains(r));
                    let m = choose|m: int| 0 <= m < fewer.len() && fewer[m] == r;
                    assert(list[m] == r);
                }
            }
            if list.contains(r) {
                let m = choose|m: int| 0 <= m < list.len() && list[m] == r;
                if m == list.len() - 1 {
                    assert(after[p] == r);
                } else {
                    assert(fewer[m] == r);
                    assert(before.contains(r));
                    let j = choose|j: int| 0 <= j < before.len() && before[j] == r;
                    let i = if j < p {
                        j
                    } else {
                        j + 1
                    };
                    assert(after[i] == r);
                }
            }
        }
        if apart(list) {
            assert(apart(fewer)) by {
                assert forall|i: int, j: int| 0 <= i < j < fewer.len() implies fewer[i].end
                    <= fewer[j].start || fewer[j].end <= fewer[i].start by {
                    assert(list[i] == fewer[i] && list[j] == fewer[j]);
                }
            }
            assert forall|j: int| 0 <= j < before.len() implies (#[trigger] before[j]).end
                <= run.start || run.end <= before[j].start by {
                assert(before.contains(before[j]));
                let m = choose|m: int| 0 <= m < fewer.len() && fewer[m] == before[j];
                assert(list[m] == before[j] && list[list.len() - 1] == run);
            }
            assert forall|i: int, j: int| 0 <= i < j < after.len() implies after[i].end
                <= after[j].start || after[j].end <= after[i].start by {
                let a = if i < p {
                    i
                } else {
                    i - 1
                };
                let b = if j < p {
                    j
                } else {
                    j - 1
                };
                if i != p {
                    assert(after[i] == before[a]);
                }
                if j != p {
                    assert(after[j] == before[b]);
                }
            }
        }
    }
}

/// Put `run` in among runs sorted by where they start.
fn insert_sorted(runs: &mut Vec<FileRun>, run: FileRun)
    requires
        rising_runs(old(runs)@),
    ensures
        final(runs)@ == spec_insert(old(runs)@, run),
{
    let mut p: usize = runs.len();
    while p > 0 && runs[p - 1].start > run.start
        invariant
            runs@ == old(runs)@,
            p <= runs@.len(),
            rising_runs(old(runs)@),
            forall|i: int| p <= i < runs@.len() ==> (#[trigger] runs@[i]).start > run.start,
        decreases p,
    {
        p = p - 1;
    }
    proof {
        let q = lemma_spec_insert(runs@, run);
        if p < q {
            assert(runs@[p as int].start <= run.start);
        }
        if q < p {
            assert(runs@[p - 1].start > run.start);
        }
    }
    runs.insert(p, run);
}

/// Sort runs by where they start.
fn sort_runs(list: &Vec<FileRun>) -> (runs: Vec<FileRun>)
    ensures
        runs@ == sorted(list@),
{
    let mut runs: Vec<FileRun> = Vec::new();
    let mut i: usize = 0;
    proof {
        assert(runs@ =~= sorted(list@.take(0)));
    }
    while i < list.len()
        invariant
            i <= list@.len(),
            runs@ == sorted(list@.take(i as int)),
        decreases list@.len() - i,
    {
        proof {
            lemma_sorted(list@.take(i as int));
            assert(list@.take(i + 1).drop_last() =~= list@.take(i as int));
        }
        insert_sorted(&mut runs, list[i]);
        i = i + 1;
    }
    proof {
        assert(list@.take(list@.len() as int) =~= list@);
    }
    runs
}

/// Whether `run` shows the file where some segment wants it.
pub open spec fn run_sound(segments: Seq<Moved>, base: u64, run: FileRun) -> bool {
    exists|k: int| run_of(segments, base, run, k)
}

/// Whether every one of `runs` does.
pub open spec fn runs_sound(segments: Seq<Moved>, base: u64, runs: Seq<FileRun>) -> bool {
    forall|i: int| 0 <= i < runs.len() ==> run_sound(segments, base, #[trigger] runs[i])
}

/// Whether every byte of segment `k` that can be mapped is in one of `runs`,
/// but for one whose place in the object no number reaches.
pub open spec fn runs_complete(
    segments: Seq<Moved>,
    base: u64,
    runs: Seq<FileRun>,
    k: int,
) -> bool {
    forall|x: int| #[trigger]
        mappable(segments, k, x) && object_offset(segments[k], base, x) <= u64::MAX ==> in_runs(
            runs,
            x,
        )
}

/// The runs made of pieces of segment `k`'s own pages.
proof fn lemma_runs_from(segments: Seq<Moved>, base: u64, k: int, pieces: Seq<(u64, u64)>)
    requires
        0 <= k < segments.len(),
        congruent(segments, k),
        paged(pieces),
        forall|x: int| #[trigger] covered(pieces, x) ==> mappable(segments, k, x),
    ensures
        forall|i: int|
            0 <= i < runs_from(segments[k], base, pieces).len() ==> run_of(
                segments,
                base,
                #[trigger] runs_from(segments[k], base, pieces)[i],
                k,
            ),
        forall|i: int|
            0 <= i < runs_from(segments[k], base, pieces).len() ==> pieces.contains(
                (
                    (#[trigger] runs_from(segments[k], base, pieces)[i]).start,
                    runs_from(segments[k], base, pieces)[i].end,
                ),
            ),
        forall|x: int| #[trigger]
            covered(pieces, x) && object_offset(segments[k], base, x) <= u64::MAX ==> in_runs(
                runs_from(segments[k], base, pieces),
                x,
            ),
        in_order(pieces) ==> apart(runs_from(segments[k], base, pieces)),
    decreases pieces.len(),
{
    if pieces.len() > 0 {
        let fewer = pieces.drop_last();
        let (start, end) = pieces.last();
        let segment = segments[k];
        let last = pieces.len() - 1;
        assert(pieces[last] == (start, end));
        assert forall|x: int| #[trigger] covered(fewer, x) implies mappable(segments, k, x) by {
            let i = choose|i: int| 0 <= i < fewer.len() && (#[trigger] fewer[i]).0 <= x < fewer[i].1;
            assert(pieces[i] == fewer[i]);
            assert(covered(pieces, x));
        }
        assert(paged(fewer)) by {
            assert forall|i: int| 0 <= i < fewer.len() implies (#[trigger] fewer[i]).0 % 4096 == 0
                && fewer[i].1 % 4096 == 0 by {
                assert(pieces[i] == fewer[i]);
            }
        }
        lemma_runs_from(segments, base, k, fewer);
        let before = runs_from(segment, base, fewer);
        let all = runs_from(segment, base, pieces);
        if start < end {
            assert(covered(pieces, start as int));
            assert(mappable(segments, k, start as int));
            assert(start >= segment.at);
        }
        if start < end && object_offset(segment, base, start as int) <= u64::MAX {
            let run = all.last();
            assert forall|x: int| run.start <= x < run.end implies #[trigger] mappable(
                segments,
                k,
                x,
            ) by {
                assert(covered(pieces, x));
            }
            assert(run_of(segments, base, run, k));
        }
        assert forall|i: int| 0 <= i < all.len() implies pieces.contains(
            ((#[trigger] all[i]).start, all[i].end),
        ) by {
            if i < before.len() {
                assert(all[i] == before[i]);
                let m = choose|m: int|
                    0 <= m < fewer.len() && fewer[m] == (before[i].start, before[i].end);
                assert(pieces[m] == fewer[m]);
            } else {
                assert(pieces[last] == (all[i].start, all[i].end));
            }
        }
        assert forall|x: int| #[trigger] covered(pieces, x) && object_offset(segment, base, x)
            <= u64::MAX implies in_runs(all, x) by {
            let i = choose|i: int|
                0 <= i < pieces.len() && (#[trigger] pieces[i]).0 <= x < pieces[i].1;
            if i < last {
                assert(fewer[i] == pieces[i]);
                assert(covered(fewer, x));
                let m = choose|m: int|
                    0 <= m < before.len() && (#[trigger] before[m]).start <= x < before[m].end;
                assert(all[m] == before[m]);
            } else {
                assert(all[all.len() - 1].start == start);
            }
        }
        if in_order(pieces) {
            assert(in_order(fewer)) by {
                assert forall|i: int, j: int| 0 <= i < j < fewer.len() implies fewer[i].1
                    <= fewer[j].0 by {
                    assert(pieces[i].1 <= pieces[j].0);
                }
            }
            assert forall|i: int, j: int| 0 <= i < j < all.len() implies all[i].end <= all[j].start
                || all[j].end <= all[i].start by {
                if j < before.len() {
                    assert(all[i] == before[i] && all[j] == before[j]);
                } else {
                    assert(all[i] == before[i]);
                    let m = choose|m: int|
                        0 <= m < fewer.len() && fewer[m] == (before[i].start, before[i].end);
                    assert(pieces[m].1 <= pieces[last].0);
                }
            }
        }
    }
}

/// In a shaped list of segments a page mapped for one is one of its pages.
proof fn lemma_mapped_touches(segments: Seq<Moved>, k: int, x: int)
    requires
        shaped(segments),
        mappable(segments, k, x),
    ensures
        segments[k].touches(x),
{
    let segment = segments[k];
    assert(segment.at + segment.memsz <= u64::MAX);
}

/// Whether `run` shows the file where one of the first `n` segments wants it.
spec fn run_below(segments: Seq<Moved>, base: u64, run: FileRun, n: nat) -> bool {
    exists|k: int| 0 <= k < n && run_of(segments, base, run, k)
}

/// The runs of all segments: each sound, every mappable byte among them, and
/// apart where the segments are shaped.
proof fn lemma_all_runs(segments: Seq<Moved>, base: u64, n: nat)
    requires
        n <= segments.len(),
    ensures
        forall|i: int|
            0 <= i < all_runs(segments, base, n).len() ==> run_below(
                segments,
                base,
                #[trigger] all_runs(segments, base, n)[i],
                n,
            ),
        forall|k: int|
            0 <= k < n ==> #[trigger] runs_complete(segments, base, all_runs(segments, base, n), k),
        shaped(segments) ==> apart(all_runs(segments, base, n)),
    decreases n,
{
    if n > 0 {
        let m = n - 1;
        lemma_all_runs(segments, base, m as nat);
        let before = all_runs(segments, base, m as nat);
        let all = all_runs(segments, base, n);
        let own = own_of(segments, m, segments.len());
        let more = runs_from(segments[m], base, own);
        lemma_own(segments, m, segments.len());
        if congruent(segments, m) {
            assert forall|x: int| #[trigger] covered(own, x) == mappable(segments, m, x) by {}
            lemma_runs_from(segments, base, m, own);
            assert(all == before + more);
        } else {
            assert(all == before);
            assert forall|x: int| !(#[trigger] mappable(segments, m, x)) by {}
        }
        assert forall|i: int| 0 <= i < all.len() implies run_below(
            segments,
            base,
            #[trigger] all[i],
            n,
        ) by {
            if i < before.len() {
                assert(all[i] == before[i]);
                let k = choose|k: int| 0 <= k < m && run_of(segments, base, before[i], k);
                assert(run_of(segments, base, all[i], k));
            } else {
                assert(all[i] == more[i - before.len()]);
                assert(run_of(segments, base, all[i], m));
            }
        }
        assert forall|k: int| 0 <= k < n implies #[trigger] runs_complete(segments, base, all, k) by {
            assert forall|x: int| #[trigger] mappable(segments, k, x) && object_offset(
                segments[k],
                base,
                x,
            ) <= u64::MAX implies in_runs(all, x) by {
                if k < m {
                    assert(runs_complete(segments, base, before, k));
                    let i = choose|i: int|
                        0 <= i < before.len() && (#[trigger] before[i]).start <= x < before[i].end;
                    assert(all[i] == before[i]);
                } else {
                    assert(covered(own, x));
                    let i = choose|i: int|
                        0 <= i < more.len() && (#[trigger] more[i]).start <= x < more[i].end;
                    assert(all[before.len() + i] == more[i]);
                }
            }
        }
        if shaped(segments) {
            assert forall|i: int, j: int| 0 <= i < j < all.len() implies all[i].end <= all[j].start
                || all[j].end <= all[i].start by {
                if j < before.len() {
                    assert(all[i] == before[i] && all[j] == before[j]);
                } else if i >= before.len() {
                    assert(all[i] == more[i - before.len()] && all[j] == more[j - before.len()]);
                } else {
                    assert(all[i] == before[i] && all[j] == more[j - before.len()]);
                    assert(run_below(segments, base, before[i], m as nat));
                    let k = choose|k: int| 0 <= k < m && run_of(segments, base, before[i], k);
                    assert(run_of(segments, base, all[j], m));
                    let x: int = if all[i].start <= all[j].start {
                        all[j].start as int
                    } else {
                        all[i].start as int
                    };
                    if all[i].start <= x < all[i].end && all[j].start <= x < all[j].end {
                        assert(mappable(segments, k, x));
                        assert(mappable(segments, m, x));
                        lemma_mapped_touches(segments, k, x);
                        assert(!segments[k].touches(x));
                    }
                }
            }
        }
    }
}

/// Add the runs of segment `k`, whose own pages are `pieces`.
fn add_runs(
    runs: &mut Vec<FileRun>,
    segments: &Vec<Moved>,
    base: u64,
    k: usize,
    pieces: &Vec<(u64, u64)>,
)
    requires
        k < segments@.len(),
        pieces@ == own_of(segments@, k as int, segments@.len()),
    ensures
        final(runs)@ == old(runs)@ + runs_from(segments@[k as int], base, pieces@),
{
    let segment = segments[k];
    let mut i: usize = 0;
    proof {
        lemma_own(segments@, k as int, segments@.len());
        assert(runs@ =~= old(runs)@ + runs_from(segment, base, pieces@.take(0)));
    }
    while i < pieces.len()
        invariant
            k < segments@.len(),
            segment == segments@[k as int],
            i <= pieces@.len(),
            forall|x: int| #[trigger]
                covered(pieces@, x) ==> spec_page_up(segment.at as int) <= x < spec_page_down(
                    segment.spec_file_end(),
                ),
            runs@ == old(runs)@ + runs_from(segment, base, pieces@.take(i as int)),
        decreases pieces@.len() - i,
    {
        let (start, end) = pieces[i];
        let ghost before = runs@;
        proof {
            assert(pieces@.take(i + 1).drop_last() =~= pieces@.take(i as int));
            assert(pieces@.take(i + 1).last() == (start, end));
            assert(pieces@[i as int] == (start, end));
        }
        if start < end {
            assert(covered(pieces@, start as int));
            assert(start >= segment.at);
            let past: u64 = start - segment.at;
            let place: Option<u64> = match segment.offset.checked_add(past) {
                Some(offset) => offset.checked_add(base),
                None => None,
            };
            if let Some(offset) = place {
                runs.push(FileRun { start, end, offset, flags: segment.flags });
            }
        }
        proof {
            assert(runs@ =~= old(runs)@ + runs_from(segment, base, pieces@.take(i + 1)));
        }
        i = i + 1;
    }
    proof {
        assert(pieces@.take(pieces@.len() as int) =~= pieces@);
    }
}

/// Each run of a file is sound, and whole pages.
proof fn lemma_runs_sound(segments: Seq<Moved>, base: u64)
    ensures
        ({
            let runs = sorted(all_runs(segments, base, segments.len()));
            &&& runs_sound(segments, base, runs)
            &&& runs_paged(runs)
            &&& forall|i: int| 0 <= i < runs.len() ==> (#[trigger] runs[i]).start < runs[i].end
        }),
{
    let list = all_runs(segments, base, segments.len());
    let runs = sorted(list);
    lemma_all_runs(segments, base, segments.len());
    lemma_sorted(list);
    assert forall|i: int| 0 <= i < runs.len() implies run_sound(segments, base, #[trigger] runs[i])
        && runs[i].start % 4096 == 0 && runs[i].end % 4096 == 0 && runs[i].start < runs[i].end by {
        assert(runs.contains(runs[i]));
        let m = choose|m: int| 0 <= m < list.len() && list[m] == runs[i];
        assert(run_below(segments, base, list[m], segments.len()));
    }
}

/// The pages of `segments` that can be mapped from a file whose object holds
/// its first byte at `base`, lowest first. Where every segment is shaped, no
/// page is in two of them.
pub fn file_runs(segments: &Vec<Moved>, base: u64) -> (runs: Vec<FileRun>)
    ensures
        runs@ == sorted(all_runs(segments@, base, segments@.len())),
        runs_sound(segments@, base, runs@),
        forall|k: int|
            0 <= k < segments@.len() ==> #[trigger] runs_complete(segments@, base, runs@, k),
        rising_runs(runs@),
        runs_paged(runs@),
        shaped(segments@) ==> runs_in_order(runs@),
{
    let mut list: Vec<FileRun> = Vec::new();
    let mut k: usize = 0;
    proof {
        assert(list@ =~= all_runs(segments@, base, 0));
    }
    while k < segments.len()
        invariant
            k <= segments@.len(),
            list@ == all_runs(segments@, base, k as nat),
        decreases segments@.len() - k,
    {
        let segment = segments[k];
        let apart: u64 = wrap_sub(segment.at, segment.offset);
        if segment.filesz == 0 || apart % PAGE_SIZE != 0 {
            assert(!congruent(segments@, k as int));
        } else {
            assert(congruent(segments@, k as int));
            let pieces = own_pages(segments, k);
            add_runs(&mut list, segments, base, k, &pieces);
        }
        k = k + 1;
    }
    let runs = sort_runs(&list);
    proof {
        lemma_all_runs(segments@, base, segments@.len());
        lemma_sorted(list@);
        lemma_runs_sound(segments@, base);
        assert forall|k: int| 0 <= k < segments@.len() implies #[trigger] runs_complete(
            segments@,
            base,
            runs@,
            k,
        ) by {
            assert(runs_complete(segments@, base, list@, k));
            assert forall|x: int| #[trigger] mappable(segments@, k, x) && object_offset(
                segments@[k],
                base,
                x,
            ) <= u64::MAX implies in_runs(runs@, x) by {
                let i = choose|i: int|
                    0 <= i < list@.len() && (#[trigger] list@[i]).start <= x < list@[i].end;
                assert(list@.contains(list@[i]));
                assert(runs@.contains(list@[i]));
                let j = choose|j: int| 0 <= j < runs@.len() && runs@[j] == list@[i];
                assert(runs@[j].start <= x < runs@[j].end);
            }
        }
        if shaped(segments@) {
            assert forall|i: int, j: int| 0 <= i < j < runs@.len() implies runs@[i].end
                <= runs@[j].start by {
                assert(runs@[i].start <= runs@[j].start);
                assert(runs@[j].start < runs@[j].end);
            }
        }
    }
    runs
}

// ---------------------------------------------------------------------------
// Permissions
// ---------------------------------------------------------------------------

/// What the first `n` segments that have a page at `x` ask for, together.
pub open spec fn flags_of(segments: Seq<Moved>, x: int, n: nat) -> u32
    decreases n,
{
    if n == 0 {
        0
    } else {
        let before = flags_of(segments, x, (n - 1) as nat);
        if segments[n - 1].touches(x) {
            before | segments[n - 1].flags
        } else {
            before
        }
    }
}

/// What every segment that has a page at `x` asks for, together.
pub open spec fn flags_at(segments: Seq<Moved>, x: int) -> u32 {
    flags_of(segments, x, segments.len())
}

/// Whether a page with these flags would be writable and executable at once.
pub open spec fn write_execute(flags: u32) -> bool {
    flags & PF_W != 0 && flags & PF_X != 0
}

/// `[start, end)` is to be left with `flags`.
#[derive(Clone, Copy, Debug, PartialEq, Eq, Structural)]
pub struct Protection {
    pub start: u64,
    pub end: u64,
    pub flags: u32,
}

/// Whether `p` gives every address of it exactly what the segments ask for,
/// and never both writing and executing.
pub open spec fn protection_sound(segments: Seq<Moved>, p: Protection) -> bool {
    &&& p.start < p.end
    &&& !write_execute(p.flags)
    &&& forall|x: int| p.start <= x < p.end ==> #[trigger] flags_at(segments, x) == p.flags
}

/// Whether one of `list` is for `x`.
pub open spec fn protects(list: Seq<Protection>, x: int) -> bool {
    exists|i: int| 0 <= i < list.len() && (#[trigger] list[i]).start <= x < list[i].end
}

fn union_at(segments: &Vec<Moved>, x: u64) -> (flags: u32)
    ensures
        flags == flags_at(segments@, x as int),
{
    let mut flags: u32 = 0;
    let mut i: usize = 0;
    while i < segments.len()
        invariant
            i <= segments@.len(),
            flags == flags_of(segments@, x as int, i as nat),
        decreases segments@.len() - i,
    {
        let (first, last) = segments[i].pages();
        if first <= x && x < last {
            flags = flags | segments[i].flags;
        }
        i = i + 1;
    }
    flags
}

/// Two addresses no segment's pages tell apart ask for the same.
proof fn lemma_same_flags(segments: Seq<Moved>, x: int, y: int, n: nat)
    requires
        n <= segments.len(),
        forall|i: int|
            0 <= i < segments.len() ==> (#[trigger] segments[i]).touches(x) == segments[i].touches(
                y,
            ),
    ensures
        flags_of(segments, x, n) == flags_of(segments, y, n),
    decreases n,
{
    if n > 0 {
        lemma_same_flags(segments, x, y, (n - 1) as nat);
        assert(segments[n - 1].touches(x) == segments[n - 1].touches(y));
    }
}

/// Whether `cuts` goes up.
spec fn rising(cuts: Seq<u64>) -> bool {
    forall|i: int, j: int| 0 <= i < j < cuts.len() ==> cuts[i] < cuts[j]
}

/// Put `cut` among `cuts`, unless it is there.
fn insert_cut(cuts: &mut Vec<u64>, cut: u64)
    requires
        rising(old(cuts)@),
    ensures
        rising(final(cuts)@),
        forall|c: u64| #[trigger]
            final(cuts)@.contains(c) == (old(cuts)@.contains(c) || c == cut),
        final(cuts)@.len() >= old(cuts)@.len(),
{
    let mut p: usize = 0;
    while p < cuts.len() && cuts[p] < cut
        invariant
            cuts@ == old(cuts)@,
            rising(cuts@),
            p <= cuts@.len(),
            forall|i: int| 0 <= i < p ==> cuts@[i] < cut,
        decreases cuts@.len() - p,
    {
        p = p + 1;
    }
    if p < cuts.len() && cuts[p] == cut {
        return ;
    }
    let ghost before = cuts@;
    cuts.insert(p, cut);
    proof {
        let after = cuts@;
        assert(after =~= before.insert(p as int, cut));
        assert forall|i: int, j: int| 0 <= i < j < after.len() implies after[i] < after[j] by {
            let a = if i < p {
                i
            } else {
                i - 1
            };
            let b = if j < p {
                j
            } else {
                j - 1
            };
            if i != p && j != p {
                assert(before[a] < before[b]);
            } else if i == p {
                assert(before[p as int] > cut);
                if b > p {
                    assert(before[p as int] < before[b]);
                }
            }
        }
        assert forall|c: u64| #[trigger] after.contains(c) == (before.contains(c) || c == cut) by {
            if after.contains(c) && c != cut {
                let i = choose|i: int| 0 <= i < after.len() && after[i] == c;
                let a = if i < p {
                    i
                } else {
                    i - 1
                };
                assert(before[a] == c);
            }
            if before.contains(c) {
                let a = choose|a: int| 0 <= a < before.len() && before[a] == c;
                let i = if a < p {
                    a
                } else {
                    a + 1
                };
                assert(after[i] == c);
            }
            if c == cut {
                assert(after[p as int] == c);
            }
        }
    }
}

/// Where the answer can change between `start` and `end`: there, and at every
/// segment's first or last page in between.
fn cuts_of(segments: &Vec<Moved>, start: u64, end: u64) -> (cuts: Vec<u64>)
    requires
        start < end,
    ensures
        rising(cuts@),
        cuts@.len() >= 2,
        cuts@[0] == start,
        cuts@[cuts@.len() - 1] == end,
        forall|k: int|
            0 <= k < segments@.len() ==> {
                &&& start < (#[trigger] segments@[k]).first_page() < end ==> cuts@.contains(
                    segments@[k].first_page() as u64,
                )
                &&& start < segments@[k].end_page() < end ==> cuts@.contains(
                    segments@[k].end_page() as u64,
                )
            },
        forall|i: int| 0 < i < cuts@.len() - 1 ==> (#[trigger] cuts@[i]) % 4096 == 0,
{
    let mut cuts: Vec<u64> = Vec::new();
    cuts.push(start);
    cuts.push(end);
    let mut k: usize = 0;
    proof {
        assert(cuts@[0] == start && cuts@[1] == end);
    }
    while k < segments.len()
        invariant
            start < end,
            k <= segments@.len(),
            rising(cuts@),
            cuts@.len() >= 2,
            cuts@.contains(start),
            cuts@.contains(end),
            forall|c: u64| #[trigger] cuts@.contains(c) ==> start <= c <= end,
            forall|c: u64| #[trigger]
                cuts@.contains(c) ==> c == start || c == end || c % 4096 == 0,
            forall|i: int|
                0 <= i < k ==> {
                    &&& start < (#[trigger] segments@[i]).first_page() < end ==> cuts@.contains(
                        segments@[i].first_page() as u64,
                    )
                    &&& start < segments@[i].end_page() < end ==> cuts@.contains(
                        segments@[i].end_page() as u64,
                    )
                },
        decreases segments@.len() - k,
    {
        let (first, last) = segments[k].pages();
        if start < first && first < end {
            insert_cut(&mut cuts, first);
        }
        if start < last && last < end {
            insert_cut(&mut cuts, last);
        }
        k = k + 1;
    }
    proof {
        let a = choose|a: int| 0 <= a < cuts@.len() && cuts@[a] == start;
        assert(cuts@.contains(cuts@[0]));
        if a > 0 {
            assert(cuts@[0] < cuts@[a]);
        }
        let b = choose|b: int| 0 <= b < cuts@.len() && cuts@[b] == end;
        assert(cuts@.contains(cuts@[cuts@.len() - 1]));
        if b < cuts@.len() - 1 {
            assert(cuts@[b] < cuts@[cuts@.len() - 1]);
        }
        assert forall|i: int| 0 < i < cuts@.len() - 1 implies (#[trigger] cuts@[i]) % 4096 == 0 by {
            assert(cuts@.contains(cuts@[i]));
            assert(cuts@[0] < cuts@[i]);
            assert(cuts@[i] < cuts@[cuts@.len() - 1]);
        }
    }
    cuts
}

/// No address between two cuts that follow each other is told apart from the
/// first.
proof fn lemma_window(segments: Seq<Moved>, start: u64, end: u64, cuts: Seq<u64>, i: int, x: int)
    requires
        rising(cuts),
        cuts.len() >= 2,
        cuts[0] == start,
        cuts[cuts.len() - 1] == end,
        0 <= i < cuts.len() - 1,
        cuts[i] <= x < cuts[i + 1],
        forall|k: int|
            0 <= k < segments.len() ==> {
                &&& start < (#[trigger] segments[k]).first_page() < end ==> cuts.contains(
                    segments[k].first_page() as u64,
                )
                &&& start < segments[k].end_page() < end ==> cuts.contains(
                    segments[k].end_page() as u64,
                )
            },
    ensures
        flags_at(segments, x) == flags_at(segments, cuts[i] as int),
{
    assert forall|k: int| 0 <= k < segments.len() implies (#[trigger] segments[k]).touches(x)
        == segments[k].touches(cuts[i] as int) by {
        let first = segments[k].first_page();
        let last = segments[k].end_page();
        if cuts[i] < first <= x {
            lemma_not_between(cuts, i, first, start, end);
        }
        if cuts[i] < last <= x {
            lemma_not_between(cuts, i, last, start, end);
        }
    }
    lemma_same_flags(segments, x, cuts[i] as int, segments.len());
}

proof fn lemma_not_between(cuts: Seq<u64>, i: int, c: int, start: u64, end: u64)
    requires
        rising(cuts),
        cuts[0] == start,
        cuts[cuts.len() - 1] == end,
        0 <= i < cuts.len() - 1,
        start < c < end ==> cuts.contains(c as u64),
    ensures
        !(cuts[i] < c < cuts[i + 1]),
{
    if cuts[i] < c < cuts[i + 1] {
        if i > 0 {
            assert(cuts[0] < cuts[i]);
        }
        if i + 1 < cuts.len() - 1 {
            assert(cuts[i + 1] < cuts[cuts.len() - 1]);
        }
        let j = choose|j: int| 0 <= j < cuts.len() && cuts[j] == c;
        if j < i {
            assert(cuts[j] < cuts[i]);
        }
        if j > i + 1 {
            assert(cuts[i + 1] < cuts[j]);
        }
    }
}

/// Give `[start, end)` the permissions `flags` asks for, refusing a page that
/// would be writable and executable.
pub fn protect(list: &mut Vec<Protection>, start: u64, end: u64, flags: u32) -> (done: Result<
    (),
    LoadError,
>)
    ensures
        if write_execute(flags) {
            done == Err::<(), LoadError>(LoadError::WriteExecute(start)) && final(list)@
                == old(list)@
        } else {
            done is Ok && final(list)@ == old(list)@.push(Protection { start, end, flags })
        },
{
    if flags & PF_W != 0 && flags & PF_X != 0 {
        return Err(LoadError::WriteExecute(start));
    }
    list.push(Protection { start, end, flags });
    Ok(())
}

proof fn lemma_protects_push(list: Seq<Protection>, p: Protection)
    ensures
        forall|x: int| #[trigger]
            protects(list.push(p), x) == (protects(list, x) || p.start <= x < p.end),
{
    let more = list.push(p);
    assert forall|x: int| #[trigger] protects(more, x) == (protects(list, x) || p.start <= x
        < p.end) by {
        if protects(more, x) {
            let i = choose|i: int|
                0 <= i < more.len() && (#[trigger] more[i]).start <= x < more[i].end;
            if i < list.len() {
                assert(list[i] == more[i]);
            }
        }
        if protects(list, x) {
            let i = choose|i: int|
                0 <= i < list.len() && (#[trigger] list[i]).start <= x < list[i].end;
            assert(more[i] == list[i]);
        }
        if p.start <= x < p.end {
            assert(more[list.len() as int] == p);
        }
    }
}

/// Whether nothing in `[from, to)` would be writable and executable.
pub open spec fn clean(segments: Seq<Moved>, from: int, to: int) -> bool {
    forall|x: int| from <= x < to ==> !write_execute(#[trigger] flags_at(segments, x))
}

/// Whether `list` from its entry `m` on splits `[start, at)`, lowest first,
/// each entry asking for something else than the one before it.
pub open spec fn split_from(list: Seq<Protection>, m: int, start: u64, at: u64) -> bool {
    &&& 0 <= m <= list.len()
    &&& if m == list.len() {
        start == at
    } else {
        list[m].start == start && list[list.len() - 1].end == at
    }
    &&& forall|i: int|
        m <= i < list.len() ==> start <= (#[trigger] list[i]).start && list[i].end <= at
    &&& forall|i: int, j: int| m <= i < j < list.len() ==> list[i].end <= list[j].start
    &&& forall|i: int|
        m <= i < list.len() - 1 ==> (#[trigger] list[i]).end == list[i + 1].start && list[i].flags
            != list[i + 1].flags
}

proof fn lemma_split_push(list: Seq<Protection>, m: int, start: u64, at: u64, p: Protection)
    requires
        split_from(list, m, start, at),
        p.start == at,
        start <= at < p.end,
        m < list.len() ==> list[list.len() - 1].flags != p.flags,
    ensures
        split_from(list.push(p), m, start, p.end),
{
    let more = list.push(p);
    assert forall|i: int| m <= i < more.len() implies start <= (#[trigger] more[i]).start
        && more[i].end <= p.end by {
        if i < list.len() {
            assert(more[i] == list[i]);
        }
    }
    assert forall|i: int, j: int| m <= i < j < more.len() implies more[i].end <= more[j].start by {
        assert(more[i] == list[i]);
        if j < list.len() {
            assert(more[j] == list[j]);
        }
    }
    assert forall|i: int| m <= i < more.len() - 1 implies (#[trigger] more[i]).end == more[i
        + 1].start && more[i].flags != more[i + 1].flags by {
        assert(more[i] == list[i]);
        if i + 1 < list.len() {
            assert(more[i + 1] == list[i + 1]);
        }
    }
}

/// Give every page of `[start, end)` the permissions the segments covering it
/// ask for, one protection for each run of pages that agree.
fn protect_piece(
    list: &mut Vec<Protection>,
    segments: &Vec<Moved>,
    start: u64,
    end: u64,
) -> (done: Result<(), LoadError>)
    requires
        start < end,
        forall|i: int|
            0 <= i < old(list)@.len() ==> protection_sound(segments@, #[trigger] old(list)@[i]),
    ensures
        match done {
            Ok(_) => {
                &&& clean(segments@, start as int, end as int)
                &&& forall|i: int|
                    0 <= i < final(list)@.len() ==> protection_sound(
                        segments@,
                        #[trigger] final(list)@[i],
                    )
                &&& forall|x: int| #[trigger]
                    protects(final(list)@, x) == (protects(old(list)@, x) || start <= x < end)
                &&& split_from(final(list)@, old(list)@.len() as int, start, end)
                &&& final(list)@.len() > old(list)@.len()
                &&& forall|i: int|
                    0 <= i < old(list)@.len() ==> #[trigger] final(list)@[i] == old(list)@[i]
                &&& start % 4096 == 0 && end % 4096 == 0 ==> forall|i: int|
                    old(list)@.len() <= i < final(list)@.len() ==> (
                    #[trigger] final(list)@[i]).start % 4096 == 0 && final(list)@[i].end % 4096
                        == 0
            },
            Err(e) => {
                &&& e matches LoadError::WriteExecute(at)
                &&& start <= at < end
                &&& write_execute(flags_at(segments@, at as int))
                &&& clean(segments@, start as int, at as int)
            },
        },
{
    let cuts = cuts_of(segments, start, end);
    let mut at: u64 = start;
    let mut same: u32 = union_at(segments, start);
    let mut i: usize = 1;
    proof {
        assert forall|x: int| at <= x < cuts@[1] implies #[trigger] flags_at(segments@, x)
            == same by {
            lemma_window(segments@, start, end, cuts@, 0, x);
        }
        assert(cuts@[0] < cuts@[1]);
    }
    while i < cuts.len() - 1
        invariant
            start < end,
            rising(cuts@),
            cuts@.len() >= 2,
            cuts@[0] == start,
            cuts@[cuts@.len() - 1] == end,
            forall|k: int|
                0 <= k < segments@.len() ==> {
                    &&& start < (#[trigger] segments@[k]).first_page() < end ==> cuts@.contains(
                        segments@[k].first_page() as u64,
                    )
                    &&& start < segments@[k].end_page() < end ==> cuts@.contains(
                        segments@[k].end_page() as u64,
                    )
                },
            1 <= i <= cuts@.len() - 1,
            start <= at < cuts@[i as int],
            forall|x: int| at <= x < cuts@[i as int] ==> #[trigger] flags_at(segments@, x) == same,
            clean(segments@, start as int, at as int),
            forall|j: int|
                0 <= j < list@.len() ==> protection_sound(segments@, #[trigger] list@[j]),
            forall|x: int| #[trigger]
                protects(list@, x) == (protects(old(list)@, x) || start <= x < at),
            forall|j: int| 0 < j < cuts@.len() - 1 ==> (#[trigger] cuts@[j]) % 4096 == 0,
            split_from(list@, old(list)@.len() as int, start, at),
            list@.len() > old(list)@.len() ==> list@[list@.len() - 1].flags != same,
            forall|j: int| 0 <= j < old(list)@.len() ==> #[trigger] list@[j] == old(list)@[j],
            start % 4096 == 0 && end % 4096 == 0 ==> at % 4096 == 0 && forall|j: int|
                old(list)@.len() <= j < list@.len() ==> (#[trigger] list@[j]).start % 4096 == 0
                    && list@[j].end % 4096 == 0,
        decreases cuts@.len() - i,
    {
        let from: u64 = cuts[i];
        let ghost to = cuts@[i + 1];
        proof {
            assert(cuts@[i as int] < cuts@[i + 1]);
            if i + 1 < cuts@.len() - 1 {
                assert(cuts@[i + 1] < cuts@[cuts@.len() - 1]);
            }
        }
        let flags: u32 = union_at(segments, from);
        proof {
            assert forall|x: int| from <= x < to implies #[trigger] flags_at(segments@, x)
                == flags by {
                lemma_window(segments@, start, end, cuts@, i as int, x);
            }
        }
        if flags != same {
            let ghost before = list@;
            proof {
                assert(flags_at(segments@, at as int) == same);
                lemma_protects_push(before, Protection { start: at, end: from, flags: same });
                lemma_split_push(
                    before,
                    old(list)@.len() as int,
                    start,
                    at,
                    Protection { start: at, end: from, flags: same },
                );
                assert(cuts@[i as int] % 4096 == 0);
            }
            protect(list, at, from, same)?;
            proof {
                assert forall|x: int| start <= x < from implies !write_execute(
                    #[trigger] flags_at(segments@, x),
                ) by {}
            }
            at = from;
            same = flags;
        }
        i = i + 1;
    }
    let ghost before = list@;
    proof {
        assert(flags_at(segments@, at as int) == same);
        lemma_protects_push(before, Protection { start: at, end, flags: same });
        lemma_split_push(
            before,
            old(list)@.len() as int,
            start,
            at,
            Protection { start: at, end, flags: same },
        );
    }
    protect(list, at, end, same)?;
    Ok(())
}

/// Whether nothing in the first `n` of `pieces` would be writable and
/// executable.
pub open spec fn pieces_clean(segments: Seq<Moved>, pieces: Seq<(u64, u64)>, n: int) -> bool {
    forall|j: int|
        0 <= j < n ==> clean(
            segments,
            (#[trigger] pieces[j]).0 as int,
            pieces[j].1 as int,
        )
}

/// Whether `e` names the first page of `pieces` that would be writable and
/// executable at once.
pub open spec fn clashes(segments: Seq<Moved>, pieces: Seq<(u64, u64)>, e: LoadError) -> bool {
    exists|n: int, at: u64|
        {
            &&& 0 <= n < pieces.len()
            &&& #[trigger] pieces_clean(segments, pieces, n)
            &&& pieces[n].0 <= at < pieces[n].1
            &&& #[trigger] write_execute(flags_at(segments, at as int))
            &&& clean(segments, pieces[n].0 as int, at as int)
            &&& e == LoadError::WriteExecute(at)
        }
}

/// Whether `p` is inside one of the first `n` pieces.
pub open spec fn in_piece(pieces: Seq<(u64, u64)>, p: Protection, n: int) -> bool {
    exists|m: int|
        0 <= m < n && (#[trigger] pieces[m]).0 <= p.start && p.end <= pieces[m].1
}

/// Whether one of `pieces` ends at `c`.
pub open spec fn piece_ends(pieces: Seq<(u64, u64)>, c: u64) -> bool {
    exists|m: int| 0 <= m < pieces.len() && (#[trigger] pieces[m]).1 == c
}

/// Whether `list` splits `pieces` as far as the flags ask, and no further: each
/// entry is inside one piece, and an entry that goes on where the one before it
/// ends, with the same flags, begins another piece.
pub open spec fn split_by_flags(pieces: Seq<(u64, u64)>, list: Seq<Protection>) -> bool {
    &&& forall|i: int|
        0 <= i < list.len() ==> in_piece(pieces, #[trigger] list[i], pieces.len() as int)
    &&& forall|i: int|
        0 <= i < list.len() - 1 && (#[trigger] list[i]).end == list[i + 1].start && list[i].flags
            == list[i + 1].flags ==> piece_ends(pieces, list[i].end)
}

/// Whether protections go up, none reaching into the next.
pub open spec fn protections_in_order(list: Seq<Protection>) -> bool {
    forall|i: int, j: int| 0 <= i < j < list.len() ==> list[i].end <= list[j].start
}

/// Whether every protection is for whole pages.
pub open spec fn protections_paged(list: Seq<Protection>) -> bool {
    forall|i: int|
        0 <= i < list.len() ==> (#[trigger] list[i]).start % 4096 == 0 && list[i].end % 4096 == 0
}

/// Give every anonymous page the permissions the segments covering it ask
/// for. A page that would be writable and executable at once refuses the
/// image, naming the first one.
pub fn apply_permissions(segments: &Vec<Moved>, anonymous: &Vec<(u64, u64)>) -> (list: Result<
    Vec<Protection>,
    LoadError,
>)
    requires
        forall|i: int|
            0 <= i < anonymous@.len() ==> (#[trigger] anonymous@[i]).0 < anonymous@[i].1,
    ensures
        match list {
            Ok(list) => {
                &&& pieces_clean(segments@, anonymous@, anonymous@.len() as int)
                &&& forall|i: int|
                    0 <= i < list@.len() ==> protection_sound(segments@, #[trigger] list@[i])
                &&& forall|x: int| #[trigger] protects(list@, x) == covered(anonymous@, x)
                &&& split_by_flags(anonymous@, list@)
                &&& in_order(anonymous@) ==> protections_in_order(list@)
                &&& paged(anonymous@) ==> protections_paged(list@)
            },
            Err(e) => clashes(segments@, anonymous@, e),
        },
{
    let mut list: Vec<Protection> = Vec::new();
    let mut n: usize = 0;
    proof {
        assert forall|x: int| #[trigger] protects(list@, x) == covered(anonymous@.take(0), x) by {}
    }
    while n < anonymous.len()
        invariant
            n <= anonymous@.len(),
            forall|i: int|
                0 <= i < anonymous@.len() ==> (#[trigger] anonymous@[i]).0 < anonymous@[i].1,
            pieces_clean(segments@, anonymous@, n as int),
            forall|i: int|
                0 <= i < list@.len() ==> protection_sound(segments@, #[trigger] list@[i]),
            forall|x: int| #[trigger]
                protects(list@, x) == covered(anonymous@.take(n as int), x),
            forall|i: int|
                0 <= i < list@.len() ==> in_piece(anonymous@, #[trigger] list@[i], n as int),
            forall|i: int|
                0 <= i < list@.len() - 1 && (#[trigger] list@[i]).end == list@[i + 1].start
                    && list@[i].flags == list@[i + 1].flags ==> piece_ends(
                    anonymous@,
                    list@[i].end,
                ),
            list@.len() > 0 ==> piece_ends(anonymous@, list@[list@.len() - 1].end),
            in_order(anonymous@) ==> protections_in_order(list@),
            paged(anonymous@) ==> protections_paged(list@),
        decreases anonymous@.len() - n,
    {
        let (start, end) = anonymous[n];
        let ghost before = list@;
        proof {
            assert(anonymous@[n as int] == (start, end));
            lemma_covered_push(anonymous@.take(n as int), (start, end));
            assert(anonymous@.take(n + 1) =~= anonymous@.take(n as int).push((start, end)));
        }
        match protect_piece(&mut list, segments, start, end) {
            Ok(_) => {},
            Err(e) => {
                proof {
                    let at = e->WriteExecute_0;
                    assert(pieces_clean(segments@, anonymous@, n as int));
                    assert(write_execute(flags_at(segments@, at as int)));
                }
                return Err(e);
            },
        }
        proof {
            assert forall|x: int| #[trigger] protects(list@, x) == covered(
                anonymous@.take(n + 1),
                x,
            ) by {
                assert(protects(before, x) == covered(anonymous@.take(n as int), x));
            }
            let m = before.len() as int;
            assert forall|i: int| 0 <= i < list@.len() implies in_piece(
                anonymous@,
                #[trigger] list@[i],
                n + 1,
            ) by {
                if i < m {
                    assert(in_piece(anonymous@, before[i], n as int));
                } else {
                    assert(anonymous@[n as int].0 <= list@[i].start);
                }
            }
            assert(anonymous@[n as int].1 == end);
            assert forall|i: int|
                0 <= i < list@.len() - 1 && (#[trigger] list@[i]).end == list@[i + 1].start
                    && list@[i].flags == list@[i + 1].flags implies piece_ends(
                anonymous@,
                list@[i].end,
            ) by {
                if i < m {
                    assert(list@[i] == before[i]);
                    if i + 1 < m {
                        assert(list@[i + 1] == before[i + 1]);
                    }
                }
            }
            if in_order(anonymous@) {
                assert forall|i: int, j: int| 0 <= i < j < list@.len() implies list@[i].end
                    <= list@[j].start by {
                    if i < m {
                        assert(list@[i] == before[i]);
                        assert(in_piece(anonymous@, before[i], n as int));
                        let k = choose|k: int|
                            0 <= k < n && (#[trigger] anonymous@[k]).0 <= before[i].start
                                && before[i].end <= anonymous@[k].1;
                        assert(anonymous@[k].1 <= anonymous@[n as int].0);
                        if j < m {
                            assert(list@[j] == before[j]);
                        }
                    }
                }
            }
            if paged(anonymous@) {
                assert forall|i: int| 0 <= i < list@.len() implies (#[trigger] list@[i]).start
                    % 4096 == 0 && list@[i].end % 4096 == 0 by {
                    if i < m {
                        assert(list@[i] == before[i]);
                    }
                }
            }
        }
        n = n + 1;
    }
    proof {
        assert(anonymous@.take(anonymous@.len() as int) =~= anonymous@);
    }
    Ok(list)
}

// ---------------------------------------------------------------------------
// Headers
// ---------------------------------------------------------------------------

/// Where a position-independent program's lowest page is placed: two thirds of
/// the way up the user half.
pub open spec fn spec_pie_base(user_end: u64) -> int {
    spec_page_down(user_end as int / 3 * 2)
}

/// Where a dynamic linker's lowest page is placed: one third of the way up,
/// below the program so that its heap has room.
pub open spec fn spec_interp_base(user_end: u64) -> int {
    spec_page_down(user_end as int / 3)
}

/// Where a position-independent program's lowest page is placed.
pub fn pie_base(user_end: u64) -> (base: u64)
    ensures
        base == spec_pie_base(user_end),
{
    page_down(user_end / 3 * 2)
}

/// Where a dynamic linker's lowest page is placed.
pub fn interp_base(user_end: u64) -> (base: u64)
    ensures
        base == spec_interp_base(user_end),
{
    page_down(user_end / 3)
}

/// The linker is placed below the program, never in its heap's way.
pub proof fn law_the_linker_is_below_the_program(user_end: u64)
    requires
        user_end >= 0x6000,
    ensures
        spec_interp_base(user_end) < spec_pie_base(user_end),
        spec_interp_base(user_end) % 4096 == 0,
        spec_pie_base(user_end) % 4096 == 0,
        spec_pie_base(user_end) < user_end,
{
}

/// Whether every segment's contents are inside an image of `len` bytes.
pub open spec fn within(segments: Seq<Segment>, len: int) -> bool {
    forall|i: int|
        0 <= i < segments.len() ==> (#[trigger] segments[i]).offset + segments[i].filesz <= len
}

/// What is wrong with an image's headers on a machine numbered `machine`.
pub open spec fn headers_refused(elf: Elf, machine: u16, len: int) -> Option<LoadError> {
    if elf.machine != machine {
        Some(LoadError::WrongMachine(elf.machine))
    } else if !within(elf.segments@, len) {
        Some(LoadError::Malformed(ElfError::SegmentOutOfBounds))
    } else {
        None
    }
}

/// Refuse what is wrong with an image's headers: another machine, or a segment
/// whose contents are not inside the `len` bytes of the image.
pub fn parse(elf: &Elf, machine: u16, len: u64) -> (done: Result<(), LoadError>)
    ensures
        match headers_refused(*elf, machine, len as int) {
            Some(e) => done == Err::<(), LoadError>(e),
            None => done is Ok,
        },
{
    if elf.machine != machine {
        return Err(LoadError::WrongMachine(elf.machine));
    }
    let mut i: usize = 0;
    while i < elf.segments.len()
        invariant
            i <= elf.segments@.len(),
            elf.machine == machine,
            forall|j: int|
                0 <= j < i ==> (#[trigger] elf.segments@[j]).offset + elf.segments@[j].filesz
                    <= len,
        decreases elf.segments@.len() - i,
    {
        let segment = elf.segments[i];
        let inside = match segment.offset.checked_add(segment.filesz) {
            Some(end) => end <= len,
            None => false,
        };
        if !inside {
            assert(!within(elf.segments@, len as int)) by {
                assert(elf.segments@[i as int] == segment);
            }
            return Err(LoadError::Malformed(ElfError::SegmentOutOfBounds));
        }
        i = i + 1;
    }
    Ok(())
}

/// The loadable segments among the first `n`, moved by `bias`, in order.
pub open spec fn loadable_of(segments: Seq<Segment>, bias: u64, n: nat) -> Seq<Moved>
    decreases n,
{
    if n == 0 {
        Seq::empty()
    } else {
        let before = loadable_of(segments, bias, (n - 1) as nat);
        if segments[n - 1].kind == PT_LOAD {
            before.push(Moved::spec_of(segments[n - 1], bias))
        } else {
            before
        }
    }
}

/// An image's loadable segments, moved by `bias`, in order.
pub open spec fn loadable(elf: Elf, bias: u64) -> Seq<Moved> {
    loadable_of(elf.segments@, bias, elf.segments@.len())
}

fn loadable_segments(elf: &Elf, bias: u64) -> (moved: Vec<Moved>)
    ensures
        moved@ == loadable(*elf, bias),
{
    let mut moved: Vec<Moved> = Vec::new();
    let mut i: usize = 0;
    while i < elf.segments.len()
        invariant
            i <= elf.segments@.len(),
            moved@ == loadable_of(elf.segments@, bias, i as nat),
        decreases elf.segments@.len() - i,
    {
        if elf.segments[i].kind == PT_LOAD {
            moved.push(Moved::of(&elf.segments[i], bias));
        }
        i = i + 1;
    }
    moved
}

/// The lowest page of any of `segments`.
pub open spec fn lowest(segments: Seq<Moved>) -> int
    decreases segments.len(),
{
    if segments.len() <= 1 {
        segments[0].first_page()
    } else {
        min_int(lowest(segments.drop_last()), segments.last().first_page())
    }
}

/// One past the highest page of any of `segments`.
pub open spec fn highest(segments: Seq<Moved>) -> int
    decreases segments.len(),
{
    if segments.len() <= 1 {
        segments[0].end_page()
    } else {
        let before = highest(segments.drop_last());
        if segments.last().end_page() > before {
            segments.last().end_page()
        } else {
            before
        }
    }
}

/// Every segment's pages lie between the lowest and the highest.
pub proof fn law_the_span_holds_every_segment(segments: Seq<Moved>, i: int)
    requires
        0 <= i < segments.len(),
    ensures
        lowest(segments) <= segments[i].first_page(),
        segments[i].end_page() <= highest(segments),
    decreases segments.len(),
{
    if segments.len() > 1 && i < segments.len() - 1 {
        law_the_span_holds_every_segment(segments.drop_last(), i);
    }
}

/// The lowest page of an image as linked, and one past its highest; none for
/// an image with nothing to load.
pub open spec fn spec_span(elf: Elf) -> Option<(u64, u64)> {
    let moved = loadable(elf, 0);
    if moved.len() == 0 {
        None
    } else {
        Some((lowest(moved) as u64, highest(moved) as u64))
    }
}

/// The lowest page of an image as linked, and one past its highest; none for
/// an image with nothing to load.
pub fn load_span(elf: &Elf) -> (span: Option<(u64, u64)>)
    ensures
        span == spec_span(*elf),
{
    let moved = loadable_segments(elf, 0);
    if moved.len() == 0 {
        return None;
    }
    let (first, end) = moved[0].pages();
    let mut low: u64 = first;
    let mut high: u64 = end;
    let mut i: usize = 1;
    while i < moved.len()
        invariant
            1 <= i <= moved@.len(),
            low == lowest(moved@.take(i as int)),
            high == highest(moved@.take(i as int)),
        decreases moved@.len() - i,
    {
        let (first, end) = moved[i].pages();
        proof {
            assert(moved@.take(i + 1).drop_last() =~= moved@.take(i as int));
        }
        if first < low {
            low = first;
        }
        if end > high {
            high = end;
        }
        i = i + 1;
    }
    proof {
        assert(moved@.take(moved@.len() as int) =~= moved@);
    }
    Some((low, high))
}

/// A whole number of pages is one as 64 bits hold it, too.
proof fn lemma_wrapped_page(v: int)
    requires
        v % 4096 == 0,
    ensures
        wrapped(v) % 4096 == 0,
{
    assert(v % 0x1_0000_0000_0000_0000 == v - 0x1_0000_0000_0000_0000 * (v
        / 0x1_0000_0000_0000_0000));
}

/// An image is moved by whole pages.
proof fn lemma_moved_by_pages(elf: Elf, linked: bool, user_end: u64)
    ensures
        spec_span(elf) matches Some((low, _)) ==> {
            &&& spec_bias(elf, low, linked, user_end) matches Ok(bias) ==> bias % 4096 == 0
            &&& linker_bias(low, user_end) % 4096 == 0
        },
{
    lemma_span_paged(elf);
    if let Some((low, _)) = spec_span(elf) {
        lemma_wrapped_page(spec_pie_base(user_end) - low);
        lemma_wrapped_page(spec_interp_base(user_end) - low);
    }
}

/// The span of an image is whole pages.
proof fn lemma_span_paged(elf: Elf)
    ensures
        spec_span(elf) matches Some((low, high)) ==> low % 4096 == 0 && high % 4096 == 0,
{
    if loadable(elf, 0).len() > 0 {
        lemma_lowest_paged(loadable(elf, 0));
    }
}

proof fn lemma_lowest_paged(segments: Seq<Moved>)
    requires
        segments.len() > 0,
    ensures
        lowest(segments) % 4096 == 0,
        highest(segments) % 4096 == 0,
        0 <= lowest(segments) <= u64::MAX,
        0 <= highest(segments) <= u64::MAX,
    decreases segments.len(),
{
    if segments.len() > 1 {
        lemma_lowest_paged(segments.drop_last());
    }
}

/// Whether an image names a linker.
pub open spec fn names_linker(elf: Elf) -> bool {
    exists|i: int| 0 <= i < elf.segments@.len() && (#[trigger] elf.segments@[i]).kind == PT_INTERP
}

fn asks_for_linker(elf: &Elf) -> (at: Option<usize>)
    ensures
        match at {
            Some(i) => i < elf.segments@.len() && elf.segments@[i as int].kind == PT_INTERP
                && forall|j: int| 0 <= j < i ==> (#[trigger] elf.segments@[j]).kind != PT_INTERP,
            None => !names_linker(*elf),
        },
        at is Some == names_linker(*elf),
{
    let mut i: usize = 0;
    while i < elf.segments.len()
        invariant
            i <= elf.segments@.len(),
            forall|j: int| 0 <= j < i ==> (#[trigger] elf.segments@[j]).kind != PT_INTERP,
        decreases elf.segments@.len() - i,
    {
        if elf.segments[i].kind == PT_INTERP {
            return Some(i);
        }
        i = i + 1;
    }
    None
}

/// What an image has to be to be somebody's dynamic linker: placeable, and
/// naming no linker of its own.
pub open spec fn linker_refused(linker: Elf) -> Option<LoadError> {
    if !linker.pie {
        Some(LoadError::InterpreterNotPie)
    } else if names_linker(linker) {
        Some(LoadError::InterpreterChain)
    } else {
        None
    }
}

/// Refuse an image that cannot be somebody's dynamic linker.
pub fn check_is_a_linker(linker: &Elf) -> (done: Result<(), LoadError>)
    ensures
        match linker_refused(*linker) {
            Some(e) => done == Err::<(), LoadError>(e),
            None => done is Ok,
        },
{
    if !linker.pie {
        return Err(LoadError::InterpreterNotPie);
    }
    if asks_for_linker(linker).is_some() {
        return Err(LoadError::InterpreterChain);
    }
    Ok(())
}

/// How far an image with lowest page `low` is moved from where it is linked.
pub open spec fn spec_bias(elf: Elf, low: u64, linked: bool, user_end: u64) -> Result<
    u64,
    LoadError,
> {
    if !linked && names_linker(elf) {
        Err(LoadError::NeedsInterpreter)
    } else if !elf.pie {
        Ok(0)
    } else {
        Ok(wrapped(spec_pie_base(user_end) - low) as u64)
    }
}

/// How far the image is moved from where it is linked: nowhere for a
/// fixed-address one, and from its lowest page `low` to the program's base for
/// one that may be placed. One that names a linker and was given none is
/// refused whatever its type.
pub fn bias_of(elf: &Elf, low: u64, linked: bool, user_end: u64) -> (bias: Result<u64, LoadError>)
    ensures
        bias == spec_bias(*elf, low, linked, user_end),
{
    if !linked && asks_for_linker(elf).is_some() {
        return Err(LoadError::NeedsInterpreter);
    }
    if !elf.pie {
        return Ok(0);
    }
    Ok(wrap_sub(pie_base(user_end), low))
}

/// Where execution starts once moved by `bias`, if a program may run there.
pub open spec fn spec_entry(elf: Elf, bias: u64, user_end: u64) -> Result<u64, LoadError> {
    let entry = wrapped(elf.entry + bias) as u64;
    if entry < user_end {
        Ok(entry)
    } else {
        Err(LoadError::EntryNotUser(entry))
    }
}

/// Where execution starts, if a program may run there.
pub fn entry_point(elf: &Elf, bias: u64, user_end: u64) -> (entry: Result<u64, LoadError>)
    ensures
        entry == spec_entry(*elf, bias, user_end),
{
    let entry: u64 = wrap_add(elf.entry, bias);
    if entry >= user_end {
        return Err(LoadError::EntryNotUser(entry));
    }
    Ok(entry)
}

/// Where the program headers are once the first `n` segments have been asked:
/// their file offset, through the first loadable segment whose contents hold
/// it, and zero if none does.
pub open spec fn headers_from(segments: Seq<Segment>, phoff: u64, bias: u64, n: int) -> u64
    decreases segments.len() - n,
{
    if n < 0 || n >= segments.len() {
        0
    } else {
        let s = segments[n];
        if s.kind == PT_LOAD && s.offset + s.filesz <= u64::MAX && s.offset <= phoff < s.offset
            + s.filesz {
            wrapped(crate::time::saturated(s.vaddr + (phoff - s.offset)) + bias) as u64
        } else {
            headers_from(segments, phoff, bias, n + 1)
        }
    }
}

/// Where the program header table ended up in memory, or zero.
pub fn program_headers_at(elf: &Elf, bias: u64) -> (at: u64)
    ensures
        at == headers_from(elf.segments@, elf.phoff, bias, 0),
{
    let mut i: usize = 0;
    while i < elf.segments.len()
        invariant
            i <= elf.segments@.len(),
            headers_from(elf.segments@, elf.phoff, bias, 0) == headers_from(
                elf.segments@,
                elf.phoff,
                bias,
                i as int,
            ),
        decreases elf.segments@.len() - i,
    {
        let s = elf.segments[i];
        if s.kind == PT_LOAD {
            if let Some(end) = s.offset.checked_add(s.filesz) {
                if elf.phoff >= s.offset && elf.phoff < end {
                    return wrap_add(s.vaddr.saturating_add(elf.phoff - s.offset), bias);
                }
            }
        }
        i = i + 1;
    }
    0
}

/// Where a linker's name is.
#[derive(Debug, PartialEq, Eq)]
pub enum Named {
    /// The image names none.
    Nobody,
    /// These bytes spell its name.
    Bytes(Vec<u8>),
    /// In the file past its head: read these bytes.
    InFile {
        /// Where.
        offset: u64,
        /// How many.
        len: u64,
    },
}

/// What the linker's name comes to, once its bytes were looked for and read as
/// a name: `read` is what came of reading them, which those in the head need
/// not be, and `name` the path they spell, if they spell one.
pub fn interpreter_path(read: Result<(), Errno>, name: Option<Vec<u8>>) -> (path: Result<
    Vec<u8>,
    LoadError,
>)
    ensures
        match (read, name) {
            (Err(e), _) => path == Err::<Vec<u8>, LoadError>(LoadError::Read(e)),
            (Ok(_), None) => path == Err::<Vec<u8>, LoadError>(LoadError::BadInterpreter),
            (Ok(_), Some(name)) => path == Ok::<Vec<u8>, LoadError>(name),
        },
{
    if let Err(e) = read {
        return Err(LoadError::Read(e));
    }
    match name {
        Some(name) => Ok(name),
        None => Err(LoadError::BadInterpreter),
    }
}

/// The linker `elf` asks for, if it asks for one: the bytes of its name where
/// the head holds them, where to read them in the file otherwise, and an error
/// where they cannot be.
pub fn interpreter_of(elf: &Elf, image: &Source) -> (named: Result<Named, LoadError>)
    ensures
        if !names_linker(*elf) {
            named == Ok::<Named, LoadError>(Named::Nobody)
        } else {
            exists|i: int|
                {
                    let s = #[trigger] elf.segments@[i];
                    let head = image.spec_head();
                    &&& 0 <= i < elf.segments@.len()
                    &&& s.kind == PT_INTERP
                    &&& forall|j: int| 0 <= j < i ==> (#[trigger] elf.segments@[j]).kind
                        != PT_INTERP
                    &&& if s.offset + s.filesz <= head.len() {
                        named matches Ok(Named::Bytes(bytes)) && bytes@ == head.subrange(
                            s.offset as int,
                            s.offset + s.filesz,
                        )
                    } else if image is File && s.filesz <= INTERPRETER_MOST {
                        named == Ok::<Named, LoadError>(
                            Named::InFile { offset: s.offset, len: s.filesz },
                        )
                    } else {
                        named == Err::<Named, LoadError>(LoadError::BadInterpreter)
                    }
                }
        },
{
    let i: usize = match asks_for_linker(elf) {
        Some(i) => i,
        None => return Ok(Named::Nobody),
    };
    let s = elf.segments[i];
    assert(elf.segments@[i as int] == s);
    let head = image.head();
    let head_len: u64 = head.len() as u64;
    let inside = match s.offset.checked_add(s.filesz) {
        Some(end) => end <= head_len,
        None => false,
    };
    if inside {
        let data = vstd::slice::slice_subrange(
            head,
            s.offset as usize,
            (s.offset + s.filesz) as usize,
        );
        return Ok(Named::Bytes(crate::exec::copied(data)));
    }
    match image {
        Source::File { .. } => {
            if s.filesz <= INTERPRETER_MOST {
                return Ok(Named::InFile { offset: s.offset, len: s.filesz });
            }
            Err(LoadError::BadInterpreter)
        },
        Source::Bytes(_) => Err(LoadError::BadInterpreter),
    }
}

// ---------------------------------------------------------------------------
// Placing
// ---------------------------------------------------------------------------

/// `len` bytes of the image from byte `from`, to be copied to `to`, for one of
/// its segments.
#[derive(Clone, Copy, Debug, PartialEq, Eq, Structural)]
pub struct CopyIn {
    pub segment: usize,
    pub from: u64,
    pub to: u64,
    pub len: u64,
}

/// Whether `c` brings bytes of its segment's file contents to where they
/// belong, and to no page that is the file's own.
pub open spec fn copy_sound(segments: Seq<Moved>, runs: Seq<FileRun>, c: CopyIn) -> bool {
    &&& c.segment < segments.len()
    &&& c.len > 0
    &&& segments[c.segment as int].at <= c.to
    &&& c.to + c.len <= segments[c.segment as int].spec_file_end()
    &&& c.from == wrapped(
        segments[c.segment as int].offset + (c.to - segments[c.segment as int].at),
    )
    &&& forall|x: int| c.to <= x < c.to + c.len ==> !#[trigger] in_runs(runs, x)
}

/// Whether the byte at `x` of segment `k` is copied.
pub open spec fn copied(copies: Seq<CopyIn>, k: int, x: int) -> bool {
    exists|i: int|
        0 <= i < copies.len() && (#[trigger] copies[i]).segment == k && copies[i].to <= x
            < copies[i].to + copies[i].len
}

/// Whether every byte of segment `k`'s file contents that no page of the file
/// shows is copied.
pub open spec fn copies_complete(
    segments: Seq<Moved>,
    runs: Seq<FileRun>,
    copies: Seq<CopyIn>,
    k: int,
) -> bool {
    forall|x: int|
        #![trigger copied(copies, k, x)]
        segments[k].at <= x < segments[k].spec_file_end() && !in_runs(runs, x) ==> copied(
            copies,
            k,
            x,
        )
}

/// `[piece.0, piece.1)` of segment `k`, copied from the image.
pub open spec fn copy_of(segments: Seq<Moved>, k: int, piece: (u64, u64)) -> CopyIn {
    CopyIn {
        segment: k as usize,
        from: wrapped(segments[k].offset + (piece.0 - segments[k].at)) as u64,
        to: piece.0,
        len: (piece.1 - piece.0) as u64,
    }
}

/// What of segment `k`'s file contents none of `runs` shows.
pub open spec fn not_shown(segments: Seq<Moved>, runs: Seq<FileRun>, k: int) -> Seq<(u64, u64)> {
    spec_nonempty(cut_by(segments[k].at, segments[k].spec_file_end() as u64, runs))
}

/// The copies of the first `n` segments: one for each piece of each segment's
/// file contents that none of `runs` shows.
pub open spec fn spec_copies(segments: Seq<Moved>, runs: Seq<FileRun>, n: nat) -> Seq<CopyIn>
    decreases n,
{
    if n == 0 {
        Seq::empty()
    } else {
        let pieces = not_shown(segments, runs, n - 1);
        spec_copies(segments, runs, (n - 1) as nat) + Seq::new(
            pieces.len(),
            |i: int| copy_of(segments, n - 1, pieces[i]),
        )
    }
}

proof fn lemma_copied_push(copies: Seq<CopyIn>, c: CopyIn)
    ensures
        forall|k: int, x: int| #[trigger]
            copied(copies.push(c), k, x) == (copied(copies, k, x) || (c.segment == k && c.to <= x
                < c.to + c.len)),
{
    let more = copies.push(c);
    assert forall|k: int, x: int| #[trigger]
        copied(more, k, x) == (copied(copies, k, x) || (c.segment == k && c.to <= x < c.to
            + c.len)) by {
        if copied(more, k, x) {
            let i = choose|i: int|
                0 <= i < more.len() && (#[trigger] more[i]).segment == k && more[i].to <= x
                    < more[i].to + more[i].len;
            if i < copies.len() {
                assert(copies[i] == more[i]);
            }
        }
        if copied(copies, k, x) {
            let i = choose|i: int|
                0 <= i < copies.len() && (#[trigger] copies[i]).segment == k && copies[i].to <= x
                    < copies[i].to + copies[i].len;
            assert(more[i] == copies[i]);
        }
        if c.segment == k && c.to <= x < c.to + c.len {
            assert(more[copies.len() as int] == c);
        }
    }
}

/// Each segment's file contents, less what the file's own pages show.
fn copies_of(segments: &Vec<Moved>, runs: &Vec<FileRun>) -> (copies: Vec<CopyIn>)
    ensures
        copies@ == spec_copies(segments@, runs@, segments@.len()),
        forall|i: int|
            0 <= i < copies@.len() ==> copy_sound(segments@, runs@, #[trigger] copies@[i]),
        forall|k: int|
            0 <= k < segments@.len() ==> #[trigger] copies_complete(
                segments@,
                runs@,
                copies@,
                k,
            ),
{
    let mut copies: Vec<CopyIn> = Vec::new();
    let mut k: usize = 0;
    while k < segments.len()
        invariant
            k <= segments@.len(),
            copies@ == spec_copies(segments@, runs@, k as nat),
            forall|i: int|
                0 <= i < copies@.len() ==> copy_sound(segments@, runs@, #[trigger] copies@[i]),
            forall|j: int|
                0 <= j < k ==> #[trigger] copies_complete(segments@, runs@, copies@, j),
        decreases segments@.len() - k,
    {
        let segment = segments[k];
        let pieces = outside(segment.at, segment.file_end(), runs);
        let ghost before = copies@;
        let mut i: usize = 0;
        assert(copies@ =~= before + Seq::new(
            0,
            |j: int| copy_of(segments@, k as int, pieces@[j]),
        ));
        while i < pieces.len()
            invariant
                k < segments@.len(),
                segment == segments@[k as int],
                i <= pieces@.len(),
                copies@ == before + Seq::new(
                    i as nat,
                    |j: int| copy_of(segments@, k as int, pieces@[j]),
                ),
                forall|x: int| #[trigger]
                    covered(pieces@, x) == (segment.at <= x < segment.spec_file_end() && !in_runs(
                        runs@,
                        x,
                    )),
                forall|j: int|
                    0 <= j < pieces@.len() ==> (#[trigger] pieces@[j]).0 < pieces@[j].1,
                forall|j: int|
                    0 <= j < pieces@.len() ==> segment.at <= (#[trigger] pieces@[j]).0
                        && pieces@[j].1 <= segment.spec_file_end(),
                forall|i: int|
                    0 <= i < copies@.len() ==> copy_sound(segments@, runs@, #[trigger] copies@[i]),
                forall|j: int, x: int| #[trigger] copied(before, j, x) ==> copied(copies@, j, x),
                forall|x: int| #[trigger]
                    covered(pieces@.take(i as int), x) ==> copied(copies@, k as int, x),
            decreases pieces@.len() - i,
        {
            let (start, end) = pieces[i];
            assert(pieces@[i as int] == (start, end));
            let copy = CopyIn {
                segment: k,
                from: wrap_add(segment.offset, start - segment.at),
                to: start,
                len: end - start,
            };
            proof {
                lemma_covered_push(pieces@.take(i as int), (start, end));
                assert(pieces@.take(i + 1) =~= pieces@.take(i as int).push((start, end)));
                lemma_copied_push(copies@, copy);
                assert forall|x: int| copy.to <= x < copy.to + copy.len implies !#[trigger] in_runs(
                    runs@,
                    x,
                ) by {
                    assert(covered(pieces@, x));
                }
                assert(copy_sound(segments@, runs@, copy));
            }
            copies.push(copy);
            i = i + 1;
            proof {
                assert(copy == copy_of(segments@, k as int, (start, end)));
                assert(copies@ =~= before + Seq::new(
                    i as nat,
                    |j: int| copy_of(segments@, k as int, pieces@[j]),
                ));
            }
        }
        proof {
            assert(pieces@.take(pieces@.len() as int) =~= pieces@);
            assert forall|j: int| 0 <= j < k + 1 implies #[trigger] copies_complete(
                segments@,
                runs@,
                copies@,
                j,
            ) by {
                if j < k {
                    assert(copies_complete(segments@, runs@, before, j));
                    assert forall|x: int|
                        #![trigger copied(copies@, j, x)]
                        segments@[j].at <= x < segments@[j].spec_file_end() && !in_runs(
                            runs@,
                            x,
                        ) implies copied(copies@, j, x) by {
                        assert(copied(before, j, x));
                    }
                } else {
                    assert forall|x: int|
                        #![trigger copied(copies@, j, x)]
                        segments@[j].at <= x < segments@[j].spec_file_end() && !in_runs(
                            runs@,
                            x,
                        ) implies copied(copies@, j, x) by {
                        assert(covered(pieces@, x));
                    }
                }
            }
        }
        k = k + 1;
    }
    copies
}

/// The first of `runs` that would be writable and executable at once.
pub open spec fn bad_run(runs: Seq<FileRun>, i: int) -> Option<int>
    decreases runs.len() - i,
{
    if i < 0 || i >= runs.len() {
        None
    } else if write_execute(runs[i].flags) {
        Some(i)
    } else {
        bad_run(runs, i + 1)
    }
}

/// Refuse a run that would be writable and executable at once: each of the
/// rest is to be mapped from the file, privately.
pub fn map_runs(runs: &Vec<FileRun>) -> (done: Result<(), LoadError>)
    ensures
        match bad_run(runs@, 0) {
            Some(i) => done == Err::<(), LoadError>(LoadError::WriteExecute(runs@[i].start)),
            None => done is Ok,
        },
{
    let mut i: usize = 0;
    while i < runs.len()
        invariant
            i <= runs@.len(),
            bad_run(runs@, 0) == bad_run(runs@, i as int),
        decreases runs@.len() - i,
    {
        if runs[i].flags & PF_W != 0 && runs[i].flags & PF_X != 0 {
            return Err(LoadError::WriteExecute(runs[i].start));
        }
        i = i + 1;
    }
    Ok(())
}

/// One image, placed: what to map, what to copy in, and what to leave it with.
#[derive(Debug)]
pub struct Placed {
    /// Its entry point, moved.
    pub entry: u64,
    /// Its lowest page, moved.
    pub low: u64,
    /// One past its highest page, moved.
    pub high: u64,
    /// Where its program headers landed, or zero.
    pub phdr: u64,
    /// To map anonymously, writable at first.
    pub anonymous: Vec<(u64, u64)>,
    /// To map from the file.
    pub runs: Vec<FileRun>,
    /// To copy in.
    pub copies: Vec<CopyIn>,
    /// To leave the anonymous part with.
    pub protections: Vec<Protection>,
}

/// Whether `p` places `elf`, moved by `bias`, correctly: every page between its
/// lowest and its highest is either mapped from the file, where the file can
/// show it, or anonymous; every byte of file contents the file's pages do not
/// show is copied; and every anonymous page is left with exactly what the
/// segments on it ask for.
pub open spec fn placed_right(
    p: Placed,
    elf: Elf,
    bias: u64,
    object: Option<u64>,
    user_end: u64,
) -> bool {
    let segments = loadable(elf, bias);
    &&& spec_entry(elf, bias, user_end) == Ok::<u64, LoadError>(p.entry)
    &&& spec_span(elf) matches Some((low, high))
    &&& p.low == wrapped(low + bias)
    &&& p.high == wrapped(high + bias)
    &&& p.low <= p.high
    &&& p.phdr == headers_from(elf.segments@, elf.phoff, bias, 0)
    &&& p.runs@ == object_runs(segments, object)
    &&& match object {
        Some(base) => {
            &&& runs_sound(segments, base, p.runs@)
            &&& forall|k: int|
                0 <= k < segments.len() ==> #[trigger] runs_complete(segments, base, p.runs@, k)
        },
        None => p.runs@.len() == 0,
    }
    &&& runs_paged(p.runs@)
    &&& shaped(segments) ==> runs_in_order(p.runs@)
    &&& bad_run(p.runs@, 0) is None
    &&& forall|x: int| #[trigger]
        covered(p.anonymous@, x) == (p.low <= x < p.high && !in_runs(p.runs@, x))
    &&& p.anonymous@ == spec_nonempty(cut_by(p.low, p.high, p.runs@))
    &&& in_order(p.anonymous@)
    &&& forall|i: int|
        0 <= i < p.anonymous@.len() ==> (#[trigger] p.anonymous@[i]).0 < p.anonymous@[i].1
    &&& p.copies@ == spec_copies(segments, p.runs@, segments.len())
    &&& forall|i: int|
        0 <= i < p.copies@.len() ==> copy_sound(segments, p.runs@, #[trigger] p.copies@[i])
    &&& forall|k: int|
        0 <= k < segments.len() ==> #[trigger] copies_complete(segments, p.runs@, p.copies@, k)
    &&& forall|i: int|
        0 <= i < p.protections@.len() ==> protection_sound(segments, #[trigger] p.protections@[i])
    &&& forall|x: int| #[trigger] protects(p.protections@, x) == covered(p.anonymous@, x)
    &&& split_by_flags(p.anonymous@, p.protections@)
    &&& protections_in_order(p.protections@)
    &&& bias % 4096 == 0 ==> {
        &&& p.low % 4096 == 0
        &&& p.high % 4096 == 0
        &&& paged(p.anonymous@)
        &&& protections_paged(p.protections@)
    }
}

/// Place `elf` moved by `bias`, with pages mapped from the file where `object`
/// says there is one to map.
///
/// An entry outside the user half, nothing to load, and a page that would be
/// writable and executable at once are refused, in that order.
#[verifier::rlimit(40)]
pub fn place(elf: &Elf, bias: u64, object: Option<u64>, user_end: u64) -> (placed: Result<
    Placed,
    LoadError,
>)
    ensures
        match placed {
            Ok(p) => placed_right(p, *elf, bias, object, user_end),
            Err(e) => match (spec_span(*elf), spec_entry(*elf, bias, user_end)) {
                (None, _) => e == LoadError::Empty,
                (_, Err(refused)) => e == refused,
                (Some(_), _) => unplaceable(*elf, bias, object, e),
            },
        },
{
    let (linked_low, linked_high) = match load_span(elf) {
        Some(span) => span,
        None => return Err(LoadError::Empty),
    };
    let entry: u64 = entry_point(elf, bias, user_end)?;
    let low: u64 = wrap_add(linked_low, bias);
    let high: u64 = wrap_add(linked_high, bias);
    if high < low {
        return Err(LoadError::Empty);
    }
    let segments = loadable_segments(elf, bias);
    let runs = match object {
        Some(base) => file_runs(&segments, base),
        None => Vec::new(),
    };
    let anonymous = outside(low, high, &runs);
    proof {
        assert forall|i: int| 0 <= i < runs@.len() implies (#[trigger] runs@[i]).start
            <= runs@[i].end by {
            assert(run_sound(segments@, object->0, runs@[i]));
        }
        lemma_span_paged(*elf);
        if bias % 4096 == 0 {
            lemma_wrapped_page(linked_low + bias);
            lemma_wrapped_page(linked_high + bias);
        }
    }
    map_runs(&runs)?;
    let copies = copies_of(&segments, &runs);
    let protections = apply_permissions(&segments, &anonymous)?;
    Ok(
        Placed {
            entry,
            low,
            high,
            phdr: program_headers_at(elf, bias),
            anonymous,
            runs,
            copies,
            protections,
        },
    )
}

/// The pages of `segments` that are mapped from the file, where `object` says
/// there is one to map.
pub open spec fn object_runs(segments: Seq<Moved>, object: Option<u64>) -> Seq<FileRun> {
    match object {
        Some(base) => sorted(all_runs(segments, base, segments.len())),
        None => Seq::empty(),
    }
}

/// Whether `e` is what a sound image is refused for once it is placed: it
/// wraps round the end of the address space, or a page would be writable and
/// executable at once. The first such run of the file's pages is named, and if
/// there is none, the first anonymous page.
pub open spec fn unplaceable(elf: Elf, bias: u64, object: Option<u64>, e: LoadError) -> bool {
    let segments = loadable(elf, bias);
    let runs = object_runs(segments, object);
    &&& spec_span(elf) matches Some((low, high))
    &&& if wrapped(high + bias) < wrapped(low + bias) {
        e == LoadError::Empty
    } else {
        match bad_run(runs, 0) {
            Some(i) => e == LoadError::WriteExecute(runs[i].start),
            None => clashes(
                segments,
                spec_nonempty(
                    cut_by(wrapped(low + bias) as u64, wrapped(high + bias) as u64, runs),
                ),
                e,
            ),
        }
    }
}

/// Whether the page at `at` is asked to be writable and executable at once: by
/// the segments on it together, or by the one whose file it would be mapped
/// from.
pub open spec fn write_execute_at(segments: Seq<Moved>, at: int) -> bool {
    ||| write_execute(flags_at(segments, at))
    ||| exists|k: int| #[trigger]
        mappable(segments, k, at) && write_execute(segments[k].flags)
}

// ---------------------------------------------------------------------------
// Loading
// ---------------------------------------------------------------------------

/// An image to load: its headers, its length, and where its pages are in an
/// object, if they are in one.
#[derive(Debug)]
pub struct Image {
    /// Its headers.
    pub elf: Elf,
    /// The length of the whole of it.
    pub len: u64,
    /// Where in its object its first byte is.
    pub object: Option<u64>,
}

/// What is wrong with the program itself.
pub open spec fn program_refused(
    program: Image,
    linked: bool,
    machine: u16,
    user_end: u64,
) -> Option<LoadError> {
    match headers_refused(program.elf, machine, program.len as int) {
        Some(e) => Some(e),
        None => match spec_span(program.elf) {
            None => Some(LoadError::Empty),
            Some((low, _)) => match spec_bias(program.elf, low, linked, user_end) {
                Err(e) => Some(e),
                Ok(bias) => match spec_entry(program.elf, bias, user_end) {
                    Err(e) => Some(e),
                    Ok(_) => None,
                },
            },
        },
    }
}

/// How far a linker is moved from where it is linked.
pub open spec fn linker_bias(low: u64, user_end: u64) -> u64 {
    wrapped(spec_interp_base(user_end) - low) as u64
}

/// What is wrong with the linker itself.
pub open spec fn interpreter_refused(linker: Image, machine: u16, user_end: u64) -> Option<
    LoadError,
> {
    match headers_refused(linker.elf, machine, linker.len as int) {
        Some(e) => Some(e),
        None => match linker_refused(linker.elf) {
            Some(e) => Some(e),
            None => match spec_span(linker.elf) {
                None => Some(LoadError::Empty),
                Some((low, _)) => match spec_entry(
                    linker.elf,
                    linker_bias(low, user_end),
                    user_end,
                ) {
                    Err(e) => Some(e),
                    Ok(_) => None,
                },
            },
        },
    }
}

/// What is wrong with the two images, as their headers alone show it.
pub open spec fn refused(
    program: Image,
    linker: Option<Image>,
    machine: u16,
    user_end: u64,
) -> Option<LoadError> {
    match program_refused(program, linker is Some, machine, user_end) {
        Some(e) => Some(e),
        None => match linker {
            Some(linker) => interpreter_refused(linker, machine, user_end),
            None => None,
        },
    }
}

/// The linker, as a value.
pub open spec fn linker_of(linker: Option<&Image>) -> Option<Image> {
    match linker {
        Some(image) => Some(*image),
        None => None,
    }
}

/// Refuse what [`load`] would refuse about the images themselves, touching no
/// memory: what `execve` asks before its point of no return. A page that would
/// be writable and executable, and a mapping the space refuses, are found
/// after it.
pub fn check(program: &Image, linker: Option<&Image>, machine: u16, user_end: u64) -> (done: Result<
    (),
    LoadError,
>)
    ensures
        match refused(*program, linker_of(linker), machine, user_end) {
            Some(e) => done == Err::<(), LoadError>(e),
            None => done is Ok,
        },
{
    parse(&program.elf, machine, program.len)?;
    let low: u64 = match load_span(&program.elf) {
        Some((low, _)) => low,
        None => return Err(LoadError::Empty),
    };
    let bias: u64 = bias_of(&program.elf, low, linker.is_some(), user_end)?;
    let _ = entry_point(&program.elf, bias, user_end)?;
    if let Some(linker) = linker {
        parse(&linker.elf, machine, linker.len)?;
        check_is_a_linker(&linker.elf)?;
        let low: u64 = match load_span(&linker.elf) {
            Some((low, _)) => low,
            None => return Err(LoadError::Empty),
        };
        let _ = entry_point(&linker.elf, wrap_sub(interp_base(user_end), low), user_end)?;
    }
    Ok(())
}

/// What the loader learned, and the program needs to be told.
#[derive(Clone, Copy, Debug, PartialEq, Eq, Structural)]
pub struct Loaded {
    /// The program's entry point, wherever it was placed.
    pub entry: u64,
    /// Where the processor starts: the linker's entry when the program named
    /// one.
    pub start: u64,
    /// Where the program headers ended up, or zero.
    pub phdr: u64,
    /// The size of one program header.
    pub phent: u64,
    /// How many there are.
    pub phnum: u64,
    /// One past the highest address the program occupies: where the heap goes.
    pub end: u64,
    /// Where the linker was placed, or zero.
    pub base: u64,
}

/// What to do to load a program, and what came of it.
#[derive(Debug)]
pub struct Loading {
    /// The program, placed.
    pub program: Placed,
    /// The linker, placed.
    pub linker: Option<Placed>,
    /// What the program is told.
    pub loaded: Loaded,
}

/// Whether `loading` is right for the two images: each placed where it
/// belongs, and the program told of itself, with only where it starts, and
/// where the linker is, taken from the linker.
pub open spec fn loading_right(
    loading: Loading,
    program: Image,
    linker: Option<Image>,
    user_end: u64,
) -> bool {
    &&& spec_span(program.elf) matches Some((low, _))
    &&& spec_bias(program.elf, low, linker is Some, user_end) matches Ok(bias)
    &&& placed_right(loading.program, program.elf, bias, program.object, user_end)
    &&& loading.loaded.entry == loading.program.entry
    &&& loading.loaded.phdr == loading.program.phdr
    &&& loading.loaded.phent == program.elf.phentsize
    &&& loading.loaded.phnum == program.elf.phnum
    &&& loading.loaded.end == loading.program.high
    &&& match linker {
        None => {
            &&& loading.linker is None
            &&& loading.loaded.start == loading.program.entry
            &&& loading.loaded.base == 0
        },
        Some(image) => {
            &&& loading.linker matches Some(placed)
            &&& spec_span(image.elf) matches Some((low, _))
            &&& placed_right(
                placed,
                image.elf,
                linker_bias(low, user_end),
                image.object,
                user_end,
            )
            &&& loading.loaded.start == placed.entry
            &&& loading.loaded.base == placed.low
        },
    }
}

/// Whether `e` is what the program is refused for once it is placed.
pub open spec fn program_unplaceable(
    program: Image,
    linked: bool,
    user_end: u64,
    e: LoadError,
) -> bool {
    &&& spec_span(program.elf) matches Some((low, _))
    &&& spec_bias(program.elf, low, linked, user_end) matches Ok(bias)
    &&& unplaceable(program.elf, bias, program.object, e)
}

/// Whether `e` is what the linker is refused for once it is placed.
pub open spec fn linker_unplaceable(linker: Image, user_end: u64, e: LoadError) -> bool {
    &&& spec_span(linker.elf) matches Some((low, _))
    &&& unplaceable(linker.elf, linker_bias(low, user_end), linker.object, e)
}

/// Whether the program can be placed.
pub open spec fn program_placeable(program: Image, linked: bool, user_end: u64) -> bool {
    &&& spec_span(program.elf) matches Some((low, _))
    &&& spec_bias(program.elf, low, linked, user_end) matches Ok(bias)
    &&& exists|p: Placed| placed_right(p, program.elf, bias, program.object, user_end)
}

/// Whether `e` is what the two images are refused for: the program before its
/// linker, and each for its headers before its pages.
pub open spec fn load_refused(
    program: Image,
    linker: Option<Image>,
    machine: u16,
    user_end: u64,
    e: LoadError,
) -> bool {
    match program_refused(program, linker is Some, machine, user_end) {
        Some(refused) => e == refused,
        None => {
            ||| program_unplaceable(program, linker is Some, user_end, e)
            ||| {
                &&& program_placeable(program, linker is Some, user_end)
                &&& linker matches Some(linker)
                &&& match interpreter_refused(linker, machine, user_end) {
                    Some(refused) => e == refused,
                    None => linker_unplaceable(linker, user_end, e),
                }
            }
        },
    }
}

/// Work out how to load `program`, and `linker` with it.
///
/// What [`check`] refuses is refused here too. What it lets through fails only
/// for a page that would be writable and executable at once, or for an image
/// that wraps round the end of the address space, which has nothing to load.
pub fn load(program: &Image, linker: Option<&Image>, machine: u16, user_end: u64) -> (loading:
    Result<Loading, LoadError>)
    ensures
        match loading {
            Ok(loading) => {
                &&& refused(*program, linker_of(linker), machine, user_end) is None
                &&& loading_right(loading, *program, linker_of(linker), user_end)
            },
            Err(e) => load_refused(*program, linker_of(linker), machine, user_end, e),
        },
{
    parse(&program.elf, machine, program.len)?;
    let low: u64 = match load_span(&program.elf) {
        Some((low, _)) => low,
        None => return Err(LoadError::Empty),
    };
    let bias: u64 = bias_of(&program.elf, low, linker.is_some(), user_end)?;
    let placed = place(&program.elf, bias, program.object, user_end)?;
    let mut loaded = Loaded {
        entry: placed.entry,
        start: placed.entry,
        phdr: placed.phdr,
        phent: program.elf.phentsize as u64,
        phnum: program.elf.phnum as u64,
        end: placed.high,
        base: 0,
    };
    if let Some(linker) = linker {
        parse(&linker.elf, machine, linker.len)?;
        check_is_a_linker(&linker.elf)?;
        let low: u64 = match load_span(&linker.elf) {
            Some((low, _)) => low,
            None => return Err(LoadError::Empty),
        };
        let second = place(
            &linker.elf,
            wrap_sub(interp_base(user_end), low),
            linker.object,
            user_end,
        )?;
        loaded.start = second.entry;
        loaded.base = second.low;
        return Ok(Loading { program: placed, linker: Some(second), loaded });
    }
    Ok(Loading { program: placed, linker: None, loaded })
}

/// What a region may be used for.
#[derive(Clone, Copy, Debug, PartialEq, Eq, Structural)]
pub struct VmaFlags {
    pub read: bool,
    pub write: bool,
    pub execute: bool,
    pub shared: bool,
}

/// `PF_*` as region flags.
pub fn permissions(flags: u32) -> (vma: VmaFlags)
    ensures
        vma == (VmaFlags {
            read: flags & PF_R != 0,
            write: flags & PF_W != 0,
            execute: flags & PF_X != 0,
            shared: false,
        }),
{
    VmaFlags {
        read: flags & PF_R != 0,
        write: flags & PF_W != 0,
        execute: flags & PF_X != 0,
        shared: false,
    }
}

/// Copy `len` bytes from byte `from` of an image in memory into `space` at
/// `to`; a range past the image's end is refused, and so is one the space
/// cannot be written at.
pub fn copy_in(
    space: &mut AddressSpace,
    image: &[u8],
    from: u64,
    to: u64,
    len: u64,
) -> (done: Result<(), LoadError>)
    requires
        old(space).wf(),
    ensures
        final(space).wf(),
        final(space).same_layout(*old(space)),
        if from + len > image@.len() {
            done == Err::<(), LoadError>(LoadError::Malformed(ElfError::SegmentOutOfBounds))
                && *final(space) == *old(space)
        } else if !old(space)@.can_write(to as int, len as int) {
            done == Err::<(), LoadError>(LoadError::Copy) && *final(space) == *old(space)
        } else {
            done is Ok && final(space)@ == old(space)@.store(
                to as int,
                image@.subrange(from as int, from + len),
            )
        },
{
    let image_len: u64 = image.len() as u64;
    let inside = match from.checked_add(len) {
        Some(end) => end <= image_len,
        None => false,
    };
    if !inside {
        return Err(LoadError::Malformed(ElfError::SegmentOutOfBounds));
    }
    let data = vstd::slice::slice_subrange(image, from as usize, (from + len) as usize);
    match space.copy_to_user(to, data) {
        Ok(_) => Ok(()),
        Err(_) => Err(LoadError::Copy),
    }
}

/// Whether `events` are the requests a copy of `len` bytes of a file from byte
/// `from` on to `to` sends, at most `most` bytes at a time, once `done` bytes
/// are there, and `result` and `after` what comes of the replies.
///
/// Each piece is read whole or not at all: a reply of another length than was
/// asked for is `EIO`.
pub open spec fn copy_trace(
    events: Seq<Event>,
    m: Memory,
    from: int,
    to: int,
    len: int,
    most: int,
    done: int,
    result: Result<(), LoadError>,
    after: Memory,
) -> bool
    decreases events.len(),
{
    if done >= len {
        events.len() == 0 && result == Ok::<(), LoadError>(()) && after == m
    } else {
        events.len() > 0 && match events[0] {
            Event::Read { at, want, reply } => {
                &&& at == Some((from + done) as u64)
                &&& want == min_int(len - done, most)
                &&& match reply {
                    Err(e) => {
                        &&& events.len() == 1
                        &&& result == Err::<(), LoadError>(LoadError::Read(e))
                        &&& after == m
                    },
                    Ok(data) => if data.len() != want {
                        &&& events.len() == 1
                        &&& result == Err::<(), LoadError>(LoadError::Read(Errno::EIO))
                        &&& after == m
                    } else if !m.can_write(to + done, want as int) {
                        &&& events.len() == 1
                        &&& result == Err::<(), LoadError>(LoadError::Copy)
                        &&& after == m
                    } else {
                        copy_trace(
                            events.skip(1),
                            m.store(to + done, data),
                            from,
                            to,
                            len,
                            most,
                            done + want,
                            result,
                            after,
                        )
                    },
                }
            },
            _ => false,
        }
    }
}

/// Whether a copy that has sent `prefix`, and left `m`, is a copy from the
/// start, however it goes on.
spec fn copies_on(
    prefix: Seq<Event>,
    m0: Memory,
    m: Memory,
    from: int,
    to: int,
    len: int,
    most: int,
    done: int,
) -> bool {
    forall|rest: Seq<Event>, result: Result<(), LoadError>, after: Memory| #[trigger]
        copy_trace(rest, m, from, to, len, most, done, result, after) ==> copy_trace(
            prefix + rest,
            m0,
            from,
            to,
            len,
            most,
            0,
            result,
            after,
        )
}

proof fn lemma_copies_on(
    prefix: Seq<Event>,
    m0: Memory,
    m: Memory,
    from: int,
    to: int,
    len: int,
    most: int,
    done: int,
    data: Seq<u8>,
)
    requires
        copies_on(prefix, m0, m, from, to, len, most, done),
        done < len,
        data.len() == min_int(len - done, most),
        m.can_write(to + done, data.len() as int),
    ensures
        copies_on(
            prefix.push(
                Event::Read { at: Some((from + done) as u64), want: data.len(), reply: Ok(data) },
            ),
            m0,
            m.store(to + done, data),
            from,
            to,
            len,
            most,
            done + data.len(),
        ),
{
    let event = Event::Read { at: Some((from + done) as u64), want: data.len(), reply: Ok(data) };
    let next = m.store(to + done, data);
    assert forall|rest: Seq<Event>, result: Result<(), LoadError>, after: Memory| #[trigger]
        copy_trace(
            rest,
            next,
            from,
            to,
            len,
            most,
            done + data.len(),
            result,
            after,
        ) implies copy_trace(
        prefix.push(event) + rest,
        m0,
        from,
        to,
        len,
        most,
        0,
        result,
        after,
    ) by {
        let more = seq![event] + rest;
        assert(more.skip(1) =~= rest);
        assert(copy_trace(more, m, from, to, len, most, done, result, after));
        assert(prefix.push(event) + rest =~= prefix + more);
    }
}

/// Copy `len` bytes from byte `from` of a file into `space` at `to`, at most
/// `most` bytes at a time, so that a file of any size is copied without being
/// held whole.
pub fn copy_in_file<B: Backend>(
    space: &mut AddressSpace,
    file: &mut B,
    from: u64,
    to: u64,
    len: u64,
    most: usize,
) -> (result: Result<(), LoadError>)
    requires
        old(space).wf(),
        from + len <= u64::MAX + 1,
        to + len <= u64::MAX + 1,
        most > 0,
    ensures
        final(space).wf(),
        final(space).same_layout(*old(space)),
        old(file).log().is_prefix_of(final(file).log()),
        copy_trace(
            since(final(file).log(), old(file).log()),
            old(space)@,
            from as int,
            to as int,
            len as int,
            most as int,
            0,
            result,
            final(space)@,
        ),
{
    let ghost log0 = file.log();
    let ghost m0 = space@;
    let ghost mut prefix: Seq<Event> = Seq::empty();
    let mut done: u64 = 0;
    proof {
        assert(log0 + prefix =~= log0);
        assert forall|rest: Seq<Event>, result: Result<(), LoadError>, after: Memory| #[trigger]
            copy_trace(
                rest,
                m0,
                from as int,
                to as int,
                len as int,
                most as int,
                0,
                result,
                after,
            ) implies copy_trace(
            prefix + rest,
            m0,
            from as int,
            to as int,
            len as int,
            most as int,
            0,
            result,
            after,
        ) by {
            assert(prefix + rest =~= rest);
        }
    }
    while done < len
        invariant
            space.wf(),
            space.same_layout(*old(space)),
            from + len <= u64::MAX + 1,
            to + len <= u64::MAX + 1,
            most > 0,
            done <= len,
            log0 == old(file).log(),
            m0 == old(space)@,
            file.log() == log0 + prefix,
            copies_on(
                prefix,
                m0,
                space@,
                from as int,
                to as int,
                len as int,
                most as int,
                done as int,
            ),
        decreases len - done,
    {
        let left: u64 = len - done;
        let take: usize = if left < most as u64 {
            left as usize
        } else {
            most
        };
        let ghost m = space@;
        let ghost log = file.log();
        let reply = file.read(Some(from + done), take);
        let ghost event = Event::Read {
            at: Some((from + done) as u64),
            want: take as nat,
            reply: bytes_of(reply),
        };
        proof {
            assert(file.log() =~= log0 + prefix.push(event));
            assert(since(file.log(), log0) =~= prefix + seq![event]);
        }
        let result = match reply {
            Err(e) => Err(LoadError::Read(e)),
            Ok(data) => if data.len() != take {
                Err(LoadError::Read(Errno::EIO))
            } else {
                match space.copy_to_user(to + done, data.as_slice()) {
                    Err(_) => Err(LoadError::Copy),
                    Ok(_) => {
                        proof {
                            lemma_copies_on(
                                prefix,
                                m0,
                                m,
                                from as int,
                                to as int,
                                len as int,
                                most as int,
                                done as int,
                                data@,
                            );
                        }
                        Ok(())
                    },
                }
            },
        };
        if result.is_err() {
            proof {
                let rest = seq![event];
                assert(copy_trace(
                    rest,
                    m,
                    from as int,
                    to as int,
                    len as int,
                    most as int,
                    done as int,
                    result,
                    space@,
                ));
            }
            return result;
        }
        proof {
            prefix = prefix.push(event);
        }
        done = done + take as u64;
    }
    proof {
        let rest = Seq::<Event>::empty();
        assert(copy_trace(
            rest,
            space@,
            from as int,
            to as int,
            len as int,
            most as int,
            done as int,
            Ok(()),
            space@,
        ));
        assert(since(file.log(), log0) =~= prefix + rest);
    }
    Ok(())
}

/// What the file replied, put together.
pub open spec fn replied(events: Seq<Event>) -> Seq<u8>
    decreases events.len(),
{
    if events.len() == 0 {
        Seq::empty()
    } else {
        match events[0] {
            Event::Read { reply: Ok(data), .. } => data + replied(events.skip(1)),
            _ => Seq::empty(),
        }
    }
}

/// A copy that succeeds brings every byte it was asked for, in the order the
/// file gave them, and changes nothing else.
pub proof fn law_a_copy_brings_what_the_file_gave(
    events: Seq<Event>,
    m: Memory,
    from: int,
    to: int,
    len: int,
    most: int,
    done: int,
    after: Memory,
)
    requires
        0 <= done <= len,
        most > 0,
        copy_trace(events, m, from, to, len, most, done, Ok(()), after),
    ensures
        replied(events).len() == len - done,
        after == m.store(to + done, replied(events)),
    decreases events.len(),
{
    if done < len {
        if let Event::Read { reply: Ok(data), .. } = events[0] {
            let next = m.store(to + done, data);
            let rest = events.skip(1);
            law_a_copy_brings_what_the_file_gave(
                rest,
                next,
                from,
                to,
                len,
                most,
                done + data.len(),
                after,
            );
            crate::time::lemma_store_append(m, to + done, data, replied(rest));
        }
    } else {
        crate::uaccess::lemma_store_empty(m, to + done);
    }
}

// ---------------------------------------------------------------------------
// What holds of a placed image
// ---------------------------------------------------------------------------

/// No page of a placed image is left writable and executable at once, whether
/// it is anonymous or the file's.
pub proof fn law_nothing_is_writable_and_executable(
    p: Placed,
    elf: Elf,
    bias: u64,
    object: Option<u64>,
    user_end: u64,
)
    requires
        placed_right(p, elf, bias, object, user_end),
    ensures
        forall|i: int|
            0 <= i < p.protections@.len() ==> !write_execute((#[trigger] p.protections@[i]).flags),
        forall|i: int|
            0 <= i < p.runs@.len() ==> !write_execute((#[trigger] p.runs@[i]).flags),
        forall|x: int|
            p.low <= x < p.high ==> !write_execute(#[trigger] flags_at(loadable(elf, bias), x)),
{
    let segments = loadable(elf, bias);
    lemma_no_bad_run(p.runs@, 0);
    assert forall|x: int| p.low <= x < p.high implies !write_execute(
        #[trigger] flags_at(segments, x),
    ) by {
        if in_runs(p.runs@, x) {
            let i = choose|i: int|
                0 <= i < p.runs@.len() && (#[trigger] p.runs@[i]).start <= x < p.runs@[i].end;
            assert(run_sound(segments, object->0, p.runs@[i]));
            let k = choose|k: int| run_of(segments, object->0, p.runs@[i], k);
            assert(mappable(segments, k, x));
            lemma_alone_flags(segments, k, x, segments.len());
            assert(0u32 & PF_W == 0) by (bit_vector);
        } else {
            assert(covered(p.anonymous@, x));
            assert(protects(p.protections@, x));
            let i = choose|i: int|
                0 <= i < p.protections@.len() && (#[trigger] p.protections@[i]).start <= x
                    < p.protections@[i].end;
            assert(protection_sound(segments, p.protections@[i]));
        }
    }
}

/// Every image refused for a page is refused for one that is asked to be
/// writable and executable at once.
pub proof fn law_only_a_clash_is_refused(elf: Elf, bias: u64, object: Option<u64>, at: u64)
    requires
        unplaceable(elf, bias, object, LoadError::WriteExecute(at)),
    ensures
        write_execute_at(loadable(elf, bias), at as int),
{
    let segments = loadable(elf, bias);
    let runs = object_runs(segments, object);
    if bad_run(runs, 0) is Some {
        if let Some(base) = object {
            lemma_runs_sound(segments, base);
            lemma_bad_run(segments, base, runs, 0);
        }
    }
}

proof fn lemma_bad_run(segments: Seq<Moved>, base: u64, runs: Seq<FileRun>, i: int)
    requires
        runs_sound(segments, base, runs),
        0 <= i,
        bad_run(runs, i) is Some,
    ensures
        write_execute_at(segments, runs[bad_run(runs, i)->0].start as int),
    decreases runs.len() - i,
{
    if write_execute(runs[i].flags) {
        assert(run_sound(segments, base, runs[i]));
        let k = choose|k: int| run_of(segments, base, runs[i], k);
        assert(mappable(segments, k, runs[i].start as int));
    } else {
        lemma_bad_run(segments, base, runs, i + 1);
    }
}

/// A page one segment has to itself is asked for by that segment alone.
proof fn lemma_alone_flags(segments: Seq<Moved>, k: int, x: int, n: nat)
    requires
        0 <= k < segments.len(),
        n <= segments.len(),
        alone(segments, k, x),
    ensures
        flags_of(segments, x, n) == 0 || flags_of(segments, x, n) == segments[k].flags,
        n <= k ==> flags_of(segments, x, n) == 0,
    decreases n,
{
    if n > 0 {
        lemma_alone_flags(segments, k, x, (n - 1) as nat);
        let flags = segments[k].flags;
        assert(0u32 | flags == flags) by (bit_vector);
    }
}

proof fn lemma_no_bad_run(runs: Seq<FileRun>, i: int)
    requires
        0 <= i,
        bad_run(runs, i) is None,
    ensures
        forall|j: int| i <= j < runs.len() ==> !write_execute((#[trigger] runs[j]).flags),
    decreases runs.len() - i,
{
    if i < runs.len() {
        lemma_no_bad_run(runs, i + 1);
    }
}

/// Every address of a placed image is mapped exactly one way: from the file or
/// anonymously, never both; an anonymous one is in one piece and has one
/// protection. One from the file is in one run, but for an image with a segment
/// that wraps round or has more from the file than it holds.
pub proof fn law_every_page_is_mapped_once(
    p: Placed,
    elf: Elf,
    bias: u64,
    object: Option<u64>,
    user_end: u64,
    x: int,
)
    requires
        placed_right(p, elf, bias, object, user_end),
        p.low <= x < p.high,
    ensures
        in_runs(p.runs@, x) != covered(p.anonymous@, x),
        covered(p.anonymous@, x) == protects(p.protections@, x),
        forall|i: int, j: int|
            #![trigger p.anonymous@[i], p.anonymous@[j]]
            0 <= i < p.anonymous@.len() && 0 <= j < p.anonymous@.len() && p.anonymous@[i].0 <= x
                < p.anonymous@[i].1 && p.anonymous@[j].0 <= x < p.anonymous@[j].1 ==> i == j,
        forall|i: int, j: int|
            #![trigger p.protections@[i], p.protections@[j]]
            0 <= i < p.protections@.len() && 0 <= j < p.protections@.len()
                && p.protections@[i].start <= x < p.protections@[i].end && p.protections@[j].start
                <= x < p.protections@[j].end ==> i == j,
        shaped(loadable(elf, bias)) ==> forall|i: int, j: int|
            #![trigger p.runs@[i], p.runs@[j]]
            0 <= i < p.runs@.len() && 0 <= j < p.runs@.len() && p.runs@[i].start <= x
                < p.runs@[i].end && p.runs@[j].start <= x < p.runs@[j].end ==> i == j,
{
}

/// Whatever a load maps or protects is whole pages: every anonymous piece,
/// every run of the file and every protection, of the program and of its
/// linker.
pub proof fn law_a_load_is_whole_pages(
    loading: Loading,
    program: Image,
    linker: Option<Image>,
    user_end: u64,
)
    requires
        loading_right(loading, program, linker, user_end),
    ensures
        paged(loading.program.anonymous@),
        runs_paged(loading.program.runs@),
        protections_paged(loading.program.protections@),
        loading.linker matches Some(placed) ==> {
            &&& paged(placed.anonymous@)
            &&& runs_paged(placed.runs@)
            &&& protections_paged(placed.protections@)
        },
{
    lemma_moved_by_pages(program.elf, linker is Some, user_end);
    if let Some(image) = linker {
        lemma_moved_by_pages(image.elf, false, user_end);
    }
}

/// Every byte of a segment's file contents gets there: it is on a page of the
/// file, or it is copied.
pub proof fn law_every_byte_of_the_file_is_brought(
    p: Placed,
    elf: Elf,
    bias: u64,
    object: Option<u64>,
    user_end: u64,
    k: int,
    x: int,
)
    requires
        placed_right(p, elf, bias, object, user_end),
        0 <= k < loadable(elf, bias).len(),
        loadable(elf, bias)[k].at <= x < loadable(elf, bias)[k].spec_file_end(),
    ensures
        in_runs(p.runs@, x) || copied(p.copies@, k, x),
{
    assert(copies_complete(loadable(elf, bias), p.runs@, p.copies@, k));
}

// ---------------------------------------------------------------------------
// What loading is for
// ---------------------------------------------------------------------------

/// The loadable segments are the file's, in number, and each is one of them.
proof fn lemma_loadable(segments: Seq<Segment>, bias: u64, n: nat, j: int)
    requires
        n <= segments.len(),
        0 <= j < n,
        segments[j].kind == 1,
    ensures
        exists|k: int|
            {
                &&& 0 <= k < loadable_of(segments, bias, n).len()
                &&& (#[trigger] loadable_of(segments, bias, n)[k]).offset == segments[j].offset
                &&& loadable_of(segments, bias, n)[k].filesz == segments[j].filesz
                &&& loadable_of(segments, bias, n)[k].memsz == segments[j].memsz
                &&& loadable_of(segments, bias, n)[k].flags == segments[j].flags
                &&& loadable_of(segments, bias, n)[k].at == (segments[j].vaddr + bias)
                    % 0x1_0000_0000_0000_0000
            },
    decreases n,
{
    let before = loadable_of(segments, bias, (n - 1) as nat);
    let all = loadable_of(segments, bias, n);
    if j < n - 1 {
        lemma_loadable(segments, bias, (n - 1) as nat, j);
        let k = choose|k: int|
            {
                &&& 0 <= k < before.len()
                &&& (#[trigger] before[k]).offset == segments[j].offset
                &&& before[k].filesz == segments[j].filesz
                &&& before[k].memsz == segments[j].memsz
                &&& before[k].flags == segments[j].flags
                &&& before[k].at == (segments[j].vaddr + bias) % 0x1_0000_0000_0000_0000
            };
        assert(all[k] == before[k]);
    } else {
        assert(all[all.len() - 1].offset == segments[j].offset);
    }
}

/// Each loadable segment comes from one of the file's, and from a loadable one.
proof fn lemma_loaded_from(segments: Seq<Segment>, bias: u64, n: nat, k: int)
    requires
        n <= segments.len(),
        0 <= k < loadable_of(segments, bias, n).len(),
    ensures
        exists|j: int|
            {
                let m = loadable_of(segments, bias, n)[k];
                &&& 0 <= j < n
                &&& (#[trigger] segments[j]).kind == 1
                &&& m.offset == segments[j].offset
                &&& m.filesz == segments[j].filesz
                &&& m.memsz == segments[j].memsz
                &&& m.flags == segments[j].flags
                &&& m.at == (segments[j].vaddr + bias) % 0x1_0000_0000_0000_0000
            },
    decreases n,
{
    if n > 0 {
        let before = loadable_of(segments, bias, (n - 1) as nat);
        if k < before.len() {
            lemma_loaded_from(segments, bias, (n - 1) as nat, k);
            assert(loadable_of(segments, bias, n)[k] == before[k]);
        } else {
            assert(segments[n - 1].kind == 1);
        }
    }
}

/// An image is moved as one: every loadable segment of the file is placed, at
/// its own address and the bias together, with its contents, its size and its
/// permissions.
pub proof fn law_an_image_is_moved_as_one(elf: Elf, bias: u64, j: int)
    requires
        0 <= j < elf.segments@.len(),
        elf.segments@[j].kind == 1,
    ensures
        exists|k: int|
            {
                let m = #[trigger] loadable(elf, bias)[k];
                &&& 0 <= k < loadable(elf, bias).len()
                &&& m.offset == elf.segments@[j].offset
                &&& m.filesz == elf.segments@[j].filesz
                &&& m.memsz == elf.segments@[j].memsz
                &&& m.flags == elf.segments@[j].flags
                &&& m.at == (elf.segments@[j].vaddr + bias) % 0x1_0000_0000_0000_0000
            },
{
    lemma_loadable(elf.segments@, bias, elf.segments@.len(), j);
    let all = loadable_of(elf.segments@, bias, elf.segments@.len());
    let k = choose|k: int|
        {
            &&& 0 <= k < all.len()
            &&& (#[trigger] all[k]).offset == elf.segments@[j].offset
            &&& all[k].filesz == elf.segments@[j].filesz
            &&& all[k].memsz == elf.segments@[j].memsz
            &&& all[k].flags == elf.segments@[j].flags
            &&& all[k].at == (elf.segments@[j].vaddr + bias) % 0x1_0000_0000_0000_0000
        };
    assert(loadable(elf, bias)[k] == all[k]);
}

/// Nothing is loaded that the file does not ask to have loaded.
pub proof fn law_only_loadable_segments_are_loaded(elf: Elf, bias: u64, k: int)
    requires
        0 <= k < loadable(elf, bias).len(),
    ensures
        exists|j: int|
            {
                let m = loadable(elf, bias)[k];
                &&& 0 <= j < elf.segments@.len()
                &&& (#[trigger] elf.segments@[j]).kind == 1
                &&& m.offset == elf.segments@[j].offset
                &&& m.filesz == elf.segments@[j].filesz
                &&& m.memsz == elf.segments@[j].memsz
                &&& m.flags == elf.segments@[j].flags
                &&& m.at == (elf.segments@[j].vaddr + bias) % 0x1_0000_0000_0000_0000
            },
{
    lemma_loaded_from(elf.segments@, bias, elf.segments@.len(), k);
}

/// Whether the contents of a loadable segment hold the byte at `phoff` of the
/// file.
pub open spec fn holds_headers(s: Segment, phoff: u64) -> bool {
    s.kind == 1 && s.offset <= phoff && phoff - s.offset < s.filesz && s.offset + s.filesz
        <= u64::MAX
}

proof fn lemma_headers_found(segments: Seq<Segment>, phoff: u64, bias: u64, n: int, j: int)
    requires
        0 <= n <= j < segments.len(),
        holds_headers(segments[j], phoff),
        forall|i: int| n <= i < j ==> !holds_headers(#[trigger] segments[i], phoff),
        segments[j].vaddr + (phoff - segments[j].offset) <= u64::MAX,
    ensures
        headers_from(segments, phoff, bias, n) == (segments[j].vaddr + (phoff
            - segments[j].offset) + bias) % 0x1_0000_0000_0000_0000,
    decreases j - n,
{
    if n < j {
        lemma_headers_found(segments, phoff, bias, n + 1, j);
    }
}

proof fn lemma_headers_lost(segments: Seq<Segment>, phoff: u64, bias: u64, n: int)
    requires
        0 <= n,
        forall|i: int| n <= i < segments.len() ==> !holds_headers(#[trigger] segments[i], phoff),
    ensures
        headers_from(segments, phoff, bias, n) == 0,
    decreases segments.len() - n,
{
    if n < segments.len() {
        lemma_headers_lost(segments, phoff, bias, n + 1);
    }
}

/// A program is told where its headers are in its own memory: as far into the
/// segment that holds them, where that was placed, as they are into its file
/// contents. The byte there is the file's byte at `phoff`.
#[verifier::rlimit(40)]
pub proof fn law_the_headers_are_where_the_program_is_told(
    p: Placed,
    elf: Elf,
    bias: u64,
    object: Option<u64>,
    user_end: u64,
    j: int,
)
    requires
        placed_right(p, elf, bias, object, user_end),
        0 <= j < elf.segments@.len(),
        holds_headers(elf.segments@[j], elf.phoff),
        forall|i: int| 0 <= i < j ==> !holds_headers(#[trigger] elf.segments@[i], elf.phoff),
        elf.segments@[j].vaddr + (elf.phoff - elf.segments@[j].offset) <= u64::MAX,
    ensures
        exists|k: int|
            {
                let m = #[trigger] loadable(elf, bias)[k];
                &&& 0 <= k < loadable(elf, bias).len()
                &&& m.offset == elf.segments@[j].offset
                &&& m.filesz == elf.segments@[j].filesz
                &&& m.at == (elf.segments@[j].vaddr + bias) % 0x1_0000_0000_0000_0000
                &&& m.at + m.filesz <= u64::MAX ==> p.phdr - m.at == elf.phoff - m.offset
                &&& m.at + m.filesz <= u64::MAX ==> m.at <= p.phdr < m.at + m.filesz
            },
        p.phdr == (elf.segments@[j].vaddr + bias + (elf.phoff - elf.segments@[j].offset))
            % 0x1_0000_0000_0000_0000,
{
    lemma_headers_found(elf.segments@, elf.phoff, bias, 0, j);
    lemma_loadable(elf.segments@, bias, elf.segments@.len(), j);
    let s = elf.segments@[j];
    let k = choose|k: int|
        {
            &&& 0 <= k < loadable(elf, bias).len()
            &&& (#[trigger] loadable(elf, bias)[k]).offset == s.offset
            &&& loadable(elf, bias)[k].filesz == s.filesz
            &&& loadable(elf, bias)[k].memsz == s.memsz
            &&& loadable(elf, bias)[k].flags == s.flags
            &&& loadable(elf, bias)[k].at == (s.vaddr + bias) % 0x1_0000_0000_0000_0000
        };
    let m = loadable(elf, bias)[k];
    if m.at + m.filesz <= u64::MAX {
        vstd::arithmetic::div_mod::lemma_add_mod_noop(
            s.vaddr + bias,
            elf.phoff - s.offset,
            0x1_0000_0000_0000_0000,
        );
        vstd::arithmetic::div_mod::lemma_small_mod(
            (elf.phoff - s.offset) as nat,
            0x1_0000_0000_0000_0000,
        );
        vstd::arithmetic::div_mod::lemma_small_mod(
            (m.at + (elf.phoff - s.offset)) as nat,
            0x1_0000_0000_0000_0000,
        );
    }
}

/// A program whose headers are in none of its segments is told of none.
pub proof fn law_headers_that_are_not_loaded_are_not_told_of(
    p: Placed,
    elf: Elf,
    bias: u64,
    object: Option<u64>,
    user_end: u64,
)
    requires
        placed_right(p, elf, bias, object, user_end),
        forall|i: int|
            0 <= i < elf.segments@.len() ==> !holds_headers(#[trigger] elf.segments@[i], elf.phoff),
    ensures
        p.phdr == 0,
{
    lemma_headers_lost(elf.segments@, elf.phoff, bias, 0);
}

/// The pages of a segment hold it and no more: every byte of it is on one of
/// them, the first starts no more than a page below it, and the last ends no
/// more than a page above.
pub proof fn law_the_pages_of_a_segment_hold_it(s: Moved, x: int)
    requires
        s.at + s.memsz + 4095 <= u64::MAX,
    ensures
        s.at <= x < s.at + s.memsz ==> s.touches(x),
        s.touches(x) ==> s.at - 4096 < x < s.at + s.memsz + 4096,
        s.first_page() % 4096 == 0 && s.end_page() % 4096 == 0,
        s.at - 4096 < s.first_page() <= s.at,
        s.at + s.memsz <= s.end_page() < s.at + s.memsz + 4096,
        s.at + s.filesz <= u64::MAX ==> s.spec_file_end() == s.at + s.filesz,
{
}

proof fn lemma_union_of(segments: Seq<Moved>, x: int, n: nat, bits: u32)
    requires
        n <= segments.len(),
    ensures
        flags_of(segments, x, n) & bits != 0 <==> exists|k: int|
            0 <= k < n && (#[trigger] segments[k]).touches(x) && segments[k].flags & bits != 0,
    decreases n,
{
    if n == 0 {
        assert(0u32 & bits == 0) by (bit_vector);
    } else {
        lemma_union_of(segments, x, (n - 1) as nat, bits);
        let before = flags_of(segments, x, (n - 1) as nat);
        let more = segments[n - 1].flags;
        assert((before | more) & bits != 0 <==> before & bits != 0 || more & bits != 0)
            by (bit_vector);
        if before & bits != 0 {
            let k = choose|k: int|
                0 <= k < n - 1 && (#[trigger] segments[k]).touches(x) && segments[k].flags & bits
                    != 0;
            assert(segments[k].touches(x));
        }
    }
}

/// A page may be read, written or run exactly if a segment on it asks for
/// that.
pub proof fn law_a_page_allows_what_its_segments_ask(segments: Seq<Moved>, x: int, bits: u32)
    ensures
        flags_at(segments, x) & bits != 0 <==> exists|k: int|
            0 <= k < segments.len() && (#[trigger] segments[k]).touches(x) && segments[k].flags
                & bits != 0,
        write_execute(flags_at(segments, x)) <==> {
            &&& exists|k: int|
                0 <= k < segments.len() && (#[trigger] segments[k]).touches(x) && segments[k].flags
                    & 2 != 0
            &&& exists|k: int|
                0 <= k < segments.len() && (#[trigger] segments[k]).touches(x) && segments[k].flags
                    & 1 != 0
        },
{
    lemma_union_of(segments, x, segments.len(), bits);
    lemma_union_of(segments, x, segments.len(), 2);
    lemma_union_of(segments, x, segments.len(), 1);
}

/// An anonymous page of a placed image is left with what its segments ask for,
/// bit for bit.
#[verifier::rlimit(40)]
pub proof fn law_an_anonymous_page_is_left_as_asked(
    p: Placed,
    elf: Elf,
    bias: u64,
    object: Option<u64>,
    user_end: u64,
    i: int,
    x: int,
    bits: u32,
)
    requires
        placed_right(p, elf, bias, object, user_end),
        0 <= i < p.protections@.len(),
        p.protections@[i].start <= x < p.protections@[i].end,
    ensures
        p.protections@[i].flags & bits != 0 <==> exists|k: int|
            0 <= k < loadable(elf, bias).len() && (#[trigger] loadable(elf, bias)[k]).touches(x)
                && loadable(elf, bias)[k].flags & bits != 0,
{
    let segments = loadable(elf, bias);
    assert(protection_sound(segments, p.protections@[i]));
    assert(flags_at(segments, x) == p.protections@[i].flags);
    lemma_union_of(segments, x, segments.len(), bits);
}

/// What is mapped from the file is the file: a byte in a run is as far into
/// its segment's contents in the object as it is into the segment in memory,
/// on a page of that segment's contents alone, and with its permissions.
#[verifier::rlimit(40)]
pub proof fn law_a_mapped_byte_is_the_files(
    p: Placed,
    elf: Elf,
    bias: u64,
    base: u64,
    user_end: u64,
    i: int,
    x: int,
)
    requires
        placed_right(p, elf, bias, Some(base), user_end),
        0 <= i < p.runs@.len(),
        p.runs@[i].start <= x < p.runs@[i].end,
    ensures
        exists|k: int|
            {
                let m = #[trigger] loadable(elf, bias)[k];
                &&& 0 <= k < loadable(elf, bias).len()
                &&& p.runs@[i].offset + (x - p.runs@[i].start) == base + m.offset + (x - m.at)
                &&& p.runs@[i].flags == m.flags
                &&& m.at <= p.runs@[i].start
                &&& m.at + m.filesz <= u64::MAX ==> x < m.at + m.filesz
                &&& forall|other: int|
                    0 <= other < loadable(elf, bias).len() && other != k ==> !(
                    #[trigger] loadable(elf, bias)[other]).touches(x)
            },
{
    let segments = loadable(elf, bias);
    let run = p.runs@[i];
    assert(run_sound(segments, base, run));
    let k = choose|k: int| run_of(segments, base, run, k);
    lemma_run_byte(segments, base, run, k, x);
    let m = loadable(elf, bias)[k];
    assert(run.offset + (x - run.start) == base + m.offset + (x - m.at));
}

proof fn lemma_run_byte(segments: Seq<Moved>, base: u64, run: FileRun, k: int, x: int)
    requires
        run_of(segments, base, run, k),
        run.start <= x < run.end,
    ensures
        0 <= k < segments.len(),
        run.offset + (x - run.start) == base + segments[k].offset + (x - segments[k].at),
        run.flags == segments[k].flags,
        segments[k].at <= run.start,
        segments[k].at + segments[k].filesz <= u64::MAX ==> x < segments[k].at + segments[k].filesz,
        forall|other: int|
            0 <= other < segments.len() && other != k ==> !(#[trigger] segments[other]).touches(x),
{
    assert(mappable(segments, k, x));
    assert(mappable(segments, k, run.start as int));
    let m = segments[k];
    if m.at + m.filesz <= u64::MAX {
        vstd::arithmetic::div_mod::lemma_small_mod(
            (m.at + m.filesz) as nat,
            0x1_0000_0000_0000_0000,
        );
    }
}

/// What is copied is the file's too: as far into its segment's contents in the
/// file as into the segment in memory, and inside both.
#[verifier::rlimit(40)]
pub proof fn law_a_copied_byte_is_the_files(
    p: Placed,
    elf: Elf,
    bias: u64,
    object: Option<u64>,
    user_end: u64,
    i: int,
)
    requires
        placed_right(p, elf, bias, object, user_end),
        0 <= i < p.copies@.len(),
        forall|k: int|
            0 <= k < loadable(elf, bias).len() ==> (#[trigger] loadable(elf, bias)[k]).offset
                + loadable(elf, bias)[k].filesz <= u64::MAX && loadable(elf, bias)[k].at
                + loadable(elf, bias)[k].filesz <= u64::MAX,
    ensures
        ({
            let c = p.copies@[i];
            let m = loadable(elf, bias)[c.segment as int];
            &&& c.segment < loadable(elf, bias).len()
            &&& c.from - m.offset == c.to - m.at
            &&& m.at <= c.to && c.to + c.len <= m.at + m.filesz
            &&& m.offset <= c.from && c.from + c.len <= m.offset + m.filesz
            &&& c.len > 0
        }),
{
    assert(copy_sound(loadable(elf, bias), p.runs@, p.copies@[i]));
    lemma_copy_inside(loadable(elf, bias), p.runs@, p.copies@[i]);
}

proof fn lemma_copy_inside(segments: Seq<Moved>, runs: Seq<FileRun>, c: CopyIn)
    requires
        copy_sound(segments, runs, c),
        segments[c.segment as int].offset + segments[c.segment as int].filesz <= u64::MAX,
        segments[c.segment as int].at + segments[c.segment as int].filesz <= u64::MAX,
    ensures
        ({
            let m = segments[c.segment as int];
            &&& c.segment < segments.len()
            &&& c.from - m.offset == c.to - m.at
            &&& m.at <= c.to && c.to + c.len <= m.at + m.filesz
            &&& m.offset <= c.from && c.from + c.len <= m.offset + m.filesz
            &&& c.len > 0
        }),
{
    let m = segments[c.segment as int];
    vstd::arithmetic::div_mod::lemma_small_mod(
        (m.at + m.filesz) as nat,
        0x1_0000_0000_0000_0000,
    );
    vstd::arithmetic::div_mod::lemma_small_mod(
        (m.offset + (c.to - m.at)) as nat,
        0x1_0000_0000_0000_0000,
    );
}

/// The page a third of the way up, and the one two thirds.
proof fn lemma_bases(user_end: u64)
    ensures
        spec_pie_base(user_end) % 4096 == 0,
        0 <= spec_pie_base(user_end) <= user_end / 3 * 2 < spec_pie_base(user_end) + 4096,
        spec_interp_base(user_end) % 4096 == 0,
        0 <= spec_interp_base(user_end) <= user_end / 3 < spec_interp_base(user_end) + 4096,
{
}

proof fn lemma_placed_at(p: Placed, elf: Elf, bias: u64, object: Option<u64>, user_end: u64)
    requires
        placed_right(p, elf, bias, object, user_end),
    ensures
        spec_span(elf) matches Some((low, high)) && p.low == wrapped(low + bias) && p.high
            == wrapped(high + bias) && low == lowest(loadable(elf, 0)) && high == highest(
            loadable(elf, 0),
        ),
        p.entry == wrapped(elf.entry + bias),
        p.entry < user_end,
{
    lemma_lowest_paged(loadable(elf, 0));
}

/// Where a program goes: one that may be placed has its lowest page on the
/// page two thirds of the way up the user half, and any other is where it is
/// linked. It is told of itself, and starts in its linker if it has one.
#[verifier::rlimit(40)]
pub proof fn law_a_program_goes_where_it_belongs(
    loading: Loading,
    program: Image,
    linker: Option<Image>,
    user_end: u64,
)
    requires
        loading_right(loading, program, linker, user_end),
    ensures
        program.elf.pie ==> loading.program.low % 4096 == 0 && loading.program.low <= user_end / 3
            * 2 < loading.program.low + 4096,
        !program.elf.pie ==> loading.program.low == lowest(loadable(program.elf, 0))
            && loading.loaded.entry == program.elf.entry,
        loading.loaded.entry == loading.program.entry,
        loading.loaded.entry < user_end,
        loading.loaded.end == loading.program.high,
        loading.loaded.phdr == loading.program.phdr,
        loading.loaded.phent == program.elf.phentsize,
        loading.loaded.phnum == program.elf.phnum,
        linker is None ==> loading.linker is None && loading.loaded.base == 0
            && loading.loaded.start == loading.loaded.entry,
{
    let (low, high) = spec_span(program.elf)->0;
    let bias = spec_bias(program.elf, low, linker is Some, user_end)->Ok_0;
    lemma_placed_at(loading.program, program.elf, bias, program.object, user_end);
    lemma_bases(user_end);
    lemma_moved_to(low, spec_pie_base(user_end));
    vstd::arithmetic::div_mod::lemma_small_mod(
        program.elf.entry as nat,
        0x1_0000_0000_0000_0000,
    );
}

/// Where a linker goes: its lowest page on the page one third of the way up the
/// user half. The program starts in it, and is told where it is.
#[verifier::rlimit(40)]
pub proof fn law_a_linker_goes_below_the_program(
    loading: Loading,
    program: Image,
    image: Image,
    user_end: u64,
)
    requires
        loading_right(loading, program, Some(image), user_end),
    ensures
        loading.linker matches Some(placed) && placed.low % 4096 == 0 && placed.low <= user_end / 3
            < placed.low + 4096 && loading.loaded.base == placed.low && loading.loaded.start
            == placed.entry && placed.entry < user_end,
{
    let placed = loading.linker->0;
    let (low, high) = spec_span(image.elf)->0;
    lemma_placed_at(placed, image.elf, linker_bias(low, user_end), image.object, user_end);
    lemma_bases(user_end);
    lemma_moved_to(low, spec_interp_base(user_end));
}

/// What is moved by the way from `low` to `base` comes to be at `base`.
proof fn lemma_moved_to(low: u64, base: int)
    requires
        0 <= base <= u64::MAX,
    ensures
        wrapped(low + wrapped(base - low)) == base,
        wrapped(low as int) == low,
{
    vstd::arithmetic::div_mod::lemma_add_mod_noop_right(
        low as int,
        base - low,
        0x1_0000_0000_0000_0000,
    );
    vstd::arithmetic::div_mod::lemma_small_mod(base as nat, 0x1_0000_0000_0000_0000);
    vstd::arithmetic::div_mod::lemma_small_mod(low as nat, 0x1_0000_0000_0000_0000);
}

/// A program's first instruction moves with it, and so does the end of its
/// pages, behind which its heap is.
pub proof fn law_the_entry_moves_with_the_image(
    p: Placed,
    elf: Elf,
    bias: u64,
    object: Option<u64>,
    user_end: u64,
)
    requires
        placed_right(p, elf, bias, object, user_end),
    ensures
        p.entry == (elf.entry + bias) % 0x1_0000_0000_0000_0000,
        p.entry < user_end,
        p.low == (lowest(loadable(elf, 0)) + bias) % 0x1_0000_0000_0000_0000,
        p.high == (highest(loadable(elf, 0)) + bias) % 0x1_0000_0000_0000_0000,
{
    lemma_lowest_paged(loadable(elf, 0));
}

/// The lowest page is some segment's first, and the highest some segment's
/// last.
pub proof fn law_the_span_is_no_wider_than_its_segments(segments: Seq<Moved>)
    requires
        segments.len() > 0,
    ensures
        exists|i: int|
            0 <= i < segments.len() && (#[trigger] segments[i]).first_page() == lowest(segments),
        exists|i: int|
            0 <= i < segments.len() && (#[trigger] segments[i]).end_page() == highest(segments),
    decreases segments.len(),
{
    let last = segments.len() - 1;
    if segments.len() > 1 {
        let fewer = segments.drop_last();
        law_the_span_is_no_wider_than_its_segments(fewer);
        let a = choose|i: int|
            0 <= i < fewer.len() && (#[trigger] fewer[i]).first_page() == lowest(fewer);
        let b = choose|i: int|
            0 <= i < fewer.len() && (#[trigger] fewer[i]).end_page() == highest(fewer);
        assert(segments[a] == fewer[a] && segments[b] == fewer[b]);
        assert(segments[last].first_page() == lowest(segments) || segments[a].first_page()
            == lowest(segments));
        assert(segments[last].end_page() == highest(segments) || segments[b].end_page()
            == highest(segments));
    } else {
        assert(segments[0].first_page() == lowest(segments));
        assert(segments[0].end_page() == highest(segments));
    }
}

/// Images that pass the look at their headers are for this machine, have all
/// their contents, start in the user half, and have a linker exactly if one
/// can be run: one that may be placed, and names none of its own.
#[verifier::rlimit(40)]
pub proof fn law_what_passes_can_be_loaded(
    program: Image,
    linker: Option<Image>,
    machine: u16,
    user_end: u64,
)
    ensures
        refused(program, linker, machine, user_end) is None ==> {
            &&& program.elf.machine == machine
            &&& forall|i: int|
                0 <= i < program.elf.segments@.len() ==> (
                #[trigger] program.elf.segments@[i]).offset + program.elf.segments@[i].filesz
                    <= program.len
            &&& loadable(program.elf, 0).len() > 0
            &&& linker is None ==> forall|i: int|
                0 <= i < program.elf.segments@.len() ==> (
                #[trigger] program.elf.segments@[i]).kind != 3
            &&& linker matches Some(image) ==> {
                &&& image.elf.machine == machine
                &&& image.elf.pie
                &&& loadable(image.elf, 0).len() > 0
                &&& forall|i: int|
                    0 <= i < image.elf.segments@.len() ==> (
                    #[trigger] image.elf.segments@[i]).kind != 3
                &&& forall|i: int|
                    0 <= i < image.elf.segments@.len() ==> (
                    #[trigger] image.elf.segments@[i]).offset + image.elf.segments@[i].filesz
                        <= image.len
            }
        },
        program.elf.machine != machine ==> refused(program, linker, machine, user_end) == Some(
            LoadError::WrongMachine(program.elf.machine),
        ),
        refused(program, linker, machine, user_end) == Some(LoadError::NeedsInterpreter) ==> linker
            is None,
{
}

/// A region may be used for what its segment's flags say, each by its own bit,
/// and is the program's own.
pub proof fn law_a_region_allows_what_its_flags_say(flags: u32, vma: VmaFlags)
    requires
        call_ensures(permissions, (flags,), vma),
    ensures
        vma.read <==> flags & 4 != 0,
        vma.write <==> flags & 2 != 0,
        vma.execute <==> flags & 1 != 0,
        !vma.shared,
{
}

/// What a program's linker is called is what its bytes spell; bytes that could
/// not be read, and bytes that spell nothing, are told apart.
pub proof fn law_a_linker_is_called_what_its_bytes_spell(
    read: Result<(), Errno>,
    name: Option<Vec<u8>>,
    path: Result<Vec<u8>, LoadError>,
)
    requires
        call_ensures(interpreter_path, (read, name), path),
    ensures
        path is Ok <==> read is Ok && name is Some,
        path matches Ok(text) ==> name == Some(text),
        read matches Err(e) ==> path == Err::<Vec<u8>, LoadError>(LoadError::Read(e)),
        read is Ok && name is None ==> path == Err::<Vec<u8>, LoadError>(LoadError::BadInterpreter),
{
}

/// The address a program is told its headers are at, of the first segment that
/// holds them.
pub proof fn law_headers_move_with_their_segment(elf: Elf, bias: u64, at: u64, j: int)
    requires
        call_ensures(program_headers_at, (&elf, bias), at),
        0 <= j < elf.segments@.len(),
        holds_headers(elf.segments@[j], elf.phoff),
        forall|i: int| 0 <= i < j ==> !holds_headers(#[trigger] elf.segments@[i], elf.phoff),
        elf.segments@[j].vaddr + (elf.phoff - elf.segments@[j].offset) <= u64::MAX,
    ensures
        (at - bias - elf.segments@[j].vaddr - (elf.phoff - elf.segments@[j].offset))
            % 0x1_0000_0000_0000_0000 == 0,
        elf.segments@[j].vaddr + bias + (elf.phoff - elf.segments@[j].offset) <= u64::MAX ==> at
            - (elf.segments@[j].vaddr + bias) == elf.phoff - elf.segments@[j].offset,
{
    lemma_headers_found(elf.segments@, elf.phoff, bias, 0, j);
    let s = elf.segments@[j];
    let sum = s.vaddr + (elf.phoff - s.offset) + bias;
    vstd::arithmetic::div_mod::lemma_fundamental_div_mod(sum, 0x1_0000_0000_0000_0000);
    let q = sum / 0x1_0000_0000_0000_0000;
    assert(at - sum == (-q) * 0x1_0000_0000_0000_0000) by (nonlinear_arith)
        requires
            sum == 0x1_0000_0000_0000_0000 * q + at,
    ;
    vstd::arithmetic::div_mod::lemma_mod_multiples_basic(-q, 0x1_0000_0000_0000_0000);
    if sum <= u64::MAX {
        vstd::arithmetic::div_mod::lemma_small_mod(sum as nat, 0x1_0000_0000_0000_0000);
    }
}

/// An address is rounded to its own page, or to the next one it is not past.
pub proof fn law_rounding_goes_to_the_nearest_page(address: u64, down: u64, up: u64)
    requires
        call_ensures(page_down, (address,), down),
        call_ensures(page_up, (address,), up),
    ensures
        down % 4096 == 0 && down <= address < down + 4096,
        up % 4096 == 0,
        address <= u64::MAX - 4095 ==> address <= up < address + 4096,
{
}

} // verus!
