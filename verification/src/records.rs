//! Record locks: advisory locks on a range of a file's bytes, through `fcntl`.
//!
//! A classic lock belongs to a process, and any close of the file by the
//! process releases it, not only that of the descriptor that set it. The other
//! kind belongs to an open file description, as a `flock` lock does. The two
//! kinds contend with each other, even within one process.
//!
//! Ranges that only touch do not contend. A range locked again in the same
//! mode merges with what it touches; releasing the middle of a lock leaves the
//! parts on either side.

use vstd::prelude::*;

use crate::abi::{signed_32, signed_64, spec_signed_32, spec_signed_64, Arch};
use crate::bytes::{
    lay_over, le_bytes, le_decode, le_encode, le_value, lemma_byte_spans, lemma_le_bytes_len,
    lemma_le_value_bound, overlaid,
};
use crate::errno::Errno;
use crate::fd::{file, named, spec_file, sys_close, FdTable, OpenFile, MAX_LIMIT};
use crate::flock::{key_of, live, spec_key_of, Key};
use crate::uaccess::{AddressSpace, Memory};

verus! {

/// The last byte a file can have.
pub const OFFSET_MAX: u64 = 0x7FFF_FFFF_FFFF_FFFF;

/// A read lock: any number of owners at once.
pub const F_RDLCK: u32 = 0;

/// A write lock: one owner, with no reader beside it.
pub const F_WRLCK: u32 = 1;

/// No lock.
pub const F_UNLCK: u32 = 2;

/// Whose lock it is.
#[derive(Clone, Copy, Debug, PartialEq, Eq, Structural)]
pub enum Owner {
    /// A process's.
    Process(u32),
    /// An open file description's.
    Description(usize),
}

/// One lock: a range of a file's bytes, both ends in it.
#[derive(Clone, Copy, Debug, PartialEq, Eq, Structural)]
pub struct Record {
    /// The file.
    pub key: Key,
    /// Whose it is.
    pub owner: Owner,
    /// Whether it is a write lock.
    pub write: bool,
    /// The first byte.
    pub start: u64,
    /// The last byte.
    pub end: u64,
}

impl Record {
    /// Whether the lock is this one's, on this file, in this mode, over this
    /// byte.
    pub open spec fn covers(self, key: Key, owner: Owner, write: bool, b: int) -> bool {
        self.key == key && self.owner == owner && self.write == write && self.start <= b
            <= self.end
    }
}

/// Whether an owner holds a lock of this mode over a byte of a file.
pub open spec fn held(list: Seq<Record>, key: Key, owner: Owner, write: bool, b: int) -> bool {
    exists|i: int| 0 <= i < list.len() && (#[trigger] list[i]).covers(key, owner, write, b)
}

/// Whether two locks of one owner on one file are kept apart: they share no
/// byte, and in the same mode they do not even touch.
pub open spec fn apart(a: Record, b: Record) -> bool {
    let gap: int = if a.write == b.write {
        1
    } else {
        0
    };
    a.key == b.key && a.owner == b.owner ==> a.end + gap < b.start || b.end + gap < a.start
}

/// Whether a list of locks is as it should be: ranges that are ranges, and an
/// owner's locks on a file apart.
pub open spec fn sound(list: Seq<Record>) -> bool {
    &&& forall|i: int|
        0 <= i < list.len() ==> (#[trigger] list[i]).start <= list[i].end <= OFFSET_MAX
    &&& forall|i: int, j: int|
        #![trigger list[i], list[j]]
        0 <= i < list.len() && 0 <= j < list.len() && i != j ==> apart(list[i], list[j])
}

/// Every record lock, on every file.
#[derive(Debug)]
pub struct Records {
    /// The locks.
    pub list: Vec<Record>,
}

impl Records {
    /// The locks.
    pub open spec fn view(self) -> Seq<Record> {
        self.list@
    }

    /// Whether the locks are as they should be.
    pub open spec fn wf(self) -> bool {
        sound(self.list@)
    }

    /// No locks at all.
    pub fn new() -> (records: Records)
        ensures
            records.wf(),
            records@.len() == 0,
    {
        Records { list: Vec::new() }
    }
}

// ---------------------------------------------------------------------------
// Giving up a range
// ---------------------------------------------------------------------------

/// What is left of the locks once an owner has given up a range of a file:
/// everything but its own over those bytes.
pub open spec fn carved(
    before: Seq<Record>,
    after: Seq<Record>,
    key: Key,
    owner: Owner,
    start: int,
    end: int,
) -> bool {
    forall|k: Key, o: Owner, w: bool, b: int| #[trigger]
        held(after, k, o, w, b) <==> held(before, k, o, w, b) && !(k == key && o == owner && start
            <= b <= end)
}

/// Whether a lock is part of another.
spec fn part_of(part: Record, whole: Record) -> bool {
    &&& part.key == whole.key
    &&& part.owner == whole.owner
    &&& part.write == whole.write
    &&& whole.start <= part.start
    &&& part.start <= part.end
    &&& part.end <= whole.end
}

/// Whether a lock has no byte in a range that its owner gives up.
spec fn clear_of(r: Record, key: Key, owner: Owner, start: int, end: int) -> bool {
    r.key == key && r.owner == owner ==> r.end < start || end < r.start
}

/// Give up what an owner holds over a range of a file.
///
/// The middle of a lock leaves the parts on either side.
pub fn carve(records: &mut Records, key: Key, owner: Owner, start: u64, end: u64)
    requires
        old(records).wf(),
        start <= end <= OFFSET_MAX,
    ensures
        final(records).wf(),
        carved(old(records)@, final(records)@, key, owner, start as int, end as int),
{
    let ghost before = records@;
    let mut left: Vec<Record> = Vec::new();
    let ghost mut from: Seq<int> = Seq::empty();
    let mut i: usize = 0;
    while i < records.list.len()
        invariant
            records@ == before,
            sound(before),
            start <= end <= OFFSET_MAX,
            i <= before.len(),
            from.len() == left@.len(),
            forall|k: int|
                0 <= k < left@.len() ==> {
                    &&& 0 <= #[trigger] from[k] < i
                    &&& part_of(left@[k], before[from[k]])
                    &&& clear_of(left@[k], key, owner, start as int, end as int)
                },
            forall|k: int, l: int|
                #![trigger from[k], from[l]]
                0 <= k < left@.len() && 0 <= l < left@.len() && k != l && from[k] == from[l]
                    ==> apart(left@[k], left@[l]),
            forall|j: int, k: Key, o: Owner, w: bool, b: int|
                0 <= j < i && #[trigger] before[j].covers(k, o, w, b) && !(k == key && o == owner
                    && start <= b <= end) ==> held(left@, k, o, w, b),
        decreases before.len() - i,
    {
        let r = records.list[i];
        let ghost kept = left@;
        let ghost earlier = from;
        if r.key == key && r.owner == owner && r.start <= end && start <= r.end {
            if r.start < start {
                left.push(Record { end: start - 1, ..r });
                proof {
                    from = from.push(i as int);
                }
            }
            if r.end > end {
                left.push(Record { start: end + 1, ..r });
                proof {
                    from = from.push(i as int);
                }
            }
        } else {
            left.push(r);
            proof {
                from = from.push(i as int);
            }
        }
        proof {
            assert forall|j: int, k: Key, o: Owner, w: bool, b: int|
                0 <= j < i + 1 && #[trigger] before[j].covers(k, o, w, b) && !(k == key && o
                    == owner && start <= b <= end) implies held(left@, k, o, w, b) by {
                if j < i {
                    assert(held(kept, k, o, w, b));
                    let x = choose|x: int|
                        0 <= x < kept.len() && (#[trigger] kept[x]).covers(k, o, w, b);
                    assert(left@[x] == kept[x]);
                } else {
                    let x = kept.len() as int;
                    if left@.len() > x && left@[x].covers(k, o, w, b) {
                    } else {
                        assert(left@.len() > x);
                        if left@.len() > x + 1 {
                            assert(left@[x + 1].covers(k, o, w, b));
                        } else {
                            assert(left@[x].covers(k, o, w, b));
                        }
                    }
                }
            }
        }
        i = i + 1;
    }
    records.list = left;
    proof {
        let after = records@;
        assert forall|k: Key, o: Owner, w: bool, b: int| #[trigger]
            held(after, k, o, w, b) implies held(before, k, o, w, b) && !(k == key && o == owner
            && start <= b <= end) by {
            let x = choose|x: int|
                0 <= x < after.len() && (#[trigger] after[x]).covers(k, o, w, b);
            assert(0 <= from[x]);
            assert(before[from[x]].covers(k, o, w, b));
        }
        assert forall|k: Key, o: Owner, w: bool, b: int|
            held(before, k, o, w, b) && !(k == key && o == owner && start <= b <= end) implies
            #[trigger] held(after, k, o, w, b) by {
            let j = choose|j: int|
                0 <= j < before.len() && (#[trigger] before[j]).covers(k, o, w, b);
            assert(before[j].covers(k, o, w, b));
        }
        assert forall|a: int, b: int|
            #![trigger after[a], after[b]]
            0 <= a < after.len() && 0 <= b < after.len() && a != b implies apart(
            after[a],
            after[b],
        ) by {
            assert(0 <= from[a] && 0 <= from[b]);
            if from[a] != from[b] {
                assert(apart(before[from[a]], before[from[b]]));
            }
        }
        assert forall|a: int| 0 <= a < after.len() implies (#[trigger] after[a]).start
            <= after[a].end <= OFFSET_MAX by {
            assert(0 <= from[a]);
        }
    }
}

// ---------------------------------------------------------------------------
// Taking a range
// ---------------------------------------------------------------------------

/// Whether a lock stands in the way of another owner's.
pub open spec fn blocks(r: Record, key: Key, owner: Owner, write: bool, start: int, end: int) -> bool {
    r.key == key && r.owner != owner && r.start <= end && start <= r.end && (write || r.write)
}

/// Whether any lock stands in the way.
pub open spec fn contended(
    list: Seq<Record>,
    key: Key,
    owner: Owner,
    write: bool,
    start: int,
    end: int,
) -> bool {
    exists|i: int|
        0 <= i < list.len() && blocks(#[trigger] list[i], key, owner, write, start, end)
}

/// The first of `list`, from `from` on, in the way of a lock on
/// `[start, end]`.
pub open spec fn first_in_the_way(
    list: Seq<Record>,
    key: Key,
    owner: Owner,
    write: bool,
    start: int,
    end: int,
    from: int,
) -> Option<Record>
    decreases list.len() - from,
{
    if from < 0 || from >= list.len() {
        None
    } else if blocks(list[from], key, owner, write, start, end) {
        Some(list[from])
    } else {
        first_in_the_way(list, key, owner, write, start, end, from + 1)
    }
}

/// The first lock that stands in the way of one, if any does.
pub fn conflict(records: &Records, key: Key, owner: Owner, write: bool, start: u64, end: u64) -> (
    found: Option<Record>)
    ensures
        found == first_in_the_way(records@, key, owner, write, start as int, end as int, 0),
        match found {
            Some(r) => records@.contains(r) && blocks(
                r,
                key,
                owner,
                write,
                start as int,
                end as int,
            ),
            None => !contended(records@, key, owner, write, start as int, end as int),
        },
{
    let mut i: usize = 0;
    while i < records.list.len()
        invariant
            i <= records@.len(),
            first_in_the_way(records@, key, owner, write, start as int, end as int, 0)
                == first_in_the_way(
                records@,
                key,
                owner,
                write,
                start as int,
                end as int,
                i as int,
            ),
            forall|j: int|
                0 <= j < i ==> !blocks(
                    #[trigger] records@[j],
                    key,
                    owner,
                    write,
                    start as int,
                    end as int,
                ),
        decreases records@.len() - i,
    {
        let r = records.list[i];
        if r.key == key && r.owner != owner && r.start <= end && start <= r.end && (write
            || r.write) {
            assert(records@[i as int] == r);
            return Some(r);
        }
        i = i + 1;
    }
    None
}

/// The owner's lock of this mode over a byte, if there is one.
fn covering(records: &Records, key: Key, owner: Owner, write: bool, b: u64) -> (found: Option<
    Record,
>)
    ensures
        match found {
            Some(r) => r.covers(key, owner, write, b as int) && records@.contains(r),
            None => !held(records@, key, owner, write, b as int),
        },
{
    let mut i: usize = 0;
    while i < records.list.len()
        invariant
            i <= records@.len(),
            forall|j: int|
                0 <= j < i ==> !(#[trigger] records@[j]).covers(key, owner, write, b as int),
        decreases records@.len() - i,
    {
        let r = records.list[i];
        if r.key == key && r.owner == owner && r.write == write && r.start <= b && b <= r.end {
            assert(records@[i as int] == r);
            return Some(r);
        }
        i = i + 1;
    }
    None
}

/// What the locks are once an owner has taken a range of a file: everything as
/// it was, but over those bytes the owner holds this mode alone.
pub open spec fn taken(
    before: Seq<Record>,
    after: Seq<Record>,
    key: Key,
    owner: Owner,
    write: bool,
    start: int,
    end: int,
) -> bool {
    forall|k: Key, o: Owner, w: bool, b: int| #[trigger]
        held(after, k, o, w, b) <==> if k == key && o == owner && start <= b <= end {
            w == write
        } else {
            held(before, k, o, w, b)
        }
}

/// Just outside an owner's lock it holds no other of the same mode.
proof fn lemma_edges(list: Seq<Record>, r: Record)
    requires
        sound(list),
        list.contains(r),
    ensures
        !held(list, r.key, r.owner, r.write, r.start - 1),
        !held(list, r.key, r.owner, r.write, r.end + 1),
{
    let i = choose|i: int| 0 <= i < list.len() && list[i] == r;
    assert forall|j: int| 0 <= j < list.len() implies !(#[trigger] list[j]).covers(
        r.key,
        r.owner,
        r.write,
        r.start - 1,
    ) && !list[j].covers(r.key, r.owner, r.write, r.end + 1) by {
        if j != i {
            assert(apart(list[i], list[j]));
        }
    }
}

/// Take a range of a file for an owner: refused if another owner's lock stands
/// in the way, and then nothing changes.
///
/// What the owner had over the range, in whatever mode, is replaced; a range
/// that touches what the owner has in the same mode becomes one with it.
pub fn place(
    records: &mut Records,
    key: Key,
    owner: Owner,
    write: bool,
    start: u64,
    end: u64,
) -> (granted: bool)
    requires
        old(records).wf(),
        start <= end <= OFFSET_MAX,
    ensures
        final(records).wf(),
        granted == !contended(old(records)@, key, owner, write, start as int, end as int),
        if granted {
            taken(old(records)@, final(records)@, key, owner, write, start as int, end as int)
        } else {
            *final(records) == *old(records)
        },
{
    if conflict(records, key, owner, write, start, end).is_some() {
        proof {
            assert(contended(records@, key, owner, write, start as int, end as int));
        }
        return false;
    }
    let ghost before = records@;
    let below = if start > 0 {
        covering(records, key, owner, write, start - 1)
    } else {
        None
    };
    let low: u64 = match below {
        Some(r) => {
            proof {
                lemma_edges(before, r);
            }
            r.start
        },
        None => start,
    };
    let above = covering(records, key, owner, write, end + 1);
    let high: u64 = match above {
        Some(r) => {
            proof {
                lemma_edges(before, r);
                let j = choose|j: int| 0 <= j < before.len() && before[j] == r;
                assert(before[j].end <= OFFSET_MAX);
            }
            r.end
        },
        None => end,
    };
    proof {
        assert forall|j: int| 0 <= j < before.len() implies !(#[trigger] before[j]).covers(
            key,
            owner,
            write,
            -1,
        ) by {}
        assert(!held(before, key, owner, write, low - 1));
        assert(!held(before, key, owner, write, high + 1));
        assert forall|b: int| low <= b < start || end < b <= high implies #[trigger] held(
            before,
            key,
            owner,
            write,
            b,
        ) by {
            if low <= b < start {
                let r = below->0;
                let j = choose|j: int| 0 <= j < before.len() && before[j] == r;
                assert(before[j].covers(key, owner, write, b));
            } else {
                let r = above->0;
                let j = choose|j: int| 0 <= j < before.len() && before[j] == r;
                assert(before[j].covers(key, owner, write, b));
            }
        }
    }
    carve(records, key, owner, low, high);
    let ghost hollow = records@;
    let merged = Record { key, owner, write, start: low, end: high };
    records.list.push(merged);
    proof {
        let after = records@;
        let n = hollow.len() as int;
        assert forall|j: int| 0 <= j < n implies apart(#[trigger] hollow[j], merged) by {
            let r = hollow[j];
            if r.key == key && r.owner == owner {
                // A byte the two share would be one that was given up.
                if r.start <= high && low <= r.end {
                    let b: int = if r.start >= low {
                        r.start as int
                    } else {
                        low as int
                    };
                    assert(r.covers(key, owner, r.write, b));
                    assert(held(hollow, key, owner, r.write, b));
                }
                // A byte right beside it in the same mode was held before.
                if r.write == write && r.end + 1 == low {
                    assert(r.covers(key, owner, write, low - 1));
                    assert(held(hollow, key, owner, write, low - 1));
                }
                if r.write == write && high + 1 == r.start {
                    assert(r.covers(key, owner, write, high + 1));
                    assert(held(hollow, key, owner, write, high + 1));
                }
            }
        }
        assert forall|a: int, b: int|
            #![trigger after[a], after[b]]
            0 <= a < after.len() && 0 <= b < after.len() && a != b implies apart(
            after[a],
            after[b],
        ) by {
            if a < n && b < n {
                assert(apart(hollow[a], hollow[b]));
            } else if a < n {
                assert(apart(hollow[a], merged));
            } else {
                assert(apart(hollow[b], merged));
            }
        }
        assert forall|a: int| 0 <= a < after.len() implies (#[trigger] after[a]).start
            <= after[a].end <= OFFSET_MAX by {
            if a < n {
                assert(hollow[a] == after[a]);
            }
        }
        assert forall|k: Key, o: Owner, w: bool, b: int| #[trigger]
            held(after, k, o, w, b) <==> if k == key && o == owner && start <= b <= end {
                w == write
            } else {
                held(before, k, o, w, b)
            } by {
            assert(after[n] == merged);
            if held(after, k, o, w, b) {
                let x = choose|x: int|
                    0 <= x < after.len() && (#[trigger] after[x]).covers(k, o, w, b);
                if x < n {
                    assert(hollow[x].covers(k, o, w, b));
                    assert(held(hollow, k, o, w, b));
                }
            }
            if held(hollow, k, o, w, b) {
                let x = choose|x: int|
                    0 <= x < hollow.len() && (#[trigger] hollow[x]).covers(k, o, w, b);
                assert(after[x].covers(k, o, w, b));
            }
            if merged.covers(k, o, w, b) {
                assert(after[n].covers(k, o, w, b));
            }
            if k == key && o == owner && low <= b <= high && !(start <= b <= end) {
                // Outside the range itself, only this mode was held there.
                assert(held(before, key, owner, write, b));
                lemma_one_mode(before, key, owner, b);
            }
        }
    }
    true
}

/// An owner holds one mode at most over a byte.
proof fn lemma_one_mode(list: Seq<Record>, key: Key, owner: Owner, b: int)
    requires
        sound(list),
    ensures
        !(held(list, key, owner, true, b) && held(list, key, owner, false, b)),
{
    if held(list, key, owner, true, b) && held(list, key, owner, false, b) {
        let i = choose|i: int|
            0 <= i < list.len() && (#[trigger] list[i]).covers(key, owner, true, b);
        let j = choose|j: int|
            0 <= j < list.len() && (#[trigger] list[j]).covers(key, owner, false, b);
        assert(i != j);
        assert(apart(list[i], list[j]));
    }
}

/// Give up everything an owner holds on a file: what any close of the file by
/// a process does to its classic locks.
pub fn unlock_all(records: &mut Records, key: Key, owner: Owner)
    requires
        old(records).wf(),
    ensures
        final(records).wf(),
        carved(old(records)@, final(records)@, key, owner, 0, OFFSET_MAX as int),
{
    carve(records, key, owner, 0, OFFSET_MAX);
}

/// What closing any descriptor of `file` does to the locks: those `pid` holds
/// on the file as a process go, whichever descriptor set them, and nothing
/// else does.
pub fn closed(records: &mut Records, file: &OpenFile, pid: u32)
    requires
        old(records).wf(),
    ensures
        final(records).wf(),
        carved(
            old(records)@,
            final(records)@,
            spec_key_of(*file),
            Owner::Process(pid),
            0,
            OFFSET_MAX as int,
        ),
{
    unlock_all(records, key_of(file), Owner::Process(pid));
}

/// `close`, with what it does to the process's locks on the file. A descriptor
/// that names nothing is `EBADF`, and changes nothing.
pub fn close(
    table: &mut FdTable,
    open: &Vec<OpenFile>,
    records: &mut Records,
    pid: u32,
    fd: i32,
) -> (result: Result<usize, Errno>)
    requires
        old(table).wf(),
        named(*old(table), open@.len()),
        old(records).wf(),
    ensures
        final(table).wf(),
        final(table).limit == old(table).limit,
        final(records).wf(),
        match spec_file(*old(table), open@, fd as int) {
            Err(e) => {
                &&& result == Err::<usize, Errno>(e)
                &&& *final(table) == *old(table)
                &&& *final(records) == *old(records)
            },
            Ok(found) => {
                &&& result == Ok::<usize, Errno>(0)
                &&& final(table)@ == old(table)@.remove(fd as int)
                &&& carved(
                    old(records)@,
                    final(records)@,
                    spec_key_of(found),
                    Owner::Process(pid),
                    0,
                    OFFSET_MAX as int,
                )
            },
        },
{
    let found = file(table, open, fd)?;
    let done = sys_close(table, fd)?;
    closed(records, &found, pid);
    Ok(done)
}

/// Whether `execve` closes a descriptor of the file `key`.
pub open spec fn closes_file(table: FdTable, open: Seq<OpenFile>, key: Key) -> bool {
    exists|fd: int| #[trigger]
        table@.dom().contains(fd) && table@[fd].cloexec && spec_key_of(
            open[table@[fd].file as int],
        ) == key
}

/// Close every descriptor `execve` closes, with what that does to the
/// process's locks, and give back what they named, lowest number first.
pub fn close_marked(
    table: &mut FdTable,
    open: &Vec<OpenFile>,
    records: &mut Records,
    pid: u32,
) -> (gone: Vec<usize>)
    requires
        old(table).wf(),
        named(*old(table), open@.len()),
        old(records).wf(),
    ensures
        final(table).wf(),
        final(table).limit == old(table).limit,
        final(table)@ == Map::new(
            |fd: int| old(table).survives(fd),
            |fd: int| old(table)@[fd],
        ),
        gone@ == old(table).closing(MAX_LIMIT as int),
        final(records).wf(),
        forall|k: Key, o: Owner, w: bool, b: int| #[trigger]
            held(final(records)@, k, o, w, b) <==> held(old(records)@, k, o, w, b) && !(o
                == Owner::Process(pid) && closes_file(*old(table), open@, k)),
{
    let ghost first = records@;
    let gone = table.take_cloexec();
    let mut i: usize = 0;
    proof {
        old(table).lemma_closing_names(MAX_LIMIT as int);
        assert forall|j: int| 0 <= j < gone@.len() implies #[trigger] gone@[j] < open@.len() by {
            assert(gone@.contains(gone@[j]));
            assert(old(table).closes(gone@[j], MAX_LIMIT as int));
        }
    }
    while i < gone.len()
        invariant
            i <= gone@.len(),
            records.wf(),
            forall|j: int| 0 <= j < gone@.len() ==> #[trigger] gone@[j] < open@.len(),
            forall|k: Key, o: Owner, w: bool, b: int| #[trigger]
                held(records@, k, o, w, b) ==> b <= OFFSET_MAX && 0 <= b,
            forall|k: Key, o: Owner, w: bool, b: int| #[trigger]
                held(records@, k, o, w, b) <==> held(first, k, o, w, b) && !(o == Owner::Process(
                    pid,
                ) && gone_file(gone@, open@, i as int, k)),
        decreases gone@.len() - i,
    {
        let ghost before = records@;
        let at: usize = gone[i];
        closed(records, &open[at], pid);
        proof {
            assert forall|k: Key, o: Owner, w: bool, b: int| #[trigger]
                held(records@, k, o, w, b) <==> held(first, k, o, w, b) && !(o == Owner::Process(
                    pid,
                ) && gone_file(gone@, open@, i + 1, k)) by {
                assert(held(before, k, o, w, b) <==> held(first, k, o, w, b) && !(o
                    == Owner::Process(pid) && gone_file(gone@, open@, i as int, k)));
                if k == spec_key_of(open@[gone@[i as int] as int]) {
                    assert(gone_file(gone@, open@, i + 1, k));
                }
            }
        }
        i = i + 1;
    }
    proof {
        assert forall|k: Key| gone_file(gone@, open@, gone@.len() as int, k)
            == #[trigger] closes_file(*old(table), open@, k) by {
            if gone_file(gone@, open@, gone@.len() as int, k) {
                let j = choose|j: int|
                    0 <= j < gone@.len() && spec_key_of(open@[#[trigger] gone@[j] as int]) == k;
                assert(gone@.contains(gone@[j]));
                assert(old(table).closes(gone@[j], MAX_LIMIT as int));
            }
            if closes_file(*old(table), open@, k) {
                let fd = choose|fd: int| #[trigger]
                    old(table)@.dom().contains(fd) && old(table)@[fd].cloexec && spec_key_of(
                        open@[old(table)@[fd].file as int],
                    ) == k;
                assert(old(table).closes(old(table)@[fd].file, MAX_LIMIT as int));
                assert(gone@.contains(old(table)@[fd].file));
                let j = choose|j: int| 0 <= j < gone@.len() && gone@[j] == old(table)@[fd].file;
                assert(spec_key_of(open@[gone@[j] as int]) == k);
            }
        }
    }
    gone
}

/// Whether one of the first `n` descriptions of `gone` is on the file `key`.
spec fn gone_file(gone: Seq<usize>, open: Seq<OpenFile>, n: int, key: Key) -> bool {
    exists|j: int| 0 <= j < n && spec_key_of(open[#[trigger] gone[j] as int]) == key
}

/// Whether a lock's owner is still there: a process is, and a description is
/// while it is open.
pub open spec fn owner_live(alive: Seq<bool>, owner: Owner) -> bool {
    match owner {
        Owner::Process(_) => true,
        Owner::Description(at) => live(alive, at),
    }
}

/// The locks of those still there, in the order they had.
pub open spec fn swept(list: Seq<Record>, alive: Seq<bool>) -> Seq<Record>
    decreases list.len(),
{
    if list.len() == 0 {
        Seq::empty()
    } else {
        let before = swept(list.drop_last(), alive);
        if owner_live(alive, list.last().owner) {
            before.push(list.last())
        } else {
            before
        }
    }
}

proof fn lemma_swept(list: Seq<Record>, alive: Seq<bool>)
    requires
        sound(list),
    ensures
        sound(swept(list, alive)),
        forall|r: Record| #[trigger]
            swept(list, alive).contains(r) <==> list.contains(r) && owner_live(alive, r.owner),
    decreases list.len(),
{
    if list.len() > 0 {
        let fewer = list.drop_last();
        let last = list.last();
        assert(sound(fewer)) by {
            assert forall|i: int| 0 <= i < fewer.len() implies (#[trigger] fewer[i]).start
                <= fewer[i].end <= OFFSET_MAX by {
                assert(fewer[i] == list[i]);
            }
            assert forall|i: int, j: int|
                #![trigger fewer[i], fewer[j]]
                0 <= i < fewer.len() && 0 <= j < fewer.len() && i != j implies apart(
                fewer[i],
                fewer[j],
            ) by {
                assert(fewer[i] == list[i] && fewer[j] == list[j]);
            }
        }
        lemma_swept(fewer, alive);
        let before = swept(fewer, alive);
        let all = swept(list, alive);
        assert forall|r: Record| #[trigger] all.contains(r) <==> list.contains(r) && owner_live(
            alive,
            r.owner,
        ) by {
            if all.contains(r) {
                let i = choose|i: int| 0 <= i < all.len() && all[i] == r;
                if i < before.len() {
                    assert(before.contains(before[i]));
                    let j = choose|j: int| 0 <= j < fewer.len() && fewer[j] == r;
                    assert(list[j] == r);
                } else {
                    assert(list[list.len() - 1] == r);
                }
            }
            if list.contains(r) && owner_live(alive, r.owner) {
                let j = choose|j: int| 0 <= j < list.len() && list[j] == r;
                if j < fewer.len() {
                    assert(fewer[j] == r);
                    assert(before.contains(r));
                    let i = choose|i: int| 0 <= i < before.len() && before[i] == r;
                    assert(all[i] == r);
                } else {
                    assert(all[before.len() as int] == r);
                }
            }
        }
        assert forall|i: int| 0 <= i < all.len() implies (#[trigger] all[i]).start <= all[i].end
            <= OFFSET_MAX by {
            assert(all.contains(all[i]));
            let j = choose|j: int| 0 <= j < list.len() && list[j] == all[i];
            assert(list[j].start <= list[j].end <= OFFSET_MAX);
        }
        assert forall|i: int, j: int|
            #![trigger all[i], all[j]]
            0 <= i < all.len() && 0 <= j < all.len() && i != j implies apart(all[i], all[j]) by {
            if i < before.len() && j < before.len() {
                assert(all[i] == before[i] && all[j] == before[j]);
            } else {
                let k = if i < before.len() {
                    i
                } else {
                    j
                };
                assert(before.contains(before[k]));
                let m = choose|m: int| 0 <= m < fewer.len() && fewer[m] == before[k];
                assert(list[m] == before[k]);
                assert(apart(list[m], list[list.len() - 1]));
                assert(apart(list[list.len() - 1], list[m]));
            }
        }
    }
}

/// Drop the locks of descriptions that have closed: a description's locks last
/// as long as it does, whoever closes the last descriptor of it.
pub fn sweep(records: &mut Records, alive: &Vec<bool>)
    requires
        old(records).wf(),
    ensures
        final(records).wf(),
        final(records)@ == swept(old(records)@, alive@),
{
    let ghost before = records@;
    let mut kept: Vec<Record> = Vec::new();
    let mut i: usize = 0;
    proof {
        assert(kept@ =~= swept(before.take(0), alive@));
    }
    while i < records.list.len()
        invariant
            records@ == before,
            i <= before.len(),
            kept@ == swept(before.take(i as int), alive@),
        decreases before.len() - i,
    {
        let r = records.list[i];
        let stays = match r.owner {
            Owner::Process(_) => true,
            Owner::Description(at) => at < alive.len() && alive[at],
        };
        if stays {
            kept.push(r);
        }
        proof {
            assert(before.take(i + 1).drop_last() =~= before.take(i as int));
        }
        i = i + 1;
    }
    proof {
        assert(before.take(before.len() as int) =~= before);
        lemma_swept(before, alive@);
    }
    records.list = kept;
}

/// Take the one-byte write lock at twice `at` for an owner: every other byte,
/// so that no two merge. `ENOLCK` when there is no room for another lock, and
/// `EAGAIN` for a byte someone else holds.
pub fn lock_byte(records: &mut Records, key: Key, owner: Owner, at: u64, room: bool) -> (done:
    Result<(), Errno>)
    requires
        old(records).wf(),
        at <= OFFSET_MAX / 2,
    ensures
        final(records).wf(),
        ({
            let byte = 2 * at as int;
            if !room {
                done == Err::<(), Errno>(Errno::ENOLCK) && *final(records) == *old(records)
            } else if contended(old(records)@, key, owner, true, byte, byte) {
                done == Err::<(), Errno>(Errno::EAGAIN) && *final(records) == *old(records)
            } else {
                done is Ok && taken(
                    old(records)@,
                    final(records)@,
                    key,
                    owner,
                    true,
                    byte,
                    byte,
                )
            }
        }),
{
    if !room {
        return Err(Errno::ENOLCK);
    }
    if place(records, key, owner, true, 2 * at, 2 * at) {
        Ok(())
    } else {
        Err(Errno::EAGAIN)
    }
}

// ---------------------------------------------------------------------------
// What holds of the locks as a whole
// ---------------------------------------------------------------------------

/// Once the table is swept a description that has closed holds nothing, on any
/// file, and everyone else holds what they held.
pub proof fn law_a_closed_description_holds_no_record(
    list: Seq<Record>,
    alive: Seq<bool>,
    key: Key,
    owner: Owner,
    write: bool,
    b: int,
)
    requires
        sound(list),
    ensures
        held(swept(list, alive), key, owner, write, b) <==> held(list, key, owner, write, b)
            && owner_live(alive, owner),
{
    lemma_swept(list, alive);
    let left = swept(list, alive);
    if held(left, key, owner, write, b) {
        let i = choose|i: int|
            0 <= i < left.len() && (#[trigger] left[i]).covers(key, owner, write, b);
        assert(left.contains(left[i]));
        let j = choose|j: int| 0 <= j < list.len() && list[j] == left[i];
        assert(list[j].covers(key, owner, write, b));
    }
    if held(list, key, owner, write, b) && owner_live(alive, owner) {
        let j = choose|j: int|
            0 <= j < list.len() && (#[trigger] list[j]).covers(key, owner, write, b);
        assert(list.contains(list[j]));
        assert(left.contains(list[j]));
        let i = choose|i: int| 0 <= i < left.len() && left[i] == list[j];
        assert(left[i].covers(key, owner, write, b));
    }
}

/// Whether no two owners hold locks over one byte of a file of which one is a
/// write lock.
pub open spec fn peaceful(list: Seq<Record>) -> bool {
    forall|k: Key, a: Owner, b: Owner, w: bool, x: int|
        #![trigger held(list, k, a, true, x), held(list, k, b, w, x)]
        a != b ==> !(held(list, k, a, true, x) && held(list, k, b, w, x))
}

/// No lock is granted that another owner's stands in the way of, so conflicting
/// locks are never held together.
pub proof fn law_conflicting_records_are_never_held_together(
    before: Seq<Record>,
    after: Seq<Record>,
    key: Key,
    owner: Owner,
    write: bool,
    start: int,
    end: int,
)
    requires
        peaceful(before),
        !contended(before, key, owner, write, start, end),
        taken(before, after, key, owner, write, start, end),
    ensures
        peaceful(after),
{
    assert forall|k: Key, a: Owner, b: Owner, w: bool, x: int|
        #![trigger held(after, k, a, true, x), held(after, k, b, w, x)]
        a != b implies !(held(after, k, a, true, x) && held(after, k, b, w, x)) by {
        if held(after, k, a, true, x) && held(after, k, b, w, x) {
            if k == key && start <= x <= end && (a == owner || b == owner) {
                if a == owner {
                    // Then the lock is a write lock, and b's stood in the way.
                    assert(held(before, k, b, w, x));
                    let i = choose|i: int|
                        0 <= i < before.len() && (#[trigger] before[i]).covers(k, b, w, x);
                    assert(blocks(before[i], key, owner, write, start, end));
                } else {
                    assert(held(before, k, a, true, x));
                    let i = choose|i: int|
                        0 <= i < before.len() && (#[trigger] before[i]).covers(k, a, true, x);
                    assert(blocks(before[i], key, owner, write, start, end));
                }
            } else {
                assert(held(before, k, a, true, x));
                assert(held(before, k, b, w, x));
            }
        }
    }
}

/// Giving up a range makes no new conflict.
pub proof fn law_giving_up_makes_no_conflict(
    before: Seq<Record>,
    after: Seq<Record>,
    key: Key,
    owner: Owner,
    start: int,
    end: int,
)
    requires
        peaceful(before),
        carved(before, after, key, owner, start, end),
    ensures
        peaceful(after),
{
    assert forall|k: Key, a: Owner, b: Owner, w: bool, x: int|
        #![trigger held(after, k, a, true, x), held(after, k, b, w, x)]
        a != b implies !(held(after, k, a, true, x) && held(after, k, b, w, x)) by {
        if held(after, k, a, true, x) && held(after, k, b, w, x) {
            assert(held(before, k, a, true, x));
            assert(held(before, k, b, w, x));
        }
    }
}

/// Releasing the middle of a lock leaves the parts on either side.
pub proof fn law_releasing_the_middle_leaves_the_ends(
    before: Seq<Record>,
    after: Seq<Record>,
    key: Key,
    owner: Owner,
    write: bool,
    start: int,
    end: int,
    b: int,
)
    requires
        carved(before, after, key, owner, start, end),
        held(before, key, owner, write, b),
    ensures
        held(after, key, owner, write, b) <==> b < start || end < b,
{
}

/// Two ranges that only touch do not contend.
pub proof fn law_touching_ranges_do_not_contend(
    list: Seq<Record>,
    key: Key,
    owner: Owner,
    write: bool,
    start: int,
    end: int,
)
    requires
        start <= end,
        forall|i: int|
            0 <= i < list.len() && (#[trigger] list[i]).key == key && list[i].owner != owner
                ==> list[i].end < start || end < list[i].start,
    ensures
        !contended(list, key, owner, write, start, end),
{
}

// ---------------------------------------------------------------------------
// The call
// ---------------------------------------------------------------------------

/// What a record-lock command does.
#[derive(Clone, Copy, Debug, PartialEq, Eq, Structural)]
pub enum Act {
    /// Says what stands in the way.
    Get,
    /// Takes or gives up a range, or is refused.
    Try,
    /// Takes or gives up a range, waiting if it must.
    Wait,
}

/// A record-lock command.
#[derive(Clone, Copy, Debug, PartialEq, Eq, Structural)]
pub struct Command {
    /// What it does.
    pub act: Act,
    /// Whether the lock is the description's rather than the process's.
    pub description: bool,
    /// Whether the structure has 64-bit offsets.
    pub wide: bool,
}

/// The record-lock command a number is, if it is one. On a 32-bit machine the
/// plain commands have 32-bit offsets, and the others are the wide call's
/// alone.
pub open spec fn spec_command(cmd: u32, wide_call: bool, arch: Arch) -> Option<Command> {
    let act = |base: u32|
        if cmd == base {
            Act::Get
        } else if cmd == base + 1 {
            Act::Try
        } else {
            Act::Wait
        };
    if 5 <= cmd <= 7 {
        Some(Command { act: act(5), description: false, wide: arch != Arch::Arm })
    } else if 12 <= cmd <= 14 && arch == Arch::Arm && wide_call {
        Some(Command { act: act(12), description: false, wide: true })
    } else if 36 <= cmd <= 38 && (arch != Arch::Arm || wide_call) {
        Some(Command { act: act(36), description: true, wide: true })
    } else {
        None
    }
}

/// What the command `base + n` does.
fn act_of(cmd: u32, base: u32) -> (act: Act)
    requires
        base <= 36,
    ensures
        act == if cmd == base {
            Act::Get
        } else if cmd == base + 1 {
            Act::Try
        } else {
            Act::Wait
        },
{
    if cmd == base {
        Act::Get
    } else if cmd == base + 1 {
        Act::Try
    } else {
        Act::Wait
    }
}

/// The record-lock command a number is, if it is one.
pub fn command(cmd: u32, wide_call: bool, arch: Arch) -> (command: Option<Command>)
    ensures
        command == spec_command(cmd, wide_call, arch),
{
    if cmd >= 5 && cmd <= 7 {
        Some(Command { act: act_of(cmd, 5), description: false, wide: arch != Arch::Arm })
    } else if cmd >= 12 && cmd <= 14 && arch == Arch::Arm && wide_call {
        Some(Command { act: act_of(cmd, 12), description: false, wide: true })
    } else if cmd >= 36 && cmd <= 38 && (arch != Arch::Arm || wide_call) {
        Some(Command { act: act_of(cmd, 36), description: true, wide: true })
    } else {
        None
    }
}

/// Bytes in a `struct flock`.
pub open spec fn flock_size(wide: bool) -> nat {
    if wide {
        32
    } else {
        16
    }
}

/// What a `struct flock` says.
#[derive(Clone, Copy, Debug, PartialEq, Eq, Structural)]
pub struct Flock {
    /// The kind of lock.
    pub kind: u32,
    /// What the offset counts from.
    pub whence: u32,
    /// The offset.
    pub start: i64,
    /// How many bytes; zero for all the rest.
    pub len: i64,
    /// A process.
    pub pid: i32,
}

/// The number in some bytes.
pub open spec fn number_in(bytes: Seq<u8>, at: int, len: int) -> int {
    le_value(bytes.subrange(at, at + len)) as int
}

/// What the bytes of a `struct flock` say: the kind and what the offset counts
/// from, two bytes each, then the offset and the length, and then the process.
pub open spec fn spec_decode(bytes: Seq<u8>, wide: bool) -> Flock {
    if wide {
        Flock {
            kind: number_in(bytes, 0, 2) as u32,
            whence: number_in(bytes, 2, 2) as u32,
            start: spec_signed_64(number_in(bytes, 8, 8)) as i64,
            len: spec_signed_64(number_in(bytes, 16, 8)) as i64,
            pid: spec_signed_32(number_in(bytes, 24, 4)) as i32,
        }
    } else {
        Flock {
            kind: number_in(bytes, 0, 2) as u32,
            whence: number_in(bytes, 2, 2) as u32,
            start: spec_signed_32(number_in(bytes, 4, 4)) as i64,
            len: spec_signed_32(number_in(bytes, 8, 4)) as i64,
            pid: spec_signed_32(number_in(bytes, 12, 4)) as i32,
        }
    }
}

/// The number in some bytes.
fn get_number(bytes: &Vec<u8>, at: usize, len: usize) -> (v: u64)
    requires
        at <= 32,
        at + len <= bytes@.len(),
        len == 2 || len == 4 || len == 8,
    ensures
        v == number_in(bytes@, at as int, len as int),
        len == 2 ==> v < 0x1_0000,
        len == 4 ==> v < 0x1_0000_0000,
{
    let part = vstd::slice::slice_subrange(bytes.as_slice(), at, at + len);
    proof {
        lemma_byte_spans();
        lemma_le_value_bound(part@);
        assert(crate::bytes::byte_span(2) == 0x1_0000) by {
            reveal_with_fuel(crate::bytes::byte_span, 4);
        }
    }
    le_decode(part)
}

/// What the bytes of a `struct flock` say.
fn decode(bytes: &Vec<u8>, wide: bool) -> (flock: Flock)
    requires
        bytes@.len() == flock_size(wide),
    ensures
        flock == spec_decode(bytes@, wide),
{
    if wide {
        Flock {
            kind: get_number(bytes, 0, 2) as u32,
            whence: get_number(bytes, 2, 2) as u32,
            start: signed_64(get_number(bytes, 8, 8)),
            len: signed_64(get_number(bytes, 16, 8)),
            pid: signed_32(get_number(bytes, 24, 4) as u32),
        }
    } else {
        Flock {
            kind: get_number(bytes, 0, 2) as u32,
            whence: get_number(bytes, 2, 2) as u32,
            start: signed_32(get_number(bytes, 4, 4) as u32) as i64,
            len: signed_32(get_number(bytes, 8, 4) as u32) as i64,
            pid: signed_32(get_number(bytes, 12, 4) as u32),
        }
    }
}

/// The range a request is about: counted from the file's start, from
/// `position` or from its `length`; behind the offset for a negative length,
/// and to the last byte there can be for none.
///
/// `EINVAL` for an unknown place to count from, and for a range that starts
/// before the file; `EOVERFLOW` for one that ends past the last byte.
pub open spec fn spec_range(f: Flock, position: u64, length: u64) -> Result<(u64, u64), Errno> {
    if f.whence > 2 {
        Err(Errno::EINVAL)
    } else {
        let base = if f.whence == 0 {
            0
        } else if f.whence == 1 {
            position as int
        } else {
            length as int
        };
        let from = base + f.start;
        if from > OFFSET_MAX {
            Err(Errno::EOVERFLOW)
        } else if f.len >= 0 {
            let to = if f.len == 0 {
                OFFSET_MAX as int
            } else {
                from + f.len - 1
            };
            if from < 0 {
                Err(Errno::EINVAL)
            } else if to > OFFSET_MAX {
                Err(Errno::EOVERFLOW)
            } else {
                Ok((from as u64, to as u64))
            }
        } else if from + f.len < 0 {
            Err(Errno::EINVAL)
        } else {
            Ok(((from + f.len) as u64, (from - 1) as u64))
        }
    }
}

/// The range a request is about.
pub fn range(f: &Flock, position: u64, length: u64) -> (found: Result<(u64, u64), Errno>)
    requires
        position <= OFFSET_MAX,
        length <= OFFSET_MAX,
    ensures
        found == spec_range(*f, position, length),
        match found {
            Ok((start, end)) => start <= end <= OFFSET_MAX,
            Err(_) => true,
        },
{
    if f.whence > 2 {
        return Err(Errno::EINVAL);
    }
    let base: i128 = if f.whence == 0 {
        0
    } else if f.whence == 1 {
        position as i128
    } else {
        length as i128
    };
    let from: i128 = base + f.start as i128;
    if from > OFFSET_MAX as i128 {
        return Err(Errno::EOVERFLOW);
    }
    if f.len >= 0 {
        if from < 0 {
            return Err(Errno::EINVAL);
        }
        let to: i128 = if f.len == 0 {
            OFFSET_MAX as i128
        } else {
            from + f.len as i128 - 1
        };
        if to > OFFSET_MAX as i128 {
            return Err(Errno::EOVERFLOW);
        }
        return Ok((from as u64, to as u64));
    }
    if from + (f.len as i128) < 0 {
        return Err(Errno::EINVAL);
    }
    Ok(((from + f.len as i128) as u64, (from - 1) as u64))
}

/// The length a lock is reported with: zero for one to the last byte.
pub open spec fn reported_len(r: Record) -> int {
    if r.end == OFFSET_MAX {
        0
    } else {
        r.end - r.start + 1
    }
}

/// The process a lock is reported with: -1 for a description's.
pub open spec fn reported_pid(owner: Owner) -> int {
    match owner {
        Owner::Process(pid) => spec_signed_32(pid as int),
        Owner::Description(_) => -1,
    }
}

/// The bits of a signed number of four bytes.
pub open spec fn bits_of(v: int) -> nat {
    if v < 0 {
        (v + 0x1_0000_0000) as nat
    } else {
        v as nat
    }
}

/// A `struct flock` that reports a lock, in the bytes the program gave.
pub open spec fn report_bytes(bytes: Seq<u8>, r: Record, wide: bool) -> Seq<u8> {
    let kind = if r.write {
        F_WRLCK
    } else {
        F_RDLCK
    };
    let first = overlaid(
        overlaid(bytes, 0, le_bytes(kind as nat, 2)),
        2,
        le_bytes(0, 2),
    );
    if wide {
        overlaid(
            overlaid(
                overlaid(first, 8, le_bytes(r.start as nat, 8)),
                16,
                le_bytes(reported_len(r) as nat, 8),
            ),
            24,
            le_bytes(bits_of(reported_pid(r.owner)), 4),
        )
    } else {
        overlaid(
            overlaid(
                overlaid(first, 4, le_bytes(r.start as nat, 4)),
                8,
                le_bytes(reported_len(r) as nat, 4),
            ),
            12,
            le_bytes(bits_of(reported_pid(r.owner)), 4),
        )
    }
}

/// Lay a number of `len` bytes over others.
fn lay_number(bytes: &mut Vec<u8>, at: usize, v: u64, len: usize)
    requires
        at + len <= old(bytes)@.len(),
    ensures
        final(bytes)@ == overlaid(old(bytes)@, at as int, le_bytes(v as nat, len as nat)),
        final(bytes)@.len() == old(bytes)@.len(),
{
    let data = le_encode(v, len);
    proof {
        lemma_le_bytes_len(v as nat, len as nat);
    }
    lay_over(bytes, at, data.as_slice());
}

/// A `struct flock` that reports a lock.
fn report(bytes: &mut Vec<u8>, r: &Record, wide: bool)
    requires
        old(bytes)@.len() == flock_size(wide),
        r.start <= r.end <= OFFSET_MAX,
    ensures
        final(bytes)@ == report_bytes(old(bytes)@, *r, wide),
        final(bytes)@.len() == old(bytes)@.len(),
{
    let kind: u64 = if r.write {
        F_WRLCK as u64
    } else {
        F_RDLCK as u64
    };
    let len: u64 = if r.end == OFFSET_MAX {
        0
    } else {
        r.end - r.start + 1
    };
    let pid: u32 = match r.owner {
        Owner::Process(pid) => pid,
        Owner::Description(_) => 0xFFFF_FFFF,
    };
    assert(pid as nat == bits_of(reported_pid(r.owner)));
    lay_number(bytes, 0, kind, 2);
    lay_number(bytes, 2, 0, 2);
    if wide {
        lay_number(bytes, 8, r.start, 8);
        lay_number(bytes, 16, len, 8);
        lay_number(bytes, 24, pid as u64, 4);
    } else {
        lay_number(bytes, 4, r.start, 4);
        lay_number(bytes, 8, len, 4);
        lay_number(bytes, 12, pid as u64, 4);
    }
}

/// Whether a narrow structure can report a lock.
pub open spec fn reportable(r: Record, wide: bool) -> bool {
    wide || (r.start <= 0x7FFF_FFFF && (r.end == OFFSET_MAX || r.end <= 0x7FFF_FFFF))
}

/// How a record-lock command ends.
#[derive(Clone, Copy, Debug, PartialEq, Eq, Structural)]
pub enum Locked {
    /// It is done.
    Done,
    /// It has to wait for another owner's lock to go.
    Wait,
}

/// What a record-lock command asks for once its descriptor and structure have
/// been checked.
#[derive(Clone, Copy, Debug, PartialEq, Eq, Structural)]
pub struct Wanted {
    /// The file.
    pub key: Key,
    /// Whose lock it is to be.
    pub owner: Owner,
    /// The kind of lock.
    pub kind: u32,
    /// The first byte.
    pub start: u64,
    /// The last byte.
    pub end: u64,
}

/// What a record-lock command asks for, or why it is refused.
///
/// `EBADF` for a descriptor that names nothing or is only a path; `EFAULT` for
/// a structure that cannot be read; then what [`spec_range`] refuses; `EINVAL`
/// for a kind there is not, and for asking what stands in the way of no lock;
/// `EBADF` to take a read lock through a descriptor not open for reading or a
/// write lock through one not open for writing; and `EINVAL` for a
/// description's request that names a process.
pub open spec fn spec_wanted(
    m: Memory,
    table: FdTable,
    open: Seq<OpenFile>,
    pid: u32,
    fd: int,
    command: Command,
    at: u64,
    position: u64,
    length: u64,
) -> Result<Wanted, Errno> {
    match spec_file(table, open, fd) {
        Err(e) => Err(e),
        Ok(file) => if file.path_only {
            Err(Errno::EBADF)
        } else if !m.can_read(at as int, flock_size(command.wide) as int) {
            Err(Errno::EFAULT)
        } else {
            let f = spec_decode(m.read(at as int, flock_size(command.wide)), command.wide);
            match spec_range(f, position, length) {
                Err(e) => Err(e),
                Ok((start, end)) => if f.kind > F_UNLCK || (command.act == Act::Get && f.kind
                    == F_UNLCK) {
                    Err(Errno::EINVAL)
                } else if command.act != Act::Get && ((f.kind == F_RDLCK && !file.readable) || (
                f.kind == F_WRLCK && !file.writable)) {
                    Err(Errno::EBADF)
                } else if command.description && f.pid != 0 {
                    Err(Errno::EINVAL)
                } else {
                    Ok(
                        Wanted {
                            key: spec_key_of(file),
                            owner: if command.description {
                                Owner::Description(table@[fd].file)
                            } else {
                                Owner::Process(pid)
                            },
                            kind: f.kind,
                            start,
                            end,
                        },
                    )
                }
            }
        },
    }
}

/// What a record-lock command asks for, and the structure it was given.
fn wanted(
    space: &AddressSpace,
    table: &FdTable,
    open: &Vec<OpenFile>,
    pid: u32,
    fd: i32,
    command: Command,
    at: u64,
    position: u64,
    length: u64,
) -> (found: Result<(Wanted, Vec<u8>), Errno>)
    requires
        space.wf(),
        named(*table, open@.len()),
        position <= OFFSET_MAX,
        length <= OFFSET_MAX,
    ensures
        match found {
            Ok((w, bytes)) => {
                &&& spec_wanted(
                    space@,
                    *table,
                    open@,
                    pid,
                    fd as int,
                    command,
                    at,
                    position,
                    length,
                ) == Ok::<Wanted, Errno>(w)
                &&& w.start <= w.end <= OFFSET_MAX
                &&& w.kind <= F_UNLCK
                &&& bytes@ == space@.read(at as int, flock_size(command.wide))
                &&& bytes@.len() == flock_size(command.wide)
            },
            Err(e) => spec_wanted(
                space@,
                *table,
                open@,
                pid,
                fd as int,
                command,
                at,
                position,
                length,
            ) == Err::<Wanted, Errno>(e),
        },
{
    let found = file(table, open, fd)?;
    if found.path_only {
        return Err(Errno::EBADF);
    }
    let size: usize = if command.wide {
        32
    } else {
        16
    };
    let bytes = space.copy_from_user(at, size)?;
    let f = decode(&bytes, command.wide);
    let (start, end) = range(&f, position, length)?;
    if f.kind > F_UNLCK || (command.act == Act::Get && f.kind == F_UNLCK) {
        return Err(Errno::EINVAL);
    }
    if command.act != Act::Get && ((f.kind == F_RDLCK && !found.readable) || (f.kind == F_WRLCK
        && !found.writable)) {
        return Err(Errno::EBADF);
    }
    if command.description && f.pid != 0 {
        return Err(Errno::EINVAL);
    }
    let owner = if command.description {
        let k: usize = table.get(fd)?;
        Owner::Description(k)
    } else {
        Owner::Process(pid)
    };
    Ok((Wanted { key: key_of(&found), owner, kind: f.kind, start, end }, bytes))
}

/// What asking for what stands in the way comes to: the structure says there
/// is nothing, or reports one lock that does. `EOVERFLOW` for one whose range
/// the structure cannot hold.
pub open spec fn got(
    m: Memory,
    after: Memory,
    result: Result<Locked, Errno>,
    list: Seq<Record>,
    w: Wanted,
    command: Command,
    at: u64,
) -> bool {
    let bytes = m.read(at as int, flock_size(command.wide));
    let found = first_in_the_way(
        list,
        w.key,
        w.owner,
        w.kind == F_WRLCK,
        w.start as int,
        w.end as int,
        0,
    );
    let told = match found {
        Some(r) => report_bytes(bytes, r, command.wide),
        None => overlaid(bytes, 0, le_bytes(F_UNLCK as nat, 2)),
    };
    if found matches Some(r) && !reportable(r, command.wide) {
        result == Err::<Locked, Errno>(Errno::EOVERFLOW) && after == m
    } else {
        match m.put(at as int, told) {
            Ok(done) => result == Ok::<Locked, Errno>(Locked::Done) && after == done,
            Err(e) => result == Err::<Locked, Errno>(e) && after == m,
        }
    }
}

/// A record-lock command.
///
/// A refused lock is `EAGAIN`, or a wait for the command that waits; `ENOLCK`
/// when there is no room for another. `position` and `length` are the
/// description's offset and the file's length.
pub fn sys_fcntl_lock(
    space: &mut AddressSpace,
    table: &FdTable,
    open: &Vec<OpenFile>,
    records: &mut Records,
    pid: u32,
    fd: i32,
    command: Command,
    at: u64,
    position: u64,
    length: u64,
    room: bool,
) -> (result: Result<Locked, Errno>)
    requires
        old(space).wf(),
        old(records).wf(),
        named(*table, open@.len()),
        position <= OFFSET_MAX,
        length <= OFFSET_MAX,
    ensures
        final(space).wf(),
        final(space).same_layout(*old(space)),
        final(records).wf(),
        command.act != Act::Get ==> final(space)@ == old(space)@,
        match spec_wanted(
            old(space)@,
            *table,
            open@,
            pid,
            fd as int,
            command,
            at,
            position,
            length,
        ) {
            Err(e) => {
                &&& result == Err::<Locked, Errno>(e)
                &&& *final(records) == *old(records)
                &&& final(space)@ == old(space)@
            },
            Ok(w) => if command.act == Act::Get {
                &&& *final(records) == *old(records)
                &&& got(
                    old(space)@,
                    final(space)@,
                    result,
                    old(records)@,
                    w,
                    command,
                    at,
                )
            } else if w.kind == F_UNLCK {
                &&& result == Ok::<Locked, Errno>(Locked::Done)
                &&& carved(
                    old(records)@,
                    final(records)@,
                    w.key,
                    w.owner,
                    w.start as int,
                    w.end as int,
                )
            } else if !room {
                &&& result == Err::<Locked, Errno>(Errno::ENOLCK)
                &&& *final(records) == *old(records)
            } else if contended(
                old(records)@,
                w.key,
                w.owner,
                w.kind == F_WRLCK,
                w.start as int,
                w.end as int,
            ) {
                &&& *final(records) == *old(records)
                &&& result == if command.act == Act::Wait {
                    Ok::<Locked, Errno>(Locked::Wait)
                } else {
                    Err(Errno::EAGAIN)
                }
            } else {
                &&& result == Ok::<Locked, Errno>(Locked::Done)
                &&& taken(
                    old(records)@,
                    final(records)@,
                    w.key,
                    w.owner,
                    w.kind == F_WRLCK,
                    w.start as int,
                    w.end as int,
                )
            },
        },
{
    let (w, given) = wanted(space, table, open, pid, fd, command, at, position, length)?;
    let write = w.kind == F_WRLCK;
    if command.act == Act::Get {
        let ghost before = space@;
        let mut bytes = given;
        let found = conflict(records, w.key, w.owner, write, w.start, w.end);
        if let Some(r) = found {
            let narrow_fits = r.start <= 0x7FFF_FFFF && (r.end == OFFSET_MAX || r.end
                <= 0x7FFF_FFFF);
            proof {
                let j = choose|j: int| 0 <= j < records@.len() && records@[j] == r;
                assert(records@[j].start <= records@[j].end <= OFFSET_MAX);
            }
            if !command.wide && !narrow_fits {
                proof {
                    assert(got(
                        before,
                        space@,
                        Err(Errno::EOVERFLOW),
                        records@,
                        w,
                        command,
                        at,
                    ));
                }
                return Err(Errno::EOVERFLOW);
            }
            report(&mut bytes, &r, command.wide);
        } else {
            lay_number(&mut bytes, 0, F_UNLCK as u64, 2);
        }
        let done = space.copy_to_user(at, bytes.as_slice());
        let answer = match done {
            Ok(_) => Ok(Locked::Done),
            Err(e) => Err(e),
        };
        proof {
            assert(got(before, space@, answer, records@, w, command, at));
        }
        return answer;
    }
    if w.kind == F_UNLCK {
        carve(records, w.key, w.owner, w.start, w.end);
        return Ok(Locked::Done);
    }
    if !room {
        return Err(Errno::ENOLCK);
    }
    if place(records, w.key, w.owner, write, w.start, w.end) {
        return Ok(Locked::Done);
    }
    if command.act == Act::Wait {
        Ok(Locked::Wait)
    } else {
        Err(Errno::EAGAIN)
    }
}

/// What a record-lock command answers once it was tried; nothing while it is to
/// sleep until another owner's lock goes, and be tried again. A signal ends the
/// wait with `EINTR`, unless the lock could be had.
pub fn tried(outcome: Result<Locked, Errno>, signal_pending: bool) -> (answer: Option<
    Result<usize, Errno>,
>)
    ensures
        answer == match outcome {
            Ok(Locked::Done) => Some(Ok::<usize, Errno>(0)),
            Ok(Locked::Wait) => if signal_pending {
                Some(Err(Errno::EINTR))
            } else {
                None
            },
            Err(e) => Some(Err(e)),
        },
{
    match outcome {
        Ok(Locked::Done) => Some(Ok(0)),
        Ok(Locked::Wait) => if signal_pending {
            Some(Err(Errno::EINTR))
        } else {
            None
        },
        Err(e) => Some(Err(e)),
    }
}

// ---------------------------------------------------------------------------
// What locks on ranges are for
// ---------------------------------------------------------------------------

/// A range is contended exactly if someone else holds a byte of it, in a mode
/// that does not go with the one asked: two readers go together, and nothing
/// else does.
pub proof fn law_a_range_is_contended_by_what_is_held(
    list: Seq<Record>,
    key: Key,
    owner: Owner,
    write: bool,
    start: int,
    end: int,
)
    requires
        sound(list),
        start <= end,
    ensures
        contended(list, key, owner, write, start, end) <==> exists|o: Owner, w: bool, b: int|
            start <= b <= end && o != owner && (write || w) && #[trigger] held(list, key, o, w, b),
{
    if contended(list, key, owner, write, start, end) {
        let i = choose|i: int|
            0 <= i < list.len() && blocks(#[trigger] list[i], key, owner, write, start, end);
        let r = list[i];
        let b: int = if r.start >= start {
            r.start as int
        } else {
            start
        };
        assert(r.start <= r.end);
        assert(list[i].covers(key, r.owner, r.write, b));
        assert(held(list, key, r.owner, r.write, b));
    }
    if exists|o: Owner, w: bool, b: int|
        start <= b <= end && o != owner && (write || w) && #[trigger] held(list, key, o, w, b) {
        let (o, w, b) = choose|o: Owner, w: bool, b: int|
            start <= b <= end && o != owner && (write || w) && #[trigger] held(list, key, o, w, b);
        let i = choose|i: int| 0 <= i < list.len() && (#[trigger] list[i]).covers(key, o, w, b);
        assert(blocks(list[i], key, owner, write, start, end));
    }
}

/// A lock that is granted is held, byte for byte, in the mode that was asked
/// and no other; what anyone else holds, and what the owner holds elsewhere,
/// stays.
pub proof fn law_a_granted_lock_is_held(
    before: Seq<Record>,
    after: Seq<Record>,
    key: Key,
    owner: Owner,
    write: bool,
    start: int,
    end: int,
    k: Key,
    o: Owner,
    b: int,
)
    requires
        taken(before, after, key, owner, write, start, end),
    ensures
        k == key && o == owner && start <= b <= end ==> held(after, k, o, write, b) && !held(
            after,
            k,
            o,
            !write,
            b,
        ),
        k != key || o != owner || b < start || end < b ==> held(after, k, o, true, b) == held(
            before,
            k,
            o,
            true,
            b,
        ) && held(after, k, o, false, b) == held(before, k, o, false, b),
{
}

/// A lock that is given up is held no more, and every other is as it was.
pub proof fn law_a_released_lock_is_gone(
    before: Seq<Record>,
    after: Seq<Record>,
    key: Key,
    owner: Owner,
    start: int,
    end: int,
    k: Key,
    o: Owner,
    w: bool,
    b: int,
)
    requires
        carved(before, after, key, owner, start, end),
    ensures
        k == key && o == owner && start <= b <= end ==> !held(after, k, o, w, b),
        k != key || o != owner || b < start || end < b ==> held(after, k, o, w, b) == held(
            before,
            k,
            o,
            w,
            b,
        ),
{
}

/// The lock that is reported stands in the way, and is the first that does.
pub proof fn law_the_lock_reported_stands_in_the_way(
    list: Seq<Record>,
    key: Key,
    owner: Owner,
    write: bool,
    start: int,
    end: int,
    from: int,
)
    requires
        0 <= from,
    ensures
        first_in_the_way(list, key, owner, write, start, end, from) matches Some(r) ==> {
            &&& r.key == key && r.owner != owner
            &&& r.start <= end && start <= r.end
            &&& write || r.write
            &&& exists|i: int|
                from <= i < list.len() && #[trigger] list[i] == r && forall|j: int|
                    from <= j < i ==> !blocks(#[trigger] list[j], key, owner, write, start, end)
        },
        first_in_the_way(list, key, owner, write, start, end, from) is None ==> forall|j: int|
            from <= j < list.len() ==> !blocks(#[trigger] list[j], key, owner, write, start, end),
    decreases list.len() - from,
{
    if from < list.len() {
        if blocks(list[from], key, owner, write, start, end) {
            assert(list[from] == first_in_the_way(list, key, owner, write, start, end, from)->0);
        } else {
            law_the_lock_reported_stands_in_the_way(
                list,
                key,
                owner,
                write,
                start,
                end,
                from + 1,
            );
            if let Some(r) = first_in_the_way(list, key, owner, write, start, end, from + 1) {
                let i = choose|i: int|
                    from + 1 <= i < list.len() && #[trigger] list[i] == r && forall|j: int|
                        from + 1 <= j < i ==> !blocks(
                            #[trigger] list[j],
                            key,
                            owner,
                            write,
                            start,
                            end,
                        );
                assert(list[i] == r);
            }
        }
    }
}

/// A command is known by its number: three of a process's, three of a
/// description's, and on a 32-bit machine three more with wide offsets; of each
/// three one asks, one tries and one waits.
pub proof fn law_a_lock_command_is_its_number(cmd: u32, wide_call: bool, arch: Arch)
    ensures
        ({
            let command = spec_command(cmd, wide_call, arch);
            let wide = arch != Arch::Arm || wide_call;
            let narrow = cmd == 5 || cmd == 6 || cmd == 7;
            let large = cmd == 12 || cmd == 13 || cmd == 14;
            let open = cmd == 36 || cmd == 37 || cmd == 38;
            &&& command is Some <==> narrow || (large && arch == Arch::Arm && wide_call) || (open
                && wide)
            &&& command matches Some(c) ==> {
                &&& c.act == Act::Get <==> cmd == 5 || cmd == 12 || cmd == 36
                &&& c.act == Act::Try <==> cmd == 6 || cmd == 13 || cmd == 37
                &&& c.act == Act::Wait <==> cmd == 7 || cmd == 14 || cmd == 38
                &&& c.description <==> open
                &&& c.wide <==> !(narrow && arch == Arch::Arm)
            }
        }),
{
}

/// A range is what its structure says, from where it says: so many bytes on, or
/// to the end of any file for none, or so many bytes back.
pub proof fn law_a_range_is_what_it_says(f: Flock, position: u64, length: u64)
    requires
        position <= 0x7FFF_FFFF_FFFF_FFFF,
        length <= 0x7FFF_FFFF_FFFF_FFFF,
    ensures
        ({
            let base: int = if f.whence == 0 {
                0
            } else if f.whence == 1 {
                position as int
            } else {
                length as int
            };
            let from = base + f.start;
            &&& f.whence > 2 ==> spec_range(f, position, length) == Err::<(u64, u64), Errno>(
                Errno::EINVAL,
            )
            &&& spec_range(f, position, length) matches Ok((start, end)) ==> {
                &&& f.whence <= 2
                &&& start <= end <= 0x7FFF_FFFF_FFFF_FFFF
                &&& f.len > 0 ==> start == from && end + 1 - start == f.len
                &&& f.len == 0 ==> start == from && end == 0x7FFF_FFFF_FFFF_FFFF
                &&& f.len < 0 ==> end + 1 == from && end + 1 - start == -f.len
            }
            &&& f.whence <= 2 && 0 <= from && from <= 0x7FFF_FFFF_FFFF_FFFF && 0 <= f.len && from
                + f.len <= 0x7FFF_FFFF_FFFF_FFFF ==> spec_range(f, position, length) is Ok
            &&& f.whence <= 2 && f.len < 0 && 0 <= from + f.len && from <= 0x7FFF_FFFF_FFFF_FFFF
                ==> spec_range(f, position, length) is Ok
            &&& f.whence <= 2 && from < 0 ==> spec_range(f, position, length) == Err::<
                (u64, u64),
                Errno,
            >(Errno::EINVAL)
        }),
{
}

/// What is asked for is in the program's structure: the kind and where it is
/// measured from in two bytes each, then the start and the length, and the
/// process.
pub proof fn law_a_lock_is_read_field_by_field(m: Memory, at: int)
    requires
        m.number(at + 8, 8) <= 0x7FFF_FFFF_FFFF_FFFF && m.number(at + 16, 8)
            <= 0x7FFF_FFFF_FFFF_FFFF,
        m.number(at + 4, 4) <= 0x7FFF_FFFF && m.number(at + 8, 4) <= 0x7FFF_FFFF,
    ensures
        ({
            let wide = spec_decode(m.read(at, 32), true);
            let narrow = spec_decode(m.read(at, 16), false);
            &&& wide.kind == m.number(at, 2) && wide.whence == m.number(at + 2, 2)
            &&& wide.start == m.number(at + 8, 8) && wide.len == m.number(at + 16, 8)
            &&& narrow.kind == m.number(at, 2) && narrow.whence == m.number(at + 2, 2)
            &&& narrow.start == m.number(at + 4, 4) && narrow.len == m.number(at + 8, 4)
        }),
{
    lemma_byte_spans();
    assert(m.read(at, 32).subrange(0, 2) =~= m.read(at, 2));
    assert(m.read(at, 32).subrange(2, 4) =~= m.read(at + 2, 2));
    assert(m.read(at, 32).subrange(8, 16) =~= m.read(at + 8, 8));
    assert(m.read(at, 32).subrange(16, 24) =~= m.read(at + 16, 8));
    assert(m.read(at, 16).subrange(0, 2) =~= m.read(at, 2));
    assert(m.read(at, 16).subrange(2, 4) =~= m.read(at + 2, 2));
    assert(m.read(at, 16).subrange(4, 8) =~= m.read(at + 4, 4));
    assert(m.read(at, 16).subrange(8, 12) =~= m.read(at + 8, 4));
    lemma_le_value_bound(m.read(at, 2));
    lemma_le_value_bound(m.read(at + 2, 2));
}

/// What is asked for is of the descriptor's file, by the process or the
/// description as the command says, and only in a mode the file is open for.
pub proof fn law_a_lock_is_of_the_descriptors_file(
    m: Memory,
    table: FdTable,
    open: Seq<OpenFile>,
    pid: u32,
    fd: int,
    command: Command,
    at: u64,
    position: u64,
    length: u64,
)
    ensures
        spec_wanted(m, table, open, pid, fd, command, at, position, length) matches Ok(w) ==> {
            let file = open[table@[fd].file as int];
            &&& table@.dom().contains(fd) && !file.path_only
            &&& w.key.filesystem == file.filesystem && w.key.ino == file.ino
            &&& command.description ==> w.owner == Owner::Description(table@[fd].file)
            &&& !command.description ==> w.owner == Owner::Process(pid)
            &&& w.kind <= 2
            &&& command.act == Act::Get ==> w.kind != 2
            &&& command.act != Act::Get && w.kind == 0 ==> file.readable
            &&& command.act != Act::Get && w.kind == 1 ==> file.writable
        },
        !table@.dom().contains(fd) ==> spec_wanted(
            m,
            table,
            open,
            pid,
            fd,
            command,
            at,
            position,
            length,
        ) == Err::<Wanted, Errno>(Errno::EBADF),
{
}

proof fn lemma_overlaid_number(bytes: Seq<u8>, at: int, value: nat, n: nat, other: int, len: int)
    requires
        0 <= at,
        at + n <= bytes.len(),
        0 <= other,
        0 <= len,
        other + len <= bytes.len(),
        value < crate::bytes::byte_span(n),
    ensures
        overlaid(bytes, at, le_bytes(value, n)).len() == bytes.len(),
        number_in(overlaid(bytes, at, le_bytes(value, n)), at, n as int) == value,
        other + len <= at || at + n <= other ==> number_in(
            overlaid(bytes, at, le_bytes(value, n)),
            other,
            len,
        ) == number_in(bytes, other, len),
{
    crate::bytes::lemma_le_round_trip(value, n);
    let after = overlaid(bytes, at, le_bytes(value, n));
    assert(after.subrange(at, at + n) =~= le_bytes(value, n));
    if other + len <= at || at + n <= other {
        assert(after.subrange(other, other + len) =~= bytes.subrange(other, other + len));
    }
}

/// A lock that stands in the way is told as it is: its kind, from the start of
/// the file, its first byte, how many bytes it has, with none for one that has
/// no end, and whose it is, with minus one for a description's.
pub proof fn law_a_lock_in_the_way_is_told(bytes: Seq<u8>, r: Record)
    requires
        bytes.len() == 32,
        r.start <= r.end <= 0x7FFF_FFFF_FFFF_FFFF,
    ensures
        ({
            let told = report_bytes(bytes, r, true);
            &&& told.len() == 32
            &&& number_in(told, 0, 2) == (if r.write {
                1int
            } else {
                0
            })
            &&& number_in(told, 2, 2) == 0
            &&& number_in(told, 8, 8) == r.start
            &&& r.end == 0x7FFF_FFFF_FFFF_FFFF ==> number_in(told, 16, 8) == 0
            &&& r.end != 0x7FFF_FFFF_FFFF_FFFF ==> number_in(told, 16, 8) == r.end - r.start + 1
            &&& r.owner matches Owner::Process(pid) ==> number_in(told, 24, 4) == pid
            &&& r.owner is Description ==> number_in(told, 24, 4) == 0xFFFF_FFFF
        }),
{
    lemma_byte_spans();
    let kind: nat = if r.write {
        1
    } else {
        0
    };
    let len = reported_len(r) as nat;
    let pid = bits_of(reported_pid(r.owner));
    let a = overlaid(bytes, 0, le_bytes(kind, 2));
    let b = overlaid(a, 2, le_bytes(0, 2));
    let c = overlaid(b, 8, le_bytes(r.start as nat, 8));
    let d = overlaid(c, 16, le_bytes(len, 8));
    let e = overlaid(d, 24, le_bytes(pid, 4));
    lemma_overlaid_number(bytes, 0, kind, 2, 0, 0);
    lemma_overlaid_number(a, 2, 0, 2, 0, 2);
    lemma_overlaid_number(b, 8, r.start as nat, 8, 0, 2);
    lemma_overlaid_number(b, 8, r.start as nat, 8, 2, 2);
    lemma_overlaid_number(c, 16, len, 8, 0, 2);
    lemma_overlaid_number(c, 16, len, 8, 2, 2);
    lemma_overlaid_number(c, 16, len, 8, 8, 8);
    lemma_overlaid_number(d, 24, pid, 4, 0, 2);
    lemma_overlaid_number(d, 24, pid, 4, 2, 2);
    lemma_overlaid_number(d, 24, pid, 4, 8, 8);
    lemma_overlaid_number(d, 24, pid, 4, 16, 8);
    assert(e == report_bytes(bytes, r, true));
}

/// A wait for a range ends with the lock, or with a signal, and with nothing
/// else that was not refused.
pub proof fn law_a_wait_for_a_range_ends_for_a_reason(
    outcome: Result<Locked, Errno>,
    signal_pending: bool,
    answer: Option<Result<usize, Errno>>,
)
    requires
        call_ensures(tried, (outcome, signal_pending), answer),
    ensures
        answer is None <==> outcome == Ok::<Locked, Errno>(Locked::Wait) && !signal_pending,
        answer == Some(Ok::<usize, Errno>(0)) <==> outcome == Ok::<Locked, Errno>(Locked::Done),
        outcome == Ok::<Locked, Errno>(Locked::Wait) && signal_pending ==> answer == Some(
            Err::<usize, Errno>(Errno::EINTR),
        ),
        outcome matches Err(e) ==> answer == Some(Err::<usize, Errno>(e)),
{
}

/// A lock that is asked for is looked up in turn: its descriptor, its record,
/// its range, its kind, how its file is open, and that a description's lock
/// names no process. The first that is wrong is the answer.
pub proof fn law_the_first_thing_wrong_with_a_lock_is_told(
    m: Memory,
    table: FdTable,
    open: Seq<OpenFile>,
    pid: u32,
    fd: int,
    command: Command,
    at: u64,
    position: u64,
    length: u64,
)
    ensures
        ({
            let asked = spec_wanted(m, table, open, pid, fd, command, at, position, length);
            let file = open[table@[fd].file as int];
            let f = spec_decode(m.read(at as int, flock_size(command.wide)), command.wide);
            let there = table@.dom().contains(fd) && !file.path_only;
            let seen = m.can_read(at as int, flock_size(command.wide) as int);
            let range = spec_range(f, position, length);
            let kind = f.kind == 0 || f.kind == 1 || (f.kind == 2 && command.act != Act::Get);
            let may = command.act == Act::Get || (f.kind == 0 ==> file.readable) && (f.kind == 1
                ==> file.writable);
            let nobody = command.description ==> f.pid == 0;
            &&& asked is Ok <==> there && seen && range is Ok && kind && may && nobody
            &&& !there ==> asked == Err::<Wanted, Errno>(Errno::EBADF)
            &&& there && !seen ==> asked == Err::<Wanted, Errno>(Errno::EFAULT)
            &&& range matches Err(e) ==> there && seen ==> asked == Err::<Wanted, Errno>(e)
            &&& there && seen && range is Ok && !kind ==> asked == Err::<Wanted, Errno>(
                Errno::EINVAL,
            )
            &&& there && seen && range is Ok && kind && !may ==> asked == Err::<Wanted, Errno>(
                Errno::EBADF,
            )
            &&& there && seen && range is Ok && kind && may && !nobody ==> asked == Err::<
                Wanted,
                Errno,
            >(Errno::EINVAL)
        }),
{
}

/// Asking after a lock tells of one that is in the way, or that none is; one
/// that does not fit a narrow record is an error, and nothing is written.
pub proof fn law_a_lock_too_far_is_not_told(
    m: Memory,
    after: Memory,
    result: Result<Locked, Errno>,
    list: Seq<Record>,
    w: Wanted,
    command: Command,
    at: u64,
)
    requires
        got(m, after, result, list, w, command, at),
    ensures
        result is Err ==> after == m,
        result matches Err(e) ==> e == Errno::EOVERFLOW || e == Errno::EFAULT,
        result matches Ok(done) ==> done == Locked::Done,
        command.wide ==> result != Err::<Locked, Errno>(Errno::EOVERFLOW),
        first_in_the_way(
            list,
            w.key,
            w.owner,
            w.kind == 1,
            w.start as int,
            w.end as int,
            0,
        ) matches Some(r) ==> !command.wide && (r.start > 0x7FFF_FFFF || 0x7FFF_FFFF < r.end
            < 0x7FFF_FFFF_FFFF_FFFF) ==> result == Err::<Locked, Errno>(Errno::EOVERFLOW),
{
}

} // verus!
