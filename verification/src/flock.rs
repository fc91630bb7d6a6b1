//! `flock`: advisory locks on a whole file, held by an open file description.
//!
//! A lock belongs to the description, not to the process and not to the
//! descriptor number: descriptors made by `dup` or inherited across `fork`
//! share one lock, and it lasts until the last of them is closed. Two separate
//! opens of one file are two descriptions, and contend.
//!
//! Nothing tells the table when a description goes. Every look at it first
//! sweeps out the holders whose description is gone, so a lock ends when its
//! description does.
//!
//! Asking for a lock a description already holds in the other mode first gives
//! up the one it has and then asks, so a refused conversion leaves it with no
//! lock at all.

use vstd::prelude::*;

use crate::errno::Errno;
use crate::fd::{named, spec_file, FdTable, OpenFile};

verus! {

pub const LOCK_SH: u32 = 1;

pub const LOCK_EX: u32 = 2;

pub const LOCK_NB: u32 = 4;

pub const LOCK_UN: u32 = 8;

/// The file a lock is on: a filesystem, and the file's number within it.
#[derive(Clone, Copy, Debug, PartialEq, Eq, Structural)]
pub struct Key {
    /// The filesystem.
    pub filesystem: u64,
    /// The file's number.
    pub ino: u64,
}

/// The two modes a lock is held in.
#[derive(Clone, Copy, Debug, PartialEq, Eq, Structural)]
pub enum Mode {
    /// Any number of descriptions at once.
    Shared,
    /// One description, with no shared holder beside it.
    Exclusive,
}

/// One description's lock on one file.
#[derive(Clone, Copy, Debug, PartialEq, Eq, Structural)]
pub struct Holder {
    /// The file.
    pub key: Key,
    /// The description holding it.
    pub owner: usize,
    /// How it is held.
    pub mode: Mode,
}

/// A lock as its owner sees it.
pub ghost struct Lock {
    /// The file.
    pub key: Key,
    /// How it is held.
    pub mode: Mode,
}

/// What one look at the table found.
#[derive(Clone, Copy, Debug, PartialEq, Eq, Structural)]
pub enum Attempt {
    /// The description holds the lock in the mode it asked for.
    Taken,
    /// Another description holds a lock that conflicts with it.
    Contended,
}

/// Every lock held, on every file.
#[derive(Debug)]
pub struct Holders {
    /// The locks, in no particular order.
    pub list: Vec<Holder>,
}

/// The descriptions still open: a description is its place in the list of all
/// of them.
pub open spec fn live(alive: Seq<bool>, owner: usize) -> bool {
    owner < alive.len() && alive[owner as int]
}

/// Whether two locks on one file cannot be held at once.
pub open spec fn conflicts(a: Lock, b: Lock) -> bool {
    a.key == b.key && (a.mode == Mode::Exclusive || b.mode == Mode::Exclusive)
}

/// Whether no two descriptions hold locks that conflict.
pub open spec fn compatible(locks: Map<usize, Lock>) -> bool {
    forall|a: usize, b: usize|
        #![trigger locks.dom().contains(a), locks.dom().contains(b)]
        locks.dom().contains(a) && locks.dom().contains(b) && a != b ==> !conflicts(
            locks[a],
            locks[b],
        )
}

/// The locks whose description is still open.
pub open spec fn swept(locks: Map<usize, Lock>, alive: Seq<bool>) -> Map<usize, Lock> {
    locks.restrict(Set::new(|owner: usize| live(alive, owner)))
}

/// Whether anyone in `locks` stands in the way of `wanted`.
pub open spec fn contended(locks: Map<usize, Lock>, wanted: Lock) -> bool {
    exists|owner: usize| #[trigger] locks.dom().contains(owner) && conflicts(locks[owner], wanted)
}

impl Holders {
    /// Which description holds what.
    pub open spec fn view(self) -> Map<usize, Lock> {
        Map::new(
            |owner: usize| exists|i: int| 0 <= i < self.list@.len() && self.list@[i].owner == owner,
            |owner: usize|
                {
                    let i = choose|i: int|
                        0 <= i < self.list@.len() && self.list@[i].owner == owner;
                    Lock { key: self.list@[i].key, mode: self.list@[i].mode }
                },
        )
    }

    /// No description holds two locks.
    pub open spec fn wf(self) -> bool {
        forall|i: int, j: int|
            0 <= i < j < self.list@.len() ==> self.list@[i].owner != self.list@[j].owner
    }

    proof fn lemma_at(self, i: int)
        requires
            self.wf(),
            0 <= i < self.list@.len(),
        ensures
            self@.dom().contains(self.list@[i].owner),
            self@[self.list@[i].owner] == (Lock {
                key: self.list@[i].key,
                mode: self.list@[i].mode,
            }),
    {
        let owner = self.list@[i].owner;
        let j = choose|j: int| 0 <= j < self.list@.len() && self.list@[j].owner == owner;
        assert(0 <= j < self.list@.len() && self.list@[j].owner == owner);
        if i < j {
            assert(self.list@[i].owner != self.list@[j].owner);
        }
        if j < i {
            assert(self.list@[j].owner != self.list@[i].owner);
        }
    }

    /// No locks at all.
    pub fn new() -> (holders: Holders)
        ensures
            holders.wf(),
            holders@ == Map::<usize, Lock>::empty(),
    {
        let holders = Holders { list: Vec::new() };
        proof {
            assert(holders@ =~= Map::<usize, Lock>::empty());
        }
        holders
    }

    /// Forget the holders for which `keep` is false: the closed, and `gone`.
    fn retain(&mut self, alive: &Vec<bool>, gone: Option<usize>)
        requires
            old(self).wf(),
        ensures
            final(self).wf(),
            final(self)@ == match gone {
                Some(owner) => swept(old(self)@, alive@).remove(owner),
                None => swept(old(self)@, alive@),
            },
    {
        let ghost before = *self;
        let mut kept: Vec<Holder> = Vec::new();
        let mut i: usize = 0;
        while i < self.list.len()
            invariant
                *self == before,
                before.wf(),
                i <= self.list@.len(),
                forall|a: int, b: int|
                    0 <= a < b < kept@.len() ==> kept@[a].owner != kept@[b].owner,
                forall|a: int|
                    #![trigger kept@[a]]
                    0 <= a < kept@.len() ==> exists|j: int|
                        0 <= j < i && #[trigger] before.list@[j] == kept@[a],
                forall|a: int|
                    0 <= a < kept@.len() ==> live(alive@, #[trigger] kept@[a].owner) && gone != Some(
                        kept@[a].owner,
                    ),
                forall|j: int|
                    0 <= j < i && live(alive@, #[trigger] before.list@[j].owner) && gone != Some(
                        before.list@[j].owner,
                    ) ==> kept@.contains(before.list@[j]),
            decreases self.list@.len() - i,
        {
            let holder = self.list[i];
            let stays = holder.owner < alive.len() && alive[holder.owner] && match gone {
                Some(owner) => owner != holder.owner,
                None => true,
            };
            if stays {
                let ghost shorter = kept@;
                kept.push(holder);
                proof {
                    assert forall|a: int, b: int| 0 <= a < b < kept@.len() implies kept@[a].owner
                        != kept@[b].owner by {
                        if b == shorter.len() {
                            assert(kept@[a] == shorter[a]);
                            let j = choose|j: int|
                                0 <= j < i && #[trigger] before.list@[j] == shorter[a];
                            assert(before.list@[j].owner != before.list@[i as int].owner);
                        } else {
                            assert(kept@[a] == shorter[a] && kept@[b] == shorter[b]);
                        }
                    }
                    assert forall|a: int|
                        #![trigger kept@[a]]
                        0 <= a < kept@.len() implies exists|j: int|
                        0 <= j < i + 1 && #[trigger] before.list@[j] == kept@[a] by {
                        if a == shorter.len() {
                            assert(before.list@[i as int] == kept@[a]);
                        } else {
                            let j = choose|j: int|
                                0 <= j < i && #[trigger] before.list@[j] == shorter[a];
                            assert(before.list@[j] == kept@[a]);
                        }
                    }
                    assert forall|j: int|
                        0 <= j < i + 1 && live(alive@, #[trigger] before.list@[j].owner) && gone
                            != Some(before.list@[j].owner) implies kept@.contains(
                        before.list@[j],
                    ) by {
                        if j == i {
                            assert(kept@[shorter.len() as int] == before.list@[j]);
                        } else {
                            assert(shorter.contains(before.list@[j]));
                            let at = choose|at: int|
                                0 <= at < shorter.len() && shorter[at] == before.list@[j];
                            assert(kept@[at] == before.list@[j]);
                        }
                    }
                }
            }
            i = i + 1;
        }
        self.list = kept;
        proof {
            let after = *self;
            let want = match gone {
                Some(owner) => swept(before@, alive@).remove(owner),
                None => swept(before@, alive@),
            };
            assert forall|owner: usize| after@.dom().contains(owner) == want.dom().contains(owner)
                by {
                if after@.dom().contains(owner) {
                    let a = choose|a: int|
                        0 <= a < after.list@.len() && after.list@[a].owner == owner;
                    let j = choose|j: int|
                        0 <= j < before.list@.len() && #[trigger] before.list@[j] == kept@[a];
                    before.lemma_at(j);
                }
                if want.dom().contains(owner) {
                    let j = choose|j: int|
                        0 <= j < before.list@.len() && before.list@[j].owner == owner;
                    assert(live(alive@, before.list@[j].owner));
                    assert(kept@.contains(before.list@[j]));
                    let a = choose|a: int| 0 <= a < kept@.len() && kept@[a] == before.list@[j];
                    assert(after.list@[a].owner == owner);
                }
            }
            assert(after@.dom() =~= want.dom());
            assert forall|owner: usize| #[trigger] after@.dom().contains(owner) implies after@[owner]
                == want[owner] by {
                let a = choose|a: int| 0 <= a < after.list@.len() && after.list@[a].owner == owner;
                let j = choose|j: int|
                    0 <= j < before.list@.len() && #[trigger] before.list@[j] == kept@[a];
                before.lemma_at(j);
                after.lemma_at(a);
            }
            assert(after@ =~= want);
        }
    }

    /// Where `owner`'s lock is in the list.
    fn position(&self, owner: usize) -> (at: Option<usize>)
        requires
            self.wf(),
        ensures
            match at {
                Some(i) => i < self.list@.len() && self.list@[i as int].owner == owner
                    && self@.dom().contains(owner) && self@[owner] == (Lock {
                    key: self.list@[i as int].key,
                    mode: self.list@[i as int].mode,
                }),
                None => !self@.dom().contains(owner),
            },
    {
        let mut i: usize = 0;
        while i < self.list.len()
            invariant
                self.wf(),
                i <= self.list@.len(),
                forall|j: int| 0 <= j < i ==> self.list@[j].owner != owner,
            decreases self.list@.len() - i,
        {
            if self.list[i].owner == owner {
                proof {
                    self.lemma_at(i as int);
                }
                return Some(i);
            }
            i = i + 1;
        }
        None
    }

    /// Whether anyone stands in the way of a lock on `key` in `mode`.
    fn in_the_way(&self, key: Key, mode: Mode) -> (yes: bool)
        requires
            self.wf(),
        ensures
            yes == contended(self@, Lock { key, mode }),
    {
        let ghost wanted = Lock { key, mode };
        let mut i: usize = 0;
        while i < self.list.len()
            invariant
                self.wf(),
                i <= self.list@.len(),
                wanted == (Lock { key, mode }),
                forall|j: int|
                    0 <= j < i ==> !conflicts(
                        Lock { key: (#[trigger] self.list@[j]).key, mode: self.list@[j].mode },
                        wanted,
                    ),
            decreases self.list@.len() - i,
        {
            let holder = self.list[i];
            if holder.key == key && (mode == Mode::Exclusive || holder.mode == Mode::Exclusive) {
                proof {
                    self.lemma_at(i as int);
                    assert(self@.dom().contains(holder.owner) && conflicts(
                        self@[holder.owner],
                        wanted,
                    ));
                }
                return true;
            }
            i = i + 1;
        }
        proof {
            assert forall|owner: usize| #[trigger] self@.dom().contains(owner) implies !conflicts(
                self@[owner],
                wanted,
            ) by {
                let j = choose|j: int| 0 <= j < self.list@.len() && self.list@[j].owner == owner;
                self.lemma_at(j);
            }
        }
        false
    }
}

/// The table after `owner` asks for `wanted`.
pub open spec fn after_attempt(
    locks: Map<usize, Lock>,
    alive: Seq<bool>,
    owner: usize,
    wanted: Lock,
) -> Map<usize, Lock> {
    let left = swept(locks, alive);
    if left.dom().contains(owner) && left[owner].mode == wanted.mode {
        left
    } else if contended(left.remove(owner), wanted) {
        left.remove(owner)
    } else {
        left.insert(owner, wanted)
    }
}

/// What `owner` is told when it asks for `wanted`.
pub open spec fn attempt_found(
    locks: Map<usize, Lock>,
    alive: Seq<bool>,
    owner: usize,
    wanted: Lock,
) -> Attempt {
    let left = swept(locks, alive);
    if left.dom().contains(owner) && left[owner].mode == wanted.mode {
        Attempt::Taken
    } else if contended(left.remove(owner), wanted) {
        Attempt::Contended
    } else {
        Attempt::Taken
    }
}

/// Whether `owner` gives up a lock when it asks for `wanted`.
pub open spec fn gives_up(
    locks: Map<usize, Lock>,
    alive: Seq<bool>,
    owner: usize,
    wanted: Lock,
) -> bool {
    let left = swept(locks, alive);
    left.dom().contains(owner) && left[owner].mode != wanted.mode
}

/// One look at the table for `owner`, which wants `key` in `mode`.
///
/// Sweeps out the closed, gives up `owner`'s lock if it holds one in the other
/// mode, and takes `mode` if nothing else conflicts. Answers what it found,
/// and whether it gave a lock up.
pub fn attempt(
    holders: &mut Holders,
    alive: &Vec<bool>,
    key: Key,
    owner: usize,
    mode: Mode,
) -> (found: (Attempt, bool))
    requires
        old(holders).wf(),
    ensures
        final(holders).wf(),
        final(holders)@ == after_attempt(old(holders)@, alive@, owner, Lock { key, mode }),
        found.0 == attempt_found(old(holders)@, alive@, owner, Lock { key, mode }),
        found.1 == gives_up(old(holders)@, alive@, owner, Lock { key, mode }),
{
    holders.retain(alive, None);
    let ghost left = holders@;
    let mut converted: bool = false;
    if let Some(at) = holders.position(owner) {
        if holders.list[at].mode == mode {
            return (Attempt::Taken, false);
        }
        let ghost before = *holders;
        let _ = holders.list.swap_remove(at);
        converted = true;
        proof {
            let after = *holders;
            let last = before.list@.len() - 1;
            assert forall|i: int| 0 <= i < after.list@.len() implies #[trigger] after.list@[i]
                == before.list@[if i == at {
                last
            } else {
                i
            }] by {}
            assert forall|i: int, j: int| 0 <= i < j < after.list@.len() implies after.list@[i].owner
                != after.list@[j].owner by {
                let a = if i == at {
                    last
                } else {
                    i
                };
                let b = if j == at {
                    last
                } else {
                    j
                };
                if a < b {
                    assert(before.list@[a].owner != before.list@[b].owner);
                } else {
                    assert(before.list@[b].owner != before.list@[a].owner);
                }
            }
            assert(after.wf());
            let want = left.remove(owner);
            assert forall|o: usize| after@.dom().contains(o) == want.dom().contains(o) by {
                if after@.dom().contains(o) {
                    let i = choose|i: int| 0 <= i < after.list@.len() && after.list@[i].owner == o;
                    let a = if i == at {
                        last
                    } else {
                        i
                    };
                    before.lemma_at(a);
                    if o == owner {
                        if a < at {
                            assert(before.list@[a].owner != before.list@[at as int].owner);
                        } else {
                            assert(before.list@[at as int].owner != before.list@[a].owner);
                        }
                    }
                }
                if want.dom().contains(o) {
                    let j = choose|j: int|
                        0 <= j < before.list@.len() && before.list@[j].owner == o;
                    let i = if j == last {
                        at as int
                    } else {
                        j
                    };
                    assert(after.list@[i].owner == o);
                }
            }
            assert(after@.dom() =~= want.dom());
            assert forall|o: usize| #[trigger] after@.dom().contains(o) implies after@[o]
                == want[o] by {
                let i = choose|i: int| 0 <= i < after.list@.len() && after.list@[i].owner == o;
                after.lemma_at(i);
                before.lemma_at(
                    if i == at {
                        last
                    } else {
                        i
                    },
                );
            }
            assert(after@ =~= want);
        }
    } else {
        proof {
            assert(left.remove(owner) =~= left);
        }
    }
    if holders.in_the_way(key, mode) {
        return (Attempt::Contended, converted);
    }
    let ghost before = *holders;
    holders.list.push(Holder { key, owner, mode });
    proof {
        let after = *holders;
        let n = before.list@.len() as int;
        assert forall|i: int, j: int| 0 <= i < j < after.list@.len() implies after.list@[i].owner
            != after.list@[j].owner by {
            if j == n {
                before.lemma_at(i);
            }
        }
        assert(after.wf());
        let want = left.insert(owner, Lock { key, mode });
        assert forall|o: usize| after@.dom().contains(o) == want.dom().contains(o) by {
            if after@.dom().contains(o) {
                let i = choose|i: int| 0 <= i < after.list@.len() && after.list@[i].owner == o;
                if i < n {
                    before.lemma_at(i);
                }
            }
            if want.dom().contains(o) {
                if o == owner {
                    assert(after.list@[n].owner == o);
                } else {
                    assert(before@.dom().contains(o));
                    let i = choose|i: int|
                        0 <= i < before.list@.len() && before.list@[i].owner == o;
                    assert(after.list@[i].owner == o);
                }
            }
        }
        assert(after@.dom() =~= want.dom());
        assert forall|o: usize| #[trigger] after@.dom().contains(o) implies after@[o] == want[o] by {
            let i = choose|i: int| 0 <= i < after.list@.len() && after.list@[i].owner == o;
            after.lemma_at(i);
            if i < n {
                before.lemma_at(i);
            }
        }
        assert(after@ =~= want);
    }
    (Attempt::Taken, converted)
}

/// Give up whatever lock `owner` holds, sweeping the closed as it goes.
pub fn release(holders: &mut Holders, alive: &Vec<bool>, owner: usize)
    requires
        old(holders).wf(),
    ensures
        final(holders).wf(),
        final(holders)@ == swept(old(holders)@, alive@).remove(owner),
{
    holders.retain(alive, Some(owner));
}

/// The file an open description is on.
pub open spec fn spec_key_of(file: OpenFile) -> Key {
    Key { filesystem: file.filesystem, ino: file.ino }
}

/// The file an open description is on.
pub fn key_of(file: &OpenFile) -> (key: Key)
    ensures
        key == spec_key_of(*file),
{
    Key { filesystem: file.filesystem, ino: file.ino }
}

/// What a call comes to.
#[derive(Clone, Copy, Debug, PartialEq, Eq)]
pub enum Step {
    /// Return this to the program.
    Answer(Result<usize, Errno>),
    /// Wait until a lock is released or a signal comes, then [`retry`].
    Wait {
        /// The description that waits.
        owner: usize,
        /// For which file.
        key: Key,
        /// In which mode.
        mode: Mode,
    },
}

/// What `operation` asks for, without the flag that says not to wait: a mode,
/// or none for giving a lock up.
pub open spec fn spec_mode(operation: u32) -> Result<Option<Mode>, Errno> {
    let what = operation & !LOCK_NB;
    if what == LOCK_SH {
        Ok(Some(Mode::Shared))
    } else if what == LOCK_EX {
        Ok(Some(Mode::Exclusive))
    } else if what == LOCK_UN {
        Ok(None)
    } else {
        Err(Errno::EINVAL)
    }
}

fn mode_of(operation: u32) -> (mode: Result<Option<Mode>, Errno>)
    ensures
        mode == spec_mode(operation),
{
    let what: u32 = operation & !LOCK_NB;
    if what == LOCK_SH {
        Ok(Some(Mode::Shared))
    } else if what == LOCK_EX {
        Ok(Some(Mode::Exclusive))
    } else if what == LOCK_UN {
        Ok(None)
    } else {
        Err(Errno::EINVAL)
    }
}

/// What `flock(fd, operation)` leaves of the locks, what is to be done, and
/// whether the waiters are to be woken.
pub open spec fn spec_flock(
    locks: Map<usize, Lock>,
    alive: Seq<bool>,
    table: FdTable,
    open: Seq<OpenFile>,
    fd: int,
    operation: u32,
) -> (Map<usize, Lock>, Step, bool) {
    match spec_file(table, open, fd) {
        Err(e) => (locks, Step::Answer(Err(e)), false),
        Ok(file) => if file.path_only {
            (locks, Step::Answer(Err(Errno::EBADF)), false)
        } else {
            let owner = table@[fd].file;
            match spec_mode(operation) {
                Err(e) => (locks, Step::Answer(Err(e)), false),
                Ok(None) => (swept(locks, alive).remove(owner), Step::Answer(Ok(0)), true),
                Ok(Some(mode)) => {
                    let wanted = Lock { key: spec_key_of(file), mode };
                    let step = if attempt_found(locks, alive, owner, wanted) == Attempt::Taken {
                        Step::Answer(Ok(0))
                    } else if operation & LOCK_NB != 0 {
                        Step::Answer(Err(Errno::EAGAIN))
                    } else {
                        Step::Wait { owner, key: wanted.key, mode }
                    };
                    (
                        after_attempt(locks, alive, owner, wanted),
                        step,
                        gives_up(locks, alive, owner, wanted),
                    )
                },
            }
        },
    }
}

/// `flock(fd, operation)`: what to do, and whether to wake the waiters first.
///
/// `EBADF` for a descriptor that names nothing, or only a name; `EINVAL` for
/// an operation that is not `LOCK_SH`, `LOCK_EX` or `LOCK_UN`, with or without
/// `LOCK_NB`; `EAGAIN` when `LOCK_NB` meets a conflicting lock.
pub fn sys_flock(
    holders: &mut Holders,
    alive: &Vec<bool>,
    table: &FdTable,
    open: &Vec<OpenFile>,
    fd: i32,
    operation: u32,
) -> (out: (Step, bool))
    requires
        old(holders).wf(),
        named(*table, open@.len()),
    ensures
        final(holders).wf(),
        (final(holders)@, out.0, out.1) == spec_flock(
            old(holders)@,
            alive@,
            *table,
            open@,
            fd as int,
            operation,
        ),
{
    let owner: usize = match table.get(fd) {
        Ok(owner) => owner,
        Err(e) => return (Step::Answer(Err(e)), false),
    };
    let file = open[owner];
    if file.path_only {
        return (Step::Answer(Err(Errno::EBADF)), false);
    }
    let mode = match mode_of(operation) {
        Err(e) => return (Step::Answer(Err(e)), false),
        Ok(None) => {
            release(holders, alive, owner);
            return (Step::Answer(Ok(0)), true);
        },
        Ok(Some(mode)) => mode,
    };
    let key = key_of(&file);
    let (found, converted) = attempt(holders, alive, key, owner, mode);
    if found == Attempt::Taken {
        return (Step::Answer(Ok(0)), converted);
    }
    if operation & LOCK_NB != 0 {
        return (Step::Answer(Err(Errno::EAGAIN)), converted);
    }
    (Step::Wait { owner, key, mode }, converted)
}

/// One look of a waiting call: the lock if it can be had, `EINTR` if a signal
/// is pending and it cannot, and otherwise on with the wait. Answers too
/// whether a lock was given up, which the waiters are then woken for.
pub fn retry(
    holders: &mut Holders,
    alive: &Vec<bool>,
    owner: usize,
    key: Key,
    mode: Mode,
    signal_pending: bool,
) -> (out: (Step, bool))
    requires
        old(holders).wf(),
    ensures
        final(holders).wf(),
        ({
            let wanted = Lock { key, mode };
            &&& final(holders)@ == after_attempt(old(holders)@, alive@, owner, wanted)
            &&& out.1 == gives_up(old(holders)@, alive@, owner, wanted)
            &&& out.0 == if attempt_found(old(holders)@, alive@, owner, wanted) == Attempt::Taken {
                Step::Answer(Ok(0))
            } else if signal_pending {
                Step::Answer(Err(Errno::EINTR))
            } else {
                Step::Wait { owner, key, mode }
            }
        }),
{
    let (found, converted) = attempt(holders, alive, key, owner, mode);
    if found == Attempt::Taken {
        (Step::Answer(Ok(0)), converted)
    } else if signal_pending {
        (Step::Answer(Err(Errno::EINTR)), converted)
    } else {
        (Step::Wait { owner, key, mode }, converted)
    }
}

// ---------------------------------------------------------------------------
// What holds of the table
// ---------------------------------------------------------------------------

/// Locks that conflict are never held at once: every request, granted or
/// refused, and every release keeps that so.
pub proof fn law_conflicting_locks_are_never_held_together(
    locks: Map<usize, Lock>,
    alive: Seq<bool>,
    owner: usize,
    wanted: Lock,
)
    requires
        compatible(locks),
    ensures
        compatible(after_attempt(locks, alive, owner, wanted)),
        compatible(swept(locks, alive).remove(owner)),
{
    let left = swept(locks, alive);
    assert forall|a: usize, b: usize|
        #![trigger left.dom().contains(a), left.dom().contains(b)]
        left.dom().contains(a) && left.dom().contains(b) && a != b implies !conflicts(
        left[a],
        left[b],
    ) by {
        assert(locks.dom().contains(a) && locks.dom().contains(b));
    }
    let gone = left.remove(owner);
    assert forall|a: usize, b: usize|
        #![trigger gone.dom().contains(a), gone.dom().contains(b)]
        gone.dom().contains(a) && gone.dom().contains(b) && a != b implies !conflicts(
        gone[a],
        gone[b],
    ) by {
        assert(left.dom().contains(a) && left.dom().contains(b));
    }
    if !contended(gone, wanted) {
        let more = left.insert(owner, wanted);
        assert forall|a: usize, b: usize|
            #![trigger more.dom().contains(a), more.dom().contains(b)]
            more.dom().contains(a) && more.dom().contains(b) && a != b implies !conflicts(
            more[a],
            more[b],
        ) by {
            if a == owner {
                assert(gone.dom().contains(b));
            } else if b == owner {
                assert(gone.dom().contains(a));
            } else {
                assert(left.dom().contains(a) && left.dom().contains(b));
            }
        }
    }
}

/// A granted lock is held, in the mode asked for; a refused one leaves its
/// description with no lock at all, the one it had included.
pub proof fn law_granted_is_held_and_refused_is_not(
    locks: Map<usize, Lock>,
    alive: Seq<bool>,
    owner: usize,
    wanted: Lock,
)
    ensures
        ({
            let after = after_attempt(locks, alive, owner, wanted);
            match attempt_found(locks, alive, owner, wanted) {
                Attempt::Taken => after.dom().contains(owner) && after[owner].mode == wanted.mode,
                Attempt::Contended => !after.dom().contains(owner),
            }
        }),
{
}

/// A lock ends when its description does: no request and no release leaves a
/// closed description holding one, its own request apart.
pub proof fn law_a_closed_description_holds_nothing(
    locks: Map<usize, Lock>,
    alive: Seq<bool>,
    owner: usize,
    wanted: Lock,
    closed: usize,
)
    requires
        !live(alive, closed),
        closed != owner,
    ensures
        !after_attempt(locks, alive, owner, wanted).dom().contains(closed),
        !swept(locks, alive).remove(owner).dom().contains(closed),
{
}

/// Nobody else's lock is touched: another open description holds afterwards
/// exactly what it held before.
pub proof fn law_other_locks_are_untouched(
    locks: Map<usize, Lock>,
    alive: Seq<bool>,
    owner: usize,
    wanted: Lock,
    other: usize,
)
    requires
        live(alive, other),
        other != owner,
    ensures
        ({
            let after = after_attempt(locks, alive, owner, wanted);
            &&& after.dom().contains(other) == locks.dom().contains(other)
            &&& after.dom().contains(other) ==> after[other] == locks[other]
        }),
{
}

/// A lock belongs to the description: two descriptors that share one may each
/// take, convert or give up its lock, and neither stands in the other's way.
pub proof fn law_duplicates_share_one_lock(
    locks: Map<usize, Lock>,
    alive: Seq<bool>,
    table: FdTable,
    open: Seq<OpenFile>,
    fd: int,
    duplicate: int,
    operation: u32,
)
    requires
        table@.dom().contains(fd),
        table@.dom().contains(duplicate),
        table@[fd].file == table@[duplicate].file,
    ensures
        spec_flock(locks, alive, table, open, fd, operation) == spec_flock(
            locks,
            alive,
            table,
            open,
            duplicate,
            operation,
        ),
{
}

/// Two descriptions of one file contend: while another holds a lock that
/// conflicts, a request is never granted.
pub proof fn law_descriptions_of_one_file_contend(
    locks: Map<usize, Lock>,
    alive: Seq<bool>,
    owner: usize,
    wanted: Lock,
    other: usize,
)
    requires
        compatible(locks),
        locks.dom().contains(owner) ==> locks[owner].key == wanted.key,
        other != owner,
        live(alive, other),
        locks.dom().contains(other),
        conflicts(locks[other], wanted),
    ensures
        attempt_found(locks, alive, owner, wanted) == Attempt::Contended,
{
    let left = swept(locks, alive).remove(owner);
    assert(left.dom().contains(other));
    assert(conflicts(left[other], wanted));
    if locks.dom().contains(owner) {
        assert(!conflicts(locks[owner], locks[other]));
    }
}

/// An operation is a lock that others may share, one they may not, or none,
/// each with or without waiting; anything else is no operation.
pub proof fn law_an_operation_is_its_number(operation: u32)
    ensures
        spec_mode(operation) == Ok::<Option<Mode>, Errno>(Some(Mode::Shared)) <==> operation == 1
            || operation == 5,
        spec_mode(operation) == Ok::<Option<Mode>, Errno>(Some(Mode::Exclusive)) <==> operation == 2
            || operation == 6,
        spec_mode(operation) == Ok::<Option<Mode>, Errno>(None) <==> operation == 8 || operation
            == 12,
        spec_mode(operation) matches Err(e) ==> e == Errno::EINVAL,
{
    assert({
        &&& operation & !4u32 == 1 <==> operation == 1 || operation == 5
        &&& operation & !4u32 == 2 <==> operation == 2 || operation == 6
        &&& operation & !4u32 == 8 <==> operation == 8 || operation == 12
    }) by (bit_vector);
}

/// Two locks on one file go together only if both are shared; on two files they
/// always do.
pub proof fn law_only_shared_locks_go_together(a: Lock, b: Lock)
    ensures
        conflicts(a, b) <==> a.key.filesystem == b.key.filesystem && a.key.ino == b.key.ino && !(
        a.mode == Mode::Shared && b.mode == Mode::Shared),
{
}

/// What `flock` does it does for the description its descriptor names, on that
/// description's file: a lock that can be had is had, one that cannot is waited
/// for unless that was not asked, and giving up leaves none.
pub proof fn law_a_lock_is_the_descriptions(
    locks: Map<usize, Lock>,
    alive: Seq<bool>,
    table: FdTable,
    open: Seq<OpenFile>,
    fd: int,
    operation: u32,
)
    requires
        table@.dom().contains(fd),
        !open[table@[fd].file as int].path_only,
        live(alive, table@[fd].file),
    ensures
        ({
            let (after, step, _) = spec_flock(locks, alive, table, open, fd, operation);
            let owner = table@[fd].file;
            let file = open[owner as int];
            &&& operation == 8 || operation == 12 ==> step == Step::Answer(Ok(0))
                && !after.dom().contains(owner)
            &&& (operation == 1 || operation == 5) && step == Step::Answer(Ok(0))
                && !swept(locks, alive).dom().contains(owner) ==> after.dom().contains(owner)
                && after[owner].mode == Mode::Shared && after[owner].key.ino == file.ino
                && after[owner].key.filesystem == file.filesystem
            &&& (operation == 2 || operation == 6) && step == Step::Answer(Ok(0))
                && !swept(locks, alive).dom().contains(owner) ==> after.dom().contains(owner)
                && after[owner].mode == Mode::Exclusive && after[owner].key.ino == file.ino
                && after[owner].key.filesystem == file.filesystem
            &&& step is Wait ==> operation == 1 || operation == 2
            &&& step matches Step::Wait { owner: waiting, key, mode } ==> waiting == owner
                && key.ino == file.ino && key.filesystem == file.filesystem && (mode
                == Mode::Exclusive <==> operation == 2)
            &&& step == Step::Answer(Err(Errno::EAGAIN)) ==> operation == 5 || operation == 6
            &&& swept(locks, alive).remove(owner).dom() =~= Set::empty() && (operation == 1
                || operation == 2 || operation == 5 || operation == 6) ==> step == Step::Answer(
                Ok(0),
            )
        }),
{
    law_an_operation_is_its_number(operation);
    assert(operation == 5 || operation == 6 || operation == 12 ==> operation & 4 != 0)
        by (bit_vector);
    assert(operation == 1 || operation == 2 || operation == 8 ==> operation & 4 == 0)
        by (bit_vector);
}

/// What a call that locks answers: zero once it holds the lock; and where
/// another stands in its way, that it is so if it would not wait, and else to
/// wait for just that lock. Others are told of a lock given up only when one
/// was.
pub proof fn law_a_lock_is_granted_refused_or_waited_for(
    locks: Map<usize, Lock>,
    alive: Seq<bool>,
    table: FdTable,
    open: Seq<OpenFile>,
    fd: int,
    operation: u32,
)
    requires
        table@.dom().contains(fd),
        !open[table@[fd].file as int].path_only,
    ensures
        ({
            let (after, step, told) = spec_flock(locks, alive, table, open, fd, operation);
            let owner = table@[fd].file;
            let exclusive = operation & !4u32 == 2;
            let shared = operation & !4u32 == 1;
            let released = operation & !4u32 == 8;
            &&& !exclusive && !shared && !released ==> step == Step::Answer(
                Err(Errno::EINVAL),
            ) && after == locks && !told
            &&& released ==> step == Step::Answer(Ok(0)) && !after.dom().contains(owner) && told
            &&& step == Step::Answer(Ok(0)) && !released ==> after.dom().contains(owner)
                && after[owner].mode == (if exclusive {
                Mode::Exclusive
            } else {
                Mode::Shared
            })
            &&& exclusive || shared ==> {
                &&& step == Step::Answer(Ok(0)) || step == Step::Answer(Err(Errno::EAGAIN))
                    || step is Wait
                &&& step == Step::Answer(Err(Errno::EAGAIN)) ==> operation & 4 != 0
                &&& step matches Step::Wait { owner: who, key, mode } ==> operation & 4 == 0 && who
                    == owner && key == spec_key_of(open[owner as int]) && (mode == Mode::Exclusive
                    <==> exclusive)
                &&& told ==> locks.dom().contains(owner)
            }
        }),
{
    law_an_operation_is_its_number(operation);
}

/// A call on no description at all, or on one that is only a place, changes no
/// lock.
pub proof fn law_only_an_open_file_is_locked(
    locks: Map<usize, Lock>,
    alive: Seq<bool>,
    table: FdTable,
    open: Seq<OpenFile>,
    fd: int,
    operation: u32,
)
    requires
        !table@.dom().contains(fd) || open[table@[fd].file as int].path_only,
    ensures
        spec_flock(locks, alive, table, open, fd, operation) == (
            locks,
            Step::Answer(Err(Errno::EBADF)),
            false,
        ),
{
}

} // verus!
