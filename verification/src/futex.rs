//! `futex`: sleeping on a word of user memory, and being woken for it.
//!
//! One table holds every waiter, oldest first. A private key is the address
//! space and the address; a shared key is the object behind a shared mapping
//! and the offset in it, the same word however many spaces map it.
//!
//! A wait is two steps. [`wait`] puts the caller on the table if the word
//! still holds the value it saw; the caller then blocks, and [`woke`] says
//! what the end of that sleep means.

use vstd::prelude::*;

use crate::abi::{low_u32, signed_32, spec_low_u32, spec_signed_32, Arch, TimeWidth};
use crate::errno::Errno;
use crate::time;
use crate::uaccess::AddressSpace;

verus! {

/// Sleep while the word holds a value.
pub const FUTEX_WAIT: u32 = 0;

/// Rouse waiters.
pub const FUTEX_WAKE: u32 = 1;

/// Rouse some waiters and move others to another word.
pub const FUTEX_REQUEUE: u32 = 3;

/// A requeue that first compares the word.
pub const FUTEX_CMP_REQUEUE: u32 = 4;

/// A wait that only some wakes end, with an absolute deadline.
pub const FUTEX_WAIT_BITSET: u32 = 9;

/// A wake that only some waiters answer to.
pub const FUTEX_WAKE_BITSET: u32 = 10;

/// The word belongs to one address space.
pub const FUTEX_PRIVATE_FLAG: u32 = 128;

/// The deadline is on the realtime clock.
pub const FUTEX_CLOCK_REALTIME: u32 = 256;

/// A bitset that matches every waiter.
pub const FUTEX_BITSET_MATCH_ANY: u32 = 0xFFFF_FFFF;

/// Which word a waiter sleeps on.
#[derive(Clone, Copy, Debug, PartialEq, Eq, Structural)]
pub enum Key {
    /// A word only one address space can name.
    Private {
        /// The address space.
        space: u64,
        /// The word's user address.
        address: u64,
    },
    /// A word in an object that shared regions map.
    Shared {
        /// The object.
        object: u64,
        /// The word's byte offset in the object.
        offset: u64,
    },
}

impl Key {
    /// The key for `address` in `space`: shared if `shared` asks for one and
    /// shared memory holds the word, private otherwise.
    pub open spec fn spec_new(space: AddressSpace, address: u64, shared: bool) -> Key {
        match space.spec_shared_object_at(address as int) {
            Some(backing) if shared => Key::Shared {
                object: backing.object,
                offset: backing.offset,
            },
            _ => Key::Private { space: space.id, address },
        }
    }

    /// The key for `address` in `space`.
    pub fn new(space: &AddressSpace, address: u64, shared: bool) -> (key: Key)
        requires
            space.wf(),
        ensures
            key == Key::spec_new(*space, address, shared),
    {
        if shared {
            if let Some(backing) = space.shared_object_at(address) {
                return Key::Shared { object: backing.object, offset: backing.offset };
            }
        }
        Key::Private { space: space.id, address }
    }
}

/// One task asleep in a wait, as its wakers see it.
#[derive(Clone, Copy, Debug, PartialEq, Eq, Structural)]
pub struct Sleeper {
    /// The wait, told from every other wait there is.
    pub id: u64,
    /// The task to make runnable; none before the scheduler starts.
    pub task: Option<u64>,
    /// Set by the wake that took it off the table.
    pub woken: bool,
}

impl Sleeper {
    /// The sleeper once a wake has reached it.
    pub open spec fn roused(self) -> Sleeper {
        Sleeper { id: self.id, task: self.task, woken: true }
    }

    /// Mark it woken, and answer the task to make runnable.
    pub fn rouse(&mut self) -> (task: Option<u64>)
        ensures
            *final(self) == old(self).roused(),
            task == old(self).task,
    {
        self.woken = true;
        self.task
    }
}

/// A waiter on the table.
#[derive(Clone, Copy, Debug, PartialEq, Eq, Structural)]
pub struct Entry {
    /// What it waits on; changed in place by a requeue.
    pub key: Key,
    /// Which wakes it answers to.
    pub bitset: u32,
    /// Who it is.
    pub sleeper: Sleeper,
}

/// Every waiter, oldest first.
#[derive(Debug)]
pub struct Table {
    /// The waiters.
    pub entries: Vec<Entry>,
}

/// Which entries a wake or a requeue is for: those on one of `keys`, and for
/// a wake, whose bitset shares a bit with `bitset`.
pub open spec fn answers_to(entry: Entry, keys: Seq<Key>, bitset: Option<u32>) -> bool {
    keys.contains(entry.key) && match bitset {
        Some(bits) => entry.bitset & bits != 0,
        None => true,
    }
}

/// The first `limit` entries of `entries` that answer, in table order.
pub open spec fn first_matching(
    entries: Seq<Entry>,
    keys: Seq<Key>,
    bitset: Option<u32>,
    limit: nat,
) -> Seq<Entry>
    decreases entries.len(),
{
    if entries.len() == 0 || limit == 0 {
        Seq::empty()
    } else if answers_to(entries[0], keys, bitset) {
        seq![entries[0]] + first_matching(entries.skip(1), keys, bitset, (limit - 1) as nat)
    } else {
        first_matching(entries.skip(1), keys, bitset, limit)
    }
}

/// What is left of `entries` once the first `limit` that answer are gone, in
/// the order they had.
pub open spec fn without_matching(
    entries: Seq<Entry>,
    keys: Seq<Key>,
    bitset: Option<u32>,
    limit: nat,
) -> Seq<Entry>
    decreases entries.len(),
{
    if entries.len() == 0 || limit == 0 {
        entries
    } else if answers_to(entries[0], keys, bitset) {
        without_matching(entries.skip(1), keys, bitset, (limit - 1) as nat)
    } else {
        seq![entries[0]] + without_matching(entries.skip(1), keys, bitset, limit)
    }
}

/// The sleepers of `entries`, roused.
pub open spec fn all_roused(entries: Seq<Entry>) -> Seq<Sleeper> {
    entries.map_values(|e: Entry| e.sleeper.roused())
}

/// `entries`, waiting on `key` from now on.
pub open spec fn moved_to(entries: Seq<Entry>, key: Key) -> Seq<Entry> {
    entries.map_values(
        |e: Entry| Entry { key, bitset: e.bitset, sleeper: e.sleeper },
    )
}

/// How many waiters a wake of `count` may take: a count of zero or less still
/// takes one.
pub open spec fn wake_limit(count: int) -> nat {
    if count < 1 {
        1
    } else {
        count as nat
    }
}

/// No more are taken than were asked for, or than there are.
proof fn lemma_first_matching_len(
    entries: Seq<Entry>,
    keys: Seq<Key>,
    bitset: Option<u32>,
    limit: nat,
)
    ensures
        first_matching(entries, keys, bitset, limit).len() <= limit,
        first_matching(entries, keys, bitset, limit).len() <= entries.len(),
    decreases entries.len(),
{
    if entries.len() > 0 && limit > 0 {
        if answers_to(entries[0], keys, bitset) {
            lemma_first_matching_len(entries.skip(1), keys, bitset, (limit - 1) as nat);
        } else {
            lemma_first_matching_len(entries.skip(1), keys, bitset, limit);
        }
    }
}

fn contains_key(keys: &[Key], key: Key) -> (yes: bool)
    ensures
        yes == keys@.contains(key),
{
    let mut i: usize = 0;
    while i < keys.len()
        invariant
            i <= keys@.len(),
            forall|j: int| 0 <= j < i ==> keys@[j] != key,
        decreases keys@.len() - i,
    {
        if keys[i] == key {
            assert(keys@[i as int] == key);
            return true;
        }
        i = i + 1;
    }
    false
}

impl Table {
    /// The waiters, oldest first.
    pub open spec fn view(self) -> Seq<Entry> {
        self.entries@
    }

    /// A table with nobody on it.
    pub fn new() -> (table: Table)
        ensures
            table@ == Seq::<Entry>::empty(),
    {
        Table { entries: Vec::new() }
    }

    /// Take up to `limit` waiters that answer off the table, oldest first.
    fn take(&mut self, keys: &[Key], limit: usize, bitset: Option<u32>) -> (taken: Vec<Entry>)
        ensures
            taken@ == first_matching(old(self)@, keys@, bitset, limit as nat),
            final(self)@ == without_matching(old(self)@, keys@, bitset, limit as nat),
    {
        let mut taken: Vec<Entry> = Vec::new();
        let mut index: usize = 0;
        let ghost start = self@;
        proof {
            assert(start.skip(0) =~= start);
            assert(start.take(0) =~= Seq::<Entry>::empty());
            assert(Seq::<Entry>::empty() + without_matching(start, keys@, bitset, limit as nat)
                =~= without_matching(start, keys@, bitset, limit as nat));
            assert(Seq::<Entry>::empty() + first_matching(start, keys@, bitset, limit as nat)
                =~= first_matching(start, keys@, bitset, limit as nat));
        }
        while taken.len() < limit && index < self.entries.len()
            invariant
                index <= self@.len(),
                taken@.len() <= limit,
                first_matching(start, keys@, bitset, limit as nat) == taken@ + first_matching(
                    self@.skip(index as int),
                    keys@,
                    bitset,
                    (limit - taken@.len()) as nat,
                ),
                without_matching(start, keys@, bitset, limit as nat) == self@.take(index as int)
                    + without_matching(
                    self@.skip(index as int),
                    keys@,
                    bitset,
                    (limit - taken@.len()) as nat,
                ),
            decreases self@.len() - index,
        {
            let entry = self.entries[index];
            let ghost before = self@;
            let ghost left = (limit - taken@.len()) as nat;
            let ghost rest = before.skip(index as int);
            proof {
                assert(rest[0] == entry);
                assert(rest.skip(1) =~= before.skip(index + 1));
            }
            let shares_a_bit = match bitset {
                Some(bits) => entry.bitset & bits != 0,
                None => true,
            };
            if !contains_key(keys, entry.key) || !shares_a_bit {
                proof {
                    let tail = without_matching(rest.skip(1), keys@, bitset, left);
                    assert(before.take(index as int) + (seq![entry] + tail) =~= before.take(
                        index + 1,
                    ) + tail);
                }
                index = index + 1;
            } else {
                let entry = self.entries.remove(index);
                proof {
                    assert(self@.take(index as int) =~= before.take(index as int));
                    assert(self@.skip(index as int) =~= rest.skip(1));
                    let tail = first_matching(rest.skip(1), keys@, bitset, (left - 1) as nat);
                    assert(taken@ + (seq![entry] + tail) =~= taken@.push(entry) + tail);
                }
                taken.push(entry);
            }
        }
        proof {
            let rest = self@.skip(index as int);
            let left = (limit - taken@.len()) as nat;
            assert(rest.len() == 0 || left == 0);
            assert(taken@ + Seq::<Entry>::empty() =~= taken@);
            assert(self@.take(index as int) + rest =~= self@);
        }
        taken
    }
}

/// Rouse the sleeper of each of `taken`.
fn rouse_each(taken: &Vec<Entry>) -> (roused: Vec<Sleeper>)
    ensures
        roused@ == all_roused(taken@),
{
    let mut roused: Vec<Sleeper> = Vec::new();
    let mut i: usize = 0;
    while i < taken.len()
        invariant
            i <= taken@.len(),
            roused@ == all_roused(taken@.take(i as int)),
        decreases taken@.len() - i,
    {
        let mut sleeper = taken[i].sleeper;
        let _ = sleeper.rouse();
        roused.push(sleeper);
        i = i + 1;
        proof {
            assert(roused@ =~= all_roused(taken@.take(i as int)));
        }
    }
    proof {
        assert(taken@.take(taken@.len() as int) =~= taken@);
    }
    roused
}

/// Take up to `count` waiters on any of `keys` whose bitset shares a bit with
/// `bitset` off the table, oldest first, and rouse each. The roused are
/// answered, for the scheduler to make runnable.
///
/// A `count` of zero or less still takes one: a waiter is counted before the
/// count is compared against the limit.
pub fn rouse(table: &mut Table, keys: &[Key], count: i32, bitset: u32) -> (roused: Vec<Sleeper>)
    ensures
        roused@ == all_roused(
            first_matching(old(table)@, keys@, Some(bitset), wake_limit(count as int)),
        ),
        final(table)@ == without_matching(
            old(table)@,
            keys@,
            Some(bitset),
            wake_limit(count as int),
        ),
{
    let limit: usize = if count < 1 {
        1
    } else {
        count as usize
    };
    let taken = table.take(keys, limit, Some(bitset));
    rouse_each(&taken)
}

/// What the alignment rule says of a word's address.
pub open spec fn aligned_word(address: u64) -> bool {
    address % 4 == 0
}

/// The key for a futex word, which must be aligned as a 32-bit word is.
pub fn key(space: &AddressSpace, address: u64, shared: bool) -> (key: Result<Key, Errno>)
    requires
        space.wf(),
    ensures
        key == if aligned_word(address) {
            Ok(Key::spec_new(*space, address, shared))
        } else {
            Err(Errno::EINVAL)
        },
{
    if address % 4 != 0 {
        return Err(Errno::EINVAL);
    }
    Ok(Key::new(space, address, shared))
}

/// The futex word at `address`.
pub open spec fn spec_word(space: AddressSpace, address: u64) -> Result<u32, Errno> {
    if space@.can_read(address as int, 4) {
        Ok(space@.number(address as int, 4) as u32)
    } else {
        Err(Errno::EFAULT)
    }
}

/// Read the futex word at `address`.
pub fn read_word(space: &AddressSpace, address: u64) -> (word: Result<u32, Errno>)
    requires
        space.wf(),
    ensures
        word == spec_word(*space, address),
{
    space.get_u32(address)
}

/// Whether a wait on `address` expecting `expected` may sleep, and what
/// refuses it otherwise.
pub open spec fn may_wait(space: AddressSpace, address: u64, expected: u32) -> Result<(), Errno> {
    if !aligned_word(address) {
        Err(Errno::EINVAL)
    } else {
        match spec_word(space, address) {
            Err(e) => Err(e),
            Ok(word) => if word != expected {
                Err(Errno::EAGAIN)
            } else {
                Ok(())
            },
        }
    }
}

/// Put `sleeper` on the table, waiting on `address`, if the word there holds
/// `expected`. The caller then blocks until [`sleep`] says it is over.
///
/// `EINVAL` for a misaligned word, `EFAULT` for one that cannot be read,
/// `EAGAIN` for one that no longer holds `expected`; nothing is put on the
/// table then.
pub fn wait(
    table: &mut Table,
    space: &AddressSpace,
    address: u64,
    shared: bool,
    expected: u32,
    bitset: u32,
    sleeper: Sleeper,
) -> (outcome: Result<(), Errno>)
    requires
        space.wf(),
    ensures
        outcome == may_wait(*space, address, expected),
        final(table)@ == if outcome is Ok {
            old(table)@.push(
                Entry { key: Key::spec_new(*space, address, shared), bitset, sleeper },
            )
        } else {
            old(table)@
        },
{
    let key = key(space, address, shared)?;
    let word: u32 = read_word(space, address)?;
    if word != expected {
        return Err(Errno::EAGAIN);
    }
    table.entries.push(Entry { key, bitset, sleeper });
    Ok(())
}

/// Whether a sleeper's sleep is over: woken, a signal to take, or out of time.
pub fn sleep(sleeper: &Sleeper, interrupted: bool, now: u64, deadline: u64) -> (over: bool)
    ensures
        over == (sleeper.woken || interrupted || now >= deadline),
{
    sleeper.woken || interrupted || now >= deadline
}

/// What a waiter does once its sleep ended.
#[derive(Clone, Copy, Debug, PartialEq, Eq)]
pub enum Ended {
    /// Return this to the program.
    Answer(Result<usize, Errno>),
    /// Read the word afresh and wait again: what ended the sleep is gone.
    Again,
}

/// `entries` without the first wait numbered `id`.
pub open spec fn without_sleeper(entries: Seq<Entry>, id: u64) -> Seq<Entry>
    decreases entries.len(),
{
    if entries.len() == 0 {
        entries
    } else if entries[0].sleeper.id == id {
        entries.skip(1)
    } else {
        seq![entries[0]] + without_sleeper(entries.skip(1), id)
    }
}

/// What the end of a sleep means, in the order that decides it: a wake wins
/// over a signal, which wins over the deadline.
pub open spec fn spec_woke(woken: bool, interrupted: bool, now: u64, deadline: u64) -> Ended {
    if woken {
        Ended::Answer(Ok(0))
    } else if interrupted {
        Ended::Answer(Err(Errno::ERESTARTSYS))
    } else if now >= deadline {
        Ended::Answer(Err(Errno::ETIMEDOUT))
    } else {
        Ended::Again
    }
}

/// Take `sleeper` off the table however its sleep ended, and say what the end
/// means.
///
/// Woken wins over the other two: a wake that took this waiter off the table
/// counted it, and reporting a timeout would lose that wake.
pub fn woke(
    table: &mut Table,
    sleeper: &Sleeper,
    interrupted: bool,
    now: u64,
    deadline: u64,
) -> (ended: Ended)
    ensures
        final(table)@ == without_sleeper(old(table)@, sleeper.id),
        ended == spec_woke(sleeper.woken, interrupted, now, deadline),
{
    let mut index: usize = 0;
    let ghost start = table@;
    proof {
        assert(start.skip(0) =~= start);
        assert(start.take(0) + without_sleeper(start, sleeper.id) =~= without_sleeper(
            start,
            sleeper.id,
        ));
    }
    let mut found: bool = false;
    while !found && index < table.entries.len()
        invariant
            index <= table@.len(),
            table@ == start,
            found ==> index < start.len() && start[index as int].sleeper.id == sleeper.id,
            without_sleeper(start, sleeper.id) == start.take(index as int) + without_sleeper(
                start.skip(index as int),
                sleeper.id,
            ),
        decreases start.len() - index + if found { 0int } else { 1int },
    {
        let ghost rest = start.skip(index as int);
        if table.entries[index].sleeper.id == sleeper.id {
            found = true;
        } else {
            proof {
                assert(rest.skip(1) =~= start.skip(index + 1));
                let tail = without_sleeper(rest.skip(1), sleeper.id);
                assert(start.take(index as int) + (seq![rest[0]] + tail) =~= start.take(index + 1)
                    + tail);
            }
            index = index + 1;
        }
    }
    if found {
        let _ = table.entries.remove(index);
        proof {
            let rest = start.skip(index as int);
            assert(rest[0].sleeper.id == sleeper.id);
            assert(table@ =~= start.take(index as int) + rest.skip(1));
        }
    } else {
        proof {
            assert(start.take(index as int) + start.skip(index as int) =~= start);
        }
    }
    if sleeper.woken {
        Ended::Answer(Ok(0))
    } else if interrupted {
        Ended::Answer(Err(Errno::ERESTARTSYS))
    } else if now >= deadline {
        Ended::Answer(Err(Errno::ETIMEDOUT))
    } else {
        Ended::Again
    }
}

/// Rouse up to `count` waiters on `address` whose bitset shares a bit with
/// `bitset`, oldest first, and answer them.
pub fn wake(
    table: &mut Table,
    space: &AddressSpace,
    address: u64,
    shared: bool,
    count: i32,
    bitset: u32,
) -> (roused: Result<Vec<Sleeper>, Errno>)
    requires
        space.wf(),
    ensures
        match roused {
            Ok(sleepers) => {
                let keys = seq![Key::spec_new(*space, address, shared)];
                &&& aligned_word(address)
                &&& sleepers@ == all_roused(
                    first_matching(old(table)@, keys, Some(bitset), wake_limit(count as int)),
                )
                &&& final(table)@ == without_matching(
                    old(table)@,
                    keys,
                    Some(bitset),
                    wake_limit(count as int),
                )
            },
            Err(e) => !aligned_word(address) && e == Errno::EINVAL && final(table)@ == old(table)@,
        },
{
    let key = key(space, address, shared)?;
    let keys = [key];
    proof {
        assert(keys@ =~= seq![key]);
    }
    Ok(rouse(table, &keys, count, bitset))
}

/// The table once up to `wake_count` waiters on `source` have been roused and
/// up to `move_count` more put behind everyone, waiting on `target`.
pub open spec fn requeued(
    entries: Seq<Entry>,
    source: Key,
    target: Key,
    wake_count: nat,
    move_count: nat,
) -> Seq<Entry> {
    let left = without_matching(entries, seq![source], None, wake_count);
    without_matching(left, seq![source], None, move_count) + moved_to(
        first_matching(left, seq![source], None, move_count),
        target,
    )
}

/// The waiters such a requeue rouses.
pub open spec fn requeue_rouses(entries: Seq<Entry>, source: Key, wake_count: nat) -> Seq<Entry> {
    first_matching(entries, seq![source], None, wake_count)
}

/// The waiters such a requeue moves.
pub open spec fn requeue_moves(
    entries: Seq<Entry>,
    source: Key,
    wake_count: nat,
    move_count: nat,
) -> Seq<Entry> {
    first_matching(
        without_matching(entries, seq![source], None, wake_count),
        seq![source],
        None,
        move_count,
    )
}

/// What refuses a requeue: a negative count, a misaligned word, or for a
/// compare-requeue a word that cannot be read or no longer holds `expected`.
pub open spec fn may_requeue(
    space: AddressSpace,
    from: u64,
    to: u64,
    wake_count: i32,
    move_count: i32,
    expected: Option<u32>,
) -> Result<(), Errno> {
    if wake_count < 0 || move_count < 0 || !aligned_word(from) || !aligned_word(to) {
        Err(Errno::EINVAL)
    } else {
        match expected {
            None => Ok(()),
            Some(expected) => may_wait(space, from, expected),
        }
    }
}

/// `FUTEX_REQUEUE` and, with `expected`, `FUTEX_CMP_REQUEUE`: rouse up to
/// `wake_count` waiters on `from` and move up to `move_count` more onto `to`.
/// Answers the roused, and how many were roused or moved.
pub fn requeue(
    table: &mut Table,
    space: &AddressSpace,
    from_to: (u64, u64),
    shared: bool,
    wake_count: i32,
    move_count: i32,
    expected: Option<u32>,
) -> (done: Result<(usize, Vec<Sleeper>), Errno>)
    requires
        space.wf(),
    ensures
        match done {
            Ok((count, roused)) => {
                let source = Key::spec_new(*space, from_to.0, shared);
                let target = Key::spec_new(*space, from_to.1, shared);
                let wakes = requeue_rouses(old(table)@, source, wake_count as nat);
                let moves = requeue_moves(
                    old(table)@,
                    source,
                    wake_count as nat,
                    move_count as nat,
                );
                &&& may_requeue(*space, from_to.0, from_to.1, wake_count, move_count, expected)
                    is Ok
                &&& roused@ == all_roused(wakes)
                &&& count == wakes.len() + moves.len()
                &&& final(table)@ == requeued(
                    old(table)@,
                    source,
                    target,
                    wake_count as nat,
                    move_count as nat,
                )
            },
            Err(e) => final(table)@ == old(table)@ && may_requeue(
                *space,
                from_to.0,
                from_to.1,
                wake_count,
                move_count,
                expected,
            ) == Err::<(), Errno>(e),
        },
{
    let (from, to) = from_to;
    if wake_count < 0 || move_count < 0 {
        return Err(Errno::EINVAL);
    }
    let source = key(space, from, shared)?;
    let target = key(space, to, shared)?;
    if let Some(expected) = expected {
        let word: u32 = read_word(space, from)?;
        if word != expected {
            return Err(Errno::EAGAIN);
        }
    }
    let ghost start = table@;
    let keys = [source];
    proof {
        assert(keys@ =~= seq![source]);
        lemma_first_matching_len(start, seq![source], None, wake_count as nat);
        lemma_split_len(start, seq![source], None, wake_count as nat);
    }
    let woken = table.take(&keys, wake_count as usize, None);
    proof {
        lemma_first_matching_len(table@, seq![source], None, move_count as nat);
        lemma_split_len(table@, seq![source], None, move_count as nat);
        assert(table.entries@.len() + woken@.len() == start.len());
    }
    let mut moved = table.take(&keys, move_count as usize, None);
    let ghost moves = moved@;
    let ghost left = table@;
    let total: usize = woken.len() + moved.len();
    let mut i: usize = 0;
    while i < moved.len()
        invariant
            i <= moved@.len(),
            moved@ == moves,
            table@ == left + moved_to(moves.take(i as int), target),
        decreases moved@.len() - i,
    {
        let entry = moved[i];
        table.entries.push(
            Entry { key: target, bitset: entry.bitset, sleeper: entry.sleeper },
        );
        i = i + 1;
        proof {
            assert(table@ =~= left + moved_to(moves.take(i as int), target));
        }
    }
    proof {
        assert(moves.take(moves.len() as int) =~= moves);
    }
    let roused = rouse_each(&woken);
    Ok((total, roused))
}

/// What is taken and what is left are all there was.
proof fn lemma_split_len(entries: Seq<Entry>, keys: Seq<Key>, bitset: Option<u32>, limit: nat)
    ensures
        first_matching(entries, keys, bitset, limit).len() + without_matching(
            entries,
            keys,
            bitset,
            limit,
        ).len() == entries.len(),
    decreases entries.len(),
{
    if entries.len() > 0 && limit > 0 {
        if answers_to(entries[0], keys, bitset) {
            lemma_split_len(entries.skip(1), keys, bitset, (limit - 1) as nat);
        } else {
            lemma_split_len(entries.skip(1), keys, bitset, limit);
        }
    }
}

/// Rouse up to `count` waiters on `address` in `space`: what a thread's end
/// does for the address it was given to clear. Keyed as a shared wake, so a
/// waiter on a word in shared memory is found too.
pub fn wake_address(
    table: &mut Table,
    space: &AddressSpace,
    address: u64,
    count: i32,
) -> (roused: Vec<Sleeper>)
    requires
        space.wf(),
    ensures
        ({
            let keys = seq![Key::spec_new(*space, address, true)];
            let any = Some(FUTEX_BITSET_MATCH_ANY);
            &&& roused@ == all_roused(
                first_matching(old(table)@, keys, any, wake_limit(count as int)),
            )
            &&& final(table)@ == without_matching(
                old(table)@,
                keys,
                any,
                wake_limit(count as int),
            )
        }),
{
    let keys = [Key::new(space, address, true)];
    proof {
        assert(keys@ =~= seq![Key::spec_new(*space, address, true)]);
    }
    rouse(table, &keys, count, FUTEX_BITSET_MATCH_ANY)
}

/// Both keys a waiter on `address` in `space` can have.
pub open spec fn spec_either_key(space: AddressSpace, address: u64) -> Seq<Key> {
    seq![Key::spec_new(space, address, false), Key::spec_new(space, address, true)]
}

/// Both keys a waiter on `address` in `space` can have, whether or not it
/// called the word private.
pub fn either_key(space: &AddressSpace, address: u64) -> (keys: [Key; 2])
    requires
        space.wf(),
    ensures
        keys@ == spec_either_key(*space, address),
{
    let keys = [Key::new(space, address, false), Key::new(space, address, true)];
    proof {
        assert(keys@ =~= spec_either_key(*space, address));
    }
    keys
}

/// How many of `entries` wait on one of `keys`.
pub open spec fn count_on(entries: Seq<Entry>, keys: Seq<Key>) -> nat {
    first_matching(entries, keys, None, entries.len()).len()
}

/// How many waiters are on `address` in `space` right now, keyed either way.
pub fn waiters_on(table: &Table, space: &AddressSpace, address: u64) -> (count: usize)
    requires
        space.wf(),
    ensures
        count == count_on(table@, spec_either_key(*space, address)),
{
    let keys = either_key(space, address);
    let mut count: usize = 0;
    let mut i: usize = 0;
    proof {
        assert(table@.skip(0) =~= table@);
    }
    while i < table.entries.len()
        invariant
            i <= table@.len(),
            count <= i,
            count_on(table@, keys@) == count + count_on(table@.skip(i as int), keys@),
        decreases table@.len() - i,
    {
        let ghost rest = table@.skip(i as int);
        proof {
            assert(rest.skip(1) =~= table@.skip(i + 1));
            lemma_enough(rest.skip(1), keys@, None, rest.skip(1).len(), rest.len());
        }
        if contains_key(&keys, table.entries[i].key) {
            count = count + 1;
        }
        i = i + 1;
    }
    count
}

/// A limit past what there is to take is as good as any other.
proof fn lemma_enough(
    entries: Seq<Entry>,
    keys: Seq<Key>,
    bitset: Option<u32>,
    a: nat,
    b: nat,
)
    requires
        entries.len() <= a,
        entries.len() <= b,
    ensures
        first_matching(entries, keys, bitset, a) == first_matching(entries, keys, bitset, b),
    decreases entries.len(),
{
    if entries.len() > 0 {
        if answers_to(entries[0], keys, bitset) {
            lemma_enough(entries.skip(1), keys, bitset, (a - 1) as nat, (b - 1) as nat);
        } else {
            lemma_enough(entries.skip(1), keys, bitset, a, b);
        }
    }
}

/// Take up to `count` waiters off `address`, keyed either way, and count them
/// without rousing them: a wake with the one fault a count cannot see.
pub fn forget_waiters(
    table: &mut Table,
    space: &AddressSpace,
    address: u64,
    count: i32,
) -> (forgotten: usize)
    requires
        space.wf(),
    ensures
        ({
            let keys = spec_either_key(*space, address);
            let any = Some(FUTEX_BITSET_MATCH_ANY);
            &&& forgotten == first_matching(
                old(table)@,
                keys,
                any,
                wake_limit(count as int),
            ).len()
            &&& final(table)@ == without_matching(
                old(table)@,
                keys,
                any,
                wake_limit(count as int),
            )
        }),
{
    let keys = either_key(space, address);
    let limit: usize = if count < 1 {
        1
    } else {
        count as usize
    };
    let taken = table.take(&keys, limit, Some(FUTEX_BITSET_MATCH_ANY));
    taken.len()
}

/// Read a `struct timespec` of `width` as nanoseconds.
pub fn read_timespec(
    space: &AddressSpace,
    at: u64,
    width: TimeWidth,
    arch: Arch,
) -> (nanos: Result<u64, Errno>)
    requires
        space.wf(),
    ensures
        nanos == time::spec_timespec(space@, at as int, width.spec_field(arch)),
{
    time::read_timespec(space, at, width.field(arch))
}

/// What a call asks for, once its arguments have been read.
#[derive(Clone, Copy, Debug, PartialEq, Eq)]
pub enum Request {
    /// Sleep until woken or until `deadline`.
    Wait {
        /// The value the word must still hold.
        expected: u32,
        /// Which wakes end it.
        bitset: u32,
        /// When it times out; the largest number for never.
        deadline: u64,
    },
    /// Rouse waiters.
    Wake {
        /// How many.
        count: i32,
        /// Which.
        bitset: u32,
    },
    /// Rouse some and move others to the second word.
    Requeue {
        /// How many to rouse.
        wake_count: i32,
        /// How many to move.
        move_count: i32,
        /// The value the word must hold, for a compare-requeue.
        compare: Option<u32>,
    },
}

/// The operation a call's second argument names, its two flags aside.
pub open spec fn spec_command(op: u32) -> u32 {
    op & !(FUTEX_PRIVATE_FLAG | FUTEX_CLOCK_REALTIME)
}

/// The deadline a wait's timeout argument asks for: none for a null pointer,
/// relative to `now` or absolute.
pub open spec fn spec_deadline(
    space: AddressSpace,
    timeout: u64,
    field: nat,
    base: u64,
) -> Result<u64, Errno> {
    if timeout == 0 {
        Ok(u64::MAX)
    } else {
        match time::spec_timespec(space@, timeout as int, field) {
            Ok(nanos) => Ok(time::saturated(base + nanos) as u64),
            Err(e) => Err(e),
        }
    }
}

/// What the six arguments ask for.
pub open spec fn spec_decode(
    space: AddressSpace,
    a: Seq<u64>,
    field: nat,
    now: u64,
) -> Result<Request, Errno> {
    let op = spec_low_u32(a[1] as int) as u32;
    let value = spec_low_u32(a[2] as int) as u32;
    let value2 = spec_signed_32(spec_low_u32(a[3] as int)) as i32;
    let value3 = spec_low_u32(a[5] as int) as u32;
    let count = spec_signed_32(value as int) as i32;
    let command = spec_command(op);
    if op & FUTEX_CLOCK_REALTIME != 0 && command != FUTEX_WAIT && command != FUTEX_WAIT_BITSET {
        Err(Errno::ENOSYS)
    } else if command == FUTEX_WAIT {
        match spec_deadline(space, a[3], field, now) {
            Ok(deadline) => Ok(
                Request::Wait { expected: value, bitset: FUTEX_BITSET_MATCH_ANY, deadline },
            ),
            Err(e) => Err(e),
        }
    } else if command == FUTEX_WAIT_BITSET {
        if value3 == 0 {
            Err(Errno::EINVAL)
        } else {
            match spec_deadline(space, a[3], field, 0) {
                Ok(deadline) => Ok(Request::Wait { expected: value, bitset: value3, deadline }),
                Err(e) => Err(e),
            }
        }
    } else if command == FUTEX_WAKE {
        Ok(Request::Wake { count, bitset: FUTEX_BITSET_MATCH_ANY })
    } else if command == FUTEX_WAKE_BITSET {
        if value3 == 0 {
            Err(Errno::EINVAL)
        } else {
            Ok(Request::Wake { count, bitset: value3 })
        }
    } else if command == FUTEX_REQUEUE {
        Ok(Request::Requeue { wake_count: count, move_count: value2, compare: None })
    } else if command == FUTEX_CMP_REQUEUE {
        Ok(Request::Requeue { wake_count: count, move_count: value2, compare: Some(value3) })
    } else {
        Err(Errno::ENOSYS)
    }
}

fn deadline_of(
    space: &AddressSpace,
    timeout: u64,
    width: TimeWidth,
    arch: Arch,
    base: u64,
) -> (deadline: Result<u64, Errno>)
    requires
        space.wf(),
    ensures
        deadline == spec_deadline(*space, timeout, width.spec_field(arch), base),
{
    if timeout == 0 {
        return Ok(u64::MAX);
    }
    let nanos: u64 = read_timespec(space, timeout, width, arch)?;
    Ok(base.saturating_add(nanos))
}

/// Read what the six arguments ask for.
///
/// `ENOSYS` for an operation there is not, and for a realtime deadline on one
/// that has none; `EINVAL` for an empty bitset or a malformed timeout;
/// `EFAULT` for a timeout that cannot be read.
pub fn decode(
    space: &AddressSpace,
    a: &[u64; 6],
    width: TimeWidth,
    arch: Arch,
    now: u64,
) -> (request: Result<Request, Errno>)
    requires
        space.wf(),
    ensures
        request == spec_decode(*space, a@, width.spec_field(arch), now),
{
    let op: u32 = low_u32(a[1]);
    let value: u32 = low_u32(a[2]);
    let value3: u32 = low_u32(a[5]);
    let count: i32 = signed_32(value);
    let command: u32 = op & !(FUTEX_PRIVATE_FLAG | FUTEX_CLOCK_REALTIME);
    if op & FUTEX_CLOCK_REALTIME != 0 && command != FUTEX_WAIT && command != FUTEX_WAIT_BITSET {
        return Err(Errno::ENOSYS);
    }
    if command == FUTEX_WAIT {
        let deadline: u64 = deadline_of(space, a[3], width, arch, now)?;
        Ok(Request::Wait { expected: value, bitset: FUTEX_BITSET_MATCH_ANY, deadline })
    } else if command == FUTEX_WAIT_BITSET {
        if value3 == 0 {
            return Err(Errno::EINVAL);
        }
        let deadline: u64 = deadline_of(space, a[3], width, arch, 0)?;
        Ok(Request::Wait { expected: value, bitset: value3, deadline })
    } else if command == FUTEX_WAKE {
        Ok(Request::Wake { count, bitset: FUTEX_BITSET_MATCH_ANY })
    } else if command == FUTEX_WAKE_BITSET {
        if value3 == 0 {
            return Err(Errno::EINVAL);
        }
        Ok(Request::Wake { count, bitset: value3 })
    } else if command == FUTEX_REQUEUE {
        let move_count: i32 = signed_32(low_u32(a[3]));
        Ok(Request::Requeue { wake_count: count, move_count, compare: None })
    } else if command == FUTEX_CMP_REQUEUE {
        let move_count: i32 = signed_32(low_u32(a[3]));
        Ok(Request::Requeue { wake_count: count, move_count, compare: Some(value3) })
    } else {
        Err(Errno::ENOSYS)
    }
}

/// What a call came to.
#[derive(Debug)]
pub enum Answer {
    /// Return `count` to the program, once `roused` have been made runnable.
    Done {
        /// The call's answer.
        count: usize,
        /// Who to make runnable.
        roused: Vec<Sleeper>,
    },
    /// The caller is on the table: block it until `deadline`.
    Asleep {
        /// When it times out.
        deadline: u64,
    },
}

/// What [`sys_futex`] does to the table, and what it answers, for a request
/// its arguments made.
pub open spec fn carried_out(
    request: Request,
    before: Seq<Entry>,
    space: AddressSpace,
    a: Seq<u64>,
    sleeper: Sleeper,
    answer: Result<Answer, Errno>,
    after: Seq<Entry>,
) -> bool {
    let shared = (spec_low_u32(a[1] as int) as u32) & FUTEX_PRIVATE_FLAG == 0;
    let source = Key::spec_new(space, a[0], shared);
    let target = Key::spec_new(space, a[4], shared);
    match request {
        Request::Wait { expected, bitset, deadline } => match may_wait(space, a[0], expected) {
            Err(e) => answer == Err::<Answer, Errno>(e) && after == before,
            Ok(_) => answer == Ok::<Answer, Errno>(Answer::Asleep { deadline }) && after
                == before.push(Entry { key: source, bitset, sleeper }),
        },
        Request::Wake { count, bitset } => if !aligned_word(a[0]) {
            answer == Err::<Answer, Errno>(Errno::EINVAL) && after == before
        } else {
            let taken = first_matching(
                before,
                seq![source],
                Some(bitset),
                wake_limit(count as int),
            );
            &&& answer matches Ok(Answer::Done { count: told, roused })
            &&& told == taken.len()
            &&& roused@ == all_roused(taken)
            &&& after == without_matching(
                before,
                seq![source],
                Some(bitset),
                wake_limit(count as int),
            )
        },
        Request::Requeue { wake_count, move_count, compare } => match may_requeue(
            space,
            a[0],
            a[4],
            wake_count,
            move_count,
            compare,
        ) {
            Err(e) => answer == Err::<Answer, Errno>(e) && after == before,
            Ok(_) => {
                let wakes = requeue_rouses(before, source, wake_count as nat);
                let moves = requeue_moves(before, source, wake_count as nat, move_count as nat);
                &&& answer matches Ok(Answer::Done { count: told, roused })
                &&& told == wakes.len() + moves.len()
                &&& roused@ == all_roused(wakes)
                &&& after == requeued(
                    before,
                    source,
                    target,
                    wake_count as nat,
                    move_count as nat,
                )
            },
        },
    }
}

/// `futex` and `futex_time64`, which differ only in `width`: the size of the
/// `timespec` the timeout argument points at. `sleeper` is the caller, should
/// it have to sleep, and `now` the clock's reading.
///
/// The errors of [`decode`] come first, then those of the request.
pub fn sys_futex(
    table: &mut Table,
    space: &AddressSpace,
    sleeper: Sleeper,
    a: &[u64; 6],
    width: TimeWidth,
    arch: Arch,
    now: u64,
) -> (answer: Result<Answer, Errno>)
    requires
        space.wf(),
    ensures
        match spec_decode(*space, a@, width.spec_field(arch), now) {
            Err(e) => answer == Err::<Answer, Errno>(e) && final(table)@ == old(table)@,
            Ok(request) => carried_out(
                request,
                old(table)@,
                *space,
                a@,
                sleeper,
                answer,
                final(table)@,
            ),
        },
{
    let request = decode(space, a, width, arch, now)?;
    let shared = low_u32(a[1]) & FUTEX_PRIVATE_FLAG == 0;
    match request {
        Request::Wait { expected, bitset, deadline } => {
            wait(table, space, a[0], shared, expected, bitset, sleeper)?;
            Ok(Answer::Asleep { deadline })
        },
        Request::Wake { count, bitset } => {
            let roused = wake(table, space, a[0], shared, count, bitset)?;
            Ok(Answer::Done { count: roused.len(), roused })
        },
        Request::Requeue { wake_count, move_count, compare } => {
            let (count, roused) = requeue(
                table,
                space,
                (a[0], a[4]),
                shared,
                wake_count,
                move_count,
                compare,
            )?;
            Ok(Answer::Done { count, roused })
        },
    }
}

// ---------------------------------------------------------------------------
// What holds of the table
// ---------------------------------------------------------------------------

/// A wait that any wake may end has a bit of the widest bitset.
proof fn lemma_any_bit(bits: u32)
    requires
        bits != 0,
    ensures
        bits & FUTEX_BITSET_MATCH_ANY != 0,
{
    assert(bits & 0xFFFF_FFFFu32 == bits) by (bit_vector);
}

/// Forgetting waiters lowers the count of those on the word by as many as it
/// answers, which is as many as were asked for or as many as there were. Those
/// forgotten are as they were, asleep, and so is everyone still on the table.
pub proof fn law_forgetting_lowers_the_count(entries: Seq<Entry>, keys: Seq<Key>, limit: nat)
    requires
        forall|i: int| 0 <= i < entries.len() ==> (#[trigger] entries[i]).bitset != 0,
    ensures
        ({
            let any = Some(FUTEX_BITSET_MATCH_ANY);
            let forgotten = first_matching(entries, keys, any, limit);
            let left = without_matching(entries, keys, any, limit);
            &&& forgotten.len() == crate::file::min_int(
                limit as int,
                count_on(entries, keys) as int,
            )
            &&& count_on(left, keys) == count_on(entries, keys) - forgotten.len()
            &&& forall|i: int| 0 <= i < forgotten.len() ==> entries.contains(
                #[trigger] forgotten[i],
            )
            &&& forall|i: int| 0 <= i < left.len() ==> entries.contains(#[trigger] left[i])
        }),
    decreases entries.len(),
{
    let any = Some(FUTEX_BITSET_MATCH_ANY);
    let forgotten = first_matching(entries, keys, any, limit);
    let left = without_matching(entries, keys, any, limit);
    if entries.len() == 0 || limit == 0 {
        assert forall|i: int| 0 <= i < left.len() implies entries.contains(#[trigger] left[i]) by {
            assert(entries[i] == left[i]);
        }
    } else {
        let rest = entries.skip(1);
        let first = entries[0];
        lemma_any_bit(first.bitset);
        assert(answers_to(first, keys, any) == answers_to(first, keys, None));
        let next = if answers_to(first, keys, any) {
            (limit - 1) as nat
        } else {
            limit
        };
        assert forall|i: int| 0 <= i < rest.len() implies (#[trigger] rest[i]).bitset != 0 by {
            assert(rest[i] == entries[i + 1]);
        }
        law_forgetting_lowers_the_count(rest, keys, next);
        let forgotten2 = first_matching(rest, keys, any, next);
        let left2 = without_matching(rest, keys, any, next);
        lemma_enough(rest, keys, None, rest.len(), entries.len());
        assert forall|e: Entry| #[trigger] rest.contains(e) implies entries.contains(e) by {
            let i = choose|i: int| 0 <= i < rest.len() && rest[i] == e;
            assert(entries[i + 1] == e);
        }
        assert(entries.contains(first)) by {
            assert(entries[0] == first);
        }
        if answers_to(first, keys, any) {
            assert(forgotten == seq![first] + forgotten2);
            assert(left == left2);
            assert forall|i: int| 0 <= i < forgotten.len() implies entries.contains(
                #[trigger] forgotten[i],
            ) by {
                if i > 0 {
                    assert(forgotten[i] == forgotten2[i - 1]);
                    assert(rest.contains(forgotten2[i - 1]));
                }
            }
        } else {
            assert(left == seq![first] + left2);
            assert(left.skip(1) =~= left2);
            lemma_enough(left2, keys, None, left2.len(), left.len());
            assert forall|i: int| 0 <= i < left.len() implies entries.contains(
                #[trigger] left[i],
            ) by {
                if i > 0 {
                    assert(left[i] == left2[i - 1]);
                    assert(rest.contains(left2[i - 1]));
                }
            }
        }
    }
}

/// A wake takes waiters it is for and no others, at most as many as asked,
/// fewer only when no more are waiting, and loses nobody: everyone who was on
/// the table was either taken or is still there.
pub proof fn law_wake_takes_and_keeps(
    entries: Seq<Entry>,
    keys: Seq<Key>,
    bitset: Option<u32>,
    limit: nat,
)
    ensures
        ({
            let taken = first_matching(entries, keys, bitset, limit);
            let left = without_matching(entries, keys, bitset, limit);
            &&& taken.len() <= limit
            &&& forall|i: int| 0 <= i < taken.len() ==> answers_to(#[trigger] taken[i], keys, bitset)
            &&& taken.len() < limit ==> forall|i: int|
                0 <= i < left.len() ==> !answers_to(#[trigger] left[i], keys, bitset)
            &&& taken.to_multiset().add(left.to_multiset()) == entries.to_multiset()
        }),
    decreases entries.len(),
{
    broadcast use vstd::multiset::group_multiset_axioms;
    broadcast use vstd::seq_lib::group_to_multiset_ensures;

    let taken = first_matching(entries, keys, bitset, limit);
    let left = without_matching(entries, keys, bitset, limit);
    if entries.len() == 0 || limit == 0 {
        assert(taken.to_multiset() =~= vstd::multiset::Multiset::empty());
        assert(taken.to_multiset().add(left.to_multiset()) =~= entries.to_multiset());
    } else {
        let rest = entries.skip(1);
        let next = if answers_to(entries[0], keys, bitset) {
            (limit - 1) as nat
        } else {
            limit
        };
        law_wake_takes_and_keeps(rest, keys, bitset, next);
        let taken2 = first_matching(rest, keys, bitset, next);
        let left2 = without_matching(rest, keys, bitset, next);
        assert(entries =~= seq![entries[0]] + rest);
        lemma_multiset_cons(entries[0], rest);
        lemma_multiset_cons(entries[0], taken2);
        lemma_multiset_cons(entries[0], left2);
        assert(taken.to_multiset().add(left.to_multiset()) =~= entries.to_multiset());
    }
}

proof fn lemma_multiset_cons(head: Entry, rest: Seq<Entry>)
    ensures
        (seq![head] + rest).to_multiset() == rest.to_multiset().insert(head),
{
    broadcast use vstd::multiset::group_multiset_axioms;
    broadcast use vstd::seq_lib::group_to_multiset_ensures;

    vstd::seq_lib::lemma_multiset_commutative(seq![head], rest);
    assert(seq![head] =~= Seq::<Entry>::empty().push(head));
    assert((seq![head] + rest).to_multiset() =~= rest.to_multiset().insert(head));
}

/// No wake is lost: a waiter on the table, whoever joined it before or since,
/// is among those a wake for its word takes, and is left waiting by none that
/// may take them all.
pub proof fn law_wake_finds_the_waiter(
    entries: Seq<Entry>,
    entry: Entry,
    keys: Seq<Key>,
    bitset: Option<u32>,
    limit: nat,
)
    requires
        entries.contains(entry),
        answers_to(entry, keys, bitset),
        limit > entries.len(),
    ensures
        first_matching(entries, keys, bitset, limit).contains(entry),
        !without_matching(entries, keys, bitset, limit).contains(entry),
{
    broadcast use vstd::seq_lib::group_to_multiset_ensures;

    let taken = first_matching(entries, keys, bitset, limit);
    let left = without_matching(entries, keys, bitset, limit);
    law_wake_takes_and_keeps(entries, keys, bitset, limit);
    assert(taken.len() + left.len() == entries.len()) by {
        assert(taken.to_multiset().len() + left.to_multiset().len() == taken.to_multiset().add(
            left.to_multiset(),
        ).len());
    }
    assert(entries.to_multiset().count(entry) > 0);
    assert(!left.contains(entry));
    assert(left.to_multiset().count(entry) == 0);
    assert(taken.to_multiset().count(entry) > 0);
}

/// A requeue loses nobody: its roused, its moved and the ones it left are the
/// waiters there were, and a moved one keeps its sleeper and its bitset.
pub proof fn law_requeue_keeps_every_waiter(
    entries: Seq<Entry>,
    source: Key,
    target: Key,
    wake_count: nat,
    move_count: nat,
)
    ensures
        ({
            let wakes = requeue_rouses(entries, source, wake_count);
            let moves = requeue_moves(entries, source, wake_count, move_count);
            let after = requeued(entries, source, target, wake_count, move_count);
            &&& wakes.len() <= wake_count
            &&& moves.len() <= move_count
            &&& after.len() + wakes.len() == entries.len()
            &&& after.subrange(after.len() - moves.len(), after.len() as int) == moved_to(
                moves,
                target,
            )
            &&& wakes.to_multiset().add(moves.to_multiset()).add(
                after.take(after.len() - moves.len()).to_multiset(),
            ) == entries.to_multiset()
        }),
{
    let left = without_matching(entries, seq![source], None, wake_count);
    let stay = without_matching(left, seq![source], None, move_count);
    let moves = requeue_moves(entries, source, wake_count, move_count);
    let after = requeued(entries, source, target, wake_count, move_count);
    law_wake_takes_and_keeps(entries, seq![source], None, wake_count);
    law_wake_takes_and_keeps(left, seq![source], None, move_count);
    lemma_split_len(entries, seq![source], None, wake_count);
    lemma_split_len(left, seq![source], None, move_count);
    assert(after.take(after.len() - moves.len()) =~= stay);
    assert(after.subrange(after.len() - moves.len(), after.len() as int) =~= moved_to(
        moves,
        target,
    ));
    let wakes = requeue_rouses(entries, source, wake_count);
    assert(wakes.to_multiset().add(moves.to_multiset()).add(stay.to_multiset())
        =~= wakes.to_multiset().add(moves.to_multiset().add(stay.to_multiset())));
}

/// Two spaces never name one private word, and a private word is one address.
pub proof fn law_private_words_are_apart(a: AddressSpace, b: AddressSpace, at: u64, other: u64)
    ensures
        Key::spec_new(a, at, false) == Key::spec_new(b, other, false) <==> a.id == b.id && at
            == other,
{
}

/// A word in shared memory is one futex wherever it is mapped: two spaces that
/// map the same byte of the same object give it the same shared key.
pub proof fn law_a_shared_word_has_one_key(a: AddressSpace, b: AddressSpace, at: u64, other: u64)
    requires
        a.spec_shared_object_at(at as int) is Some,
    ensures
        Key::spec_new(a, at, true) == Key::spec_new(b, other, true) <==> a.spec_shared_object_at(
            at as int,
        ) == b.spec_shared_object_at(other as int),
{
}

/// The one who has waited longest is woken first: of those a wake is for, the
/// first on the table is the first that is taken.
pub proof fn law_who_waited_longest_is_woken_first(
    entries: Seq<Entry>,
    keys: Seq<Key>,
    bitset: Option<u32>,
    limit: nat,
    i: int,
)
    requires
        0 <= i < entries.len(),
        limit > 0,
        answers_to(entries[i], keys, bitset),
        forall|j: int| 0 <= j < i ==> !answers_to(#[trigger] entries[j], keys, bitset),
    ensures
        first_matching(entries, keys, bitset, limit).len() > 0,
        first_matching(entries, keys, bitset, limit)[0] == entries[i],
    decreases entries.len(),
{
    if i > 0 {
        let rest = entries.skip(1);
        assert(!answers_to(entries[0], keys, bitset));
        assert(rest[i - 1] == entries[i]);
        assert forall|j: int| 0 <= j < i - 1 implies !answers_to(
            #[trigger] rest[j],
            keys,
            bitset,
        ) by {
            assert(rest[j] == entries[j + 1]);
        }
        law_who_waited_longest_is_woken_first(rest, keys, bitset, limit, i - 1);
    }
}

/// A wake is for those who wait on its word, with a bit in common.
pub proof fn law_a_wake_is_for_its_own_word(entry: Entry, key: Key, bits: u32)
    ensures
        answers_to(entry, seq![key], Some(bits)) <==> entry.key == key && entry.bitset & bits != 0,
        answers_to(entry, seq![key], None) <==> entry.key == key,
{
    assert(seq![key][0] == key);
}

/// A wait sleeps only on a word that can be read, is a word, and still holds
/// what the caller saw there; that is what the wait is for, so nothing else
/// stops it.
pub proof fn law_a_wait_sleeps_on_what_it_saw(space: AddressSpace, address: u64, expected: u32)
    ensures
        may_wait(space, address, expected) is Ok <==> address % 4 == 0 && space@.can_read(
            address as int,
            4,
        ) && space@.number(address as int, 4) as u32 == expected,
        may_wait(space, address, expected) == Err::<(), Errno>(Errno::EINVAL) <==> address % 4 != 0,
        address % 4 == 0 && !space@.can_read(address as int, 4) ==> may_wait(
            space,
            address,
            expected,
        ) == Err::<(), Errno>(Errno::EFAULT),
        address % 4 == 0 && space@.can_read(address as int, 4) && space@.number(
            address as int,
            4,
        ) as u32 != expected ==> may_wait(space, address, expected) == Err::<(), Errno>(
            Errno::EAGAIN,
        ),
{
}

/// A call that was carried out did what it was for. A wait that sleeps is the
/// last on the table, on its own word; a wake rouses no more than it was asked,
/// but one at least if anyone waits, and everyone it rouses is told so; and the
/// count that is answered is of those.
pub proof fn law_a_call_does_what_it_asks(
    request: Request,
    before: Seq<Entry>,
    space: AddressSpace,
    a: Seq<u64>,
    sleeper: Sleeper,
    answer: Result<Answer, Errno>,
    after: Seq<Entry>,
)
    requires
        a.len() == 6,
        carried_out(request, before, space, a, sleeper, answer, after),
    ensures
        answer is Err ==> after == before,
        request matches Request::Wait { expected, bitset, deadline } ==> answer is Ok ==> {
            &&& answer == Ok::<Answer, Errno>(Answer::Asleep { deadline })
            &&& after.len() == before.len() + 1
            &&& after.last().sleeper == sleeper && after.last().bitset == bitset
            &&& after.last().key == Key::spec_new(
                space,
                a[0],
                (a[1] % 0x1_0000_0000) as u32 & 128 == 0,
            )
            &&& forall|i: int| 0 <= i < before.len() ==> #[trigger] after[i] == before[i]
        },
        request matches Request::Wake { count, bitset } ==> (answer is Ok <==> a[0] % 4 == 0),
        request matches Request::Wake { count, bitset } ==> answer is Ok ==> {
            &&& answer->Ok_0 is Done
            &&& answer->Ok_0->count == answer->Ok_0->roused@.len()
            &&& answer->Ok_0->count <= if count < 1 {
                1
            } else {
                count as int
            }
            &&& after.len() + answer->Ok_0->count == before.len()
            &&& forall|i: int|
                0 <= i < answer->Ok_0->roused@.len() ==> (
                #[trigger] answer->Ok_0->roused@[i]).woken
        },
        request matches Request::Requeue { wake_count, move_count, compare } ==> answer is Ok ==> {
            &&& answer->Ok_0 is Done
            &&& answer->Ok_0->roused@.len() <= wake_count
            &&& answer->Ok_0->count <= wake_count + move_count
            &&& answer->Ok_0->count >= answer->Ok_0->roused@.len()
            &&& wake_count >= 0 && move_count >= 0 && a[0] % 4 == 0 && a[4] % 4 == 0
            &&& after.len() + answer->Ok_0->roused@.len() == before.len()
            &&& compare matches Some(v) ==> space@.number(a[0] as int, 4) as u32 == v
        },
{
    let shared = (spec_low_u32(a[1] as int) as u32) & FUTEX_PRIVATE_FLAG == 0;
    let source = Key::spec_new(space, a[0], shared);
    match request {
        Request::Wake { count, bitset } => {
            let limit = wake_limit(count as int);
            law_wake_takes_and_keeps(before, seq![source], Some(bitset), limit);
            lemma_split_len(before, seq![source], Some(bitset), limit);
        },
        Request::Requeue { wake_count, move_count, .. } => {
            if wake_count >= 0 && move_count >= 0 {
                let left = without_matching(before, seq![source], None, wake_count as nat);
                law_wake_takes_and_keeps(before, seq![source], None, wake_count as nat);
                law_wake_takes_and_keeps(left, seq![source], None, move_count as nat);
                lemma_split_len(before, seq![source], None, wake_count as nat);
                lemma_split_len(left, seq![source], None, move_count as nat);
            }
        },
        _ => {},
    }
}

/// The end of a sleep is told in order of what counts: a wake before a signal,
/// a signal before the time; and without any of them the sleep goes on.
pub proof fn law_a_wake_is_never_lost_to_a_timeout(
    woken: bool,
    interrupted: bool,
    now: u64,
    deadline: u64,
)
    ensures
        spec_woke(woken, interrupted, now, deadline) == Ended::Answer(Ok(0)) <==> woken,
        spec_woke(woken, interrupted, now, deadline) == Ended::Answer(Err(Errno::ERESTARTSYS))
            <==> !woken && interrupted,
        spec_woke(woken, interrupted, now, deadline) == Ended::Answer(Err(Errno::ETIMEDOUT))
            <==> !woken && !interrupted && now >= deadline,
        spec_woke(woken, interrupted, now, deadline) == Ended::Again <==> !woken && !interrupted
            && now < deadline,
{
}

/// One who stops waiting is off the table, once, and everyone else stays.
pub proof fn law_only_the_sleeper_leaves(entries: Seq<Entry>, id: u64, i: int)
    requires
        0 <= i < entries.len(),
        entries[i].sleeper.id == id,
        forall|j: int|
            0 <= j < entries.len() && (#[trigger] entries[j]).sleeper.id == id ==> j == i,
    ensures
        without_sleeper(entries, id) == entries.remove(i),
    decreases entries.len(),
{
    if i == 0 {
        assert(entries.skip(1) =~= entries.remove(0));
    } else {
        let rest = entries.skip(1);
        assert(rest[i - 1] == entries[i]);
        assert forall|j: int|
            0 <= j < rest.len() && (#[trigger] rest[j]).sleeper.id == id implies j == i - 1 by {
            assert(rest[j] == entries[j + 1]);
        }
        law_only_the_sleeper_leaves(rest, id, i - 1);
        assert(entries[0].sleeper.id != id);
        assert(seq![entries[0]] + rest.remove(i - 1) =~= entries.remove(i));
    }
}

/// What a call asks for is in its registers: the command in the second, the
/// value in the third, the time in the fourth, which is from now on for a plain
/// wait and a moment for one with a bitset, and the bitset in the sixth.
pub proof fn law_a_call_is_read_from_its_registers(
    space: AddressSpace,
    a: Seq<u64>,
    field: nat,
    now: u64,
)
    requires
        a.len() == 6,
        a[1] <= 0xFFFF_FFFF && a[2] <= 0x7FFF_FFFF && a[5] <= 0xFFFF_FFFF,
    ensures
        ({
            let answer = spec_decode(space, a, field, now);
            let time = time::spec_timespec(space@, a[3] as int, field);
            &&& a[1] == 0 || a[1] == 128 ==> {
                &&& answer is Ok <==> a[3] == 0 || time is Ok
                &&& answer matches Ok(Request::Wait { expected, bitset, deadline }) ==> expected
                    == a[2] && bitset == 0xFFFF_FFFF && (a[3] == 0 ==> deadline == u64::MAX) && (
                a[3] != 0 && now + time->Ok_0 <= u64::MAX ==> deadline == now + time->Ok_0)
                &&& answer matches Ok(request) ==> request is Wait
            }
            &&& a[1] == 9 || a[1] == 137 ==> {
                &&& answer is Ok <==> a[5] != 0 && (a[3] == 0 || time is Ok)
                &&& answer matches Ok(Request::Wait { expected, bitset, deadline }) ==> expected
                    == a[2] && bitset == a[5] && (a[3] == 0 ==> deadline == u64::MAX) && (a[3]
                    != 0 ==> deadline == time->Ok_0)
                &&& answer matches Ok(request) ==> request is Wait
            }
            &&& a[1] == 1 || a[1] == 129 ==> answer == Ok::<Request, Errno>(
                Request::Wake { count: a[2] as i32, bitset: 0xFFFF_FFFF },
            )
            &&& (a[1] == 10 || a[1] == 138) && a[5] != 0 ==> answer == Ok::<Request, Errno>(
                Request::Wake { count: a[2] as i32, bitset: a[5] as u32 },
            )
            &&& (a[1] == 10 || a[1] == 138) && a[5] == 0 ==> answer == Err::<Request, Errno>(
                Errno::EINVAL,
            )
            &&& (a[1] == 3 || a[1] == 131) && a[3] <= 0x7FFF_FFFF ==> answer == Ok::<
                Request,
                Errno,
            >(
                Request::Requeue {
                    wake_count: a[2] as i32,
                    move_count: a[3] as i32,
                    compare: None,
                },
            )
            &&& (a[1] == 4 || a[1] == 132) && a[3] <= 0x7FFF_FFFF ==> answer == Ok::<
                Request,
                Errno,
            >(
                Request::Requeue {
                    wake_count: a[2] as i32,
                    move_count: a[3] as i32,
                    compare: Some(a[5] as u32),
                },
            )
            &&& a[1] == 2 || (5 <= a[1] <= 8) || (11 <= a[1] < 128) ==> answer == Err::<
                Request,
                Errno,
            >(Errno::ENOSYS)
        }),
{
    let op = a[1] as u32;
    assert({
        &&& op < 128 ==> op & !(128u32 | 256u32) == op && op & 256 == 0
        &&& 128 <= op < 256 ==> op & !(128u32 | 256u32) == op - 128 && op & 256 == 0
    }) by (bit_vector);
}

/// One who is moved waits on the second word from now on, as they were; and one
/// who is roused is who they were, told to run.
pub proof fn law_the_moved_and_the_roused_stay_who_they_are(entries: Seq<Entry>, key: Key, i: int)
    requires
        0 <= i < entries.len(),
    ensures
        moved_to(entries, key).len() == entries.len(),
        moved_to(entries, key)[i].key == key,
        moved_to(entries, key)[i].sleeper == entries[i].sleeper,
        moved_to(entries, key)[i].bitset == entries[i].bitset,
        all_roused(entries).len() == entries.len(),
        all_roused(entries)[i].id == entries[i].sleeper.id,
        all_roused(entries)[i].task == entries[i].sleeper.task,
        all_roused(entries)[i].woken,
{
}

/// A word is keyed by its object where it is shared memory and the caller did
/// not call it private, and by its space and address otherwise.
pub proof fn law_a_word_is_keyed_by_what_it_is(space: AddressSpace, address: u64, shared: bool)
    ensures
        Key::spec_new(space, address, shared) is Shared <==> shared
            && space.spec_shared_object_at(address as int) is Some,
        Key::spec_new(space, address, shared) matches Key::Private { space: id, address: at } ==> id
            == space.id && at == address,
        Key::spec_new(space, address, shared) matches Key::Shared { object, offset } ==> {
            let backing = space.spec_shared_object_at(address as int)->0;
            object == backing.object && offset == backing.offset
        },
{
}

/// A sleep is over exactly if it was ended: by a wake, a signal or its time.
pub proof fn law_a_sleep_ends_for_a_reason(
    sleeper: Sleeper,
    interrupted: bool,
    now: u64,
    deadline: u64,
    over: bool,
)
    requires
        call_ensures(sleep, (&sleeper, interrupted, now, deadline), over),
    ensures
        over <==> sleeper.woken || interrupted || deadline <= now,
{
}

} // verus!
