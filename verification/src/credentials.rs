//! Who a process is: its user and group ids, its supplementary groups, and
//! the capabilities those stand for.
//!
//! Privilege is an effective uid of 0. There are no capability sets to track,
//! so that uid stands for every capability, and `capget` reports every set
//! empty for any other. A process whose real or saved uid is 0 can take the
//! effective one back, because 0 is still one of its own.

use vstd::prelude::*;
use vstd::relations::{sorted_by, total_ordering};

use crate::abi::{low_u32, signed_32, spec_int, spec_low_u32, spec_signed_32};
use crate::bytes::{
    le_bytes, le_decode, le_encode, lemma_byte_spans, lemma_le_bytes_len, lemma_le_value_bound,
};
use crate::errno::Errno;
use crate::nr::Syscall;
use crate::process::{of, spec_of, spec_subject, subject, Process};
use crate::uaccess::{AddressSpace, Memory};

verus! {

/// `(uid_t)-1` and `(gid_t)-1`: "unchanged" to the calls that take several
/// ids, and not a valid id to the ones that take one.
pub const UNCHANGED: u32 = 0xFFFF_FFFF;

/// The most supplementary groups a process may have.
pub const NGROUPS_MAX: u32 = 65_536;

/// The highest capability number.
pub const CAP_LAST_CAP: u32 = 40;

/// The capability interface with one 32-bit word in each set.
pub const CAPABILITY_VERSION_1: u32 = 0x1998_0330;

/// The deprecated interface with two words in each set.
pub const CAPABILITY_VERSION_2: u32 = 0x2007_1026;

/// The interface with two words in each set.
pub const CAPABILITY_VERSION_3: u32 = 0x2008_0522;

/// Bytes in one capability data structure: three 32-bit words.
pub const CAP_DATA: usize = 12;

/// The capabilities of the second word: bits 0 to 8, up to
/// [`CAP_LAST_CAP`].
pub const CAP_HIGH: u32 = 0x1FF;

/// One kind of id, user or group, in the four roles it has.
#[derive(Clone, Copy, Debug, PartialEq, Eq, Structural)]
pub struct Ids {
    /// Who started the process.
    pub real: u32,
    /// Who the process acts as; for the user ids, what decides privilege.
    pub effective: u32,
    /// An id the process may return to without privilege.
    pub saved: u32,
    /// The id a permission check uses. Follows the effective id, unless
    /// `setfsuid` or `setfsgid` moved it.
    pub filesystem: u32,
}

impl Ids {
    /// Every role the same id.
    pub open spec fn all(id: u32) -> Ids {
        Ids { real: id, effective: id, saved: id, filesystem: id }
    }

    /// Whether `id` is one of the three a process may move between without
    /// privilege.
    pub open spec fn spec_is_own(self, id: u32) -> bool {
        id == self.real || id == self.effective || id == self.saved
    }

    /// Whether `id` is one of the three a process may move between without
    /// privilege.
    pub fn is_own(self, id: u32) -> (yes: bool)
        ensures
            yes == self.spec_is_own(id),
    {
        id == self.real || id == self.effective || id == self.saved
    }
}

/// A process's ids and supplementary groups.
#[derive(Debug)]
pub struct Credentials {
    /// The user ids.
    pub user: Ids,
    /// The group ids.
    pub group: Ids,
    /// The supplementary groups, sorted.
    pub groups: Vec<u32>,
}

/// [`Credentials`] as a mathematical value.
#[verifier::ext_equal]
pub ghost struct Identity {
    /// The user ids.
    pub user: Ids,
    /// The group ids.
    pub group: Ids,
    /// The supplementary groups.
    pub groups: Seq<u32>,
}

/// Which ids a call is about.
#[derive(Clone, Copy, Debug, PartialEq, Eq, Structural)]
pub enum Kind {
    /// The `*uid` calls.
    User,
    /// The `*gid` calls.
    Group,
}

impl Identity {
    /// Whether it may take ids and groups it does not have.
    pub open spec fn privileged(self) -> bool {
        self.user.effective == 0
    }

    /// The ids of `kind`.
    pub open spec fn ids(self, kind: Kind) -> Ids {
        match kind {
            Kind::User => self.user,
            Kind::Group => self.group,
        }
    }

    /// The same, with other ids of `kind`.
    pub open spec fn with_ids(self, kind: Kind, ids: Ids) -> Identity {
        match kind {
            Kind::User => Identity { user: ids, ..self },
            Kind::Group => Identity { group: ids, ..self },
        }
    }
}

/// The ids a program starts with: the set-id file's owner, if it has one, as
/// the effective id, and the saved and filesystem ids the effective one.
pub open spec fn spec_exec_ids(ids: Ids, owner: Option<u32>) -> Ids {
    let effective = match owner {
        Some(id) => id,
        None => ids.effective,
    };
    Ids { real: ids.real, effective, saved: effective, filesystem: effective }
}

/// The ids a program starts with.
fn exec_ids(ids: Ids, owner: Option<u32>) -> (new: Ids)
    ensures
        new == spec_exec_ids(ids, owner),
{
    let effective: u32 = match owner {
        Some(id) => id,
        None => ids.effective,
    };
    Ids { real: ids.real, effective, saved: effective, filesystem: effective }
}

impl Credentials {
    /// The credentials as a mathematical value.
    pub open spec fn view(self) -> Identity {
        Identity { user: self.user, group: self.group, groups: self.groups@ }
    }

    /// Root's, which a process the kernel starts has: every id 0, and group 0
    /// as the one supplementary group.
    pub fn root() -> (credentials: Credentials)
        ensures
            credentials@ == (Identity { user: Ids::all(0), group: Ids::all(0), groups: seq![0u32] }),
    {
        let mut groups: Vec<u32> = Vec::new();
        groups.push(0);
        let credentials = Credentials {
            user: Ids { real: 0, effective: 0, saved: 0, filesystem: 0 },
            group: Ids { real: 0, effective: 0, saved: 0, filesystem: 0 },
            groups,
        };
        assert(credentials@.groups =~= seq![0u32]);
        credentials
    }

    /// Whether it may take ids and groups it does not have.
    pub fn privileged(&self) -> (yes: bool)
        ensures
            yes == self@.privileged(),
    {
        self.user.effective == 0
    }

    /// What `execve` does to them: a set-user-id or set-group-id file's owner
    /// becomes the effective id, the real ids and the groups stay, and the
    /// saved and filesystem ids become the effective ones.
    ///
    /// Answers whether the effective id the program starts with is not its
    /// real one: a set-id file, or a process that moved its own effective id
    /// before.
    pub fn exec(&mut self, set_uid: Option<u32>, set_gid: Option<u32>) -> (secure: bool)
        ensures
            final(self)@ == (Identity {
                user: spec_exec_ids(old(self)@.user, set_uid),
                group: spec_exec_ids(old(self)@.group, set_gid),
                groups: old(self)@.groups,
            }),
            secure == (final(self)@.user.effective != final(self)@.user.real
                || final(self)@.group.effective != final(self)@.group.real),
    {
        self.user = exec_ids(self.user, set_uid);
        self.group = exec_ids(self.group, set_gid);
        self.user.effective != self.user.real || self.group.effective != self.group.real
    }

    /// The ids of `kind`.
    pub fn ids(&self, kind: Kind) -> (ids: Ids)
        ensures
            ids == self@.ids(kind),
    {
        match kind {
            Kind::User => self.user,
            Kind::Group => self.group,
        }
    }

    /// The ids of `kind`, to change.
    pub fn ids_mut(&mut self, kind: Kind) -> (ids: &mut Ids)
        ensures
            *ids == old(self)@.ids(kind),
            final(self)@ == old(self)@.with_ids(kind, *final(ids)),
    {
        match kind {
            Kind::User => &mut self.user,
            Kind::Group => &mut self.group,
        }
    }
}

// ---------------------------------------------------------------------------
// Who may do what to whom
// ---------------------------------------------------------------------------

/// `EPERM` unless the process may make a call only root may.
pub fn require_privilege(credentials: &Credentials) -> (allowed: Result<(), Errno>)
    ensures
        match allowed {
            Ok(_) => credentials@.privileged(),
            Err(e) => e == Errno::EPERM && !credentials@.privileged(),
        },
{
    if credentials.privileged() {
        Ok(())
    } else {
        Err(Errno::EPERM)
    }
}

/// Whether `caller` may change `target`'s scheduling: its effective uid is the
/// target's real or effective uid, or it is privileged.
pub open spec fn spec_same_owner(caller: Identity, target: Identity) -> bool {
    caller.privileged() || caller.user.effective == target.user.real || caller.user.effective
        == target.user.effective
}

/// Whether `caller` may change `target`'s scheduling.
pub fn same_owner(caller: &Credentials, target: &Credentials) -> (yes: bool)
    ensures
        yes == spec_same_owner(caller@, target@),
{
    let euid: u32 = caller.user.effective;
    caller.privileged() || euid == target.user.real || euid == target.user.effective
}

/// Whether `caller` may signal `target` by their ids: its real or effective
/// uid is the target's real or saved uid, or it is privileged.
pub open spec fn spec_may_signal(caller: Identity, target: Identity) -> bool {
    ||| caller.privileged()
    ||| caller.user.real == target.user.real
    ||| caller.user.real == target.user.saved
    ||| caller.user.effective == target.user.real
    ||| caller.user.effective == target.user.saved
}

/// Whether `caller` may signal `target` by their ids.
pub fn may_signal_ids(caller: &Credentials, target: &Credentials) -> (yes: bool)
    ensures
        yes == spec_may_signal(caller@, target@),
{
    let real_id: u32 = caller.user.real;
    let effective: u32 = caller.user.effective;
    caller.privileged() || real_id == target.user.real || real_id == target.user.saved || effective
        == target.user.real || effective == target.user.saved
}

/// Whether `caller` may read or change another process's limits: every one of
/// the target's real, effective and saved user and group ids is the caller's
/// real one, or the caller is privileged.
pub open spec fn spec_same_ids(caller: Identity, target: Identity) -> bool {
    caller.privileged() || {
        &&& target.user.real == caller.user.real
        &&& target.user.effective == caller.user.real
        &&& target.user.saved == caller.user.real
        &&& target.group.real == caller.group.real
        &&& target.group.effective == caller.group.real
        &&& target.group.saved == caller.group.real
    }
}

/// Whether `caller` may read or change another process's limits.
pub fn same_ids(caller: &Credentials, target: &Credentials) -> (yes: bool)
    ensures
        yes == spec_same_ids(caller@, target@),
{
    let uid: u32 = caller.user.real;
    let gid: u32 = caller.group.real;
    caller.privileged() || (target.user.real == uid && target.user.effective == uid
        && target.user.saved == uid && target.group.real == gid && target.group.effective == gid
        && target.group.saved == gid)
}

// ---------------------------------------------------------------------------
// Changing ids
// ---------------------------------------------------------------------------

/// One of the calls that change ids, with the ids it asks for.
#[derive(Clone, Copy, Debug, PartialEq, Eq, Structural)]
pub enum Rule {
    /// `setuid` and `setgid`.
    One { id: u32 },
    /// `setreuid` and `setregid`.
    RealEffective { real_id: u32, effective: u32 },
    /// `setresuid` and `setresgid`.
    RealEffectiveSaved { real_id: u32, effective: u32, saved: u32 },
}

/// The ids after `setuid` or `setgid`.
///
/// Privileged, all four become `id`. Unprivileged, `id` must be the real or
/// the saved id, and only the effective and filesystem ids change. `-1` is no
/// id.
pub open spec fn spec_set_id(ids: Ids, id: u32, privileged: bool) -> Result<Ids, Errno> {
    if id == UNCHANGED {
        Err(Errno::EINVAL)
    } else if privileged {
        Ok(Ids::all(id))
    } else if id == ids.real || id == ids.saved {
        Ok(Ids { effective: id, filesystem: id, ..ids })
    } else {
        Err(Errno::EPERM)
    }
}

/// `setuid` and `setgid`.
pub fn set_id(ids: &mut Ids, id: u32, privileged: bool) -> (done: Result<(), Errno>)
    ensures
        match spec_set_id(*old(ids), id, privileged) {
            Ok(new) => done is Ok && *final(ids) == new,
            Err(e) => done == Err::<(), Errno>(e) && *final(ids) == *old(ids),
        },
{
    if id == UNCHANGED {
        return Err(Errno::EINVAL);
    }
    if privileged {
        ids.real = id;
        ids.saved = id;
    } else if id != ids.real && id != ids.saved {
        return Err(Errno::EPERM);
    }
    ids.effective = id;
    ids.filesystem = id;
    Ok(())
}

/// `asked`, or what is there when nothing is asked for.
pub open spec fn spec_keep(asked: u32, current: u32) -> u32 {
    if asked == UNCHANGED {
        current
    } else {
        asked
    }
}

/// `asked`, or what is there when nothing is asked for.
fn keep(asked: u32, current: u32) -> (id: u32)
    ensures
        id == spec_keep(asked, current),
{
    if asked == UNCHANGED {
        current
    } else {
        asked
    }
}

/// The ids after `setreuid` or `setregid`.
///
/// Unprivileged, the real id may become the real or effective id, and the
/// effective id any of the three. The saved id follows the new effective id
/// whenever the real id is set, or the effective id is set to anything but the
/// old real id.
pub open spec fn spec_set_real_effective(
    ids: Ids,
    real_id: u32,
    effective: u32,
    privileged: bool,
) -> Result<Ids, Errno> {
    let real_allowed = real_id == UNCHANGED || privileged || real_id == ids.real || real_id
        == ids.effective;
    let effective_allowed = effective == UNCHANGED || privileged || ids.spec_is_own(effective);
    let now = spec_keep(effective, ids.effective);
    let follows = real_id != UNCHANGED || (effective != UNCHANGED && effective != ids.real);
    if real_allowed && effective_allowed {
        Ok(
            Ids {
                real: spec_keep(real_id, ids.real),
                effective: now,
                saved: if follows {
                    now
                } else {
                    ids.saved
                },
                filesystem: now,
            },
        )
    } else {
        Err(Errno::EPERM)
    }
}

/// `setreuid` and `setregid`.
pub fn set_real_effective(ids: &mut Ids, real_id: u32, effective: u32, privileged: bool) -> (done:
    Result<(), Errno>)
    ensures
        match spec_set_real_effective(*old(ids), real_id, effective, privileged) {
            Ok(new) => done is Ok && *final(ids) == new,
            Err(e) => done == Err::<(), Errno>(e) && *final(ids) == *old(ids),
        },
{
    let before: Ids = *ids;
    let mut new: Ids = before;
    if real_id != UNCHANGED {
        if !privileged && real_id != before.real && real_id != before.effective {
            return Err(Errno::EPERM);
        }
        new.real = real_id;
    }
    if effective != UNCHANGED {
        if !privileged && !before.is_own(effective) {
            return Err(Errno::EPERM);
        }
        new.effective = effective;
    }
    if real_id != UNCHANGED || (effective != UNCHANGED && effective != before.real) {
        new.saved = new.effective;
    }
    new.filesystem = new.effective;
    *ids = new;
    Ok(())
}

/// The ids after `setresuid` or `setresgid`: unprivileged, each id asked for
/// must already be one of the three.
pub open spec fn spec_set_real_effective_saved(
    ids: Ids,
    real_id: u32,
    effective: u32,
    saved: u32,
    privileged: bool,
) -> Result<Ids, Errno> {
    let allowed = |id: u32| id == UNCHANGED || ids.spec_is_own(id);
    if privileged || (allowed(real_id) && allowed(effective) && allowed(saved)) {
        Ok(
            Ids {
                real: spec_keep(real_id, ids.real),
                effective: spec_keep(effective, ids.effective),
                saved: spec_keep(saved, ids.saved),
                filesystem: spec_keep(effective, ids.effective),
            },
        )
    } else {
        Err(Errno::EPERM)
    }
}

/// `setresuid` and `setresgid`.
pub fn set_real_effective_saved(
    ids: &mut Ids,
    real_id: u32,
    effective: u32,
    saved: u32,
    privileged: bool,
) -> (done: Result<(), Errno>)
    ensures
        match spec_set_real_effective_saved(*old(ids), real_id, effective, saved, privileged) {
            Ok(new) => done is Ok && *final(ids) == new,
            Err(e) => done == Err::<(), Errno>(e) && *final(ids) == *old(ids),
        },
{
    let before: Ids = *ids;
    if !privileged && !((real_id == UNCHANGED || before.is_own(real_id)) && (effective == UNCHANGED
        || before.is_own(effective)) && (saved == UNCHANGED || before.is_own(saved))) {
        return Err(Errno::EPERM);
    }
    ids.real = keep(real_id, before.real);
    ids.effective = keep(effective, before.effective);
    ids.saved = keep(saved, before.saved);
    ids.filesystem = ids.effective;
    Ok(())
}

/// The ids after a call that changes them.
pub open spec fn spec_rule(ids: Ids, rule: Rule, privileged: bool) -> Result<Ids, Errno> {
    match rule {
        Rule::One { id } => spec_set_id(ids, id, privileged),
        Rule::RealEffective { real_id, effective } => spec_set_real_effective(
            ids,
            real_id,
            effective,
            privileged,
        ),
        Rule::RealEffectiveSaved { real_id, effective, saved } => spec_set_real_effective_saved(
            ids,
            real_id,
            effective,
            saved,
            privileged,
        ),
    }
}

/// Who the process is after a call that changes its ids of `kind`, and what
/// the call answers: all the ids it names change, or none of them.
pub open spec fn spec_change(who: Identity, kind: Kind, rule: Rule) -> (
    Identity,
    Result<usize, Errno>,
) {
    match spec_rule(who.ids(kind), rule, who.privileged()) {
        Ok(ids) => (who.with_ids(kind, ids), Ok(0)),
        Err(e) => (who, Err(e)),
    }
}

/// Apply `rule` to the ids of `kind`, privileged as the effective uid was when
/// the call began.
pub fn change(credentials: &mut Credentials, kind: Kind, rule: Rule) -> (result: Result<
    usize,
    Errno,
>)
    ensures
        (final(credentials)@, result) == spec_change(old(credentials)@, kind, rule),
{
    let privileged = credentials.privileged();
    let mut ids: Ids = credentials.ids(kind);
    let done = match rule {
        Rule::One { id } => set_id(&mut ids, id, privileged),
        Rule::RealEffective { real_id, effective } => set_real_effective(
            &mut ids,
            real_id,
            effective,
            privileged,
        ),
        Rule::RealEffectiveSaved { real_id, effective, saved } => set_real_effective_saved(
            &mut ids,
            real_id,
            effective,
            saved,
            privileged,
        ),
    };
    match done {
        Ok(_) => {
            let place = credentials.ids_mut(kind);
            *place = ids;
            Ok(0)
        },
        Err(e) => Err(e),
    }
}

/// The ids after `setfsuid` or `setfsgid`: the filesystem id becomes `id` if
/// it is one of the process's four, or the process is privileged.
pub open spec fn spec_set_filesystem_id(ids: Ids, id: u32, privileged: bool) -> Ids {
    if id != UNCHANGED && (privileged || ids.spec_is_own(id) || id == ids.filesystem) {
        Ids { filesystem: id, ..ids }
    } else {
        ids
    }
}

/// `setfsuid` and `setfsgid`. The old filesystem id is the answer, whether or
/// not it changed.
pub fn set_filesystem_id(credentials: &mut Credentials, kind: Kind, id: u32) -> (answer: u32)
    ensures
        answer == old(credentials)@.ids(kind).filesystem,
        final(credentials)@ == old(credentials)@.with_ids(
            kind,
            spec_set_filesystem_id(
                old(credentials)@.ids(kind),
                id,
                old(credentials)@.privileged(),
            ),
        ),
{
    let privileged = credentials.privileged();
    let place = credentials.ids_mut(kind);
    let before: u32 = place.filesystem;
    if id != UNCHANGED && (privileged || place.is_own(id) || id == before) {
        place.filesystem = id;
    }
    before
}

/// Without privilege, no call gives a process an id it did not already have.
pub proof fn law_without_privilege_no_new_id(ids: Ids, rule: Rule)
    ensures
        match spec_rule(ids, rule, false) {
            Ok(new) => {
                &&& ids.spec_is_own(new.real)
                &&& ids.spec_is_own(new.effective)
                &&& ids.spec_is_own(new.saved)
                &&& ids.spec_is_own(new.filesystem)
            },
            Err(_) => true,
        },
{
}

/// A process that has given root up, so that none of its three user ids is 0,
/// cannot take it back: whatever it asks for, of either kind, it is still
/// unprivileged and still has no user id 0.
pub proof fn law_root_given_up_stays_given_up(who: Identity, kind: Kind, rule: Rule)
    requires
        !who.user.spec_is_own(0),
    ensures
        !who.privileged(),
        !spec_change(who, kind, rule).0.user.spec_is_own(0),
        !spec_change(who, kind, rule).0.privileged(),
{
}

/// A process whose effective uid was moved away from 0 while 0 stayed its
/// real or saved uid can take it back.
pub proof fn law_root_set_aside_comes_back(who: Identity)
    requires
        who.user.real == 0 || who.user.saved == 0,
    ensures
        spec_change(who, Kind::User, Rule::One { id: 0 }).1 == Ok::<usize, Errno>(0),
        spec_change(who, Kind::User, Rule::One { id: 0 }).0.privileged(),
{
}

/// A refused call changes nothing.
pub proof fn law_a_refused_change_changes_nothing(who: Identity, kind: Kind, rule: Rule)
    requires
        spec_change(who, kind, rule).1 is Err,
    ensures
        spec_change(who, kind, rule).0 == who,
{
}

/// A call that changes the user ids leaves the group ids and the groups
/// alone, and the other way round.
pub proof fn law_the_kinds_are_apart(who: Identity, rule: Rule)
    ensures
        spec_change(who, Kind::User, rule).0.group == who.group,
        spec_change(who, Kind::Group, rule).0.user == who.user,
        spec_change(who, Kind::User, rule).0.groups == who.groups,
        spec_change(who, Kind::Group, rule).0.groups == who.groups,
{
}

// ---------------------------------------------------------------------------
// Reporting ids and groups
// ---------------------------------------------------------------------------

/// What writing three 32-bit ids at three places comes to, one after another;
/// the first that cannot be written ends it.
pub open spec fn spec_getresid(m: Memory, ids: Ids, a: u64, b: u64, c: u64) -> (
    Memory,
    Result<usize, Errno>,
) {
    match m.put(a as int, le_bytes(ids.real as nat, 4)) {
        Err(e) => (m, Err(e)),
        Ok(first) => match first.put(b as int, le_bytes(ids.effective as nat, 4)) {
            Err(e) => (first, Err(e)),
            Ok(second) => match second.put(c as int, le_bytes(ids.saved as nat, 4)) {
                Err(e) => (second, Err(e)),
                Ok(third) => (third, Ok(0)),
            },
        },
    }
}

/// `getresuid` and `getresgid`: the real, effective and saved ids, each 32
/// bits, written one after another.
pub fn sys_getresid(
    space: &mut AddressSpace,
    credentials: &Credentials,
    kind: Kind,
    a: u64,
    b: u64,
    c: u64,
) -> (result: Result<usize, Errno>)
    requires
        old(space).wf(),
    ensures
        final(space).wf(),
        final(space).same_layout(*old(space)),
        (final(space)@, result) == spec_getresid(old(space)@, credentials@.ids(kind), a, b, c),
{
    let ids: Ids = credentials.ids(kind);
    proof {
        lemma_le_bytes_len(ids.real as nat, 4);
        lemma_le_bytes_len(ids.effective as nat, 4);
        lemma_le_bytes_len(ids.saved as nat, 4);
    }
    space.put_u32(a, ids.real)?;
    space.put_u32(b, ids.effective)?;
    space.put_u32(c, ids.saved)?;
    Ok(0)
}

/// A list of 32-bit numbers as they lie in memory.
pub open spec fn words(list: Seq<u32>) -> Seq<u8> {
    Seq::new(4 * list.len(), |i: int| le_bytes(list[i / 4] as nat, 4)[i % 4])
}

/// The `count` 32-bit numbers at `at`.
pub open spec fn words_at(m: Memory, at: int, count: nat) -> Seq<u32> {
    Seq::new(count, |i: int| m.number(at + 4 * i, 4) as u32)
}

/// A list of 32-bit numbers as they lie in memory.
fn encode_words(list: &Vec<u32>) -> (bytes: Vec<u8>)
    ensures
        bytes@ == words(list@),
{
    let mut bytes: Vec<u8> = Vec::new();
    let mut i: usize = 0;
    while i < list.len()
        invariant
            i <= list@.len(),
            bytes@ == words(list@.take(i as int)),
        decreases list@.len() - i,
    {
        let mut word = le_encode(list[i] as u64, 4);
        proof {
            lemma_le_bytes_len(list@[i as int] as nat, 4);
            assert(words(list@.take(i + 1)) =~= words(list@.take(i as int)) + word@);
        }
        bytes.append(&mut word);
        i = i + 1;
    }
    assert(list@.take(list@.len() as int) =~= list@);
    bytes
}

/// What `getgroups` does to memory, and its answer.
pub open spec fn spec_getgroups(m: Memory, groups: Seq<u32>, size: int, list: u64) -> (
    Memory,
    Result<usize, Errno>,
) {
    if size < 0 {
        (m, Err(Errno::EINVAL))
    } else if size == 0 {
        (m, Ok(groups.len() as usize))
    } else if size < groups.len() {
        (m, Err(Errno::EINVAL))
    } else {
        match m.put(list as int, words(groups)) {
            Ok(after) => (after, Ok(groups.len() as usize)),
            Err(e) => (m, Err(e)),
        }
    }
}

/// `getgroups`: the supplementary groups, each 32 bits.
///
/// A size of zero asks only for the count. `EINVAL` for a negative size or
/// one smaller than the count; `EFAULT` for a list that cannot be written.
pub fn sys_getgroups(
    space: &mut AddressSpace,
    credentials: &Credentials,
    size: i32,
    list: u64,
) -> (result: Result<usize, Errno>)
    requires
        old(space).wf(),
    ensures
        final(space).wf(),
        final(space).same_layout(*old(space)),
        (final(space)@, result) == spec_getgroups(
            old(space)@,
            credentials@.groups,
            size as int,
            list,
        ),
{
    if size < 0 {
        return Err(Errno::EINVAL);
    }
    let count: usize = credentials.groups.len();
    if size == 0 {
        return Ok(count);
    }
    if (size as usize) < count {
        return Err(Errno::EINVAL);
    }
    let bytes = encode_words(&credentials.groups);
    space.copy_to_user(list, bytes.as_slice())?;
    Ok(count)
}

/// The order groups are kept in.
pub open spec fn ascending() -> spec_fn(u32, u32) -> bool {
    |a: u32, b: u32| a <= b
}

/// What `setgroups` makes of the groups, and its answer: `EPERM` unless
/// privileged, then `EINVAL` for more than [`NGROUPS_MAX`], then `EFAULT` for
/// a list that cannot be read, then `EINVAL` for a group of `-1`.
pub open spec fn spec_setgroups(m: Memory, who: Identity, size: u32, list: u64) -> (
    Identity,
    Result<usize, Errno>,
) {
    let asked = words_at(m, list as int, size as nat);
    if !who.privileged() {
        (who, Err(Errno::EPERM))
    } else if size > NGROUPS_MAX {
        (who, Err(Errno::EINVAL))
    } else if !m.can_read(list as int, 4 * size as int) {
        (who, Err(Errno::EFAULT))
    } else if asked.contains(UNCHANGED) {
        (who, Err(Errno::EINVAL))
    } else {
        (Identity { groups: asked.sort_by(ascending()), ..who }, Ok(0))
    }
}

/// Read a `setgroups` list of `size` groups.
fn read_groups(space: &AddressSpace, size: u32, list: u64) -> (groups: Result<Vec<u32>, Errno>)
    requires
        space.wf(),
        size <= NGROUPS_MAX,
    ensures
        match groups {
            Ok(found) => {
                &&& space@.can_read(list as int, 4 * size as int)
                &&& found@ == words_at(space@, list as int, size as nat)
                &&& !found@.contains(UNCHANGED)
            },
            Err(e) => {
                ||| e == Errno::EFAULT && !space@.can_read(list as int, 4 * size as int)
                ||| e == Errno::EINVAL && space@.can_read(list as int, 4 * size as int)
                    && words_at(space@, list as int, size as nat).contains(UNCHANGED)
            },
        },
{
    let groups = read_words(space, list, size as usize)?;
    let mut i: usize = 0;
    while i < groups.len()
        invariant
            i <= groups@.len(),
            space@.can_read(list as int, 4 * size as int),
            groups@ == words_at(space@, list as int, size as nat),
            forall|j: int| 0 <= j < i ==> groups@[j] != UNCHANGED,
        decreases groups@.len() - i,
    {
        if groups[i] == UNCHANGED {
            assert(groups@[i as int] == UNCHANGED);
            return Err(Errno::EINVAL);
        }
        i = i + 1;
    }
    Ok(groups)
}

/// Put `x` into the sorted list at its place.
fn place(sorted: &mut Vec<u32>, x: u32)
    requires
        sorted_by(old(sorted)@, ascending()),
    ensures
        sorted_by(final(sorted)@, ascending()),
        final(sorted)@.to_multiset() == old(sorted)@.push(x).to_multiset(),
{
    let ghost before = sorted@;
    let mut at: usize = sorted.len();
    while at > 0 && sorted[at - 1] > x
        invariant
            at <= sorted@.len(),
            sorted@ == before,
            forall|j: int| at <= j < sorted@.len() ==> sorted@[j] > x,
        decreases at,
    {
        at = at - 1;
    }
    sorted.insert(at, x);
    proof {
        assert(sorted@ == before.insert(at as int, x));
        assert forall|i: int, j: int| 0 <= i < j < sorted@.len() implies #[trigger] ascending()(
            sorted@[i],
            sorted@[j],
        ) by {
            if i < at && at > 0 {
                let top = before[at - 1];
                assert(i < at - 1 ==> ascending()(before[i], top));
            }
            let left = if i < at {
                i
            } else {
                i - 1
            };
            let right = if j < at {
                j
            } else {
                j - 1
            };
            if i != at && j != at && left < right {
                assert(ascending()(before[left], before[right]));
            }
        }
        before.insert_ensures(at as int, x);
        vstd::seq_lib::to_multiset_insert(before, at as int, x);
        vstd::seq_lib::to_multiset_insert(before, before.len() as int, x);
        assert(before.insert(before.len() as int, x) =~= before.push(x));
    }
}

/// `list` in ascending order.
fn sorted_groups(list: &Vec<u32>) -> (sorted: Vec<u32>)
    ensures
        sorted@ == list@.sort_by(ascending()),
{
    let mut sorted: Vec<u32> = Vec::new();
    let mut i: usize = 0;
    assert(sorted@ =~= list@.take(0));
    while i < list.len()
        invariant
            i <= list@.len(),
            sorted_by(sorted@, ascending()),
            sorted@.to_multiset() == list@.take(i as int).to_multiset(),
        decreases list@.len() - i,
    {
        let ghost before = sorted@;
        place(&mut sorted, list[i]);
        proof {
            let x = list@[i as int];
            broadcast use vstd::seq_lib::group_to_multiset_ensures;
            assert(list@.take(i + 1) =~= list@.take(i as int).push(x));
            assert(before.push(x).to_multiset() =~= list@.take(i as int).push(x).to_multiset());
        }
        i = i + 1;
    }
    proof {
        assert(list@.take(list@.len() as int) =~= list@);
        assert(total_ordering(ascending()));
        list@.lemma_sort_by_ensures(ascending());
        vstd::seq_lib::lemma_sorted_unique(sorted@, list@.sort_by(ascending()), ascending());
    }
    sorted
}

/// `setgroups`: the list is read, checked, and stored sorted.
pub fn sys_setgroups(
    space: &AddressSpace,
    credentials: &mut Credentials,
    size: u32,
    list: u64,
) -> (result: Result<usize, Errno>)
    requires
        space.wf(),
    ensures
        (final(credentials)@, result) == spec_setgroups(
            space@,
            old(credentials)@,
            size,
            list,
        ),
{
    if !credentials.privileged() {
        return Err(Errno::EPERM);
    }
    if size > NGROUPS_MAX {
        return Err(Errno::EINVAL);
    }
    let groups = read_groups(space, size, list)?;
    credentials.groups = sorted_groups(&groups);
    Ok(0)
}

// ---------------------------------------------------------------------------
// Capabilities
// ---------------------------------------------------------------------------

/// How many data structures a capability version has, if it is one the kernel
/// speaks.
pub open spec fn spec_data_count(version: u32) -> Option<usize> {
    if version == CAPABILITY_VERSION_1 {
        Some(1)
    } else if version == CAPABILITY_VERSION_2 || version == CAPABILITY_VERSION_3 {
        Some(2)
    } else {
        None
    }
}

/// How many data structures a capability version reads or writes, or `None`
/// for a version the kernel does not speak.
pub fn data_count(version: u32) -> (count: Option<usize>)
    ensures
        count == spec_data_count(version),
{
    if version == CAPABILITY_VERSION_1 {
        Some(1)
    } else if version == CAPABILITY_VERSION_2 || version == CAPABILITY_VERSION_3 {
        Some(2)
    } else {
        None
    }
}

/// What a capability header comes to: how many data structures go with it, or
/// `EINVAL` for a version the kernel does not speak, once the preferred one
/// has been written in its place.
pub open spec fn spec_validate_version(m: Memory, header: u64) -> (Memory, Result<usize, Errno>) {
    if !m.can_read(header as int, 4) {
        (m, Err(Errno::EFAULT))
    } else {
        match spec_data_count(m.number(header as int, 4) as u32) {
            Some(count) => (m, Ok(count)),
            None => match m.put(header as int, le_bytes(CAPABILITY_VERSION_3 as nat, 4)) {
                Ok(after) => (after, Err(Errno::EINVAL)),
                Err(e) => (m, Err(e)),
            },
        }
    }
}

/// Read and check a capability header's version.
///
/// An unknown version is how a program asks which one the kernel prefers: the
/// preferred one is written into the header, and the answer is `EINVAL`.
fn validate_version(space: &mut AddressSpace, header: u64) -> (count: Result<usize, Errno>)
    requires
        old(space).wf(),
    ensures
        final(space).wf(),
        final(space).same_layout(*old(space)),
        (final(space)@, count) == spec_validate_version(old(space)@, header),
        count is Ok ==> header + 4 <= u64::MAX && *final(space) == *old(space),
{
    let version: u32 = space.get_u32(header)?;
    match data_count(version) {
        Some(count) => {
            proof {
                assert(space@.bytes.dom().contains(header + 3));
                if header + 4 > u64::MAX {
                    space.lemma_unmapped_above(header + 3);
                }
            }
            Ok(count)
        },
        None => {
            proof {
                lemma_le_bytes_len(CAPABILITY_VERSION_3 as nat, 4);
            }
            space.put_u32(header, CAPABILITY_VERSION_3)?;
            Err(Errno::EINVAL)
        },
    }
}

/// The capability sets of a process: two words each, effective, permitted and
/// inheritable, one structure per word. All of them effective and permitted
/// with privilege, and none without.
pub open spec fn capability_sets(privileged: bool) -> Seq<u32> {
    if privileged {
        seq![0xFFFF_FFFFu32, 0xFFFF_FFFFu32, 0, CAP_HIGH, CAP_HIGH, 0]
    } else {
        seq![0u32, 0, 0, 0, 0, 0]
    }
}

/// What `capget` does to memory, and its answer.
pub open spec fn spec_capget(
    m: Memory,
    process: Process,
    live: Seq<Process>,
    header: u64,
    data: u64,
) -> (Memory, Result<usize, Errno>) {
    let (checked, validated) = spec_validate_version(m, header);
    if data == 0 {
        match validated {
            Ok(_) => (checked, Ok(0)),
            Err(Errno::EINVAL) => (checked, Ok(0)),
            Err(e) => (checked, Err(e)),
        }
    } else {
        match validated {
            Err(e) => (checked, Err(e)),
            Ok(count) => {
                let pid = spec_signed_32(m.number(header + 4, 4) as int);
                if !m.can_read(header + 4, 4) {
                    (m, Err(Errno::EFAULT))
                } else if pid < 0 {
                    (m, Err(Errno::EINVAL))
                } else {
                    match spec_subject(process, live, pid) {
                        Err(e) => (m, Err(e)),
                        Ok(subject) => {
                            let sets = capability_sets(
                                spec_of(process, live, subject).credentials@.privileged(),
                            );
                            match m.put(data as int, words(sets.take(3 * count as int))) {
                                Ok(after) => (after, Ok(0)),
                                Err(e) => (m, Err(e)),
                            }
                        },
                    }
                }
            },
        }
    }
}

/// The first `count` structures of a process's capability sets.
fn encode_sets(privileged: bool, count: usize) -> (list: Vec<u32>)
    requires
        count == 1 || count == 2,
    ensures
        list@ == capability_sets(privileged).take(3 * count as int),
{
    let (low, high): (u32, u32) = if privileged {
        (0xFFFF_FFFF, CAP_HIGH)
    } else {
        (0, 0)
    };
    let mut list: Vec<u32> = Vec::new();
    list.push(low);
    list.push(low);
    list.push(0);
    if count == 2 {
        list.push(high);
        list.push(high);
        list.push(0);
    }
    assert(list@ =~= capability_sets(privileged).take(3 * count as int));
    list
}

/// `capget`: for a privileged process every capability effective and permitted
/// and none inheritable; for any other, every set empty.
///
/// A version probe with a null data pointer succeeds, having written the
/// preferred version. `EINVAL` for a negative pid, `ESRCH` for one nothing
/// has.
pub fn sys_capget(
    space: &mut AddressSpace,
    process: &Process,
    live: &Vec<Process>,
    header: u64,
    data: u64,
) -> (result: Result<usize, Errno>)
    requires
        old(space).wf(),
    ensures
        final(space).wf(),
        final(space).same_layout(*old(space)),
        (final(space)@, result) == spec_capget(old(space)@, *process, live@, header, data),
{
    let validated = validate_version(space, header);
    if data == 0 {
        return match validated {
            Ok(_) => Ok(0),
            Err(Errno::EINVAL) => Ok(0),
            Err(e) => Err(e),
        };
    }
    let count: usize = validated?;
    let pid: i32 = signed_32(space.get_u32(header + 4)?);
    if pid < 0 {
        return Err(Errno::EINVAL);
    }
    let named = subject(process, live, pid)?;
    let privileged = of(process, live, named).credentials.privileged();
    let sets = encode_sets(privileged, count);
    let bytes = encode_words(&sets);
    space.copy_to_user(data, bytes.as_slice())?;
    Ok(0)
}

/// What `capset` does to memory, and its answer.
pub open spec fn spec_capset(m: Memory, process: Process, header: u64, data: u64) -> (
    Memory,
    Result<usize, Errno>,
) {
    match spec_validate_version(m, header) {
        (checked, Err(e)) => (checked, Err(e)),
        (_, Ok(count)) => {
            let pid = spec_signed_32(m.number(header + 4, 4) as int);
            let asked = words_at(m, data as int, 3 * count as nat);
            if !m.can_read(header + 4, 4) {
                (m, Err(Errno::EFAULT))
            } else if pid != 0 && pid != process.pid {
                (m, Err(Errno::EPERM))
            } else if !m.can_read(data as int, CAP_DATA * count) {
                (m, Err(Errno::EFAULT))
            } else if !process.credentials@.privileged() && spec_any_above(asked, 0, 0) {
                (m, Err(Errno::EPERM))
            } else if spec_any_above(asked, 3, CAP_HIGH) {
                (m, Err(Errno::EPERM))
            } else {
                (m, Ok(0))
            }
        },
    }
}

/// The `count` 32-bit numbers at `at`; `EFAULT` if they cannot be read.
fn read_words(space: &AddressSpace, at: u64, count: usize) -> (list: Result<Vec<u32>, Errno>)
    requires
        space.wf(),
        count <= 0x1000_0000,
    ensures
        match list {
            Ok(found) => space@.can_read(at as int, 4 * count as int) && found@ == words_at(
                space@,
                at as int,
                count as nat,
            ),
            Err(e) => e == Errno::EFAULT && !space@.can_read(at as int, 4 * count as int),
        },
{
    let bytes = space.copy_from_user(at, count * 4)?;
    let ghost all = words_at(space@, at as int, count as nat);
    let mut list: Vec<u32> = Vec::new();
    let mut i: usize = 0;
    while i < count
        invariant
            i <= count <= 0x1000_0000,
            bytes@ == space@.read(at as int, 4 * count as nat),
            space@.can_read(at as int, 4 * count as int),
            all == words_at(space@, at as int, count as nat),
            list@ == all.take(i as int),
        decreases count - i,
    {
        let word = vstd::slice::slice_subrange(bytes.as_slice(), 4 * i, 4 * i + 4);
        let v: u64 = le_decode(word);
        proof {
            assert(word@ =~= space@.read(at + 4 * i, 4));
            lemma_byte_spans();
            lemma_le_value_bound(word@);
        }
        list.push(v as u32);
        assert(list@ =~= all.take(i + 1));
        i = i + 1;
    }
    assert(all.take(all.len() as int) =~= all);
    Ok(list)
}

/// Whether one of the numbers from `from` on is above `most`.
pub open spec fn spec_any_above(list: Seq<u32>, from: int, most: u32) -> bool {
    exists|i: int| from <= i < list.len() && list[i] > most
}

/// Whether one of the numbers from `from` on is above `most`.
fn any_above(list: &Vec<u32>, from: usize, most: u32) -> (yes: bool)
    ensures
        yes == spec_any_above(list@, from as int, most),
{
    let mut i: usize = from;
    while i < list.len()
        invariant
            from <= i,
            forall|j: int| from <= j < i && j < list@.len() ==> list@[j] <= most,
        decreases list@.len() - i,
    {
        if list[i] > most {
            return true;
        }
        i = i + 1;
    }
    false
}

/// `capset`: accepted for the caller, within the capabilities it has.
///
/// Another process is `EPERM`, and so are bits above [`CAP_LAST_CAP`], and any
/// bit at all without privilege. A narrower set from root is accepted and not
/// enforced: nothing checks a capability, so there is nothing to narrow.
pub fn sys_capset(space: &mut AddressSpace, process: &Process, header: u64, data: u64) -> (result:
    Result<usize, Errno>)
    requires
        old(space).wf(),
    ensures
        final(space).wf(),
        final(space).same_layout(*old(space)),
        (final(space)@, result) == spec_capset(old(space)@, *process, header, data),
{
    let count: usize = validate_version(space, header)?;
    let pid: i32 = signed_32(space.get_u32(header + 4)?);
    if pid < 0 || (pid != 0 && pid as u32 != process.pid) {
        return Err(Errno::EPERM);
    }
    let asked = read_words(space, data, 3 * count)?;
    if !process.credentials.privileged() && any_above(&asked, 0, 0) {
        return Err(Errno::EPERM);
    }
    if any_above(&asked, 3, CAP_HIGH) {
        return Err(Errno::EPERM);
    }
    Ok(0)
}

/// The bits [`sys_capset`] refuses are exactly those above [`CAP_LAST_CAP`].
pub proof fn law_the_high_word_ends_at_the_last_capability(word: u32)
    ensures
        word > CAP_HIGH <==> word & !CAP_HIGH != 0,
        CAP_HIGH == (1u32 << ((CAP_LAST_CAP - 31) as u32)) - 1,
{
    assert(word > 0x1FF <==> word & !0x1FFu32 != 0) by (bit_vector);
    assert(0x1FF == (1u32 << 9u32) - 1) by (bit_vector);
}

// ---------------------------------------------------------------------------
// The calls
// ---------------------------------------------------------------------------

/// `getuid`, `geteuid`, `getgid` and `getegid`, or `None` for any other call.
pub open spec fn spec_identity(call: Syscall, who: Identity) -> Option<u32> {
    match call {
        Syscall::Getuid => Some(who.user.real),
        Syscall::Geteuid => Some(who.user.effective),
        Syscall::Getgid => Some(who.group.real),
        Syscall::Getegid => Some(who.group.effective),
        _ => None,
    }
}

/// `getuid`, `geteuid`, `getgid` and `getegid`, or `None` for any other call.
pub fn identity(call: Syscall, credentials: &Credentials) -> (id: Option<u32>)
    ensures
        id == spec_identity(call, credentials@),
{
    match call {
        Syscall::Getuid => Some(credentials.user.real),
        Syscall::Geteuid => Some(credentials.user.effective),
        Syscall::Getgid => Some(credentials.group.real),
        Syscall::Getegid => Some(credentials.group.effective),
        _ => None,
    }
}

/// The kind of id a call is about.
pub open spec fn spec_kind(call: Syscall) -> Kind {
    match call {
        Syscall::Setgid => Kind::Group,
        Syscall::Setregid => Kind::Group,
        Syscall::Setresgid => Kind::Group,
        Syscall::Setfsgid => Kind::Group,
        Syscall::Getresgid => Kind::Group,
        _ => Kind::User,
    }
}

/// The kind of id a call is about.
fn kind_of(call: Syscall) -> (kind: Kind)
    ensures
        kind == spec_kind(call),
{
    match call {
        Syscall::Setgid => Kind::Group,
        Syscall::Setregid => Kind::Group,
        Syscall::Setresgid => Kind::Group,
        Syscall::Setfsgid => Kind::Group,
        Syscall::Getresgid => Kind::Group,
        _ => Kind::User,
    }
}

/// A register as an id: its low 32 bits.
pub open spec fn spec_id(v: u64) -> u32 {
    spec_low_u32(v as int) as u32
}

/// The change of ids a call asks for, if it is one that changes them.
pub open spec fn spec_rule_of(call: Syscall, a: Seq<u64>) -> Option<Rule> {
    match call {
        Syscall::Setuid => Some(Rule::One { id: spec_id(a[0]) }),
        Syscall::Setgid => Some(Rule::One { id: spec_id(a[0]) }),
        Syscall::Setreuid => Some(
            Rule::RealEffective { real_id: spec_id(a[0]), effective: spec_id(a[1]) },
        ),
        Syscall::Setregid => Some(
            Rule::RealEffective { real_id: spec_id(a[0]), effective: spec_id(a[1]) },
        ),
        Syscall::Setresuid => Some(
            Rule::RealEffectiveSaved {
                real_id: spec_id(a[0]),
                effective: spec_id(a[1]),
                saved: spec_id(a[2]),
            },
        ),
        Syscall::Setresgid => Some(
            Rule::RealEffectiveSaved {
                real_id: spec_id(a[0]),
                effective: spec_id(a[1]),
                saved: spec_id(a[2]),
            },
        ),
        _ => None,
    }
}

/// The change of ids a call asks for, if it is one that changes them.
fn rule_of(call: Syscall, a: &[u64; 6]) -> (rule: Option<Rule>)
    ensures
        rule == spec_rule_of(call, a@),
{
    let first: u32 = low_u32(a[0]);
    let second: u32 = low_u32(a[1]);
    let third: u32 = low_u32(a[2]);
    match call {
        Syscall::Setuid => Some(Rule::One { id: first }),
        Syscall::Setgid => Some(Rule::One { id: first }),
        Syscall::Setreuid => Some(Rule::RealEffective { real_id: first, effective: second }),
        Syscall::Setregid => Some(Rule::RealEffective { real_id: first, effective: second }),
        Syscall::Setresuid => Some(
            Rule::RealEffectiveSaved { real_id: first, effective: second, saved: third },
        ),
        Syscall::Setresgid => Some(
            Rule::RealEffectiveSaved { real_id: first, effective: second, saved: third },
        ),
        _ => None,
    }
}

/// What one of this module's calls does to memory and to who the process is,
/// and its answer; `None` for a call that is not one of them.
pub open spec fn spec_dispatch(
    m: Memory,
    process: Process,
    live: Seq<Process>,
    call: Syscall,
    a: Seq<u64>,
) -> Option<(Memory, Identity, Result<usize, Errno>)> {
    let who = process.credentials@;
    let kind = spec_kind(call);
    match spec_rule_of(call, a) {
        Some(rule) => {
            let (changed, answer) = spec_change(who, kind, rule);
            Some((m, changed, answer))
        },
        None => match call {
            Syscall::Setfsuid => Some(
                (
                    m,
                    who.with_ids(
                        kind,
                        spec_set_filesystem_id(who.ids(kind), spec_id(a[0]), who.privileged()),
                    ),
                    Ok(who.ids(kind).filesystem as usize),
                ),
            ),
            Syscall::Setfsgid => Some(
                (
                    m,
                    who.with_ids(
                        kind,
                        spec_set_filesystem_id(who.ids(kind), spec_id(a[0]), who.privileged()),
                    ),
                    Ok(who.ids(kind).filesystem as usize),
                ),
            ),
            Syscall::Getresuid => {
                let (after, answer) = spec_getresid(m, who.ids(kind), a[0], a[1], a[2]);
                Some((after, who, answer))
            },
            Syscall::Getresgid => {
                let (after, answer) = spec_getresid(m, who.ids(kind), a[0], a[1], a[2]);
                Some((after, who, answer))
            },
            Syscall::Getgroups => {
                let (after, answer) = spec_getgroups(m, who.groups, spec_int(a[0] as int), a[1]);
                Some((after, who, answer))
            },
            Syscall::Setgroups => {
                let (changed, answer) = spec_setgroups(m, who, spec_id(a[0]), a[1]);
                Some((m, changed, answer))
            },
            Syscall::Capget => {
                let (after, answer) = spec_capget(m, process, live, a[0], a[1]);
                Some((after, who, answer))
            },
            Syscall::Capset => {
                let (after, answer) = spec_capset(m, process, a[0], a[1]);
                Some((after, who, answer))
            },
            _ => None,
        },
    }
}

/// Answer `call` if it is one of this module's.
pub fn dispatch(
    call: Syscall,
    a: &[u64; 6],
    space: &mut AddressSpace,
    process: &mut Process,
    live: &Vec<Process>,
) -> (answer: Option<Result<usize, Errno>>)
    requires
        old(space).wf(),
    ensures
        final(space).wf(),
        final(space).same_layout(*old(space)),
        final(process).pid == old(process).pid,
        final(process).started == old(process).started,
        final(process).pgid == old(process).pgid,
        final(process).comm == old(process).comm,
        match spec_dispatch(old(space)@, *old(process), live@, call, a@) {
            Some((after, who, result)) => {
                &&& answer == Some(result)
                &&& final(space)@ == after
                &&& final(process).credentials@ == who
            },
            None => {
                &&& answer is None
                &&& *final(space) == *old(space)
                &&& *final(process) == *old(process)
            },
        },
{
    if let Some(rule) = rule_of(call, a) {
        return Some(change(&mut process.credentials, kind_of(call), rule));
    }
    let id: u32 = low_u32(a[0]);
    match call {
        Syscall::Setfsuid => Some(
            Ok(set_filesystem_id(&mut process.credentials, kind_of(call), id) as usize),
        ),
        Syscall::Setfsgid => Some(
            Ok(set_filesystem_id(&mut process.credentials, kind_of(call), id) as usize),
        ),
        Syscall::Getresuid => Some(
            sys_getresid(space, &process.credentials, kind_of(call), a[0], a[1], a[2]),
        ),
        Syscall::Getresgid => Some(
            sys_getresid(space, &process.credentials, kind_of(call), a[0], a[1], a[2]),
        ),
        Syscall::Getgroups => Some(
            sys_getgroups(space, &process.credentials, signed_32(id), a[1]),
        ),
        Syscall::Setgroups => Some(sys_setgroups(space, &mut process.credentials, id, a[1])),
        Syscall::Capget => Some(sys_capget(space, process, live, a[0], a[1])),
        Syscall::Capset => Some(sys_capset(space, process, a[0], a[1])),
        _ => None,
    }
}

// ---------------------------------------------------------------------------
// What the identities of a process are for
// ---------------------------------------------------------------------------

/// A program starts as its caller's user, with the rights of its file's owner
/// where the file says so, and able to come back to them.
pub proof fn law_a_program_starts_with_its_files_rights(ids: Ids, owner: Option<u32>)
    ensures
        ({
            let after = spec_exec_ids(ids, owner);
            &&& after.real == ids.real
            &&& owner matches Some(id) ==> after.effective == id
            &&& owner is None ==> after.effective == ids.effective
            &&& after.saved == after.effective
            &&& after.filesystem == after.effective
        }),
{
}

/// Only the privileged act on others: anyone else only on what runs as one of
/// their own.
pub proof fn law_only_the_privileged_act_on_others(caller: Identity, target: Identity)
    ensures
        caller.user.effective == 0 ==> spec_may_signal(caller, target) && spec_same_owner(
            caller,
            target,
        ) && spec_same_ids(caller, target),
        spec_may_signal(caller, target) && caller.user.effective != 0 ==> {
            ||| target.user.real == caller.user.real
            ||| target.user.real == caller.user.effective
            ||| target.user.saved == caller.user.real
            ||| target.user.saved == caller.user.effective
        },
        target.user.real == caller.user.real || target.user.real == caller.user.effective
            || target.user.saved == caller.user.real || target.user.saved
            == caller.user.effective ==> spec_may_signal(caller, target),
        spec_same_owner(caller, target) <==> caller.user.effective == 0 || target.user.real
            == caller.user.effective || target.user.effective == caller.user.effective,
        spec_same_ids(caller, target) && caller.user.effective != 0 ==> target.user.real
            == caller.user.real && target.user.effective == caller.user.real && target.user.saved
            == caller.user.real && target.group.real == caller.group.real
            && target.group.effective == caller.group.real && target.group.saved
            == caller.group.real,
        caller.privileged() <==> caller.user.effective == 0,
{
}

/// Setting one id sets all of them for the privileged, for good; anyone else
/// changes only what they act as, and only to an id they have set aside.
pub proof fn law_setting_one_id(ids: Ids, id: u32, privileged: bool)
    ensures
        ({
            let after = spec_set_id(ids, id, privileged);
            let own = id == ids.real || id == ids.saved;
            &&& id == 0xFFFF_FFFF ==> after == Err::<Ids, Errno>(Errno::EINVAL)
            &&& id != 0xFFFF_FFFF && !privileged && !own ==> after == Err::<Ids, Errno>(
                Errno::EPERM,
            )
            &&& id != 0xFFFF_FFFF && (privileged || own) ==> after is Ok
            &&& after matches Ok(now) ==> {
                &&& now.effective == id && now.filesystem == id
                &&& privileged ==> now.real == id && now.saved == id
                &&& !privileged ==> now.real == ids.real && now.saved == ids.saved
            }
        }),
{
}

/// Setting two ids sets those that are named and leaves the other; what is set
/// aside follows what is acted as, whenever the real id is set or another is
/// acted as.
pub proof fn law_setting_two_ids(ids: Ids, real_id: u32, effective: u32, privileged: bool)
    ensures
        spec_set_real_effective(ids, real_id, effective, privileged) matches Ok(now) ==> {
            &&& real_id != 0xFFFF_FFFF ==> now.real == real_id
            &&& real_id == 0xFFFF_FFFF ==> now.real == ids.real
            &&& effective != 0xFFFF_FFFF ==> now.effective == effective
            &&& effective == 0xFFFF_FFFF ==> now.effective == ids.effective
            &&& now.filesystem == now.effective
            &&& real_id != 0xFFFF_FFFF ==> now.saved == now.effective
            &&& real_id == 0xFFFF_FFFF && effective != 0xFFFF_FFFF && effective != ids.real
                ==> now.saved == effective
            &&& real_id == 0xFFFF_FFFF && (effective == 0xFFFF_FFFF || effective == ids.real)
                ==> now.saved == ids.saved
        },
        privileged ==> spec_set_real_effective(ids, real_id, effective, privileged) is Ok,
        !privileged ==> (spec_set_real_effective(ids, real_id, effective, privileged) is Ok <==> (
        real_id == 0xFFFF_FFFF || real_id == ids.real || real_id == ids.effective) && (effective
            == 0xFFFF_FFFF || effective == ids.real || effective == ids.effective || effective
            == ids.saved)),
        spec_set_real_effective(ids, real_id, effective, privileged) matches Err(e) ==> e
            == Errno::EPERM,
{
}

/// Setting three ids sets each that is named, and leaves the others.
pub proof fn law_setting_three_ids(
    ids: Ids,
    real_id: u32,
    effective: u32,
    saved: u32,
    privileged: bool,
)
    ensures
        spec_set_real_effective_saved(ids, real_id, effective, saved, privileged) matches Ok(now)
            ==> {
            &&& real_id != 0xFFFF_FFFF ==> now.real == real_id
            &&& real_id == 0xFFFF_FFFF ==> now.real == ids.real
            &&& effective != 0xFFFF_FFFF ==> now.effective == effective
            &&& effective == 0xFFFF_FFFF ==> now.effective == ids.effective
            &&& saved != 0xFFFF_FFFF ==> now.saved == saved
            &&& saved == 0xFFFF_FFFF ==> now.saved == ids.saved
            &&& now.filesystem == now.effective
        },
        privileged ==> spec_set_real_effective_saved(ids, real_id, effective, saved, privileged)
            is Ok,
        !privileged ==> (spec_set_real_effective_saved(
            ids,
            real_id,
            effective,
            saved,
            privileged,
        ) is Ok <==> {
            &&& real_id == 0xFFFF_FFFF || real_id == ids.real || real_id == ids.effective
                || real_id == ids.saved
            &&& effective == 0xFFFF_FFFF || effective == ids.real || effective == ids.effective
                || effective == ids.saved
            &&& saved == 0xFFFF_FFFF || saved == ids.real || saved == ids.effective || saved
                == ids.saved
        }),
        spec_set_real_effective_saved(ids, real_id, effective, saved, privileged) matches Err(e)
            ==> e == Errno::EPERM,
{
}

/// The id files are made under changes alone, to one the process has, or any
/// for the privileged.
pub proof fn law_setting_the_filesystem_id(ids: Ids, id: u32, privileged: bool)
    ensures
        ({
            let now = spec_set_filesystem_id(ids, id, privileged);
            let may = privileged || id == ids.real || id == ids.effective || id == ids.saved;
            &&& now.real == ids.real && now.effective == ids.effective && now.saved == ids.saved
            &&& id != 0xFFFF_FFFF && may ==> now.filesystem == id
            &&& id == 0xFFFF_FFFF || !(may || id == ids.filesystem) ==> now.filesystem
                == ids.filesystem
        }),
{
}

/// The ids of a process are told where they were asked for: real, effective
/// and saved, each in its own place.
pub proof fn law_the_three_ids_are_told(m: Memory, ids: Ids, a: u64, b: u64, c: u64)
    requires
        m.valid(),
        m.can_write(a as int, 4) && m.can_write(b as int, 4) && m.can_write(c as int, 4),
        a + 4 <= b || b + 4 <= a,
        a + 4 <= c || c + 4 <= a,
        b + 4 <= c || c + 4 <= b,
    ensures
        ({
            let (after, result) = spec_getresid(m, ids, a, b, c);
            &&& result == Ok::<usize, Errno>(0)
            &&& after.number(a as int, 4) == ids.real
            &&& after.number(b as int, 4) == ids.effective
            &&& after.number(c as int, 4) == ids.saved
        }),
{
    crate::bytes::lemma_byte_spans();
    crate::bytes::lemma_le_round_trip(ids.real as nat, 4);
    crate::bytes::lemma_le_round_trip(ids.effective as nat, 4);
    crate::bytes::lemma_le_round_trip(ids.saved as nat, 4);
    let x = le_bytes(ids.real as nat, 4);
    let y = le_bytes(ids.effective as nat, 4);
    let z = le_bytes(ids.saved as nat, 4);
    let one = m.store(a as int, x);
    let two = one.store(b as int, y);
    crate::uaccess::lemma_store_permissions(m, a as int, x, b as int, 4);
    crate::uaccess::lemma_store_permissions(m, a as int, x, c as int, 4);
    crate::uaccess::lemma_store_permissions(one, b as int, y, c as int, 4);
    assert(one.bytes.dom() =~= m.bytes.dom());
    assert(two.bytes.dom() =~= m.bytes.dom());
    crate::uaccess::lemma_number_written(m, a as int, x, 0, 4);
    crate::uaccess::lemma_number_written(one, b as int, y, 0, 4);
    crate::uaccess::lemma_number_written(two, c as int, z, 0, 4);
    assert(x.subrange(0, 4) =~= x && y.subrange(0, 4) =~= y && z.subrange(0, 4) =~= z);
    crate::uaccess::lemma_store_permissions(one, b as int, y, a as int, 4);
    crate::uaccess::lemma_read_after_store(one, b as int, y, a as int, 4);
    crate::uaccess::lemma_read_after_store(two, c as int, z, a as int, 4);
    crate::uaccess::lemma_read_after_store(two, c as int, z, b as int, 4);
}

/// A list of numbers is laid down one behind the other.
pub proof fn law_words_follow_one_another(list: Seq<u32>, i: int)
    requires
        0 <= i < list.len(),
    ensures
        words(list).len() == 4 * list.len(),
        crate::bytes::le_value(words(list).subrange(4 * i, 4 * i + 4)) == list[i],
{
    crate::bytes::lemma_byte_spans();
    crate::bytes::lemma_le_round_trip(list[i] as nat, 4);
    assert(words(list).subrange(4 * i, 4 * i + 4) =~= le_bytes(list[i] as nat, 4));
}

/// `getgroups` counts the groups for no room, tells all of them where there is
/// enough, and refuses too little.
pub proof fn law_the_groups_are_told(m: Memory, groups: Seq<u32>, size: int, list: u64, i: int)
    requires
        m.valid(),
        groups.len() <= usize::MAX,
    ensures
        ({
            let (after, result) = spec_getgroups(m, groups, size, list);
            &&& size < 0 ==> result == Err::<usize, Errno>(Errno::EINVAL)
            &&& size == 0 ==> result == Ok::<usize, Errno>(groups.len() as usize)
            &&& 0 < size < groups.len() ==> result == Err::<usize, Errno>(Errno::EINVAL)
            &&& size <= 0 || size < groups.len() ==> after == m
            &&& size > 0 && size >= groups.len() && m.can_write(list as int, 4 * groups.len() as int)
                ==> result == Ok::<usize, Errno>(groups.len() as usize)
            &&& size > 0 && result is Ok && 0 <= i < groups.len() ==> after.number(list + 4 * i, 4)
                == groups[i]
        }),
{
    if size > 0 && 0 <= i < groups.len() && m.can_write(list as int, words(groups).len() as int) {
        law_words_follow_one_another(groups, i);
        crate::uaccess::lemma_number_written(m, list as int, words(groups), 4 * i, 4);
    }
}

/// `setgroups` is for the privileged, and gives the process exactly the groups
/// in its list, in ascending order.
pub proof fn law_the_groups_are_set(m: Memory, who: Identity, size: u32, list: u64)
    ensures
        ({
            let (after, result) = spec_setgroups(m, who, size, list);
            &&& who.user.effective != 0 ==> result == Err::<usize, Errno>(Errno::EPERM)
            &&& result is Err ==> after == who
            &&& result matches Ok(n) ==> {
                &&& n == 0
                &&& size <= 65_536
                &&& m.can_read(list as int, 4 * size as int)
                &&& after.user == who.user && after.group == who.group
                &&& after.groups.len() == size
                &&& after.groups.to_multiset() == words_at(
                    m,
                    list as int,
                    size as nat,
                ).to_multiset()
                &&& forall|i: int, j: int|
                    0 <= i < j < after.groups.len() ==> after.groups[i] <= after.groups[j]
            }
        }),
{
    let asked = words_at(m, list as int, size as nat);
    asked.lemma_sort_by_ensures(ascending());
    let done = asked.sort_by(ascending());
    assert(asked.to_multiset().len() == done.to_multiset().len());
    broadcast use vstd::seq_lib::group_to_multiset_ensures;

    assert(done.len() == asked.len());
    assert forall|i: int, j: int| 0 <= i < j < done.len() implies done[i] <= done[j] by {
        let leq = ascending();
        assert(leq(done[i], done[j]));
    }
}

/// The capabilities of the privileged are every one there is, up to the last;
/// everyone else has none, and nobody passes any on.
pub proof fn law_capabilities_go_with_privilege(privileged: bool)
    ensures
        ({
            let sets = capability_sets(privileged);
            &&& sets.len() == 6
            &&& sets[2] == 0 && sets[5] == 0
            &&& privileged ==> sets[0] == 0xFFFF_FFFF && sets[1] == 0xFFFF_FFFF && sets[3] == 0x1FF
                && sets[4] == 0x1FF
            &&& !privileged ==> forall|i: int| 0 <= i < 6 ==> #[trigger] sets[i] == 0
        }),
{
}

/// Three versions of the capability calls are known, with one set of words or
/// two; a header with another is told the newest, and refused.
pub proof fn law_a_capability_version_is_known_or_told(m: Memory, header: u64)
    requires
        m.valid(),
    ensures
        ({
            let (after, result) = spec_validate_version(m, header);
            let version = m.number(header as int, 4);
            let known = version == 0x1998_0330 || version == 0x2007_1026 || version == 0x2008_0522;
            &&& !m.can_read(header as int, 4) ==> result == Err::<usize, Errno>(Errno::EFAULT)
            &&& m.can_read(header as int, 4) && known ==> after == m && result == Ok::<
                usize,
                Errno,
            >(
                if version == 0x1998_0330 {
                    1
                } else {
                    2
                },
            )
            &&& m.can_read(header as int, 4) && !known ==> result is Err
            &&& m.can_read(header as int, 4) && !known && m.can_write(header as int, 4) ==> result
                == Err::<usize, Errno>(Errno::EINVAL) && after.number(header as int, 4)
                == 0x2008_0522
        }),
{
    crate::bytes::lemma_byte_spans();
    crate::bytes::lemma_le_value_bound(m.read(header as int, 4));
    crate::bytes::lemma_le_round_trip(0x2008_0522, 4);
    let data = le_bytes(0x2008_0522, 4);
    if m.can_write(header as int, 4) {
        crate::uaccess::lemma_number_written(m, header as int, data, 0, 4);
        assert(data.subrange(0, 4) =~= data);
    }
}

/// No call gives a process a capability it may not have: the unprivileged ask
/// for none, and nobody for one past the last, and only of themselves.
pub proof fn law_no_capability_is_gained(m: Memory, process: Process, header: u64, data: u64)
    ensures
        spec_capset(m, process, header, data).1 is Ok ==> {
            let count = spec_validate_version(m, header).1->Ok_0;
            let pid = spec_signed_32(m.number(header + 4, 4) as int);
            let asked = words_at(m, data as int, 3 * count as nat);
            &&& spec_validate_version(m, header).1 is Ok
            &&& pid == 0 || pid == process.pid
            &&& process.credentials@.user.effective != 0 ==> forall|i: int|
                0 <= i < asked.len() ==> #[trigger] asked[i] == 0
            &&& forall|i: int| 3 <= i < asked.len() ==> #[trigger] asked[i] <= 0x1FF
        },
{
    if spec_capset(m, process, header, data).1 is Ok {
        let count = spec_validate_version(m, header).1->Ok_0;
        let asked = words_at(m, data as int, 3 * count as nat);
        if process.credentials@.user.effective != 0 {
            assert forall|i: int| 0 <= i < asked.len() implies #[trigger] asked[i] == 0 by {
                if asked[i] > 0 {
                    assert(spec_any_above(asked, 0, 0));
                }
            }
        }
        assert forall|i: int| 3 <= i < asked.len() implies #[trigger] asked[i] <= 0x1FF by {
            if asked[i] > 0x1FF {
                assert(spec_any_above(asked, 3, CAP_HIGH));
            }
        }
    }
}

/// A call about an identity is about the one its name says, with its own
/// registers.
pub proof fn law_an_identity_call_is_about_its_own(call: Syscall, a: Seq<u64>, who: Identity)
    requires
        a.len() == 6,
        a[0] <= 0xFFFF_FFFF && a[1] <= 0xFFFF_FFFF && a[2] <= 0xFFFF_FFFF,
    ensures
        call == Syscall::Getuid ==> spec_identity(call, who) == Some(who.user.real),
        call == Syscall::Geteuid ==> spec_identity(call, who) == Some(who.user.effective),
        call == Syscall::Getgid ==> spec_identity(call, who) == Some(who.group.real),
        call == Syscall::Getegid ==> spec_identity(call, who) == Some(who.group.effective),
        call == Syscall::Setgid || call == Syscall::Setregid || call == Syscall::Setresgid || call
            == Syscall::Setfsgid || call == Syscall::Getresgid <==> spec_kind(call)
            == Kind::Group,
        call == Syscall::Setuid || call == Syscall::Setgid ==> spec_rule_of(call, a) == Some(
            Rule::One { id: a[0] as u32 },
        ),
        call == Syscall::Setreuid || call == Syscall::Setregid ==> spec_rule_of(call, a) == Some(
            Rule::RealEffective { real_id: a[0] as u32, effective: a[1] as u32 },
        ),
        call == Syscall::Setresuid || call == Syscall::Setresgid ==> spec_rule_of(call, a) == Some(
            Rule::RealEffectiveSaved {
                real_id: a[0] as u32,
                effective: a[1] as u32,
                saved: a[2] as u32,
            },
        ),
{
}

/// What a call does to an identity it does to the one of its kind: the user ids
/// or the group ids, and never the other.
pub proof fn law_a_call_changes_the_identity_of_its_kind(
    m: Memory,
    process: Process,
    live: Seq<Process>,
    call: Syscall,
    a: Seq<u64>,
)
    ensures
        spec_dispatch(m, process, live, call, a) matches Some((after, now, answer)) ==> {
            let who = process.credentials@;
            &&& call == Syscall::Setuid || call == Syscall::Setreuid || call == Syscall::Setresuid
                || call == Syscall::Setfsuid ==> now.group == who.group && now.groups == who.groups
                && after == m
            &&& call == Syscall::Setgid || call == Syscall::Setregid || call == Syscall::Setresgid
                || call == Syscall::Setfsgid ==> now.user == who.user && now.groups == who.groups
                && after == m
            &&& call == Syscall::Setgroups ==> now.user == who.user && now.group == who.group
                && after == m
            &&& call == Syscall::Getresuid || call == Syscall::Getresgid || call
                == Syscall::Getgroups || call == Syscall::Capget || call == Syscall::Capset ==> now
                == who
            &&& call == Syscall::Setfsuid ==> answer == Ok::<usize, Errno>(
                who.user.filesystem as usize,
            )
            &&& call == Syscall::Setfsgid ==> answer == Ok::<usize, Errno>(
                who.group.filesystem as usize,
            )
        },
{
}

/// Asked with nowhere to put the sets, `capget` only tells which version there
/// is: a version that is none is no error then, and one that cannot be read is.
pub proof fn law_a_version_can_be_asked_alone(
    m: Memory,
    process: Process,
    live: Seq<Process>,
    header: u64,
)
    requires
        m.valid(),
    ensures
        ({
            let (after, result) = spec_capget(m, process, live, header, 0);
            let version = m.number(header as int, 4);
            let known = version == 0x1998_0330 || version == 0x2007_1026 || version == 0x2008_0522;
            &&& !m.can_read(header as int, 4) ==> result == Err::<usize, Errno>(Errno::EFAULT)
            &&& m.can_read(header as int, 4) && known ==> result == Ok::<usize, Errno>(0) && after
                == m
            &&& m.can_read(header as int, 4) && !known && m.can_write(header as int, 4) ==> result
                == Ok::<usize, Errno>(0) && after.number(header as int, 4) == 0x2008_0522
        }),
{
    law_a_capability_version_is_known_or_told(m, header);
}

} // verus!
