//! A program's memory as the kernel reaches it: every access checked, and a
//! bad pointer an error rather than a fault of the kernel's own.

use vstd::prelude::*;

use crate::bytes::{
    le_bytes, le_decode, le_encode, le_value, lemma_byte_spans, lemma_le_value_bound,
};
use crate::errno::Errno;

verus! {

/// Where a segment of shared memory comes from: an object, and the byte of it
/// the segment starts at.
#[derive(Clone, Copy, Debug, PartialEq, Eq, Structural)]
pub struct Backing {
    /// The object's identity.
    pub object: u64,
    /// The offset of the segment's first byte in the object.
    pub offset: u64,
}

/// A run of addresses a program may touch.
#[derive(Debug)]
pub struct Segment {
    /// The first address.
    pub start: u64,
    /// What the addresses hold.
    pub bytes: Vec<u8>,
    /// Whether the program may write them.
    pub writable: bool,
    /// The object behind them, for memory that other spaces may map too.
    pub shared: Option<Backing>,
}

impl Segment {
    /// Whether `a` is one of the segment's addresses.
    pub open spec fn covers(self, a: int) -> bool {
        self.start <= a < self.start + self.bytes@.len()
    }

    /// What the segment holds at `a`.
    pub open spec fn byte(self, a: int) -> u8 {
        self.bytes@[a - self.start]
    }
}

/// The memory of one program.
#[derive(Debug)]
pub struct AddressSpace {
    /// What tells this space from every other.
    pub id: u64,
    /// One past the last address a program may use.
    pub user_end: u64,
    /// What is mapped.
    pub segments: Vec<Segment>,
}

/// Memory as a mathematical value: what each mapped address holds, and which
/// addresses may be written.
#[verifier::ext_equal]
pub struct Memory {
    /// Address to byte.
    pub bytes: Map<int, u8>,
    /// The writable addresses.
    pub writable: Set<int>,
}

impl Memory {
    /// Whether the `len` bytes at `at` can all be read.
    pub open spec fn can_read(self, at: int, len: int) -> bool {
        forall|a: int| at <= a < at + len ==> #[trigger] self.bytes.dom().contains(a)
    }

    /// Whether the `len` bytes at `at` can all be written.
    pub open spec fn can_write(self, at: int, len: int) -> bool {
        forall|a: int| at <= a < at + len ==> #[trigger] self.writable.contains(a)
    }

    /// The `len` bytes at `at`.
    pub open spec fn read(self, at: int, len: nat) -> Seq<u8> {
        Seq::new(len, |i: int| self.bytes[at + i])
    }

    /// The little-endian number in the `len` bytes at `at`.
    pub open spec fn number(self, at: int, len: nat) -> nat {
        le_value(self.read(at, len))
    }

    /// The memory once `data` has been written at `at`.
    pub open spec fn store(self, at: int, data: Seq<u8>) -> Memory {
        Memory {
            bytes: Map::new(
                |a: int| self.bytes.dom().contains(a),
                |a: int|
                    if at <= a < at + data.len() {
                        data[a - at]
                    } else {
                        self.bytes[a]
                    },
            ),
            writable: self.writable,
        }
    }

    /// What writing `data` at `at` comes to: all of it, or `EFAULT`.
    pub open spec fn put(self, at: int, data: Seq<u8>) -> Result<Memory, Errno> {
        if self.can_write(at, data.len() as int) {
            Ok(self.store(at, data))
        } else {
            Err(Errno::EFAULT)
        }
    }

    /// The NUL-terminated string at `at`, its NUL among the first `limit`
    /// bytes.
    pub open spec fn cstr(self, at: int, limit: nat) -> CStr
        decreases limit,
    {
        if limit == 0 {
            CStr::TooLong
        } else if !self.bytes.dom().contains(at) {
            CStr::Fault
        } else if self.bytes[at] == 0 {
            CStr::Complete(Seq::empty())
        } else {
            self.cstr(at + 1, (limit - 1) as nat).behind(seq![self.bytes[at]])
        }
    }

    /// The memory once `segment` is mapped in it.
    pub open spec fn with(self, segment: Segment) -> Memory {
        Memory {
            bytes: Map::new(
                |a: int| segment.covers(a) || self.bytes.dom().contains(a),
                |a: int|
                    if segment.covers(a) {
                        segment.byte(a)
                    } else {
                        self.bytes[a]
                    },
            ),
            writable: Set::new(
                |a: int|
                    if segment.covers(a) {
                        segment.writable
                    } else {
                        self.writable.contains(a)
                    },
            ),
        }
    }

    /// Writing is reading's permission and more.
    pub open spec fn valid(self) -> bool {
        forall|a: int| #[trigger] self.writable.contains(a) ==> self.bytes.dom().contains(a)
    }
}

/// What a search for a NUL-terminated string came to.
#[verifier::ext_equal]
pub ghost enum CStr {
    /// The bytes before the NUL.
    Complete(Seq<u8>),
    /// No NUL among the bytes looked at.
    TooLong,
    /// A byte that cannot be read, before any NUL.
    Fault,
}

impl CStr {
    /// The same outcome for a string that starts with `head`.
    pub open spec fn behind(self, head: Seq<u8>) -> CStr {
        match self {
            CStr::Complete(tail) => CStr::Complete(head + tail),
            other => other,
        }
    }
}

/// A string read out of a program's memory.
#[derive(Debug, PartialEq, Eq)]
pub enum CString {
    /// The bytes before the NUL.
    Complete(Vec<u8>),
    /// No NUL among the bytes looked at.
    TooLong,
    /// A byte that cannot be read, before any NUL.
    Fault,
}

impl CString {
    /// The outcome as a mathematical value.
    pub open spec fn view(self) -> CStr {
        match self {
            CString::Complete(bytes) => CStr::Complete(bytes@),
            CString::TooLong => CStr::TooLong,
            CString::Fault => CStr::Fault,
        }
    }
}

/// Writing nothing changes nothing.
pub proof fn lemma_store_empty(m: Memory, at: int)
    ensures
        m.store(at, Seq::empty()) == m,
{
    assert(m.store(at, Seq::empty()) =~= m);
}

/// A read of what was just written gives it back, and a read of bytes the
/// write did not touch gives what was there.
pub proof fn lemma_read_after_store(m: Memory, at: int, data: Seq<u8>, from: int, len: nat)
    requires
        m.can_read(from, len as int),
    ensures
        from == at && len == data.len() ==> m.store(at, data).read(from, len) == data,
        from + len <= at || at + data.len() <= from ==> m.store(at, data).read(from, len)
            == m.read(from, len),
{
    let after = m.store(at, data);
    assert forall|a: int| from <= a < from + len implies #[trigger] after.bytes[a] == (if at <= a
        < at + data.len() {
        data[a - at]
    } else {
        m.bytes[a]
    }) by {
        assert(m.bytes.dom().contains(a));
    }
    if from == at && len == data.len() {
        assert(after.read(from, len) =~= data);
    }
    if from + len <= at || at + data.len() <= from {
        assert(after.read(from, len) =~= m.read(from, len));
    }
}

/// A write changes no permission.
pub proof fn lemma_store_permissions(m: Memory, at: int, data: Seq<u8>, from: int, len: int)
    ensures
        m.store(at, data).can_read(from, len) == m.can_read(from, len),
        m.store(at, data).can_write(from, len) == m.can_write(from, len),
{
    assert(m.store(at, data).bytes.dom() =~= m.bytes.dom());
    assert(m.store(at, data).writable =~= m.writable);
    assert(m.store(at, data).can_write(from, len) ==> m.can_write(from, len));
}

/// What a program's memory was given is what it gives back, and every other
/// byte stays what it was.
pub proof fn law_what_is_written_is_read_back(m: Memory, at: int, data: Seq<u8>)
    requires
        m.valid(),
        m.put(at, data) is Ok,
    ensures
        m.put(at, data)->Ok_0.can_read(at, data.len() as int),
        m.put(at, data)->Ok_0.read(at, data.len()) == data,
        forall|from: int, len: nat|
            m.can_read(from, len as int) && (from + len <= at || at + data.len() <= from)
                ==> #[trigger] m.put(at, data)->Ok_0.read(from, len) == m.read(from, len),
{
    assert forall|a: int| at <= a < at + data.len() implies #[trigger] m.bytes.dom().contains(
        a,
    ) by {
        assert(m.writable.contains(a));
    }
    lemma_store_permissions(m, at, data, at, data.len() as int);
    lemma_read_after_store(m, at, data, at, data.len());
    assert forall|from: int, len: nat|
        m.can_read(from, len as int) && (from + len <= at || at + data.len()
            <= from) implies #[trigger] m.put(at, data)->Ok_0.read(from, len) == m.read(
        from,
        len,
    ) by {
        lemma_read_after_store(m, at, data, from, len);
    }
}

/// A string is the bytes before the first NUL, which is among those looked at.
pub proof fn law_a_string_stops_at_its_nul(m: Memory, at: int, limit: nat)
    ensures
        match m.cstr(at, limit) {
            CStr::Complete(text) => {
                &&& text.len() < limit
                &&& m.can_read(at, text.len() as int + 1)
                &&& m.bytes[at + text.len()] == 0
                &&& text == m.read(at, text.len())
                &&& !text.contains(0)
            },
            _ => true,
        },
    decreases limit,
{
    if limit > 0 && m.bytes.dom().contains(at) && m.bytes[at] != 0 {
        law_a_string_stops_at_its_nul(m, at + 1, (limit - 1) as nat);
        match m.cstr(at + 1, (limit - 1) as nat) {
            CStr::Complete(tail) => {
                let text = seq![m.bytes[at]] + tail;
                assert(m.cstr(at, limit) == CStr::Complete(text));
                assert forall|a: int|
                    at <= a < at + text.len() + 1 implies #[trigger] m.bytes.dom().contains(
                    a,
                ) by {}
                assert(text =~= m.read(at, text.len())) by {
                    assert forall|i: int| 0 <= i < text.len() implies text[i] == m.read(
                        at,
                        text.len(),
                    )[i] by {
                        if i > 0 {
                            assert(tail[i - 1] == m.read(at + 1, tail.len())[i - 1]);
                        }
                    }
                }
                assert forall|i: int| 0 <= i < text.len() implies text[i] != 0 by {
                    if i > 0 {
                        assert(tail.contains(tail[i - 1]));
                    }
                }
            },
            _ => {},
        }
    }
}

impl AddressSpace {
    /// Segments stay inside the user half and never share an address.
    pub open spec fn wf(self) -> bool {
        &&& forall|i: int|
            0 <= i < self.segments@.len() ==> (#[trigger] self.segments@[i]).start
                + self.segments@[i].bytes@.len() <= self.user_end
        &&& forall|i: int, j: int, a: int|
            #![trigger self.segments@[i].covers(a), self.segments@[j].covers(a)]
            0 <= i < self.segments@.len() && 0 <= j < self.segments@.len()
                && self.segments@[i].covers(a) && self.segments@[j].covers(a) ==> i == j
    }

    /// Whether segment `i` holds address `a`.
    pub open spec fn holds(self, i: int, a: int) -> bool {
        0 <= i < self.segments@.len() && self.segments@[i].covers(a)
    }

    /// Whether anything is mapped at `a`.
    pub open spec fn mapped(self, a: int) -> bool {
        exists|i: int| self.holds(i, a)
    }

    /// The segment that holds `a`.
    pub open spec fn holder(self, a: int) -> int {
        choose|i: int| self.holds(i, a)
    }

    /// The memory as a mathematical value.
    pub open spec fn view(self) -> Memory {
        Memory {
            bytes: Map::new(
                |a: int| self.mapped(a),
                |a: int| self.segments@[self.holder(a)].byte(a),
            ),
            writable: Set::new(
                |a: int| self.mapped(a) && self.segments@[self.holder(a)].writable,
            ),
        }
    }

    /// The object and offset behind `a`, when the segment that holds it is
    /// shared memory.
    pub open spec fn spec_shared_object_at(self, a: int) -> Option<Backing> {
        if self.mapped(a) {
            let segment = self.segments@[self.holder(a)];
            match segment.shared {
                Some(backing) if backing.offset + (a - segment.start) <= u64::MAX => Some(
                    Backing {
                        object: backing.object,
                        offset: (backing.offset + (a - segment.start)) as u64,
                    },
                ),
                _ => None,
            }
        } else {
            None
        }
    }

    proof fn lemma_holder(self, i: int, a: int)
        requires
            self.wf(),
            self.holds(i, a),
        ensures
            self.holder(a) == i,
            self.mapped(a),
    {
        assert(self.holds(self.holder(a), a));
    }

    /// A space with nothing mapped.
    pub fn new(id: u64, user_end: u64) -> (space: AddressSpace)
        ensures
            space.wf(),
            space.id == id,
            space.user_end == user_end,
            space.segments@.len() == 0,
            forall|a: int| !space.mapped(a),
    {
        AddressSpace { id, user_end, segments: Vec::new() }
    }

    /// Whether `segment` stays inside the user half and shares no address with
    /// what is mapped.
    pub open spec fn has_room(self, segment: Segment) -> bool {
        &&& segment.start + segment.bytes@.len() <= self.user_end
        &&& forall|a: int| #[trigger] segment.covers(a) ==> !self.mapped(a)
    }

    /// Map `segment`, unless it reaches out of the user half or over something
    /// mapped already. Answers whether it was mapped.
    pub fn add(&mut self, segment: Segment) -> (added: bool)
        requires
            old(self).wf(),
        ensures
            final(self).wf(),
            final(self).id == old(self).id,
            final(self).user_end == old(self).user_end,
            added == old(self).has_room(segment),
            added ==> final(self).segments@ == old(self).segments@.push(segment) && final(self)@
                == old(self)@.with(segment),
            !added ==> *final(self) == *old(self),
    {
        let len: u64 = segment.bytes.len() as u64;
        if segment.start > self.user_end || self.user_end - segment.start < len {
            return false;
        }
        let end: u64 = segment.start + len;
        let mut i: usize = 0;
        while i < self.segments.len()
            invariant
                *self == *old(self),
                self.wf(),
                i <= self.segments@.len(),
                len == segment.bytes@.len(),
                end == segment.start + len,
                end <= self.user_end,
                forall|j: int, a: int|
                    0 <= j < i && #[trigger] segment.covers(a) ==> !#[trigger] self.holds(j, a),
            decreases self.segments@.len() - i,
        {
            let other = &self.segments[i];
            let other_end: u64 = other.start + other.bytes.len() as u64;
            if segment.start < other_end && other.start < end && len > 0 && other.bytes.len() > 0 {
                proof {
                    let a = if segment.start < other.start {
                        other.start as int
                    } else {
                        segment.start as int
                    };
                    assert(segment.covers(a));
                    assert(self.holds(i as int, a));
                }
                return false;
            }
            i = i + 1;
        }
        let ghost before = *self;
        self.segments.push(segment);
        proof {
            let last = before.segments@.len() as int;
            assert(self.segments@ == before.segments@.push(segment));
            assert forall|a: int| segment.covers(a) implies !before.mapped(a) by {
                if before.mapped(a) {
                    assert(before.holds(before.holder(a), a));
                }
            }
            assert forall|j: int, a: int| #[trigger] self.holds(j, a) implies (if j == last {
                segment.covers(a)
            } else {
                before.holds(j, a)
            }) by {}
            assert forall|k: int, j: int, a: int|
                #![trigger self.segments@[k].covers(a), self.segments@[j].covers(a)]
                0 <= k < self.segments@.len() && 0 <= j < self.segments@.len()
                    && self.segments@[k].covers(a) && self.segments@[j].covers(a) implies k == j by {
                assert(self.holds(k, a) && self.holds(j, a));
                if k != j {
                    if k == last {
                        assert(before.mapped(a));
                    } else if j == last {
                        assert(before.mapped(a));
                    } else {
                        assert(before.segments@[k].covers(a) && before.segments@[j].covers(a));
                    }
                }
            }
            assert(self.wf());
            assert forall|a: int| segment.covers(a) implies self.mapped(a) && self.holder(a)
                == last by {
                assert(self.holds(last, a));
                self.lemma_holder(last, a);
            }
            assert forall|a: int| !segment.covers(a) implies self.mapped(a) == before.mapped(a) && (
            self.mapped(a) ==> self.holder(a) == before.holder(a)) by {
                if before.mapped(a) {
                    let j = before.holder(a);
                    assert(before.holds(j, a));
                    assert(self.holds(j, a));
                    self.lemma_holder(j, a);
                }
                if self.mapped(a) {
                    assert(self.holds(self.holder(a), a));
                    assert(before.holds(self.holder(a), a));
                }
            }
            assert(self@.bytes =~= before@.with(segment).bytes);
            assert(self@.writable =~= before@.with(segment).writable);
        }
        true
    }

    /// Whether segments `i` and `j` share an address.
    spec fn meet(self, i: int, j: int) -> bool {
        exists|a: int| #[trigger] self.holds(i, a) && self.holds(j, a)
    }

    /// Whether the space is sound, for one that was not built by [`Self::new`]
    /// and [`Self::add`] alone.
    pub fn is_sound(&self) -> (yes: bool)
        ensures
            yes == self.wf(),
    {
        let mut i: usize = 0;
        while i < self.segments.len()
            invariant
                i <= self.segments@.len(),
                forall|k: int|
                    0 <= k < i ==> (#[trigger] self.segments@[k]).start
                        + self.segments@[k].bytes@.len() <= self.user_end,
                forall|k: int, l: int| 0 <= l < k < i ==> !#[trigger] self.meet(k, l),
            decreases self.segments@.len() - i,
        {
            let segment = &self.segments[i];
            let len: u64 = segment.bytes.len() as u64;
            if segment.start > self.user_end || self.user_end - segment.start < len {
                assert(self.segments@[i as int].start + self.segments@[i as int].bytes@.len()
                    > self.user_end);
                return false;
            }
            let end: u64 = segment.start + len;
            let mut j: usize = 0;
            while j < i
                invariant
                    j <= i < self.segments@.len(),
                    *segment == self.segments@[i as int],
                    len == segment.bytes@.len(),
                    end == segment.start + len,
                    forall|k: int|
                        0 <= k < i ==> (#[trigger] self.segments@[k]).start
                            + self.segments@[k].bytes@.len() <= self.user_end,
                    forall|l: int| 0 <= l < j ==> !#[trigger] self.meet(i as int, l),
                decreases i - j,
            {
                let other = &self.segments[j];
                let other_end: u64 = other.start + other.bytes.len() as u64;
                if segment.start < other_end && other.start < end && len > 0 && other.bytes.len()
                    > 0 {
                    proof {
                        let a = if segment.start < other.start {
                            other.start as int
                        } else {
                            segment.start as int
                        };
                        assert(self.segments@[i as int].covers(a));
                        assert(self.segments@[j as int].covers(a));
                        assert(!self.wf());
                    }
                    return false;
                }
                j = j + 1;
            }
            i = i + 1;
        }
        proof {
            assert forall|k: int, l: int, a: int|
                #![trigger self.segments@[k].covers(a), self.segments@[l].covers(a)]
                0 <= k < self.segments@.len() && 0 <= l < self.segments@.len()
                    && self.segments@[k].covers(a) && self.segments@[l].covers(a) implies k == l by {
                assert(self.holds(k, a) && self.holds(l, a));
                if k < l {
                    assert(self.meet(l, k));
                } else if l < k {
                    assert(self.meet(k, l));
                }
            }
        }
        true
    }

    /// The segment holding `a`, and which of its bytes that is.
    fn find(&self, a: u64) -> (found: Option<(usize, usize)>)
        requires
            self.wf(),
        ensures
            match found {
                Some((i, index)) => self.holds(i as int, a as int) && self.holder(a as int) == i
                    && self.mapped(a as int) && self.segments@[i as int].start + index == a,
                None => !self.mapped(a as int),
            },
    {
        let mut i: usize = 0;
        while i < self.segments.len()
            invariant
                self.wf(),
                i <= self.segments@.len(),
                forall|j: int| 0 <= j < i ==> !self.holds(j, a as int),
            decreases self.segments@.len() - i,
        {
            let segment = &self.segments[i];
            if segment.start <= a && a - segment.start < segment.bytes.len() as u64 {
                proof {
                    self.lemma_holder(i as int, a as int);
                }
                return Some((i, (a - segment.start) as usize));
            }
            i = i + 1;
        }
        None
    }

    /// The object and offset behind the word at `a`, in shared memory.
    pub fn shared_object_at(&self, a: u64) -> (backing: Option<Backing>)
        requires
            self.wf(),
        ensures
            backing == self.spec_shared_object_at(a as int),
    {
        match self.find(a) {
            Some((i, _)) => {
                let segment = &self.segments[i];
                match segment.shared {
                    Some(backing) => {
                        match backing.offset.checked_add(a - segment.start) {
                            Some(offset) => Some(Backing { object: backing.object, offset }),
                            None => None,
                        }
                    },
                    None => None,
                }
            },
            None => None,
        }
    }

    /// Copy `len` bytes out of the program's memory at `at`.
    ///
    /// `EFAULT` unless every one of them can be read.
    pub fn copy_from_user(&self, at: u64, len: usize) -> (data: Result<Vec<u8>, Errno>)
        requires
            self.wf(),
        ensures
            match data {
                Ok(bytes) => self@.can_read(at as int, len as int) && bytes@ == self@.read(
                    at as int,
                    len as nat,
                ),
                Err(e) => !self@.can_read(at as int, len as int) && e == Errno::EFAULT,
            },
    {
        let mut bytes: Vec<u8> = Vec::new();
        let mut i: usize = 0;
        while i < len
            invariant
                self.wf(),
                i <= len,
                bytes@.len() == i,
                forall|a: int| at <= a < at + i ==> #[trigger] self@.bytes.dom().contains(a),
                bytes@ == self@.read(at as int, i as nat),
            decreases len - i,
        {
            if i as u64 > u64::MAX - at {
                proof {
                    self.lemma_unmapped_above(at + i);
                    assert(!self@.bytes.dom().contains(at + i));
                }
                return Err(Errno::EFAULT);
            }
            let a: u64 = at + i as u64;
            match self.find(a) {
                Some((k, index)) => {
                    let byte: u8 = self.segments[k].bytes[index];
                    bytes.push(byte);
                    proof {
                        assert(self@.bytes.dom().contains(a as int));
                        assert(bytes@ =~= self@.read(at as int, (i + 1) as nat));
                    }
                },
                None => {
                    proof {
                        assert(!self@.bytes.dom().contains(a as int));
                    }
                    return Err(Errno::EFAULT);
                },
            }
            i = i + 1;
        }
        Ok(bytes)
    }

    /// Nothing is mapped past the user half.
    pub proof fn lemma_unmapped_above(self, a: int)
        requires
            self.wf(),
            a >= self.user_end,
        ensures
            !self.mapped(a),
    {
        if self.mapped(a) {
            assert(self.holds(self.holder(a), a));
        }
    }

    /// Whether `len` bytes at `at` can all be written.
    pub fn writable_range(&self, at: u64, len: usize) -> (yes: bool)
        requires
            self.wf(),
        ensures
            yes == self@.can_write(at as int, len as int),
    {
        let mut i: usize = 0;
        while i < len
            invariant
                self.wf(),
                i <= len,
                forall|a: int| at <= a < at + i ==> #[trigger] self@.writable.contains(a),
            decreases len - i,
        {
            if i as u64 > u64::MAX - at {
                proof {
                    self.lemma_unmapped_above(at + i);
                    assert(!self@.writable.contains(at + i));
                }
                return false;
            }
            let a: u64 = at + i as u64;
            let writable = match self.find(a) {
                Some((k, _)) => self.segments[k].writable,
                None => false,
            };
            if !writable {
                assert(!self@.writable.contains(a as int));
                return false;
            }
            i = i + 1;
        }
        true
    }

    /// Write one byte at an address known to be writable.
    fn set_byte(&mut self, a: u64, byte: u8)
        requires
            old(self).wf(),
            old(self)@.writable.contains(a as int),
        ensures
            final(self).wf(),
            final(self)@ == old(self)@.store(a as int, seq![byte]),
            final(self).same_layout(*old(self)),
    {
        if let Some((k, index)) = self.find(a) {
            let ghost before = *self;
            self.segments[k].bytes[index] = byte;
            proof {
                let after = *self;
                assert(forall|i: int, b: int| after.holds(i, b) == before.holds(i, b));
                assert forall|b: int| after.mapped(b) == before.mapped(b) by {
                    if before.mapped(b) {
                        assert(after.holds(before.holder(b), b));
                    }
                    if after.mapped(b) {
                        assert(before.holds(after.holder(b), b));
                    }
                }
                assert forall|i: int, j: int, b: int|
                    #![trigger after.segments@[i].covers(b), after.segments@[j].covers(b)]
                    0 <= i < after.segments@.len() && 0 <= j < after.segments@.len()
                        && after.segments@[i].covers(b) && after.segments@[j].covers(
                        b,
                    ) implies i == j by {
                    assert(before.segments@[i].covers(b) && before.segments@[j].covers(b));
                }
                assert forall|b: int| #[trigger] before.mapped(b) implies after.holder(b)
                    == before.holder(b) by {
                    after.lemma_holder(before.holder(b), b);
                }
                let stored = before@.store(a as int, seq![byte]);
                assert(after@.bytes.dom() =~= stored.bytes.dom());
                assert forall|b: int| after@.bytes.dom().contains(b) implies after@.bytes[b]
                    == stored.bytes[b] by {
                    assert(before.mapped(b));
                    assert(before@.bytes.dom().contains(b));
                }
                assert(after@.bytes =~= stored.bytes);
                assert(after@.writable =~= stored.writable) by {
                    assert forall|b: int| after@.writable.contains(b)
                        == stored.writable.contains(b) by {
                        if before.mapped(b) {
                            assert(after.holder(b) == before.holder(b));
                        }
                    }
                }
                assert(after@ =~= stored);
            }
        }
    }

    /// Same identity, same segments, same permissions: only what the
    /// addresses hold may differ.
    pub open spec fn same_layout(self, other: AddressSpace) -> bool {
        &&& self.id == other.id
        &&& self.user_end == other.user_end
        &&& self.segments@.len() == other.segments@.len()
        &&& forall|i: int|
            #![trigger self.segments@[i]]
            0 <= i < self.segments@.len() ==> {
                &&& self.segments@[i].start == other.segments@[i].start
                &&& self.segments@[i].bytes@.len() == other.segments@[i].bytes@.len()
                &&& self.segments@[i].writable == other.segments@[i].writable
                &&& self.segments@[i].shared == other.segments@[i].shared
            }
    }

    /// Copy `data` into the program's memory at `at`.
    ///
    /// `EFAULT`, with nothing written, unless every byte can be.
    pub fn copy_to_user(&mut self, at: u64, data: &[u8]) -> (done: Result<(), Errno>)
        requires
            old(self).wf(),
        ensures
            final(self).wf(),
            final(self).same_layout(*old(self)),
            match done {
                Ok(_) => old(self)@.can_write(at as int, data@.len() as int) && final(self)@
                    == old(self)@.store(at as int, data@),
                Err(e) => !old(self)@.can_write(at as int, data@.len() as int) && e
                    == Errno::EFAULT && *final(self) == *old(self),
            },
    {
        if !self.writable_range(at, data.len()) {
            return Err(Errno::EFAULT);
        }
        let ghost before = self@;
        let mut i: usize = 0;
        proof {
            assert(data@.take(0) =~= Seq::<u8>::empty());
            lemma_store_empty(before, at as int);
        }
        while i < data.len()
            invariant
                self.wf(),
                self.same_layout(*old(self)),
                before == old(self)@,
                before.can_write(at as int, data@.len() as int),
                i <= data@.len(),
                self@ == before.store(at as int, data@.take(i as int)),
            decreases data@.len() - i,
        {
            let ghost now = self@;
            assert(now.writable.contains(at + i));
            proof {
                if at + i > u64::MAX {
                    self.lemma_unmapped_above(at + i);
                }
            }
            self.set_byte(at + i as u64, data[i]);
            proof {
                let longer = before.store(at as int, data@.take(i + 1));
                assert(self@.bytes.dom() =~= longer.bytes.dom());
                assert forall|b: int| self@.bytes.dom().contains(b) implies self@.bytes[b]
                    == longer.bytes[b] by {
                    assert(now.bytes.dom().contains(b));
                    assert(before.bytes.dom().contains(b));
                }
                assert(self@.bytes =~= longer.bytes);
                assert(self@ =~= longer);
            }
            i = i + 1;
        }
        assert(data@.take(data@.len() as int) =~= data@);
        Ok(())
    }

    /// Copy a NUL-terminated string out of the program's memory at `at`,
    /// looking for its end in the first `limit` bytes.
    pub fn copy_cstr_from_user(&self, at: u64, limit: usize) -> (found: CString)
        requires
            self.wf(),
        ensures
            found@ == self@.cstr(at as int, limit as nat),
    {
        let mut bytes: Vec<u8> = Vec::new();
        let mut i: usize = 0;
        while i < limit
            invariant
                self.wf(),
                i <= limit,
                bytes@.len() == i,
                self@.cstr(at as int, limit as nat) == self@.cstr(
                    at + i,
                    (limit - i) as nat,
                ).behind(bytes@),
            decreases limit - i,
        {
            if i as u64 > u64::MAX - at {
                proof {
                    self.lemma_unmapped_above(at + i);
                    assert(!self@.bytes.dom().contains(at + i));
                }
                return CString::Fault;
            }
            let a: u64 = at + i as u64;
            let byte: u8 = match self.find(a) {
                Some((k, index)) => self.segments[k].bytes[index],
                None => {
                    assert(!self@.bytes.dom().contains(a as int));
                    return CString::Fault;
                },
            };
            assert(self@.bytes.dom().contains(a as int));
            assert(self@.bytes[a as int] == byte);
            if byte == 0 {
                proof {
                    assert(bytes@ + Seq::<u8>::empty() =~= bytes@);
                }
                return CString::Complete(bytes);
            }
            proof {
                let rest = self@.cstr(at + i + 1, (limit - i - 1) as nat);
                if let CStr::Complete(tail) = rest {
                    assert(bytes@ + (seq![byte] + tail) =~= bytes@.push(byte) + tail);
                }
            }
            bytes.push(byte);
            i = i + 1;
        }
        CString::TooLong
    }

    /// Read the little-endian number in the `len` bytes at `at`, up to eight.
    pub fn get_number(&self, at: u64, len: usize) -> (value: Result<u64, Errno>)
        requires
            self.wf(),
            len <= 8,
        ensures
            match value {
                Ok(v) => self@.can_read(at as int, len as int) && v == self@.number(
                    at as int,
                    len as nat,
                ),
                Err(e) => !self@.can_read(at as int, len as int) && e == Errno::EFAULT,
            },
    {
        let bytes = self.copy_from_user(at, len)?;
        Ok(le_decode(bytes.as_slice()))
    }

    /// Read the 32-bit word at `at`.
    pub fn get_u32(&self, at: u64) -> (value: Result<u32, Errno>)
        requires
            self.wf(),
        ensures
            match value {
                Ok(v) => self@.can_read(at as int, 4) && v == self@.number(at as int, 4),
                Err(e) => !self@.can_read(at as int, 4) && e == Errno::EFAULT,
            },
    {
        let v: u64 = self.get_number(at, 4)?;
        proof {
            lemma_byte_spans();
            lemma_le_value_bound(self@.read(at as int, 4));
        }
        Ok(v as u32)
    }

    /// Write the low `len` bytes of `v` at `at`.
    pub fn put_number(&mut self, at: u64, v: u64, len: usize) -> (done: Result<(), Errno>)
        requires
            old(self).wf(),
        ensures
            final(self).wf(),
            final(self).same_layout(*old(self)),
            match done {
                Ok(_) => old(self)@.can_write(at as int, len as int) && final(self)@ == old(self)@.store(at as int, le_bytes(v as nat, len as nat)),
                Err(e) => !old(self)@.can_write(at as int, len as int) && e == Errno::EFAULT
                    && *final(self) == *old(self),
            },
    {
        let bytes = le_encode(v, len);
        self.copy_to_user(at, bytes.as_slice())
    }

    /// Write a 32-bit word at `at`.
    pub fn put_u32(&mut self, at: u64, v: u32) -> (done: Result<(), Errno>)
        requires
            old(self).wf(),
        ensures
            final(self).wf(),
            final(self).same_layout(*old(self)),
            match done {
                Ok(_) => old(self)@.can_write(at as int, 4) && final(self)@ == old(self)@.store(
                    at as int,
                    le_bytes(v as nat, 4),
                ),
                Err(e) => !old(self)@.can_write(at as int, 4) && e == Errno::EFAULT
                    && *final(self) == *old(self),
            },
    {
        self.put_number(at, v as u64, 4)
    }
}

// ---------------------------------------------------------------------------
// What a program's memory holds
// ---------------------------------------------------------------------------

/// A number inside what was written is read back from there.
pub proof fn lemma_number_written(m: Memory, at: int, data: Seq<u8>, offset: int, len: nat)
    requires
        m.valid(),
        m.can_write(at, data.len() as int),
        0 <= offset,
        offset + len <= data.len(),
    ensures
        m.store(at, data).number(at + offset, len) == le_value(
            data.subrange(offset, offset + len),
        ),
        m.store(at, data).can_read(at + offset, len as int),
{
    let after = m.store(at, data);
    assert(after.bytes.dom() =~= m.bytes.dom());
    assert forall|a: int| at <= a < at + data.len() implies #[trigger] m.bytes.dom().contains(a) by {
        assert(m.writable.contains(a));
    }
    assert(after.read(at + offset, len) =~= data.subrange(offset, offset + len)) by {
        assert forall|i: int| 0 <= i < len implies #[trigger] after.read(at + offset, len)[i]
            == data.subrange(offset, offset + len)[i] by {
            assert(m.bytes.dom().contains(at + offset + i));
            assert(after.bytes[at + offset + i] == data[offset + i]);
        }
    }
}

/// A number put into the memory of `n` bytes is read back, and bytes it is not
/// in stay.
pub proof fn law_a_number_is_read_back(m: Memory, at: int, value: nat, n: nat, other: int)
    requires
        m.valid(),
        m.can_write(at, n as int),
        value < crate::bytes::byte_span(n),
    ensures
        m.store(at, crate::bytes::le_bytes(value, n)).number(at, n) == value,
        !(at <= other < at + n) && m.bytes.dom().contains(other) ==> m.store(
            at,
            crate::bytes::le_bytes(value, n),
        ).bytes[other] == m.bytes[other],
{
    crate::bytes::lemma_le_round_trip(value, n);
    let data = crate::bytes::le_bytes(value, n);
    lemma_number_written(m, at, data, 0, n);
    assert(data.subrange(0, n as int) =~= data);
}

/// A string read is the bytes that are there, up to the first zero; it is too
/// long if there is none where one may be, and unreadable if a byte before
/// that is not there.
pub proof fn law_a_string_is_what_is_there(m: Memory, at: int, limit: nat, i: int)
    ensures
        m.cstr(at, limit) matches CStr::Complete(text) ==> {
            &&& text.len() < limit
            &&& m.bytes.dom().contains((at + text.len()) as int)
            &&& m.bytes[(at + text.len()) as int] == 0
            &&& 0 <= i < text.len() ==> m.bytes.dom().contains(at + i) && m.bytes[at + i]
                == text[i] && text[i] != 0
        },
        m.cstr(at, limit) == CStr::TooLong ==> (0 <= i < limit ==> m.bytes.dom().contains(at + i)
            && m.bytes[at + i] != 0),
        m.cstr(at, limit) == CStr::Fault ==> exists|j: int|
            #![trigger m.bytes.dom().contains(j)]
            at <= j < at + limit && !m.bytes.dom().contains(j),
    decreases limit,
{
    if limit > 0 && m.bytes.dom().contains(at) && m.bytes[at] != 0 {
        law_a_string_is_what_is_there(m, at + 1, (limit - 1) as nat, i - 1);
        let tail = m.cstr(at + 1, (limit - 1) as nat);
        if let CStr::Complete(text) = tail {
            let all = m.cstr(at, limit)->Complete_0;
            assert(all == seq![m.bytes[at]] + text);
            if i == 0 {
                assert(all[0] == m.bytes[at]);
            } else if 0 < i < all.len() {
                assert(all[i] == text[i - 1]);
            }
        }
        if tail == CStr::Fault {
            let j = choose|j: int|
                #![trigger m.bytes.dom().contains(j)]
                at + 1 <= j < at + 1 + (limit - 1) && !m.bytes.dom().contains(j);
            assert(!m.bytes.dom().contains(j));
        }
    } else if limit > 0 && !m.bytes.dom().contains(at) {
        assert(at <= at < at + limit && !m.bytes.dom().contains(at));
    }
}

/// A word of a shared object is found by where it is in the object, so that
/// two mappings of it agree.
pub proof fn law_a_shared_word_is_found_by_its_object(space: AddressSpace, i: int, a: int)
    requires
        space.wf(),
        0 <= i < space.segments@.len(),
        space.segments@[i].start <= a < space.segments@[i].start + space.segments@[i].bytes@.len(),
    ensures
        space.segments@[i].shared is None ==> space.spec_shared_object_at(a) is None,
        space.segments@[i].shared matches Some(backing) ==> backing.offset + (a
            - space.segments@[i].start) <= u64::MAX ==> {
            let found = space.spec_shared_object_at(a);
            &&& found is Some
            &&& found->0.object == backing.object
            &&& found->0.offset - backing.offset == a - space.segments@[i].start
        },
        space@.bytes.dom().contains(a),
        space@.bytes[a] == space.segments@[i].bytes@[a - space.segments@[i].start],
        space@.writable.contains(a) <==> space.segments@[i].writable,
{
    assert(space.segments@[i].covers(a));
    assert(space.holds(i, a));
    assert(space.segments@[space.holder(a)].covers(a));
    assert(space.holder(a) == i);
}

/// A span can be read, or written, exactly if each byte of it can: no byte of
/// it may be left out, and none beside it matters.
pub proof fn law_a_span_is_its_bytes(m: Memory, at: int, n: int)
    requires
        0 <= n,
    ensures
        m.can_read(at, 0),
        m.can_read(at, n + 1) <==> m.can_read(at, n) && m.bytes.dom().contains(at + n),
        m.can_write(at, 0),
        m.can_write(at, n + 1) <==> m.can_write(at, n) && m.writable.contains(at + n),
{
}

} // verus!
