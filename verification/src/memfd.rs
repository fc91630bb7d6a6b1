//! `memfd_create`: a file that no directory names, for programs to share.
//!
//! With sealing allowed the file starts without seals and takes them through
//! `fcntl`; without, it carries the seal against sealing from the start.

use vstd::prelude::*;

use crate::errno::Errno;
use crate::uaccess::{AddressSpace, CStr, CString, Memory};

verus! {

/// `execve` closes it.
pub const MFD_CLOEXEC: u32 = 1;

/// The file may be sealed.
pub const MFD_ALLOW_SEALING: u32 = 2;

/// The seal against sealing.
pub const F_SEAL_SEAL: u32 = 1;

/// The longest name: what a directory entry holds, less the `memfd:` every
/// name is shown with.
pub const NAME_MAX_LEN: usize = 249;

/// The mode of the file.
pub const PERMISSIONS: u32 = 0o777;

/// A file to make, and how its descriptor is to be.
#[derive(Debug)]
pub struct MemfdRequest {
    /// Its name.
    pub name: Vec<u8>,
    /// The seals it starts with.
    pub seals: u32,
    /// Its mode.
    pub permissions: u32,
    /// Whether `execve` closes the descriptor.
    pub cloexec: bool,
}

/// The name a call gives, or why it is refused: `EINVAL` for an unknown flag,
/// `EFAULT` for a name that cannot be read, and `EINVAL` for one that is too
/// long.
pub open spec fn spec_memfd_name(m: Memory, name: u64, flags: u32) -> Result<Seq<u8>, Errno> {
    if flags & !(MFD_CLOEXEC | MFD_ALLOW_SEALING) != 0 {
        Err(Errno::EINVAL)
    } else {
        match m.cstr(name as int, (NAME_MAX_LEN + 1) as nat) {
            CStr::Complete(bytes) => Ok(bytes),
            CStr::TooLong => Err(Errno::EINVAL),
            CStr::Fault => Err(Errno::EFAULT),
        }
    }
}

/// `memfd_create`: the file to make, to be opened for reading and writing. It
/// ends in [`crate::fd::name_new`].
pub fn sys_memfd_create(space: &AddressSpace, name: u64, flags: u32) -> (request: Result<
    MemfdRequest,
    Errno,
>)
    requires
        space.wf(),
    ensures
        match request {
            Ok(r) => {
                &&& spec_memfd_name(space@, name, flags) == Ok::<Seq<u8>, Errno>(r.name@)
                &&& r.seals == if flags & MFD_ALLOW_SEALING != 0 {
                    0
                } else {
                    F_SEAL_SEAL
                }
                &&& r.permissions == PERMISSIONS
                &&& r.cloexec == (flags & MFD_CLOEXEC != 0)
            },
            Err(e) => spec_memfd_name(space@, name, flags) == Err::<Seq<u8>, Errno>(e),
        },
{
    if flags & !(MFD_CLOEXEC | MFD_ALLOW_SEALING) != 0 {
        return Err(Errno::EINVAL);
    }
    match space.copy_cstr_from_user(name, NAME_MAX_LEN + 1) {
        CString::Complete(bytes) => Ok(
            MemfdRequest {
                name: bytes,
                seals: if flags & MFD_ALLOW_SEALING != 0 {
                    0
                } else {
                    F_SEAL_SEAL
                },
                permissions: PERMISSIONS,
                cloexec: flags & MFD_CLOEXEC != 0,
            },
        ),
        CString::TooLong => Err(Errno::EINVAL),
        CString::Fault => Err(Errno::EFAULT),
    }
}

/// An accepted name is at most [`NAME_MAX_LEN`] bytes, and none of them NUL.
pub proof fn law_a_name_fits(m: Memory, name: u64, flags: u32)
    ensures
        match spec_memfd_name(m, name, flags) {
            Ok(bytes) => bytes.len() <= NAME_MAX_LEN && forall|i: int|
                0 <= i < bytes.len() ==> #[trigger] bytes[i] != 0,
            Err(_) => true,
        },
{
    lemma_cstr(m, name as int, (NAME_MAX_LEN + 1) as nat);
}

proof fn lemma_cstr(m: Memory, at: int, limit: nat)
    ensures
        match m.cstr(at, limit) {
            CStr::Complete(bytes) => bytes.len() < limit && forall|i: int|
                0 <= i < bytes.len() ==> #[trigger] bytes[i] != 0,
            _ => true,
        },
    decreases limit,
{
    if limit > 0 && m.bytes.dom().contains(at) && m.bytes[at] != 0 {
        lemma_cstr(m, at + 1, (limit - 1) as nat);
    }
}

// ---------------------------------------------------------------------------
// The name as text
// ---------------------------------------------------------------------------

/// How many bytes the character that starts with `first` has in UTF-8; none
/// for a byte that starts none.
pub open spec fn character_len(first: u8) -> int {
    if first <= 0x7F {
        1
    } else if 0xC2 <= first <= 0xDF {
        2
    } else if 0xE0 <= first <= 0xEF {
        3
    } else if 0xF0 <= first <= 0xF4 {
        4
    } else {
        0
    }
}

/// Whether `second` may follow `first`: it continues a character, and makes
/// neither one that is too long for its value, nor a surrogate, nor one past
/// the last.
pub open spec fn may_follow(first: u8, second: u8) -> bool {
    &&& 0x80 <= second <= 0xBF
    &&& first == 0xE0 ==> second >= 0xA0
    &&& first == 0xED ==> second <= 0x9F
    &&& first == 0xF0 ==> second >= 0x90
    &&& first == 0xF4 ==> second <= 0x8F
}

/// Whether byte `i` continues a character.
pub open spec fn continues(text: Seq<u8>, i: int) -> bool {
    i < text.len() && 0x80 <= text[i] <= 0xBF
}

/// How many bytes from `i` on belong together: a whole character, or as much
/// of one as is there before a byte that cannot go on with it.
pub open spec fn piece_len(text: Seq<u8>, i: int) -> int {
    let len = character_len(text[i]);
    if len <= 1 || !(i + 1 < text.len() && may_follow(text[i], text[i + 1])) {
        1
    } else if len == 2 || !continues(text, i + 2) {
        2
    } else if len == 3 || !continues(text, i + 3) {
        3
    } else {
        4
    }
}

/// Whether a whole character starts at `i`.
pub open spec fn whole_at(text: Seq<u8>, i: int) -> bool {
    piece_len(text, i) == character_len(text[i])
}

/// `text` from byte `i` on as text: each whole character as it is, and one
/// replacement character, U+FFFD, for each piece of something that is none.
pub open spec fn lossy(text: Seq<u8>, i: int) -> Seq<u8>
    decreases text.len() - i,
{
    if i < 0 || i >= text.len() {
        Seq::empty()
    } else {
        let next = i + piece_len(text, i);
        let shown = if whole_at(text, i) {
            text.subrange(i, next)
        } else {
            seq![0xEFu8, 0xBF, 0xBD]
        };
        shown + lossy(text, next)
    }
}

/// Whether `text` from byte `i` on is characters and nothing else.
pub open spec fn all_whole(text: Seq<u8>, i: int) -> bool
    decreases text.len() - i,
{
    i < 0 || i >= text.len() || (whole_at(text, i) && all_whole(text, i + piece_len(text, i)))
}

/// What is text already is shown as it is.
pub proof fn law_text_is_shown_as_it_is(text: Seq<u8>, i: int)
    requires
        0 <= i <= text.len(),
        all_whole(text, i),
    ensures
        lossy(text, i) == text.skip(i),
    decreases text.len() - i,
{
    if i < text.len() {
        let next = i + piece_len(text, i);
        law_text_is_shown_as_it_is(text, next);
        assert(text.subrange(i, next) + text.skip(next) =~= text.skip(i));
    } else {
        assert(text.skip(i) =~= Seq::<u8>::empty());
    }
}

fn continued(text: &[u8], i: usize) -> (yes: bool)
    ensures
        yes == continues(text@, i as int),
{
    i < text.len() && 0x80 <= text[i] && text[i] <= 0xBF
}

fn length_of(first: u8) -> (len: usize)
    ensures
        len == character_len(first),
{
    if first <= 0x7F {
        1
    } else if 0xC2 <= first && first <= 0xDF {
        2
    } else if 0xE0 <= first && first <= 0xEF {
        3
    } else if 0xF0 <= first && first <= 0xF4 {
        4
    } else {
        0
    }
}

fn followed(first: u8, second: u8) -> (yes: bool)
    ensures
        yes == may_follow(first, second),
{
    0x80 <= second && second <= 0xBF && (first != 0xE0 || second >= 0xA0) && (first != 0xED
        || second <= 0x9F) && (first != 0xF0 || second >= 0x90) && (first != 0xF4 || second
        <= 0x8F)
}

/// How many bytes from `i` on belong together.
fn piece(text: &[u8], i: usize) -> (len: usize)
    requires
        i < text@.len(),
    ensures
        len == piece_len(text@, i as int),
        1 <= len <= text@.len() - i,
{
    let whole: usize = length_of(text[i]);
    if whole <= 1 || !(i + 1 < text.len() && followed(text[i], text[i + 1])) {
        1
    } else if whole == 2 || !continued(text, i + 2) {
        2
    } else if whole == 3 || !continued(text, i + 3) {
        3
    } else {
        4
    }
}

/// The name a file is shown under: `memfd:` and its own, as text.
pub fn shown_name(text: &[u8]) -> (shown: Vec<u8>)
    ensures
        shown@ == seq![0x6Du8, 0x65, 0x6D, 0x66, 0x64, 0x3A] + lossy(text@, 0),
{
    let mut shown: Vec<u8> = Vec::new();
    shown.push(0x6D);
    shown.push(0x65);
    shown.push(0x6D);
    shown.push(0x66);
    shown.push(0x64);
    shown.push(0x3A);
    let ghost prefix = seq![0x6Du8, 0x65, 0x6D, 0x66, 0x64, 0x3A];
    let ghost all = prefix + lossy(text@, 0);
    let mut i: usize = 0;
    assert(shown@ =~= prefix);
    while i < text.len()
        invariant
            i <= text@.len(),
            shown@ + lossy(text@, i as int) == all,
        decreases text@.len() - i,
    {
        let ghost before = shown@;
        let len: usize = piece(text, i);
        if len == length_of(text[i]) {
            let character = vstd::slice::slice_subrange(text, i, i + len);
            shown.extend_from_slice(character);
            assert(shown@ =~= before + text@.subrange(i as int, i + len));
        } else {
            shown.push(0xEF);
            shown.push(0xBF);
            shown.push(0xBD);
            assert(shown@ =~= before + seq![0xEFu8, 0xBF, 0xBD]);
        }
        proof {
            let piece = shown@.skip(before.len() as int);
            assert(shown@ =~= before + piece);
            assert(lossy(text@, i as int) =~= piece + lossy(text@, i + len));
            assert(shown@ + lossy(text@, i + len) =~= before + lossy(text@, i as int));
        }
        i = i + len;
    }
    assert(shown@ =~= all);
    shown
}

/// A name is the string at its address, for a call with flags there are; one
/// longer than it may be, and a flag there is not, are refused.
pub proof fn law_a_name_is_the_string_at_its_address(m: Memory, name: u64, flags: u32)
    ensures
        flags > 3 ==> spec_memfd_name(m, name, flags) == Err::<Seq<u8>, Errno>(Errno::EINVAL),
        flags <= 3 ==> {
            &&& m.cstr(name as int, 250) matches CStr::Complete(text) ==> spec_memfd_name(
                m,
                name,
                flags,
            ) == Ok::<Seq<u8>, Errno>(text)
            &&& m.cstr(name as int, 250) == CStr::TooLong ==> spec_memfd_name(m, name, flags)
                == Err::<Seq<u8>, Errno>(Errno::EINVAL)
            &&& m.cstr(name as int, 250) == CStr::Fault ==> spec_memfd_name(m, name, flags) == Err::<
                Seq<u8>,
                Errno,
            >(Errno::EFAULT)
        },
{
    assert(flags & !(1u32 | 2u32) == 0 <==> flags <= 3) by (bit_vector);
}

/// How long a character is goes by its first byte, as UTF-8 has it, and the
/// replacement for what is none is three bytes.
pub proof fn law_what_is_no_text_is_replaced(text: Seq<u8>, i: int)
    requires
        0 <= i < text.len(),
    ensures
        text[i] < 0x80 ==> lossy(text, i).len() > 0 && lossy(text, i)[0] == text[i],
        0x80 <= text[i] < 0xC2 || text[i] > 0xF4 ==> lossy(text, i) == seq![0xEFu8, 0xBF, 0xBD]
            + lossy(text, i + 1),
        0xC2 <= text[i] && i + 1 == text.len() ==> lossy(text, i) == seq![0xEFu8, 0xBF, 0xBD],
        0xC2 <= text[i] <= 0xDF && i + 1 < text.len() && 0x80 <= text[i + 1] <= 0xBF ==> lossy(
            text,
            i,
        ) == text.subrange(i, i + 2) + lossy(text, i + 2),
        0xE1 <= text[i] <= 0xEC && i + 2 < text.len() && 0x80 <= text[i + 1] <= 0xBF && 0x80
            <= text[i + 2] <= 0xBF ==> lossy(text, i) == text.subrange(i, i + 3) + lossy(
            text,
            i + 3,
        ),
        0xF1 <= text[i] <= 0xF3 && i + 3 < text.len() && 0x80 <= text[i + 1] <= 0xBF && 0x80
            <= text[i + 2] <= 0xBF && 0x80 <= text[i + 3] <= 0xBF ==> lossy(text, i)
            == text.subrange(i, i + 4) + lossy(text, i + 4),
{
    if i + 1 == text.len() {
        assert(lossy(text, i + 1) =~= Seq::<u8>::empty());
        assert(seq![0xEFu8, 0xBF, 0xBD] + lossy(text, i + 1) =~= seq![0xEFu8, 0xBF, 0xBD]);
    }
}

/// A file in memory is made with the name it was given, for its owner and
/// everyone; it can be sealed only where that was asked.
pub proof fn law_a_file_in_memory_is_what_was_asked(
    space: AddressSpace,
    name: u64,
    flags: u32,
    request: Result<MemfdRequest, Errno>,
)
    requires
        call_ensures(sys_memfd_create, (&space, name, flags), request),
    ensures
        request matches Ok(r) ==> {
            &&& space@.cstr(name as int, 250) == CStr::Complete(r.name@)
            &&& r.permissions == 0o777
            &&& r.seals == 0 <==> flags & 2 != 0
            &&& r.seals == 1 <==> flags & 2 == 0
            &&& r.cloexec <==> flags & 1 != 0
        },
        request is Ok ==> flags <= 3,
{
    law_a_name_is_the_string_at_its_address(space@, name, flags);
}

/// A character is whole only in its one shortest form, and is no surrogate and
/// none past the last there is.
pub proof fn law_a_character_has_one_form(first: u8, second: u8)
    ensures
        may_follow(first, second) ==> 0x80 <= second < 0xC0,
        first == 0xE0 ==> (may_follow(first, second) <==> 0x800 <= (first - 0xE0) * 4096 + (second
            - 0x80) * 64 && second < 0xC0),
        first == 0xED ==> (may_follow(first, second) <==> 0x80 <= second && (first - 0xE0) * 4096
            + (second - 0x80) * 64 < 0xD800),
        first == 0xF0 ==> (may_follow(first, second) <==> 0x1_0000 <= (first - 0xF0) * 262_144 + (
        second - 0x80) * 4096 && second < 0xC0),
        first == 0xF4 ==> (may_follow(first, second) <==> 0x80 <= second && (first - 0xF0)
            * 262_144 + (second - 0x80) * 4096 < 0x11_0000),
        first != 0xE0 && first != 0xED && first != 0xF0 && first != 0xF4 && 0x80 <= second < 0xC0
            ==> may_follow(first, second),
{
}

} // verus!
