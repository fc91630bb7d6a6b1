//! A synthetic ELF image, for trying the loader on.
//!
//! It has the shape that matters: a read-execute segment covering the headers,
//! and a read-write one with more bytes in memory than in the file. It is
//! deliberately not a general ELF writer: no sections, no dynamic table.

use vstd::prelude::*;

use crate::bytes::{
    lay_over, le_bytes, le_encode, le_value, lemma_le_bytes_len, lemma_overlaid, overlaid,
};
use crate::load::{PAGE_SIZE, PF_R, PF_W, PF_X, PT_INTERP, PT_LOAD};

verus! {

/// Where the image is linked.
pub const BASE: u64 = 0x40_0000;

/// The entry point the image declares.
pub const ENTRY: u64 = 0x40_0100;

/// Where the writable segment is linked.
pub const DATA_VADDR: u64 = 0x41_0000;

/// Bytes of the writable segment that come from the file.
pub const DATA_FILESZ: usize = 16;

/// Bytes it occupies in memory.
pub const DATA_MEMSZ: u64 = 4128;

/// Where the name of the dynamic linker is in the file.
pub const INTERP_OFFSET: u64 = 0x300;

/// Where the contents of the writable segment are in the file.
pub const DATA_OFFSET: usize = 4096;

/// The width of an ELF file.
#[derive(Clone, Copy, Debug, PartialEq, Eq, Structural)]
pub enum Class {
    /// 32 bits.
    Elf32,
    /// 64 bits.
    Elf64,
}

impl Class {
    /// Bytes in the file header.
    pub open spec fn spec_header_size(self) -> int {
        match self {
            Class::Elf32 => 52,
            Class::Elf64 => 64,
        }
    }

    /// Bytes in the file header.
    pub fn header_size(self) -> (n: usize)
        ensures
            n == self.spec_header_size(),
    {
        match self {
            Class::Elf32 => 52,
            Class::Elf64 => 64,
        }
    }

    /// Bytes in one program header.
    pub open spec fn spec_phdr_size(self) -> int {
        match self {
            Class::Elf32 => 32,
            Class::Elf64 => 56,
        }
    }

    /// Bytes in one program header.
    pub fn phdr_size(self) -> (n: usize)
        ensures
            n == self.spec_phdr_size(),
    {
        match self {
            Class::Elf32 => 32,
            Class::Elf64 => 56,
        }
    }
}

/// How the image is built, for trials that want a broken one.
#[derive(Clone, Copy, Debug, PartialEq, Eq, Structural)]
pub enum Shape {
    /// Valid.
    Good,
    /// Placed at the loader's base rather than where it is linked.
    PositionIndependent,
    /// The same, and it names a dynamic linker.
    Dynamic,
    /// For another machine.
    ForeignMachine,
    /// Text and data linked into the same page, so that the page would have to
    /// be writable and executable at once.
    WriteExecute,
    /// An entry point at the first address past the user half.
    EntryOutsideUser,
}

/// Some bytes and where in the file they go.
#[verifier::ext_equal]
pub ghost struct Field {
    /// Where.
    pub at: int,
    /// What.
    pub bytes: Seq<u8>,
}

/// The field of `len` bytes at `at` that holds `value`.
pub open spec fn number(at: int, value: int, len: nat) -> Field {
    Field { at, bytes: le_bytes(value as nat, len) }
}

/// `file` with some bytes written at `at`, and as it was if they do not fit.
pub open spec fn spec_put(file: Seq<u8>, at: int, bytes: Seq<u8>) -> Seq<u8> {
    if at + bytes.len() <= file.len() {
        overlaid(file, at, bytes)
    } else {
        file
    }
}

/// `file` with some fields written, one after another.
pub open spec fn with_fields(file: Seq<u8>, fields: Seq<Field>) -> Seq<u8>
    decreases fields.len(),
{
    if fields.len() == 0 {
        file
    } else {
        let before = with_fields(file, fields.drop_last());
        spec_put(before, fields.last().at, fields.last().bytes)
    }
}

/// One program header.
#[derive(Clone, Copy, Debug, PartialEq, Eq, Structural)]
pub struct Phdr {
    /// What it is about.
    pub kind: u32,
    /// What may be done with it.
    pub flags: u32,
    /// Where it is in the file.
    pub offset: u64,
    /// Where it is linked.
    pub vaddr: u64,
    /// Bytes of it in the file.
    pub filesz: u64,
    /// Bytes of it in memory.
    pub memsz: u64,
}

/// The fields of a program header at `at`. The two classes put them in
/// different orders as well as widths.
pub open spec fn phdr_fields(class: Class, at: int, phdr: Phdr) -> Seq<Field> {
    match class {
        Class::Elf32 => seq![
            number(at, phdr.kind as int, 4),
            number(at + 4, phdr.offset as int, 4),
            number(at + 8, phdr.vaddr as int, 4),
            number(at + 12, phdr.vaddr as int, 4),
            number(at + 16, phdr.filesz as int, 4),
            number(at + 20, phdr.memsz as int, 4),
            number(at + 24, phdr.flags as int, 4),
            number(at + 28, PAGE_SIZE as int, 4),
        ],
        Class::Elf64 => seq![
            number(at, phdr.kind as int, 4),
            number(at + 4, phdr.flags as int, 4),
            number(at + 8, phdr.offset as int, 8),
            number(at + 16, phdr.vaddr as int, 8),
            number(at + 24, phdr.vaddr as int, 8),
            number(at + 32, phdr.filesz as int, 8),
            number(at + 40, phdr.memsz as int, 8),
            number(at + 48, PAGE_SIZE as int, 8),
        ],
    }
}

/// The machine an image says it is for: for a foreign one, whichever of two
/// the machine is not.
pub open spec fn machine_of(machine: u16, shape: Shape) -> int {
    if shape == Shape::ForeignMachine {
        if machine == 0x3E {
            0xB7
        } else {
            0x3E
        }
    } else {
        machine as int
    }
}

/// Whether the loader may put an image where it likes.
pub open spec fn movable(shape: Shape) -> bool {
    shape == Shape::PositionIndependent || shape == Shape::Dynamic
}

/// The entry point an image declares.
pub open spec fn entry_of(shape: Shape, user_end: u64) -> int {
    if shape == Shape::EntryOutsideUser {
        user_end as int
    } else {
        ENTRY as int
    }
}

/// How many program headers an image has.
pub open spec fn phnum_of(shape: Shape) -> int {
    if shape == Shape::Dynamic {
        3
    } else {
        2
    }
}

/// The fields of the file header.
pub open spec fn header_fields(
    class: Class,
    machine: u16,
    shape: Shape,
    user_end: u64,
) -> Seq<Field> {
    let ident = seq![
        Field { at: 0, bytes: seq![0x7Fu8, 0x45, 0x4C, 0x46] },
        Field {
            at: 4,
            bytes: seq![
                if class == Class::Elf32 {
                    1u8
                } else {
                    2u8
                },
                1,
                1,
                0,
            ],
        },
        number(
            16,
            if movable(shape) {
                3
            } else {
                2
            },
            2,
        ),
        number(18, machine_of(machine, shape), 2),
        number(20, 1, 4),
    ];
    let rest = match class {
        Class::Elf32 => seq![
            number(24, entry_of(shape, user_end), 4),
            number(28, class.spec_header_size(), 4),
            number(40, class.spec_header_size(), 2),
            number(42, class.spec_phdr_size(), 2),
            number(44, phnum_of(shape), 2),
        ],
        Class::Elf64 => seq![
            number(24, entry_of(shape, user_end), 8),
            number(32, class.spec_header_size(), 8),
            number(52, class.spec_header_size(), 2),
            number(54, class.spec_phdr_size(), 2),
            number(56, phnum_of(shape), 2),
        ],
    };
    ident + rest
}

/// The segment that covers the headers, and can be read and run.
pub open spec fn text_phdr(class: Class, shape: Shape) -> Phdr {
    let size = (class.spec_header_size() + class.spec_phdr_size() * phnum_of(shape) + 0x400) as u64;
    Phdr { kind: PT_LOAD, flags: PF_R | PF_X, offset: 0, vaddr: BASE, filesz: size, memsz: size }
}

/// The segment that can be read and written.
pub open spec fn data_phdr(shape: Shape) -> Phdr {
    Phdr {
        kind: PT_LOAD,
        flags: PF_R | PF_W,
        offset: DATA_OFFSET as u64,
        vaddr: if shape == Shape::WriteExecute {
            (BASE + 0x200) as u64
        } else {
            DATA_VADDR
        },
        filesz: DATA_FILESZ as u64,
        memsz: DATA_MEMSZ,
    }
}

/// The segment that names the dynamic linker.
pub open spec fn interp_phdr() -> Phdr {
    Phdr {
        kind: PT_INTERP,
        flags: PF_R,
        offset: INTERP_OFFSET,
        vaddr: (BASE + INTERP_OFFSET) as u64,
        filesz: 10,
        memsz: 10,
    }
}

/// What the writable segment holds: `stage7-loaded-ok`.
pub open spec fn spec_data_mark() -> Seq<u8> {
    seq![
        0x73u8,
        0x74,
        0x61,
        0x67,
        0x65,
        0x37,
        0x2D,
        0x6C,
        0x6F,
        0x61,
        0x64,
        0x65,
        0x64,
        0x2D,
        0x6F,
        0x6B,
    ]
}

/// What the writable segment holds.
pub fn data_mark() -> (mark: [u8; 16])
    ensures
        mark@ == spec_data_mark(),
{
    let mark: [u8; 16] = [
        0x73, 0x74, 0x61, 0x67, 0x65, 0x37, 0x2D, 0x6C, 0x6F, 0x61, 0x64, 0x65, 0x64, 0x2D, 0x6F,
        0x6B,
    ];
    assert(mark@ =~= spec_data_mark());
    mark
}

/// The dynamic linker a [`Shape::Dynamic`] image names: `/ld-check`, and the
/// NUL behind it.
pub open spec fn spec_interp_path() -> Seq<u8> {
    seq![0x2Fu8, 0x6C, 0x64, 0x2D, 0x63, 0x68, 0x65, 0x63, 0x6B, 0]
}

/// The dynamic linker a [`Shape::Dynamic`] image names.
pub fn interp_path() -> (path: [u8; 10])
    ensures
        path@ == spec_interp_path(),
{
    let path: [u8; 10] = [0x2F, 0x6C, 0x64, 0x2D, 0x63, 0x68, 0x65, 0x63, 0x6B, 0];
    assert(path@ =~= spec_interp_path());
    path
}

/// The fields behind the file header: the program headers, what the writable
/// segment holds, the name of the linker if there is one, and the code.
pub open spec fn body_fields(class: Class, shape: Shape, code: Seq<u8>) -> Seq<Field> {
    let first = class.spec_header_size();
    let size = class.spec_phdr_size();
    let interp = if shape == Shape::Dynamic {
        seq![Field { at: INTERP_OFFSET as int, bytes: spec_interp_path() }] + phdr_fields(
            class,
            first + size * 2,
            interp_phdr(),
        )
    } else {
        Seq::empty()
    };
    phdr_fields(class, first, text_phdr(class, shape)) + phdr_fields(
        class,
        first + size,
        data_phdr(shape),
    ) + seq![Field { at: DATA_OFFSET as int, bytes: spec_data_mark() }] + interp + seq![
        Field { at: ENTRY - BASE, bytes: code },
    ]
}

/// Every byte of an image, before anything is written in it.
pub open spec fn blank() -> Seq<u8> {
    Seq::new((DATA_OFFSET + DATA_FILESZ) as nat, |i: int| 0u8)
}

/// An image.
pub open spec fn spec_build(
    class: Class,
    machine: u16,
    shape: Shape,
    code: Seq<u8>,
    user_end: u64,
) -> Seq<u8> {
    with_fields(
        with_fields(blank(), header_fields(class, machine, shape, user_end)),
        body_fields(class, shape, code),
    )
}

/// Fields written behind others are all of them written.
proof fn lemma_with_fields_push(file: Seq<u8>, fields: Seq<Field>, field: Field)
    ensures
        with_fields(file, fields.push(field)) == spec_put(
            with_fields(file, fields),
            field.at,
            field.bytes,
        ),
{
    assert(fields.push(field).drop_last() =~= fields);
}

/// Some fields, and then others, are all of them together.
proof fn lemma_with_fields_append(file: Seq<u8>, a: Seq<Field>, b: Seq<Field>)
    ensures
        with_fields(file, a + b) == with_fields(with_fields(file, a), b),
    decreases b.len(),
{
    if b.len() == 0 {
        assert(a + b =~= a);
    } else {
        lemma_with_fields_append(file, a, b.drop_last());
        assert((a + b).drop_last() =~= a + b.drop_last());
        assert((a + b).last() == b.last());
    }
}

/// Writing fields changes no length.
proof fn lemma_with_fields_len(file: Seq<u8>, fields: Seq<Field>)
    ensures
        with_fields(file, fields).len() == file.len(),
    decreases fields.len(),
{
    if fields.len() > 0 {
        lemma_with_fields_len(file, fields.drop_last());
    }
}

/// Write bytes at an offset, doing nothing if they would not fit.
pub fn put(file: &mut Vec<u8>, at: usize, bytes: &[u8])
    ensures
        final(file)@ == spec_put(old(file)@, at as int, bytes@),
{
    if bytes.len() <= file.len() && at <= file.len() - bytes.len() {
        lay_over(file, at, bytes);
    }
}

/// Write a number of `len` bytes at an offset.
fn put_number(file: &mut Vec<u8>, at: usize, value: u64, len: usize)
    ensures
        final(file)@ == spec_put(
            old(file)@,
            number(at as int, value as int, len as nat).at,
            number(at as int, value as int, len as nat).bytes,
        ),
{
    let bytes = le_encode(value, len);
    put(file, at, bytes.as_slice());
}

/// Ten fields, one after another.
proof fn lemma_ten(file: Seq<u8>, fields: Seq<Field>)
    requires
        fields.len() == 10,
    ensures
        with_fields(file, fields) == ({
            let f = |x: Seq<u8>, i: int| spec_put(x, fields[i].at, fields[i].bytes);
            f(f(f(f(f(f(f(f(f(f(file, 0), 1), 2), 3), 4), 5), 6), 7), 8), 9)
        }),
{
    let two = fields.take(2);
    let eight = fields.skip(2);
    assert(fields =~= two + eight);
    lemma_with_fields_append(file, two, eight);
    lemma_eight(with_fields(file, two), eight);
    let none = Seq::<Field>::empty();
    assert(with_fields(file, none) == file);
    lemma_with_fields_push(file, none, fields[0]);
    lemma_with_fields_push(file, none.push(fields[0]), fields[1]);
    assert(none.push(fields[0]).push(fields[1]) =~= two);
}

/// Eight fields, one after another.
proof fn lemma_eight(file: Seq<u8>, fields: Seq<Field>)
    requires
        fields.len() == 8,
    ensures
        with_fields(file, fields) == ({
            let f = |x: Seq<u8>, i: int| spec_put(x, fields[i].at, fields[i].bytes);
            f(f(f(f(f(f(f(f(file, 0), 1), 2), 3), 4), 5), 6), 7)
        }),
{
    let s0 = Seq::<Field>::empty();
    let s1 = s0.push(fields[0]);
    let s2 = s1.push(fields[1]);
    let s3 = s2.push(fields[2]);
    let s4 = s3.push(fields[3]);
    let s5 = s4.push(fields[4]);
    let s6 = s5.push(fields[5]);
    let s7 = s6.push(fields[6]);
    let s8 = s7.push(fields[7]);
    assert(with_fields(file, s0) == file);
    lemma_with_fields_push(file, s0, fields[0]);
    lemma_with_fields_push(file, s1, fields[1]);
    lemma_with_fields_push(file, s2, fields[2]);
    lemma_with_fields_push(file, s3, fields[3]);
    lemma_with_fields_push(file, s4, fields[4]);
    lemma_with_fields_push(file, s5, fields[5]);
    lemma_with_fields_push(file, s6, fields[6]);
    lemma_with_fields_push(file, s7, fields[7]);
    assert(s8 =~= fields);
}

/// Write one program header.
fn write_phdr(file: &mut Vec<u8>, class: Class, at: usize, phdr: &Phdr)
    requires
        at <= 0x1000,
    ensures
        final(file)@ == with_fields(old(file)@, phdr_fields(class, at as int, *phdr)),
{
    proof {
        lemma_eight(file@, phdr_fields(class, at as int, *phdr));
    }
    match class {
        Class::Elf32 => {
            put_number(file, at, phdr.kind as u64, 4);
            put_number(file, at + 4, phdr.offset, 4);
            put_number(file, at + 8, phdr.vaddr, 4);
            put_number(file, at + 12, phdr.vaddr, 4);
            put_number(file, at + 16, phdr.filesz, 4);
            put_number(file, at + 20, phdr.memsz, 4);
            put_number(file, at + 24, phdr.flags as u64, 4);
            put_number(file, at + 28, PAGE_SIZE, 4);
        },
        Class::Elf64 => {
            put_number(file, at, phdr.kind as u64, 4);
            put_number(file, at + 4, phdr.flags as u64, 4);
            put_number(file, at + 8, phdr.offset, 8);
            put_number(file, at + 16, phdr.vaddr, 8);
            put_number(file, at + 24, phdr.vaddr, 8);
            put_number(file, at + 32, phdr.filesz, 8);
            put_number(file, at + 40, phdr.memsz, 8);
            put_number(file, at + 48, PAGE_SIZE, 8);
        },
    }
}

/// Write the file header.
fn write_header(file: &mut Vec<u8>, class: Class, machine: u16, shape: Shape, user_end: u64)
    ensures
        final(file)@ == with_fields(old(file)@, header_fields(class, machine, shape, user_end)),
{
    let ghost fields = header_fields(class, machine, shape, user_end);
    proof {
        lemma_ten(file@, fields);
    }
    let magic: [u8; 4] = [0x7F, 0x45, 0x4C, 0x46];
    assert(magic@ =~= fields[0].bytes);
    put(file, 0, &magic);
    let class_byte: u8 = match class {
        Class::Elf32 => 1,
        Class::Elf64 => 2,
    };
    let ident: [u8; 4] = [class_byte, 1, 1, 0];
    assert(ident@ =~= fields[1].bytes);
    put(file, 4, &ident);
    let elf_type: u64 = if matches!(shape, Shape::PositionIndependent | Shape::Dynamic) {
        3
    } else {
        2
    };
    let machine: u64 = if shape == Shape::ForeignMachine {
        if machine == 0x3E {
            0xB7
        } else {
            0x3E
        }
    } else {
        machine as u64
    };
    put_number(file, 16, elf_type, 2);
    put_number(file, 18, machine, 2);
    put_number(file, 20, 1, 4);
    let entry: u64 = if shape == Shape::EntryOutsideUser {
        user_end
    } else {
        ENTRY
    };
    let phnum: u64 = if shape == Shape::Dynamic {
        3
    } else {
        2
    };
    match class {
        Class::Elf32 => {
            put_number(file, 24, entry, 4);
            put_number(file, 28, 52, 4);
            put_number(file, 40, 52, 2);
            put_number(file, 42, 32, 2);
            put_number(file, 44, phnum, 2);
        },
        Class::Elf64 => {
            put_number(file, 24, entry, 8);
            put_number(file, 32, 64, 8);
            put_number(file, 52, 64, 2);
            put_number(file, 54, 56, 2);
            put_number(file, 56, phnum, 2);
        },
    }
}

/// Build an image carrying `code` at its entry point.
pub fn build_with(class: Class, machine: u16, shape: Shape, code: &[u8], user_end: u64) -> (file:
    Vec<u8>)
    ensures
        file@ == spec_build(class, machine, shape, code@, user_end),
{
    let mut file: Vec<u8> = Vec::new();
    while file.len() < DATA_OFFSET + DATA_FILESZ
        invariant
            file@.len() <= DATA_OFFSET + DATA_FILESZ,
            forall|i: int| 0 <= i < file@.len() ==> file@[i] == 0,
        decreases DATA_OFFSET + DATA_FILESZ - file@.len(),
    {
        file.push(0);
    }
    assert(file@ =~= blank());
    write_header(&mut file, class, machine, shape, user_end);
    let ghost headed = file@;
    let first: usize = class.header_size();
    let size: usize = class.phdr_size();
    let phnum: usize = if shape == Shape::Dynamic {
        3
    } else {
        2
    };
    proof {
        assert(size * phnum == class.spec_phdr_size() * phnum_of(shape));
        assert(0 <= size * phnum <= 168) by (nonlinear_arith)
            requires
                size == 32 || size == 56,
                phnum == 2 || phnum == 3,
        ;
    }
    let text_size: u64 = (first + size * phnum + 0x400) as u64;
    let text = Phdr {
        kind: PT_LOAD,
        flags: PF_R | PF_X,
        offset: 0,
        vaddr: BASE,
        filesz: text_size,
        memsz: text_size,
    };
    assert(text == text_phdr(class, shape));
    write_phdr(&mut file, class, first, &text);
    let data_vaddr: u64 = if shape == Shape::WriteExecute {
        BASE + 0x200
    } else {
        DATA_VADDR
    };
    let data = Phdr {
        kind: PT_LOAD,
        flags: PF_R | PF_W,
        offset: DATA_OFFSET as u64,
        vaddr: data_vaddr,
        filesz: DATA_FILESZ as u64,
        memsz: DATA_MEMSZ,
    };
    assert(data == data_phdr(shape));
    write_phdr(&mut file, class, first + size, &data);
    let mark = data_mark();
    put(&mut file, DATA_OFFSET, &mark);
    let ghost marked = file@;
    let ghost one = phdr_fields(class, first as int, text);
    let ghost two = phdr_fields(class, (first + size) as int, data);
    let ghost three = seq![Field { at: DATA_OFFSET as int, bytes: spec_data_mark() }];
    proof {
        lemma_with_fields_append(headed, one, two);
        lemma_with_fields_append(headed, one + two, three);
        lemma_with_fields_push(with_fields(headed, one + two), Seq::empty(), three[0]);
        assert(Seq::<Field>::empty().push(three[0]) =~= three);
    }
    let ghost interp = if shape == Shape::Dynamic {
        seq![Field { at: INTERP_OFFSET as int, bytes: spec_interp_path() }] + phdr_fields(
            class,
            first + size * 2,
            interp_phdr(),
        )
    } else {
        Seq::empty()
    };
    if shape == Shape::Dynamic {
        let path = interp_path();
        put(&mut file, INTERP_OFFSET as usize, &path);
        let linker = Phdr {
            kind: PT_INTERP,
            flags: PF_R,
            offset: INTERP_OFFSET,
            vaddr: BASE + INTERP_OFFSET,
            filesz: 10,
            memsz: 10,
        };
        assert(linker == interp_phdr());
        write_phdr(&mut file, class, first + size * 2, &linker);
        proof {
            let name = seq![Field { at: INTERP_OFFSET as int, bytes: spec_interp_path() }];
            lemma_with_fields_push(marked, Seq::empty(), name[0]);
            assert(Seq::<Field>::empty().push(name[0]) =~= name);
            lemma_with_fields_append(
                marked,
                name,
                phdr_fields(class, first + size * 2, interp_phdr()),
            );
        }
    }
    assert(file@ == with_fields(marked, interp));
    let ghost linked = file@;
    put(&mut file, (ENTRY - BASE) as usize, code);
    proof {
        lemma_with_fields_append(headed, one + two + three, interp);
        let all = one + two + three + interp;
        lemma_with_fields_push(headed, all, Field { at: ENTRY - BASE, bytes: code@ });
        assert(all.push(Field { at: ENTRY - BASE, bytes: code@ }) =~= body_fields(
            class,
            shape,
            code@,
        ));
    }
    file
}

/// Build an image.
pub fn build(class: Class, machine: u16, shape: Shape, user_end: u64) -> (file: Vec<u8>)
    ensures
        file@ == spec_build(class, machine, shape, Seq::empty(), user_end),
{
    let none: [u8; 0] = [];
    assert(none@ =~= Seq::<u8>::empty());
    build_with(class, machine, shape, &none, user_end)
}

/// A third loadable segment.
#[derive(Clone, Copy, Debug, PartialEq, Eq, Structural)]
pub struct Extra {
    /// What may be done with it.
    pub flags: u32,
    /// Where its contents are in the file.
    pub offset: u64,
    /// Where it is linked.
    pub vaddr: u64,
    /// Bytes of it in the file.
    pub filesz: u64,
    /// Bytes of it in memory.
    pub memsz: u64,
}

/// Where a file header says how many program headers there are.
pub open spec fn phnum_at(class: Class) -> int {
    match class {
        Class::Elf32 => 44,
        Class::Elf64 => 56,
    }
}

/// A good image carrying `code`, with a third loadable segment whose contents
/// are not in the bytes returned: the headers of a larger file.
pub fn build_with_segment(class: Class, machine: u16, code: &[u8], extra: &Extra, user_end: u64) -> (
    file: Vec<u8>)
    ensures
        file@ == with_fields(
            spec_put(
                spec_build(class, machine, Shape::Good, code@, user_end),
                phnum_at(class),
                le_bytes(3, 2),
            ),
            phdr_fields(
                class,
                class.spec_header_size() + class.spec_phdr_size() * 2,
                (Phdr {
                    kind: PT_LOAD,
                    flags: extra.flags,
                    offset: extra.offset,
                    vaddr: extra.vaddr,
                    filesz: extra.filesz,
                    memsz: extra.memsz,
                }),
            ),
        ),
{
    let mut file = build_with(class, machine, Shape::Good, code, user_end);
    let at: usize = match class {
        Class::Elf32 => 44,
        Class::Elf64 => 56,
    };
    put_number(&mut file, at, 3, 2);
    let phdr = Phdr {
        kind: PT_LOAD,
        flags: extra.flags,
        offset: extra.offset,
        vaddr: extra.vaddr,
        filesz: extra.filesz,
        memsz: extra.memsz,
    };
    write_phdr(&mut file, class, class.header_size() + class.phdr_size() * 2, &phdr);
    file
}

/// Whether a field and a part of the file share no byte.
pub open spec fn apart(field: Field, from: int, len: int) -> bool {
    field.at >= 0 && (from + len <= field.at || field.at + field.bytes.len() <= from)
}

/// Fields that share no byte with a part of the file leave it alone.
proof fn lemma_apart(file: Seq<u8>, fields: Seq<Field>, from: int, len: int)
    requires
        0 <= from,
        0 <= len,
        from + len <= file.len(),
        forall|i: int| 0 <= i < fields.len() ==> apart(#[trigger] fields[i], from, len),
    ensures
        with_fields(file, fields).subrange(from, from + len) == file.subrange(from, from + len),
    decreases fields.len(),
{
    if fields.len() > 0 {
        let rest = fields.drop_last();
        assert forall|i: int| 0 <= i < rest.len() implies apart(#[trigger] rest[i], from, len) by {
            assert(rest[i] == fields[i]);
        }
        lemma_apart(file, rest, from, len);
        lemma_with_fields_len(file, rest);
        let last = fields.last();
        assert(apart(fields[fields.len() - 1], from, len));
        let before = with_fields(file, rest);
        if last.at + last.bytes.len() <= before.len() {
            lemma_overlaid(before, last.at, last.bytes, from, len);
        }
    }
}

/// A field that fits, and that no later one touches, is in the file.
proof fn lemma_found(file: Seq<u8>, fields: Seq<Field>, i: int)
    requires
        0 <= i < fields.len(),
        0 <= fields[i].at,
        fields[i].at + fields[i].bytes.len() <= file.len(),
        forall|j: int|
            i < j < fields.len() ==> apart(
                #[trigger] fields[j],
                fields[i].at,
                fields[i].bytes.len() as int,
            ),
    ensures
        with_fields(file, fields).subrange(
            fields[i].at,
            fields[i].at + fields[i].bytes.len(),
        ) == fields[i].bytes,
{
    let up_to = fields.take(i + 1);
    let rest = fields.skip(i + 1);
    assert(fields =~= up_to + rest);
    lemma_with_fields_append(file, up_to, rest);
    assert(up_to.last() == fields[i]);
    lemma_with_fields_len(file, up_to.drop_last());
    lemma_with_fields_len(file, up_to);
    let before = with_fields(file, up_to.drop_last());
    lemma_overlaid(
        before,
        fields[i].at,
        fields[i].bytes,
        fields[i].at,
        fields[i].bytes.len() as int,
    );
    assert forall|j: int| 0 <= j < rest.len() implies apart(
        #[trigger] rest[j],
        fields[i].at,
        fields[i].bytes.len() as int,
    ) by {
        assert(rest[j] == fields[i + 1 + j]);
    }
    lemma_apart(
        with_fields(file, up_to),
        rest,
        fields[i].at,
        fields[i].bytes.len() as int,
    );
}

/// Every field of the file header says in the finished image what it was meant
/// to say: nothing written behind it touches it.
pub proof fn law_the_header_says_what_it_should(
    class: Class,
    machine: u16,
    shape: Shape,
    code: Seq<u8>,
    user_end: u64,
    i: int,
)
    requires
        0 <= i < 10,
    ensures
        ({
            let field = header_fields(class, machine, shape, user_end)[i];
            spec_build(class, machine, shape, code, user_end).subrange(
                field.at,
                field.at + field.bytes.len(),
            ) == field.bytes
        }),
{
    let header = header_fields(class, machine, shape, user_end);
    let body = body_fields(class, shape, code);
    lemma_number_lengths();
    assert(header.len() == 10);
    let field = header[i];
    assert forall|j: int| 0 <= j < 10 && j != i implies apart(
        #[trigger] header[j],
        field.at,
        field.bytes.len() as int,
    ) by {
        assert(header_extent(class, machine, shape, user_end, j) && header_extent(
            class,
            machine,
            shape,
            user_end,
            i,
        ));
    }
    assert(header_extent(class, machine, shape, user_end, i));
    lemma_found(blank(), header, i);
    lemma_with_fields_len(blank(), header);
    assert forall|j: int| 0 <= j < body.len() implies apart(
        #[trigger] body[j],
        field.at,
        field.bytes.len() as int,
    ) by {
        lemma_body_at(class, shape, code, j);
    }
    lemma_apart(with_fields(blank(), header), body, field.at, field.bytes.len() as int);
}

/// Where each field of the file header is, and that it is inside the header.
spec fn header_extent(class: Class, machine: u16, shape: Shape, user_end: u64, i: int) -> bool {
    let field = header_fields(class, machine, shape, user_end)[i];
    &&& field.at == header_at(class, i)
    &&& field.bytes.len() == header_len(class, i)
}

spec fn header_at(class: Class, i: int) -> int {
    if i == 0 {
        0
    } else if i == 1 {
        4
    } else if i == 2 {
        16
    } else if i == 3 {
        18
    } else if i == 4 {
        20
    } else if i == 5 {
        24
    } else {
        match class {
            Class::Elf32 => if i == 6 {
                28
            } else {
                40 + 2 * (i - 7)
            },
            Class::Elf64 => if i == 6 {
                32
            } else {
                52 + 2 * (i - 7)
            },
        }
    }
}

spec fn header_len(class: Class, i: int) -> int {
    if i == 0 || i == 1 || i == 4 {
        4
    } else if i == 2 || i == 3 || i >= 7 {
        2
    } else {
        match class {
            Class::Elf32 => 4,
            Class::Elf64 => 8,
        }
    }
}

/// A number's field is as long as it says.
proof fn lemma_number_lengths()
    ensures
        forall|at: int, value: int, len: nat|
            (#[trigger] number(at, value, len)).bytes.len() == len,
{
    assert forall|at: int, value: int, len: nat|
        (#[trigger] number(at, value, len)).bytes.len() == len by {
        lemma_le_bytes_len(value as nat, len);
    }
}

/// Everything behind the file header is behind it.
proof fn lemma_body_at(class: Class, shape: Shape, code: Seq<u8>, j: int)
    requires
        0 <= j < body_fields(class, shape, code).len(),
    ensures
        body_fields(class, shape, code)[j].at >= class.spec_header_size(),
{
}

/// The code is where the image says it starts, if there is room for it.
pub proof fn law_the_code_is_at_the_entry(
    class: Class,
    machine: u16,
    shape: Shape,
    code: Seq<u8>,
    user_end: u64,
)
    requires
        ENTRY - BASE + code.len() <= DATA_OFFSET + DATA_FILESZ,
    ensures
        spec_build(class, machine, shape, code, user_end).subrange(
            ENTRY - BASE,
            ENTRY - BASE + code.len(),
        ) == code,
{
    let header = header_fields(class, machine, shape, user_end);
    let body = body_fields(class, shape, code);
    lemma_with_fields_len(blank(), header);
    assert(body[body.len() - 1] == (Field { at: ENTRY - BASE, bytes: code }));
    lemma_found(with_fields(blank(), header), body, body.len() - 1);
}

/// What the header of a finished image says, read as a loader reads it: that it
/// is an ELF file of its width, whether it may be placed, for which machine,
/// where it starts, and where its program headers are and how many.
pub proof fn law_the_header_reads_as_it_should(
    machine: u16,
    shape: Shape,
    code: Seq<u8>,
    user_end: u64,
)
    ensures
        ({
            let wide = spec_build(Class::Elf64, machine, shape, code, user_end);
            &&& wide.subrange(0, 4) == seq![0x7Fu8, 0x45, 0x4C, 0x46]
            &&& wide.subrange(4, 8)[0] == 2
            &&& shape == Shape::PositionIndependent || shape == Shape::Dynamic <==> le_value(
                wide.subrange(16, 18),
            ) == 3
            &&& shape != Shape::ForeignMachine ==> le_value(wide.subrange(18, 20)) == machine
            &&& shape == Shape::ForeignMachine ==> le_value(wide.subrange(18, 20)) != machine
            &&& shape != Shape::EntryOutsideUser ==> le_value(wide.subrange(24, 32)) == 0x40_0100
            &&& shape == Shape::EntryOutsideUser ==> le_value(wide.subrange(24, 32)) == user_end
            &&& le_value(wide.subrange(32, 40)) == 64
            &&& le_value(wide.subrange(54, 56)) == 56
            &&& le_value(wide.subrange(56, 58)) == (if shape == Shape::Dynamic {
                3nat
            } else {
                2
            })
        }),
{
    law_the_header_says_what_it_should(Class::Elf64, machine, shape, code, user_end, 0);
    law_the_header_says_what_it_should(Class::Elf64, machine, shape, code, user_end, 1);
    law_the_header_says_what_it_should(Class::Elf64, machine, shape, code, user_end, 2);
    law_the_header_says_what_it_should(Class::Elf64, machine, shape, code, user_end, 3);
    law_the_header_says_what_it_should(Class::Elf64, machine, shape, code, user_end, 5);
    law_the_header_says_what_it_should(Class::Elf64, machine, shape, code, user_end, 6);
    law_the_header_says_what_it_should(Class::Elf64, machine, shape, code, user_end, 8);
    law_the_header_says_what_it_should(Class::Elf64, machine, shape, code, user_end, 9);
    crate::bytes::lemma_byte_spans();
    crate::bytes::lemma_le_round_trip(2, 2);
    crate::bytes::lemma_le_round_trip(3, 2);
    crate::bytes::lemma_le_round_trip(machine_of(machine, shape) as nat, 2);
    crate::bytes::lemma_le_round_trip(entry_of(shape, user_end) as nat, 8);
    crate::bytes::lemma_le_round_trip(64, 8);
    crate::bytes::lemma_le_round_trip(56, 2);
    crate::bytes::lemma_le_round_trip(phnum_of(shape) as nat, 2);
}

/// Where each field behind a 64-bit file header is, and how long it is.
spec fn behind_at(i: int) -> (int, int) {
    if i < 16 {
        let at = 64 + 56 * (i / 8);
        if i % 8 == 0 {
            (at, 4)
        } else if i % 8 == 1 {
            (at + 4, 4)
        } else {
            (at + 8 * (i % 8 - 1), 8)
        }
    } else if i == 16 {
        (4096, 16)
    } else if i == 17 {
        (0x300, 10)
    } else if i == 18 {
        (176, 4)
    } else if i == 19 {
        (180, 4)
    } else {
        (176 + 8 * (i - 19), 8)
    }
}

proof fn lemma_behind_at(shape: Shape, code: Seq<u8>, i: int)
    requires
        0 <= i < body_fields(Class::Elf64, shape, code).len() - 1,
    ensures
        ({
            let body = body_fields(Class::Elf64, shape, code);
            &&& body.len() == (if shape == Shape::Dynamic {
                27int
            } else {
                18
            })
            &&& (body[i].at, body[i].bytes.len() as int) == behind_at(i)
            &&& body.last() == (Field { at: 0x100, bytes: code })
        }),
{
    lemma_number_lengths();
}

proof fn lemma_behind_found(machine: u16, shape: Shape, code: Seq<u8>, user_end: u64, i: int)
    requires
        code.len() <= 0x200,
        0 <= i < body_fields(Class::Elf64, shape, code).len() - 1,
    ensures
        ({
            let field = body_fields(Class::Elf64, shape, code)[i];
            spec_build(Class::Elf64, machine, shape, code, user_end).subrange(
                behind_at(i).0,
                behind_at(i).0 + behind_at(i).1,
            ) == field.bytes
        }),
{
    let header = header_fields(Class::Elf64, machine, shape, user_end);
    let body = body_fields(Class::Elf64, shape, code);
    lemma_with_fields_len(blank(), header);
    lemma_behind_at(shape, code, i);
    assert forall|j: int| i < j < body.len() implies apart(
        #[trigger] body[j],
        body[i].at,
        body[i].bytes.len() as int,
    ) by {
        if j < body.len() - 1 {
            lemma_behind_at(shape, code, j);
        }
    }
    lemma_found(with_fields(blank(), header), body, i);
}

/// What the program headers of a finished image say, read as a loader reads
/// them: the headers and the code at the front of the file, to be read and run;
/// what is behind them, to be read and written, with more memory than file; and
/// the name of a linker where there is one.
pub proof fn law_the_segments_read_as_they_should(
    machine: u16,
    shape: Shape,
    code: Seq<u8>,
    user_end: u64,
)
    requires
        code.len() <= 0x200,
    ensures
        ({
            let wide = spec_build(Class::Elf64, machine, shape, code, user_end);
            &&& le_value(wide.subrange(64, 68)) == 1
            &&& le_value(wide.subrange(68, 72)) == 5
            &&& le_value(wide.subrange(72, 80)) == 0
            &&& le_value(wide.subrange(80, 88)) == 0x40_0000
            &&& le_value(wide.subrange(96, 104)) == le_value(wide.subrange(104, 112))
            &&& le_value(wide.subrange(96, 104)) >= 0x100 + code.len()
            &&& le_value(wide.subrange(120, 124)) == 1
            &&& le_value(wide.subrange(124, 128)) == 6
            &&& le_value(wide.subrange(128, 136)) == 4096
            &&& shape != Shape::WriteExecute ==> le_value(wide.subrange(136, 144)) == 0x41_0000
            &&& shape == Shape::WriteExecute ==> le_value(wide.subrange(136, 144)) == 0x40_0200
            &&& le_value(wide.subrange(152, 160)) == 16
            &&& le_value(wide.subrange(160, 168)) == 4128
            &&& wide.subrange(4096, 4112) == spec_data_mark()
            &&& shape == Shape::Dynamic ==> le_value(wide.subrange(176, 180)) == 3 && le_value(
                wide.subrange(184, 192),
            ) == 0x300 && le_value(wide.subrange(208, 216)) == 10 && wide.subrange(0x300, 0x30A)
                == seq![0x2Fu8, 0x6C, 0x64, 0x2D, 0x63, 0x68, 0x65, 0x63, 0x6B, 0]
        }),
{
    let text = text_phdr(Class::Elf64, shape);
    let data = data_phdr(shape);
    lemma_behind_found(machine, shape, code, user_end, 0);
    lemma_behind_found(machine, shape, code, user_end, 1);
    lemma_behind_found(machine, shape, code, user_end, 2);
    lemma_behind_found(machine, shape, code, user_end, 3);
    lemma_behind_found(machine, shape, code, user_end, 5);
    lemma_behind_found(machine, shape, code, user_end, 6);
    lemma_behind_found(machine, shape, code, user_end, 8);
    lemma_behind_found(machine, shape, code, user_end, 9);
    lemma_behind_found(machine, shape, code, user_end, 10);
    lemma_behind_found(machine, shape, code, user_end, 11);
    lemma_behind_found(machine, shape, code, user_end, 13);
    lemma_behind_found(machine, shape, code, user_end, 14);
    lemma_behind_found(machine, shape, code, user_end, 16);
    if shape == Shape::Dynamic {
        lemma_behind_found(machine, shape, code, user_end, 17);
        lemma_behind_found(machine, shape, code, user_end, 18);
        lemma_behind_found(machine, shape, code, user_end, 20);
        lemma_behind_found(machine, shape, code, user_end, 23);
    }
    let body = body_fields(Class::Elf64, shape, code);
    assert(56 * phnum_of(shape) >= 112);
    assert(Class::Elf64.spec_phdr_size() * phnum_of(shape) == 56 * phnum_of(shape));
    assert(text.filesz >= 1200);
    assert(body[0] == number(64, text.kind as int, 4) && body[1] == number(
        68,
        text.flags as int,
        4,
    ) && body[2] == number(72, text.offset as int, 8) && body[3] == number(
        80,
        text.vaddr as int,
        8,
    ) && body[5] == number(96, text.filesz as int, 8) && body[6] == number(
        104,
        text.memsz as int,
        8,
    ));
    assert(body[8] == number(120, data.kind as int, 4) && body[9] == number(
        124,
        data.flags as int,
        4,
    ) && body[10] == number(128, data.offset as int, 8) && body[11] == number(
        136,
        data.vaddr as int,
        8,
    ) && body[13] == number(152, data.filesz as int, 8) && body[14] == number(
        160,
        data.memsz as int,
        8,
    ));
    crate::bytes::lemma_byte_spans();
    assert(4u32 | 1u32 == 5 && 4u32 | 2u32 == 6) by (bit_vector);
    crate::bytes::lemma_le_round_trip(1, 4);
    crate::bytes::lemma_le_round_trip(3, 4);
    crate::bytes::lemma_le_round_trip(5, 4);
    crate::bytes::lemma_le_round_trip(6, 4);
    crate::bytes::lemma_le_round_trip(0, 8);
    crate::bytes::lemma_le_round_trip(10, 8);
    crate::bytes::lemma_le_round_trip(16, 8);
    crate::bytes::lemma_le_round_trip(0x300, 8);
    crate::bytes::lemma_le_round_trip(4096, 8);
    crate::bytes::lemma_le_round_trip(4128, 8);
    crate::bytes::lemma_le_round_trip(0x40_0000, 8);
    crate::bytes::lemma_le_round_trip(data.vaddr as nat, 8);
    crate::bytes::lemma_le_round_trip(text.filesz as nat, 8);
}

} // verus!
