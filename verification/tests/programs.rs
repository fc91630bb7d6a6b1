//! Loading a program's image, and replacing one program with another.

use syscall::abi::Arch;
use syscall::credentials::Credentials;
use syscall::errno::Errno;
use syscall::exec::{
    descriptor_path, empty_user_half, interpreter_line, linker_for, load_into, load_native,
    lost_status, open_descriptor, populate, populated, read_strings, refused, run_as, stack_region,
    stack_top, sys_execve, sys_execveat, unfiled,
    Action, Event, ExecError, Finding, Phase, SetIds, Startup, AT_BASE, AT_EMPTY_PATH, AT_ENTRY,
    AT_EUID, AT_PAGESZ, AT_PHDR, AT_PHENT, AT_PHNUM, AT_SECURE, AT_SYMLINK_NOFOLLOW, AT_UID,
};
use syscall::fd::{standard_streams, FdTable, FileType, OpenFile, Start, AT_FDCWD};
use syscall::image::{
    build, build_with, build_with_segment, data_mark, interp_path, Class, Extra, Shape, BASE,
    DATA_MEMSZ, DATA_VADDR, ENTRY,
};
use syscall::launch::{look_again, start, Failure};
use syscall::load::{
    apply_permissions, check, copy_in_file, file_runs, interp_base, interpreter_of,
    interpreter_path, load, outside, page_down, page_up, permissions, pie_base, without, Elf,
    ElfError, FileRun, Image, LoadError, Loading, Moved, Named, Protection, Segment, Source, SpaceError, PF_R, PF_W, PF_X,
    PT_INTERP, PT_LOAD,
};
use syscall::memfile::MemoryFile;
use syscall::uaccess::AddressSpace;

const USER_END: u64 = 0x8000_0000_0000;
const MACHINE: u16 = 62;
const PAGE: u64 = 4096;
const AT: u64 = 0x10_0000;
const X86: Arch = Arch::X86_64;

fn number(bytes: &[u8], at: usize, len: usize) -> u64 {
    bytes[at..at + len].iter().rev().fold(0, |value, byte| value << 8 | u64::from(*byte))
}

/// The image whose bytes these are: its header and its program headers.
fn read_elf(bytes: &[u8]) -> Elf {
    let wide = bytes[4] == 2;
    let (word, entry, headers) = if wide { (8, 24, 54) } else { (4, 24, 42) };
    let phoff = number(bytes, entry + word, word);
    let phentsize = number(bytes, headers, 2) as u16;
    let phnum = number(bytes, headers + 2, 2) as u16;
    let mut segments = Vec::new();
    for i in 0..usize::from(phnum) {
        let at = phoff as usize + i * usize::from(phentsize);
        let field = |narrow: usize, wide_at: usize, len: usize| {
            number(bytes, at + if wide { wide_at } else { narrow }, len)
        };
        segments.push(Segment {
            kind: field(0, 0, 4) as u32,
            flags: field(24, 4, 4) as u32,
            offset: field(4, 8, word),
            vaddr: field(8, 16, word),
            filesz: field(16, 32, word),
            memsz: field(20, 40, word),
        });
    }
    Elf {
        machine: number(bytes, 18, 2) as u16,
        pie: number(bytes, 16, 2) == 3,
        entry: number(bytes, entry, word),
        phoff,
        phentsize,
        phnum,
        segments,
    }
}

fn image(bytes: &[u8]) -> Image {
    Image { elf: read_elf(bytes), len: bytes.len() as u64, object: None }
}

fn shaped(shape: Shape) -> Image {
    image(&build(Class::Elf64, MACHINE, shape, USER_END))
}

/// Memory with what `loading` maps, copies and protects.
fn carried_out(bytes: &[u8], loading: &Loading) -> AddressSpace {
    let mut space = AddressSpace { id: 1, user_end: USER_END, segments: Vec::new() };
    for (start, end) in &loading.program.anonymous {
        let mut at = *start;
        while at < *end {
            space.segments.push(syscall::uaccess::Segment {
                start: at,
                bytes: vec![0; PAGE as usize],
                writable: true,
                shared: None,
            });
            at += PAGE;
        }
    }
    for copy in &loading.program.copies {
        assert_eq!(
            syscall::load::copy_in(&mut space, bytes, copy.from, copy.to, copy.len),
            Ok(())
        );
    }
    for protection in &loading.program.protections {
        for segment in &mut space.segments {
            if protection.start <= segment.start && segment.start < protection.end {
                segment.writable = permissions(protection.flags).write;
            }
        }
    }
    space
}

#[test]
fn check_an_image_loads_where_its_headers_say() {
    for class in [Class::Elf64, Class::Elf32] {
        let file = build(class, MACHINE, Shape::Good, USER_END);
        let loading = load(&image(&file), None, MACHINE, USER_END).unwrap();
        let loaded = &loading.loaded;
        assert_eq!(loaded.entry, ENTRY);
        assert_eq!(loaded.start, ENTRY);
        assert_eq!(loaded.phdr, BASE + class.header_size() as u64);
        assert_eq!(loaded.phnum, 2);
        assert_eq!(loaded.phent, class.phdr_size() as u64);
        assert_eq!(loaded.base, 0);
        assert_eq!(loaded.end, page_up(DATA_VADDR + DATA_MEMSZ));

        let mut space = carried_out(&file, &loading);
        assert_eq!(space.copy_from_user(DATA_VADDR, 16), Ok(data_mark().to_vec()));
        assert_eq!(space.copy_from_user(DATA_VADDR + 16, 32), Ok(vec![0; 32]));
        // Text is read and not written; data is both.
        assert_eq!(space.copy_from_user(BASE, 4), Ok(b"\x7FELF".to_vec()));
        assert_eq!(space.copy_to_user(BASE, b"x"), Err(Errno::EFAULT));
        assert_eq!(space.copy_to_user(DATA_VADDR, b"w"), Ok(()));
    }
}

#[test]
fn check_the_loader_refuses_what_it_cannot_run() {
    let ask = |shape: Shape| load(&shaped(shape), None, MACHINE, USER_END).err();
    assert!(matches!(ask(Shape::ForeignMachine), Some(LoadError::WrongMachine(_))));
    assert!(matches!(ask(Shape::WriteExecute), Some(LoadError::WriteExecute(_))));
    assert_eq!(ask(Shape::Dynamic), Some(LoadError::NeedsInterpreter));
    assert!(matches!(ask(Shape::EntryOutsideUser), Some(LoadError::EntryNotUser(_))));
    assert!(matches!(
        check(&shaped(Shape::EntryOutsideUser), None, MACHINE, USER_END),
        Err(LoadError::EntryNotUser(_))
    ));
    let mut cut = shaped(Shape::Good);
    cut.len = 64;
    assert_eq!(
        load(&cut, None, MACHINE, USER_END).err(),
        Some(LoadError::Malformed(ElfError::SegmentOutOfBounds))
    );
    let mut empty = shaped(Shape::Good);
    empty.elf.segments.clear();
    assert_eq!(load(&empty, None, MACHINE, USER_END).err(), Some(LoadError::Empty));
}

#[test]
fn an_image_that_can_be_moved_is_placed_at_its_base() {
    let loading = load(&shaped(Shape::PositionIndependent), None, MACHINE, USER_END).unwrap();
    let base = pie_base(USER_END);
    assert_eq!(base, 0x5555_5555_5000);
    assert_eq!(loading.program.low, base);
    assert_eq!(loading.loaded.entry, base + 0x100);
    assert_eq!(check(&shaped(Shape::PositionIndependent), None, MACHINE, USER_END), Ok(()));
}

#[test]
fn a_linked_program_starts_at_its_linker() {
    let linker = shaped(Shape::PositionIndependent);
    let program = shaped(Shape::Dynamic);
    let loading = load(&program, Some(&linker), MACHINE, USER_END).unwrap();
    assert_eq!(loading.loaded.base, interp_base(USER_END));
    assert_eq!(loading.loaded.start, interp_base(USER_END) + 0x100);
    assert_eq!(loading.loaded.entry, pie_base(USER_END) + 0x100);
    assert!(interp_base(USER_END) < pie_base(USER_END));
    assert_eq!(check(&program, Some(&linker), MACHINE, USER_END), Ok(()));
    // A linker can be moved, and has no linker of its own.
    assert_eq!(
        load(&program, Some(&shaped(Shape::Good)), MACHINE, USER_END).err(),
        Some(LoadError::InterpreterNotPie)
    );
    assert_eq!(
        load(&program, Some(&shaped(Shape::Dynamic)), MACHINE, USER_END).err(),
        Some(LoadError::InterpreterChain)
    );
}

#[test]
fn the_interpreter_is_named_by_its_segment() {
    let file = build(Class::Elf64, MACHINE, Shape::Dynamic, USER_END);
    let source = Source::Bytes(file.clone());
    let named = interpreter_of(&read_elf(&file), &source).unwrap();
    let path = interp_path();
    assert_eq!(named, Named::Bytes(path.to_vec()));
    let plain = build(Class::Elf64, MACHINE, Shape::Good, USER_END);
    assert_eq!(
        interpreter_of(&read_elf(&plain), &Source::Bytes(plain.clone())).unwrap(),
        Named::Nobody
    );
    let spelled = || Some(b"/lib/ld.so".to_vec());
    assert_eq!(interpreter_path(Ok(()), spelled()), Ok(b"/lib/ld.so".to_vec()));
    assert_eq!(interpreter_path(Ok(()), None), Err(LoadError::BadInterpreter));
    assert_eq!(interpreter_path(Err(Errno::EIO), spelled()), Err(LoadError::Read(Errno::EIO)));
}

#[test]
fn a_segment_can_be_added() {
    let extra = Extra { flags: PF_R, offset: 0, vaddr: 0x42_0000, filesz: 8, memsz: 0x2000 };
    let file = build_with_segment(Class::Elf64, MACHINE, &[0xC3], &extra, USER_END);
    let elf = read_elf(&file);
    assert_eq!(elf.segments.len(), 3);
    assert_eq!(
        elf.segments[2],
        Segment {
            kind: PT_LOAD,
            flags: PF_R,
            offset: 0,
            vaddr: 0x42_0000,
            filesz: 8,
            memsz: 0x2000
        }
    );
    assert_eq!(file[(ENTRY - BASE) as usize], 0xC3);
    let good = build_with(Class::Elf64, MACHINE, Shape::Good, &[0x90, 0xC3], USER_END);
    assert_eq!(good[0x100..0x102], [0x90, 0xC3]);
}

fn moved(at: u64, offset: u64, filesz: u64, memsz: u64, flags: u32) -> Moved {
    Moved { at, offset, filesz, memsz, flags }
}

#[test]
fn whole_pages_of_one_segment_come_from_the_file() {
    let text = moved(0x40_0000, 0, 0x2100, 0x2100, PF_R | PF_X);
    assert_eq!(text.pages(), (0x40_0000, 0x40_3000));
    assert_eq!(text.file_end(), 0x40_2100);
    assert_eq!(
        file_runs(&vec![text], 0),
        vec![FileRun { start: 0x40_0000, end: 0x40_2000, offset: 0, flags: PF_R | PF_X }]
    );
    // A page that two segments share comes from neither.
    let data = moved(0x40_1800, 0x1800, 0x1000, 0x1000, PF_R | PF_W);
    let runs = file_runs(&vec![text, data], 0);
    for run in &runs {
        assert!(run.end <= 0x40_1000 || run.start >= 0x40_3000);
    }
    assert_eq!(outside(0x40_0000, 0x40_3000, &runs), vec![(0x40_1000, 0x40_3000)]);
    assert_eq!(
        without(&vec![(0, 10), (20, 30)], 5, 25),
        vec![(0, 5), (25, 30)]
    );
    let segment = Segment {
        kind: PT_LOAD,
        flags: PF_R,
        offset: 0,
        vaddr: 0x1000,
        filesz: 1,
        memsz: 2,
    };
    assert_eq!(Moved::of(&segment, 0x5000), moved(0x6000, 0, 1, 2, PF_R));
}

#[test]
fn a_file_is_copied_a_piece_at_a_time() {
    let held: Vec<u8> = (0..40).collect();
    let mut file = MemoryFile::regular(held.clone(), true, false, 64);
    let mut space = caller();
    assert_eq!(copy_in_file(&mut space, &mut file, 5, AT, 30, 7), Ok(()));
    assert_eq!(space.copy_from_user(AT, 30).unwrap(), held[5..35].to_vec());
    assert_eq!(file.offset, 0);
    assert_eq!(copy_in_file(&mut space, &mut file, 5, AT, 0, 7), Ok(()));
    // The file ends early: what came before its end is there.
    assert_eq!(
        copy_in_file(&mut space, &mut file, 30, AT, 12, 8),
        Err(LoadError::Read(Errno::EIO))
    );
    assert_eq!(space.copy_from_user(AT, 8).unwrap(), held[30..38].to_vec());
    let mut closed = MemoryFile::regular(held, false, false, 64);
    assert_eq!(
        copy_in_file(&mut space, &mut closed, 0, AT, 4, 8),
        Err(LoadError::Read(Errno::EBADF))
    );
    assert_eq!(copy_in_file(&mut space, &mut file, 0, 64, 4, 8), Err(LoadError::Copy));
}

#[test]
fn ranges_are_cut_once_and_in_order() {
    assert_eq!(
        without(&vec![(0, 10), (20, 30), (40, 50)], 5, 25),
        vec![(0, 5), (25, 30), (40, 50)]
    );
    assert_eq!(without(&vec![(0, 10)], 3, 6), vec![(0, 3), (6, 10)]);
    assert_eq!(without(&vec![(0, 10)], 0, 10), vec![]);
    assert_eq!(without(&vec![(0, 10)], 10, 12), vec![(0, 10)]);
    // Segments given highest first; their runs come lowest first, each once.
    let high = moved(0x40_8000, 0x8000, 0x1000, 0x1000, PF_R | PF_W);
    let low = moved(0x40_0000, 0, 0x3000, 0x3000, PF_R | PF_X);
    let middle = moved(0x40_5000, 0x5000, 0x1000, 0x1000, PF_R);
    let runs = file_runs(&vec![high, low, middle], 0x100);
    let found: Vec<(u64, u64, u64)> =
        runs.iter().map(|run| (run.start, run.end, run.offset)).collect();
    assert_eq!(
        found,
        vec![
            (0x40_0000, 0x40_3000, 0x100),
            (0x40_5000, 0x40_6000, 0x5100),
            (0x40_8000, 0x40_9000, 0x8100),
        ]
    );
    let pieces = outside(0x40_0000, 0x40_A000, &runs);
    assert_eq!(
        pieces,
        vec![(0x40_3000, 0x40_5000), (0x40_6000, 0x40_8000), (0x40_9000, 0x40_A000)]
    );
    // A segment with another inside it is mapped on either side of it.
    let whole = moved(0x40_0000, 0, 0x5000, 0x5000, PF_R);
    let inner = moved(0x40_2000, 0x2000, 0x800, 0x800, PF_R);
    let around = file_runs(&vec![whole, inner], 0);
    assert_eq!(around.len(), 2);
    assert_eq!((around[0].start, around[0].end), (0x40_0000, 0x40_2000));
    assert_eq!((around[1].start, around[1].end), (0x40_3000, 0x40_5000));
    // One protection for each run of pages that agree.
    let text = moved(0x40_0000, 0, 0x2000, 0x2000, PF_R | PF_X);
    let data = moved(0x40_2000, 0x2000, 0x1000, 0x2000, PF_R | PF_W);
    assert_eq!(
        apply_permissions(&vec![text, data], &vec![(0x40_0000, 0x40_4000)]).unwrap(),
        vec![
            Protection { start: 0x40_0000, end: 0x40_2000, flags: PF_R | PF_X },
            Protection { start: 0x40_2000, end: 0x40_4000, flags: PF_R | PF_W },
        ]
    );
}

#[test]
fn a_shared_page_gets_what_both_allow_and_never_write_and_execute() {
    let text = moved(0x40_0000, 0, 0x1800, 0x1800, PF_R | PF_X);
    let data = moved(0x40_1800, 0x1800, 0x100, 0x100, PF_R);
    let all = vec![(0x40_0000, 0x40_2000)];
    let list = apply_permissions(&vec![text, data], &all).unwrap();
    for protection in &list {
        assert_eq!(protection.flags, PF_R | PF_X);
    }
    let writable = moved(0x40_1800, 0x1800, 0x100, 0x100, PF_R | PF_W);
    assert_eq!(
        apply_permissions(&vec![text, writable], &all),
        Err(LoadError::WriteExecute(0x40_1000))
    );
    assert_eq!(
        apply_permissions(&vec![writable], &all).unwrap(),
        vec![
            Protection { start: 0x40_0000, end: 0x40_1000, flags: 0 },
            Protection { start: 0x40_1000, end: 0x40_2000, flags: PF_R | PF_W }
        ]
    );
}

#[test]
fn pages_round_as_they_should() {
    assert_eq!(page_down(0x1FFF), 0x1000);
    assert_eq!(page_up(0x1001), 0x2000);
    assert_eq!(page_up(0x1000), 0x1000);
    assert!(permissions(PF_R | PF_W).write);
    assert!(!permissions(PF_R | PF_X).write);
    assert!(permissions(PF_X).execute);
    assert_eq!(PT_INTERP, 3);
}

#[test]
fn the_stack_has_a_guard_on_both_sides() {
    let top = stack_top(USER_END);
    let region = stack_region(USER_END);
    assert_eq!(region.len(), 3);
    assert_eq!(region[0].start + region[0].len, region[1].start);
    assert_eq!(region[1].start, top);
    assert_eq!(region[1].start + region[1].len, USER_END);
    assert_eq!(region[2].start + region[2].len, region[0].start);
    assert_eq!(region[0].len, 0x80_0000);
    assert_eq!(region[2].len, 0x10_0000);
    assert!(region[0].usable && !region[1].usable && !region[2].usable);
    assert_eq!(top % 16, 0);
}

#[test]
fn an_image_is_built_up_or_refused() {
    let loading = load(&shaped(Shape::Good), None, MACHINE, USER_END).unwrap();
    let done = vec![Ok(()), Ok(()), Ok(())];
    let image = load_into(Ok(loading.loaded), &done, USER_END).unwrap();
    assert_eq!(image.stack_top, stack_top(USER_END));
    let full = vec![Ok(()), Err(SpaceError::OutOfMemory), Ok(())];
    assert_eq!(
        load_into(Ok(loading.loaded), &full, USER_END).err(),
        Some(ExecError::Space(SpaceError::OutOfMemory))
    );
    // What was not tried need not be told of.
    let short = vec![Ok(()), Err(SpaceError::OutOfMemory)];
    assert_eq!(
        load_into(Ok(loading.loaded), &short, USER_END).err(),
        Some(ExecError::Space(SpaceError::OutOfMemory))
    );
    assert_eq!(
        load_into(Err(LoadError::Empty), &Vec::new(), USER_END).err(),
        Some(ExecError::Load(LoadError::Empty))
    );
    assert_eq!(
        load_native(Err(LoadError::Empty), &Vec::new(), USER_END).err(),
        Some(ExecError::Load(LoadError::Empty))
    );
    let native = load_native(Ok(loading.loaded), &done, USER_END).unwrap();
    assert_eq!(native.entry, ENTRY);

    let mut who = Credentials::root();
    let plan = populate(
        &image,
        &mut who,
        SetIds { uid: Some(1000), gid: None },
        0xAB,
        0,
        X86,
    );
    for (key, value) in [
        (AT_PAGESZ, 4096),
        (AT_PHDR, BASE + 64),
        (AT_PHENT, 56),
        (AT_PHNUM, 2),
        (AT_ENTRY, ENTRY),
        (AT_BASE, 0),
        (AT_UID, 0),
        (AT_EUID, 1000),
        (AT_SECURE, 1),
    ] {
        assert!(plan.auxv.contains(&(key, value)), "{key} is not {value}");
    }
    assert_eq!(who.user.effective, 1000);
    assert_eq!(plan.heap_base, loading.loaded.end);
    assert_eq!(
        populated(&image, Some(0x7000), true),
        Ok(Startup { entry: ENTRY, stack: 0x7000, argument: 0 })
    );
    assert_eq!(populated(&image, None, true), Err(ExecError::Startup));
    assert_eq!(populated(&image, Some(0x7000), false), Err(ExecError::Startup));
}

#[test]
fn a_refused_image_is_no_program() {
    for error in [
        LoadError::Empty,
        LoadError::WrongMachine(3),
        LoadError::Malformed(ElfError::Malformed),
        LoadError::WriteExecute(0x1000),
    ] {
        assert_eq!(refused(error), Errno::ENOEXEC);
    }
    assert_eq!(refused(LoadError::Space(SpaceError::OutOfMemory)), Errno::ENOEXEC);
    assert_eq!(refused(LoadError::Read(Errno::EIO)), Errno::EIO);
    assert_eq!(lost_status(), 139);
}

#[test]
fn a_script_names_its_interpreter() {
    let line = |text: &[u8]| interpreter_line(text);
    assert_eq!(line(b"#!/bin/sh\nrest"), Ok((b"/bin/sh".to_vec(), None)));
    assert_eq!(
        line(b"#! /usr/bin/env  python3 -u \n"),
        Ok((b"/usr/bin/env".to_vec(), Some(b"python3 -u".to_vec())))
    );
    assert_eq!(line(b"#!\n"), Err(Errno::ENOEXEC));
    assert_eq!(line(b"#!   \t\n"), Err(Errno::ENOEXEC));
    // A file shorter than the line's limit may end without a newline.
    assert_eq!(line(b"#!/bin/sh"), Ok((b"/bin/sh".to_vec(), None)));
    let mut long = b"#!/".to_vec();
    long.extend(vec![b'a'; 400]);
    // A longer line is cut where the limit is.
    assert_eq!(line(&long).unwrap().0.len(), 256);
}

fn strings(space: &mut AddressSpace, at: u64, list: &[&[u8]]) -> u64 {
    let mut text = at + 256;
    for (i, string) in list.iter().enumerate() {
        let mut bytes = string.to_vec();
        bytes.push(0);
        assert!(space.copy_to_user(text, &bytes).is_ok());
        assert!(space.put_number(at + 8 * i as u64, text, 8).is_ok());
        text += bytes.len() as u64;
    }
    assert!(space.put_number(at + 8 * list.len() as u64, 0, 8).is_ok());
    at
}

fn caller() -> AddressSpace {
    let mut space = AddressSpace {
        id: 1,
        user_end: USER_END,
        segments: vec![syscall::uaccess::Segment {
            start: AT,
            bytes: vec![0; 4096],
            writable: true,
            shared: None,
        }],
    };
    assert!(space.copy_to_user(AT, b"/exec-target\0").is_ok());
    assert!(space.copy_to_user(AT + 32, b"\0").is_ok());
    strings(&mut space, AT + 512, &[b"target", b"-v"]);
    strings(&mut space, AT + 1024, &[b"HOME=/"]);
    space
}

#[test]
fn strings_are_read_within_a_budget() {
    let space = caller();
    let mut budget: usize = 1000;
    assert_eq!(
        read_strings(&space, AT + 512, &mut budget, X86),
        Ok(vec![b"target".to_vec(), b"-v".to_vec()])
    );
    assert!(budget < 1000);
    // No list at all is an empty one.
    assert_eq!(read_strings(&space, 0, &mut budget, X86), Ok(Vec::new()));
    let mut small: usize = 4;
    assert_eq!(read_strings(&space, AT + 512, &mut small, X86), Err(Errno::E2BIG));
    let mut again: usize = 1000;
    assert_eq!(read_strings(&space, 64, &mut again, X86), Err(Errno::EFAULT));
}

fn file(kind: FileType) -> OpenFile {
    OpenFile {
        kind,
        path_only: false,
        readable: true,
        writable: false,
        append: false,
        nonblock: false,
        filesystem: 1,
        ino: 42,
        pollable: false,
        epoll_set: false,
        console: false,
        mappable: true,
        seals: 0,
    }
}

fn opened() -> (FdTable, Vec<OpenFile>) {
    let mut table = standard_streams(0);
    assert_eq!(table.insert(1, false), Ok(3));
    assert_eq!(table.insert(2, true), Ok(4));
    (
        table,
        vec![file(FileType::CharDevice), file(FileType::Directory), file(FileType::Regular)],
    )
}

const NO_IDS: SetIds = SetIds { uid: None, gid: None };

/// A program that is no script, opened.
fn plain(set_ids: SetIds) -> (Vec<u8>, Vec<u8>, SetIds) {
    (b"\x7FELF".to_vec(), b"/exec-target".to_vec(), set_ids)
}

#[test]
fn check_execve_replaces_the_program() {
    let (table, open) = opened();
    let space = caller();
    let mut state =
        sys_execve(&space, &table, &open, AT, AT + 512, AT + 1024, X86).unwrap();
    assert_eq!(state.path, b"/exec-target".to_vec());
    assert_eq!(state.args, vec![b"target".to_vec(), b"-v".to_vec()]);
    assert_eq!(state.env, vec![b"HOME=/".to_vec()]);
    assert_eq!(state.first(), Action::Open);
    assert_eq!(
        state.next(Event::Opened(Ok(plain(NO_IDS))), false),
        Action::NameLinker
    );
    assert_eq!(state.next(Event::Named(Ok(None)), false), Action::Check);
    assert_eq!(state.next(Event::Checked(Ok(())), false), Action::EndThreads);
    assert_eq!(state.next(Event::ThreadsEnded(Ok(())), false), Action::Empty);
    assert_eq!(state.next(Event::Emptied(Ok(())), false), Action::Reset);
    assert_eq!(state.next(Event::Reset, false), Action::Populate);
    let startup = Startup { entry: ENTRY, stack: 0x7000, argument: 0 };
    assert_eq!(state.next(Event::Populated(Ok(startup)), false), Action::Close);
    assert_eq!(state.phase, Phase::Closing(startup));
    assert_eq!(state.next(Event::Closed, false), Action::Enter(startup));
    assert_eq!(state.phase, Phase::Over);

    // With the file gone, the caller is told so.
    let mut gone = sys_execve(&space, &table, &open, AT, AT + 512, AT + 1024, X86).unwrap();
    assert_eq!(
        gone.next(Event::Opened(Err(Errno::ENOENT)), false),
        Action::Refuse(Errno::ENOENT)
    );
}

#[test]
fn a_script_runs_its_interpreter_with_its_own_name() {
    let (table, open) = opened();
    let space = caller();
    let mut state =
        sys_execve(&space, &table, &open, AT, AT + 512, AT + 1024, X86).unwrap();
    let head = b"#!/bin/sh -e\n".to_vec();
    let raised = SetIds { uid: Some(0), gid: Some(0) };
    assert_eq!(
        state.next(Event::Opened(Ok((head.clone(), b"/exec-target".to_vec(), raised))), false),
        Action::OpenInterpreter
    );
    assert_eq!(state.interpreter, b"/bin/sh".to_vec());
    assert_eq!(
        state.args,
        vec![
            b"/bin/sh".to_vec(),
            b"-e".to_vec(),
            b"/exec-target".to_vec(),
            b"-v".to_vec()
        ]
    );
    assert_eq!(state.set_ids, NO_IDS);
    // A script's interpreter is no script.
    assert_eq!(
        state.next(Event::Opened(Ok((head, b"/bin/sh".to_vec(), NO_IDS))), false),
        Action::Refuse(Errno::ENOEXEC)
    );
}

#[test]
fn a_script_is_recorded_as_its_interpreter() {
    let (table, open) = opened();
    let space = caller();
    let mut state =
        sys_execve(&space, &table, &open, AT, AT + 512, AT + 1024, X86).unwrap();
    let script = (b"#!/bin/sh\n".to_vec(), b"/exec-target".to_vec(), NO_IDS);
    state.next(Event::Opened(Ok(script)), false);
    assert_eq!(state.exe, Vec::<u8>::new());
    let shell = (b"\x7FELF".to_vec(), b"/bin/busybox".to_vec(), NO_IDS);
    assert_eq!(state.next(Event::Opened(Ok(shell)), false), Action::NameLinker);
    assert_eq!(state.exe, b"/bin/busybox".to_vec());
    assert_eq!(state.exec_fn, b"/exec-target".to_vec());
}

#[test]
fn past_the_point_of_no_return_a_failure_ends_the_program() {
    let (table, open) = opened();
    let space = caller();
    let at_the_point = |raised: SetIds, no_new_privs: bool| {
        let mut state =
            sys_execve(&space, &table, &open, AT, AT + 512, AT + 1024, X86).unwrap();
        state.next(Event::Opened(Ok(plain(raised))), no_new_privs);
        assert_eq!(
            state.next(Event::Named(Ok(Some(b"/lib/ld.so".to_vec()))), no_new_privs),
            Action::OpenLinker
        );
        assert_eq!(state.linker, b"/lib/ld.so".to_vec());
        assert_eq!(state.next(Event::LinkerOpened(Ok(())), no_new_privs), Action::Check);
        state.next(Event::Checked(Ok(())), no_new_privs);
        state.next(Event::ThreadsEnded(Ok(())), no_new_privs);
        state
    };
    let mut lost = at_the_point(NO_IDS, false);
    assert_eq!(
        lost.next(Event::Emptied(Err(SpaceError::OutOfMemory)), false),
        Action::Lose
    );
    let mut late = at_the_point(NO_IDS, false);
    late.next(Event::Emptied(Ok(())), false);
    late.next(Event::Reset, false);
    assert_eq!(
        late.next(Event::Populated(Err(ExecError::Startup)), false),
        Action::Lose
    );
    let raised = SetIds { uid: Some(0), gid: None };
    let mut quiet = at_the_point(raised, true);
    quiet.next(Event::Emptied(Ok(())), true);
    assert_eq!(quiet.next(Event::Reset, true), Action::Populate);
    assert_eq!(quiet.set_ids, NO_IDS);
    let mut loud = at_the_point(raised, false);
    loud.next(Event::Emptied(Ok(())), false);
    assert_eq!(loud.next(Event::Reset, false), Action::Populate);
    assert_eq!(loud.set_ids, raised);
}

#[test]
fn an_error_before_that_point_is_an_answer() {
    let (table, open) = opened();
    let space = caller();
    let begun = || sys_execve(&space, &table, &open, AT, AT + 512, AT + 1024, X86).unwrap();
    let mut state = begun();
    state.next(Event::Opened(Ok(plain(NO_IDS))), false);
    assert_eq!(
        state.next(Event::Named(Err(LoadError::BadInterpreter)), false),
        Action::Refuse(Errno::ENOEXEC)
    );
    let mut state = begun();
    state.next(Event::Opened(Ok(plain(NO_IDS))), false);
    state.next(Event::Named(Ok(None)), false);
    assert_eq!(
        state.next(Event::Checked(Err(LoadError::WrongMachine(3))), false),
        Action::Refuse(Errno::ENOEXEC)
    );
    let mut state = begun();
    state.next(Event::Opened(Ok(plain(NO_IDS))), false);
    state.next(Event::Named(Ok(None)), false);
    state.next(Event::Checked(Ok(())), false);
    assert_eq!(
        state.next(Event::ThreadsEnded(Err(Errno::EINTR)), false),
        Action::Refuse(Errno::EINTR)
    );
}

#[test]
fn a_program_is_run_from_a_descriptor() {
    let (table, open) = opened();
    let space = caller();
    let run = |fd: i32, path: u64, flags: u32| {
        sys_execveat(&space, &table, &open, fd, path, AT + 512, AT + 1024, flags, X86)
    };
    let state = run(4, AT + 32, AT_EMPTY_PATH).unwrap();
    assert!(matches!(state.finding, Finding::Descriptor { file: 2, .. }));
    assert_eq!(state.exec_fn, b"/dev/fd/4".to_vec());
    assert_eq!(run(4, AT + 32, 0).err(), Some(Errno::ENOENT));
    assert_eq!(run(9, AT + 32, AT_EMPTY_PATH).err(), Some(Errno::EBADF));
    assert_eq!(run(AT_FDCWD, AT, 0x1).err(), Some(Errno::EINVAL));
    // A link is not followed where that is asked.
    let mut state = run(AT_FDCWD, AT, AT_SYMLINK_NOFOLLOW).unwrap();
    assert_eq!(state.first(), Action::Resolve);
    assert_eq!(
        state.next(Event::Resolved(Ok(FileType::Symlink)), false),
        Action::Refuse(Errno::ELOOP)
    );
    assert_eq!(
        state.finding,
        Finding::Path { start: Start::Default, nofollow: true }
    );
    assert_eq!(descriptor_path(3, b"sh"), b"/dev/fd/3/sh".to_vec());
    assert_eq!(descriptor_path(3, b""), b"/dev/fd/3".to_vec());
    assert!(matches!(
        open_descriptor(&table, &open, 4),
        Ok(Finding::Descriptor { file: 2, .. })
    ));
    assert_eq!(open_descriptor(&table, &open, 3).err(), Some(Errno::EACCES));
}

#[test]
fn a_first_program_is_started_or_says_why() {
    assert_eq!(start(Ok(7)), Ok(7));
    assert_eq!(
        start(Err(ExecError::Linker(Errno::ENOENT))),
        Err(Failure::Linker(Errno::ENOENT))
    );
    assert_eq!(
        start(Err(ExecError::Start)),
        Err(Failure::Exec(ExecError::Start))
    );
    assert!(look_again(0, false));
    assert!(!look_again(0, true));
    assert!(!look_again(200, false));
}

#[test]
fn check_the_segments_got_their_own_permissions() {
    let loading = load(&shaped(Shape::Good), None, MACHINE, USER_END).unwrap();
    let at = |page: u64| {
        let found = loading
            .program
            .protections
            .iter()
            .find(|p| p.start <= page && page < p.end)
            .unwrap();
        permissions(found.flags)
    };
    assert!(at(BASE).execute && at(BASE).read && !at(BASE).write);
    assert!(!at(DATA_VADDR).execute && at(DATA_VADDR).read && at(DATA_VADDR).write);
}

#[test]
fn a_file_whose_pages_are_an_object_is_mapped() {
    let mut file = shaped(Shape::Good);
    let segment = Segment {
        kind: PT_LOAD,
        flags: PF_R,
        offset: 0x3000,
        vaddr: 0x50_0000,
        filesz: 0x2800,
        memsz: 0x2800,
    };
    file.elf.segments.push(segment);
    file.len = 0x6000;
    let copied = load(&file, None, MACHINE, USER_END).unwrap();
    assert!(copied.program.runs.is_empty());
    file.object = Some(0x10_0000);
    let mapped = load(&file, None, MACHINE, USER_END).unwrap();
    assert!(mapped.program.runs.contains(&FileRun {
        start: 0x50_0000,
        end: 0x50_2000,
        offset: 0x10_3000,
        flags: PF_R
    }));
    // No anonymous page is under a mapped one.
    for (start, end) in &mapped.program.anonymous {
        assert!(*end <= 0x50_0000 || *start >= 0x50_2000);
    }
}

#[test]
fn a_program_from_no_file_is_named_by_its_first_argument() {
    let program = unfiled(Source::Bytes(vec![1]), None, &vec![b"/init".to_vec(), b"-x".to_vec()]);
    assert_eq!(program.exe, b"/init".to_vec());
    assert_eq!(program.exec_fn, b"/init".to_vec());
    assert_eq!(program.set_ids, NO_IDS);
    assert!(program.interpreter.is_none());
    let nameless = unfiled(Source::Bytes(vec![1]), None, &Vec::new());
    assert_eq!(nameless.exe, Vec::<u8>::new());
}

#[test]
fn a_run_ends_with_a_status_or_says_why_not() {
    assert_eq!(run_as(Ok(()), true, Some(3)), Ok(3));
    assert_eq!(run_as(Ok(()), false, Some(3)), Err(ExecError::Start));
    assert_eq!(run_as(Ok(()), true, None), Err(ExecError::Start));
    assert_eq!(
        run_as(Err(ExecError::Startup), true, Some(3)),
        Err(ExecError::Startup)
    );
    assert_eq!(linker_for(Ok(None)), Ok(None));
    assert_eq!(linker_for(Ok(Some(b"/ld".to_vec()))), Ok(Some(b"/ld".to_vec())));
    assert_eq!(linker_for(Err(LoadError::BadInterpreter)), Err(Errno::ENOEXEC));
    assert_eq!(linker_for(Err(LoadError::Read(Errno::EIO))), Err(Errno::EIO));
    assert_eq!(empty_user_half(USER_END), (0x1_0000, USER_END - 0x1_0000));
}
