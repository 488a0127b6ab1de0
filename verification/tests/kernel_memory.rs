//! Frames, page tables, heaps, programs, caches and files in memory.
use vanta::elf::make_test_elf;
use vanta::framebuffer::{Geometry, Writer};
use vanta::heap::{self, KMemCache, KernelHeap};
use vanta::input::{inject_mouse_motion, EventQueue};
use vanta::memory::{
    alloc_frame, alloc_frames, can_init, frame_ref_dec, frame_ref_inc, frame_refcount, free_frame,
    free_frames_count, reserve_frame, FrameRequest, MapEntry, PhysFrame,
};
use vanta::ordmap::OrdMap;
use vanta::page_cache::flushing::{
    flush_all, flush_answered, flush_inode, next_file, FlushRequest,
};
use vanta::page_cache::{self, DiskFile, Flusher, PageCache};
use vanta::paging::{
    create_address_space, destroy_address_space, phys_to_virt, translate_in, unmap,
    virt_to_phys, Machine, MapError, MAP_USER, MAP_WRITABLE,
};
use vanta::process::{
    interpreter_candidates, load_elf_with_args_and_env, read_user_bytes_in, write_user_bytes_in,
    Process, ProcessError, ProcessPersonality,
};
use vanta::scheduler::birth::{clone_task_current, start, CloneRequest};
use vanta::scheduler::{InterruptContext, Shared};
use vanta::store::Store;
use vanta::storage::{has_gpt_signature, RamDisk, StorageError};
use vanta::swap::{
    begin_eviction, check_passed, finish_page_out, finish_self_check, judge_candidate,
    next_candidate, note_evicted, prepare_self_check, read_page_from_disk, write_page_to_disk,
    EvictionStep, SwapManager, Verdict,
};
use vanta::syscall::devices::{display_blit_user, display_info_user, input_poll_user};
use vanta::syscall::launching::{launch_answered, spawn_answered};
use vanta::syscall::{initialize_cpu_local, Kernel, Launch, Step, SYSCALL_ERROR};
use vanta::tmpfs::TmpFs;
use vanta::vfs::VfsError;

const HHDM: u64 = 0xffff_8000_0000_0000;

fn machine() -> Machine {
    let mut memory = vanta::memory::init(&[MapEntry {
        base: 0,
        length: 4 * 1024 * 1024,
        usable: true,
    }]);
    let cr3 = match alloc_frame(&mut memory, 0, 0) {
        FrameRequest::Done(Some(frame)) => frame.start_address(),
        _ => panic!("a fresh memory has a frame"),
    };
    Machine {
        memory,
        ram: vec![0; 4 * 1024 * 1024],
        hhdm: Some(HHDM),
        cr3,
    }
}

fn frame(machine: &mut Machine) -> PhysFrame {
    match alloc_frame(&mut machine.memory, 0, 0) {
        FrameRequest::Done(Some(frame)) => frame,
        _ => panic!("no frame left"),
    }
}

#[test]
fn a_freed_frame_is_handed_out_again() {
    let mut machine = machine();
    let before = free_frames_count(&machine.memory);
    let first = frame(&mut machine);
    let second = frame(&mut machine);
    assert_ne!(first.start_address(), second.start_address());
    assert_eq!(free_frames_count(&machine.memory), before - 2);
    assert!(free_frame(&mut machine.memory, first));
    assert!(!free_frame(&mut machine.memory, first));
    assert_eq!(free_frames_count(&machine.memory), before - 1);
    assert!(free_frame(&mut machine.memory, second));
    assert_eq!(free_frames_count(&machine.memory), before);
}

#[test]
fn runs_of_frames_are_aligned() {
    let mut machine = machine();
    let run = match alloc_frames(&mut machine.memory, 3, 0, false) {
        FrameRequest::Done(Some(run)) => run,
        _ => panic!("eight frames in a row"),
    };
    assert_eq!(run.start_address() % (8 * 4096), 0);
}

#[test]
fn shared_frames_are_counted() {
    let mut machine = machine();
    let shared = frame(&mut machine);
    assert_eq!(frame_refcount(&machine.memory, shared), 1);
    frame_ref_inc(&mut machine.memory, shared);
    assert_eq!(frame_refcount(&machine.memory, shared), 2);
    assert_eq!(frame_ref_dec(&mut machine.memory, shared), 1);
}

#[test]
fn an_empty_memory_asks_for_an_eviction() {
    let mut machine = machine();
    let watermark = free_frames_count(&machine.memory);
    assert!(matches!(alloc_frame(&mut machine.memory, watermark, 0), FrameRequest::Evict));
    assert!(matches!(
        alloc_frame(&mut machine.memory, watermark, 1),
        FrameRequest::Done(Some(_))
    ));
}

#[test]
fn a_mapped_page_is_translated_until_it_is_unmapped() {
    let mut machine = machine();
    let space = create_address_space(&mut machine).unwrap();
    let page = frame(&mut machine);
    vanta::paging::map(&mut machine, space, 0x40_0000, page.start_address(), MAP_USER | MAP_WRITABLE).unwrap();
    let found = translate_in(&machine, space, 0x40_0123).unwrap();
    assert_eq!(found.physical_address, page.start_address() + 0x123);
    assert_eq!(found.page_size, 4096);
    assert_eq!(
        vanta::paging::map(&mut machine, space, 0x40_0000, page.start_address(), MAP_USER),
        Err(MapError::AlreadyMapped)
    );
    assert_eq!(
        vanta::paging::map(&mut machine, space, 0x40_0001, page.start_address(), MAP_USER),
        Err(MapError::UnalignedAddress)
    );
    assert_eq!(unmap(&mut machine, space, 0x40_0000), Ok(Some(page.start_address())));
    assert!(translate_in(&machine, space, 0x40_0123).is_none());
    assert_eq!(unmap(&mut machine, space, 0x40_0000), Ok(None));
}

#[test]
fn the_direct_map_goes_both_ways() {
    let machine = machine();
    assert_eq!(phys_to_virt(&machine, 0x1234), Some(HHDM + 0x1234));
    assert_eq!(virt_to_phys(&machine, HHDM + 0x1234), Some(0x1234));
}

#[test]
fn a_space_with_pages_is_not_destroyed() {
    let mut machine = machine();
    let before = free_frames_count(&machine.memory);
    let space = create_address_space(&mut machine).unwrap();
    let page = frame(&mut machine);
    vanta::paging::map(&mut machine, space, 0x40_0000, page.start_address(), MAP_USER).unwrap();
    assert_eq!(destroy_address_space(&mut machine, space), Err(MapError::MappingsRemain));
    unmap(&mut machine, space, 0x40_0000).unwrap();
    assert!(free_frame(&mut machine.memory, page));
    assert!(destroy_address_space(&mut machine, space).is_ok());
    assert_eq!(free_frames_count(&machine.memory), before);
}

#[test]
fn a_freed_object_is_used_again() {
    let mut machine = machine();
    let mut cache = KMemCache::new(64, 16);
    let first = cache.allocate(&mut machine).unwrap();
    let second = cache.allocate(&mut machine).unwrap();
    assert_eq!(second - first, 64);
    cache.free(&mut machine, first);
    assert_eq!(cache.allocate(&mut machine), Some(first));
    assert_eq!(cache.stats(), (3, 1, 1));
    let mut fresh = KMemCache::new(64, 16);
    assert!(heap::self_check(&mut fresh, &mut machine).is_ok());
}

#[test]
fn the_heap_is_started_once() {
    let mut machine = machine();
    let mut kernel_heap = KernelHeap::new();
    assert!(heap::init(&mut kernel_heap).is_ok());
    assert!(heap::init(&mut kernel_heap).is_err());
    let small = kernel_heap.allocate(&mut machine, 40, 8);
    assert_ne!(small, 0);
    kernel_heap.free(&mut machine, small, 40, 8);
    assert_eq!(kernel_heap.allocate(&mut machine, 40, 8), small);
    let large = kernel_heap.allocate(&mut machine, 10_000, 8);
    assert_eq!(large % 4096, 0);
}

fn loaded(machine: &mut Machine) -> Process {
    let bytes = make_test_elf();
    let args: &[&[u8]] = &[b"/bin/echo", b"hello", b"world"];
    let environment: &[&[u8]] = &[b"PATH=/bin", b"USER=vanta"];
    load_elf_with_args_and_env(machine, &bytes, args, environment, None).unwrap()
}

fn word(machine: &Machine, process: &Process, address: u64) -> u64 {
    let bytes = read_user_bytes_in(machine, process.address_space(), address, 8).unwrap();
    let mut value = [0_u8; 8];
    value.copy_from_slice(&bytes);
    u64::from_le_bytes(value)
}

#[test]
fn a_program_starts_with_its_arguments_on_the_stack() {
    let mut machine = machine();
    let process = loaded(&mut machine);
    let rsp = process.user_stack_top();
    assert_eq!(word(&machine, &process, rsp), 3);
    let space = process.address_space();
    let argv0 = word(&machine, &process, rsp + 8);
    assert_eq!(read_user_bytes_in(&machine, space, argv0, 10).unwrap(), b"/bin/echo\0");
    let argv2 = word(&machine, &process, rsp + 24);
    assert_eq!(read_user_bytes_in(&machine, space, argv2, 6).unwrap(), b"world\0");
    assert_eq!(word(&machine, &process, rsp + 32), 0);
    let envp1 = word(&machine, &process, rsp + 48);
    assert_eq!(read_user_bytes_in(&machine, space, envp1, 11).unwrap(), b"USER=vanta\0");
    assert_eq!(word(&machine, &process, rsp + 56), 0);
    assert_eq!(word(&machine, &process, rsp + 64), 3);
    assert_eq!(rsp % 16, 0);
}

#[test]
fn what_is_written_for_a_program_is_read_back() {
    let mut machine = machine();
    let mut process = loaded(&mut machine);
    let start = process.brk(&mut machine, 0);
    let end = process.brk(&mut machine, start + 8192);
    assert_eq!(end, start + 8192);
    let space = process.address_space();
    write_user_bytes_in(&mut machine, space, start + 4090, b"across pages").unwrap();
    assert_eq!(
        read_user_bytes_in(&machine, space, start + 4090, 12).unwrap(),
        b"across pages"
    );
    assert!(read_user_bytes_in(&machine, space, 0x10, 4).is_err());
}

fn small_screen() -> Writer {
    let geometry = Geometry {
        width: 8,
        height: 6,
        pitch: 40,
        bpp: 4,
        red_shift: 16,
        green_shift: 8,
        blue_shift: 0,
    };
    Writer::new(vec![0; 40 * 6], geometry)
}

#[test]
fn a_picture_is_cut_to_the_screen() {
    let mut machine = machine();
    let mut process = loaded(&mut machine);
    let start = process.brk(&mut machine, 0);
    process.brk(&mut machine, start + 8192);
    let space = process.address_space();
    machine.cr3 = space.pml4_phys;
    let mut writer = small_screen();
    let before = writer.memory.clone();
    // Four pixels across and three down, of which two and two are inside.
    let picture: Vec<u8> = (100..148).collect();
    let pointer = start + 4096 - 20;
    write_user_bytes_in(&mut machine, space, pointer, &picture).unwrap();
    assert_eq!(display_blit_user(&machine, &mut writer, 6, 4, 4, 3, pointer), 0);
    let mut expected = before;
    expected[4 * 40 + 24..4 * 40 + 32].copy_from_slice(&picture[..8]);
    expected[5 * 40 + 24..5 * 40 + 32].copy_from_slice(&picture[16..24]);
    assert_eq!(writer.memory, expected);

    assert_eq!(display_blit_user(&machine, &mut writer, 8, 0, 1, 1, pointer), SYSCALL_ERROR);
    assert_eq!(display_blit_user(&machine, &mut writer, 0, 6, 1, 1, pointer), SYSCALL_ERROR);
    assert_eq!(display_blit_user(&machine, &mut writer, 0, 0, 1, 1, 0x10), SYSCALL_ERROR);
    assert_eq!(writer.memory, expected);
    assert_eq!(
        display_blit_user(&machine, &mut writer, 0, 0, u64::MAX, 2, pointer),
        SYSCALL_ERROR
    );
    assert_eq!(&writer.memory[..32], &picture[..32]);
}

#[test]
fn a_program_learns_of_the_display_and_of_events() {
    let mut machine = machine();
    let mut process = loaded(&mut machine);
    let start = process.brk(&mut machine, 0);
    process.brk(&mut machine, start + 4096);
    let space = process.address_space();
    machine.cr3 = space.pml4_phys;
    assert_eq!(display_info_user(&mut machine, &small_screen(), start), 0);
    for (i, expected) in [8_u64, 6, 40, 4].into_iter().enumerate() {
        assert_eq!(word(&machine, &process, start + 8 * i as u64), expected);
    }
    assert_eq!(display_info_user(&mut machine, &small_screen(), 0x10), SYSCALL_ERROR);

    let mut queue = EventQueue::new();
    assert_eq!(input_poll_user(&mut machine, &mut queue, start), 0);
    inject_mouse_motion(&mut queue, -3, 7, 0);
    inject_mouse_motion(&mut queue, 1, 1, 0);
    assert_eq!(input_poll_user(&mut machine, &mut queue, start), 1);
    let record = read_user_bytes_in(&machine, space, start, 20).unwrap();
    assert_eq!(&record[12..16], &(-3_i32).to_le_bytes()[..]);
    assert_eq!(&record[16..20], &7_i32.to_le_bytes()[..]);
    assert_eq!(input_poll_user(&mut machine, &mut queue, 0x10), SYSCALL_ERROR);
    assert_eq!(input_poll_user(&mut machine, &mut queue, start), 0);
}

#[test]
fn a_destroyed_program_gives_its_frames_back() {
    let mut machine = machine();
    let before = free_frames_count(&machine.memory);
    let mut process = loaded(&mut machine);
    assert!(free_frames_count(&machine.memory) < before);
    assert!(process.destroy(&mut machine).is_ok());
    assert_eq!(free_frames_count(&machine.memory), before);
}

#[test]
fn what_is_no_program_is_not_loaded() {
    let mut machine = machine();
    let result = vanta::process::load_elf(&mut machine, b"no program", None);
    assert!(matches!(result.err(), Some(ProcessError::Elf(_))));
    assert!(!interpreter_candidates(b"/lib/ld-musl-x86_64.so.1").is_empty());
}

fn empty_disk() -> DiskFile {
    DiskFile {
        size: 0,
        pages: OrdMap::new(),
    }
}

#[test]
fn a_cached_write_is_read_back() {
    let mut machine = machine();
    let mut cache = PageCache::new();
    let disk = empty_disk();
    let data: Vec<u8> = (0..5_000_u32).map(|i| (i % 251) as u8).collect();
    assert_eq!(
        page_cache::write(&mut machine, &mut cache, 1, &disk, 7, 100, &data),
        Ok(5_000)
    );
    assert_eq!(
        page_cache::read(&mut machine, &mut cache, 1, &disk, 7, 100, 5_000).unwrap(),
        data
    );
    assert_eq!(cache.get_file_size(1, 7), Some(5_100));
    assert_eq!(page_cache::dirty_count(&cache), 2);
    let pages = page_cache::dirty_pages(&cache, 1, 7);
    let batch = page_cache::next_batch(&machine, &pages, 0).unwrap();
    assert_eq!((batch.start_page, batch.count), (0, 2));
    assert_eq!(&batch.data[100..5_100], &data[..]);
    page_cache::batch_written(&mut cache, 1, 7, 0, 2);
    assert_eq!(page_cache::dirty_count(&cache), 0);
    assert_eq!(page_cache::evict_clean_pages(&mut machine, &mut cache, 8), 2);
    assert_eq!(page_cache::cached_pages_count(&cache), 0);
}

#[test]
fn a_truncated_file_reads_as_zeros_where_it_grew() {
    let mut machine = machine();
    let mut cache = PageCache::new();
    let disk = empty_disk();
    page_cache::write(&mut machine, &mut cache, 1, &disk, 7, 0, &[9; 100]).unwrap();
    page_cache::truncate(&mut machine, &mut cache, 1, 7, 10);
    cache.set_file_size(1, 7, 100);
    let bytes = page_cache::read(&mut machine, &mut cache, 1, &disk, 7, 0, 100).unwrap();
    assert_eq!(bytes[..10], [9; 10]);
    assert!(bytes[10..].iter().all(|&byte| byte == 0));
}

#[test]
fn the_flusher_runs_after_its_ticks() {
    let mut flusher = Flusher::new();
    while !page_cache::is_flusher_pending(&flusher) {
        page_cache::flusher_tick(&mut flusher);
    }
    assert!(page_cache::run_flusher(&mut flusher));
    assert!(!page_cache::run_flusher(&mut flusher));
    assert_eq!(page_cache::flusher_run_count(&flusher), 1);
}

#[test]
fn files_in_memory_keep_what_is_written() {
    let mut machine = machine();
    let mut fs = TmpFs::new();
    let root = fs.root_inode();
    let directory = fs.mkdir(root, b"etc", 0o755).unwrap();
    let file = fs.create(directory, b"motd", 0o644).unwrap();
    assert_eq!(fs.create(directory, b"motd", 0o644), Err(VfsError::AlreadyExists));
    let data: Vec<u8> = (0..9_000_u32).map(|i| (i % 253) as u8).collect();
    assert_eq!(fs.write(&mut machine, file, 10, &data), Ok(9_000));
    let mut back = vec![1_u8; 9_010];
    assert_eq!(fs.read(&machine, file, 0, &mut back), Ok(9_010));
    assert!(back[..10].iter().all(|&byte| byte == 0));
    assert_eq!(&back[10..], &data[..]);
    assert_eq!(fs.lookup(directory, b"motd"), Ok(file));
    assert_eq!(fs.lookup(directory, b"none"), Err(VfsError::NotFound));
    assert_eq!(fs.rmdir(&mut machine, root, b"etc"), Err(VfsError::NotEmpty));
    assert_eq!(fs.unlink(&mut machine, root, b"etc"), Err(VfsError::IsDirectory));
    assert_eq!(fs.rename(directory, b"motd", root, b"moved"), Ok(()));
    assert_eq!(fs.lookup(root, b"moved"), Ok(file));
    assert_eq!(fs.rmdir(&mut machine, root, b"etc"), Ok(()));
    let link = fs.symlink(root, b"link", b"/moved").unwrap();
    assert_eq!(fs.readlink(link).unwrap(), b"/moved");
    let mut names = fs.read_dir(root).unwrap();
    names.sort();
    assert!(names.contains(&b"moved".to_vec()) && names.contains(&b"link".to_vec()));
}

#[test]
fn removed_files_give_their_frames_back() {
    let mut machine = machine();
    let before = free_frames_count(&machine.memory);
    let mut fs = TmpFs::new();
    let root = fs.root_inode();
    let file = fs.create(root, b"big", 0o644).unwrap();
    fs.write(&mut machine, file, 0, &[1; 20_000]).unwrap();
    assert_eq!(free_frames_count(&machine.memory), before - 5);
    fs.truncate(&mut machine, file, 4_096).unwrap();
    assert_eq!(free_frames_count(&machine.memory), before - 1);
    fs.unlink(&mut machine, root, b"big").unwrap();
    assert_eq!(free_frames_count(&machine.memory), before);
}

#[test]
fn slots_are_taken_and_given_back() {
    let mut manager = SwapManager::new();
    let free = manager.free_slots();
    let slot = manager.alloc_slot().unwrap();
    assert_eq!(manager.used_slots(), 1);
    assert_eq!(manager.free_slots(), free - 1);
    manager.free_slot(slot);
    assert_eq!(manager.used_slots(), 0);
    assert_eq!(manager.alloc_slot(), Some(slot));
}

#[test]
fn the_clock_passes_over_a_page_in_use() {
    let mut machine = machine();
    let space = create_address_space(&mut machine).unwrap();
    let mut manager = SwapManager::new();
    manager.track_page(space, 0x1000);
    let mut eviction = begin_eviction(&mut manager).unwrap();
    let place = match next_candidate(&mut manager, &mut eviction) {
        EvictionStep::CheckAccessed { place, page } => {
            assert_eq!(page.vaddr, 0x1000);
            place
        }
        EvictionStep::Nothing => panic!("one page is followed"),
    };
    assert!(matches!(judge_candidate(&mut manager, place, Some(true)), Verdict::GoOn));
    assert!(matches!(judge_candidate(&mut manager, place, Some(false)), Verdict::Evict));
    assert_eq!(finish_page_out(&mut manager, eviction.slot, true), Ok(eviction.slot));
}

#[test]
fn a_page_comes_back_as_it_went_out() {
    let mut machine = machine();
    let out = frame(&mut machine).start_address();
    let back = frame(&mut machine).start_address();
    vanta::swap::fill_pattern(&mut machine, out);
    let sectors = write_page_to_disk(&machine, out).unwrap();
    assert_eq!(sectors.len(), 8);
    assert!(!vanta::swap::holds_pattern(&machine, back));
    read_page_from_disk(&mut machine, back, &sectors).unwrap();
    assert!(vanta::swap::holds_pattern(&machine, back));
}

#[test]
fn a_page_that_never_left_fails_the_self_check() {
    let mut machine = machine();
    let mut manager = SwapManager::new();
    let free = free_frames_count(&machine.memory);
    let page = prepare_self_check(&mut machine, &mut manager).unwrap();
    let noted = note_evicted(&machine, page);
    assert_eq!(noted, (false, false));
    let report = finish_self_check(&mut machine, page, noted, false);
    assert!(report.verified);
    assert!(!check_passed(report));
    assert_eq!(free_frames_count(&machine.memory), free);
}

#[test]
fn a_memory_map_is_judged() {
    let half = MapEntry { base: 0, length: 2 * 1024 * 1024, usable: true };
    let rest = MapEntry { base: 2 * 1024 * 1024, length: 2 * 1024 * 1024, usable: true };
    assert!(can_init(&[half, rest]));
    assert!(!can_init(&[half, half]));
    assert!(!can_init(&[]));
}

#[test]
fn an_empty_disk_has_no_partition_table() {
    let disk = RamDisk::new(64).unwrap();
    assert!(!has_gpt_signature(&disk));
    assert!(matches!(
        vanta::storage::discover_vanta_root(&disk),
        Err(StorageError::GptMissingRoot) | Err(StorageError::GptInvalid)
    ));
}

#[test]
fn a_clone_does_not_mind_where_its_numbers_would_go() {
    let mut machine = machine();
    let process = loaded(&mut machine);
    let mut shared = Shared::new();
    let space = process.address_space();
    let (scheduler, target) = start(space, &mut shared, vec![process]).unwrap();
    let mut scheduler = Some(scheduler);
    let request = CloneRequest {
        // Shares its memory, and both numbers are to be written.
        flags: 0x100 | 0x0010_0000 | 0x0100_0000,
        child_stack: 0,
        parent_tidptr: u64::MAX,
        child_tidptr: u64::MAX - 2,
        tls: 0,
    };
    let registers = InterruptContext::initial(0x40_0000, 0x7fff_0000);
    let cloned = clone_task_current(
        &mut machine,
        &mut scheduler,
        &mut shared,
        request,
        target.context,
        registers,
        Err(()),
    );
    assert!(cloned.is_ok());
    assert_eq!(
        write_user_bytes_in(&mut machine, space, u64::MAX - 1, b"four"),
        Err(ProcessError::InvalidUserAddress)
    );
    assert!(read_user_bytes_in(&machine, space, u64::MAX, 2).is_err());
}

#[test]
fn a_block_given_back_joins_its_halves_again() {
    let mut machine = machine();
    let big = match alloc_frames(&mut machine.memory, 9, 0, false) {
        FrameRequest::Done(Some(run)) => run,
        _ => panic!("a large run"),
    };
    assert!(free_frame(&mut machine.memory, big));
    let one = frame(&mut machine);
    assert!(free_frame(&mut machine.memory, one));
    assert!(matches!(
        alloc_frames(&mut machine.memory, 9, 0, false),
        FrameRequest::Done(Some(_))
    ));
}

#[test]
fn a_frame_set_aside_is_not_handed_out() {
    let mut machine = machine();
    let free = free_frames_count(&machine.memory);
    let aside = PhysFrame(0x20_0000);
    assert!(reserve_frame(&mut machine.memory, aside));
    assert_eq!(free_frames_count(&machine.memory), free - 1);
    assert!(reserve_frame(&mut machine.memory, aside));
    assert_eq!(free_frames_count(&machine.memory), free - 1);
    assert!(!reserve_frame(&mut machine.memory, PhysFrame(0x20_0001)));
    for _ in 0..free - 1 {
        assert_ne!(frame(&mut machine), aside);
    }
    assert!(matches!(
        alloc_frame(&mut machine.memory, 0, 0),
        FrameRequest::Done(None)
    ));
}

fn running_kernel() -> Kernel {
    let mut machine = machine();
    let process = loaded(&mut machine);
    let mut shared = Shared::new();
    let space = process.address_space();
    let (scheduler, _) = start(space, &mut shared, vec![process]).unwrap();
    Kernel {
        machine,
        scheduler: Some(scheduler),
        shared,
        cpu: initialize_cpu_local(0, 0x10_0000).unwrap(),
    }
}

fn launch(path: &[u8], stdin: u64) -> Launch {
    let mut arguments = Store::new();
    arguments.push(b"first".to_vec());
    Launch {
        path: path.to_vec(),
        with_args: 1,
        arguments,
        environment: Store::new(),
        stdin,
        stdout: u64::MAX,
        stderr: u64::MAX,
    }
}

fn newest(kernel: &Kernel) -> &Process {
    let scheduler = kernel.scheduler.as_ref().unwrap();
    let place = scheduler.tasks.last().unwrap().process.unwrap();
    scheduler.processes.get(place)
}

#[test]
fn a_program_is_started_as_its_path_says() {
    let image = make_test_elf();
    let mut kernel = running_kernel();
    let native = launch(b"/bin/echo", u64::MAX);
    let started = launch_answered(&mut kernel, &native, Some(&image), None, false);
    assert!(matches!(started, Step::Done(pid) if pid != SYSCALL_ERROR));
    let child = newest(&kernel);
    assert_eq!(child.personality(), ProcessPersonality::NativeVanta);
    assert_eq!(word(&kernel.machine, child, child.user_stack_top()), 1);

    let linux = launch(b"/compat/linux/bin/echo", u64::MAX);
    assert!(matches!(
        launch_answered(&mut kernel, &linux, Some(&image), None, true),
        Step::Done(_)
    ));
    let child = newest(&kernel);
    assert_eq!(child.personality(), ProcessPersonality::LinuxX86_64Static);
    assert_eq!(word(&kernel.machine, child, child.user_stack_top()), 0);
}

#[test]
fn a_launch_that_fails_is_tried_again_as_a_plain_one() {
    let image = make_test_elf();
    let mut kernel = running_kernel();
    let linux = launch(b"/compat/linux/bin/echo", u64::MAX);
    let native = launch(b"/bin/echo", u64::MAX);
    let closed = launch(b"/bin/echo", 77);
    let free = free_frames_count(&kernel.machine.memory);
    let again = |step: Step, wanted: &[u8]| matches!(step, Step::Spawn { path } if path == wanted);
    let refused = launch_answered(&mut kernel, &linux, Some(&image), None, false);
    assert!(again(refused, b"/compat/linux/bin/echo"));
    assert!(again(launch_answered(&mut kernel, &native, None, None, false), b"/bin/echo"));
    let broken = launch_answered(&mut kernel, &native, Some(b"no program"), None, false);
    assert!(again(broken, b"/bin/echo"));
    let unredirected = launch_answered(&mut kernel, &closed, Some(&image), None, false);
    assert!(again(unredirected, b"/bin/echo"));
    assert_eq!(free_frames_count(&kernel.machine.memory), free);

    assert_eq!(spawn_answered(&mut kernel, None, None), SYSCALL_ERROR);
    let pid = spawn_answered(&mut kernel, Some(&image), None);
    assert_ne!(pid, SYSCALL_ERROR);
    let child = newest(&kernel);
    assert_eq!(word(&kernel.machine, child, child.user_stack_top()), 0);
}

#[test]
fn a_flush_sets_the_size_then_writes_runs_of_pages_then_syncs() {
    let mut machine = machine();
    let mut cache = PageCache::new();
    let disk = empty_disk();
    let page = vec![9_u8; 4096];
    for index in [0_u64, 1, 5] {
        page_cache::write(&mut machine, &mut cache, 1, &disk, 7, index * 4096, &page).unwrap();
    }
    let (mut flush, request) = flush_inode(&machine, &cache, 1, 7);
    assert!(matches!(request, FlushRequest::Truncate { size: 24_576 }));
    let request = flush_answered(&machine, &mut cache, &mut flush, Err(VfsError::RedoxFs));
    assert!(matches!(request, FlushRequest::Write { offset: 0, data } if data.len() == 8192));
    assert_eq!(page_cache::dirty_count(&cache), 3);
    let request = flush_answered(&machine, &mut cache, &mut flush, Ok(()));
    assert!(matches!(request, FlushRequest::Write { offset: 20_480, data } if data == page));
    assert_eq!(page_cache::dirty_count(&cache), 1);
    let request = flush_answered(&machine, &mut cache, &mut flush, Ok(()));
    assert!(matches!(request, FlushRequest::Sync));
    assert_eq!(page_cache::dirty_count(&cache), 0);
    let request = flush_answered(&machine, &mut cache, &mut flush, Ok(()));
    assert!(matches!(request, FlushRequest::End(Ok(()))));

    page_cache::mark_dirty(&mut cache, 1, 7, 5);
    let (mut flush, _) = flush_inode(&machine, &cache, 1, 7);
    let _ = flush_answered(&machine, &mut cache, &mut flush, Ok(()));
    let request = flush_answered(&machine, &mut cache, &mut flush, Err(VfsError::NoSpace));
    assert!(matches!(request, FlushRequest::End(Err(VfsError::NoSpace))));
    assert_eq!(page_cache::dirty_count(&cache), 1);
    let mut all = flush_all(&cache);
    assert_eq!(next_file(&mut all), Some((1, 7)));
    assert_eq!(next_file(&mut all), None);
}

#[test]
fn the_page_of_the_earliest_use_goes_first() {
    let mut machine = machine();
    let mut cache = PageCache::new();
    let disk = empty_disk();
    for index in [0_u64, 1, 2] {
        page_cache::write(&mut machine, &mut cache, 1, &disk, 7, index * 4096, b"page").unwrap();
    }
    page_cache::batch_written(&mut cache, 1, 7, 0, 2);
    // Each use moves a page on by one place only.
    page_cache::read(&mut machine, &mut cache, 1, &disk, 7, 0, 4).unwrap();
    page_cache::read(&mut machine, &mut cache, 1, &disk, 7, 0, 4).unwrap();
    assert_eq!(page_cache::evict_clean_pages(&mut machine, &mut cache, 1), 1);
    let held: Vec<u64> = cache.entries.keys.iter().map(|key| key.page_index).collect();
    assert_eq!(held, [0, 2]);
    assert_eq!(page_cache::evict_clean_pages(&mut machine, &mut cache, 5), 1);
    assert_eq!(page_cache::cached_pages_count(&cache), 1);
}

#[test]
fn the_frame_at_address_zero_is_never_handed_out() {
    let mut machine = machine();
    for _ in 0..free_frames_count(&machine.memory) {
        assert_ne!(frame(&mut machine), PhysFrame(0));
    }
}
