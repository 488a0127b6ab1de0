//! System calls of Linux programs on files and memory.
use vstd::prelude::*;

use crate::linux;
use crate::memory::PAGE_SIZE;
use crate::paging::{MAP_NO_EXECUTE, MAP_USER, MAP_WRITABLE, MachineView};
use crate::process;
use crate::scheduler::{
    current_parent_pid, current_pid, DescriptorResource, FileDescriptor, SchedulerView,
};
use crate::scheduler::channels::{self, mmap_current};
use crate::scheduler::descriptors;
use crate::scheduler::io::{self, read_current, Reading, ReadingView};
use crate::scheduler::transfer::{self, read_dir_linux_current, stat_linux_current};
use crate::store::Store;
use crate::syscall::{self, Kernel, KernelView, SYSCALL_ERROR, Step, StepView, USER_ADDRESS_LIMIT};
use crate::syscall::files::{self, open_entries, open_with_contents};
use crate::syscall::memory::{copy_cstring, copy_to_user};
use crate::syscall::native::{self, answer};
use crate::text::{
    self, ends_with_text, is_text, is_utf8, push_decimal, push_str, starts_with_text, text_bytes,
};

verus! {

// ---------------------------------------------------------------------------
// Memory
// ---------------------------------------------------------------------------
/// The flags of pages for a protection that a program asks for.
pub open spec fn page_flags(prot: u64) -> u64 {
    (MAP_USER + (if prot / 2 % 2 == 1 {
        MAP_WRITABLE as int
    } else {
        0
    }) + (if prot / 4 % 2 == 0 {
        MAP_NO_EXECUTE as int
    } else {
        0
    })) as u64
}

fn flags_for(prot: u64) -> (r: u64)
    ensures
        r == page_flags(prot),
{
    let mut flags: u64 = MAP_USER;
    if prot / 2 % 2 == 1 {
        flags = flags + MAP_WRITABLE;
    }
    if prot / 4 % 2 == 0 {
        flags = flags + MAP_NO_EXECUTE;
    }
    flags
}

/// A change of the protection of whole pages of the program.
pub open spec fn user_protect(addr: u64, length: u64, prot: u64) -> StepView {
    let size = (length + 4095) / 4096 * 4096;
    if addr % 4096 != 0 {
        syscall::refused()
    } else if length == 0 {
        StepView::Done(0)
    } else if length + 4095 > u64::MAX || addr + size > u64::MAX || addr + size
        >= USER_ADDRESS_LIMIT {
        syscall::refused()
    } else {
        StepView::Protect {
            address: addr,
            pages: (size / 4096) as u64,
            flags: page_flags(prot),
            value: 0,
            strict: true,
        }
    }
}

pub fn linux_mprotect_user(addr: u64, length: u64, prot: u64) -> (r: Step)
    ensures
        r@ == user_protect(addr, length, prot),
{
    if addr % PAGE_SIZE != 0 {
        return Step::Done(SYSCALL_ERROR);
    }
    if length == 0 {
        return Step::Done(0);
    }
    if length > u64::MAX - 4095 {
        return Step::Done(SYSCALL_ERROR);
    }
    let size: u64 = (length + 4095) / 4096 * 4096;
    if size > u64::MAX - addr || addr + size >= USER_ADDRESS_LIMIT {
        return Step::Done(SYSCALL_ERROR);
    }
    Step::Protect {
        address: addr,
        pages: size / 4096,
        flags: flags_for(prot),
        value: 0,
        strict: true,
    }
}

/// What the program gets when the protection was changed, or was not.
pub fn protect_answered(ok: bool, value: u64, strict: bool) -> (r: u64)
    ensures
        r == if ok || !strict {
            value
        } else {
            SYSCALL_ERROR
        },
{
    if ok || !strict {
        value
    } else {
        SYSCALL_ERROR
    }
}

/// A file's bytes copied into memory that was mapped for them, 256 at a time,
/// up to the end of either. Only what can be read at once is copied.
pub open spec fn file_mapped(k: KernelView, fd: u64, base: u64, length: u64, done: int) -> KernelView
    decreases
            (if done < length {
                length - done
            } else {
                0
            }),
{
    if done >= length || done < 0 || base + done > u64::MAX {
        k
    } else {
        let chunk = if length - done <= 256 {
            length - done
        } else {
            256
        };
        match io::descriptor_read(k.scheduler, fd, chunk) {
            Some((s, ReadingView::Bytes(bytes))) => {
                let k1 = k.with_scheduler(s);
                let (m, ok) = crate::syscall::memory::given(k.machine, (base + done) as u64, bytes, 0);
                let k2 = KernelView { machine: m, ..k1 };
                if bytes.len() == 0 {
                    k1
                } else if !ok || bytes.len() < chunk {
                    k2
                } else {
                    file_mapped(k2, fd, base, length, done + bytes.len())
                }
            },
            Some((s, _)) => k.with_scheduler(s),
            None => k,
        }
    }
}

fn map_file(k: &mut Kernel, fd: u64, base: u64, length: u64)
    requires
        old(k).wf(),
    ensures
        final(k).wf(),
        final(k)@ == file_mapped(old(k)@, fd, base, length, 0),
{
    let ghost goal = file_mapped(k@, fd, base, length, 0);
    let mut done: u128 = 0;
    while done < length as u128
        invariant
            k.wf(),
            goal == file_mapped(k@, fd, base, length, done as int),
            goal == file_mapped(old(k)@, fd, base, length, 0),
            done <= u64::MAX + u64::MAX,
        decreases
                (if done < length {
                    length - done
                } else {
                    0
                }),
    {
        if base as u128 + done > u64::MAX as u128 {
            return;
        }
        let chunk: usize = if length as u128 - done <= 256 {
            (length as u128 - done) as usize
        } else {
            256
        };
        match read_current(&mut k.scheduler, fd, chunk) {
            Ok(Reading::Bytes(bytes)) => {
                assert(bytes@.len() == bytes.len());
                if bytes.len() == 0 {
                    return;
                }
                let ok: bool = copy_to_user(
                    &mut k.machine,
                    (base as u128 + done) as u64,
                    bytes.as_slice(),
                );
                if !ok || bytes.len() < chunk {
                    return;
                }
                done = done + bytes.len() as u128;
            },
            _ => {
                return;
            },
        }
    }
}

pub open spec fn is_anonymous(flags: u64, fd: u64) -> bool {
    flags / 0x20 % 2 == 1 || fd == u64::MAX
}

/// Where the memory of the running program is mapped.
pub open spec fn memory_mapped(k: KernelView, addr: u64, length: u64, prot: u64, flags: u64) -> (
    KernelView,
    Result<u64, ()>,
) {
    match k.scheduler {
        Some(s) => match s.task().process {
            Some(p) => {
                let (machine, v, result) = process::mmapped(
                    k.machine,
                    s.processes[p as int],
                    addr,
                    length,
                    prot,
                    flags,
                );
                (KernelView { machine, scheduler: Some(channels::with_process(s, v)), ..k }, result)
            },
            None => (k, Err(())),
        },
        None => (k, Err(())),
    }
}

/// How many pages a length takes; one that cannot be rounded up is cut.
pub open spec fn page_count(length: u64) -> u64 {
    if length + 4095 > u64::MAX {
        (length / 4096) as u64
    } else {
        ((length + 4095) / 4096) as u64
    }
}

/// Memory mapped for a program, with the bytes of a file where it names one.
pub open spec fn user_map(
    k: KernelView,
    addr: u64,
    length: u64,
    prot: u64,
    flags: u64,
    fd: u64,
    offset: u64,
) -> (KernelView, StepView) {
    let anonymous = is_anonymous(flags, fd);
    if length == 0 {
        (k, syscall::refused())
    } else {
        let (k1, mapped) = memory_mapped(
            k,
            addr,
            length,
            if anonymous {
                prot
            } else {
                prot | 2
            },
            flags,
        );
        match mapped {
            Err(_) => (k1, syscall::refused()),
            Ok(base) => if anonymous {
                (k1, StepView::Done(base))
            } else {
                let k2 = native::user_seek(k1, fd, offset as i64, 0).0;
                let k3 = file_mapped(k2, fd, base, length, 0);
                if prot / 2 % 2 == 0 {
                    (
                        k3,
                        StepView::Protect {
                            address: base,
                            pages: page_count(length),
                            flags: page_flags(prot),
                            value: base,
                            strict: false,
                        },
                    )
                } else {
                    (k3, StepView::Done(base))
                }
            },
        }
    }
}

pub fn linux_mmap_user(
    k: &mut Kernel,
    addr: u64,
    length: u64,
    prot: u64,
    flags: u64,
    fd: u64,
    offset: u64,
) -> (r: Step)
    requires
        old(k).wf(),
    ensures
        final(k).wf(),
        (final(k)@, r@) == user_map(old(k)@, addr, length, prot, flags, fd, offset),
{
    if length == 0 {
        return Step::Done(SYSCALL_ERROR);
    }
    let anonymous: bool = flags / 0x20 % 2 == 1 || fd == u64::MAX;
    let first_prot: u64 = if anonymous {
        prot
    } else {
        prot | 2
    };
    let base: u64 = match mmap_current(
        &mut k.machine,
        &mut k.scheduler,
        addr,
        length,
        first_prot,
        flags,
    ) {
        Err(()) => {
            return Step::Done(SYSCALL_ERROR);
        },
        Ok(base) => base,
    };
    if anonymous {
        return Step::Done(base);
    }
    let _ = crate::syscall::native::seek_user(k, fd, offset as i64, 0);
    map_file(k, fd, base, length);
    if prot / 2 % 2 == 0 {
        let pages: u64 = if length > u64::MAX - 4095 {
            length / 4096
        } else {
            (length + 4095) / 4096
        };
        return Step::Protect {
            address: base,
            pages,
            flags: flags_for(prot),
            value: base,
            strict: false,
        };
    }
    Step::Done(base)
}

// ---------------------------------------------------------------------------
// What the kernel tells of itself
// ---------------------------------------------------------------------------
/// What a file holds that tells of the system or of a program.
pub open spec fn system_text(path: Seq<u8>, pid: u64, ppid: u64) -> Option<Seq<u8>> {
    if path == text::utf8("/proc/cpuinfo"@) {
        Some(
            text::utf8(
                "processor\t: 0\nvendor_id\t: GenuineIntel\nmodel name\t: Vanta Virtual CPU\ncpu MHz\t\t: 3000.000\n\n"@,
            ),
        )
    } else if path == text::utf8("/proc/meminfo"@) {
        Some(
            text::utf8(
                "MemTotal:       2097152 kB\nMemFree:        1843200 kB\nMemAvailable:   1843200 kB\nBuffers:           1024 kB\nCached:           16384 kB\n"@,
            ),
        )
    } else if path == text::utf8("/proc/version"@) {
        Some(text::utf8("Linux version 6.1.0-vanta (vanta@build) (gcc 12.2.0) #1 SMP PREEMPT\n"@))
    } else if path == text::utf8("/proc/uptime"@) {
        Some(text::utf8("10.00 10.00\n"@))
    } else if text::ends_with(path, text::utf8("/status"@)) {
        Some(
            text::utf8("Name:\tvanta-app\nState:\tR (running)\nTgid:\t"@) + text::decimal_text(pid as nat)
                + text::utf8("\nPid:\t"@) + text::decimal_text(pid as nat) + text::utf8("\nPPid:\t"@)
                + text::decimal_text(ppid as nat) + text::utf8("\nThreads:\t1\n"@),
        )
    } else if text::ends_with(path, text::utf8("/cmdline"@)) {
        Some(text::utf8("vanta-app"@).push(0))
    } else if text::ends_with(path, text::utf8("/maps"@)) {
        Some(
            text::utf8(
                "00400000-00450000 r-xp 00000000 00:00 0 [text]\n700000000000-700000020000 rw-p 00000000 00:00 0 [heap]\n7fffffff0000-800000000000 rw-p 00000000 00:00 0 [stack]\n"@,
            ),
        )
    } else if text::starts_with(path, text::utf8("/sys/class/net/"@)) {
        Some(text::utf8("up\n"@))
    } else {
        None
    }
}

pub open spec fn pid_of(s: Option<SchedulerView>) -> u64 {
    match s {
        Some(s) => s.task().tgid,
        None => 0,
    }
}

pub open spec fn parent_of(s: Option<SchedulerView>) -> u64 {
    match s {
        Some(s) => match s.task().parent_pid {
            Some(pid) => pid,
            None => 0,
        },
        None => 0,
    }
}

pub fn generate_procfs_content(k: &Kernel, path: &[u8]) -> (r: Option<Vec<u8>>)
    requires
        k.wf(),
    ensures
        files::contents_seen(r) == system_text(path@, pid_of(k@.scheduler), parent_of(k@.scheduler)),
{
    if is_text(path, "/proc/cpuinfo") {
        Some(
            text_bytes(
                "processor\t: 0\nvendor_id\t: GenuineIntel\nmodel name\t: Vanta Virtual CPU\ncpu MHz\t\t: 3000.000\n\n",
            ),
        )
    } else if is_text(path, "/proc/meminfo") {
        Some(
            text_bytes(
                "MemTotal:       2097152 kB\nMemFree:        1843200 kB\nMemAvailable:   1843200 kB\nBuffers:           1024 kB\nCached:           16384 kB\n",
            ),
        )
    } else if is_text(path, "/proc/version") {
        Some(
            text_bytes("Linux version 6.1.0-vanta (vanta@build) (gcc 12.2.0) #1 SMP PREEMPT\n"),
        )
    } else if is_text(path, "/proc/uptime") {
        Some(text_bytes("10.00 10.00\n"))
    } else if ends_with_text(path, "/status") {
        let pid: u64 = current_pid(&k.scheduler);
        let ppid: u64 = current_parent_pid(&k.scheduler);
        let mut text = text_bytes("Name:\tvanta-app\nState:\tR (running)\nTgid:\t");
        push_decimal(&mut text, pid);
        push_str(&mut text, "\nPid:\t");
        push_decimal(&mut text, pid);
        push_str(&mut text, "\nPPid:\t");
        push_decimal(&mut text, ppid);
        push_str(&mut text, "\nThreads:\t1\n");
        Some(text)
    } else if ends_with_text(path, "/cmdline") {
        let mut text = text_bytes("vanta-app");
        text.push(0);
        Some(text)
    } else if ends_with_text(path, "/maps") {
        Some(
            text_bytes(
                "00400000-00450000 r-xp 00000000 00:00 0 [text]\n700000000000-700000020000 rw-p 00000000 00:00 0 [heap]\n7fffffff0000-800000000000 rw-p 00000000 00:00 0 [stack]\n",
            ),
        )
    } else if starts_with_text(path, "/sys/class/net/") {
        Some(text_bytes("up\n"))
    } else {
        None
    }
}

/// Whether a path is one of those that tell of the system.
pub open spec fn tells_of_system(path: Seq<u8>) -> bool {
    text::starts_with(path, text::utf8("/proc/"@)) || text::starts_with(path, text::utf8("/sys/"@))
}

// ---------------------------------------------------------------------------
// Paths
// ---------------------------------------------------------------------------
/// A path that a Linux program gives: text up to a zero.
pub open spec fn linux_path(m: MachineView, pointer: u64) -> Option<Seq<u8>> {
    match crate::syscall::memory::text_at(m, pointer, 256, 0) {
        None => None,
        Some(bytes) => if vstd::utf8::valid_utf8(bytes) {
            Some(bytes)
        } else {
            None
        },
    }
}

fn get_linux_path(k: &Kernel, pointer: u64) -> (r: Option<Vec<u8>>)
    ensures
        match r {
            Some(path) => linux_path(k@.machine, pointer) == Some(path@),
            None => linux_path(k@.machine, pointer) is None,
        },
{
    match copy_cstring(&k.machine, pointer, 256) {
        None => None,
        Some(bytes) => {
            if is_utf8(bytes.as_slice()) {
                Some(bytes)
            } else {
                None
            }
        },
    }
}

/// Opens a path. What tells of the system is opened at once.
pub fn linux_openat_user(k: &mut Kernel, directory_fd: u64, path_pointer: u64, flags: u64) -> (r: Step)
    requires
        old(k).wf(),
    ensures
        final(k).wf(),
        match linux_path(old(k)@.machine, path_pointer) {
            None => r@ == syscall::refused() && final(k)@ == old(k)@,
            Some(path) => {
                let text = system_text(path, pid_of(old(k)@.scheduler), parent_of(old(k)@.scheduler));
                if tells_of_system(path) && text is Some {
                    r@ is Done && files::contents_opened(
                        old(k)@,
                        final(k)@,
                        path,
                        text->0,
                        false,
                        false,
                        r@->Done_0,
                    )
                } else {
                    r@ == (StepView::OpenLinux { path, flags }) && final(k)@ == old(k)@
                }
            },
        },
{
    let path = match get_linux_path(k, path_pointer) {
        None => {
            return Step::Done(SYSCALL_ERROR);
        },
        Some(path) => path,
    };
    if starts_with_text(path.as_slice(), "/proc/") || starts_with_text(path.as_slice(), "/sys/") {
        if let Some(contents) = generate_procfs_content(k, path.as_slice()) {
            let fd: u64 = open_with_contents(k, path, contents, false, false);
            return Step::Done(fd);
        }
    }
    Step::OpenLinux { path, flags }
}

/// How opening a path goes on: `entries` is what a directory holds, `contents`
/// what a file holds.
pub fn linux_open_answered(
    k: &mut Kernel,
    path: Vec<u8>,
    flags: u64,
    entries: Option<Store<Vec<u8>>>,
    contents: Option<Vec<u8>>,
) -> (r: u64)
    requires
        old(k).wf(),
    ensures
        final(k).wf(),
        match (files::entries_seen(entries), files::contents_seen(contents)) {
            (Some(names), _) => files::directory_opened(old(k)@, final(k)@, names, r),
            (None, None) => r == SYSCALL_ERROR && final(k)@ == old(k)@,
            (None, Some(c)) => files::contents_opened(
                old(k)@,
                final(k)@,
                path@,
                c,
                flags % 4 != 0,
                flags / 1024 % 2 == 1,
                r,
            ),
        },
{
    match (entries, contents) {
        (Some(entries), _) => open_entries(k, entries),
        (None, None) => SYSCALL_ERROR,
        (None, Some(contents)) => open_with_contents(
            k,
            path,
            contents,
            flags % 4 != 0,
            flags / 1024 % 2 == 1,
        ),
    }
}

/// What a Linux program is told of a descriptor.
pub open spec fn user_fstat(k: KernelView, fd: u64, pointer: u64) -> (KernelView, u64) {
    match descriptors::descriptor_in(k.scheduler, fd) {
        None => (k, SYSCALL_ERROR),
        Some(d) => {
            let (mode, rdev, size) = transfer::described(k.scheduler->0.objects, d.resource);
            native::answered(k, pointer, linux::stat_record(mode, 1000, rdev, size), 0)
        },
    }
}

pub fn linux_fstat_user(k: &mut Kernel, fd: u64, pointer: u64) -> (r: u64)
    requires
        old(k).wf(),
    ensures
        final(k).wf(),
        (final(k)@, r) == user_fstat(old(k)@, fd, pointer),
{
    match stat_linux_current(&k.scheduler, fd) {
        Err(()) => SYSCALL_ERROR,
        Ok(stat) => answer(k, pointer, stat.as_slice(), 0),
    }
}

/// What a Linux program is told of a path. What tells of the system is
/// answered at once.
pub open spec fn user_lookup(k: KernelView, path_pointer: u64, pointer: u64) -> (
    KernelView,
    StepView,
) {
    match linux_path(k.machine, path_pointer) {
        None => (k, syscall::refused()),
        Some(path) => if tells_of_system(path) {
            let size = match system_text(path, pid_of(k.scheduler), parent_of(k.scheduler)) {
                Some(text) => text.len() as u64,
                None => 64,
            };
            let (k1, value) = native::answered(k, pointer, linux::stat_record(0o100444, 0, 0, size), 0);
            (k1, StepView::Done(value))
        } else {
            (k, StepView::StatLinux { path, pointer })
        },
    }
}

pub fn linux_stat_user(k: &mut Kernel, path_pointer: u64, pointer: u64) -> (r: Step)
    requires
        old(k).wf(),
    ensures
        final(k).wf(),
        (final(k)@, r@) == user_lookup(old(k)@, path_pointer, pointer),
{
    let path = match get_linux_path(k, path_pointer) {
        None => {
            return Step::Done(SYSCALL_ERROR);
        },
        Some(path) => path,
    };
    if starts_with_text(path.as_slice(), "/proc/") || starts_with_text(path.as_slice(), "/sys/") {
        let mut size: u64 = 64;
        if let Some(contents) = generate_procfs_content(k, path.as_slice()) {
            assert(contents@.len() == contents.len());
            size = contents.len() as u64;
        }
        let stat = linux::make_stat_record(0o100444, 0, 0, size);
        let value: u64 = answer(k, pointer, stat.as_slice(), 0);
        return Step::Done(value);
    }
    Step::StatLinux { path, pointer }
}

/// How telling of a path goes on: `info` is whether it is a directory, and its
/// length, if there is something.
pub fn linux_stat_answered(k: &mut Kernel, pointer: u64, info: Option<(bool, u64)>) -> (r: u64)
    requires
        old(k).wf(),
    ensures
        final(k).wf(),
        (final(k)@, r) == match info {
            None => (old(k)@, SYSCALL_ERROR),
            Some((directory, length)) => native::answered(
                old(k)@,
                pointer,
                linux::stat_record(
                    if directory {
                        0o040755
                    } else {
                        0o100644
                    },
                    1000,
                    0,
                    length,
                ),
                0,
            ),
        },
{
    match info {
        None => SYSCALL_ERROR,
        Some((directory, length)) => {
            let mode: u32 = if directory {
                0o040755
            } else {
                0o100644
            };
            let stat = linux::make_stat_record(mode, 1000, 0, length);
            answer(k, pointer, stat.as_slice(), 0)
        },
    }
}

pub fn linux_access_user(k: &Kernel, path_pointer: u64) -> (r: Step)
    ensures
        r@ == (match linux_path(k@.machine, path_pointer) {
            None => syscall::refused(),
            Some(path) => StepView::Access { path },
        }),
{
    match get_linux_path(k, path_pointer) {
        None => Step::Done(SYSCALL_ERROR),
        Some(path) => Step::Access { path },
    }
}

/// The next entries of a directory; none at its end.
pub open spec fn user_entries(k: KernelView, fd: u64, pointer: u64, length: u64) -> (
    KernelView,
    u64,
) {
    if length > 4096 {
        (k, SYSCALL_ERROR)
    } else {
        match descriptors::descriptor_in(k.scheduler, fd) {
            Some(FileDescriptor { resource: DescriptorResource::Directory(n), .. }) => {
                let s = k.scheduler->0;
                let d = s.objects.directories[n as int];
                let (bytes, end) = transfer::records_from(d.entries, d.offset, Seq::empty(), length as int);
                let k1 = k.with_scheduler(transfer::with_directory(s, n, end));
                if bytes.len() == 0 {
                    (k1, 0)
                } else {
                    native::answered(k1, pointer, bytes, bytes.len() as u64)
                }
            },
            _ => (k, SYSCALL_ERROR),
        }
    }
}

pub fn linux_getdents64_user(k: &mut Kernel, fd: u64, pointer: u64, length: u64) -> (r: u64)
    requires
        old(k).wf(),
    ensures
        final(k).wf(),
        (final(k)@, r) == user_entries(old(k)@, fd, pointer, length),
{
    if length > 4096 {
        return SYSCALL_ERROR;
    }
    match read_dir_linux_current(&mut k.scheduler, fd, length as usize) {
        Err(()) => SYSCALL_ERROR,
        Ok(bytes) => {
            assert(bytes@.len() == bytes.len());
            if bytes.len() == 0 {
                return 0;
            }
            answer(k, pointer, bytes.as_slice(), bytes.len() as u64)
        },
    }
}

} // verus!
