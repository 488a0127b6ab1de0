//! A file system that tells of processes and of the system.
use vstd::prelude::*;

use crate::dhcp::DhcpLease;
use crate::store;
use crate::text::{self, decimal_bytes, is_text, push_decimal, push_padded, push_str, text_bytes};
use crate::vfs::{self, read_part, InodeMetadata, StatFs, VfsError};

verus! {

#[derive(Clone, Copy, Debug, PartialEq, Eq, Structural)]
pub struct ProcFs;

/// What the files tell of, as it is when one is read.
#[derive(Debug)]
pub struct Telemetry {
    pub tracked_frames: u64,
    pub free_frames: u64,
    pub cached_pages: u64,
    pub swap_sectors: u64,
    pub tick: u64,
    pub pid: u64,
    pub parent_pid: u64,
    pub exe_path: Vec<u8>,
    pub maps: Vec<u8>,
    pub dns_stats: (u64, u64, u64),
    pub tcp_table: Vec<u8>,
    pub lease: Option<DhcpLease>,
    pub nak_retries: u32,
}

impl Telemetry {
    /// Whether sizes in kilobytes are numbers of this machine.
    pub open spec fn wf(&self) -> bool {
        &&& self.tracked_frames <= u64::MAX / 4
        &&& self.free_frames <= u64::MAX / 4
        &&& self.cached_pages <= u64::MAX / 4
    }
}

pub open spec fn ip_text(ip: Seq<u8>) -> Seq<u8> {
    text::decimal_text(ip[0] as nat) + seq![46u8] + text::decimal_text(ip[1] as nat) + seq![46u8]
        + text::decimal_text(ip[2] as nat) + seq![46u8] + text::decimal_text(ip[3] as nat)
}

pub(crate) fn push_ip(text: &mut Vec<u8>, ip: &[u8; 4])
    ensures
        final(text)@ == old(text)@ + ip_text(ip@),
{
    let mut part: Vec<u8> = decimal_bytes(ip[0] as u64);
    let ghost p1 = text::decimal_text(ip@[0] as nat) + seq![46u8];
    part.push(46);
    assert(part@ =~= p1);
    push_decimal(&mut part, ip[1] as u64);
    let ghost p2 = p1 + text::decimal_text(ip@[1] as nat) + seq![46u8];
    part.push(46);
    assert(part@ =~= p2);
    push_decimal(&mut part, ip[2] as u64);
    let ghost p3 = p2 + text::decimal_text(ip@[2] as nat) + seq![46u8];
    part.push(46);
    assert(part@ =~= p3);
    push_decimal(&mut part, ip[3] as u64);
    crate::bytes::push_all(text, part.as_slice());
}

/// What is said of memory.
#[verifier::opaque]
pub open spec fn meminfo_text(total_kb: u64, free_kb: u64, cached_kb: u64, swap_kb: u64) -> Seq<u8> {
    text::utf8("MemTotal:       "@) + text::padded(text::decimal_text(total_kb as nat), 8, 32) + text::utf8(" kB\nMemFree:        "@) + text::padded(text::decimal_text(free_kb as nat), 8, 32) + text::utf8(" kB\nMemAvailable:   "@) + text::padded(text::decimal_text(free_kb as nat), 8, 32) + text::utf8(" kB\nBuffers:           1024 kB\nCached:         "@) + text::padded(text::decimal_text(cached_kb as nat), 8, 32) + text::utf8(" kB\nSwapTotal:      "@) + text::padded(text::decimal_text(swap_kb as nat), 8, 32) + text::utf8(" kB\nSwapFree:       "@) + text::padded(text::decimal_text(swap_kb as nat), 8, 32) + text::utf8(" kB\n"@)
}

fn make_meminfo(total_kb: u64, free_kb: u64, cached_kb: u64, swap_kb: u64) -> (r: Vec<u8>)
    ensures
        r@ == meminfo_text(total_kb, free_kb, cached_kb, swap_kb),
{
    let mut text: Vec<u8> = text_bytes("MemTotal:       ");
    push_padded(&mut text, total_kb, 8, 32);
    push_str(&mut text, " kB\nMemFree:        ");
    push_padded(&mut text, free_kb, 8, 32);
    push_str(&mut text, " kB\nMemAvailable:   ");
    push_padded(&mut text, free_kb, 8, 32);
    push_str(&mut text, " kB\nBuffers:           1024 kB\nCached:         ");
    push_padded(&mut text, cached_kb, 8, 32);
    push_str(&mut text, " kB\nSwapTotal:      ");
    push_padded(&mut text, swap_kb, 8, 32);
    push_str(&mut text, " kB\nSwapFree:       ");
    push_padded(&mut text, swap_kb, 8, 32);
    push_str(&mut text, " kB\n");
    proof {
        reveal(meminfo_text);
    }
    text
}

/// How long the system runs: seconds, and hundredths.
#[verifier::opaque]
pub open spec fn uptime_text(sec: u64, rem: u64) -> Seq<u8> {
    text::decimal_text(sec as nat) + text::utf8("."@) + text::padded(text::decimal_text(rem as nat), 2, 48) + text::utf8(" "@) + text::decimal_text(sec as nat) + text::utf8("."@) + text::padded(text::decimal_text(rem as nat), 2, 48) + text::utf8("\n"@)
}

fn make_uptime(sec: u64, rem: u64) -> (r: Vec<u8>)
    ensures
        r@ == uptime_text(sec, rem),
{
    let mut text: Vec<u8> = decimal_bytes(sec as u64);
    push_str(&mut text, ".");
    push_padded(&mut text, rem, 2, 48);
    push_str(&mut text, " ");
    push_decimal(&mut text, sec as u64);
    push_str(&mut text, ".");
    push_padded(&mut text, rem, 2, 48);
    push_str(&mut text, "\n");
    proof {
        reveal(uptime_text);
    }
    text
}

/// What is said of a process, line by line.
#[verifier::opaque]
pub open spec fn status_text(pid: u64, ppid: u64) -> Seq<u8> {
    text::utf8("Name:\tvanta-app\nState:\tR (running)\nTgid:\t"@) + text::decimal_text(pid as nat) + text::utf8("\nPid:\t"@) + text::decimal_text(pid as nat) + text::utf8("\nPPid:\t"@) + text::decimal_text(ppid as nat) + text::utf8("\nThreads:\t1\n"@)
}

fn make_status(pid: u64, ppid: u64) -> (r: Vec<u8>)
    ensures
        r@ == status_text(pid, ppid),
{
    let mut text: Vec<u8> = text_bytes("Name:\tvanta-app\nState:\tR (running)\nTgid:\t");
    push_decimal(&mut text, pid as u64);
    push_str(&mut text, "\nPid:\t");
    push_decimal(&mut text, pid as u64);
    push_str(&mut text, "\nPPid:\t");
    push_decimal(&mut text, ppid as u64);
    push_str(&mut text, "\nThreads:\t1\n");
    proof {
        reveal(status_text);
    }
    text
}

/// What is said of a process, on one line.
#[verifier::opaque]
pub open spec fn stat_text(pid: u64, ppid: u64) -> Seq<u8> {
    text::decimal_text(pid as nat) + text::utf8(" (vanta-app) R "@) + text::decimal_text(ppid as nat) + text::utf8(" 0 0 0 0 0 0 0 0 0 0 0 0 20 0 1 0 0 0 0 0 0 0 0 0 0 0 0 0 0 0 0 0 0 0 0 0 0\n"@)
}

fn make_stat(pid: u64, ppid: u64) -> (r: Vec<u8>)
    ensures
        r@ == stat_text(pid, ppid),
{
    let mut text: Vec<u8> = decimal_bytes(pid as u64);
    push_str(&mut text, " (vanta-app) R ");
    push_decimal(&mut text, ppid as u64);
    push_str(&mut text, " 0 0 0 0 0 0 0 0 0 0 0 0 20 0 1 0 0 0 0 0 0 0 0 0 0 0 0 0 0 0 0 0 0 0 0 0 0\n");
    proof {
        reveal(stat_text);
    }
    text
}

/// What is said of the resolver.
#[verifier::opaque]
pub open spec fn dns_text(queries: u64, hits: u64, entries: u64) -> Seq<u8> {
    text::utf8("queries: "@) + text::decimal_text(queries as nat) + text::utf8("\nhits: "@) + text::decimal_text(hits as nat) + text::utf8("\nentries: "@) + text::decimal_text(entries as nat) + text::utf8("\n"@)
}

fn make_dns(queries: u64, hits: u64, entries: u64) -> (r: Vec<u8>)
    ensures
        r@ == dns_text(queries, hits, entries),
{
    let mut text: Vec<u8> = text_bytes("queries: ");
    push_decimal(&mut text, queries as u64);
    push_str(&mut text, "\nhits: ");
    push_decimal(&mut text, hits as u64);
    push_str(&mut text, "\nentries: ");
    push_decimal(&mut text, entries as u64);
    push_str(&mut text, "\n");
    proof {
        reveal(dns_text);
    }
    text
}

/// What is said of a lease.
#[verifier::opaque]
pub open spec fn lease_text(lease: DhcpLease, nak_retries: u32) -> Seq<u8> {
    text::utf8("state: BOUND\nip: "@) + ip_text(lease.ip@) + text::utf8("\nnetmask: "@) + ip_text(lease.netmask@) + text::utf8("\ngateway: "@) + ip_text(lease.gateway@) + text::utf8("\ndns: "@) + ip_text(lease.dns@) + text::utf8("\nserver_id: "@) + ip_text(lease.server_id@) + text::utf8("\nlease_time: "@) + text::decimal_text(lease.lease_time as nat) + text::utf8("\nnak_retries: "@) + text::decimal_text(nak_retries as nat) + text::utf8("\n"@)
}

fn make_lease(lease: DhcpLease, nak_retries: u32) -> (r: Vec<u8>)
    ensures
        r@ == lease_text(lease, nak_retries),
{
    let mut text: Vec<u8> = text_bytes("state: BOUND\nip: ");
    push_ip(&mut text, &lease.ip);
    push_str(&mut text, "\nnetmask: ");
    push_ip(&mut text, &lease.netmask);
    push_str(&mut text, "\ngateway: ");
    push_ip(&mut text, &lease.gateway);
    push_str(&mut text, "\ndns: ");
    push_ip(&mut text, &lease.dns);
    push_str(&mut text, "\nserver_id: ");
    push_ip(&mut text, &lease.server_id);
    push_str(&mut text, "\nlease_time: ");
    push_decimal(&mut text, lease.lease_time as u64);
    push_str(&mut text, "\nnak_retries: ");
    push_decimal(&mut text, nak_retries as u64);
    push_str(&mut text, "\n");
    proof {
        reveal(lease_text);
    }
    text
}

/// What a file holds; none if it is no file.
pub open spec fn contents(t: Telemetry, ino: u64) -> Option<Seq<u8>> {
    if ino == 3 {
        Some(
            text::utf8(
                "processor\t: 0\nvendor_id\t: GenuineIntel\nmodel name\t: Vanta Virtual CPU\ncpu MHz\t\t: 3000.000\nflags\t\t: fpu vme de pse tsc msr pae mce cx8 apic sep mtrr pge mca cmov pat pse36 clflush mmx fxsr sse sse2 ss ht syscall nx lm constant_tsc rep_good nopl cpuid tsc_known_freq pni pclmulqdq ssse3 fma cx16 pcid sse4_1 sse4_2 x2apic movbe popcnt tsc_deadline_timer aes xsave avx f16c rdrand hypervisor lahf_lm abm 3dnowprefetch cpuid_fault ssbd ibrs ibpb stibp fsgsbase tsc_adjust bmi1 avx2 smep bmi2 erms invpcid rdseed adx smap clflushopt xsaveopt xsavec xgetbv1 xsaves arat md_clear arch_capabilities\n\n"@,
            ),
        )
    } else if ino == 4 {
        Some(
            meminfo_text(
                (t.tracked_frames * 4) as u64,
                (t.free_frames * 4) as u64,
                (t.cached_pages * 4) as u64,
                t.swap_sectors / 2,
            ),
        )
    } else if ino == 5 {
        Some(text::utf8("Linux version 6.1.0-vanta (vanta@build) (gcc 12.2.0) #1 SMP PREEMPT\n"@))
    } else if ino == 6 {
        Some(uptime_text(t.tick / 1000, t.tick % 1000 / 10))
    } else if ino == 8 {
        Some(
            text::utf8(
                "rootfs / rootfs rw 0 0\n/dev/vda2 / ext4 rw,relatime 0 0\ntmpfs /tmp tmpfs rw,relatime 0 0\ndevtmpfs /dev devtmpfs rw,relatime 0 0\nproc /proc proc rw,relatime 0 0\nsysfs /sys sysfs rw,relatime 0 0\n"@,
            ),
        )
    } else if ino == 9 {
        Some(
            text::utf8(
                "nodev\tsysfs\nnodev\trootfs\nnodev\tramfs\nnodev\ttmpfs\nnodev\tdevtmpfs\nnodev\tproc\n\text4\n\tredoxfs\n"@,
            ),
        )
    } else if ino == 21 {
        Some(t.maps@)
    } else if ino == 22 {
        Some(status_text(t.pid, t.parent_pid))
    } else if ino == 23 {
        Some(t.exe_path@.push(0))
    } else if ino == 24 {
        Some(stat_text(t.pid, t.parent_pid))
    } else if ino == 71 {
        Some(dns_text(t.dns_stats.0, t.dns_stats.1, t.dns_stats.2))
    } else if ino == 72 {
        Some(t.tcp_table@)
    } else if ino == 73 {
        Some(
            match t.lease {
                Some(lease) => lease_text(lease, t.nak_retries),
                None => text::utf8("state: STATIC\n"@),
            },
        )
    } else {
        None
    }
}

/// What a name in a directory leads to. A number leads to a process, or to what
/// a descriptor stands for.
pub open spec fn child(parent: u64, name: Seq<u8>) -> Option<u64> {
    if parent == 1 {
        if vfs::is_self(name) {
            Some(1)
        } else if name == text::utf8(".."@) {
            Some(1)
        } else if name == text::utf8("self"@) {
            Some(2)
        } else if name == text::utf8("cpuinfo"@) {
            Some(3)
        } else if name == text::utf8("meminfo"@) {
            Some(4)
        } else if name == text::utf8("version"@) {
            Some(5)
        } else if name == text::utf8("uptime"@) {
            Some(6)
        } else if name == text::utf8("net"@) {
            Some(7)
        } else if name == text::utf8("mounts"@) {
            Some(8)
        } else if name == text::utf8("filesystems"@) {
            Some(9)
        } else if text::is_numeral(name) {
            Some(2)
        } else {
            None
        }
    } else if parent == 2 {
        if vfs::is_self(name) {
            Some(2)
        } else if name == text::utf8(".."@) {
            Some(1)
        } else if name == text::utf8("exe"@) {
            Some(20)
        } else if name == text::utf8("maps"@) {
            Some(21)
        } else if name == text::utf8("status"@) {
            Some(22)
        } else if name == text::utf8("cmdline"@) {
            Some(23)
        } else if name == text::utf8("stat"@) {
            Some(24)
        } else if name == text::utf8("fd"@) {
            Some(25)
        } else {
            None
        }
    } else if parent == 7 {
        if vfs::is_self(name) {
            Some(7)
        } else if name == text::utf8(".."@) {
            Some(1)
        } else if name == text::utf8("dns"@) {
            Some(71)
        } else if name == text::utf8("tcp"@) {
            Some(72)
        } else if name == text::utf8("dhcp"@) {
            Some(73)
        } else {
            None
        }
    } else if parent == 25 {
        if vfs::is_self(name) {
            Some(25)
        } else if name == text::utf8(".."@) {
            Some(2)
        } else if text::is_numeral(name) {
            Some(20)
        } else {
            None
        }
    } else {
        None
    }
}

/// The names in a directory.
pub open spec fn names_in(ino: u64) -> Option<Seq<Seq<u8>>> {
    if ino == 1 {
        Some(seq![
            text::utf8("."@),
            text::utf8(".."@),
            text::utf8("self"@),
            text::utf8("cpuinfo"@),
            text::utf8("meminfo"@),
            text::utf8("version"@),
            text::utf8("uptime"@),
            text::utf8("net"@),
            text::utf8("mounts"@),
            text::utf8("filesystems"@),
        ])
    } else if ino == 2 {
        Some(seq![
            text::utf8("."@),
            text::utf8(".."@),
            text::utf8("exe"@),
            text::utf8("maps"@),
            text::utf8("status"@),
            text::utf8("cmdline"@),
            text::utf8("stat"@),
            text::utf8("fd"@),
        ])
    } else if ino == 7 {
        Some(seq![
            text::utf8("."@),
            text::utf8(".."@),
            text::utf8("dns"@),
            text::utf8("tcp"@),
            text::utf8("dhcp"@),
        ])
    } else if ino == 25 {
        Some(seq![
            text::utf8("."@),
            text::utf8(".."@),
            text::utf8("0"@),
            text::utf8("1"@),
            text::utf8("2"@),
        ])
    } else {
        None
    }
}

pub open spec fn metadata(t: Telemetry, ino: u64) -> InodeMetadata {
    if ino == 1 || ino == 2 || ino == 7 || ino == 25 {
        vfs::listed(ino, 0o040555, 0)
    } else if ino == 20 {
        vfs::listed(ino, 0o120777, 0)
    } else {
        vfs::listed(
            ino,
            0o100444,
            match contents(t, ino) {
                Some(bytes) => bytes.len() as u64,
                None => 0,
            },
        )
    }
}

fn all_digits(name: &[u8]) -> (r: bool)
    ensures
        r == text::is_numeral(name@),
{
    if name.len() == 0 {
        return false;
    }
    let mut i: usize = 0;
    while i < name.len()
        invariant
            i <= name@.len(),
            forall|j: int| 0 <= j < i ==> text::is_digit(#[trigger] name@[j]),
        decreases name@.len() - i,
    {
        if name[i] < 48 || name[i] > 57 {
            assert(!text::is_digit(name@[i as int]));
            return false;
        }
        i += 1;
    }
    true
}

fn copy_of(bytes: &Vec<u8>) -> (r: Vec<u8>)
    ensures
        r@ == bytes@,
{
    vstd::slice::slice_to_vec(bytes.as_slice())
}

impl ProcFs {
    pub fn new() -> (r: Self)
        ensures
            r == ProcFs,
    {
        ProcFs
    }

    fn generate_content(&self, t: &Telemetry, ino: u64) -> (r: Option<Vec<u8>>)
        requires
            t.wf(),
        ensures
            match r {
                Some(bytes) => contents(*t, ino) == Some(bytes@),
                None => contents(*t, ino) is None,
            },
    {
        if ino == 3 {
            Some(
                text_bytes(
                    "processor\t: 0\nvendor_id\t: GenuineIntel\nmodel name\t: Vanta Virtual CPU\ncpu MHz\t\t: 3000.000\nflags\t\t: fpu vme de pse tsc msr pae mce cx8 apic sep mtrr pge mca cmov pat pse36 clflush mmx fxsr sse sse2 ss ht syscall nx lm constant_tsc rep_good nopl cpuid tsc_known_freq pni pclmulqdq ssse3 fma cx16 pcid sse4_1 sse4_2 x2apic movbe popcnt tsc_deadline_timer aes xsave avx f16c rdrand hypervisor lahf_lm abm 3dnowprefetch cpuid_fault ssbd ibrs ibpb stibp fsgsbase tsc_adjust bmi1 avx2 smep bmi2 erms invpcid rdseed adx smap clflushopt xsaveopt xsavec xgetbv1 xsaves arat md_clear arch_capabilities\n\n",
                ),
            )
        } else if ino == 4 {
            Some(
                make_meminfo(
                    t.tracked_frames * 4,
                    t.free_frames * 4,
                    t.cached_pages * 4,
                    t.swap_sectors / 2,
                ),
            )
        } else if ino == 5 {
            Some(text_bytes("Linux version 6.1.0-vanta (vanta@build) (gcc 12.2.0) #1 SMP PREEMPT\n"))
        } else if ino == 6 {
            Some(make_uptime(t.tick / 1000, t.tick % 1000 / 10))
        } else if ino == 8 {
            Some(
                text_bytes(
                    "rootfs / rootfs rw 0 0\n/dev/vda2 / ext4 rw,relatime 0 0\ntmpfs /tmp tmpfs rw,relatime 0 0\ndevtmpfs /dev devtmpfs rw,relatime 0 0\nproc /proc proc rw,relatime 0 0\nsysfs /sys sysfs rw,relatime 0 0\n",
                ),
            )
        } else if ino == 9 {
            Some(
                text_bytes(
                    "nodev\tsysfs\nnodev\trootfs\nnodev\tramfs\nnodev\ttmpfs\nnodev\tdevtmpfs\nnodev\tproc\n\text4\n\tredoxfs\n",
                ),
            )
        } else if ino == 21 {
            Some(copy_of(&t.maps))
        } else if ino == 22 {
            Some(make_status(t.pid, t.parent_pid))
        } else if ino == 23 {
            let mut line: Vec<u8> = copy_of(&t.exe_path);
            line.push(0);
            Some(line)
        } else if ino == 24 {
            Some(make_stat(t.pid, t.parent_pid))
        } else if ino == 71 {
            Some(make_dns(t.dns_stats.0, t.dns_stats.1, t.dns_stats.2))
        } else if ino == 72 {
            Some(copy_of(&t.tcp_table))
        } else if ino == 73 {
            match t.lease {
                Some(lease) => Some(make_lease(lease, t.nak_retries)),
                None => Some(text_bytes("state: STATIC\n")),
            }
        } else {
            None
        }
    }

    pub fn lookup(&self, parent: u64, name: &[u8]) -> (r: Result<u64, VfsError>)
        ensures
            r == match child(parent, name@) {
                Some(ino) => Ok::<u64, VfsError>(ino),
                None => Err(VfsError::NotFound),
            },
    {
        if parent == 1 {
            if name.len() == 0 || is_text(name, ".") {
                Ok(1)
            } else if is_text(name, "..") {
                Ok(1)
            } else if is_text(name, "self") {
                Ok(2)
            } else if is_text(name, "cpuinfo") {
                Ok(3)
            } else if is_text(name, "meminfo") {
                Ok(4)
            } else if is_text(name, "version") {
                Ok(5)
            } else if is_text(name, "uptime") {
                Ok(6)
            } else if is_text(name, "net") {
                Ok(7)
            } else if is_text(name, "mounts") {
                Ok(8)
            } else if is_text(name, "filesystems") {
                Ok(9)
            } else if all_digits(name) {
                Ok(2)
            } else {
                Err(VfsError::NotFound)
            }
        } else if parent == 2 {
            if name.len() == 0 || is_text(name, ".") {
                Ok(2)
            } else if is_text(name, "..") {
                Ok(1)
            } else if is_text(name, "exe") {
                Ok(20)
            } else if is_text(name, "maps") {
                Ok(21)
            } else if is_text(name, "status") {
                Ok(22)
            } else if is_text(name, "cmdline") {
                Ok(23)
            } else if is_text(name, "stat") {
                Ok(24)
            } else if is_text(name, "fd") {
                Ok(25)
            } else {
                Err(VfsError::NotFound)
            }
        } else if parent == 7 {
            if name.len() == 0 || is_text(name, ".") {
                Ok(7)
            } else if is_text(name, "..") {
                Ok(1)
            } else if is_text(name, "dns") {
                Ok(71)
            } else if is_text(name, "tcp") {
                Ok(72)
            } else if is_text(name, "dhcp") {
                Ok(73)
            } else {
                Err(VfsError::NotFound)
            }
        } else if parent == 25 {
            if name.len() == 0 || is_text(name, ".") {
                Ok(25)
            } else if is_text(name, "..") {
                Ok(2)
            } else if all_digits(name) {
                Ok(20)
            } else {
                Err(VfsError::NotFound)
            }
        } else {
            Err(VfsError::NotFound)
        }
    }

    pub fn read_inode(&self, t: &Telemetry, ino: u64) -> (r: Result<InodeMetadata, VfsError>)
        requires
            t.wf(),
        ensures
            r == Ok::<InodeMetadata, VfsError>(metadata(*t, ino)),
    {
        let (mode, size): (u32, u64) = if ino == 1 || ino == 2 || ino == 7 || ino == 25 {
            (0o040555, 0)
        } else if ino == 20 {
            (0o120777, 0)
        } else {
            match self.generate_content(t, ino) {
                Some(bytes) => (0o100444, bytes.len() as u64),
                None => (0o100444, 0),
            }
        };
        Ok(InodeMetadata { ino, size, mode, uid: 0, gid: 0, atime: 0, mtime: 0, ctime: 0 })
    }

    pub fn readlink(&self, t: &Telemetry, ino: u64) -> (r: Result<Vec<u8>, VfsError>)
        ensures
            match r {
                Ok(target) => if ino == 20 {
                    target@ == if t.exe_path@.len() > 0 {
                        t.exe_path@
                    } else {
                        text::utf8("/compat/linux/proc-conformance"@)
                    }
                } else {
                    ino == 2 && target@ == text::decimal_text(t.pid as nat)
                },
                Err(e) => e == VfsError::InvalidPath && ino != 20 && ino != 2,
            },
    {
        if ino == 20 {
            if t.exe_path.len() > 0 {
                Ok(copy_of(&t.exe_path))
            } else {
                Ok(text_bytes("/compat/linux/proc-conformance"))
            }
        } else if ino == 2 {
            Ok(decimal_bytes(t.pid))
        } else {
            Err(VfsError::InvalidPath)
        }
    }

    pub fn read(&self, t: &Telemetry, ino: u64, offset: u64, buf: &mut [u8]) -> (r: Result<
        usize,
        VfsError,
    >)
        requires
            t.wf(),
        ensures
            match contents(*t, ino) {
                Some(bytes) => {
                    &&& final(buf)@ == vfs::part_read(bytes, offset, old(buf)@).0
                    &&& r == Ok::<usize, VfsError>(vfs::part_read(bytes, offset, old(buf)@).1)
                },
                None => r == Err::<usize, VfsError>(VfsError::NotFound) && final(buf)@
                    == old(buf)@,
            },
    {
        match self.generate_content(t, ino) {
            None => Err(VfsError::NotFound),
            Some(bytes) => Ok(read_part(bytes.as_slice(), offset, buf)),
        }
    }

    pub fn read_dir(&self, ino: u64) -> (r: Result<Vec<Vec<u8>>, VfsError>)
        ensures
            match r {
                Ok(names) => names_in(ino) == Some(store::views(names@)),
                Err(e) => names_in(ino) is None && e == VfsError::NotDirectory,
            },
    {
        let mut names: Vec<Vec<u8>> = Vec::new();
        if ino == 1 {
            names.push(text_bytes("."));
            names.push(text_bytes(".."));
            names.push(text_bytes("self"));
            names.push(text_bytes("cpuinfo"));
            names.push(text_bytes("meminfo"));
            names.push(text_bytes("version"));
            names.push(text_bytes("uptime"));
            names.push(text_bytes("net"));
            names.push(text_bytes("mounts"));
            names.push(text_bytes("filesystems"));
        } else if ino == 2 {
            names.push(text_bytes("."));
            names.push(text_bytes(".."));
            names.push(text_bytes("exe"));
            names.push(text_bytes("maps"));
            names.push(text_bytes("status"));
            names.push(text_bytes("cmdline"));
            names.push(text_bytes("stat"));
            names.push(text_bytes("fd"));
        } else if ino == 7 {
            names.push(text_bytes("."));
            names.push(text_bytes(".."));
            names.push(text_bytes("dns"));
            names.push(text_bytes("tcp"));
            names.push(text_bytes("dhcp"));
        } else if ino == 25 {
            names.push(text_bytes("."));
            names.push(text_bytes(".."));
            names.push(text_bytes("0"));
            names.push(text_bytes("1"));
            names.push(text_bytes("2"));
        } else {
            return Err(VfsError::NotDirectory);
        }
        assert(store::views(names@) =~= names_in(ino)->0);
        Ok(names)
    }

    pub fn statfs(&self) -> (r: Result<StatFs, VfsError>)
        ensures
            r == Ok::<StatFs, VfsError>(
                StatFs {
                    f_type: 0x9fa0,
                    f_bsize: 4096,
                    f_blocks: 0,
                    f_bfree: 0,
                    f_bavail: 0,
                    f_files: 0,
                    f_ffree: 0,
                },
            ),
    {
        Ok(
            StatFs {
                    f_type: 0x9fa0,
                    f_bsize: 4096,
                    f_blocks: 0,
                    f_bfree: 0,
                    f_bavail: 0,
                    f_files: 0,
                    f_ffree: 0,
                },
        )
    }

    pub fn create(&self, _parent: u64, _name: &[u8], _mode: u32) -> (r: Result<u64, VfsError>)
        ensures
            r == Err::<u64, VfsError>(VfsError::ReadOnlyFilesystem),
    {
        Err(VfsError::ReadOnlyFilesystem)
    }

    pub fn mkdir(&self, _parent: u64, _name: &[u8], _mode: u32) -> (r: Result<u64, VfsError>)
        ensures
            r == Err::<u64, VfsError>(VfsError::ReadOnlyFilesystem),
    {
        Err(VfsError::ReadOnlyFilesystem)
    }

    pub fn unlink(&self, _parent: u64, _name: &[u8]) -> (r: Result<(), VfsError>)
        ensures
            r == Err::<(), VfsError>(VfsError::ReadOnlyFilesystem),
    {
        Err(VfsError::ReadOnlyFilesystem)
    }

    pub fn rmdir(&self, _parent: u64, _name: &[u8]) -> (r: Result<(), VfsError>)
        ensures
            r == Err::<(), VfsError>(VfsError::ReadOnlyFilesystem),
    {
        Err(VfsError::ReadOnlyFilesystem)
    }

    pub fn symlink(&self, _parent: u64, _name: &[u8], _target: &[u8]) -> (r: Result<u64, VfsError>)
        ensures
            r == Err::<u64, VfsError>(VfsError::ReadOnlyFilesystem),
    {
        Err(VfsError::ReadOnlyFilesystem)
    }

    pub fn rename(
        &self,
        _old_parent: u64,
        _old_name: &[u8],
        _new_parent: u64,
        _new_name: &[u8],
    ) -> (r: Result<(), VfsError>)
        ensures
            r == Err::<(), VfsError>(VfsError::ReadOnlyFilesystem),
    {
        Err(VfsError::ReadOnlyFilesystem)
    }

    pub fn sync(&self) -> (r: Result<(), VfsError>)
        ensures
            r == Ok::<(), VfsError>(()),
    {
        Ok(())
    }

    /// The contents are made when they are read.
    pub fn is_page_cached(&self) -> (r: bool)
        ensures
            !r,
    {
        false
    }

    pub fn root_inode(&self) -> (r: u64)
        ensures
            r == 1,
    {
        1
    }

    pub fn write(&self, _ino: u64, _offset: u64, _buf: &[u8]) -> (r: Result<usize, VfsError>)
        ensures
            r == Err::<usize, VfsError>(VfsError::ReadOnlyFilesystem),
    {
        Err(VfsError::ReadOnlyFilesystem)
    }

    pub fn truncate(&self, _ino: u64, _size: u64) -> (r: Result<(), VfsError>)
        ensures
            r == Err::<(), VfsError>(VfsError::ReadOnlyFilesystem),
    {
        Err(VfsError::ReadOnlyFilesystem)
    }
}

/// Every name that a directory lists is found in it; what it leads to is a
/// directory, holds something, or is the link to the running program.
pub proof fn law_listed_names_found(t: Telemetry, ino: u64, i: int)
    requires
        names_in(ino) is Some,
        0 <= i < names_in(ino)->0.len(),
    ensures
        child(ino, names_in(ino)->0[i]) matches Some(node) && (names_in(node) is Some || contents(
            t,
            node,
        ) is Some || node == 20),
{
    if ino == 25 {
        assert(text::is_numeral(text::utf8("0"@)) && text::is_numeral(text::utf8("1"@))
            && text::is_numeral(text::utf8("2"@))) by {
            lemma_digits();
        }
    }
}

proof fn lemma_digits()
    ensures
        text::is_numeral(text::utf8("0"@)),
        text::is_numeral(text::utf8("1"@)),
        text::is_numeral(text::utf8("2"@)),
{
    reveal_strlit("0");
    reveal_strlit("1");
    reveal_strlit("2");
    assert(vstd::utf8::is_ascii_chars("0"@));
    vstd::utf8::is_ascii_chars_encode_utf8("0"@);
    assert(vstd::utf8::is_ascii_chars("1"@));
    vstd::utf8::is_ascii_chars_encode_utf8("1"@);
    assert(vstd::utf8::is_ascii_chars("2"@));
    vstd::utf8::is_ascii_chars_encode_utf8("2"@);
}

/// The size that is told of a file is the length of what it holds.
pub proof fn law_size_is_length(t: Telemetry, ino: u64)
    requires
        contents(t, ino) is Some,
        contents(t, ino)->0.len() <= u64::MAX,
    ensures
        metadata(t, ino).size == contents(t, ino)->0.len(),
        metadata(t, ino).mode == 0o100444,
        metadata(t, ino).ino == ino,
{
}

} // verus!
