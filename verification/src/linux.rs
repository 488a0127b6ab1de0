//! Numbers that Linux programs and the kernel agree on.
use vstd::prelude::*;

use crate::bytes::{self, push_all, push_le16, push_le32, push_le64, push_zeros};

verus! {

pub const FUTEX_WAIT: u32 = 0;

pub const FUTEX_WAKE: u32 = 1;

pub const FUTEX_REQUEUE: u32 = 3;

pub const FUTEX_CHECKED_REQUEUE: u32 = 4;

pub const FUTEX_WAIT_BITSET: u32 = 9;

pub const FUTEX_WAKE_BITSET: u32 = 10;

pub const FUTEX_CMD_MASK: u32 = 0xffff_fe7f;

pub const FUTEX_BITSET_MATCH_ANY: u32 = 0xffff_ffff;

pub const CLONE_VM: u64 = 0x100;

pub const CLONE_FILES: u64 = 0x400;

pub const CLONE_SIGHAND: u64 = 0x800;

pub const CLONE_THREAD: u64 = 0x1_0000;

pub const CLONE_SETTLS: u64 = 0x8_0000;

pub const CLONE_PARENT_SETTID: u64 = 0x10_0000;

pub const CLONE_CHILD_CLEARTID: u64 = 0x20_0000;

pub const CLONE_CHILD_SETTID: u64 = 0x100_0000;

pub const EPOLL_CTL_ADD: u32 = 1;

pub const EPOLL_CTL_DEL: u32 = 2;

pub const EPOLL_CTL_MOD: u32 = 3;

pub const EPOLLIN: u32 = 0x1;

pub const EPOLLOUT: u32 = 0x4;

pub const EPOLLHUP: u32 = 0x10;

pub const EFD_SEMAPHORE: u32 = 1;

pub const SA_RESTORER: u64 = 0x0400_0000;

pub const SA_NODEFER: u64 = 0x4000_0000;

pub const SA_RESETHAND: u64 = 0x8000_0000;

pub const ARCH_SET_GS: u64 = 0x1001;

pub const ARCH_SET_FS: u64 = 0x1002;

pub const ARCH_GET_FS: u64 = 0x1003;

pub const ARCH_GET_GS: u64 = 0x1004;

/// What a program is told of a file: its kind and access, its owner, its
/// device number and its size.
pub open spec fn stat_record(mode: u32, owner: u32, rdev: u64, size: u64) -> Seq<u8> {
    bytes::le64_bytes(1) + bytes::le64_bytes(1) + bytes::le64_bytes(1) + bytes::le32_bytes(mode) + bytes::le32_bytes(owner)
        + bytes::le32_bytes(owner) + bytes::le32_bytes(0) + bytes::le64_bytes(rdev) + bytes::le64_bytes(size) + bytes::le64_bytes(4096)
        + bytes::le64_bytes(((size + 511) / 512) as u64) + bytes::zeros(72)
}

pub(crate) fn make_stat_record(mode: u32, owner: u32, rdev: u64, size: u64) -> (r: Vec<u8>)
    ensures
        r@ == stat_record(mode, owner, rdev, size),
        r.len() == 144,
{
    let mut stat: Vec<u8> = Vec::new();
    push_le64(&mut stat, 1);
    push_le64(&mut stat, 1);
    push_le64(&mut stat, 1);
    push_le32(&mut stat, mode);
    push_le32(&mut stat, owner);
    push_le32(&mut stat, owner);
    push_le32(&mut stat, 0);
    push_le64(&mut stat, rdev);
    push_le64(&mut stat, size);
    push_le64(&mut stat, 4096);
    let blocks: u64 = if size % 512 == 0 {
        size / 512
    } else {
        size / 512 + 1
    };
    push_le64(&mut stat, blocks);
    push_zeros(&mut stat, 72);
    assert(stat@ =~= stat_record(mode, owner, rdev, size));
    stat
}

/// The length of an entry of a directory: a multiple of eight.
pub open spec fn entry_length(name: Seq<u8>) -> int {
    (name.len() as int + 27) / 8 * 8
}

/// An entry of a directory: its number, the place of the next, its length, its
/// kind, and its name with zeros behind it. The name of a directory ends in a
/// slash.
pub open spec fn entry_record(name: Seq<u8>, index: int) -> Seq<u8> {
    bytes::le64_bytes((index + 1) as u64) + bytes::le64_bytes((index + 1) as u64) + bytes::le16_bytes(
        (entry_length(name) % 65536) as u16,
    ) + seq![
        if name.len() > 0 && name.last() == 47 {
            4u8
        } else {
            8u8
        },
    ] + name + bytes::zeros((entry_length(name) - 19 - name.len()) as nat)
}

pub(crate) fn make_entry_record(name: &[u8], index: usize) -> (r: Vec<u8>)
    requires
        index < u64::MAX,
    ensures
        r@ == entry_record(name@, index as int),
        r@.len() == entry_length(name@),
{
    assert(name@.len() == name.len());
    let length: u128 = (name.len() as u128 + 27) / 8 * 8;
    let mut record: Vec<u8> = Vec::new();
    push_le64(&mut record, index as u64 + 1);
    push_le64(&mut record, index as u64 + 1);
    push_le16(&mut record, (length % 65536) as u16);
    let kind: u8 = if name.len() > 0 && name[name.len() - 1] == 47 {
        4
    } else {
        8
    };
    record.push(kind);
    push_all(&mut record, name);
    let ghost start = record@;
    let pad: u128 = length - 19 - name.len() as u128;
    let mut i: u128 = 0;
    assert(bytes::zeros(0) =~= Seq::<u8>::empty());
    while i < pad
        invariant
            i <= pad,
            record@ == start + bytes::zeros(i as nat),
        decreases pad - i,
    {
        record.push(0);
        i += 1;
        assert(record@ =~= start + bytes::zeros(i as nat));
    }
    assert(record@ =~= entry_record(name@, index as int));
    record
}

} // verus!
