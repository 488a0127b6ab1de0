//! What the kernel reads from and writes to programs.
use vstd::prelude::*;

use crate::paging::{self, AddressSpace, Machine, MachineView};
use crate::syscall::USER_ADDRESS_LIMIT;

verus! {

/// The flags of a page of the active address space.
pub open spec fn flags_at(m: MachineView, address: u64) -> Option<u64> {
    let space = AddressSpace { pml4_phys: paging::address_of(m.cr3) };
    match m.walk(space, address, false, false).1 {
        Ok(Some(table)) => match m.entry(table, paging::index_pt(address)) {
            Some(e) if paging::present(e) => Some((e - paging::address_of(e)) as u64),
            _ => None,
        },
        _ => None,
    }
}

/// The place in memory of an address of the running program, if it may be
/// read, or written.
#[verifier::opaque]
pub open spec fn place(m: MachineView, address: u64, writable: bool) -> Option<int> {
    let space = AddressSpace { pml4_phys: paging::address_of(m.cr3) };
    if address >= USER_ADDRESS_LIMIT {
        None
    } else {
        match (flags_at(m, address), m.translated(space, address)) {
            (Some(flags), Some(t)) => if flags / 4 % 2 == 1 && (writable ==> flags / 2 % 2 == 1)
                && m.virt(t.physical_address) is Some && t.physical_address < m.ram.len() {
                Some(t.physical_address as int)
            } else {
                None
            },
            _ => None,
        }
    }
}

pub(crate) fn user_physical_address(machine: &Machine, address: u64, writable: bool) -> (r: Option<usize>)
    ensures
        match r {
            Some(p) => place(machine@, address, writable) == Some(p as int) && p
                < machine.ram.len(),
            None => place(machine@, address, writable) is None,
        },
{
    proof {
        reveal(place);
    }
    if address >= USER_ADDRESS_LIMIT {
        return None;
    }
    let space = paging::current_address_space(machine);
    let flags: u64 = match paging::flags_in(machine, space, address) {
        None => {
            return None;
        },
        Some(flags) => flags,
    };
    if flags / 4 % 2 != 1 || (writable && flags / 2 % 2 != 1) {
        return None;
    }
    let t = match paging::translate(machine, address) {
        None => {
            return None;
        },
        Some(t) => t,
    };
    if paging::phys_to_virt(machine, t.physical_address).is_none() || t.physical_address
        >= machine.ram.len() as u64 {
        return None;
    }
    Some(t.physical_address as usize)
}

/// The bytes at the program's addresses from `pointer` on, `n` of them.
pub open spec fn bytes_at(m: MachineView, pointer: u64, n: nat) -> Option<Seq<u8>>
    decreases n,
{
    if n == 0 {
        Some(Seq::empty())
    } else if pointer + n - 1 > u64::MAX {
        None
    } else {
        match (
            bytes_at(m, pointer, (n - 1) as nat),
            place(m, (pointer + n - 1) as u64, false),
        ) {
            (Some(before), Some(p)) => Some(before.push(m.ram[p])),
            _ => None,
        }
    }
}

/// What the kernel gets from a program: no more than 65536 bytes at once.
pub open spec fn taken(m: MachineView, pointer: u64, length: u64) -> Option<Seq<u8>> {
    if length > 65536 {
        None
    } else {
        bytes_at(m, pointer, length as nat)
    }
}

pub proof fn lemma_bytes_at(m: MachineView, pointer: u64, n: nat)
    ensures
        bytes_at(m, pointer, n) matches Some(s) ==> s.len() == n,
    decreases n,
{
    if n > 0 {
        lemma_bytes_at(m, pointer, (n - 1) as nat);
    }
}

proof fn lemma_shorter(m: MachineView, pointer: u64, n: nat, k: nat)
    requires
        n <= k,
        bytes_at(m, pointer, n) is None,
    ensures
        bytes_at(m, pointer, k) is None,
    decreases k - n,
{
    if n < k {
        lemma_shorter(m, pointer, n + 1, k);
    }
}

pub(crate) fn copy_from_user(machine: &Machine, pointer: u64, length: u64) -> (r: Option<Vec<u8>>)
    ensures
        match r {
            Some(bytes) => taken(machine@, pointer, length) == Some(bytes@) && bytes.len()
                == length,
            None => taken(machine@, pointer, length) is None,
        },
{
    if length > 65536 {
        return None;
    }
    let mut bytes: Vec<u8> = Vec::new();
    let mut i: u64 = 0;
    assert(bytes@ =~= Seq::<u8>::empty());
    while i < length
        invariant
            i <= length,
            length <= 65536,
            bytes.len() == i,
            bytes_at(machine@, pointer, i as nat) == Some(bytes@),
        decreases length - i,
    {
        if i > u64::MAX - pointer {
            proof {
                lemma_shorter(machine@, pointer, (i + 1) as nat, length as nat);
            }
            return None;
        }
        match user_physical_address(machine, pointer + i, false) {
            None => {
                proof {
                    lemma_shorter(machine@, pointer, (i + 1) as nat, length as nat);
                }
                return None;
            },
            Some(p) => {
                bytes.push(machine.ram[p]);
            },
        }
        i += 1;
    }
    Some(bytes)
}

/// Bytes written to the program's addresses from `pointer` on, up to the first
/// that cannot be written.
pub open spec fn given(m: MachineView, pointer: u64, bytes: Seq<u8>, i: int) -> (MachineView, bool)
    decreases bytes.len() - i,
{
    if i < 0 || i >= bytes.len() {
        (m, true)
    } else if pointer + i > u64::MAX {
        (m, false)
    } else {
        match place(m, (pointer + i) as u64, true) {
            None => (m, false),
            Some(p) => given(
                MachineView { ram: m.ram.update(p, bytes[i]), ..m },
                pointer,
                bytes,
                i + 1,
            ),
        }
    }
}

pub(crate) fn copy_to_user(machine: &mut Machine, pointer: u64, bytes: &[u8]) -> (r: bool)
    requires
        old(machine).wf(),
    ensures
        final(machine).wf(),
        final(machine).same_place(old(machine)),
        (final(machine)@, r) == given(old(machine)@, pointer, bytes@, 0),
{
    assert(bytes@.len() == bytes.len());
    let ghost goal = given(machine@, pointer, bytes@, 0);
    let mut i: usize = 0;
    while i < bytes.len()
        invariant
            i <= bytes.len(),
            bytes@.len() == bytes.len(),
            machine.wf(),
            machine.same_place(old(machine)),
            goal == given(machine@, pointer, bytes@, i as int),
            goal == given(old(machine)@, pointer, bytes@, 0),
        decreases bytes.len() - i,
    {
        if i as u64 > u64::MAX - pointer {
            return false;
        }
        match user_physical_address(machine, pointer + i as u64, true) {
            None => {
                return false;
            },
            Some(p) => {
                machine.ram[p] = bytes[i];
            },
        }
        i += 1;
    }
    true
}

/// The bytes of a text that ends in a zero, if one comes within `limit`, from
/// the `i`-th on.
pub open spec fn text_at(m: MachineView, pointer: u64, limit: int, i: int) -> Option<Seq<u8>>
    decreases limit - i,
{
    if i < 0 || i >= limit || pointer + i > u64::MAX {
        None
    } else {
        match place(m, (pointer + i) as u64, false) {
            None => None,
            Some(p) => if m.ram[p] == 0 {
                Some(Seq::empty())
            } else {
                match text_at(m, pointer, limit, i + 1) {
                    None => None,
                    Some(rest) => Some(seq![m.ram[p]] + rest),
                }
            },
        }
    }
}

pub(crate) fn copy_cstring(machine: &Machine, pointer: u64, limit: u64) -> (r: Option<Vec<u8>>)
    ensures
        match r {
            Some(bytes) => text_at(machine@, pointer, limit as int, 0) == Some(bytes@),
            None => text_at(machine@, pointer, limit as int, 0) is None,
        },
{
    let mut bytes: Vec<u8> = Vec::new();
    let ghost goal = text_at(machine@, pointer, limit as int, 0);
    let mut i: u64 = 0;
    proof {
        if goal is Some {
            assert(bytes@ + goal->0 =~= goal->0);
        }
    }
    while i < limit
        invariant
            i <= limit,
            goal == text_at(machine@, pointer, limit as int, 0),
            match text_at(machine@, pointer, limit as int, i as int) {
                None => goal is None,
                Some(rest) => goal == Some(bytes@ + rest),
            },
        decreases limit - i,
    {
        if i > u64::MAX - pointer {
            return None;
        }
        match user_physical_address(machine, pointer + i, false) {
            None => {
                return None;
            },
            Some(p) => {
                let byte: u8 = machine.ram[p];
                if byte == 0 {
                    assert(bytes@ + Seq::<u8>::empty() =~= bytes@);
                    return Some(bytes);
                }
                let ghost before = bytes@;
                bytes.push(byte);
                proof {
                    let rest = text_at(machine@, pointer, limit as int, i + 1);
                    if rest is Some {
                        assert(before + (seq![byte] + rest->0) =~= bytes@ + rest->0);
                    }
                }
            },
        }
        i += 1;
    }
    None
}

} // verus!
