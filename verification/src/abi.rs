//! The binary interface between programs and the kernel.
use vstd::prelude::*;

verus! {

pub const ABI_VERSION: u32 = 0;

pub const MAX_GROUPS: usize = 8;

pub const MAX_NAME: usize = 256;

#[derive(Clone, Copy, Debug, PartialEq, Eq, Structural)]
pub enum Syscall {
    Read,
    Write,
    OpenAt,
    Close,
    Dup3,
    Pipe2,
    LSeek,
    FStat,
    GetDents,
    MkDirAt,
    UnlinkAt,
    RenameAt,
    TtyIoctl,
    SpawnVe,
    ExecVe,
    WaitPid,
    Exit,
    Kill,
    SigAction,
    Brk,
    MMap,
    MUnmap,
    GetPid,
    GetPpid,
    Yield,
    Socket,
    Connect,
}

/// The number of a system call.
pub open spec fn syscall_number(call: Syscall) -> u16 {
    match call {
        Syscall::Read => 0x0001,
        Syscall::Write => 0x0002,
        Syscall::OpenAt => 0x0003,
        Syscall::Close => 0x0004,
        Syscall::Dup3 => 0x0005,
        Syscall::Pipe2 => 0x0006,
        Syscall::LSeek => 0x0007,
        Syscall::FStat => 0x0008,
        Syscall::GetDents => 0x0009,
        Syscall::MkDirAt => 0x000a,
        Syscall::UnlinkAt => 0x000b,
        Syscall::RenameAt => 0x000c,
        Syscall::TtyIoctl => 0x000d,
        Syscall::SpawnVe => 0x0011,
        Syscall::ExecVe => 0x0012,
        Syscall::WaitPid => 0x0013,
        Syscall::Exit => 0x0014,
        Syscall::Kill => 0x0015,
        Syscall::SigAction => 0x0016,
        Syscall::Brk => 0x0017,
        Syscall::MMap => 0x0018,
        Syscall::MUnmap => 0x0019,
        Syscall::GetPid => 0x001a,
        Syscall::GetPpid => 0x001b,
        Syscall::Yield => 0x001c,
        Syscall::Socket => 0x0020,
        Syscall::Connect => 0x0021,
    }
}

impl Syscall {
    pub fn number(self) -> (r: u16)
        ensures
            r == syscall_number(self),
    {
        match self {
            Syscall::Read => 0x0001,
            Syscall::Write => 0x0002,
            Syscall::OpenAt => 0x0003,
            Syscall::Close => 0x0004,
            Syscall::Dup3 => 0x0005,
            Syscall::Pipe2 => 0x0006,
            Syscall::LSeek => 0x0007,
            Syscall::FStat => 0x0008,
            Syscall::GetDents => 0x0009,
            Syscall::MkDirAt => 0x000a,
            Syscall::UnlinkAt => 0x000b,
            Syscall::RenameAt => 0x000c,
            Syscall::TtyIoctl => 0x000d,
            Syscall::SpawnVe => 0x0011,
            Syscall::ExecVe => 0x0012,
            Syscall::WaitPid => 0x0013,
            Syscall::Exit => 0x0014,
            Syscall::Kill => 0x0015,
            Syscall::SigAction => 0x0016,
            Syscall::Brk => 0x0017,
            Syscall::MMap => 0x0018,
            Syscall::MUnmap => 0x0019,
            Syscall::GetPid => 0x001a,
            Syscall::GetPpid => 0x001b,
            Syscall::Yield => 0x001c,
            Syscall::Socket => 0x0020,
            Syscall::Connect => 0x0021,
        }
    }
}

/// No two system calls share a number.
pub proof fn law_numbers_differ(a: Syscall, b: Syscall)
    requires
        syscall_number(a) == syscall_number(b),
    ensures
        a == b,
{
}

#[derive(Clone, Copy, Debug, PartialEq, Eq, Structural)]
pub struct Errno(pub i32);

impl Errno {
    #[allow(non_snake_case)]
    pub fn IO() -> (r: Self)
        ensures
            r.0 == 5,
    {
        Errno(5)
    }

    #[allow(non_snake_case)]
    pub fn BADF() -> (r: Self)
        ensures
            r.0 == 9,
    {
        Errno(9)
    }

    #[allow(non_snake_case)]
    pub fn INVAL() -> (r: Self)
        ensures
            r.0 == 22,
    {
        Errno(22)
    }

    #[allow(non_snake_case)]
    pub fn NOSYS() -> (r: Self)
        ensures
            r.0 == 38,
    {
        Errno(38)
    }

    /// The value that a call returns for this error.
    pub fn into_return_value(self) -> (r: isize)
        requires
            -self.0 <= isize::MAX,
        ensures
            r == -self.0,
    {
        -(self.0 as isize)
    }

    /// The error that a returned value stands for. The least value stands for
    /// none: it has no opposite.
    pub fn from_return_value(value: isize) -> (r: Option<Self>)
        ensures
            r == errno_of(value),
    {
        if value < 0 && value != isize::MIN {
            Some(Errno(#[verifier::truncate] ((-value) as i32)))
        } else {
            None
        }
    }
}

pub open spec fn errno_of(value: isize) -> Option<Errno> {
    if value < 0 && value != isize::MIN {
        Some(Errno(#[verifier::truncate] ((-value) as i32)))
    } else {
        None
    }
}

/// An error is read back from the value that is returned for it.
pub proof fn law_errno_round_trip(error: Errno)
    requires
        error.0 > 0,
    ensures
        errno_of((-error.0) as isize) == Some(error),
{
}

#[derive(Clone, Copy, Debug, PartialEq, Eq, Structural)]
pub struct Rights(pub u32);

impl Rights {
    #[allow(non_snake_case)]
    pub fn READ() -> (r: Self)
        ensures
            r.0 == 1,
    {
        Rights(1)
    }

    #[allow(non_snake_case)]
    pub fn WRITE() -> (r: Self)
        ensures
            r.0 == 2,
    {
        Rights(2)
    }

    #[allow(non_snake_case)]
    pub fn EXECUTE() -> (r: Self)
        ensures
            r.0 == 4,
    {
        Rights(4)
    }

    #[allow(non_snake_case)]
    pub fn TRANSFER() -> (r: Self)
        ensures
            r.0 == 8,
    {
        Rights(8)
    }

    #[allow(non_snake_case)]
    pub fn MOUNT() -> (r: Self)
        ensures
            r.0 == 16,
    {
        Rights(16)
    }

    #[allow(non_snake_case)]
    pub fn DEVICE() -> (r: Self)
        ensures
            r.0 == 32,
    {
        Rights(32)
    }

    #[allow(non_snake_case)]
    pub fn PROCESS_ADMIN() -> (r: Self)
        ensures
            r.0 == 64,
    {
        Rights(64)
    }

    #[allow(non_snake_case)]
    pub fn CONNECT() -> (r: Self)
        ensures
            r.0 == 128,
    {
        Rights(128)
    }

    /// Whether all the required rights are among these.
    pub open spec fn has(self, required: Rights) -> bool {
        self.0 & required.0 == required.0
    }

    pub fn contains(self, required: Self) -> (r: bool)
        ensures
            r == self.has(required),
    {
        self.0 & required.0 == required.0
    }

    /// These rights and those of `other`.
    pub fn bitor_assign(&mut self, other: Self)
        ensures
            final(self).0 == old(self).0 | other.0,
    {
        self.0 = self.0 | other.0;
    }
}

impl core::ops::BitOr for Rights {
    type Output = Rights;

    fn bitor(self, rhs: Self) -> (r: Rights) {
        Rights(self.0 | rhs.0)
    }
}

impl vstd::std_specs::ops::BitOrSpecImpl for Rights {
    open spec fn obeys_bitor_spec() -> bool {
        true
    }

    open spec fn bitor_req(self, rhs: Rights) -> bool {
        true
    }

    open spec fn bitor_spec(self, rhs: Rights) -> Rights {
        Rights(self.0 | rhs.0)
    }
}

/// Rights put together hold those of each, and nothing that neither has.
pub proof fn law_rights_compose(a: Rights, b: Rights, required: Rights)
    ensures
        Rights(a.0 | b.0).has(a),
        Rights(a.0 | b.0).has(b),
        a.has(required) ==> Rights(a.0 | b.0).has(required),
        required.0 != 0 && a.0 & required.0 == 0 && b.0 & required.0 == 0 ==> !Rights(
            a.0 | b.0,
        ).has(required),
{
    let x = a.0;
    let y = b.0;
    let z = required.0;
    assert((x | y) & x == x && (x | y) & y == y) by (bit_vector);
    assert(x & z == z ==> (x | y) & z == z) by (bit_vector);
    assert(x & z == 0 && y & z == 0 ==> (x | y) & z == 0) by (bit_vector);
}

#[derive(Clone, Copy, Debug, PartialEq, Eq, Structural)]
pub struct CapabilityId(pub u64);

impl CapabilityId {
    #[allow(non_snake_case)]
    pub fn INVALID() -> (r: Self)
        ensures
            r.0 == 0,
    {
        CapabilityId(0)
    }

    pub fn from_parts(slot: u32, generation: u32) -> (r: Self)
        ensures
            r.0 == generation * 0x1_0000_0000 + slot,
    {
        CapabilityId(generation as u64 * 0x1_0000_0000 + slot as u64)
    }

    pub fn slot(self) -> (r: u32)
        ensures
            r == self.0 % 0x1_0000_0000,
    {
        (self.0 % 0x1_0000_0000) as u32
    }

    pub fn generation(self) -> (r: u32)
        ensures
            r == self.0 / 0x1_0000_0000,
    {
        (self.0 / 0x1_0000_0000) as u32
    }

    pub fn is_invalid(self) -> (r: bool)
        ensures
            r == (self.0 == 0),
    {
        self.0 == 0
    }
}

/// A capability keeps its slot and its generation, and is made of them.
pub proof fn law_capability_parts(slot: u32, generation: u32, id: u64)
    ensures
        ({
            let made = generation * 0x1_0000_0000 + slot;
            &&& made <= u64::MAX
            &&& made % 0x1_0000_0000 == slot
            &&& made / 0x1_0000_0000 == generation
            &&& (made == 0 <==> slot == 0 && generation == 0)
        }),
        id / 0x1_0000_0000 * 0x1_0000_0000 + id % 0x1_0000_0000 == id,
{
}

#[derive(Clone, Copy, Debug)]
pub struct Credentials {
    pub uid: u32,
    pub gid: u32,
    pub groups: [u32; MAX_GROUPS],
    pub group_count: u8,
    pub umask: u16,
}

/// Those of the administrator.
pub open spec fn root_credentials() -> Credentials {
    Credentials { uid: 0, gid: 0, groups: [0, 0, 0, 0, 0, 0, 0, 0], group_count: 1, umask: 0o022 }
}

/// Those of the ordinary user.
pub open spec fn vanta_credentials() -> Credentials {
    Credentials {
        uid: 1000,
        gid: 1000,
        groups: [1000, 0, 0, 0, 0, 0, 0, 0],
        group_count: 1,
        umask: 0o022,
    }
}

impl Credentials {
    pub fn root() -> (r: Self)
        ensures
            r == root_credentials(),
            r.uid == 0,
            r.gid == 0,
            r.groups@ == seq![0u32, 0u32, 0u32, 0u32, 0u32, 0u32, 0u32, 0u32],
            r.group_count == 1,
            r.umask == 0o022,
    {
        let groups: [u32; MAX_GROUPS] = [0, 0, 0, 0, 0, 0, 0, 0];
        assert(groups@ =~= seq![0u32, 0u32, 0u32, 0u32, 0u32, 0u32, 0u32, 0u32]);
        Credentials { uid: 0, gid: 0, groups, group_count: 1, umask: 0o022 }
    }

    pub fn vanta() -> (r: Self)
        ensures
            r == vanta_credentials(),
            r.uid == 1000,
            r.gid == 1000,
            r.groups@ == seq![1000u32, 0u32, 0u32, 0u32, 0u32, 0u32, 0u32, 0u32],
            r.group_count == 1,
            r.umask == 0o022,
    {
        let groups: [u32; MAX_GROUPS] = [1000, 0, 0, 0, 0, 0, 0, 0];
        assert(groups@ =~= seq![1000u32, 0u32, 0u32, 0u32, 0u32, 0u32, 0u32, 0u32]);
        Credentials { uid: 1000, gid: 1000, groups, group_count: 1, umask: 0o022 }
    }

    pub fn is_root(&self) -> (r: bool)
        ensures
            r == (self.uid == 0),
    {
        self.uid == 0
    }
}

/// Optional parts of the interface, one bit each.
#[derive(Clone, Copy, Debug, PartialEq, Eq, Structural)]
pub struct FeatureSet(pub u64);

#[allow(non_snake_case)]
pub fn FEATURE_NATIVE_TERMINAL() -> (r: FeatureSet)
    ensures
        r.0 == 1,
{
    FeatureSet(1)
}

#[allow(non_snake_case)]
pub fn FEATURE_REDOXFS_ROOT() -> (r: FeatureSet)
    ensures
        r.0 == 2,
{
    FeatureSet(2)
}

#[allow(non_snake_case)]
pub fn SUPPORTED_FEATURES() -> (r: FeatureSet)
    ensures
        r.0 == 3,
{
    FeatureSet(3)
}

impl FeatureSet {
    #[allow(non_snake_case)]
    pub fn EMPTY() -> (r: Self)
        ensures
            r.0 == 0,
    {
        FeatureSet(0)
    }

    pub fn bits(self) -> (r: u64)
        ensures
            r == self.0,
    {
        self.0
    }

    pub fn contains(self, other: Self) -> (r: bool)
        ensures
            r == (self.0 & other.0 == other.0),
    {
        self.0 & other.0 == other.0
    }

    /// The features that are required and not among these.
    pub fn unknown_mandatory_bits(self, mandatory: Self) -> (r: Self)
        ensures
            r.0 == mandatory.0 & !self.0,
    {
        FeatureSet(mandatory.0 & !self.0)
    }
}

/// Nothing that is required is unknown exactly if all of it is there.
pub proof fn law_features_known(known: FeatureSet, mandatory: FeatureSet)
    ensures
        mandatory.0 & !known.0 == 0 <==> known.0 & mandatory.0 == mandatory.0,
{
    let k = known.0;
    let m = mandatory.0;
    assert(m & !k == 0 <==> k & m == m) by (bit_vector);
}

/// What to do on a signal.
#[derive(Clone, Copy, Debug, PartialEq, Eq, Structural)]
pub struct SignalAction {
    pub handler: u64,
    pub flags: u64,
}

/// One entry of a directory listing.
#[derive(Clone, Copy, Debug)]
pub struct DirectoryRecord {
    pub inode: u64,
    pub kind: u32,
    pub name_len: u32,
    pub name: [u8; MAX_NAME],
}

impl DirectoryRecord {
    pub fn empty(inode: u64, kind: u32) -> (r: Self)
        ensures
            r.inode == inode,
            r.kind == kind,
            r.name_len == 0,
            forall|i: int| 0 <= i < 256 ==> r.name@[i] == 0,
    {
        DirectoryRecord { inode, kind, name_len: 0, name: [0; MAX_NAME] }
    }

    /// Stores a name; what does not fit is cut off.
    pub fn set_name(&mut self, name: &[u8])
        ensures
            final(self).inode == old(self).inode,
            final(self).kind == old(self).kind,
            final(self).name_len == if name.len() < 256 {
                name.len() as int
            } else {
                256
            },
            forall|i: int|
                0 <= i < 256 ==> final(self).name@[i] == if i < name.len() {
                    name@[i]
                } else {
                    0
                },
    {
        let mut stored: [u8; MAX_NAME] = [0; MAX_NAME];
        let mut i: usize = 0;
        while i < name.len() && i < MAX_NAME
            invariant
                i <= 256,
                i <= name.len(),
                forall|j: int|
                    0 <= j < 256 ==> stored@[j] == if j < i {
                        name@[j]
                    } else {
                        0
                    },
            decreases 256 - i,
        {
            stored[i] = name[i];
            i += 1;
        }
        self.name = stored;
        self.name_len = i as u32;
    }
}

} // verus!
