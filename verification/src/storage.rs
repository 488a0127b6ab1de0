//! Storage that is read and written by sectors.
use vstd::prelude::*;

use crate::bytes::{holds_at, push_zeros};
use crate::gpt::{self, GptError, RootPartition};

verus! {

pub const SECTOR_SIZE: usize = 512;

#[derive(Clone, Copy, Debug, PartialEq, Eq, Structural)]
pub enum StorageError {
    OutOfBounds,
    AllocationFailed,
    DeviceUnavailable,
    IoFailed,
    GptMissingRoot,
    GptInvalid,
}

pub trait BlockDevice {
    /// What a read of a sector gives.
    spec fn sector(&self, sector: u64) -> Result<Seq<u8>, StorageError>;

    spec fn sectors(&self) -> u64;

    fn sector_count(&self) -> (r: u64)
        ensures
            r == self.sectors(),
    ;

    fn read_sector(&self, sector: u64, buffer: &mut [u8; SECTOR_SIZE]) -> (r: Result<
        (),
        StorageError,
    >)
        ensures
            match r {
                Ok(_) => self.sector(sector) == Ok::<Seq<u8>, StorageError>(final(buffer)@),
                Err(e) => self.sector(sector) == Err::<Seq<u8>, StorageError>(e),
            },
    ;

    fn write_sector(&mut self, sector: u64, buffer: &[u8; SECTOR_SIZE]) -> (r: Result<
        (),
        StorageError,
    >)
        ensures
            final(self).sectors() == old(self).sectors(),
            r is Ok ==> forall|s: u64| #[trigger]
                final(self).sector(s) == if s == sector {
                    Ok::<Seq<u8>, StorageError>(buffer@)
                } else {
                    old(self).sector(s)
                },
    ;
}

/// The sectors of a device, as far as they can be read.
pub open spec fn readable<D: BlockDevice>(device: &D) -> spec_fn(u64) -> Option<Seq<u8>> {
    |lba: u64|
        match device.sector(lba) {
            Ok(s) => Some(s),
            Err(_) => None,
        }
}

/// The root partition of a device.
pub fn discover_vanta_root<D: BlockDevice>(device: &D) -> (r: Result<RootPartition, StorageError>)
    ensures
        match gpt::root_on_disk(readable(device)) {
            Ok(root) => r == Ok::<RootPartition, StorageError>(root),
            Err(GptError::MissingRoot) => r == Err::<RootPartition, StorageError>(
                StorageError::GptMissingRoot,
            ),
            Err(_) => r == Err::<RootPartition, StorageError>(StorageError::GptInvalid),
        },
{
    let read = |lba: u64| -> (s: Result<[u8; SECTOR_SIZE], ()>)
        ensures
            match s {
                Ok(bytes) => readable(device)(lba) == Some(bytes@),
                Err(_) => readable(device)(lba) is None,
            },
        {
            let mut buffer: [u8; SECTOR_SIZE] = [0; SECTOR_SIZE];
            match device.read_sector(lba, &mut buffer) {
                Ok(_) => Ok(buffer),
                Err(_) => Err(()),
            }
        };
    assert(gpt::reads_as(read, readable(device)));
    match gpt::discover_vanta_root(read) {
        Ok(root) => Ok(root),
        Err(e) => match e {
            GptError::MissingRoot => Err(StorageError::GptMissingRoot),
            _ => Err(StorageError::GptInvalid),
        },
    }
}

/// Whether a device starts like one with a partition table.
pub fn has_gpt_signature<D: BlockDevice>(device: &D) -> (r: bool)
    ensures
        r == (device.sector(1) matches Ok(s) && s.subrange(0, 8) == gpt::signature()),
{
    let mut buffer: [u8; SECTOR_SIZE] = [0; SECTOR_SIZE];
    let signature: [u8; 8] = [0x45, 0x46, 0x49, 0x20, 0x50, 0x41, 0x52, 0x54];
    assert(signature@ =~= gpt::signature());
    match device.read_sector(1, &mut buffer) {
        Ok(_) => holds_at(buffer.as_slice(), 0, signature.as_slice()),
        Err(_) => false,
    }
}

/// A disk in memory.
pub struct RamDisk {
    sectors: u64,
    data: Vec<u8>,
}

impl RamDisk {
    #[verifier::type_invariant]
    spec fn whole(self) -> bool {
        self.data.len() == self.sectors * 512
    }

    /// A disk of zeros, if it fits in memory.
    pub fn new(sectors: u64) -> (r: Result<Self, StorageError>)
        ensures
            r is Ok <==> sectors * 512 <= usize::MAX,
            r matches Ok(disk) ==> disk.sectors() == sectors && forall|s: u64| #[trigger]
                disk.sector(s) == if s < sectors {
                    Ok::<Seq<u8>, StorageError>(crate::bytes::zeros(512))
                } else {
                    Err::<Seq<u8>, StorageError>(StorageError::OutOfBounds)
                },
            r matches Err(e) ==> e == StorageError::AllocationFailed,
    {
        if sectors > usize::MAX as u64 / 512 {
            return Err(StorageError::AllocationFailed);
        }
        let mut data: Vec<u8> = Vec::new();
        push_zeros(&mut data, sectors as usize * SECTOR_SIZE);
        let disk = RamDisk { sectors, data };
        assert forall|s: u64| #[trigger] disk.sector(s) == if s < sectors {
            Ok::<Seq<u8>, StorageError>(crate::bytes::zeros(512))
        } else {
            Err::<Seq<u8>, StorageError>(StorageError::OutOfBounds)
        } by {
            if s < sectors {
                assert(s * 512 + 512 <= sectors * 512);
                assert(disk.data@.subrange(s * 512, s * 512 + 512) =~= crate::bytes::zeros(512));
            }
        }
        Ok(disk)
    }
}

impl BlockDevice for RamDisk {
    closed spec fn sector(&self, sector: u64) -> Result<Seq<u8>, StorageError> {
        if sector < self.sectors {
            Ok(self.data@.subrange(sector * 512, sector * 512 + 512))
        } else {
            Err(StorageError::OutOfBounds)
        }
    }

    closed spec fn sectors(&self) -> u64 {
        self.sectors
    }

    fn sector_count(&self) -> (r: u64) {
        self.sectors
    }

    fn read_sector(&self, sector: u64, buffer: &mut [u8; SECTOR_SIZE]) -> (r: Result<
        (),
        StorageError,
    >)
        ensures
            r is Ok <==> sector < self.sectors(),
    {
        proof {
            use_type_invariant(&*self);
        }
        if sector >= self.sectors {
            return Err(StorageError::OutOfBounds);
        }
        let start: usize = sector as usize * SECTOR_SIZE;
        let mut i: usize = 0;
        while i < SECTOR_SIZE
            invariant
                i <= 512,
                start == sector * 512,
                start + 512 <= self.data.len(),
                forall|j: int| 0 <= j < i ==> buffer@[j] == self.data@[start + j],
            decreases 512 - i,
        {
            buffer[i] = self.data[start + i];
            i += 1;
        }
        assert(buffer@ =~= self.data@.subrange(sector * 512, sector * 512 + 512));
        Ok(())
    }

    fn write_sector(&mut self, sector: u64, buffer: &[u8; SECTOR_SIZE]) -> (r: Result<
        (),
        StorageError,
    >)
        ensures
            r is Ok <==> sector < old(self).sectors(),
            r matches Err(e) ==> e == StorageError::OutOfBounds && *final(self) == *old(self),
    {
        proof {
            use_type_invariant(&*self);
        }
        if sector >= self.sectors {
            return Err(StorageError::OutOfBounds);
        }
        let start: usize = sector as usize * SECTOR_SIZE;
        let ghost before = self.data@;
        let ghost whole = self.sectors;
        let mut i: usize = 0;
        while i < SECTOR_SIZE
            invariant
                i <= 512,
                start == sector * 512,
                start + 512 <= self.data.len(),
                self.data@.len() == before.len(),
                self.data.len() == self.sectors * 512,
                self.sectors == whole,
                forall|j: int|
                    0 <= j < before.len() ==> self.data@[j] == if start <= j < start + i {
                        buffer@[j - start]
                    } else {
                        before[j]
                    },
            decreases 512 - i,
        {
            self.data[start + i] = buffer[i];
            i += 1;
        }
        assert forall|s: u64| #[trigger] self.sector(s) == if s == sector {
            Ok::<Seq<u8>, StorageError>(buffer@)
        } else {
            old(self).sector(s)
        } by {
            if s < whole {
                let a = self.data@.subrange(s * 512, s * 512 + 512);
                if s == sector {
                    assert(a =~= buffer@);
                } else {
                    assert(a =~= before.subrange(s * 512, s * 512 + 512));
                }
            }
        }
        Ok(())
    }
}

} // verus!
