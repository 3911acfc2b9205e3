//! A minimal on-disk filesystem engine for block-addressable storage.
//!
//! The engine defines the on-disk layout (superblock, free-space bitmap,
//! directory/file/data-block records) and the algorithms that create and
//! allocate them, over an abstract block device reached through the
//! [`DiskOperator`] trait.

use vstd::prelude::*;

pub mod codec;
pub mod hong_wu;
pub mod mem_disk;

verus! {

/// Errors reported by a block device implementation.
#[derive(Clone, Debug)]
pub enum ErrorType {
    /// The requested logical block address lies beyond the device.
    OutOfLbaRange,
    /// The buffer handed to a write is longer than one block.
    WriteTooMuch,
    /// Any other device failure, reported as a message.
    UndefinedError(String),
}

/// Errors reported by the filesystem operations themselves.
#[derive(Clone, Debug)]
pub enum FsError {
    /// The device is below the minimum of 512-byte blocks and 16 blocks.
    DeviceTooSmall,
    /// Every block below the device's block count is already occupied.
    NoFreeSpace,
    /// A name is longer than the 256-byte record field that holds it.
    NameTooLong,
    /// The underlying device failed.
    Device(ErrorType),
}

/// A device's contents are well formed when it holds exactly `block_count`
/// blocks of exactly `block_size` bytes each.
pub open spec fn disk_inv(disk: Seq<Seq<u8>>, block_size: u64, block_count: u64) -> bool {
    &&& disk.len() == block_count
    &&& forall|i: int| 0 <= i < disk.len() ==> (#[trigger] disk[i]).len() == block_size
}

/// The contents of a block after `bytes` is written at its start: the write
/// replaces the block's prefix and leaves the rest of the block unchanged.
pub open spec fn write_block(block: Seq<u8>, bytes: Seq<u8>) -> Seq<u8> {
    bytes + block.skip(bytes.len() as int)
}

/// The interface to a block-addressable storage device, consumed by the
/// filesystem and implemented by its host (a simulated disk, an image file,
/// a driver).
///
/// A device is a sequence of `block_count` logical blocks of `block_size`
/// bytes each, addressed by logical block address (LBA). Reads and writes
/// are synchronous and complete before the call returns; a failed write
/// leaves the device unchanged.
pub trait DiskOperator: Sized {
    /// The current contents of the device, one sequence of bytes per block.
    spec fn disk(&self) -> Seq<Seq<u8>>;

    /// The number of bytes in one logical block.
    spec fn spec_block_size(&self) -> u64;

    /// The number of logical blocks the device holds.
    spec fn spec_block_count(&self) -> u64;

    /// Returns the logical block size in bytes.
    fn block_size(&self) -> (r: u64)
        ensures
            r == self.spec_block_size(),
    ;

    /// Returns the number of logical blocks.
    fn block_count(&self) -> (r: u64)
        ensures
            r == self.spec_block_count(),
    ;

    /// Reads the block at `lba` into `buffer`, replacing its contents, and
    /// returns the number of bytes read.
    fn read(&mut self, lba: u64, buffer: &mut Vec<u8>) -> (r: Result<u64, ErrorType>)
        requires
            disk_inv(old(self).disk(), old(self).spec_block_size(), old(self).spec_block_count()),
        ensures
            final(self).spec_block_size() == old(self).spec_block_size(),
            final(self).spec_block_count() == old(self).spec_block_count(),
            final(self).disk() == old(self).disk(),
            r matches Ok(n) ==> {
                &&& lba < old(self).spec_block_count()
                &&& n == old(self).spec_block_size()
                &&& final(buffer)@ == old(self).disk()[lba as int]
            },
    ;

    /// Writes `buffer` at the start of the block at `lba`; the rest of the
    /// block keeps its previous contents. A failed write changes nothing.
    fn write(&mut self, lba: u64, buffer: &[u8]) -> (r: Result<(), ErrorType>)
        requires
            disk_inv(old(self).disk(), old(self).spec_block_size(), old(self).spec_block_count()),
        ensures
            final(self).spec_block_size() == old(self).spec_block_size(),
            final(self).spec_block_count() == old(self).spec_block_count(),
            r matches Ok(u) ==> {
                &&& lba < old(self).spec_block_count()
                &&& buffer@.len() <= old(self).spec_block_size()
                &&& final(self).disk() == old(self).disk().update(
                    lba as int,
                    write_block(old(self).disk()[lba as int], buffer@),
                )
            },
            r matches Err(e) ==> final(self).disk() == old(self).disk(),
    ;
}

/// Writing at most one block's worth of bytes keeps the device well formed.
pub proof fn lemma_write_block_preserves_inv(
    disk: Seq<Seq<u8>>,
    block_size: u64,
    block_count: u64,
    lba: int,
    bytes: Seq<u8>,
)
    requires
        disk_inv(disk, block_size, block_count),
        0 <= lba < disk.len(),
        bytes.len() <= block_size,
    ensures
        disk_inv(disk.update(lba, write_block(disk[lba], bytes)), block_size, block_count),
{
    let updated = disk.update(lba, write_block(disk[lba], bytes));
    assert forall|i: int| 0 <= i < updated.len() implies (#[trigger] updated[i]).len()
        == block_size by {
        if i == lba {
            assert(write_block(disk[lba], bytes).len() == block_size);
        }
    }
}

} // verus!
