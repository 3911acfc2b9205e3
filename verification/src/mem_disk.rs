//! An in-memory block device, the reference implementation of
//! [`DiskOperator`]: a disk image held as one vector of bytes per block.

use crate::codec::{push_bytes, zero_bytes};
use crate::{disk_inv, write_block, DiskOperator, ErrorType};
use vstd::prelude::*;

verus! {

/// An in-memory block device holding `block_count` blocks of `block_size`
/// bytes each, all zero at construction.
pub struct MemDisk {
    block_size: u64,
    block_count: u64,
    blocks: Vec<Vec<u8>>,
}

impl MemDisk {
    /// Builds a zero-filled in-memory device.
    pub fn new(block_size: u64, block_count: u64) -> (r: MemDisk)
        requires
            block_size <= usize::MAX,
            block_count <= usize::MAX,
        ensures
            r.spec_block_size() == block_size,
            r.spec_block_count() == block_count,
            disk_inv(r.disk(), block_size, block_count),
            forall|i: int|
                0 <= i < block_count ==> #[trigger] r.disk()[i] == zero_bytes(block_size as int),
    {
        let mut blocks: Vec<Vec<u8>> = Vec::new();
        let mut i: u64 = 0;
        while i < block_count
            invariant
                i <= block_count,
                block_size <= usize::MAX,
                block_count <= usize::MAX,
                blocks@.len() == i,
                forall|k: int|
                    0 <= k < i ==> (#[trigger] blocks@[k])@ == zero_bytes(block_size as int),
            decreases block_count - i,
        {
            let mut blk: Vec<u8> = Vec::new();
            let mut j: u64 = 0;
            while j < block_size
                invariant
                    j <= block_size,
                    block_size <= usize::MAX,
                    blk@ == zero_bytes(j as int),
                decreases block_size - j,
            {
                blk.push(0u8);
                assert(zero_bytes(j as int) + seq![0u8] =~= zero_bytes(j as int + 1));
                j += 1;
            }
            blocks.push(blk);
            i += 1;
        }
        let r = MemDisk { block_size, block_count, blocks };
        assert forall|k: int| 0 <= k < block_count implies #[trigger] r.disk()[k] == zero_bytes(
            block_size as int,
        ) by {
            assert(r.disk()[k] == r.blocks@[k]@);
        }
        r
    }
}

impl DiskOperator for MemDisk {
    closed spec fn disk(&self) -> Seq<Seq<u8>> {
        self.blocks@.map_values(|b: Vec<u8>| b@)
    }

    closed spec fn spec_block_size(&self) -> u64 {
        self.block_size
    }

    closed spec fn spec_block_count(&self) -> u64 {
        self.block_count
    }

    fn block_size(&self) -> (r: u64) {
        self.block_size
    }

    fn block_count(&self) -> (r: u64) {
        self.block_count
    }

    fn read(&mut self, lba: u64, buffer: &mut Vec<u8>) -> (r: Result<u64, ErrorType>) {
        if lba >= self.block_count {
            return Err(ErrorType::OutOfLbaRange);
        }
        let n = self.blocks.len();
        assert(self.disk().len() == n);
        let lba_us = lba as usize;
        let blk = &self.blocks[lba_us];
        assert(blk@ == self.disk()[lba as int]);
        let len = blk.len();
        let mut out: Vec<u8> = Vec::new();
        let mut i: usize = 0;
        while i < len
            invariant
                i <= len,
                len == blk@.len(),
                out@ == blk@.subrange(0, i as int),
            decreases len - i,
        {
            out.push(blk[i]);
            assert(blk@.subrange(0, i as int) + seq![blk@[i as int]] =~= blk@.subrange(
                0,
                i as int + 1,
            ));
            i += 1;
        }
        assert(out@ =~= blk@);
        *buffer = out;
        Ok(self.block_size)
    }

    fn write(&mut self, lba: u64, buffer: &[u8]) -> (r: Result<(), ErrorType>) {
        if lba >= self.block_count {
            return Err(ErrorType::OutOfLbaRange);
        }
        if buffer.len() as u64 > self.block_size {
            return Err(ErrorType::WriteTooMuch);
        }
        let n = self.blocks.len();
        assert(self.disk().len() == n);
        let lba_us = lba as usize;
        let ghost prior = self.blocks@[lba as int]@;
        assert(prior == old(self).disk()[lba as int]);
        let mut nb: Vec<u8> = Vec::new();
        push_bytes(&mut nb, buffer);
        let len = self.blocks[lba_us].len();
        let mut i: usize = buffer.len();
        while i < len
            invariant
                buffer@.len() <= i <= len,
                len == prior.len(),
                lba <= usize::MAX,
                lba_us == lba as usize,
                lba < self.blocks@.len(),
                self.blocks@[lba as int]@ == prior,
                nb@ == buffer@ + prior.subrange(buffer@.len() as int, i as int),
            decreases len - i,
        {
            let b = self.blocks[lba_us][i];
            nb.push(b);
            assert(buffer@ + prior.subrange(buffer@.len() as int, i as int) + seq![prior[i as int]]
                =~= buffer@ + prior.subrange(buffer@.len() as int, i as int + 1));
            i += 1;
        }
        assert(nb@ =~= write_block(prior, buffer@));
        self.blocks.set(lba_us, nb);
        assert(self.disk() =~= old(self).disk().update(
            lba as int,
            write_block(old(self).disk()[lba as int], buffer@),
        ));
        Ok(())
    }
}

} // verus!
