//! The filesystem handle: the superblock manager, the free-space bitmap
//! allocator, and the directory and file builders.

use crate::codec::{
    decode_data_block, encode_data_block, encode_directory, encode_file, encode_super_block,
    push_zeros, spec_decode_data_block, spec_encode_data_block, spec_encode_directory,
    spec_encode_file, spec_encode_super_block, spec_pad_name, zero_bytes, DataBlock,
    DataBlockView, Directory, DirectoryView, File, FileView, FsId, SuperBlock,
};
use crate::{disk_inv, write_block, DiskOperator, FsError};
use vstd::arithmetic::div_mod::{
    lemma_fundamental_div_mod, lemma_fundamental_div_mod_converse,
    lemma_mod_division_less_than_divisor,
};
use vstd::prelude::*;
use vstd::slice::slice_to_vec;

verus! {

/// The filesystem version that format writes.
pub const VERSION_MARK: u64 = 1;

/// The smallest block size the filesystem accepts, in bytes.
pub const MIN_BLOCK_SIZE: u64 = 512;

/// The smallest block count the filesystem accepts.
pub const MIN_BLOCK_COUNT: u64 = 16;

/// The number of blocks the occupancy bitmap needs: one bit per block,
/// rounded up to whole blocks.
pub open spec fn spec_map_blocks(block_size: u64, block_count: u64) -> int {
    (block_count + 8 * block_size - 1) / (8 * block_size)
}

/// Whether bit `i` of byte `b` is set, counting from the least significant.
pub open spec fn byte_bit(b: u8, i: int) -> bool
    recommends
        0 <= i < 8,
{
    (b >> (i as u8)) & 1 == 1
}

/// Occupancy bit `n` of the bitmap that starts at LBA `map_address`: bit
/// `n % 8` of byte `(n % (8 * block_size)) / 8` of bitmap block
/// `n / (8 * block_size)`, LSB first.
pub open spec fn spec_bitmap_bit(
    disk: Seq<Seq<u8>>,
    block_size: u64,
    map_address: u64,
    n: int,
) -> bool {
    let bpb = 8 * block_size as int;
    byte_bit(disk[map_address + n / bpb][(n % bpb) / 8], n % 8)
}

/// One allocation over an abstract occupancy bitmap: `lba` is the first
/// free bit in scan order, and the step sets exactly that bit.
pub open spec fn alloc_step(pre: Seq<bool>, lba: int, post: Seq<bool>) -> bool {
    &&& 0 <= lba < pre.len()
    &&& !pre[lba]
    &&& forall|j: int| 0 <= j < lba ==> pre[j]
    &&& post == pre.update(lba, true)
}

/// Two successive allocations never hand out the same block: the first
/// leaves its bit set, and the second only claims a free bit.
pub proof fn lemma_no_double_allocation(
    b0: Seq<bool>,
    l1: int,
    b1: Seq<bool>,
    l2: int,
    b2: Seq<bool>,
)
    requires
        alloc_step(b0, l1, b1),
        alloc_step(b1, l2, b2),
    ensures
        l1 != l2,
{
    assert(b1[l1]);
}

/// No allocation hands out a reserved block: while bits 0 and 1 stay set,
/// an allocation returns neither LBA 0 nor LBA 1, and leaves both set.
pub proof fn lemma_reserved_blocks_kept(b0: Seq<bool>, lba: int, b1: Seq<bool>)
    requires
        b0.len() >= 2,
        b0[0],
        b0[1],
        alloc_step(b0, lba, b1),
    ensures
        lba != 0,
        lba != 1,
        b1[0],
        b1[1],
{
}

/// An allocation is durable and monotone: it sets the claimed bit and
/// clears none, so bits set by one call remain set afterwards.
pub proof fn lemma_allocation_monotone(b0: Seq<bool>, lba: int, b1: Seq<bool>)
    requires
        alloc_step(b0, lba, b1),
    ensures
        b1.len() == b0.len(),
        b1[lba],
        forall|j: int| 0 <= j < b0.len() && b0[j] ==> b1[j],
{
}

/// Once every bit of the bitmap is set, no allocation step exists at all.
pub proof fn lemma_exhaustion(b: Seq<bool>)
    requires
        forall|j: int| 0 <= j < b.len() ==> b[j],
    ensures
        forall|lba: int, post: Seq<bool>| !(#[trigger] alloc_step(b, lba, post)),
{
}

/// Bounds of the bitmap size computed by format: at least one block, enough
/// bits for every block, still leaving most of the device free, and small
/// enough that the computation itself fits in a `u64`.
proof fn lemma_map_blocks_bounds(block_size: u64, block_count: u64)
    requires
        block_size >= 512,
        block_count >= 16,
        block_size * block_count <= u64::MAX,
    ensures
        1 <= spec_map_blocks(block_size, block_count),
        block_count <= spec_map_blocks(block_size, block_count) * (8 * block_size),
        spec_map_blocks(block_size, block_count) * (8 * block_size) <= block_count + 8 * block_size
            - 1,
        1 + spec_map_blocks(block_size, block_count) <= block_count,
        block_count + 8 * block_size <= u64::MAX,
        8 * block_size <= u64::MAX,
{
    let s = block_size as int;
    let c = block_count as int;
    let b = 8 * s;
    let q = spec_map_blocks(block_size, block_count);
    assert(c * 512 <= c * s && 16 * s <= c * s) by (nonlinear_arith)
        requires
            s >= 512,
            c >= 16,
    ;
    assert(c + b <= u64::MAX) by (nonlinear_arith)
        requires
            c * 512 <= u64::MAX,
            16 * s <= u64::MAX,
            b == 8 * s,
            c >= 16,
            s >= 512,
    ;
    lemma_fundamental_div_mod(c + b - 1, b);
    lemma_mod_division_less_than_divisor(c + b - 1, b);
    let r = (c + b - 1) % b;
    assert(c + b - 1 == b * q + r);
    assert(q * b >= c && q * b <= c + b - 1) by (nonlinear_arith)
        requires
            c + b - 1 == b * q + r,
            0 <= r < b,
    ;
    assert(q >= 1) by (nonlinear_arith)
        requires
            q * b >= c,
            c >= 16,
            b >= 4096,
    ;
    // 1 + q <= c: from b * q <= c + b - 1 and b >= 4096, c >= 16.
    assert(1 + q <= c) by (nonlinear_arith)
        requires
            b * q + r == c + b - 1,
            0 <= r,
            b >= 4096,
            c >= 16,
            q >= 1,
    ;
}

/// Every bit position `n` splits uniquely into a bitmap block, a byte of
/// that block, and a bit of that byte.
proof fn lemma_bit_position(block_size: u64, n: int)
    requires
        block_size >= 1,
        0 <= n,
    ensures
        ({
            let bpb = 8 * block_size as int;
            let blk = n / bpb;
            let byte = (n % bpb) / 8;
            let bit = n % 8;
            &&& 0 <= blk
            &&& 0 <= byte < block_size
            &&& 0 <= bit < 8
            &&& n == blk * bpb + byte * 8 + bit
            &&& (n < bpb ==> blk == 0)
        }),
{
    let s = block_size as int;
    let bpb = 8 * s;
    lemma_fundamental_div_mod(n, bpb);
    lemma_mod_division_less_than_divisor(n, bpb);
    let blk = n / bpb;
    let r = n % bpb;
    lemma_fundamental_div_mod(r, 8);
    lemma_mod_division_less_than_divisor(r, 8);
    let byte = r / 8;
    assert(blk >= 0) by (nonlinear_arith)
        requires
            n == bpb * blk + r,
            0 <= r < bpb,
            n >= 0,
            bpb > 0,
    ;
    assert(byte < s) by (nonlinear_arith)
        requires
            r == 8 * byte + r % 8,
            0 <= r % 8 < 8,
            r < 8 * s,
    ;
    assert(byte >= 0) by (nonlinear_arith)
        requires
            r == 8 * byte + r % 8,
            0 <= r % 8 < 8,
            r >= 0,
    ;
    // n % 8 == r % 8 because bpb * blk is a multiple of 8.
    assert(n == 8 * (s * blk + byte) + r % 8 && s * blk + byte >= 0) by (nonlinear_arith)
        requires
            n == bpb * blk + r,
            bpb == 8 * s,
            r == 8 * byte + r % 8,
            blk >= 0,
            byte >= 0,
            s >= 1,
    ;
    lemma_fundamental_div_mod_converse(n, 8, s * blk + byte, r % 8);
    assert(n == blk * bpb + byte * 8 + n % 8) by (nonlinear_arith)
        requires
            n == bpb * blk + r,
            r == 8 * byte + r % 8,
            n % 8 == r % 8,
    ;
    if n < bpb {
        vstd::arithmetic::div_mod::lemma_basic_div(n, bpb);
    }
}

/// The composition of a bit position from its block, byte and bit indices
/// inverts the decomposition of `lemma_bit_position`.
proof fn lemma_bit_position_converse(block_size: u64, blk: int, byte: int, bit: int)
    requires
        block_size >= 1,
        0 <= blk,
        0 <= byte < block_size,
        0 <= bit < 8,
    ensures
        ({
            let bpb = 8 * block_size as int;
            let n = blk * bpb + byte * 8 + bit;
            &&& 0 <= n
            &&& n / bpb == blk
            &&& (n % bpb) / 8 == byte
            &&& n % 8 == bit
        }),
{
    let s = block_size as int;
    let bpb = 8 * s;
    let n = blk * bpb + byte * 8 + bit;
    assert(0 <= byte * 8 + bit < bpb && n == bpb * blk + (byte * 8 + bit) && n >= 0 && n == 8 * (s
        * blk + byte) + bit && s * blk + byte >= 0) by (nonlinear_arith)
        requires
            n == blk * bpb + byte * 8 + bit,
            bpb == 8 * s,
            0 <= byte < s,
            0 <= bit < 8,
            0 <= blk,
    ;
    lemma_fundamental_div_mod_converse(n, bpb, blk, byte * 8 + bit);
    lemma_fundamental_div_mod_converse(byte * 8 + bit, 8, byte, bit);
    lemma_fundamental_div_mod_converse(n, 8, s * blk + byte, bit);
}

/// The filesystem handle: exclusive owner of one block device and of the
/// in-memory superblock that format stores.
pub struct HongWu<D: DiskOperator> {
    operator: D,
    super_block: Option<SuperBlock>,
}

impl<D: DiskOperator> HongWu<D> {
    /// The device the handle owns.
    pub closed spec fn device(&self) -> D {
        self.operator
    }

    /// The in-memory superblock, if format has run.
    pub closed spec fn spec_super_block(&self) -> Option<SuperBlock> {
        self.super_block
    }

    /// The current contents of the device.
    pub open spec fn disk(&self) -> Seq<Seq<u8>> {
        self.device().disk()
    }

    /// The device's block size in bytes.
    pub open spec fn block_size(&self) -> u64 {
        self.device().spec_block_size()
    }

    /// The device's block count.
    pub open spec fn block_count(&self) -> u64 {
        self.device().spec_block_count()
    }

    /// Whether format has stored a superblock.
    pub open spec fn is_formatted(&self) -> bool {
        self.spec_super_block() is Some
    }

    /// The stored superblock.
    pub open spec fn super_block(&self) -> SuperBlock
        recommends
            self.is_formatted(),
    {
        self.spec_super_block()->Some_0
    }

    /// The occupancy bitmap the device holds: one bit per LBA, read from
    /// the bitmap blocks that follow the superblock.
    pub open spec fn bitmap(&self) -> Seq<bool> {
        Seq::new(
            self.block_count() as nat,
            |n: int| spec_bitmap_bit(self.disk(), self.block_size(), 1, n),
        )
    }

    /// The device meets the filesystem's minimum constraints and is well
    /// formed: blocks of at least 512 bytes, at least 16 of them, a total
    /// byte length that fits in a `u64`, and a block size a buffer can hold.
    pub open spec fn device_wf(&self) -> bool {
        &&& self.block_size() >= 512
        &&& self.block_count() >= 16
        &&& self.block_size() * self.block_count() <= u64::MAX
        &&& self.block_size() <= usize::MAX
        &&& disk_inv(self.disk(), self.block_size(), self.block_count())
    }

    /// The stored superblock matches the device and the on-disk state:
    /// format computed its fields, the superblock and bitmap fit on the
    /// device, every LBA has a bit, and the two reserved bits are set.
    pub open spec fn formatted_wf(&self) -> bool
        recommends
            self.is_formatted(),
    {
        let sb = self.super_block();
        &&& sb.version == VERSION_MARK
        &&& sb.length == self.block_size() * self.block_count()
        &&& sb.map_address == 1
        &&& sb.map_length == spec_map_blocks(self.block_size(), self.block_count())
        &&& 1 + sb.map_length <= self.block_count()
        &&& self.block_count() <= sb.map_length * (8 * self.block_size() as int)
        &&& self.bitmap()[0]
        &&& self.bitmap()[1]
    }

    /// The handle's invariant: the device is well formed, and so is the
    /// superblock once format has stored one.
    pub open spec fn wf(&self) -> bool {
        &&& self.device_wf()
        &&& self.is_formatted() ==> self.formatted_wf()
    }

    /// Builds a filesystem handle over `operator`, rejecting a device with
    /// blocks smaller than 512 bytes or fewer than 16 blocks before any
    /// I/O is issued.
    pub fn new(operator: D) -> (r: Result<HongWu<D>, FsError>)
        requires
            disk_inv(operator.disk(), operator.spec_block_size(), operator.spec_block_count()),
            operator.spec_block_size() * operator.spec_block_count() <= u64::MAX,
            operator.spec_block_size() <= usize::MAX,
        ensures
            match r {
                Ok(fs) => {
                    &&& operator.spec_block_size() >= 512
                    &&& operator.spec_block_count() >= 16
                    &&& fs.wf()
                    &&& !fs.is_formatted()
                    &&& fs.disk() == operator.disk()
                    &&& fs.block_size() == operator.spec_block_size()
                    &&& fs.block_count() == operator.spec_block_count()
                },
                Err(e) => {
                    &&& e matches FsError::DeviceTooSmall
                    &&& (operator.spec_block_size() < 512 || operator.spec_block_count() < 16)
                },
            },
    {
        if operator.block_size() < MIN_BLOCK_SIZE {
            return Err(FsError::DeviceTooSmall);
        }
        if operator.block_count() < MIN_BLOCK_COUNT {
            return Err(FsError::DeviceTooSmall);
        }
        Ok(HongWu { operator, super_block: None })
    }
}

/// The first bitmap block as format leaves it: zero bytes, except that the
/// lowest two bits of byte 0 are set, reserving LBA 0 (the superblock) and
/// LBA 1 (the bitmap's own first block).
pub open spec fn spec_initial_map_block(block_size: u64) -> Seq<u8> {
    zero_bytes(block_size as int).update(0, 3u8)
}

/// The superblock format computes for a device.
pub open spec fn spec_format_super_block(
    identity: FsId,
    block_size: u64,
    block_count: u64,
) -> SuperBlock {
    SuperBlock {
        version: VERSION_MARK,
        identity,
        length: (block_size * block_count) as u64,
        map_address: 1,
        map_length: spec_map_blocks(block_size, block_count) as u64,
    }
}

/// On a freshly formatted bitmap, exactly the two reserved bits are set.
proof fn lemma_formatted_bitmap(
    disk: Seq<Seq<u8>>,
    block_size: u64,
    block_count: u64,
    map_length: u64,
)
    requires
        block_size >= 512,
        block_count >= 16,
        map_length == spec_map_blocks(block_size, block_count),
        block_count <= map_length * (8 * block_size as int),
        1 + map_length <= block_count,
        disk_inv(disk, block_size, block_count),
        disk[1] == spec_initial_map_block(block_size),
        forall|l: int| 2 <= l < 1 + map_length ==> disk[l] == zero_bytes(block_size as int),
    ensures
        forall|n: int|
            0 <= n < block_count ==> spec_bitmap_bit(disk, block_size, 1, n) == (n == 0 || n == 1),
{
    let s = block_size as int;
    let bpb = 8 * s;
    assert forall|n: int| 0 <= n < block_count implies spec_bitmap_bit(disk, block_size, 1, n) == (
    n == 0 || n == 1) by {
        lemma_bit_position(block_size, n);
        let blk = n / bpb;
        let byte = (n % bpb) / 8;
        let bit = n % 8;
        assert(blk < map_length) by (nonlinear_arith)
            requires
                n == blk * bpb + byte * 8 + bit,
                n < map_length * bpb,
                0 <= byte,
                0 <= bit,
                bpb > 0,
                blk >= 0,
        ;
        if blk == 0 {
            assert(disk[1] == spec_initial_map_block(block_size));
            assert(n == byte * 8 + bit) by (nonlinear_arith)
                requires
                    n == blk * bpb + byte * 8 + bit,
                    blk == 0,
            ;
            if byte == 0 {
                assert(disk[1][0] == 3u8);
                lemma_mark_byte(bit);
                assert(n == bit);
            } else {
                assert(disk[1][byte] == 0u8);
                lemma_zero_byte(bit);
                assert(n >= 8);
            }
        } else {
            assert(disk[1 + blk] == zero_bytes(s));
            assert(disk[1 + blk][byte] == 0u8);
            lemma_zero_byte(bit);
            assert(n >= bpb) by (nonlinear_arith)
                requires
                    n == blk * bpb + byte * 8 + bit,
                    blk >= 1,
                    byte >= 0,
                    bit >= 0,
                    bpb > 0,
            ;
        }
    }
}

impl<D: DiskOperator> HongWu<D> {
    /// Formats the device: computes the superblock, writes it at LBA 0,
    /// zero-initialises the bitmap blocks that follow it, and reserves the
    /// superblock's and the bitmap's first LBA by setting bits 0 and 1.
    /// A device failure is propagated and leaves the handle unformatted.
    pub fn format(&mut self, identity: FsId) -> (r: Result<(), FsError>)
        requires
            old(self).wf(),
        ensures
            final(self).block_size() == old(self).block_size(),
            final(self).block_count() == old(self).block_count(),
            final(self).wf(),
            match r {
                Ok(u) => {
                    &&& final(self).is_formatted()
                    &&& final(self).super_block() == spec_format_super_block(
                        identity,
                        old(self).block_size(),
                        old(self).block_count(),
                    )
                    &&& final(self).disk().len() == old(self).disk().len()
                    &&& final(self).disk()[0] == write_block(
                        old(self).disk()[0],
                        spec_encode_super_block(final(self).super_block()),
                    )
                    &&& final(self).disk()[1] == spec_initial_map_block(old(self).block_size())
                    &&& forall|l: int|
                        2 <= l < 1 + final(self).super_block().map_length ==> final(self).disk()[l]
                            == zero_bytes(old(self).block_size() as int)
                    &&& forall|l: int|
                        1 + final(self).super_block().map_length <= l < old(self).disk().len()
                            ==> final(self).disk()[l] == old(self).disk()[l]
                    &&& final(self).bitmap() == Seq::new(
                        old(self).block_count() as nat,
                        |n: int| n == 0 || n == 1,
                    )
                },
                Err(e) => {
                    &&& e matches FsError::Device(_)
                    &&& !final(self).is_formatted()
                    &&& final(self).disk().len() == old(self).disk().len()
                    &&& forall|l: int|
                        1 + spec_map_blocks(old(self).block_size(), old(self).block_count()) <= l
                            < old(self).disk().len() ==> final(self).disk()[l]
                            == old(self).disk()[l]
                },
            },
    {
        let block_size = self.operator.block_size();
        let block_count = self.operator.block_count();
        proof {
            lemma_map_blocks_bounds(block_size, block_count);
        }
        let bpb: u64 = 8 * block_size;
        let map_length: u64 = (block_count + bpb - 1) / bpb;
        let length: u64 = block_size * block_count;
        let sb = SuperBlock { version: VERSION_MARK, identity, length, map_address: 1, map_length };
        // Until every write has succeeded, the handle counts as unformatted.
        self.super_block = None;
        let sb_bytes = encode_super_block(&sb);
        match self.operator.write(0, sb_bytes.as_slice()) {
            Ok(_) => {},
            Err(e) => {
                return Err(FsError::Device(e));
            },
        }
        proof {
            crate::lemma_write_block_preserves_inv(
                old(self).disk(),
                block_size,
                block_count,
                0,
                sb_bytes@,
            );
        }
        let mut zeros: Vec<u8> = Vec::new();
        push_zeros(&mut zeros, block_size as usize);
        let mut current: u64 = 0;
        while current < map_length
            invariant
                current <= map_length,
                self.block_size() == block_size,
                self.block_count() == block_count,
                block_size == old(self).block_size(),
                block_count == old(self).block_count(),
                block_size >= 512,
                block_count >= 16,
                block_size <= usize::MAX,
                block_size * block_count <= u64::MAX,
                1 + map_length <= block_count,
                map_length == spec_map_blocks(block_size, block_count),
                !self.is_formatted(),
                disk_inv(self.disk(), block_size, block_count),
                zeros@ == zero_bytes(block_size as int),
                self.disk().len() == old(self).disk().len(),
                self.disk()[0] == write_block(old(self).disk()[0], spec_encode_super_block(sb)),
                forall|l: int|
                    1 <= l < 1 + current ==> self.disk()[l] == zero_bytes(block_size as int),
                forall|l: int|
                    1 + current <= l < self.disk().len() ==> self.disk()[l] == old(self).disk()[l],
            decreases map_length - current,
        {
            let ghost prev = self.disk();
            match self.operator.write(1 + current, zeros.as_slice()) {
                Ok(_) => {},
                Err(e) => {
                    return Err(FsError::Device(e));
                },
            }
            proof {
                crate::lemma_write_block_preserves_inv(
                    prev,
                    block_size,
                    block_count,
                    1 + current as int,
                    zeros@,
                );
                assert(write_block(prev[1 + current as int], zeros@) =~= zero_bytes(
                    block_size as int,
                ));
            }
            current += 1;
        }
        let mut mark: Vec<u8> = Vec::new();
        mark.push(3u8);
        let ghost zeroed = self.disk();
        match self.operator.write(1, mark.as_slice()) {
            Ok(_) => {},
            Err(e) => {
                return Err(FsError::Device(e));
            },
        }
        proof {
            crate::lemma_write_block_preserves_inv(zeroed, block_size, block_count, 1, mark@);
            assert(write_block(zeroed[1], mark@) =~= spec_initial_map_block(block_size));
        }
        self.super_block = Some(sb);
        proof {
            lemma_formatted_bitmap(self.disk(), block_size, block_count, map_length);
            assert(self.bitmap() =~= Seq::new(block_count as nat, |n: int| n == 0 || n == 1));
        }
        Ok(())
    }
}

impl<D: DiskOperator> HongWu<D> {
    /// Scans the bitmap blocks in ascending order, bytes in ascending order
    /// within each block and bits LSB first within each byte, claims the
    /// first free bit by setting it, persists the modified bitmap block,
    /// and returns the bit's LBA. Returns `NoFreeSpace` once every block
    /// below the device's block count is occupied, and propagates a device
    /// failure; either way the device is left unchanged.
    pub fn get_free_block(&mut self) -> (r: Result<u64, FsError>)
        requires
            old(self).wf(),
            old(self).is_formatted(),
        ensures
            final(self).wf(),
            final(self).is_formatted(),
            final(self).block_size() == old(self).block_size(),
            final(self).block_count() == old(self).block_count(),
            final(self).super_block() == old(self).super_block(),
            match r {
                Ok(lba) => {
                    &&& 2 <= lba < old(self).block_count()
                    &&& alloc_step(old(self).bitmap(), lba as int, final(self).bitmap())
                    &&& forall|l: int|
                        0 <= l < old(self).disk().len() && l != 1 + (lba as int) / (8 * old(
                            self,
                        ).block_size() as int) ==> final(self).disk()[l] == old(self).disk()[l]
                },
                Err(e) => {
                    &&& final(self).disk() == old(self).disk()
                    &&& (e matches FsError::NoFreeSpace || e matches FsError::Device(_))
                    &&& (e matches FsError::NoFreeSpace ==> forall|j: int|
                        0 <= j < old(self).block_count() ==> old(self).bitmap()[j])
                },
            },
    {
        let block_size = self.operator.block_size();
        let block_count = self.operator.block_count();
        proof {
            lemma_map_blocks_bounds(block_size, block_count);
        }
        let bpb: u64 = 8 * block_size;
        let map_length: u64 = match &self.super_block {
            Some(sb) => sb.map_length,
            None => vstd::pervasive::unreached(),
        };
        let ghost bpb_i = 8 * block_size as int;
        let mut current: u64 = 0;
        while current < map_length
            invariant
                current <= map_length,
                self.wf(),
                self.is_formatted(),
                self.spec_super_block() == old(self).spec_super_block(),
                self.disk() == old(self).disk(),
                block_size == old(self).block_size(),
                block_count == old(self).block_count(),
                self.block_size() == block_size,
                self.block_count() == block_count,
                bpb == 8 * block_size,
                bpb_i == 8 * block_size as int,
                map_length == self.super_block().map_length,
                1 + map_length <= block_count,
                block_count <= map_length * bpb_i,
                map_length * bpb_i <= block_count + bpb_i - 1,
                block_count + bpb_i <= u64::MAX,
                forall|j: int|
                    0 <= j < current * bpb_i ==> spec_bitmap_bit(self.disk(), block_size, 1, j),
            decreases map_length - current,
        {
            let mut buffer: Vec<u8> = Vec::new();
            match self.operator.read(1 + current, &mut buffer) {
                Ok(_) => {},
                Err(e) => {
                    return Err(FsError::Device(e));
                },
            }
            let buf_len = buffer.len();
            let mut index: usize = 0;
            while index < buf_len
                invariant
                    index <= buf_len,
                    buf_len == block_size,
                    current < map_length,
                    self.wf(),
                    self.is_formatted(),
                    self.spec_super_block() == old(self).spec_super_block(),
                    self.disk() == old(self).disk(),
                    block_size == old(self).block_size(),
                    block_count == old(self).block_count(),
                    self.block_size() == block_size,
                    self.block_count() == block_count,
                    bpb == 8 * block_size,
                    bpb_i == 8 * block_size as int,
                    map_length == self.super_block().map_length,
                    1 + map_length <= block_count,
                    block_count <= map_length * bpb_i,
                    map_length * bpb_i <= block_count + bpb_i - 1,
                    block_count + bpb_i <= u64::MAX,
                    buffer@ == self.disk()[1 + current as int],
                    forall|j: int|
                        0 <= j < current * bpb_i + index * 8 ==> spec_bitmap_bit(
                            self.disk(),
                            block_size,
                            1,
                            j,
                        ),
                decreases buf_len - index,
            {
                let b = buffer[index];
                if b != 0xff {
                    let bit = lowest_zero_bit(b);
                    proof {
                        assert(current * bpb_i + (index as int) * 8 + 7 < map_length * bpb_i) by (nonlinear_arith)
                            requires
                                current < map_length,
                                (index as int) < block_size,
                                bpb_i == 8 * block_size as int,
                                block_size >= 1,
                        ;
                    }
                    let base: u64 = current * bpb;
                    let bit_index: u64 = base + (index as u64) * 8 + (bit as u64);
                    proof {
                        lemma_bit_position_converse(
                            block_size,
                            current as int,
                            index as int,
                            bit as int,
                        );
                    }
                    if bit_index >= block_count {
                        proof {
                            assert forall|j: int| 0 <= j < block_count implies old(
                                self,
                            ).bitmap()[j] by {
                                if j < current * bpb_i + (index as int) * 8 {
                                } else {
                                    let k = j - (current * bpb_i + (index as int) * 8);
                                    lemma_bit_position_converse(
                                        block_size,
                                        current as int,
                                        index as int,
                                        k,
                                    );
                                    assert(byte_bit(b, k));
                                }
                            }
                        }
                        return Err(FsError::NoFreeSpace);
                    }
                    let nb = b | (1u8 << bit);
                    let ghost pre_disk = self.disk();
                    buffer.set(index, nb);
                    match self.operator.write(1 + current, buffer.as_slice()) {
                        Ok(_) => {},
                        Err(e) => {
                            return Err(FsError::Device(e));
                        },
                    }
                    proof {
                        assert(write_block(pre_disk[1 + current as int], buffer@)
                            =~= pre_disk[1 + current as int].update(index as int, nb));
                        assert(self.disk() =~= pre_disk.update(
                            1 + current as int,
                            pre_disk[1 + current as int].update(
                                index as int,
                                pre_disk[1 + current as int][index as int] | (1u8 << bit),
                            ),
                        ));
                        lemma_bitmap_set_bit(
                            pre_disk,
                            self.disk(),
                            block_size,
                            block_count,
                            map_length,
                            current as int,
                            index as int,
                            bit,
                        );
                        crate::lemma_write_block_preserves_inv(
                            pre_disk,
                            block_size,
                            block_count,
                            1 + current as int,
                            buffer@,
                        );
                        // Every bit below the claimed one was already set.
                        assert forall|j: int| 0 <= j < bit_index implies old(
                            self,
                        ).bitmap()[j] by {
                            if j < current * bpb_i + (index as int) * 8 {
                            } else {
                                let k = j - (current * bpb_i + (index as int) * 8);
                                lemma_bit_position_converse(
                                    block_size,
                                    current as int,
                                    index as int,
                                    k,
                                );
                                assert(byte_bit(b, k));
                            }
                        }
                        assert(!old(self).bitmap()[bit_index as int]);
                        assert(self.bitmap() =~= old(self).bitmap().update(
                            bit_index as int,
                            true,
                        ));
                        assert(alloc_step(
                            old(self).bitmap(),
                            bit_index as int,
                            self.bitmap(),
                        ));
                        assert(bit_index != 0 && bit_index != 1);
                    }
                    return Ok(bit_index);
                }
                proof {
                    assert forall|j: int|
                        0 <= j < current * bpb_i + (index as int + 1) * 8 implies spec_bitmap_bit(
                        self.disk(),
                        block_size,
                        1,
                        j,
                    ) by {
                        if j >= current * bpb_i + (index as int) * 8 {
                            let k = j - (current * bpb_i + (index as int) * 8);
                            lemma_bit_position_converse(
                                block_size,
                                current as int,
                                index as int,
                                k,
                            );
                            lemma_full_byte(k);
                            assert(byte_bit(0xffu8, k));
                        }
                    }
                }
                index += 1;
            }
            proof {
                assert(current * bpb_i + (block_size as int) * 8 == (current + 1) * bpb_i)
                    by (nonlinear_arith)
                    requires
                        bpb_i == 8 * block_size as int,
                ;
            }
            current += 1;
        }
        proof {
            assert forall|j: int| 0 <= j < block_count implies old(self).bitmap()[j] by {
                assert(j < map_length * bpb_i);
            }
        }
        Err(FsError::NoFreeSpace)
    }
}

/// A write to a block outside the bitmap region (and not the bitmap's
/// superblock neighbour) leaves every occupancy bit unchanged.
proof fn lemma_bitmap_unchanged_outside_map(
    pre: Seq<Seq<u8>>,
    post: Seq<Seq<u8>>,
    block_size: u64,
    block_count: u64,
    map_length: u64,
    lba: int,
    blockv: Seq<u8>,
)
    requires
        block_size >= 512,
        disk_inv(pre, block_size, block_count),
        1 + map_length <= block_count,
        0 <= lba < pre.len(),
        lba == 0 || lba >= 1 + map_length,
        post == pre.update(lba, blockv),
    ensures
        forall|m: int|
            0 <= m < map_length * (8 * block_size as int) ==> spec_bitmap_bit(
                post,
                block_size,
                1,
                m,
            ) == spec_bitmap_bit(pre, block_size, 1, m),
{
    let bpb = 8 * block_size as int;
    assert forall|m: int| 0 <= m < map_length * bpb implies spec_bitmap_bit(post, block_size, 1, m)
        == spec_bitmap_bit(pre, block_size, 1, m) by {
        lemma_bit_position(block_size, m);
        let mblk = m / bpb;
        let mbyte = (m % bpb) / 8;
        let mbit = m % 8;
        assert(mblk < map_length) by (nonlinear_arith)
            requires
                m == mblk * bpb + mbyte * 8 + mbit,
                m < map_length * bpb,
                0 <= mbyte,
                0 <= mbit,
                bpb > 0,
                mblk >= 0,
        ;
        assert(post[1 + mblk] == pre[1 + mblk]);
    }
}

impl<D: DiskOperator> HongWu<D> {
    /// Reads one block from the device.
    pub fn read_block(&mut self, lba: u64) -> (r: Result<Vec<u8>, FsError>)
        requires
            old(self).wf(),
            lba < old(self).block_count(),
        ensures
            final(self).wf(),
            final(self).is_formatted() == old(self).is_formatted(),
            final(self).spec_super_block() == old(self).spec_super_block(),
            final(self).block_size() == old(self).block_size(),
            final(self).block_count() == old(self).block_count(),
            final(self).disk() == old(self).disk(),
            match r {
                Ok(bytes) => bytes@ == old(self).disk()[lba as int],
                Err(e) => e matches FsError::Device(_),
            },
    {
        let mut buffer: Vec<u8> = Vec::new();
        match self.operator.read(lba, &mut buffer) {
            Ok(_) => Ok(buffer),
            Err(e) => Err(FsError::Device(e)),
        }
    }

    /// Allocates one free block and writes `bytes` into it: the shared core
    /// of the directory and file builders.
    fn create_record(&mut self, bytes: &Vec<u8>) -> (r: Result<u64, FsError>)
        requires
            old(self).wf(),
            old(self).is_formatted(),
            bytes@.len() <= old(self).block_size(),
        ensures
            final(self).wf(),
            final(self).is_formatted(),
            final(self).block_size() == old(self).block_size(),
            final(self).block_count() == old(self).block_count(),
            final(self).super_block() == old(self).super_block(),
            match r {
                Ok(lba) => {
                    &&& 2 <= lba < old(self).block_count()
                    &&& !old(self).bitmap()[lba as int]
                    &&& forall|j: int| 0 <= j < lba ==> old(self).bitmap()[j]
                    &&& final(self).bitmap()[lba as int]
                    &&& final(self).disk().len() == old(self).disk().len()
                    &&& final(self).disk()[lba as int] == write_block(
                        old(self).disk()[lba as int],
                        bytes@,
                    )
                    &&& forall|l: int|
                        0 <= l < old(self).disk().len() && l != lba && l != 1 + (lba as int) / (8
                            * old(self).block_size() as int) ==> final(self).disk()[l]
                            == old(self).disk()[l]
                    &&& lba >= 1 + old(self).super_block().map_length ==> alloc_step(
                        old(self).bitmap(),
                        lba as int,
                        final(self).bitmap(),
                    )
                },
                Err(e) => {
                    &&& (e matches FsError::NoFreeSpace || e matches FsError::Device(_))
                    &&& (e matches FsError::NoFreeSpace ==> final(self).disk() == old(self).disk()
                        && (forall|j: int|
                        0 <= j < old(self).block_count() ==> old(self).bitmap()[j]))
                    &&& forall|j: int|
                        0 <= j < old(self).block_count() && old(self).bitmap()[j]
                            ==> final(self).bitmap()[j]
                },
            },
    {
        let ghost pre = *old(self);
        let lba = match self.get_free_block() {
            Ok(l) => l,
            Err(e) => {
                return Err(e);
            },
        };
        let ghost mid = *self;
        let ghost bpb_i = 8 * pre.block_size() as int;
        let ghost map_length = pre.super_block().map_length;
        proof {
            lemma_allocated_block_not_its_map_block(pre.block_size(), lba);
        }
        match self.operator.write(lba, bytes.as_slice()) {
            Ok(_) => {},
            Err(e) => {
                return Err(FsError::Device(e));
            },
        }
        proof {
            crate::lemma_write_block_preserves_inv(
                mid.disk(),
                pre.block_size(),
                pre.block_count(),
                lba as int,
                bytes@,
            );
            lemma_map_blocks_bounds(pre.block_size(), pre.block_count());
            if lba >= 1 + map_length {
                lemma_bitmap_unchanged_outside_map(
                    mid.disk(),
                    self.disk(),
                    pre.block_size(),
                    pre.block_count(),
                    map_length,
                    lba as int,
                    write_block(mid.disk()[lba as int], bytes@),
                );
                assert forall|m: int| 0 <= m < pre.block_count() implies self.bitmap()[m]
                    == mid.bitmap()[m] by {
                    assert(m < map_length * bpb_i);
                }
                assert(self.bitmap() =~= mid.bitmap());
            }
            // Bits 0 and 1 live in bitmap block 1, which no record write
            // reaches: the allocated block is 2 or above.
            vstd::arithmetic::div_mod::lemma_basic_div(0, bpb_i);
            vstd::arithmetic::div_mod::lemma_basic_div(1, bpb_i);
            assert(self.disk()[1] == mid.disk()[1]);
            assert(self.bitmap()[0] && self.bitmap()[1]);
            // The claimed bit stays set: the record block never holds its
            // own occupancy bit.
            assert(mid.bitmap()[lba as int]);
            lemma_bit_position(pre.block_size(), lba as int);
            assert(self.disk()[1 + (lba as int) / bpb_i] == mid.disk()[1 + (lba as int) / bpb_i]);
            assert(self.bitmap()[lba as int]);
        }
        Ok(lba)
    }

    /// Allocates a block, writes an empty directory record with the given
    /// name into it, and returns the block's LBA. The new directory is not
    /// linked into any parent; that is the caller's task.
    pub fn create_directory(&mut self, name: &[u8]) -> (r: Result<u64, FsError>)
        requires
            old(self).wf(),
            old(self).is_formatted(),
        ensures
            final(self).wf(),
            final(self).is_formatted(),
            final(self).block_size() == old(self).block_size(),
            final(self).block_count() == old(self).block_count(),
            final(self).super_block() == old(self).super_block(),
            match r {
                Ok(lba) => {
                    &&& name@.len() <= 256
                    &&& 2 <= lba < old(self).block_count()
                    &&& !old(self).bitmap()[lba as int]
                    &&& forall|j: int| 0 <= j < lba ==> old(self).bitmap()[j]
                    &&& final(self).bitmap()[lba as int]
                    &&& final(self).disk().len() == old(self).disk().len()
                    &&& final(self).disk()[lba as int] == write_block(
                        old(self).disk()[lba as int],
                        spec_encode_directory(
                            (DirectoryView { name: spec_pad_name(name@), index_data_lba: 0 }),
                        ),
                    )
                    &&& forall|l: int|
                        0 <= l < old(self).disk().len() && l != lba && l != 1 + (lba as int) / (8
                            * old(self).block_size() as int) ==> final(self).disk()[l]
                            == old(self).disk()[l]
                    &&& lba >= 1 + old(self).super_block().map_length ==> alloc_step(
                        old(self).bitmap(),
                        lba as int,
                        final(self).bitmap(),
                    )
                },
                Err(e) => {
                    &&& (e matches FsError::NameTooLong ==> name@.len() > 256 && final(self).disk()
                        == old(self).disk())
                    &&& (e matches FsError::NoFreeSpace ==> final(self).disk() == old(self).disk()
                        && (forall|j: int|
                        0 <= j < old(self).block_count() ==> old(self).bitmap()[j]))
                    &&& !(e matches FsError::DeviceTooSmall)
                    &&& forall|j: int|
                        0 <= j < old(self).block_count() && old(self).bitmap()[j]
                            ==> final(self).bitmap()[j]
                },
            },
            name@.len() > 256 ==> (r matches Err(FsError::NameTooLong) && final(self).disk()
                == old(self).disk()),
    {
        let dir = match Directory::new(name) {
            Ok(d) => d,
            Err(e) => {
                return Err(e);
            },
        };
        let bytes = encode_directory(&dir);
        self.create_record(&bytes)
    }

    /// Allocates a block, writes an empty file record with the given name
    /// into it, and returns the block's LBA. The new file holds no data
    /// blocks yet and is not linked into any directory.
    pub fn create_file(&mut self, name: &[u8]) -> (r: Result<u64, FsError>)
        requires
            old(self).wf(),
            old(self).is_formatted(),
        ensures
            final(self).wf(),
            final(self).is_formatted(),
            final(self).block_size() == old(self).block_size(),
            final(self).block_count() == old(self).block_count(),
            final(self).super_block() == old(self).super_block(),
            match r {
                Ok(lba) => {
                    &&& name@.len() <= 256
                    &&& 2 <= lba < old(self).block_count()
                    &&& !old(self).bitmap()[lba as int]
                    &&& forall|j: int| 0 <= j < lba ==> old(self).bitmap()[j]
                    &&& final(self).bitmap()[lba as int]
                    &&& final(self).disk().len() == old(self).disk().len()
                    &&& final(self).disk()[lba as int] == write_block(
                        old(self).disk()[lba as int],
                        spec_encode_file(
                            (FileView { name: spec_pad_name(name@), size: 0, data_index_lba: 0 }),
                        ),
                    )
                    &&& forall|l: int|
                        0 <= l < old(self).disk().len() && l != lba && l != 1 + (lba as int) / (8
                            * old(self).block_size() as int) ==> final(self).disk()[l]
                            == old(self).disk()[l]
                    &&& lba >= 1 + old(self).super_block().map_length ==> alloc_step(
                        old(self).bitmap(),
                        lba as int,
                        final(self).bitmap(),
                    )
                },
                Err(e) => {
                    &&& (e matches FsError::NameTooLong ==> name@.len() > 256 && final(self).disk()
                        == old(self).disk())
                    &&& (e matches FsError::NoFreeSpace ==> final(self).disk() == old(self).disk()
                        && (forall|j: int|
                        0 <= j < old(self).block_count() ==> old(self).bitmap()[j]))
                    &&& !(e matches FsError::DeviceTooSmall)
                    &&& forall|j: int|
                        0 <= j < old(self).block_count() && old(self).bitmap()[j]
                            ==> final(self).bitmap()[j]
                },
            },
            name@.len() > 256 ==> (r matches Err(FsError::NameTooLong) && final(self).disk()
                == old(self).disk()),
    {
        let file = match File::new(name) {
            Ok(f) => f,
            Err(e) => {
                return Err(e);
            },
        };
        let bytes = encode_file(&file);
        self.create_record(&bytes)
    }

    /// Allocates a block and writes one link of a file's data chain into
    /// it: a data block record carrying `payload` between the given
    /// neighbour links. The caller owns the chain and fills the links; the
    /// payload must fit one block beside the 24-byte header.
    pub fn create_data_block(
        &mut self,
        prev_block_index: u64,
        next_block_index: u64,
        payload: &[u8],
    ) -> (r: Result<u64, FsError>)
        requires
            old(self).wf(),
            old(self).is_formatted(),
            payload@.len() + 24 <= old(self).block_size(),
        ensures
            final(self).wf(),
            final(self).is_formatted(),
            final(self).block_size() == old(self).block_size(),
            final(self).block_count() == old(self).block_count(),
            final(self).super_block() == old(self).super_block(),
            match r {
                Ok(lba) => {
                    &&& 2 <= lba < old(self).block_count()
                    &&& !old(self).bitmap()[lba as int]
                    &&& forall|j: int| 0 <= j < lba ==> old(self).bitmap()[j]
                    &&& final(self).bitmap()[lba as int]
                    &&& final(self).disk().len() == old(self).disk().len()
                    &&& final(self).disk()[lba as int] == write_block(
                        old(self).disk()[lba as int],
                        spec_encode_data_block(
                            (DataBlockView {
                                prev_block_index,
                                next_block_index,
                                size: payload@.len() as u64,
                                payload: payload@,
                            }),
                        ),
                    )
                    &&& forall|l: int|
                        0 <= l < old(self).disk().len() && l != lba && l != 1 + (lba as int) / (8
                            * old(self).block_size() as int) ==> final(self).disk()[l]
                            == old(self).disk()[l]
                    &&& lba >= 1 + old(self).super_block().map_length ==> alloc_step(
                        old(self).bitmap(),
                        lba as int,
                        final(self).bitmap(),
                    )
                },
                Err(e) => {
                    &&& (e matches FsError::NoFreeSpace || e matches FsError::Device(_))
                    &&& (e matches FsError::NoFreeSpace ==> final(self).disk() == old(self).disk()
                        && (forall|j: int|
                        0 <= j < old(self).block_count() ==> old(self).bitmap()[j]))
                    &&& forall|j: int|
                        0 <= j < old(self).block_count() && old(self).bitmap()[j]
                            ==> final(self).bitmap()[j]
                },
            },
    {
        let size = payload.len() as u64;
        let block = DataBlock {
            prev_block_index,
            next_block_index,
            size,
            payload: slice_to_vec(payload),
        };
        let bytes = encode_data_block(&block);
        self.create_record(&bytes)
    }

    /// Releases an allocated block back to the allocator: clears its
    /// occupancy bit, with the same bit-index derivation as allocation,
    /// and persists the modified bitmap block. The two reserved LBAs
    /// cannot be released.
    pub fn release_block(&mut self, lba: u64) -> (r: Result<(), FsError>)
        requires
            old(self).wf(),
            old(self).is_formatted(),
            2 <= lba < old(self).block_count(),
        ensures
            final(self).wf(),
            final(self).is_formatted(),
            final(self).block_size() == old(self).block_size(),
            final(self).block_count() == old(self).block_count(),
            final(self).super_block() == old(self).super_block(),
            match r {
                Ok(u) => {
                    &&& final(self).bitmap() == old(self).bitmap().update(lba as int, false)
                    &&& final(self).disk().len() == old(self).disk().len()
                    &&& forall|l: int|
                        0 <= l < old(self).disk().len() && l != 1 + (lba as int) / (8 * old(
                            self,
                        ).block_size() as int) ==> final(self).disk()[l] == old(self).disk()[l]
                },
                Err(e) => {
                    &&& e matches FsError::Device(_)
                    &&& final(self).disk() == old(self).disk()
                },
            },
    {
        let block_size = self.operator.block_size();
        let block_count = self.operator.block_count();
        proof {
            lemma_map_blocks_bounds(block_size, block_count);
            lemma_bit_position(block_size, lba as int);
        }
        let ghost map_length = self.super_block().map_length;
        let bpb: u64 = 8 * block_size;
        let blk = lba / bpb;
        let byte_idx = ((lba % bpb) / 8) as usize;
        let bit = (lba % 8) as u8;
        proof {
            assert(blk < map_length) by (nonlinear_arith)
                requires
                    lba as int == blk * (bpb as int) + byte_idx * 8 + bit,
                    lba < map_length * (bpb as int),
                    0 <= byte_idx,
                    0 <= bit,
                    bpb > 0,
                    blk >= 0,
            ;
        }
        let mut buffer: Vec<u8> = Vec::new();
        match self.operator.read(1 + blk, &mut buffer) {
            Ok(_) => {},
            Err(e) => {
                return Err(FsError::Device(e));
            },
        }
        let b = buffer[byte_idx];
        let nb = b & !(1u8 << bit);
        let ghost pre_disk = self.disk();
        buffer.set(byte_idx, nb);
        match self.operator.write(1 + blk, buffer.as_slice()) {
            Ok(_) => {},
            Err(e) => {
                return Err(FsError::Device(e));
            },
        }
        proof {
            assert(write_block(pre_disk[1 + blk as int], buffer@) =~= pre_disk[1
                + blk as int].update(byte_idx as int, nb));
            assert(self.disk() =~= pre_disk.update(
                1 + blk as int,
                pre_disk[1 + blk as int].update(
                    byte_idx as int,
                    pre_disk[1 + blk as int][byte_idx as int] & !(1u8 << bit),
                ),
            ));
            lemma_bitmap_clear_bit(
                pre_disk,
                self.disk(),
                block_size,
                block_count,
                map_length,
                blk as int,
                byte_idx as int,
                bit,
            );
            crate::lemma_write_block_preserves_inv(
                pre_disk,
                block_size,
                block_count,
                1 + blk as int,
                buffer@,
            );
            assert(self.bitmap() =~= old(self).bitmap().update(lba as int, false));
            assert(self.bitmap()[0] && self.bitmap()[1]);
        }
        Ok(())
    }

    /// Reads the block at `lba` and decodes the data block record it
    /// holds; `Ok(None)` reports a block whose stated payload size exceeds
    /// the bytes that follow the header.
    pub fn read_data_block(&mut self, lba: u64) -> (r: Result<Option<DataBlock>, FsError>)
        requires
            old(self).wf(),
            lba < old(self).block_count(),
        ensures
            final(self).wf(),
            final(self).is_formatted() == old(self).is_formatted(),
            final(self).spec_super_block() == old(self).spec_super_block(),
            final(self).block_size() == old(self).block_size(),
            final(self).block_count() == old(self).block_count(),
            final(self).disk() == old(self).disk(),
            match r {
                Ok(opt) => match opt {
                    Some(d) => spec_decode_data_block(old(self).disk()[lba as int]) == Some(d@)
                        && d@.wf(),
                    None => spec_decode_data_block(old(self).disk()[lba as int]) is None,
                },
                Err(e) => e matches FsError::Device(_),
            },
    {
        let block = match self.read_block(lba) {
            Ok(b) => b,
            Err(e) => {
                return Err(e);
            },
        };
        Ok(decode_data_block(block.as_slice()))
    }
}

/// Finds the lowest-order zero bit of a byte.
fn lowest_zero_bit(b: u8) -> (r: u8)
    requires
        b != 0xff,
    ensures
        r < 8,
        !byte_bit(b, r as int),
        forall|j: int| 0 <= j < r ==> byte_bit(b, j),
{
    let mut i: u8 = 0;
    while i < 8
        invariant
            i <= 8,
            forall|j: int| 0 <= j < i ==> byte_bit(b, j),
        decreases 8 - i,
    {
        if (b >> i) & 1 == 0 {
            assert(!byte_bit(b, i as int));
            return i;
        }
        assert(byte_bit(b, i as int)) by {
            assert((b >> i) & 1 == 1) by (bit_vector)
                requires
                    (b >> i) & 1 != 0,
            ;
        }
        i += 1;
    }
    proof {
        assert(byte_bit(b, 0) && byte_bit(b, 1) && byte_bit(b, 2) && byte_bit(b, 3) && byte_bit(
            b,
            4,
        ) && byte_bit(b, 5) && byte_bit(b, 6) && byte_bit(b, 7));
        assert(false) by (bit_vector)
            requires
                b != 0xff,
                (b >> 0u8) & 1 == 1,
                (b >> 1u8) & 1 == 1,
                (b >> 2u8) & 1 == 1,
                (b >> 3u8) & 1 == 1,
                (b >> 4u8) & 1 == 1,
                (b >> 5u8) & 1 == 1,
                (b >> 6u8) & 1 == 1,
                (b >> 7u8) & 1 == 1,
        ;
    }
    vstd::pervasive::unreached()
}

/// A byte with every bit set has every bit set.
proof fn lemma_full_byte(j: int)
    requires
        0 <= j < 8,
    ensures
        byte_bit(0xffu8, j),
{
    let ju = j as u8;
    assert((0xffu8 >> ju) & 1 == 1) by (bit_vector)
        requires
            ju < 8,
    ;
}

/// Setting one bit of one bitmap byte on disk sets the occupancy bit at
/// exactly that bit's position and no other.
proof fn lemma_bitmap_set_bit(
    pre: Seq<Seq<u8>>,
    post: Seq<Seq<u8>>,
    block_size: u64,
    block_count: u64,
    map_length: u64,
    blk: int,
    byte: int,
    bit: u8,
)
    requires
        block_size >= 512,
        disk_inv(pre, block_size, block_count),
        1 + map_length <= block_count,
        0 <= blk < map_length,
        0 <= byte < block_size,
        bit < 8,
        post == pre.update(
            1 + blk,
            pre[1 + blk].update(byte, pre[1 + blk][byte] | (1u8 << bit)),
        ),
    ensures
        ({
            let n = blk * (8 * block_size as int) + byte * 8 + bit;
            &&& spec_bitmap_bit(post, block_size, 1, n)
            &&& forall|m: int|
                0 <= m < map_length * (8 * block_size as int) && m != n ==> spec_bitmap_bit(
                    post,
                    block_size,
                    1,
                    m,
                ) == spec_bitmap_bit(pre, block_size, 1, m)
        }),
{
    let s = block_size as int;
    let bpb = 8 * s;
    let n = blk * bpb + byte * 8 + bit;
    lemma_bit_position_converse(block_size, blk, byte, bit as int);
    lemma_set_bit(pre[1 + blk][byte], bit);
    assert(spec_bitmap_bit(post, block_size, 1, n));
    assert forall|m: int| 0 <= m < map_length * bpb && m != n implies spec_bitmap_bit(
        post,
        block_size,
        1,
        m,
    ) == spec_bitmap_bit(pre, block_size, 1, m) by {
        lemma_bit_position(block_size, m);
        let mblk = m / bpb;
        let mbyte = (m % bpb) / 8;
        let mbit = m % 8;
        assert(mblk < map_length) by (nonlinear_arith)
            requires
                m == mblk * bpb + mbyte * 8 + mbit,
                m < map_length * bpb,
                0 <= mbyte,
                0 <= mbit,
                bpb > 0,
                mblk >= 0,
        ;
        if mblk == blk && mbyte == byte {
            if mbit == bit {
                assert(m == n);
            }
            assert(post[1 + blk][byte] == pre[1 + blk][byte] | (1u8 << bit));
        } else {
            assert(post[1 + mblk][mbyte] == pre[1 + mblk][mbyte]);
        }
    }
}

/// Clearing one bit of one bitmap byte on disk clears the occupancy bit at
/// exactly that bit's position and no other.
proof fn lemma_bitmap_clear_bit(
    pre: Seq<Seq<u8>>,
    post: Seq<Seq<u8>>,
    block_size: u64,
    block_count: u64,
    map_length: u64,
    blk: int,
    byte: int,
    bit: u8,
)
    requires
        block_size >= 512,
        disk_inv(pre, block_size, block_count),
        1 + map_length <= block_count,
        0 <= blk < map_length,
        0 <= byte < block_size,
        bit < 8,
        post == pre.update(
            1 + blk,
            pre[1 + blk].update(byte, pre[1 + blk][byte] & !(1u8 << bit)),
        ),
    ensures
        ({
            let n = blk * (8 * block_size as int) + byte * 8 + bit;
            &&& !spec_bitmap_bit(post, block_size, 1, n)
            &&& forall|m: int|
                0 <= m < map_length * (8 * block_size as int) && m != n ==> spec_bitmap_bit(
                    post,
                    block_size,
                    1,
                    m,
                ) == spec_bitmap_bit(pre, block_size, 1, m)
        }),
{
    let s = block_size as int;
    let bpb = 8 * s;
    let n = blk * bpb + byte * 8 + bit;
    lemma_bit_position_converse(block_size, blk, byte, bit as int);
    lemma_clear_bit(pre[1 + blk][byte], bit);
    assert(!spec_bitmap_bit(post, block_size, 1, n));
    assert forall|m: int| 0 <= m < map_length * bpb && m != n implies spec_bitmap_bit(
        post,
        block_size,
        1,
        m,
    ) == spec_bitmap_bit(pre, block_size, 1, m) by {
        lemma_bit_position(block_size, m);
        let mblk = m / bpb;
        let mbyte = (m % bpb) / 8;
        let mbit = m % 8;
        assert(mblk < map_length) by (nonlinear_arith)
            requires
                m == mblk * bpb + mbyte * 8 + mbit,
                m < map_length * bpb,
                0 <= mbyte,
                0 <= mbit,
                bpb > 0,
                mblk >= 0,
        ;
        if mblk == blk && mbyte == byte {
            if mbit == bit {
                assert(m == n);
            }
            assert(post[1 + blk][byte] == pre[1 + blk][byte] & !(1u8 << bit));
        } else {
            assert(post[1 + mblk][mbyte] == pre[1 + mblk][mbyte]);
        }
    }
}

/// A block the allocator hands out is never the bitmap block whose byte
/// records it: that block's LBA is always smaller.
proof fn lemma_allocated_block_not_its_map_block(block_size: u64, lba: u64)
    requires
        block_size >= 512,
        lba >= 2,
    ensures
        1 + (lba as int) / (8 * block_size as int) < lba,
{
    let bpb = 8 * block_size as int;
    let l = lba as int;
    let q = l / bpb;
    lemma_fundamental_div_mod(l, bpb);
    lemma_mod_division_less_than_divisor(l, bpb);
    if l < bpb {
        vstd::arithmetic::div_mod::lemma_basic_div(l, bpb);
        assert(q == 0);
    } else {
        assert(1 + q < l) by (nonlinear_arith)
            requires
                l == bpb * q + l % bpb,
                0 <= l % bpb,
                bpb >= 4096,
                l >= bpb,
        ;
    }
}

/// Setting one bit of a byte leaves every other bit of it unchanged.
proof fn lemma_set_bit(b: u8, i: u8)
    requires
        i < 8,
    ensures
        byte_bit(b | (1u8 << i), i as int),
        forall|j: int| 0 <= j < 8 && j != i ==> byte_bit(b | (1u8 << i), j) == byte_bit(b, j),
{
    assert(((b | (1u8 << i)) >> i) & 1 == 1) by (bit_vector)
        requires
            i < 8,
    ;
    assert forall|j: int| 0 <= j < 8 && j != i implies byte_bit(b | (1u8 << i), j) == byte_bit(
        b,
        j,
    ) by {
        let ju = j as u8;
        assert(((b | (1u8 << i)) >> ju) & 1 == (b >> ju) & 1) by (bit_vector)
            requires
                ju < 8,
                i < 8,
                ju != i,
        ;
    }
}

/// Clearing one bit of a byte leaves every other bit of it unchanged.
proof fn lemma_clear_bit(b: u8, i: u8)
    requires
        i < 8,
    ensures
        !byte_bit(b & !(1u8 << i), i as int),
        forall|j: int| 0 <= j < 8 && j != i ==> byte_bit(b & !(1u8 << i), j) == byte_bit(b, j),
{
    assert(((b & !(1u8 << i)) >> i) & 1 == 0) by (bit_vector)
        requires
            i < 8,
    ;
    assert forall|j: int| 0 <= j < 8 && j != i implies byte_bit(b & !(1u8 << i), j) == byte_bit(
        b,
        j,
    ) by {
        let ju = j as u8;
        assert(((b & !(1u8 << i)) >> ju) & 1 == (b >> ju) & 1) by (bit_vector)
            requires
                ju < 8,
                i < 8,
                ju != i,
        ;
    }
}

/// A zero byte has no bit set.
proof fn lemma_zero_byte(j: int)
    requires
        0 <= j < 8,
    ensures
        !byte_bit(0u8, j),
{
    let ju = j as u8;
    assert((0u8 >> ju) & 1 == 0) by (bit_vector);
}

/// The byte that format writes at the start of the bitmap has exactly
/// bits 0 and 1 set.
proof fn lemma_mark_byte(j: int)
    requires
        0 <= j < 8,
    ensures
        byte_bit(3u8, j) == (j == 0 || j == 1),
{
    let ju = j as u8;
    assert(((3u8 >> ju) & 1 == 1) == (ju == 0 || ju == 1)) by (bit_vector)
        requires
            ju < 8,
    ;
}

} // verus!
