//! The metadata record codec: fixed-width, big-endian byte layouts for the
//! superblock, directory, file, data-block and directory-item records.

use crate::FsError;
use vstd::prelude::*;
use vstd::slice::{slice_subrange, slice_to_vec};

verus! {

/// Bytes of one encoded `u64` field.
pub const U64_BYTES: usize = 8;

/// Bytes of the identity field.
pub const IDENTITY_BYTES: usize = 16;

/// Bytes of an encoded superblock record.
pub const SUPER_BLOCK_BYTES: usize = 48;

/// Bytes of a record's name field.
pub const NAME_BYTES: usize = 256;

/// Bytes of an encoded directory record.
pub const DIRECTORY_BYTES: usize = 264;

/// Bytes of an encoded file record.
pub const FILE_BYTES: usize = 272;

/// Bytes of a data block record's header, before the payload.
pub const DATA_BLOCK_HEADER_BYTES: usize = 24;

/// Bytes of an encoded directory item record.
pub const DIRECTORY_ITEM_BYTES: usize = 16;

/// The big-endian bytes of a `u64`, most significant first.
pub open spec fn spec_u64_be(x: u64) -> Seq<u8> {
    seq![
        (x >> 56) as u8,
        (x >> 48) as u8,
        (x >> 40) as u8,
        (x >> 32) as u8,
        (x >> 24) as u8,
        (x >> 16) as u8,
        (x >> 8) as u8,
        x as u8,
    ]
}

/// The `u64` read from eight big-endian bytes.
pub open spec fn spec_u64_from_be(s: Seq<u8>) -> u64
    recommends
        s.len() == 8,
{
    (((s[0] as u64) << 56) | ((s[1] as u64) << 48) | ((s[2] as u64) << 40) | ((s[3] as u64)
        << 32) | ((s[4] as u64) << 24) | ((s[5] as u64) << 16) | ((s[6] as u64) << 8) | (
    s[7] as u64)) as u64
}

/// Decoding the big-endian bytes of a `u64` yields the `u64` back.
pub proof fn lemma_u64_be_round_trip(x: u64)
    ensures
        spec_u64_from_be(spec_u64_be(x)) == x,
{
    assert((((((x >> 56) as u8) as u64) << 56) | ((((x >> 48) as u8) as u64) << 48) | ((((x
        >> 40) as u8) as u64) << 40) | ((((x >> 32) as u8) as u64) << 32) | ((((x >> 24) as u8)
        as u64) << 24) | ((((x >> 16) as u8) as u64) << 16) | ((((x >> 8) as u8) as u64) << 8) | ((
    x as u8) as u64)) as u64 == x) by (bit_vector);
}

/// Appends the big-endian bytes of `x` to `out`.
pub fn push_u64_be(out: &mut Vec<u8>, x: u64)
    ensures
        final(out)@ == old(out)@ + spec_u64_be(x),
{
    out.push((x >> 56) as u8);
    out.push((x >> 48) as u8);
    out.push((x >> 40) as u8);
    out.push((x >> 32) as u8);
    out.push((x >> 24) as u8);
    out.push((x >> 16) as u8);
    out.push((x >> 8) as u8);
    out.push(x as u8);
    assert(out@ =~= old(out)@ + spec_u64_be(x));
}

/// Reads the big-endian `u64` that starts at `offset` in `bytes`.
pub fn u64_from_be_at(bytes: &[u8], offset: usize) -> (r: u64)
    requires
        offset + 8 <= bytes@.len(),
    ensures
        r == spec_u64_from_be(bytes@.subrange(offset as int, offset + 8)),
{
    let r = ((bytes[offset] as u64) << 56) | ((bytes[offset + 1] as u64) << 48) | ((bytes[offset
        + 2] as u64) << 40) | ((bytes[offset + 3] as u64) << 32) | ((bytes[offset + 4] as u64)
        << 24) | ((bytes[offset + 5] as u64) << 16) | ((bytes[offset + 6] as u64) << 8) | (
    bytes[offset + 7] as u64);
    r
}

/// Appends all of `bytes` to `out`.
pub fn push_bytes(out: &mut Vec<u8>, bytes: &[u8])
    ensures
        final(out)@ == old(out)@ + bytes@,
{
    let mut i: usize = 0;
    while i < bytes.len()
        invariant
            i <= bytes@.len(),
            out@ == old(out)@ + bytes@.subrange(0, i as int),
        decreases bytes@.len() - i,
    {
        out.push(bytes[i]);
        assert(old(out)@ + bytes@.subrange(0, i as int) + seq![bytes@[i as int]] =~= old(out)@
            + bytes@.subrange(0, i as int + 1));
        i += 1;
    }
    assert(bytes@.subrange(0, bytes@.len() as int) =~= bytes@);
}

/// `n` zero bytes.
pub open spec fn zero_bytes(n: int) -> Seq<u8> {
    Seq::new(n as nat, |i: int| 0u8)
}

/// Appends `n` zero bytes to `out`.
pub fn push_zeros(out: &mut Vec<u8>, n: usize)
    ensures
        final(out)@ == old(out)@ + zero_bytes(n as int),
{
    let mut i: usize = 0;
    while i < n
        invariant
            i <= n,
            out@ == old(out)@ + zero_bytes(i as int),
        decreases n - i,
    {
        out.push(0u8);
        assert(old(out)@ + zero_bytes(i as int) + seq![0u8] =~= old(out)@ + zero_bytes(
            i as int + 1,
        ));
        i += 1;
    }
}

/// The filesystem's 128-bit identity: a millisecond UNIX timestamp and a
/// random word, the two halves of a Guuid.
#[derive(Clone, Copy, PartialEq, Eq, Structural, Debug)]
pub struct FsId {
    /// The timestamp half, stored in the upper 64 bits.
    pub time: u64,
    /// The random half, stored in the lower 64 bits.
    pub random: u64,
}

/// The on-disk bytes of an identity: the big-endian timestamp followed by
/// the big-endian random word.
pub open spec fn spec_encode_fs_id(id: FsId) -> Seq<u8> {
    spec_u64_be(id.time) + spec_u64_be(id.random)
}

/// Relies on guuid::Guuid::new and guuid::Guuid::to_bytes: a Guuid built
/// from a timestamp and a random word serialises as the big-endian bytes of
/// `(time as u128) << 64 | random`, that is the big-endian timestamp
/// followed by the big-endian random word.
#[verifier::external_body]
fn guuid_bytes(time: u64, random: u64) -> (r: Vec<u8>)
    ensures
        r@ == spec_u64_be(time) + spec_u64_be(random),
{
    guuid::Guuid::new(time, random).to_bytes().to_vec()
}

impl FsId {
    /// Serialises the identity through the Guuid it stands for.
    pub fn to_bytes(&self) -> (r: Vec<u8>)
        ensures
            r@ == spec_encode_fs_id(*self),
            r@.len() == IDENTITY_BYTES,
    {
        guuid_bytes(self.time, self.random)
    }
}

/// The identity read from sixteen big-endian bytes.
pub open spec fn spec_decode_fs_id(s: Seq<u8>) -> FsId
    recommends
        s.len() == 16,
{
    FsId { time: spec_u64_from_be(s.subrange(0, 8)), random: spec_u64_from_be(s.subrange(8, 16)) }
}

/// Decoding an encoded identity yields the identity back.
pub proof fn lemma_fs_id_round_trip(id: FsId)
    ensures
        spec_decode_fs_id(spec_encode_fs_id(id)) == id,
{
    let s = spec_encode_fs_id(id);
    assert(s.subrange(0, 8) =~= spec_u64_be(id.time));
    assert(s.subrange(8, 16) =~= spec_u64_be(id.random));
    lemma_u64_be_round_trip(id.time);
    lemma_u64_be_round_trip(id.random);
}

/// The filesystem-wide metadata record that lives at LBA 0.
#[derive(Clone, Copy, PartialEq, Eq, Structural, Debug)]
pub struct SuperBlock {
    /// The filesystem version.
    pub version: u64,
    /// The filesystem's 128-bit identity.
    pub identity: FsId,
    /// The filesystem's total length in bytes, its own blocks included.
    pub length: u64,
    /// The first LBA of the free-space bitmap.
    pub map_address: u64,
    /// The number of blocks the bitmap occupies.
    pub map_length: u64,
}

/// The on-disk bytes of a superblock record: version, identity, length,
/// bitmap address and bitmap length, each big-endian and fixed-width.
pub open spec fn spec_encode_super_block(sb: SuperBlock) -> Seq<u8> {
    spec_u64_be(sb.version) + spec_encode_fs_id(sb.identity) + spec_u64_be(sb.length)
        + spec_u64_be(sb.map_address) + spec_u64_be(sb.map_length)
}

/// The superblock record read from 48 bytes.
pub open spec fn spec_decode_super_block(s: Seq<u8>) -> SuperBlock
    recommends
        s.len() >= 48,
{
    SuperBlock {
        version: spec_u64_from_be(s.subrange(0, 8)),
        identity: spec_decode_fs_id(s.subrange(8, 24)),
        length: spec_u64_from_be(s.subrange(24, 32)),
        map_address: spec_u64_from_be(s.subrange(32, 40)),
        map_length: spec_u64_from_be(s.subrange(40, 48)),
    }
}

/// Encodes a superblock record.
pub fn encode_super_block(sb: &SuperBlock) -> (r: Vec<u8>)
    ensures
        r@ == spec_encode_super_block(*sb),
        r@.len() == SUPER_BLOCK_BYTES,
{
    let mut out: Vec<u8> = Vec::new();
    push_u64_be(&mut out, sb.version);
    let mut id = sb.identity.to_bytes();
    out.append(&mut id);
    push_u64_be(&mut out, sb.length);
    push_u64_be(&mut out, sb.map_address);
    push_u64_be(&mut out, sb.map_length);
    assert(out@ =~= spec_encode_super_block(*sb));
    out
}

/// Decodes the superblock record at the start of `bytes`.
pub fn decode_super_block(bytes: &[u8]) -> (r: SuperBlock)
    requires
        bytes@.len() >= SUPER_BLOCK_BYTES,
    ensures
        r == spec_decode_super_block(bytes@),
{
    let r = SuperBlock {
        version: u64_from_be_at(bytes, 0),
        identity: FsId { time: u64_from_be_at(bytes, 8), random: u64_from_be_at(bytes, 16) },
        length: u64_from_be_at(bytes, 24),
        map_address: u64_from_be_at(bytes, 32),
        map_length: u64_from_be_at(bytes, 40),
    };
    assert(bytes@.subrange(8, 24).subrange(0, 8) =~= bytes@.subrange(8, 16));
    assert(bytes@.subrange(8, 24).subrange(8, 16) =~= bytes@.subrange(16, 24));
    r
}

/// Decoding an encoded superblock record yields the record back.
pub proof fn lemma_super_block_round_trip(sb: SuperBlock)
    ensures
        spec_decode_super_block(spec_encode_super_block(sb)) == sb,
{
    let s = spec_encode_super_block(sb);
    assert(s.subrange(0, 8) =~= spec_u64_be(sb.version));
    assert(s.subrange(8, 24) =~= spec_encode_fs_id(sb.identity));
    assert(s.subrange(24, 32) =~= spec_u64_be(sb.length));
    assert(s.subrange(32, 40) =~= spec_u64_be(sb.map_address));
    assert(s.subrange(40, 48) =~= spec_u64_be(sb.map_length));
    lemma_u64_be_round_trip(sb.version);
    lemma_fs_id_round_trip(sb.identity);
    lemma_u64_be_round_trip(sb.length);
    lemma_u64_be_round_trip(sb.map_address);
    lemma_u64_be_round_trip(sb.map_length);
}

/// A name padded with zero bytes to the fixed 256-byte record field.
pub open spec fn spec_pad_name(name: Seq<u8>) -> Seq<u8>
    recommends
        name.len() <= 256,
{
    name + zero_bytes(256 - name.len())
}

/// Pads `name` to the fixed 256-byte record field, refusing a longer name.
pub fn pad_name(name: &[u8]) -> (r: Result<Vec<u8>, FsError>)
    ensures
        match r {
            Ok(padded) => name@.len() <= 256 && padded@ == spec_pad_name(name@),
            Err(e) => name@.len() > 256 && e matches FsError::NameTooLong,
        },
{
    if name.len() > NAME_BYTES {
        return Err(FsError::NameTooLong);
    }
    let mut padded: Vec<u8> = Vec::new();
    push_bytes(&mut padded, name);
    push_zeros(&mut padded, NAME_BYTES - name.len());
    Ok(padded)
}

/// A directory record: a fixed-width name and a pointer to the first
/// directory item of its contents, or 0 if the directory is empty.
#[derive(Clone, PartialEq, Eq, Debug)]
pub struct Directory {
    /// The directory's name, UTF-8 padded with zero bytes to 256 bytes.
    pub name: Vec<u8>,
    /// The LBA of the first directory item record, or 0 if none.
    pub index_data_lba: u64,
}

/// The mathematical model of a directory record.
pub struct DirectoryView {
    pub name: Seq<u8>,
    pub index_data_lba: u64,
}

impl DirectoryView {
    /// The name field holds exactly the 256 bytes the record stores.
    pub open spec fn wf(&self) -> bool {
        self.name.len() == 256
    }
}

impl View for Directory {
    type V = DirectoryView;

    open spec fn view(&self) -> DirectoryView {
        DirectoryView { name: self.name@, index_data_lba: self.index_data_lba }
    }
}

impl Directory {
    /// Builds an empty directory record, padding `name` to 256 bytes.
    /// A name longer than 256 bytes is refused.
    pub fn new(name: &[u8]) -> (r: Result<Directory, FsError>)
        ensures
            match r {
                Ok(d) => {
                    &&& name@.len() <= 256
                    &&& d@.wf()
                    &&& d@.name == spec_pad_name(name@)
                    &&& d@.index_data_lba == 0
                },
                Err(e) => name@.len() > 256 && e matches FsError::NameTooLong,
            },
    {
        let padded = pad_name(name)?;
        Ok(Directory { name: padded, index_data_lba: 0 })
    }
}

/// The on-disk bytes of a directory record: the 256-byte name, then the
/// big-endian item pointer.
pub open spec fn spec_encode_directory(d: DirectoryView) -> Seq<u8>
    recommends
        d.wf(),
{
    d.name + spec_u64_be(d.index_data_lba)
}

/// The directory record read from 264 bytes.
pub open spec fn spec_decode_directory(s: Seq<u8>) -> DirectoryView
    recommends
        s.len() >= 264,
{
    DirectoryView {
        name: s.subrange(0, 256),
        index_data_lba: spec_u64_from_be(s.subrange(256, 264)),
    }
}

/// Encodes a directory record.
pub fn encode_directory(d: &Directory) -> (r: Vec<u8>)
    requires
        d@.wf(),
    ensures
        r@ == spec_encode_directory(d@),
        r@.len() == DIRECTORY_BYTES,
{
    let mut out: Vec<u8> = Vec::new();
    push_bytes(&mut out, d.name.as_slice());
    push_u64_be(&mut out, d.index_data_lba);
    out
}

/// Decodes the directory record at the start of `bytes`.
pub fn decode_directory(bytes: &[u8]) -> (r: Directory)
    requires
        bytes@.len() >= DIRECTORY_BYTES,
    ensures
        r@ == spec_decode_directory(bytes@),
        r@.wf(),
{
    let name = slice_to_vec(slice_subrange(bytes, 0, NAME_BYTES));
    let index_data_lba = u64_from_be_at(bytes, NAME_BYTES);
    Directory { name, index_data_lba }
}

/// Decoding an encoded directory record yields the record back.
pub proof fn lemma_directory_round_trip(d: DirectoryView)
    requires
        d.wf(),
    ensures
        spec_decode_directory(spec_encode_directory(d)) == d,
{
    let s = spec_encode_directory(d);
    assert(s.subrange(0, 256) =~= d.name);
    assert(s.subrange(256, 264) =~= spec_u64_be(d.index_data_lba));
    lemma_u64_be_round_trip(d.index_data_lba);
}

/// A file record: a fixed-width name, the file's size in bytes, and a
/// pointer to the first data block of its content chain, or 0 if none.
#[derive(Clone, PartialEq, Eq, Debug)]
pub struct File {
    /// The file's name, UTF-8 padded with zero bytes to 256 bytes.
    pub name: Vec<u8>,
    /// The file's size in bytes.
    pub size: u64,
    /// The LBA of the first data block of the content chain, or 0 if none.
    pub data_index_lba: u64,
}

/// The mathematical model of a file record.
pub struct FileView {
    pub name: Seq<u8>,
    pub size: u64,
    pub data_index_lba: u64,
}

impl FileView {
    /// The name field holds exactly the 256 bytes the record stores.
    pub open spec fn wf(&self) -> bool {
        self.name.len() == 256
    }
}

impl View for File {
    type V = FileView;

    open spec fn view(&self) -> FileView {
        FileView { name: self.name@, size: self.size, data_index_lba: self.data_index_lba }
    }
}

impl File {
    /// Builds an empty file record, padding `name` to 256 bytes.
    /// A name longer than 256 bytes is refused.
    pub fn new(name: &[u8]) -> (r: Result<File, FsError>)
        ensures
            match r {
                Ok(f) => {
                    &&& name@.len() <= 256
                    &&& f@.wf()
                    &&& f@.name == spec_pad_name(name@)
                    &&& f@.size == 0
                    &&& f@.data_index_lba == 0
                },
                Err(e) => name@.len() > 256 && e matches FsError::NameTooLong,
            },
    {
        let padded = pad_name(name)?;
        Ok(File { name: padded, size: 0, data_index_lba: 0 })
    }
}

/// The on-disk bytes of a file record: the 256-byte name, then the
/// big-endian size and first data block pointer.
pub open spec fn spec_encode_file(f: FileView) -> Seq<u8>
    recommends
        f.wf(),
{
    f.name + spec_u64_be(f.size) + spec_u64_be(f.data_index_lba)
}

/// The file record read from 272 bytes.
pub open spec fn spec_decode_file(s: Seq<u8>) -> FileView
    recommends
        s.len() >= 272,
{
    FileView {
        name: s.subrange(0, 256),
        size: spec_u64_from_be(s.subrange(256, 264)),
        data_index_lba: spec_u64_from_be(s.subrange(264, 272)),
    }
}

/// Encodes a file record.
pub fn encode_file(f: &File) -> (r: Vec<u8>)
    requires
        f@.wf(),
    ensures
        r@ == spec_encode_file(f@),
        r@.len() == FILE_BYTES,
{
    let mut out: Vec<u8> = Vec::new();
    push_bytes(&mut out, f.name.as_slice());
    push_u64_be(&mut out, f.size);
    push_u64_be(&mut out, f.data_index_lba);
    out
}

/// Decodes the file record at the start of `bytes`.
pub fn decode_file(bytes: &[u8]) -> (r: File)
    requires
        bytes@.len() >= FILE_BYTES,
    ensures
        r@ == spec_decode_file(bytes@),
        r@.wf(),
{
    let name = slice_to_vec(slice_subrange(bytes, 0, NAME_BYTES));
    let size = u64_from_be_at(bytes, NAME_BYTES);
    let data_index_lba = u64_from_be_at(bytes, NAME_BYTES + U64_BYTES);
    File { name, size, data_index_lba }
}

/// Decoding an encoded file record yields the record back.
pub proof fn lemma_file_round_trip(f: FileView)
    requires
        f.wf(),
    ensures
        spec_decode_file(spec_encode_file(f)) == f,
{
    let s = spec_encode_file(f);
    assert(s.subrange(0, 256) =~= f.name);
    assert(s.subrange(256, 264) =~= spec_u64_be(f.size));
    assert(s.subrange(264, 272) =~= spec_u64_be(f.data_index_lba));
    lemma_u64_be_round_trip(f.size);
    lemma_u64_be_round_trip(f.data_index_lba);
}

/// A data block record: one link of a file's doubly linked content chain.
#[derive(Clone, PartialEq, Eq, Debug)]
pub struct DataBlock {
    /// The LBA of the previous data block, or 0 if this is the first.
    pub prev_block_index: u64,
    /// The LBA of the next data block, or 0 if this is the last.
    pub next_block_index: u64,
    /// The number of payload bytes this block carries.
    pub size: u64,
    /// The payload itself.
    pub payload: Vec<u8>,
}

/// The mathematical model of a data block record.
pub struct DataBlockView {
    pub prev_block_index: u64,
    pub next_block_index: u64,
    pub size: u64,
    pub payload: Seq<u8>,
}

impl DataBlockView {
    /// The size field counts exactly the payload bytes.
    pub open spec fn wf(&self) -> bool {
        self.payload.len() == self.size
    }
}

impl View for DataBlock {
    type V = DataBlockView;

    open spec fn view(&self) -> DataBlockView {
        DataBlockView {
            prev_block_index: self.prev_block_index,
            next_block_index: self.next_block_index,
            size: self.size,
            payload: self.payload@,
        }
    }
}

/// The on-disk bytes of a data block record: the big-endian previous and
/// next links and payload size, then the payload itself.
pub open spec fn spec_encode_data_block(d: DataBlockView) -> Seq<u8>
    recommends
        d.wf(),
{
    spec_u64_be(d.prev_block_index) + spec_u64_be(d.next_block_index) + spec_u64_be(d.size)
        + d.payload
}

/// The data block record read from `bytes`, or `None` where the stated
/// payload size exceeds the bytes that follow the header.
pub open spec fn spec_decode_data_block(s: Seq<u8>) -> Option<DataBlockView>
    recommends
        s.len() >= 24,
{
    let size = spec_u64_from_be(s.subrange(16, 24));
    if size <= s.len() - 24 {
        Some(
            DataBlockView {
                prev_block_index: spec_u64_from_be(s.subrange(0, 8)),
                next_block_index: spec_u64_from_be(s.subrange(8, 16)),
                size,
                payload: s.subrange(24, 24 + size as int),
            },
        )
    } else {
        None
    }
}

/// Encodes a data block record.
pub fn encode_data_block(d: &DataBlock) -> (r: Vec<u8>)
    requires
        d@.wf(),
    ensures
        r@ == spec_encode_data_block(d@),
        r@.len() == DATA_BLOCK_HEADER_BYTES + d@.payload.len(),
{
    let mut out: Vec<u8> = Vec::new();
    push_u64_be(&mut out, d.prev_block_index);
    push_u64_be(&mut out, d.next_block_index);
    push_u64_be(&mut out, d.size);
    push_bytes(&mut out, d.payload.as_slice());
    out
}

/// Decodes the data block record at the start of `bytes`.
pub fn decode_data_block(bytes: &[u8]) -> (r: Option<DataBlock>)
    requires
        bytes@.len() >= DATA_BLOCK_HEADER_BYTES,
    ensures
        match r {
            Some(d) => spec_decode_data_block(bytes@) == Some(d@) && d@.wf(),
            None => spec_decode_data_block(bytes@) is None,
        },
{
    let prev_block_index = u64_from_be_at(bytes, 0);
    let next_block_index = u64_from_be_at(bytes, 8);
    let size = u64_from_be_at(bytes, 16);
    if size > (bytes.len() - DATA_BLOCK_HEADER_BYTES) as u64 {
        return None;
    }
    let payload = slice_to_vec(
        slice_subrange(bytes, DATA_BLOCK_HEADER_BYTES, DATA_BLOCK_HEADER_BYTES + size as usize),
    );
    Some(DataBlock { prev_block_index, next_block_index, size, payload })
}

/// Decoding an encoded data block record yields the record back.
pub proof fn lemma_data_block_round_trip(d: DataBlockView)
    requires
        d.wf(),
    ensures
        spec_decode_data_block(spec_encode_data_block(d)) == Some(d),
{
    let s = spec_encode_data_block(d);
    assert(s.subrange(0, 8) =~= spec_u64_be(d.prev_block_index));
    assert(s.subrange(8, 16) =~= spec_u64_be(d.next_block_index));
    assert(s.subrange(16, 24) =~= spec_u64_be(d.size));
    lemma_u64_be_round_trip(d.prev_block_index);
    lemma_u64_be_round_trip(d.next_block_index);
    lemma_u64_be_round_trip(d.size);
    assert(s.subrange(24, 24 + d.size as int) =~= d.payload);
}

/// The tag of a directory item: the kind of record it points at.
#[derive(Clone, Copy, PartialEq, Eq, Structural, Debug)]
pub enum DirectoryItemType {
    /// The item points at a file record.
    File,
    /// The item points at a directory record.
    Directory,
}

/// The tag stored on disk for each directory item type: 0 for a file,
/// 1 for a directory.
pub open spec fn spec_item_tag(t: DirectoryItemType) -> u64 {
    match t {
        DirectoryItemType::File => 0u64,
        DirectoryItemType::Directory => 1u64,
    }
}

/// A directory item record: one entry of a directory's contents, pointing
/// at a file or directory record. The record itself carries no link to a
/// sibling item; how a directory's items are chained is left to the caller
/// that owns the tree structure.
#[derive(Clone, Copy, PartialEq, Eq, Structural, Debug)]
pub struct DirectoryItem {
    /// The kind of record the item points at.
    pub item_type: DirectoryItemType,
    /// The LBA of the file or directory record.
    pub item_lba: u64,
}

/// The on-disk bytes of a directory item record: the big-endian type tag,
/// then the big-endian record pointer.
pub open spec fn spec_encode_directory_item(item: DirectoryItem) -> Seq<u8> {
    spec_u64_be(spec_item_tag(item.item_type)) + spec_u64_be(item.item_lba)
}

/// The directory item record read from 16 bytes, or `None` where the type
/// tag names no known kind.
pub open spec fn spec_decode_directory_item(s: Seq<u8>) -> Option<DirectoryItem>
    recommends
        s.len() >= 16,
{
    let tag = spec_u64_from_be(s.subrange(0, 8));
    let item_lba = spec_u64_from_be(s.subrange(8, 16));
    if tag == 0 {
        Some(DirectoryItem { item_type: DirectoryItemType::File, item_lba })
    } else if tag == 1 {
        Some(DirectoryItem { item_type: DirectoryItemType::Directory, item_lba })
    } else {
        None
    }
}

/// Encodes a directory item record.
pub fn encode_directory_item(item: &DirectoryItem) -> (r: Vec<u8>)
    ensures
        r@ == spec_encode_directory_item(*item),
        r@.len() == DIRECTORY_ITEM_BYTES,
{
    let tag: u64 = match item.item_type {
        DirectoryItemType::File => 0,
        DirectoryItemType::Directory => 1,
    };
    let mut out: Vec<u8> = Vec::new();
    push_u64_be(&mut out, tag);
    push_u64_be(&mut out, item.item_lba);
    out
}

/// Decodes the directory item record at the start of `bytes`.
pub fn decode_directory_item(bytes: &[u8]) -> (r: Option<DirectoryItem>)
    requires
        bytes@.len() >= DIRECTORY_ITEM_BYTES,
    ensures
        r == spec_decode_directory_item(bytes@),
{
    let tag = u64_from_be_at(bytes, 0);
    let item_lba = u64_from_be_at(bytes, 8);
    if tag == 0 {
        Some(DirectoryItem { item_type: DirectoryItemType::File, item_lba })
    } else if tag == 1 {
        Some(DirectoryItem { item_type: DirectoryItemType::Directory, item_lba })
    } else {
        None
    }
}

/// Decoding an encoded directory item record yields the record back.
pub proof fn lemma_directory_item_round_trip(item: DirectoryItem)
    ensures
        spec_decode_directory_item(spec_encode_directory_item(item)) == Some(item),
{
    let s = spec_encode_directory_item(item);
    assert(s.subrange(0, 8) =~= spec_u64_be(spec_item_tag(item.item_type)));
    assert(s.subrange(8, 16) =~= spec_u64_be(item.item_lba));
    lemma_u64_be_round_trip(spec_item_tag(item.item_type));
    lemma_u64_be_round_trip(item.item_lba);
}

} // verus!
