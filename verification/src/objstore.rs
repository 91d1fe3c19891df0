//! A persistent object store on a block device.
//!
//! Mirrored directory banks contain only atomic locators. Every allocated object
//! has a header with its generation, exact data length, extents and content
//! hash. Replacement is copy-on-write: data, header and allocation state are
//! durable before a locator in the alternate directory bank changes. Mount
//! selects the newest valid copy of each locator and rebuilds the bitmap from
//! the reachable headers, which reclaims allocations that were never committed.
use std::collections::BTreeMap;

use vstd::prelude::*;

use crate::hash;
use crate::wire;

verus! {

broadcast use vstd::std_specs::btree::group_btree_axioms;

pub const SB_MAGIC: u64 = 0x3352_5453_424a_4f43;

pub const SB_VERSION: u32 = 3;

/// Bytes of a superblock.
pub const SB_LEN: usize = 80;

/// Bytes of a directory entry.
pub const DIR_ENTRY_SIZE: usize = 32;

pub const DIR_CRC_SALT: u32 = 0x3344_4952;

pub const MAX_DIRECTORY_BLOCKS: u32 = 4096;

pub const FLAG_ALLOCATED: u32 = 1;

pub const HEADER_MAGIC: u64 = 0x3244_484a_424f_4343;

pub const HEADER_VERSION: u16 = 3;

/// Bytes of an object header.
pub const HEADER_LEN: usize = 384;

/// Extents of an object.
pub const MAX_EXTENTS: usize = 16;

/// The content hash that a header names.
pub const HASH_FNV1A64: u16 = 2;

/// Where the parts of a store lie on the device.
#[derive(Clone, Copy, Debug, PartialEq, Eq, Structural)]
pub struct Layout {
    pub bitmap_lba: u64,
    pub bitmap_blocks: u32,
    pub directory_lba: u64,
    pub directory_blocks: u32,
    pub data_lba: u64,
}

/// Blocks of each directory bank: roughly 1/2048 of the device, which keeps
/// metadata proportional to capacity without letting it dominate a large device.
pub open spec fn bank_blocks(total_blocks: u32) -> int {
    if total_blocks / 2048 < 1 {
        1
    } else if total_blocks / 2048 > MAX_DIRECTORY_BLOCKS {
        MAX_DIRECTORY_BLOCKS as int
    } else {
        total_blocks as int / 2048
    }
}

/// The layout of a device: two superblocks, the bitmap, two directory banks and
/// the data. `None` where that leaves less than two data blocks.
pub open spec fn layout_of(block_size: u32, total_blocks: u32) -> Option<Layout> {
    let bitmap_blocks = wire::units(wire::units(total_blocks as int, 8), block_size as int);
    let directory_lba = 2 + bitmap_blocks;
    let data_lba = directory_lba + 2 * bank_blocks(total_blocks);
    if data_lba + 2 <= total_blocks {
        Some(
            Layout {
                bitmap_lba: 2,
                bitmap_blocks: bitmap_blocks as u32,
                directory_lba: directory_lba as u64,
                directory_blocks: bank_blocks(total_blocks) as u32,
                data_lba: data_lba as u64,
            },
        )
    } else {
        None
    }
}

/// The quotient, rounded up.
fn div_up(value: u32, by: u32) -> (quotient: u32)
    requires
        by > 0,
    ensures
        quotient == wire::units(value as int, by as int),
        quotient <= value,
{
    proof {
        let v = value as int;
        let b = by as int;
        let q = v / b;
        let r = v % b;
        assert(v == q * b + r && 0 <= r < b && 0 <= q <= v) by (nonlinear_arith)
            requires
                q == v / b,
                r == v % b,
                b > 0,
                v >= 0,
        ;
        if r == 0 {
            assert((v + b - 1) / b == q) by (nonlinear_arith)
                requires
                    v == q * b,
                    b > 0,
            ;
        } else {
            assert((v + b - 1) / b == q + 1) by (nonlinear_arith)
                requires
                    v == q * b + r,
                    0 < r < b,
            ;
            assert(q + 1 <= v) by (nonlinear_arith)
                requires
                    v == q * b + r,
                    0 < r < b,
                    q >= 0,
            ;
        }
    }
    let quotient: u32 = value / by;
    if value % by == 0 {
        quotient
    } else {
        quotient + 1
    }
}

impl Layout {
    pub fn for_device(block_size: u32, total_blocks: u32) -> (layout: Option<Layout>)
        requires
            block_size > 0,
        ensures
            layout == layout_of(block_size, total_blocks),
    {
        let bitmap_bytes: u32 = div_up(total_blocks, 8);
        let bitmap_blocks: u32 = div_up(bitmap_bytes, block_size);
        let share: u32 = total_blocks / 2048;
        let directory_blocks: u32 = if share < 1 {
            1
        } else if share > MAX_DIRECTORY_BLOCKS {
            MAX_DIRECTORY_BLOCKS
        } else {
            share
        };
        let directory_lba: u64 = 2 + bitmap_blocks as u64;
        let data_lba: u64 = directory_lba + 2 * directory_blocks as u64;
        if data_lba + 2 <= total_blocks as u64 {
            Some(Layout { bitmap_lba: 2, bitmap_blocks, directory_lba, directory_blocks, data_lba })
        } else {
            None
        }
    }

    /// Entries of a directory bank.
    pub open spec fn entries(self, block_size: u32) -> int {
        self.directory_blocks * block_size / DIR_ENTRY_SIZE as int
    }

    /// Entries of a directory bank, where their number fits.
    pub fn directory_entries(self, block_size: u32) -> (entries: Option<u32>)
        ensures
            entries == (if self.entries(block_size) <= u32::MAX {
                Some(self.entries(block_size) as u32)
            } else {
                None
            }),
    {
        proof {
            assert(self.directory_blocks * block_size <= 0xffff_ffff * 0xffff_ffff)
                by (nonlinear_arith)
                requires
                    self.directory_blocks <= 0xffff_ffff,
                    block_size <= 0xffff_ffff,
            ;
        }
        let bytes: u64 = self.directory_blocks as u64 * block_size as u64;
        let entries: u64 = bytes / 32;
        if entries <= 0xffff_ffff {
            Some(entries as u32)
        } else {
            None
        }
    }

    /// The first block of a directory bank.
    pub fn directory_bank_lba(self, bank: u32) -> (lba: Option<u64>)
        requires
            self.directory_lba + self.directory_blocks <= u64::MAX,
        ensures
            lba == (if bank < 2 {
                Some((self.directory_lba + bank * self.directory_blocks) as u64)
            } else {
                None
            }),
    {
        if bank == 0 {
            Some(self.directory_lba)
        } else if bank == 1 {
            Some(self.directory_lba + self.directory_blocks as u64)
        } else {
            None
        }
    }
}

/// A superblock.
#[derive(Clone, Copy, Debug, PartialEq, Eq, Structural)]
pub struct Superblock {
    pub generation: u64,
    pub block_size: u32,
    pub total_blocks: u32,
    pub next_id: u64,
    pub layout: Layout,
}

/// The checked fields of a superblock.
pub open spec fn super_fields(sb: Superblock) -> Seq<(u64, usize)> {
    seq![
        (SB_MAGIC, 8usize),
        (SB_VERSION as u64, 4usize),
        (SB_LEN as u64, 4usize),
        (sb.generation, 8usize),
        (sb.block_size as u64, 4usize),
        (sb.total_blocks as u64, 4usize),
        (sb.next_id, 8usize),
        (sb.layout.bitmap_lba, 8usize),
        (sb.layout.bitmap_blocks as u64, 4usize),
        (sb.layout.directory_blocks as u64, 4usize),
        (sb.layout.directory_lba, 8usize),
        (sb.layout.data_lba, 8usize),
        (0u64, 4usize),
    ]
}

/// Zero bytes.
pub open spec fn zeros(count: int) -> Seq<u8> {
    Seq::new(count as nat, |i: int| 0u8)
}

/// A superblock in a block of `len` bytes: its fields, their CRC and zeros.
pub open spec fn super_code(sb: Superblock, len: int) -> Seq<u8> {
    let fields = wire::coded(super_fields(sb));
    fields + wire::le_bytes(hash::crc32_of(fields) as nat, 4) + zeros(len - SB_LEN)
}

/// Encode a superblock into a block of `len` bytes.
pub fn encode_superblock(sb: &Superblock, len: usize) -> (block: Vec<u8>)
    requires
        len >= SB_LEN,
    ensures
        block@ == super_code(*sb, len as int),
        block@.len() == len,
{
    let fields: [(u64, usize); 13] = [
        (SB_MAGIC, 8),
        (SB_VERSION as u64, 4),
        (SB_LEN as u64, 4),
        (sb.generation, 8),
        (sb.block_size as u64, 4),
        (sb.total_blocks as u64, 4),
        (sb.next_id, 8),
        (sb.layout.bitmap_lba, 8),
        (sb.layout.bitmap_blocks as u64, 4),
        (sb.layout.directory_blocks as u64, 4),
        (sb.layout.directory_lba, 8),
        (sb.layout.data_lba, 8),
        (0, 4),
    ];
    assert(fields@ =~= super_fields(*sb));
    let mut block: Vec<u8> = Vec::new();
    wire::push_fields(&mut block, &fields);
    assert(block@ =~= wire::coded(fields@));
    let crc: u32 = hash::crc32(&block);
    wire::push_le(&mut block, crc as u64, 4);
    wire::push_zeros(&mut block, len - SB_LEN);
    proof {
        assert(block@ =~= super_code(*sb, len as int));
        lemma_super_offsets(*sb);
        wire::lemma_le_bytes_len(crc as nat, 4);
    }
    block
}

proof fn lemma_super_offsets(sb: Superblock)
    ensures
        ({
            let fields = super_fields(sb);
            &&& wire::field_offset(fields, 0) == 0
            &&& wire::field_offset(fields, 1) == 8
            &&& wire::field_offset(fields, 2) == 12
            &&& wire::field_offset(fields, 3) == 16
            &&& wire::field_offset(fields, 4) == 24
            &&& wire::field_offset(fields, 5) == 28
            &&& wire::field_offset(fields, 6) == 32
            &&& wire::field_offset(fields, 7) == 40
            &&& wire::field_offset(fields, 8) == 48
            &&& wire::field_offset(fields, 9) == 52
            &&& wire::field_offset(fields, 10) == 56
            &&& wire::field_offset(fields, 11) == 64
            &&& wire::field_offset(fields, 12) == 72
            &&& wire::coded(fields).len() == 76
        }),
{
    reveal_with_fuel(wire::field_offset, 14);
    wire::lemma_coded_len(super_fields(sb));
}

/// The superblock in a block, where it is one.
pub open spec fn super_decoded(bytes: Seq<u8>) -> Option<Superblock> {
    if bytes.len() < SB_LEN || wire::field(bytes, 0, 8) != SB_MAGIC || wire::field(bytes, 8, 4)
        != SB_VERSION || wire::field(bytes, 12, 4) != SB_LEN || wire::field(bytes, 76, 4)
        != hash::crc32_of(bytes.take(76)) {
        None
    } else {
        Some(
            Superblock {
                generation: wire::field(bytes, 16, 8) as u64,
                block_size: wire::field(bytes, 24, 4) as u32,
                total_blocks: wire::field(bytes, 28, 4) as u32,
                next_id: wire::field(bytes, 32, 8) as u64,
                layout: Layout {
                    bitmap_lba: wire::field(bytes, 40, 8) as u64,
                    bitmap_blocks: wire::field(bytes, 48, 4) as u32,
                    directory_blocks: wire::field(bytes, 52, 4) as u32,
                    directory_lba: wire::field(bytes, 56, 8) as u64,
                    data_lba: wire::field(bytes, 64, 8) as u64,
                },
            },
        )
    }
}

fn read_u64(bytes: &[u8], at: usize) -> (value: u64)
    requires
        at + 8 <= bytes@.len(),
    ensures
        value == wire::field(bytes@, at as int, 8),
{
    wire::read_le(bytes, at, 8)
}

fn read_u32(bytes: &[u8], at: usize) -> (value: u32)
    requires
        at + 4 <= bytes@.len(),
    ensures
        value == wire::field(bytes@, at as int, 4),
{
    proof {
        wire::lemma_byte_capacities();
    }
    wire::read_le(bytes, at, 4) as u32
}

fn read_u16(bytes: &[u8], at: usize) -> (value: u16)
    requires
        at + 2 <= bytes@.len(),
    ensures
        value == wire::field(bytes@, at as int, 2),
{
    proof {
        wire::lemma_byte_capacities();
    }
    wire::read_le(bytes, at, 2) as u16
}

/// The CRC-32 of the first `len` bytes.
fn prefix_crc(bytes: &[u8], len: usize) -> (crc: u32)
    requires
        len <= bytes@.len(),
    ensures
        crc == hash::crc32_of(bytes@.take(len as int)),
{
    let prefix: Vec<u8> = wire::copy_range(bytes, 0, len);
    assert(prefix@ =~= bytes@.take(len as int));
    hash::crc32(&prefix)
}

/// Decode a superblock.
pub fn decode_superblock(bytes: &[u8]) -> (sb: Option<Superblock>)
    ensures
        sb == super_decoded(bytes@),
{
    if bytes.len() < SB_LEN {
        return None;
    }
    if read_u64(bytes, 0) != SB_MAGIC || read_u32(bytes, 8) != SB_VERSION || read_u32(bytes, 12)
        as usize != SB_LEN || read_u32(bytes, 76) != prefix_crc(bytes, 76) {
        return None;
    }
    Some(
        Superblock {
            generation: read_u64(bytes, 16),
            block_size: read_u32(bytes, 24),
            total_blocks: read_u32(bytes, 28),
            next_id: read_u64(bytes, 32),
            layout: Layout {
                bitmap_lba: read_u64(bytes, 40),
                bitmap_blocks: read_u32(bytes, 48),
                directory_blocks: read_u32(bytes, 52),
                directory_lba: read_u64(bytes, 56),
                data_lba: read_u64(bytes, 64),
            },
        },
    )
}

/// A superblock that was written reads back.
pub proof fn law_superblock_round_trip(sb: Superblock, len: int)
    requires
        len >= SB_LEN,
    ensures
        super_decoded(super_code(sb, len)) == Some(sb),
{
    let bytes = super_code(sb, len);
    let fields = super_fields(sb);
    let code = wire::coded(fields);
    let crc = hash::crc32_of(code);
    let tail = wire::le_bytes(crc as nat, 4);
    wire::lemma_byte_capacities();
    lemma_super_offsets(sb);
    wire::lemma_le_bytes_len(crc as nat, 4);
    assert(bytes.take(76) =~= code);
    wire::lemma_read_coded(bytes, fields, 0);
    wire::lemma_read_coded(bytes, fields, 1);
    wire::lemma_read_coded(bytes, fields, 2);
    wire::lemma_read_coded(bytes, fields, 3);
    wire::lemma_read_coded(bytes, fields, 4);
    wire::lemma_read_coded(bytes, fields, 5);
    wire::lemma_read_coded(bytes, fields, 6);
    wire::lemma_read_coded(bytes, fields, 7);
    wire::lemma_read_coded(bytes, fields, 8);
    wire::lemma_read_coded(bytes, fields, 9);
    wire::lemma_read_coded(bytes, fields, 10);
    wire::lemma_read_coded(bytes, fields, 11);
    assert(bytes.subrange(76, 80) =~= tail);
    wire::lemma_le_round_trip(crc as nat, 4);
}

/// A locator: where an object's header is. Object zero is none.
#[derive(Clone, Copy, Debug, PartialEq, Eq, Structural)]
pub struct DirectoryEntry {
    pub id: u64,
    pub flags: u32,
    pub generation: u32,
    pub header_lba: u64,
    pub header_blocks: u32,
}

/// A free entry that was never used.
pub open spec fn free_entry() -> DirectoryEntry {
    DirectoryEntry { id: 0, flags: 0, generation: 0, header_lba: 0, header_blocks: 0 }
}

fn unused_entry() -> (entry: DirectoryEntry)
    ensures
        entry == free_entry(),
{
    DirectoryEntry { id: 0, flags: 0, generation: 0, header_lba: 0, header_blocks: 0 }
}

/// The checked fields of a directory entry.
pub open spec fn entry_fields(entry: DirectoryEntry) -> Seq<(u64, usize)> {
    seq![
        (entry.id, 8usize),
        (entry.flags as u64, 4usize),
        (entry.generation as u64, 4usize),
        (entry.header_lba, 8usize),
        (entry.header_blocks as u64, 4usize),
    ]
}

/// The bytes of a directory entry: its fields and their salted CRC.
pub open spec fn entry_code(entry: DirectoryEntry) -> Seq<u8> {
    let fields = wire::coded(entry_fields(entry));
    fields + wire::le_bytes((hash::crc32_of(fields) ^ DIR_CRC_SALT) as nat, 4)
}

proof fn lemma_entry_offsets(entry: DirectoryEntry)
    ensures
        ({
            let fields = entry_fields(entry);
            &&& wire::field_offset(fields, 0) == 0
            &&& wire::field_offset(fields, 1) == 8
            &&& wire::field_offset(fields, 2) == 12
            &&& wire::field_offset(fields, 3) == 16
            &&& wire::field_offset(fields, 4) == 24
            &&& wire::coded(fields).len() == 28
        }),
        entry_code(entry).len() == DIR_ENTRY_SIZE,
{
    reveal_with_fuel(wire::field_offset, 6);
    let fields = wire::coded(entry_fields(entry));
    wire::lemma_coded_len(entry_fields(entry));
    wire::lemma_le_bytes_len((hash::crc32_of(fields) ^ DIR_CRC_SALT) as nat, 4);
}

/// Encode a directory entry.
pub fn encode_directory(entry: &DirectoryEntry) -> (bytes: Vec<u8>)
    ensures
        bytes@ == entry_code(*entry),
        bytes@.len() == DIR_ENTRY_SIZE,
{
    let fields: [(u64, usize); 5] = [
        (entry.id, 8),
        (entry.flags as u64, 4),
        (entry.generation as u64, 4),
        (entry.header_lba, 8),
        (entry.header_blocks as u64, 4),
    ];
    assert(fields@ =~= entry_fields(*entry));
    let mut bytes: Vec<u8> = Vec::new();
    wire::push_fields(&mut bytes, &fields);
    assert(bytes@ =~= wire::coded(fields@));
    let crc: u32 = hash::crc32(&bytes) ^ DIR_CRC_SALT;
    wire::push_le(&mut bytes, crc as u64, 4);
    proof {
        lemma_entry_offsets(*entry);
    }
    bytes
}

/// The directory entry in 32 bytes. Zeros are a free entry; anything else needs
/// its CRC.
pub open spec fn entry_decoded(bytes: Seq<u8>) -> Option<DirectoryEntry> {
    if bytes.len() < DIR_ENTRY_SIZE {
        None
    } else if forall|i: int| 0 <= i < bytes.len() ==> #[trigger] bytes[i] == 0 {
        Some(free_entry())
    } else if wire::field(bytes, 28, 4) != hash::crc32_of(bytes.take(28)) ^ DIR_CRC_SALT {
        None
    } else {
        Some(
            DirectoryEntry {
                id: wire::field(bytes, 0, 8) as u64,
                flags: wire::field(bytes, 8, 4) as u32,
                generation: wire::field(bytes, 12, 4) as u32,
                header_lba: wire::field(bytes, 16, 8) as u64,
                header_blocks: wire::field(bytes, 24, 4) as u32,
            },
        )
    }
}

/// Decode a directory entry.
pub fn decode_directory(bytes: &[u8]) -> (entry: Option<DirectoryEntry>)
    ensures
        entry == entry_decoded(bytes@),
{
    if bytes.len() < DIR_ENTRY_SIZE {
        return None;
    }
    if wire::all_zero(bytes, 0, bytes.len()) {
        return Some(unused_entry());
    }
    if read_u32(bytes, 28) != prefix_crc(bytes, 28) ^ DIR_CRC_SALT {
        return None;
    }
    Some(
        DirectoryEntry {
            id: read_u64(bytes, 0),
            flags: read_u32(bytes, 8),
            generation: read_u32(bytes, 12),
            header_lba: read_u64(bytes, 16),
            header_blocks: read_u32(bytes, 24),
        },
    )
}

/// A directory entry that was written reads back.
pub proof fn law_directory_entry_round_trip(entry: DirectoryEntry)
    ensures
        entry_decoded(entry_code(entry)) == Some(entry),
{
    let bytes = entry_code(entry);
    let fields = entry_fields(entry);
    let code = wire::coded(fields);
    let crc = hash::crc32_of(code) ^ DIR_CRC_SALT;
    wire::lemma_byte_capacities();
    lemma_entry_offsets(entry);
    wire::lemma_le_bytes_len(crc as nat, 4);
    assert(bytes.take(28) =~= code);
    wire::lemma_read_coded(bytes, fields, 0);
    wire::lemma_read_coded(bytes, fields, 1);
    wire::lemma_read_coded(bytes, fields, 2);
    wire::lemma_read_coded(bytes, fields, 3);
    wire::lemma_read_coded(bytes, fields, 4);
    assert(bytes.subrange(28, 32) =~= wire::le_bytes(crc as nat, 4));
    wire::lemma_le_round_trip(crc as nat, 4);
    if forall|i: int| 0 <= i < bytes.len() ==> #[trigger] bytes[i] == 0 {
        lemma_zero_field(bytes, 0, 8);
        lemma_zero_field(bytes, 8, 4);
        lemma_zero_field(bytes, 12, 4);
        lemma_zero_field(bytes, 16, 8);
        lemma_zero_field(bytes, 24, 4);
    }
}

proof fn lemma_zero_value(bytes: Seq<u8>)
    requires
        forall|i: int| 0 <= i < bytes.len() ==> #[trigger] bytes[i] == 0,
    ensures
        wire::le_value(bytes) == 0,
    decreases bytes.len(),
{
    if bytes.len() > 0 {
        lemma_zero_value(bytes.skip(1));
    }
}

proof fn lemma_zero_field(bytes: Seq<u8>, at: int, width: int)
    requires
        0 <= at <= at + width <= bytes.len(),
        forall|i: int| 0 <= i < bytes.len() ==> #[trigger] bytes[i] == 0,
    ensures
        wire::field(bytes, at, width) == 0,
{
    lemma_zero_value(bytes.subrange(at, at + width));
}

/// The newer of the two copies of a locator. A copy that cannot be read does
/// not count.
pub open spec fn newest(first: Option<DirectoryEntry>, second: Option<DirectoryEntry>) ->
    DirectoryEntry {
    match (first, second) {
        (Some(a), Some(b)) => if a.generation >= b.generation {
            a
        } else {
            b
        },
        (Some(entry), None) => entry,
        (None, Some(entry)) => entry,
        (None, None) => free_entry(),
    }
}

/// The newer of the two copies of a locator.
pub fn newest_directory_entry(
    first: Option<DirectoryEntry>,
    second: Option<DirectoryEntry>,
) -> (entry: DirectoryEntry)
    ensures
        entry == newest(first, second),
{
    match (first, second) {
        (Some(a), Some(b)) => {
            if a.generation >= b.generation {
                a
            } else {
                b
            }
        },
        (Some(entry), None) => entry,
        (None, Some(entry)) => entry,
        (None, None) => unused_entry(),
    }
}

/// A run of blocks.
#[derive(Clone, Copy, Debug, PartialEq, Eq, Structural)]
pub struct Extent {
    pub lba: u64,
    pub blocks: u32,
}

/// What an object's header says.
#[verifier::ext_equal]
pub struct HeaderView {
    pub id: u64,
    pub generation: u64,
    pub data_len: u64,
    pub allocated_len: u64,
    pub data_offset: u64,
    pub header_blocks: u32,
    pub extents: Seq<Extent>,
    pub data_hash: u64,
}

/// An object's header.
pub struct ObjectHeader {
    pub id: u64,
    pub generation: u64,
    pub data_len: u64,
    pub allocated_len: u64,
    pub data_offset: u64,
    pub header_blocks: u32,
    /// At most [`MAX_EXTENTS`].
    pub extents: Vec<Extent>,
    pub data_hash: u64,
}

impl View for ObjectHeader {
    type V = HeaderView;

    open spec fn view(&self) -> HeaderView {
        HeaderView {
            id: self.id,
            generation: self.generation,
            data_len: self.data_len,
            allocated_len: self.allocated_len,
            data_offset: self.data_offset,
            header_blocks: self.header_blocks,
            extents: self.extents@,
            data_hash: self.data_hash,
        }
    }
}

/// The first 128 bytes of a header.
pub open spec fn header_fields(header: HeaderView, checksum: u32) -> Seq<(u64, usize)> {
    seq![
        (HEADER_MAGIC, 8usize),
        (HEADER_VERSION as u64, 2usize),
        (HEADER_LEN as u64, 2usize),
        (FLAG_ALLOCATED as u64, 4usize),
        (header.id, 8usize),
        (header.generation, 8usize),
        (header.data_len, 8usize),
        (header.allocated_len, 8usize),
        (header.data_offset, 8usize),
        (header.extents.len() as u64, 2usize),
        (HASH_FNV1A64 as u64, 2usize),
        (header.header_blocks as u64, 4usize),
        (0u64, 8usize),
        (0u64, 8usize),
        (header.data_hash, 8usize),
        (0u64, 8usize),
        (0u64, 8usize),
        (0u64, 8usize),
        (checksum as u64, 4usize),
        (0u64, 4usize),
        (0u64, 8usize),
    ]
}

/// An extent in a header.
pub open spec fn extent_fields(extent: Extent) -> Seq<(u64, usize)> {
    seq![(extent.lba, 8usize), (extent.blocks as u64, 4usize), (0u64, 4usize)]
}

/// The extents of a header, followed by zeros.
pub open spec fn extents_code(extents: Seq<Extent>) -> Seq<u8> {
    wire::records(extents, |extent: Extent| wire::coded(extent_fields(extent))) + zeros(
        16 * (MAX_EXTENTS - extents.len()),
    )
}

/// The 384 bytes of a header with a given checksum.
pub open spec fn header_bytes(header: HeaderView, checksum: u32) -> Seq<u8> {
    wire::coded(header_fields(header, checksum)) + extents_code(header.extents)
}

/// A header in `len` bytes. Its checksum is the CRC of the header with a zero
/// in the checksum's place.
pub open spec fn header_code(header: HeaderView, len: int) -> Seq<u8> {
    header_bytes(header, hash::crc32_of(header_bytes(header, 0))) + zeros(len - HEADER_LEN)
}

proof fn lemma_header_offsets(header: HeaderView, checksum: u32)
    ensures
        ({
            let fields = header_fields(header, checksum);
            &&& wire::field_offset(fields, 0) == 0
            &&& wire::field_offset(fields, 1) == 8
            &&& wire::field_offset(fields, 2) == 10
            &&& wire::field_offset(fields, 3) == 12
            &&& wire::field_offset(fields, 4) == 16
            &&& wire::field_offset(fields, 5) == 24
            &&& wire::field_offset(fields, 6) == 32
            &&& wire::field_offset(fields, 7) == 40
            &&& wire::field_offset(fields, 8) == 48
            &&& wire::field_offset(fields, 9) == 56
            &&& wire::field_offset(fields, 10) == 58
            &&& wire::field_offset(fields, 11) == 60
            &&& wire::field_offset(fields, 14) == 80
            &&& wire::field_offset(fields, 18) == 112
            &&& wire::field_offset(fields, 19) == 116
            &&& wire::coded(fields).len() == 128
        }),
{
    reveal_with_fuel(wire::field_offset, 22);
    wire::lemma_coded_len(header_fields(header, checksum));
}

proof fn lemma_extents_len(extents: Seq<Extent>)
    ensures
        wire::records(extents, |extent: Extent| wire::coded(extent_fields(extent))).len() == 16
            * extents.len(),
    decreases extents.len(),
{
    let code = |extent: Extent| wire::coded(extent_fields(extent));
    if extents.len() > 0 {
        lemma_extents_len(extents.drop_last());
        lemma_extent_offsets(extents.last());
    }
}

proof fn lemma_extent_offsets(extent: Extent)
    ensures
        wire::field_offset(extent_fields(extent), 0) == 0,
        wire::field_offset(extent_fields(extent), 1) == 8,
        wire::coded(extent_fields(extent)).len() == 16,
{
    reveal_with_fuel(wire::field_offset, 4);
    wire::lemma_coded_len(extent_fields(extent));
}

/// Append the bytes of a header with a given checksum.
fn push_header(out: &mut Vec<u8>, header: &ObjectHeader, checksum: u32)
    requires
        header.extents@.len() <= MAX_EXTENTS,
    ensures
        final(out)@ == old(out)@ + header_bytes(header@, checksum),
        header_bytes(header@, checksum).len() == HEADER_LEN,
{
    let ghost start = out@;
    let ghost code = |extent: Extent| wire::coded(extent_fields(extent));
    let fields: [(u64, usize); 21] = [
        (HEADER_MAGIC, 8),
        (HEADER_VERSION as u64, 2),
        (HEADER_LEN as u64, 2),
        (FLAG_ALLOCATED as u64, 4),
        (header.id, 8),
        (header.generation, 8),
        (header.data_len, 8),
        (header.allocated_len, 8),
        (header.data_offset, 8),
        (header.extents.len() as u64, 2),
        (HASH_FNV1A64 as u64, 2),
        (header.header_blocks as u64, 4),
        (0, 8),
        (0, 8),
        (header.data_hash, 8),
        (0, 8),
        (0, 8),
        (0, 8),
        (checksum as u64, 4),
        (0, 4),
        (0, 8),
    ];
    assert(fields@ =~= header_fields(header@, checksum));
    wire::push_fields(out, &fields);
    let ghost prefix = out@;
    let mut index: usize = 0;
    assert(header.extents@.take(0) =~= Seq::<Extent>::empty());
    assert(out@ =~= prefix + wire::records(header.extents@.take(0), code));
    while index < header.extents.len()
        invariant
            index <= header.extents@.len(),
            code == (|extent: Extent| wire::coded(extent_fields(extent))),
            out@ == prefix + wire::records(header.extents@.take(index as int), code),
        decreases header.extents@.len() - index,
    {
        let extent: Extent = header.extents[index];
        let parts: [(u64, usize); 3] = [(extent.lba, 8), (extent.blocks as u64, 4), (0, 4)];
        assert(parts@ =~= extent_fields(extent));
        wire::push_fields(out, &parts);
        proof {
            let next = header.extents@.take(index + 1);
            assert(next.drop_last() =~= header.extents@.take(index as int));
            assert(out@ =~= prefix + wire::records(next, code));
        }
        index += 1;
    }
    assert(header.extents@.take(index as int) =~= header.extents@);
    wire::push_zeros(out, 16 * (MAX_EXTENTS - header.extents.len()));
    proof {
        assert(out@ =~= start + header_bytes(header@, checksum));
        lemma_header_offsets(header@, checksum);
        lemma_extents_len(header.extents@);
    }
}

/// Encode a header into `len` bytes.
pub fn encode_header(header: &ObjectHeader, len: usize) -> (bytes: Vec<u8>)
    requires
        header.extents@.len() <= MAX_EXTENTS,
        len >= HEADER_LEN,
    ensures
        bytes@ == header_code(header@, len as int),
        bytes@.len() == len,
{
    let mut blank: Vec<u8> = Vec::new();
    push_header(&mut blank, header, 0);
    assert(blank@ =~= header_bytes(header@, 0));
    let checksum: u32 = hash::crc32(&blank);
    let mut bytes: Vec<u8> = Vec::new();
    push_header(&mut bytes, header, checksum);
    wire::push_zeros(&mut bytes, len - HEADER_LEN);
    assert(bytes@ =~= header_code(header@, len as int));
    bytes
}

/// The extent with number `index` of a header.
pub open spec fn extent_at(bytes: Seq<u8>, index: int) -> Extent {
    Extent {
        lba: wire::field(bytes, 128 + 16 * index, 8) as u64,
        blocks: wire::field(bytes, 136 + 16 * index, 4) as u32,
    }
}

/// The length that a header gives itself.
pub open spec fn header_len(bytes: Seq<u8>) -> int {
    wire::field(bytes, 10, 2) as int
}

/// The number of extents that a header has.
pub open spec fn extent_count(bytes: Seq<u8>) -> int {
    wire::field(bytes, 56, 2) as int
}

/// The bytes are a header: the format is known, the CRC is right and no extent
/// is empty.
pub open spec fn is_header(bytes: Seq<u8>) -> bool {
    &&& bytes.len() >= HEADER_LEN
    &&& wire::field(bytes, 0, 8) == HEADER_MAGIC
    &&& wire::field(bytes, 8, 2) == HEADER_VERSION
    &&& HEADER_LEN <= header_len(bytes) <= bytes.len()
    &&& extent_count(bytes) <= MAX_EXTENTS
    &&& wire::field(bytes, 58, 2) == HASH_FNV1A64
    &&& wire::field(bytes, 112, 4) == hash::crc32_of(
        wire::splice(bytes.take(header_len(bytes)), 112, zeros(4)),
    )
    &&& forall|i: int| 0 <= i < extent_count(bytes) ==> (#[trigger] extent_at(bytes, i)).blocks != 0
}

/// The header in a block, where it is one.
pub open spec fn header_decoded(bytes: Seq<u8>) -> Option<HeaderView> {
    if is_header(bytes) {
        Some(
            HeaderView {
                id: wire::field(bytes, 16, 8) as u64,
                generation: wire::field(bytes, 24, 8) as u64,
                data_len: wire::field(bytes, 32, 8) as u64,
                allocated_len: wire::field(bytes, 40, 8) as u64,
                data_offset: wire::field(bytes, 48, 8) as u64,
                header_blocks: wire::field(bytes, 60, 4) as u32,
                extents: Seq::new(extent_count(bytes) as nat, |i: int| extent_at(bytes, i)),
                data_hash: wire::field(bytes, 80, 8) as u64,
            },
        )
    } else {
        None
    }
}

/// Decode a header.
pub fn decode_header(bytes: &[u8]) -> (header: Option<ObjectHeader>)
    ensures
        match header {
            Some(found) => header_decoded(bytes@) == Some(found@) && found.extents@.len()
                <= MAX_EXTENTS,
            None => header_decoded(bytes@) is None,
        },
{
    if bytes.len() < HEADER_LEN {
        return None;
    }
    let len: usize = read_u16(bytes, 10) as usize;
    let count: usize = read_u16(bytes, 56) as usize;
    if read_u64(bytes, 0) != HEADER_MAGIC || read_u16(bytes, 8) != HEADER_VERSION || len
        > bytes.len() || len < HEADER_LEN || count > MAX_EXTENTS || read_u16(bytes, 58)
        != HASH_FNV1A64 {
        return None;
    }
    let mut checked: Vec<u8> = wire::copy_range(bytes, 0, len);
    assert(checked@ =~= bytes@.take(len as int));
    let blank: [u8; 4] = [0, 0, 0, 0];
    assert(blank@ =~= zeros(4));
    wire::write_at(&mut checked, 112, &blank);
    if read_u32(bytes, 112) != hash::crc32(&checked) {
        return None;
    }
    let mut extents: Vec<Extent> = Vec::new();
    let mut index: usize = 0;
    while index < count
        invariant
            index <= count <= MAX_EXTENTS,
            bytes@.len() >= HEADER_LEN,
            count == extent_count(bytes@),
            extents@.len() == index,
            forall|i: int| 0 <= i < index ==> extents@[i] == #[trigger] extent_at(bytes@, i),
            forall|i: int| 0 <= i < index ==> (#[trigger] extent_at(bytes@, i)).blocks != 0,
        decreases count - index,
    {
        let extent: Extent = Extent {
            lba: read_u64(bytes, 128 + 16 * index),
            blocks: read_u32(bytes, 136 + 16 * index),
        };
        assert(extent == extent_at(bytes@, index as int));
        if extent.blocks == 0 {
            return None;
        }
        extents.push(extent);
        index += 1;
    }
    let header: ObjectHeader = ObjectHeader {
        id: read_u64(bytes, 16),
        generation: read_u64(bytes, 24),
        data_len: read_u64(bytes, 32),
        allocated_len: read_u64(bytes, 40),
        data_offset: read_u64(bytes, 48),
        header_blocks: read_u32(bytes, 60),
        extents,
        data_hash: read_u64(bytes, 80),
    };
    proof {
        assert(header.extents@ =~= Seq::new(
            extent_count(bytes@) as nat,
            |i: int| extent_at(bytes@, i),
        ));
        assert(header@ =~= header_decoded(bytes@)->0);
    }
    Some(header)
}

/// A header that can be written: not too many extents, and none is empty.
pub open spec fn writable_header(header: HeaderView) -> bool {
    &&& header.extents.len() <= MAX_EXTENTS
    &&& forall|i: int| 0 <= i < header.extents.len() ==> (#[trigger] header.extents[i]).blocks != 0
}

proof fn lemma_header_checksum_place(header: HeaderView, checksum: u32)
    requires
        header.extents.len() <= MAX_EXTENTS,
    ensures
        wire::splice(header_bytes(header, checksum), 112, zeros(4)) == header_bytes(header, 0),
        header_bytes(header, checksum).len() == HEADER_LEN,
        header_bytes(header, 0).len() == HEADER_LEN,
{
    let fields = header_fields(header, checksum);
    let blank = header_fields(header, 0);
    lemma_header_offsets(header, checksum);
    lemma_header_offsets(header, 0);
    lemma_extents_len(header.extents);
    assert(fields.update(18, (0u64, 4usize)) =~= blank);
    wire::lemma_coded_update(fields, 18, 0);
    wire::lemma_le_zero(4);
    assert(wire::le_bytes(0, 4) =~= zeros(4));
    let code = wire::coded(fields);
    let tail = extents_code(header.extents);
    assert(wire::splice(code, 112, zeros(4)) + tail =~= wire::splice(code + tail, 112, zeros(4)));
}

/// A header that was written reads back.
pub proof fn law_header_round_trip(header: HeaderView, len: int)
    requires
        writable_header(header),
        len >= HEADER_LEN,
    ensures
        header_decoded(header_code(header, len)) == Some(header),
{
    let checksum = hash::crc32_of(header_bytes(header, 0));
    let bytes = header_code(header, len);
    let fields = header_fields(header, checksum);
    let code = wire::coded(fields);
    let coder = |extent: Extent| wire::coded(extent_fields(extent));
    let tail = extents_code(header.extents);
    wire::lemma_byte_capacities();
    lemma_header_offsets(header, checksum);
    lemma_extents_len(header.extents);
    lemma_header_checksum_place(header, checksum);
    assert(bytes.take(128) =~= code);
    wire::lemma_read_coded(bytes, fields, 0);
    wire::lemma_read_coded(bytes, fields, 1);
    wire::lemma_read_coded(bytes, fields, 2);
    wire::lemma_read_coded(bytes, fields, 4);
    wire::lemma_read_coded(bytes, fields, 5);
    wire::lemma_read_coded(bytes, fields, 6);
    wire::lemma_read_coded(bytes, fields, 7);
    wire::lemma_read_coded(bytes, fields, 8);
    wire::lemma_read_coded(bytes, fields, 9);
    wire::lemma_read_coded(bytes, fields, 10);
    wire::lemma_read_coded(bytes, fields, 11);
    wire::lemma_read_coded(bytes, fields, 14);
    wire::lemma_read_coded(bytes, fields, 18);
    assert(bytes.take(384) =~= header_bytes(header, checksum));
    let records = wire::records(header.extents, coder);
    let end = 128 + records.len() as int;
    assert(bytes.subrange(128, end) =~= records);
    assert(wire::holds(bytes, 128, records));
    assert forall|i: int| 0 <= i < header.extents.len() implies #[trigger] extent_at(bytes, i)
        == header.extents[i] by {
        let extent = header.extents[i];
        let parts = extent_fields(extent);
        wire::lemma_holds_record(bytes, 128, header.extents, coder, i);
        lemma_extents_len(header.extents.take(i));
        lemma_extent_offsets(extent);
        let at = 128 + 16 * i;
        assert(wire::holds(bytes, at, wire::coded(parts)));
        wire::lemma_coded_field(parts, 0);
        wire::lemma_coded_field(parts, 1);
        let found = bytes.subrange(at, at + 16);
        assert(found == wire::coded(parts));
        assert(bytes.subrange(at, at + 8) =~= found.subrange(0, 8));
        assert(bytes.subrange(at + 8, at + 12) =~= found.subrange(8, 12));
        wire::lemma_le_round_trip(extent.lba as nat, 8);
        wire::lemma_le_round_trip(extent.blocks as nat, 4);
    }
    assert(header_decoded(bytes)->0.extents =~= header.extents);
    assert(header_decoded(bytes)->0 =~= header);
}

/// The newest locator after a write of generation `entry.generation` into its
/// bank: the other bank holds what the write replaced, or something older.
pub proof fn law_committed_locator_is_selected(
    entry: DirectoryEntry,
    other: Option<DirectoryEntry>,
)
    requires
        other matches Some(older) ==> older.generation < entry.generation,
    ensures
        entry.generation % 2 == 0 ==> newest(entry_decoded(entry_code(entry)), other) == entry,
        entry.generation % 2 == 1 ==> newest(other, entry_decoded(entry_code(entry))) == entry,
{
    law_directory_entry_round_trip(entry);
}

/// A write that never reached the directory, or left its copy unreadable,
/// changes nothing: the locator in the other bank is selected.
pub proof fn law_torn_locator_leaves_the_old_one(old_entry: DirectoryEntry, torn: Seq<u8>)
    requires
        entry_decoded(torn) is None,
    ensures
        newest(entry_decoded(torn), Some(old_entry)) == old_entry,
        newest(Some(old_entry), entry_decoded(torn)) == old_entry,
{
}

/// Blocks `start .. start + blocks` are free.
pub open spec fn range_free(used: Seq<bool>, start: int, blocks: int) -> bool {
    forall|i: int| start <= i < start + blocks ==> !(#[trigger] used[i])
}

/// `used` with blocks `start .. start + blocks` marked.
pub open spec fn marked(used: Seq<bool>, start: int, blocks: int, mark: bool) -> Seq<bool> {
    Seq::new(
        used.len(),
        |i: int|
            if start <= i < start + blocks {
                mark
            } else {
                used[i]
            },
    )
}

/// Mark a range of blocks.
pub fn bitmap_set_range(used: &mut Vec<bool>, start: u32, blocks: u32, mark: bool)
    requires
        start + blocks <= old(used)@.len(),
    ensures
        final(used)@ == marked(old(used)@, start as int, blocks as int, mark),
{
    let ghost before = used@;
    let total: usize = used.len();
    let mut index: u32 = 0;
    assert(used@ =~= marked(before, start as int, 0, mark));
    while index < blocks
        invariant
            index <= blocks,
            start + blocks <= total == before.len() == used@.len(),
            used@ == marked(before, start as int, index as int, mark),
        decreases blocks - index,
    {
        let at: usize = start as usize + index as usize;
        used.set(at, mark);
        index += 1;
        assert(used@ =~= marked(before, start as int, index as int, mark));
    }
}

/// Whether a block of a range is in use.
pub fn bitmap_range_used(used: &Vec<bool>, start: u32, blocks: u32) -> (in_use: bool)
    requires
        start + blocks <= used@.len(),
    ensures
        in_use == !range_free(used@, start as int, blocks as int),
{
    let total: usize = used.len();
    let mut index: u32 = 0;
    while index < blocks
        invariant
            index <= blocks,
            start + blocks <= total == used@.len(),
            range_free(used@, start as int, index as int),
        decreases blocks - index,
    {
        let at: usize = start as usize + index as usize;
        if used[at] {
            assert(used@[start + index]);
            return true;
        }
        index += 1;
    }
    false
}

/// The bitmap byte of blocks `8 * index` on, lowest block first.
pub open spec fn bitmap_byte(used: Seq<bool>, index: int) -> u8 {
    byte_of(used, 8 * index, 8)
}

/// The first `count` of eight blocks as bits.
pub open spec fn byte_of(used: Seq<bool>, start: int, count: int) -> u8
    decreases count,
{
    if count <= 0 {
        0
    } else {
        let at = start + count - 1;
        let bit: int = if at < used.len() && used[at] {
            vstd::arithmetic::power2::pow2((count - 1) as nat) as int
        } else {
            0
        };
        (byte_of(used, start, count - 1) + bit) as u8
    }
}

/// The bitmap as bytes, one bit for each block.
pub open spec fn bitmap_code(used: Seq<bool>) -> Seq<u8> {
    Seq::new(wire::units(used.len() as int, 8) as nat, |i: int| bitmap_byte(used, i))
}

/// The bitmap byte of blocks `start` on.
fn pack_byte(used: &Vec<bool>, start: usize) -> (byte: u8)
    requires
        start < used@.len(),
    ensures
        byte == byte_of(used@, start as int, 8),
{
    let total: usize = used.len();
    let mut byte: u8 = 0;
    let mut weight: u8 = 1;
    let mut bit: usize = 0;
    proof {
        vstd::arithmetic::power2::lemma2_to64();
    }
    while bit < 8
        invariant
            bit <= 8,
            start < total == used@.len(),
            byte == byte_of(used@, start as int, bit as int),
            bit < 8 ==> weight == vstd::arithmetic::power2::pow2(bit as nat),
            byte < vstd::arithmetic::power2::pow2(bit as nat),
        decreases 8 - bit,
    {
        proof {
            vstd::arithmetic::power2::lemma_pow2_unfold((bit + 1) as nat);
            vstd::arithmetic::power2::lemma2_to64();
            if bit < 7 {
                vstd::arithmetic::power2::lemma_pow2_strictly_increases(bit as nat, 7);
            }
        }
        if bit < total - start && used[start + bit] {
            byte = byte + weight;
        }
        bit += 1;
        if bit < 8 {
            weight = weight * 2;
        }
    }
    byte
}

/// Pack the bitmap into bytes.
pub fn bitmap_image(used: &Vec<bool>) -> (image: Vec<u8>)
    ensures
        image@ == bitmap_code(used@),
{
    let total: usize = used.len();
    let mut image: Vec<u8> = Vec::new();
    let mut start: usize = 0;
    let mut done: bool = total == 0;
    while !done
        invariant
            total == used@.len(),
            !done ==> start < total && start == 8 * image@.len(),
            done ==> image@.len() == wire::units(total as int, 8),
            forall|i: int| 0 <= i < image@.len() ==> #[trigger] image@[i] == bitmap_byte(used@, i),
        decreases
            (if done {
                0
            } else {
                total - start + 1
            }),
    {
        image.push(pack_byte(used, start));
        if total - start <= 8 {
            done = true;
        } else {
            start = start + 8;
        }
    }
    assert(image@ =~= bitmap_code(used@));
    image
}

/// `start` is the first run of `blocks` free blocks from `from` on.
pub open spec fn first_fit(used: Seq<bool>, from: int, blocks: int, start: int) -> bool {
    &&& from <= start
    &&& start + blocks <= used.len()
    &&& range_free(used, start, blocks)
    &&& forall|earlier: int| from <= earlier < start ==> !#[trigger] range_free(used, earlier, blocks)
}

/// No run of `blocks` free blocks lies from `from` on.
pub open spec fn no_fit(used: Seq<bool>, from: int, blocks: int) -> bool {
    forall|start: int|
        from <= start && start + blocks <= used.len() ==> !#[trigger] range_free(used, start, blocks)
}

/// Allocate the first run of `blocks` free blocks from `from` on.
pub fn allocate_extent(used: &mut Vec<bool>, from: u32, blocks: u32) -> (start: Option<u32>)
    requires
        old(used)@.len() <= u32::MAX,
    ensures
        match start {
            Some(at) => {
                &&& blocks > 0
                &&& first_fit(old(used)@, from as int, blocks as int, at as int)
                &&& final(used)@ == marked(old(used)@, at as int, blocks as int, true)
            },
            None => {
                &&& blocks == 0 || no_fit(old(used)@, from as int, blocks as int)
                &&& final(used)@ == old(used)@
            },
        },
{
    let total: u32 = used.len() as u32;
    if blocks == 0 || total < blocks {
        return None;
    }
    let limit: u32 = total - blocks;
    let mut start: u32 = from;
    let ghost before = used@;
    while start <= limit
        invariant
            used@ == before,
            before == old(used)@,
            from <= start,
            total == before.len(),
            limit + blocks == total,
            blocks > 0,
            forall|earlier: int|
                from <= earlier < start ==> !#[trigger] range_free(before, earlier, blocks as int),
        decreases
            (if start <= limit {
                limit - start + 1
            } else {
                0
            }),
    {
        if !bitmap_range_used(used, start, blocks) {
            bitmap_set_range(used, start, blocks, true);
            return Some(start);
        }
        start += 1;
    }
    None
}

/// The first free block from `from` on, or the end.
pub open spec fn free_from(used: Seq<bool>, from: int) -> int
    decreases used.len() - from,
{
    if from < 0 || from >= used.len() || !used[from] {
        from
    } else {
        free_from(used, from + 1)
    }
}

/// How many blocks from `from` on are free, counted up to `limit`.
pub open spec fn free_run(used: Seq<bool>, from: int, limit: int) -> int
    decreases limit,
{
    if limit <= 0 || from < 0 || from >= used.len() || used[from] {
        0
    } else {
        1 + free_run(used, from + 1, limit - 1)
    }
}

/// The first `need` free blocks from `from` on, as runs, where `room` runs are
/// enough.
pub open spec fn fragments(used: Seq<bool>, from: int, need: int, room: int) -> Option<Seq<Extent>>
    decreases room,
{
    if need <= 0 {
        Some(Seq::empty())
    } else {
        let start = free_from(used, from);
        if room <= 0 || start >= used.len() {
            None
        } else {
            let count = free_run(used, start, need);
            match fragments(used, start + count, need - count, room - 1) {
                Some(rest) => Some(seq![Extent { lba: start as u64, blocks: count as u32 }] + rest),
                None => None,
            }
        }
    }
}

/// `used` with every extent marked.
pub open spec fn extents_marked(used: Seq<bool>, extents: Seq<Extent>, mark: bool) -> Seq<bool>
    decreases extents.len(),
{
    if extents.len() == 0 {
        used
    } else {
        marked(
            extents_marked(used, extents.drop_last(), mark),
            extents.last().lba as int,
            extents.last().blocks as int,
            mark,
        )
    }
}

/// The extents lie inside `len` blocks, from `from` on.
pub open spec fn extents_within(extents: Seq<Extent>, from: int, len: int) -> bool {
    forall|i: int|
        0 <= i < extents.len() ==> from <= (#[trigger] extents[i]).lba && extents[i].lba
            + extents[i].blocks <= len
}

proof fn lemma_free_from(used: Seq<bool>, from: int)
    requires
        0 <= from <= used.len(),
    ensures
        from <= free_from(used, from) <= used.len(),
        free_from(used, from) < used.len() ==> !used[free_from(used, from)],
        forall|i: int| from <= i < free_from(used, from) ==> #[trigger] used[i],
    decreases used.len() - from,
{
    if from < used.len() && used[from] {
        lemma_free_from(used, from + 1);
    }
}

proof fn lemma_free_run(used: Seq<bool>, from: int, limit: int)
    requires
        0 <= from <= used.len(),
    ensures
        0 <= free_run(used, from, limit),
        limit >= 0 ==> free_run(used, from, limit) <= limit,
        from + free_run(used, from, limit) <= used.len(),
        range_free(used, from, free_run(used, from, limit)),
        from < used.len() && !used[from] && limit > 0 ==> free_run(used, from, limit) > 0,
    decreases limit,
{
    if limit > 0 && from < used.len() && !used[from] {
        lemma_free_run(used, from + 1, limit - 1);
    }
}

/// The first free block from `from` on, or the end.
fn find_free(used: &Vec<bool>, from: u32) -> (at: u32)
    requires
        used@.len() <= u32::MAX,
        from <= used@.len(),
    ensures
        at == free_from(used@, from as int),
        at <= used@.len(),
{
    let total: u32 = used.len() as u32;
    let mut at: u32 = from;
    while at < total && used[at as usize]
        invariant
            from <= at <= total == used@.len(),
            free_from(used@, from as int) == free_from(used@, at as int),
        decreases total - at,
    {
        at += 1;
    }
    at
}

/// How many blocks from `from` on are free, counted up to `limit`.
fn count_free(used: &Vec<bool>, from: u32, limit: u32) -> (count: u32)
    requires
        used@.len() <= u32::MAX,
        from <= used@.len(),
    ensures
        count == free_run(used@, from as int, limit as int),
{
    let total: u32 = used.len() as u32;
    let mut count: u32 = 0;
    while count < limit && from + count < total && !used[(from + count) as usize]
        invariant
            count <= limit,
            from + count <= total == used@.len(),
            free_run(used@, from as int, limit as int) == count + free_run(
                used@,
                from + count,
                limit - count,
            ),
        decreases limit - count,
    {
        count += 1;
    }
    count
}

/// Free the extents that lie from `from` on.
pub fn free_extents(used: &mut Vec<bool>, from: u64, extents: &[Extent])
    requires
        old(used)@.len() <= u32::MAX,
        extents_within(extents@, from as int, old(used)@.len() as int),
    ensures
        final(used)@ == extents_marked(old(used)@, extents@, false),
        final(used)@.len() == old(used)@.len(),
{
    let ghost before = used@;
    let mut index: usize = 0;
    assert(extents@.take(0) =~= Seq::<Extent>::empty());
    while index < extents.len()
        invariant
            index <= extents@.len(),
            before.len() <= u32::MAX,
            extents_within(extents@, from as int, before.len() as int),
            used@.len() == before.len(),
            used@ == extents_marked(before, extents@.take(index as int), false),
        decreases extents@.len() - index,
    {
        let extent: Extent = extents[index];
        assert(extents@[index as int].lba + extents@[index as int].blocks <= before.len());
        bitmap_set_range(used, extent.lba as u32, extent.blocks, false);
        proof {
            let next = extents@.take(index + 1);
            assert(next.drop_last() =~= extents@.take(index as int));
        }
        index += 1;
    }
    assert(extents@.take(index as int) =~= extents@);
}

/// Blocks of all extents.
pub open spec fn extent_blocks(extents: Seq<Extent>) -> int
    decreases extents.len(),
{
    if extents.len() == 0 {
        0
    } else {
        extent_blocks(extents.drop_last()) + extents.last().blocks
    }
}

/// Each extent ends before the next one starts.
pub open spec fn extents_apart(extents: Seq<Extent>) -> bool {
    forall|i: int, j: int|
        0 <= i < j < extents.len() ==> (#[trigger] extents[i]).lba + extents[i].blocks <= (
        #[trigger] extents[j]).lba
}

/// No block of an extent is in use, and no extent is empty.
pub open spec fn extents_free(used: Seq<bool>, extents: Seq<Extent>) -> bool {
    forall|i: int|
        0 <= i < extents.len() ==> (#[trigger] extents[i]).blocks > 0 && range_free(
            used,
            extents[i].lba as int,
            extents[i].blocks as int,
        )
}

proof fn lemma_extent_blocks_first(first: Extent, rest: Seq<Extent>)
    ensures
        extent_blocks(seq![first] + rest) == first.blocks + extent_blocks(rest),
    decreases rest.len(),
{
    reveal_with_fuel(extent_blocks, 2);
    if rest.len() == 0 {
        assert(seq![first] + rest =~= seq![first]);
        assert(seq![first].drop_last() =~= Seq::<Extent>::empty());
    } else {
        lemma_extent_blocks_first(first, rest.drop_last());
        assert((seq![first] + rest).drop_last() =~= seq![first] + rest.drop_last());
    }
}

/// An allocation takes only free blocks, none of them twice, and as many as were
/// asked for, in at most as many runs as there is room for.
pub proof fn law_allocation_takes_free_blocks_once(
    used: Seq<bool>,
    from: int,
    need: int,
    room: int,
)
    requires
        0 <= from <= used.len() <= u32::MAX,
        need >= 0,
        fragments(used, from, need, room) is Some,
    ensures
        ({
            let extents = fragments(used, from, need, room)->0;
            &&& extents_within(extents, from, used.len() as int)
            &&& extents_apart(extents)
            &&& extents_free(used, extents)
            &&& extent_blocks(extents) == need
            &&& extents.len() <= (if room >= 0 {
                room
            } else {
                0
            })
        }),
    decreases room,
{
    let extents = fragments(used, from, need, room)->0;
    if need > 0 {
        let start = free_from(used, from);
        lemma_free_from(used, from);
        lemma_free_run(used, start, need);
        let count = free_run(used, start, need);
        law_allocation_takes_free_blocks_once(used, start + count, need - count, room - 1);
        let rest = fragments(used, start + count, need - count, room - 1)->0;
        let first = Extent { lba: start as u64, blocks: count as u32 };
        assert(extents == seq![first] + rest);
        lemma_extent_blocks_first(first, rest);
        assert forall|i: int| 0 <= i < extents.len() implies from <= (#[trigger] extents[i]).lba
            && extents[i].lba + extents[i].blocks <= used.len() && extents[i].blocks > 0
            && range_free(used, extents[i].lba as int, extents[i].blocks as int) by {
            if i > 0 {
                assert(extents[i] == rest[i - 1]);
            }
        }
        assert forall|i: int, j: int| 0 <= i < j < extents.len() implies (
        #[trigger] extents[i]).lba + extents[i].blocks <= (#[trigger] extents[j]).lba by {
            assert(extents[j] == rest[j - 1]);
            if i > 0 {
                assert(extents[i] == rest[i - 1]);
            }
        }
    } else {
        assert(extents =~= Seq::<Extent>::empty());
    }
}

proof fn lemma_extents_marked(used: Seq<bool>, extents: Seq<Extent>, mark: bool)
    ensures
        extents_marked(used, extents, mark).len() == used.len(),
        forall|i: int|
            0 <= i < used.len() ==> #[trigger] extents_marked(used, extents, mark)[i] == if exists|
                k: int,
            |
                0 <= k < extents.len() && (#[trigger] extents[k]).lba <= i < extents[k].lba
                    + extents[k].blocks {
                mark
            } else {
                used[i]
            },
    decreases extents.len(),
{
    if extents.len() > 0 {
        let before = extents.drop_last();
        lemma_extents_marked(used, before, mark);
        let after = extents_marked(used, extents, mark);
        assert forall|i: int| 0 <= i < used.len() implies #[trigger] after[i] == if exists|k: int|
            0 <= k < extents.len() && (#[trigger] extents[k]).lba <= i < extents[k].lba
                + extents[k].blocks {
            mark
        } else {
            used[i]
        } by {
            let last = extents.len() - 1;
            if extents[last].lba <= i < extents[last].lba + extents[last].blocks {
            } else {
                assert(after[i] == extents_marked(used, before, mark)[i]);
                if exists|k: int|
                    0 <= k < extents.len() && (#[trigger] extents[k]).lba <= i < extents[k].lba
                        + extents[k].blocks {
                    let k = choose|k: int|
                        0 <= k < extents.len() && (#[trigger] extents[k]).lba <= i < extents[k].lba
                            + extents[k].blocks;
                    assert(before[k] == extents[k]);
                } else {
                    assert forall|k: int| 0 <= k < before.len() implies !((
                    #[trigger] before[k]).lba <= i < before[k].lba + before[k].blocks) by {
                        assert(before[k] == extents[k]);
                    }
                }
            }
        }
    }
}

/// Freeing what was allocated from free blocks leaves the bitmap as it was.
pub proof fn law_freeing_undoes_allocation(used: Seq<bool>, extents: Seq<Extent>)
    requires
        extents_free(used, extents),
    ensures
        extents_marked(extents_marked(used, extents, true), extents, false) == used,
{
    let taken = extents_marked(used, extents, true);
    let freed = extents_marked(taken, extents, false);
    lemma_extents_marked(used, extents, true);
    lemma_extents_marked(taken, extents, false);
    assert forall|i: int| 0 <= i < used.len() implies freed[i] == used[i] by {
        if exists|k: int|
            0 <= k < extents.len() && (#[trigger] extents[k]).lba <= i < extents[k].lba
                + extents[k].blocks {
            let k = choose|k: int|
                0 <= k < extents.len() && (#[trigger] extents[k]).lba <= i < extents[k].lba
                    + extents[k].blocks;
            assert(range_free(used, extents[k].lba as int, extents[k].blocks as int));
            assert(!used[i]);
        }
    }
    assert(freed =~= used);
}

/// Allocate `blocks` blocks from `from` on, in as few as possible of the first
/// free runs. Nothing changes where they do not suffice.
pub fn allocate_fragmented(used: &mut Vec<bool>, from: u32, blocks: u32) -> (extents: Option<
    Vec<Extent>,
>)
    requires
        old(used)@.len() <= u32::MAX,
        from <= old(used)@.len(),
    ensures
        final(used)@.len() == old(used)@.len(),
        match extents {
            Some(taken) => {
                &&& fragments(old(used)@, from as int, blocks as int, MAX_EXTENTS as int) == Some(
                    taken@,
                )
                &&& final(used)@ == extents_marked(old(used)@, taken@, true)
            },
            None => {
                &&& fragments(old(used)@, from as int, blocks as int, MAX_EXTENTS as int) is None
                &&& final(used)@ == old(used)@
            },
        },
{
    let ghost before = used@;
    let ghost whole = fragments(before, from as int, blocks as int, MAX_EXTENTS as int);
    let total: u32 = used.len() as u32;
    let mut extents: Vec<Extent> = Vec::new();
    let mut block: u32 = from;
    let mut remaining: u32 = blocks;
    proof {
        if let Some(rest) = whole {
            assert(extents@ + rest =~= rest);
        }
    }
    while remaining != 0
        invariant
            used@ == before,
            before == old(used)@,
            total == before.len(),
            block <= total,
            extents@.len() <= MAX_EXTENTS,
            whole == fragments(before, from as int, blocks as int, MAX_EXTENTS as int),
            whole == match fragments(
                before,
                block as int,
                remaining as int,
                MAX_EXTENTS - extents@.len(),
            ) {
                Some(rest) => Some(extents@ + rest),
                None => None,
            },
        decreases remaining,
    {
        let start: u32 = find_free(used, block);
        if extents.len() >= MAX_EXTENTS || start >= total {
            return None;
        }
        let count: u32 = count_free(used, start, remaining);
        proof {
            lemma_free_from(before, block as int);
            lemma_free_run(before, start as int, remaining as int);
        }
        let extent: Extent = Extent { lba: start as u64, blocks: count };
        let ghost so_far = extents@;
        extents.push(extent);
        proof {
            if let Some(rest) = fragments(
                before,
                start + count,
                remaining - count,
                MAX_EXTENTS - extents@.len(),
            ) {
                assert(so_far + (seq![extent] + rest) =~= extents@ + rest);
            }
        }
        block = start + count;
        remaining = remaining - count;
    }
    proof {
        assert(extents@ + Seq::<Extent>::empty() =~= extents@);
        assert(whole == Some(extents@));
        law_allocation_takes_free_blocks_once(
            before,
            from as int,
            blocks as int,
            MAX_EXTENTS as int,
        );
    }
    let mut index: usize = 0;
    assert(extents@.take(0) =~= Seq::<Extent>::empty());
    while index < extents.len()
        invariant
            index <= extents@.len(),
            before.len() <= u32::MAX,
            extents_within(extents@, from as int, before.len() as int),
            used@.len() == before.len(),
            used@ == extents_marked(before, extents@.take(index as int), true),
        decreases extents@.len() - index,
    {
        let extent: Extent = extents[index];
        assert(extents@[index as int].lba + extents@[index as int].blocks <= before.len());
        bitmap_set_range(used, extent.lba as u32, extent.blocks, true);
        proof {
            let next = extents@.take(index + 1);
            assert(next.drop_last() =~= extents@.take(index as int));
        }
        index += 1;
    }
    assert(extents@.take(index as int) =~= extents@);
    Some(extents)
}

/// Why a request failed.
#[derive(Clone, Copy, Debug, PartialEq, Eq, Structural)]
pub enum StoreError {
    InvalidId,
    Exists,
    NotFound,
    NoSpace,
    TooLarge,
    Io,
}

/// The size of an object that was written without one.
pub const DEFAULT_SIZE: u32 = 4096;

/// The store's state.
#[verifier::ext_equal]
pub struct StoreView {
    pub block_size: u32,
    pub layout: Layout,
    pub super_generation: u64,
    pub next_id: u64,
    /// Which blocks are in use.
    pub used: Seq<bool>,
    pub directory: Seq<DirectoryEntry>,
    /// Where objects were found in the directory.
    pub index_cache: Map<u64, u32>,
    /// The sizes set for the next write of an object.
    pub pending_sizes: Map<u64, u32>,
}

impl StoreView {
    /// The layout is that of the device, and every index is inside the
    /// directory.
    pub open spec fn wf(self) -> bool {
        &&& 512 <= self.block_size <= 4096
        &&& self.block_size % 32 == 0
        &&& self.used.len() <= u32::MAX
        &&& layout_of(self.block_size, self.used.len() as u32) == Some(self.layout)
        &&& self.directory.len() == self.layout.entries(self.block_size)
        &&& forall|id: u64| #[trigger]
            self.index_cache.contains_key(id) ==> self.index_cache[id] < self.directory.len()
    }

    /// Where the locator with number `index` and generation `generation` lies:
    /// its block, and its place in the block.
    pub open spec fn slot(self, index: int, generation: u32) -> (int, int) {
        (
            self.layout.directory_lba + (generation % 2) * self.layout.directory_blocks
                + DIR_ENTRY_SIZE * index / self.block_size as int,
            DIR_ENTRY_SIZE * index % self.block_size as int,
        )
    }

    /// The locator of `id`, as far as the store knows.
    pub open spec fn index_of(self, id: u64) -> Option<u32> {
        if self.index_cache.contains_key(id) {
            Some(self.index_cache[id])
        } else {
            match first_entry(self.directory, id, 0) {
                Some(index) => Some(index as u32),
                None => None,
            }
        }
    }

    /// The store once it has looked for `id`.
    pub open spec fn looked_for(self, id: u64) -> StoreView {
        StoreView {
            index_cache: match self.index_of(id) {
                Some(index) => self.index_cache.insert(id, index),
                None => self.index_cache,
            },
            ..self
        }
    }

    /// The header of `entry` can be read.
    pub open spec fn readable(self, entry: DirectoryEntry) -> bool {
        &&& entry.header_lba >= self.layout.data_lba
        &&& entry.header_blocks != 0
        &&& entry.header_lba + entry.header_blocks <= self.used.len()
    }

    /// The header of `entry` in the blocks that were read: it is the entry's, and
    /// its extents are data blocks that hold its data exactly.
    pub open spec fn header_for(self, entry: DirectoryEntry, bytes: Seq<u8>) -> Option<HeaderView> {
        match header_decoded(bytes) {
            Some(header) => if header.id == entry.id && header.generation % 0x1_0000_0000
                == entry.generation && header.header_blocks == entry.header_blocks
                && header.data_offset == entry.header_blocks * self.block_size && header.data_len
                <= header.allocated_len && header.allocated_len == extent_blocks(header.extents)
                * self.block_size && extents_within(
                header.extents,
                self.layout.data_lba as int,
                self.used.len() as int,
            ) {
                Some(header)
            } else {
                None
            },
            None => None,
        }
    }
}

/// The first entry of `id` from `from` on.
pub open spec fn first_entry(directory: Seq<DirectoryEntry>, id: u64, from: int) -> Option<int>
    decreases directory.len() - from,
{
    if from < 0 || from >= directory.len() {
        None
    } else if directory[from].id == id {
        Some(from)
    } else {
        first_entry(directory, id, from + 1)
    }
}

proof fn lemma_first_entry(directory: Seq<DirectoryEntry>, id: u64, from: int)
    requires
        0 <= from,
    ensures
        first_entry(directory, id, from) matches Some(index) ==> from <= index < directory.len()
            && directory[index].id == id,
        first_entry(directory, id, from) is None ==> forall|i: int|
            from <= i < directory.len() ==> (#[trigger] directory[i]).id != id,
    decreases directory.len() - from,
{
    if from < directory.len() && directory[from].id != id {
        lemma_first_entry(directory, id, from + 1);
    }
}

/// The first entry of `id`.
fn scan(directory: &Vec<DirectoryEntry>, id: u64) -> (found: Option<u32>)
    requires
        directory@.len() <= u32::MAX,
    ensures
        match found {
            Some(index) => first_entry(directory@, id, 0) == Some(index as int) && index
                < directory@.len() && directory@[index as int].id == id,
            None => first_entry(directory@, id, 0) is None,
        },
{
    let total: usize = directory.len();
    let mut index: usize = 0;
    while index < total
        invariant
            index <= total == directory@.len(),
            total <= u32::MAX,
            first_entry(directory@, id, 0) == first_entry(directory@, id, index as int),
        decreases total - index,
    {
        if directory[index].id == id {
            return Some(index as u32);
        }
        index += 1;
    }
    None
}

/// What a committed change replaces: a header and its extents.
#[verifier::ext_equal]
pub struct ReplacedView {
    pub header_lba: u64,
    pub header_blocks: u32,
    pub extents: Seq<Extent>,
}

/// What a committed change replaces.
pub struct Replaced {
    pub header_lba: u64,
    pub header_blocks: u32,
    pub extents: Vec<Extent>,
}

impl View for Replaced {
    type V = ReplacedView;

    open spec fn view(&self) -> ReplacedView {
        ReplacedView {
            header_lba: self.header_lba,
            header_blocks: self.header_blocks,
            extents: self.extents@,
        }
    }
}

/// What a change is for.
#[derive(Clone, Copy, Debug, PartialEq, Eq, Structural)]
pub enum ChangeKind {
    /// A new object; `numbered` if the store chose its number.
    Create { numbered: bool },
    Write,
    Delete,
}

/// How far a change has come.
#[derive(Clone, Copy, Debug, PartialEq, Eq, Structural)]
pub enum Stage {
    /// Waiting for the content hash.
    Hashing,
    /// Waiting for the data to be written.
    Transferring,
    WritingHeader,
    WritingBitmap,
    /// Waiting for data, header and bitmap to be durable.
    Settling,
    /// Waiting for the directory block.
    ReadingDirectory,
    WritingDirectory,
    /// Waiting for the directory to be durable: then the change is committed.
    Publishing,
    /// Waiting for the bitmap without what was replaced.
    Cleaning,
    /// Waiting for the superblock with the next object number.
    WritingSuper,
    /// Waiting for the last write to be durable.
    Finishing,
    Finished,
}

/// A change under way.
#[verifier::ext_equal]
pub struct ChangeView {
    pub kind: ChangeKind,
    pub id: u64,
    pub index: u32,
    /// The new locator.
    pub entry: DirectoryEntry,
    /// The new header, unless the object is deleted.
    pub header: Option<HeaderView>,
    pub replaced: Option<ReplacedView>,
    pub stage: Stage,
}

/// A change under way.
pub struct Change {
    pub kind: ChangeKind,
    pub id: u64,
    pub index: u32,
    pub entry: DirectoryEntry,
    pub header: Option<ObjectHeader>,
    pub replaced: Option<Replaced>,
    pub stage: Stage,
}

impl View for Change {
    type V = ChangeView;

    open spec fn view(&self) -> ChangeView {
        ChangeView {
            kind: self.kind,
            id: self.id,
            index: self.index,
            entry: self.entry,
            header: match self.header {
                Some(header) => Some(header@),
                None => None,
            },
            replaced: match self.replaced {
                Some(replaced) => Some(replaced@),
                None => None,
            },
            stage: self.stage,
        }
    }
}

/// A header and extents that lie among the data blocks.
pub open spec fn in_data(
    store: StoreView,
    header_lba: u64,
    header_blocks: u32,
    extents: Seq<Extent>,
) -> bool {
    &&& header_lba >= store.layout.data_lba
    &&& header_lba + header_blocks <= store.used.len()
    &&& extents_within(extents, store.layout.data_lba as int, store.used.len() as int)
}

impl ChangeView {
    /// The change speaks of blocks and entries that the store has.
    pub open spec fn wf(self, store: StoreView) -> bool {
        &&& self.index < store.directory.len()
        &&& self.kind == ChangeKind::Delete <==> self.header is None
        &&& self.header matches Some(header) ==> {
            &&& in_data(store, self.entry.header_lba, 1, header.extents)
            &&& header.extents.len() <= MAX_EXTENTS
        }
        &&& self.replaced matches Some(replaced) ==> in_data(
            store,
            replaced.header_lba,
            replaced.header_blocks,
            replaced.extents,
        )
        &&& self.kind is Create ==> self.replaced is None
        &&& self.kind == ChangeKind::Write ==> self.replaced is Some
        &&& self.stage == Stage::Hashing || self.stage == Stage::Transferring ==> self.kind
            == ChangeKind::Write
    }
}

/// What a change asks of the caller.
pub enum StoreAction {
    /// Compute the content hash of the data.
    Hash,
    /// Write the data to the new extents.
    Transfer,
    /// Write these blocks. Bytes that are missing are zeros.
    Write { lba: u64, blocks: u32, bytes: Vec<u8> },
    /// Make everything written so far durable.
    Flush,
    /// Read this block.
    Read { lba: u64 },
    /// The change is over.
    Finish { result: Result<u64, StoreError> },
}

/// What a change asks of the caller.
#[verifier::ext_equal]
pub enum StoreActionView {
    Hash,
    Transfer,
    Write { lba: u64, blocks: u32, bytes: Seq<u8> },
    Flush,
    Read { lba: u64 },
    Finish { result: Result<u64, StoreError> },
}

impl View for StoreAction {
    type V = StoreActionView;

    open spec fn view(&self) -> StoreActionView {
        match *self {
            StoreAction::Hash => StoreActionView::Hash,
            StoreAction::Transfer => StoreActionView::Transfer,
            StoreAction::Write { lba, blocks, bytes } => StoreActionView::Write {
                lba,
                blocks,
                bytes: bytes@,
            },
            StoreAction::Flush => StoreActionView::Flush,
            StoreAction::Read { lba } => StoreActionView::Read { lba },
            StoreAction::Finish { result } => StoreActionView::Finish { result },
        }
    }
}

/// What came of an action.
pub enum StoreEvent {
    Hashed { hash: u64 },
    Done,
    Block { bytes: Vec<u8> },
    Failed,
}

/// `used` without a header and its extents.
pub open spec fn released(
    used: Seq<bool>,
    header_lba: u64,
    header_blocks: u32,
    extents: Seq<Extent>,
) -> Seq<bool> {
    extents_marked(
        marked(used, header_lba as int, header_blocks as int, false),
        extents,
        false,
    )
}

/// The change ends with an I/O error. What it allocated is freed, unless the
/// directory speaks of it durably.
pub open spec fn change_failed(store: StoreView, change: ChangeView) -> (
    StoreView,
    ChangeView,
    StoreActionView,
) {
    let committed = change.stage == Stage::Cleaning || change.stage == Stage::WritingSuper
        || change.stage == Stage::Finishing || change.stage == Stage::Finished;
    (
        StoreView {
            used: match change.header {
                Some(header) if !committed => released(
                    store.used,
                    change.entry.header_lba,
                    1,
                    header.extents,
                ),
                _ => store.used,
            },
            ..store
        },
        ChangeView { stage: Stage::Finished, ..change },
        StoreActionView::Finish { result: Err(StoreError::Io) },
    )
}

/// The change goes on with a write of the bitmap.
pub open spec fn writes_bitmap(store: StoreView, change: ChangeView, stage: Stage) -> (
    StoreView,
    ChangeView,
    StoreActionView,
) {
    (
        store,
        ChangeView { stage, ..change },
        StoreActionView::Write {
            lba: store.layout.bitmap_lba,
            blocks: store.layout.bitmap_blocks,
            bytes: bitmap_code(store.used),
        },
    )
}

/// The change is over.
pub open spec fn change_finished(store: StoreView, change: ChangeView) -> (
    StoreView,
    ChangeView,
    StoreActionView,
) {
    (
        store,
        ChangeView { stage: Stage::Finished, ..change },
        StoreActionView::Finish { result: Ok(change.id) },
    )
}

/// The superblock of a store.
pub open spec fn superblock_of(store: StoreView) -> Superblock {
    Superblock {
        generation: store.super_generation,
        block_size: store.block_size,
        total_blocks: store.used.len() as u32,
        next_id: store.next_id,
        layout: store.layout,
    }
}

/// The change after its directory write became durable.
pub open spec fn change_committed(store: StoreView, change: ChangeView) -> (
    StoreView,
    ChangeView,
    StoreActionView,
) {
    let cached = match change.kind {
        ChangeKind::Create { numbered } => store.index_cache.insert(change.id, change.index),
        ChangeKind::Delete => store.index_cache.remove(change.id),
        ChangeKind::Write => store.index_cache,
    };
    let known = StoreView { index_cache: cached, ..store };
    match (change.replaced, change.kind) {
        (Some(replaced), _) => writes_bitmap(
            StoreView {
                used: released(
                    store.used,
                    replaced.header_lba,
                    replaced.header_blocks,
                    replaced.extents,
                ),
                ..known
            },
            change,
            Stage::Cleaning,
        ),
        (None, ChangeKind::Create { numbered: true }) => {
            let numbered = StoreView {
                super_generation: if store.super_generation == u64::MAX {
                    u64::MAX
                } else {
                    (store.super_generation + 1) as u64
                },
                ..known
            };
            (
                numbered,
                ChangeView { stage: Stage::WritingSuper, ..change },
                StoreActionView::Write {
                    lba: numbered.super_generation % 2,
                    blocks: 1,
                    bytes: super_code(superblock_of(numbered), store.block_size as int),
                },
            )
        },
        _ => change_finished(known, change),
    }
}

/// The store and the change after an event, and what the change asks for next.
///
/// Data, header and bitmap are durable before the locator is written, and what
/// the change replaces is freed only after the locator is durable.
pub open spec fn change_next(
    store: StoreView,
    change: ChangeView,
    event: StoreEvent,
) -> (StoreView, ChangeView, StoreActionView) {
    let (slot_lba, slot_offset) = store.slot(change.index as int, change.entry.generation);
    match (change.stage, event) {
        (Stage::Hashing, StoreEvent::Hashed { hash }) => (
            store,
            ChangeView {
                header: match change.header {
                    Some(header) => Some(HeaderView { data_hash: hash, ..header }),
                    None => None,
                },
                stage: Stage::Transferring,
                ..change
            },
            StoreActionView::Transfer,
        ),
        (Stage::Transferring, StoreEvent::Done) => writes_header(store, change),
        (Stage::WritingHeader, StoreEvent::Done) => writes_bitmap(
            store,
            change,
            Stage::WritingBitmap,
        ),
        (Stage::WritingBitmap, StoreEvent::Done) => (
            store,
            ChangeView { stage: Stage::Settling, ..change },
            StoreActionView::Flush,
        ),
        (Stage::Settling, StoreEvent::Done) => (
            store,
            ChangeView { stage: Stage::ReadingDirectory, ..change },
            StoreActionView::Read { lba: slot_lba as u64 },
        ),
        (Stage::ReadingDirectory, StoreEvent::Block { bytes }) => if bytes@.len()
            == store.block_size {
            (
                store,
                ChangeView { stage: Stage::WritingDirectory, ..change },
                StoreActionView::Write {
                    lba: slot_lba as u64,
                    blocks: 1,
                    bytes: wire::splice(bytes@, slot_offset, entry_code(change.entry)),
                },
            )
        } else {
            change_failed(store, change)
        },
        (Stage::WritingDirectory, StoreEvent::Done) => (
            StoreView {
                directory: store.directory.update(change.index as int, change.entry),
                ..store
            },
            ChangeView { stage: Stage::Publishing, ..change },
            StoreActionView::Flush,
        ),
        (Stage::Publishing, StoreEvent::Done) => change_committed(store, change),
        (Stage::Cleaning, StoreEvent::Done) => (
            store,
            ChangeView { stage: Stage::Finishing, ..change },
            StoreActionView::Flush,
        ),
        (Stage::WritingSuper, StoreEvent::Done) => (
            store,
            ChangeView { stage: Stage::Finishing, ..change },
            StoreActionView::Flush,
        ),
        (Stage::Finishing, StoreEvent::Done) => change_finished(store, change),
        _ => change_failed(store, change),
    }
}

/// The change goes on with a write of its header.
pub open spec fn writes_header(store: StoreView, change: ChangeView) -> (
    StoreView,
    ChangeView,
    StoreActionView,
) {
    (
        store,
        ChangeView { stage: Stage::WritingHeader, ..change },
        StoreActionView::Write {
            lba: change.entry.header_lba,
            blocks: 1,
            bytes: header_code(change.header->0, store.block_size as int),
        },
    )
}

/// The store: its allocation state and its directory.
pub struct ObjStore {
    pub block_size: u32,
    pub layout: Layout,
    pub super_generation: u64,
    pub next_id: u64,
    pub used: Vec<bool>,
    pub directory: Vec<DirectoryEntry>,
    pub index_cache: BTreeMap<u64, u32>,
    pub pending_sizes: BTreeMap<u64, u32>,
}

impl View for ObjStore {
    type V = StoreView;

    open spec fn view(&self) -> StoreView {
        StoreView {
            block_size: self.block_size,
            layout: self.layout,
            super_generation: self.super_generation,
            next_id: self.next_id,
            used: self.used@,
            directory: self.directory@,
            index_cache: self.index_cache@,
            pending_sizes: self.pending_sizes@,
        }
    }
}

/// The next object number and the superblock generation do not matter.
proof fn lemma_wf_numbers(store: StoreView, other: StoreView)
    requires
        store.wf(),
        other == (StoreView {
            next_id: other.next_id,
            super_generation: other.super_generation,
            ..store
        }),
    ensures
        other.wf(),
{
    assert forall|id: u64| #[trigger] other.index_cache.contains_key(
        id,
    ) implies other.index_cache[id] < other.directory.len() by {
        assert(store.index_cache.contains_key(id));
    }
}

proof fn lemma_layout_bounds(store: StoreView)
    requires
        store.wf(),
    ensures
        store.layout.data_lba <= store.used.len() <= u32::MAX,
        store.layout.directory_lba + 2 * store.layout.directory_blocks == store.layout.data_lba,
        store.directory.len() * 32 <= store.layout.directory_blocks * store.block_size,
        store.directory.len() <= 4096 * 4096,
{
    let d = store.layout.directory_blocks as int;
    let b = store.block_size as int;
    assert(store.layout.directory_blocks <= 4096);
    assert(0 <= d * b <= 4096 * 4096) by (nonlinear_arith)
        requires
            0 <= d <= 4096,
            0 <= b <= 4096,
    ;
}

impl ObjStore {
    /// Where the locator with number `index` and generation `generation` lies.
    fn slot(&self, index: u32, generation: u32) -> (place: (u64, usize))
        requires
            self@.wf(),
            index < self@.directory.len(),
        ensures
            place.0 == self@.slot(index as int, generation).0,
            place.1 == self@.slot(index as int, generation).1,
            place.1 + DIR_ENTRY_SIZE <= self.block_size,
            place.0 < self@.layout.data_lba,
    {
        proof {
            lemma_layout_bounds(self@);
            let b = self.block_size as int;
            let at = 32 * index as int;
            let d = self.layout.directory_blocks as int;
            let q = at / b;
            let r = at % b;
            assert(at == q * b + r && 0 <= r < b && 0 <= q) by (nonlinear_arith)
                requires
                    q == at / b,
                    r == at % b,
                    b > 0,
                    at >= 0,
            ;
            assert(q < d) by (nonlinear_arith)
                requires
                    at == q * b + r,
                    at < d * b,
                    r >= 0,
                    b > 0,
            ;
            let k = b / 32;
            assert(b == 32 * k);
            assert(r % 32 == 0 && r + 32 <= b) by (nonlinear_arith)
                requires
                    at == 32 * (index as int),
                    at == q * b + r,
                    b == 32 * k,
                    0 <= r < b,
            {
                assert(r == 32 * (index as int - q * k));
            }
        }
        proof {
            let bit = (generation % 2) as int;
            let d = self.layout.directory_blocks as int;
            assert(bit * d == if bit == 0 {
                0
            } else {
                d
            }) by (nonlinear_arith)
                requires
                    0 <= bit <= 1,
            ;
        }
        let at: usize = DIR_ENTRY_SIZE * index as usize;
        let bank: u64 = if generation % 2 == 0 {
            self.layout.directory_lba
        } else {
            self.layout.directory_lba + self.layout.directory_blocks as u64
        };
        (bank + (at / self.block_size as usize) as u64, at % self.block_size as usize)
    }

    /// Free a header and its extents.
    fn release(&mut self, header_lba: u64, header_blocks: u32, extents: &Vec<Extent>)
        requires
            old(self)@.wf(),
            in_data(old(self)@, header_lba, header_blocks, extents@),
        ensures
            final(self)@ == (StoreView {
                used: released(old(self)@.used, header_lba, header_blocks, extents@),
                ..old(self)@
            }),
            final(self)@.used.len() == old(self)@.used.len(),
            final(self)@.wf(),
    {
        let ghost before = self@;
        bitmap_set_range(&mut self.used, header_lba as u32, header_blocks, false);
        free_extents(&mut self.used, self.layout.data_lba, extents);
        assert(self@ =~= StoreView {
            used: released(before.used, header_lba, header_blocks, extents@),
            ..before
        });
    }

    /// End a change with an I/O error.
    fn fail(&mut self, change: &mut Change) -> (action: StoreAction)
        requires
            old(self)@.wf(),
            old(change)@.wf(old(self)@),
        ensures
            final(self)@.wf(),
            final(change)@.wf(final(self)@),
            (final(self)@, final(change)@, action@) == change_failed(old(self)@, old(change)@),
    {
        let committed: bool = match change.stage {
            Stage::Cleaning | Stage::WritingSuper | Stage::Finishing | Stage::Finished => true,
            _ => false,
        };
        if !committed {
            if let Some(header) = &change.header {
                self.release(change.entry.header_lba, 1, &header.extents);
            }
        }
        change.stage = Stage::Finished;
        StoreAction::Finish { result: Err(StoreError::Io) }
    }

    fn bitmap_write(&self) -> (action: StoreAction)
        ensures
            action@ == (StoreActionView::Write {
                lba: self@.layout.bitmap_lba,
                blocks: self@.layout.bitmap_blocks,
                bytes: bitmap_code(self@.used),
            }),
    {
        StoreAction::Write {
            lba: self.layout.bitmap_lba,
            blocks: self.layout.bitmap_blocks,
            bytes: bitmap_image(&self.used),
        }
    }

    /// The superblock image.
    pub fn superblock_image(&self) -> (block: Vec<u8>)
        requires
            self@.wf(),
        ensures
            block@ == super_code(superblock_of(self@), self@.block_size as int),
    {
        let sb: Superblock = Superblock {
            generation: self.super_generation,
            block_size: self.block_size,
            total_blocks: self.used.len() as u32,
            next_id: self.next_id,
            layout: self.layout,
        };
        encode_superblock(&sb, self.block_size as usize)
    }

    /// The directory write became durable.
    fn commit(&mut self, change: &mut Change) -> (action: StoreAction)
        requires
            old(self)@.wf(),
            old(change)@.wf(old(self)@),
            old(change)@.stage == Stage::Publishing,
        ensures
            final(self)@.wf(),
            final(change)@.wf(final(self)@),
            (final(self)@, final(change)@, action@) == change_committed(old(self)@, old(change)@),
    {
        let ghost before = self@;
        match change.kind {
            ChangeKind::Create { numbered } => {
                let previous: Option<u32> = self.index_cache.insert(change.id, change.index);
            },
            ChangeKind::Delete => {
                let previous: Option<u32> = self.index_cache.remove(&change.id);
            },
            ChangeKind::Write => {},
        }
        proof {
            assert forall|id: u64| #[trigger] self@.index_cache.contains_key(
                id,
            ) implies self@.index_cache[id] < self@.directory.len() by {
                if before.index_cache.contains_key(id) {
                    assert(before.index_cache[id] < before.directory.len());
                }
            }
            assert(self@.wf());
        }
        if let Some(replaced) = &change.replaced {
            self.release(replaced.header_lba, replaced.header_blocks, &replaced.extents);
            change.stage = Stage::Cleaning;
            let action: StoreAction = self.bitmap_write();
            return action;
        }
        match change.kind {
            ChangeKind::Create { numbered } => {
                if numbered {
                    let ghost known = self@;
                    if self.super_generation < u64::MAX {
                        self.super_generation = self.super_generation + 1;
                    }
                    proof {
                        lemma_wf_numbers(known, self@);
                    }
                    change.stage = Stage::WritingSuper;
                    return StoreAction::Write {
                        lba: self.super_generation % 2,
                        blocks: 1,
                        bytes: self.superblock_image(),
                    };
                }
            },
            _ => {},
        }
        change.stage = Stage::Finished;
        StoreAction::Finish { result: Ok(change.id) }
    }

    /// Write the header of a change.
    fn header_write(&self, change: &mut Change) -> (action: StoreAction)
        requires
            self@.wf(),
            old(change)@.wf(self@),
            old(change)@.header is Some,
        ensures
            final(change)@.wf(self@),
            (self@, final(change)@, action@) == writes_header(self@, old(change)@),
    {
        let bytes: Vec<u8> = match &change.header {
            Some(header) => encode_header(header, self.block_size as usize),
            None => Vec::new(),
        };
        change.stage = Stage::WritingHeader;
        StoreAction::Write { lba: change.entry.header_lba, blocks: 1, bytes }
    }

    /// Move a change along.
    pub fn advance(&mut self, change: &mut Change, event: StoreEvent) -> (action: StoreAction)
        requires
            old(self)@.wf(),
            old(change)@.wf(old(self)@),
        ensures
            final(self)@.wf(),
            final(change)@.wf(final(self)@),
            (final(self)@, final(change)@, action@) == change_next(
                old(self)@,
                old(change)@,
                event,
            ),
    {
        let ghost before = self@;
        let ghost old_change = change@;
        let (slot_lba, slot_offset): (u64, usize) = self.slot(
            change.index,
            change.entry.generation,
        );
        match event {
            StoreEvent::Failed => self.fail(change),
            StoreEvent::Hashed { hash } => match change.stage {
                Stage::Hashing => {
                    let mut header: Option<ObjectHeader> = None;
                    std::mem::swap(&mut header, &mut change.header);
                    if let Some(mut header) = header {
                        header.data_hash = hash;
                        change.header = Some(header);
                    }
                    change.stage = Stage::Transferring;
                    assert(change@ =~= change_next(before, old_change, event).1);
                    StoreAction::Transfer
                },
                _ => self.fail(change),
            },
            StoreEvent::Block { bytes } => match change.stage {
                Stage::ReadingDirectory => {
                    if bytes.len() != self.block_size as usize {
                        return self.fail(change);
                    }
                    let mut block: Vec<u8> = bytes;
                    let code: Vec<u8> = encode_directory(&change.entry);
                    wire::write_at(&mut block, slot_offset, &code);
                    change.stage = Stage::WritingDirectory;
                    StoreAction::Write { lba: slot_lba, blocks: 1, bytes: block }
                },
                _ => self.fail(change),
            },
            StoreEvent::Done => match change.stage {
                Stage::Transferring => self.header_write(change),
                Stage::WritingHeader => {
                    change.stage = Stage::WritingBitmap;
                    self.bitmap_write()
                },
                Stage::WritingBitmap => {
                    change.stage = Stage::Settling;
                    StoreAction::Flush
                },
                Stage::Settling => {
                    change.stage = Stage::ReadingDirectory;
                    StoreAction::Read { lba: slot_lba }
                },
                Stage::WritingDirectory => {
                    self.directory.set(change.index as usize, change.entry);
                    change.stage = Stage::Publishing;
                    StoreAction::Flush
                },
                Stage::Publishing => self.commit(change),
                Stage::Cleaning | Stage::WritingSuper => {
                    change.stage = Stage::Finishing;
                    StoreAction::Flush
                },
                Stage::Finishing => {
                    change.stage = Stage::Finished;
                    StoreAction::Finish { result: Ok(change.id) }
                },
                _ => self.fail(change),
            },
        }
    }
}

proof fn lemma_first_fit_of_one(used: Seq<bool>, from: int, start: int)
    requires
        0 <= from,
        first_fit(used, from, 1, start),
    ensures
        start == free_from(used, from),
    decreases start - from,
{
    if from < start {
        assert(!range_free(used, from, 1));
        assert(used[from]);
        assert(first_fit(used, from + 1, 1, start));
        lemma_first_fit_of_one(used, from + 1, start);
    } else {
        assert(!used[start]);
    }
}

proof fn lemma_no_fit_of_one(used: Seq<bool>, from: int)
    requires
        0 <= from <= used.len(),
        no_fit(used, from, 1),
    ensures
        free_from(used, from) == used.len(),
    decreases used.len() - from,
{
    if from < used.len() {
        assert(!range_free(used, from, 1));
        assert(used[from]);
        lemma_no_fit_of_one(used, from + 1);
    }
}

/// The next generation; the last one is used again and again.
pub open spec fn next_generation(generation: u64, last: u64) -> u64 {
    if generation >= last {
        last
    } else {
        (generation + 1) as u64
    }
}

/// A new object's header and locator at block `header_lba`.
pub open spec fn created(store: StoreView, id: u64, index: int, header_lba: int) -> ChangeView {
    let generation = next_generation(store.directory[index].generation as u64, u32::MAX as u64);
    ChangeView {
        kind: ChangeKind::Create { numbered: false },
        id,
        index: index as u32,
        entry: DirectoryEntry {
            id,
            flags: FLAG_ALLOCATED,
            generation: generation as u32,
            header_lba: header_lba as u64,
            header_blocks: 1,
        },
        header: Some(
            HeaderView {
                id,
                generation,
                data_len: 0,
                allocated_len: 0,
                data_offset: store.block_size as u64,
                header_blocks: 1,
                extents: Seq::empty(),
                data_hash: hash::FNV_OFFSET,
            },
        ),
        replaced: None,
        stage: Stage::WritingHeader,
    }
}

/// A store with a new object in its first free directory entry and its first
/// free block, or why there is none.
pub open spec fn object_created(store: StoreView, id: u64, numbered: bool) -> (
    StoreView,
    Result<(ChangeView, StoreActionView), StoreError>,
) {
    let at = free_from(store.used, store.layout.data_lba as int);
    match first_entry(store.directory, 0, 0) {
        Some(index) if at < store.used.len() => {
            let change = ChangeView {
                kind: ChangeKind::Create { numbered },
                ..created(store, id, index, at)
            };
            let taken = StoreView { used: marked(store.used, at, 1, true), ..store };
            (taken, Ok((change, writes_header(taken, change).2)))
        },
        _ => (store, Err(StoreError::NoSpace)),
    }
}

/// What a request to create an object comes to. Without a number the store
/// chooses the next one, which it does not give out again.
pub open spec fn create_started(store: StoreView, requested: Option<u64>) -> (
    StoreView,
    Result<(ChangeView, StoreActionView), StoreError>,
) {
    match requested {
        Some(id) => if id == 0 {
            (store, Err(StoreError::InvalidId))
        } else if store.index_of(id) is Some {
            (store.looked_for(id), Err(StoreError::Exists))
        } else {
            object_created(store, id, false)
        },
        None => if store.next_id == u64::MAX {
            (store, Err(StoreError::NoSpace))
        } else {
            object_created(
                StoreView { next_id: (store.next_id + 1) as u64, ..store },
                store.next_id,
                true,
            )
        },
    }
}

/// What was started, in terms of views.
pub open spec fn started_view(started: Result<(Change, StoreAction), StoreError>) -> Result<
    (ChangeView, StoreActionView),
    StoreError,
> {
    match started {
        Ok((change, action)) => Ok((change@, action@)),
        Err(error) => Err(error),
    }
}

/// What a write of `size` bytes comes to: a new header in the first free block,
/// and new extents for the data, beside those that it replaces.
pub open spec fn write_started(
    store: StoreView,
    index: int,
    entry: DirectoryEntry,
    old_header: HeaderView,
    size: u32,
) -> (StoreView, Result<(ChangeView, StoreActionView), StoreError>) {
    let from = store.layout.data_lba as int;
    let at = free_from(store.used, from);
    let blocks = wire::units(size as int, store.block_size as int);
    let with_header = marked(store.used, at, 1, true);
    match fragments(with_header, from, blocks, MAX_EXTENTS as int) {
        Some(extents) if at < store.used.len() => {
            let generation = next_generation(old_header.generation, u64::MAX);
            let change = ChangeView {
                kind: ChangeKind::Write,
                id: entry.id,
                index: index as u32,
                entry: DirectoryEntry {
                    id: entry.id,
                    flags: FLAG_ALLOCATED,
                    generation: (generation % 0x1_0000_0000) as u32,
                    header_lba: at as u64,
                    header_blocks: 1,
                },
                header: Some(
                    HeaderView {
                        id: entry.id,
                        generation,
                        data_len: size as u64,
                        allocated_len: (blocks * store.block_size) as u64,
                        data_offset: store.block_size as u64,
                        header_blocks: 1,
                        extents,
                        data_hash: hash::FNV_OFFSET,
                    },
                ),
                replaced: Some(
                    ReplacedView {
                        header_lba: entry.header_lba,
                        header_blocks: old_header.header_blocks,
                        extents: old_header.extents,
                    },
                ),
                stage: Stage::Hashing,
            };
            let taken = StoreView { used: extents_marked(with_header, extents, true), ..store };
            if size == 0 {
                let (_, next, action) = writes_header(taken, change);
                (taken, Ok((next, action)))
            } else {
                (taken, Ok((change, StoreActionView::Hash)))
            }
        },
        _ => (store, Err(StoreError::NoSpace)),
    }
}

impl ObjStore {
    /// The directory entry of `id`. What was found by looking through the
    /// directory is found faster the next time.
    pub fn find_index(&mut self, id: u64) -> (index: Option<u32>)
        requires
            old(self)@.wf(),
        ensures
            final(self)@.wf(),
            final(self)@ == old(self)@.looked_for(id),
            index == old(self)@.index_of(id),
            index matches Some(at) ==> at < old(self)@.directory.len(),
    {
        let ghost before = self@;
        proof {
            lemma_layout_bounds(before);
        }
        let cached: Option<u32> = match self.index_cache.get(&id) {
            Some(index) => Some(*index),
            None => None,
        };
        if let Some(index) = cached {
            assert(before.index_cache.insert(id, index) =~= before.index_cache);
            assert(self@ =~= before.looked_for(id));
            return Some(index);
        }
        match scan(&self.directory, id) {
            Some(index) => {
                let none: Option<u32> = self.index_cache.insert(id, index);
                proof {
                    assert(self@ =~= before.looked_for(id));
                    assert forall|other: u64| #[trigger] self@.index_cache.contains_key(
                        other,
                    ) implies self@.index_cache[other] < self@.directory.len() by {
                        if before.index_cache.contains_key(other) {
                            assert(before.index_cache[other] < before.directory.len());
                        }
                    }
                }
                Some(index)
            },
            None => None,
        }
    }

    /// Take the first free data block.
    fn take_block(&mut self) -> (at: Option<u32>)
        requires
            old(self)@.wf(),
        ensures
            final(self)@.wf(),
            final(self)@.used.len() == old(self)@.used.len(),
            ({
                let first = free_from(old(self)@.used, old(self)@.layout.data_lba as int);
                if first < old(self)@.used.len() {
                    &&& at == Some(first as u32)
                    &&& first >= old(self)@.layout.data_lba
                    &&& !old(self)@.used[first]
                    &&& final(self)@ == (StoreView {
                        used: marked(old(self)@.used, first, 1, true),
                        ..old(self)@
                    })
                } else {
                    at is None && final(self)@ == old(self)@
                }
            }),
    {
        let ghost before = self@;
        proof {
            lemma_layout_bounds(before);
            lemma_free_from(before.used, before.layout.data_lba as int);
        }
        let from: u32 = self.layout.data_lba as u32;
        let at: Option<u32> = allocate_extent(&mut self.used, from, 1);
        proof {
            match at {
                Some(start) => {
                    lemma_first_fit_of_one(before.used, from as int, start as int);
                },
                None => {
                    lemma_no_fit_of_one(before.used, from as int);
                },
            }
        }
        at
    }

    fn create_object(&mut self, id: u64, numbered: bool) -> (started: Result<
        (Change, StoreAction),
        StoreError,
    >)
        requires
            old(self)@.wf(),
        ensures
            final(self)@.wf(),
            started matches Ok((change, action)) ==> change@.wf(final(self)@),
            (final(self)@, started_view(started)) == object_created(old(self)@, id, numbered),
    {
        let ghost before = self@;
        proof {
            lemma_layout_bounds(before);
        }
        let index: u32 = match scan(&self.directory, 0) {
            Some(index) => index,
            None => {
                return Err(StoreError::NoSpace);
            },
        };
        let last: u32 = self.directory[index as usize].generation;
        let generation: u32 = if last == u32::MAX {
            last
        } else {
            last + 1
        };
        let at: u32 = match self.take_block() {
            Some(at) => at,
            None => {
                return Err(StoreError::NoSpace);
            },
        };
        let header: ObjectHeader = ObjectHeader {
            id,
            generation: generation as u64,
            data_len: 0,
            allocated_len: 0,
            data_offset: self.block_size as u64,
            header_blocks: 1,
            extents: Vec::new(),
            data_hash: hash::FNV_OFFSET,
        };
        let mut change: Change = Change {
            kind: ChangeKind::Create { numbered },
            id,
            index,
            entry: DirectoryEntry {
                id,
                flags: FLAG_ALLOCATED,
                generation,
                header_lba: at as u64,
                header_blocks: 1,
            },
            header: Some(header),
            replaced: None,
            stage: Stage::WritingHeader,
        };
        proof {
            assert(header.extents@ =~= Seq::<Extent>::empty());
            assert(change@.header->0 =~= created(before, id, index as int, at as int).header->0);
            assert(change@ =~= ChangeView {
                kind: ChangeKind::Create { numbered },
                ..created(before, id, index as int, at as int)
            });
        }
        let action: StoreAction = self.header_write(&mut change);
        Ok((change, action))
    }

    /// Start to create an object with the requested number, or with the next
    /// one.
    pub fn create(&mut self, requested: Option<u64>) -> (started: Result<
        (Change, StoreAction),
        StoreError,
    >)
        requires
            old(self)@.wf(),
        ensures
            final(self)@.wf(),
            started matches Ok((change, action)) ==> change@.wf(final(self)@),
            (final(self)@, started_view(started)) == create_started(old(self)@, requested),
    {
        let ghost before = self@;
        match requested {
            Some(id) => {
                if id == 0 {
                    return Err(StoreError::InvalidId);
                }
                if self.find_index(id).is_some() {
                    return Err(StoreError::Exists);
                }
                assert(before.looked_for(id) =~= before);
                self.create_object(id, false)
            },
            None => {
                if self.next_id == u64::MAX {
                    return Err(StoreError::NoSpace);
                }
                let id: u64 = self.next_id;
                self.next_id = id + 1;
                proof {
                    lemma_wf_numbers(before, self@);
                }
                self.create_object(id, true)
            },
        }
    }

    /// The entry of `id`, and whether its header can be read.
    pub fn locate(&mut self, id: u64) -> (found: Result<(u32, DirectoryEntry, bool), StoreError>)
        requires
            old(self)@.wf(),
        ensures
            final(self)@.wf(),
            final(self)@ == old(self)@.looked_for(id),
            match old(self)@.index_of(id) {
                Some(index) => {
                    let entry = old(self)@.directory[index as int];
                    &&& index < old(self)@.directory.len()
                    &&& found == Ok::<(u32, DirectoryEntry, bool), StoreError>(
                        (index, entry, old(self)@.readable(entry)),
                    )
                },
                None => found == Err::<(u32, DirectoryEntry, bool), StoreError>(
                    StoreError::NotFound,
                ),
            },
    {
        let index: u32 = match self.find_index(id) {
            Some(index) => index,
            None => {
                return Err(StoreError::NotFound);
            },
        };
        let entry: DirectoryEntry = self.directory[index as usize];
        let readable: bool = self.is_readable(&entry);
        Ok((index, entry, readable))
    }

    /// Whether the header of `entry` can be read: it lies among the data blocks.
    pub fn is_readable(&self, entry: &DirectoryEntry) -> (readable: bool)
        ensures
            readable == self@.readable(*entry),
    {
        let total: u64 = self.used.len() as u64;
        entry.header_lba >= self.layout.data_lba && entry.header_blocks != 0 && entry.header_lba
            <= total && entry.header_blocks as u64 <= total - entry.header_lba
    }

    /// Check the header blocks of `entry`.
    pub fn check_header(&self, entry: &DirectoryEntry, bytes: &[u8]) -> (header: Option<
        ObjectHeader,
    >)
        requires
            self@.wf(),
        ensures
            match header {
                Some(found) => self@.header_for(*entry, bytes@) == Some(found@)
                    && found.extents@.len() <= MAX_EXTENTS,
                None => self@.header_for(*entry, bytes@) is None,
            },
    {
        let header: ObjectHeader = match decode_header(bytes) {
            Some(header) => header,
            None => {
                return None;
            },
        };
        let total: u64 = self.used.len() as u64;
        let mut blocks: u64 = 0;
        let mut index: usize = 0;
        let mut within: bool = true;
        assert(header.extents@.take(0) =~= Seq::<Extent>::empty());
        while index < header.extents.len()
            invariant
                index <= header.extents@.len() <= MAX_EXTENTS,
                total == self.used@.len(),
                blocks == extent_blocks(header.extents@.take(index as int)),
                blocks <= index * 0xffff_ffff,
                within == extents_within(
                    header.extents@.take(index as int),
                    self.layout.data_lba as int,
                    total as int,
                ),
            decreases header.extents@.len() - index,
        {
            let extent: Extent = header.extents[index];
            let inside: bool = extent.lba >= self.layout.data_lba && extent.lba <= total
                && extent.blocks as u64 <= total - extent.lba;
            proof {
                let before = header.extents@.take(index as int);
                let next = header.extents@.take(index + 1);
                assert(next.drop_last() =~= before);
                assert(next.last() == extent);
                if extents_within(next, self.layout.data_lba as int, total as int) {
                    assert forall|i: int| 0 <= i < before.len() implies self.layout.data_lba <= (
                    #[trigger] before[i]).lba && before[i].lba + before[i].blocks <= total by {
                        assert(next[i] == before[i]);
                    }
                    assert(next[index as int] == extent);
                }
                if within && inside {
                    assert forall|i: int| 0 <= i < next.len() implies self.layout.data_lba <= (
                    #[trigger] next[i]).lba && next[i].lba + next[i].blocks <= total by {
                        if i < index {
                            assert(next[i] == before[i]);
                        }
                    }
                }
            }
            within = within && inside;
            blocks = blocks + extent.blocks as u64;
            index += 1;
        }
        assert(header.extents@.take(index as int) =~= header.extents@);
        proof {
            let b = blocks as int;
            let s = self.block_size as int;
            assert(b * s <= 16 * 0xffff_ffff * 4096) by (nonlinear_arith)
                requires
                    0 <= b <= 16 * 0xffff_ffff,
                    0 <= s <= 4096,
            ;
            let hb = entry.header_blocks as int;
            assert(hb * s <= 0xffff_ffff * 4096) by (nonlinear_arith)
                requires
                    0 <= hb <= 0xffff_ffff,
                    0 <= s <= 4096,
            ;
        }
        if header.id == entry.id && (header.generation % 0x1_0000_0000) as u32 == entry.generation
            && header.header_blocks == entry.header_blocks && header.data_offset
            == entry.header_blocks as u64 * self.block_size as u64 && header.data_len
            <= header.allocated_len && header.allocated_len == blocks * self.block_size as u64
            && within {
            Some(header)
        } else {
            None
        }
    }

    /// Set the size of the next write of `id`. `size` is `None` where it could
    /// not be read.
    pub fn set_size(&mut self, id: u64, size: Option<u64>) -> (result: Result<(), StoreError>)
        requires
            old(self)@.wf(),
        ensures
            final(self)@.wf(),
            if old(self)@.index_of(id) is None {
                result == Err::<(), StoreError>(StoreError::NotFound) && final(self)@ == old(self)@
            } else {
                match size {
                    None => result == Err::<(), StoreError>(StoreError::Io) && final(self)@
                        == old(self)@.looked_for(id),
                    Some(bytes) => if bytes > u32::MAX {
                        result == Err::<(), StoreError>(StoreError::TooLarge) && final(self)@
                            == old(self)@.looked_for(id)
                    } else {
                        &&& result == Ok::<(), StoreError>(())
                        &&& final(self)@ == (StoreView {
                            pending_sizes: old(self)@.pending_sizes.insert(id, bytes as u32),
                            ..old(self)@.looked_for(id)
                        })
                    },
                }
            },
    {
        let ghost before = self@;
        if self.find_index(id).is_none() {
            assert(before.looked_for(id) =~= before);
            return Err(StoreError::NotFound);
        }
        match size {
            None => Err(StoreError::Io),
            Some(bytes) => {
                if bytes > 0xffff_ffff {
                    return Err(StoreError::TooLarge);
                }
                let previous: Option<u32> = self.pending_sizes.insert(id, bytes as u32);
                Ok(())
            },
        }
    }

    /// Take the size that was set for the next write of `id`.
    pub fn take_size(&mut self, id: u64) -> (size: u32)
        requires
            old(self)@.wf(),
        ensures
            final(self)@.wf(),
            size == (if old(self)@.pending_sizes.contains_key(id) {
                old(self)@.pending_sizes[id]
            } else {
                DEFAULT_SIZE
            }),
            final(self)@ == (StoreView {
                pending_sizes: old(self)@.pending_sizes.remove(id),
                ..old(self)@
            }),
    {
        match self.pending_sizes.remove(&id) {
            Some(size) => size,
            None => DEFAULT_SIZE,
        }
    }
}

/// What a deletion comes to: a locator without an object. What the deleted
/// object's header says is freed once that is durable, where it could be read.
pub open spec fn delete_started(
    store: StoreView,
    id: u64,
    index: int,
    entry: DirectoryEntry,
    header: Option<HeaderView>,
) -> (ChangeView, StoreActionView) {
    let generation = next_generation(entry.generation as u64, u32::MAX as u64) as u32;
    (
        ChangeView {
            kind: ChangeKind::Delete,
            id,
            index: index as u32,
            entry: DirectoryEntry { generation, ..free_entry() },
            header: None,
            replaced: match header {
                Some(found) => Some(
                    ReplacedView {
                        header_lba: entry.header_lba,
                        header_blocks: found.header_blocks,
                        extents: found.extents,
                    },
                ),
                None => None,
            },
            stage: Stage::ReadingDirectory,
        },
        StoreActionView::Read { lba: store.slot(index, generation).0 as u64 },
    )
}

impl ObjStore {
    /// Start to write `size` bytes to the object that `entry` locates. Its
    /// header is `old_header`.
    pub fn start_write(
        &mut self,
        index: u32,
        entry: &DirectoryEntry,
        old_header: ObjectHeader,
        size: u32,
    ) -> (started: Result<(Change, StoreAction), StoreError>)
        requires
            old(self)@.wf(),
            index < old(self)@.directory.len(),
            in_data(
                old(self)@,
                entry.header_lba,
                old_header.header_blocks,
                old_header.extents@,
            ),
        ensures
            final(self)@.wf(),
            started matches Ok((change, action)) ==> change@.wf(final(self)@),
            (final(self)@, started_view(started)) == write_started(
                old(self)@,
                index as int,
                *entry,
                old_header@,
                size,
            ),
    {
        let ghost before = self@;
        proof {
            lemma_layout_bounds(before);
            lemma_free_from(before.used, before.layout.data_lba as int);
        }
        let blocks: u32 = div_up(size, self.block_size);
        let at: u32 = match self.take_block() {
            Some(at) => at,
            None => {
                return Err(StoreError::NoSpace);
            },
        };
        let ghost with_header = self@;
        let from: u32 = self.layout.data_lba as u32;
        let extents: Vec<Extent> = match allocate_fragmented(&mut self.used, from, blocks) {
            Some(extents) => extents,
            None => {
                bitmap_set_range(&mut self.used, at, 1, false);
                assert(self.used@ =~= before.used);
                assert(self@ =~= before);
                return Err(StoreError::NoSpace);
            },
        };
        proof {
            law_allocation_takes_free_blocks_once(
                with_header.used,
                from as int,
                blocks as int,
                MAX_EXTENTS as int,
            );
            let b = blocks as int;
            let s = self.block_size as int;
            assert(0 <= b * s <= 0xffff_ffff * 4096) by (nonlinear_arith)
                requires
                    0 <= b <= 0xffff_ffff,
                    0 <= s <= 4096,
            ;
            assert(self@ =~= StoreView {
                used: extents_marked(with_header.used, extents@, true),
                ..before
            });
            assert(self@.wf());
        }
        let generation: u64 = if old_header.generation == u64::MAX {
            u64::MAX
        } else {
            old_header.generation + 1
        };
        let header: ObjectHeader = ObjectHeader {
            id: entry.id,
            generation,
            data_len: size as u64,
            allocated_len: blocks as u64 * self.block_size as u64,
            data_offset: self.block_size as u64,
            header_blocks: 1,
            extents,
            data_hash: hash::FNV_OFFSET,
        };
        let mut change: Change = Change {
            kind: ChangeKind::Write,
            id: entry.id,
            index,
            entry: DirectoryEntry {
                id: entry.id,
                flags: FLAG_ALLOCATED,
                generation: (generation % 0x1_0000_0000) as u32,
                header_lba: at as u64,
                header_blocks: 1,
            },
            header: Some(header),
            replaced: Some(
                Replaced {
                    header_lba: entry.header_lba,
                    header_blocks: old_header.header_blocks,
                    extents: old_header.extents,
                },
            ),
            stage: Stage::Hashing,
        };
        if size == 0 {
            let action: StoreAction = self.header_write(&mut change);
            return Ok((change, action));
        }
        Ok((change, StoreAction::Hash))
    }

    /// Start to delete object `id`, which `entry` locates. `header` is its
    /// header, where it could be read.
    pub fn start_delete(
        &self,
        id: u64,
        index: u32,
        entry: &DirectoryEntry,
        header: Option<ObjectHeader>,
    ) -> (started: (Change, StoreAction))
        requires
            self@.wf(),
            index < self@.directory.len(),
            header matches Some(found) ==> in_data(
                self@,
                entry.header_lba,
                found.header_blocks,
                found.extents@,
            ),
        ensures
            started.0@.wf(self@),
            (started.0@, started.1@) == delete_started(
                self@,
                id,
                index as int,
                *entry,
                match header {
                    Some(found) => Some(found@),
                    None => None,
                },
            ),
    {
        let generation: u32 = if entry.generation == u32::MAX {
            u32::MAX
        } else {
            entry.generation + 1
        };
        let (lba, offset): (u64, usize) = self.slot(index, generation);
        let replaced: Option<Replaced> = match header {
            Some(found) => Some(
                Replaced {
                    header_lba: entry.header_lba,
                    header_blocks: found.header_blocks,
                    extents: found.extents,
                },
            ),
            None => None,
        };
        let change: Change = Change {
            kind: ChangeKind::Delete,
            id,
            index,
            entry: DirectoryEntry {
                id: 0,
                flags: 0,
                generation,
                header_lba: 0,
                header_blocks: 0,
            },
            header: None,
            replaced,
            stage: Stage::ReadingDirectory,
        };
        (change, StoreAction::Read { lba })
    }
}

/// Whether an object was read as it was written: every byte was transferred, and
/// the content hash is that of its header. An empty object needs neither.
pub fn check_read(header: &ObjectHeader, transferred: bool, hash: Option<u64>) -> (ok: bool)
    ensures
        ok == (header.data_len == 0 || (transferred && hash == Some(header.data_hash))),
{
    if header.data_len == 0 {
        return true;
    }
    match hash {
        Some(found) => transferred && found == header.data_hash,
        None => false,
    }
}

/// The most bytes of one data transfer.
pub const MAX_IO_BYTES: usize = 524_288;

/// One data transfer: `bytes` bytes of the object from `offset` on are those of
/// the `blocks` blocks from `lba` on.
#[derive(Clone, Copy, Debug, PartialEq, Eq, Structural)]
pub struct Chunk {
    pub lba: u64,
    pub blocks: u32,
    pub offset: usize,
    pub bytes: usize,
}

/// The bytes of the next transfer: what is left of the object, of the extent and
/// of one transfer, whichever is least.
pub open spec fn chunk_bytes(left: int, extent_left: int) -> int {
    let least = if left <= extent_left {
        left
    } else {
        extent_left
    };
    if least <= MAX_IO_BYTES {
        least
    } else {
        MAX_IO_BYTES as int
    }
}

/// The transfers of `size` bytes from byte `offset` of the object and byte
/// `inside` of extent `at` on.
pub open spec fn chunks_from(
    extents: Seq<Extent>,
    at: int,
    inside: int,
    offset: int,
    size: int,
    block_size: int,
) -> Seq<Chunk>
    decreases extents.len() - at, size - offset,
{
    if at < 0 || at >= extents.len() || offset >= size || block_size <= 0 {
        Seq::empty()
    } else {
        let extent_len = extents[at].blocks * block_size;
        if inside >= extent_len {
            chunks_from(extents, at + 1, 0, offset, size, block_size)
        } else {
            let bytes = chunk_bytes(size - offset, extent_len - inside);
            if bytes <= 0 {
                Seq::empty()
            } else {
                seq![
                    Chunk {
                        lba: (extents[at].lba + inside / block_size) as u64,
                        blocks: wire::units(bytes, block_size) as u32,
                        offset: offset as usize,
                        bytes: bytes as usize,
                    },
                ] + chunks_from(extents, at, inside + bytes, offset + bytes, size, block_size)
            }
        }
    }
}

/// The transfers that move `size` bytes of an object over its extents. `None`
/// where the extents do not hold that many.
pub fn transfer_plan(extents: &[Extent], size: u32, block_size: u32) -> (plan: Option<Vec<Chunk>>)
    requires
        512 <= block_size <= 4096,
        extents@.len() <= MAX_EXTENTS,
        forall|i: int|
            0 <= i < extents@.len() ==> (#[trigger] extents@[i]).lba + extents@[i].blocks
                <= u32::MAX,
        usize::MAX >= 0xffff_ffff_ffff,
    ensures
        match plan {
            Some(chunks) => {
                &&& size <= extent_blocks(extents@) * block_size
                &&& chunks@ == chunks_from(
                    extents@,
                    0,
                    0,
                    0,
                    size as int,
                    block_size as int,
                )
            },
            None => size > extent_blocks(extents@) * block_size,
        },
{
    let total: usize = size as usize;
    let ghost whole = chunks_from(extents@, 0, 0, 0, size as int, block_size as int);
    let ghost b = block_size as int;
    let mut chunks: Vec<Chunk> = Vec::new();
    let mut offset: usize = 0;
    let mut at: usize = 0;
    let ghost mut passed: int = 0;
    assert(chunks@ + whole =~= whole);
    assert(extents@.take(0) =~= Seq::<Extent>::empty());
    while at < extents.len() && offset < total
        invariant
            512 <= block_size <= 4096,
            b == block_size,
            usize::MAX >= 0xffff_ffff_ffff,
            at <= extents@.len() <= MAX_EXTENTS,
            total == size,
            offset <= total,
            forall|i: int|
                0 <= i < extents@.len() ==> (#[trigger] extents@[i]).lba + extents@[i].blocks
                    <= u32::MAX,
            whole == chunks_from(extents@, 0, 0, 0, size as int, b),
            whole == chunks@ + chunks_from(extents@, at as int, 0, offset as int, size as int, b),
            passed == extent_blocks(extents@.take(at as int)),
            offset < total ==> offset == passed * b,
            offset == total ==> total <= passed * b,
        decreases extents@.len() - at,
    {
        let extent: Extent = extents[at];
        proof {
            let n = extent.blocks as int;
            assert(0 <= n * b <= 0xffff_ffff * 4096) by (nonlinear_arith)
                requires
                    0 <= n <= 0xffff_ffff,
                    0 <= b <= 4096,
            ;
        }
        let extent_len: usize = extent.blocks as usize * block_size as usize;
        let mut inside: usize = 0;
        let ghost start = offset as int;
        while inside < extent_len && offset < total
            invariant
                512 <= block_size <= 4096,
                b == block_size,
                at < extents@.len(),
                extent == extents@[at as int],
                extent.lba + extent.blocks <= u32::MAX,
                total == size,
                offset <= total,
                inside <= extent_len,
                extent_len == extent.blocks * b,
                extent_len <= 0xffff_ffff * 4096,
                offset == start + inside,
                whole == chunks@ + chunks_from(
                    extents@,
                    at as int,
                    inside as int,
                    offset as int,
                    size as int,
                    b,
                ),
            decreases extent_len - inside,
        {
            let left: usize = total - offset;
            let extent_left: usize = extent_len - inside;
            let least: usize = if left <= extent_left {
                left
            } else {
                extent_left
            };
            let bytes: usize = if least <= MAX_IO_BYTES {
                least
            } else {
                MAX_IO_BYTES
            };
            proof {
                let i = inside as int;
                let n = extent.blocks as int;
                assert(i / b <= n) by (nonlinear_arith)
                    requires
                        0 <= i <= n * b,
                        b > 0,
                ;
                assert(0 <= i / b) by (nonlinear_arith)
                    requires
                        0 <= i,
                        b > 0,
                ;
            }
            let blocks: u32 = div_up(bytes as u32, block_size);
            let chunk: Chunk = Chunk {
                lba: extent.lba + (inside / block_size as usize) as u64,
                blocks,
                offset,
                bytes,
            };
            let ghost so_far = chunks@;
            chunks.push(chunk);
            proof {
                let rest = chunks_from(
                    extents@,
                    at as int,
                    inside + bytes,
                    offset + bytes,
                    size as int,
                    b,
                );
                assert(so_far + (seq![chunk] + rest) =~= chunks@ + rest);
            }
            offset = offset + bytes;
            inside = inside + bytes;
        }
        proof {
            let next = extents@.take(at + 1);
            assert(next.drop_last() =~= extents@.take(at as int));
            let n = extent.blocks as int;
            assert((passed + n) * b == passed * b + n * b) by (nonlinear_arith);
            passed = passed + n;
            assert(passed == extent_blocks(next));
            if offset < total {
                assert(inside == extent_len);
            } else {
                assert(chunks_from(
                    extents@,
                    at + 1,
                    0,
                    offset as int,
                    size as int,
                    b,
                ) =~= Seq::<Chunk>::empty());
            }
        }
        at += 1;
    }
    proof {
        lemma_extent_blocks_prefix(extents@, at as int);
        let all = extent_blocks(extents@);
        if offset < total {
            assert(extents@.take(at as int) =~= extents@);
        } else {
            assert(passed * b <= all * b) by (nonlinear_arith)
                requires
                    passed <= all,
                    b > 0,
            ;
            assert(chunks_from(extents@, at as int, 0, offset as int, size as int, b) =~= Seq::<
                Chunk,
            >::empty());
            assert(chunks@ + Seq::<Chunk>::empty() =~= chunks@);
        }
    }
    if offset == total {
        Some(chunks)
    } else {
        None
    }
}

proof fn lemma_extent_blocks_prefix(extents: Seq<Extent>, count: int)
    requires
        0 <= count <= extents.len(),
    ensures
        extent_blocks(extents.take(count)) <= extent_blocks(extents),
    decreases extents.len(),
{
    if count < extents.len() {
        assert(extents.drop_last().take(count) =~= extents.take(count));
        lemma_extent_blocks_prefix(extents.drop_last(), count);
    } else {
        assert(extents.take(count) =~= extents);
    }
}

/// Chunks that follow each other in the object and on the device, from byte
/// `offset` and block `lba` on.
pub open spec fn chunks_in_sequence(
    chunks: Seq<Chunk>,
    offset: int,
    lba: int,
    size: int,
    block_size: int,
) -> bool {
    &&& forall|i: int|
        0 <= i < chunks.len() ==> {
            &&& (#[trigger] chunks[i]).bytes > 0
            &&& chunks[i].blocks == wire::units(chunks[i].bytes as int, block_size)
            &&& chunks[i].lba >= lba
            &&& chunks[i].offset == if i == 0 {
                offset
            } else {
                chunks[i - 1].offset + chunks[i - 1].bytes
            }
            &&& chunks[i].offset + chunks[i].bytes <= size
        }
    &&& forall|i: int, j: int|
        0 <= i < j < chunks.len() ==> (#[trigger] chunks[i]).lba + chunks[i].blocks <= (
        #[trigger] chunks[j]).lba
}

proof fn lemma_whole_blocks(bytes: int, block_size: int)
    requires
        block_size > 0,
        bytes >= 0,
        bytes % block_size == 0,
    ensures
        wire::units(bytes, block_size) * block_size == bytes,
        wire::units(bytes, block_size) == bytes / block_size,
{
    let q = bytes / block_size;
    assert(bytes == q * block_size) by (nonlinear_arith)
        requires
            q == bytes / block_size,
            bytes % block_size == 0,
            block_size > 0,
    ;
    assert((bytes + block_size - 1) / block_size == q) by (nonlinear_arith)
        requires
            bytes == q * block_size,
            block_size > 0,
    ;
}

proof fn lemma_chunks_in_sequence(
    extents: Seq<Extent>,
    at: int,
    inside: int,
    offset: int,
    size: int,
    block_size: int,
)
    requires
        0 < block_size <= 4096,
        MAX_IO_BYTES as int % block_size == 0,
        extents_apart(extents),
        forall|i: int|
            0 <= i < extents.len() ==> (#[trigger] extents[i]).lba + extents[i].blocks <= u32::MAX,
        0 <= at,
        0 <= inside,
        inside % block_size == 0 || offset >= size,
        at < extents.len() ==> inside <= extents[at].blocks * block_size,
        0 <= offset,
        size <= u32::MAX,
        usize::MAX >= 0xffff_ffff_ffff,
    ensures
        at < extents.len() ==> chunks_in_sequence(
            chunks_from(extents, at, inside, offset, size, block_size),
            offset,
            extents[at].lba + inside / block_size,
            size,
            block_size,
        ),
    decreases extents.len() - at, size - offset,
{
    reveal_with_fuel(chunks_from, 2);
    let chunks = chunks_from(extents, at, inside, offset, size, block_size);
    if at < extents.len() && offset < size {
        let n = extents[at].blocks as int;
        let extent_len = n * block_size;
        assert(0 <= extent_len <= 0xffff_ffff * 4096) by (nonlinear_arith)
            requires
                extent_len == n * block_size,
                0 <= n <= 0xffff_ffff,
                0 < block_size <= 4096,
        ;
        if inside >= extent_len {
            lemma_chunks_in_sequence(extents, at + 1, 0, offset, size, block_size);
            if at + 1 < extents.len() {
                assert(inside / block_size == n) by (nonlinear_arith)
                    requires
                        inside == n * block_size,
                        block_size > 0,
                ;
                assert(extents[at].lba + extents[at].blocks <= extents[at + 1].lba);
                assert(0int / block_size == 0) by (nonlinear_arith)
                    requires
                        block_size > 0,
                ;
            } else {
                assert(chunks =~= Seq::<Chunk>::empty());
            }
        } else {
            let bytes = chunk_bytes(size - offset, extent_len - inside);
            let first = chunks[0];
            let rest = chunks_from(
                extents,
                at,
                inside + bytes,
                offset + bytes,
                size,
                block_size,
            );
            assert(chunks == seq![first] + rest);
            let i = inside / block_size;
            assert(inside == i * block_size && 0 <= i) by (nonlinear_arith)
                requires
                    i == inside / block_size,
                    inside % block_size == 0,
                    0 <= inside,
                    block_size > 0,
            ;
            assert(i < n) by (nonlinear_arith)
                requires
                    i * block_size < n * block_size,
                    block_size > 0,
            ;
            if offset + bytes < size {
                let left = extent_len - inside;
                assert(left % block_size == 0) by (nonlinear_arith)
                    requires
                        left == n * block_size - i * block_size,
                        block_size > 0,
                {
                    assert(left == (n - i) * block_size);
                }
                assert(bytes % block_size == 0);
                lemma_whole_blocks(bytes, block_size);
                let q = bytes / block_size;
                assert(bytes == q * block_size);
                assert((inside + bytes) % block_size == 0 && (inside + bytes) / block_size == i + q)
                    by (nonlinear_arith)
                    requires
                        inside == i * block_size,
                        bytes == q * block_size,
                        block_size > 0,
                {
                    assert(inside + bytes == (i + q) * block_size);
                }
            }
            lemma_chunks_in_sequence(
                extents,
                at,
                inside + bytes,
                offset + bytes,
                size,
                block_size,
            );
            assert(first.blocks == wire::units(bytes, block_size)) by {
                let u = wire::units(bytes, block_size);
                assert(0 <= u <= bytes) by (nonlinear_arith)
                    requires
                        u == (bytes + block_size - 1) / block_size,
                        block_size > 0,
                        bytes > 0,
                ;
            }
            assert forall|k: int| 0 <= k < chunks.len() implies {
                &&& (#[trigger] chunks[k]).bytes > 0
                &&& chunks[k].blocks == wire::units(chunks[k].bytes as int, block_size)
                &&& chunks[k].lba >= extents[at].lba + i
                &&& chunks[k].offset == if k == 0 {
                    offset
                } else {
                    chunks[k - 1].offset + chunks[k - 1].bytes
                }
                &&& chunks[k].offset + chunks[k].bytes <= size
            } by {
                if k > 0 {
                    assert(chunks[k] == rest[k - 1]);
                    if k > 1 {
                        assert(chunks[k - 1] == rest[k - 2]);
                    }
                    if offset + bytes >= size {
                        assert(rest =~= Seq::<Chunk>::empty());
                    }
                }
            }
            assert forall|k: int, j: int| 0 <= k < j < chunks.len() implies (
            #[trigger] chunks[k]).lba + chunks[k].blocks <= (#[trigger] chunks[j]).lba by {
                assert(chunks[j] == rest[j - 1]);
                if k > 0 {
                    assert(chunks[k] == rest[k - 1]);
                } else if offset + bytes >= size {
                    assert(rest =~= Seq::<Chunk>::empty());
                }
            }
        }
    }
}

/// A block device, byte by byte.
pub struct Device {
    pub bytes: spec_fn(int) -> u8,
}

/// The device after the blocks of `chunk` were written with their part of
/// `data`. What is left of the last block gets `fill`.
pub open spec fn chunk_written(
    device: Device,
    chunk: Chunk,
    data: Seq<u8>,
    block_size: int,
    fill: u8,
) -> Device {
    let base = chunk.lba * block_size;
    Device {
        bytes: |address: int|
            if base <= address < base + chunk.bytes {
                data[chunk.offset + address - base]
            } else if base <= address < base + chunk.blocks * block_size {
                fill
            } else {
                (device.bytes)(address)
            },
    }
}

/// The device after every chunk was written.
pub open spec fn chunks_written(
    device: Device,
    chunks: Seq<Chunk>,
    data: Seq<u8>,
    block_size: int,
    fill: u8,
) -> Device
    decreases chunks.len(),
{
    if chunks.len() == 0 {
        device
    } else {
        chunk_written(
            chunks_written(device, chunks.drop_last(), data, block_size, fill),
            chunks.last(),
            data,
            block_size,
            fill,
        )
    }
}

/// What reading every chunk gives.
pub open spec fn chunks_read(device: Device, chunks: Seq<Chunk>, block_size: int) -> Seq<u8>
    decreases chunks.len(),
{
    if chunks.len() == 0 {
        Seq::empty()
    } else {
        let last = chunks.last();
        chunks_read(device, chunks.drop_last(), block_size) + Seq::new(
            last.bytes as nat,
            |i: int| (device.bytes)(last.lba * block_size + i),
        )
    }
}

proof fn lemma_chunk_survives(
    device: Device,
    chunks: Seq<Chunk>,
    data: Seq<u8>,
    block_size: int,
    fill: u8,
    index: int,
    byte: int,
)
    requires
        block_size > 0,
        0 <= index < chunks.len(),
        0 <= byte < chunks[index].bytes,
        forall|i: int| 0 <= i < chunks.len() ==> (#[trigger] chunks[i]).bytes <= chunks[i].blocks
            * block_size,
        forall|i: int, j: int|
            0 <= i < j < chunks.len() ==> (#[trigger] chunks[i]).lba + chunks[i].blocks <= (
            #[trigger] chunks[j]).lba,
    ensures
        (chunks_written(device, chunks, data, block_size, fill).bytes)(
            chunks[index].lba * block_size + byte,
        ) == data[chunks[index].offset + byte],
    decreases chunks.len(),
{
    let last = chunks.len() - 1;
    let before = chunks.drop_last();
    let address = chunks[index].lba * block_size + byte;
    if index < last {
        assert forall|i: int, j: int| 0 <= i < j < before.len() implies (
        #[trigger] before[i]).lba + before[i].blocks <= (#[trigger] before[j]).lba by {
            assert(before[i] == chunks[i] && before[j] == chunks[j]);
        }
        assert forall|i: int| 0 <= i < before.len() implies (#[trigger] before[i]).bytes
            <= before[i].blocks * block_size by {
            assert(before[i] == chunks[i]);
        }
        lemma_chunk_survives(device, before, data, block_size, fill, index, byte);
        let one = chunks[index];
        let two = chunks[last];
        let l1 = one.lba as int;
        let n1 = one.blocks as int;
        let l2 = two.lba as int;
        assert(l1 * block_size + n1 * block_size <= l2 * block_size) by (nonlinear_arith)
            requires
                l1 + n1 <= l2,
                block_size > 0,
        {
            assert((l1 + n1) * block_size <= l2 * block_size);
        }
    }
}

proof fn lemma_chunks_read(
    device: Device,
    chunks: Seq<Chunk>,
    data: Seq<u8>,
    block_size: int,
    count: int,
)
    requires
        0 <= count <= chunks.len(),
        forall|i: int|
            0 <= i < chunks.len() ==> {
                &&& (#[trigger] chunks[i]).offset == if i == 0 {
                    0
                } else {
                    chunks[i - 1].offset + chunks[i - 1].bytes
                }
                &&& chunks[i].offset + chunks[i].bytes <= data.len()
            },
        forall|i: int, byte: int|
            0 <= i < chunks.len() && 0 <= byte < (#[trigger] chunks[i]).bytes
                ==> #[trigger] (device.bytes)(chunks[i].lba * block_size + byte)
                == data[chunks[i].offset + byte],
    ensures
        chunks_read(device, chunks.take(count), block_size) == data.take(
            if count == 0 {
                0
            } else {
                chunks[count - 1].offset + chunks[count - 1].bytes
            },
        ),
    decreases count,
{
    if count == 0 {
        assert(chunks.take(0) =~= Seq::<Chunk>::empty());
        assert(data.take(0) =~= Seq::<u8>::empty());
    } else {
        lemma_chunks_read(device, chunks, data, block_size, count - 1);
        let prefix = chunks.take(count);
        let last = chunks[count - 1];
        assert(prefix.drop_last() =~= chunks.take(count - 1));
        assert(prefix.last() == last);
        let part = Seq::new(
            last.bytes as nat,
            |i: int| (device.bytes)(last.lba * block_size + i),
        );
        assert(part =~= data.subrange(last.offset as int, last.offset + last.bytes)) by {
            assert forall|i: int| 0 <= i < last.bytes implies part[i] == data[last.offset + i] by {
                assert((device.bytes)(chunks[count - 1].lba * block_size + i)
                    == data[chunks[count - 1].offset + i]);
            }
        }
        assert(data.take(last.offset as int) + part =~= data.take(last.offset + last.bytes));
    }
}

/// Reading an object's chunks gives back what was written to them, whatever was
/// on the device before and whatever fills the rest of the last block.
pub proof fn law_read_gives_back_what_was_written(
    device: Device,
    extents: Seq<Extent>,
    data: Seq<u8>,
    block_size: int,
    fill: u8,
)
    requires
        0 < block_size <= 4096,
        MAX_IO_BYTES as int % block_size == 0,
        extents_apart(extents),
        forall|i: int|
            0 <= i < extents.len() ==> (#[trigger] extents[i]).lba + extents[i].blocks <= u32::MAX,
        0 < data.len() <= extent_blocks(extents) * block_size,
        data.len() <= u32::MAX,
        usize::MAX >= 0xffff_ffff_ffff,
    ensures
        ({
            let chunks = chunks_from(extents, 0, 0, 0, data.len() as int, block_size);
            chunks_read(
                chunks_written(device, chunks, data, block_size, fill),
                chunks,
                block_size,
            ) == data
        }),
{
    let size = data.len() as int;
    let chunks = chunks_from(extents, 0, 0, 0, size, block_size);
    let after = chunks_written(device, chunks, data, block_size, fill);
    if extents.len() == 0 {
        assert(extent_blocks(extents) * block_size == 0) by (nonlinear_arith)
            requires
                extent_blocks(extents) == 0,
        ;
    }
    assert(extents.len() > 0);
    assert(0int % block_size == 0) by (nonlinear_arith)
        requires
            block_size > 0,
    ;
    assert(0 <= extents[0].blocks * block_size) by (nonlinear_arith)
        requires
            0 <= extents[0].blocks,
            0 < block_size,
    ;
    lemma_chunks_in_sequence(extents, 0, 0, 0, size, block_size);
    assert forall|i: int| 0 <= i < chunks.len() implies (#[trigger] chunks[i]).bytes
        <= chunks[i].blocks * block_size by {
        let bytes = chunks[i].bytes as int;
        let u = wire::units(bytes, block_size);
        assert(bytes <= u * block_size) by (nonlinear_arith)
            requires
                u == (bytes + block_size - 1) / block_size,
                block_size > 0,
        ;
    }
    assert forall|i: int, byte: int|
        0 <= i < chunks.len() && 0 <= byte < (#[trigger] chunks[i]).bytes implies #[trigger] (
    after.bytes)(chunks[i].lba * block_size + byte) == data[chunks[i].offset + byte] by {
        lemma_chunk_survives(device, chunks, data, block_size, fill, i, byte);
    }
    lemma_chunks_read(after, chunks, data, block_size, chunks.len() as int);
    assert(chunks.take(chunks.len() as int) =~= chunks);
    lemma_chunks_reach_the_end(extents, 0, 0, 0, size, block_size);
    assert(data.take(size) =~= data);
}

/// Blocks from extent `at` on.
pub open spec fn blocks_from(extents: Seq<Extent>, at: int) -> int
    decreases extents.len() - at,
{
    if at < 0 || at >= extents.len() {
        0
    } else {
        extents[at].blocks + blocks_from(extents, at + 1)
    }
}

proof fn lemma_blocks_from(extents: Seq<Extent>, at: int)
    requires
        0 <= at <= extents.len(),
    ensures
        blocks_from(extents, at) == extent_blocks(extents) - extent_blocks(extents.take(at)),
    decreases extents.len() - at,
{
    if at < extents.len() {
        lemma_blocks_from(extents, at + 1);
        let next = extents.take(at + 1);
        assert(next.drop_last() =~= extents.take(at));
    } else {
        assert(extents.take(at) =~= extents);
    }
}

/// The chunks cover the object to its end.
proof fn lemma_chunks_reach_the_end(
    extents: Seq<Extent>,
    at: int,
    inside: int,
    offset: int,
    size: int,
    block_size: int,
)
    requires
        0 < block_size <= 4096,
        0 <= at < extents.len(),
        0 <= inside <= extents[at].blocks * block_size,
        0 <= offset < size <= u32::MAX,
        usize::MAX >= 0xffff_ffff_ffff,
        at == 0 && inside == 0 && offset == 0 ==> size <= extent_blocks(extents) * block_size,
        at != 0 || inside != 0 || offset != 0 ==> size - offset <= blocks_from(extents, at)
            * block_size - inside,
    ensures
        ({
            let chunks = chunks_from(extents, at, inside, offset, size, block_size);
            &&& chunks.len() > 0
            &&& chunks.last().offset + chunks.last().bytes == size
        }),
    decreases extents.len() - at, size - offset,
{
    let chunks = chunks_from(extents, at, inside, offset, size, block_size);
    if at == 0 && inside == 0 && offset == 0 {
        lemma_blocks_from(extents, 0);
        assert(extents.take(0) =~= Seq::<Extent>::empty());
    }
    assert(size - offset <= blocks_from(extents, at) * block_size - inside);
    let n = extents[at].blocks as int;
    let extent_len = n * block_size;
    let later = blocks_from(extents, at + 1);
    assert(blocks_from(extents, at) * block_size == extent_len + later * block_size)
        by (nonlinear_arith)
        requires
            blocks_from(extents, at) == n + later,
            extent_len == n * block_size,
    ;
    assert(0 <= extent_len <= 0xffff_ffff * 4096) by (nonlinear_arith)
        requires
            extent_len == n * block_size,
            0 <= n <= 0xffff_ffff,
            0 < block_size <= 4096,
    ;
    if inside >= extent_len {
        if at + 1 >= extents.len() {
            assert(later * block_size == 0) by (nonlinear_arith)
                requires
                    later == 0,
            ;
        }
        assert(0 <= extents[at + 1].blocks * block_size) by (nonlinear_arith)
            requires
                0 <= extents[at + 1].blocks,
                0 < block_size,
        ;
        lemma_chunks_reach_the_end(extents, at + 1, 0, offset, size, block_size);
    } else {
        let bytes = chunk_bytes(size - offset, extent_len - inside);
        let rest = chunks_from(extents, at, inside + bytes, offset + bytes, size, block_size);
        if offset + bytes < size {
            lemma_chunks_reach_the_end(
                extents,
                at,
                inside + bytes,
                offset + bytes,
                size,
                block_size,
            );
            assert(chunks.last() == rest.last());
        } else {
            assert(rest =~= Seq::<Chunk>::empty());
            assert(chunks.last() == chunks[0]);
        }
    }
}

/// The newer of two superblocks, where there is one.
pub open spec fn newest_superblock(first: Option<Superblock>, second: Option<Superblock>) -> Option<
    Superblock,
> {
    match (first, second) {
        (Some(a), Some(b)) => if a.generation >= b.generation {
            Some(a)
        } else {
            Some(b)
        },
        (Some(a), None) => Some(a),
        (None, second) => second,
    }
}

/// The superblock to mount: the newer one, if it is that of this device.
pub open spec fn mountable(
    first: Option<Superblock>,
    second: Option<Superblock>,
    block_size: u32,
    total_blocks: u32,
) -> Option<Superblock> {
    match newest_superblock(first, second) {
        Some(sb) => if sb.block_size == block_size && sb.total_blocks == total_blocks && Some(
            sb.layout,
        ) == layout_of(block_size, total_blocks) {
            Some(sb)
        } else {
            None
        },
        None => None,
    }
}

/// Select the superblock to mount. `None` asks for the device to be formatted.
pub fn select_superblock(
    first: Option<Superblock>,
    second: Option<Superblock>,
    block_size: u32,
    total_blocks: u32,
) -> (selected: Option<Superblock>)
    requires
        block_size > 0,
    ensures
        selected == mountable(first, second, block_size, total_blocks),
{
    let newest: Option<Superblock> = match (first, second) {
        (Some(a), Some(b)) => {
            if a.generation >= b.generation {
                Some(a)
            } else {
                Some(b)
            }
        },
        (Some(a), None) => Some(a),
        (None, other) => other,
    };
    let sb: Superblock = match newest {
        Some(sb) => sb,
        None => {
            return None;
        },
    };
    match Layout::for_device(block_size, total_blocks) {
        Some(expected) => {
            if sb.block_size == block_size && sb.total_blocks == total_blocks && sb.layout
                == expected {
                Some(sb)
            } else {
                None
            }
        },
        None => None,
    }
}

/// A store in which only the metadata blocks are in use.
pub open spec fn empty_store(
    block_size: u32,
    total_blocks: u32,
    layout: Layout,
    generation: u64,
    next_id: u64,
) -> StoreView {
    StoreView {
        block_size,
        layout,
        super_generation: generation,
        next_id,
        used: Seq::new(total_blocks as nat, |i: int| i < layout.data_lba),
        directory: Seq::new(layout.entries(block_size) as nat, |i: int| free_entry()),
        index_cache: Map::empty(),
        pending_sizes: Map::empty(),
    }
}

/// What the directory says of an entry at mount.
#[derive(Clone, Copy, Debug, PartialEq, Eq, Structural)]
pub enum MountStep {
    /// There is nothing more to do for the entry.
    Next,
    /// Read the entry's header and hand it to [`ObjStore::mount_header`].
    ReadHeader { lba: u64, blocks: u32 },
    /// The store cannot be mounted.
    Corrupt,
}

/// The store after the two copies of entry `index` were read, and what to do
/// next.
pub open spec fn entry_mounted(store: StoreView, index: int, entry: DirectoryEntry) -> (
    StoreView,
    MountStep,
) {
    let known = StoreView { directory: store.directory.update(index, entry), ..store };
    if entry.id == 0 {
        (known, MountStep::Next)
    } else if entry.flags % 2 == 0 {
        (store, MountStep::Corrupt)
    } else {
        let cached = StoreView {
            index_cache: store.index_cache.insert(entry.id, index as u32),
            ..known
        };
        if entry.header_lba == 0 {
            (cached, MountStep::Next)
        } else if !store.readable(entry) {
            (cached, MountStep::Corrupt)
        } else {
            (
                cached,
                MountStep::ReadHeader { lba: entry.header_lba, blocks: entry.header_blocks },
            )
        }
    }
}

/// `used` with every extent taken in turn. `None` where a block is taken twice.
pub open spec fn claimed(used: Seq<bool>, extents: Seq<Extent>) -> Option<Seq<bool>>
    decreases extents.len(),
{
    if extents.len() == 0 {
        Some(used)
    } else {
        match claimed(used, extents.drop_last()) {
            Some(before) => if range_free(
                before,
                extents.last().lba as int,
                extents.last().blocks as int,
            ) {
                Some(marked(before, extents.last().lba as int, extents.last().blocks as int, true))
            } else {
                None
            },
            None => None,
        }
    }
}

/// The blocks in use with those of an object's header and extents. `None` where
/// another object has one of them.
pub open spec fn object_claimed(used: Seq<bool>, entry: DirectoryEntry, header: HeaderView) ->
    Option<Seq<bool>> {
    if range_free(used, entry.header_lba as int, entry.header_blocks as int) {
        claimed(
            marked(used, entry.header_lba as int, entry.header_blocks as int, true),
            header.extents,
        )
    } else {
        None
    }
}

impl ObjStore {
    /// A store in which only the metadata blocks are in use.
    fn empty(
        block_size: u32,
        total_blocks: u32,
        layout: Layout,
        generation: u64,
        next_id: u64,
    ) -> (store: ObjStore)
        requires
            512 <= block_size <= 4096,
            block_size % 32 == 0,
            layout_of(block_size, total_blocks) == Some(layout),
        ensures
            store@ == empty_store(block_size, total_blocks, layout, generation, next_id),
            store@.wf(),
    {
        let mut used: Vec<bool> = Vec::new();
        let mut block: u32 = 0;
        while block < total_blocks
            invariant
                block <= total_blocks,
                used@ == Seq::new(block as nat, |i: int| i < layout.data_lba),
            decreases total_blocks - block,
        {
            used.push((block as u64) < layout.data_lba);
            block += 1;
            assert(used@ =~= Seq::new(block as nat, |i: int| i < layout.data_lba));
        }
        proof {
            let d = layout.directory_blocks as int;
            let b = block_size as int;
            assert(0 <= d * b <= 4096 * 4096) by (nonlinear_arith)
                requires
                    0 <= d <= 4096,
                    0 <= b <= 4096,
            ;
        }
        let entries: u32 = match layout.directory_entries(block_size) {
            Some(entries) => entries,
            None => 0,
        };
        let mut directory: Vec<DirectoryEntry> = Vec::new();
        let mut index: u32 = 0;
        while index < entries
            invariant
                index <= entries,
                directory@ == Seq::new(index as nat, |i: int| free_entry()),
            decreases entries - index,
        {
            directory.push(unused_entry());
            index += 1;
            assert(directory@ =~= Seq::new(index as nat, |i: int| free_entry()));
        }
        let store: ObjStore = ObjStore {
            block_size,
            layout,
            super_generation: generation,
            next_id,
            used,
            directory,
            index_cache: BTreeMap::new(),
            pending_sizes: BTreeMap::new(),
        };
        assert(store@ =~= empty_store(block_size, total_blocks, layout, generation, next_id));
        store
    }

    /// The store of a device that is formatted: write its bitmap, both
    /// superblocks, and flush.
    pub fn format(block_size: u32, total_blocks: u32) -> (store: Option<ObjStore>)
        requires
            512 <= block_size <= 4096,
            block_size % 32 == 0,
        ensures
            match store {
                Some(formatted) => {
                    &&& layout_of(block_size, total_blocks) is Some
                    &&& formatted@ == empty_store(
                        block_size,
                        total_blocks,
                        layout_of(block_size, total_blocks)->0,
                        1,
                        1,
                    )
                    &&& formatted@.wf()
                },
                None => layout_of(block_size, total_blocks) is None,
            },
    {
        match Layout::for_device(block_size, total_blocks) {
            Some(layout) => Some(Self::empty(block_size, total_blocks, layout, 1, 1)),
            None => None,
        }
    }

    /// The store of a selected superblock, before its directory is read.
    pub fn mount(sb: &Superblock) -> (store: ObjStore)
        requires
            512 <= sb.block_size <= 4096,
            sb.block_size % 32 == 0,
            layout_of(sb.block_size, sb.total_blocks) == Some(sb.layout),
        ensures
            store@ == empty_store(
                sb.block_size,
                sb.total_blocks,
                sb.layout,
                sb.generation,
                if sb.next_id == 0 {
                    1
                } else {
                    sb.next_id
                },
            ),
            store@.wf(),
    {
        let next_id: u64 = if sb.next_id == 0 {
            1
        } else {
            sb.next_id
        };
        Self::empty(sb.block_size, sb.total_blocks, sb.layout, sb.generation, next_id)
    }

    /// Read the two copies of entry `index`.
    pub fn mount_entry(&mut self, index: u32, first: &[u8], second: &[u8]) -> (mounted: (
        DirectoryEntry,
        MountStep,
    ))
        requires
            old(self)@.wf(),
            index < old(self)@.directory.len(),
        ensures
            final(self)@.wf(),
            mounted.0 == newest(entry_decoded(first@), entry_decoded(second@)),
            (final(self)@, mounted.1) == entry_mounted(old(self)@, index as int, mounted.0),
    {
        let ghost before = self@;
        let entry: DirectoryEntry = newest_directory_entry(
            decode_directory(first),
            decode_directory(second),
        );
        if entry.id == 0 {
            self.directory.set(index as usize, entry);
            return (entry, MountStep::Next);
        }
        if entry.flags % 2 == 0 {
            return (entry, MountStep::Corrupt);
        }
        self.directory.set(index as usize, entry);
        let previous: Option<u32> = self.index_cache.insert(entry.id, index);
        proof {
            assert forall|id: u64| #[trigger] self@.index_cache.contains_key(
                id,
            ) implies self@.index_cache[id] < self@.directory.len() by {
                if before.index_cache.contains_key(id) {
                    assert(before.index_cache[id] < before.directory.len());
                }
            }
        }
        if entry.header_lba == 0 {
            return (entry, MountStep::Next);
        }
        if !self.is_readable(&entry) {
            return (entry, MountStep::Corrupt);
        }
        (entry, MountStep::ReadHeader { lba: entry.header_lba, blocks: entry.header_blocks })
    }

    /// Take the blocks of the object that `entry` locates. Returns whether the
    /// header is sound and no other object has one of its blocks; otherwise the
    /// store cannot be mounted.
    pub fn mount_header(&mut self, entry: &DirectoryEntry, bytes: &[u8]) -> (ok: bool)
        requires
            old(self)@.wf(),
            old(self)@.readable(*entry),
        ensures
            final(self)@.wf(),
            match old(self)@.header_for(*entry, bytes@) {
                Some(header) => match object_claimed(old(self)@.used, *entry, header) {
                    Some(used) => ok && final(self)@ == (StoreView { used, ..old(self)@ }),
                    None => !ok,
                },
                None => !ok && final(self)@ == old(self)@,
            },
    {
        let ghost before = self@;
        let header: ObjectHeader = match self.check_header(entry, bytes) {
            Some(header) => header,
            None => {
                return false;
            },
        };
        let at: u32 = entry.header_lba as u32;
        if bitmap_range_used(&self.used, at, entry.header_blocks) {
            return false;
        }
        bitmap_set_range(&mut self.used, at, entry.header_blocks, true);
        let ghost start = self.used@;
        let ghost extents = header.extents@;
        let mut index: usize = 0;
        assert(extents.take(0) =~= Seq::<Extent>::empty());
        while index < header.extents.len()
            invariant
                extents == header.extents@,
                index <= extents.len(),
                before == old(self)@,
                before.header_for(*entry, bytes@) == Some(header@),
                range_free(before.used, entry.header_lba as int, entry.header_blocks as int),
                start == marked(
                    before.used,
                    entry.header_lba as int,
                    entry.header_blocks as int,
                    true,
                ),
                extents_within(
                    extents,
                    before.layout.data_lba as int,
                    before.used.len() as int,
                ),
                before.used.len() <= u32::MAX,
                self.used@.len() == before.used.len(),
                self@ == (StoreView { used: self.used@, ..before }),
                before.wf(),
                claimed(start, extents.take(index as int)) == Some(self.used@),
            decreases extents.len() - index,
        {
            let extent: Extent = header.extents[index];
            assert(extents[index as int].lba + extents[index as int].blocks <= before.used.len());
            proof {
                let next = extents.take(index + 1);
                assert(next.drop_last() =~= extents.take(index as int));
                assert(next.last() == extent);
            }
            if bitmap_range_used(&self.used, extent.lba as u32, extent.blocks) {
                proof {
                    lemma_claimed_none(start, extents, index + 1);
                }
                return false;
            }
            bitmap_set_range(&mut self.used, extent.lba as u32, extent.blocks, true);
            index += 1;
        }
        assert(extents.take(index as int) =~= extents);
        true
    }

    /// The bitmap and the bitmap's place, to be written when the store was
    /// mounted or formatted.
    pub fn persist_bitmap(&self) -> (action: StoreAction)
        ensures
            action@ == (StoreActionView::Write {
                lba: self@.layout.bitmap_lba,
                blocks: self@.layout.bitmap_blocks,
                bytes: bitmap_code(self@.used),
            }),
    {
        self.bitmap_write()
    }
}

proof fn lemma_claimed_none(used: Seq<bool>, extents: Seq<Extent>, count: int)
    requires
        0 <= count <= extents.len(),
        claimed(used, extents.take(count)) is None,
    ensures
        claimed(used, extents) is None,
    decreases extents.len() - count,
{
    if count < extents.len() {
        let next = extents.take(count + 1);
        assert(next.drop_last() =~= extents.take(count));
        lemma_claimed_none(used, extents, count + 1);
    } else {
        assert(extents.take(count) =~= extents);
    }
}

/// A change writes its locator only after its data, its header and the bitmap
/// are durable, and frees what it replaces only after the locator is durable.
pub proof fn law_locator_follows_durable_data(
    store: StoreView,
    change: ChangeView,
    event: StoreEvent,
)
    ensures
        ({
            let (after, next, action) = change_next(store, change, event);
            &&& next.stage == Stage::WritingDirectory ==> change.stage == Stage::ReadingDirectory
            &&& next.stage == Stage::ReadingDirectory ==> change.stage == Stage::Settling && event
                is Done
            &&& next.stage == Stage::Settling ==> change.stage == Stage::WritingBitmap && event
                is Done && action is Flush
            &&& next.stage == Stage::WritingBitmap ==> change.stage == Stage::WritingHeader
                && event is Done
            &&& next.stage == Stage::WritingHeader ==> change.stage == Stage::Transferring && event
                is Done
            &&& next.stage == Stage::Cleaning ==> change.stage == Stage::Publishing && event is Done
            &&& next.stage == Stage::Publishing ==> change.stage == Stage::WritingDirectory && event
                is Done && action is Flush
            &&& after.used != store.used ==> next.stage == Stage::Cleaning || next.stage
                == Stage::Finished
        }),
{
}

/// Until the locator is durable, the blocks of the replaced object stay in use:
/// a change that fails before that frees only what it took.
pub proof fn law_failed_write_restores_the_bitmap(
    used: Seq<bool>,
    header_lba: u64,
    extents: Seq<Extent>,
)
    requires
        header_lba < used.len(),
        !used[header_lba as int],
        extents_free(marked(used, header_lba as int, 1, true), extents),
    ensures
        released(
            extents_marked(marked(used, header_lba as int, 1, true), extents, true),
            header_lba,
            1,
            extents,
        ) == used,
{
    let with_header = marked(used, header_lba as int, 1, true);
    let taken = extents_marked(with_header, extents, true);
    let without_header = marked(taken, header_lba as int, 1, false);
    lemma_extents_marked(with_header, extents, true);
    lemma_extents_marked(without_header, extents, false);
    let after = extents_marked(without_header, extents, false);
    assert forall|i: int| 0 <= i < used.len() implies after[i] == used[i] by {
        if exists|k: int|
            0 <= k < extents.len() && (#[trigger] extents[k]).lba <= i < extents[k].lba
                + extents[k].blocks {
            let k = choose|k: int|
                0 <= k < extents.len() && (#[trigger] extents[k]).lba <= i < extents[k].lba
                    + extents[k].blocks;
            assert(range_free(with_header, extents[k].lba as int, extents[k].blocks as int));
            assert(!with_header[i]);
        } else {
            assert(taken[i] == with_header[i]);
        }
    }
    assert(after =~= used);
}

/// At mount every block belongs to one object at most: an object that claims a
/// block which is in use already cannot be mounted.
pub proof fn law_mounted_objects_share_no_block(
    used: Seq<bool>,
    entry: DirectoryEntry,
    header: HeaderView,
    block: int,
)
    requires
        object_claimed(used, entry, header) is Some,
        0 <= block < used.len(),
        used[block],
    ensures
        object_claimed(used, entry, header)->0[block],
        !(entry.header_lba <= block < entry.header_lba + entry.header_blocks),
        forall|i: int|
            0 <= i < header.extents.len() ==> !((#[trigger] header.extents[i]).lba <= block
                < header.extents[i].lba + header.extents[i].blocks),
{
    let start = marked(used, entry.header_lba as int, entry.header_blocks as int, true);
    lemma_claimed_apart(start, header.extents, block);
}

proof fn lemma_claimed_apart(used: Seq<bool>, extents: Seq<Extent>, block: int)
    requires
        claimed(used, extents) is Some,
        0 <= block < used.len(),
        used[block],
    ensures
        claimed(used, extents)->0[block],
        claimed(used, extents)->0.len() == used.len(),
        forall|i: int|
            0 <= i < extents.len() ==> !((#[trigger] extents[i]).lba <= block < extents[i].lba
                + extents[i].blocks),
    decreases extents.len(),
{
    if extents.len() > 0 {
        let before = extents.drop_last();
        lemma_claimed_apart(used, before, block);
        let so_far = claimed(used, before)->0;
        let last = extents.last();
        assert forall|i: int| 0 <= i < extents.len() implies !((#[trigger] extents[i]).lba <= block
            < extents[i].lba + extents[i].blocks) by {
            if i < before.len() {
                assert(before[i] == extents[i]);
            } else {
                assert(so_far[block]);
            }
        }
    }
}

/// Bytes of one metadata transfer: as many whole blocks as 32 KiB hold, and at
/// least one.
pub fn metadata_chunk_bytes(block_size: u32) -> (bytes: usize)
    requires
        0 < block_size <= 4096,
    ensures
        bytes == (32_768int / block_size as int) * block_size,
        0 < bytes <= 32_768,
{
    let size: usize = block_size as usize;
    let count: usize = 32_768 / size;
    proof {
        let n = count as int;
        let b = block_size as int;
        assert(n * b <= 32_768 && n >= 8 && n * b > 0) by (nonlinear_arith)
            requires
                n == 32_768int / b,
                0 < b <= 4096,
        ;
    }
    count * size
}

/// Blocks of one metadata transfer.
pub open spec fn chunk_blocks(block_size: u32) -> int {
    32_768int / block_size as int
}

/// Metadata moves in chunks of whole blocks, one behind the other.
pub open spec fn metadata_chunks(lba: u64, blocks: u32, block_size: u32) -> Seq<Chunk> {
    let step = chunk_blocks(block_size);
    Seq::new(
        wire::units(blocks as int, step) as nat,
        |i: int|
            {
                let count = if blocks - i * step <= step {
                    blocks - i * step
                } else {
                    step
                };
                Chunk {
                    lba: (lba + i * step) as u64,
                    blocks: count as u32,
                    offset: (i * step * block_size) as usize,
                    bytes: (count * block_size) as usize,
                }
            },
    )
}

/// Plan the transfers of consecutive metadata blocks.
pub fn metadata_plan(lba: u64, blocks: u32, block_size: u32) -> (plan: Vec<Chunk>)
    requires
        0 < block_size <= 4096,
        lba + blocks <= u64::MAX,
        blocks * block_size <= usize::MAX,
    ensures
        plan@ == metadata_chunks(lba, blocks, block_size),
{
    let ghost step = chunk_blocks(block_size);
    let per_chunk: u32 = 32_768 / block_size;
    let mut plan: Vec<Chunk> = Vec::new();
    let mut done: u32 = 0;
    proof {
        assert(32_768int / block_size as int >= 8) by (nonlinear_arith)
            requires
                0 < block_size <= 4096,
        ;
        assert(wire::units(0, step) == 0) by (nonlinear_arith)
            requires
                step >= 8,
                wire::units(0, step) == (0 + step - 1) / step,
        ;
        assert(0 * step == 0);
    }
    while done < blocks
        invariant
            0 < block_size <= 4096,
            lba + blocks <= u64::MAX,
            blocks * block_size <= usize::MAX,
            step == chunk_blocks(block_size),
            per_chunk == step >= 8,
            done <= blocks,
            done < blocks ==> done == plan@.len() * step,
            done == blocks ==> plan@.len() == wire::units(blocks as int, step),
            plan@.len() <= wire::units(blocks as int, step),
            plan@ =~= metadata_chunks(lba, blocks, block_size).take(plan@.len() as int),
        decreases blocks - done,
    {
        let count: u32 = if blocks - done <= per_chunk {
            blocks - done
        } else {
            per_chunk
        };
        let ghost index = plan@.len() as int;
        proof {
            assert(done * block_size <= blocks * block_size && count * block_size <= blocks
                * block_size && index * step * block_size == done * block_size) by (nonlinear_arith)
                requires
                    done <= blocks,
                    count <= blocks,
                    block_size > 0,
                    done == index * step,
            ;
            assert(index < wire::units(blocks as int, step) && (count == blocks - done ==> index + 1
                == wire::units(blocks as int, step)) && (count < blocks - done ==> index + 1
                < wire::units(blocks as int, step))) by (nonlinear_arith)
                requires
                    index * step < blocks,
                    done == index * step,
                    step >= 8,
                    count == (if blocks - done <= step {
                        blocks - done
                    } else {
                        step
                    }),
                    wire::units(blocks as int, step) == (blocks + step - 1) / step,
            ;
            assert((index + 1) * step == index * step + step) by (nonlinear_arith);
        }
        let ghost before = plan@;
        plan.push(
            Chunk {
                lba: lba + done as u64,
                blocks: count,
                offset: done as usize * block_size as usize,
                bytes: count as usize * block_size as usize,
            },
        );
        proof {
            let all = metadata_chunks(lba, blocks, block_size);
            assert(all[index] == plan@[index]);
            assert(all.take(index + 1) =~= all.take(index).push(all[index]));
        }
        done = done + count;
    }
    proof {
        let all = metadata_chunks(lba, blocks, block_size);
        assert(all.take(all.len() as int) =~= all);
    }
    plan
}

/// The metadata transfers cover the blocks from the first to the last, each once.
pub proof fn law_metadata_moves_whole(lba: u64, blocks: u32, block_size: u32, index: int)
    requires
        0 < block_size <= 4096,
        lba + blocks <= u64::MAX,
        blocks * block_size <= usize::MAX,
        0 <= index < metadata_chunks(lba, blocks, block_size).len(),
    ensures
        ({
            let chunks = metadata_chunks(lba, blocks, block_size);
            let chunk = chunks[index];
            &&& chunk.blocks > 0
            &&& index == 0 ==> chunk.lba == lba && chunk.offset == 0
            &&& index > 0 ==> chunk.lba == chunks[index - 1].lba + chunks[index - 1].blocks
                && chunk.offset == chunks[index - 1].offset + chunks[index - 1].bytes
            &&& index == chunks.len() - 1 ==> chunk.lba + chunk.blocks == lba + blocks
            &&& chunk.bytes == chunk.blocks * block_size
        }),
{
    let step = chunk_blocks(block_size);
    let size = block_size as int;
    let total = blocks as int;
    let count = wire::units(total, step);
    assert(step >= 8) by (nonlinear_arith)
        requires
            step == 32_768int / size,
            0 < size <= 4096,
    ;
    assert(index * step < total && (index == count - 1 <==> total - index * step <= step)) by (
    nonlinear_arith)
        requires
            0 <= index < count,
            count == (total + step - 1) / step,
            step >= 8,
            total >= 0,
    ;
    assert((index - 1) * step == index * step - step) by (nonlinear_arith);
    assert(index > 0 ==> (index - 1) * step >= 0) by (nonlinear_arith)
        requires
            step >= 8,
    ;
    assert(index * step >= 0) by (nonlinear_arith)
        requires
            step >= 8,
            index >= 0,
    ;
    let covered = if total - index * step <= step {
        total - index * step
    } else {
        step
    };
    assert(0 <= index * step * size <= total * size && 0 <= covered * size <= total * size && (
    index * step - step) * size == index * step * size - step * size && (index - 1) * step * size
        == (index * step - step) * size) by (nonlinear_arith)
        requires
            0 <= index * step <= total,
            0 <= covered <= total,
            size > 0,
    ;
    assert(index > 0 ==> 0 <= step * size <= total * size) by (nonlinear_arith)
        requires
            index > 0 ==> step <= index * step,
            index * step <= total,
            step >= 8,
            size > 0,
    ;
    assert(index == 0 ==> index * step == 0 && index * step * size == 0) by (nonlinear_arith);
    let chunks = metadata_chunks(lba, blocks, block_size);
    let chunk = chunks[index];
    assert(chunk.blocks == covered);
    assert(chunk.lba == lba + index * step);
    assert(chunk.offset == index * step * size);
    assert(chunk.bytes == covered * size);
    if index > 0 {
        let before = chunks[index - 1];
        assert(before.blocks == step);
        assert(before.lba == lba + (index - 1) * step);
        assert(before.offset == (index - 1) * step * size);
        assert(before.bytes == step * size);
    }
}

/// What one metadata transfer writes: the bytes, and zeros where they have ended.
pub fn metadata_content(bytes: &[u8], chunk: &Chunk) -> (content: Vec<u8>)
    requires
        chunk.offset + chunk.bytes <= usize::MAX,
    ensures
        content@ == Seq::new(
            chunk.bytes as nat,
            |i: int|
                if chunk.offset + i < bytes@.len() {
                    bytes@[chunk.offset + i]
                } else {
                    0u8
                },
        ),
{
    let mut content: Vec<u8> = Vec::new();
    let mut index: usize = 0;
    while index < chunk.bytes
        invariant
            index <= chunk.bytes,
            chunk.offset + chunk.bytes <= usize::MAX,
            content@.len() == index,
            forall|i: int|
                0 <= i < index ==> #[trigger] content@[i] == (if chunk.offset + i < bytes@.len() {
                    bytes@[chunk.offset + i]
                } else {
                    0u8
                }),
        decreases chunk.bytes - index,
    {
        if chunk.offset + index < bytes.len() {
            content.push(bytes[chunk.offset + index]);
        } else {
            content.push(0);
        }
        index += 1;
    }
    content
}

/// Every locator has a place of its own: its copy for a generation is the
/// `index`-th stretch of 32 bytes of the bank that the generation's parity picks,
/// counted from the first byte of the bank, and lies in one block of that bank.
pub proof fn law_locators_lie_in_order(store: StoreView, index: int, generation: u32)
    requires
        store.wf(),
        0 <= index < store.directory.len(),
    ensures
        ({
            let (lba, offset) = store.slot(index, generation);
            let size = store.block_size as int;
            let bank = if generation % 2 == 0 {
                store.layout.directory_lba as int
            } else {
                store.layout.directory_lba + store.layout.directory_blocks
            };
            &&& lba * size + offset == bank * size + 32 * index
            &&& 0 <= offset <= size - 32
            &&& bank <= lba < bank + store.layout.directory_blocks
            &&& lba < store.layout.data_lba
        }),
{
    lemma_layout_bounds(store);
    let b = store.block_size as int;
    let at = 32 * index;
    let d = store.layout.directory_blocks as int;
    let q = at / b;
    let r = at % b;
    assert(at == q * b + r && 0 <= r < b && 0 <= q) by (nonlinear_arith)
        requires
            q == at / b,
            r == at % b,
            b > 0,
            at >= 0,
    ;
    assert(at < d * b);
    assert(q < d) by (nonlinear_arith)
        requires
            at == q * b + r,
            at < d * b,
            r >= 0,
            b > 0,
    ;
    let k = b / 32;
    assert(b == 32 * k);
    assert(r % 32 == 0 && r + 32 <= b) by (nonlinear_arith)
        requires
            at == 32 * index,
            at == q * b + r,
            b == 32 * k,
            0 <= r < b,
    {
        assert(r == 32 * (index - q * k));
    }
    let lo = store.layout.directory_lba as int;
    let parity = (generation % 2) as int;
    assert((lo + parity * d + q) * b + r == (lo + parity * d) * b + at) by (nonlinear_arith)
        requires
            at == q * b + r,
    ;
    assert(parity * d == if generation % 2 == 0 {
        0
    } else {
        d
    }) by (nonlinear_arith)
        requires
            parity == 0 || parity == 1,
            parity == (generation % 2) as int,
    ;
}

/// No two locators share a byte of the device: neither two numbers in one bank,
/// nor the copies of two successive generations of one number.
pub proof fn law_locators_share_no_byte(
    store: StoreView,
    one: int,
    first: u32,
    two: int,
    second: u32,
)
    requires
        store.wf(),
        0 <= one < store.directory.len(),
        0 <= two < store.directory.len(),
        one != two || first % 2 != second % 2,
    ensures
        ({
            let (lba_one, offset_one) = store.slot(one, first);
            let (lba_two, offset_two) = store.slot(two, second);
            lba_one != lba_two || offset_one + 32 <= offset_two || offset_two + 32 <= offset_one
        }),
{
    law_locators_lie_in_order(store, one, first);
    law_locators_lie_in_order(store, two, second);
    let size = store.block_size as int;
    let (lba_one, offset_one) = store.slot(one, first);
    let (lba_two, offset_two) = store.slot(two, second);
    if lba_one == lba_two {
        assert(lba_one * size == lba_two * size);
    }
}

/// Publishing a locator reads one block and writes the same block back with the
/// locator in its place and every other byte as it was.
pub proof fn law_publishing_changes_one_locator(
    store: StoreView,
    change: ChangeView,
    block: Vec<u8>,
    at: int,
)
    requires
        store.wf(),
        change.index < store.directory.len(),
        change.stage == Stage::ReadingDirectory,
        block@.len() == store.block_size,
        0 <= at < store.block_size,
    ensures
        ({
            let size = store.block_size as int;
            let bank = if change.entry.generation % 2 == 0 {
                store.layout.directory_lba as int
            } else {
                store.layout.directory_lba + store.layout.directory_blocks
            };
            let place = bank * size + 32 * change.index;
            let asked = change_next(
                store,
                ChangeView { stage: Stage::Settling, ..change },
                StoreEvent::Done,
            ).2;
            let written = change_next(store, change, StoreEvent::Block { bytes: block }).2;
            &&& asked matches StoreActionView::Read { lba: from } && written
                matches StoreActionView::Write { lba, blocks, bytes } && from == lba && blocks == 1
                && bytes.len() == size && if place <= lba * size + at < place + 32 {
                bytes[at] == entry_code(change.entry)[lba * size + at - place]
            } else {
                bytes[at] == block@[at]
            }
        }),
{
    law_locators_lie_in_order(store, change.index as int, change.entry.generation);
    lemma_layout_bounds(store);
    lemma_entry_offsets(change.entry);
    wire::lemma_le_bytes_len(
        (hash::crc32_of(wire::coded(entry_fields(change.entry))) ^ DIR_CRC_SALT) as nat,
        4,
    );
}

/// The regions of a device follow each other without overlap: two superblocks, a
/// bitmap with a bit for every block, two banks of the same size, and data.
pub proof fn law_regions_do_not_overlap(block_size: u32, total_blocks: u32)
    requires
        block_size > 0,
        layout_of(block_size, total_blocks) is Some,
    ensures
        ({
            let layout = layout_of(block_size, total_blocks)->0;
            &&& layout.bitmap_lba == 2
            &&& layout.bitmap_blocks * block_size * 8 >= total_blocks
            &&& layout.directory_lba == layout.bitmap_lba + layout.bitmap_blocks
            &&& layout.directory_blocks >= 1
            &&& layout.data_lba == layout.directory_lba + 2 * layout.directory_blocks
            &&& layout.data_lba + 2 <= total_blocks
        }),
{
    let size = block_size as int;
    let total = total_blocks as int;
    let bytes = wire::units(total, 8);
    let blocks = wire::units(bytes, size);
    assert(bytes * 8 >= total);
    assert(blocks * size >= bytes) by (nonlinear_arith)
        requires
            blocks == wire::units(bytes, size),
            size > 0,
            bytes >= 0,
    {
        assert(blocks == (bytes + size - 1) / size);
    }
    assert(0 <= blocks <= total) by (nonlinear_arith)
        requires
            blocks == wire::units(bytes, size),
            size > 0,
            0 <= bytes <= total,
    {
        assert(blocks == (bytes + size - 1) / size);
    }
}

proof fn lemma_bit_of(byte: int, low: int, bit: int, high: int, weight: int)
    requires
        weight > 0,
        0 <= low < weight,
        0 <= bit <= 1,
        byte == low + weight * bit + 2 * weight * high,
    ensures
        (byte / weight) % 2 == bit,
{
    let quotient = bit + 2 * high;
    assert(byte == quotient * weight + low) by (nonlinear_arith)
        requires
            byte == low + weight * bit + 2 * weight * high,
            quotient == bit + 2 * high,
    ;
    vstd::arithmetic::div_mod::lemma_fundamental_div_mod_converse(byte, weight, quotient, low);
}

/// The stored bitmap tells of every block whether it is in use: block `8 * i + k`
/// by bit `k` of byte `i`.
pub proof fn law_bitmap_tells_every_block(used: Seq<bool>, block: int)
    requires
        0 <= block < used.len(),
    ensures
        ({
            let weight = seq![1int, 2, 4, 8, 16, 32, 64, 128][block % 8];
            &&& block / 8 < bitmap_code(used).len()
            &&& (bitmap_code(used)[block / 8] as int / weight) % 2 == if used[block] {
                1int
            } else {
                0
            }
        }),
{
    reveal_with_fuel(byte_of, 2);
    vstd::arithmetic::power2::lemma2_to64();
    let start = 8 * (block / 8);
    assert(block == start + block % 8);
    let bit = |k: int| if start + k < used.len() && used[start + k] {
        1int
    } else {
        0
    };
    let byte = byte_of(used, start, 8) as int;
    assert(byte_of(used, start, 1) == bit(0));
    assert(byte_of(used, start, 2) == bit(0) + 2 * bit(1));
    assert(byte_of(used, start, 3) == bit(0) + 2 * bit(1) + 4 * bit(2));
    assert(byte_of(used, start, 4) == bit(0) + 2 * bit(1) + 4 * bit(2) + 8 * bit(3));
    assert(byte_of(used, start, 5) == bit(0) + 2 * bit(1) + 4 * bit(2) + 8 * bit(3) + 16 * bit(4));
    assert(byte_of(used, start, 6) == bit(0) + 2 * bit(1) + 4 * bit(2) + 8 * bit(3) + 16 * bit(4)
        + 32 * bit(5));
    assert(byte_of(used, start, 7) == bit(0) + 2 * bit(1) + 4 * bit(2) + 8 * bit(3) + 16 * bit(4)
        + 32 * bit(5) + 64 * bit(6));
    assert(byte == bit(0) + 2 * bit(1) + 4 * bit(2) + 8 * bit(3) + 16 * bit(4) + 32 * bit(5) + 64
        * bit(6) + 128 * bit(7));
    assert(bitmap_code(used)[block / 8] == byte);
    let k = block % 8;
    let b0 = bit(0);
    let b1 = bit(1);
    let b2 = bit(2);
    let b3 = bit(3);
    let b4 = bit(4);
    let b5 = bit(5);
    let b6 = bit(6);
    let b7 = bit(7);
    lemma_bit_of(byte, 0, b0, b1 + 2 * b2 + 4 * b3 + 8 * b4 + 16 * b5 + 32 * b6 + 64 * b7, 1);
    lemma_bit_of(byte, b0, b1, b2 + 2 * b3 + 4 * b4 + 8 * b5 + 16 * b6 + 32 * b7, 2);
    lemma_bit_of(byte, b0 + 2 * b1, b2, b3 + 2 * b4 + 4 * b5 + 8 * b6 + 16 * b7, 4);
    lemma_bit_of(byte, b0 + 2 * b1 + 4 * b2, b3, b4 + 2 * b5 + 4 * b6 + 8 * b7, 8);
    lemma_bit_of(byte, b0 + 2 * b1 + 4 * b2 + 8 * b3, b4, b5 + 2 * b6 + 4 * b7, 16);
    let low = b0 + 2 * b1 + 4 * b2 + 8 * b3 + 16 * b4;
    lemma_bit_of(byte, low, b5, b6 + 2 * b7, 32);
    lemma_bit_of(byte, low + 32 * b5, b6, b7, 64);
    lemma_bit_of(byte, low + 32 * b5 + 64 * b6, b7, 0, 128);
    assert(k == 0 || k == 1 || k == 2 || k == 3 || k == 4 || k == 5 || k == 6 || k == 7);
    assert(bit(k) == if used[block] {
        1int
    } else {
        0
    });
}

/// A new object gets a free directory entry and a free data block, under a
/// generation that mounting prefers, and the header that is written for it is the
/// one that its directory entry leads to.
#[verifier::spinoff_prover]
#[verifier::rlimit(60)]
pub proof fn law_created_object_can_be_mounted(
    store: StoreView,
    requested: Option<u64>,
    change: ChangeView,
    action: StoreActionView,
)
    requires
        store.wf(),
        create_started(store, requested).1 == Ok::<(ChangeView, StoreActionView), StoreError>(
            (change, action),
        ),
    ensures
        ({
            let after = create_started(store, requested).0;
            let before = store.directory[change.index as int];
            let at = change.entry.header_lba as int;
            &&& change.index < store.directory.len()
            &&& before.id == 0
            &&& change.entry.id == change.id
            &&& change.entry.flags == 1
            &&& before.generation < u32::MAX ==> change.entry.generation == before.generation + 1
            &&& store.readable(change.entry)
            &&& !store.used[at]
            &&& after.used == store.used.update(at, true)
            &&& after.directory == store.directory
            &&& action matches StoreActionView::Write { lba, blocks, bytes } && lba == at && blocks
                == 1 && change.header == after.header_for(change.entry, bytes)
                && change.header is Some && change.header->0.data_len == 0
                && change.header->0.extents.len() == 0
            &&& match requested {
                Some(id) => change.id == id && id != 0 && store.index_of(id) is None
                    && after.next_id == store.next_id,
                None => change.id == store.next_id && after.next_id == store.next_id + 1,
            }
        }),
{
    let after = create_started(store, requested).0;
    lemma_layout_bounds(store);
    lemma_free_from(store.used, store.layout.data_lba as int);
    lemma_first_entry(store.directory, 0, 0);
    let header = change.header->0;
    let bytes = header_code(header, store.block_size as int);
    law_header_round_trip(header, store.block_size as int);
    assert(extent_blocks(header.extents) == 0);
    assert(action == (StoreActionView::Write { lba: change.entry.header_lba, blocks: 1, bytes }));
    assert(after.used =~= store.used.update(change.entry.header_lba as int, true));
    assert(0 * store.block_size == 0) by (nonlinear_arith);
}

/// Creating is refused for number zero, for a number in use, and where numbers,
/// directory entries or blocks ran out; nothing else refuses it.
pub proof fn law_creation_is_refused_only_for_a_reason(store: StoreView, requested: Option<u64>)
    requires
        store.wf(),
    ensures
        match create_started(store, requested).1 {
            Ok(_) => true,
            Err(StoreError::InvalidId) => requested == Some(0u64),
            Err(StoreError::Exists) => requested matches Some(id) && id != 0 && store.index_of(id)
                is Some,
            Err(StoreError::NoSpace) => {
                ||| requested is None && store.next_id == u64::MAX
                ||| forall|i: int|
                    0 <= i < store.directory.len() ==> (#[trigger] store.directory[i]).id != 0
                ||| forall|i: int|
                    store.layout.data_lba <= i < store.used.len() ==> #[trigger] store.used[i]
            },
            Err(_) => false,
        },
        create_started(store, requested).1 is Err ==> create_started(store, requested).0.used
            == store.used && create_started(store, requested).0.directory == store.directory,
{
    lemma_layout_bounds(store);
    lemma_free_from(store.used, store.layout.data_lba as int);
    lemma_first_entry(store.directory, 0, 0);
}

/// What a write publishes is what a reader finds: the header that is written for
/// it, with whatever hash the data has, is the one that the new directory entry
/// leads to. It tells the length of the data, its blocks were free, the blocks of
/// the version before stay in use, and its generation is the next one.
pub proof fn law_written_object_can_be_mounted(
    store: StoreView,
    index: int,
    entry: DirectoryEntry,
    old_header: HeaderView,
    size: u32,
    change: ChangeView,
    action: StoreActionView,
    data_hash: u64,
    block: int,
)
    requires
        store.wf(),
        0 <= index < store.directory.len(),
        entry.id != 0,
        write_started(store, index, entry, old_header, size).1 == Ok::<
            (ChangeView, StoreActionView),
            StoreError,
        >((change, action)),
    ensures
        ({
            let after = write_started(store, index, entry, old_header, size).0;
            let header = HeaderView { data_hash, ..change.header->0 };
            let bytes = header_code(header, store.block_size as int);
            &&& change.index == index
            &&& change.id == entry.id
            &&& change.header is Some
            &&& after.readable(change.entry)
            &&& change.entry.flags == 1
            &&& after.header_for(change.entry, bytes) == Some(header)
            &&& header.data_len == size
            &&& header.id == entry.id
            &&& old_header.generation < u64::MAX ==> header.generation == old_header.generation + 1
            &&& !store.used[change.entry.header_lba as int]
            &&& extents_free(store.used, header.extents)
            &&& extents_apart(header.extents)
            &&& 0 <= block < store.used.len() && store.used[block] ==> after.used[block]
            &&& change.replaced == Some(
                ReplacedView {
                    header_lba: entry.header_lba,
                    header_blocks: old_header.header_blocks,
                    extents: old_header.extents,
                },
            )
            &&& if size == 0 {
                action is Write
            } else {
                action is Hash
            }
        }),
{
    let from = store.layout.data_lba as int;
    let at = free_from(store.used, from);
    let size_of = store.block_size as int;
    let blocks = wire::units(size as int, size_of);
    let with_header = marked(store.used, at, 1, true);
    let after = write_started(store, index, entry, old_header, size).0;
    let header = HeaderView { data_hash, ..change.header->0 };
    let extents = header.extents;
    lemma_layout_bounds(store);
    lemma_free_from(store.used, from);
    assert(blocks >= 0 && size <= blocks * size_of && blocks * size_of < size + size_of) by (
    nonlinear_arith)
        requires
            blocks == wire::units(size as int, size_of),
            size_of > 0,
    {
        assert(blocks == (size as int + size_of - 1) / size_of);
    }
    law_allocation_takes_free_blocks_once(with_header, from, blocks, MAX_EXTENTS as int);
    law_header_round_trip(header, size_of);
    assert forall|i: int| 0 <= i < extents.len() implies (#[trigger] extents[i]).blocks > 0
        && range_free(store.used, extents[i].lba as int, extents[i].blocks as int) by {
        assert(range_free(with_header, extents[i].lba as int, extents[i].blocks as int));
        assert forall|b: int|
            extents[i].lba <= b < extents[i].lba + extents[i].blocks implies !(
        #[trigger] store.used[b]) by {
            assert(!with_header[b]);
        }
    }
    lemma_extents_marked(with_header, extents, true);
    let generation = next_generation(old_header.generation, u64::MAX);
    assert(generation % 0x1_0000_0000 == (generation % 0x1_0000_0000) as u32);
}

/// Deleting publishes an entry that holds no object, under a later generation, and
/// then frees the blocks that the object had.
pub proof fn law_deleted_object_is_gone(
    store: StoreView,
    id: u64,
    index: int,
    entry: DirectoryEntry,
    header: Option<HeaderView>,
)
    requires
        store.wf(),
        0 <= index < store.directory.len(),
    ensures
        ({
            let (change, action) = delete_started(store, id, index, entry, header);
            &&& change.kind == ChangeKind::Delete
            &&& change.id == id
            &&& change.index == index
            &&& change.entry.id == 0
            &&& change.entry.flags == 0
            &&& entry.generation < u32::MAX ==> change.entry.generation == entry.generation + 1
            &&& action matches StoreActionView::Read { lba } && lba == store.slot(
                index,
                change.entry.generation,
            ).0
            &&& change.stage == Stage::ReadingDirectory
            &&& match header {
                Some(found) => change.replaced == Some(
                    ReplacedView {
                        header_lba: entry.header_lba,
                        header_blocks: found.header_blocks,
                        extents: found.extents,
                    },
                ),
                None => change.replaced is None,
            }
        }),
{
    law_locators_lie_in_order(
        store,
        index,
        delete_started(store, id, index, entry, header).0.entry.generation,
    );
    lemma_layout_bounds(store);
}

/// A commit frees exactly the blocks of the replaced version, and afterwards a
/// created object is found under its number and a deleted one no longer.
pub proof fn law_commit_frees_the_replaced_version(
    store: StoreView,
    change: ChangeView,
    block: int,
)
    requires
        store.wf(),
        change.wf(store),
        change.stage == Stage::Publishing,
        0 <= block < store.used.len(),
    ensures
        ({
            let (after, next, action) = change_next(store, change, StoreEvent::Done);
            let freed = change.replaced matches Some(old) && (old.header_lba <= block
                < old.header_lba + old.header_blocks || exists|i: int|
                0 <= i < old.extents.len() && (#[trigger] old.extents[i]).lba <= block
                    < old.extents[i].lba + old.extents[i].blocks);
            &&& after.used.len() == store.used.len()
            &&& after.used[block] == (store.used[block] && !freed)
            &&& change.kind is Create ==> after.index_of(change.id) == Some(change.index)
            &&& change.kind == ChangeKind::Delete ==> !after.index_cache.contains_key(change.id)
            &&& change.replaced is Some ==> action == (StoreActionView::Write {
                lba: 2,
                blocks: store.layout.bitmap_blocks,
                bytes: bitmap_code(after.used),
            })
            &&& change.kind == (ChangeKind::Create { numbered: false }) ==> action
                == (StoreActionView::Finish { result: Ok(change.id) })
        }),
{
    lemma_layout_bounds(store);
    if let Some(old) = change.replaced {
        let cleared = marked(store.used, old.header_lba as int, old.header_blocks as int, false);
        lemma_extents_marked(cleared, old.extents, false);
    }
}

/// A new number is made durable by a superblock of the next generation in the
/// other of the two slots, so that it is the one that mounting selects, and it
/// hands the number out no more.
pub proof fn law_new_number_is_made_durable(
    store: StoreView,
    change: ChangeView,
    older: Superblock,
)
    requires
        store.wf(),
        change.stage == Stage::Publishing,
        change.replaced is None,
        change.kind == (ChangeKind::Create { numbered: true }),
        store.super_generation < u64::MAX,
        older.generation == store.super_generation,
    ensures
        ({
            let (after, next, action) = change_next(store, change, StoreEvent::Done);
            &&& after.super_generation == store.super_generation + 1
            &&& action is Write
            &&& action->blocks == 1
            &&& action->Write_lba < 2
            &&& action->Write_lba != store.super_generation % 2
            &&& super_decoded(action->bytes) is Some
            &&& ({
                let sb = super_decoded(action->bytes)->0;
                let total_blocks = store.used.len() as u32;
                &&& sb.next_id == store.next_id
                &&& sb.generation == after.super_generation
                &&& sb.block_size == store.block_size
                &&& sb.total_blocks == total_blocks
                &&& sb.layout == store.layout
                &&& mountable(Some(older), Some(sb), store.block_size, total_blocks) == Some(sb)
                &&& mountable(Some(sb), Some(older), store.block_size, total_blocks) == Some(sb)
            })
        }),
{
    let after = change_next(store, change, StoreEvent::Done).0;
    law_superblock_round_trip(superblock_of(after), store.block_size as int);
}

/// Mounting an entry that holds an object makes the object found under its number
/// at that entry; one that holds none leaves every number as it was.
pub proof fn law_mounted_object_is_found(store: StoreView, index: int, entry: DirectoryEntry)
    requires
        store.wf(),
        0 <= index < store.directory.len(),
    ensures
        ({
            let (after, step) = entry_mounted(store, index, entry);
            &&& entry.id != 0 && entry.flags % 2 == 1 ==> after.index_of(entry.id) == Some(
                index as u32,
            ) && after.directory[index] == entry
            &&& entry.id == 0 ==> step is Next && after.index_cache == store.index_cache
                && after.directory[index] == entry
            &&& entry.id != 0 && entry.flags % 2 == 0 ==> step is Corrupt
            &&& step matches MountStep::ReadHeader { lba, blocks } ==> lba == entry.header_lba
                && blocks == entry.header_blocks && store.readable(entry)
            &&& entry.id != 0 && entry.flags % 2 == 1 && entry.header_lba != 0 ==> (
            step is ReadHeader <==> store.readable(entry))
            &&& after.used == store.used
        }),
{
}

proof fn lemma_store_magics()
    ensures
        wire::le_bytes(SB_MAGIC as nat, 8) == seq![
            0x43u8, 0x4fu8, 0x4au8, 0x42u8, 0x53u8, 0x54u8, 0x52u8, 0x33u8,
        ],
        wire::le_bytes(HEADER_MAGIC as nat, 8) == seq![
            0x43u8, 0x43u8, 0x4fu8, 0x42u8, 0x4au8, 0x48u8, 0x44u8, 0x32u8,
        ],
{
    reveal_with_fuel(wire::le_bytes, 9);
    assert(wire::le_bytes(SB_MAGIC as nat, 8) =~= seq![
        0x43u8, 0x4fu8, 0x4au8, 0x42u8, 0x53u8, 0x54u8, 0x52u8, 0x33u8,
    ]);
    assert(wire::le_bytes(HEADER_MAGIC as nat, 8) =~= seq![
        0x43u8, 0x43u8, 0x4fu8, 0x42u8, 0x4au8, 0x48u8, 0x44u8, 0x32u8,
    ]);
}

/// A superblock is `COJBSTR3`, version 3, its own 80 bytes and then what it says, each
/// number in its place, with a checksum over all that comes before it.
#[verifier::spinoff_prover]
#[verifier::rlimit(40)]
pub proof fn law_superblock_by_its_bytes(sb: Superblock, len: int)
    requires
        len >= 80,
    ensures
        ({
            let bytes = super_code(sb, len);
            &&& bytes.len() == len
            &&& bytes.subrange(0, 8) == seq![
                0x43u8, 0x4fu8, 0x4au8, 0x42u8, 0x53u8, 0x54u8, 0x52u8, 0x33u8,
            ]
            &&& bytes.subrange(8, 12) == wire::le_bytes(3, 4)
            &&& bytes.subrange(12, 16) == wire::le_bytes(80, 4)
            &&& bytes.subrange(16, 24) == wire::le_bytes(sb.generation as nat, 8)
            &&& bytes.subrange(24, 28) == wire::le_bytes(sb.block_size as nat, 4)
            &&& bytes.subrange(28, 32) == wire::le_bytes(sb.total_blocks as nat, 4)
            &&& bytes.subrange(32, 40) == wire::le_bytes(sb.next_id as nat, 8)
            &&& bytes.subrange(40, 48) == wire::le_bytes(sb.layout.bitmap_lba as nat, 8)
            &&& bytes.subrange(48, 52) == wire::le_bytes(sb.layout.bitmap_blocks as nat, 4)
            &&& bytes.subrange(52, 56) == wire::le_bytes(sb.layout.directory_blocks as nat, 4)
            &&& bytes.subrange(56, 64) == wire::le_bytes(sb.layout.directory_lba as nat, 8)
            &&& bytes.subrange(64, 72) == wire::le_bytes(sb.layout.data_lba as nat, 8)
            &&& bytes.subrange(76, 80) == wire::le_bytes(
                hash::crc32_of(bytes.take(76)) as nat,
                4,
            )
        }),
{
    let bytes = super_code(sb, len);
    let fields = super_fields(sb);
    let head = wire::coded(fields);
    lemma_store_magics();
    wire::lemma_coded_len(fields);
    reveal_with_fuel(wire::field_offset, 14);
    assert(head.len() == 76);
    wire::lemma_le_bytes_len(hash::crc32_of(head) as nat, 4);
    assert(bytes.take(76) =~= head);
    wire::lemma_coded_field(fields, 0);
    wire::lemma_coded_field(fields, 1);
    wire::lemma_coded_field(fields, 2);
    wire::lemma_coded_field(fields, 3);
    wire::lemma_coded_field(fields, 4);
    wire::lemma_coded_field(fields, 5);
    wire::lemma_coded_field(fields, 6);
    wire::lemma_coded_field(fields, 7);
    wire::lemma_coded_field(fields, 8);
    wire::lemma_coded_field(fields, 9);
    wire::lemma_coded_field(fields, 10);
    wire::lemma_coded_field(fields, 11);
    assert(bytes.subrange(0, 8) =~= head.subrange(0, 8));
    assert(bytes.subrange(8, 12) =~= head.subrange(8, 12));
    assert(bytes.subrange(12, 16) =~= head.subrange(12, 16));
    assert(bytes.subrange(16, 24) =~= head.subrange(16, 24));
    assert(bytes.subrange(24, 28) =~= head.subrange(24, 28));
    assert(bytes.subrange(28, 32) =~= head.subrange(28, 32));
    assert(bytes.subrange(32, 40) =~= head.subrange(32, 40));
    assert(bytes.subrange(40, 48) =~= head.subrange(40, 48));
    assert(bytes.subrange(48, 52) =~= head.subrange(48, 52));
    assert(bytes.subrange(52, 56) =~= head.subrange(52, 56));
    assert(bytes.subrange(56, 64) =~= head.subrange(56, 64));
    assert(bytes.subrange(64, 72) =~= head.subrange(64, 72));
    assert(bytes.subrange(76, 80) =~= wire::le_bytes(hash::crc32_of(head) as nat, 4));
}

/// A locator has 32 bytes, the last four a checksum over the others that a block of
/// another kind does not have.
pub proof fn law_locator_by_its_bytes(entry: DirectoryEntry)
    ensures
        ({
            let bytes = entry_code(entry);
            &&& bytes.len() == 32
            &&& bytes.subrange(0, 8) == wire::le_bytes(entry.id as nat, 8)
            &&& bytes.subrange(8, 12) == wire::le_bytes(entry.flags as nat, 4)
            &&& bytes.subrange(12, 16) == wire::le_bytes(entry.generation as nat, 4)
            &&& bytes.subrange(16, 24) == wire::le_bytes(entry.header_lba as nat, 8)
            &&& bytes.subrange(24, 28) == wire::le_bytes(entry.header_blocks as nat, 4)
            &&& bytes.subrange(28, 32) == wire::le_bytes(
                (hash::crc32_of(bytes.take(28)) ^ 0x3344_4952) as nat,
                4,
            )
        }),
{
    let bytes = entry_code(entry);
    let fields = entry_fields(entry);
    let head = wire::coded(fields);
    wire::lemma_coded_len(fields);
    reveal_with_fuel(wire::field_offset, 6);
    assert(head.len() == 28);
    wire::lemma_le_bytes_len((hash::crc32_of(head) ^ DIR_CRC_SALT) as nat, 4);
    assert(bytes.take(28) =~= head);
    wire::lemma_coded_field(fields, 0);
    wire::lemma_coded_field(fields, 1);
    wire::lemma_coded_field(fields, 2);
    wire::lemma_coded_field(fields, 3);
    wire::lemma_coded_field(fields, 4);
    assert(bytes.subrange(0, 8) =~= head.subrange(0, 8));
    assert(bytes.subrange(8, 12) =~= head.subrange(8, 12));
    assert(bytes.subrange(12, 16) =~= head.subrange(12, 16));
    assert(bytes.subrange(16, 24) =~= head.subrange(16, 24));
    assert(bytes.subrange(24, 28) =~= head.subrange(24, 28));
    assert(bytes.subrange(28, 32) =~= wire::le_bytes(
        (hash::crc32_of(head) ^ DIR_CRC_SALT) as nat,
        4,
    ));
}

/// The numbers of an object's header stand in their places, behind `CCOBJHD2` and
/// version 3; its extents follow from byte 128 on.
#[verifier::spinoff_prover]
#[verifier::rlimit(60)]
pub proof fn law_header_by_its_bytes(header: HeaderView, checksum: u32)
    requires
        header.extents.len() <= 16,
    ensures
        ({
            let bytes = header_bytes(header, checksum);
            &&& bytes.subrange(0, 8) == seq![
                0x43u8, 0x43u8, 0x4fu8, 0x42u8, 0x4au8, 0x48u8, 0x44u8, 0x32u8,
            ]
            &&& bytes.subrange(8, 10) == wire::le_bytes(3, 2)
            &&& bytes.subrange(10, 12) == wire::le_bytes(384, 2)
            &&& bytes.subrange(12, 16) == wire::le_bytes(1, 4)
            &&& bytes.subrange(16, 24) == wire::le_bytes(header.id as nat, 8)
            &&& bytes.subrange(24, 32) == wire::le_bytes(header.generation as nat, 8)
            &&& bytes.subrange(32, 40) == wire::le_bytes(header.data_len as nat, 8)
            &&& bytes.subrange(40, 48) == wire::le_bytes(header.allocated_len as nat, 8)
            &&& bytes.subrange(48, 56) == wire::le_bytes(header.data_offset as nat, 8)
            &&& bytes.subrange(56, 58) == wire::le_bytes(header.extents.len(), 2)
            &&& bytes.subrange(58, 60) == wire::le_bytes(2, 2)
            &&& bytes.subrange(60, 64) == wire::le_bytes(header.header_blocks as nat, 4)
            &&& bytes.subrange(80, 88) == wire::le_bytes(header.data_hash as nat, 8)
            &&& bytes.subrange(112, 116) == wire::le_bytes(checksum as nat, 4)
            &&& bytes.skip(128) == extents_code(header.extents)
        }),
{
    let bytes = header_bytes(header, checksum);
    let fields = header_fields(header, checksum);
    let head = wire::coded(fields);
    lemma_store_magics();
    wire::lemma_coded_len(fields);
    reveal_with_fuel(wire::field_offset, 22);
    assert(head.len() == 128);
    wire::lemma_coded_field(fields, 0);
    wire::lemma_coded_field(fields, 1);
    wire::lemma_coded_field(fields, 2);
    wire::lemma_coded_field(fields, 3);
    wire::lemma_coded_field(fields, 4);
    wire::lemma_coded_field(fields, 5);
    wire::lemma_coded_field(fields, 6);
    wire::lemma_coded_field(fields, 7);
    wire::lemma_coded_field(fields, 8);
    wire::lemma_coded_field(fields, 9);
    wire::lemma_coded_field(fields, 10);
    wire::lemma_coded_field(fields, 11);
    wire::lemma_coded_field(fields, 14);
    wire::lemma_coded_field(fields, 18);
    assert(bytes.subrange(0, 8) =~= head.subrange(0, 8));
    assert(bytes.subrange(8, 10) =~= head.subrange(8, 10));
    assert(bytes.subrange(10, 12) =~= head.subrange(10, 12));
    assert(bytes.subrange(12, 16) =~= head.subrange(12, 16));
    assert(bytes.subrange(16, 24) =~= head.subrange(16, 24));
    assert(bytes.subrange(24, 32) =~= head.subrange(24, 32));
    assert(bytes.subrange(32, 40) =~= head.subrange(32, 40));
    assert(bytes.subrange(40, 48) =~= head.subrange(40, 48));
    assert(bytes.subrange(48, 56) =~= head.subrange(48, 56));
    assert(bytes.subrange(56, 58) =~= head.subrange(56, 58));
    assert(bytes.subrange(58, 60) =~= head.subrange(58, 60));
    assert(bytes.subrange(60, 64) =~= head.subrange(60, 64));
    assert(bytes.subrange(80, 88) =~= head.subrange(80, 88));
    assert(bytes.subrange(112, 116) =~= head.subrange(112, 116));
    assert(bytes.skip(128) =~= extents_code(header.extents));
}

/// The newer of two superblocks is mounted, and only where it is that of this device;
/// one that cannot be read does not stand in the way of the other.
pub proof fn law_newest_superblock_is_mounted(
    first: Superblock,
    second: Superblock,
    block_size: u32,
    total_blocks: u32,
)
    ensures
        mountable(None, None, block_size, total_blocks) is None,
        mountable(Some(first), None, block_size, total_blocks) is Some ==> mountable(
            Some(first),
            None,
            block_size,
            total_blocks,
        ) == Some(first),
        mountable(Some(first), None, block_size, total_blocks) == mountable(
            None,
            Some(first),
            block_size,
            total_blocks,
        ),
        mountable(Some(first), None, block_size, total_blocks) is Some <==> first.block_size
            == block_size && first.total_blocks == total_blocks && layout_of(
            block_size,
            total_blocks,
        ) == Some(first.layout),
        first.generation > second.generation ==> mountable(
            Some(first),
            Some(second),
            block_size,
            total_blocks,
        ) == mountable(Some(first), None, block_size, total_blocks),
        first.generation < second.generation ==> mountable(
            Some(first),
            Some(second),
            block_size,
            total_blocks,
        ) == mountable(None, Some(second), block_size, total_blocks),
{
}

/// A new store has all its metadata in use, all else free, and no object.
pub proof fn law_empty_store_is_empty(
    block_size: u32,
    total_blocks: u32,
    layout: Layout,
    generation: u64,
    next_id: u64,
    block: int,
    id: u64,
)
    requires
        0 <= block < total_blocks,
        id != 0,
    ensures
        ({
            let store = empty_store(block_size, total_blocks, layout, generation, next_id);
            &&& store.used.len() == total_blocks
            &&& store.used[block] <==> block < layout.data_lba
            &&& store.next_id == next_id
            &&& store.super_generation == generation
            &&& store.index_of(id) is None
        }),
{
    let store = empty_store(block_size, total_blocks, layout, generation, next_id);
    lemma_no_entry(store.directory, id, 0);
}

proof fn lemma_no_entry(directory: Seq<DirectoryEntry>, id: u64, from: int)
    requires
        id != 0,
        from >= 0,
        forall|i: int| 0 <= i < directory.len() ==> (#[trigger] directory[i]).id == 0,
    ensures
        first_entry(directory, id, from) is None,
    decreases directory.len() - from,
{
    if from < directory.len() {
        lemma_no_entry(directory, id, from + 1);
    }
}

/// Where enough blocks are free in a row, an object takes them as one extent, from the
/// first on.
pub proof fn law_free_space_is_taken_in_order(used: Seq<bool>, from: int, need: int, room: int)
    requires
        0 <= from <= u64::MAX,
        0 < need <= u32::MAX,
        from + need <= used.len(),
        range_free(used, from, need),
        room > 0,
    ensures
        fragments(used, from, need, room) == Some(
            seq![Extent { lba: from as u64, blocks: need as u32 }],
        ),
{
    assert(!used[from]);
    lemma_whole_run(used, from, need);
    reveal_with_fuel(fragments, 2);
    assert(free_from(used, from) == from);
    assert(fragments(used, from + need, 0, room - 1) == Some(Seq::<Extent>::empty()));
    assert(seq![Extent { lba: from as u64, blocks: need as u32 }] + Seq::empty() =~= seq![
        Extent { lba: from as u64, blocks: need as u32 },
    ]);
}

proof fn lemma_whole_run(used: Seq<bool>, from: int, limit: int)
    requires
        0 <= from,
        0 <= limit,
        from + limit <= used.len(),
        range_free(used, from, limit),
    ensures
        free_run(used, from, limit) == limit,
    decreases limit,
{
    if limit > 0 {
        assert(!used[from]);
        assert forall|i: int| from + 1 <= i < from + 1 + (limit - 1) implies !(#[trigger] used[i]) by {
            assert(from <= i < from + limit);
        }
        lemma_whole_run(used, from + 1, limit - 1);
    }
}

/// The directory takes one block in 2048 for each of its banks, at least one and at
/// most 4096.
pub proof fn law_directory_grows_with_the_device(total_blocks: u32)
    ensures
        1 <= bank_blocks(total_blocks) <= 4096,
        2048 <= total_blocks < 2048 * 4097 ==> bank_blocks(total_blocks) * 2048 <= total_blocks < (
        bank_blocks(total_blocks) + 1) * 2048,
        total_blocks >= 2048 * 4096 ==> bank_blocks(total_blocks) == 4096,
        total_blocks < 2048 ==> bank_blocks(total_blocks) == 1,
{
}

/// The first place with enough room is one place, and it is free.
pub proof fn law_first_fit_is_one_place(used: Seq<bool>, from: int, blocks: int, one: int, two: int)
    requires
        first_fit(used, from, blocks, one),
        first_fit(used, from, blocks, two),
        0 <= from,
        blocks > 0,
    ensures
        one == two,
        from <= one,
        one + blocks <= used.len(),
        !used[one],
        !used[one + blocks - 1],
        !no_fit(used, from, blocks),
{
    if one < two {
        assert(!range_free(used, one, blocks));
    }
    if two < one {
        assert(!range_free(used, two, blocks));
    }
    assert(range_free(used, one, blocks));
}

/// A change takes its stages one after another, and asks at each for one thing: data
/// and header, the bitmap, a flush, the locator's block, the locator, and a flush.
pub proof fn law_change_takes_every_stage(store: StoreView, change: ChangeView, bytes: Vec<u8>)
    requires
        store.wf(),
        change.header is Some,
        bytes@.len() == store.block_size,
        0 <= change.index < store.directory.len(),
    ensures
        ({
            let done = change_next(store, change, StoreEvent::Done);
            let next = done.1.stage;
            let action = done.2;
            &&& change.stage == Stage::Transferring ==> next == Stage::WritingHeader && action
                is Write && action->Write_lba == change.entry.header_lba && action->blocks == 1
            &&& change.stage == Stage::WritingHeader ==> next == Stage::WritingBitmap && action
                is Write && action->Write_lba == store.layout.bitmap_lba && action->blocks
                == store.layout.bitmap_blocks && action->bytes == bitmap_code(store.used)
            &&& change.stage == Stage::WritingBitmap ==> next == Stage::Settling && action
                == StoreActionView::Flush
            &&& change.stage == Stage::Settling ==> next == Stage::ReadingDirectory && action
                is Read
            &&& change.stage == Stage::WritingDirectory ==> next == Stage::Publishing && action
                == StoreActionView::Flush && done.0.directory[change.index as int] == change.entry
            &&& change.stage == Stage::Cleaning ==> next == Stage::Finishing && action
                == StoreActionView::Flush
            &&& change.stage == Stage::WritingSuper ==> next == Stage::Finishing && action
                == StoreActionView::Flush
            &&& change.stage == Stage::Finishing ==> next == Stage::Finished && action == (
            StoreActionView::Finish { result: Ok(change.id) })
        }),
        change.stage == Stage::ReadingDirectory ==> {
            let read = change_next(store, change, StoreEvent::Block { bytes });
            &&& read.1.stage == Stage::WritingDirectory
            &&& read.2 is Write
            &&& read.2->blocks == 1
            &&& read.2->bytes.len() == bytes@.len()
        },
        ({
            let failed = change_next(store, change, StoreEvent::Failed);
            &&& failed.1.stage == Stage::Finished
            &&& failed.2 == (StoreActionView::Finish { result: Err(StoreError::Io) })
            &&& failed.0.directory == store.directory
        }),
{
    if change.stage == Stage::ReadingDirectory {
        law_locators_lie_in_order(store, change.index as int, change.entry.generation);
        law_locator_by_its_bytes(change.entry);
        let (lba, offset) = store.slot(change.index as int, change.entry.generation);
        lemma_splice_keeps_the_length(bytes@, offset, entry_code(change.entry));
    }
}

proof fn lemma_splice_keeps_the_length(block: Seq<u8>, at: int, part: Seq<u8>)
    requires
        0 <= at,
        at + part.len() <= block.len(),
    ensures
        wire::splice(block, at, part).len() == block.len(),
{
}

/// A transfer moves what is left, up to the end of the extent and at most half a
/// mebibyte.
pub proof fn law_transfers_are_bounded(left: int, extent_left: int)
    requires
        left >= 0,
        extent_left >= 0,
    ensures
        chunk_bytes(left, extent_left) <= left,
        chunk_bytes(left, extent_left) <= extent_left,
        chunk_bytes(left, extent_left) <= 524_288,
        chunk_bytes(left, extent_left) == left || chunk_bytes(left, extent_left) == extent_left
            || chunk_bytes(left, extent_left) == 524_288,
        left > 0 && extent_left > 0 ==> chunk_bytes(left, extent_left) > 0,
{
}

} // verus!
