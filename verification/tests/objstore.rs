use catten_services::hash::{avalanche, crc32, fnv1a64, hash_bytes, FNV_OFFSET};
use catten_services::objstore::{
    allocate_extent, allocate_fragmented, bitmap_image, bitmap_range_used, bitmap_set_range,
    check_read, decode_directory, decode_header, decode_superblock, encode_directory,
    encode_header, encode_superblock, free_extents, metadata_chunk_bytes,
    metadata_content, metadata_plan, newest_directory_entry,
    select_superblock, transfer_plan, Change, Chunk, DirectoryEntry, Extent, Layout, MountStep,
    ObjStore, ObjectHeader, StoreAction, StoreError, StoreEvent, Superblock,
};

const BLOCK: usize = 512;
const TOTAL: u32 = 256;

struct Disk(Vec<u8>);

impl Disk {
    fn new() -> Disk {
        Disk(vec![0; BLOCK * TOTAL as usize])
    }

    fn read(&self, lba: u64, blocks: u32) -> &[u8] {
        let start = lba as usize * BLOCK;
        &self.0[start..start + blocks as usize * BLOCK]
    }

    fn write(&mut self, lba: u64, bytes: &[u8]) {
        let start = lba as usize * BLOCK;
        self.0[start..start + bytes.len()].copy_from_slice(bytes);
    }
}

fn formatted() -> (Disk, ObjStore) {
    let mut disk = Disk::new();
    let store = ObjStore::format(BLOCK as u32, TOTAL).unwrap();
    disk.write(1, &store.superblock_image());
    if let StoreAction::Write { lba, bytes, .. } = store.persist_bitmap() {
        disk.write(lba, &bytes);
    }
    (disk, store)
}

fn run(
    disk: &mut Disk,
    store: &mut ObjStore,
    started: (Change, StoreAction),
    data: &[u8],
) -> Result<u64, StoreError> {
    let (mut change, mut action) = started;
    loop {
        let event = match action {
            StoreAction::Hash => StoreEvent::Hashed { hash: fnv1a64(data) },
            StoreAction::Transfer => {
                let extents = &change.header.as_ref().unwrap().extents;
                let plan = transfer_plan(extents, data.len() as u32, BLOCK as u32).unwrap();
                for chunk in plan {
                    disk.write(chunk.lba, &data[chunk.offset..chunk.offset + chunk.bytes]);
                }
                StoreEvent::Done
            }
            StoreAction::Write { lba, bytes, .. } => {
                disk.write(lba, &bytes);
                StoreEvent::Done
            }
            StoreAction::Flush => StoreEvent::Done,
            StoreAction::Read { lba } => StoreEvent::Block { bytes: disk.read(lba, 1).to_vec() },
            StoreAction::Finish { result } => return result,
        };
        action = store.advance(&mut change, event);
    }
}

fn store_object(disk: &mut Disk, store: &mut ObjStore, id: u64, data: &[u8]) -> Result<u64, StoreError> {
    store.set_size(id, Some(data.len() as u64))?;
    let (index, entry, readable) = store.locate(id)?;
    assert!(readable);
    let header = store.check_header(&entry, disk.read(entry.header_lba, 1)).unwrap();
    let size = store.take_size(id);
    let started = store.start_write(index, &entry, header, size)?;
    run(disk, store, started, data)
}

fn load_object(disk: &Disk, store: &mut ObjStore, id: u64) -> Option<Vec<u8>> {
    let (_, entry, readable) = store.locate(id).ok()?;
    if !readable {
        return None;
    }
    let header = store.check_header(&entry, disk.read(entry.header_lba, entry.header_blocks))?;
    let plan = transfer_plan(&header.extents, header.data_len as u32, BLOCK as u32)?;
    let mut data = vec![];
    for chunk in plan {
        data.extend_from_slice(&disk.read(chunk.lba, chunk.blocks)[..chunk.bytes]);
    }
    if check_read(&header, true, Some(fnv1a64(&data))) {
        Some(data)
    } else {
        None
    }
}

fn mounted(disk: &Disk) -> Option<ObjStore> {
    let first = decode_superblock(disk.read(0, 1));
    let second = decode_superblock(disk.read(1, 1));
    let sb = select_superblock(first, second, BLOCK as u32, TOTAL)?;
    let mut store = ObjStore::mount(&sb);
    for index in 0..store.directory.len() as u32 {
        let at = index as usize * 32;
        let first = &disk.read(sb.layout.directory_bank_lba(0)?, 1)[at..at + 32];
        let second = &disk.read(sb.layout.directory_bank_lba(1)?, 1)[at..at + 32];
        let (entry, step) = store.mount_entry(index, first, second);
        match step {
            MountStep::Next => {}
            MountStep::Corrupt => return None,
            MountStep::ReadHeader { lba, blocks } => {
                if !store.mount_header(&entry, disk.read(lba, blocks)) {
                    return None;
                }
            }
        }
    }
    Some(store)
}

#[test]
fn checksums_have_their_known_values() {
    assert_eq!(crc32(b"123456789"), 0xcbf4_3926);
    assert_eq!(crc32(b""), 0);
    assert_eq!(fnv1a64(b""), FNV_OFFSET);
    assert_eq!(fnv1a64(b"a"), 0xaf63_dc4c_8601_ec8c);
    assert_eq!(fnv1a64(b"foobar"), 0x8594_4171_f739_67e8);
    let mut hash = FNV_OFFSET;
    hash_bytes(&mut hash, b"foo");
    hash_bytes(&mut hash, b"bar");
    assert_eq!(hash, fnv1a64(b"foobar"));
    assert_eq!(avalanche(0), 0);
    assert_eq!(avalanche(0x9e37_79b9_7f4a_7c15), 0xe220_a839_7b1d_cdaf);
}

#[test]
fn a_device_is_divided() {
    let layout = Layout::for_device(512, 256).unwrap();
    assert_eq!(
        layout,
        Layout {
            bitmap_lba: 2,
            bitmap_blocks: 1,
            directory_lba: 3,
            directory_blocks: 1,
            data_lba: 5,
        }
    );
    assert_eq!(layout.directory_entries(512), Some(16));
    assert_eq!(layout.directory_bank_lba(1), Some(4));
    assert_eq!(layout.directory_bank_lba(2), None);
    assert_eq!(Layout::for_device(512, 7).unwrap().data_lba, 5);
    assert_eq!(Layout::for_device(512, 6), None);
    let large = Layout::for_device(4096, u32::MAX).unwrap();
    assert_eq!((large.bitmap_blocks, large.directory_blocks), (131072, 4096));
    assert_eq!(metadata_chunk_bytes(512), 32768);
    assert_eq!(metadata_chunk_bytes(4096), 32768);
    assert_eq!(metadata_chunk_bytes(3000), 30000);
}

#[test]
fn superblocks_read_back() {
    let sb = Superblock {
        generation: 9,
        block_size: 512,
        total_blocks: 256,
        next_id: 77,
        layout: Layout::for_device(512, 256).unwrap(),
    };
    let mut block = encode_superblock(&sb, 512);
    assert_eq!(decode_superblock(&block), Some(sb));
    assert_eq!(decode_superblock(&block[..79]), None);
    block[20] ^= 1;
    assert_eq!(decode_superblock(&block), None);
}

#[test]
fn the_newest_superblock_is_selected() {
    let layout = Layout::for_device(512, 256).unwrap();
    let sb = |generation| Superblock {
        generation,
        block_size: 512,
        total_blocks: 256,
        next_id: 1,
        layout,
    };
    assert_eq!(select_superblock(Some(sb(4)), Some(sb(3)), 512, 256), Some(sb(4)));
    assert_eq!(select_superblock(Some(sb(4)), Some(sb(5)), 512, 256), Some(sb(5)));
    assert_eq!(select_superblock(None, Some(sb(3)), 512, 256), Some(sb(3)));
    assert_eq!(select_superblock(None, None, 512, 256), None);
    assert_eq!(select_superblock(Some(sb(4)), None, 512, 255), None);
    assert_eq!(select_superblock(Some(sb(4)), None, 1024, 256), None);
}

#[test]
fn directory_entries_read_back() {
    let entry = DirectoryEntry {
        id: 5,
        flags: 1,
        generation: 3,
        header_lba: 40,
        header_blocks: 1,
    };
    let mut bytes = encode_directory(&entry);
    assert_eq!(decode_directory(&bytes), Some(entry));
    assert_eq!(decode_directory(&bytes[..31]), None);
    bytes[0] ^= 1;
    assert_eq!(decode_directory(&bytes), None);
    let free =
        DirectoryEntry { id: 0, flags: 0, generation: 0, header_lba: 0, header_blocks: 0 };
    assert_eq!(decode_directory(&[0; 32]), Some(free));
    let older = DirectoryEntry { generation: 2, ..entry };
    assert_eq!(newest_directory_entry(Some(older), Some(entry)), entry);
    assert_eq!(newest_directory_entry(Some(entry), Some(older)), entry);
    assert_eq!(newest_directory_entry(None, Some(older)), older);
    assert_eq!(newest_directory_entry(None, None), free);
}

#[test]
fn headers_read_back() {
    let header = ObjectHeader {
        id: 5,
        generation: 3,
        data_len: 700,
        allocated_len: 1024,
        data_offset: 512,
        header_blocks: 1,
        extents: vec![Extent { lba: 9, blocks: 1 }, Extent { lba: 20, blocks: 1 }],
        data_hash: 0x1234,
    };
    let mut bytes = encode_header(&header, 512);
    assert_eq!(bytes.len(), 512);
    let back = decode_header(&bytes).unwrap();
    assert_eq!((back.id, back.generation, back.data_len), (5, 3, 700));
    assert_eq!((back.allocated_len, back.data_offset, back.header_blocks), (1024, 512, 1));
    assert_eq!(back.extents, header.extents);
    assert_eq!(back.data_hash, 0x1234);
    bytes[40] ^= 1;
    assert!(decode_header(&bytes).is_none());
}

#[test]
fn blocks_are_allocated_once() {
    let mut used = vec![true, true, false, true, false, false, true, false];
    assert_eq!(allocate_extent(&mut used, 2, 0), None);
    assert_eq!(allocate_extent(&mut used, 0, 2), Some(4));
    assert!(bitmap_range_used(&used, 4, 2));
    assert_eq!(allocate_extent(&mut used, 0, 2), None);
    assert_eq!(allocate_extent(&mut used, 0, 1), Some(2));
    assert_eq!(used, vec![true, true, true, true, true, true, true, false]);
    bitmap_set_range(&mut used, 1, 2, false);
    assert_eq!(bitmap_image(&used), vec![0b0111_1001]);
}

#[test]
fn freeing_undoes_allocation() {
    let mut used = vec![true, false, true, false, false, true, false];
    let before = used.clone();
    let extents = allocate_fragmented(&mut used, 1, 4).unwrap();
    assert_eq!(
        extents,
        vec![
            Extent { lba: 1, blocks: 1 },
            Extent { lba: 3, blocks: 2 },
            Extent { lba: 6, blocks: 1 },
        ]
    );
    assert_eq!(used, vec![true; 7]);
    free_extents(&mut used, 1, &extents);
    assert_eq!(used, before);
    assert!(allocate_fragmented(&mut used, 1, 5).is_none());
    assert_eq!(used, before);
    let mut scattered: Vec<bool> = (0..40).map(|i| i % 2 == 0).collect();
    assert!(allocate_fragmented(&mut scattered, 0, 17).is_none());
    assert_eq!(allocate_fragmented(&mut scattered, 0, 16).unwrap().len(), 16);
}

#[test]
fn transfers_follow_the_extents() {
    let extents = [Extent { lba: 10, blocks: 2 }, Extent { lba: 30, blocks: 1 }];
    assert_eq!(
        transfer_plan(&extents, 1100, 512),
        Some(vec![
            Chunk { lba: 10, blocks: 2, offset: 0, bytes: 1024 },
            Chunk { lba: 30, blocks: 1, offset: 1024, bytes: 76 },
        ])
    );
    assert_eq!(transfer_plan(&extents, 1537, 512), None);
    let long = [Extent { lba: 10, blocks: 2000 }];
    let plan = transfer_plan(&long, 600_000, 512).unwrap();
    assert_eq!(plan.len(), 2);
    assert_eq!(plan[0], Chunk { lba: 10, blocks: 1024, offset: 0, bytes: 524_288 });
    assert_eq!(plan[1], Chunk { lba: 1034, blocks: 148, offset: 524_288, bytes: 75_712 });
}

#[test]
fn a_read_gives_back_what_was_written() {
    let (mut disk, mut store) = formatted();
    let started = store.create(Some(42)).unwrap();
    assert_eq!(run(&mut disk, &mut store, started, &[]), Ok(42));
    let data: Vec<u8> = (0..3000).map(|i| (i * 7) as u8).collect();
    assert_eq!(store_object(&mut disk, &mut store, 42, &data), Ok(42));
    assert_eq!(load_object(&disk, &mut store, 42), Some(data.clone()));
    let mut again = mounted(&disk).unwrap();
    assert_eq!(again.used, store.used);
    assert_eq!(load_object(&disk, &mut again, 42), Some(data));
    let shorter = vec![9u8; 10];
    assert_eq!(store_object(&mut disk, &mut again, 42, &shorter), Ok(42));
    assert_eq!(load_object(&disk, &mut again, 42), Some(shorter.clone()));
    assert_eq!(store_object(&mut disk, &mut again, 42, &[]), Ok(42));
    assert_eq!(load_object(&disk, &mut again, 42), Some(vec![]));
}

#[test]
fn a_torn_locator_leaves_the_old_object() {
    let (mut disk, mut store) = formatted();
    let started = store.create(Some(42)).unwrap();
    run(&mut disk, &mut store, started, &[]).unwrap();
    store_object(&mut disk, &mut store, 42, b"first").unwrap();
    store_object(&mut disk, &mut store, 42, b"second").unwrap();
    let newest = store.directory[0].generation;
    let bank = store.layout.directory_bank_lba(newest % 2).unwrap() as usize;
    disk.0[bank * BLOCK + 4] ^= 0xff;
    let mut again = mounted(&disk).unwrap();
    assert_eq!(load_object(&disk, &mut again, 42), Some(b"first".to_vec()));
}

#[test]
fn a_failed_write_restores_the_bitmap() {
    let (mut disk, mut store) = formatted();
    let started = store.create(Some(42)).unwrap();
    run(&mut disk, &mut store, started, &[]).unwrap();
    let before = store.used.clone();
    let (index, entry, _) = store.locate(42).unwrap();
    let header = store.check_header(&entry, disk.read(entry.header_lba, 1)).unwrap();
    let (mut change, _) = store.start_write(index, &entry, header, 1000).unwrap();
    assert_ne!(store.used, before);
    match store.advance(&mut change, StoreEvent::Failed) {
        StoreAction::Finish { result } => assert_eq!(result, Err(StoreError::Io)),
        _ => panic!("the write went on"),
    }
    assert_eq!(store.used, before);
    assert_eq!(load_object(&disk, &mut store, 42), Some(vec![]));
}

#[test]
fn numbered_objects_follow_each_other() {
    let (mut disk, mut store) = formatted();
    for id in 1..4 {
        let started = store.create(None).unwrap();
        assert_eq!(run(&mut disk, &mut store, started, &[]), Ok(id));
    }
    let mut again = mounted(&disk).unwrap();
    assert_eq!(again.next_id, 4);
    assert_eq!(again.super_generation, 4);
    assert_eq!(again.find_index(2), Some(1));
}

#[test]
fn deletion_frees_the_blocks() {
    let (mut disk, mut store) = formatted();
    let before = store.used.clone();
    let started = store.create(Some(42)).unwrap();
    run(&mut disk, &mut store, started, &[]).unwrap();
    store_object(&mut disk, &mut store, 42, &[1; 2000]).unwrap();
    let (index, entry, _) = store.locate(42).unwrap();
    let header = store.check_header(&entry, disk.read(entry.header_lba, 1));
    let started = store.start_delete(42, index, &entry, header);
    assert_eq!(run(&mut disk, &mut store, started, &[]), Ok(42));
    assert_eq!(store.used, before);
    assert_eq!(store.locate(42), Err(StoreError::NotFound));
    assert_eq!(mounted(&disk).unwrap().find_index(42), None);
}

#[test]
fn refused_requests() {
    let (mut disk, mut store) = formatted();
    assert!(matches!(store.create(Some(0)), Err(StoreError::InvalidId)));
    for id in 1..17 {
        let started = store.create(Some(id)).unwrap();
        run(&mut disk, &mut store, started, &[]).unwrap();
    }
    assert!(matches!(store.create(Some(3)), Err(StoreError::Exists)));
    assert!(matches!(store.create(Some(17)), Err(StoreError::NoSpace)));
    assert_eq!(store.set_size(99, Some(1)), Err(StoreError::NotFound));
    assert_eq!(store.set_size(3, None), Err(StoreError::Io));
    assert_eq!(store.set_size(3, Some(1 << 32)), Err(StoreError::TooLarge));
    assert_eq!(store.take_size(3), 4096);
    assert!(matches!(
        store_object(&mut disk, &mut store, 3, &vec![0; 512 * 250]),
        Err(StoreError::NoSpace)
    ));
    assert!(ObjStore::format(512, 6).is_none());
}

#[test]
fn mounted_objects_share_no_block() {
    let (mut disk, mut store) = formatted();
    for id in [1, 2] {
        let started = store.create(Some(id)).unwrap();
        run(&mut disk, &mut store, started, &[]).unwrap();
    }
    assert!(mounted(&disk).is_some());
    let shared = DirectoryEntry { header_lba: store.directory[0].header_lba, ..store.directory[1] };
    let bank = store.layout.directory_bank_lba(1).unwrap() as usize;
    let at = bank * BLOCK + 32;
    disk.0[at..at + 32].copy_from_slice(&encode_directory(&shared));
    assert!(mounted(&disk).is_none());
}

#[test]
fn metadata_moves_in_chunks() {
    assert_eq!(metadata_plan(2, 0, 512), vec![]);
    assert_eq!(
        metadata_plan(2, 130, 512),
        vec![
            Chunk { lba: 2, blocks: 64, offset: 0, bytes: 32768 },
            Chunk { lba: 66, blocks: 64, offset: 32768, bytes: 32768 },
            Chunk { lba: 130, blocks: 2, offset: 65536, bytes: 1024 },
        ]
    );
    assert_eq!(metadata_plan(2, 64, 512).len(), 1);
    let chunk = Chunk { lba: 2, blocks: 1, offset: 3, bytes: 4 };
    assert_eq!(metadata_content(&[1, 2, 3, 4, 5], &chunk), vec![4, 5, 0, 0]);
    assert_eq!(metadata_content(&[1], &chunk), vec![0; 4]);
}
