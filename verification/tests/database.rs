use ringboard::error::Error;
use ringboard::protocol::{composite_id, IdNotFoundError, MimeType, RingKind};
use ringboard::ring::{
    entries_to_offset, offset_to_entries, ring_capacity, Entry as RingEntry, Header,
    BucketEntry, InitializedEntry, Mmap, RawEntry, Remap, Ring, RingError, MAGIC, MAX_ENTRIES,
};
use ringboard::ring_reader::{
    is_text_mime, xattr_mime_type, DatabaseReader, EntryReader, InvalidMimeType, Kind, MimeSource,
    RingReader, Source,
};
use ringboard::ui_actor::{load_first_page, refresh};
use ringboard::ui_entry::UiEntryCache;
use ringboard::utils::{
    bucket_file_name, bucket_to_length, direct_file_name, entry_id_from_direct_file_name,
    is_plaintext_mime, size_to_bucket,
};
use ringboard::views::{BucketAndIndex, RingAndIndex};

/// A ring file: bucketed entries by size and slot, direct files by size zero and slot
/// one, and free slots by zeros.
fn ring_file(write_head: u32, entries: &[(u16, u32)]) -> Vec<u8> {
    let mut mem = Header { magic: MAGIC, version: 0, write_head }.to_bytes();
    for (size, slot) in entries {
        let raw = match (size, slot) {
            (0, 0) => 0,
            (0, _) => 0x8000_0000u32,
            _ => slot * 0x1000 + u32::from(*size),
        };
        mem.extend(raw.to_le_bytes());
    }
    mem
}

fn indices(mut reader: RingReader<'_, '_>) -> Vec<u32> {
    let mut found = Vec::new();
    while let Some(entry) = reader.next() {
        found.push(entry.index());
    }
    found
}

fn indices_back(mut reader: RingReader<'_, '_>) -> Vec<u32> {
    let mut found = Vec::new();
    while let Some(entry) = reader.next_back() {
        found.push(entry.index());
    }
    found
}

#[test]
fn header_bytes() {
    assert_eq!(Header::default().to_bytes(), [0x4d, 0x18, 0x32, 0, 0, 0, 0, 0]);
    let header = Header { magic: MAGIC, version: 0, write_head: 0x0102_0304 };
    assert_eq!(header.to_bytes(), [0x4d, 0x18, 0x32, 0, 4, 3, 2, 1]);
}

#[test]
fn entries_survive_storage() {
    let entry = RingEntry::Bucketed(InitializedEntry::bucket(4095, 0xf_fffe));
    for entry in [RingEntry::Uninitialized, RingEntry::File, entry] {
        assert_eq!(RingEntry::from(RawEntry::from(entry)), entry);
    }
    assert_eq!(RawEntry::from(RingEntry::Uninitialized), RawEntry(0));
    assert_eq!(RawEntry::from(RingEntry::File), RawEntry(0x8000_0000));
    assert_eq!(RingEntry::from(RawEntry(0x1000)), RingEntry::File);
    let bucket = InitializedEntry::bucket(5, 2);
    assert_eq!((bucket.size(), bucket.index(), bucket.is_file()), (5, 2, false));
    assert!(InitializedEntry::file().is_file());
}

#[test]
fn offsets() {
    assert_eq!(entries_to_offset(0), 8);
    assert_eq!(entries_to_offset(3), 20);
    assert_eq!(offset_to_entries(20), 3);
    assert_eq!(offset_to_entries(0), 0);
    assert_eq!(offset_to_entries(11), 0);
}

#[test]
fn mapping_grows_and_never_shrinks() {
    let mut map = Mmap::new(100);
    assert_eq!((map.len(), map.backing_len()), (100, 4096));
    assert_eq!(map.plan_remap(4000), Remap::Kept);
    assert!(map.remap(4000, false));
    assert_eq!((map.len(), map.backing_len()), (4000, 4096));
    assert_eq!(map.plan_remap(5000), Remap::Resize { old_len: 4096, new_len: 8192 });
    assert!(!map.remap(5000, false));
    assert_eq!((map.len(), map.backing_len()), (4000, 4096));
    assert!(map.remap(5000, true));
    assert_eq!((map.len(), map.backing_len()), (5000, 8192));
    assert_eq!(map.plan_remap(20_000), Remap::Resize { old_len: 8192, new_len: 20_000 });
    assert!(map.remap(20_000, true));
    assert_eq!((map.len(), map.backing_len()), (20_000, 20_000));
    assert_eq!(map.plan_remap(1), Remap::Resize { old_len: 20_000, new_len: 32_768 });
    assert!(!map.is_empty());
    assert!(Mmap::new(0).is_empty());
}

#[test]
fn mappings_show_what_was_asked_for() {
    let memory: Vec<u8> = (0..4096u32).map(|n| n as u8).collect();
    assert_eq!(Mmap::new(3).slice(&memory), [0, 1, 2]);
    assert_eq!(Mmap::new(0).slice(&memory), []);
}

#[test]
fn bucketed_entries_are_bounded() {
    let entry = BucketEntry::new(5, 7).unwrap();
    assert_eq!((entry.size(), entry.index()), (5, 7));
    let stored = entry.initialized();
    assert_eq!((stored.size(), stored.index()), (5, 7));
    let largest = BucketEntry::new(4095, 0xf_ffff).unwrap().initialized();
    assert_eq!((largest.size(), largest.index()), (4095, 0xf_ffff));
    assert_eq!(BucketEntry::new(0, 7), None);
    assert_eq!(BucketEntry::new(4096, 7), None);
    assert_eq!(BucketEntry::new(5, 0x10_0000), None);
}

#[test]
fn packs_are_ordered_by_index_first() {
    assert!(BucketAndIndex::new(9, 1) < BucketAndIndex::new(0, 2));
    assert!(BucketAndIndex::new(0, 1) < BucketAndIndex::new(9, 1));
    assert!(BucketAndIndex::new(3, 1) <= BucketAndIndex::new(3, 1));
    assert!(
        RingAndIndex::new(RingKind::Main, 1) < RingAndIndex::new(RingKind::Favorites, 2)
    );
    assert!(
        RingAndIndex::new(RingKind::Favorites, 1) < RingAndIndex::new(RingKind::Main, 1)
    );
    let mut packs = [BucketAndIndex::new(0, 2), BucketAndIndex::new(9, 1)];
    packs.sort();
    assert_eq!(packs[0], BucketAndIndex::new(9, 1));
}

#[test]
fn capacity_is_bounded() {
    assert_eq!(ring_capacity(10, 0), 10);
    assert_eq!(ring_capacity(1, 20), 3);
    assert_eq!(ring_capacity(u32::MAX, 8), MAX_ENTRIES);
}

#[test]
fn rings_without_magic_are_rejected() {
    let mut mem = ring_file(0, &[(1, 0)]);
    mem[0] = 0;
    assert_eq!(Ring::open(1, mem.len(), &mem).err(), Some(RingError::InvalidMagic));
    let mem = ring_file(0, &[(1, 0)]);
    assert!(Ring::open(1, 2, &mem).is_err());
    assert!(Ring::open(1, mem.len(), &mem).is_ok());
}

#[test]
fn ring_positions_wrap_around() {
    let mem = ring_file(2, &[(4, 0), (0, 1), (0, 0)]);
    let ring = Ring::open(3, mem.len(), &mem).unwrap();
    assert_eq!((ring.len(), ring.capacity(), ring.write_head()), (3, 3, 2));
    assert_eq!(ring.next_head(2), 0);
    assert_eq!(ring.next_entry(2), 0);
    assert_eq!(ring.prev_entry(0), 2);
    assert_eq!(ring.prev_entry(ring.next_entry(1)), 1);
    assert_eq!(ring.get(0), Some(RingEntry::Bucketed(InitializedEntry::bucket(4, 0))));
    assert_eq!(ring.get(1), Some(RingEntry::File));
    assert_eq!(ring.get(2), Some(RingEntry::Uninitialized));
    assert_eq!(ring.get(3), None);
}

#[test]
fn packed_indices() {
    for ring in [RingKind::Favorites, RingKind::Main] {
        for index in [0, 1, MAX_ENTRIES] {
            let rai = RingAndIndex::new(ring, index);
            assert_eq!((rai.ring(), rai.index()), (ring, index));
            assert_eq!(rai.id(), composite_id(ring, index));
            assert_eq!(RingAndIndex::from_id(rai.id()), Ok(rai));
        }
    }
    assert_eq!(RingAndIndex::from_id(5 << 32), Err(IdNotFoundError::Ring(5)));
    let bai = BucketAndIndex::new(10, 77);
    assert_eq!((bai.bucket(), bai.index()), (10, 77));
    assert_ne!(BucketAndIndex::new(1, 0), BucketAndIndex::new(0, 1));
}

#[test]
fn walks_go_from_oldest_to_newest() {
    let mem = ring_file(2, &[(4, 0), (4, 1), (4, 2), (0, 0), (4, 4)]);
    let ring = Ring::open(5, mem.len(), &mem).unwrap();
    let reader = || RingReader::from_ring(&ring, RingKind::Main);
    assert_eq!(indices(reader()), [2, 4, 0, 1]);
    assert_eq!(indices_back(reader()), [1, 0, 4, 2]);
    assert_eq!(reader().kind(), RingKind::Main);
    assert_eq!(reader().ring().len(), 5);
}

#[test]
fn walks_of_a_growing_ring() {
    let mut mem = ring_file(2, &[(4, 0), (4, 1)]);
    let len = mem.len();
    mem.resize(100, 0);
    let ring = Ring::open(10, len, &mem).unwrap();
    assert_eq!(indices(RingReader::from_ring(&ring, RingKind::Main)), [0, 1]);
    assert_eq!(indices(RingReader::from_uninit(&ring, RingKind::Main)), [] as [u32; 0]);
    assert_eq!(indices_back(RingReader::from_id(&ring, RingKind::Main, 2, 1)), [0]);
}

#[test]
fn both_ends_meet() {
    let mem = ring_file(0, &[(4, 0), (4, 1), (4, 2)]);
    let ring = Ring::open(3, mem.len(), &mem).unwrap();
    let mut reader = RingReader::from_ring(&ring, RingKind::Favorites);
    assert_eq!(reader.next().map(|e| e.index()), Some(0));
    assert_eq!(reader.next_back().map(|e| e.index()), Some(2));
    assert_eq!(reader.next().map(|e| e.index()), Some(1));
    assert!(reader.next().is_none());
    assert!(reader.next_back().is_none());
    assert_eq!(RingReader::from_ring(&ring, RingKind::Favorites).size_hint(), (2, Some(2)));
}

#[test]
fn entries_are_looked_up() {
    let main = ring_file(2, &[(4, 0), (0, 1), (0, 0)]);
    let favorites = ring_file(1, &[(9, 3)]);
    let mut database = DatabaseReader::new(
        Ring::open(3, main.len(), &main).unwrap(),
        Ring::open(1, favorites.len(), &favorites).unwrap(),
    );
    let main_id = |index| composite_id(RingKind::Main, index);
    let entry = database.get_raw(main_id(0)).unwrap();
    assert_eq!((entry.ring(), entry.index(), entry.id()), (RingKind::Main, 0, main_id(0)));
    assert_eq!(entry.kind(), Kind::Bucket(InitializedEntry::bucket(4, 0)));
    assert_eq!(database.get_raw(main_id(1)).unwrap().kind(), Kind::File);
    assert_eq!(database.get_raw(main_id(2)).err(), Some(IdNotFoundError::Entry(2)));
    assert_eq!(database.get_raw(main_id(3)).err(), Some(IdNotFoundError::Entry(3)));
    assert_eq!(database.get_raw(7 << 32).err(), Some(IdNotFoundError::Ring(7)));
    assert_eq!(database.get(0).unwrap().ring(), RingKind::Favorites);
    assert!(database.is_id_in_range(main_id(2)));
    assert!(!database.is_id_in_range(main_id(3)));
    assert_eq!(indices(database.main()), [0, 1]);
    assert_eq!(indices(database.favorites()), [0]);
    assert_eq!(database.main_ring().len(), 3);
    assert_eq!(database.favorites_ring().len(), 1);
}

#[test]
fn first_page_is_newest_first() {
    let mut main = ring_file(3, &[(4, 0), (4, 1)]);
    let len = main.len();
    main.extend(0x2004u32.to_le_bytes());
    main.resize(60, 0);
    let favorites = ring_file(1, &[(9, 3)]);
    let mut database = DatabaseReader::new(
        Ring::open(5, len, &main).unwrap(),
        Ring::open(1, favorites.len(), &favorites).unwrap(),
    );
    let (entries, focused) = load_first_page(&mut database);
    let ids: Vec<u64> = entries.iter().map(|e| e.id()).collect();
    let main_id = |index| composite_id(RingKind::Main, index);
    assert_eq!(ids, [0, main_id(2), main_id(1), main_id(0)]);
    assert_eq!(focused, Some(main_id(1)));
    assert_eq!(database.main_ring().len(), 3);
    refresh(&mut database);
    assert_eq!(database.main_ring().len(), 3);
}

#[test]
fn buckets() {
    for (size, bucket) in
        [(0, 0), (1, 0), (4, 0), (5, 1), (8, 1), (9, 2), (2048, 9), (2049, 10), (4095, 10)]
    {
        assert_eq!(size_to_bucket(size), bucket);
    }
    assert_eq!(bucket_to_length(0), 4);
    assert_eq!(bucket_to_length(10), 4096);
    let names: Vec<String> =
        (0..11).map(|b| String::from_utf8(bucket_file_name(b)).unwrap()).collect();
    assert_eq!(names[0], "(0, 4]");
    assert_eq!(names[1], "(4, 8]");
    assert_eq!(names[9], "(1024, 2048]");
    assert_eq!(names[10], "(2048, 4096)");
}

#[test]
fn direct_file_names() {
    let name = direct_file_name(RingKind::Main, 5);
    assert_eq!(name, b"0004294967301");
    assert_eq!(entry_id_from_direct_file_name(&name), Some(composite_id(RingKind::Main, 5)));
    assert_eq!(direct_file_name(RingKind::Favorites, 0), b"0000000000000");
    assert_eq!(entry_id_from_direct_file_name(b"abc"), None);
    assert_eq!(entry_id_from_direct_file_name(b""), None);
}

#[test]
fn plain_text_mime_types() {
    for mime in ["", "text", "STRING", "Utf8_String", "TEXT/plain", "text/plain;charset=UTF-8"] {
        assert!(is_plaintext_mime(mime));
    }
    assert!(is_text_mime(""));
    assert!(is_text_mime("application/xml"));
    assert!(!is_text_mime("STRING"));
    assert!(!is_plaintext_mime("text/html"));
    assert!(is_text_mime("text/html"));
    assert!(!is_text_mime("image/png"));
}

#[test]
fn contents_of_bucketed_entries() {
    let main = ring_file(3, &[(3, 1), (6, 0), (0, 1)]);
    let favorites = ring_file(0, &[]);
    let database = DatabaseReader::new(
        Ring::open(3, main.len(), &main).unwrap(),
        Ring::open(0, favorites.len(), &favorites).unwrap(),
    );
    let small = b"aaaabcd\0".to_vec();
    let mut buckets: Vec<&[u8]> = vec![&[]; 11];
    buckets[0] = &small;
    let mut reader = EntryReader::new(buckets);
    let entry = |index| database.get_raw(composite_id(RingKind::Main, index)).unwrap();
    match entry(0).to_slice_raw(&reader) {
        Source::Bytes(bytes) => assert_eq!(bytes, b"bcd"),
        _ => panic!("not found"),
    }
    assert!(entry(0).grow_bucket_if_needed(&reader).is_none());
    let short = entry(1).grow_bucket_if_needed(&reader).unwrap();
    assert_eq!((short.bucket, short.needed_len), (1, 8));
    match entry(1).to_slice_raw(&reader) {
        Source::Grow(short) => assert_eq!(short.bucket, 1),
        _ => panic!("found"),
    }
    reader.set_bucket(1, b"longer\0\0");
    match entry(1).to_slice_raw(&reader) {
        Source::Bytes(bytes) => assert_eq!(bytes, b"longer"),
        _ => panic!("not found"),
    }
    match entry(2).to_slice_raw(&reader) {
        Source::Direct(name) => assert_eq!(name, direct_file_name(RingKind::Main, 2)),
        _ => panic!("not a direct file"),
    }
    assert_eq!(reader.buckets().len(), 11);
}

#[test]
fn mime_types_of_entries() {
    let main = ring_file(2, &[(3, 1), (0, 1)]);
    let favorites = ring_file(0, &[]);
    let database = DatabaseReader::new(
        Ring::open(2, main.len(), &main).unwrap(),
        Ring::open(0, favorites.len(), &favorites).unwrap(),
    );
    let bucketed = database.get_raw(composite_id(RingKind::Main, 0)).unwrap();
    let direct = database.get_raw(composite_id(RingKind::Main, 1)).unwrap();
    assert!(matches!(bucketed.mime_source(true), MimeSource::Empty));
    assert!(matches!(direct.mime_source(false), MimeSource::Attribute));
    match direct.mime_source(true) {
        MimeSource::Metadata(name) => assert_eq!(name, direct_file_name(RingKind::Main, 1)),
        _ => panic!("no metadata"),
    }
    assert_eq!(xattr_mime_type(Some(b"image/png")), Ok(MimeType::from("image/png").unwrap()));
    assert_eq!(xattr_mime_type(None), Ok(MimeType::new()));
    assert_eq!(xattr_mime_type(Some(&[0xff])), Err(InvalidMimeType));
}

#[test]
fn only_texts_are_text() {
    assert!(UiEntryCache::Text { one_liner: "a".to_string() }.is_text());
    let highlighted =
        UiEntryCache::HighlightedText { one_liner: "a".to_string(), start: 0, end: 1 };
    assert!(highlighted.is_text());
    assert!(!UiEntryCache::Image.is_text());
    assert!(!UiEntryCache::Binary { mime_type: "a/b".to_string() }.is_text());
    let error = Error::IdNotFound(IdNotFoundError::Entry(1));
    assert!(!UiEntryCache::Error(error).is_text());
}

#[test]
fn buckets_agree_with_logarithms() {
    for bytes in 0..=u16::MAX {
        let bucket = bytes.saturating_sub(1).checked_ilog2().unwrap_or(0).saturating_sub(1);
        assert_eq!(u32::from(size_to_bucket(bytes)), bucket);
    }
}
