use ringboard::duplicate_detection::{DuplicateDetector, Fingerprint, Hashed};
use ringboard::protocol::{composite_id, IdNotFoundError, MoveToFrontResponse, RemoveResponse, RingKind};
use ringboard::ring::{Header, Ring, MAGIC};
use ringboard::ring_reader::{DatabaseReader, Entry, EntryReader, Source};
use ringboard::search::{EntryLocation, QueryResult};
use ringboard::ui_actor::{
    finish_details, finish_image, finish_move, finish_remove, handle_command, is_location_in_range,
    load_image, refresh_ring, Command, CommandError, DecodedImage, Message, Plan, SearchEntry,
    SearchKind, SearchSession, TopResults,
};
use ringboard::ui_entry::{ui_entry_, UiEntryCache};
use ringboard::views::RingAndIndex;

/// A full ring file with one entry per slot of the smallest bucket.
fn ring_file(write_head: u32, len: u32) -> Vec<u8> {
    let mut mem = Header { magic: MAGIC, version: 0, write_head }.to_bytes();
    for slot in 0..len {
        mem.extend((slot * 0x1000 + 4).to_le_bytes());
    }
    mem
}

fn open(mem: &[u8]) -> Ring<'_> {
    Ring::open(0, mem.len(), mem).unwrap()
}

fn some_entry() -> Entry {
    let main = ring_file(0, 1);
    let favorites = ring_file(0, 1);
    DatabaseReader::new(open(&main), open(&favorites)).get_raw(0).unwrap()
}

fn shown(contents: &[u8], highlight: Option<(usize, usize)>) -> (String, Option<(usize, usize)>) {
    match ui_entry_(some_entry(), contents, "", highlight).cache {
        UiEntryCache::Text { one_liner } => (one_liner, None),
        UiEntryCache::HighlightedText { one_liner, start, end } => (one_liner, Some((start, end))),
        _ => panic!("not text"),
    }
}

#[test]
fn whitespace_is_squeezed() {
    assert_eq!(shown(b"  a \t\n b\n", None).0, "a b ");
    assert_eq!(shown(b"", None).0, "");
    assert_eq!(shown("\u{2003}x".as_bytes(), None).0, "x");
}

#[test]
fn long_texts_are_cut() {
    let (line, _) = shown(&[b'a'; 300], None);
    assert_eq!(line, "a".repeat(250) + "…");
    let (line, _) = shown(&[b'a'; 250], None);
    assert_eq!(line, "a".repeat(250));
    let mut split = vec![b'a'; 249];
    split.extend("é".as_bytes());
    assert_eq!(shown(&split, None).0, "a".repeat(249) + "…");
}

#[test]
fn highlights_move_with_their_text() {
    assert_eq!(shown(b"  ab cd", Some((5, 7))), ("ab cd".to_string(), Some((3, 5))));
    assert_eq!(shown(b"abc", Some((1, 2))), ("abc".to_string(), Some((1, 2))));
    let mut long = vec![b'x'; 100];
    long.extend(b"hit");
    let (line, highlight) = shown(&long, Some((100, 103)));
    let (start, end) = highlight.unwrap();
    assert_eq!(&line[start..end], "hit");
    assert_eq!(line, "…".to_string() + &"x".repeat(24) + "hit");
}

#[test]
fn highlights_end_with_a_character() {
    let (line, highlight) = shown(&[b'a'; 252], Some((0, 251)));
    assert_eq!(line, "a".repeat(250) + "…");
    assert_eq!(highlight, Some((0, 253)));
    assert_eq!(shown(&[b'a'; 252], Some((0, 250))).1, Some((0, 250)));
    assert_eq!(shown(&[b'a'; 252], Some((0, 252))).1, Some((0, 253)));
    assert_eq!(shown(b"abc", Some((0, 900))).1, Some((0, 3)));
    assert_eq!(shown("a\u{e9}b".as_bytes(), Some((2, 2))).1, Some((1, 3)));
    assert_eq!(shown("\u{2003}x".as_bytes(), Some((1, 4))).1, Some((0, 1)));
    assert_eq!(shown("\u{2003}x".as_bytes(), Some((3, 4))).1, Some((0, 1)));
}

#[test]
fn any_highlight_of_any_bytes_can_be_cut_out() {
    let part: Vec<u8> = [&b" \t"[..], "é\u{2003}…".as_bytes(), &[0x80, b'x']].concat();
    for len in 0..=part.len() {
        let contents = part[..len].repeat(60 / (len + 1) + 1);
        for start in 0..=contents.len() + 24 {
            for end in [0, start, start + 1, start + 2, start + 5, start + 300] {
                let entry = ui_entry_(some_entry(), &contents, "", Some((start, end)));
                if let UiEntryCache::HighlightedText { one_liner, start, end } = entry.cache {
                    assert!(one_liner.get(start..end).is_some(), "{contents:?} {start} {end}");
                }
            }
        }
    }
}

#[test]
fn images_are_decoded() {
    let pixels: Vec<u8> = (0..24).collect();
    let mut file = std::io::Cursor::new(Vec::new());
    image::RgbaImage::from_raw(3, 2, pixels.clone())
        .unwrap()
        .write_to(&mut file, image::ImageFormat::Png)
        .unwrap();
    match load_image(7, file.get_ref()) {
        Some(Ok(Message::LoadedImage { id, image })) => {
            assert_eq!((id, image.width, image.height), (7, 3, 2));
            assert_eq!(image.rgba, pixels);
        }
        _ => panic!("not an image"),
    }
    assert!(matches!(load_image(7, b"no image"), Some(Err(CommandError::Image(_)))));
    assert!(matches!(load_image(7, &file.get_ref()[..20]), Some(Err(CommandError::Image(_)))));
    assert!(matches!(load_image(7, b""), Some(Err(CommandError::Image(_)))));
    assert!(matches!(load_image(7, &[0xff, 0xd8]), Some(Err(CommandError::Image(_)))));
}

#[test]
fn jpeg_images_are_left_to_the_caller() {
    let mut file = std::io::Cursor::new(Vec::new());
    let gray = image::GrayImage::from_raw(8, 8, vec![77; 64]).unwrap();
    gray.write_to(&mut file, image::ImageFormat::Jpeg).unwrap();
    assert!(load_image(7, file.get_ref()).is_none());
    assert!(load_image(7, &[0xff, 0xd8, 0xff]).is_none());
    let image = DecodedImage { width: 1, height: 1, rgba: vec![1, 2, 3, 4] };
    match finish_image(7, Ok(image)) {
        Ok(Message::LoadedImage { id, image }) => {
            assert_eq!((id, image.width, image.height), (7, 1, 1));
            assert_eq!(image.rgba, [1, 2, 3, 4]);
        }
        _ => panic!("not an image"),
    }
    let error = image::load_from_memory(b"no image").unwrap_err();
    assert!(matches!(finish_image(7, Err(error)), Err(CommandError::Image(_))));
}

#[test]
fn entries_with_new_contents_are_kept() {
    let long = vec![b'x'; 5000];
    let mut other_long = long.clone();
    other_long[4999] = b'y';
    let list: [&[u8]; 7] = [b"a", b"b", b"a", &long, &other_long, b"", &long];
    let mut detector = DuplicateDetector::default();
    let mut duplicates = Vec::new();
    for (i, contents) in (0u32..).zip(list) {
        let len = contents.len() as u64;
        let (hash, found) = detector.candidates(Fingerprint::File { len, contents });
        let others = found.iter().map(|rai| list[rai.index() as usize].to_vec()).collect();
        let rai = RingAndIndex::new(RingKind::Main, i);
        duplicates.push(detector.add_entry(hash, rai, contents, &others));
    }
    assert_eq!(duplicates, [false, false, true, false, false, false, true]);
}

#[test]
fn images_and_binary_entries() {
    let entry = ui_entry_(some_entry(), b"x", "image/png", None);
    assert!(matches!(entry.cache, UiEntryCache::Image));
    match ui_entry_(some_entry(), &[0xff, 0xfe], "a/b", None).cache {
        UiEntryCache::Binary { mime_type } => assert_eq!(mime_type, "a/b"),
        _ => panic!("not binary"),
    }
}

#[test]
fn duplicates_are_found() {
    let mut detector = DuplicateDetector::default();
    let first = RingAndIndex::new(RingKind::Main, 1);
    let second = RingAndIndex::new(RingKind::Main, 2);
    let third = RingAndIndex::new(RingKind::Main, 3);
    let (hash, found) = detector.candidates(Fingerprint::Bucket(b"same"));
    assert!(found.is_empty());
    assert!(!detector.add_entry(hash, first, b"same", &vec![]));
    let (again, found) = detector.candidates(Fingerprint::Bucket(b"same"));
    assert_eq!(again, hash);
    assert_eq!(found, [first]);
    assert!(detector.add_entry(hash, second, b"same", &vec![b"same".to_vec()]));
    assert!(!detector.add_entry(hash, second, b"other", &vec![b"same".to_vec()]));
    assert_eq!(detector.candidates_for(hash), [first, second]);
    assert_eq!(detector.candidates_for(hash ^ 1), []);
    assert!(!detector.add_entry(hash, third, b"", &vec![b"same".to_vec(), b"other".to_vec()]));
}

#[test]
fn files_are_told_apart_by_length() {
    let detector = DuplicateDetector::default();
    let (a, _) = detector.candidates(Fingerprint::File { len: 5000, contents: b"" });
    let (b, _) = detector.candidates(Fingerprint::File { len: 5001, contents: b"" });
    let (c, _) = detector.candidates(Fingerprint::File { len: 5000, contents: b"" });
    assert_ne!(a, b);
    assert_eq!(a, c);
}

#[test]
fn short_files_are_hashed_like_buckets() {
    let file = Fingerprint::File { len: 3, contents: b"abc" };
    assert!(matches!(file.hashed(), Hashed::Bytes(b"abc")));
    assert!(matches!(Fingerprint::Bucket(b"abc").hashed(), Hashed::Bytes(b"abc")));
    let long = Fingerprint::File { len: 4096, contents: b"" };
    assert!(matches!(long.hashed(), Hashed::Len(4096)));
    let detector = DuplicateDetector::default();
    assert_eq!(detector.candidates(file).0, detector.candidates(Fingerprint::Bucket(b"abc")).0);
}

#[test]
fn candidates_are_loaded() {
    let main = ring_file(0, 2);
    let favorites = ring_file(0, 1);
    let database = DatabaseReader::new(open(&main), open(&favorites));
    let mut buckets: Vec<&[u8]> = vec![&[]; 11];
    buckets[0] = b"aaaabbbb";
    let reader = EntryReader::new(buckets);
    let source = |index| {
        let rai = RingAndIndex::new(RingKind::Main, index);
        DuplicateDetector::candidate_source(rai, &database, &reader)
    };
    match source(1) {
        Ok(Source::Bytes(bytes)) => assert_eq!(bytes, b"bbbb"),
        _ => panic!("not loaded"),
    }
    assert!(matches!(source(2), Err(IdNotFoundError::Entry(2))));
}

fn result(location: EntryLocation) -> QueryResult {
    QueryResult { location, start: 1, end: 2 }
}

#[test]
fn search_results_are_newest_first() {
    let main = ring_file(2, 4);
    let favorites = ring_file(0, 1);
    let mut database = DatabaseReader::new(open(&main), open(&favorites));
    let mut session = SearchSession::new(&database);
    let main_id = |index| composite_id(RingKind::Main, index);
    for index in [0, 3, 2, 1] {
        let location = EntryLocation::File { entry_id: main_id(index) };
        assert!(is_location_in_range(&database, location));
        session.add_result(result(location), &database).unwrap();
    }
    let found = session.finish(&mut database);
    let ids: Vec<u64> = found.iter().map(|(entry, _)| entry.id()).collect();
    assert_eq!(ids, [main_id(1), main_id(0), main_id(3), main_id(2)]);
    assert!(found.iter().all(|(_, highlight)| *highlight == Some((1, 2))));
    let outside = EntryLocation::File { entry_id: main_id(4) };
    assert!(!is_location_in_range(&database, outside));
}

#[test]
fn bucketed_results_are_resolved() {
    let main = ring_file(0, 3);
    let favorites = ring_file(0, 0);
    let mut database = DatabaseReader::new(open(&main), open(&favorites));
    let mut session = SearchSession::new(&database);
    let slot = |index| result(EntryLocation::Bucketed { bucket: 0, index });
    let resolved = session.add_result(slot(1), &database).unwrap();
    assert_eq!((resolved.ring(), resolved.index()), (RingKind::Main, 1));
    assert!(session.add_result(slot(9), &database).is_err());
    let found = session.finish(&mut database);
    assert_eq!(found.len(), 1);
    assert_eq!(found[0].0.id(), composite_id(RingKind::Main, 1));
}

#[test]
fn only_the_best_results_are_kept() {
    let main = ring_file(0, 300);
    let favorites = ring_file(0, 0);
    let mut database = DatabaseReader::new(open(&main), open(&favorites));
    let mut session = SearchSession::new(&database);
    for index in 0..300 {
        let entry_id = composite_id(RingKind::Main, index);
        session.add_result(result(EntryLocation::File { entry_id }), &database).unwrap();
    }
    let found = session.finish(&mut database);
    assert_eq!(found.len(), 256);
    assert_eq!(found[0].0.index(), 299);
    assert_eq!(found[255].0.index(), 44);
    let mut top = TopResults::new();
    top.push(SearchEntry { rai: RingAndIndex::new(RingKind::Main, 0), start: 0, end: 0 });
}

/// A ring of which two entries were known when it was opened, though it holds five.
fn grown_ring(mem: &[u8]) -> Ring<'_> {
    Ring::open(5, 16, mem).unwrap()
}

#[test]
fn commands_find_entries_that_were_added_since() {
    let main = ring_file(0, 5);
    let favorites = ring_file(0, 1);
    let commands = [
        |id| Command::GetDetails { id, with_text: false },
        |id| Command::LoadImage(id),
        |id| Command::Paste(id),
    ];
    for command in commands {
        let mut database = DatabaseReader::new(grown_ring(&main), open(&favorites));
        assert_eq!(database.main_ring().len(), 2);
        let id = composite_id(RingKind::Main, 3);
        match handle_command(command(id), &mut database) {
            Ok(Plan::Details { entry: Ok(entry), .. })
            | Ok(Plan::LoadImage { entry, .. })
            | Ok(Plan::Paste { entry }) => assert_eq!(entry.id(), id),
            _ => panic!("not found"),
        }
        assert_eq!((database.main_ring().len(), database.favorites_ring().len()), (4, 1));
        handle_command(command(composite_id(RingKind::Main, 0)), &mut database).unwrap();
        assert_eq!((database.main_ring().len(), database.favorites_ring().len()), (4, 1));
    }
}

#[test]
fn searches_find_entries_that_were_added_since() {
    let main = ring_file(2, 5);
    let favorites = ring_file(0, 1);
    let mut database = DatabaseReader::new(grown_ring(&main), open(&favorites));
    let mut session = SearchSession::new(&database);
    for index in [0, 3, 2] {
        let entry_id = composite_id(RingKind::Main, index);
        session.add_result(result(EntryLocation::File { entry_id }), &database).unwrap();
    }
    let mut found: Vec<u32> =
        session.finish(&mut database).iter().map(|(entry, _)| entry.index()).collect();
    found.sort();
    assert_eq!(found, [0, 2, 3]);
    assert_eq!((database.main_ring().len(), database.favorites_ring().len()), (4, 1));
}

#[test]
fn rings_that_wrapped_are_full() {
    let mut mem = ring_file(1, 2);
    mem.resize(8 + 4 * 5, 0);
    let mut ring = Ring::open(5, 16, &mem).unwrap();
    refresh_ring(&mut ring);
    assert_eq!(ring.len(), 5);
    let mem = [ring_file(4, 2), vec![0; 20]].concat();
    let mut ring = Ring::open(5, 16, &mem).unwrap();
    refresh_ring(&mut ring);
    assert_eq!(ring.len(), 4);
}

#[test]
fn commands_are_planned() {
    let main = ring_file(0, 3);
    let favorites = ring_file(0, 1);
    let mut database = DatabaseReader::new(open(&main), open(&favorites));
    let id = composite_id(RingKind::Main, 2);
    match handle_command(Command::LoadFirstPage, &mut database).unwrap() {
        Plan::FirstPage { entries, default_focused_id } => {
            assert_eq!(entries.len(), 4);
            assert_eq!(default_focused_id, Some(composite_id(RingKind::Main, 1)));
        }
        _ => panic!("wrong plan"),
    }
    assert!(matches!(
        handle_command(Command::Favorite(id), &mut database),
        Ok(Plan::MoveToFront { id: moved, to: RingKind::Favorites }) if moved == id
    ));
    assert!(matches!(
        handle_command(Command::Unfavorite(id), &mut database),
        Ok(Plan::MoveToFront { id: moved, to: RingKind::Main }) if moved == id
    ));
    assert!(matches!(
        handle_command(Command::Delete(id), &mut database),
        Ok(Plan::Remove { id: removed }) if removed == id
    ));
    assert!(matches!(
        handle_command(Command::Paste(id), &mut database),
        Ok(Plan::Paste { entry }) if entry.id() == id
    ));
    assert!(matches!(
        handle_command(Command::LoadImage(id), &mut database),
        Ok(Plan::LoadImage { entry, .. }) if entry.id() == id
    ));
    assert!(matches!(
        handle_command(Command::GetDetails { id, with_text: true }, &mut database),
        Ok(Plan::Details { entry: Ok(entry), with_text: true, .. }) if entry.id() == id
    ));
    assert!(matches!(
        handle_command(Command::LoadImage(9 << 32), &mut database),
        Err(CommandError::IdNotFound(IdNotFoundError::Ring(9)))
    ));
    let search = |kind| Command::Search { query: "(".to_string(), kind };
    assert!(matches!(
        handle_command(search(SearchKind::Regex), &mut database),
        Err(CommandError::Regex(_))
    ));
    assert!(matches!(
        handle_command(search(SearchKind::Plain), &mut database),
        Ok(Plan::Search { .. })
    ));
}

#[test]
fn answers_of_the_server() {
    assert!(matches!(finish_move(MoveToFrontResponse::Success { id: 5 }), Ok(5)));
    assert!(matches!(
        finish_move(MoveToFrontResponse::Error(IdNotFoundError::Entry(3))),
        Err(CommandError::IdNotFound(IdNotFoundError::Entry(3)))
    ));
    assert!(matches!(finish_remove(8, RemoveResponse { error: None }), Ok(8)));
    assert!(matches!(
        finish_remove(8, RemoveResponse { error: Some(IdNotFoundError::Ring(3)) }),
        Err(CommandError::IdNotFound(IdNotFoundError::Ring(3)))
    ));
}

#[test]
fn details_hold_the_text() {
    let details = finish_details("text/html", Some(b"abc"));
    assert_eq!(details.mime_type, "text/html");
    assert_eq!(details.full_text.as_deref(), Some("abc"));
    assert!(finish_details("", None).full_text.is_none());
    assert!(finish_details("", Some(&[0xff])).full_text.is_none());
}
