use ringboard::cli::{
    added_mime_type, added_ring, context_start, context_window, deduplication_order, dump_order,
    mime_of_guess, removes_duplicates, report, swap_outcome, BucketHits,
};
use ringboard::config::{file_name as config_file_name, load, wayland_file, x11_file, Config, MaxEntries, WaylandConfig, X11Config};
use ringboard::dirs::{
    config_file_dir, data_dir, paste_socket_name, push_component, sleep_file_name, socket_file,
    socket_name,
};
use ringboard::import::{
    check_gpaste_event, check_gpaste_history, check_gpaste_version, clipboard_indicator_entry, export_data, file_name, gpaste_entries,
    gpaste_item, import_ring, ExportData, GPasteCheck, GPasteItem, ImportedData, ItemKind, XmlError,
    XmlEvent,
};
use ringboard::protocol::{composite_id, IdNotFoundError, MimeType, RingKind, SwapResponse};
use ringboard::ring::{Header, Ring, MAGIC};
use ringboard::ring_reader::DatabaseReader;
use ringboard::startup::{SleepWait, WatchEvent};
use ringboard::stats::{EntryFacts, RingStats, Stats};
use ringboard::duplicate_detection::{DuplicateDetector, Fingerprint};
use ringboard::text::{
    append_bytes, ascii_lower, bytes_equal, eq_ignore_ascii_case, is_whitespace, lenient_text,
    parse_u64, push_decimal, push_number, starts_with, utf8_len,
};
use ringboard::transfer::{
    after_open_unnamed, create_tmp_file, proc_self_fd_buf, CopyRange, OpenOutcome, ReadOutcome,
    ReadState, ReadToEnd, TmpFileStep,
};

fn ring_file(write_head: u32, len: u32) -> Vec<u8> {
    let mut mem = Header { magic: MAGIC, version: 0, write_head }.to_bytes();
    for slot in 0..len {
        mem.extend((slot * 0x1000 + 4).to_le_bytes());
    }
    mem
}

#[test]
fn numbers() {
    for n in [0, 9, 10, 123, u64::MAX] {
        let mut digits = Vec::new();
        push_decimal(&mut digits, n);
        assert_eq!(digits, n.to_string().into_bytes());
        assert_eq!(parse_u64(&digits), Some(n));
        let mut text = "n".to_string();
        push_number(&mut text, n);
        assert_eq!(text, format!("n{n}"));
    }
    assert_eq!(parse_u64(b"+7"), Some(7));
    assert_eq!(parse_u64(b""), None);
    assert_eq!(parse_u64(b"+"), None);
    assert_eq!(parse_u64(b"-1"), None);
    assert_eq!(parse_u64(b"18446744073709551616"), None);
}

#[test]
fn texts() {
    assert_eq!(lenient_text("aé".as_bytes()), Some("aé"));
    assert_eq!(lenient_text(&"aé".as_bytes()[..2]), Some("a"));
    assert_eq!(lenient_text(b"a\xffb"), None);
    assert_eq!([utf8_len('a'), utf8_len('é'), utf8_len('…'), utf8_len('🦀')], [1, 2, 3, 4]);
    assert!(is_whitespace(' ') && is_whitespace('\u{2003}') && !is_whitespace('x'));
    assert_eq!((ascii_lower(b'A'), ascii_lower(b'a'), ascii_lower(b'[')), (b'a', b'a', b'['));
    assert!(eq_ignore_ascii_case(b"aB", b"Ab") && !eq_ignore_ascii_case(b"a", b"ab"));
    assert!(starts_with(b"abc", b"ab") && !starts_with(b"a", b"ab"));
    assert!(bytes_equal(b"a", b"a") && !bytes_equal(b"a", b"b"));
    let mut out = b"a".to_vec();
    append_bytes(&mut out, b"bc");
    assert_eq!(out, b"abc");
}

#[test]
fn paths_are_joined() {
    let join = |path: &str, component: &str| {
        let mut path = path.as_bytes().to_vec();
        push_component(&mut path, component.as_bytes());
        String::from_utf8(path).unwrap()
    };
    assert_eq!(join("/a", "b"), "/a/b");
    assert_eq!(join("/a/", "b"), "/a/b");
    assert_eq!(join("", "b"), "b");
    assert_eq!(join("/a", "/b"), "/b");
    assert_eq!(join("/a", ""), "/a/");
}

#[test]
fn places() {
    assert_eq!(data_dir(None), b"/tmp/data/clipboard-history");
    assert_eq!(data_dir(Some(b"/home/u/.local/share")), b"/home/u/.local/share/clipboard-history");
    assert_eq!(config_file_dir(None), b"/tmp/config/ringboard");
    assert_eq!(config_file_dir(Some(b"/c")), b"/c/ringboard");
    assert_eq!(socket_name(None, Some(b"/d")), b"ringboard-server:/d/clipboard-history");
    assert_eq!(socket_name(Some(b"s"), Some(b"/d")), b"s");
    assert_eq!(paste_socket_name(None, None), b"ringboard-paste:/tmp/data/clipboard-history");
    assert_eq!(paste_socket_name(Some(b"p"), None), b"p");
    assert_eq!(x11_file(Some(b"/c")), b"/c/ringboard/x11.toml");
    assert_eq!(wayland_file(None), b"/tmp/config/ringboard/wayland.toml");
    assert_eq!(config_file_name(), "config.toml");
}

#[test]
fn places_by_user() {
    assert_eq!(sleep_file_name(Some("/home/me")), b"/tmp/.ringboard/me/egui/sleep.lock");
    assert_eq!(sleep_file_name(None), b"/tmp/.ringboard/default/egui/sleep.lock");
    assert_eq!(sleep_file_name(Some("/root/")), b"/tmp/.ringboard/egui/sleep.lock");
    assert_eq!(socket_file(Some("/home/me")), b"/tmp/me.clipboard-history");
    assert_eq!(socket_file(None), b"/tmp/default.clipboard-history");
    assert_eq!(socket_file(Some("/home/a.b.c")), b"/tmp/a.b.clipboard-history");
    assert_eq!(socket_file(Some("/home/.x")), b"/tmp/.x.clipboard-history");
    assert_eq!(socket_file(Some("/home/")), b"/tmp.clipboard-history");
    assert_eq!(socket_file(Some("/home/.")), b"/tmp.clipboard-history");
    assert_eq!(socket_file(Some("/home/..")), b"/tmp/..");
}

#[test]
fn paths_of_the_system_agree() {
    for home in ["/home/me", "/home/a.b.c", "/home/.x", "/home/", "/home/.", "/home/..", "x"] {
        let mut path = std::path::PathBuf::from("/tmp");
        path.push(home.split('/').last().unwrap());
        path.set_extension("clipboard-history");
        assert_eq!(path.to_str().unwrap().as_bytes(), socket_file(Some(home)));
    }
}

#[test]
fn settings() {
    let config = Config::default();
    assert_eq!(config.max_entries(RingKind::Main), 131_070);
    assert_eq!(config.max_entries(RingKind::Favorites), 1022);
    assert_eq!(load(None), config);
    let max_entries = MaxEntries::new(5, 6).unwrap();
    let loaded = load(Some(Config { max_entries }));
    assert_eq!(loaded.max_entries(RingKind::Main), 5);
    assert_eq!(loaded.max_entries(RingKind::Favorites), 6);
    assert!(MaxEntries::new(0, 1).is_none() && MaxEntries::new(1, 0).is_none());
    assert_eq!(
        X11Config::default(),
        X11Config { auto_paste: true, fast_path_optimizations: true }
    );
    assert_eq!(WaylandConfig::default(), WaylandConfig { auto_paste: true });
}

fn event(watch: i32, moved: bool, ignored: bool, name: Option<&[u8]>) -> WatchEvent {
    WatchEvent { watch, moved, ignored, file_name: name.map(|n| n.to_vec()) }
}

#[test]
fn the_window_wakes_up() {
    let mut wait = SleepWait::new(Some(3));
    assert!(!wait.step(&event(3, false, false, Some(b"other")), b"f", true).wake);
    assert!(!wait.step(&event(9, true, true, Some(b"f")), b"f", true).wake);
    assert!(!wait.step(&event(3, false, false, Some(b"f")), b"f", false).wake);
    assert!(wait.step(&event(3, false, false, None), b"f", true).wake);
    assert!(!wait.needs_watch());
    let step = wait.step(&event(3, true, false, None), b"f", true);
    assert_eq!((step.remove_watch, step.wake), (Some(3), true));
    assert!(wait.needs_watch());
    let mut wait = SleepWait::new(Some(3));
    let step = wait.step(&event(3, false, true, None), b"f", true);
    assert_eq!((step.remove_watch, step.wake), (None, true));
    assert!(wait.needs_watch());
}

#[test]
fn copies_go_on_until_everything_is_there() {
    let mut copy = CopyRange::new(10);
    assert_eq!(copy.next_len(), 10);
    copy.advance(4);
    assert_eq!((copy.next_len(), copy.done), (6, false));
    copy.advance(6);
    assert_eq!((copy.copied, copy.done), (10, true));
    let mut copy = CopyRange::new(10);
    copy.advance(3);
    copy.advance(0);
    assert_eq!((copy.copied, copy.done), (3, true));
}

#[test]
fn reads_go_on_until_the_end() {
    let mut read = ReadToEnd::new(100, 10);
    assert_eq!(read.next_read(), (100, 10));
    read.advance(ReadOutcome::Interrupted);
    read.advance(ReadOutcome::Read(4));
    assert_eq!(read.next_read(), (104, 6));
    read.advance(ReadOutcome::Read(6));
    assert_eq!((read.filled, read.state), (10, ReadState::Done));
    let mut read = ReadToEnd::new(0, 10);
    read.advance(ReadOutcome::Read(0));
    assert_eq!(read.state, ReadState::Done);
    let mut read = ReadToEnd::new(0, 10);
    read.advance(ReadOutcome::Failed);
    assert_eq!(read.state, ReadState::Failed);
    assert_eq!(ReadToEnd::new(0, 0).state, ReadState::Done);
}

#[test]
fn temporary_files_fall_back_to_a_name() {
    let mut unsupported = false;
    assert_eq!(create_tmp_file(unsupported), TmpFileStep::OpenUnnamed);
    assert_eq!(after_open_unnamed(OpenOutcome::Opened, &mut unsupported), TmpFileStep::Finished);
    assert_eq!(after_open_unnamed(OpenOutcome::Failed, &mut unsupported), TmpFileStep::Failed);
    assert!(!unsupported);
    assert_eq!(
        after_open_unnamed(OpenOutcome::NotSupported, &mut unsupported),
        TmpFileStep::OpenNamed
    );
    assert!(unsupported);
    assert_eq!(create_tmp_file(unsupported), TmpFileStep::OpenNamed);
    assert_eq!(proc_self_fd_buf(12), b"/proc/self/fd/12\0");
}

#[test]
fn other_histories() {
    assert_eq!(file_name("/a/b/c.png"), "c.png");
    assert_eq!(file_name("c"), "c");
    assert_eq!(file_name("/a/"), "");
    let mime = |m: &str| MimeType::from(m).unwrap();
    assert!(matches!(
        clipboard_indicator_entry(true, &mime("text/plain"), "x"),
        Some((RingKind::Favorites, ImportedData::Inline(data))) if data == "x"
    ));
    assert!(matches!(
        clipboard_indicator_entry(false, &mime("image/png"), "/cache/x.png"),
        Some((RingKind::Main, ImportedData::File(name))) if name == "x.png"
    ));
    assert!(matches!(
        clipboard_indicator_entry(false, &mime("STRING"), "s"),
        Some((RingKind::Main, ImportedData::Inline(_)))
    ));
    assert!(clipboard_indicator_entry(false, &mime("a/b"), "x").is_none());
    assert!(clipboard_indicator_entry(false, &mime(""), "").is_none());
}

#[test]
fn gpaste_histories() {
    let start = |name: &str, attributes: &str| {
        let (name, attributes) = (name.to_string(), attributes.to_string());
        check_gpaste_event(&XmlEvent::Start { name, attributes })
    };
    assert!(matches!(check_gpaste_event(&XmlEvent::Other), Ok(GPasteCheck::Continue)));
    assert!(matches!(check_gpaste_event(&XmlEvent::Eof), Ok(GPasteCheck::Corrupted)));
    assert!(matches!(start("history", " version=\"2.0\""), Ok(GPasteCheck::Supported)));
    assert!(matches!(start("history", " a='b' version = '2.0'"), Ok(GPasteCheck::Supported)));
    assert!(matches!(start("history", " version=\"1.0\""), Ok(GPasteCheck::Unsupported)));
    assert!(matches!(start("history", ""), Ok(GPasteCheck::Unsupported)));
    assert!(matches!(start("other", " version=\"2.0\""), Ok(GPasteCheck::Unsupported)));
    assert!(matches!(start("history", " version"), Err(XmlError::Attribute(_))));
    assert!(matches!(start("other", " version"), Ok(GPasteCheck::Unsupported)));
    assert_eq!(check_gpaste_version(Some("2.0")), GPasteCheck::Supported);
    assert_eq!(check_gpaste_version(Some("2.00")), GPasteCheck::Unsupported);
    assert_eq!(check_gpaste_version(None), GPasteCheck::Unsupported);
    let values = |v: &str| vec![v.to_string(), "ignored".to_string()];
    assert!(matches!(
        gpaste_item(ItemKind::Text, &values("x")),
        Some((ImportedData::Inline(data), mime)) if data == "x" && mime.is_empty()
    ));
    assert!(matches!(
        gpaste_item(ItemKind::Image, &values("/images/x.png")),
        Some((ImportedData::File(name), mime)) if name == "x.png" && &*mime == "image/png"
    ));
    assert!(gpaste_item(ItemKind::Uris, &values("")).is_none());
    assert!(gpaste_item(ItemKind::Uris, &vec![]).is_none());
}

#[test]
fn whole_gpaste_histories() {
    let check = |history: &str| check_gpaste_history(history.as_bytes());
    let item = "<item kind=\"Text\"><value>x</value></item></history>";
    let head = "<?xml version=\"1.0\"?>\n<!-- no history -->\n";
    let new = format!("{head}<history version=\"2.0\">{item}");
    let old = format!("{head}<history version=\"1.0\">{item}");
    assert!(matches!(check(&new), Ok(GPasteCheck::Supported)));
    assert!(matches!(check(&old), Ok(GPasteCheck::Unsupported)));
    assert!(matches!(check("<other/><history version='2.0'>"), Ok(GPasteCheck::Supported)));
    assert!(matches!(check("<other><history version='2.0'>"), Ok(GPasteCheck::Unsupported)));
    assert!(matches!(check(head), Ok(GPasteCheck::Corrupted)));
    assert!(matches!(check(""), Ok(GPasteCheck::Corrupted)));
    assert!(matches!(check("<history version"), Err(XmlError::Event(_))));
    assert!(matches!(check("</history>"), Err(XmlError::Event(_))));
    assert!(matches!(check("<history version=2.0>"), Err(XmlError::Attribute(_))));
    assert!(matches!(check_gpaste_history(&[b'<', 0xff, b'>']), Err(XmlError::Event(_))));
}

#[test]
fn newest_items_are_imported_last() {
    let item = |value: &str| GPasteItem { kind: ItemKind::Text, values: vec![value.to_string()] };
    let entries = gpaste_entries(&vec![item("new"), item(""), item("old")]);
    let texts: Vec<&str> = entries
        .iter()
        .map(|(data, _)| match data {
            ImportedData::Inline(text) => text.as_str(),
            ImportedData::File(_) => panic!("a file"),
        })
        .collect();
    assert_eq!(texts, ["old", "new"]);
}

#[test]
fn exports_are_read_back() {
    assert!(matches!(export_data(b"abc"), ExportData::Human(text) if text == "abc"));
    assert!(matches!(export_data(&[0xff]), ExportData::Bytes(bytes) if bytes == [0xff]));
    for contents in [&b"abc"[..], &[0xff, 0], "é".as_bytes(), b""] {
        assert_eq!(export_data(contents).as_bytes(), contents);
    }
    assert_eq!(import_ring(3), RingKind::Favorites);
    assert_eq!(import_ring(composite_id(RingKind::Main, 3)), RingKind::Main);
    assert_eq!(import_ring(u64::MAX), RingKind::Main);
}

#[test]
fn search_reports() {
    assert_eq!(context_start(10), 0);
    assert_eq!(context_start(100), 60);
    let contents: Vec<u8> = (0..=255).collect();
    assert_eq!(context_window(&contents, 100), &contents[60..160]);
    assert_eq!(context_window(&contents, 250), &contents[210..]);
    assert_eq!(
        report(7, b"abcdef", "text/html", 1, 3),
        b"--- ENTRY 7; text/html ---\na\x1b[1mbc\x1b[0mdef\n\n"
    );
    assert_eq!(report(0, b"ab", "", 0, 9), b"--- ENTRY 0 ---\n\x1b[1mab\x1b[0m\n\n");
}

#[test]
fn walks_of_both_rings() {
    let main = ring_file(1, 3);
    let favorites = ring_file(0, 2);
    let database = DatabaseReader::new(
        Ring::open(0, main.len(), &main).unwrap(),
        Ring::open(0, favorites.len(), &favorites).unwrap(),
    );
    let ids = |entries: Vec<ringboard::ring_reader::Entry>| {
        entries.iter().map(|e| (e.ring(), e.index())).collect::<Vec<_>>()
    };
    let (m, f) = (RingKind::Main, RingKind::Favorites);
    assert_eq!(ids(dump_order(&database)), [(f, 0), (f, 1), (m, 1), (m, 2), (m, 0)]);
    assert_eq!(ids(deduplication_order(&database)), [(f, 1), (f, 0), (m, 0), (m, 2), (m, 1)]);
    let mut hits = BucketHits::new();
    hits.insert(0, 2, 1, 3);
    let found = hits.entries(&database);
    assert_eq!(found.len(), 1);
    assert_eq!((found[0].0.id(), found[0].1, found[0].2), (composite_id(m, 2), 1, 3));
}

#[test]
fn the_newest_copy_stays() {
    let main = ring_file(1, 3);
    let favorites = ring_file(0, 2);
    let database = DatabaseReader::new(
        Ring::open(0, main.len(), &main).unwrap(),
        Ring::open(0, favorites.len(), &favorites).unwrap(),
    );
    let (m, f) = (RingKind::Main, RingKind::Favorites);
    let contents = |ring, index| -> &[u8] {
        match (ring, index) {
            (RingKind::Favorites, 0) => b"a",
            (RingKind::Favorites, _) => b"b",
            (RingKind::Main, 2) => b"a",
            (RingKind::Main, _) => b"c",
        }
    };
    let mut detector = DuplicateDetector::default();
    let mut kept = Vec::new();
    for entry in deduplication_order(&database) {
        let bytes = contents(entry.ring(), entry.index());
        let (hash, found) = detector.candidates(Fingerprint::Bucket(bytes));
        let others =
            found.iter().map(|rai| contents(rai.ring(), rai.index()).to_vec()).collect();
        if !detector.add_entry(hash, entry.rai(), bytes, &others) {
            kept.push((entry.ring(), entry.index()));
        }
    }
    assert_eq!(kept, [(f, 1), (f, 0), (m, 0)]);
    assert!(removes_duplicates(0));
    assert!(!removes_duplicates(1));
}

#[test]
fn statistics_about_a_database() {
    let mut main = ring_file(1, 4);
    main[8..12].copy_from_slice(&0x8000_0000u32.to_le_bytes());
    main[12..16].copy_from_slice(&0u32.to_le_bytes());
    let favorites = ring_file(0, 2);
    let mapped = [&main[..], &[0; 24]].concat();
    let database = DatabaseReader::new(
        Ring::open(10, main.len(), &mapped).unwrap(),
        Ring::open(0, favorites.len(), &favorites).unwrap(),
    );
    let facts: Vec<EntryFacts> = dump_order(&database)
        .iter()
        .map(|entry| EntryFacts {
            duplicate: entry.index() == 2,
            size: 5000,
            blocks: 16,
            mime_type: "image/png".to_string(),
        })
        .collect();
    assert_eq!(facts.len(), 5);
    let stats = Stats::of_database(&database, &vec![40; 11], &facts);
    assert_eq!((stats.main.capacity, stats.main.len), (10, 4));
    assert_eq!((stats.main.bucketed_entry_count, stats.main.file_entry_count), (2, 1));
    assert_eq!((stats.main.num_duplicates, stats.main.uninitialized_entry_count()), (1, 1));
    assert_eq!((stats.favorites.num_entries(), stats.favorites.num_duplicates), (2, 0));
    assert_eq!(stats.main.owned_bytes + stats.favorites.owned_bytes, 5016);
    let bucketed: u64 = stats.buckets.iter().map(|bucket| bucket.owned_bytes).sum();
    assert_eq!((bucketed, stats.direct_files.owned_bytes), (16, 5000));
    assert_eq!(stats.direct_files.mime_types.entries().1.iter().sum::<u32>(), 1);
}

#[test]
fn added_entries() {
    assert_eq!(&*added_mime_type(None, "/a/b.png"), "image/png");
    assert_eq!(&*added_mime_type(None, "/a/b"), "");
    let given = MimeType::from("x/y").unwrap();
    assert_eq!(&*added_mime_type(Some(given), "/a/b.png"), "x/y");
    assert_eq!(&*mime_of_guess(Some(&"m".repeat(97))), "");
    assert_eq!(&*mime_of_guess(Some("a/b")), "a/b");
    assert_eq!((added_ring(true), added_ring(false)), (RingKind::Favorites, RingKind::Main));
}

#[test]
fn swaps() {
    let (a, b) = (IdNotFoundError::Entry(1), IdNotFoundError::Ring(2));
    let outcome = |error1, error2| swap_outcome(SwapResponse { error1, error2 });
    assert_eq!(outcome(None, None), Ok(()));
    assert_eq!(outcome(Some(a), Some(b)), Err(a));
    assert_eq!(outcome(None, Some(b)), Err(b));
}

#[test]
fn statistics() {
    let mut stats = Stats::new(RingStats::new(1022, 1), RingStats::new(131_070, 4), &vec![40; 11]);
    stats.add_bucketed(RingKind::Main, 3, false);
    stats.add_bucketed(RingKind::Main, 6, true);
    stats.add_file(RingKind::Favorites, 5000, 16, "image/png", false);
    assert_eq!(stats.main.num_entries(), 2);
    assert_eq!(stats.main.uninitialized_entry_count(), 2);
    assert_eq!((stats.main.min_entry_size, stats.main.max_entry_size), (3, 6));
    assert_eq!((stats.main.owned_bytes, stats.main.num_duplicates), (9, 1));
    assert_eq!(stats.favorites.file_entry_count, 1);
    assert_eq!((stats.buckets[0].num_slots, stats.buckets[0].used_slots), (10, 1));
    assert_eq!(stats.buckets[0].free_slots(), 9);
    assert_eq!((stats.buckets[1].used_bytes(), stats.buckets[1].fragmentation_bytes()), (8, 2));
    assert_eq!(stats.direct_files.allocated_bytes, 8192);
    assert_eq!(stats.direct_files.fragmentation_bytes(), 3192);
    let (names, counts) = stats.direct_files.mime_types.entries();
    assert_eq!((names.as_slice(), counts.as_slice()), (&["image/png".to_string()][..], &[1][..]));
    for mime_type in ["text/html", "", "image/png", "image/p", "image/png2"] {
        stats.add_file(RingKind::Main, 1, 1, mime_type, false);
    }
    let (names, counts) = stats.direct_files.mime_types.entries();
    assert_eq!(names, &["", "image/p", "image/png", "image/png2", "text/html"]);
    assert_eq!(counts, &[1, 1, 2, 1, 1]);
    assert_eq!((stats.favorites.capacity, stats.favorites.len), (1022, 1));
    assert_eq!((stats.main.capacity, stats.main.len), (131_070, 4));
    let used: u32 = stats.buckets.iter().map(|bucket| bucket.used_slots).sum();
    assert_eq!(used, stats.main.bucketed_entry_count + stats.favorites.bucketed_entry_count);
}

#[test]
fn characters_of_the_system_agree() {
    for c in (0..=0x10_ffff).filter_map(char::from_u32) {
        assert_eq!(is_whitespace(c), c.is_whitespace());
        assert_eq!(utf8_len(c), c.len_utf8());
    }
}
