use ringboard::cli::cli_query;
use ringboard::search::{
    classify_direct_file, is_dot_file, search_bucket, search_direct_file, search_mime_type,
    trim_ascii, BucketScan, CaselessQuery, DirectFile, EntryLocation, InvalidFileName, Matcher,
    Query, QueryResult, ScanStep, Scope,
};
use ringboard::ui_actor::{prepare_query, SearchKind};

fn plain(needle: &str) -> Matcher {
    cli_query(false, false, needle).unwrap().0
}

fn hit(bucket: u8, index: u32, start: usize, end: usize) -> QueryResult {
    QueryResult { location: EntryLocation::Bucketed { bucket, index }, start, end }
}

#[test]
fn plain_searches_find_the_first_match() {
    assert_eq!(plain("bc").find(b"abcbc"), Some((1, 3)));
    assert_eq!(plain("bc").find(b"ab"), None);
    assert_eq!(plain("").find(b"ab"), Some((0, 0)));
    assert_eq!(plain("BC").find(b"abc"), None);
}

#[test]
fn caseless_searches() {
    let (matcher, scope) = cli_query(false, true, "Bc").unwrap();
    assert_eq!(scope, Scope::Contents);
    assert_eq!(matcher.find(b"aBCd"), Some((1, 3)));
    assert_eq!(matcher.find(b"aBd"), None);
    let trimmed = CaselessQuery::new(b" AB \n".to_vec()).trim();
    assert_eq!(trimmed.needle(), b"ab");
    assert_eq!(CaselessQuery::new(b" AB ".to_vec()).needle(), b" ab ");
}

#[test]
fn regex_searches() {
    let (matcher, _) = cli_query(true, false, "b+").unwrap();
    assert_eq!(matcher.find(b"abbb"), Some((1, 4)));
    assert_eq!(matcher.find(b"ac"), None);
    assert_eq!(matcher.needle_len(), None);
    assert!(cli_query(true, false, "(").is_err());
}

#[test]
fn queries_of_user_interfaces() {
    let (lower, scope) = prepare_query(" abc ", SearchKind::Plain).unwrap();
    assert_eq!(scope, Scope::Contents);
    assert_eq!(lower.find(b"xABCx"), Some((1, 4)));
    let (upper, _) = prepare_query("aBc ", SearchKind::Plain).unwrap();
    assert_eq!(upper.find(b"xABCx"), None);
    assert_eq!(upper.find(b"xaBcx"), Some((1, 4)));
    assert_eq!(prepare_query("a", SearchKind::Regex).unwrap().1, Scope::Contents);
    assert_eq!(prepare_query("a", SearchKind::Mime).unwrap().1, Scope::MimeTypes);
    assert!(prepare_query("[", SearchKind::Mime).is_err());
    assert!(prepare_query("[", SearchKind::Regex).is_err());
    assert!(prepare_query("[", SearchKind::Plain).is_ok());
}

#[test]
fn trimming() {
    assert_eq!(trim_ascii(b" \t a b \r\n"), b"a b");
    assert_eq!(trim_ascii(b"   "), b"");
    assert_eq!(trim_ascii(b""), b"");
}

#[test]
fn small_buckets_are_skipped() {
    assert_eq!(plain("abc").first_bucket(), 0);
    assert_eq!(plain("abcde").first_bucket(), 1);
    assert_eq!(plain(&"a".repeat(5000)).first_bucket(), 11);
    assert_eq!(cli_query(true, false, "abcdefghij").unwrap().0.first_bucket(), 0);
    assert_eq!(plain("abcde").needle_len(), Some(5));
}

#[test]
fn buckets_are_searched_slot_by_slot() {
    let mem = b"ab\0\0cabdab\0\0";
    assert_eq!(
        search_bucket(0, mem, &plain("ab")),
        [hit(0, 0, 0, 2), hit(0, 1, 1, 3), hit(0, 2, 0, 2)]
    );
    assert_eq!(search_bucket(0, b"aaaa", &plain("b")), []);
    assert_eq!(search_bucket(0, b"", &plain("b")), []);
    let mut scan = BucketScan::new(0, b"xxxxab\0\0");
    assert_eq!(scan.step(&plain("ab")), ScanStep::NoMatch);
    assert_eq!(scan.step(&plain("ab")), ScanStep::Match(hit(0, 1, 0, 2)));
    assert_eq!(scan.step(&plain("ab")), ScanStep::Done);
}

#[test]
fn what_lies_behind_an_entry_is_not_searched() {
    assert_eq!(search_bucket(0, b"a\0bc", &plain("bc")), []);
    assert_eq!(search_bucket(0, b"a\0bc", &plain("a")), [hit(0, 0, 0, 1)]);
}

#[test]
fn direct_files_are_classified() {
    assert!(is_dot_file(b"."));
    assert!(is_dot_file(b".."));
    assert!(!is_dot_file(b"..."));
    assert_eq!(classify_direct_file(b".", ""), DirectFile::Skip);
    assert_eq!(classify_direct_file(b"0000000000001", "image/png"), DirectFile::Skip);
    assert_eq!(classify_direct_file(b"0000000000001", "text/html"), DirectFile::Search);
    assert_eq!(
        classify_direct_file(b"1", ""),
        DirectFile::Invalid(InvalidFileName::Size)
    );
}

#[test]
fn direct_files_are_searched() {
    let found = search_direct_file(&plain("b"), b"abc", b"0000000000007").unwrap().unwrap();
    assert_eq!(found.location, EntryLocation::File { entry_id: 7 });
    assert_eq!((found.start, found.end), (1, 2));
    assert!(search_direct_file(&plain("x"), b"abc", b"0000000000007").unwrap().is_none());
    assert_eq!(
        search_direct_file(&plain("b"), b"abc", b"00000000000x7").err(),
        Some(InvalidFileName::Id)
    );
}

#[test]
fn mime_types_are_searched() {
    let (matcher, scope) = Query::Mimes(regex::bytes::Regex::new("png$").unwrap()).prepare();
    assert_eq!(scope, Scope::MimeTypes);
    let found = search_mime_type(&matcher, "image/png", b"0000000000007").unwrap().unwrap();
    assert_eq!(found.location, EntryLocation::File { entry_id: 7 });
    assert_eq!((found.start, found.end), (0, 0));
    assert!(search_mime_type(&matcher, "image/jpeg", b"0000000000007").unwrap().is_none());
    assert_eq!(
        search_mime_type(&matcher, "image/png", b"x").err(),
        Some(InvalidFileName::Id)
    );
}

#[test]
fn plain_queries_keep_their_bytes() {
    match Query::Plain(b" a ").prepare() {
        (Matcher::Plain(needle), Scope::Contents) => assert_eq!(needle, b" a "),
        _ => panic!("not plain"),
    }
    match Query::PlainIgnoreCase(CaselessQuery::new(b"A".to_vec())).prepare() {
        (Matcher::IgnoreCase(needle), Scope::Contents) => assert_eq!(needle, b"a"),
        _ => panic!("not caseless"),
    }
}
