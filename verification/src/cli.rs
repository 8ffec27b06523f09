//! What the command line client computes.

use std::collections::BTreeMap;

use regex::Error as RegexError;
use rustc_hash::FxHasher;
use vstd::prelude::*;
use vstd::utf8::*;

use crate::protocol::{mime_from, mime_new, IdNotFoundError, MimeType, RingKind, SwapResponse};
use crate::ring_reader::{DatabaseReader, Entry, Kind, RingReader};
use crate::search::{regex_new, CaselessQuery, Matcher, Query, Scope};
use crate::text::{append_bytes, push_decimal};
use crate::ui_actor::take_newest;
use crate::utils::size_to_bucket;
use crate::views::{BucketAndIndex, RingAndIndex};

verus! {

/// How many bytes are shown before a match.
pub const PREFIX_CONTEXT: usize = 40;

/// How many bytes are shown around a match.
pub const CONTEXT_WINDOW: usize = 100;

/// Whether a matcher is the one for a query on the command line.
pub open spec fn is_cli_matcher(
    regex: bool,
    ignore_case: bool,
    query: Seq<char>,
    prepared: Result<(Matcher, Scope), RegexError>,
) -> bool {
    if regex {
        match crate::search::regex_of(query, usize::BITS) {
            Some(regex) => prepared == Ok::<(Matcher, Scope), RegexError>(
                (Matcher::Regex(regex), Scope::Contents),
            ),
            None => prepared is Err,
        }
    } else {
        prepared matches Ok((matcher, scope)) && scope == Scope::Contents && if ignore_case {
            matcher matches Matcher::IgnoreCase(needle) && needle@
                == crate::text::spec_ascii_lowercase(encode_utf8(query))
        } else {
            matcher matches Matcher::Plain(needle) && needle@ == encode_utf8(query)
        }
    }
}

/// Makes a query on the command line ready for searching. Nothing is trimmed.
pub fn cli_query(regex: bool, ignore_case: bool, query: &str) -> (prepared: Result<
    (Matcher, Scope),
    RegexError,
>)
    ensures
        is_cli_matcher(regex, ignore_case, query@, prepared),
{
    let query = if regex {
        match regex_new(query) {
            Ok(regex) => Query::Regex(regex),
            Err(error) => return Err(error),
        }
    } else if ignore_case {
        Query::PlainIgnoreCase(CaselessQuery::new(vstd::slice::slice_to_vec(query.as_bytes())))
    } else {
        Query::Plain(query.as_bytes())
    };
    Ok(query.prepare())
}

/// Where the bytes that are shown of an entry begin.
pub open spec fn window_start(start: int) -> int {
    if start <= PREFIX_CONTEXT {
        0
    } else {
        start - PREFIX_CONTEXT
    }
}

/// Where the bytes that are shown of an entry begin.
pub fn context_start(start: usize) -> (from: usize)
    ensures
        from == window_start(start as int),
{
    start.saturating_sub(PREFIX_CONTEXT)
}

/// The bytes that are shown of an entry in which a match starts at `start`.
pub open spec fn spec_context_window(contents: Seq<u8>, start: int) -> Seq<u8> {
    let rest = contents.skip(window_start(start));
    if rest.len() <= CONTEXT_WINDOW {
        rest
    } else {
        rest.take(CONTEXT_WINDOW as int)
    }
}

/// The bytes that are shown of an entry in which a match starts at `start`.
pub fn context_window<'a>(contents: &'a [u8], start: usize) -> (window: &'a [u8])
    requires
        window_start(start as int) <= contents@.len(),
    ensures
        window@ == spec_context_window(contents@, start as int),
{
    let from: usize = context_start(start);
    let len: usize = contents.len() - from;
    let len: usize = if len <= CONTEXT_WINDOW {
        len
    } else {
        CONTEXT_WINDOW
    };
    let window = vstd::slice::slice_subrange(contents, from, from + len);
    assert(window@ =~= spec_context_window(contents@, start as int));
    window
}

/// The line above an entry: its ID, and its mime type if it has one.
pub open spec fn spec_header(id: u64, mime_type: Seq<char>) -> Seq<u8> {
    encode_utf8("--- ENTRY "@) + crate::text::decimal(id as nat) + (if mime_type.len() == 0 {
        Seq::empty()
    } else {
        encode_utf8("; "@) + encode_utf8(mime_type)
    }) + encode_utf8(" ---\n"@)
}

/// How many bytes of the window come before the match.
pub open spec fn bold_start(start: int) -> int {
    if start <= PREFIX_CONTEXT {
        start
    } else {
        PREFIX_CONTEXT as int
    }
}

/// How many bytes of the window belong to the match.
pub open spec fn bold_len(window: Seq<u8>, start: int, end: int) -> int {
    let rest = window.len() - bold_start(start);
    if end - start <= rest {
        end - start
    } else {
        rest
    }
}

/// What is printed of an entry: a header and the window with the match in bold.
pub open spec fn spec_report(
    id: u64,
    window: Seq<u8>,
    mime_type: Seq<char>,
    start: int,
    end: int,
) -> Seq<u8> {
    let from = bold_start(start);
    let to = from + bold_len(window, start, end);
    spec_header(id, mime_type) + window.take(from) + encode_utf8("\x1b[1m"@) + window.subrange(
        from,
        to,
    ) + encode_utf8("\x1b[0m"@) + window.skip(to) + encode_utf8("\n\n"@)
}

/// What is printed of an entry in which the bytes from `start` up to `end` match.
pub fn report(id: u64, window: &[u8], mime_type: &str, start: usize, end: usize) -> (out: Vec<u8>)
    requires
        start <= end,
        bold_start(start as int) <= window@.len(),
    ensures
        out@ == spec_report(id, window@, mime_type@, start as int, end as int),
{
    let mut out: Vec<u8> = Vec::new();
    append_bytes(&mut out, "--- ENTRY ".as_bytes());
    push_decimal(&mut out, id);
    if !mime_type.is_empty() {
        append_bytes(&mut out, "; ".as_bytes());
        append_bytes(&mut out, mime_type.as_bytes());
    }
    append_bytes(&mut out, " ---\n".as_bytes());
    assert(out@ =~= spec_header(id, mime_type@));
    let from: usize = if start <= PREFIX_CONTEXT {
        start
    } else {
        PREFIX_CONTEXT
    };
    let rest: usize = window.len() - from;
    let to: usize = from + if end - start <= rest {
        end - start
    } else {
        rest
    };
    let prefix = vstd::slice::slice_subrange(window, 0, from);
    let middle = vstd::slice::slice_subrange(window, from, to);
    let suffix = vstd::slice::slice_subrange(window, to, window.len());
    assert(prefix@ =~= window@.take(from as int));
    assert(suffix@ =~= window@.skip(to as int));
    append_bytes(&mut out, prefix);
    append_bytes(&mut out, "\x1b[1m".as_bytes());
    append_bytes(&mut out, middle);
    append_bytes(&mut out, "\x1b[0m".as_bytes());
    append_bytes(&mut out, suffix);
    append_bytes(&mut out, "\n\n".as_bytes());
    out
}

/// In the window around a match, the match is what stands in bold, as far as the
/// window holds it.
pub proof fn lemma_match_is_bold(contents: Seq<u8>, start: int, end: int)
    requires
        0 <= start <= end <= contents.len(),
    ensures
        ({
            let window = spec_context_window(contents, start);
            let from = bold_start(start);
            let len = bold_len(window, start, end);
            &&& from <= window.len()
            &&& window.subrange(from, from + len) == contents.subrange(start, start + len)
            &&& len == end - start || from + len == CONTEXT_WINDOW
        }),
{
    let window = spec_context_window(contents, start);
    let from = bold_start(start);
    let len = bold_len(window, start, end);
    assert(window.subrange(from, from + len) =~= contents.subrange(start, start + len));
}

/// The matches in buckets, by slot.
pub struct BucketHits {
    hits: BTreeMap<u32, (u16, u16)>,
}

/// The matches among some entries, in the order of the entries.
pub open spec fn select_hits(hits: Map<u32, (u16, u16)>, entries: Seq<Entry>) -> Seq<
    (Entry, usize, usize),
>
    decreases entries.len(),
{
    if entries.len() == 0 {
        Seq::empty()
    } else {
        let rest = select_hits(hits, entries.drop_last());
        match entries.last().spec_kind() {
            Kind::File => rest,
            Kind::Bucket(metadata) => {
                let key = crate::ui_actor::slot_key(
                    crate::utils::spec_size_to_bucket(metadata.spec_size() as int),
                    metadata.spec_index() as int,
                );
                if hits.contains_key(key) {
                    rest.push((entries.last(), hits[key].0 as usize, hits[key].1 as usize))
                } else {
                    rest
                }
            },
        }
    }
}

impl View for BucketHits {
    type V = Map<u32, (u16, u16)>;

    closed spec fn view(&self) -> Map<u32, (u16, u16)> {
        self.hits@
    }
}

impl BucketHits {
    pub fn new() -> (hits: BucketHits)
        ensures
            hits@ == Map::<u32, (u16, u16)>::empty(),
    {
        BucketHits { hits: BTreeMap::new() }
    }

    /// Records a match in a slot of a bucket.
    pub fn insert(&mut self, bucket: u8, index: u32, start: usize, end: usize)
        requires
            index <= crate::ring::MAX_ENTRIES,
            start <= u16::MAX,
            end <= u16::MAX,
        ensures
            final(self)@ == old(self)@.insert(
                crate::ui_actor::slot_key(bucket as int, index as int),
                (start as u16, end as u16),
            ),
    {
        broadcast use vstd::std_specs::btree::group_btree_axioms;

        let key: u32 = BucketAndIndex::new(bucket, index).packed();
        self.hits.insert(key, (start as u16, end as u16));
    }

    /// Appends the matches among the entries of a walk.
    fn select(
        &self,
        walk: RingReader<'_, '_>,
        out: &mut Vec<(Entry, usize, usize)>,
        Ghost(before): Ghost<Seq<Entry>>,
    )
        requires
            walk.wf(),
            old(out)@ == select_hits(self@, before),
        ensures
            final(out)@ == select_hits(self@, before + walk.remaining()),
    {
        let ghost all = walk.remaining();
        let ghost mut taken: int = 0;
        let mut reader = walk;
        assert(all.skip(0) =~= all);
        assert(before + all.take(0) =~= before);
        loop
            invariant
                reader.wf(),
                all == walk.remaining(),
                0 <= taken <= all.len(),
                reader.remaining() == all.skip(taken),
                out@ == select_hits(self@, before + all.take(taken)),
            decreases all.len() - taken,
        {
            broadcast use vstd::std_specs::btree::group_btree_axioms;

            match reader.next() {
                None => {
                    assert(all.take(taken) =~= all);
                    return;
                },
                Some(entry) => {
                    let ghost longer = before + all.take(taken + 1);
                    proof {
                        assert(all.skip(taken).drop_first() =~= all.skip(taken + 1));
                        assert(longer.drop_last() =~= before + all.take(taken));
                        assert(longer.last() == entry);
                    }
                    if let Kind::Bucket(metadata) = entry.kind() {
                        let bucket: u8 = size_to_bucket(metadata.size());
                        let key: u32 = BucketAndIndex::new(bucket, metadata.index()).packed();
                        if let Some(range) = self.hits.get(&key) {
                            out.push((entry, range.0 as usize, range.1 as usize));
                        }
                    }
                    proof {
                        taken = taken + 1;
                    }
                },
            }
        }
    }

    /// The entries that match, favorites first and oldest first.
    pub fn entries(&self, database: &DatabaseReader<'_>) -> (found: Vec<(Entry, usize, usize)>)
        requires
            database.wf(),
            crate::ring_reader::can_walk(database.spec_favorites()),
            crate::ring_reader::can_walk(database.spec_main()),
        ensures
            found@ == select_hits(self@, all_entries(*database)),
    {
        let mut found: Vec<(Entry, usize, usize)> = Vec::new();
        self.select(database.favorites(), &mut found, Ghost(Seq::empty()));
        let ghost favorites = crate::ring_reader::spec_walk(
            database.spec_favorites(),
            RingKind::Favorites,
        ).front_entries(database.spec_favorites());
        assert(Seq::<Entry>::empty() + favorites =~= favorites);
        self.select(database.main(), &mut found, Ghost(favorites));
        found
    }
}

/// All entries, favorites first and oldest first.
pub open spec fn all_entries(database: DatabaseReader) -> Seq<Entry> {
    crate::ring_reader::spec_walk(
        database.spec_favorites(),
        RingKind::Favorites,
    ).front_entries(database.spec_favorites()) + crate::ring_reader::spec_walk(
        database.spec_main(),
        RingKind::Main,
    ).front_entries(database.spec_main())
}

/// All entries in the order in which duplicates are looked for: favorites first and
/// newest first.
pub open spec fn deduplication_entries(database: DatabaseReader) -> Seq<Entry> {
    crate::ring_reader::spec_walk(
        database.spec_favorites(),
        RingKind::Favorites,
    ).back_entries(database.spec_favorites()) + crate::ring_reader::spec_walk(
        database.spec_main(),
        RingKind::Main,
    ).back_entries(database.spec_main())
}

/// All entries in the order in which duplicates are looked for: favorites first
/// and newest first, so that the newest of equal entries stays.
pub fn deduplication_order(database: &DatabaseReader<'_>) -> (entries: Vec<Entry>)
    requires
        database.wf(),
        crate::ring_reader::can_walk(database.spec_favorites()),
        crate::ring_reader::can_walk(database.spec_main()),
    ensures
        entries@ == deduplication_entries(*database),
{
    let mut entries: Vec<Entry> = Vec::new();
    take_newest(database.favorites(), None, &mut entries);
    take_newest(database.main(), None, &mut entries);
    entries
}

/// The places of entries.
pub open spec fn places_of(entries: Seq<Entry>) -> Seq<RingAndIndex> {
    Seq::new(entries.len(), |i: int| entries[i].spec_rai())
}

/// Whether an entry is kept rather than another with the same contents: a favorite
/// rather than one that is none, and otherwise the newer one.
pub open spec fn is_preferred(database: DatabaseReader, a: Entry, b: Entry) -> bool {
    if a.spec_ring() != b.spec_ring() {
        a.spec_ring() == RingKind::Favorites
    } else {
        let all = crate::ring_reader::contents(database.spec_ring(a.spec_ring()), a.spec_ring());
        all.index_of(a) > all.index_of(b)
    }
}

proof fn lemma_order_is_preference(database: DatabaseReader, j: int, k: int)
    requires
        database.wf(),
        crate::ring_reader::is_head_within(database.spec_favorites()),
        crate::ring_reader::is_head_within(database.spec_main()),
        0 <= j < deduplication_entries(database).len(),
        0 <= k < deduplication_entries(database).len(),
    ensures
        is_preferred(
            database,
            deduplication_entries(database)[j],
            deduplication_entries(database)[k],
        ) == (j < k),
{
    let favorites = crate::ring_reader::contents(database.spec_favorites(), RingKind::Favorites);
    let main = crate::ring_reader::contents(database.spec_main(), RingKind::Main);
    crate::ring_reader::lemma_full_walk(database.spec_favorites(), RingKind::Favorites);
    crate::ring_reader::lemma_full_walk(database.spec_main(), RingKind::Main);
    crate::ring_reader::lemma_contents_complete(database.spec_favorites(), RingKind::Favorites);
    crate::ring_reader::lemma_contents_complete(database.spec_main(), RingKind::Main);
    let entries = deduplication_entries(database);
    assert(entries == favorites.reverse() + main.reverse());
    assert forall|i: int| 0 <= i < entries.len() implies {
        let entry = #[trigger] entries[i];
        if i < favorites.len() {
            entry.spec_ring() == RingKind::Favorites && favorites.index_of(entry)
                == favorites.len() - 1 - i
        } else {
            entry.spec_ring() == RingKind::Main && main.index_of(entry) == main.len() - 1 - (i
                - favorites.len())
        }
    } by {
        let entry = entries[i];
        if i < favorites.len() {
            assert(favorites[favorites.len() - 1 - i] == entry);
            assert(favorites.contains(entry));
        } else {
            let at = main.len() - 1 - (i - favorites.len());
            assert(main[at] == entry);
            assert(main.contains(entry));
        }
    }
}

/// Of entries with the same contents one is kept when duplicates are removed: a favorite
/// if there is one among them, and of these, or else of all of them, the newest.
pub proof fn lemma_newest_copy_stays(
    database: DatabaseReader,
    contents: spec_fn(RingAndIndex) -> Seq<u8>,
    hasher: FxHasher,
    k: int,
)
    requires
        database.wf(),
        crate::ring_reader::is_head_within(database.spec_favorites()),
        crate::ring_reader::is_head_within(database.spec_main()),
        0 <= k < deduplication_entries(database).len(),
    ensures
        ({
            let entries = deduplication_entries(database);
            let places = places_of(entries);
            &&& crate::duplicate_detection::found_duplicate(places, contents, hasher, k)
                <==> exists|j: int|
                0 <= j < entries.len() && contents(places[j]) == contents(places[k])
                    && is_preferred(database, #[trigger] entries[j], entries[k])
            &&& exists|j: int|
                0 <= j < entries.len() && contents(places[j]) == contents(places[k])
                    && !(#[trigger] crate::duplicate_detection::found_duplicate(
                    places,
                    contents,
                    hasher,
                    j,
                ))
        }),
    decreases k,
{
    let entries = deduplication_entries(database);
    let places = places_of(entries);
    crate::duplicate_detection::lemma_duplicates_in_list(places, contents, hasher);
    assert forall|j: int| 0 <= j < entries.len() implies is_preferred(
        database,
        #[trigger] entries[j],
        entries[k],
    ) == (j < k) by {
        lemma_order_is_preference(database, j, k);
    }
    let found = crate::duplicate_detection::found_duplicate(places, contents, hasher, k);
    if found {
        let j = choose|j: int| 0 <= j < k && contents(#[trigger] places[j]) == contents(places[k]);
        assert(is_preferred(database, entries[j], entries[k]));
        lemma_newest_copy_stays(database, contents, hasher, j);
    }
    if exists|j: int|
        0 <= j < entries.len() && contents(places[j]) == contents(places[k]) && is_preferred(
            database,
            #[trigger] entries[j],
            entries[k],
        ) {
        let j = choose|j: int|
            0 <= j < entries.len() && contents(places[j]) == contents(places[k]) && is_preferred(
                database,
                #[trigger] entries[j],
                entries[k],
            );
        assert(contents(places[j]) == contents(places[k]));
        assert(crate::duplicate_detection::has_earlier(places, contents, k));
    }
}

/// Whether duplicates are removed before garbage is collected: if no waste is allowed.
#[must_use]
pub fn removes_duplicates(max_wasted_bytes: u64) -> (removes: bool)
    ensures
        removes == (max_wasted_bytes == 0),
{
    max_wasted_bytes == 0
}

/// Appends the entries of a walk, oldest first.
fn take_all(walk: RingReader<'_, '_>, entries: &mut Vec<Entry>)
    requires
        walk.wf(),
    ensures
        final(entries)@ == old(entries)@ + walk.remaining(),
{
    let ghost all = walk.remaining();
    let ghost mut taken: int = 0;
    let mut reader = walk;
    assert(all.skip(0) =~= all);
    assert(old(entries)@ + all.take(0) =~= old(entries)@);
    loop
        invariant
            reader.wf(),
            all == walk.remaining(),
            0 <= taken <= all.len(),
            reader.remaining() == all.skip(taken),
            entries@ == old(entries)@ + all.take(taken),
        decreases all.len() - taken,
    {
        match reader.next() {
            None => {
                assert(all.take(taken) =~= all);
                return;
            },
            Some(entry) => {
                entries.push(entry);
                proof {
                    assert(all.skip(taken).drop_first() =~= all.skip(taken + 1));
                    assert(all.take(taken + 1) =~= all.take(taken).push(entry));
                    assert(entries@ =~= old(entries)@ + all.take(taken + 1));
                    taken = taken + 1;
                }
            },
        }
    }
}

/// All entries, favorites first and oldest first.
pub fn dump_order(database: &DatabaseReader<'_>) -> (entries: Vec<Entry>)
    requires
        database.wf(),
        crate::ring_reader::can_walk(database.spec_favorites()),
        crate::ring_reader::can_walk(database.spec_main()),
    ensures
        entries@ == all_entries(*database),
{
    let mut entries: Vec<Entry> = Vec::new();
    take_all(database.favorites(), &mut entries);
    take_all(database.main(), &mut entries);
    entries
}

/// The mime type that a path suggests, if it suggests one.
pub uninterp spec fn guessed_mime(path: Seq<char>) -> Option<Seq<char>>;

/// `mime_guess::from_path` and the first of its guesses: what the extension of
/// the path suggests.
#[verifier::external_body]
fn guess_mime(path: &str) -> (mime: Option<&'static str>)
    ensures
        match mime {
            Some(mime) => guessed_mime(path@) == Some(mime@),
            None => guessed_mime(path@) is None,
        },
{
    mime_guess::from_path(path).first_raw()
}

/// The mime type that a guess stands for: none if it is too long.
pub open spec fn guess_or_nothing(guess: Option<Seq<char>>) -> Seq<char> {
    match guess {
        Some(mime) if encode_utf8(mime).len() <= crate::protocol::MIME_TYPE_CAPACITY => mime,
        _ => Seq::empty(),
    }
}

/// The mime type that a guess stands for: none if it is too long.
pub fn mime_of_guess(guess: Option<&str>) -> (mime: MimeType)
    ensures
        crate::protocol::mime_text(mime) == guess_or_nothing(
            match guess {
                Some(guess) => Some(guess@),
                None => None,
            },
        ),
{
    match guess {
        None => mime_new(),
        Some(guess) => match mime_from(guess) {
            Some(mime) => mime,
            None => mime_new(),
        },
    }
}

/// The mime type of an entry that is added from a file: the one that was given,
/// or the one that the name of the file suggests.
pub fn added_mime_type(given: Option<MimeType>, path: &str) -> (mime: MimeType)
    ensures
        given matches Some(given) ==> mime == given,
        given is None ==> crate::protocol::mime_text(mime) == guess_or_nothing(
            guessed_mime(path@),
        ),
{
    match given {
        Some(mime) => mime,
        None => mime_of_guess(guess_mime(path)),
    }
}

/// The ring that an entry is added to.
pub fn added_ring(favorite: bool) -> (ring: RingKind)
    ensures
        ring == if favorite {
            RingKind::Favorites
        } else {
            RingKind::Main
        },
{
    if favorite {
        RingKind::Favorites
    } else {
        RingKind::Main
    }
}

/// How a swap went: the error of the first entry comes before that of the second.
pub fn swap_outcome(response: SwapResponse) -> (outcome: Result<(), IdNotFoundError>)
    ensures
        outcome == match (response.error1, response.error2) {
            (Some(error), _) => Err::<(), IdNotFoundError>(error),
            (None, Some(error)) => Err::<(), IdNotFoundError>(error),
            (None, None) => Ok::<(), IdNotFoundError>(()),
        },
{
    if let Some(error) = response.error1 {
        Err(error)
    } else if let Some(error) = response.error2 {
        Err(error)
    } else {
        Ok(())
    }
}

/// What is printed of an entry is a header and the bytes around the match as they are,
/// with the match, and nothing but the match, between the escape sequences for bold text:
/// up to forty bytes before it, and a hundred bytes in all.
pub proof fn lemma_report_shows_match(
    id: u64,
    contents: Seq<u8>,
    mime_type: Seq<char>,
    start: int,
    end: int,
)
    requires
        0 <= start <= end <= contents.len(),
    ensures
        ({
            let first = if start <= 40 {
                0
            } else {
                start - 40
            };
            let last = if first + 100 <= contents.len() {
                first + 100
            } else {
                contents.len() as int
            };
            let bold_end = if end <= last {
                end
            } else {
                last
            };
            let printed = spec_report(
                id,
                spec_context_window(contents, start),
                mime_type,
                start,
                end,
            );
            &&& first <= start <= bold_end <= last
            &&& printed == spec_header(id, mime_type) + contents.subrange(first, start)
                + seq![0x1bu8, 0x5b, 0x31, 0x6d] + contents.subrange(start, bold_end)
                + seq![0x1bu8, 0x5b, 0x30, 0x6d] + contents.subrange(bold_end, last) + seq![
                0x0au8,
                0x0a,
            ]
        }),
{
    let first = if start <= 40 {
        0
    } else {
        start - 40
    };
    let last = if first + 100 <= contents.len() {
        first + 100
    } else {
        contents.len() as int
    };
    let bold_end = if end <= last {
        end
    } else {
        last
    };
    let window = spec_context_window(contents, start);
    let from = start - first;
    let to = bold_end - first;
    reveal_strlit("\x1b[1m");
    reveal_strlit("\x1b[0m");
    reveal_strlit("\n\n");
    lemma_ascii_literal("\x1b[1m"@, seq![0x1bu8, 0x5b, 0x31, 0x6d]);
    lemma_ascii_literal("\x1b[0m"@, seq![0x1bu8, 0x5b, 0x30, 0x6d]);
    lemma_ascii_literal("\n\n"@, seq![0x0au8, 0x0a]);
    assert(window =~= contents.subrange(first, last));
    assert(window.take(from) =~= contents.subrange(first, start));
    assert(window.subrange(from, to) =~= contents.subrange(start, bold_end));
    assert(window.skip(to) =~= contents.subrange(bold_end, last));
    assert(spec_report(id, window, mime_type, start, end) == spec_header(id, mime_type)
        + window.take(from) + encode_utf8("\x1b[1m"@) + window.subrange(from, to) + encode_utf8(
        "\x1b[0m"@,
    ) + window.skip(to) + encode_utf8("\n\n"@));
}

proof fn lemma_ascii_literal(text: Seq<char>, bytes: Seq<u8>)
    requires
        text.len() == bytes.len(),
        is_ascii_chars(text),
        forall|i: int| 0 <= i < text.len() ==> (#[trigger] text[i]) as u8 == bytes[i],
    ensures
        encode_utf8(text) == bytes,
{
    is_ascii_chars_encode_utf8(text);
    assert(encode_utf8(text) =~= bytes);
}

/// The header of an entry is one line with its ID, and with its mime type unless that is
/// empty.
pub proof fn lemma_header_names_entry(id: u64, mime_type: Seq<char>)
    ensures
        ({
            let intro = seq![45u8, 45, 45, 32, 69, 78, 84, 82, 89, 32];
            let outro = seq![32u8, 45, 45, 45, 10];
            let header = spec_header(id, mime_type);
            if mime_type.len() == 0 {
                exists|digits: Seq<u8>|
                    header == intro + digits + outro && #[trigger] crate::text::all_digits(digits)
                        && crate::text::digits_value(digits) == id
            } else {
                exists|digits: Seq<u8>|
                    header == intro + digits + seq![59u8, 32] + encode_utf8(mime_type) + outro
                        && #[trigger] crate::text::all_digits(digits)
                        && crate::text::digits_value(digits) == id
            }
        }),
{
    reveal_strlit("--- ENTRY ");
    reveal_strlit("; ");
    reveal_strlit(" ---\n");
    lemma_ascii_literal("--- ENTRY "@, seq![45u8, 45, 45, 32, 69, 78, 84, 82, 89, 32]);
    lemma_ascii_literal("; "@, seq![59u8, 32]);
    lemma_ascii_literal(" ---\n"@, seq![32u8, 45, 45, 45, 10]);
    let digits = crate::text::decimal(id as nat);
    crate::text::lemma_decimal_value(id as nat);
    let intro = seq![45u8, 45, 45, 32, 69, 78, 84, 82, 89, 32];
    let outro = seq![32u8, 45, 45, 45, 10];
    if mime_type.len() == 0 {
        assert(spec_header(id, mime_type) =~= intro + digits + outro);
    } else {
        assert(spec_header(id, mime_type) =~= intro + digits + seq![59u8, 32] + encode_utf8(
            mime_type,
        ) + outro);
    }
    assert(crate::text::all_digits(digits));
}

/// Whether a bucket is the one that holds an entry.
pub open spec fn is_in_bucket(entry: Entry, bucket: int) -> bool {
    entry.spec_kind() matches Kind::Bucket(metadata) && crate::utils::is_bucket_for(
        metadata.spec_size() as int,
        bucket,
    )
}

/// Whether a range was found in the slot that holds an entry. Slots are told apart by
/// their place in the bucket, and by the bucket in the lowest byte.
pub open spec fn is_hit(hits: Map<u32, (u16, u16)>, entry: Entry, start: usize, end: usize) -> bool {
    exists|bucket: int|
        {
            let key = (entry.spec_metadata().spec_index() * 0x100 + bucket) as u32;
            &&& #[trigger] is_in_bucket(entry, bucket)
            &&& hits.contains_key(key)
            &&& hits[key].0 == start
            &&& hits[key].1 == end
        }
}

proof fn lemma_is_hit(hits: Map<u32, (u16, u16)>, entry: Entry, start: usize, end: usize)
    ensures
        is_hit(hits, entry, start, end) == match entry.spec_kind() {
            Kind::File => false,
            Kind::Bucket(metadata) => {
                let key = crate::ui_actor::slot_key(
                    crate::utils::spec_size_to_bucket(metadata.spec_size() as int),
                    metadata.spec_index() as int,
                );
                hits.contains_key(key) && hits[key].0 == start && hits[key].1 == end
            },
        },
{
    if let Kind::Bucket(metadata) = entry.spec_kind() {
        let size = metadata.spec_size();
        let bucket = crate::utils::spec_size_to_bucket(size as int);
        crate::utils::lemma_bucket_exists(size);
        assert(is_in_bucket(entry, bucket));
        if is_hit(hits, entry, start, end) {
            let other = choose|b: int|
                {
                    let key = (entry.spec_metadata().spec_index() * 0x100 + b) as u32;
                    &&& #[trigger] is_in_bucket(entry, b)
                    &&& hits.contains_key(key)
                    &&& hits[key].0 == start
                    &&& hits[key].1 == end
                };
            crate::utils::lemma_bucket_unique(size as int, bucket, other);
        }
    }
}

/// The matches that are reported are those in slots that hold an entry, each with the
/// range that was found there, and none of them is left out.
pub proof fn lemma_hits_are_reported(
    hits: Map<u32, (u16, u16)>,
    entries: Seq<Entry>,
    entry: Entry,
    start: usize,
    end: usize,
)
    ensures
        select_hits(hits, entries).contains((entry, start, end)) <==> entries.contains(entry)
            && is_hit(hits, entry, start, end),
    decreases entries.len(),
{
    let found = select_hits(hits, entries);
    let item = (entry, start, end);
    if entries.len() > 0 {
        let rest = entries.drop_last();
        let last = entries.last();
        let fewer = select_hits(hits, rest);
        lemma_hits_are_reported(hits, rest, entry, start, end);
        lemma_is_hit(hits, entry, start, end);
        assert(entries =~= rest.push(last));
        assert(entries.contains(entry) <==> rest.contains(entry) || last == entry) by {
            if rest.contains(entry) {
                let j = choose|j: int| 0 <= j < rest.len() && rest[j] == entry;
                assert(entries[j] == entry);
            }
            assert(entries[entries.len() - 1] == last);
        }
        if found.len() > fewer.len() {
            assert(found.drop_last() =~= fewer);
            assert(found =~= fewer.push(found.last()));
            if fewer.contains(item) {
                let j = choose|j: int| 0 <= j < fewer.len() && fewer[j] == item;
                assert(found[j] == item);
            }
            assert(found[found.len() - 1] == found.last());
        }
    }
}

/// Entries are dumped oldest first, the favorites before the others, and looked at for
/// duplicates newest first, the favorites before the others.
pub proof fn lemma_orders(
    database: &DatabaseReader<'_>,
    dumped: Vec<Entry>,
    deduplicated: Vec<Entry>,
)
    requires
        call_ensures(dump_order, (database,), dumped),
        call_ensures(deduplication_order, (database,), deduplicated),
        crate::ring_reader::is_head_within(database.spec_favorites()),
        crate::ring_reader::is_head_within(database.spec_main()),
    ensures
        ({
            let favorites = crate::ring_reader::contents(
                database.spec_favorites(),
                RingKind::Favorites,
            );
            let main = crate::ring_reader::contents(database.spec_main(), RingKind::Main);
            &&& dumped@ == favorites + main
            &&& deduplicated@ == favorites.reverse() + main.reverse()
        }),
{
    crate::ring_reader::lemma_full_walk(database.spec_favorites(), RingKind::Favorites);
    crate::ring_reader::lemma_full_walk(database.spec_main(), RingKind::Main);
}

/// What was asked for is found as it was typed, with the whitespace around it, or in any case
/// if case is ignored; nothing else is.
pub proof fn lemma_typed_text_is_found(
    query: &str,
    ignore_case: bool,
    prepared: Result<(Matcher, Scope), RegexError>,
    haystack: &[u8],
    found: Option<(usize, usize)>,
)
    requires
        call_ensures(cli_query, (false, ignore_case, query), prepared),
        prepared matches Ok((matcher, _)) ==> call_ensures(
            Matcher::find,
            (&matcher, haystack),
            found,
        ),
    ensures
        prepared is Ok,
        prepared matches Ok((_, scope)) ==> scope == Scope::Contents,
        found matches Some((start, end)) ==> {
            let hit = haystack@.subrange(start as int, end as int);
            &&& start <= end <= haystack@.len()
            &&& crate::search::same_letters(hit, encode_utf8(query@))
            &&& !ignore_case ==> hit == encode_utf8(query@)
        },
        forall|before: Seq<u8>, after: Seq<u8>|
            haystack@ == #[trigger] (before + encode_utf8(query@) + after) ==> found is Some,
        ignore_case ==> forall|before: Seq<u8>, hit: Seq<u8>, after: Seq<u8>|
            #![trigger before + hit + after]
            haystack@ == before + hit + after && crate::search::same_letters(
                hit,
                encode_utf8(query@),
            ) ==> found is Some,
{
    let wanted = encode_utf8(query@);
    let matcher = prepared->Ok_0.0;
    assert(crate::search::same_letters(wanted, wanted));
    if ignore_case {
        let needle = matcher->IgnoreCase_0;
        let lower = crate::text::spec_ascii_lowercase(haystack@);
        if let Some((start, end)) = found {
            assert(crate::search::occurs_at(lower, needle@, start as int));
            let hit = haystack@.subrange(start as int, end as int);
            assert(crate::text::spec_ascii_lowercase(hit) =~= lower.subrange(
                start as int,
                end as int,
            ));
            crate::search::lemma_same_in_lower_case(hit, wanted);
        }
        assert forall|before: Seq<u8>, hit: Seq<u8>, after: Seq<u8>|
            #![trigger before + hit + after]
            haystack@ == before + hit + after && crate::search::same_letters(
                hit,
                wanted,
            ) implies found is Some by {
            let at = before.len() as int;
            crate::search::lemma_same_in_lower_case(hit, wanted);
            assert(haystack@.subrange(at, at + hit.len()) =~= hit);
            assert(lower.subrange(at, at + hit.len()) =~= crate::text::spec_ascii_lowercase(hit));
            assert(crate::search::occurs_at(lower, needle@, at));
        }
    } else {
        let needle = matcher->Plain_0;
        crate::search::lemma_plain_search(matcher, needle, haystack@, found);
    }
}

/// A swap has worked exactly if nothing was wrong with either entry; otherwise what was wrong
/// with the first one is told, or else what was with the second.
pub proof fn lemma_swap_outcome(response: SwapResponse, outcome: Result<(), IdNotFoundError>)
    requires
        call_ensures(swap_outcome, (response,), outcome),
    ensures
        outcome is Ok <==> response.error1 is None && response.error2 is None,
        response.error1 is Some ==> outcome is Err && response.error1 == Some(outcome->Err_0),
        response.error1 is None && response.error2 is Some ==> outcome is Err && response.error2
            == Some(outcome->Err_0),
{
}

/// A mime type that was given is kept, and a guess only goes by if it can be held.
pub proof fn lemma_mime_type_is_kept(guess: &str, mime: MimeType)
    requires
        call_ensures(mime_of_guess, (Some(guess),), mime),
    ensures
        encode_utf8(guess@).len() <= 96 ==> crate::protocol::mime_text(mime) == guess@,
        encode_utf8(guess@).len() > 96 ==> crate::protocol::mime_text(mime).len() == 0,
{
}

} // verus!
