//! The worker behind the graphical clients: what each command of the user
//! interface comes to.

use std::collections::HashMap;

use image::ImageError;
use regex::Error as RegexError;
use vstd::multiset::*;
use vstd::prelude::*;

use crate::protocol::{IdNotFoundError, MoveToFrontResponse, RemoveResponse, RingKind};
use crate::ring::{Ring, MAX_ENTRIES};
use crate::ring_reader::{DatabaseReader, Entry, Kind, RingReader};
use crate::search::{regex_new, CaselessQuery, EntryLocation, Matcher, Query, QueryResult, Scope};
use crate::ui_entry::UiEntry;
use crate::utils::size_to_bucket;
use crate::views::{BucketAndIndex, RingAndIndex};

verus! {

/// How many entries of the main ring make up the first page.
pub const FIRST_PAGE_LEN: usize = 100;

/// How many search results are shown.
pub const MAX_SEARCH_ENTRIES: usize = 256;

/// How a search query is to be understood.
#[derive(Copy, Clone, Eq, PartialEq, Hash, Debug, Structural)]
pub enum SearchKind {
    Plain,
    Regex,
    Mime,
}

impl Default for SearchKind {
    fn default() -> (kind: SearchKind)
        ensures
            kind == SearchKind::Plain,
    {
        SearchKind::Plain
    }
}

/// What the user interface asks for.
#[derive(Debug)]
pub enum Command {
    LoadFirstPage,
    GetDetails { id: u64, with_text: bool },
    Favorite(u64),
    Unfavorite(u64),
    Delete(u64),
    Search { query: String, kind: SearchKind },
    LoadImage(u64),
    Paste(u64),
}

/// Why a command failed.
#[derive(Debug)]
pub enum CommandError {
    IdNotFound(IdNotFoundError),
    Regex(RegexError),
    Image(ImageError),
}

/// The mime type and text of an entry.
#[derive(Debug)]
pub struct DetailedEntry {
    pub mime_type: String,
    pub full_text: Option<String>,
}

/// The pixels of an image, row by row, each with its red, green, blue and opacity.
#[derive(Debug)]
pub struct DecodedImage {
    pub width: u32,
    pub height: u32,
    pub rgba: Vec<u8>,
}

/// What the user interface is told. Errors come with what to show of them.
#[allow(inconsistent_fields)]
pub enum Message {
    FatalDbOpen(String),
    Error(String),
    LoadedFirstPage { entries: Vec<UiEntry>, default_focused_id: Option<u64> },
    EntryDetails { id: u64, result: Result<DetailedEntry, String> },
    SearchResults(Vec<UiEntry>),
    FavoriteChange(u64),
    Deleted(u64),
    LoadedImage { id: u64, image: DecodedImage },
    Pasted,
}

/// The length that a ring is given once its write head is known: if the head is
/// behind the end, the ring must have filled up.
pub open spec fn refreshed_len(ring: Ring) -> u32 {
    if ring.spec_write_head() < ring.spec_len() {
        ring.spec_capacity()
    } else {
        ring.spec_write_head()
    }
}

/// Brings the length of a ring up to date with its write head.
pub fn refresh_ring(ring: &mut Ring<'_>)
    requires
        old(ring).wf(),
        old(ring).spec_capacity() > 0,
        old(ring).spec_write_head() <= old(ring).spec_capacity(),
    ensures
        final(ring).wf(),
        final(ring).mem() == old(ring).mem(),
        final(ring).spec_capacity() == old(ring).spec_capacity(),
        final(ring).spec_len() == refreshed_len(*old(ring)),
        crate::ring_reader::is_settled(*final(ring)),
{
    let head: u32 = ring.write_head();
    if head < ring.len() {
        let capacity: u32 = ring.capacity();
        ring.set_len(capacity);
    } else if head > ring.len() {
        ring.set_len(head);
    }
}

/// Whether one database is the other with the lengths of its rings brought up to
/// date.
pub open spec fn is_refreshed(before: DatabaseReader, after: DatabaseReader) -> bool {
    &&& after.wf()
    &&& forall|kind: RingKind|
        {
            let ring = #[trigger] after.spec_ring(kind);
            &&& ring.mem() == before.spec_ring(kind).mem()
            &&& ring.spec_capacity() == before.spec_ring(kind).spec_capacity()
            &&& ring.spec_len() == refreshed_len(before.spec_ring(kind))
            &&& crate::ring_reader::is_settled(ring)
        }
}

/// The write heads of both rings lie in the rings.
pub open spec fn heads_in_range(database: DatabaseReader) -> bool {
    &&& database.spec_main().spec_write_head() <= database.spec_main().spec_capacity()
    &&& database.spec_favorites().spec_write_head() <= database.spec_favorites().spec_capacity()
}

/// Brings the lengths of both rings up to date.
pub fn refresh(database: &mut DatabaseReader<'_>)
    requires
        old(database).wf(),
        heads_in_range(*old(database)),
    ensures
        is_refreshed(*old(database), *final(database)),
{
    refresh_ring(database.favorites_ring_mut());
    refresh_ring(database.main_ring_mut());
    assert(database.spec_ring(RingKind::Main) == database.spec_main());
    assert(database.spec_ring(RingKind::Favorites) == database.spec_favorites());
}

/// Appends the newest entries of a walk, newest first, at most `limit` of them.
pub(crate) fn take_newest(walk: RingReader<'_, '_>, limit: Option<usize>, entries: &mut Vec<Entry>)
    requires
        walk.wf(),
    ensures
        final(entries)@ == old(entries)@ + match limit {
            Some(limit) if limit < walk.remaining_back().len() => walk.remaining_back().take(
                limit as int,
            ),
            _ => walk.remaining_back(),
        },
{
    let ghost all = walk.remaining_back();
    let mut reader = walk;
    let mut taken: usize = 0;
    assert(all.skip(0) =~= all);
    assert(all.take(0) =~= Seq::<Entry>::empty());
    loop
        invariant
            reader.wf(),
            all == walk.remaining_back(),
            taken <= all.len(),
            limit matches Some(limit) ==> taken <= limit,
            reader.remaining_back() == all.skip(taken as int),
            entries@ == old(entries)@ + all.take(taken as int),
        decreases all.len() - taken,
    {
        if let Some(limit) = limit {
            if taken == limit {
                assert(all.take(all.len() as int) =~= all);
                return;
            }
        }
        match reader.next_back() {
            None => {
                assert(all.take(all.len() as int) =~= all);
                return;
            },
            Some(entry) => {
                assert(entry == all[taken as int]);
                assert(all.skip(taken as int).drop_first() =~= all.skip(taken + 1));
                entries.push(entry);
                assert(all.take(taken + 1) =~= all.take(taken as int).push(entry));
                assert(entries@ =~= old(entries)@ + all.take(taken + 1));
                assert(entries@.len() == entries.len());
                taken += 1;
            },
        }
    }
}

/// The newest entries of a ring, newest first.
pub open spec fn newest_first(ring: Ring, kind: RingKind) -> Seq<Entry> {
    crate::ring_reader::contents(ring, kind).reverse()
}

/// At most the first `n` entries.
pub open spec fn at_most(entries: Seq<Entry>, n: int) -> Seq<Entry> {
    if entries.len() <= n {
        entries
    } else {
        entries.take(n)
    }
}

/// The first page: all favorites, then the newest entries, newest first.
pub open spec fn first_page(database: DatabaseReader) -> Seq<Entry> {
    newest_first(database.spec_favorites(), RingKind::Favorites) + at_most(
        newest_first(database.spec_main(), RingKind::Main),
        FIRST_PAGE_LEN as int,
    )
}

/// The entry that has the focus at first: the one before the current clipboard,
/// or the current one, or the newest favorite.
pub open spec fn default_focus(database: DatabaseReader) -> Option<u64> {
    let main = newest_first(database.spec_main(), RingKind::Main);
    let favorites = newest_first(database.spec_favorites(), RingKind::Favorites);
    if main.len() >= 2 {
        Some(main[1].spec_id())
    } else if main.len() == 1 {
        Some(main[0].spec_id())
    } else if favorites.len() > 0 {
        Some(favorites[0].spec_id())
    } else {
        None
    }
}

/// Loads the first page and tells which entry has the focus.
pub fn load_first_page(database: &mut DatabaseReader<'_>) -> (page: (Vec<Entry>, Option<u64>))
    requires
        old(database).wf(),
        heads_in_range(*old(database)),
    ensures
        is_refreshed(*old(database), *final(database)),
        page.0@ == first_page(*final(database)),
        page.1 == default_focus(*final(database)),
{
    refresh(database);
    assert(database.spec_ring(RingKind::Main) == database.spec_main());
    assert(database.spec_ring(RingKind::Favorites) == database.spec_favorites());
    let mut entries: Vec<Entry> = Vec::new();
    take_newest(database.favorites(), None, &mut entries);
    take_newest(database.main(), Some(FIRST_PAGE_LEN), &mut entries);
    assert(entries@ =~= first_page(*database));
    let mut main = database.main();
    let first = main.next_back();
    let second = main.next_back();
    let focused = match second {
        Some(entry) => Some(entry),
        None => match first {
            Some(entry) => Some(entry),
            None => database.favorites().next_back(),
        },
    };
    let id = match focused {
        Some(entry) => Some(entry.id()),
        None => None,
    };
    (entries, id)
}

/// The first page shows all favorites and then the newest entries of the main ring, a
/// hundred at most, each part newest first: no entry that is left out is newer than one
/// of the main ring that is shown.
pub proof fn lemma_first_page_is_newest(database: DatabaseReader)
    requires
        database.wf(),
        crate::ring_reader::is_head_within(database.spec_favorites()),
        crate::ring_reader::is_head_within(database.spec_main()),
    ensures
        ({
            let page = first_page(database);
            let favorites = crate::ring_reader::num_initialized(
                database.spec_favorites(),
                database.spec_favorites().spec_len() as nat,
            );
            let main = crate::ring_reader::num_initialized(
                database.spec_main(),
                database.spec_main().spec_len() as nat,
            );
            &&& page.no_duplicates()
            &&& page.len() == favorites + if main <= 100 {
                main
            } else {
                100
            }
            &&& forall|i: int|
                0 <= i < page.len() ==> {
                    let entry = #[trigger] page[i];
                    &&& entry.spec_ring() == if i < favorites {
                        RingKind::Favorites
                    } else {
                        RingKind::Main
                    }
                    &&& crate::ring_reader::spec_entry_at(
                        database.spec_ring(entry.spec_ring()),
                        entry.spec_ring(),
                        entry.spec_index(),
                    ) == Some(entry)
                }
            &&& forall|i: int, j: int|
                0 <= i < j < page.len() && (#[trigger] page[i]).spec_ring() == (
                #[trigger] page[j]).spec_ring() ==> crate::ring_reader::written_after(
                    database.spec_ring(page[i].spec_ring()),
                    page[i].spec_index(),
                ) < crate::ring_reader::written_after(
                    database.spec_ring(page[j].spec_ring()),
                    page[j].spec_index(),
                )
            &&& forall|index: u32|
                (#[trigger] crate::ring_reader::spec_entry_at(
                    database.spec_favorites(),
                    RingKind::Favorites,
                    index,
                )) matches Some(entry) ==> page.contains(entry)
            &&& forall|index: u32, i: int|
                (#[trigger] crate::ring_reader::spec_entry_at(
                    database.spec_main(),
                    RingKind::Main,
                    index,
                )) matches Some(entry) ==> page.contains(entry) || (favorites <= i < page.len()
                    ==> crate::ring_reader::written_after(
                    database.spec_main(),
                    (#[trigger] page[i]).spec_index(),
                ) < crate::ring_reader::written_after(database.spec_main(), index))
        }),
{
    let page = first_page(database);
    let favorites = crate::ring_reader::contents(database.spec_favorites(), RingKind::Favorites);
    let main = crate::ring_reader::contents(database.spec_main(), RingKind::Main);
    crate::ring_reader::lemma_contents_len(database.spec_favorites(), RingKind::Favorites);
    crate::ring_reader::lemma_contents_len(database.spec_main(), RingKind::Main);
    crate::ring_reader::lemma_contents_complete(database.spec_favorites(), RingKind::Favorites);
    crate::ring_reader::lemma_contents_complete(database.spec_main(), RingKind::Main);
    let f = favorites.len() as int;
    let m = main.len() as int;
    assert forall|i: int| 0 <= i < page.len() implies #[trigger] page[i] == if i < f {
        favorites[f - 1 - i]
    } else {
        main[m - 1 - (i - f)]
    } by {
    }
    assert forall|i: int| 0 <= i < page.len() implies {
        let entry = #[trigger] page[i];
        &&& entry.spec_ring() == if i < f {
            RingKind::Favorites
        } else {
            RingKind::Main
        }
        &&& crate::ring_reader::spec_entry_at(
            database.spec_ring(entry.spec_ring()),
            entry.spec_ring(),
            entry.spec_index(),
        ) == Some(entry)
    } by {
        if i < f {
            assert(favorites.contains(page[i]));
        } else {
            assert(main.contains(page[i]));
        }
    }
    assert forall|i: int, j: int|
        0 <= i < j < page.len() && (#[trigger] page[i]).spec_ring() == (
        #[trigger] page[j]).spec_ring() implies crate::ring_reader::written_after(
        database.spec_ring(page[i].spec_ring()),
        page[i].spec_index(),
    ) < crate::ring_reader::written_after(
        database.spec_ring(page[j].spec_ring()),
        page[j].spec_index(),
    ) by {
        if j < f {
            crate::ring_reader::lemma_contents_oldest_first(
                database.spec_favorites(),
                RingKind::Favorites,
                f - 1 - j,
                f - 1 - i,
            );
        } else {
            crate::ring_reader::lemma_contents_oldest_first(
                database.spec_main(),
                RingKind::Main,
                m - 1 - (j - f),
                m - 1 - (i - f),
            );
        }
    }
    assert forall|i: int, j: int| 0 <= i < j < page.len() implies page[i] != page[j] by {
        if page[i].spec_ring() == page[j].spec_ring() {
            assert(page[i].spec_index() != page[j].spec_index());
        }
    }
    assert forall|index: u32|
        (#[trigger] crate::ring_reader::spec_entry_at(
            database.spec_favorites(),
            RingKind::Favorites,
            index,
        )) is Some implies page.contains(
        crate::ring_reader::spec_entry_at(
            database.spec_favorites(),
            RingKind::Favorites,
            index,
        )->0,
    ) by {
        let entry = crate::ring_reader::spec_entry_at(
            database.spec_favorites(),
            RingKind::Favorites,
            index,
        )->0;
        let k = choose|k: int| 0 <= k < f && favorites[k] == entry;
        assert(page[f - 1 - k] == entry);
    }
    assert forall|index: u32, i: int|
        (#[trigger] crate::ring_reader::spec_entry_at(
            database.spec_main(),
            RingKind::Main,
            index,
        )) is Some && !page.contains(
            crate::ring_reader::spec_entry_at(database.spec_main(), RingKind::Main, index)->0,
        ) && f <= i < page.len() implies crate::ring_reader::written_after(
        database.spec_main(),
        (#[trigger] page[i]).spec_index(),
    ) < crate::ring_reader::written_after(database.spec_main(), index) by {
        let entry = crate::ring_reader::spec_entry_at(
            database.spec_main(),
            RingKind::Main,
            index,
        )->0;
        crate::ring_reader::lemma_entry_at(database.spec_main(), RingKind::Main, index);
        let k = choose|k: int| 0 <= k < m && main[k] == entry;
        let at = f + m - 1 - k;
        if at < page.len() {
            assert(page[at] == entry);
        }
        crate::ring_reader::lemma_contents_oldest_first(
            database.spec_main(),
            RingKind::Main,
            k,
            m - 1 - (i - f),
        );
    }
}

/// The entry that has the focus is on the first page: the second newest one of the main
/// ring, or its only one, or else the newest favorite. There is none only if there are no
/// entries.
pub proof fn lemma_focus_is_on_page(database: DatabaseReader)
    requires
        database.wf(),
        crate::ring_reader::is_head_within(database.spec_favorites()),
        crate::ring_reader::is_head_within(database.spec_main()),
    ensures
        ({
            let page = first_page(database);
            let favorites = crate::ring_reader::num_initialized(
                database.spec_favorites(),
                database.spec_favorites().spec_len() as nat,
            );
            match default_focus(database) {
                None => page.len() == 0,
                Some(id) => if page.len() >= favorites + 2 {
                    id == page[favorites as int + 1].spec_id()
                } else {
                    page.len() > 0 && id == page[if page.len() > favorites {
                        favorites as int
                    } else {
                        0
                    }].spec_id()
                },
            }
        }),
{
    crate::ring_reader::lemma_contents_len(database.spec_favorites(), RingKind::Favorites);
    crate::ring_reader::lemma_contents_len(database.spec_main(), RingKind::Main);
}

/// The key of a bucket's slot in the reverse index.
pub open spec fn slot_key(bucket: int, index: int) -> u32 {
    (index * 0x100 + bucket) as u32
}

/// The reverse index with one more entry: which entry is kept in which slot.
pub open spec fn index_entry(index: Map<u32, RingAndIndex>, entry: Entry) -> Map<
    u32,
    RingAndIndex,
> {
    match entry.spec_kind() {
        Kind::File => index,
        Kind::Bucket(metadata) => index.insert(
            slot_key(
                crate::utils::spec_size_to_bucket(metadata.spec_size() as int),
                metadata.spec_index() as int,
            ),
            entry.spec_rai(),
        ),
    }
}

/// The reverse index of some entries; of two entries in one slot, the later one
/// counts.
pub open spec fn index_entries(entries: Seq<Entry>) -> Map<u32, RingAndIndex>
    decreases entries.len(),
{
    if entries.len() == 0 {
        Map::empty()
    } else {
        index_entry(index_entries(entries.drop_last()), entries.last())
    }
}

/// The reverse index of a database.
pub open spec fn reverse_index(database: DatabaseReader) -> Map<u32, RingAndIndex> {
    index_entries(
        crate::ring_reader::contents(database.spec_favorites(), RingKind::Favorites)
            + crate::ring_reader::contents(database.spec_main(), RingKind::Main),
    )
}

/// Adds the entries of a walk to a reverse index.
fn index_walk(walk: RingReader<'_, '_>, index: &mut HashMap<u32, RingAndIndex>, Ghost(before): Ghost<
    Seq<Entry>,
>)
    requires
        walk.wf(),
        old(index)@ == index_entries(before),
    ensures
        final(index)@ == index_entries(before + walk.remaining()),
{
    broadcast use vstd::std_specs::hash::group_hash_axioms;

    let ghost all = walk.remaining();
    let ghost mut taken: int = 0;
    let mut reader = walk;
    assert(all.skip(0) =~= all);
    assert(before + all.take(0) =~= before);
    loop
        invariant
            reader.wf(),
            all == walk.remaining(),
            0 <= taken <= all.len(),
            reader.remaining() == all.skip(taken),
            index@ == index_entries(before + all.take(taken)),
        decreases all.len() - taken,
    {
        broadcast use vstd::std_specs::hash::group_hash_axioms;

        match reader.next() {
            None => {
                assert(all.take(taken) =~= all);
                return;
            },
            Some(entry) => {
                let ghost longer = before + all.take(taken + 1);
                proof {
                    assert(all.skip(taken).drop_first() =~= all.skip(taken + 1));
                    assert(longer.drop_last() =~= before + all.take(taken));
                    assert(longer.last() == entry);
                }
                if let Kind::Bucket(metadata) = entry.kind() {
                    let bucket: u8 = size_to_bucket(metadata.size());
                    let key: u32 = BucketAndIndex::new(bucket, metadata.index()).packed();
                    index.insert(key, entry.rai());
                }
                proof {
                    taken = taken + 1;
                }
            },
        }
    }
}

/// How long ago an entry was written, up to wrapping: the distance of its index
/// from the newest one.
pub open spec fn rank_index(newest: u32, index: u32) -> u32 {
    ((newest - index) % 0x10_0000) as u32
}

fn compute_rank_index(newest: u32, index: u32) -> (rank: u32)
    ensures
        rank == rank_index(newest, index),
        rank <= MAX_ENTRIES,
{
    let distance: u32 = newest.wrapping_sub(index);
    assert(distance & 0xf_ffff == distance % 0x10_0000) by (bit_vector);
    assert(distance % 0x10_0000 == (newest - index) % 0x10_0000) by {
        if newest < index {
            assert(distance == newest - index + 0x1_0000_0000);
        }
    }
    distance & MAX_ENTRIES
}

/// Ranking an index twice gives it back.
pub proof fn lemma_rank_is_involution(newest: u32, index: u32)
    requires
        index <= MAX_ENTRIES,
    ensures
        rank_index(newest, rank_index(newest, index)) == index,
{
    let rank = rank_index(newest, index);
    assert((newest - rank) % 0x10_0000 == index as int % 0x10_0000) by {
        let k = (newest - index) / 0x10_0000;
        assert(newest - index == 0x10_0000 * k + rank);
        assert(newest - rank == 0x10_0000 * k + index);
    }
}

/// The index of the newest entry of a ring.
pub open spec fn newest_index(ring: Ring) -> u32 {
    ring.spec_prev_entry(ring.spec_write_head())
}

/// How many entries of a settled ring were written after the one at `index`.
pub open spec fn age(ring: Ring, index: u32) -> int {
    if index <= newest_index(ring) {
        newest_index(ring) - index
    } else {
        newest_index(ring) - index + ring.spec_len()
    }
}

/// Within a settled ring, ranks are ordered as ages are.
pub proof fn lemma_rank_orders_by_age(ring: Ring, a: u32, b: u32)
    requires
        crate::ring_reader::is_settled(ring),
        a < ring.spec_len(),
        b < ring.spec_len(),
    ensures
        age(ring, a) < age(ring, b) <==> rank_index(newest_index(ring), a) < rank_index(
            newest_index(ring),
            b,
        ),
        0 <= age(ring, a) < ring.spec_len(),
{
    let newest = newest_index(ring);
    assert(newest < ring.spec_len());
    assert(rank_index(newest, a) == if a <= newest {
        newest - a
    } else {
        newest - a + 0x10_0000
    });
    assert(rank_index(newest, b) == if b <= newest {
        newest - b
    } else {
        newest - b + 0x10_0000
    });
}

/// A search result by its rank: the newer, the lower.
#[derive(Copy, Clone, Eq, PartialEq, Debug, Structural)]
pub struct SearchEntry {
    /// The ring of the entry, and the rank of its index.
    pub rai: RingAndIndex,
    pub start: usize,
    pub end: usize,
}

impl SearchEntry {
    /// Results are ordered by rank, and favorites come first among equals.
    pub open spec fn order(self) -> u32 {
        self.rai.raw()
    }
}

/// Whether results are in order.
pub open spec fn in_order(items: Seq<SearchEntry>) -> bool {
    forall|i: int, j: int|
        0 <= i < j < items.len() ==> (#[trigger] items[i]).order() <= (#[trigger] items[j]).order()
}

/// Whether `items` are the lowest of the results seen, in order, up to the limit.
pub open spec fn are_top(items: Seq<SearchEntry>, seen: Seq<SearchEntry>) -> bool {
    &&& in_order(items)
    &&& items.len() == if seen.len() < MAX_SEARCH_ENTRIES {
        seen.len()
    } else {
        MAX_SEARCH_ENTRIES as nat
    }
    &&& items.to_multiset().subset_of(seen.to_multiset())
    &&& forall|left_out: SearchEntry, i: int|
        #![trigger seen.to_multiset().sub(items.to_multiset()).count(left_out), items[i]]
        seen.to_multiset().sub(items.to_multiset()).count(left_out) > 0 && 0 <= i < items.len()
            ==> items[i].order() <= left_out.order()
}

proof fn lemma_multiset_insert(items: Seq<SearchEntry>, at: int, item: SearchEntry)
    requires
        0 <= at <= items.len(),
    ensures
        items.insert(at, item).to_multiset() == items.to_multiset().insert(item),
{
    broadcast use vstd::seq_lib::group_to_multiset_ensures;

    let longer = items.insert(at, item);
    assert(longer.remove(at) =~= items);
    assert(longer[at] == item);
    assert(longer.to_multiset().remove(item) == items.to_multiset());
    assert(longer.contains(item));
    assert(longer.to_multiset().count(item) > 0);
    assert(longer.to_multiset() =~= items.to_multiset().insert(item));
}

/// The best results so far.
pub struct TopResults {
    items: Vec<SearchEntry>,
    seen: Ghost<Seq<SearchEntry>>,
}

impl TopResults {
    /// The results that are kept, in order.
    pub closed spec fn spec_items(self) -> Seq<SearchEntry> {
        self.items@
    }

    /// All the results, as they came.
    pub closed spec fn spec_seen(self) -> Seq<SearchEntry> {
        self.seen@
    }

    pub open spec fn wf(self) -> bool {
        are_top(self.spec_items(), self.spec_seen())
    }

    pub fn new() -> (top: TopResults)
        ensures
            top.wf(),
            top.spec_seen() == Seq::<SearchEntry>::empty(),
            top.spec_items() == Seq::<SearchEntry>::empty(),
    {
        broadcast use vstd::seq_lib::group_to_multiset_ensures;

        let top = TopResults { items: Vec::new(), seen: Ghost(Seq::empty()) };
        assert(top.items@.to_multiset() =~= top.seen@.to_multiset());
        top
    }

    /// Adds a result, unless there are enough that rank no higher.
    #[verifier::rlimit(60)]
    #[verifier::spinoff_prover]
    pub fn push(&mut self, item: SearchEntry)
        requires
            old(self).wf(),
        ensures
            final(self).wf(),
            final(self).spec_seen() == old(self).spec_seen().push(item),
    {
        broadcast use vstd::seq_lib::group_to_multiset_ensures;

        let ghost before = self.items@;
        let ghost seen = self.seen@;
        let ghost now = seen.push(item);
        assert(now.to_multiset() == seen.to_multiset().insert(item));
        if self.items.len() == MAX_SEARCH_ENTRIES {
            let last = self.items[MAX_SEARCH_ENTRIES - 1];
            if item.rai.packed() >= last.rai.packed() {
                self.seen = Ghost(now);
                proof {
                    assert forall|left_out: SearchEntry, i: int|
                        #![trigger now.to_multiset().sub(before.to_multiset()).count(left_out), before[i]]
                        now.to_multiset().sub(before.to_multiset()).count(left_out) > 0 && 0 <= i
                            < before.len() implies before[i].order() <= left_out.order() by {
                        if left_out == item {
                            assert(before[i].order() <= before[before.len() - 1].order());
                        } else {
                            assert(seen.to_multiset().sub(before.to_multiset()).count(left_out)
                                > 0);
                        }
                    }
                }
                return;
            }
            let _ = self.items.pop();
        }
        let ghost kept = self.items@;
        let mut at: usize = self.items.len();
        while at > 0 && item.rai.packed() < self.items[at - 1].rai.packed()
            invariant
                self.items@ == kept,
                self.seen@ == seen,
                at <= kept.len(),
                forall|i: int| at <= i < kept.len() ==> item.order() < (#[trigger] kept[i]).order(),
            decreases at,
        {
            at -= 1;
        }
        self.items.insert(at, item);
        self.seen = Ghost(now);
        proof {
            let after = self.items@;
            lemma_multiset_insert(kept, at as int, item);
            assert(in_order(kept));
            assert forall|i: int| 0 <= i < at implies (#[trigger] kept[i]).order()
                <= item.order() by {
                if i < at - 1 {
                    assert(kept[i].order() <= kept[at - 1].order());
                }
            }
            assert(in_order(after)) by {
                assert forall|i: int, j: int| 0 <= i < j < after.len() implies (
                #[trigger] after[i]).order() <= (#[trigger] after[j]).order() by {
                    let ki = if i < at {
                        i
                    } else {
                        i - 1
                    };
                    let kj = if j < at {
                        j
                    } else {
                        j - 1
                    };
                    if i != at {
                        assert(after[i] == kept[ki]);
                    }
                    if j != at {
                        assert(after[j] == kept[kj]);
                    }
                }
            }
            if before.len() == MAX_SEARCH_ENTRIES {
                let dropped = before.last();
                assert(kept =~= before.drop_last());
                assert(before =~= kept.push(dropped));
                assert(before.to_multiset() == kept.to_multiset().insert(dropped));
                assert(after.to_multiset() == kept.to_multiset().insert(item));
                assert forall|x: SearchEntry| after.to_multiset().count(x)
                    <= now.to_multiset().count(x) by {
                    assert(before.to_multiset().count(x) <= seen.to_multiset().count(x));
                }
                assert forall|left_out: SearchEntry, i: int|
                    #![trigger now.to_multiset().sub(after.to_multiset()).count(left_out), after[i]]
                    now.to_multiset().sub(after.to_multiset()).count(left_out) > 0 && 0 <= i
                        < after.len() implies after[i].order() <= left_out.order() by {
                    assert(after.contains(after[i]));
                    if left_out == dropped {
                        if i != at {
                            let k = if i < at {
                                i
                            } else {
                                i - 1
                            };
                            assert(after[i] == before[k]);
                            assert(before[k].order() <= before[before.len() - 1].order());
                        }
                    } else {
                        assert(before.to_multiset().count(left_out) <= seen.to_multiset().count(
                            left_out,
                        ));
                        assert(seen.to_multiset().sub(before.to_multiset()).count(left_out) > 0);
                        assert(before[before.len() - 1].order() <= left_out.order());
                        if i != at {
                            let k = if i < at {
                                i
                            } else {
                                i - 1
                            };
                            assert(after[i] == before[k]);
                        }
                    }
                }
            } else {
                assert(kept == before);
                assert(seen.len() == before.len());
                lemma_same_size_same_multiset(before, seen);
                assert(after.to_multiset() == now.to_multiset());
            }
        }
    }
}

proof fn lemma_same_size_same_multiset(items: Seq<SearchEntry>, seen: Seq<SearchEntry>)
    requires
        items.len() == seen.len(),
        items.to_multiset().subset_of(seen.to_multiset()),
    ensures
        items.to_multiset() == seen.to_multiset(),
{
    broadcast use vstd::seq_lib::group_to_multiset_ensures;

    let rest = seen.to_multiset().sub(items.to_multiset());
    assert(rest.len() == 0);
    assert forall|x: SearchEntry| items.to_multiset().count(x) == seen.to_multiset().count(x) by {
        if rest.count(x) > 0 {
            assert(rest.len() > 0);
        }
    }
    assert(items.to_multiset() =~= seen.to_multiset());
}

/// Whether a ring can hold an entry at an index.
pub open spec fn in_range(database: DatabaseReader, kind: RingKind, index: u32) -> bool {
    index < database.spec_ring(kind).spec_capacity()
}

/// Whether the place that a search names can be one of the database.
pub open spec fn location_in_range(database: DatabaseReader, location: EntryLocation) -> bool {
    match location {
        EntryLocation::Bucketed { index, .. } => index <= MAX_ENTRIES,
        EntryLocation::File { entry_id } => crate::protocol::spec_decompose_id(
            entry_id,
        ) matches Ok(parts) ==> in_range(database, parts.0, parts.1),
    }
}

/// Whether the place that a search names can be one of the database.
pub fn is_location_in_range(database: &DatabaseReader<'_>, location: EntryLocation) -> (ok: bool)
    ensures
        ok == location_in_range(*database, location),
{
    match location {
        EntryLocation::Bucketed { index, .. } => index <= MAX_ENTRIES,
        EntryLocation::File { entry_id } => database.is_id_in_range(entry_id),
    }
}

/// Whether `resolved` is the entry at a place that a search names, or why there
/// is none.
pub open spec fn resolves(
    index: Map<u32, RingAndIndex>,
    location: EntryLocation,
    resolved: Result<RingAndIndex, IdNotFoundError>,
) -> bool {
    match location {
        EntryLocation::Bucketed { bucket, index: slot } => {
            let key = slot_key(bucket as int, slot as int);
            if index.contains_key(key) {
                resolved == Ok::<RingAndIndex, IdNotFoundError>(index[key])
            } else {
                resolved == Err::<RingAndIndex, IdNotFoundError>(IdNotFoundError::Entry(key))
            }
        },
        EntryLocation::File { entry_id } => match (
            crate::protocol::spec_decompose_id(entry_id),
            resolved,
        ) {
            (Ok(parts), Ok(rai)) => rai.wf() && rai.is(parts.0, parts.1),
            (Err(expected), Err(error)) => expected == error,
            _ => false,
        },
    }
}

/// Whether an entry is kept in a slot of a bucket.
pub open spec fn is_kept_in(entry: Entry, bucket: int, slot: int) -> bool {
    entry.spec_kind() matches Kind::Bucket(metadata) && metadata.spec_index() == slot
        && crate::utils::is_bucket_for(metadata.spec_size() as int, bucket)
}

/// Whether an entry of a list that is kept in a slot stands at a place.
pub open spec fn is_keeper(entries: Seq<Entry>, rai: RingAndIndex, bucket: int, slot: int) -> bool {
    exists|i: int|
        0 <= i < entries.len() && is_kept_in(#[trigger] entries[i], bucket, slot)
            && entries[i].spec_rai() == rai
}

proof fn lemma_indexed(entries: Seq<Entry>, bucket: u8, slot: u32)
    requires
        slot <= MAX_ENTRIES,
    ensures
        ({
            let index = index_entries(entries);
            let key = (slot * 0x100 + bucket) as u32;
            if exists|i: int|
                0 <= i < entries.len() && is_kept_in(
                    #[trigger] entries[i],
                    bucket as int,
                    slot as int,
                ) {
                index.contains_key(key) && is_keeper(
                    entries,
                    index[key],
                    bucket as int,
                    slot as int,
                )
            } else {
                !index.contains_key(key)
            }
        }),
    decreases entries.len(),
{
    if entries.len() > 0 {
        let rest = entries.drop_last();
        let last = entries.last();
        let key = (slot * 0x100 + bucket) as u32;
        lemma_indexed(rest, bucket, slot);
        assert forall|i: int| 0 <= i < rest.len() implies #[trigger] rest[i] == entries[i] by {
        }
        if let Kind::Bucket(metadata) = last.spec_kind() {
            let size = metadata.spec_size();
            let at = crate::utils::spec_size_to_bucket(size as int);
            crate::utils::lemma_bucket_exists(size);
            if is_kept_in(last, bucket as int, slot as int) {
                crate::utils::lemma_bucket_unique(size as int, bucket as int, at);
                assert(entries[entries.len() - 1] == last);
            } else {
                assert(slot_key(at, metadata.spec_index() as int) != key);
            }
        }
        if is_keeper(rest, index_entries(rest)[key], bucket as int, slot as int) {
            let i = choose|i: int|
                0 <= i < rest.len() && is_kept_in(#[trigger] rest[i], bucket as int, slot as int)
                    && rest[i].spec_rai() == index_entries(rest)[key];
            assert(is_kept_in(entries[i], bucket as int, slot as int));
        }
        if exists|i: int|
            0 <= i < entries.len() && is_kept_in(
                #[trigger] entries[i],
                bucket as int,
                slot as int,
            ) {
            let i = choose|i: int|
                0 <= i < entries.len() && is_kept_in(
                    #[trigger] entries[i],
                    bucket as int,
                    slot as int,
                );
            if i < rest.len() {
                assert(is_kept_in(rest[i], bucket as int, slot as int));
            }
        }
    }
}

/// Whether a ring holds an entry in a slot of a bucket at some index.
pub open spec fn holds_in_slot(
    database: DatabaseReader,
    kind: RingKind,
    index: u32,
    bucket: int,
    slot: int,
) -> bool {
    crate::ring_reader::spec_entry_at(database.spec_ring(kind), kind, index) matches Some(entry)
        && is_kept_in(entry, bucket, slot)
}

/// A match in the slot of any entry, favorite or not, is resolved to an entry that is
/// kept in that slot; a match in a slot that no entry is kept in is not.
pub proof fn lemma_every_match_is_resolved(
    database: DatabaseReader,
    bucket: u8,
    slot: u32,
    resolved: Result<RingAndIndex, IdNotFoundError>,
)
    requires
        database.wf(),
        crate::ring_reader::is_head_within(database.spec_favorites()),
        crate::ring_reader::is_head_within(database.spec_main()),
        slot <= MAX_ENTRIES,
        resolves(
            reverse_index(database),
            EntryLocation::Bucketed { bucket, index: slot },
            resolved,
        ),
    ensures
        match resolved {
            Ok(rai) => rai.wf() && holds_in_slot(
                database,
                rai.spec_ring(),
                rai.spec_index(),
                bucket as int,
                slot as int,
            ),
            Err(_) => forall|kind: RingKind, index: u32|
                !#[trigger] holds_in_slot(database, kind, index, bucket as int, slot as int),
        },
{
    let favorites = crate::ring_reader::contents(database.spec_favorites(), RingKind::Favorites);
    let main = crate::ring_reader::contents(database.spec_main(), RingKind::Main);
    crate::ring_reader::lemma_contents_complete(database.spec_favorites(), RingKind::Favorites);
    crate::ring_reader::lemma_contents_complete(database.spec_main(), RingKind::Main);
    let all = favorites + main;
    lemma_indexed(all, bucket, slot);
    let key = (slot * 0x100 + bucket) as u32;
    match resolved {
        Ok(rai) => {
            let i = choose|i: int|
                0 <= i < all.len() && is_kept_in(#[trigger] all[i], bucket as int, slot as int)
                    && all[i].spec_rai() == rai;
            let kind = if i < favorites.len() {
                RingKind::Favorites
            } else {
                RingKind::Main
            };
            if i < favorites.len() {
                assert(favorites.contains(all[i]));
            } else {
                assert(main[i - favorites.len()] == all[i]);
                assert(main.contains(all[i]));
            }
            crate::ring_reader::lemma_entry_at(
                database.spec_ring(kind),
                kind,
                all[i].spec_index(),
            );
            assert(holds_in_slot(database, kind, rai.spec_index(), bucket as int, slot as int));
        },
        Err(_) => {
            assert forall|kind: RingKind, index: u32|
                !#[trigger] holds_in_slot(database, kind, index, bucket as int, slot as int) by {
                if holds_in_slot(database, kind, index, bucket as int, slot as int) {
                    let entry = crate::ring_reader::spec_entry_at(
                        database.spec_ring(kind),
                        kind,
                        index,
                    )->0;
                    if kind == RingKind::Favorites {
                        assert(favorites.contains(entry));
                        let k = choose|k: int| 0 <= k < favorites.len() && favorites[k] == entry;
                        assert(all[k] == entry);
                    } else {
                        assert(main.contains(entry));
                        let k = choose|k: int| 0 <= k < main.len() && main[k] == entry;
                        assert(all[favorites.len() + k] == entry);
                    }
                }
            }
        },
    }
}

/// A match in a file is resolved to the place that the name of the file stands for: the
/// ring is in the upper half of the ID and the index in the lower one.
pub proof fn lemma_every_file_is_resolved(
    index: Map<u32, RingAndIndex>,
    entry_id: u64,
    resolved: Result<RingAndIndex, IdNotFoundError>,
)
    requires
        resolves(index, EntryLocation::File { entry_id }, resolved),
        entry_id % 0x1_0000_0000 <= MAX_ENTRIES,
    ensures
        resolved is Ok <==> entry_id / 0x1_0000_0000 <= 1,
        resolved matches Ok(rai) ==> {
            &&& rai.spec_index() == entry_id % 0x1_0000_0000
            &&& rai.spec_ring() == RingKind::Favorites <==> entry_id / 0x1_0000_0000 == 0
        },
{
    if let Ok(rai) = resolved {
        let parts = crate::protocol::spec_decompose_id(entry_id)->Ok_0;
        crate::views::lemma_unpack(rai, parts.0, parts.1);
    }
}

proof fn lemma_indexed_in_range(database: DatabaseReader, entries: Seq<Entry>)
    requires
        forall|i: int|
            0 <= i < entries.len() ==> {
                let e = #[trigger] entries[i];
                e.spec_rai().wf() && in_range(database, e.spec_ring(), e.spec_index())
            },
    ensures
        forall|key: u32| #[trigger]
            index_entries(entries).contains_key(key) ==> {
                let rai = index_entries(entries)[key];
                rai.wf() && in_range(database, rai.spec_ring(), rai.spec_index())
            },
    decreases entries.len(),
{
    if entries.len() > 0 {
        assert forall|i: int| 0 <= i < entries.drop_last().len() implies {
            let e = #[trigger] entries.drop_last()[i];
            e.spec_rai().wf() && in_range(database, e.spec_ring(), e.spec_index())
        } by {
            assert(entries.drop_last()[i] == entries[i]);
        }
        lemma_indexed_in_range(database, entries.drop_last());
        assert(entries.last() == entries[entries.len() - 1]);
    }
}

/// A search over a database: which entry is kept where, and the best results so
/// far.
pub struct SearchSession {
    favorites_newest: u32,
    main_newest: u32,
    index: HashMap<u32, RingAndIndex>,
    top: TopResults,
}

impl SearchSession {
    /// The index of the newest entry of a ring when the search began.
    pub closed spec fn spec_newest(self, kind: RingKind) -> u32 {
        match kind {
            RingKind::Favorites => self.favorites_newest,
            RingKind::Main => self.main_newest,
        }
    }

    pub closed spec fn spec_index(self) -> Map<u32, RingAndIndex> {
        self.index@
    }

    pub closed spec fn spec_top(self) -> TopResults {
        self.top
    }

    /// The place in its ring that a result stands for.
    pub open spec fn place(self, item: SearchEntry) -> (RingKind, u32) {
        let kind = item.rai.spec_ring();
        (kind, rank_index(self.spec_newest(kind), item.rai.spec_index()))
    }

    /// Everything that the search refers to can be in the database.
    pub open spec fn wf(self, database: DatabaseReader) -> bool {
        &&& self.spec_top().wf()
        &&& forall|key: u32| #[trigger]
            self.spec_index().contains_key(key) ==> {
                let rai = self.spec_index()[key];
                rai.wf() && in_range(database, rai.spec_ring(), rai.spec_index())
            }
        &&& forall|i: int|
            0 <= i < self.spec_top().spec_seen().len() ==> {
                let (kind, index) = self.place(#[trigger] self.spec_top().spec_seen()[i]);
                in_range(database, kind, index)
            }
    }

    /// Begins a search.
    pub fn new(database: &DatabaseReader<'_>) -> (session: SearchSession)
        requires
            database.wf(),
            crate::ring_reader::is_settled(database.spec_main()),
            crate::ring_reader::is_settled(database.spec_favorites()),
        ensures
            session.wf(*database),
            session.spec_newest(RingKind::Main) == newest_index(database.spec_main()),
            session.spec_newest(RingKind::Favorites) == newest_index(database.spec_favorites()),
            session.spec_index() == reverse_index(*database),
            session.spec_top().spec_seen() == Seq::<SearchEntry>::empty(),
    {
        broadcast use vstd::std_specs::hash::group_hash_axioms;

        let mut index: HashMap<u32, RingAndIndex> = HashMap::new();
        let ghost favorites = crate::ring_reader::contents(
            database.spec_favorites(),
            RingKind::Favorites,
        );
        let ghost main = crate::ring_reader::contents(database.spec_main(), RingKind::Main);
        assert(index@ =~= index_entries(Seq::<Entry>::empty()));
        index_walk(database.favorites(), &mut index, Ghost(Seq::empty()));
        assert(Seq::<Entry>::empty() + favorites =~= favorites);
        index_walk(database.main(), &mut index, Ghost(favorites));
        proof {
            crate::ring_reader::lemma_contents_complete(
                database.spec_favorites(),
                RingKind::Favorites,
            );
            crate::ring_reader::lemma_contents_complete(database.spec_main(), RingKind::Main);
            let all = favorites + main;
            assert forall|i: int| 0 <= i < all.len() implies {
                let e = #[trigger] all[i];
                e.spec_rai().wf() && in_range(*database, e.spec_ring(), e.spec_index())
            } by {
                if i < favorites.len() {
                    assert(favorites.contains(favorites[i]));
                    crate::ring_reader::lemma_entry_at(
                        database.spec_favorites(),
                        RingKind::Favorites,
                        all[i].spec_index(),
                    );
                } else {
                    assert(main.contains(main[i - favorites.len()]));
                    crate::ring_reader::lemma_entry_at(
                        database.spec_main(),
                        RingKind::Main,
                        all[i].spec_index(),
                    );
                }
            }
            lemma_indexed_in_range(*database, all);
        }
        let favorites_ring = database.favorites_ring();
        let main_ring = database.main_ring();
        SearchSession {
            favorites_newest: favorites_ring.prev_entry(favorites_ring.write_head()),
            main_newest: main_ring.prev_entry(main_ring.write_head()),
            index,
            top: TopResults::new(),
        }
    }

    /// The entry at a place that a search names.
    fn resolve(&self, location: EntryLocation) -> (resolved: Result<RingAndIndex, IdNotFoundError>)
        requires
            match location {
                EntryLocation::Bucketed { index, .. } => index <= MAX_ENTRIES,
                EntryLocation::File { entry_id } => crate::protocol::spec_decompose_id(
                    entry_id,
                ) matches Ok(parts) ==> parts.1 <= MAX_ENTRIES,
            },
        ensures
            resolves(self.spec_index(), location, resolved),
    {
        broadcast use vstd::std_specs::hash::group_hash_axioms;

        match location {
            EntryLocation::Bucketed { bucket, index } => {
                let key: u32 = BucketAndIndex::new(bucket, index).packed();
                match self.index.get(&key) {
                    Some(rai) => Ok(*rai),
                    None => Err(IdNotFoundError::Entry(key)),
                }
            },
            EntryLocation::File { entry_id } => RingAndIndex::from_id(entry_id),
        }
    }

    /// Takes in one result. One that names no entry is left out.
    pub fn add_result(&mut self, result: QueryResult, database: &DatabaseReader<'_>) -> (resolved:
        Result<RingAndIndex, IdNotFoundError>)
        requires
            database.wf(),
            old(self).wf(*database),
            location_in_range(*database, result.location),
        ensures
            final(self).wf(*database),
            resolves(old(self).spec_index(), result.location, resolved),
            forall|kind: RingKind| #[trigger]
                final(self).spec_newest(kind) == old(self).spec_newest(kind),
            final(self).spec_index() == old(self).spec_index(),
            match resolved {
                Err(_) => final(self).spec_top().spec_seen() == old(self).spec_top().spec_seen(),
                Ok(rai) => exists|item: SearchEntry|
                    {
                        &&& final(self).spec_top().spec_seen() == #[trigger] old(
                            self,
                        ).spec_top().spec_seen().push(item)
                        &&& item.start == result.start
                        &&& item.end == result.end
                        &&& item.rai.wf()
                        &&& item.rai.is(
                            rai.spec_ring(),
                            rank_index(old(self).spec_newest(rai.spec_ring()), rai.spec_index()),
                        )
                        &&& final(self).place(item) == (rai.spec_ring(), rai.spec_index())
                    },
            },
    {
        let resolved = self.resolve(result.location);
        if let Ok(rai) = resolved {
            let ring = rai.ring();
            let newest: u32 = match ring {
                RingKind::Favorites => self.favorites_newest,
                RingKind::Main => self.main_newest,
            };
            let rank: u32 = compute_rank_index(newest, rai.index());
            let item = SearchEntry {
                rai: RingAndIndex::new(ring, rank),
                start: result.start,
                end: result.end,
            };
            let ghost before = *self;
            proof {
                if let EntryLocation::File { entry_id } = result.location {
                    let parts = crate::protocol::spec_decompose_id(entry_id)->Ok_0;
                    crate::views::lemma_unpack(rai, parts.0, parts.1);
                }
                assert(in_range(*database, rai.spec_ring(), rai.spec_index()));
                lemma_rank_is_involution(newest, rai.spec_index());
            }
            self.top.push(item);
            proof {
                assert(self.place(item) == (rai.spec_ring(), rai.spec_index()));
                let seen = self.spec_top().spec_seen();
                assert forall|i: int| 0 <= i < seen.len() implies {
                    let (kind, index) = self.place(#[trigger] seen[i]);
                    in_range(*database, kind, index)
                } by {
                    if i < seen.len() - 1 {
                        let old_item = before.spec_top().spec_seen()[i];
                        assert(seen[i] == old_item);
                        assert(self.place(old_item) == before.place(old_item));
                    }
                }
            }
        }
        resolved
    }

    /// The entries of the best results with what to highlight in them, best
    /// first. Results whose entry is gone are left out.
    pub open spec fn found(self, database: DatabaseReader, items: Seq<SearchEntry>) -> Seq<
        (Entry, Option<(usize, usize)>),
    >
        decreases items.len(),
    {
        if items.len() == 0 {
            seq![]
        } else {
            let item = items.last();
            let rest = self.found(database, items.drop_last());
            let (kind, index) = self.place(item);
            match crate::ring_reader::spec_entry_at(database.spec_ring(kind), kind, index) {
                None => rest,
                Some(entry) => rest.push((entry, highlight_of(item))),
            }
        }
    }

    /// The length of a ring once it is long enough for all results in it.
    pub open spec fn grown_len(self, items: Seq<SearchEntry>, kind: RingKind, len: int) -> int
        decreases items.len(),
    {
        if items.len() == 0 {
            len
        } else {
            let grown = self.grown_len(items.drop_last(), kind, len);
            let (named, index) = self.place(items.last());
            if named == kind && index >= grown {
                index + 1
            } else {
                grown
            }
        }
    }

    /// Looks up the entries of the best results, growing the rings as needed.
    pub fn finish(&self, database: &mut DatabaseReader<'_>) -> (found: Vec<
        (Entry, Option<(usize, usize)>),
    >)
        requires
            old(database).wf(),
            self.wf(*old(database)),
        ensures
            final(database).wf(),
            are_top(self.spec_top().spec_items(), self.spec_top().spec_seen()),
            found@ == self.found(*final(database), self.spec_top().spec_items()),
            forall|kind: RingKind|
                {
                    let before = #[trigger] old(database).spec_ring(kind);
                    let after = final(database).spec_ring(kind);
                    &&& after.mem() == before.mem()
                    &&& after.spec_capacity() == before.spec_capacity()
                    &&& after.spec_len() == self.grown_len(
                        self.spec_top().spec_items(),
                        kind,
                        before.spec_len() as int,
                    )
                },
            forall|i: int|
                0 <= i < self.spec_top().spec_items().len() ==> {
                    let (kind, index) = self.place(#[trigger] self.spec_top().spec_items()[i]);
                    index < final(database).spec_ring(kind).spec_len()
                },
    {
        let mut found: Vec<(Entry, Option<(usize, usize)>)> = Vec::new();
        let ghost items = self.spec_top().spec_items();
        let mut i: usize = 0;
        assert(items.take(0) =~= Seq::<SearchEntry>::empty());
        while i < self.top.items.len()
            invariant
                items == self.spec_top().spec_items(),
                items == self.top.items@,
                i <= items.len(),
                old(database).wf(),
                self.wf(*old(database)),
                database.wf(),
                forall|kind: RingKind|
                    {
                        let before = #[trigger] old(database).spec_ring(kind);
                        let after = database.spec_ring(kind);
                        &&& after.mem() == before.mem()
                        &&& after.spec_capacity() == before.spec_capacity()
                        &&& after.spec_len() == self.grown_len(
                            items.take(i as int),
                            kind,
                            before.spec_len() as int,
                        )
                    },
                forall|j: int|
                    0 <= j < i ==> {
                        let (kind, index) = self.place(#[trigger] items[j]);
                        index < database.spec_ring(kind).spec_len()
                    },
                found@ == self.found(*database, items.take(i as int)),
            decreases items.len() - i,
        {
            let item = self.top.items[i];
            let ring = item.rai.ring();
            let newest: u32 = match ring {
                RingKind::Favorites => self.favorites_newest,
                RingKind::Main => self.main_newest,
            };
            let index: u32 = compute_rank_index(newest, item.rai.index());
            let ghost before = *database;
            proof {
                broadcast use vstd::seq_lib::group_to_multiset_ensures;

                assert(items.contains(items[i as int]));
                assert(items.to_multiset().count(item) > 0);
                assert(self.spec_top().spec_seen().to_multiset().count(item) > 0);
                assert(self.spec_top().spec_seen().contains(item));
                let k = choose|k: int|
                    0 <= k < self.spec_top().spec_seen().len()
                        && self.spec_top().spec_seen()[k] == item;
                assert(self.place(self.spec_top().spec_seen()[k]) == (ring, index));
                assert(in_range(*old(database), ring, index));
                assert(old(database).spec_ring(ring).spec_capacity() == database.spec_ring(
                    ring,
                ).spec_capacity());
                crate::protocol::lemma_decompose_of_composite(ring, index);
            }
            let id: u64 = crate::protocol::composite_id(ring, index);
            let entry = database.get(id);
            proof {
                assert(items.take(i + 1).drop_last() =~= items.take(i as int));
                assert forall|kind: RingKind|
                    {
                        let first = #[trigger] old(database).spec_ring(kind);
                        let after = database.spec_ring(kind);
                        &&& after.mem() == first.mem()
                        &&& after.spec_capacity() == first.spec_capacity()
                        &&& after.spec_len() == self.grown_len(
                            items.take(i + 1),
                            kind,
                            first.spec_len() as int,
                        )
                        &&& after.spec_len() >= before.spec_ring(kind).spec_len()
                        &&& after.mem() == before.spec_ring(kind).mem()
                    } by {
                    assert(before.spec_ring(kind).mem() == old(database).spec_ring(kind).mem());
                }
                lemma_found_grows(*self, before, *database, items.take(i as int));
            }
            if let Ok(entry) = entry {
                let highlight = if item.start == item.end {
                    None
                } else {
                    Some((item.start, item.end))
                };
                found.push((entry, highlight));
            }
            i += 1;
        }
        assert(items.take(items.len() as int) =~= items);
        found
    }
}

/// Every result that is kept is listed if its entry is there, with the range that was
/// found highlighted unless it is empty, and nothing else is listed.
pub proof fn lemma_results_are_listed(
    session: SearchSession,
    database: DatabaseReader,
    items: Seq<SearchEntry>,
    entry: Entry,
    highlight: Option<(usize, usize)>,
)
    ensures
        session.found(database, items).contains((entry, highlight)) <==> exists|i: int|
            {
                let (kind, index) = session.place(#[trigger] items[i]);
                &&& 0 <= i < items.len()
                &&& crate::ring_reader::spec_entry_at(database.spec_ring(kind), kind, index)
                    == Some(entry)
                &&& match highlight {
                    Some((start, end)) => start == items[i].start && end == items[i].end && start
                        != end,
                    None => items[i].start == items[i].end,
                }
            },
    decreases items.len(),
{
    let found = session.found(database, items);
    let item = (entry, highlight);
    if items.len() > 0 {
        let rest = items.drop_last();
        let fewer = session.found(database, rest);
        lemma_results_are_listed(session, database, rest, entry, highlight);
        assert forall|i: int| 0 <= i < rest.len() implies #[trigger] items[i] == rest[i] by {
        }
        assert(items[items.len() - 1] == items.last());
        if found.len() > fewer.len() {
            assert(found =~= fewer.push(found.last()));
            assert(found[found.len() - 1] == found.last());
        }
        if fewer.contains(item) {
            let j = choose|j: int| 0 <= j < fewer.len() && fewer[j] == item;
            assert(found[j] == item);
        }
    }
}

/// Results are listed in their order: what comes of some results is listed before what
/// comes of the results after them.
pub proof fn lemma_results_are_listed_in_order(
    session: SearchSession,
    database: DatabaseReader,
    first: Seq<SearchEntry>,
    then: Seq<SearchEntry>,
)
    ensures
        session.found(database, first + then) == session.found(database, first)
            + session.found(database, then),
    decreases then.len(),
{
    if then.len() == 0 {
        assert(first + then =~= first);
        assert(session.found(database, first) + session.found(database, then) =~= session.found(
            database,
            first,
        ));
    } else {
        assert((first + then).drop_last() =~= first + then.drop_last());
        lemma_results_are_listed_in_order(session, database, first, then.drop_last());
        assert(session.found(database, first + then) =~= session.found(database, first)
            + session.found(database, then));
    }
}

/// As long as there are no more results than are shown, all of them are kept.
pub proof fn lemma_few_results_are_kept(top: TopResults, item: SearchEntry)
    requires
        top.wf(),
        top.spec_seen().len() <= 256,
    ensures
        top.spec_seen().contains(item) <==> top.spec_items().contains(item),
{
    broadcast use vstd::seq_lib::group_to_multiset_ensures;

    let items = top.spec_items();
    let seen = top.spec_seen();
    lemma_same_size_same_multiset(items, seen);
    assert(items.contains(item) <==> items.to_multiset().count(item) > 0);
    assert(seen.contains(item) <==> seen.to_multiset().count(item) > 0);
}

/// What to highlight in an entry: nothing if the match is empty.
pub open spec fn highlight_of(item: SearchEntry) -> Option<(usize, usize)> {
    if item.start == item.end {
        None
    } else {
        Some((item.start, item.end))
    }
}

proof fn lemma_found_grows(
    session: SearchSession,
    before: DatabaseReader,
    after: DatabaseReader,
    items: Seq<SearchEntry>,
)
    requires
        forall|kind: RingKind|
            {
                &&& (#[trigger] after.spec_ring(kind)).mem() == before.spec_ring(kind).mem()
                &&& after.spec_ring(kind).spec_len() >= before.spec_ring(kind).spec_len()
            },
        forall|j: int|
            0 <= j < items.len() ==> {
                let (kind, index) = session.place(#[trigger] items[j]);
                index < before.spec_ring(kind).spec_len()
            },
    ensures
        session.found(after, items) == session.found(before, items),
    decreases items.len(),
{
    if items.len() > 0 {
        assert forall|j: int| 0 <= j < items.drop_last().len() implies {
            let (kind, index) = session.place(#[trigger] items.drop_last()[j]);
            index < before.spec_ring(kind).spec_len()
        } by {
            assert(items.drop_last()[j] == items[j]);
        }
        lemma_found_grows(session, before, after, items.drop_last());
        let (kind, index) = session.place(items[items.len() - 1]);
        assert(after.spec_ring(kind).mem() == before.spec_ring(kind).mem());
    }
}

/// Of two results in the same settled ring, the one that comes first is no older.
pub proof fn lemma_results_newest_first(
    session: SearchSession,
    database: DatabaseReader,
    kind: RingKind,
    i: int,
    j: int,
)
    requires
        session.wf(database),
        crate::ring_reader::is_settled(database.spec_ring(kind)),
        session.spec_newest(kind) == newest_index(database.spec_ring(kind)),
        0 <= i < j < session.spec_top().spec_items().len(),
        ({
            let items = session.spec_top().spec_items();
            &&& items[i].rai.wf() && items[j].rai.wf()
            &&& items[i].rai.spec_index() <= MAX_ENTRIES && items[j].rai.spec_index() <= MAX_ENTRIES
            &&& items[i].rai.spec_ring() == kind && items[j].rai.spec_ring() == kind
            &&& session.place(items[i]).1 < database.spec_ring(kind).spec_len()
            &&& session.place(items[j]).1 < database.spec_ring(kind).spec_len()
        }),
    ensures
        ({
            let items = session.spec_top().spec_items();
            &&& age(database.spec_ring(kind), session.place(items[i]).1) <= age(
                database.spec_ring(kind),
                session.place(items[j]).1,
            )
            &&& crate::ring_reader::written_after(
                database.spec_ring(kind),
                session.place(items[i]).1,
            ) <= crate::ring_reader::written_after(
                database.spec_ring(kind),
                session.place(items[j]).1,
            )
        }),
{
    let items = session.spec_top().spec_items();
    let newest = session.spec_newest(kind);
    let a = session.place(items[i]).1;
    let b = session.place(items[j]).1;
    assert(items[i].order() <= items[j].order());
    lemma_rank_is_involution(newest, items[i].rai.spec_index());
    lemma_rank_is_involution(newest, items[j].rai.spec_index());
    assert(rank_index(newest, a) == items[i].rai.spec_index());
    assert(rank_index(newest, b) == items[j].rai.spec_index());
    lemma_rank_orders_by_age(database.spec_ring(kind), b, a);
}

/// Whether a query has no upper case letters: it then ignores case.
pub open spec fn is_caseless(query: Seq<char>) -> bool {
    forall|i: int|
        0 <= i < query.len() ==> !crate::text::char_alphabetic(#[trigger] query[i])
            || crate::text::char_lowercase(query[i])
}

/// Whether a query has no upper case letters.
fn has_no_upper_case(query: &str) -> (caseless: bool)
    ensures
        caseless == is_caseless(query@),
{
    for c in it: query.chars()
        invariant
            it.seq() == query@,
            forall|i: int|
                0 <= i < it.index() ==> !crate::text::char_alphabetic(#[trigger] query@[i])
                    || crate::text::char_lowercase(query@[i]),
    {
        if c.is_alphabetic() && !c.is_lowercase() {
            assert(query@[it.index()] == c);
            return false;
        }
    }
    true
}

/// Whether a matcher is the one for what the user typed. Plain queries without
/// upper case letters ignore case, and the whitespace around plain queries does
/// not count.
pub open spec fn is_matcher_for(
    query: Seq<char>,
    kind: SearchKind,
    prepared: Result<(Matcher, Scope), RegexError>,
) -> bool {
    match kind {
        SearchKind::Plain => prepared matches Ok((matcher, scope)) && scope == Scope::Contents && if
        is_caseless(query) {
            matcher matches Matcher::IgnoreCase(needle) && needle@
                == crate::search::spec_trim_ascii(
                crate::text::spec_ascii_lowercase(vstd::utf8::encode_utf8(query)),
            )
        } else {
            matcher matches Matcher::Plain(needle) && needle@ == vstd::utf8::encode_utf8(
                crate::text::spec_trim(query),
            )
        },
        SearchKind::Regex => match crate::search::regex_of(query, usize::BITS) {
            Some(regex) => prepared == Ok::<(Matcher, Scope), RegexError>(
                (Matcher::Regex(regex), Scope::Contents),
            ),
            None => prepared is Err,
        },
        SearchKind::Mime => match crate::search::regex_of(query, usize::BITS) {
            Some(regex) => prepared == Ok::<(Matcher, Scope), RegexError>(
                (Matcher::Regex(regex), Scope::MimeTypes),
            ),
            None => prepared is Err,
        },
    }
}

/// Makes what the user typed ready for searching.
pub fn prepare_query(query: &str, kind: SearchKind) -> (prepared: Result<
    (Matcher, Scope),
    RegexError,
>)
    ensures
        is_matcher_for(query@, kind, prepared),
{
    let query = match kind {
        SearchKind::Plain => {
            if has_no_upper_case(query) {
                let bytes = vstd::slice::slice_to_vec(query.as_bytes());
                Query::PlainIgnoreCase(CaselessQuery::new(bytes).trim())
            } else {
                Query::Plain(query.trim().as_bytes())
            }
        },
        SearchKind::Regex => match regex_new(query) {
            Ok(regex) => Query::Regex(regex),
            Err(error) => return Err(error),
        },
        SearchKind::Mime => match regex_new(query) {
            Ok(regex) => Query::Mimes(regex),
            Err(error) => return Err(error),
        },
    };
    Ok(query.prepare())
}

/// What remains to be done for a command outside of this library.
#[allow(inconsistent_fields)]
pub enum Plan {
    /// Show these entries.
    FirstPage { entries: Vec<Entry>, default_focused_id: Option<u64> },
    /// Load the mime type of the entry, and its text if asked for.
    Details { id: u64, entry: Result<Entry, IdNotFoundError>, with_text: bool },
    /// Ask the server to move an entry to a ring.
    MoveToFront { id: u64, to: RingKind },
    /// Ask the server to remove an entry.
    Remove { id: u64 },
    /// Search through the database.
    Search { matcher: Matcher, scope: Scope },
    /// Decode the entry as an image.
    LoadImage { id: u64, entry: Entry },
    /// Send the entry to the paste server.
    Paste { entry: Entry },
}

/// The ID whose entry a command looks up, if it does.
pub open spec fn looked_up(command: Command) -> Option<u64> {
    match command {
        Command::GetDetails { id, .. } => Some(id),
        Command::LoadImage(id) => Some(id),
        Command::Paste(id) => Some(id),
        _ => None,
    }
}

/// Whether a command brings the rings up to date.
pub open spec fn refreshes(command: Command) -> bool {
    command is LoadFirstPage || command is Search
}

/// Decides what a command comes to.
pub fn handle_command(command: Command, database: &mut DatabaseReader<'_>) -> (plan: Result<
    Plan,
    CommandError,
>)
    requires
        old(database).wf(),
        refreshes(command) ==> heads_in_range(*old(database)),
        looked_up(command) matches Some(id) ==> (crate::protocol::spec_decompose_id(
            id,
        ) matches Ok(parts) ==> in_range(*old(database), parts.0, parts.1)),
    ensures
        final(database).wf(),
        refreshes(command) ==> is_refreshed(*old(database), *final(database)),
        !refreshes(command) && looked_up(command) is None ==> *final(database) == *old(database),
        looked_up(command) matches Some(id) ==> final(database).is_grown_to(*old(database), id),
        forall|kind: RingKind|
            {
                &&& (#[trigger] final(database).spec_ring(kind)).mem() == old(database).spec_ring(
                    kind,
                ).mem()
                &&& final(database).spec_ring(kind).spec_capacity() == old(database).spec_ring(
                    kind,
                ).spec_capacity()
            },
        match command {
            Command::LoadFirstPage => plan matches Ok(
                Plan::FirstPage { entries, default_focused_id },
            ) && entries@ == first_page(*final(database)) && default_focused_id == default_focus(
                *final(database),
            ),
            Command::GetDetails { id, with_text } => plan matches Ok(
                Plan::Details { id: shown, entry, with_text: text },
            ) && shown == id && text == with_text && entry == final(database).spec_get_raw(id),
            Command::Favorite(id) => plan == Ok::<Plan, CommandError>(
                Plan::MoveToFront { id, to: RingKind::Favorites },
            ),
            Command::Unfavorite(id) => plan == Ok::<Plan, CommandError>(
                Plan::MoveToFront { id, to: RingKind::Main },
            ),
            Command::Delete(id) => plan == Ok::<Plan, CommandError>(Plan::Remove { id }),
            Command::Search { query, kind } => match plan {
                Ok(Plan::Search { matcher, scope }) => is_matcher_for(
                    query@,
                    kind,
                    Ok((matcher, scope)),
                ),
                Err(CommandError::Regex(error)) => is_matcher_for(query@, kind, Err(error)),
                _ => false,
            },
            Command::LoadImage(id) => match final(database).spec_get_raw(id) {
                Ok(entry) => plan == Ok::<Plan, CommandError>(Plan::LoadImage { id, entry }),
                Err(error) => plan == Err::<Plan, CommandError>(CommandError::IdNotFound(error)),
            },
            Command::Paste(id) => match final(database).spec_get_raw(id) {
                Ok(entry) => plan == Ok::<Plan, CommandError>(Plan::Paste { entry }),
                Err(error) => plan == Err::<Plan, CommandError>(CommandError::IdNotFound(error)),
            },
        },
{
    let ghost before = *database;
    match command {
        Command::LoadFirstPage => {
            let (entries, default_focused_id) = load_first_page(database);
            Ok(Plan::FirstPage { entries, default_focused_id })
        },
        Command::GetDetails { id, with_text } => {
            let entry = database.get(id);
            assert forall|kind: RingKind|
                (#[trigger] database.spec_ring(kind)).mem() == before.spec_ring(kind).mem()
                    && database.spec_ring(kind).spec_capacity() == before.spec_ring(
                    kind,
                ).spec_capacity() by {
                assert(before.spec_ring(kind) == old(database).spec_ring(kind));
            }
            Ok(Plan::Details { id, entry, with_text })
        },
        Command::Favorite(id) => Ok(Plan::MoveToFront { id, to: RingKind::Favorites }),
        Command::Unfavorite(id) => Ok(Plan::MoveToFront { id, to: RingKind::Main }),
        Command::Delete(id) => Ok(Plan::Remove { id }),
        Command::Search { query, kind } => {
            refresh(database);
            match prepare_query(query.as_str(), kind) {
                Ok((matcher, scope)) => Ok(Plan::Search { matcher, scope }),
                Err(error) => Err(CommandError::Regex(error)),
            }
        },
        Command::LoadImage(id) => {
            let entry = database.get(id);
            assert forall|kind: RingKind|
                (#[trigger] database.spec_ring(kind)).mem() == before.spec_ring(kind).mem()
                    && database.spec_ring(kind).spec_capacity() == before.spec_ring(
                    kind,
                ).spec_capacity() by {
                assert(before.spec_ring(kind) == old(database).spec_ring(kind));
            }
            match entry {
                Ok(entry) => Ok(Plan::LoadImage { id, entry }),
                Err(error) => Err(CommandError::IdNotFound(error)),
            }
        },
        Command::Paste(id) => {
            let entry = database.get(id);
            assert forall|kind: RingKind|
                (#[trigger] database.spec_ring(kind)).mem() == before.spec_ring(kind).mem()
                    && database.spec_ring(kind).spec_capacity() == before.spec_ring(
                    kind,
                ).spec_capacity() by {
                assert(before.spec_ring(kind) == old(database).spec_ring(kind));
            }
            match entry {
                Ok(entry) => Ok(Plan::Paste { entry }),
                Err(error) => Err(CommandError::IdNotFound(error)),
            }
        },
    }
}

/// What to tell the user interface about a moved entry: its new ID, or why it
/// was not moved.
pub fn finish_move(response: MoveToFrontResponse) -> (outcome: Result<u64, CommandError>)
    ensures
        match response {
            MoveToFrontResponse::Success { id } => outcome == Ok::<u64, CommandError>(id),
            MoveToFrontResponse::Error(error) => outcome == Err::<u64, CommandError>(
                CommandError::IdNotFound(error),
            ),
        },
{
    match response {
        MoveToFrontResponse::Success { id } => Ok(id),
        MoveToFrontResponse::Error(error) => Err(CommandError::IdNotFound(error)),
    }
}

/// What to tell the user interface about a removed entry: its ID, or why it was
/// not removed.
pub fn finish_remove(id: u64, response: RemoveResponse) -> (outcome: Result<u64, CommandError>)
    ensures
        match response.error {
            None => outcome == Ok::<u64, CommandError>(id),
            Some(error) => outcome == Err::<u64, CommandError>(CommandError::IdNotFound(error)),
        },
{
    match response.error {
        None => Ok(id),
        Some(error) => Err(CommandError::IdNotFound(error)),
    }
}

/// `image::ImageError`: why an image cannot be decoded.
#[verifier::external_type_specification]
#[verifier::external_body]
pub struct ExImageError(ImageError);

/// The width, height and pixels of an image, unless it cannot be decoded.
pub uninterp spec fn decoded_image(bytes: Seq<u8>) -> Option<(u32, u32, Seq<u8>)>;

/// Whether bytes begin as a JPEG image does.
pub open spec fn is_jpeg(bytes: Seq<u8>) -> bool {
    bytes.len() >= 3 && bytes[0] == 0xff && bytes[1] == 0xd8 && bytes[2] == 0xff
}

/// `image::ImageReader::decode`, with the format that the bytes look like: what image
/// they hold is given by the bytes alone. JPEG images are left out: their decoder
/// multiplies numbers from the file without regard to overflow, which may panic.
#[verifier::external_body]
fn decode_image(bytes: &[u8]) -> (image: Result<DecodedImage, ImageError>)
    requires
        !is_jpeg(bytes@),
    ensures
        match image {
            Ok(image) => decoded_image(bytes@) == Some((image.width, image.height, image.rgba@)),
            Err(_) => decoded_image(bytes@) is None,
        },
{
    let reader = image::ImageReader::new(std::io::Cursor::new(bytes));
    let image = reader.with_guessed_format()?.decode()?.into_rgba8();
    let (width, height) = image.dimensions();
    Ok(DecodedImage { width, height, rgba: image.into_raw() })
}

/// What to tell the user interface about an image: its pixels, or why it cannot be
/// decoded.
pub fn finish_image(id: u64, image: Result<DecodedImage, ImageError>) -> (outcome: Result<
    Message,
    CommandError,
>)
    ensures
        match image {
            Ok(image) => outcome == Ok::<Message, CommandError>(Message::LoadedImage { id, image }),
            Err(error) => outcome == Err::<Message, CommandError>(CommandError::Image(error)),
        },
{
    match image {
        Ok(image) => Ok(Message::LoadedImage { id, image }),
        Err(error) => Err(CommandError::Image(error)),
    }
}

/// Decodes the contents of an entry as an image. A JPEG image is not decoded: what comes
/// of it is up to the caller, and goes to [`finish_image`].
pub fn load_image(id: u64, contents: &[u8]) -> (outcome: Option<Result<Message, CommandError>>)
    ensures
        outcome is None <==> is_jpeg(contents@),
        outcome matches Some(outcome) ==> match decoded_image(contents@) {
            Some((width, height, rgba)) => outcome matches Ok(
                Message::LoadedImage { id: loaded, image },
            ) && loaded == id && image.width == width && image.height == height && image.rgba@
                == rgba,
            None => outcome matches Err(CommandError::Image(_)),
        },
{
    if contents.len() >= 3 && contents[0] == 0xff && contents[1] == 0xd8 && contents[2] == 0xff {
        None
    } else {
        Some(finish_image(id, decode_image(contents)))
    }
}

/// The details of an entry; what is not valid UTF-8 has no text.
pub fn finish_details(mime_type: &str, contents: Option<&[u8]>) -> (details: DetailedEntry)
    ensures
        details.mime_type@ == mime_type@,
        match contents {
            None => details.full_text is None,
            Some(bytes) => {
                &&& details.full_text is Some <==> vstd::utf8::valid_utf8(bytes@)
                &&& details.full_text matches Some(text) ==> text@ == vstd::utf8::decode_utf8(
                    bytes@,
                )
            },
        },
{
    let full_text = match contents {
        None => None,
        Some(bytes) => match crate::text::str_from_utf8(bytes) {
            Ok(text) => Some(text.to_owned()),
            Err(_) => None,
        },
    };
    DetailedEntry { mime_type: mime_type.to_owned(), full_text }
}

/// What the user typed is found in every entry that holds it: a plain search looks at
/// contents and finds them wherever the query stands in them.
pub proof fn lemma_query_is_found(
    query: Seq<char>,
    prepared: Result<(Matcher, Scope), RegexError>,
    before: Seq<u8>,
    after: Seq<u8>,
    found: Option<(usize, usize)>,
)
    requires
        is_matcher_for(query, SearchKind::Plain, prepared),
        prepared matches Ok((matcher, _)) ==> matcher.finds(
            before + vstd::utf8::encode_utf8(query) + after,
            found,
        ),
    ensures
        prepared matches Ok((_, scope)) && scope == Scope::Contents,
        found is Some,
{
    let bytes = vstd::utf8::encode_utf8(query);
    let haystack = before + bytes + after;
    if is_caseless(query) {
        let needle = prepared->Ok_0.0->IgnoreCase_0;
        let lower = crate::text::spec_ascii_lowercase(bytes);
        let (front, back) = crate::search::lemma_trimmed(lower);
        let all = crate::text::spec_ascii_lowercase(haystack);
        let at = (before.len() + front.len()) as int;
        let part = all.subrange(at, at + needle@.len());
        assert forall|i: int| 0 <= i < needle@.len() implies #[trigger] part[i] == needle@[i] by {
            assert(lower[front.len() + i] == needle@[i]);
            assert(haystack[at + i] == bytes[front.len() + i]);
        }
        assert(part =~= needle@);
        assert(crate::search::occurs_at(all, needle@, at));
    } else {
        let needle = prepared->Ok_0.0->Plain_0;
        let n = crate::text::leading_space(query) as int;
        crate::text::lemma_trim_bounds(query);
        let rest = query.skip(n);
        let m = rest.len() - crate::text::trailing_space(rest);
        let trimmed = rest.take(m);
        assert(query =~= query.take(n) + (trimmed + rest.skip(m)));
        crate::text::lemma_encode_concat(query.take(n), trimmed + rest.skip(m));
        crate::text::lemma_encode_concat(trimmed, rest.skip(m));
        let at = (before.len() + vstd::utf8::encode_utf8(query.take(n)).len()) as int;
        assert(haystack.subrange(at, at + needle@.len()) =~= needle@);
        assert(crate::search::occurs_at(haystack, needle@, at));
    }
}

/// A query with an upper case letter, that is a letter that is not in lower case, is only
/// found as it was typed, but for the whitespace around it.
pub proof fn lemma_upper_case_matters(
    query: Seq<char>,
    prepared: Result<(Matcher, Scope), RegexError>,
    haystack: Seq<u8>,
    found: Option<(usize, usize)>,
    start: usize,
    end: usize,
)
    requires
        is_matcher_for(query, SearchKind::Plain, prepared),
        prepared matches Ok((matcher, _)) ==> matcher.finds(haystack, found),
        found == Some((start, end)),
        exists|i: int|
            0 <= i < query.len() && crate::text::char_alphabetic(#[trigger] query[i])
                && !crate::text::char_lowercase(query[i]),
    ensures
        start <= end <= haystack.len(),
        haystack.subrange(start as int, end as int) == vstd::utf8::encode_utf8(
            crate::text::spec_trim(query),
        ),
{
    let needle = prepared->Ok_0.0->Plain_0;
    assert(crate::search::finds_needle(haystack, needle@, found));
    assert(crate::search::occurs_at(haystack, needle@, start as int));
}

/// A query without an upper case letter is found in any case.
pub proof fn lemma_lower_case_is_found_in_any_case(
    query: Seq<char>,
    prepared: Result<(Matcher, Scope), RegexError>,
    before: Seq<u8>,
    hit: Seq<u8>,
    after: Seq<u8>,
    found: Option<(usize, usize)>,
)
    requires
        is_matcher_for(query, SearchKind::Plain, prepared),
        prepared matches Ok((matcher, _)) ==> matcher.finds(before + hit + after, found),
        forall|i: int|
            0 <= i < query.len() ==> !crate::text::char_alphabetic(#[trigger] query[i])
                || crate::text::char_lowercase(query[i]),
        crate::search::same_letters(hit, vstd::utf8::encode_utf8(query)),
    ensures
        found is Some,
{
    let bytes = vstd::utf8::encode_utf8(query);
    let haystack = before + hit + after;
    let needle = prepared->Ok_0.0->IgnoreCase_0;
    let lower = crate::text::spec_ascii_lowercase(bytes);
    crate::search::lemma_same_in_lower_case(hit, bytes);
    let (front, back) = crate::search::lemma_trimmed(lower);
    let all = crate::text::spec_ascii_lowercase(haystack);
    let at = (before.len() + front.len()) as int;
    let part = all.subrange(at, at + needle@.len());
    assert forall|i: int| 0 <= i < needle@.len() implies #[trigger] part[i] == needle@[i] by {
        let k = front.len() + i;
        assert(lower[k] == needle@[i]);
        assert(crate::text::spec_ascii_lowercase(hit)[k] == lower[k]);
        assert(haystack[at + i] == hit[k]);
    }
    assert(part =~= needle@);
    assert(crate::search::occurs_at(all, needle@, at));
}

/// Nothing is found but what was typed, in any case and without the whitespace around it,
/// which is handed out.
pub proof fn lemma_only_query_is_found(
    query: Seq<char>,
    prepared: Result<(Matcher, Scope), RegexError>,
    haystack: Seq<u8>,
    found: Option<(usize, usize)>,
) -> (parts: (Seq<char>, Seq<u8>, Seq<char>))
    requires
        is_matcher_for(query, SearchKind::Plain, prepared),
        prepared matches Ok((matcher, _)) ==> matcher.finds(haystack, found),
    ensures
        vstd::utf8::encode_utf8(query) == vstd::utf8::encode_utf8(parts.0) + parts.1
            + vstd::utf8::encode_utf8(parts.2),
        forall|i: int|
            0 <= i < parts.0.len() ==> crate::text::spec_is_whitespace(#[trigger] parts.0[i]),
        forall|i: int|
            0 <= i < parts.2.len() ==> crate::text::spec_is_whitespace(#[trigger] parts.2[i]),
        found matches Some((start, end)) ==> start <= end <= haystack.len()
            && crate::search::same_letters(
            haystack.subrange(start as int, end as int),
            parts.1,
        ),
{
    let bytes = vstd::utf8::encode_utf8(query);
    if is_caseless(query) {
        let needle = prepared->Ok_0.0->IgnoreCase_0;
        let lower = crate::text::spec_ascii_lowercase(bytes);
        let (front, back) = crate::search::lemma_trimmed(lower);
        let n = front.len() as int;
        let m = n + needle@.len();
        let before = bytes.take(n);
        let hit = bytes.subrange(n, m);
        let after = bytes.skip(m);
        assert forall|i: int| 0 <= i < before.len() implies crate::search::is_ascii_whitespace(
            #[trigger] before[i],
        ) by {
            assert(crate::search::is_ascii_whitespace(front[i]));
            assert(lower[i] == front[i]);
        }
        assert forall|i: int| 0 <= i < after.len() implies crate::search::is_ascii_whitespace(
            #[trigger] after[i],
        ) by {
            assert(crate::search::is_ascii_whitespace(back[i]));
            assert(lower[m + i] == back[i]);
        }
        crate::text::lemma_ascii_decodes(before);
        crate::text::lemma_ascii_decodes(after);
        assert(bytes =~= before + hit + after);
        assert(lower.subrange(n, m) =~= needle@);
        assert(crate::text::spec_ascii_lowercase(hit) =~= lower.subrange(n, m));
        if let Some((start, end)) = found {
            let all = crate::text::spec_ascii_lowercase(haystack);
            assert(crate::search::finds_needle(all, needle@, found));
            assert(crate::search::occurs_at(all, needle@, start as int));
            let part = haystack.subrange(start as int, end as int);
            assert(crate::text::spec_ascii_lowercase(part) =~= all.subrange(
                start as int,
                end as int,
            ));
            crate::search::lemma_same_in_lower_case(part, hit);
        }
        (crate::text::ascii_chars(before), hit, crate::text::ascii_chars(after))
    } else {
        let needle = prepared->Ok_0.0->Plain_0;
        let n = crate::text::leading_space(query) as int;
        crate::text::lemma_trim_bounds(query);
        let rest = query.skip(n);
        let m = rest.len() - crate::text::trailing_space(rest);
        let trimmed = rest.take(m);
        crate::text::lemma_leading_space(query);
        crate::text::lemma_trailing_space(rest);
        assert(query =~= query.take(n) + (trimmed + rest.skip(m)));
        crate::text::lemma_encode_concat(query.take(n), trimmed + rest.skip(m));
        crate::text::lemma_encode_concat(trimmed, rest.skip(m));
        let front = vstd::utf8::encode_utf8(query.take(n));
        let back = vstd::utf8::encode_utf8(rest.skip(m));
        assert(bytes =~= front + needle@ + back);
        if let Some((start, end)) = found {
            assert(crate::search::finds_needle(haystack, needle@, found));
            assert(crate::search::occurs_at(haystack, needle@, start as int));
        }
        (query.take(n), needle@, rest.skip(m))
    }
}

/// A regular expression is looked for in contents or in mime types, as was chosen, and not
/// looked for at all if it is none.
pub proof fn lemma_regex_is_looked_for(
    query: &str,
    kind: SearchKind,
    prepared: Result<(Matcher, Scope), RegexError>,
    haystack: &[u8],
    found: Option<(usize, usize)>,
)
    requires
        kind != SearchKind::Plain,
        call_ensures(prepare_query, (query, kind), prepared),
        prepared matches Ok((matcher, _)) ==> call_ensures(
            Matcher::find,
            (&matcher, haystack),
            found,
        ),
    ensures
        prepared is Ok <==> crate::search::regex_of(query@, usize::BITS) is Some,
        prepared matches Ok((_, scope)) ==> {
            &&& scope == Scope::MimeTypes <==> kind == SearchKind::Mime
            &&& found == crate::search::regex_match(
                crate::search::regex_of(query@, usize::BITS)->0,
                haystack@,
            )
        },
{
}

/// The length of a ring follows its write head: a ring that is not full is as long as its head
/// says, and one whose head is behind its end has filled up.
pub proof fn lemma_ring_is_brought_up_to_date(ring: &mut Ring<'_>)
    requires
        call_ensures(refresh_ring, (ring,), ()),
        old(ring).spec_write_head() <= old(ring).spec_capacity(),
        old(ring).spec_len() <= old(ring).spec_capacity(),
    ensures
        final(ring).mem() == old(ring).mem(),
        final(ring).spec_len() >= old(ring).spec_len(),
        old(ring).spec_write_head() >= old(ring).spec_len() ==> final(ring).spec_len()
            == old(ring).spec_write_head(),
        old(ring).spec_write_head() < old(ring).spec_len() ==> final(ring).spec_len()
            == old(ring).spec_capacity(),
{
}

/// A command changes nothing but what it is for: the server is asked to move or to remove the
/// entry that the command names, and only by commands that say so.
pub proof fn lemma_commands_are_carried_out(
    command: Command,
    database: &mut DatabaseReader<'_>,
    plan: Result<Plan, CommandError>,
)
    requires
        call_ensures(handle_command, (command, database), plan),
    ensures
        plan matches Ok(Plan::MoveToFront { id, to }) ==> command == if to == RingKind::Favorites {
            Command::Favorite(id)
        } else {
            Command::Unfavorite(id)
        },
        plan matches Ok(Plan::Remove { id }) ==> command == Command::Delete(id),
        command is Favorite || command is Unfavorite || command is Delete ==> plan is Ok
            && *final(database) == *old(database),
        plan matches Ok(Plan::Paste { entry }) ==> command == Command::Paste(entry.spec_id()),
        plan matches Ok(Plan::LoadImage { id, entry }) ==> command == Command::LoadImage(id) && id
            == entry.spec_id(),
        plan matches Ok(Plan::Details { id, entry, with_text }) ==> command
            == (Command::GetDetails { id, with_text }) && (entry matches Ok(entry)
            ==> entry.spec_id() == id),
        plan matches Ok(Plan::Search { .. }) ==> command is Search,
        plan matches Ok(Plan::FirstPage { .. }) ==> command is LoadFirstPage,
        final(database).spec_main().mem() == old(database).spec_main().mem(),
        final(database).spec_favorites().mem() == old(database).spec_favorites().mem(),
{
    assert(final(database).spec_ring(RingKind::Main) == final(database).spec_main());
    assert(final(database).spec_ring(RingKind::Favorites) == final(database).spec_favorites());
    if let Some(id) = looked_up(command) {
        if let Ok((kind, index)) = crate::protocol::spec_decompose_id(id) {
            crate::protocol::lemma_composite_of_decompose(id);
            crate::ring_reader::lemma_entries_are_found_by_id(*final(database), kind, index);
        }
    }
}

/// The text of an entry is shown in full, byte by byte, and contents that are not text have
/// none.
pub proof fn lemma_details_show_text(mime_type: &str, contents: Option<&[u8]>, details: DetailedEntry)
    requires
        call_ensures(finish_details, (mime_type, contents), details),
    ensures
        details.mime_type@ == mime_type@,
        details.full_text matches Some(text) ==> (contents matches Some(bytes)
            && vstd::utf8::encode_utf8(text@) == bytes@),
        forall|text: Seq<char>|
            contents is Some && contents->0@ == #[trigger] vstd::utf8::encode_utf8(text) ==> (
            details.full_text matches Some(full) && full@ == text),
{
    if let Some(bytes) = contents {
        if vstd::utf8::valid_utf8(bytes@) {
            vstd::utf8::decode_utf8_encode_utf8(bytes@);
        }
        assert forall|text: Seq<char>|
            bytes@ == #[trigger] vstd::utf8::encode_utf8(text) implies (
        details.full_text matches Some(full) && full@ == text) by {
            vstd::utf8::encode_utf8_valid_utf8(text);
            vstd::utf8::encode_utf8_decode_utf8(text);
        }
    }
}

/// The user is told of an entry that was moved under its new ID, and of one that was removed
/// under its old one, exactly if the server did what it was asked for.
pub proof fn lemma_outcomes_are_told(
    id: u64,
    moved: MoveToFrontResponse,
    removed: RemoveResponse,
    moved_outcome: Result<u64, CommandError>,
    removed_outcome: Result<u64, CommandError>,
)
    requires
        call_ensures(finish_move, (moved,), moved_outcome),
        call_ensures(finish_remove, (id, removed), removed_outcome),
    ensures
        moved_outcome is Ok <==> moved is Success,
        moved_outcome matches Ok(new_id) ==> moved == (MoveToFrontResponse::Success { id: new_id }),
        removed_outcome is Ok <==> removed.error is None,
        removed_outcome matches Ok(old_id) ==> old_id == id,
        moved_outcome matches Err(error) ==> error matches CommandError::IdNotFound(_),
        removed_outcome matches Err(error) ==> error matches CommandError::IdNotFound(_),
{
}

/// A match that is found in the database becomes one more result, at the place that was found
/// and with the range that matched, and one that is not becomes none.
pub proof fn lemma_match_becomes_result(
    session: &mut SearchSession,
    result: QueryResult,
    database: &DatabaseReader<'_>,
    resolved: Result<RingAndIndex, IdNotFoundError>,
)
    requires
        call_ensures(SearchSession::add_result, (session, result, database), resolved),
    ensures
        ({
            let before = old(session).spec_top().spec_seen();
            let after = final(session).spec_top().spec_seen();
            match resolved {
                Err(_) => after == before,
                Ok(rai) => {
                    let item = after.last();
                    &&& after.len() == before.len() + 1
                    &&& after.drop_last() == before
                    &&& item.start == result.start
                    &&& item.end == result.end
                    &&& final(session).place(item) == (rai.spec_ring(), rai.spec_index())
                },
            }
        }),
{
    if let Ok(rai) = resolved {
        let before = old(session).spec_top().spec_seen();
        let item = choose|item: SearchEntry|
            {
                &&& final(session).spec_top().spec_seen() == #[trigger] before.push(item)
                &&& item.start == result.start
                &&& item.end == result.end
                &&& final(session).place(item) == (rai.spec_ring(), rai.spec_index())
            };
        assert(before.push(item).drop_last() =~= before);
    }
}

/// No more than 256 results are shown, and less only if there are less.
pub proof fn lemma_results_are_limited(top: TopResults)
    requires
        top.wf(),
    ensures
        top.spec_items().len() <= 256,
        top.spec_items().len() == 256 || top.spec_items().len() == top.spec_seen().len(),
{
}

/// A direct file can be looked up if the ring that its ID names can hold it, and a slot of a
/// bucket if there can be that many entries.
pub proof fn lemma_locations_in_range(
    database: &DatabaseReader<'_>,
    index: u32,
    bucket_location: EntryLocation,
    in_bucket: bool,
    in_main: bool,
    in_favorites: bool,
)
    requires
        bucket_location is Bucketed && bucket_location->index == index,
        call_ensures(is_location_in_range, (database, bucket_location), in_bucket),
        call_ensures(
            is_location_in_range,
            (database, EntryLocation::File { entry_id: index as u64 }),
            in_favorites,
        ),
        call_ensures(
            is_location_in_range,
            (database, EntryLocation::File { entry_id: (index + 0x1_0000_0000) as u64 }),
            in_main,
        ),
    ensures
        in_bucket <==> index <= 0xf_ffff,
        in_favorites <==> index < database.spec_favorites().spec_capacity(),
        in_main <==> index < database.spec_main().spec_capacity(),
{
}

/// A space before or after a query does not matter: what is found is found in the same place
/// without it.
pub proof fn lemma_space_around_query(
    query: Seq<char>,
    front: bool,
    prepared: Result<(Matcher, Scope), RegexError>,
    spaced: Result<(Matcher, Scope), RegexError>,
    haystack: Seq<u8>,
    found: Option<(usize, usize)>,
    spaced_found: Option<(usize, usize)>,
)
    requires
        !crate::text::char_alphabetic(' '),
        is_matcher_for(query, SearchKind::Plain, prepared),
        is_matcher_for(
            if front {
                seq![' '] + query
            } else {
                query + seq![' ']
            },
            SearchKind::Plain,
            spaced,
        ),
        prepared matches Ok((matcher, _)) ==> matcher.finds(haystack, found),
        spaced matches Ok((matcher, _)) ==> matcher.finds(haystack, spaced_found),
    ensures
        found == spaced_found,
{
    let longer = if front {
        seq![' '] + query
    } else {
        query + seq![' ']
    };
    let at: int = if front {
        1
    } else {
        0
    };
    assert forall|i: int| 0 <= i < query.len() implies longer[i + at] == #[trigger] query[i] by {
    }
    if is_caseless(query) {
        assert forall|i: int| 0 <= i < longer.len() implies !crate::text::char_alphabetic(
            #[trigger] longer[i],
        ) || crate::text::char_lowercase(longer[i]) by {
            if 0 <= i - at < query.len() {
                assert(longer[i] == query[i - at]);
            } else {
                assert(longer[i] == ' ');
            }
        }
    }
    if is_caseless(longer) {
        assert forall|i: int| 0 <= i < query.len() implies !crate::text::char_alphabetic(
            #[trigger] query[i],
        ) || crate::text::char_lowercase(query[i]) by {
            assert(longer[i + at] == query[i]);
        }
    }
    lemma_space_is_trimmed(query, front);
    let bytes = vstd::utf8::encode_utf8(query);
    let space = seq![32u8];
    crate::text::lemma_ascii_decodes(space);
    assert(crate::text::ascii_chars(space) =~= seq![' ']);
    crate::text::lemma_encode_concat(seq![' '], query);
    crate::text::lemma_encode_concat(query, seq![' ']);
    let lower = crate::text::spec_ascii_lowercase(bytes);
    crate::search::lemma_space_is_trimmed(lower, front);
    if front {
        assert(crate::text::spec_ascii_lowercase(space + bytes) =~= space + lower);
    } else {
        assert(crate::text::spec_ascii_lowercase(bytes + space) =~= lower + space);
    }
    let all = crate::text::spec_ascii_lowercase(haystack);
    if is_caseless(query) {
        let needle = prepared->Ok_0.0->IgnoreCase_0;
        let other = spaced->Ok_0.0->IgnoreCase_0;
        assert(needle@ == other@);
        assert(crate::search::finds_needle(all, needle@, found));
        assert(crate::search::finds_needle(all, needle@, spaced_found));
        lemma_first_occurrence_is_one(all, needle@, found, spaced_found);
    } else {
        let needle = prepared->Ok_0.0->Plain_0;
        let other = spaced->Ok_0.0->Plain_0;
        assert(needle@ == other@);
        assert(crate::search::finds_needle(haystack, needle@, found));
        assert(crate::search::finds_needle(haystack, needle@, spaced_found));
        lemma_first_occurrence_is_one(haystack, needle@, found, spaced_found);
    }
}

proof fn lemma_first_occurrence_is_one(
    haystack: Seq<u8>,
    needle: Seq<u8>,
    a: Option<(usize, usize)>,
    b: Option<(usize, usize)>,
)
    requires
        crate::search::finds_needle(haystack, needle, a),
        crate::search::finds_needle(haystack, needle, b),
    ensures
        a == b,
{
    if let Some((start, end)) = a {
        assert(crate::search::occurs_at(haystack, needle, start as int));
    }
    if let Some((start, end)) = b {
        assert(crate::search::occurs_at(haystack, needle, start as int));
    }
}

proof fn lemma_space_is_trimmed(query: Seq<char>, front: bool)
    ensures
        crate::text::spec_trim(
            if front {
                seq![' '] + query
            } else {
                query + seq![' ']
            },
        ) == crate::text::spec_trim(query),
{
    let n = crate::text::leading_space(query) as int;
    crate::text::lemma_trim_bounds(query);
    if front {
        let longer = seq![' '] + query;
        assert(longer.drop_first() =~= query);
        assert(crate::text::leading_space(longer) == n + 1);
        assert(longer.skip(n + 1) =~= query.skip(n));
    } else {
        let longer = query + seq![' '];
        lemma_leading_space_of_longer(query);
        let rest = query.skip(n);
        if n < query.len() {
            assert(longer.skip(n) =~= rest.push(' '));
            assert(rest.push(' ').drop_last() =~= rest);
            assert(crate::text::trailing_space(rest.push(' ')) == crate::text::trailing_space(rest)
                + 1);
            let m = rest.len() - crate::text::trailing_space(rest);
            assert(rest.push(' ').take(m) =~= rest.take(m));
        } else {
            assert(longer.skip(n + 1) =~= Seq::<char>::empty());
            assert(rest =~= Seq::<char>::empty());
        }
    }
}

proof fn lemma_leading_space_of_longer(query: Seq<char>)
    ensures
        crate::text::leading_space(query + seq![' ']) == crate::text::leading_space(query) + if
        crate::text::leading_space(query) == query.len() {
            1nat
        } else {
            0
        },
    decreases query.len(),
{
    let longer = query + seq![' '];
    if query.len() == 0 {
        assert(longer.drop_first() =~= Seq::<char>::empty());
        assert(longer[0] == ' ');
        assert(crate::text::leading_space(longer.drop_first()) == 0);
    } else {
        assert(longer.drop_first() =~= query.drop_first() + seq![' ']);
        lemma_leading_space_of_longer(query.drop_first());
        crate::text::lemma_leading_space(query);
    }
}

} // verus!
