//! The state of the egui client's window, and how it reacts.

use std::collections::{HashMap, HashSet};

use arrayvec::ArrayVec;
use vstd::prelude::*;

use crate::protocol::{decompose_id, RingKind};
use crate::text::{parse_u64, starts_with};
use crate::ui_actor::{Command, DetailedEntry, Message, SearchKind};
use crate::ui_entry::UiEntry;
use crate::views::RingAndIndex;

verus! {

/// `itoa::Buffer::format`: the decimal digits of a number.
#[verifier::external_body]
fn itoa_format(n: u64) -> (digits: String)
    ensures
        digits@ == crate::text::decimal_text(n as nat),
{
    itoa::Buffer::new().format(n).to_owned()
}

/// The URI of an entry's image.
pub open spec fn spec_uri(id: u64) -> Seq<char> {
    "ringboard://"@ + crate::text::decimal_text(id as nat)
}

/// The URI of an entry's image.
pub fn format_uri(id: u64) -> (uri: String)
    ensures
        uri@ == spec_uri(id),
{
    let mut uri = "ringboard://".to_owned();
    let digits = itoa_format(id);
    uri.append(digits.as_str());
    uri
}

/// The ID in the URI of an image, if it is one of an entry.
pub open spec fn spec_uri_id(uri: Seq<u8>) -> Option<u64> {
    let prefix = vstd::utf8::encode_utf8("ringboard://"@);
    if crate::text::spec_starts_with(uri, prefix) {
        crate::text::spec_parse_u64(uri.skip(prefix.len() as int))
    } else {
        None
    }
}

/// The ID in the URI of an image, if it is one of an entry.
pub fn uri_id(uri: &str) -> (id: Option<u64>)
    ensures
        id == spec_uri_id(vstd::utf8::encode_utf8(uri@)),
{
    let bytes = uri.as_bytes();
    let prefix = "ringboard://".as_bytes();
    if !starts_with(bytes, prefix) {
        return None;
    }
    let digits = vstd::slice::slice_subrange(bytes, prefix.len(), bytes.len());
    assert(digits@ =~= bytes@.skip(prefix@.len() as int));
    parse_u64(digits)
}

/// The entry that the URI of an image belongs to, if it does to one.
pub fn uri_to_id(uri: &str) -> (rai: Option<RingAndIndex>)
    requires
        spec_uri_id(vstd::utf8::encode_utf8(uri@)) matches Some(id) ==> (
        crate::protocol::spec_decompose_id(id) matches Ok(parts) ==> parts.1
            <= crate::ring::MAX_ENTRIES),
    ensures
        match spec_uri_id(vstd::utf8::encode_utf8(uri@)) {
            None => rai is None,
            Some(id) => match crate::protocol::spec_decompose_id(id) {
                Err(_) => rai is None,
                Ok(parts) => rai matches Some(rai) && rai.wf() && rai.is(parts.0, parts.1),
            },
        },
{
    match uri_id(uri) {
        None => None,
        Some(id) => match RingAndIndex::from_id(id) {
            Ok(rai) => Some(rai),
            Err(_) => None,
        },
    }
}

/// The URI of an entry's image tells the entry.
pub proof fn lemma_uri_round_trip(id: u64)
    ensures
        spec_uri_id(vstd::utf8::encode_utf8(spec_uri(id))) == Some(id),
{
    let prefix = "ringboard://"@;
    let digits = crate::text::decimal(id as nat);
    crate::text::lemma_decimal_value(id as nat);
    crate::text::lemma_ascii_decodes(digits);
    crate::text::lemma_encode_concat(prefix, crate::text::ascii_chars(digits));
    let uri = vstd::utf8::encode_utf8(spec_uri(id));
    let start = vstd::utf8::encode_utf8(prefix);
    assert(uri =~= start + digits);
    assert(uri.take(start.len() as int) =~= start);
    assert(uri.skip(start.len() as int) =~= digits);
    crate::text::lemma_parse_of_decimal(id);
}

/// The IDs of entries.
pub open spec fn ids_of(entries: Seq<UiEntry>) -> Seq<u64> {
    Seq::new(entries.len(), |i: int| entries[i].entry.spec_id())
}

/// Appends the IDs of entries.
fn push_ids(entries: &Vec<UiEntry>, ids: &mut Vec<u64>)
    ensures
        final(ids)@ == old(ids)@ + ids_of(entries@),
{
    let mut i: usize = 0;
    assert(ids_of(entries@).take(0) =~= Seq::<u64>::empty());
    while i < entries.len()
        invariant
            i <= entries@.len(),
            ids@ == old(ids)@ + ids_of(entries@).take(i as int),
        decreases entries@.len() - i,
    {
        let ghost all = ids_of(entries@);
        ids.push(entries[i].entry.id());
        assert(all.take(i + 1) =~= all.take(i as int).push(all[i as int]));
        assert(ids@ =~= old(ids)@ + all.take(i + 1));
        i += 1;
    }
    assert(ids_of(entries@).take(entries@.len() as int) =~= ids_of(entries@));
}

/// The IDs that are no longer among the new ones, in order.
pub open spec fn gone(old_ids: Seq<u64>, new_ids: Seq<u64>) -> Seq<u64>
    decreases old_ids.len(),
{
    if old_ids.len() == 0 {
        Seq::empty()
    } else {
        let rest = gone(old_ids.drop_last(), new_ids);
        if new_ids.contains(old_ids.last()) {
            rest
        } else {
            rest.push(old_ids.last())
        }
    }
}

/// The entries whose images are no longer needed once the entries of `old1` and
/// `old2` give way to those of `new1` and `new2`.
pub fn remove_old_images(
    old1: &Vec<UiEntry>,
    old2: &Vec<UiEntry>,
    new1: &Vec<UiEntry>,
    new2: Option<&Vec<UiEntry>>,
) -> (dead: Vec<u64>)
    ensures
        dead@ == gone(
            ids_of(old1@) + ids_of(old2@),
            ids_of(new1@) + match new2 {
                Some(new2) => ids_of(new2@),
                None => Seq::empty(),
            },
        ),
{
    broadcast use vstd::std_specs::hash::group_hash_axioms;

    let mut old_ids: Vec<u64> = Vec::new();
    push_ids(old1, &mut old_ids);
    push_ids(old2, &mut old_ids);
    let mut new_ids: Vec<u64> = Vec::new();
    push_ids(new1, &mut new_ids);
    if let Some(new2) = new2 {
        push_ids(new2, &mut new_ids);
    }
    let ghost new_seq = new_ids@;
    assert(old_ids@ =~= ids_of(old1@) + ids_of(old2@));
    assert(new_seq =~= ids_of(new1@) + match new2 {
        Some(new2) => ids_of(new2@),
        None => Seq::empty(),
    });
    let mut set: HashSet<u64> = HashSet::new();
    let mut i: usize = 0;
    while i < new_ids.len()
        invariant
            i <= new_ids@.len(),
            new_ids@ == new_seq,
            forall|id: u64| #[trigger]
                set@.contains(id) <==> exists|j: int| 0 <= j < i && #[trigger] new_seq[j] == id,
        decreases new_ids@.len() - i,
    {
        broadcast use vstd::std_specs::hash::group_hash_axioms;

        let ghost before = set@;
        set.insert(new_ids[i]);
        assert forall|id: u64| #[trigger]
            set@.contains(id) <==> exists|j: int| 0 <= j < i + 1 && #[trigger] new_seq[j] == id by {
            if before.contains(id) {
                let j = choose|j: int| 0 <= j < i && #[trigger] new_seq[j] == id;
                assert(new_seq[j] == id);
            }
            if id == new_seq[i as int] {
                assert(set@.contains(id));
            }
        }
        i += 1;
    }
    let mut dead: Vec<u64> = Vec::new();
    let mut k: usize = 0;
    assert(old_ids@.take(0) =~= Seq::<u64>::empty());
    while k < old_ids.len()
        invariant
            k <= old_ids@.len(),
            new_ids@ == new_seq,
            forall|id: u64| #[trigger] set@.contains(id) <==> new_seq.contains(id),
            dead@ == gone(old_ids@.take(k as int), new_seq),
        decreases old_ids@.len() - k,
    {
        broadcast use vstd::std_specs::hash::group_hash_axioms;

        let ghost longer = old_ids@.take(k + 1);
        assert(longer.drop_last() =~= old_ids@.take(k as int));
        let id: u64 = old_ids[k];
        if !set.contains(&id) {
            dead.push(id);
        }
        k += 1;
    }
    assert(old_ids@.take(k as int) =~= old_ids@);
    dead
}

/// The state of the window.
pub struct State {
    pub loaded_entries: Vec<UiEntry>,
    pub search_results: Vec<UiEntry>,
    pub fatal_error: Option<String>,
    pub last_error: Option<String>,
    pub highlighted_id: Option<u64>,
    pub details_requested: Option<u64>,
    pub detailed_entry: Option<Result<DetailedEntry, String>>,
    pub query: String,
    pub search_highlighted_id: Option<u64>,
    pub search_kind: SearchKind,
    /// Whether a search is under way.
    pub pending_search: bool,
    pub was_focused: bool,
    pub skip_first_focus: bool,
}

impl Default for State {
    fn default() -> (state: State)
        ensures
            state.is_blank(),
            !state.was_focused,
            !state.skip_first_focus,
    {
        State {
            loaded_entries: Vec::new(),
            search_results: Vec::new(),
            fatal_error: None,
            last_error: None,
            highlighted_id: None,
            details_requested: None,
            detailed_entry: None,
            query: String::new(),
            search_highlighted_id: None,
            search_kind: SearchKind::default(),
            pending_search: false,
            was_focused: false,
            skip_first_focus: false,
        }
    }
}

/// What a message asks of the window system.
#[derive(Debug)]
pub struct Reaction {
    /// Entries whose images can be dropped.
    pub forget: Vec<u64>,
    pub close: bool,
}

impl State {
    /// Nothing is shown, searched for or wrong.
    pub open spec fn is_blank(self) -> bool {
        &&& self.loaded_entries@.len() == 0
        &&& self.search_results@.len() == 0
        &&& self.fatal_error is None
        &&& self.last_error is None
        &&& self.highlighted_id is None
        &&& self.details_requested is None
        &&& self.detailed_entry is None
        &&& self.query@.len() == 0
        &&& self.search_highlighted_id is None
        &&& self.search_kind == SearchKind::Plain
        &&& !self.pending_search
    }

    /// The state at startup: the first page is on its way already, so gaining the
    /// focus for the first time loads nothing.
    pub fn start() -> (state: State)
        ensures
            state.is_blank(),
            !state.was_focused,
            state.skip_first_focus,
    {
        let mut state = State::default();
        state.skip_first_focus = true;
        state
    }

    /// The entries that are shown: the search results if there is a query.
    pub open spec fn spec_active_entries(self) -> Seq<UiEntry> {
        if self.query@.len() == 0 {
            self.loaded_entries@
        } else {
            self.search_results@
        }
    }

    /// The entries that are shown.
    pub fn active_entries(&self) -> (entries: &Vec<UiEntry>)
        ensures
            entries@ == self.spec_active_entries(),
    {
        if self.query.as_str().is_empty() {
            &self.loaded_entries
        } else {
            &self.search_results
        }
    }

    /// The entry that is highlighted among those that are shown.
    pub open spec fn spec_active_highlight(self) -> Option<u64> {
        if self.query@.len() == 0 {
            self.highlighted_id
        } else {
            self.search_highlighted_id
        }
    }

    /// The entry that is highlighted among those that are shown.
    pub fn active_highlighted_id(&self) -> (id: Option<u64>)
        ensures
            id == self.spec_active_highlight(),
    {
        if self.query.as_str().is_empty() {
            self.highlighted_id
        } else {
            self.search_highlighted_id
        }
    }

    /// The state with another entry highlighted among those that are shown.
    pub open spec fn with_highlight(self, id: Option<u64>) -> State {
        if self.query@.len() == 0 {
            State { highlighted_id: id, ..self }
        } else {
            State { search_highlighted_id: id, ..self }
        }
    }

    /// Highlights another entry among those that are shown.
    pub fn set_active_highlight(&mut self, id: Option<u64>)
        ensures
            *final(self) == old(self).with_highlight(id),
    {
        if self.query.as_str().is_empty() {
            self.highlighted_id = id;
        } else {
            self.search_highlighted_id = id;
        }
    }

    /// Takes in a message from the worker. `search_done` tells whether the search
    /// under way is over. Images go to their loader, not here.
    pub fn handle_message(&mut self, message: Message, search_done: bool) -> (reaction: Reaction)
        requires
            !(message is LoadedImage),
        ensures
            reaction.close == (message is Pasted),
            match message {
                Message::FatalDbOpen(error) => *final(self) == (State {
                    fatal_error: Some(error),
                    ..*old(self)
                }) && reaction.forget@.len() == 0,
                Message::Error(error) => *final(self) == (State {
                    last_error: Some(error),
                    pending_search: old(self).pending_search && !search_done,
                    ..*old(self)
                }) && reaction.forget@.len() == 0,
                Message::LoadedFirstPage { entries, default_focused_id } => {
                    &&& *final(self) == (State {
                        loaded_entries: entries,
                        highlighted_id: if old(self).highlighted_id is None {
                            default_focused_id
                        } else {
                            old(self).highlighted_id
                        },
                        ..*old(self)
                    })
                    &&& reaction.forget@ == gone(
                        ids_of(old(self).loaded_entries@) + ids_of(old(self).search_results@),
                        ids_of(entries@) + ids_of(old(self).search_results@),
                    )
                },
                Message::EntryDetails { id, result } => *final(self) == (if old(
                    self,
                ).details_requested == Some(id) {
                    State { detailed_entry: Some(result), ..*old(self) }
                } else {
                    *old(self)
                }) && reaction.forget@.len() == 0,
                Message::SearchResults(entries) => {
                    &&& *final(self) == (State {
                        search_results: entries,
                        search_highlighted_id: if entries@.len() == 0 {
                            None
                        } else {
                            Some(entries@[0].entry.spec_id())
                        },
                        pending_search: old(self).pending_search && !search_done,
                        ..*old(self)
                    })
                    &&& reaction.forget@ == gone(
                        ids_of(old(self).loaded_entries@) + ids_of(old(self).search_results@),
                        ids_of(entries@) + ids_of(old(self).loaded_entries@),
                    )
                },
                Message::FavoriteChange(id) => *final(self) == old(self).with_highlight(Some(id))
                    && reaction.forget@.len() == 0,
                Message::Deleted(_) | Message::LoadedImage { .. } | Message::Pasted => *final(self)
                    == *old(self) && reaction.forget@.len() == 0,
            },
    {
        let mut forget: Vec<u64> = Vec::new();
        let mut close = false;
        match message {
            Message::FatalDbOpen(error) => {
                self.fatal_error = Some(error);
            },
            Message::Error(error) => {
                self.last_error = Some(error);
                self.pending_search = self.pending_search && !search_done;
            },
            Message::LoadedFirstPage { entries, default_focused_id } => {
                forget =
                remove_old_images(
                    &self.loaded_entries,
                    &self.search_results,
                    &entries,
                    Some(&self.search_results),
                );
                self.loaded_entries = entries;
                if self.highlighted_id.is_none() {
                    self.highlighted_id = default_focused_id;
                }
            },
            Message::EntryDetails { id, result } => {
                if self.details_requested == Some(id) {
                    self.detailed_entry = Some(result);
                }
            },
            Message::SearchResults(entries) => {
                self.pending_search = self.pending_search && !search_done;
                forget =
                remove_old_images(
                    &self.loaded_entries,
                    &self.search_results,
                    &entries,
                    Some(&self.loaded_entries),
                );
                self.search_highlighted_id =
                if entries.len() == 0 {
                    None
                } else {
                    Some(entries[0].entry.id())
                };
                self.search_results = entries;
            },
            Message::FavoriteChange(id) => {
                self.set_active_highlight(Some(id));
            },
            Message::Deleted(_) | Message::LoadedImage { .. } => {},
            Message::Pasted => {
                close = true;
            },
        }
        Reaction { forget, close }
    }
}

/// The first position of an ID.
pub open spec fn position_of(ids: Seq<u64>, id: u64) -> Option<int>
    decreases ids.len(),
{
    if ids.len() == 0 {
        None
    } else {
        match position_of(ids.drop_last(), id) {
            Some(i) => Some(i),
            None => if ids.last() == id {
                Some(ids.len() - 1)
            } else {
                None
            },
        }
    }
}

/// The first position of an entry.
fn find_entry(entries: &Vec<UiEntry>, id: u64) -> (position: Option<usize>)
    ensures
        match position {
            Some(i) => position_of(ids_of(entries@), id) == Some(i as int) && i < entries@.len(),
            None => position_of(ids_of(entries@), id) is None,
        },
{
    let mut i: usize = 0;
    let ghost ids = ids_of(entries@);
    assert(ids.take(0) =~= Seq::<u64>::empty());
    while i < entries.len()
        invariant
            i <= entries@.len(),
            ids == ids_of(entries@),
            position_of(ids.take(i as int), id) is None,
        decreases entries@.len() - i,
    {
        proof {
            assert(ids.take(i + 1).drop_last() =~= ids.take(i as int));
            assert(ids.take(i + 1).last() == ids[i as int]);
        }
        if entries[i].entry.id() == id {
            proof {
                lemma_position_in_prefix(ids, id, i + 1);
            }
            return Some(i);
        }
        i += 1;
    }
    assert(ids.take(i as int) =~= ids);
    None
}

/// The first position of an ID.
pub(crate) fn find_id(ids: &Vec<u64>, id: u64) -> (position: Option<usize>)
    ensures
        match position {
            Some(i) => position_of(ids@, id) == Some(i as int) && i < ids@.len(),
            None => position_of(ids@, id) is None,
        },
{
    let mut i: usize = 0;
    assert(ids@.take(0) =~= Seq::<u64>::empty());
    while i < ids.len()
        invariant
            i <= ids@.len(),
            position_of(ids@.take(i as int), id) is None,
        decreases ids@.len() - i,
    {
        proof {
            assert(ids@.take(i + 1).drop_last() =~= ids@.take(i as int));
            assert(ids@.take(i + 1).last() == ids@[i as int]);
        }
        if ids[i] == id {
            proof {
                lemma_position_in_prefix(ids@, id, i + 1);
            }
            return Some(i);
        }
        i += 1;
    }
    assert(ids@.take(i as int) =~= ids@);
    None
}

proof fn lemma_position_in_prefix(ids: Seq<u64>, id: u64, n: int)
    requires
        0 <= n <= ids.len(),
        position_of(ids.take(n), id) is Some,
    ensures
        position_of(ids, id) == position_of(ids.take(n), id),
    decreases ids.len() - n,
{
    if n < ids.len() {
        assert(ids.take(n + 1).drop_last() =~= ids.take(n));
        lemma_position_in_prefix(ids, id, n + 1);
    } else {
        assert(ids.take(n) =~= ids);
    }
}

/// The ID before the highlighted one, wrapping around.
pub open spec fn id_above(ids: Seq<u64>, highlighted: Option<u64>) -> Option<u64> {
    if ids.len() == 0 {
        None
    } else {
        match highlighted {
            None => Some(ids.last()),
            Some(id) => match position_of(ids, id) {
                None => Some(ids.last()),
                Some(i) => if i == 0 {
                    Some(ids.last())
                } else {
                    Some(ids[i - 1])
                },
            },
        }
    }
}

/// The ID after the highlighted one, wrapping around.
pub open spec fn id_below(ids: Seq<u64>, highlighted: Option<u64>) -> Option<u64> {
    if ids.len() == 0 {
        None
    } else {
        match highlighted {
            None => Some(ids[0]),
            Some(id) => match position_of(ids, id) {
                None => Some(ids[0]),
                Some(i) => if i == ids.len() - 1 {
                    Some(ids[0])
                } else {
                    Some(ids[i + 1])
                },
            },
        }
    }
}

/// The entry that is highlighted once the arrow keys were handled: first up, then
/// down.
pub open spec fn spec_arrow_keys(
    ids: Seq<u64>,
    highlighted: Option<u64>,
    up: bool,
    down: bool,
) -> Option<u64> {
    let above = if up {
        id_above(ids, highlighted)
    } else {
        highlighted
    };
    if down {
        id_below(ids, above)
    } else {
        above
    }
}

/// Moves the highlight with the arrow keys. Also tells whether to scroll to it.
pub fn handle_arrow_keys(
    entries: &Vec<UiEntry>,
    highlighted: Option<u64>,
    up_pressed: bool,
    down_pressed: bool,
) -> (moved: (Option<u64>, bool))
    requires
        entries@.len() > 0,
    ensures
        moved.0 == spec_arrow_keys(ids_of(entries@), highlighted, up_pressed, down_pressed),
        moved.1 == (up_pressed || down_pressed),
{
    let last: usize = entries.len() - 1;
    let ghost ids = ids_of(entries@);
    let mut highlighted_now = highlighted;
    if up_pressed {
        let target: usize = match highlighted_now {
            None => last,
            Some(id) => match find_entry(entries, id) {
                None => last,
                Some(i) => {
                    if i == 0 {
                        last
                    } else {
                        i - 1
                    }
                },
            },
        };
        highlighted_now = Some(entries[target].entry.id());
        assert(highlighted_now == Some(ids[target as int]));
    }
    if down_pressed {
        let target: usize = match highlighted_now {
            None => 0,
            Some(id) => match find_entry(entries, id) {
                None => 0,
                Some(i) => {
                    if i == last {
                        0
                    } else {
                        i + 1
                    }
                },
            },
        };
        highlighted_now = Some(entries[target].entry.id());
        assert(highlighted_now == Some(ids[target as int]));
    }
    (highlighted_now, up_pressed || down_pressed)
}

/// An ID has a position exactly if it is there.
pub proof fn lemma_position_contains(ids: Seq<u64>, id: u64)
    ensures
        position_of(ids, id) is Some <==> ids.contains(id),
    decreases ids.len(),
{
    if ids.len() > 0 {
        let front = ids.drop_last();
        lemma_position_contains(front, id);
        if front.contains(id) {
            let j = choose|j: int| 0 <= j < front.len() && front[j] == id;
            assert(ids[j] == id);
        }
        if ids.contains(id) && !front.contains(id) {
            let j = choose|j: int| 0 <= j < ids.len() && ids[j] == id;
            if j < front.len() {
                assert(front[j] == id);
            }
        }
        assert(ids[ids.len() - 1] == ids.last());
    }
}

proof fn lemma_position_of_distinct(ids: Seq<u64>, i: int)
    requires
        ids.no_duplicates(),
        0 <= i < ids.len(),
    ensures
        position_of(ids, ids[i]) == Some(i),
    decreases ids.len(),
{
    let front = ids.drop_last();
    if i < ids.len() - 1 {
        assert(front[i] == ids[i]);
        lemma_position_of_distinct(front, i);
    } else {
        assert forall|j: int| 0 <= j < front.len() implies #[trigger] front[j] != ids[i] by {
            assert(front[j] == ids[j]);
        }
        lemma_position_absent(front, ids[i]);
    }
}

/// In a list without repetitions the position of an ID is where it stands.
pub proof fn lemma_position_is_unique(ids: Seq<u64>, i: int)
    requires
        ids.no_duplicates(),
        0 <= i < ids.len(),
    ensures
        position_of(ids, ids[i]) == Some(i),
{
    lemma_position_of_distinct(ids, i);
}

proof fn lemma_position_absent(ids: Seq<u64>, id: u64)
    requires
        forall|j: int| 0 <= j < ids.len() ==> #[trigger] ids[j] != id,
    ensures
        position_of(ids, id) is None,
    decreases ids.len(),
{
    if ids.len() > 0 {
        assert forall|j: int| 0 <= j < ids.drop_last().len() implies #[trigger] ids.drop_last()[j]
            != id by {
            assert(ids.drop_last()[j] == ids[j]);
        }
        lemma_position_absent(ids.drop_last(), id);
    }
}

/// Going down undoes going up, as long as no entry is shown twice.
pub proof fn lemma_arrow_keys_undo(ids: Seq<u64>, i: int)
    requires
        ids.no_duplicates(),
        0 <= i < ids.len(),
    ensures
        id_below(ids, id_above(ids, Some(ids[i]))) == Some(ids[i]),
        id_above(ids, id_below(ids, Some(ids[i]))) == Some(ids[i]),
{
    let above = if i == 0 {
        ids.len() - 1
    } else {
        i - 1
    };
    let below = if i == ids.len() - 1 {
        0
    } else {
        i + 1
    };
    lemma_position_of_distinct(ids, i);
    lemma_position_of_distinct(ids, above);
    lemma_position_of_distinct(ids, below);
}

/// The kind of search once the key for regular expressions was pressed.
pub fn toggle_regex(kind: SearchKind) -> (toggled: SearchKind)
    ensures
        toggled == if kind == SearchKind::Regex {
            SearchKind::Plain
        } else {
            SearchKind::Regex
        },
{
    match kind {
        SearchKind::Regex => SearchKind::Plain,
        SearchKind::Plain | SearchKind::Mime => SearchKind::Regex,
    }
}

/// The kind of search once the key for mime types was pressed.
pub fn toggle_mime(kind: SearchKind) -> (toggled: SearchKind)
    ensures
        toggled == if kind == SearchKind::Mime {
            SearchKind::Plain
        } else {
            SearchKind::Mime
        },
{
    match kind {
        SearchKind::Mime => SearchKind::Plain,
        SearchKind::Plain | SearchKind::Regex => SearchKind::Mime,
    }
}

/// The hint in the empty search bar.
pub fn search_hint(kind: SearchKind) -> (hint: &'static str)
    ensures
        hint@ == match kind {
            SearchKind::Plain => "Search"@,
            SearchKind::Regex => "RegEx search"@,
            SearchKind::Mime => "Mime type search"@,
        },
{
    match kind {
        SearchKind::Plain => "Search",
        SearchKind::Regex => "RegEx search",
        SearchKind::Mime => "Mime type search",
    }
}

/// What happened to the search bar.
#[derive(Copy, Clone, Debug)]
pub struct SearchInput {
    pub kind_changed: bool,
    pub text_changed: bool,
    pub escape_pressed: bool,
    pub popup_open: bool,
    pub up_pressed: bool,
    pub down_pressed: bool,
    pub slash_pressed: bool,
    pub focused: bool,
}

/// What the search bar asks of the window system and of the worker.
#[derive(Debug)]
pub struct SearchReaction {
    pub close: bool,
    pub surrender_focus: bool,
    pub close_popups: bool,
    pub request_focus: bool,
    /// Entries whose images can be dropped.
    pub forget: Vec<u64>,
    /// The query to search for.
    pub search: Option<(String, SearchKind)>,
}

/// Whether a state is another one with the search taken back.
pub open spec fn is_search_reset(before: State, after: State) -> bool {
    &&& after.query@.len() == 0
    &&& after.search_results@.len() == 0
    &&& after == (State {
        query: after.query,
        search_results: after.search_results,
        search_highlighted_id: None,
        last_error: None,
        ..before
    })
}

/// The entries whose images are not needed without the search results.
pub open spec fn forgotten_on_reset(state: State) -> Seq<u64> {
    gone(
        ids_of(state.loaded_entries@) + ids_of(state.search_results@),
        ids_of(state.loaded_entries@),
    )
}

proof fn lemma_nothing_gone(old_ids: Seq<u64>, new_ids: Seq<u64>)
    requires
        forall|i: int| 0 <= i < old_ids.len() ==> new_ids.contains(#[trigger] old_ids[i]),
    ensures
        gone(old_ids, new_ids) == Seq::<u64>::empty(),
    decreases old_ids.len(),
{
    if old_ids.len() > 0 {
        assert forall|i: int| 0 <= i < old_ids.drop_last().len() implies new_ids.contains(
            #[trigger] old_ids.drop_last()[i],
        ) by {
            assert(old_ids.drop_last()[i] == old_ids[i]);
        }
        lemma_nothing_gone(old_ids.drop_last(), new_ids);
        assert(new_ids.contains(old_ids[old_ids.len() - 1]));
    }
}

impl State {
    /// Takes back the search.
    fn reset_search(&mut self) -> (forget: Vec<u64>)
        ensures
            is_search_reset(*old(self), *final(self)),
            forget@ == forgotten_on_reset(*old(self)),
    {
        let forget = remove_old_images(
            &self.loaded_entries,
            &self.search_results,
            &self.loaded_entries,
            None,
        );
        assert(ids_of(self.loaded_entries@) + Seq::<u64>::empty() =~= ids_of(
            self.loaded_entries@,
        ));
        self.query = String::new();
        self.search_results = Vec::new();
        self.search_highlighted_id = None;
        self.last_error = None;
        forget
    }

    /// Reacts to what happened to the search bar. Escape closes the window if
    /// nothing is searched for, and takes back the search otherwise. A query that
    /// was changed is searched for, or taken back if it is empty now.
    pub fn search_ui(&mut self, input: SearchInput) -> (reaction: SearchReaction)
        ensures
            ({
                let escape = input.escape_pressed && !input.popup_open;
                let changed = input.kind_changed || input.text_changed;
                let close = escape && old(self).query@.len() == 0;
                let emptied = escape || (changed && old(self).query@.len() == 0);
                &&& reaction.close == close
                &&& reaction.surrender_focus == (!close && (input.up_pressed
                    || input.down_pressed))
                &&& reaction.close_popups == (!close && input.slash_pressed)
                &&& reaction.request_focus == (!close && (input.slash_pressed || (!old(
                    self,
                ).was_focused && input.focused)))
                &&& if close {
                    *final(self) == *old(self) && reaction.search is None && reaction.forget@.len()
                        == 0
                } else if emptied {
                    is_search_reset(*old(self), *final(self)) && reaction.search is None
                        && reaction.forget@ == forgotten_on_reset(*old(self))
                } else if changed {
                    &&& *final(self) == (State {
                        last_error: None,
                        pending_search: true,
                        ..*old(self)
                    })
                    &&& reaction.search matches Some((query, kind)) && query@ == old(self).query@
                        && kind == old(self).search_kind
                    &&& reaction.forget@.len() == 0
                } else {
                    *final(self) == *old(self) && reaction.search is None && reaction.forget@.len()
                        == 0
                }
            }),
    {
        let mut reaction = SearchReaction {
            close: false,
            surrender_focus: false,
            close_popups: false,
            request_focus: false,
            forget: Vec::new(),
            search: None,
        };
        if input.escape_pressed && !input.popup_open {
            if self.query.as_str().is_empty() {
                reaction.close = true;
                return reaction;
            }
            reaction.forget = self.reset_search();
        }
        if input.up_pressed || input.down_pressed {
            reaction.surrender_focus = true;
        }
        if input.slash_pressed {
            reaction.close_popups = true;
            reaction.request_focus = true;
        }
        if !self.was_focused && input.focused {
            reaction.request_focus = true;
        }
        if !input.kind_changed && !input.text_changed {
            return reaction;
        }
        if self.query.as_str().is_empty() {
            let ghost before = *self;
            let mut again = self.reset_search();
            proof {
                if input.escape_pressed && !input.popup_open {
                    let ids = ids_of(before.loaded_entries@);
                    assert(ids + ids_of(before.search_results@) =~= ids);
                    assert forall|i: int| 0 <= i < ids.len() implies ids.contains(
                        #[trigger] ids[i],
                    ) by {}
                    lemma_nothing_gone(ids, ids);
                }
            }
            let ghost forgotten = reaction.forget@;
            reaction.forget.append(&mut again);
            assert(reaction.forget@ =~= forgotten_on_reset(*old(self)));
            return reaction;
        }
        self.last_error = None;
        reaction.search = Some((self.query.clone(), self.search_kind));
        self.pending_search = true;
        reaction
    }

    /// What to ask the worker for to be up to date: the first page, and the search
    /// once more if there is one.
    pub fn refresh(&mut self) -> (search: Option<(String, SearchKind)>)
        ensures
            *final(self) == (State {
                last_error: None,
                pending_search: old(self).pending_search || old(self).query@.len() > 0,
                ..*old(self)
            }),
            match search {
                Some((query, kind)) => old(self).query@.len() > 0 && query@ == old(self).query@
                    && kind == old(self).search_kind,
                None => old(self).query@.len() == 0,
            },
    {
        self.last_error = None;
        if self.query.as_str().is_empty() {
            return None;
        }
        self.pending_search = true;
        Some((self.query.clone(), self.search_kind))
    }

    /// Takes in whether the window has the focus. Tells whether to refresh: when
    /// the focus is gained, but not for the first time.
    pub fn update_focus(&mut self, focused: bool) -> (refresh: bool)
        ensures
            refresh == (!old(self).was_focused && focused && !old(self).skip_first_focus),
            *final(self) == (State {
                was_focused: focused,
                skip_first_focus: old(self).skip_first_focus && !focused,
                ..*old(self)
            }),
    {
        let refresh = !self.was_focused && focused && !self.skip_first_focus;
        if focused {
            self.skip_first_focus = false;
        }
        self.was_focused = focused;
        refresh
    }

    /// Starts anew, as if the window had just been opened.
    pub fn reload(&mut self)
        ensures
            final(self).is_blank(),
            final(self).was_focused == old(self).was_focused,
            !final(self).skip_first_focus,
    {
        let was_focused = self.was_focused;
        *self = State::default();
        self.was_focused = was_focused;
    }

    /// Reacts to the keys that move the highlight. Tells whether to scroll to it.
    pub fn move_highlight(&mut self, up_pressed: bool, down_pressed: bool, popup_open: bool) -> (
    try_scroll: bool)
        ensures
            ({
                let ids = ids_of(old(self).spec_active_entries());
                if ids.len() > 0 && !popup_open {
                    &&& *final(self) == old(self).with_highlight(
                        spec_arrow_keys(
                            ids,
                            old(self).spec_active_highlight(),
                            up_pressed,
                            down_pressed,
                        ),
                    )
                    &&& try_scroll == (up_pressed || down_pressed)
                } else {
                    *final(self) == *old(self) && !try_scroll
                }
            }),
    {
        if self.active_entries().len() == 0 || popup_open {
            return false;
        }
        let (highlighted, try_scroll) = handle_arrow_keys(
            self.active_entries(),
            self.active_highlighted_id(),
            up_pressed,
            down_pressed,
        );
        self.set_active_highlight(highlighted);
        try_scroll
    }

    /// What is shown in place of entries.
    pub fn empty_label(&self) -> (label: &'static str)
        ensures
            label@ == if self.pending_search {
                "Loading…"@
            } else {
                "Nothing to see here"@
            },
    {
        if self.pending_search {
            "Loading…"
        } else {
            "Nothing to see here"
        }
    }

    /// Reacts to the pointer over an entry: moving it there highlights the entry,
    /// unless the keys are being used.
    pub fn hover(&mut self, id: u64, try_scroll: bool, pointer_moved_over: bool)
        ensures
            *final(self) == if !try_scroll && pointer_moved_over {
                old(self).with_highlight(Some(id))
            } else {
                *old(self)
            },
    {
        if !try_scroll && pointer_moved_over {
            self.set_active_highlight(Some(id));
        }
    }

    /// Opens the details of an entry. They are asked for unless they were for this
    /// entry already.
    pub fn open_details(&mut self, id: u64, is_text: bool) -> (command: Option<Command>)
        ensures
            old(self).details_requested == Some(id) ==> command is None && *final(self) == *old(
                self,
            ),
            old(self).details_requested != Some(id) ==> command == Some(
                Command::GetDetails { id, with_text: is_text },
            ) && *final(self) == (State {
                details_requested: Some(id),
                detailed_entry: None,
                ..*old(self)
            }),
    {
        if self.details_requested == Some(id) {
            return None;
        }
        self.details_requested = Some(id);
        self.detailed_entry = None;
        Some(Command::GetDetails { id, with_text: is_text })
    }

    /// Moves the highlight off the entry at `index`, which is being deleted: to
    /// the one after it, or else to the one before it.
    pub fn highlight_after_delete(&mut self, index: usize)
        ensures
            ({
                let ids = ids_of(old(self).spec_active_entries());
                let before = if index == 0 {
                    0
                } else {
                    index - 1
                };
                *final(self) == old(self).with_highlight(
                    if index + 1 < ids.len() {
                        Some(ids[index + 1])
                    } else if before < ids.len() {
                        Some(ids[before])
                    } else {
                        None
                    },
                )
            }),
    {
        let entries = self.active_entries();
        let after: usize = index.saturating_add(1);
        let before: usize = index.saturating_sub(1);
        let ghost ids = ids_of(entries@);
        let id = if after < entries.len() {
            assert(ids[after as int] == entries@[after as int].entry.spec_id());
            Some(entries[after].entry.id())
        } else if before < entries.len() {
            Some(entries[before].entry.id())
        } else {
            None
        };
        self.set_active_highlight(id);
    }
}

/// The command behind the button that moves an entry to the other ring.
pub fn favorite_command(ring: RingKind, id: u64) -> (command: Command)
    ensures
        command == match ring {
            RingKind::Favorites => Command::Unfavorite(id),
            RingKind::Main => Command::Favorite(id),
        },
{
    match ring {
        RingKind::Favorites => Command::Unfavorite(id),
        RingKind::Main => Command::Favorite(id),
    }
}

/// Whether a line is drawn between two entries: after the last favorite.
pub fn needs_separator(previous: Option<RingKind>, next: RingKind) -> (separator: bool)
    ensures
        separator == (previous == Some(RingKind::Favorites) && next == RingKind::Main),
{
    match (previous, next) {
        (Some(RingKind::Favorites), RingKind::Main) => true,
        _ => false,
    }
}

/// `arrayvec::ArrayVec`: an array of limited size.
#[verifier::external_type_specification]
#[verifier::external_body]
#[verifier::reject_recursive_types(T)]
pub struct ExArrayVec<T, const CAP: usize>(ArrayVec<T, CAP>);

/// The numbers in an array, in order.
pub uninterp spec fn array_items(array: ArrayVec<u64, 10>) -> Seq<u64>;

/// `ArrayVec::new_const`: holds nothing.
#[verifier::external_body]
fn array_new() -> (array: ArrayVec<u64, 10>)
    ensures
        array_items(array) == Seq::<u64>::empty(),
{
    ArrayVec::new_const()
}

/// `ArrayVec::try_push`: adds a number at the end, unless there are ten.
#[verifier::external_body]
fn array_try_push(array: &mut ArrayVec<u64, 10>, n: u64) -> (pushed: bool)
    ensures
        pushed == (array_items(*old(array)).len() < 10),
        array_items(*final(array)) == if pushed {
            array_items(*old(array)).push(n)
        } else {
            array_items(*old(array))
        },
{
    array.try_push(n).is_ok()
}

/// `ArrayVec::as_slice`: all the numbers in order.
#[verifier::external_body]
fn array_as_slice(array: &ArrayVec<u64, 10>) -> (numbers: &[u64])
    ensures
        numbers@ == array_items(*array),
{
    array.as_slice()
}

/// The first entries on the screen, which can be pasted by their number.
#[derive(Debug)]
pub struct FastPaste {
    ids: ArrayVec<u64, 10>,
}

impl View for FastPaste {
    type V = Seq<u64>;

    closed spec fn view(&self) -> Seq<u64> {
        array_items(self.ids)
    }
}

impl FastPaste {
    pub open spec fn wf(self) -> bool {
        self@.len() <= 10
    }

    pub fn new() -> (buffer: FastPaste)
        ensures
            buffer.wf(),
            buffer@ == Seq::<u64>::empty(),
    {
        FastPaste { ids: array_new() }
    }

    /// Numbers one more entry, if there are numbers left. Returns its number.
    pub fn push(&mut self, id: u64) -> (number: Option<usize>)
        requires
            old(self).wf(),
        ensures
            final(self).wf(),
            if old(self)@.len() < 10 {
                number == Some(old(self)@.len() as usize) && final(self)@ == old(self)@.push(id)
            } else {
                number is None && final(self)@ == old(self)@
            },
    {
        let number: usize = array_as_slice(&self.ids).len();
        if array_try_push(&mut self.ids, id) {
            Some(number)
        } else {
            None
        }
    }

    /// The entry with the given number.
    pub fn get(&self, number: usize) -> (id: Option<u64>)
        ensures
            id == if number < self@.len() {
                Some(self@[number as int])
            } else {
                None
            },
    {
        let ids = array_as_slice(&self.ids);
        if number < ids.len() {
            Some(ids[number])
        } else {
            None
        }
    }
}

/// An image that was asked for.
#[derive(Debug)]
pub enum CachedImage<I> {
    Queued,
    Computed(I),
}

/// The images of entries, by ID.
#[derive(Debug)]
pub struct RingboardLoader<I> {
    pub cache: HashMap<u64, CachedImage<I>>,
}

/// What there is of an image.
#[derive(Debug)]
pub enum ImageLoad<'a, I> {
    /// The URI is not one of an entry.
    NotSupported,
    /// The image of this entry has to be loaded.
    Request(u64),
    Pending,
    Ready(&'a I),
}

/// The entry that a URI is of: its number names a ring and an index.
pub open spec fn uri_entry(uri: Seq<char>) -> Option<u64> {
    match spec_uri_id(vstd::utf8::encode_utf8(uri)) {
        Some(id) => if crate::protocol::spec_decompose_id(id) is Ok {
            Some(id)
        } else {
            None
        },
        None => None,
    }
}

fn entry_of_uri(uri: &str) -> (id: Option<u64>)
    ensures
        id == uri_entry(uri@),
{
    match uri_id(uri) {
        Some(id) => match decompose_id(id) {
            Ok(_) => Some(id),
            Err(_) => None,
        },
        None => None,
    }
}

/// What there is of an image.
pub open spec fn spec_image_load<'a, I>(
    cache: Map<u64, CachedImage<I>>,
    uri: Seq<char>,
) -> ImageLoad<'a, I> {
    match uri_entry(uri) {
        None => ImageLoad::NotSupported,
        Some(id) => if !cache.dom().contains(id) {
            ImageLoad::Request(id)
        } else {
            match cache[id] {
                CachedImage::Queued => ImageLoad::Pending,
                CachedImage::Computed(image) => ImageLoad::Ready(&image),
            }
        },
    }
}

/// The images after one was asked for.
pub open spec fn cache_after_load<I>(cache: Map<u64, CachedImage<I>>, uri: Seq<char>) -> Map<
    u64,
    CachedImage<I>,
> {
    match uri_entry(uri) {
        Some(id) if !cache.dom().contains(id) => cache.insert(id, CachedImage::Queued),
        _ => cache,
    }
}

impl<I> RingboardLoader<I> {
    #[must_use]
    pub fn new() -> (loader: RingboardLoader<I>)
        ensures
            loader.cache@ == Map::<u64, CachedImage<I>>::empty(),
    {
        RingboardLoader { cache: HashMap::new() }
    }

    /// Keeps the image of an entry.
    pub fn add(&mut self, id: u64, image: I)
        requires
            crate::protocol::spec_decompose_id(id) is Ok,
        ensures
            final(self).cache@ == old(self).cache@.insert(id, CachedImage::Computed(image)),
    {
        broadcast use vstd::std_specs::hash::group_hash_axioms;

        self.cache.insert(id, CachedImage::Computed(image));
    }

    /// What there is of an image. Each is asked for once.
    pub fn load(&mut self, uri: &str) -> (load: ImageLoad<'_, I>)
        ensures
            load == spec_image_load(old(self).cache@, uri@),
            final(self).cache@ == cache_after_load(old(self).cache@, uri@),
    {
        broadcast use vstd::std_specs::hash::group_hash_axioms;

        match entry_of_uri(uri) {
            None => ImageLoad::NotSupported,
            Some(id) => {
                if !self.cache.contains_key(&id) {
                    self.cache.insert(id, CachedImage::Queued);
                    return ImageLoad::Request(id);
                }
                match self.cache.get(&id) {
                    Some(CachedImage::Computed(image)) => ImageLoad::Ready(image),
                    _ => ImageLoad::Pending,
                }
            },
        }
    }

    /// Drops an image.
    pub fn forget(&mut self, uri: &str)
        ensures
            final(self).cache@ == match uri_entry(uri@) {
                Some(id) => old(self).cache@.remove(id),
                None => old(self).cache@,
            },
    {
        broadcast use vstd::std_specs::hash::group_hash_axioms;

        if let Some(id) = entry_of_uri(uri) {
            self.cache.remove(&id);
        }
    }

    /// Drops all images.
    pub fn forget_all(&mut self)
        ensures
            final(self).cache@ == Map::<u64, CachedImage<I>>::empty(),
    {
        broadcast use vstd::std_specs::hash::group_hash_axioms;

        self.cache.clear();
    }
}

/// Once an image was asked for it is not asked for again, whatever else is asked for
/// in between.
pub proof fn lemma_image_requested_once<I>(
    cache: Map<u64, CachedImage<I>>,
    uri: Seq<char>,
    other: Seq<char>,
)
    ensures
        !(spec_image_load(cache_after_load(cache, uri), uri) is Request),
        !(spec_image_load(cache, uri) is Request) ==> !(spec_image_load(
            cache_after_load(cache, other),
            uri,
        ) is Request),
{
}

/// What is known of a font that was looked for.
#[derive(Copy, Clone, Eq, PartialEq, Debug, Structural)]
pub enum FontMatch {
    NotFound,
    /// It is in a file.
    File { already_loaded: bool, readable: bool },
    /// It is in memory.
    Memory,
}

/// What to do about a font that was looked for.
#[derive(Copy, Clone, Eq, PartialEq, Debug, Structural)]
pub enum FontStep {
    /// Look for the next one.
    TryNext,
    /// No further font is needed for the script.
    Stop,
    /// Take this one; its file counts as loaded if it is in one.
    Take,
}

/// What to do about a font that was looked for. One that serves another script
/// already serves this one too.
#[must_use]
pub fn font_step(found: FontMatch) -> (step: FontStep)
    ensures
        step == match found {
            FontMatch::NotFound => FontStep::TryNext,
            FontMatch::File { already_loaded: true, .. } => FontStep::Stop,
            FontMatch::File { readable: true, .. } => FontStep::Take,
            FontMatch::File { .. } => FontStep::TryNext,
            FontMatch::Memory => FontStep::Take,
        },
{
    match found {
        FontMatch::NotFound => FontStep::TryNext,
        FontMatch::File { already_loaded, readable } => {
            if already_loaded {
                FontStep::Stop
            } else if readable {
                FontStep::Take
            } else {
                FontStep::TryNext
            }
        },
        FontMatch::Memory => FontStep::Take,
    }
}

/// An image is dropped exactly if its entry was shown and is not any more.
pub proof fn lemma_gone(old_ids: Seq<u64>, new_ids: Seq<u64>)
    ensures
        gone(old_ids, new_ids) == old_ids.filter(|id: u64| !new_ids.contains(id)),
        forall|id: u64| #[trigger]
            gone(old_ids, new_ids).contains(id) <==> old_ids.contains(id) && !new_ids.contains(id),
{
    lemma_gone_is_filter(old_ids, new_ids);
    assert forall|id: u64| #[trigger] gone(old_ids, new_ids).contains(id) <==> old_ids.contains(id)
        && !new_ids.contains(id) by {
        lemma_gone_contains(old_ids, new_ids, id);
    }
}

proof fn lemma_gone_is_filter(old_ids: Seq<u64>, new_ids: Seq<u64>)
    ensures
        gone(old_ids, new_ids) == old_ids.filter(|id: u64| !new_ids.contains(id)),
    decreases old_ids.len(),
{
    reveal(Seq::filter);
    if old_ids.len() > 0 {
        lemma_gone_is_filter(old_ids.drop_last(), new_ids);
    } else {
        assert(old_ids =~= Seq::<u64>::empty());
    }
}

proof fn lemma_gone_contains(old_ids: Seq<u64>, new_ids: Seq<u64>, id: u64)
    ensures
        gone(old_ids, new_ids).contains(id) <==> old_ids.contains(id) && !new_ids.contains(id),
    decreases old_ids.len(),
{
    if old_ids.len() > 0 {
        let front = old_ids.drop_last();
        let rest = gone(front, new_ids);
        let all = gone(old_ids, new_ids);
        lemma_gone_contains(front, new_ids, id);
        assert(old_ids =~= front.push(old_ids.last()));
        if front.contains(id) {
            let j = choose|j: int| 0 <= j < front.len() && front[j] == id;
            assert(old_ids[j] == id);
        }
        assert(old_ids[old_ids.len() - 1] == old_ids.last());
        if rest.contains(id) {
            let j = choose|j: int| 0 <= j < rest.len() && rest[j] == id;
            assert(all[j] == id);
        }
        if all.len() > rest.len() {
            assert(all[all.len() - 1] == old_ids.last());
        }
    }
}

/// Whatever comes from the worker, the images that may be dropped are those of entries that
/// were shown before and are not shown after, and of all of these.
pub proof fn lemma_unneeded_images_are_dropped(
    state: &mut State,
    message: Message,
    search_done: bool,
    reaction: Reaction,
    id: u64,
)
    requires
        call_ensures(State::handle_message, (state, message, search_done), reaction),
    ensures
        reaction.forget@.contains(id) <==> {
            &&& ids_of(old(state).loaded_entries@).contains(id) || ids_of(
                old(state).search_results@,
            ).contains(id)
            &&& !ids_of(final(state).loaded_entries@).contains(id)
            &&& !ids_of(final(state).search_results@).contains(id)
        },
{
    let loaded = ids_of(old(state).loaded_entries@);
    let results = ids_of(old(state).search_results@);
    lemma_contains_concat(loaded, results, id);
    match message {
        Message::LoadedFirstPage { entries, .. } => {
            lemma_contains_concat(ids_of(entries@), results, id);
            lemma_gone(loaded + results, ids_of(entries@) + results);
        },
        Message::SearchResults(entries) => {
            lemma_contains_concat(ids_of(entries@), loaded, id);
            lemma_gone(loaded + results, ids_of(entries@) + loaded);
        },
        _ => {},
    }
}

proof fn lemma_contains_concat(a: Seq<u64>, b: Seq<u64>, id: u64)
    ensures
        (a + b).contains(id) <==> a.contains(id) || b.contains(id),
{
    if a.contains(id) {
        let i = choose|i: int| 0 <= i < a.len() && a[i] == id;
        assert((a + b)[i] == id);
    }
    if b.contains(id) {
        let i = choose|i: int| 0 <= i < b.len() && b[i] == id;
        assert((a + b)[a.len() + i] == id);
    }
    if (a + b).contains(id) {
        let i = choose|i: int| 0 <= i < (a + b).len() && (a + b)[i] == id;
        if i < a.len() {
            assert(a[i] == id);
        } else {
            assert(b[i - a.len()] == id);
        }
    }
}

/// What the worker has loaded or found is what is shown, with the first result highlighted,
/// and nothing else of the window changes with it.
pub proof fn lemma_loaded_entries_are_shown(
    state: &mut State,
    message: Message,
    search_done: bool,
    reaction: Reaction,
)
    requires
        call_ensures(State::handle_message, (state, message, search_done), reaction),
    ensures
        final(state).query == old(state).query,
        final(state).search_kind == old(state).search_kind,
        final(state).details_requested == old(state).details_requested,
        message matches Message::LoadedFirstPage { entries, default_focused_id } ==> {
            &&& final(state).loaded_entries == entries
            &&& final(state).search_results == old(state).search_results
            &&& old(state).highlighted_id is None ==> final(state).highlighted_id
                == default_focused_id
            &&& old(state).highlighted_id is Some ==> final(state).highlighted_id == old(
                state,
            ).highlighted_id
        },
        message matches Message::SearchResults(entries) ==> {
            &&& final(state).search_results == entries
            &&& final(state).loaded_entries == old(state).loaded_entries
            &&& entries@.len() > 0 ==> final(state).search_highlighted_id == Some(
                entries@[0].entry.spec_id(),
            )
        },
        message matches Message::EntryDetails { id, result } ==> (if old(state).details_requested
            == Some(id) {
            final(state).detailed_entry == Some(result)
        } else {
            final(state).detailed_entry == old(state).detailed_entry
        }),
        message matches Message::Error(error) ==> final(state).last_error == Some(error),
        message matches Message::FatalDbOpen(error) ==> final(state).fatal_error == Some(error),
        reaction.close <==> message is Pasted,
{
}

/// The arrow keys go from one entry to the next, or to the one before, around the ends; from
/// nowhere they go to the first or to the last.
pub proof fn lemma_arrow_keys_step(
    entries: &Vec<UiEntry>,
    highlighted: Option<u64>,
    down: bool,
    moved: (Option<u64>, bool),
    i: int,
)
    requires
        entries@.len() > 0,
        ids_of(entries@).no_duplicates(),
        call_ensures(handle_arrow_keys, (entries, highlighted, !down, down), moved),
        0 <= i < entries@.len(),
    ensures
        moved.1,
        highlighted == Some(entries@[i].entry.spec_id()) ==> moved.0 == Some(
            entries@[if down {
                (i + 1) % (entries@.len() as int)
            } else {
                (i + entries@.len() - 1) % (entries@.len() as int)
            }].entry.spec_id(),
        ),
        highlighted is None ==> moved.0 == Some(
            entries@[if down {
                0
            } else {
                entries@.len() - 1
            }].entry.spec_id(),
        ),
{
    let ids = ids_of(entries@);
    let n = ids.len() as int;
    lemma_position_of_distinct(ids, i);
    if i + 1 < n {
        vstd::arithmetic::div_mod::lemma_small_mod((i + 1) as nat, n as nat);
    } else {
        vstd::arithmetic::div_mod::lemma_mod_self_0(n);
    }
    if i > 0 {
        vstd::arithmetic::div_mod::lemma_mod_add_multiples_vanish(i - 1, n);
        vstd::arithmetic::div_mod::lemma_small_mod((i - 1) as nat, n as nat);
    } else {
        vstd::arithmetic::div_mod::lemma_small_mod((n - 1) as nat, n as nat);
    }
}

/// After an entry is deleted the highlight is on one of the others that are next to it, if
/// there are others: on the next one, or on the one before if it was the last.
pub proof fn lemma_highlight_leaves_deleted_entry(state: &mut State, index: usize)
    requires
        call_ensures(State::highlight_after_delete, (state, index), ()),
        index < old(state).spec_active_entries().len(),
        ids_of(old(state).spec_active_entries()).no_duplicates(),
        old(state).spec_active_entries().len() >= 2,
    ensures
        ({
            let shown = old(state).spec_active_entries();
            let at = if index == shown.len() - 1 {
                index - 1
            } else {
                index + 1
            };
            &&& final(state).spec_active_highlight() == Some(shown[at].entry.spec_id())
            &&& final(state).spec_active_highlight() != Some(shown[index as int].entry.spec_id())
            &&& final(state).spec_active_entries() == shown
        }),
{
    let ids = ids_of(old(state).spec_active_entries());
    let at = if index == ids.len() - 1 {
        index - 1
    } else {
        index + 1
    };
    assert(ids[at] != ids[index as int]);
}

/// The escape key empties the search, and closes the window only if there is none. A query
/// that was typed is searched for as it is.
pub proof fn lemma_search_bar(state: &mut State, input: SearchInput, reaction: SearchReaction)
    requires
        call_ensures(State::search_ui, (state, input), reaction),
    ensures
        reaction.close <==> input.escape_pressed && !input.popup_open && old(state).query@.len()
            == 0,
        input.escape_pressed && !input.popup_open ==> final(state).query@.len() == 0
            && reaction.search is None,
        !(input.escape_pressed && !input.popup_open) ==> final(state).query@ == old(state).query@,
        reaction.search is Some <==> !(input.escape_pressed && !input.popup_open) && (
        input.kind_changed || input.text_changed) && old(state).query@.len() > 0,
        reaction.search matches Some((query, kind)) ==> query@ == final(state).query@ && kind
            == final(state).search_kind && final(state).pending_search,
        final(state).loaded_entries == old(state).loaded_entries,
        final(state).highlighted_id == old(state).highlighted_id,
        !reaction.close && input.text_changed && final(state).query@.len() == 0 ==> final(state).search_results@.len() == 0 && final(state).search_highlighted_id is None,
{
}

/// An entry that is numbered is found by its number, and the first ten entries are
/// numbered from zero on.
pub proof fn lemma_fast_paste(buffer: &mut FastPaste, id: u64, number: Option<usize>)
    requires
        old(buffer).wf(),
        call_ensures(FastPaste::push, (buffer, id), number),
    ensures
        number is Some <==> old(buffer)@.len() < 10,
        number matches Some(number) ==> {
            &&& number == old(buffer)@.len()
            &&& forall|found: Option<u64>| #[trigger]
                call_ensures(FastPaste::get, (&*final(buffer), number), found) ==> found == Some(id)
        },
        forall|other: usize, found: Option<u64>|
            other < old(buffer)@.len() && #[trigger] call_ensures(
                FastPaste::get,
                (&*final(buffer), other),
                found,
            ) ==> found == Some(old(buffer)@[other as int]),
{
}

/// An image that was kept is there until it is dropped, and is then asked for again.
pub proof fn lemma_image_is_kept<I>(
    cache: Map<u64, CachedImage<I>>,
    id: u64,
    image: I,
)
    requires
        id < 0x2_0000_0000,
    ensures
        uri_entry(spec_uri(id)) == Some(id),
        spec_image_load(cache.insert(id, CachedImage::Computed(image)), spec_uri(id))
            == ImageLoad::<I>::Ready(&image),
        spec_image_load(cache.remove(id), spec_uri(id)) == ImageLoad::<I>::Request(id),
        cache_after_load(cache.remove(id), spec_uri(id)).dom().contains(id),
        forall|other: u64|
            other != id && cache.dom().contains(other) ==> #[trigger] cache_after_load(
                cache,
                spec_uri(id),
            )[other] == cache[other],
{
    lemma_uri_round_trip(id);
}

/// Pressing the key of a kind of search twice leads back to a plain search, from any kind
/// but the other one; a press always changes the kind.
pub proof fn lemma_kinds_are_toggled(kind: SearchKind, regex: SearchKind, mime: SearchKind)
    requires
        call_ensures(toggle_regex, (kind,), regex),
        call_ensures(toggle_mime, (kind,), mime),
    ensures
        regex != kind && mime != kind,
        regex == SearchKind::Regex || (kind == SearchKind::Regex && regex == SearchKind::Plain),
        mime == SearchKind::Mime || (kind == SearchKind::Mime && mime == SearchKind::Plain),
{
}

/// The button of a favorite takes it out of the favorites, that of another entry makes it
/// one, and it is about the entry itself.
pub proof fn lemma_favorite_button(ring: RingKind, id: u64, command: Command)
    requires
        call_ensures(favorite_command, (ring, id), command),
    ensures
        command matches Command::Favorite(other) ==> ring == RingKind::Main && other == id,
        command matches Command::Unfavorite(other) ==> ring == RingKind::Favorites && other == id,
        command is Favorite || command is Unfavorite,
{
}

/// The window is refreshed when it gains the focus, every time but the first, and not
/// while it keeps it.
pub proof fn lemma_refreshed_on_focus(state: &mut State, focused: bool, refresh: bool)
    requires
        call_ensures(State::update_focus, (state, focused), refresh),
    ensures
        final(state).was_focused == focused,
        refresh ==> focused && !old(state).was_focused,
        focused ==> !final(state).skip_first_focus,
        focused && !old(state).was_focused && !old(state).skip_first_focus ==> refresh,
        final(state).query == old(state).query,
        final(state).loaded_entries == old(state).loaded_entries,
{
}

/// The pointer highlights the entry that it moves over, unless the keys have just been
/// used.
pub proof fn lemma_pointer_highlights(
    state: &mut State,
    id: u64,
    try_scroll: bool,
    pointer_moved_over: bool,
)
    requires
        call_ensures(State::hover, (state, id, try_scroll, pointer_moved_over), ()),
    ensures
        final(state).spec_active_highlight() == if pointer_moved_over && !try_scroll {
            Some(id)
        } else {
            old(state).spec_active_highlight()
        },
        final(state).spec_active_entries() == old(state).spec_active_entries(),
{
}

/// Details are asked for once per entry that they are opened for, and are those of that
/// entry.
pub proof fn lemma_details_are_asked_for(
    state: &mut State,
    id: u64,
    is_text: bool,
    command: Option<Command>,
)
    requires
        call_ensures(State::open_details, (state, id, is_text), command),
    ensures
        final(state).details_requested == Some(id),
        command is Some <==> old(state).details_requested != Some(id),
        command matches Some(command) ==> command == (Command::GetDetails { id, with_text: is_text })
            && final(state).detailed_entry is None,
{
}

/// What is being searched for is searched for again on a refresh, and stays as it is.
pub proof fn lemma_refresh_searches_again(
    state: &mut State,
    search: Option<(String, SearchKind)>,
)
    requires
        call_ensures(State::refresh, (state,), search),
    ensures
        search is Some <==> old(state).query@.len() > 0,
        search matches Some((query, kind)) ==> query@ == old(state).query@ && kind == old(state).search_kind && final(state).pending_search,
        final(state).query == old(state).query,
        final(state).loaded_entries == old(state).loaded_entries,
        final(state).search_results == old(state).search_results,
{
}

/// Between favorites and others a line is drawn, once in a list with the favorites first.
pub proof fn lemma_one_separator(previous: Option<RingKind>, next: RingKind, separator: bool)
    requires
        call_ensures(needs_separator, (previous, next), separator),
    ensures
        previous == Some(next) ==> !separator,
        previous is None ==> !separator,
        next == RingKind::Favorites ==> !separator,
        next == RingKind::Main && previous == Some(RingKind::Favorites) ==> separator,
{
}

/// A font is taken if it can be had and is not there already; the search goes on only as long
/// as none was found.
pub proof fn lemma_fonts_are_taken_once(found: FontMatch, step: FontStep)
    requires
        call_ensures(font_step, (found,), step),
    ensures
        step is Take ==> !(found is NotFound) && (found matches FontMatch::File {
            already_loaded,
            readable,
        } ==> !already_loaded && readable),
        step is Stop <==> (found matches FontMatch::File { already_loaded, .. } && already_loaded),
        step is TryNext <==> found is NotFound || (found matches FontMatch::File {
            already_loaded,
            readable,
        } && !already_loaded && !readable),
{
}

/// Images are dropped one by one under the URI of their entry, and all at once.
pub proof fn lemma_image_is_dropped<I>(
    loader: &mut RingboardLoader<I>,
    id: u64,
    uri: &str,
    uri_text: String,
    other: u64,
)
    requires
        id < 0x2_0000_0000,
        call_ensures(format_uri, (id,), uri_text),
        uri@ == uri_text@,
    ensures
        call_ensures(RingboardLoader::<I>::forget, (loader, uri), ()) ==> {
            &&& !final(loader).cache@.contains_key(id)
            &&& other != id ==> (final(loader).cache@.contains_key(other) <==> old(loader).cache@.contains_key(other))
            &&& other != id && old(loader).cache@.contains_key(other) ==> final(loader).cache@[other] == old(loader).cache@[other]
        },
        call_ensures(RingboardLoader::<I>::forget_all, (loader,), ()) ==> !final(loader).cache@.contains_key(other),
{
    lemma_uri_round_trip(id);
}

/// Entries have URIs of their own, which begin with the scheme and lead back to the entry.
pub proof fn lemma_uri_leads_to_entry(
    ring: RingKind,
    index: u32,
    id: u64,
    uri_text: String,
    uri: &str,
    rai: Option<RingAndIndex>,
)
    requires
        index <= crate::ring::MAX_ENTRIES,
        call_ensures(crate::protocol::composite_id, (ring, index), id),
        call_ensures(format_uri, (id,), uri_text),
        uri@ == uri_text@,
        call_ensures(uri_to_id, (uri,), rai),
    ensures
        rai matches Some(rai) && rai.spec_ring() == ring && rai.spec_index() == index,
        uri@.len() > 12,
        uri@.take(12) == "ringboard://"@,
{
    lemma_uri_round_trip(id);
    crate::protocol::lemma_decompose_of_composite(ring, index);
    crate::views::lemma_unpack(rai->0, ring, index);
    reveal_strlit("ringboard://");
    crate::text::lemma_decimal_value(id as nat);
    assert(uri@.take(12) =~= "ringboard://"@);
}

/// Whatever was going on, nothing is shown or searched for after a reload.
pub proof fn lemma_reload_starts_anew(state: &mut State)
    requires
        call_ensures(State::reload, (state,), ()),
    ensures
        final(state).loaded_entries@.len() == 0,
        final(state).search_results@.len() == 0,
        final(state).query@.len() == 0,
        final(state).search_kind == SearchKind::Plain,
        final(state).highlighted_id is None,
        final(state).search_highlighted_id is None,
        final(state).details_requested is None,
        final(state).detailed_entry is None,
        final(state).last_error is None,
        final(state).fatal_error is None,
        !final(state).pending_search,
        final(state).was_focused == old(state).was_focused,
{
}

/// A message that is no list leaves the lists as they are; an entry that became a favorite, or
/// is none any more, is highlighted where it is shown; a search is over when it is done.
pub proof fn lemma_changes_are_followed(
    state: &mut State,
    message: Message,
    search_done: bool,
    reaction: Reaction,
)
    requires
        !(message is LoadedImage),
        call_ensures(State::handle_message, (state, message, search_done), reaction),
    ensures
        message matches Message::FavoriteChange(id) ==> {
            &&& old(state).query@.len() == 0 ==> final(state).highlighted_id == Some(id)
            &&& old(state).query@.len() > 0 ==> final(state).search_highlighted_id == Some(id)
        },
        message matches Message::SearchResults(entries) ==> (entries@.len() == 0
            ==> final(state).search_highlighted_id is None),
        message is SearchResults || message is Error ==> (final(state).pending_search
            <==> old(state).pending_search && !search_done),
        !(message is SearchResults || message is Error) ==> final(state).pending_search
            == old(state).pending_search,
        !(message is LoadedFirstPage) ==> final(state).loaded_entries == old(state).loaded_entries,
        !(message is SearchResults) ==> final(state).search_results == old(state).search_results,
        !(message is Error) ==> final(state).last_error == old(state).last_error,
        !(message is LoadedFirstPage || message is SearchResults) ==> reaction.forget@.len() == 0,
{
}

} // verus!
