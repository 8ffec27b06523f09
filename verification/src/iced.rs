//! The model of the iced client, and how messages change it.

use std::collections::HashSet;

use vstd::prelude::*;
use vstd::utf8::*;

use crate::egui::find_id;
use crate::protocol::RingKind;
use crate::text::{eq_ignore_ascii_case, push_number};
use crate::ui_actor::{Command, DetailedEntry, Message as ControllerMessage, SearchKind};
use crate::ui_entry::{UiEntry, UiEntryCache};

verus! {

/// How much of a text is previewed, in bytes.
pub const PREVIEW_LEN: usize = 200;

/// The tabs of the window.
#[derive(Copy, Clone, Eq, PartialEq, Debug, Structural)]
pub enum ActiveTab {
    All,
    Text,
    Images,
    Favorites,
    Settings,
}

impl Default for ActiveTab {
    fn default() -> (tab: ActiveTab)
        ensures
            tab == ActiveTab::All,
    {
        ActiveTab::All
    }
}

impl ActiveTab {
    /// The position of the tab in the tab bar.
    pub open spec fn spec_index(self) -> int {
        match self {
            ActiveTab::All => 0,
            ActiveTab::Text => 1,
            ActiveTab::Images => 2,
            ActiveTab::Favorites => 3,
            ActiveTab::Settings => 4,
        }
    }

    /// The tab at a position in the tab bar.
    pub fn at(index: usize) -> (tab: ActiveTab)
        requires
            index < 5,
        ensures
            tab.spec_index() == index,
    {
        match index {
            0 => ActiveTab::All,
            1 => ActiveTab::Text,
            2 => ActiveTab::Images,
            3 => ActiveTab::Favorites,
            _ => ActiveTab::Settings,
        }
    }

    /// The position of the tab in the tab bar.
    pub fn index(self) -> (index: usize)
        ensures
            index == self.spec_index(),
            index < 5,
    {
        match self {
            ActiveTab::All => 0,
            ActiveTab::Text => 1,
            ActiveTab::Images => 2,
            ActiveTab::Favorites => 3,
            ActiveTab::Settings => 4,
        }
    }

    pub fn label(self) -> (label: &'static str)
        ensures
            label@ == match self {
                ActiveTab::All => "All"@,
                ActiveTab::Text => "Text"@,
                ActiveTab::Images => "Images"@,
                ActiveTab::Favorites => "Favorites"@,
                ActiveTab::Settings => "Settings"@,
            },
    {
        match self {
            ActiveTab::All => "All",
            ActiveTab::Text => "Text",
            ActiveTab::Images => "Images",
            ActiveTab::Favorites => "Favorites",
            ActiveTab::Settings => "Settings",
        }
    }

    /// The tab before or after this one, wrapping around.
    pub fn cycle(self, forwards: bool) -> (tab: ActiveTab)
        ensures
            tab.spec_index() == (self.spec_index() + if forwards {
                1int
            } else {
                -1
            }) % 5,
    {
        let index: usize = self.index();
        if forwards {
            ActiveTab::at((index + 1) % 5)
        } else {
            ActiveTab::at((index + 4) % 5)
        }
    }

    /// Whether an entry is listed under the tab. The settings list none.
    pub open spec fn spec_lists(self, entry: UiEntry) -> bool {
        match self {
            ActiveTab::All => true,
            ActiveTab::Text => entry.cache is Text || entry.cache is HighlightedText,
            ActiveTab::Images => entry.cache is Image,
            ActiveTab::Favorites => entry.entry.spec_ring() == RingKind::Favorites,
            ActiveTab::Settings => false,
        }
    }

    /// Whether an entry is listed under the tab.
    pub fn lists(self, entry: &UiEntry) -> (lists: bool)
        ensures
            lists == self.spec_lists(*entry),
    {
        match self {
            ActiveTab::All => true,
            ActiveTab::Text => entry.cache.is_text(),
            ActiveTab::Images => match entry.cache {
                UiEntryCache::Image => true,
                _ => false,
            },
            ActiveTab::Favorites => entry.entry.ring() == RingKind::Favorites,
            ActiveTab::Settings => false,
        }
    }
}

/// Going to the next tab and back leads back.
pub proof fn lemma_tabs_cycle(tab: ActiveTab, next: ActiveTab, back: ActiveTab)
    requires
        next.spec_index() == (tab.spec_index() + 1) % 5,
        back.spec_index() == (next.spec_index() - 1) % 5,
    ensures
        back == tab,
{
}

/// The next kind of search, in turn.
pub fn next_search_kind(kind: SearchKind) -> (next: SearchKind)
    ensures
        next == match kind {
            SearchKind::Plain => SearchKind::Regex,
            SearchKind::Regex => SearchKind::Mime,
            SearchKind::Mime => SearchKind::Plain,
        },
{
    match kind {
        SearchKind::Plain => SearchKind::Regex,
        SearchKind::Regex => SearchKind::Mime,
        SearchKind::Mime => SearchKind::Plain,
    }
}

/// The entries listed under a tab.
pub open spec fn listed(entries: Seq<UiEntry>, tab: ActiveTab) -> Seq<UiEntry>
    decreases entries.len(),
{
    if entries.len() == 0 {
        Seq::empty()
    } else if tab.spec_lists(entries.last()) {
        listed(entries.drop_last(), tab).push(entries.last())
    } else {
        listed(entries.drop_last(), tab)
    }
}

/// The entries of a ring.
pub open spec fn of_ring(entries: Seq<UiEntry>, ring: RingKind) -> Seq<UiEntry>
    decreases entries.len(),
{
    if entries.len() == 0 {
        Seq::empty()
    } else if entries.last().entry.spec_ring() == ring {
        of_ring(entries.drop_last(), ring).push(entries.last())
    } else {
        of_ring(entries.drop_last(), ring)
    }
}

/// The entries that references stand for.
pub open spec fn referenced(entries: Seq<&UiEntry>) -> Seq<UiEntry> {
    Seq::new(entries.len(), |i: int| *entries[i])
}

/// The entries of a ring, in order.
fn select_ring<'a>(entries: &Vec<&'a UiEntry>, ring: RingKind) -> (selected: Vec<&'a UiEntry>)
    ensures
        referenced(selected@) == of_ring(referenced(entries@), ring),
{
    let mut selected: Vec<&'a UiEntry> = Vec::new();
    let ghost all = referenced(entries@);
    let mut i: usize = 0;
    assert(all.take(0) =~= Seq::<UiEntry>::empty());
    assert(referenced(selected@) =~= Seq::<UiEntry>::empty());
    while i < entries.len()
        invariant
            i <= entries@.len(),
            all == referenced(entries@),
            referenced(selected@) == of_ring(all.take(i as int), ring),
        decreases entries@.len() - i,
    {
        let ghost before = selected@;
        let entry = entries[i];
        proof {
            assert(all.take(i + 1).drop_last() =~= all.take(i as int));
            assert(all.take(i + 1).last() == *entry);
        }
        if entry.entry.ring() == ring {
            selected.push(entry);
            assert(referenced(selected@) =~= referenced(before).push(*entry));
        }
        i += 1;
    }
    assert(all.take(i as int) =~= all);
    selected
}

/// The IDs of entries.
fn collect_ids(entries: &Vec<&UiEntry>) -> (ids: Vec<u64>)
    ensures
        ids@ == crate::egui::ids_of(referenced(entries@)),
{
    let mut ids: Vec<u64> = Vec::new();
    let mut i: usize = 0;
    while i < entries.len()
        invariant
            i <= entries@.len(),
            ids@ == crate::egui::ids_of(referenced(entries@)).take(i as int),
        decreases entries@.len() - i,
    {
        let ghost all = crate::egui::ids_of(referenced(entries@));
        ids.push(entries[i].entry.id());
        assert(all.take(i + 1) =~= all.take(i as int).push(all[i as int]));
        i += 1;
    }
    assert(ids@ =~= crate::egui::ids_of(referenced(entries@)));
    ids
}

/// The ID after the current one, wrapping around.
fn next_id(nav: &Vec<u64>, current: Option<u64>) -> (id: Option<u64>)
    ensures
        id == crate::egui::id_below(nav@, current),
{
    if nav.len() == 0 {
        return None;
    }
    let index: usize = match current {
        None => 0,
        Some(id) => match find_id(nav, id) {
            None => 0,
            Some(i) => {
                if i == nav.len() - 1 {
                    0
                } else {
                    i + 1
                }
            },
        },
    };
    Some(nav[index])
}

/// The ID before the current one, wrapping around.
fn prev_id(nav: &Vec<u64>, current: Option<u64>) -> (id: Option<u64>)
    ensures
        id == crate::egui::id_above(nav@, current),
{
    if nav.len() == 0 {
        return None;
    }
    let last: usize = nav.len() - 1;
    let index: usize = match current {
        None => last,
        Some(id) => match find_id(nav, id) {
            None => last,
            Some(i) => {
                if i == 0 {
                    last
                } else {
                    i - 1
                }
            },
        },
    };
    Some(nav[index])
}

/// The state of the window.
pub struct State {
    pub loaded_entries: Vec<UiEntry>,
    pub search_results: Vec<UiEntry>,
    pub fatal_error: Option<String>,
    pub last_error: Option<String>,
    pub highlighted_id: Option<u64>,
    pub details_requested: Option<u64>,
    pub detailed_entry: Option<DetailedEntry>,
    pub query: String,
    pub search_highlighted_id: Option<u64>,
    pub search_kind: SearchKind,
    /// Whether a search is under way.
    pub pending_search: bool,
    pub active_tab: ActiveTab,
    pub pinned_expanded: bool,
    pub hovered_id: Option<u64>,
    /// The entries whose images are being decoded.
    pub loaded_image_pending: HashSet<u64>,
    /// The entries whose images are there.
    pub image_cache: HashSet<u64>,
}

/// A message that the model sends to itself.
#[derive(Copy, Clone, Eq, PartialEq, Debug, Structural)]
pub enum FollowUp {
    TabNext,
    TabPrev,
    TabSelected(ActiveTab),
    DetailRequested(u64),
    DetailClosed,
    Refresh,
}

/// What a message asks for, in this order: send the command, load the first page,
/// search, load images. Then there may be a message to handle next, or the program
/// ends.
#[derive(Debug)]
pub struct Outcome {
    pub send: Option<Command>,
    pub reload: bool,
    pub search: Option<(String, SearchKind)>,
    pub images: Vec<u64>,
    pub follow_up: Option<FollowUp>,
    pub exit: bool,
}

impl Outcome {
    /// Whether nothing is asked for.
    pub open spec fn is_nothing(self) -> bool {
        &&& self.send is None
        &&& self.asks_nothing_else()
    }

    /// Whether nothing but the command is asked for.
    pub open spec fn asks_nothing_else(self) -> bool {
        &&& !self.reload
        &&& self.search is None
        &&& self.images@.len() == 0
        &&& self.follow_up is None
        &&& !self.exit
    }

    /// Whether the query of a state is searched for.
    pub open spec fn searches(self, state: State) -> bool {
        self.search matches Some((query, kind)) && query@ == state.query@ && kind
            == state.search_kind
    }

    /// Whether the entries of a state are loaded anew, and nothing else but the
    /// command is asked for.
    pub open spec fn reloads(self, state: State) -> bool {
        &&& self.reload
        &&& if state.query@.len() == 0 {
            self.search is None
        } else {
            self.searches(state)
        }
        &&& self.images@.len() == 0
        &&& self.follow_up is None
        &&& !self.exit
    }

    fn nothing() -> (outcome: Outcome)
        ensures
            outcome.is_nothing(),
    {
        Outcome {
            send: None,
            reload: false,
            search: None,
            images: Vec::new(),
            follow_up: None,
            exit: false,
        }
    }
}

/// The images among some entries that are neither there nor on their way.
pub open spec fn missing_images(
    entries: Seq<UiEntry>,
    pending: Set<u64>,
    cached: Set<u64>,
) -> Seq<u64>
    decreases entries.len(),
{
    if entries.len() == 0 {
        Seq::empty()
    } else {
        let rest = missing_images(entries.drop_last(), pending, cached);
        let id = entries.last().entry.spec_id();
        if entries.last().cache is Image && !pending.contains(id) && !cached.contains(id) {
            rest.push(id)
        } else {
            rest
        }
    }
}

/// The first entry with an ID.
pub open spec fn first_with_id(entries: Seq<UiEntry>, id: u64) -> Option<UiEntry>
    decreases entries.len(),
{
    if entries.len() == 0 {
        None
    } else {
        match first_with_id(entries.drop_last(), id) {
            Some(entry) => Some(entry),
            None => if entries.last().entry.spec_id() == id {
                Some(entries.last())
            } else {
                None
            },
        }
    }
}

proof fn lemma_first_with_id_prefix(entries: Seq<UiEntry>, id: u64, n: int)
    requires
        0 <= n <= entries.len(),
        first_with_id(entries.take(n), id) is Some,
    ensures
        first_with_id(entries, id) == first_with_id(entries.take(n), id),
    decreases entries.len() - n,
{
    if n < entries.len() {
        assert(entries.take(n + 1).drop_last() =~= entries.take(n));
        lemma_first_with_id_prefix(entries, id, n + 1);
    } else {
        assert(entries.take(n) =~= entries);
    }
}

fn find_in<'a>(entries: &'a Vec<UiEntry>, id: u64) -> (found: Option<&'a UiEntry>)
    ensures
        match found {
            Some(entry) => first_with_id(entries@, id) == Some(*entry),
            None => first_with_id(entries@, id) is None,
        },
{
    let mut i: usize = 0;
    assert(entries@.take(0) =~= Seq::<UiEntry>::empty());
    while i < entries.len()
        invariant
            i <= entries@.len(),
            first_with_id(entries@.take(i as int), id) is None,
        decreases entries@.len() - i,
    {
        proof {
            assert(entries@.take(i + 1).drop_last() =~= entries@.take(i as int));
            assert(entries@.take(i + 1).last() == entries@[i as int]);
        }
        if entries[i].entry.id() == id {
            proof {
                lemma_first_with_id_prefix(entries@, id, i + 1);
            }
            return Some(&entries[i]);
        }
        i += 1;
    }
    assert(entries@.take(i as int) =~= entries@);
    None
}

impl State {
    /// A model that shows nothing.
    pub fn new() -> (state: State)
        ensures
            state.is_blank(),
            state.loaded_image_pending@ == Set::<u64>::empty(),
            state.image_cache@ == Set::<u64>::empty(),
    {
        broadcast use vstd::std_specs::hash::group_hash_axioms;

        State {
            loaded_entries: Vec::new(),
            search_results: Vec::new(),
            fatal_error: None,
            last_error: None,
            highlighted_id: None,
            details_requested: None,
            detailed_entry: None,
            query: String::new(),
            search_highlighted_id: None,
            search_kind: SearchKind::default(),
            pending_search: false,
            active_tab: ActiveTab::default(),
            pinned_expanded: false,
            hovered_id: None,
            loaded_image_pending: HashSet::new(),
            image_cache: HashSet::new(),
        }
    }

    /// Nothing is shown, searched for or wrong.
    pub open spec fn is_blank(self) -> bool {
        &&& self.loaded_entries@.len() == 0
        &&& self.search_results@.len() == 0
        &&& self.fatal_error is None
        &&& self.last_error is None
        &&& self.highlighted_id is None
        &&& self.details_requested is None
        &&& self.detailed_entry is None
        &&& self.query@.len() == 0
        &&& self.search_highlighted_id is None
        &&& self.search_kind == SearchKind::Plain
        &&& !self.pending_search
        &&& self.active_tab == ActiveTab::All
        &&& !self.pinned_expanded
        &&& self.hovered_id is None
    }

    /// Clears the entries and the transient state, as when the window is hidden.
    pub fn reset(&mut self)
        ensures
            final(self).is_blank(),
            final(self).loaded_image_pending == old(self).loaded_image_pending,
            final(self).image_cache == old(self).image_cache,
    {
        self.loaded_entries = Vec::new();
        self.search_results = Vec::new();
        self.fatal_error = None;
        self.last_error = None;
        self.highlighted_id = None;
        self.details_requested = None;
        self.detailed_entry = None;
        self.query = String::new();
        self.search_highlighted_id = None;
        self.search_kind = SearchKind::default();
        self.pending_search = false;
        self.active_tab = ActiveTab::default();
        self.pinned_expanded = false;
        self.hovered_id = None;
    }

    pub open spec fn spec_active_entries(self) -> Seq<UiEntry> {
        if self.query@.len() == 0 {
            self.loaded_entries@
        } else {
            self.search_results@
        }
    }

    /// The entries of the current search, or all of them.
    pub fn active_entries(&self) -> (entries: &Vec<UiEntry>)
        ensures
            entries@ == self.spec_active_entries(),
    {
        if self.query.as_str().is_empty() {
            &self.loaded_entries
        } else {
            &self.search_results
        }
    }

    pub open spec fn spec_filtered_entries(self) -> Seq<UiEntry> {
        listed(self.spec_active_entries(), self.active_tab)
    }

    /// The entries listed under the active tab.
    pub fn filtered_entries(&self) -> (filtered: Vec<&UiEntry>)
        ensures
            referenced(filtered@) == self.spec_filtered_entries(),
    {
        let entries = self.active_entries();
        let mut filtered: Vec<&UiEntry> = Vec::new();
        let mut i: usize = 0;
        assert(entries@.take(0) =~= Seq::<UiEntry>::empty());
        assert(referenced(filtered@) =~= Seq::<UiEntry>::empty());
        while i < entries.len()
            invariant
                i <= entries@.len(),
                referenced(filtered@) == listed(entries@.take(i as int), self.active_tab),
            decreases entries@.len() - i,
        {
            let ghost before = filtered@;
            proof {
                assert(entries@.take(i + 1).drop_last() =~= entries@.take(i as int));
                assert(entries@.take(i + 1).last() == entries@[i as int]);
            }
            if self.active_tab.lists(&entries[i]) {
                filtered.push(&entries[i]);
                assert(referenced(filtered@) =~= referenced(before).push(entries@[i as int]));
            }
            i += 1;
        }
        assert(entries@.take(i as int) =~= entries@);
        filtered
    }

    /// Whether favorites and other entries are listed apart.
    pub open spec fn spec_show_sections(self) -> bool {
        self.query@.len() == 0 && self.active_tab == ActiveTab::All
    }

    /// Whether favorites and other entries are listed apart.
    pub fn show_sections(&self) -> (sections: bool)
        ensures
            sections == self.spec_show_sections(),
    {
        self.query.as_str().is_empty() && self.active_tab == ActiveTab::All
    }

    pub open spec fn spec_nav_entries(self) -> Seq<UiEntry> {
        let filtered = self.spec_filtered_entries();
        if self.spec_show_sections() {
            of_ring(filtered, RingKind::Favorites) + of_ring(filtered, RingKind::Main)
        } else {
            filtered
        }
    }

    /// The entries in the order of navigation: favorites first if they are listed
    /// apart.
    pub fn nav_entries(&self) -> (nav: Vec<&UiEntry>)
        ensures
            referenced(nav@) == self.spec_nav_entries(),
    {
        let filtered = self.filtered_entries();
        if self.show_sections() {
            let mut nav = select_ring(&filtered, RingKind::Favorites);
            let mut unpinned = select_ring(&filtered, RingKind::Main);
            let ghost pinned = nav@;
            let ghost rest = unpinned@;
            nav.append(&mut unpinned);
            assert(nav@ =~= pinned + rest);
            assert(referenced(nav@) =~= referenced(pinned) + referenced(rest));
            nav
        } else {
            filtered
        }
    }

    pub open spec fn spec_current_highlight(self) -> Option<u64> {
        if self.query@.len() == 0 {
            self.highlighted_id
        } else {
            self.search_highlighted_id
        }
    }

    pub fn current_highlight_id(&self) -> (id: Option<u64>)
        ensures
            id == self.spec_current_highlight(),
    {
        if self.query.as_str().is_empty() {
            self.highlighted_id
        } else {
            self.search_highlighted_id
        }
    }

    /// The state with another entry highlighted.
    pub open spec fn with_highlight(self, id: Option<u64>) -> State {
        if self.query@.len() == 0 {
            State { highlighted_id: id, ..self }
        } else {
            State { search_highlighted_id: id, ..self }
        }
    }

    fn set_highlight(&mut self, id: Option<u64>)
        ensures
            *final(self) == old(self).with_highlight(id),
    {
        if self.query.as_str().is_empty() {
            self.highlighted_id = id;
        } else {
            self.search_highlighted_id = id;
        }
    }

    /// An entry by its ID: one that is loaded, or else one that was found.
    pub open spec fn spec_find(self, id: u64) -> Option<UiEntry> {
        match first_with_id(self.loaded_entries@, id) {
            Some(entry) => Some(entry),
            None => first_with_id(self.search_results@, id),
        }
    }

    fn find(&self, id: u64) -> (found: Option<&UiEntry>)
        ensures
            match found {
                Some(entry) => self.spec_find(id) == Some(*entry),
                None => self.spec_find(id) is None,
            },
    {
        match find_in(&self.loaded_entries, id) {
            Some(entry) => Some(entry),
            None => find_in(&self.search_results, id),
        }
    }

    /// Pastes an entry, which ends the search under way.
    pub fn paste(&mut self, id: u64) -> (outcome: Outcome)
        ensures
            pastes(*old(self), *final(self), outcome, id),
    {
        self.pending_search = false;
        let mut outcome = Outcome::nothing();
        outcome.send = Some(Command::Paste(id));
        outcome
    }

    /// The state once a search was sent.
    pub open spec fn searching(self) -> State {
        State { pending_search: true, ..self }
    }

    fn send_search(&mut self) -> (search: Option<(String, SearchKind)>)
        ensures
            *final(self) == old(self).searching(),
            search matches Some((query, kind)) && query@ == old(self).query@ && kind == old(
                self,
            ).search_kind,
    {
        self.pending_search = true;
        Some((self.query.clone(), self.search_kind))
    }

    /// The state once its entries are being loaded anew.
    pub open spec fn reloading(self) -> State {
        State {
            last_error: None,
            pending_search: self.pending_search || self.query@.len() > 0,
            ..self
        }
    }

    /// Loads the entries anew, and searches again if there is a query.
    pub fn refresh_entries(&mut self) -> (outcome: Outcome)
        ensures
            *final(self) == old(self).reloading(),
            outcome.send is None,
            outcome.reloads(*old(self)),
    {
        self.last_error = None;
        let mut outcome = Outcome::nothing();
        outcome.reload = true;
        if !self.query.as_str().is_empty() {
            outcome.search = self.send_search();
        }
        outcome
    }

    /// Moves an entry to the other ring.
    pub fn toggle_favorite(&mut self, id: u64) -> (outcome: Outcome)
        ensures
            toggles_favorite(*old(self), id, *final(self), outcome),
    {
        let command = match self.find(id) {
            Some(entry) => match entry.entry.ring() {
                RingKind::Favorites => Command::Unfavorite(id),
                RingKind::Main => Command::Favorite(id),
            },
            None => Command::Favorite(id),
        };
        let mut outcome = self.refresh_entries();
        outcome.send = Some(command);
        outcome
    }

    /// Deletes an entry. Nothing is highlighted until the entries are there again.
    pub fn delete(&mut self, id: u64) -> (outcome: Outcome)
        ensures
            deletes(*old(self), id, *final(self), outcome),
    {
        self.set_highlight(None);
        let mut outcome = self.refresh_entries();
        outcome.send = Some(Command::Delete(id));
        outcome
    }

    /// Opens the details of an entry, unless they are open. An image that is
    /// missing is loaded too.
    pub fn open_detail(&mut self, id: u64) -> (outcome: Outcome)
        ensures
            opens_detail(*old(self), id, *final(self), outcome),
    {
        broadcast use vstd::std_specs::hash::group_hash_axioms;

        let mut outcome = Outcome::nothing();
        if self.details_requested == Some(id) {
            return outcome;
        }
        let (has_text, is_image) = match self.find(id) {
            Some(entry) => (
                entry.cache.is_text(),
                match entry.cache {
                    UiEntryCache::Image => true,
                    _ => false,
                },
            ),
            None => (false, false),
        };
        self.details_requested = Some(id);
        self.detailed_entry = None;
        outcome.send = Some(Command::GetDetails { id, with_text: has_text });
        if is_image && !self.loaded_image_pending.contains(&id) && !self.image_cache.contains(&id) {
            outcome.images.push(id);
        }
        assert(outcome.images@ =~= if is_image && !self.loaded_image_pending@.contains(id)
            && !self.image_cache@.contains(id) {
            seq![id]
        } else {
            Seq::empty()
        });
        outcome
    }

    /// Closes the details.
    pub fn close_detail(&mut self)
        ensures
            *final(self) == (State {
                details_requested: None,
                detailed_entry: None,
                ..*old(self)
            }),
    {
        self.details_requested = None;
        self.detailed_entry = None;
    }

    /// Selects a tab. Nothing is highlighted then.
    pub fn select_tab(&mut self, tab: ActiveTab)
        ensures
            *final(self) == (State {
                active_tab: tab,
                highlighted_id: None,
                search_highlighted_id: None,
                ..*old(self)
            }),
    {
        self.active_tab = tab;
        self.highlighted_id = None;
        self.search_highlighted_id = None;
    }

    /// Selects the next or previous tab.
    pub fn cycle_tab(&mut self, forwards: bool)
        ensures
            final(self).active_tab.spec_index() == (old(self).active_tab.spec_index()
                + if forwards {
                1int
            } else {
                -1
            }) % 5,
            *final(self) == (State {
                active_tab: final(self).active_tab,
                highlighted_id: None,
                search_highlighted_id: None,
                ..*old(self)
            }),
    {
        let tab = self.active_tab.cycle(forwards);
        self.select_tab(tab);
    }

    /// Goes on to the next kind of search, and searches again if there is a query.
    pub fn toggle_search_kind(&mut self) -> (outcome: Outcome)
        ensures
            toggles_search_kind(*old(self), *final(self), outcome),
    {
        self.search_kind = next_search_kind(self.search_kind);
        let mut outcome = Outcome::nothing();
        if !self.query.as_str().is_empty() {
            outcome.search = self.send_search();
        }
        outcome
    }

    /// Forgets what is highlighted and all images, and loads the entries anew.
    pub fn refresh(&mut self) -> (outcome: Outcome)
        ensures
            refreshes(*old(self), *final(self), outcome),
    {
        self.highlighted_id = None;
        self.search_highlighted_id = None;
        self.image_cache.clear();
        self.loaded_image_pending.clear();
        self.refresh_entries()
    }

    /// Takes in a changed query: an empty one ends the search.
    pub fn search_changed(&mut self, query: String) -> (outcome: Outcome)
        ensures
            changes_search(*old(self), query, *final(self), outcome),
    {
        let mut outcome = Outcome::nothing();
        self.last_error = None;
        if query.as_str().is_empty() {
            self.query = String::new();
            self.search_results = Vec::new();
            self.search_highlighted_id = None;
            self.pending_search = false;
            return outcome;
        }
        self.query = query;
        outcome.search = self.send_search();
        outcome
    }

    /// Takes in that an image was decoded, or why it was not.
    pub fn image_decoded(&mut self, id: u64, result: Result<(), String>)
        ensures
            final(self).loaded_image_pending@ == old(self).loaded_image_pending@.remove(id),
            match result {
                Ok(()) => {
                    &&& final(self).image_cache@ == old(self).image_cache@.insert(id)
                    &&& *final(self) == (State {
                        loaded_image_pending: final(self).loaded_image_pending,
                        image_cache: final(self).image_cache,
                        ..*old(self)
                    })
                },
                Err(error) => *final(self) == (State {
                    loaded_image_pending: final(self).loaded_image_pending,
                    last_error: Some(error),
                    ..*old(self)
                }),
            },
    {
        broadcast use vstd::std_specs::hash::group_hash_axioms;

        self.loaded_image_pending.remove(&id);
        match result {
            Ok(()) => {
                self.image_cache.insert(id);
            },
            Err(error) => {
                self.last_error = Some(error);
            },
        }
    }

    /// Takes in an image. Tells whether to get it ready: not if that is under way
    /// already.
    pub fn image_loaded(&mut self, id: u64) -> (decode: bool)
        ensures
            decode == !old(self).loaded_image_pending@.contains(id),
            final(self).loaded_image_pending@ == old(self).loaded_image_pending@.insert(id),
            *final(self) == (State {
                loaded_image_pending: final(self).loaded_image_pending,
                ..*old(self)
            }),
    {
        broadcast use vstd::std_specs::hash::group_hash_axioms;

        if self.loaded_image_pending.contains(&id) {
            assert(self.loaded_image_pending@.insert(id) =~= self.loaded_image_pending@);
            return false;
        }
        self.loaded_image_pending.insert(id);
        true
    }

    fn request_images(&self, entries: &Vec<UiEntry>) -> (images: Vec<u64>)
        ensures
            images@ == missing_images(
                entries@,
                self.loaded_image_pending@,
                self.image_cache@,
            ),
    {
        let mut images: Vec<u64> = Vec::new();
        let mut i: usize = 0;
        assert(entries@.take(0) =~= Seq::<UiEntry>::empty());
        while i < entries.len()
            invariant
                i <= entries@.len(),
                images@ == missing_images(
                    entries@.take(i as int),
                    self.loaded_image_pending@,
                    self.image_cache@,
                ),
            decreases entries@.len() - i,
        {
            broadcast use vstd::std_specs::hash::group_hash_axioms;

            proof {
                assert(entries@.take(i + 1).drop_last() =~= entries@.take(i as int));
                assert(entries@.take(i + 1).last() == entries@[i as int]);
            }
            let is_image = match entries[i].cache {
                UiEntryCache::Image => true,
                _ => false,
            };
            let id: u64 = entries[i].entry.id();
            if is_image && !self.loaded_image_pending.contains(&id) && !self.image_cache.contains(
                &id,
            ) {
                images.push(id);
            }
            i += 1;
        }
        assert(entries@.take(i as int) =~= entries@);
        images
    }

    /// Takes in a message from the worker.
    pub fn handle_controller_message(&mut self, message: ControllerMessage) -> (outcome: Outcome)
        ensures
            match message {
                ControllerMessage::FatalDbOpen(error) => *final(self) == (State {
                    fatal_error: Some(error),
                    ..*old(self)
                }) && outcome.is_nothing(),
                ControllerMessage::Error(error) => *final(self) == (State {
                    last_error: Some(error),
                    ..*old(self)
                }) && outcome.is_nothing(),
                ControllerMessage::LoadedFirstPage { entries, default_focused_id } => {
                    &&& *final(self) == (State {
                        loaded_entries: entries,
                        highlighted_id: if old(self).highlighted_id is Some {
                            old(self).highlighted_id
                        } else if default_focused_id is Some || entries@.len() == 0 {
                            default_focused_id
                        } else {
                            Some(entries@[0].entry.spec_id())
                        },
                        ..*old(self)
                    })
                    &&& outcome.images@ == missing_images(
                        entries@,
                        old(self).loaded_image_pending@,
                        old(self).image_cache@,
                    )
                    &&& outcome.send is None && !outcome.reload && outcome.search is None
                        && outcome.follow_up is None && !outcome.exit
                },
                ControllerMessage::EntryDetails { id, result } => {
                    &&& outcome.is_nothing()
                    &&& *final(self) == if old(self).details_requested == Some(id) {
                        State {
                            detailed_entry: match result {
                                Ok(details) => Some(details),
                                Err(_) => None,
                            },
                            ..*old(self)
                        }
                    } else {
                        *old(self)
                    }
                },
                ControllerMessage::SearchResults(entries) => {
                    &&& *final(self) == (State {
                        search_results: entries,
                        search_highlighted_id: if entries@.len() == 0 {
                            None
                        } else {
                            Some(entries@[0].entry.spec_id())
                        },
                        ..*old(self)
                    })
                    &&& outcome.images@ == missing_images(
                        entries@,
                        old(self).loaded_image_pending@,
                        old(self).image_cache@,
                    )
                    &&& outcome.send is None && !outcome.reload && outcome.search is None
                        && outcome.follow_up is None && !outcome.exit
                },
                ControllerMessage::FavoriteChange(id) => {
                    &&& final(self).image_cache@ == old(self).image_cache@.remove(id)
                    &&& *final(self) == (State {
                        image_cache: final(self).image_cache,
                        ..old(self).with_highlight(Some(id)).reloading()
                    })
                    &&& outcome.send is None
                    &&& outcome.reloads(*old(self))
                },
                ControllerMessage::Deleted(_) => *final(self) == old(self).reloading()
                    && outcome.send is None && outcome.reloads(*old(self)),
                ControllerMessage::LoadedImage { .. } => *final(self) == *old(self)
                    && outcome.is_nothing(),
                ControllerMessage::Pasted => *final(self) == *old(self) && exits(outcome),
            },
    {
        broadcast use vstd::std_specs::hash::group_hash_axioms;

        let mut outcome = Outcome::nothing();
        match message {
            ControllerMessage::FatalDbOpen(error) => {
                self.fatal_error = Some(error);
            },
            ControllerMessage::Error(error) => {
                self.last_error = Some(error);
            },
            ControllerMessage::LoadedFirstPage { entries, default_focused_id } => {
                if self.highlighted_id.is_none() {
                    self.highlighted_id =
                    match default_focused_id {
                        Some(id) => Some(id),
                        None => {
                            if entries.len() == 0 {
                                None
                            } else {
                                Some(entries[0].entry.id())
                            }
                        },
                    };
                }
                outcome.images = self.request_images(&entries);
                self.loaded_entries = entries;
            },
            ControllerMessage::EntryDetails { id, result } => {
                if self.details_requested == Some(id) {
                    self.detailed_entry =
                    match result {
                        Ok(details) => Some(details),
                        Err(_) => None,
                    };
                }
            },
            ControllerMessage::SearchResults(entries) => {
                self.search_highlighted_id =
                if entries.len() == 0 {
                    None
                } else {
                    Some(entries[0].entry.id())
                };
                outcome.images = self.request_images(&entries);
                self.search_results = entries;
            },
            ControllerMessage::FavoriteChange(id) => {
                self.set_highlight(Some(id));
                self.image_cache.remove(&id);
                return self.refresh_entries();
            },
            ControllerMessage::Deleted(_) => {
                return self.refresh_entries();
            },
            ControllerMessage::LoadedImage { .. } => {},
            ControllerMessage::Pasted => {
                outcome.exit = true;
            },
        }
        outcome
    }
}

/// A key.
#[derive(Debug)]
pub enum Key {
    ArrowUp,
    ArrowDown,
    ArrowLeft,
    ArrowRight,
    Enter,
    Escape,
    Tab,
    /// What the key types.
    Character(String),
    Other,
}

/// A key that was pressed, and the modifiers that were held.
#[derive(Debug)]
pub struct KeyPress {
    pub key: Key,
    pub control: bool,
    pub shift: bool,
    pub alt: bool,
}

/// Whether a text is the given one, whatever the case of its ASCII letters.
pub open spec fn is_letter(typed: Seq<char>, letter: Seq<char>) -> bool {
    crate::text::spec_ascii_lowercase(encode_utf8(typed)) == crate::text::spec_ascii_lowercase(
        encode_utf8(letter),
    )
}

fn types_letter(typed: &str, letter: &str) -> (same: bool)
    ensures
        same == is_letter(typed@, letter@),
{
    eq_ignore_ascii_case(typed.as_bytes(), letter.as_bytes())
}

/// The digit that a text starts with, if it does with one.
pub open spec fn leading_digit(typed: Seq<char>) -> Option<int> {
    if typed.len() > 0 && '0' <= typed[0] <= '9' {
        Some(typed[0] as int - '0' as int)
    } else {
        None
    }
}

fn typed_digit(typed: &str) -> (digit: Option<usize>)
    ensures
        match digit {
            Some(d) => leading_digit(typed@) == Some(d as int) && d < 10,
            None => leading_digit(typed@) is None,
        },
{
    if typed.is_empty() {
        return None;
    }
    let c: char = typed.get_char(0);
    if '0' <= c && c <= '9' {
        Some((c as u32 - '0' as u32) as usize)
    } else {
        None
    }
}

impl State {
    /// The favorites among the entries listed.
    pub open spec fn spec_pinned(self) -> Seq<UiEntry> {
        of_ring(self.spec_filtered_entries(), RingKind::Favorites)
    }

    /// The other entries among those listed.
    pub open spec fn spec_unpinned(self) -> Seq<UiEntry> {
        of_ring(self.spec_filtered_entries(), RingKind::Main)
    }

    /// The state once the highlight was moved. Moving it onto a favorite unfolds
    /// the favorites.
    pub open spec fn navigated(self, id: Option<u64>) -> State {
        let onto_pinned = self.spec_show_sections() && (id matches Some(id)
            && crate::egui::ids_of(self.spec_pinned()).contains(id));
        State { pinned_expanded: self.pinned_expanded || onto_pinned, ..self.with_highlight(id) }
    }

    /// The state once the search was cleared with the escape key.
    pub open spec fn is_cleared(self, after: State) -> bool {
        &&& after.query@.len() == 0
        &&& after.search_results@.len() == 0
        &&& after == (State {
            query: after.query,
            search_results: after.search_results,
            highlighted_id: None,
            search_highlighted_id: None,
            last_error: None,
            pending_search: false,
            ..self
        })
    }

    fn navigate(&mut self, id: Option<u64>)
        ensures
            *final(self) == old(self).navigated(id),
    {
        if self.show_sections() && !self.pinned_expanded {
            if let Some(id) = id {
                let filtered = self.filtered_entries();
                let pinned = collect_ids(&select_ring(&filtered, RingKind::Favorites));
                let found = find_id(&pinned, id);
                proof {
                    crate::egui::lemma_position_contains(pinned@, id);
                }
                if found.is_some() {
                    self.pinned_expanded = true;
                }
            }
        }
        self.set_highlight(id);
    }

    /// Reacts to a key. Typing is left to the search bar; only the keys that
    /// navigate and those with modifiers do something here.
    pub fn handle_key_event(&mut self, press: KeyPress) -> (outcome: Outcome)
        ensures
            reacts_to_key(*old(self), press, *final(self), outcome),
    {
        let mut outcome = Outcome::nothing();
        let current = self.current_highlight_id();
        match press.key {
            Key::ArrowUp => {
                if !press.control {
                    let nav = collect_ids(&self.nav_entries());
                    self.navigate(prev_id(&nav, current));
                }
            },
            Key::ArrowDown => {
                if !press.control {
                    let nav = collect_ids(&self.nav_entries());
                    self.navigate(next_id(&nav, current));
                }
            },
            Key::ArrowLeft => {
                let filtered = self.filtered_entries();
                let pinned = select_ring(&filtered, RingKind::Favorites);
                assert(referenced(pinned@).len() == pinned@.len());
                if self.show_sections() && pinned.len() > 0 {
                    let unpinned = select_ring(&filtered, RingKind::Main);
                    assert(referenced(unpinned@).len() == unpinned@.len());
                    let first = if unpinned.len() == 0 {
                        None
                    } else {
                        assert(referenced(unpinned@)[0] == *unpinned@[0]);
                        Some(unpinned[0].entry.id())
                    };
                    self.set_highlight(first);
                    self.pinned_expanded = false;
                }
            },
            Key::ArrowRight => {
                let filtered = self.filtered_entries();
                let pinned = select_ring(&filtered, RingKind::Favorites);
                assert(referenced(pinned@).len() == pinned@.len());
                if self.show_sections() && pinned.len() > 0 {
                    self.pinned_expanded = true;
                }
            },
            Key::Enter => {
                if let Some(id) = current {
                    return self.paste(id);
                }
            },
            Key::Escape => {
                if self.details_requested.is_some() {
                    outcome.follow_up = Some(FollowUp::DetailClosed);
                } else if !self.query.as_str().is_empty() {
                    self.query = String::new();
                    self.search_results = Vec::new();
                    self.highlighted_id = None;
                    self.search_highlighted_id = None;
                    self.last_error = None;
                    self.pending_search = false;
                } else {
                    outcome.exit = true;
                }
            },
            Key::Tab => {
                if press.control {
                    outcome.follow_up =
                    if press.shift {
                        Some(FollowUp::TabPrev)
                    } else {
                        Some(FollowUp::TabNext)
                    };
                }
            },
            Key::Character(typed) => {
                let typed = typed.as_str();
                if press.control {
                    if types_letter(typed, "r") {
                        outcome.follow_up = Some(FollowUp::Refresh);
                    } else if types_letter(typed, "d") {
                        if let Some(id) = current {
                            outcome.follow_up =
                            if self.details_requested == Some(id) {
                                Some(FollowUp::DetailClosed)
                            } else {
                                Some(FollowUp::DetailRequested(id))
                            };
                        }
                    } else if let Some(digit) = typed_digit(typed) {
                        let nav = collect_ids(&self.nav_entries());
                        if digit < nav.len() {
                            return self.paste(nav[digit]);
                        }
                    }
                } else if press.alt {
                    if types_letter(typed, "x") || types_letter(typed, "m") {
                        return self.toggle_search_kind();
                    }
                    if let Some(digit) = typed_digit(typed) {
                        if 1 <= digit && digit <= 4 {
                            outcome.follow_up =
                            Some(FollowUp::TabSelected(ActiveTab::at(digit - 1)));
                        }
                    }
                }
            },
            Key::Other => {},
        }
        outcome
    }
}

/// Whether an entry is moved to the other ring.
pub open spec fn toggles_favorite(before: State, id: u64, after: State, outcome: Outcome) -> bool {
    &&& after == before.reloading()
    &&& outcome.send == Some(
        match before.spec_find(id) {
            Some(entry) if entry.entry.spec_ring() == RingKind::Favorites => {
                Command::Unfavorite(id)
            },
            _ => Command::Favorite(id),
        },
    )
    &&& outcome.reloads(before)
}

/// Whether an entry is deleted.
pub open spec fn deletes(before: State, id: u64, after: State, outcome: Outcome) -> bool {
    &&& after == before.with_highlight(None).reloading()
    &&& outcome.send == Some(Command::Delete(id))
    &&& outcome.reloads(before)
}

/// Whether the details of an entry are opened.
pub open spec fn opens_detail(before: State, id: u64, after: State, outcome: Outcome) -> bool {
    &&& if before.details_requested == Some(id) {
        after == before && outcome.is_nothing()
    } else {
        let entry = before.spec_find(id);
        &&& after == (State {
            details_requested: Some(id),
            detailed_entry: None,
            ..before
        })
        &&& outcome.send == Some(
            Command::GetDetails {
                id,
                with_text: entry matches Some(e) && (e.cache is Text
                    || e.cache is HighlightedText),
            },
        )
        &&& outcome.images@ == if (entry matches Some(e) && e.cache is Image) && !before.loaded_image_pending@.contains(id) && !before.image_cache@.contains(id) {
            seq![id]
        } else {
            Seq::empty()
        }
        &&& !outcome.reload && outcome.search is None && outcome.follow_up is None
            && !outcome.exit
    }
}

/// Whether everything is loaded anew.
pub open spec fn refreshes(before: State, after: State, outcome: Outcome) -> bool {
    &&& after.loaded_image_pending@ == Set::<u64>::empty()
    &&& after.image_cache@ == Set::<u64>::empty()
    &&& after == (State {
        highlighted_id: None,
        search_highlighted_id: None,
        loaded_image_pending: after.loaded_image_pending,
        image_cache: after.image_cache,
        ..before
    }).reloading()
    &&& outcome.send is None
    &&& outcome.reloads(before)
}

/// Whether a changed query is taken in.
pub open spec fn changes_search(before: State, query: String, after: State, outcome: Outcome) -> bool {
    &&& if query@.len() == 0 {
        &&& after.query@.len() == 0
        &&& after.search_results@.len() == 0
        &&& after == (State {
            query: after.query,
            search_results: after.search_results,
            last_error: None,
            search_highlighted_id: None,
            pending_search: false,
            ..before
        })
        &&& outcome.is_nothing()
    } else {
        &&& after == (State {
            query,
            last_error: None,
            pending_search: true,
            ..before
        })
        &&& outcome.searches(after)
        &&& outcome.send is None && !outcome.reload && outcome.images@.len() == 0
            && outcome.follow_up is None && !outcome.exit
    }
}

/// How a key changes the state, and what it asks for.
pub open spec fn reacts_to_key(
    before: State,
    press: KeyPress,
    after: State,
    outcome: Outcome,
) -> bool {
    let nav = crate::egui::ids_of(before.spec_nav_entries());
    let current = before.spec_current_highlight();
    let sections = before.spec_show_sections() && before.spec_pinned().len() > 0;
    match press.key {
        Key::ArrowUp => {
            &&& outcome.is_nothing()
            &&& after == if press.control {
                before
            } else {
                before.navigated(crate::egui::id_above(nav, current))
            }
        },
        Key::ArrowDown => {
            &&& outcome.is_nothing()
            &&& after == if press.control {
                before
            } else {
                before.navigated(crate::egui::id_below(nav, current))
            }
        },
        Key::ArrowLeft => {
            &&& outcome.is_nothing()
            &&& after == if sections {
                State {
                    pinned_expanded: false,
                    ..before.with_highlight(
                        if before.spec_unpinned().len() == 0 {
                            None
                        } else {
                            Some(before.spec_unpinned()[0].entry.spec_id())
                        },
                    )
                }
            } else {
                before
            }
        },
        Key::ArrowRight => {
            &&& outcome.is_nothing()
            &&& after == if sections {
                State { pinned_expanded: true, ..before }
            } else {
                before
            }
        },
        Key::Enter => match current {
            None => after == before && outcome.is_nothing(),
            Some(id) => pastes(before, after, outcome, id),
        },
        Key::Escape => if before.details_requested is Some {
            after == before && follows_up(outcome, FollowUp::DetailClosed)
        } else if before.query@.len() > 0 {
            before.is_cleared(after) && outcome.is_nothing()
        } else {
            after == before && exits(outcome)
        },
        Key::Tab => after == before && if !press.control {
            outcome.is_nothing()
        } else if press.shift {
            follows_up(outcome, FollowUp::TabPrev)
        } else {
            follows_up(outcome, FollowUp::TabNext)
        },
        Key::Character(typed) => if press.control {
            if is_letter(typed@, "r"@) {
                after == before && follows_up(outcome, FollowUp::Refresh)
            } else if is_letter(typed@, "d"@) {
                after == before && match current {
                    None => outcome.is_nothing(),
                    Some(id) => follows_up(
                        outcome,
                        if before.details_requested == Some(id) {
                            FollowUp::DetailClosed
                        } else {
                            FollowUp::DetailRequested(id)
                        },
                    ),
                }
            } else {
                match leading_digit(typed@) {
                    Some(d) if d < nav.len() => pastes(
                        before,
                        after,
                        outcome,
                        nav[d],
                    ),
                    _ => after == before && outcome.is_nothing(),
                }
            }
        } else if press.alt {
            if is_letter(typed@, "x"@) || is_letter(typed@, "m"@) {
                toggles_search_kind(before, after, outcome)
            } else {
                after == before && match leading_digit(typed@) {
                    Some(d) if 1 <= d <= 4 => {
                        &&& outcome.follow_up matches Some(FollowUp::TabSelected(tab))
                            && tab.spec_index() == d - 1
                        &&& asks_only_follow_up(outcome)
                    },
                    _ => outcome.is_nothing(),
                }
            }
        } else {
            after == before && outcome.is_nothing()
        },
        Key::Other => after == before && outcome.is_nothing(),
    }
}

/// Whether the program ends, and nothing else is asked for.
pub open spec fn exits(outcome: Outcome) -> bool {
    &&& outcome.exit
    &&& outcome.send is None
    &&& !outcome.reload
    &&& outcome.search is None
    &&& outcome.images@.len() == 0
    &&& outcome.follow_up is None
}

/// Whether nothing but a follow-up message is asked for.
pub open spec fn asks_only_follow_up(outcome: Outcome) -> bool {
    &&& outcome.send is None
    &&& !outcome.reload
    &&& outcome.search is None
    &&& outcome.images@.len() == 0
    &&& !outcome.exit
}

/// Whether the given follow-up message, and nothing else, is asked for.
pub open spec fn follows_up(outcome: Outcome, message: FollowUp) -> bool {
    outcome.follow_up == Some(message) && asks_only_follow_up(outcome)
}

/// Whether an entry is pasted, and nothing else happens.
pub open spec fn pastes(before: State, after: State, outcome: Outcome, id: u64) -> bool {
    &&& after == (State { pending_search: false, ..before })
    &&& outcome.send == Some(Command::Paste(id))
    &&& outcome.asks_nothing_else()
}

/// Whether the next kind of search is gone on to.
pub open spec fn toggles_search_kind(before: State, after: State, outcome: Outcome) -> bool {
    let toggled = State {
        search_kind: match before.search_kind {
            SearchKind::Plain => SearchKind::Regex,
            SearchKind::Regex => SearchKind::Mime,
            SearchKind::Mime => SearchKind::Plain,
        },
        ..before
    };
    if before.query@.len() == 0 {
        after == toggled && outcome.is_nothing()
    } else {
        &&& after == toggled.searching()
        &&& outcome.searches(toggled)
        &&& outcome.send is None && !outcome.reload && outcome.images@.len() == 0
            && outcome.follow_up is None && !outcome.exit
    }
}

/// Whether the details of an entry show more than its preview: a whole image, or
/// the rest of a long text.
pub fn entry_has_extra_detail(entry: &UiEntry) -> (extra: bool)
    ensures
        extra == match entry.cache {
            UiEntryCache::Image => true,
            UiEntryCache::Text { one_liner } => encode_utf8(one_liner@).len() > PREVIEW_LEN,
            UiEntryCache::HighlightedText { one_liner, .. } => encode_utf8(one_liner@).len()
                > PREVIEW_LEN,
            UiEntryCache::Binary { .. } | UiEntryCache::Error(_) => false,
        },
{
    match &entry.cache {
        UiEntryCache::Image => true,
        UiEntryCache::Text { one_liner } | UiEntryCache::HighlightedText { one_liner, .. } => {
            one_liner.as_str().as_bytes().len() > PREVIEW_LEN
        },
        UiEntryCache::Binary { .. } | UiEntryCache::Error(_) => false,
    }
}

/// The part of a line that is previewed.
pub fn preview(one_liner: &str) -> (shown: &str)
    requires
        encode_utf8(one_liner@).len() > PREVIEW_LEN ==> is_char_boundary(
            encode_utf8(one_liner@),
            PREVIEW_LEN as int,
        ),
    ensures
        encode_utf8(one_liner@).len() <= PREVIEW_LEN ==> shown@ == one_liner@,
        encode_utf8(one_liner@).len() > PREVIEW_LEN ==> encode_utf8(shown@) == encode_utf8(
            one_liner@,
        ).take(PREVIEW_LEN as int),
{
    if one_liner.as_bytes().len() <= PREVIEW_LEN {
        one_liner
    } else {
        one_liner.split_at(PREVIEW_LEN).0
    }
}

/// The order of navigation lists every entry that is listed: favorites and other
/// entries apart, but none twice and none left out.
pub proof fn lemma_nav_lists_all(entries: Seq<UiEntry>)
    ensures
        of_ring(entries, RingKind::Favorites).len() + of_ring(entries, RingKind::Main).len()
            == entries.len(),
        forall|i: int|
            0 <= i < entries.len() ==> {
                ||| of_ring(entries, RingKind::Favorites).contains(#[trigger] entries[i])
                ||| of_ring(entries, RingKind::Main).contains(entries[i])
            },
    decreases entries.len(),
{
    if entries.len() > 0 {
        let front = entries.drop_last();
        lemma_nav_lists_all(front);
        assert forall|i: int| 0 <= i < entries.len() implies {
            ||| of_ring(entries, RingKind::Favorites).contains(#[trigger] entries[i])
            ||| of_ring(entries, RingKind::Main).contains(entries[i])
        } by {
            let ring = entries[i].entry.spec_ring();
            if i < front.len() {
                assert(front[i] == entries[i]);
                if of_ring(front, RingKind::Favorites).contains(entries[i]) {
                    lemma_of_ring_grows(entries, RingKind::Favorites, entries[i]);
                } else {
                    lemma_of_ring_grows(entries, RingKind::Main, entries[i]);
                }
            } else {
                let last = of_ring(entries, ring);
                assert(last[last.len() - 1] == entries[i]);
            }
        }
    }
}

proof fn lemma_of_ring_grows(entries: Seq<UiEntry>, ring: RingKind, entry: UiEntry)
    requires
        entries.len() > 0,
        of_ring(entries.drop_last(), ring).contains(entry),
    ensures
        of_ring(entries, ring).contains(entry),
{
    let front = of_ring(entries.drop_last(), ring);
    let j = choose|j: int| 0 <= j < front.len() && front[j] == entry;
    assert(of_ring(entries, ring)[j] == entry);
}

/// What the user did, or what happened in the background.
#[derive(Debug)]
pub enum AppMessage {
    KeyEvent(KeyPress),
    /// The image of an entry was decoded, or why it was not.
    ImageDecoded(u64, Result<(), String>),
    SearchChanged(String),
    SearchKindToggled,
    TabSelected(ActiveTab),
    TabNext,
    TabPrev,
    PinnedToggled,
    EntryClicked(u64),
    EntryHovered(Option<u64>),
    FavoriteToggled(u64),
    DeleteEntry(u64),
    DetailRequested(u64),
    DetailClosed,
    Refresh,
    FastPaste(u64),
    DismissError,
}

/// Whether a state is another one with a tab selected.
pub open spec fn selects_tab(before: State, index: int, after: State) -> bool {
    &&& after.active_tab.spec_index() == index
    &&& after == (State {
        active_tab: after.active_tab,
        highlighted_id: None,
        search_highlighted_id: None,
        ..before
    })
}

/// Whether a state is another one in which an image was decoded, or was not.
pub open spec fn takes_in_image(
    before: State,
    id: u64,
    result: Result<(), String>,
    after: State,
) -> bool {
    &&& after.loaded_image_pending@ == before.loaded_image_pending@.remove(id)
    &&& match result {
        Ok(()) => {
            &&& after.image_cache@ == before.image_cache@.insert(id)
            &&& after == (State {
                loaded_image_pending: after.loaded_image_pending,
                image_cache: after.image_cache,
                ..before
            })
        },
        Err(error) => after == (State {
            loaded_image_pending: after.loaded_image_pending,
            last_error: Some(error),
            ..before
        }),
    }
}

impl State {
    /// Takes in a message.
    pub fn update(&mut self, message: AppMessage) -> (outcome: Outcome)
        ensures
            match message {
                AppMessage::KeyEvent(press) => reacts_to_key(
                    *old(self),
                    press,
                    *final(self),
                    outcome,
                ),
                AppMessage::ImageDecoded(id, result) => takes_in_image(
                    *old(self),
                    id,
                    result,
                    *final(self),
                ) && outcome.is_nothing(),
                AppMessage::SearchChanged(query) => changes_search(
                    *old(self),
                    query,
                    *final(self),
                    outcome,
                ),
                AppMessage::SearchKindToggled => toggles_search_kind(
                    *old(self),
                    *final(self),
                    outcome,
                ),
                AppMessage::TabSelected(tab) => selects_tab(
                    *old(self),
                    tab.spec_index(),
                    *final(self),
                ) && outcome.is_nothing(),
                AppMessage::TabNext => selects_tab(
                    *old(self),
                    (old(self).active_tab.spec_index() + 1) % 5,
                    *final(self),
                ) && outcome.is_nothing(),
                AppMessage::TabPrev => selects_tab(
                    *old(self),
                    (old(self).active_tab.spec_index() - 1) % 5,
                    *final(self),
                ) && outcome.is_nothing(),
                AppMessage::PinnedToggled => *final(self) == (State {
                    pinned_expanded: !old(self).pinned_expanded,
                    ..*old(self)
                }) && outcome.is_nothing(),
                AppMessage::EntryClicked(id) => pastes(*old(self), *final(self), outcome, id),
                AppMessage::EntryHovered(id) => *final(self) == (State {
                    hovered_id: id,
                    ..*old(self)
                }) && outcome.is_nothing(),
                AppMessage::FavoriteToggled(id) => toggles_favorite(
                    *old(self),
                    id,
                    *final(self),
                    outcome,
                ),
                AppMessage::DeleteEntry(id) => deletes(*old(self), id, *final(self), outcome),
                AppMessage::DetailRequested(id) => opens_detail(
                    *old(self),
                    id,
                    *final(self),
                    outcome,
                ),
                AppMessage::DetailClosed => *final(self) == (State {
                    details_requested: None,
                    detailed_entry: None,
                    ..*old(self)
                }) && outcome.is_nothing(),
                AppMessage::Refresh => refreshes(*old(self), *final(self), outcome),
                AppMessage::FastPaste(id) => pastes(*old(self), *final(self), outcome, id),
                AppMessage::DismissError => *final(self) == (State {
                    last_error: None,
                    ..*old(self)
                }) && outcome.is_nothing(),
            },
    {
        match message {
            AppMessage::KeyEvent(press) => {
                return self.handle_key_event(press);
            },
            AppMessage::ImageDecoded(id, result) => self.image_decoded(id, result),
            AppMessage::SearchChanged(query) => {
                return self.search_changed(query);
            },
            AppMessage::SearchKindToggled => {
                return self.toggle_search_kind();
            },
            AppMessage::TabSelected(tab) => self.select_tab(tab),
            AppMessage::TabNext => self.cycle_tab(true),
            AppMessage::TabPrev => self.cycle_tab(false),
            AppMessage::PinnedToggled => {
                self.pinned_expanded = !self.pinned_expanded;
            },
            AppMessage::EntryClicked(id) => {
                return self.paste(id);
            },
            AppMessage::EntryHovered(id) => {
                self.hovered_id = id;
            },
            AppMessage::FavoriteToggled(id) => {
                return self.toggle_favorite(id);
            },
            AppMessage::DeleteEntry(id) => {
                return self.delete(id);
            },
            AppMessage::DetailRequested(id) => {
                return self.open_detail(id);
            },
            AppMessage::DetailClosed => self.close_detail(),
            AppMessage::Refresh => {
                return self.refresh();
            },
            AppMessage::FastPaste(id) => {
                return self.paste(id);
            },
            AppMessage::DismissError => {
                self.last_error = None;
            },
        }
        Outcome::nothing()
    }
}

/// How the list is divided.
#[derive(Copy, Clone, Eq, PartialEq, Debug)]
pub struct ListLayout {
    /// How many favorites the header above them tells of, if there is one.
    pub favorites_header: Option<usize>,
    /// Whether the favorites are listed below their header.
    pub favorites: bool,
    /// How many other entries the header above them tells of, if there is one.
    pub recent_header: Option<usize>,
}

/// How many entries of each ring are listed, as the status bar tells it.
pub open spec fn counts_text(apart: bool, favorites: nat, recent: nat, all: nat) -> Seq<char> {
    if apart {
        crate::text::decimal_text(favorites) + " favorites / "@ + crate::text::decimal_text(recent)
            + " recent"@
    } else {
        crate::text::decimal_text(all) + " items"@
    }
}

impl State {
    /// How the list is divided: favorites come first and can be folded, unless a
    /// search or a tab mixes them with the others.
    pub fn list_layout(&self) -> (layout: ListLayout)
        ensures
            ({
                let filtered = self.spec_filtered_entries();
                let favorites = of_ring(filtered, RingKind::Favorites).len();
                let recent = of_ring(filtered, RingKind::Main).len();
                let apart = self.spec_show_sections() && favorites > 0;
                &&& layout.favorites_header == if apart {
                    Some(favorites as usize)
                } else {
                    None
                }
                &&& layout.favorites == (apart && self.pinned_expanded)
                &&& layout.recent_header == if apart && recent > 0 {
                    Some(recent as usize)
                } else {
                    None
                }
            }),
    {
        let filtered = self.filtered_entries();
        let pinned = select_ring(&filtered, RingKind::Favorites);
        let unpinned = select_ring(&filtered, RingKind::Main);
        let favorites: usize = pinned.len();
        let recent: usize = unpinned.len();
        assert(referenced(pinned@).len() == favorites);
        assert(referenced(unpinned@).len() == recent);
        if self.show_sections() && favorites > 0 {
            ListLayout {
                favorites_header: Some(favorites),
                favorites: self.pinned_expanded,
                recent_header: if recent > 0 {
                    Some(recent)
                } else {
                    None
                },
            }
        } else {
            ListLayout { favorites_header: None, favorites: false, recent_header: None }
        }
    }

    /// How many entries are listed.
    pub fn status_counts(&self) -> (counts: String)
        ensures
            ({
                let filtered = self.spec_filtered_entries();
                counts@ == counts_text(
                    self.spec_show_sections(),
                    of_ring(filtered, RingKind::Favorites).len(),
                    of_ring(filtered, RingKind::Main).len(),
                    filtered.len(),
                )
            }),
    {
        let filtered = self.filtered_entries();
        let mut counts = String::new();
        assert(referenced(filtered@).len() == filtered@.len());
        if self.show_sections() {
            let pinned = select_ring(&filtered, RingKind::Favorites);
            let unpinned = select_ring(&filtered, RingKind::Main);
            assert(referenced(pinned@).len() == pinned@.len());
            assert(referenced(unpinned@).len() == unpinned@.len());
            push_number(&mut counts, pinned.len() as u64);
            counts.append(" favorites / ");
            push_number(&mut counts, unpinned.len() as u64);
            counts.append(" recent");
        } else {
            push_number(&mut counts, filtered.len() as u64);
            counts.append(" items");
        }
        assert(counts@ =~= counts_text(
            self.spec_show_sections(),
            of_ring(referenced(filtered@), RingKind::Favorites).len(),
            of_ring(referenced(filtered@), RingKind::Main).len(),
            filtered@.len(),
        ));
        counts
    }

    /// What the status bar tells about a search.
    pub fn status_search(&self) -> (status: &'static str)
        ensures
            status@ == if self.pending_search {
                "Searching..."@
            } else {
                ""@
            },
    {
        if self.pending_search {
            "Searching..."
        } else {
            ""
        }
    }
}

/// What the page with the settings holds.
#[derive(Debug)]
pub struct SettingsState {
    pub loaded: bool,
    pub max_main_entries: String,
    pub max_favorite_entries: String,
    pub gc_max_wasted_bytes: String,
    pub status: Option<Result<String, String>>,
    pub saving: bool,
    pub running_gc: bool,
}

impl SettingsState {
    /// What the button that saves says. It cannot be pressed while the settings are
    /// being saved.
    pub fn save_button(&self) -> (button: (&'static str, bool))
        ensures
            button.0@ == if self.saving {
                "Saving..."@
            } else {
                "Save"@
            },
            button.1 == !self.saving,
    {
        if self.saving {
            ("Saving...", false)
        } else {
            ("Save", true)
        }
    }

    /// What the button that collects garbage says. It cannot be pressed while garbage
    /// is being collected.
    pub fn gc_button(&self) -> (button: (&'static str, bool))
        ensures
            button.0@ == if self.running_gc {
                "Running..."@
            } else {
                "Run garbage collection"@
            },
            button.1 == !self.running_gc,
    {
        if self.running_gc {
            ("Running...", false)
        } else {
            ("Run garbage collection", true)
        }
    }
}

/// A tab lists the entries that belong to it, in their order: all of them, text, images or
/// favorites, and the settings none.
pub proof fn lemma_listed(entries: Seq<UiEntry>, tab: ActiveTab)
    ensures
        listed(entries, tab) == entries.filter(
            |e: UiEntry|
                match tab {
                    ActiveTab::All => true,
                    ActiveTab::Text => e.cache is Text || e.cache is HighlightedText,
                    ActiveTab::Images => e.cache is Image,
                    ActiveTab::Favorites => e.entry.spec_ring() == RingKind::Favorites,
                    ActiveTab::Settings => false,
                },
        ),
    decreases entries.len(),
{
    reveal(Seq::filter);
    if entries.len() > 0 {
        lemma_listed(entries.drop_last(), tab);
    } else {
        assert(entries =~= Seq::<UiEntry>::empty());
    }
}

/// The entries of a ring are those of the ring, in their order.
pub proof fn lemma_of_ring(entries: Seq<UiEntry>, ring: RingKind)
    ensures
        of_ring(entries, ring) == entries.filter(|e: UiEntry| e.entry.spec_ring() == ring),
    decreases entries.len(),
{
    reveal(Seq::filter);
    if entries.len() > 0 {
        lemma_of_ring(entries.drop_last(), ring);
    } else {
        assert(entries =~= Seq::<UiEntry>::empty());
    }
}

/// The images that are asked for are those of entries that are shown as images, unless they
/// are there or on their way.
pub proof fn lemma_missing_images(
    entries: Seq<UiEntry>,
    pending: Set<u64>,
    cached: Set<u64>,
    id: u64,
)
    ensures
        missing_images(entries, pending, cached).contains(id) <==> !pending.contains(id)
            && !cached.contains(id) && exists|i: int|
            0 <= i < entries.len() && (#[trigger] entries[i]).cache is Image
                && entries[i].entry.spec_id() == id,
    decreases entries.len(),
{
    let all = missing_images(entries, pending, cached);
    if entries.len() > 0 {
        let front = entries.drop_last();
        let rest = missing_images(front, pending, cached);
        lemma_missing_images(front, pending, cached, id);
        assert forall|i: int| 0 <= i < front.len() implies #[trigger] front[i] == entries[i] by {
        }
        assert(entries[entries.len() - 1] == entries.last());
        if exists|i: int|
            0 <= i < front.len() && (#[trigger] front[i]).cache is Image
                && front[i].entry.spec_id() == id {
            let i = choose|i: int|
                0 <= i < front.len() && (#[trigger] front[i]).cache is Image
                    && front[i].entry.spec_id() == id;
            assert(entries[i].cache is Image);
        }
        if exists|i: int|
            0 <= i < entries.len() && (#[trigger] entries[i]).cache is Image
                && entries[i].entry.spec_id() == id {
            let i = choose|i: int|
                0 <= i < entries.len() && (#[trigger] entries[i]).cache is Image
                    && entries[i].entry.spec_id() == id;
            if i < front.len() {
                assert(front[i].cache is Image);
            }
        }
        if rest.contains(id) {
            let j = choose|j: int| 0 <= j < rest.len() && rest[j] == id;
            assert(all[j] == id);
        }
        if all.len() > rest.len() {
            assert(all[all.len() - 1] == entries.last().entry.spec_id());
        }
    }
}

/// The first entry with an ID has it, and there is one if any entry has it.
pub proof fn lemma_first_with_id(entries: Seq<UiEntry>, id: u64)
    ensures
        first_with_id(entries, id) matches Some(entry) ==> entry.entry.spec_id() == id
            && entries.contains(entry),
        first_with_id(entries, id) is None ==> forall|i: int|
            0 <= i < entries.len() ==> (#[trigger] entries[i]).entry.spec_id() != id,
    decreases entries.len(),
{
    if entries.len() > 0 {
        let front = entries.drop_last();
        lemma_first_with_id(front, id);
        if let Some(entry) = first_with_id(front, id) {
            let j = choose|j: int| 0 <= j < front.len() && front[j] == entry;
            assert(entries[j] == entry);
        }
        assert(entries[entries.len() - 1] == entries.last());
        if first_with_id(entries, id) is None {
            assert forall|i: int| 0 <= i < entries.len() implies (
            #[trigger] entries[i]).entry.spec_id() != id by {
                if i < front.len() {
                    assert(front[i] == entries[i]);
                }
            }
        }
    }
}

/// Keys change nothing that is loaded, and nothing in the database: the only thing that
/// they ask of the server is to paste an entry, the highlighted one or the one whose number
/// was typed.
pub proof fn lemma_keys_are_harmless(state: &mut State, press: KeyPress, outcome: Outcome)
    requires
        call_ensures(State::handle_key_event, (state, press), outcome),
    ensures
        final(state).loaded_entries == old(state).loaded_entries,
        final(state).active_tab == old(state).active_tab,
        final(state).details_requested == old(state).details_requested,
        final(state).search_results == old(state).search_results || press.key is Escape,
        final(state).query == old(state).query || press.key is Escape,
        final(state).search_kind == old(state).search_kind || press.key is Character,
        outcome.send matches Some(command) ==> (command matches Command::Paste(id) && (
        press.key is Enter && old(state).spec_current_highlight() == Some(id) || (
        press.key is Character && press.control && exists|i: int|
            0 <= i < 10 && i < old(state).spec_nav_entries().len() && (#[trigger] old(
                state,
            ).spec_nav_entries()[i]).entry.spec_id() == id))),
        outcome.exit ==> press.key is Escape && old(state).query@.len() == 0 && old(
            state,
        ).details_requested is None,
        outcome.search is Some ==> final(state).search_kind != old(state).search_kind,
{
    if let Key::Character(typed) = press.key {
        if let Some(d) = leading_digit(typed@) {
            let nav = crate::egui::ids_of(old(state).spec_nav_entries());
            if d < nav.len() {
                assert(nav[d] == old(state).spec_nav_entries()[d].entry.spec_id());
            }
        }
    }
}

/// The escape key closes the details first, then takes back the search, and leaves the
/// program only if there is neither.
pub proof fn lemma_escape(state: &mut State, press: KeyPress, outcome: Outcome)
    requires
        call_ensures(State::handle_key_event, (state, press), outcome),
        press.key is Escape,
    ensures
        outcome.exit <==> old(state).details_requested is None && old(state).query@.len() == 0,
        old(state).details_requested is Some ==> outcome.follow_up == Some(
            FollowUp::DetailClosed,
        ) && final(state).query == old(state).query,
        old(state).details_requested is None ==> final(state).query@.len() == 0
            && outcome.follow_up is None,
        old(state).details_requested is None && old(state).query@.len() > 0 ==> final(state).search_results@.len() == 0 && !final(state).pending_search,
        outcome.send is None,
{
}

/// The arrow keys go through the entries in the order in which they are listed, around the
/// ends.
pub proof fn lemma_arrow_keys_navigate(
    state: &mut State,
    press: KeyPress,
    outcome: Outcome,
    i: int,
)
    requires
        call_ensures(State::handle_key_event, (state, press), outcome),
        press.key is ArrowUp || press.key is ArrowDown,
        !press.control,
        crate::egui::ids_of(old(state).spec_nav_entries()).no_duplicates(),
        0 <= i < old(state).spec_nav_entries().len(),
        old(state).spec_current_highlight() == Some(
            old(state).spec_nav_entries()[i].entry.spec_id(),
        ),
    ensures
        ({
            let nav = old(state).spec_nav_entries();
            let next = if press.key is ArrowDown {
                if i == nav.len() - 1 {
                    0
                } else {
                    i + 1
                }
            } else if i == 0 {
                nav.len() - 1
            } else {
                i - 1
            };
            &&& final(state).spec_current_highlight() == Some(nav[next].entry.spec_id())
            &&& outcome.is_nothing()
            &&& final(state).query == old(state).query
        }),
{
    let ids = crate::egui::ids_of(old(state).spec_nav_entries());
    crate::egui::lemma_position_is_unique(ids, i);
}

/// Favorites come first in the order of navigation where they are listed apart; otherwise it
/// is the order of the list.
pub proof fn lemma_navigation_order(state: State)
    ensures
        ({
            let shown = if state.query@.len() == 0 {
                state.loaded_entries@
            } else {
                state.search_results@
            };
            let filtered = listed(shown, state.active_tab);
            state.spec_nav_entries() == if state.query@.len() == 0 && state.active_tab
                == ActiveTab::All {
                filtered.filter(|e: UiEntry| e.entry.spec_ring() == RingKind::Favorites)
                    + filtered.filter(|e: UiEntry| e.entry.spec_ring() == RingKind::Main)
            } else {
                filtered
            }
        }),
{
    lemma_of_ring(state.spec_filtered_entries(), RingKind::Favorites);
    lemma_of_ring(state.spec_filtered_entries(), RingKind::Main);
}

/// A favorite is taken out of the favorites and another entry is made one, and either way
/// what is shown is loaded anew.
pub proof fn lemma_favorite_is_toggled(state: &mut State, id: u64, outcome: Outcome)
    requires
        call_ensures(State::toggle_favorite, (state, id), outcome),
    ensures
        outcome.reload,
        outcome.send == Some(Command::Favorite(id)) || outcome.send == Some(
            Command::Unfavorite(id),
        ),
        outcome.send == Some(Command::Unfavorite(id)) ==> exists|entry: UiEntry|
            (old(state).loaded_entries@.contains(entry) || old(state).search_results@.contains(
                entry,
            )) && #[trigger] entry.entry.spec_id() == id && entry.entry.spec_ring()
                == RingKind::Favorites,
        (forall|i: int|
            0 <= i < old(state).loaded_entries@.len() && (#[trigger] old(
                state,
            ).loaded_entries@[i]).entry.spec_id() == id ==> old(
                state,
            ).loaded_entries@[i].entry.spec_ring() == RingKind::Favorites) && (exists|i: int|
            0 <= i < old(state).loaded_entries@.len() && (#[trigger] old(
                state,
            ).loaded_entries@[i]).entry.spec_id() == id) ==> outcome.send == Some(
            Command::Unfavorite(id),
        ),
{
    let loaded = old(state).loaded_entries@;
    lemma_first_with_id(loaded, id);
    lemma_first_with_id(old(state).search_results@, id);
    if let Some(entry) = first_with_id(loaded, id) {
        let j = choose|j: int| 0 <= j < loaded.len() && loaded[j] == entry;
        assert(loaded[j].entry.spec_id() == id);
    }
}

/// Deleting an entry asks for just that, takes the highlight off and loads what is shown
/// anew.
pub proof fn lemma_entry_is_deleted(state: &mut State, id: u64, outcome: Outcome)
    requires
        call_ensures(State::delete, (state, id), outcome),
    ensures
        outcome.send == Some(Command::Delete(id)),
        outcome.reload,
        final(state).spec_current_highlight() is None,
        final(state).query == old(state).query,
        old(state).query@.len() > 0 ==> (outcome.search matches Some((query, kind)) && query@
            == old(state).query@ && kind == old(state).search_kind),
{
}

/// What was typed is searched for as it is, and an empty query takes the search back.
pub proof fn lemma_typed_query_is_searched_for(
    state: &mut State,
    query: String,
    outcome: Outcome,
)
    requires
        call_ensures(State::search_changed, (state, query), outcome),
    ensures
        final(state).query@ == query@,
        final(state).pending_search <==> query@.len() > 0,
        outcome.search is Some <==> query@.len() > 0,
        outcome.search matches Some((sent, kind)) ==> sent@ == query@ && kind == old(
            state,
        ).search_kind,
        query@.len() == 0 ==> final(state).search_results@.len() == 0,
        final(state).loaded_entries == old(state).loaded_entries,
        final(state).highlighted_id == old(state).highlighted_id,
        outcome.send is None && !outcome.exit,
{
}

/// What the worker has loaded or found is what is shown. The images in it are asked for,
/// unless they are there or on their way.
pub proof fn lemma_loaded_entries_are_shown(
    state: &mut State,
    message: ControllerMessage,
    outcome: Outcome,
)
    requires
        call_ensures(State::handle_controller_message, (state, message), outcome),
    ensures
        final(state).query == old(state).query,
        final(state).search_kind == old(state).search_kind,
        final(state).active_tab == old(state).active_tab,
        message matches ControllerMessage::LoadedFirstPage { entries, default_focused_id } ==> {
            &&& final(state).loaded_entries == entries
            &&& final(state).search_results == old(state).search_results
            &&& outcome.images@ == missing_images(
                entries@,
                old(state).loaded_image_pending@,
                old(state).image_cache@,
            )
            &&& old(state).highlighted_id is Some ==> final(state).highlighted_id == old(
                state,
            ).highlighted_id
            &&& old(state).highlighted_id is None && default_focused_id is Some ==> final(state).highlighted_id == default_focused_id
        },
        message matches ControllerMessage::SearchResults(entries) ==> {
            &&& final(state).search_results == entries
            &&& final(state).loaded_entries == old(state).loaded_entries
            &&& entries@.len() > 0 ==> final(state).search_highlighted_id == Some(
                entries@[0].entry.spec_id(),
            )
        },
        message matches ControllerMessage::EntryDetails { id, result } ==> (old(
            state,
        ).details_requested != Some(id) ==> final(state).detailed_entry == old(
            state,
        ).detailed_entry),
        message matches ControllerMessage::Error(error) ==> final(state).last_error == Some(error),
        outcome.exit <==> message is Pasted,
{
}

/// The tabs are gone through one after the other, around the ends, and back the same way.
pub proof fn lemma_tabs_are_cycled(
    tab: ActiveTab,
    next: ActiveTab,
    back: ActiveTab,
)
    requires
        call_ensures(ActiveTab::cycle, (tab, true), next),
        call_ensures(ActiveTab::cycle, (next, false), back),
    ensures
        back == tab,
        next == match tab {
            ActiveTab::All => ActiveTab::Text,
            ActiveTab::Text => ActiveTab::Images,
            ActiveTab::Images => ActiveTab::Favorites,
            ActiveTab::Favorites => ActiveTab::Settings,
            ActiveTab::Settings => ActiveTab::All,
        },
{
}

/// A preview is the beginning of a line, all of it if it is short.
pub proof fn lemma_preview_is_beginning(one_liner: &str, shown: &str)
    requires
        call_ensures(preview, (one_liner,), shown),
    ensures
        encode_utf8(shown@) == encode_utf8(one_liner@).take(encode_utf8(shown@).len() as int),
        encode_utf8(shown@).len() == if encode_utf8(one_liner@).len() <= 200 {
            encode_utf8(one_liner@).len() as int
        } else {
            200
        },
{
    assert(encode_utf8(one_liner@).take(encode_utf8(one_liner@).len() as int) =~= encode_utf8(
        one_liner@,
    ));
}

/// The details of an entry are asked for once per entry, with its text if it has one.
pub proof fn lemma_details_are_asked_for(state: &mut State, id: u64, outcome: Outcome)
    requires
        call_ensures(State::open_detail, (state, id), outcome),
    ensures
        final(state).details_requested == Some(id),
        outcome.send is Some <==> old(state).details_requested != Some(id),
        outcome.send matches Some(command) ==> (command matches Command::GetDetails {
            id: asked,
            ..
        } && asked == id),
        final(state).loaded_entries == old(state).loaded_entries,
        final(state).spec_current_highlight() == old(state).spec_current_highlight(),
        forall|i: int|
            0 <= i < outcome.images@.len() ==> #[trigger] outcome.images@[i] == id,
{
}

/// The kinds of search come in turn, each once before the first comes again, and what is being
/// searched for is searched for again by the new one.
pub proof fn lemma_search_kinds_take_turns(state: &mut State, outcome: Outcome)
    requires
        call_ensures(State::toggle_search_kind, (state,), outcome),
    ensures
        old(state).search_kind == SearchKind::Plain <==> final(state).search_kind
            == SearchKind::Regex,
        old(state).search_kind == SearchKind::Regex <==> final(state).search_kind
            == SearchKind::Mime,
        old(state).search_kind == SearchKind::Mime <==> final(state).search_kind
            == SearchKind::Plain,
        final(state).query == old(state).query,
        final(state).loaded_entries == old(state).loaded_entries,
        outcome.search is Some <==> old(state).query@.len() > 0,
        outcome.search matches Some((query, kind)) ==> query@ == old(state).query@ && kind
            == final(state).search_kind,
        outcome.send is None,
{
}

/// A refresh loads the entries anew and searches again for what is being searched for, which
/// stays as it is.
pub proof fn lemma_refresh_searches_again(state: &mut State, outcome: Outcome)
    requires
        call_ensures(State::refresh, (state,), outcome),
    ensures
        outcome.reload,
        outcome.send is None,
        outcome.search is Some <==> old(state).query@.len() > 0,
        outcome.search matches Some((query, kind)) ==> query@ == old(state).query@ && kind
            == old(state).search_kind,
        final(state).query == old(state).query,
        final(state).active_tab == old(state).active_tab,
        final(state).loaded_entries == old(state).loaded_entries,
        final(state).search_results == old(state).search_results,
        forall|id: u64| !final(state).image_cache@.contains(id),
{
}

/// An entry that is pasted is the one that was chosen, and nothing else is asked for.
pub proof fn lemma_chosen_entry_is_pasted(state: &mut State, id: u64, outcome: Outcome)
    requires
        call_ensures(State::paste, (state, id), outcome),
    ensures
        outcome.send == Some(Command::Paste(id)),
        !outcome.reload,
        outcome.search is None,
        final(state).loaded_entries == old(state).loaded_entries,
        final(state).query == old(state).query,
{
}

/// An image is got ready once at a time, and kept once it is ready.
pub proof fn lemma_image_is_decoded_once(state: &mut State, id: u64, other: u64, decode: bool)
    requires
        call_ensures(State::image_loaded, (state, id), decode),
    ensures
        decode <==> !old(state).loaded_image_pending@.contains(id),
        final(state).loaded_image_pending@.contains(id),
        other != id ==> (final(state).loaded_image_pending@.contains(other) <==> old(state).loaded_image_pending@.contains(other)),
{
}

/// An image that is ready is kept, one that cannot be made ready is not, and neither is waited
/// for any more; nothing changes for the others.
pub proof fn lemma_decoded_image_is_kept(
    state: &mut State,
    id: u64,
    other: u64,
    result: Result<(), String>,
)
    requires
        call_ensures(State::image_decoded, (state, id, result), ()),
    ensures
        !final(state).loaded_image_pending@.contains(id),
        result is Ok ==> final(state).image_cache@.contains(id),
        result is Err ==> final(state).image_cache == old(state).image_cache && final(state).last_error == Some(result->Err_0),
        other != id ==> (final(state).image_cache@.contains(other) <==> old(state).image_cache@.contains(other)),
        other != id ==> (final(state).loaded_image_pending@.contains(other) <==> old(state).loaded_image_pending@.contains(other)),
{
}

/// The favorites have a heading that tells how many there are, if there are any and nothing is
/// searched for; the others have one if the favorites do.
pub proof fn lemma_sections_are_headed(state: State, layout: ListLayout)
    requires
        call_ensures(State::list_layout, (&state,), layout),
        state.active_tab == ActiveTab::All,
        state.loaded_entries@.len() <= usize::MAX,
    ensures
        state.query@.len() > 0 ==> layout.favorites_header is None && layout.recent_header is None
            && !layout.favorites,
        state.query@.len() == 0 ==> {
            let favorites = state.loaded_entries@.filter(
                |e: UiEntry| e.entry.spec_ring() == RingKind::Favorites,
            ).len();
            let recent = state.loaded_entries@.filter(
                |e: UiEntry| e.entry.spec_ring() == RingKind::Main,
            ).len();
            &&& layout.favorites_header is Some <==> favorites > 0
            &&& layout.favorites_header matches Some(n) ==> n == favorites
            &&& layout.recent_header is Some <==> favorites > 0 && recent > 0
            &&& layout.recent_header matches Some(n) ==> n == recent
            &&& layout.favorites <==> favorites > 0 && state.pinned_expanded
        },
{
    if state.query@.len() == 0 {
        lemma_all_are_listed(state.loaded_entries@);
        lemma_of_ring(state.loaded_entries@, RingKind::Favorites);
        lemma_of_ring(state.loaded_entries@, RingKind::Main);
        state.loaded_entries@.lemma_filter_len(
            |e: UiEntry| e.entry.spec_ring() == RingKind::Favorites,
        );
        state.loaded_entries@.lemma_filter_len(
            |e: UiEntry| e.entry.spec_ring() == RingKind::Main,
        );
    }
}

proof fn lemma_all_are_listed(entries: Seq<UiEntry>)
    ensures
        listed(entries, ActiveTab::All) == entries,
    decreases entries.len(),
{
    if entries.len() > 0 {
        lemma_all_are_listed(entries.drop_last());
        assert(entries =~= entries.drop_last().push(entries.last()));
    } else {
        assert(entries =~= Seq::<UiEntry>::empty());
    }
}

/// The status bar counts what is listed.
pub proof fn lemma_listed_entries_are_counted(state: State, counts: String)
    requires
        call_ensures(State::status_counts, (&state,), counts),
    ensures
        state.query@.len() > 0 && state.active_tab == ActiveTab::All ==> counts@
            == crate::text::decimal_text(state.search_results@.len()) + " items"@,
        state.query@.len() == 0 && state.active_tab == ActiveTab::All ==> counts@
            == crate::text::decimal_text(
            state.loaded_entries@.filter(
                |e: UiEntry| e.entry.spec_ring() == RingKind::Favorites,
            ).len(),
        ) + " favorites / "@ + crate::text::decimal_text(
            state.loaded_entries@.filter(
                |e: UiEntry| e.entry.spec_ring() == RingKind::Main,
            ).len(),
        ) + " recent"@,
{
    lemma_all_are_listed(state.loaded_entries@);
    lemma_all_are_listed(state.search_results@);
    lemma_of_ring(state.loaded_entries@, RingKind::Favorites);
    lemma_of_ring(state.loaded_entries@, RingKind::Main);
}

/// The details of a text show more exactly if its preview is not the whole of it.
pub proof fn lemma_details_show_more(entry: UiEntry, one_liner: &str, extra: bool, shown: &str)
    requires
        entry.cache matches UiEntryCache::Text { one_liner: text } && text@ == one_liner@,
        call_ensures(entry_has_extra_detail, (&entry,), extra),
        call_ensures(preview, (one_liner,), shown),
    ensures
        extra <==> shown@ != one_liner@,
{
    if extra {
        assert(encode_utf8(shown@).len() < encode_utf8(one_liner@).len());
    }
}

/// Whatever was going on, nothing is shown or searched for once the window is hidden; images
/// stay at hand.
pub proof fn lemma_reset_clears(state: &mut State)
    requires
        call_ensures(State::reset, (state,), ()),
    ensures
        final(state).loaded_entries@.len() == 0,
        final(state).search_results@.len() == 0,
        final(state).query@.len() == 0,
        final(state).search_kind == SearchKind::Plain,
        final(state).active_tab == ActiveTab::All,
        final(state).highlighted_id is None,
        final(state).search_highlighted_id is None,
        final(state).hovered_id is None,
        final(state).details_requested is None,
        final(state).detailed_entry is None,
        final(state).last_error is None,
        final(state).fatal_error is None,
        !final(state).pending_search,
        !final(state).pinned_expanded,
        final(state).image_cache == old(state).image_cache,
{
}

/// Details that were asked for are shown, the first entry is highlighted if nothing else is to
/// be, and a change of an entry loads what is shown anew: an entry that became a favorite, or is
/// none any more, is highlighted and its image dropped.
pub proof fn lemma_changes_are_followed(
    state: &mut State,
    message: ControllerMessage,
    outcome: Outcome,
    other: u64,
)
    requires
        call_ensures(State::handle_controller_message, (state, message), outcome),
    ensures
        outcome.send is None,
        outcome.reload <==> message is FavoriteChange || message is Deleted,
        outcome.search is Some <==> outcome.reload && old(state).query@.len() > 0,
        outcome.search matches Some((query, kind)) ==> query@ == old(state).query@ && kind
            == old(state).search_kind,
        final(state).details_requested == old(state).details_requested,
        message matches ControllerMessage::FatalDbOpen(error) ==> final(state).fatal_error == Some(
            error,
        ),
        message matches ControllerMessage::EntryDetails { id, result } ==> (
        old(state).details_requested == Some(id) && result is Ok ==> final(state).detailed_entry
            == Some(result->Ok_0)),
        message matches ControllerMessage::LoadedFirstPage { entries, default_focused_id } ==> (
        old(state).highlighted_id is None && default_focused_id is None && entries@.len() > 0
            ==> final(state).highlighted_id == Some(entries@[0].entry.spec_id())),
        message matches ControllerMessage::FavoriteChange(id) ==> {
            &&& old(state).query@.len() == 0 ==> final(state).highlighted_id == Some(id)
            &&& old(state).query@.len() > 0 ==> final(state).search_highlighted_id == Some(id)
            &&& !final(state).image_cache@.contains(id)
            &&& other != id ==> (final(state).image_cache@.contains(other)
                <==> old(state).image_cache@.contains(other))
        },
        message is SearchResults ==> outcome.images@ == missing_images(
            message->SearchResults_0@,
            old(state).loaded_image_pending@,
            old(state).image_cache@,
        ),
        !(message is LoadedFirstPage) ==> final(state).loaded_entries == old(state).loaded_entries,
        !(message is SearchResults) ==> final(state).search_results == old(state).search_results,
{
}

/// What the user does to an entry is done to the entry that was meant, and to no other: the
/// server is asked to paste, move or delete just that one.
pub proof fn lemma_user_is_obeyed(state: &mut State, message: AppMessage, outcome: Outcome)
    requires
        call_ensures(State::update, (state, message), outcome),
        !(message is KeyEvent),
    ensures
        message matches AppMessage::EntryClicked(id) ==> outcome.send == Some(Command::Paste(id)),
        message matches AppMessage::FastPaste(id) ==> outcome.send == Some(Command::Paste(id)),
        message matches AppMessage::DeleteEntry(id) ==> outcome.send == Some(Command::Delete(id)),
        outcome.send matches Some(Command::Paste(id)) ==> message == AppMessage::EntryClicked(id)
            || message == AppMessage::FastPaste(id),
        outcome.send matches Some(Command::Delete(id)) ==> message == AppMessage::DeleteEntry(id),
        outcome.send matches Some(Command::Favorite(id)) ==> message
            == AppMessage::FavoriteToggled(id),
        outcome.send matches Some(Command::Unfavorite(id)) ==> message
            == AppMessage::FavoriteToggled(id),
        message matches AppMessage::EntryHovered(id) ==> final(state).hovered_id == id,
        message matches AppMessage::TabSelected(tab) ==> final(state).active_tab.spec_index()
            == tab.spec_index() && final(state).highlighted_id is None,
        message is PinnedToggled ==> final(state).pinned_expanded != old(state).pinned_expanded,
        !(message is PinnedToggled) ==> final(state).pinned_expanded
            == old(state).pinned_expanded,
        message is DismissError ==> final(state).last_error is None,
        message is DetailClosed ==> final(state).details_requested is None
            && final(state).detailed_entry is None,
        message matches AppMessage::SearchChanged(query) ==> final(state).query@ == query@,
        !(message is SearchChanged) ==> final(state).query == old(state).query,
        final(state).loaded_entries == old(state).loaded_entries,
        final(state).fatal_error == old(state).fatal_error,
{
}

} // verus!
