//! The model of the COSMIC applet, and how messages change it.

use vstd::prelude::*;
use vstd::utf8::*;

use crate::protocol::RingKind;
use crate::text::str_equal;
use crate::ui_actor::{Command, DecodedImage, Message, SearchKind};
use crate::ui_entry::{UiEntry, UiEntryCache};

verus! {

/// How the history is searched.
#[derive(Copy, Clone, Eq, PartialEq, Debug, Structural)]
pub enum FilterMode {
    Plain,
    Regex,
    Mime,
}

impl Default for FilterMode {
    fn default() -> (mode: FilterMode)
        ensures
            mode == FilterMode::Plain,
    {
        FilterMode::Plain
    }
}

impl vstd::std_specs::convert::FromSpecImpl<FilterMode> for SearchKind {
    open spec fn obeys_from_spec() -> bool {
        true
    }

    open spec fn from_spec(mode: FilterMode) -> SearchKind {
        match mode {
            FilterMode::Plain => SearchKind::Plain,
            FilterMode::Regex => SearchKind::Regex,
            FilterMode::Mime => SearchKind::Mime,
        }
    }
}

impl From<FilterMode> for SearchKind {
    fn from(mode: FilterMode) -> (kind: SearchKind) {
        match mode {
            FilterMode::Plain => SearchKind::Plain,
            FilterMode::Regex => SearchKind::Regex,
            FilterMode::Mime => SearchKind::Mime,
        }
    }
}

/// Where along an edge of the screen the window is.
#[derive(Copy, Clone, Eq, PartialEq, Debug, Structural)]
pub enum Position {
    Center,
    Start,
    End,
}

impl Default for Position {
    fn default() -> (position: Position)
        ensures
            position == Position::Center,
    {
        Position::Center
    }
}

/// The edges of the screen that the window sticks to.
#[derive(Copy, Clone, Eq, PartialEq, Debug, Structural)]
pub struct Anchor {
    pub left: bool,
    pub right: bool,
    pub top: bool,
    pub bottom: bool,
}

/// The edges that a position along each axis stands for.
pub open spec fn spec_anchor(horizontal: Position, vertical: Position) -> Anchor {
    Anchor {
        left: horizontal == Position::Start,
        right: horizontal == Position::End,
        top: vertical == Position::Start,
        bottom: vertical == Position::End,
    }
}

/// The settings of the applet.
#[derive(Copy, Clone, Eq, PartialEq, Debug, Structural)]
pub struct Config {
    pub filter_mode: FilterMode,
    pub horizontal_position: Position,
    pub vertical_position: Position,
}

impl Config {
    /// The edges of the screen that the window sticks to: none along an axis in
    /// whose middle it is.
    pub fn anchor(&self) -> (anchor: Anchor)
        ensures
            anchor == spec_anchor(self.horizontal_position, self.vertical_position),
    {
        let (left, right) = match self.horizontal_position {
            Position::Start => (true, false),
            Position::Center => (false, false),
            Position::End => (false, true),
        };
        let (top, bottom) = match self.vertical_position {
            Position::Start => (true, false),
            Position::Center => (false, false),
            Position::End => (false, true),
        };
        Anchor { left, right, top, bottom }
    }
}

impl Default for Config {
    fn default() -> (config: Config)
        ensures
            config == (Config {
                filter_mode: FilterMode::Plain,
                horizontal_position: Position::End,
                vertical_position: Position::Start,
            }),
    {
        Config {
            filter_mode: FilterMode::default(),
            horizontal_position: Position::End,
            vertical_position: Position::Start,
        }
    }
}

/// The window never sticks to two opposite edges, and different positions stick to
/// different edges.
pub proof fn lemma_anchors_differ(a: Config, b: Config)
    ensures
        ({
            let anchor = spec_anchor(a.horizontal_position, a.vertical_position);
            &&& !(anchor.left && anchor.right)
            &&& !(anchor.top && anchor.bottom)
            &&& anchor == spec_anchor(b.horizontal_position, b.vertical_position) ==> (
            a.horizontal_position == b.horizontal_position && a.vertical_position
                == b.vertical_position)
        }),
{
}

/// Choices of which one is active.
#[derive(Debug)]
pub struct SingleSelectModel<T> {
    pub options: Vec<T>,
    pub active: usize,
}

/// The ways to search, with one of them active.
fn filter_modes(mode: FilterMode) -> (model: SingleSelectModel<FilterMode>)
    ensures
        model.options@ == seq![FilterMode::Plain, FilterMode::Regex, FilterMode::Mime],
        model.active < 3,
        model.options@[model.active as int] == mode,
{
    let options: Vec<FilterMode> = vec![FilterMode::Plain, FilterMode::Regex, FilterMode::Mime];
    assert(options@ =~= seq![FilterMode::Plain, FilterMode::Regex, FilterMode::Mime]);
    let active: usize = match mode {
        FilterMode::Plain => 0,
        FilterMode::Regex => 1,
        FilterMode::Mime => 2,
    };
    SingleSelectModel { options, active }
}

/// The ways to search, with the one that is set active.
pub fn filter_mode_model(config: &Config) -> (model: SingleSelectModel<FilterMode>)
    ensures
        model.options@ == seq![FilterMode::Plain, FilterMode::Regex, FilterMode::Mime],
        model.active < 3,
        model.options@[model.active as int] == config.filter_mode,
{
    filter_modes(config.filter_mode)
}

/// What is shown of an entry in a list.
#[derive(Debug)]
#[allow(inconsistent_fields)]
pub enum EntryData {
    Text { text: String, mime: String },
    /// The bytes from `start` up to `end` of the text stand out.
    HighlightedText { text: String, mime: String, start: usize, end: usize },
    /// The image itself is loaded later.
    Image { mime: String },
    Mime(String),
    Error(String),
}

/// An entry in a list.
#[derive(Debug)]
pub struct Entry {
    pub id: u64,
    pub favorite: bool,
    pub data: EntryData,
}

/// Whether data in a list is what an entry's summary stands for.
pub open spec fn is_data_of(data: EntryData, cache: UiEntryCache) -> bool {
    match cache {
        UiEntryCache::Text { one_liner } => data matches EntryData::Text { text, mime } && text@
            == one_liner@ && mime@ == "plain/text"@,
        UiEntryCache::HighlightedText { one_liner, start, end } => data matches
            EntryData::HighlightedText { text, mime, start: from, end: to } && text@ == one_liner@
            && mime@ == "plain/text"@ && from == start && to == end,
        UiEntryCache::Binary { mime_type } => data matches EntryData::Mime(mime) && mime@
            == mime_type@,
        UiEntryCache::Error(error) => data matches EntryData::Error(text) && text@
            == error.spec_message(),
        UiEntryCache::Image => data matches EntryData::Image { mime } && mime@ == "image/png"@,
    }
}

/// What is shown of an entry in a list.
pub fn convert_entry(cache: UiEntryCache) -> (data: EntryData)
    ensures
        is_data_of(data, cache),
{
    match cache {
        UiEntryCache::Text { one_liner } => EntryData::Text {
            text: one_liner,
            mime: "plain/text".to_owned(),
        },
        UiEntryCache::HighlightedText { one_liner, start, end } => EntryData::HighlightedText {
            text: one_liner,
            mime: "plain/text".to_owned(),
            start,
            end,
        },
        UiEntryCache::Binary { mime_type } => EntryData::Mime(mime_type),
        UiEntryCache::Error(error) => EntryData::Error(error.message().to_owned()),
        UiEntryCache::Image => EntryData::Image { mime: "image/png".to_owned() },
    }
}

/// Whether an entry in a list is what a loaded entry stands for.
pub open spec fn is_entry_of(entry: Entry, loaded: UiEntry) -> bool {
    &&& entry.id == loaded.entry.spec_id()
    &&& entry.favorite == (loaded.entry.spec_ring() == RingKind::Favorites)
    &&& is_data_of(entry.data, loaded.cache)
}

/// Whether the entries in a list are what loaded entries stand for.
pub open spec fn are_entries_of(entries: Seq<Entry>, loaded: Seq<UiEntry>) -> bool {
    &&& entries.len() == loaded.len()
    &&& forall|i: int|
        0 <= i < entries.len() ==> #[trigger] is_entry_of(entries[i], loaded[i])
}

/// The IDs of the entries that are images.
pub open spec fn image_ids(loaded: Seq<UiEntry>) -> Seq<u64>
    decreases loaded.len(),
{
    if loaded.len() == 0 {
        Seq::empty()
    } else if loaded.last().cache is Image {
        image_ids(loaded.drop_last()).push(loaded.last().entry.spec_id())
    } else {
        image_ids(loaded.drop_last())
    }
}

/// What is shown of loaded entries, and the IDs of the images to load.
pub fn convert_entries(loaded: Vec<UiEntry>) -> (converted: (Vec<Entry>, Vec<u64>))
    ensures
        are_entries_of(converted.0@, loaded@),
        converted.1@ == image_ids(loaded@),
{
    let ghost all = loaded@;
    let mut loaded = loaded;
    let mut entries: Vec<Entry> = Vec::new();
    let mut images: Vec<u64> = Vec::new();
    let mut i: usize = 0;
    let len: usize = loaded.len();
    assert(all.take(0) =~= Seq::<UiEntry>::empty());
    while i < len
        invariant
            i <= len == loaded@.len() == all.len(),
            forall|j: int| i <= j < len ==> #[trigger] loaded@[j] == all[j],
            entries@.len() == i,
            forall|j: int| 0 <= j < i ==> #[trigger] is_entry_of(entries@[j], all[j]),
            images@ == image_ids(all.take(i as int)),
        decreases len - i,
    {
        let id: u64 = loaded[i].entry.id();
        let favorite = loaded[i].entry.ring() == RingKind::Favorites;
        let mut cache = UiEntryCache::Image;
        core::mem::swap(&mut loaded[i].cache, &mut cache);
        assert(cache == all[i as int].cache);
        assert(all.take(i + 1).drop_last() =~= all.take(i as int));
        if let UiEntryCache::Image = cache {
            images.push(id);
        }
        let data = convert_entry(cache);
        entries.push(Entry { id, favorite, data });
        i += 1;
    }
    assert(all.take(i as int) =~= all);
    (entries, images)
}

/// The parts of a text before, in and after its highlight.
pub fn split_highlight(text: &str, start: usize, end: usize) -> (parts: (&str, &str, &str))
    requires
        start <= end,
        is_char_boundary(encode_utf8(text@), start as int),
        is_char_boundary(encode_utf8(text@), end as int),
    ensures
        encode_utf8(parts.0@) == encode_utf8(text@).subrange(0, start as int),
        encode_utf8(parts.1@) == encode_utf8(text@).subrange(start as int, end as int),
        encode_utf8(parts.2@) == encode_utf8(text@).skip(end as int),
{
    let ghost bytes = encode_utf8(text@);
    let ghost rest = bytes.subrange(start as int, bytes.len() as int);
    let (before, after) = text.split_at(start);
    proof {
        encode_utf8_valid_utf8(text@);
        valid_utf8_split(bytes, start as int);
        is_char_boundary_start_end_of_seq(rest);
        assert(end <= bytes.len());
        if end < bytes.len() {
            is_char_boundary_iff_not_is_continuation_byte(bytes, end as int);
            is_char_boundary_iff_not_is_continuation_byte(rest, end - start);
        }
    }
    let (highlighted, after) = after.split_at(end - start);
    proof {
        assert(rest.subrange(0, end - start) =~= bytes.subrange(start as int, end as int));
        assert(rest.subrange(end - start, rest.len() as int) =~= bytes.skip(end as int));
    }
    (before, highlighted, after)
}

/// What is shown of an entry on its own.
#[derive(Debug)]
pub enum DetailData {
    Loading,
    /// A text and its mime type.
    Text(String, String),
    /// An image and its mime type.
    Image(Vec<u8>, String),
    /// The mime type of something else.
    Other(String),
}

/// An entry shown on its own.
#[derive(Debug)]
pub struct Details {
    pub id: u64,
    pub favorite: bool,
    pub entry: DetailData,
}

impl Details {
    /// The mime type, if it is known.
    pub open spec fn spec_mime_type(self) -> Option<Seq<char>> {
        match self.entry {
            DetailData::Loading => None,
            DetailData::Text(_, mime) => Some(mime@),
            DetailData::Image(_, mime) => Some(mime@),
            DetailData::Other(mime) => Some(mime@),
        }
    }

    /// The mime type, if it is known.
    pub fn mime_type(&self) -> (mime: Option<&str>)
        ensures
            match mime {
                Some(mime) => self.spec_mime_type() == Some(mime@),
                None => self.spec_mime_type() is None,
            },
    {
        match &self.entry {
            DetailData::Loading => None,
            DetailData::Text(_, mime) => Some(mime.as_str()),
            DetailData::Image(_, mime) => Some(mime.as_str()),
            DetailData::Other(mime) => Some(mime.as_str()),
        }
    }
}

/// What a popup is for.
#[derive(Copy, Clone, Eq, PartialEq, Debug, Structural)]
pub enum PopupKind {
    Search,
    Settings,
}

/// The window that hangs on the applet.
#[derive(Debug)]
pub struct Popup {
    pub id: u64,
    pub kind: PopupKind,
    /// The entry that is shown on its own, or why it cannot be.
    pub details: Option<Result<Details, String>>,
}

/// The state of the applet. `T` stands for a search that can be cancelled.
#[derive(Debug)]
pub struct AppModel<T> {
    pub config: Config,
    pub popup: Option<Popup>,
    pub search: String,
    /// The way to search that was chosen last. It is shown as the active one even if the
    /// settings are changed from elsewhere.
    pub chosen_mode: FilterMode,
    pub pending_search: Option<T>,
    pub favorites: Vec<Entry>,
    pub entries: Vec<Entry>,
    pub fatal_error: Option<String>,
}

/// What happens to the applet.
#[derive(Debug)]
pub enum AppMessage<T> {
    TogglePopup,
    ToggleSettings,
    ClosePopup,
    Search(String),
    SearchPending(T),
    Items(Vec<Entry>),
    Paste(u64),
    ChangeFavorite(u64, bool),
    ViewDetails(u64, bool),
    DetailsLoaded(Result<Details, String>),
    CloseDetails,
    Delete(u64),
    Deleted(u64),
    Reload,
    /// The way to search that was chosen; nothing if the choice has none.
    SelectFilterMode(Option<FilterMode>),
    ConfigUpdate(Config),
    /// A key, and whether it is the one to leave with.
    KeyPressed(bool),
    FatalError(String),
}

/// What a message asks for, in this order.
#[derive(Debug)]
pub struct Effects<T> {
    /// Cancel this search.
    pub cancel: Option<T>,
    /// Close this popup.
    pub close: Option<u64>,
    /// Open this popup.
    pub open: Option<u64>,
    /// Send this command.
    pub send: Option<Command>,
    /// Keep this way to search in the settings.
    pub save: Option<FilterMode>,
    /// Handle [`AppMessage::CloseDetails`] next.
    pub close_details: bool,
}

impl<T> Effects<T> {
    /// Whether no more is asked for than to cancel a search, close or open a popup
    /// and send a command.
    pub open spec fn is_plain(self) -> bool {
        self.save is None && !self.close_details
    }

    /// Whether nothing is asked for.
    pub open spec fn is_nothing(self) -> bool {
        &&& self.is_plain()
        &&& self.cancel is None
        &&& self.close is None
        &&& self.open is None
        &&& self.send is None
    }

    /// Whether this command is all that is asked for.
    pub open spec fn only_sends(self, command: Command) -> bool {
        &&& self.is_plain()
        &&& self.cancel is None
        &&& self.close is None
        &&& self.open is None
        &&& self.send == Some(command)
    }

    fn nothing() -> (effects: Effects<T>)
        ensures
            effects.is_nothing(),
    {
        Effects {
            cancel: None,
            close: None,
            open: None,
            send: None,
            save: None,
            close_details: false,
        }
    }
}

/// Whether a command is a search for what a model is searched for.
pub open spec fn is_search<T>(command: Option<Command>, model: AppModel<T>) -> bool {
    command matches Some(Command::Search { query, kind }) && query@ == model.search@ && kind
        == <SearchKind as vstd::std_specs::convert::FromSpec<FilterMode>>::from_spec(
        model.config.filter_mode,
    )
}

/// Whether two models agree on everything but the popup and the search.
pub open spec fn same_lists<T>(a: AppModel<T>, b: AppModel<T>) -> bool {
    &&& a.config == b.config
    &&& a.chosen_mode == b.chosen_mode
    &&& a.pending_search == b.pending_search
    &&& a.favorites == b.favorites
    &&& a.entries == b.entries
    &&& a.fatal_error == b.fatal_error
}

/// Whether two models agree on everything but the popup.
pub open spec fn same_but_popup<T>(a: AppModel<T>, b: AppModel<T>) -> bool {
    same_lists(a, b) && a.search == b.search
}

/// Whether a model is another with the popup closed.
pub open spec fn is_closed<T>(before: AppModel<T>, after: AppModel<T>, close: Option<u64>) -> bool {
    &&& same_but_popup(before, after)
    &&& after.popup is None
    &&& close == match before.popup {
        Some(popup) => Some(popup.id),
        None => None,
    }
}

/// Whether a model is another with a new popup: the search is empty, and the
/// history is loaded anew.
pub open spec fn is_opened<T>(
    before: AppModel<T>,
    after: AppModel<T>,
    kind: PopupKind,
    id: u64,
    effects: Effects<T>,
) -> bool {
    &&& same_lists(before, after)
    &&& after.search@.len() == 0
    &&& after.popup is Some
    &&& after.popup->0.id == id
    &&& after.popup->0.kind == kind
    &&& after.popup->0.details is None
    &&& effects.open == Some(id)
    &&& effects.send == Some(Command::LoadFirstPage)
}

/// Whether a model is another with the popup toggled: one with the history is
/// closed, one with the settings is replaced, and without any one is opened.
pub open spec fn is_toggled<T>(
    before: AppModel<T>,
    after: AppModel<T>,
    kind: PopupKind,
    id: u64,
    effects: Effects<T>,
) -> bool {
    &&& effects.is_plain()
    &&& effects.cancel is None
    &&& if before.popup is Some && before.popup->0.kind == PopupKind::Search {
        &&& is_closed(before, after, effects.close)
        &&& effects.open is None
        &&& effects.send is None
    } else {
        &&& is_opened(before, after, kind, id, effects)
        &&& effects.close == match before.popup {
            Some(popup) => Some(popup.id),
            None => None,
        }
    }
}

/// Whether a model is another with different details in its popup, if it has one.
pub open spec fn has_details<T>(
    before: AppModel<T>,
    after: AppModel<T>,
    details: Option<Result<Details, String>>,
) -> bool {
    &&& same_but_popup(before, after)
    &&& match before.popup {
        None => after.popup is None,
        Some(popup) => after.popup is Some && after.popup->0.id == popup.id && after.popup->0.kind
            == popup.kind && after.popup->0.details == details,
    }
}

/// The entries that are favorites, or those that are not.
pub open spec fn with_favorite(entries: Seq<Entry>, favorite: bool) -> Seq<Entry>
    decreases entries.len(),
{
    if entries.len() == 0 {
        Seq::empty()
    } else if entries.last().favorite == favorite {
        with_favorite(entries.drop_last(), favorite).push(entries.last())
    } else {
        with_favorite(entries.drop_last(), favorite)
    }
}

/// The entries but for those with an ID.
pub open spec fn without_id(entries: Seq<Entry>, id: u64) -> Seq<Entry>
    decreases entries.len(),
{
    if entries.len() == 0 {
        Seq::empty()
    } else if entries.last().id == id {
        without_id(entries.drop_last(), id)
    } else {
        without_id(entries.drop_last(), id).push(entries.last())
    }
}

proof fn lemma_with_favorite_front(first: Entry, rest: Seq<Entry>, favorite: bool)
    ensures
        with_favorite(seq![first] + rest, favorite) == with_favorite(seq![first], favorite)
            + with_favorite(rest, favorite),
    decreases rest.len(),
{
    let all = seq![first] + rest;
    if rest.len() == 0 {
        assert(all =~= seq![first]);
        assert(with_favorite(all, favorite) =~= with_favorite(seq![first], favorite)
            + with_favorite(rest, favorite));
    } else {
        assert(all.drop_last() =~= seq![first] + rest.drop_last());
        lemma_with_favorite_front(first, rest.drop_last(), favorite);
        assert(with_favorite(all, favorite) =~= with_favorite(seq![first], favorite)
            + with_favorite(rest, favorite));
    }
}

proof fn lemma_without_id_front(first: Entry, rest: Seq<Entry>, id: u64)
    ensures
        without_id(seq![first] + rest, id) == without_id(seq![first], id) + without_id(rest, id),
    decreases rest.len(),
{
    let all = seq![first] + rest;
    if rest.len() == 0 {
        assert(all =~= seq![first]);
        assert(without_id(all, id) =~= without_id(seq![first], id) + without_id(rest, id));
    } else {
        assert(all.drop_last() =~= seq![first] + rest.drop_last());
        lemma_without_id_front(first, rest.drop_last(), id);
        assert(without_id(all, id) =~= without_id(seq![first], id) + without_id(rest, id));
    }
}

/// Splits entries into the favorites and the others.
fn partition(entries: Vec<Entry>) -> (parts: (Vec<Entry>, Vec<Entry>))
    ensures
        parts.0@ == with_favorite(entries@, true),
        parts.1@ == with_favorite(entries@, false),
{
    let ghost all = entries@;
    let mut rest = entries;
    let mut favorites: Vec<Entry> = Vec::new();
    let mut others: Vec<Entry> = Vec::new();
    assert(all.take(all.len() as int) =~= all);
    assert(all.skip(all.len() as int) =~= Seq::<Entry>::empty());
    while rest.len() > 0
        invariant
            rest@.len() <= all.len(),
            rest@ == all.take(rest@.len() as int),
            favorites@.reverse() == with_favorite(all.skip(rest@.len() as int), true),
            others@.reverse() == with_favorite(all.skip(rest@.len() as int), false),
        decreases rest@.len(),
    {
        let ghost n = rest@.len() - 1;
        let ghost favorites_before = favorites@;
        let ghost others_before = others@;
        let entry = rest.pop().unwrap();
        proof {
            let tail = all.skip(n + 1);
            assert(entry == all[n]);
            assert(all.skip(n) =~= seq![entry] + tail);
            assert(rest@ =~= all.take(n));
            lemma_with_favorite_front(entry, tail, true);
            lemma_with_favorite_front(entry, tail, false);
            reveal_with_fuel(with_favorite, 2);
            assert(seq![entry].drop_last() =~= Seq::<Entry>::empty());
            assert(Seq::<Entry>::empty().push(entry) + favorites_before.reverse()
                =~= favorites_before.push(entry).reverse());
            assert(Seq::<Entry>::empty().push(entry) + others_before.reverse()
                =~= others_before.push(entry).reverse());
            assert(Seq::<Entry>::empty() + favorites_before.reverse()
                =~= favorites_before.reverse());
            assert(Seq::<Entry>::empty() + others_before.reverse() =~= others_before.reverse());
        }
        if entry.favorite {
            favorites.push(entry);
        } else {
            others.push(entry);
        }
    }
    assert(all.skip(0) =~= all);
    (reversed(favorites), reversed(others))
}

/// Turns a list around.
fn reversed(entries: Vec<Entry>) -> (turned: Vec<Entry>)
    ensures
        turned@ == entries@.reverse(),
{
    let ghost all = entries@;
    let mut rest = entries;
    let mut turned: Vec<Entry> = Vec::new();
    while rest.len() > 0
        invariant
            rest@.len() + turned@.len() == all.len(),
            rest@ == all.take(rest@.len() as int),
            turned@ == all.reverse().take(turned@.len() as int),
        decreases rest@.len(),
    {
        let ghost n = rest@.len() - 1;
        let ghost before = turned@;
        let entry = rest.pop().unwrap();
        proof {
            assert(rest@ =~= all.take(n));
            assert(entry == all.reverse()[before.len() as int]);
        }
        turned.push(entry);
        assert(turned@ =~= all.reverse().take(turned@.len() as int));
    }
    assert(all.reverse().take(turned@.len() as int) =~= all.reverse());
    turned
}

/// Leaves out the entries with an ID.
fn retain_others(entries: Vec<Entry>, id: u64) -> (kept: Vec<Entry>)
    ensures
        kept@ == without_id(entries@, id),
{
    let ghost all = entries@;
    let mut rest = entries;
    let mut kept: Vec<Entry> = Vec::new();
    assert(all.take(all.len() as int) =~= all);
    assert(all.skip(all.len() as int) =~= Seq::<Entry>::empty());
    while rest.len() > 0
        invariant
            rest@.len() <= all.len(),
            rest@ == all.take(rest@.len() as int),
            kept@.reverse() == without_id(all.skip(rest@.len() as int), id),
        decreases rest@.len(),
    {
        let ghost n = rest@.len() - 1;
        let ghost before = kept@;
        let entry = rest.pop().unwrap();
        proof {
            let tail = all.skip(n + 1);
            assert(entry == all[n]);
            assert(all.skip(n) =~= seq![entry] + tail);
            assert(rest@ =~= all.take(n));
            lemma_without_id_front(entry, tail, id);
            reveal_with_fuel(without_id, 2);
            assert(seq![entry].drop_last() =~= Seq::<Entry>::empty());
            assert(Seq::<Entry>::empty().push(entry) + before.reverse() =~= before.push(
                entry,
            ).reverse());
            assert(Seq::<Entry>::empty() + before.reverse() =~= before.reverse());
        }
        if entry.id != id {
            kept.push(entry);
        }
    }
    assert(all.skip(0) =~= all);
    reversed(kept)
}

impl<T> AppModel<T> {
    #[must_use]
    pub fn new(config: Config) -> (model: AppModel<T>)
        ensures
            model.config == config,
            model.popup is None,
            model.search@.len() == 0,
            model.chosen_mode == config.filter_mode,
            model.pending_search is None,
            model.favorites@.len() == 0,
            model.entries@.len() == 0,
            model.fatal_error is None,
    {
        AppModel {
            config,
            popup: None,
            search: String::new(),
            chosen_mode: config.filter_mode,
            pending_search: None,
            favorites: Vec::new(),
            entries: Vec::new(),
            fatal_error: None,
        }
    }

    fn close_popup(&mut self) -> (effects: Effects<T>)
        ensures
            is_closed(*old(self), *final(self), effects.close),
            effects.is_plain(),
            effects.cancel is None,
            effects.open is None,
            effects.send is None,
    {
        let close = match &self.popup {
            Some(popup) => Some(popup.id),
            None => None,
        };
        self.popup = None;
        let mut effects = Effects::nothing();
        effects.close = close;
        effects
    }

    fn open_popup(&mut self, kind: PopupKind, id: u64) -> (effects: Effects<T>)
        ensures
            is_opened(*old(self), *final(self), kind, id, effects),
            effects.is_plain(),
            effects.cancel is None,
            effects.close is None,
    {
        self.popup = Some(Popup { id, kind, details: None });
        self.search = String::new();
        let mut effects = Effects::nothing();
        effects.open = Some(id);
        effects.send = Some(Command::LoadFirstPage);
        effects
    }

    fn toggle_popup(&mut self, kind: PopupKind, id: u64) -> (effects: Effects<T>)
        ensures
            is_toggled(*old(self), *final(self), kind, id, effects),
    {
        let shown = match &self.popup {
            Some(popup) => Some(popup.kind),
            None => None,
        };
        match shown {
            Some(PopupKind::Search) => self.close_popup(),
            Some(PopupKind::Settings) => {
                let closed = self.close_popup();
                let mut effects = self.open_popup(kind, id);
                effects.close = closed.close;
                effects
            },
            None => self.open_popup(kind, id),
        }
    }

    /// What to do when a window is asked to close: the popup is closed, other windows
    /// are left alone.
    #[must_use]
    pub fn on_close_requested(&self, id: u64) -> (message: Option<AppMessage<T>>)
        ensures
            message is Some <==> (self.popup is Some && self.popup->0.id == id),
            message matches Some(message) ==> message is ClosePopup,
    {
        match &self.popup {
            Some(popup) => {
                if popup.id == id {
                    Some(AppMessage::ClosePopup)
                } else {
                    None
                }
            },
            None => None,
        }
    }

    fn search_command(&self) -> (command: Command)
        ensures
            is_search(Some(command), *self),
    {
        Command::Search { query: self.search.clone(), kind: SearchKind::from(self.config.filter_mode) }
    }

    fn set_details(&mut self, details: Option<Result<Details, String>>)
        ensures
            has_details(*old(self), *final(self), details),
    {
        let mut popup: Option<Popup> = None;
        core::mem::swap(&mut self.popup, &mut popup);
        if let Some(popup) = popup {
            self.popup = Some(Popup { id: popup.id, kind: popup.kind, details });
        }
    }

    /// The favorite status of the entry that is shown on its own.
    pub open spec fn detailed_favorite(self) -> Option<bool> {
        match self.popup {
            Some(Popup { details: Some(Ok(details)), .. }) => Some(details.favorite),
            _ => None,
        }
    }

    fn shown_favorite(&self) -> (favorite: Option<bool>)
        ensures
            favorite == self.detailed_favorite(),
    {
        match &self.popup {
            Some(popup) => match &popup.details {
                Some(Ok(details)) => Some(details.favorite),
                _ => None,
            },
            None => None,
        }
    }
}

/// Whether a model and what is asked for are what a message makes of another model.
/// `id` is that of the next popup to open.
pub open spec fn is_updated<T>(
    before: AppModel<T>,
    message: AppMessage<T>,
    id: u64,
    after: AppModel<T>,
    effects: Effects<T>,
) -> bool {
    match message {
        AppMessage::TogglePopup => is_toggled(before, after, PopupKind::Search, id, effects),
        AppMessage::ToggleSettings => is_toggled(before, after, PopupKind::Settings, id, effects),
        AppMessage::ClosePopup => {
            &&& is_closed(before, after, effects.close)
            &&& effects.is_plain() && effects.cancel is None && effects.open is None
            &&& effects.send is None
        },
        AppMessage::Search(query) => {
            &&& after.search == query
            &&& after.pending_search is None
            &&& after.config == before.config
            &&& after.chosen_mode == before.chosen_mode
            &&& after.popup == before.popup
            &&& after.favorites == before.favorites
            &&& after.entries == before.entries
            &&& after.fatal_error == before.fatal_error
            &&& effects.cancel == before.pending_search
            &&& is_search(effects.send, after)
            &&& effects.is_plain() && effects.close is None && effects.open is None
        },
        AppMessage::SearchPending(token) => {
            &&& after == (AppModel { pending_search: Some(token), ..before })
            &&& effects.cancel == before.pending_search
            &&& effects.is_plain() && effects.close is None && effects.open is None
            &&& effects.send is None
        },
        AppMessage::Items(items) => {
            &&& after.favorites@ == with_favorite(items@, true)
            &&& after.entries@ == with_favorite(items@, false)
            &&& after == (AppModel {
                favorites: after.favorites,
                entries: after.entries,
                ..before
            })
            &&& effects.is_nothing()
        },
        AppMessage::Paste(id) => {
            &&& is_closed(before, after, effects.close)
            &&& effects.send == Some(Command::Paste(id))
            &&& effects.is_plain() && effects.cancel is None && effects.open is None
        },
        AppMessage::ChangeFavorite(id, is_favorite) => {
            &&& after == before
            &&& effects.send == Some(
                if is_favorite {
                    Command::Unfavorite(id)
                } else {
                    Command::Favorite(id)
                },
            )
            &&& effects.close_details
            &&& effects.cancel is None && effects.close is None && effects.open is None
            &&& effects.save is None
        },
        AppMessage::ViewDetails(id, favorite) => {
            &&& has_details(
                before,
                after,
                Some(Ok(Details { id, favorite, entry: DetailData::Loading })),
            )
            &&& effects.only_sends(Command::GetDetails { id, with_text: true })
        },
        AppMessage::DetailsLoaded(result) => {
            &&& effects.is_nothing()
            &&& match before.detailed_favorite() {
                None => after == before,
                Some(favorite) => has_details(
                    before,
                    after,
                    Some(
                        match result {
                            Ok(details) => Ok(Details { favorite, ..details }),
                            Err(error) => Err(error),
                        },
                    ),
                ),
            }
        },
        AppMessage::CloseDetails => has_details(before, after, None) && effects.is_nothing(),
        AppMessage::Delete(id) => {
            &&& has_details(before, after, None)
            &&& effects.only_sends(Command::Delete(id))
        },
        AppMessage::Deleted(id) => {
            &&& after.favorites@ == without_id(before.favorites@, id)
            &&& after.entries@ == without_id(before.entries@, id)
            &&& after == (AppModel {
                favorites: after.favorites,
                entries: after.entries,
                ..before
            })
            &&& effects.is_nothing()
        },
        AppMessage::Reload => {
            &&& after == before
            &&& if before.search@.len() == 0 {
                effects.only_sends(Command::LoadFirstPage)
            } else {
                &&& is_search(effects.send, before)
                &&& effects.is_plain() && effects.cancel is None && effects.close is None
                &&& effects.open is None
            }
        },
        AppMessage::SelectFilterMode(None) => after == before && effects.is_nothing(),
        AppMessage::SelectFilterMode(Some(mode)) => {
            &&& after == (AppModel {
                config: Config { filter_mode: mode, ..before.config },
                chosen_mode: mode,
                ..before
            })
            &&& effects.save == Some(mode)
            &&& effects.cancel is None && effects.close is None && effects.open is None
            &&& effects.send is None && !effects.close_details
        },
        AppMessage::ConfigUpdate(config) => {
            &&& after == (AppModel { config, ..before })
            &&& effects.is_nothing()
        },
        AppMessage::KeyPressed(true) => {
            &&& is_closed(before, after, effects.close)
            &&& effects.is_plain() && effects.cancel is None && effects.open is None
            &&& effects.send is None
        },
        AppMessage::KeyPressed(false) => after == before && effects.is_nothing(),
        AppMessage::FatalError(error) => {
            &&& after == (AppModel { fatal_error: Some(error), ..before })
            &&& effects.is_nothing()
        },
    }
}

impl<T> AppModel<T> {
    /// Handles a message. `id` is that of the next popup to open.
    pub fn update(&mut self, message: AppMessage<T>, id: u64) -> (effects: Effects<T>)
        ensures
            is_updated(*old(self), message, id, *final(self), effects),
    {
        let mut effects: Effects<T> = Effects::nothing();
        match message {
            AppMessage::TogglePopup => {
                return self.toggle_popup(PopupKind::Search, id);
            },
            AppMessage::ToggleSettings => {
                return self.toggle_popup(PopupKind::Settings, id);
            },
            AppMessage::ClosePopup => {
                return self.close_popup();
            },
            AppMessage::Search(query) => {
                self.search = query;
                core::mem::swap(&mut self.pending_search, &mut effects.cancel);
                effects.send = Some(self.search_command());
            },
            AppMessage::SearchPending(token) => {
                effects.cancel = Some(token);
                core::mem::swap(&mut self.pending_search, &mut effects.cancel);
            },
            AppMessage::Items(items) => {
                let (favorites, entries) = partition(items);
                self.favorites = favorites;
                self.entries = entries;
            },
            AppMessage::Paste(id) => {
                effects = self.close_popup();
                effects.send = Some(Command::Paste(id));
            },
            AppMessage::ChangeFavorite(id, is_favorite) => {
                effects.send = Some(
                    if is_favorite {
                        Command::Unfavorite(id)
                    } else {
                        Command::Favorite(id)
                    },
                );
                effects.close_details = true;
            },
            AppMessage::ViewDetails(id, favorite) => {
                effects.send = Some(Command::GetDetails { id, with_text: true });
                self.set_details(Some(Ok(Details { id, favorite, entry: DetailData::Loading })));
            },
            AppMessage::DetailsLoaded(result) => {
                if let Some(favorite) = self.shown_favorite() {
                    let result = match result {
                        Ok(details) => Ok(
                            Details { id: details.id, favorite, entry: details.entry },
                        ),
                        Err(error) => Err(error),
                    };
                    self.set_details(Some(result));
                }
            },
            AppMessage::CloseDetails => {
                self.set_details(None);
            },
            AppMessage::Delete(id) => {
                effects.send = Some(Command::Delete(id));
                self.set_details(None);
            },
            AppMessage::Deleted(id) => {
                let mut favorites: Vec<Entry> = Vec::new();
                core::mem::swap(&mut self.favorites, &mut favorites);
                self.favorites = retain_others(favorites, id);
                let mut entries: Vec<Entry> = Vec::new();
                core::mem::swap(&mut self.entries, &mut entries);
                self.entries = retain_others(entries, id);
            },
            AppMessage::Reload => {
                effects.send = Some(
                    if self.search.as_str().is_empty() {
                        Command::LoadFirstPage
                    } else {
                        self.search_command()
                    },
                );
            },
            AppMessage::SelectFilterMode(mode) => {
                if let Some(mode) = mode {
                    self.config.filter_mode = mode;
                    self.chosen_mode = mode;
                    effects.save = Some(mode);
                }
            },
            AppMessage::ConfigUpdate(config) => {
                self.config = config;
            },
            AppMessage::KeyPressed(leave) => {
                if leave {
                    return self.close_popup();
                }
            },
            AppMessage::FatalError(error) => {
                self.fatal_error = Some(error);
            },
        }
        effects
    }
}

/// Toggling the history twice leaves no popup if there was none, and the search and
/// the lists are what they were but for the search being empty.
pub proof fn lemma_toggle_twice<T>(
    before: AppModel<T>,
    first: AppModel<T>,
    second: AppModel<T>,
    id1: u64,
    id2: u64,
    effects1: Effects<T>,
    effects2: Effects<T>,
)
    requires
        before.popup is None,
        is_updated(before, AppMessage::TogglePopup, id1, first, effects1),
        is_updated(first, AppMessage::TogglePopup, id2, second, effects2),
    ensures
        second.popup is None,
        same_lists(before, second),
        second.search@.len() == 0,
        effects1.open == Some(id1),
        effects2.close == Some(id1),
{
}

/// An entry that was deleted is in neither list, and all others stay.
pub proof fn lemma_deleted_is_gone(entries: Seq<Entry>, id: u64)
    ensures
        forall|i: int|
            0 <= i < without_id(entries, id).len() ==> (#[trigger] without_id(entries, id)[i]).id
                != id,
        forall|entry: Entry|
            #[trigger] without_id(entries, id).contains(entry) <==> entries.contains(entry)
                && entry.id != id,
    decreases entries.len(),
{
    if entries.len() > 0 {
        let front = entries.drop_last();
        let last = entries.last();
        let kept = without_id(entries, id);
        let kept_front = without_id(front, id);
        lemma_deleted_is_gone(front, id);
        assert forall|i: int| 0 <= i < kept.len() implies (#[trigger] kept[i]).id != id by {
            if i < kept_front.len() {
                assert(kept_front[i] == kept[i]);
            }
        }
        assert forall|entry: Entry| #[trigger]
            kept.contains(entry) <==> entries.contains(entry) && entry.id != id by {
            if kept.contains(entry) {
                let i = choose|i: int| 0 <= i < kept.len() && kept[i] == entry;
                if i < kept_front.len() {
                    assert(kept_front[i] == entry);
                    assert(kept_front.contains(entry));
                    let j = choose|j: int| 0 <= j < front.len() && front[j] == entry;
                    assert(entries[j] == entry);
                } else {
                    assert(entries[entries.len() - 1] == entry);
                }
            }
            if entries.contains(entry) && entry.id != id {
                let j = choose|j: int| 0 <= j < entries.len() && entries[j] == entry;
                if j < front.len() {
                    assert(front[j] == entry);
                    assert(kept_front.contains(entry));
                    let i = choose|i: int| 0 <= i < kept_front.len() && kept_front[i] == entry;
                    assert(kept[i] == entry);
                } else {
                    assert(kept[kept.len() - 1] == entry);
                }
            }
        }
    } else {
        assert(without_id(entries, id) =~= Seq::<Entry>::empty());
    }
}

/// Every item is in one of the two lists, with none lost and none added.
pub proof fn lemma_items_are_split(items: Seq<Entry>)
    ensures
        with_favorite(items, true).to_multiset().add(with_favorite(items, false).to_multiset())
            == items.to_multiset(),
    decreases items.len(),
{
    broadcast use vstd::seq_lib::group_to_multiset_ensures;

    if items.len() > 0 {
        let front = items.drop_last();
        lemma_items_are_split(front);
        assert(items =~= front.push(items.last()));
    }
    assert(with_favorite(items, true).to_multiset().add(with_favorite(items, false).to_multiset())
        =~= items.to_multiset());
}

/// What the popup shows.
#[derive(Copy, Clone, Eq, PartialEq, Debug, Structural)]
pub enum PopupView {
    /// There is no popup.
    Nothing,
    Details,
    /// The history; with a space between favorites and the others if there are both.
    History { favorites: bool, others: bool, space: bool },
    Settings,
}

impl<T> AppModel<T> {
    /// The ways to search that the settings show, with the one chosen last active.
    #[must_use]
    pub fn shown_filter_modes(&self) -> (model: SingleSelectModel<FilterMode>)
        ensures
            model.options@ == seq![FilterMode::Plain, FilterMode::Regex, FilterMode::Mime],
            model.active < 3,
            model.options@[model.active as int] == self.chosen_mode,
    {
        filter_modes(self.chosen_mode)
    }

    /// What the popup shows.
    #[must_use]
    pub fn view_window(&self) -> (view: PopupView)
        ensures
            view == match self.popup {
                None => PopupView::Nothing,
                Some(Popup { kind: PopupKind::Settings, .. }) => PopupView::Settings,
                Some(Popup { details: Some(_), .. }) => PopupView::Details,
                Some(_) => {
                    let favorites = self.favorites@.len() > 0;
                    let others = self.entries@.len() > 0;
                    PopupView::History { favorites, others, space: favorites && others }
                },
            },
    {
        match &self.popup {
            None => PopupView::Nothing,
            Some(popup) => match popup.kind {
                PopupKind::Settings => PopupView::Settings,
                PopupKind::Search => match &popup.details {
                    Some(_) => PopupView::Details,
                    None => {
                        let favorites = self.favorites.len() > 0;
                        let others = self.entries.len() > 0;
                        PopupView::History { favorites, others, space: favorites && others }
                    },
                },
            },
        }
    }
}

/// What the applet makes of a message of the controller.
#[derive(Debug)]
pub enum Incoming<T> {
    /// Nothing: the popup is closed as soon as an entry is pasted.
    Nothing,
    /// A message to handle, after these images are asked for.
    Message(AppMessage<T>, Vec<u64>),
    /// The image of an entry.
    Image(u64, DecodedImage),
    /// An error to show.
    Error(String),
}

/// A label, a colon and a text.
pub open spec fn labeled(label: Seq<char>, text: Seq<char>) -> Seq<char> {
    label + ": "@ + text
}

fn with_label(label: &str, text: &str) -> (labeled_text: String)
    ensures
        labeled_text@ == labeled(label@, text@),
{
    let mut out = label.to_owned();
    out.append(": ");
    out.append(text);
    out
}

/// Whether the items of a message and the images asked for stand for loaded entries.
pub open spec fn is_items<T>(incoming: Incoming<T>, loaded: Seq<UiEntry>) -> bool {
    incoming matches Incoming::Message(AppMessage::Items(items), images) && are_entries_of(
        items@,
        loaded,
    ) && images@ == image_ids(loaded)
}

/// What the applet makes of a message of the controller. The labels stand before
/// errors, and before the error that the database cannot be opened. An entry that
/// becomes a favorite, or stops being one, gets a new ID: everything is loaded anew.
pub fn client_message<T>(
    message: Message,
    error_label: &str,
    database_label: &str,
) -> (incoming: Incoming<T>)
    ensures
        match message {
            Message::Error(error) => incoming matches Incoming::Error(text) && text@ == labeled(
                error_label@,
                error@,
            ),
            Message::FatalDbOpen(error) => incoming matches Incoming::Message(
                AppMessage::FatalError(text),
                images,
            ) && text@ == labeled(database_label@, error@) && images@.len() == 0,
            Message::EntryDetails { id, result } => incoming matches Incoming::Message(
                AppMessage::DetailsLoaded(loaded),
                images,
            ) && images@.len() == 0 && match result {
                Err(error) => loaded is Err && loaded->Err_0@ == labeled(error_label@, error@),
                Ok(entry) => {
                    &&& loaded is Ok
                    &&& loaded->Ok_0.id == id
                    &&& !loaded->Ok_0.favorite
                    &&& match entry.full_text {
                        Some(text) => loaded->Ok_0.entry matches DetailData::Text(shown, mime)
                            && shown@ == text@ && mime@ == "plain/text"@,
                        None => loaded->Ok_0.entry matches DetailData::Other(mime) && mime@
                            == entry.mime_type@,
                    }
                },
            },
            Message::FavoriteChange(_) => incoming matches Incoming::Message(
                AppMessage::Reload,
                images,
            ) && images@.len() == 0,
            Message::SearchResults(results) => is_items(incoming, results@),
            Message::LoadedFirstPage { entries, .. } => is_items(incoming, entries@),
            Message::Deleted(id) => incoming matches Incoming::Message(
                AppMessage::Deleted(deleted),
                images,
            ) && deleted == id && images@.len() == 0,
            Message::LoadedImage { id, image } => incoming == Incoming::<T>::Image(id, image),
            Message::Pasted => incoming is Nothing,
        },
{
    match message {
        Message::Error(error) => Incoming::Error(with_label(error_label, error.as_str())),
        Message::FatalDbOpen(error) => Incoming::Message(
            AppMessage::FatalError(with_label(database_label, error.as_str())),
            Vec::new(),
        ),
        Message::EntryDetails { id, result } => {
            let result = match result {
                Err(error) => Err(with_label(error_label, error.as_str())),
                Ok(entry) => {
                    let data = match entry.full_text {
                        Some(text) => DetailData::Text(text, "plain/text".to_owned()),
                        None => DetailData::Other(entry.mime_type),
                    };
                    Ok(Details { id, favorite: false, entry: data })
                },
            };
            Incoming::Message(AppMessage::DetailsLoaded(result), Vec::new())
        },
        Message::FavoriteChange(_) => Incoming::Message(AppMessage::Reload, Vec::new()),
        Message::SearchResults(results) => {
            let (items, images) = convert_entries(results);
            Incoming::Message(AppMessage::Items(items), images)
        },
        Message::LoadedFirstPage { entries, .. } => {
            let (items, images) = convert_entries(entries);
            Incoming::Message(AppMessage::Items(items), images)
        },
        Message::Deleted(id) => Incoming::Message(AppMessage::Deleted(id), Vec::new()),
        Message::LoadedImage { id, image } => Incoming::Image(id, image),
        Message::Pasted => Incoming::Nothing,
    }
}

/// How a call of the running applet turned out.
#[derive(Copy, Clone, Eq, PartialEq, Debug, Structural)]
pub enum ToggleCall {
    /// It answered; it says whether it did what it was asked to.
    Answered(bool),
    /// There is none.
    NotRunning,
    Failed,
}

/// How a call turned out that was answered with an error of the given name, or that
/// failed without one. The bus has a name for the error that nobody can answer.
#[must_use]
pub fn failed_toggle(error_name: Option<&str>) -> (call: ToggleCall)
    ensures
        call == if error_name matches Some(name) && name@
            == "org.freedesktop.DBus.Error.ServiceUnknown"@ {
            ToggleCall::NotRunning
        } else {
            ToggleCall::Failed
        },
{
    match error_name {
        Some(name) => if str_equal(name, "org.freedesktop.DBus.Error.ServiceUnknown") {
            ToggleCall::NotRunning
        } else {
            ToggleCall::Failed
        },
        None => ToggleCall::Failed,
    }
}

/// Whether another instance was running and has toggled its popup; an error is
/// `None`. One that answers does what it is asked to.
#[must_use]
pub fn toggled_other(call: ToggleCall) -> (toggled: Option<bool>)
    requires
        call != ToggleCall::Answered(false),
    ensures
        toggled == match call {
            ToggleCall::Answered(_) => Some(true),
            ToggleCall::NotRunning => Some(false),
            ToggleCall::Failed => None,
        },
{
    match call {
        ToggleCall::Answered(_) => Some(true),
        ToggleCall::NotRunning => Some(false),
        ToggleCall::Failed => None,
    }
}

/// Entries are told apart by whether they are favorites, and keep their order.
pub proof fn lemma_with_favorite(entries: Seq<Entry>, favorite: bool)
    ensures
        with_favorite(entries, favorite) == entries.filter(|e: Entry| e.favorite == favorite),
    decreases entries.len(),
{
    reveal(Seq::filter);
    if entries.len() > 0 {
        lemma_with_favorite(entries.drop_last(), favorite);
    } else {
        assert(entries =~= Seq::<Entry>::empty());
    }
}

/// Only the entries with an ID are left out, and the others keep their order.
pub proof fn lemma_without_id(entries: Seq<Entry>, id: u64)
    ensures
        without_id(entries, id) == entries.filter(|e: Entry| e.id != id),
    decreases entries.len(),
{
    reveal(Seq::filter);
    if entries.len() > 0 {
        lemma_without_id(entries.drop_last(), id);
    } else {
        assert(entries =~= Seq::<Entry>::empty());
    }
}

/// The images that are loaded are those of the entries that are images.
pub proof fn lemma_image_ids(loaded: Seq<UiEntry>, id: u64)
    ensures
        image_ids(loaded).contains(id) <==> exists|i: int|
            0 <= i < loaded.len() && (#[trigger] loaded[i]).cache is Image
                && loaded[i].entry.spec_id() == id,
    decreases loaded.len(),
{
    let all = image_ids(loaded);
    if loaded.len() > 0 {
        let front = loaded.drop_last();
        let rest = image_ids(front);
        lemma_image_ids(front, id);
        assert forall|i: int| 0 <= i < front.len() implies #[trigger] front[i] == loaded[i] by {
        }
        assert(loaded[loaded.len() - 1] == loaded.last());
        if exists|i: int|
            0 <= i < loaded.len() && (#[trigger] loaded[i]).cache is Image
                && loaded[i].entry.spec_id() == id {
            let i = choose|i: int|
                0 <= i < loaded.len() && (#[trigger] loaded[i]).cache is Image
                    && loaded[i].entry.spec_id() == id;
            if i < front.len() {
                assert(front[i].cache is Image);
            }
        }
        if exists|i: int|
            0 <= i < front.len() && (#[trigger] front[i]).cache is Image
                && front[i].entry.spec_id() == id {
            let i = choose|i: int|
                0 <= i < front.len() && (#[trigger] front[i]).cache is Image
                    && front[i].entry.spec_id() == id;
            assert(loaded[i].cache is Image);
        }
        if rest.contains(id) {
            let j = choose|j: int| 0 <= j < rest.len() && rest[j] == id;
            assert(all[j] == id);
        }
        if all.len() > rest.len() {
            assert(all[all.len() - 1] == loaded.last().entry.spec_id());
        }
    }
}

/// Every loaded entry is listed, in order and under its ID, with the line that was made of
/// it.
pub proof fn lemma_entries_are_converted(
    loaded: Vec<UiEntry>,
    converted: (Vec<Entry>, Vec<u64>),
    i: int,
)
    requires
        call_ensures(convert_entries, (loaded,), converted),
        0 <= i < loaded@.len(),
    ensures
        converted.0@.len() == loaded@.len(),
        converted.0@[i].id == loaded@[i].entry.spec_id(),
        converted.0@[i].favorite <==> loaded@[i].entry.spec_ring() == RingKind::Favorites,
        loaded@[i].cache matches UiEntryCache::Text { one_liner } ==> (
        converted.0@[i].data matches EntryData::Text { text, .. } && text@ == one_liner@),
        loaded@[i].cache matches UiEntryCache::HighlightedText { one_liner, start, end } ==> (
        converted.0@[i].data matches EntryData::HighlightedText { text, start: from, end: to, .. }
            && text@ == one_liner@ && from == start && to == end),
        loaded@[i].cache is Image <==> converted.0@[i].data is Image,
        loaded@[i].cache matches UiEntryCache::Binary { mime_type } ==> (
        converted.0@[i].data matches EntryData::Mime(mime) && mime@ == mime_type@),
{
    assert(is_entry_of(converted.0@[i], loaded@[i]));
}

/// What changes an entry in the database is only asked for by the message that is about it,
/// and for the entry that the message names.
pub proof fn lemma_commands_are_asked_for<T>(
    model: &mut AppModel<T>,
    message: AppMessage<T>,
    id: u64,
    effects: Effects<T>,
    command: Command,
)
    requires
        call_ensures(AppModel::<T>::update, (model, message, id), effects),
        effects.send == Some(command),
    ensures
        command matches Command::Delete(entry) ==> message == AppMessage::<T>::Delete(entry),
        command matches Command::Paste(entry) ==> message == AppMessage::<T>::Paste(entry),
        command matches Command::Favorite(entry) ==> message == AppMessage::<T>::ChangeFavorite(
            entry,
            false,
        ),
        command matches Command::Unfavorite(entry) ==> message == AppMessage::<T>::ChangeFavorite(
            entry,
            true,
        ),
        command matches Command::GetDetails { id: entry, with_text } ==> with_text && (
        message matches AppMessage::ViewDetails(shown, _) && shown == entry),
        command matches Command::Search { query, kind } ==> query@ == final(model).search@ && (
        message is Search || message is Reload),
        !(command is LoadImage),
{
}

/// Each message that is about an entry asks for what it is about.
pub proof fn lemma_messages_are_carried_out<T>(
    model: &mut AppModel<T>,
    message: AppMessage<T>,
    id: u64,
    effects: Effects<T>,
)
    requires
        call_ensures(AppModel::<T>::update, (model, message, id), effects),
    ensures
        message matches AppMessage::Delete(entry) ==> effects.send == Some(Command::Delete(entry)),
        message matches AppMessage::Paste(entry) ==> effects.send == Some(Command::Paste(entry))
            && final(model).popup is None,
        message matches AppMessage::ChangeFavorite(entry, favorite) ==> effects.send == Some(
            if favorite {
                Command::Unfavorite(entry)
            } else {
                Command::Favorite(entry)
            },
        ) && effects.close_details,
        message matches AppMessage::ViewDetails(entry, _) ==> effects.send == Some(
            Command::GetDetails { id: entry, with_text: true },
        ),
        message matches AppMessage::Search(query) ==> {
            &&& final(model).search@ == query@
            &&& effects.cancel == old(model).pending_search
            &&& final(model).pending_search is None
            &&& effects.send matches Some(Command::Search { query: sent, kind }) && sent@ == query@
                && match old(model).config.filter_mode {
                FilterMode::Plain => kind == SearchKind::Plain,
                FilterMode::Regex => kind == SearchKind::Regex,
                FilterMode::Mime => kind == SearchKind::Mime,
            }
        },
        message matches AppMessage::SearchPending(token) ==> final(model).pending_search == Some(
            token,
        ) && effects.cancel == old(model).pending_search,
        message matches AppMessage::SelectFilterMode(Some(mode)) ==> final(model).config.filter_mode == mode && effects.save == Some(mode),
        message matches AppMessage::FatalError(error) ==> final(model).fatal_error == Some(error),
        message matches AppMessage::ConfigUpdate(config) ==> final(model).config == config,
{
}

/// The lists hold what was loaded last without what was deleted since, the favorites apart,
/// and no other message changes them.
pub proof fn lemma_lists_hold_what_was_loaded<T>(
    model: &mut AppModel<T>,
    message: AppMessage<T>,
    id: u64,
    effects: Effects<T>,
)
    requires
        call_ensures(AppModel::<T>::update, (model, message, id), effects),
    ensures
        message matches AppMessage::Items(items) ==> final(model).favorites@ == items@.filter(
            |e: Entry| e.favorite == true,
        ) && final(model).entries@ == items@.filter(|e: Entry| e.favorite == false),
        message matches AppMessage::Deleted(gone) ==> final(model).favorites@ == old(
            model,
        ).favorites@.filter(|e: Entry| e.id != gone) && final(model).entries@ == old(
            model,
        ).entries@.filter(|e: Entry| e.id != gone),
        !(message is Items || message is Deleted) ==> final(model).favorites == old(
            model,
        ).favorites && final(model).entries == old(model).entries,
{
    match message {
        AppMessage::Items(items) => {
            lemma_with_favorite(items@, true);
            lemma_with_favorite(items@, false);
        },
        AppMessage::Deleted(gone) => {
            lemma_without_id(old(model).favorites@, gone);
            lemma_without_id(old(model).entries@, gone);
        },
        _ => {},
    }
}

/// Details that arrive are shown if details are being looked at, and keep what is known of
/// whether the entry is a favorite.
pub proof fn lemma_details_are_shown<T>(
    model: &mut AppModel<T>,
    details: Details,
    id: u64,
    effects: Effects<T>,
)
    requires
        call_ensures(
            AppModel::<T>::update,
            (model, AppMessage::DetailsLoaded(Ok(details)), id),
            effects,
        ),
    ensures
        old(model).popup matches Some(Popup { details: Some(Ok(shown)), .. }) ==> {
            &&& final(model).popup is Some
            &&& final(model).popup->0.details matches Some(Ok(now)) && now.id == details.id
                && now.entry == details.entry && now.favorite == shown.favorite
        },
        !(old(model).popup matches Some(Popup { details: Some(Ok(_)), .. })) ==> final(model).popup
            == old(model).popup,
        effects.send is None,
{
}

/// The parts around and in a highlight make up the text.
pub proof fn lemma_highlight_is_split(
    text: &str,
    start: usize,
    end: usize,
    parts: (&str, &str, &str),
)
    requires
        start <= end <= encode_utf8(text@).len(),
        call_ensures(split_highlight, (text, start, end), parts),
    ensures
        parts.0@ + parts.1@ + parts.2@ == text@,
        encode_utf8(parts.0@).len() == start,
        encode_utf8(parts.0@ + parts.1@).len() == end,
{
    let bytes = encode_utf8(text@);
    crate::text::lemma_encode_concat(parts.0@, parts.1@);
    crate::text::lemma_encode_concat(parts.0@ + parts.1@, parts.2@);
    assert(encode_utf8(parts.0@ + parts.1@ + parts.2@) =~= bytes);
    encode_utf8_decode_utf8(text@);
    encode_utf8_decode_utf8(parts.0@ + parts.1@ + parts.2@);
}

/// The window sticks to the edge on the side that it is set to, and along an axis in whose
/// middle it is to none.
pub proof fn lemma_anchor_is_on_side(config: Config, anchor: Anchor)
    requires
        call_ensures(Config::anchor, (&config,), anchor),
    ensures
        anchor.left <==> config.horizontal_position == Position::Start,
        anchor.right <==> config.horizontal_position == Position::End,
        anchor.top <==> config.vertical_position == Position::Start,
        anchor.bottom <==> config.vertical_position == Position::End,
{
}

/// What comes from the controller is passed on with its text unchanged: errors after their
/// label, entries all of them, details with the text of the entry.
pub proof fn lemma_messages_are_passed_on<T>(
    message: Message,
    error_label: &str,
    database_label: &str,
    incoming: Incoming<T>,
)
    requires
        call_ensures(client_message::<T>, (message, error_label, database_label), incoming),
    ensures
        message matches Message::Error(error) ==> (incoming matches Incoming::Error(text)
            && text@.len() >= error@.len() && text@.skip(text@.len() - error@.len()) == error@
            && text@.take(error_label@.len() as int) == error_label@),
        message matches Message::FatalDbOpen(error) ==> (incoming matches Incoming::Message(
            AppMessage::FatalError(text),
            _,
        ) && text@.len() >= error@.len() && text@.skip(text@.len() - error@.len()) == error@),
        message matches Message::EntryDetails { id, result } ==> (result matches Ok(entry) ==> (
        entry.full_text matches Some(text) ==> (incoming matches Incoming::Message(
            AppMessage::DetailsLoaded(Ok(details)),
            _,
        ) && details.id == id && (details.entry matches DetailData::Text(shown, _) && shown@
            == text@)))),
        message matches Message::SearchResults(results) ==> (incoming matches Incoming::Message(
            AppMessage::Items(items),
            _,
        ) && items@.len() == results@.len() && forall|i: int|
            0 <= i < items@.len() ==> (#[trigger] items@[i]).id
                == results@[i].entry.spec_id()),
        message matches Message::LoadedFirstPage { entries, .. } ==> (
        incoming matches Incoming::Message(AppMessage::Items(items), _) && items@.len()
            == entries@.len() && forall|i: int|
            0 <= i < items@.len() ==> (#[trigger] items@[i]).id
                == entries@[i].entry.spec_id()),
        message matches Message::Deleted(id) ==> (incoming matches Incoming::Message(
            AppMessage::Deleted(gone),
            _,
        ) && gone == id),
        message is FavoriteChange ==> (incoming matches Incoming::Message(AppMessage::Reload, _)),
{
    match message {
        Message::Error(error) => {
            let text = labeled(error_label@, error@);
            assert(text.skip(text.len() - error@.len()) =~= error@);
            assert(text.take(error_label@.len() as int) =~= error_label@);
        },
        Message::FatalDbOpen(error) => {
            let text = labeled(database_label@, error@);
            assert(text.skip(text.len() - error@.len()) =~= error@);
        },
        Message::SearchResults(results) => {
            if let Incoming::Message(AppMessage::Items(items), _) = incoming {
                assert forall|i: int| 0 <= i < items@.len() implies (#[trigger] items@[i]).id
                    == results@[i].entry.spec_id() by {
                    assert(is_entry_of(items@[i], results@[i]));
                }
            }
        },
        Message::LoadedFirstPage { entries, .. } => {
            if let Incoming::Message(AppMessage::Items(items), _) = incoming {
                assert forall|i: int| 0 <= i < items@.len() implies (#[trigger] items@[i]).id
                    == entries@[i].entry.spec_id() by {
                    assert(is_entry_of(items@[i], entries@[i]));
                }
            }
        },
        _ => {},
    }
}

/// An applet that nobody runs is told apart from one that cannot be talked to, and only one
/// that answers was toggled.
pub proof fn lemma_running_applet_is_toggled(
    error_name: Option<&str>,
    call: ToggleCall,
    toggled: Option<bool>,
)
    requires
        call_ensures(failed_toggle, (error_name,), call),
        call_ensures(toggled_other, (call,), toggled),
    ensures
        toggled != Some(true),
        toggled == Some(false) <==> error_name is Some && error_name->0@
            == "org.freedesktop.DBus.Error.ServiceUnknown"@,
{
}

/// Only the popup that is open can be closed.
pub proof fn lemma_open_popup_is_closed<T>(
    model: AppModel<T>,
    id: u64,
    message: Option<AppMessage<T>>,
)
    requires
        call_ensures(AppModel::<T>::on_close_requested, (&model, id), message),
    ensures
        model.popup is None ==> message is None,
        model.popup matches Some(popup) ==> (popup.id == id <==> message is Some),
        message matches Some(message) ==> message is ClosePopup,
{
}

/// The popup shows the settings if it was opened for them, and otherwise details if there are
/// any, with the history behind them.
pub proof fn lemma_popup_shows<T>(model: AppModel<T>, view: PopupView)
    requires
        call_ensures(AppModel::<T>::view_window, (&model,), view),
    ensures
        view is Nothing <==> model.popup is None,
        view is Settings <==> (model.popup matches Some(popup) && popup.kind
            == PopupKind::Settings),
        view is Details <==> (model.popup matches Some(popup) && popup.kind != PopupKind::Settings
            && popup.details is Some),
        view matches PopupView::History { favorites, others, space } ==> (favorites
            <==> model.favorites@.len() > 0) && (others <==> model.entries@.len() > 0) && (space
            <==> favorites && others),
{
}

/// A popup is closed under the ID that it was opened with, and at most one is open. One with the
/// history is closed when either is toggled, and one with the settings is replaced by what was
/// asked for, which starts with an empty search and the first page.
pub proof fn lemma_one_popup_is_open<T>(
    model: &mut AppModel<T>,
    message: AppMessage<T>,
    id: u64,
    effects: Effects<T>,
)
    requires
        call_ensures(AppModel::<T>::update, (model, message, id), effects),
    ensures
        effects.close matches Some(closed) ==> old(model).popup is Some && old(model).popup->0.id
            == closed,
        effects.open matches Some(opened) ==> opened == id && final(model).popup is Some
            && final(model).popup->0.id == id && (message is TogglePopup || message
            is ToggleSettings),
        effects.open is Some && old(model).popup is Some ==> effects.close is Some,
        effects.open is Some ==> final(model).search@.len() == 0 && effects.send == Some(
            Command::LoadFirstPage,
        ) && final(model).popup->0.details is None && (final(model).popup->0.kind
            == PopupKind::Settings <==> message is ToggleSettings),
        (message is TogglePopup || message is ToggleSettings) && (old(model).popup is None
            || old(model).popup->0.kind == PopupKind::Settings) ==> effects.open is Some,
        (message is TogglePopup || message is ToggleSettings) && old(model).popup is Some
            && old(model).popup->0.kind == PopupKind::Search ==> final(model).popup is None
            && effects.close is Some,
        message is ClosePopup || message is Paste || message == AppMessage::<T>::KeyPressed(true)
            ==> final(model).popup is None && (effects.close is Some <==> old(model).popup is Some),
        message == AppMessage::<T>::KeyPressed(false) ==> *final(model) == *old(model)
            && effects.close is None,
{
}

/// A reload asks for what is shown: for the search as it was typed, or for the first page if
/// nothing is searched for.
pub proof fn lemma_reload_asks_again<T>(model: &mut AppModel<T>, id: u64, effects: Effects<T>)
    requires
        call_ensures(AppModel::<T>::update, (model, AppMessage::Reload, id), effects),
    ensures
        *final(model) == *old(model),
        old(model).search@.len() == 0 <==> effects.send == Some(Command::LoadFirstPage),
        old(model).search@.len() > 0 ==> (effects.send matches Some(Command::Search { query, kind })
            && query@ == old(model).search@ && match old(model).config.filter_mode {
            FilterMode::Plain => kind == SearchKind::Plain,
            FilterMode::Regex => kind == SearchKind::Regex,
            FilterMode::Mime => kind == SearchKind::Mime,
        }),
{
}

/// The details that are looked at are those of the entry that was chosen, and they are closed
/// when it is deleted.
pub proof fn lemma_details_are_looked_at<T>(
    model: &mut AppModel<T>,
    message: AppMessage<T>,
    id: u64,
    effects: Effects<T>,
)
    requires
        call_ensures(AppModel::<T>::update, (model, message, id), effects),
        old(model).popup is Some,
    ensures
        message matches AppMessage::ViewDetails(entry, favorite) ==> final(model).popup is Some && (
        final(model).popup->0.details matches Some(Ok(shown)) && shown.id == entry && shown.favorite
            == favorite),
        message is CloseDetails || message is Delete ==> final(model).popup is Some
            && final(model).popup->0.details is None,
        !(message is Search || message is TogglePopup || message is ToggleSettings)
            ==> final(model).search == old(model).search,
        !(message is FatalError) ==> final(model).fatal_error == old(model).fatal_error,
        !(message is ConfigUpdate || message is SelectFilterMode) ==> final(model).config
            == old(model).config,
{
}

} // verus!
