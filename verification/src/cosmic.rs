//! The model of the COSMIC client, and how messages change it.

use vstd::prelude::*;
use vstd::utf8::*;

use crate::applet::{Anchor, Position, SingleSelectModel};
use crate::text::{bytes_equal, starts_with, str_from_utf8};
use crate::ui_actor::{Message as ControllerMessage, SearchKind};
use crate::ui_entry::UiEntry;

verus! {

/// How much of a text is shown, in bytes.
pub const SHORT_LEN: usize = 250;

/// How the history is searched, as it is kept in the settings.
#[derive(Copy, Clone, Eq, PartialEq, Debug, Structural)]
pub enum SerializableSearchKind {
    Plain,
    Regex,
    Mime,
}

impl vstd::std_specs::convert::FromSpecImpl<SerializableSearchKind> for SearchKind {
    open spec fn obeys_from_spec() -> bool {
        true
    }

    open spec fn from_spec(kind: SerializableSearchKind) -> SearchKind {
        match kind {
            SerializableSearchKind::Plain => SearchKind::Plain,
            SerializableSearchKind::Regex => SearchKind::Regex,
            SerializableSearchKind::Mime => SearchKind::Mime,
        }
    }
}

impl From<SerializableSearchKind> for SearchKind {
    fn from(kind: SerializableSearchKind) -> (search: SearchKind) {
        match kind {
            SerializableSearchKind::Plain => SearchKind::Plain,
            SerializableSearchKind::Regex => SearchKind::Regex,
            SerializableSearchKind::Mime => SearchKind::Mime,
        }
    }
}

impl vstd::std_specs::convert::FromSpecImpl<SearchKind> for SerializableSearchKind {
    open spec fn obeys_from_spec() -> bool {
        true
    }

    open spec fn from_spec(kind: SearchKind) -> SerializableSearchKind {
        match kind {
            SearchKind::Plain => SerializableSearchKind::Plain,
            SearchKind::Regex => SerializableSearchKind::Regex,
            SearchKind::Mime => SerializableSearchKind::Mime,
        }
    }
}

impl From<SearchKind> for SerializableSearchKind {
    fn from(kind: SearchKind) -> (serializable: SerializableSearchKind) {
        match kind {
            SearchKind::Plain => SerializableSearchKind::Plain,
            SearchKind::Regex => SerializableSearchKind::Regex,
            SearchKind::Mime => SerializableSearchKind::Mime,
        }
    }
}

/// A kind of search survives being kept in the settings.
pub proof fn lemma_search_kind_round_trip(kind: SearchKind, kept: SerializableSearchKind)
    ensures
        <SearchKind as vstd::std_specs::convert::FromSpec<SerializableSearchKind>>::from_spec(
            <SerializableSearchKind as vstd::std_specs::convert::FromSpec<SearchKind>>::from_spec(
                kind,
            ),
        ) == kind,
        <SerializableSearchKind as vstd::std_specs::convert::FromSpec<SearchKind>>::from_spec(
            <SearchKind as vstd::std_specs::convert::FromSpec<SerializableSearchKind>>::from_spec(
                kept,
            ),
        ) == kept,
{
}

/// The settings of the client.
#[derive(Copy, Clone, Eq, PartialEq, Debug, Structural)]
pub struct Config {
    pub search_kind: SerializableSearchKind,
    pub horizontal_position: Position,
    pub vertical_position: Position,
}

impl Config {
    /// The edges of the screen that the window sticks to.
    pub fn anchor(&self) -> (anchor: Anchor)
        ensures
            anchor == crate::applet::spec_anchor(self.horizontal_position, self.vertical_position),
    {
        Anchor {
            left: self.horizontal_position == Position::Start,
            right: self.horizontal_position == Position::End,
            top: self.vertical_position == Position::Start,
            bottom: self.vertical_position == Position::End,
        }
    }
}

impl Default for Config {
    fn default() -> (config: Config)
        ensures
            config == (Config {
                search_kind: SerializableSearchKind::Plain,
                horizontal_position: Position::End,
                vertical_position: Position::Start,
            }),
    {
        Config {
            search_kind: SerializableSearchKind::Plain,
            horizontal_position: Position::End,
            vertical_position: Position::Start,
        }
    }
}

/// The ways to search, with the one that is set active.
pub fn filter_mode_model(config: &Config) -> (model: SingleSelectModel<SerializableSearchKind>)
    ensures
        model.options@ == seq![
            SerializableSearchKind::Plain,
            SerializableSearchKind::Regex,
            SerializableSearchKind::Mime,
        ],
        model.active < 3,
        model.options@[model.active as int] == config.search_kind,
{
    let options: Vec<SerializableSearchKind> = vec![
        SerializableSearchKind::Plain,
        SerializableSearchKind::Regex,
        SerializableSearchKind::Mime,
    ];
    assert(options@ =~= seq![
        SerializableSearchKind::Plain,
        SerializableSearchKind::Regex,
        SerializableSearchKind::Mime,
    ]);
    let active: usize = match config.search_kind {
        SerializableSearchKind::Plain => 0,
        SerializableSearchKind::Regex => 1,
        SerializableSearchKind::Mime => 2,
    };
    SingleSelectModel { options, active }
}

/// The positions, with one of them active.
fn position_model(position: Position) -> (model: SingleSelectModel<Position>)
    ensures
        model.options@ == seq![Position::Start, Position::Center, Position::End],
        model.active < 3,
        model.options@[model.active as int] == position,
{
    let options: Vec<Position> = vec![Position::Start, Position::Center, Position::End];
    assert(options@ =~= seq![Position::Start, Position::Center, Position::End]);
    let active: usize = match position {
        Position::Start => 0,
        Position::Center => 1,
        Position::End => 2,
    };
    SingleSelectModel { options, active }
}

/// The positions from left to right, with the one that is set active.
pub fn horizontal_position_model(config: &Config) -> (model: SingleSelectModel<Position>)
    ensures
        model.options@ == seq![Position::Start, Position::Center, Position::End],
        model.active < 3,
        model.options@[model.active as int] == config.horizontal_position,
{
    position_model(config.horizontal_position)
}

/// The positions from top to bottom, with the one that is set active.
pub fn vertical_position_model(config: &Config) -> (model: SingleSelectModel<Position>)
    ensures
        model.options@ == seq![Position::Start, Position::Center, Position::End],
        model.active < 3,
        model.options@[model.active as int] == config.vertical_position,
{
    position_model(config.vertical_position)
}

/// What the program runs as.
#[derive(Copy, Clone, Eq, PartialEq, Debug, Structural)]
pub enum AppMode {
    Normal,
    Applet,
}

impl Default for AppMode {
    fn default() -> (mode: AppMode)
        ensures
            mode == AppMode::Normal,
    {
        AppMode::Normal
    }
}

/// What the arguments ask for.
#[derive(Copy, Clone, Eq, PartialEq, Debug, Structural)]
pub struct Cli {
    pub mode: AppMode,
    /// Toggle the window of the program that is running.
    pub toggle: bool,
}

/// What the first two arguments ask for.
pub open spec fn spec_cli(first: Option<Seq<u8>>, second: Option<Seq<u8>>) -> Cli {
    let toggle = encode_utf8("toggle"@);
    let applet = encode_utf8("applet"@);
    Cli {
        mode: if first == Some(applet) {
            AppMode::Applet
        } else {
            AppMode::Normal
        },
        toggle: first == Some(toggle) || (first == Some(applet) && second == Some(toggle)),
    }
}

/// The argument at a position, if there is one.
pub open spec fn argument(args: Seq<Vec<u8>>, i: int) -> Option<Seq<u8>> {
    if i < args.len() {
        Some(args[i]@)
    } else {
        None
    }
}

fn is_argument(args: &Vec<Vec<u8>>, i: usize, name: &str) -> (is: bool)
    ensures
        is == (argument(args@, i as int) == Some(encode_utf8(name@))),
{
    i < args.len() && bytes_equal(args[i].as_slice(), name.as_bytes())
}

/// What the arguments after the program's name ask for. Those that are not known are
/// passed over.
pub fn cli(args: &Vec<Vec<u8>>) -> (cli: Cli)
    ensures
        cli == spec_cli(argument(args@, 0), argument(args@, 1)),
{
    proof {
        reveal_strlit("toggle");
        reveal_strlit("applet");
        is_ascii_chars_encode_utf8("toggle"@);
        is_ascii_chars_encode_utf8("applet"@);
        assert(encode_utf8("toggle"@)[0] != encode_utf8("applet"@)[0]);
    }
    if is_argument(args, 0, "toggle") {
        return Cli { mode: AppMode::Normal, toggle: true };
    }
    if is_argument(args, 0, "applet") {
        Cli { mode: AppMode::Applet, toggle: is_argument(args, 1, "toggle") }
    } else {
        Cli { mode: AppMode::default(), toggle: false }
    }
}

/// What is shown of an entry.
#[derive(Debug)]
pub enum FormattedEntryContent {
    Text(String),
    Image(Vec<u8>),
}

/// An entry as it is shown.
#[derive(Debug)]
pub struct FormattedEntry {
    pub id: u64,
    pub content: FormattedEntryContent,
}

/// The start of some contents that is shown of a text.
pub open spec fn short(contents: Seq<u8>) -> Seq<u8> {
    if contents.len() <= SHORT_LEN {
        contents
    } else {
        contents.take(SHORT_LEN as int)
    }
}

/// Whether the contents of an entry can be shown: it is an image, or the start of
/// it is text.
pub open spec fn can_format(mime_type: Seq<char>, contents: Seq<u8>) -> bool {
    crate::text::spec_starts_with(encode_utf8(mime_type), encode_utf8("image/"@)) || valid_utf8(
        short(contents),
    )
}

impl FormattedEntry {
    /// Whether this is how an entry is shown.
    pub open spec fn shows(self, id: u64, mime_type: Seq<char>, contents: Seq<u8>) -> bool {
        &&& self.id == id
        &&& if crate::text::spec_starts_with(encode_utf8(mime_type), encode_utf8("image/"@)) {
            self.content matches FormattedEntryContent::Image(image) && image@ == contents
        } else {
            self.content matches FormattedEntryContent::Text(text) && text@ == decode_utf8(
                short(contents),
            )
        }
    }

    /// How an entry is shown. One that is neither an image nor text is not.
    pub fn from_entry(id: u64, mime_type: &str, contents: &[u8]) -> (formatted: Option<
        FormattedEntry,
    >)
        ensures
            formatted is Some <==> can_format(mime_type@, contents@),
            formatted matches Some(formatted) ==> formatted.shows(id, mime_type@, contents@),
    {
        if starts_with(mime_type.as_bytes(), "image/".as_bytes()) {
            let image = vstd::slice::slice_to_vec(contents);
            return Some(FormattedEntry { id, content: FormattedEntryContent::Image(image) });
        }
        let len: usize = if contents.len() < SHORT_LEN {
            contents.len()
        } else {
            SHORT_LEN
        };
        let start = vstd::slice::slice_subrange(contents, 0, len);
        assert(start@ =~= short(contents@));
        match str_from_utf8(start) {
            Ok(text) => Some(
                FormattedEntry { id, content: FormattedEntryContent::Text(text.to_owned()) },
            ),
            Err(_) => None,
        }
    }

    /// Whether this is the selected entry.
    pub fn is_selected(&self, selected_id: u64) -> (selected: bool)
        ensures
            selected == (self.id == selected_id),
    {
        self.id == selected_id
    }
}

/// A loaded entry.
#[derive(Debug)]
pub struct LoadedItem {
    pub id: u64,
    pub mime_type: String,
    pub contents: Vec<u8>,
}

impl LoadedItem {
    pub open spec fn can_format(self) -> bool {
        can_format(self.mime_type@, self.contents@)
    }
}

/// The loaded entries that can be shown.
pub open spec fn showable(items: Seq<LoadedItem>) -> Seq<LoadedItem>
    decreases items.len(),
{
    if items.len() == 0 {
        Seq::empty()
    } else if items.last().can_format() {
        showable(items.drop_last()).push(items.last())
    } else {
        showable(items.drop_last())
    }
}

/// How many of some entries are shown: one more than the limit, if there are so many.
pub open spec fn shown_count(available: nat, items_max: u32) -> int {
    if available <= items_max {
        available as int
    } else {
        items_max + 1
    }
}

/// Whether entries are shown as the first of the loaded ones that can be.
pub open spec fn are_shown(
    entries: Seq<FormattedEntry>,
    items: Seq<LoadedItem>,
    items_max: u32,
) -> bool {
    let showable = showable(items);
    &&& entries.len() == shown_count(showable.len(), items_max)
    &&& forall|i: int|
        0 <= i < entries.len() ==> #[trigger] entries[i].shows(
            showable[i].id,
            showable[i].mime_type@,
            showable[i].contents@,
        )
}

proof fn lemma_showable_grows(items: Seq<LoadedItem>, n: int)
    requires
        0 <= n <= items.len(),
    ensures
        showable(items.take(n)).len() <= showable(items).len(),
        showable(items).take(showable(items.take(n)).len() as int) == showable(items.take(n)),
    decreases items.len() - n,
{
    if n < items.len() {
        lemma_showable_grows(items, n + 1);
        assert(items.take(n + 1).drop_last() =~= items.take(n));
        let a = showable(items.take(n));
        let b = showable(items.take(n + 1));
        assert(b.take(a.len() as int) =~= a);
        assert(showable(items).take(a.len() as int) =~= showable(items).take(b.len() as int).take(
            a.len() as int,
        ));
    } else {
        assert(items.take(n) =~= items);
        assert(showable(items).take(showable(items).len() as int) =~= showable(items));
    }
}

/// The page with the history.
#[derive(Debug)]
pub struct Rings {
    pub search_query: String,
    pub entries: Vec<FormattedEntry>,
    pub selected_id: Option<u64>,
}

/// What happens on the page with the history.
#[derive(Debug)]
pub enum RingsMessage {
    SearchQuery(String),
    CopyEntry(u64),
    ChangeMainSettings,
}

impl Rings {
    /// The page for some loaded entries, newest first. The last one that is shown is
    /// selected.
    #[must_use]
    pub fn new(items_max: u32, items: &Vec<LoadedItem>) -> (rings: Rings)
        ensures
            rings.search_query@.len() == 0,
            are_shown(rings.entries@, items@, items_max),
            rings.selected_id == if rings.entries@.len() == 0 {
                None
            } else {
                Some(rings.entries@.last().id)
            },
    {
        let mut entries: Vec<FormattedEntry> = Vec::new();
        let mut i: usize = 0;
        assert(items@.take(0) =~= Seq::<LoadedItem>::empty());
        while i < items.len() && entries.len() as u64 <= items_max as u64
            invariant
                i <= items@.len(),
                entries@.len() <= items_max + 1,
                entries@.len() == showable(items@.take(i as int)).len(),
                forall|j: int|
                    0 <= j < entries@.len() ==> #[trigger] entries@[j].shows(
                        showable(items@.take(i as int))[j].id,
                        showable(items@.take(i as int))[j].mime_type@,
                        showable(items@.take(i as int))[j].contents@,
                    ),
            decreases items@.len() - i,
        {
            let item = &items[i];
            assert(items@.take(i + 1).drop_last() =~= items@.take(i as int));
            if let Some(formatted) = FormattedEntry::from_entry(
                item.id,
                item.mime_type.as_str(),
                item.contents.as_slice(),
            ) {
                entries.push(formatted);
            }
            i += 1;
        }
        proof {
            lemma_showable_grows(items@, i as int);
            let front = showable(items@.take(i as int));
            assert forall|j: int| 0 <= j < entries@.len() implies #[trigger] entries@[j].shows(
                showable(items@)[j].id,
                showable(items@)[j].mime_type@,
                showable(items@)[j].contents@,
            ) by {
                assert(showable(items@).take(front.len() as int)[j] == front[j]);
            }
            if i == items@.len() {
                assert(items@.take(i as int) =~= items@);
            }
        }
        let selected_id = if entries.len() == 0 {
            None
        } else {
            Some(entries[entries.len() - 1].id)
        };
        Rings { search_query: String::new(), entries, selected_id }
    }

    /// Handles what happens on the page.
    pub fn update(&mut self, message: RingsMessage)
        ensures
            *final(self) == match message {
                RingsMessage::SearchQuery(query) => Rings { search_query: query, ..*old(self) },
                RingsMessage::CopyEntry(id) => Rings { selected_id: Some(id), ..*old(self) },
                RingsMessage::ChangeMainSettings => *old(self),
            },
    {
        match message {
            RingsMessage::SearchQuery(query) => {
                self.search_query = query;
            },
            RingsMessage::CopyEntry(id) => {
                self.selected_id = Some(id);
            },
            RingsMessage::ChangeMainSettings => {},
        }
    }
}

/// What happens on the page with the settings.
#[derive(Copy, Clone, Eq, PartialEq, Debug)]
pub enum SettingsMessage {
    /// The limit that was typed in, if it is one.
    ChangeEntriesLimit(Option<u32>),
    ToggleShowFavourites(bool),
    ToggleOneLineLimit(bool),
    ChangeMainRings,
}

/// The pages.
#[derive(Copy, Clone, Eq, PartialEq, Debug, Structural)]
pub enum MainRoute {
    Settings,
    Rings,
}

/// What is shown.
#[derive(Debug)]
pub enum Main {
    Settings,
    Rings(Rings),
}

/// What happens on a page.
#[derive(Debug)]
pub enum MainMessage {
    Settings(SettingsMessage),
    Rings(RingsMessage),
    ChangeMain(MainRoute),
}

/// What happens to the client.
#[derive(Debug)]
pub enum AppMessage {
    TogglePopup,
    PopupClosed(u64),
    SearchQuery(String),
    Main(MainMessage),
}

/// The settings that are changed while the client runs.
#[derive(Copy, Clone, Eq, PartialEq, Debug, Structural)]
pub struct GeneralConfig {
    pub items_max: u32,
    pub show_favourites: bool,
    pub one_line_limit: bool,
}

/// The state of the client.
#[derive(Debug)]
pub struct App {
    pub popup: Option<u64>,
    pub config: GeneralConfig,
    pub main: Main,
    pub entries: Vec<UiEntry>,
}

/// What a message asks for.
#[derive(Copy, Clone, Eq, PartialEq, Debug, Structural)]
pub enum Effect {
    Nothing,
    ClosePopup(u64),
    OpenPopup(u64),
    /// Load the entries and show the page with the history.
    LoadRings,
}

/// The settings as a message on their page changes them.
pub open spec fn changed_config(config: GeneralConfig, message: SettingsMessage) -> GeneralConfig {
    match message {
        SettingsMessage::ChangeEntriesLimit(Some(limit)) => GeneralConfig {
            items_max: limit,
            ..config
        },
        SettingsMessage::ChangeEntriesLimit(None) => config,
        SettingsMessage::ToggleShowFavourites(state) => GeneralConfig {
            show_favourites: !state,
            ..config
        },
        SettingsMessage::ToggleOneLineLimit(state) => GeneralConfig {
            one_line_limit: !state,
            ..config
        },
        SettingsMessage::ChangeMainRings => config,
    }
}

/// Whether a page is what a message on the page with the history makes of another.
pub open spec fn is_changed_page(before: Main, message: RingsMessage, after: Main) -> bool {
    match (message, before) {
        (RingsMessage::ChangeMainSettings, _) => after is Settings,
        (_, Main::Settings) => after is Settings,
        (RingsMessage::SearchQuery(query), Main::Rings(rings)) => after == Main::Rings(
            Rings { search_query: query, ..rings },
        ),
        (RingsMessage::CopyEntry(id), Main::Rings(rings)) => after == Main::Rings(
            Rings { selected_id: Some(id), ..rings },
        ),
    }
}

/// Whether a state and what is asked for are what a message makes of another state.
pub open spec fn is_updated(
    before: App,
    message: AppMessage,
    new_id: u64,
    after: App,
    effect: Effect,
) -> bool {
    match message {
        AppMessage::TogglePopup => match before.popup {
            Some(id) => after == (App { popup: None, ..before }) && effect == Effect::ClosePopup(
                id,
            ),
            None => after == (App { popup: Some(new_id), ..before }) && effect
                == Effect::OpenPopup(new_id),
        },
        AppMessage::PopupClosed(id) => {
            &&& after == if before.popup == Some(id) {
                App { popup: None, ..before }
            } else {
                before
            }
            &&& effect == Effect::Nothing
        },
        AppMessage::SearchQuery(_) => after == before && effect == Effect::Nothing,
        AppMessage::Main(MainMessage::Rings(message)) => {
            &&& after == (App { main: after.main, ..before })
            &&& is_changed_page(before.main, message, after.main)
            &&& effect == Effect::Nothing
        },
        AppMessage::Main(MainMessage::Settings(message)) => {
            &&& after == (App { config: changed_config(before.config, message), ..before })
            &&& effect == if message is ChangeMainRings {
                Effect::LoadRings
            } else {
                Effect::Nothing
            }
        },
        AppMessage::Main(MainMessage::ChangeMain(MainRoute::Settings)) => {
            &&& after == (App { main: Main::Settings, ..before })
            &&& effect == Effect::Nothing
        },
        AppMessage::Main(MainMessage::ChangeMain(MainRoute::Rings)) => after == before && effect
            == Effect::LoadRings,
    }
}

impl App {
    /// Handles a message. `new_id` is that of the next popup to open.
    pub fn update(&mut self, message: AppMessage, new_id: u64) -> (effect: Effect)
        ensures
            is_updated(*old(self), message, new_id, *final(self), effect),
    {
        match message {
            AppMessage::TogglePopup => match self.popup {
                Some(id) => {
                    self.popup = None;
                    Effect::ClosePopup(id)
                },
                None => {
                    self.popup = Some(new_id);
                    Effect::OpenPopup(new_id)
                },
            },
            AppMessage::PopupClosed(id) => {
                if let Some(popup) = self.popup {
                    if popup == id {
                        self.popup = None;
                    }
                }
                Effect::Nothing
            },
            AppMessage::SearchQuery(_) => Effect::Nothing,
            AppMessage::Main(MainMessage::Rings(message)) => {
                if let RingsMessage::ChangeMainSettings = message {
                    self.main = Main::Settings;
                }
                if let Main::Rings(rings) = &mut self.main {
                    rings.update(message);
                }
                Effect::Nothing
            },
            AppMessage::Main(MainMessage::Settings(message)) => {
                match message {
                    SettingsMessage::ChangeEntriesLimit(limit) => {
                        if let Some(limit) = limit {
                            self.config.items_max = limit;
                        }
                    },
                    SettingsMessage::ToggleShowFavourites(state) => {
                        self.config.show_favourites = !state;
                    },
                    SettingsMessage::ToggleOneLineLimit(state) => {
                        self.config.one_line_limit = !state;
                    },
                    SettingsMessage::ChangeMainRings => {
                        return Effect::LoadRings;
                    },
                }
                Effect::Nothing
            },
            AppMessage::Main(MainMessage::ChangeMain(route)) => match route {
                MainRoute::Settings => {
                    self.main = Main::Settings;
                    Effect::Nothing
                },
                MainRoute::Rings => Effect::LoadRings,
            },
        }
    }

    /// Shows the page with the history, for entries that were loaded newest first.
    pub fn show_rings(&mut self, items: &Vec<LoadedItem>)
        ensures
            *final(self) == (App { main: final(self).main, ..*old(self) }),
            final(self).main matches Main::Rings(rings) && are_shown(
                rings.entries@,
                items@,
                old(self).config.items_max,
            ) && rings.search_query@.len() == 0 && rings.selected_id == if rings.entries@.len()
                == 0 {
                None
            } else {
                Some(rings.entries@.last().id)
            },
    {
        self.main = Main::Rings(Rings::new(self.config.items_max, items));
    }

    /// Handles a message of the controller: only the first page is of interest.
    pub fn receive(&mut self, message: ControllerMessage)
        ensures
            *final(self) == match message {
                ControllerMessage::LoadedFirstPage { entries, .. } => App { entries, ..*old(self) },
                _ => *old(self),
            },
    {
        if let ControllerMessage::LoadedFirstPage { entries, .. } = message {
            self.entries = entries;
        }
    }
}

/// Toggling the popup twice leaves everything as it was if there was none.
pub proof fn lemma_toggle_twice(before: App, first: App, second: App, id1: u64, id2: u64)
    requires
        before.popup is None,
        is_updated(before, AppMessage::TogglePopup, id1, first, Effect::OpenPopup(id1)),
        is_updated(first, AppMessage::TogglePopup, id2, second, Effect::ClosePopup(id1)),
    ensures
        second == before,
{
}

/// Only entries that can be shown are, in their order.
pub proof fn lemma_showable(items: Seq<LoadedItem>)
    ensures
        showable(items) == items.filter(
            |item: LoadedItem| can_format(item.mime_type@, item.contents@),
        ),
    decreases items.len(),
{
    reveal(Seq::filter);
    if items.len() > 0 {
        lemma_showable(items.drop_last());
    } else {
        assert(items =~= Seq::<LoadedItem>::empty());
    }
}

/// An image is shown as it is, and of a text its beginning, all of it if it is short. Other
/// contents are not shown.
pub proof fn lemma_contents_are_shown(
    id: u64,
    mime_type: &str,
    contents: &[u8],
    formatted: Option<FormattedEntry>,
)
    requires
        call_ensures(FormattedEntry::from_entry, (id, mime_type, contents), formatted),
    ensures
        formatted matches Some(entry) ==> entry.id == id,
        formatted matches Some(FormattedEntry { content: FormattedEntryContent::Image(image), .. })
            ==> image@ == contents@,
        formatted matches Some(FormattedEntry { content: FormattedEntryContent::Text(text), .. })
            ==> {
            &&& encode_utf8(text@) == contents@.take(encode_utf8(text@).len() as int)
            &&& encode_utf8(text@).len() == contents@.len() || encode_utf8(text@).len()
                == 250 < contents@.len()
        },
        forall|subtype: Seq<char>|
            mime_type@ == #[trigger] ("image/"@ + subtype) ==> (formatted matches Some(
                FormattedEntry { content: FormattedEntryContent::Image(_), .. },
            )),
        valid_utf8(contents@) && contents@.len() <= 250 ==> formatted is Some,
{
    let shown = short(contents@);
    if valid_utf8(shown) {
        decode_utf8_encode_utf8(shown);
    }
    assert(contents@.take(contents@.len() as int) =~= contents@);
    assert forall|subtype: Seq<char>|
        mime_type@ == #[trigger] ("image/"@ + subtype) implies (formatted matches Some(
        FormattedEntry { content: FormattedEntryContent::Image(_), .. },
    )) by {
        crate::text::lemma_encode_concat("image/"@, subtype);
        assert(encode_utf8(mime_type@).take(encode_utf8("image/"@).len() as int) =~= encode_utf8(
            "image/"@,
        ));
    }
}

/// The page shows the entries that can be shown from the first one on, no more than one over
/// the limit, each under its own ID.
pub proof fn lemma_page_shows_first_entries(items_max: u32, items: &Vec<LoadedItem>, rings: Rings)
    requires
        call_ensures(Rings::new, (items_max, items), rings),
    ensures
        ({
            let shown = items@.filter(
                |item: LoadedItem| can_format(item.mime_type@, item.contents@),
            );
            &&& rings.entries@.len() <= items_max + 1
            &&& rings.entries@.len() == shown.len() || rings.entries@.len() == items_max + 1
            &&& rings.entries@.len() <= shown.len()
            &&& forall|i: int|
                0 <= i < rings.entries@.len() ==> (#[trigger] rings.entries@[i]).id == shown[i].id
            &&& rings.selected_id matches Some(id) ==> rings.entries@.len() > 0
                && rings.entries@.last().id == id
            &&& rings.entries@.len() > 0 ==> rings.selected_id is Some
        }),
{
    lemma_showable(items@);
    assert forall|i: int| 0 <= i < rings.entries@.len() implies (#[trigger] rings.entries@[i]).id
        == showable(items@)[i].id by {
        assert(rings.entries@[i].shows(
            showable(items@)[i].id,
            showable(items@)[i].mime_type@,
            showable(items@)[i].contents@,
        ));
    }
}

/// Each setting is changed by its own message and by no other, and what is loaded by none.
pub proof fn lemma_settings_are_changed(
    client: &mut App,
    message: AppMessage,
    new_id: u64,
    effect: Effect,
)
    requires
        call_ensures(App::update, (client, message, new_id), effect),
    ensures
        final(client).entries == old(client).entries,
        final(client).config.items_max != old(client).config.items_max ==> message
            == AppMessage::Main(
            MainMessage::Settings(
                SettingsMessage::ChangeEntriesLimit(Some(final(client).config.items_max)),
            ),
        ),
        final(client).config.show_favourites != old(client).config.show_favourites ==> message
            == AppMessage::Main(
            MainMessage::Settings(
                SettingsMessage::ToggleShowFavourites(old(client).config.show_favourites),
            ),
        ),
        final(client).config.one_line_limit != old(client).config.one_line_limit ==> message
            == AppMessage::Main(
            MainMessage::Settings(
                SettingsMessage::ToggleOneLineLimit(old(client).config.one_line_limit),
            ),
        ),
        message matches AppMessage::Main(
            MainMessage::Settings(SettingsMessage::ChangeEntriesLimit(Some(limit))),
        ) ==> final(client).config.items_max == limit,
        effect matches Effect::OpenPopup(id) ==> old(client).popup is None && final(client).popup
            == Some(id) && id == new_id,
        effect matches Effect::ClosePopup(id) ==> old(client).popup == Some(id) && final(client).popup is None,
        final(client).popup != old(client).popup ==> message is TogglePopup || message
            == AppMessage::PopupClosed(old(client).popup->0),
{
}

/// The first argument says whether the program is an applet, and whether it only toggles the
/// one that is running; an applet is told so by the second.
pub proof fn lemma_arguments(args: &Vec<Vec<u8>>, asked: Cli)
    requires
        call_ensures(cli, (args,), asked),
    ensures
        args@.len() == 0 ==> asked.mode == AppMode::Normal && !asked.toggle,
        args@.len() > 0 ==> (asked.mode == AppMode::Applet <==> args@[0]@ == encode_utf8(
            "applet"@,
        )),
        args@.len() > 0 && args@[0]@ == encode_utf8("toggle"@) ==> asked.toggle,
        args@.len() > 1 && asked.mode == AppMode::Applet ==> (asked.toggle <==> args@[1]@
            == encode_utf8("toggle"@)),
        asked.toggle && asked.mode == AppMode::Normal ==> args@.len() > 0 && args@[0]@
            == encode_utf8("toggle"@),
{
    reveal_strlit("toggle");
    reveal_strlit("applet");
    is_ascii_chars_encode_utf8("toggle"@);
    is_ascii_chars_encode_utf8("applet"@);
    assert(encode_utf8("toggle"@)[0] != encode_utf8("applet"@)[0]);
}

/// The page with the history takes in what is typed and what is copied, and makes way for the
/// settings when they are asked for; the history is loaded when it is to be shown again.
pub proof fn lemma_pages_are_turned(
    client: &mut App,
    message: AppMessage,
    new_id: u64,
    effect: Effect,
)
    requires
        call_ensures(App::update, (client, message, new_id), effect),
    ensures
        message == AppMessage::Main(MainMessage::Rings(RingsMessage::ChangeMainSettings)) || message
            == AppMessage::Main(MainMessage::ChangeMain(MainRoute::Settings)) ==> final(client).main
            is Settings,
        effect is LoadRings <==> message == AppMessage::Main(
            MainMessage::Settings(SettingsMessage::ChangeMainRings),
        ) || message == AppMessage::Main(MainMessage::ChangeMain(MainRoute::Rings)),
        message matches AppMessage::Main(MainMessage::Rings(RingsMessage::CopyEntry(id))) ==> (
        old(client).main matches Main::Rings(before) ==> (final(client).main matches Main::Rings(
            after,
        ) && after.selected_id == Some(id) && after.entries == before.entries
            && after.search_query == before.search_query)),
        message matches AppMessage::Main(MainMessage::Rings(RingsMessage::SearchQuery(query)))
            ==> (old(client).main matches Main::Rings(before) ==> (final(client).main matches Main::Rings(after) && after.search_query == query && after.entries
            == before.entries && after.selected_id == before.selected_id)),
        !(message is Main) ==> final(client).main == old(client).main,
{
}

} // verus!
