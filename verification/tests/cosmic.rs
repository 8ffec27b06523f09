use ringboard::applet::{
    client_message, failed_toggle, filter_mode_model, split_highlight, toggled_other, Anchor, AppMessage,
    AppModel, Config, DetailData, Details, Entry, EntryData, FilterMode, Incoming, PopupKind,
    PopupView, Position, ToggleCall,
};
use ringboard::cosmic::{
    cli, filter_mode_model as cosmic_filter_mode_model, horizontal_position_model,
    vertical_position_model, App, AppMessage as CosmicMessage, AppMode, Cli,
    Config as CosmicConfig, Effect, FormattedEntry, FormattedEntryContent, GeneralConfig,
    LoadedItem, Main, MainMessage, MainRoute, Rings, RingsMessage, SerializableSearchKind,
    SettingsMessage,
};
use ringboard::gnome::{
    accepts_payload, added_id, listed_entries, moved_status, payload_mime_type, removed_status, status,
    MAX_PAYLOAD_BYTES,
};
use ringboard::protocol::{
    composite_id, AddResponse, IdNotFoundError, MoveToFrontResponse, RemoveResponse, RingKind,
};
use ringboard::ring::{Header, Ring, MAGIC};
use ringboard::ring_reader::DatabaseReader;
use ringboard::ui_actor::{Command, DecodedImage, DetailedEntry, Message, SearchKind};
use ringboard::ui_entry::{UiEntry, UiEntryCache};

type Model = AppModel<&'static str>;

fn loaded(ring: RingKind, index: u32, cache: UiEntryCache) -> UiEntry {
    let mut mem = Header { magic: MAGIC, version: 0, write_head: 0 }.to_bytes();
    for slot in 0..9u32 {
        mem.extend((slot * 0x1000 + 4).to_le_bytes());
    }
    let open = || Ring::open(0, mem.len(), &mem).unwrap();
    let entry = DatabaseReader::new(open(), open()).get_raw(composite_id(ring, index)).unwrap();
    UiEntry { entry, cache }
}

fn item(id: u64, favorite: bool) -> Entry {
    Entry { id, favorite, data: EntryData::Mime("a/b".to_string()) }
}

#[test]
fn popups_are_toggled() {
    let mut model = Model::new(Config::default());
    assert_eq!(model.view_window(), PopupView::Nothing);
    let effects = model.update(AppMessage::TogglePopup, 1);
    assert_eq!((effects.open, effects.close), (Some(1), None));
    assert!(matches!(effects.send, Some(Command::LoadFirstPage)));
    assert!(model.on_close_requested(1).is_some());
    assert!(model.on_close_requested(2).is_none());
    let effects = model.update(AppMessage::ToggleSettings, 2);
    assert_eq!((effects.open, effects.close), (None, Some(1)));
    model.update(AppMessage::ToggleSettings, 3);
    assert_eq!(model.view_window(), PopupView::Settings);
    let effects = model.update(AppMessage::TogglePopup, 4);
    assert_eq!((effects.open, effects.close), (Some(4), Some(3)));
    assert_eq!(model.popup.as_ref().map(|p| p.kind), Some(PopupKind::Search));
    let effects = model.update(AppMessage::KeyPressed(true), 5);
    assert_eq!(effects.close, Some(4));
    assert!(model.popup.is_none());
    assert!(model.update(AppMessage::KeyPressed(false), 6).close.is_none());
}

#[test]
fn items_are_split() {
    let mut model = Model::new(Config::default());
    model.update(AppMessage::TogglePopup, 1);
    let items = vec![item(1, false), item(2, true), item(3, false), item(4, true)];
    model.update(AppMessage::Items(items), 0);
    let ids = |entries: &Vec<Entry>| entries.iter().map(|e| e.id).collect::<Vec<_>>();
    assert_eq!(ids(&model.favorites), [2, 4]);
    assert_eq!(ids(&model.entries), [1, 3]);
    assert_eq!(
        model.view_window(),
        PopupView::History { favorites: true, others: true, space: true }
    );
    model.update(AppMessage::Deleted(3), 0);
    model.update(AppMessage::Deleted(2), 0);
    assert_eq!(ids(&model.favorites), [4]);
    assert_eq!(ids(&model.entries), [1]);
}

#[test]
fn searches_of_the_applet() {
    let mut model = Model::new(Config::default());
    let effects = model.update(AppMessage::SearchPending("first"), 0);
    assert_eq!(effects.cancel, None);
    let effects = model.update(AppMessage::SearchPending("second"), 0);
    assert_eq!(effects.cancel, Some("first"));
    let effects = model.update(AppMessage::Search("abc".to_string()), 0);
    assert_eq!(effects.cancel, Some("second"));
    assert!(matches!(
        effects.send,
        Some(Command::Search { query, kind: SearchKind::Plain }) if query == "abc"
    ));
    let effects = model.update(AppMessage::SelectFilterMode(Some(FilterMode::Mime)), 0);
    assert_eq!(effects.save, Some(FilterMode::Mime));
    let effects = model.update(AppMessage::Reload, 0);
    assert!(matches!(effects.send, Some(Command::Search { kind: SearchKind::Mime, .. })));
    assert!(model.update(AppMessage::SelectFilterMode(None), 0).save.is_none());
    model.update(AppMessage::Search(String::new()), 0);
    let effects = model.update(AppMessage::Reload, 0);
    assert!(matches!(effects.send, Some(Command::LoadFirstPage)));
    model.update(AppMessage::ConfigUpdate(Config::default()), 0);
    assert_eq!(model.config, Config::default());
    let modes = model.shown_filter_modes();
    assert_eq!(modes.options[modes.active], FilterMode::Mime);
}

#[test]
fn details_keep_the_favorite_status() {
    let mut model = Model::new(Config::default());
    model.update(AppMessage::TogglePopup, 1);
    let effects = model.update(AppMessage::ViewDetails(7, true), 0);
    assert!(matches!(effects.send, Some(Command::GetDetails { id: 7, with_text: true })));
    assert_eq!(model.view_window(), PopupView::Details);
    let entry = DetailData::Text("text".to_string(), "plain/text".to_string());
    let details = Details { id: 7, favorite: false, entry };
    model.update(AppMessage::DetailsLoaded(Ok(details)), 0);
    match model.popup.as_ref().and_then(|p| p.details.as_ref()) {
        Some(Ok(details)) => {
            assert!(details.favorite);
            assert_eq!(details.mime_type(), Some("plain/text"));
        }
        _ => panic!("no details"),
    }
    model.update(AppMessage::CloseDetails, 0);
    model.update(AppMessage::DetailsLoaded(Err("late".to_string())), 0);
    assert!(model.popup.as_ref().unwrap().details.is_none());
}

#[test]
fn actions_of_the_applet() {
    let mut model = Model::new(Config::default());
    model.update(AppMessage::TogglePopup, 1);
    let effects = model.update(AppMessage::ChangeFavorite(3, true), 0);
    assert!(effects.close_details);
    assert!(matches!(effects.send, Some(Command::Unfavorite(3))));
    let effects = model.update(AppMessage::ChangeFavorite(3, false), 0);
    assert!(matches!(effects.send, Some(Command::Favorite(3))));
    let effects = model.update(AppMessage::Delete(3), 0);
    assert!(matches!(effects.send, Some(Command::Delete(3))));
    let effects = model.update(AppMessage::Paste(3), 0);
    assert!(matches!(effects.send, Some(Command::Paste(3))));
    assert_eq!(effects.close, Some(1));
    model.update(AppMessage::FatalError("f".to_string()), 0);
    assert_eq!(model.fatal_error.as_deref(), Some("f"));
    assert_eq!(model.update(AppMessage::ClosePopup, 0).close, None);
}

fn incoming(message: Message) -> Incoming<()> {
    client_message(message, "Error", "Database error")
}

#[test]
fn messages_of_the_controller() {
    match incoming(Message::Error("e".to_string())) {
        Incoming::Error(text) => assert_eq!(text, "Error: e"),
        _ => panic!("not an error"),
    }
    let image = DecodedImage { width: 1, height: 1, rgba: vec![1, 2, 3, 4] };
    match incoming(Message::LoadedImage { id: 9, image }) {
        Incoming::Image(id, image) => assert_eq!((id, image.rgba), (9, vec![1, 2, 3, 4])),
        _ => panic!("not an image"),
    }
    match incoming(Message::FatalDbOpen("e".to_string())) {
        Incoming::Message(AppMessage::FatalError(text), _) => {
            assert_eq!(text, "Database error: e");
        }
        _ => panic!("not fatal"),
    }
    let details = DetailedEntry { mime_type: "a/b".to_string(), full_text: None };
    match incoming(Message::EntryDetails { id: 4, result: Ok(details) }) {
        Incoming::Message(AppMessage::DetailsLoaded(Ok(details)), _) => {
            assert_eq!((details.id, details.mime_type()), (4, Some("a/b")));
        }
        _ => panic!("no details"),
    }
    match incoming(Message::EntryDetails { id: 4, result: Err("x".to_string()) }) {
        Incoming::Message(AppMessage::DetailsLoaded(Err(text)), _) => assert_eq!(text, "Error: x"),
        _ => panic!("no error"),
    }
    assert!(matches!(incoming(Message::Pasted), Incoming::Nothing));
    assert!(matches!(
        incoming(Message::FavoriteChange(1)),
        Incoming::Message(AppMessage::Reload, _)
    ));
    assert!(matches!(
        incoming(Message::Deleted(9)),
        Incoming::Message(AppMessage::Deleted(9), _)
    ));
}

#[test]
fn loaded_entries_are_converted() {
    let text = UiEntryCache::Text { one_liner: "t".to_string() };
    let high = UiEntryCache::HighlightedText { one_liner: "h".to_string(), start: 0, end: 1 };
    let entries = vec![
        loaded(RingKind::Favorites, 1, text),
        loaded(RingKind::Main, 2, high),
        loaded(RingKind::Main, 3, UiEntryCache::Image),
    ];
    match incoming(Message::SearchResults(entries)) {
        Incoming::Message(AppMessage::Items(items), images) => {
            assert_eq!(images, [composite_id(RingKind::Main, 3)]);
            assert!(items[0].favorite && !items[1].favorite);
            assert!(matches!(
                &items[0].data,
                EntryData::Text { text, mime } if text == "t" && mime == "plain/text"
            ));
            assert!(matches!(items[1].data, EntryData::HighlightedText { start: 0, end: 1, .. }));
            assert!(matches!(&items[2].data, EntryData::Image { mime } if mime == "image/png"));
        }
        _ => panic!("no items"),
    }
}

#[test]
fn highlights_are_split_out() {
    assert_eq!(split_highlight("aébc", 1, 3), ("a", "é", "bc"));
    assert_eq!(split_highlight("abc", 0, 3), ("", "abc", ""));
    assert_eq!(split_highlight("abc", 3, 3), ("abc", "", ""));
}

#[test]
fn positions_and_anchors() {
    let config = Config::default();
    assert_eq!(
        config.anchor(),
        Anchor { left: false, right: true, top: true, bottom: false }
    );
    let centered = CosmicConfig {
        horizontal_position: Position::Center,
        vertical_position: Position::Center,
        ..CosmicConfig::default()
    };
    assert_eq!(
        centered.anchor(),
        Anchor { left: false, right: false, top: false, bottom: false }
    );
    let model = filter_mode_model(&config);
    assert_eq!(model.options[model.active], FilterMode::Plain);
    let model = cosmic_filter_mode_model(&CosmicConfig::default());
    assert_eq!(model.options[model.active], SerializableSearchKind::Plain);
    assert_eq!(horizontal_position_model(&centered).active, 1);
    assert_eq!(vertical_position_model(&CosmicConfig::default()).active, 0);
    assert_eq!(horizontal_position_model(&CosmicConfig::default()).active, 2);
    assert_eq!((Position::default(), FilterMode::default()), (Position::Center, FilterMode::Plain));
    for kind in [SearchKind::Plain, SearchKind::Regex, SearchKind::Mime] {
        assert_eq!(SearchKind::from(SerializableSearchKind::from(kind)), kind);
    }
}

#[test]
fn other_instances() {
    assert_eq!(toggled_other(ToggleCall::Answered(true)), Some(true));
    assert_eq!(toggled_other(ToggleCall::NotRunning), Some(false));
    assert_eq!(toggled_other(ToggleCall::Failed), None);
    let unknown = "org.freedesktop.DBus.Error.ServiceUnknown";
    assert_eq!(failed_toggle(Some(unknown)), ToggleCall::NotRunning);
    assert_eq!(failed_toggle(Some("org.freedesktop.DBus.Error.Failed")), ToggleCall::Failed);
    assert_eq!(failed_toggle(None), ToggleCall::Failed);
}

#[test]
fn arguments() {
    let parse = |args: &[&str]| cli(&args.iter().map(|a| a.as_bytes().to_vec()).collect());
    assert_eq!(parse(&[]), Cli { mode: AppMode::Normal, toggle: false });
    assert_eq!(parse(&["toggle"]), Cli { mode: AppMode::Normal, toggle: true });
    assert_eq!(parse(&["applet"]), Cli { mode: AppMode::Applet, toggle: false });
    assert_eq!(parse(&["applet", "toggle"]), Cli { mode: AppMode::Applet, toggle: true });
    assert_eq!(parse(&["other", "toggle"]), Cli { mode: AppMode::Normal, toggle: false });
    assert_eq!(AppMode::default(), AppMode::Normal);
}

#[test]
fn entries_are_formatted() {
    let text = FormattedEntry::from_entry(1, "", b"abc").unwrap();
    assert!(matches!(&text.content, FormattedEntryContent::Text(t) if t == "abc"));
    assert!(text.is_selected(1) && !text.is_selected(2));
    let long = FormattedEntry::from_entry(1, "text/plain", &[b'a'; 251]).unwrap();
    assert!(matches!(&long.content, FormattedEntryContent::Text(t) if t.len() == 250));
    let image = FormattedEntry::from_entry(1, "image/png", &[0xff; 300]).unwrap();
    assert!(matches!(&image.content, FormattedEntryContent::Image(i) if i.len() == 300));
    assert!(FormattedEntry::from_entry(1, "", &[0xff]).is_none());
    let mut split = vec![b'a'; 249];
    split.extend("é".as_bytes());
    assert!(FormattedEntry::from_entry(1, "", &split).is_none());
}

fn loaded_item(id: u64, contents: &[u8]) -> LoadedItem {
    LoadedItem { id, mime_type: String::new(), contents: contents.to_vec() }
}

#[test]
fn pages_hold_one_more_than_the_limit() {
    let items = vec![
        loaded_item(1, b"a"),
        loaded_item(2, &[0xff]),
        loaded_item(3, b"b"),
        loaded_item(4, b"c"),
    ];
    let rings = Rings::new(1, &items);
    assert_eq!(rings.entries.iter().map(|e| e.id).collect::<Vec<_>>(), [1, 3]);
    assert_eq!(rings.selected_id, Some(3));
    assert_eq!(Rings::new(9, &items).entries.len(), 3);
    assert_eq!(Rings::new(9, &vec![]).selected_id, None);
}

#[test]
fn pages_of_the_cosmic_client() {
    let mut app = App {
        popup: None,
        config: GeneralConfig { items_max: 5, show_favourites: true, one_line_limit: false },
        main: Main::Settings,
        entries: vec![],
    };
    assert_eq!(app.update(CosmicMessage::TogglePopup, 1), Effect::OpenPopup(1));
    app.update(CosmicMessage::PopupClosed(2), 0);
    assert_eq!(app.popup, Some(1));
    assert_eq!(app.update(CosmicMessage::TogglePopup, 2), Effect::ClosePopup(1));
    app.popup = Some(3);
    app.update(CosmicMessage::PopupClosed(3), 0);
    assert_eq!(app.popup, None);
    let settings = |m| CosmicMessage::Main(MainMessage::Settings(m));
    app.update(settings(SettingsMessage::ChangeEntriesLimit(Some(0))), 0);
    app.update(settings(SettingsMessage::ChangeEntriesLimit(None)), 0);
    app.update(settings(SettingsMessage::ToggleShowFavourites(true)), 0);
    app.update(settings(SettingsMessage::ToggleOneLineLimit(false)), 0);
    assert_eq!(
        app.config,
        GeneralConfig { items_max: 0, show_favourites: false, one_line_limit: true }
    );
    assert_eq!(app.update(settings(SettingsMessage::ChangeMainRings), 0), Effect::LoadRings);
    app.show_rings(&vec![loaded_item(1, b"a"), loaded_item(2, b"b")]);
    let rings = |m| CosmicMessage::Main(MainMessage::Rings(m));
    app.update(rings(RingsMessage::SearchQuery("q".to_string())), 0);
    app.update(rings(RingsMessage::CopyEntry(9)), 0);
    match &app.main {
        Main::Rings(rings) => {
            assert_eq!(rings.entries.len(), 1);
            assert_eq!(rings.search_query, "q");
            assert_eq!(rings.selected_id, Some(9));
        }
        Main::Settings => panic!("wrong page"),
    }
    app.update(rings(RingsMessage::ChangeMainSettings), 0);
    assert!(matches!(app.main, Main::Settings));
    let route = |r| CosmicMessage::Main(MainMessage::ChangeMain(r));
    assert_eq!(app.update(route(MainRoute::Rings), 0), Effect::LoadRings);
    assert_eq!(app.update(route(MainRoute::Settings), 0), Effect::Nothing);
    let entries = vec![loaded(RingKind::Main, 1, UiEntryCache::Image)];
    app.receive(Message::LoadedFirstPage { entries, default_focused_id: None });
    app.receive(Message::Pasted);
    assert_eq!(app.entries.len(), 1);
}

#[test]
fn arguments_of_the_extension() {
    assert!(accepts_payload(false, 1));
    assert!(accepts_payload(false, MAX_PAYLOAD_BYTES));
    assert!(!accepts_payload(false, MAX_PAYLOAD_BYTES + 1));
    assert!(!accepts_payload(false, 0));
    assert!(!accepts_payload(true, 1));
    assert_eq!(MAX_PAYLOAD_BYTES, 16 * 1024 * 1024);
    assert_eq!(payload_mime_type().unwrap().as_str(), "text/plain");
    assert_eq!(added_id(Some(AddResponse::Success { id: 5 })), 5);
    assert_eq!(added_id(Some(AddResponse::Success { id: u64::MAX })), -1);
    assert_eq!(added_id(None), -1);
    assert_eq!((status(true, true), status(true, false), status(false, true)), (0, -1, -1));
    let missing = IdNotFoundError::Entry(3);
    assert_eq!(moved_status(true, Some(MoveToFrontResponse::Success { id: 3 })), 0);
    assert_eq!(moved_status(true, Some(MoveToFrontResponse::Error(missing))), -1);
    assert_eq!(moved_status(true, None), -1);
    assert_eq!(moved_status(false, Some(MoveToFrontResponse::Success { id: 3 })), -1);
    assert_eq!(removed_status(true, Some(RemoveResponse { error: None })), 0);
    assert_eq!(removed_status(true, Some(RemoveResponse { error: Some(missing) })), -1);
    assert_eq!(removed_status(true, None), -1);
    assert_eq!(removed_status(false, Some(RemoveResponse { error: None })), -1);
    assert_eq!((listed_entries(false, 1), listed_entries(true, 1)), (0, -1));
    assert_eq!(listed_entries(false, 0), -1);
}
