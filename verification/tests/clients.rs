use ringboard::egui::{
    favorite_command, font_step, format_uri, handle_arrow_keys, needs_separator,
    remove_old_images, search_hint, toggle_mime, toggle_regex, uri_id, uri_to_id, FastPaste,
    FontMatch, FontStep, ImageLoad, RingboardLoader, SearchInput, State as EguiState,
};
use ringboard::iced::{
    entry_has_extra_detail, next_search_kind, preview, ActiveTab, AppMessage, FollowUp, Key,
    KeyPress, SettingsState, State as IcedState,
};
use ringboard::protocol::{composite_id, RingKind};
use ringboard::ring::{Header, Ring, MAGIC};
use ringboard::ring_reader::{DatabaseReader, Entry};
use ringboard::ui_actor::{Command, DetailedEntry, Message, SearchKind};
use ringboard::ui_entry::{UiEntry, UiEntryCache};

fn entry(ring: RingKind, index: u32) -> Entry {
    let mut mem = Header { magic: MAGIC, version: 0, write_head: 0 }.to_bytes();
    for slot in 0..20u32 {
        mem.extend((slot * 0x1000 + 4).to_le_bytes());
    }
    let open = || Ring::open(0, mem.len(), &mem).unwrap();
    DatabaseReader::new(open(), open()).get_raw(composite_id(ring, index)).unwrap()
}

fn text(ring: RingKind, index: u32) -> UiEntry {
    let cache = UiEntryCache::Text { one_liner: index.to_string() };
    UiEntry { entry: entry(ring, index), cache }
}

fn image(index: u32) -> UiEntry {
    UiEntry { entry: entry(RingKind::Main, index), cache: UiEntryCache::Image }
}

fn main_id(index: u32) -> u64 {
    composite_id(RingKind::Main, index)
}

fn main_texts(indices: &[u32]) -> Vec<UiEntry> {
    indices.iter().map(|i| text(RingKind::Main, *i)).collect()
}

fn page(entries: Vec<UiEntry>, default_focused_id: Option<u64>) -> Message {
    Message::LoadedFirstPage { entries, default_focused_id }
}

#[test]
fn uris_name_entries() {
    assert_eq!(format_uri(4_294_967_301), "ringboard://4294967301");
    assert_eq!(uri_id(&format_uri(7)), Some(7));
    assert_eq!(uri_id("file://7"), None);
    assert_eq!(uri_id("ringboard://x"), None);
    let rai = uri_to_id(&format_uri(main_id(5))).unwrap();
    assert_eq!((rai.ring(), rai.index()), (RingKind::Main, 5));
    assert!(uri_to_id(&format_uri(9 << 32)).is_none());
}

#[test]
fn images_are_requested_once() {
    let mut loader: RingboardLoader<&str> = RingboardLoader::new();
    let uri = format_uri(main_id(3));
    assert!(matches!(loader.load(&uri), ImageLoad::Request(id) if id == main_id(3)));
    assert!(matches!(loader.load(&uri), ImageLoad::Pending));
    loader.add(main_id(3), "image");
    assert!(matches!(loader.load(&uri), ImageLoad::Ready(image) if *image == "image"));
    loader.forget(&uri);
    assert!(matches!(loader.load(&uri), ImageLoad::Request(_)));
    loader.forget_all();
    assert!(matches!(loader.load(&uri), ImageLoad::Request(_)));
    assert!(matches!(loader.load("file:///a"), ImageLoad::NotSupported));
    assert!(matches!(loader.load("ringboard://99999999999"), ImageLoad::NotSupported));
}

#[test]
fn fonts_are_picked() {
    assert_eq!(font_step(FontMatch::NotFound), FontStep::TryNext);
    assert_eq!(font_step(FontMatch::Memory), FontStep::Take);
    let file = |already_loaded, readable| FontMatch::File { already_loaded, readable };
    assert_eq!(font_step(file(true, true)), FontStep::Stop);
    assert_eq!(font_step(file(false, true)), FontStep::Take);
    assert_eq!(font_step(file(false, false)), FontStep::TryNext);
}

#[test]
fn unused_images_are_dropped() {
    let old = main_texts(&[1, 2]);
    let found = main_texts(&[3]);
    assert_eq!(remove_old_images(&old, &found, &main_texts(&[2]), None), [main_id(1), main_id(3)]);
    let kept = main_texts(&[3]);
    assert_eq!(remove_old_images(&old, &found, &main_texts(&[2]), Some(&kept)), [main_id(1)]);
}

#[test]
fn arrow_keys_wrap_around() {
    let entries = main_texts(&[5, 6, 7]);
    let id = |i| Some(main_id(i));
    assert_eq!(handle_arrow_keys(&entries, id(5), true, false), (id(7), true));
    assert_eq!(handle_arrow_keys(&entries, id(7), false, true), (id(5), true));
    assert_eq!(handle_arrow_keys(&entries, None, false, true), (id(5), true));
    assert_eq!(handle_arrow_keys(&entries, None, true, false), (id(7), true));
    assert_eq!(handle_arrow_keys(&entries, id(1), false, true), (id(5), true));
    assert_eq!(handle_arrow_keys(&entries, id(6), true, true), (id(6), true));
    assert_eq!(handle_arrow_keys(&entries, id(6), false, false), (id(6), false));
}

#[test]
fn kinds_of_search() {
    assert_eq!(toggle_regex(SearchKind::Plain), SearchKind::Regex);
    assert_eq!(toggle_regex(SearchKind::Regex), SearchKind::Plain);
    assert_eq!(toggle_mime(SearchKind::Regex), SearchKind::Mime);
    assert_eq!(toggle_mime(SearchKind::Mime), SearchKind::Plain);
    assert_eq!(search_hint(SearchKind::Plain), "Search");
    assert_eq!(search_hint(SearchKind::Regex), "RegEx search");
    assert_eq!(search_hint(SearchKind::Mime), "Mime type search");
    assert_eq!(next_search_kind(SearchKind::Plain), SearchKind::Regex);
    assert_eq!(next_search_kind(SearchKind::Regex), SearchKind::Mime);
    assert_eq!(next_search_kind(SearchKind::Mime), SearchKind::Plain);
}

#[test]
fn first_page_keeps_the_highlight() {
    let mut state = EguiState::start();
    state.handle_message(page(main_texts(&[1, 2]), Some(main_id(2))), false);
    assert_eq!(state.highlighted_id, Some(main_id(2)));
    let reaction = state.handle_message(page(main_texts(&[2, 3]), Some(main_id(3))), false);
    assert_eq!(state.highlighted_id, Some(main_id(2)));
    assert_eq!(reaction.forget, [main_id(1)]);
    assert!(!reaction.close);
    assert!(state.handle_message(Message::Pasted, false).close);
}

fn quiet() -> SearchInput {
    SearchInput {
        kind_changed: false,
        text_changed: false,
        escape_pressed: false,
        popup_open: false,
        up_pressed: false,
        down_pressed: false,
        slash_pressed: false,
        focused: false,
    }
}

#[test]
fn searches_of_the_window() {
    let mut state = EguiState::default();
    assert!(state.search_ui(SearchInput { escape_pressed: true, ..quiet() }).close);
    state.query = "abc".to_string();
    let reaction = state.search_ui(SearchInput { text_changed: true, ..quiet() });
    assert_eq!(reaction.search, Some(("abc".to_string(), SearchKind::Plain)));
    assert!(state.pending_search);
    state.handle_message(Message::SearchResults(main_texts(&[4])), true);
    assert!(!state.pending_search);
    assert_eq!(state.active_highlighted_id(), Some(main_id(4)));
    assert_eq!(state.active_entries().len(), 1);
    let reaction = state.search_ui(SearchInput { escape_pressed: true, ..quiet() });
    assert!(!reaction.close);
    assert_eq!(reaction.forget, [main_id(4)]);
    assert_eq!(state.query, "");
    let reaction = state.search_ui(SearchInput { slash_pressed: true, ..quiet() });
    assert!(reaction.request_focus && reaction.close_popups);
}

#[test]
fn the_window_refreshes_when_it_gains_focus() {
    let mut state = EguiState::start();
    assert!(!state.update_focus(true));
    assert!(!state.update_focus(false));
    assert!(state.update_focus(true));
    assert!(!state.update_focus(true));
    state.query = "q".to_string();
    assert_eq!(state.refresh(), Some(("q".to_string(), SearchKind::Plain)));
    state.reload();
    assert_eq!(state.refresh(), None);
}

#[test]
fn messages_about_details() {
    let mut state = EguiState::default();
    assert!(matches!(
        state.open_details(5, true),
        Some(Command::GetDetails { id: 5, with_text: true })
    ));
    assert!(state.open_details(5, true).is_none());
    let details = || DetailedEntry { mime_type: String::new(), full_text: None };
    state.handle_message(Message::EntryDetails { id: 6, result: Ok(details()) }, false);
    assert!(state.detailed_entry.is_none());
    state.handle_message(Message::EntryDetails { id: 5, result: Ok(details()) }, false);
    assert!(state.detailed_entry.is_some());
    state.handle_message(Message::Error("e".to_string()), false);
    assert_eq!(state.last_error.as_deref(), Some("e"));
    state.handle_message(Message::FatalDbOpen("f".to_string()), false);
    assert_eq!(state.fatal_error.as_deref(), Some("f"));
    state.handle_message(Message::FavoriteChange(9), false);
    assert_eq!(state.highlighted_id, Some(9));
}

#[test]
fn highlights_of_the_window() {
    let mut state = EguiState::default();
    assert_eq!(state.empty_label(), "Nothing to see here");
    state.pending_search = true;
    assert_eq!(state.empty_label(), "Loading…");
    state.handle_message(page(main_texts(&[1, 2, 3]), None), false);
    assert!(state.move_highlight(false, true, false));
    assert_eq!(state.highlighted_id, Some(main_id(1)));
    assert!(!state.move_highlight(false, true, true));
    state.hover(main_id(3), false, true);
    assert_eq!(state.highlighted_id, Some(main_id(3)));
    state.set_active_highlight(None);
    assert_eq!(state.active_highlighted_id(), None);
    state.highlight_after_delete(0);
    assert_eq!(state.highlighted_id, Some(main_id(2)));
}

#[test]
fn favorites_are_toggled_and_set_apart() {
    assert!(matches!(favorite_command(RingKind::Main, 1), Command::Favorite(1)));
    assert!(matches!(favorite_command(RingKind::Favorites, 1), Command::Unfavorite(1)));
    assert!(needs_separator(Some(RingKind::Favorites), RingKind::Main));
    assert!(!needs_separator(Some(RingKind::Main), RingKind::Main));
    assert!(!needs_separator(None, RingKind::Main));
}

#[test]
fn ten_entries_have_numbers() {
    let mut fast = FastPaste::new();
    for i in 0..10u64 {
        assert_eq!(fast.push(100 + i), Some(i as usize));
    }
    assert_eq!(fast.push(200), None);
    assert_eq!(fast.get(9), Some(109));
    assert_eq!(fast.get(10), None);
}

#[test]
fn tabs() {
    assert_eq!(ActiveTab::default(), ActiveTab::All);
    for i in 0..5 {
        let tab = ActiveTab::at(i);
        assert_eq!(tab.index(), i);
        assert_eq!(tab.cycle(true).cycle(false), tab);
    }
    assert_eq!(ActiveTab::Settings.cycle(true), ActiveTab::All);
    assert_eq!(ActiveTab::All.cycle(false), ActiveTab::Settings);
    assert_eq!(ActiveTab::Images.label(), "Images");
    assert!(ActiveTab::Images.lists(&image(0)));
    assert!(!ActiveTab::Images.lists(&text(RingKind::Main, 0)));
    assert!(ActiveTab::Text.lists(&text(RingKind::Main, 0)));
    assert!(ActiveTab::Favorites.lists(&text(RingKind::Favorites, 0)));
    assert!(!ActiveTab::Settings.lists(&image(0)));
}

fn press(key: Key) -> KeyPress {
    KeyPress { key, control: false, shift: false, alt: false }
}

fn with_control(key: &str) -> KeyPress {
    let key = Key::Character(key.to_string());
    KeyPress { key, control: true, shift: false, alt: false }
}

fn iced() -> IcedState {
    let mut state = IcedState::new();
    let entries = vec![text(RingKind::Main, 1), text(RingKind::Favorites, 2), image(3)];
    let outcome = state.handle_controller_message(page(entries, None));
    assert_eq!(outcome.images, [main_id(3)]);
    assert_eq!(state.highlighted_id, Some(main_id(1)));
    state
}

#[test]
fn favorites_come_first_when_navigating() {
    let mut state = iced();
    let ids: Vec<u64> = state.nav_entries().iter().map(|e| e.entry.id()).collect();
    assert_eq!(ids, [2, main_id(1), main_id(3)]);
    assert!(state.show_sections());
    assert_eq!(state.status_counts(), "1 favorites / 2 recent");
    assert_eq!(state.status_search(), "");
    state.update(AppMessage::KeyEvent(press(Key::ArrowUp)));
    assert_eq!(state.current_highlight_id(), Some(2));
    assert!(state.pinned_expanded);
    let layout = state.list_layout();
    assert_eq!(layout.favorites_header, Some(1));
    assert!(layout.favorites);
    assert_eq!(layout.recent_header, Some(2));
    state.update(AppMessage::KeyEvent(press(Key::ArrowLeft)));
    assert!(!state.pinned_expanded);
    assert_eq!(state.current_highlight_id(), Some(main_id(1)));
    state.update(AppMessage::TabSelected(ActiveTab::Text));
    assert_eq!(state.status_counts(), "2 items");
    assert_eq!(state.list_layout().favorites_header, None);
    assert_eq!(state.filtered_entries().len(), 2);
}

#[test]
fn keys_of_the_iced_client() {
    let mut state = iced();
    let outcome = state.update(AppMessage::KeyEvent(press(Key::Enter)));
    assert!(matches!(outcome.send, Some(Command::Paste(id)) if id == main_id(1)));
    assert!(state.update(AppMessage::KeyEvent(press(Key::Escape))).exit);
    let refresh = state.update(AppMessage::KeyEvent(with_control("R")));
    assert_eq!(refresh.follow_up, Some(FollowUp::Refresh));
    let details = state.update(AppMessage::KeyEvent(with_control("d")));
    assert_eq!(details.follow_up, Some(FollowUp::DetailRequested(main_id(1))));
    let pasted = state.update(AppMessage::KeyEvent(with_control("0")));
    assert!(matches!(pasted.send, Some(Command::Paste(2))));
    let none = state.update(AppMessage::KeyEvent(with_control("9")));
    assert!(none.send.is_none());
    let tab = state.update(AppMessage::KeyEvent(KeyPress { control: true, ..press(Key::Tab) }));
    assert_eq!(tab.follow_up, Some(FollowUp::TabNext));
    let alt = KeyPress { alt: true, ..press(Key::Character("2".to_string())) };
    let tab = state.update(AppMessage::KeyEvent(alt));
    assert_eq!(tab.follow_up, Some(FollowUp::TabSelected(ActiveTab::Text)));
}

#[test]
fn searches_of_the_iced_client() {
    let mut state = iced();
    let outcome = state.update(AppMessage::SearchChanged("x".to_string()));
    assert_eq!(outcome.search, Some(("x".to_string(), SearchKind::Plain)));
    assert_eq!(state.status_search(), "Searching...");
    let outcome = state.update(AppMessage::SearchKindToggled);
    assert_eq!(outcome.search, Some(("x".to_string(), SearchKind::Regex)));
    state.handle_controller_message(Message::SearchResults(main_texts(&[7])));
    assert_eq!(state.current_highlight_id(), Some(main_id(7)));
    assert_eq!(state.active_entries().len(), 1);
    let outcome = state.update(AppMessage::KeyEvent(press(Key::Escape)));
    assert!(!outcome.exit);
    assert_eq!(state.query, "");
    assert!(state.search_results.is_empty());
}

#[test]
fn actions_of_the_iced_client() {
    let mut state = iced();
    let outcome = state.update(AppMessage::FavoriteToggled(2));
    assert!(matches!(outcome.send, Some(Command::Unfavorite(2))));
    assert!(outcome.reload);
    let outcome = state.update(AppMessage::FavoriteToggled(main_id(1)));
    assert!(matches!(outcome.send, Some(Command::Favorite(_))));
    let outcome = state.update(AppMessage::DeleteEntry(main_id(1)));
    assert!(matches!(outcome.send, Some(Command::Delete(_))));
    assert_eq!(state.current_highlight_id(), None);
    let outcome = state.update(AppMessage::DetailRequested(main_id(3)));
    assert!(matches!(outcome.send, Some(Command::GetDetails { with_text: false, .. })));
    assert_eq!(outcome.images, [main_id(3)]);
    state.update(AppMessage::DetailClosed);
    assert_eq!(state.details_requested, None);
    assert!(state.image_loaded(main_id(3)));
    assert!(!state.image_loaded(main_id(3)));
    state.update(AppMessage::ImageDecoded(main_id(3), Ok(())));
    assert!(state.image_cache.contains(&main_id(3)));
    state.update(AppMessage::ImageDecoded(main_id(9), Err("bad".to_string())));
    assert_eq!(state.last_error.as_deref(), Some("bad"));
    state.update(AppMessage::DismissError);
    assert!(state.last_error.is_none());
    state.update(AppMessage::Refresh);
    assert!(state.image_cache.is_empty());
    state.update(AppMessage::PinnedToggled);
    state.update(AppMessage::EntryHovered(Some(4)));
    assert_eq!(state.hovered_id, Some(4));
    assert!(state.handle_controller_message(Message::Pasted).exit);
    state.reset();
    assert!(state.loaded_entries.is_empty());
}

#[test]
fn previews_and_details() {
    assert_eq!(preview("short"), "short");
    assert_eq!(preview(&"a".repeat(300)), "a".repeat(200));
    assert!(entry_has_extra_detail(&image(1)));
}

#[test]
fn buttons_of_the_settings() {
    let mut settings = SettingsState {
        loaded: true,
        max_main_entries: String::new(),
        max_favorite_entries: String::new(),
        gc_max_wasted_bytes: String::new(),
        status: None,
        saving: false,
        running_gc: true,
    };
    assert_eq!(settings.save_button(), ("Save", true));
    assert_eq!(settings.gc_button(), ("Running...", false));
    settings.saving = true;
    settings.running_gc = false;
    assert_eq!(settings.save_button(), ("Saving...", false));
    assert_eq!(settings.gc_button(), ("Run garbage collection", true));
}
