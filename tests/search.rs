use xdcc::search::{App, Key, SearchResultItem};

fn item(bot_id: u16, pack: u32, name: &str) -> SearchResultItem {
    SearchResultItem { bot_id, pack, name: name.to_string(), size: "1M".to_string() }
}

fn app() -> App {
    App::new(vec![item(1, 10, "a"), item(2, 20, "b"), item(1, 30, "c"), item(3, 40, "d")])
}

#[test]
fn filter_keeps_chosen_peer_in_order() {
    let mut a = app();
    a.in_bot = Some(1);
    a.cursor = Some(2);
    a.filter_items();
    let names: Vec<&str> = a.items.iter().map(|i| i.name.as_str()).collect();
    assert_eq!(names, vec!["a", "c"]);
    assert_eq!(a.cursor, None);
}

#[test]
fn cursor_wraps() {
    let mut a = app();
    a.next();
    assert_eq!(a.cursor, Some(0));
    a.previous();
    assert_eq!(a.cursor, Some(3));
    a.next();
    assert_eq!(a.cursor, Some(0));
}

#[test]
fn first_pick_fixes_peer() {
    let mut a = app();
    a.on_key(Key::Down);
    a.on_key(Key::Down);
    assert!(a.on_key(Key::Enter));
    assert_eq!(a.selected, vec![20]);
    assert_eq!(a.in_bot, Some(2));
    assert_eq!(a.items.len(), 1);
    a.on_key(Key::Down);
    a.on_key(Key::Enter);
    assert!(a.selected.is_empty());
}

#[test]
fn download_and_quit_end_the_list() {
    let mut a = app();
    a.on_key(Key::Down);
    a.on_key(Key::Enter);
    assert_eq!(a.chosen(), None);
    assert!(!a.on_key(Key::Download));
    assert_eq!(a.chosen(), Some((1, &vec![10])));
    let mut b = app();
    assert!(!b.on_key(Key::Quit));
    assert!(!b.download);
    assert!(b.on_key(Key::Other));
}

#[test]
fn non_moving_keys_keep_the_cursor() {
    let mut a = app();
    a.on_key(Key::Down);
    a.on_key(Key::Down);
    assert!(a.on_key(Key::Other));
    assert_eq!(a.cursor, Some(1));
    assert!(!a.on_key(Key::Quit));
    assert_eq!(a.cursor, Some(1));
    assert!(!a.on_key(Key::Download));
    assert_eq!(a.cursor, Some(1));
    assert!(a.download);
}

#[test]
fn picks_after_the_first_keep_the_peer() {
    let mut a = app();
    a.on_key(Key::Down);
    a.on_key(Key::Enter);
    assert_eq!(a.in_bot, Some(1));
    assert!(a.items.iter().all(|i| i.bot_id == 1));
    a.on_key(Key::Down);
    a.on_key(Key::Down);
    a.on_key(Key::Enter);
    assert_eq!(a.in_bot, Some(1));
    assert_eq!(a.selected, vec![10, 30]);
}
