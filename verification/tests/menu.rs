use iumenu::app_map::AppMap;
use iumenu::desktop_entry::DesktopApp;
use iumenu::menu::{Action, IUMenu, KeyInput, Message};

fn app(id: &str, name: &str, keywords: &str) -> DesktopApp {
    DesktopApp::new(
        id.to_string(),
        name.to_string(),
        String::new(),
        format!("run-{}", id),
        keywords.to_string(),
        "Application".to_string(),
        "Utility".to_string(),
        String::new(),
        false,
        String::new(),
    )
}

fn menu_of(apps: Vec<DesktopApp>) -> IUMenu {
    let mut map = AppMap::new();
    for a in apps {
        map.insert(a);
    }
    IUMenu::new(map)
}

fn visible_ids(menu: &IUMenu) -> Vec<String> {
    menu.entries.iter().filter(|e| e.visible).map(|e| e.id.clone()).collect()
}

#[test]
fn new_sorts_by_name_case_insensitively() {
    let menu = menu_of(vec![
        app("cherry", "cherry", ""),
        app("apple", "Apple", ""),
        app("banana", "banana", ""),
    ]);
    let ids: Vec<String> = menu.entries.iter().map(|e| e.id.clone()).collect();
    assert_eq!(ids, vec!["apple", "banana", "cherry"]);
    assert!(menu.entries.iter().all(|e| e.visible));
    assert_eq!(menu.selected_index, 0);
    assert_eq!(menu.search_content, "");
}

#[test]
fn search_is_case_insensitive_on_name() {
    let mut menu = menu_of(vec![app("firefox", "Firefox", ""), app("gimp", "GIMP", "")]);
    let act = menu.update(Message::SearchChanged("FIRE".to_string()));
    assert!(matches!(act, Action::Idle));
    assert_eq!(visible_ids(&menu), vec!["firefox"]);
    assert_eq!(menu.search_content, "FIRE");
    assert_eq!(menu.selected_index, 0);
}

#[test]
fn search_matches_keywords() {
    let mut menu = menu_of(vec![
        app("firefox", "Firefox", "web;Browser"),
        app("gimp", "GIMP", "image editor"),
    ]);
    menu.update(Message::SearchChanged("browser".to_string()));
    assert_eq!(visible_ids(&menu), vec!["firefox"]);
}

#[test]
fn empty_search_shows_everything() {
    let mut menu = menu_of(vec![app("a", "Alpha", ""), app("b", "Beta", "")]);
    menu.update(Message::SearchChanged("eta".to_string()));
    assert_eq!(visible_ids(&menu), vec!["b"]);
    menu.update(Message::SearchChanged(String::new()));
    assert_eq!(visible_ids(&menu).len(), 2);
}

#[test]
fn search_resets_selection() {
    let mut menu = menu_of(vec![app("a", "Alpha", ""), app("b", "Beta", "")]);
    menu.update(Message::KeyPressed(KeyInput::ArrowDown));
    assert_eq!(menu.selected_index, 1);
    menu.update(Message::SearchChanged("a".to_string()));
    assert_eq!(menu.selected_index, 0);
}

#[test]
fn arrows_stay_inside_visible_rows() {
    let mut menu = menu_of(vec![app("a", "Alpha", ""), app("b", "Beta", ""), app("c", "Gamma", "")]);
    menu.update(Message::KeyPressed(KeyInput::ArrowUp));
    assert_eq!(menu.selected_index, 0);
    menu.update(Message::KeyPressed(KeyInput::ArrowDown));
    menu.update(Message::KeyPressed(KeyInput::ArrowDown));
    assert_eq!(menu.selected_index, 2);
    menu.update(Message::KeyPressed(KeyInput::ArrowDown));
    assert_eq!(menu.selected_index, 2);
    menu.update(Message::KeyPressed(KeyInput::ArrowUp));
    assert_eq!(menu.selected_index, 1);
}

#[test]
fn enter_launches_selected_visible_row() {
    let mut menu = menu_of(vec![app("a", "Alpha", ""), app("b", "Beta", "")]);
    menu.update(Message::KeyPressed(KeyInput::ArrowDown));
    let act = menu.update(Message::KeyPressed(KeyInput::Enter));
    match act {
        Action::Launch(launched) => assert_eq!(launched.command, "run-b"),
        _ => panic!("expected a launch"),
    }
}

#[test]
fn submit_with_no_match_is_idle() {
    let mut menu = menu_of(vec![app("a", "Alpha", "")]);
    menu.update(Message::SearchChanged("zzz".to_string()));
    let act = menu.update(Message::OnSubmit);
    assert!(matches!(act, Action::Idle));
}

#[test]
fn escape_quits_and_other_keys_do_nothing() {
    let mut menu = menu_of(vec![app("a", "Alpha", "")]);
    assert!(matches!(menu.update(Message::KeyPressed(KeyInput::Escape)), Action::Quit));
    assert!(matches!(menu.update(Message::KeyPressed(KeyInput::Other)), Action::Idle));
    assert_eq!(menu.selected_index, 0);
}

#[test]
fn equal_names_both_listed() {
    let menu = menu_of(vec![app("one", "Tool", ""), app("two", "tool", ""), app("zed", "Apple", "")]);
    let ids: Vec<String> = menu.entries.iter().map(|e| e.id.clone()).collect();
    assert_eq!(ids.len(), 3);
    assert_eq!(ids[0], "zed");
    assert!(ids[1..].contains(&"one".to_string()));
    assert!(ids[1..].contains(&"two".to_string()));
}

#[test]
fn click_keeps_the_menu_state() {
    let mut menu = menu_of(vec![app("a", "Alpha", ""), app("b", "Beta", "")]);
    menu.update(Message::KeyPressed(KeyInput::ArrowDown));
    menu.update(Message::ButtonClicked("a".to_string()));
    assert_eq!(menu.selected_index, 1);
    assert_eq!(menu.entries.len(), 2);
}

#[test]
fn click_launches_known_id_only() {
    let mut menu = menu_of(vec![app("a", "Alpha", "")]);
    match menu.update(Message::ButtonClicked("a".to_string())) {
        Action::Launch(launched) => assert_eq!(launched.id, "a"),
        _ => panic!("expected a launch"),
    }
    assert!(matches!(menu.update(Message::ButtonClicked("nope".to_string())), Action::Idle));
}
