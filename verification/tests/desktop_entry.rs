use iumenu::desktop_entry::{
    clean_exec, get_available_apps, is_in_show_in, parse_desktop_file, read_desktop_files,
    should_show, DesktopApp, DesktopFile,
};
use iumenu::app_map::AppMap;

fn sample_app(id: &str, name: &str) -> DesktopApp {
    DesktopApp::new(
        id.to_string(),
        name.to_string(),
        String::new(),
        format!("{} --run", id),
        String::new(),
        "Application".to_string(),
        "Utility".to_string(),
        String::new(),
        false,
        String::new(),
    )
}

#[test]
fn parse_full_entry() {
    let content = "[Desktop Entry]\n\
                   Name=Firefox\n\
                   Comment=Browse the web\n\
                   Icon=firefox\n\
                   Type=Application\n\
                   Categories=Network;WebBrowser;\n\
                   Keywords=web;browser;internet\n\
                   OnlyShowIn=GNOME;KDE;\n\
                   NoDisplay=true\n\
                   Exec=firefox %U\n";
    let app = parse_desktop_file(content, "firefox".to_string()).unwrap();
    assert_eq!(app.id, "firefox");
    assert_eq!(app.name, "Firefox");
    assert_eq!(app.comment, "Browse the web");
    assert_eq!(app.icon, "firefox");
    assert_eq!(app.app_type, "Application");
    assert_eq!(app.categories, "Network;WebBrowser;");
    assert_eq!(app.keywords, "web;browser;internet");
    assert_eq!(app.only_show_in, "GNOME;KDE;");
    assert!(app.no_display);
    assert_eq!(app.command, "firefox");
}

#[test]
fn parse_defaults() {
    let app = parse_desktop_file("[Desktop Entry]\n", "x".to_string()).unwrap();
    assert_eq!(app.name, "Unknown");
    assert_eq!(app.comment, "");
    assert_eq!(app.icon, "");
    assert_eq!(app.app_type, "");
    assert_eq!(app.categories, "Unknown");
    assert_eq!(app.keywords, "");
    assert_eq!(app.only_show_in, "");
    assert!(!app.no_display);
    assert_eq!(app.command, "");
}

#[test]
fn parse_without_section_is_none() {
    assert!(parse_desktop_file("Name=Firefox\n", "x".to_string()).is_none());
    assert!(parse_desktop_file("", "x".to_string()).is_none());
    assert!(parse_desktop_file("[Other Section]\nName=No\n", "x".to_string()).is_none());
}

#[test]
fn parse_ignores_comments_and_other_sections() {
    let content = "# a comment\n\
                   ; another comment\n\
                   \n\
                   [Other]\n\
                   Name=Wrong\n\
                   [Desktop Entry]\n\
                   Name = Padded \n\
                   [Trailer]\n\
                   Comment=Elsewhere\n";
    let app = parse_desktop_file(content, "x".to_string()).unwrap();
    assert_eq!(app.name, "Padded");
    assert_eq!(app.comment, "");
}

#[test]
fn parse_crlf_line_endings() {
    let content = "[Desktop Entry]\r\nName=Tool\r\nExec=tool %F\r\n";
    let app = parse_desktop_file(content, "tool".to_string()).unwrap();
    assert_eq!(app.name, "Tool");
    assert_eq!(app.command, "tool");
}

#[test]
fn parse_first_assignment_wins() {
    let content = "[Desktop Entry]\nName=First\nName=Second\n";
    let app = parse_desktop_file(content, "x".to_string()).unwrap();
    assert_eq!(app.name, "First");
}

#[test]
fn clean_exec_removes_placeholders_and_trims() {
    assert_eq!(clean_exec("firefox %U"), "firefox");
    assert_eq!(clean_exec("  code  %F  "), "code");
    assert_eq!(clean_exec("a %U b"), "a  b");
    assert_eq!(clean_exec("%u%f%i%c%k"), "");
    assert_eq!(clean_exec("plain"), "plain");
}

#[test]
fn clean_exec_trims_all_unicode_whitespace() {
    assert_eq!(clean_exec("a\u{000B}"), "a");
    assert_eq!(clean_exec("\u{00A0}tool\u{2028}"), "tool");
    assert_eq!(clean_exec("\u{3000}run %u\u{205F}"), "run");
    assert_eq!(clean_exec("\u{000B}"), "");
}

#[test]
fn show_in_rules() {
    assert!(is_in_show_in(&String::new(), &None));
    assert!(is_in_show_in(&String::new(), &Some("GNOME".to_string())));
    assert!(is_in_show_in(&";;".to_string(), &Some("GNOME".to_string())));
    assert!(is_in_show_in(&"GNOME;KDE;".to_string(), &Some("KDE".to_string())));
    assert!(!is_in_show_in(&"GNOME;KDE;".to_string(), &Some("XFCE".to_string())));
    assert!(is_in_show_in(&"GNOME;KDE;".to_string(), &None));
}

#[test]
fn suppression_rules() {
    let shown = sample_app("a", "A");
    assert!(!should_show(&shown, &None));

    let mut not_app = sample_app("a", "A");
    not_app.app_type = "Link".to_string();
    assert!(should_show(&not_app, &None));

    let mut hidden = sample_app("a", "A");
    hidden.no_display = true;
    assert!(should_show(&hidden, &None));

    let mut elsewhere = sample_app("a", "A");
    elsewhere.only_show_in = "KDE;".to_string();
    assert!(should_show(&elsewhere, &Some("GNOME".to_string())));
    assert!(!should_show(&elsewhere, &Some("KDE".to_string())));
}

fn desktop_file(name: &str, body: &str) -> DesktopFile {
    DesktopFile::new(name.to_string(), body.to_string())
}

#[test]
fn read_files_filters_and_overwrites() {
    let files = vec![
        desktop_file(
            "editor.desktop",
            "[Desktop Entry]\nName=Old Editor\nType=Application\nExec=edit-old\n",
        ),
        desktop_file("notes.txt", "[Desktop Entry]\nName=Not A Desktop File\nType=Application\n"),
        desktop_file("broken.desktop", "Name=No Section\n"),
        desktop_file(
            "hidden.desktop",
            "[Desktop Entry]\nName=Hidden\nType=Application\nNoDisplay=true\n",
        ),
        desktop_file("link.desktop", "[Desktop Entry]\nName=A Link\nType=Link\n"),
        desktop_file(
            "editor.desktop",
            "[Desktop Entry]\nName=New Editor\nType=Application\nExec=edit %F\n",
        ),
    ];
    let map = read_desktop_files(&files, &None);
    assert_eq!(map.len(), 1);
    let app = map.get("editor").unwrap();
    assert_eq!(app.name, "New Editor");
    assert_eq!(app.command, "edit");
    assert!(map.get("notes").is_none());
    assert!(map.get("broken").is_none());
    assert!(map.get("hidden").is_none());
    assert!(map.get("link").is_none());
}

#[test]
fn read_files_respects_current_desktop() {
    let files = vec![desktop_file(
        "tool.desktop",
        "[Desktop Entry]\nName=Tool\nType=Application\nOnlyShowIn=KDE;\n",
    )];
    assert_eq!(read_desktop_files(&files, &Some("KDE".to_string())).len(), 1);
    assert_eq!(read_desktop_files(&files, &Some("GNOME".to_string())).len(), 0);
    assert_eq!(read_desktop_files(&files, &None).len(), 1);
}

#[test]
fn map_insert_overwrites_same_id() {
    let mut map = AppMap::new();
    map.insert(sample_app("a", "First"));
    map.insert(sample_app("b", "Other"));
    map.insert(sample_app("a", "Second"));
    assert_eq!(map.len(), 2);
    assert_eq!(map.get("a").unwrap().name, "Second");
    assert_eq!(map.get("b").unwrap().name, "Other");
    assert!(map.get("c").is_none());
}

#[test]
fn merge_prefers_later_source() {
    let mut system = AppMap::new();
    system.insert(sample_app("term", "System Terminal"));
    system.insert(sample_app("files", "System Files"));
    let mut local = AppMap::new();
    local.insert(sample_app("term", "Local Terminal"));
    let mut user = AppMap::new();
    user.insert(sample_app("files", "User Files"));
    user.insert(sample_app("notes", "User Notes"));

    let merged = get_available_apps(&system, &local, &user);
    assert_eq!(merged.len(), 3);
    assert_eq!(merged.get("term").unwrap().name, "Local Terminal");
    assert_eq!(merged.get("files").unwrap().name, "User Files");
    assert_eq!(merged.get("notes").unwrap().name, "User Notes");
}
