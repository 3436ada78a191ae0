use iumenu::action::{find_executable, split_command};
use iumenu::args::{parse_arguments, ArgsError};
use iumenu::config::{Config, StyleConfig, WindowConfig};
use iumenu::desktop_entry::DesktopApp;
use iumenu::entry::AppEntry;

fn strings(items: &[&str]) -> Vec<String> {
    items.iter().map(|s| s.to_string()).collect()
}

#[test]
fn no_arguments_mean_no_config() {
    let args = parse_arguments(&Vec::new()).unwrap();
    assert!(args.config.is_none());
}

#[test]
fn short_and_long_config_options() {
    let args = parse_arguments(&strings(&["-c", "a.toml"])).unwrap();
    assert_eq!(args.config.as_deref(), Some("a.toml"));
    let args = parse_arguments(&strings(&["--config", "b.toml"])).unwrap();
    assert_eq!(args.config.as_deref(), Some("b.toml"));
    let args = parse_arguments(&strings(&["--config=c.toml"])).unwrap();
    assert_eq!(args.config.as_deref(), Some("c.toml"));
}

#[test]
fn inline_config_value_may_be_empty() {
    let args = parse_arguments(&strings(&["--config="])).unwrap();
    assert_eq!(args.config.as_deref(), Some(""));
}

#[test]
fn config_option_without_value_is_refused() {
    assert_eq!(parse_arguments(&strings(&["-c"])).unwrap_err(), ArgsError::MissingValue);
    assert_eq!(parse_arguments(&strings(&["--config"])).unwrap_err(), ArgsError::MissingValue);
}

#[test]
fn repeated_config_option_is_refused() {
    assert_eq!(
        parse_arguments(&strings(&["-c", "a", "--config", "b"])).unwrap_err(),
        ArgsError::DuplicateConfig
    );
    assert_eq!(
        parse_arguments(&strings(&["--config=a", "-c", "b"])).unwrap_err(),
        ArgsError::DuplicateConfig
    );
}

#[test]
fn unknown_argument_is_refused() {
    assert_eq!(parse_arguments(&strings(&["--verbose"])).unwrap_err(), ArgsError::UnknownArgument);
    assert_eq!(
        parse_arguments(&strings(&["-c", "a", "stray"])).unwrap_err(),
        ArgsError::UnknownArgument
    );
}

#[test]
fn split_command_separates_program_and_arguments() {
    let (program, rest) = split_command("firefox --new-window  https://example.org").unwrap();
    assert_eq!(program, "firefox");
    assert_eq!(rest, strings(&["--new-window", "https://example.org"]));
}

#[test]
fn split_command_of_single_word() {
    let (program, rest) = split_command("  nautilus  ").unwrap();
    assert_eq!(program, "nautilus");
    assert!(rest.is_empty());
}

#[test]
fn split_command_of_blank_line_is_none() {
    assert!(split_command("").is_none());
    assert!(split_command("   \t ").is_none());
    assert!(split_command("\u{000B}\u{00A0}\u{2003}").is_none());
}

#[test]
fn split_command_treats_unicode_whitespace_as_blank() {
    let (program, rest) = split_command("edit\u{00A0}notes.txt").unwrap();
    assert_eq!(program, "edit");
    assert_eq!(rest, strings(&["notes.txt"]));
}

#[test]
fn find_executable_picks_first_real_program() {
    let names = strings(&["readme.txt", "uninstall.exe", "tool-uninstaller.exe", "app.exe"]);
    assert_eq!(find_executable(&names).as_deref(), Some("app.exe"));
    assert!(find_executable(&strings(&["uninstall.exe", "notes.md"])).is_none());
    assert!(find_executable(&strings(&[".exe"])).is_none());
}

#[test]
fn config_defaults() {
    let window = WindowConfig::default();
    assert_eq!((window.width, window.height), (800, 400));
    let style = StyleConfig::default();
    assert!(style.path.is_none());
    assert_eq!(style.opacity, Some(1000));
    let config = Config::default();
    assert_eq!(config.window.unwrap().width, 800);
    assert_eq!(config.style.unwrap().opacity, Some(1000));
}

#[test]
fn app_entry_fills_missing_fields() {
    let entry = AppEntry::new(
        "ed".to_string(),
        "Editor".to_string(),
        "edit".to_string(),
        None,
        Some("text".to_string()),
    );
    assert_eq!(entry.icon, "");
    assert_eq!(entry.keywords, "text");

    let app = DesktopApp::new(
        "ed".to_string(),
        "Editor".to_string(),
        "An editor".to_string(),
        "edit".to_string(),
        "text".to_string(),
        "Application".to_string(),
        "Utility".to_string(),
        "editor-icon".to_string(),
        false,
        String::new(),
    );
    let entry = AppEntry::from_freedesktop(&app);
    assert_eq!(entry.id, "ed");
    assert_eq!(entry.name, "Editor");
    assert_eq!(entry.command, "edit");
    assert_eq!(entry.icon, "editor-icon");
    assert_eq!(entry.keywords, "text");
}

#[test]
fn file_stems() {
    assert_eq!(
        iumenu::text::file_stem_for("app.desktop", "desktop").as_deref(),
        Some("app")
    );
    assert_eq!(
        iumenu::text::file_stem_for("a.b.desktop", "desktop").as_deref(),
        Some("a.b")
    );
    assert!(iumenu::text::file_stem_for(".desktop", "desktop").is_none());
    assert!(iumenu::text::file_stem_for("desktop", "desktop").is_none());
    assert!(iumenu::text::file_stem_for("app.desktop.bak", "desktop").is_none());
}
