use cognitive_canvas::document::default_document_filename;
use cognitive_canvas::settings::settings_from_store;
use cognitive_canvas::settings::settings_to_store;
use cognitive_canvas::settings::Settings;
use cognitive_canvas::shortcuts::shortcuts_from_store;
use cognitive_canvas::shortcuts::shortcuts_to_store;
use cognitive_canvas::shortcuts::Shortcuts;
use cognitive_canvas::store::ConfigParser;

#[test]
fn settings_defaults() {
    let s = Settings::default();
    assert!(s.window_decorations);
    assert!(s.window_maximized);
    assert!(!s.window_fullscreen);
}

#[test]
fn settings_from_empty_store_are_defaults() {
    let store = ConfigParser::new("settings.conf");
    let s = settings_from_store(&store);
    assert_eq!(s, Settings::default());
}

#[test]
fn settings_read_stored_booleans() {
    let mut store = ConfigParser::new("settings.conf");
    assert!(store
        .parse_content("window_decorations=off\nwindow_fullscreen=YES\nwindow_maximized=garbage")
        .is_ok());
    let s = settings_from_store(&store);
    assert!(!s.window_decorations);
    assert!(s.window_maximized); // non-boolean text falls back to the default
    assert!(s.window_fullscreen);
}

#[test]
fn settings_save_preserves_foreign_keys() {
    let mut store = ConfigParser::new("settings.conf");
    assert!(store.parse_content("custom=keep me # hand-added note").is_ok());
    settings_to_store(&mut store, &Settings::default());
    let text = store.generate_content();
    assert!(text.contains("custom=keep me # hand-added note"));
    assert!(text.contains("window_decorations=true"));
    assert!(text.contains("window_maximized=true"));
    assert!(text.contains("window_fullscreen=false"));
}

#[test]
fn shortcuts_default() {
    assert_eq!(Shortcuts::default().command_palette, "Cmd+P");
}

#[test]
fn shortcuts_from_empty_store_is_default() {
    let store = ConfigParser::new("shortcuts.conf");
    assert_eq!(shortcuts_from_store(&store).command_palette, "Cmd+P");
}

#[test]
fn shortcuts_blank_value_falls_back_to_default() {
    let mut store = ConfigParser::new("shortcuts.conf");
    store.set("command_palette", "   ");
    assert_eq!(shortcuts_from_store(&store).command_palette, "Cmd+P");
    store.set("command_palette", "");
    assert_eq!(shortcuts_from_store(&store).command_palette, "Cmd+P");
    store.set("command_palette", "Ctrl+Shift+P");
    assert_eq!(shortcuts_from_store(&store).command_palette, "Ctrl+Shift+P");
}

#[test]
fn shortcut_comment_reasserted_on_save() {
    let mut store = ConfigParser::new("shortcuts.conf");
    assert!(store.parse_content("command_palette=Ctrl+K # user note").is_ok());
    let s = shortcuts_from_store(&store);
    assert_eq!(s.command_palette, "Ctrl+K");

    shortcuts_to_store(&mut store, &s);
    let text = store.generate_content();
    assert!(text
        .lines()
        .any(|l| l == "command_palette=Ctrl+K # Open the command palette"));
    assert!(!text.contains("user note"));
}

#[test]
fn default_filename_sanitizes_title() {
    assert_eq!(default_document_filename("My Doc: v2!"), "My_Doc_v2.canvas");
    assert_eq!(default_document_filename("plain"), "plain.canvas");
    assert_eq!(default_document_filename(""), ".canvas");
    assert_eq!(default_document_filename("a-b_c 7"), "a-b_c_7.canvas");
    // non-ASCII letters count as alphanumeric and are kept
    assert_eq!(default_document_filename("héllo"), "héllo.canvas");
    assert_eq!(default_document_filename("??!"), ".canvas");
}
