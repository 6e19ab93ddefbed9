use cognitive_canvas::store::ConfigParser;

const HEADER: &str = "# Cognitive Canvas Configuration\n# This file stores user preferences in a simple key=value format\n# Lines starting with # are comments and will be ignored\n";

#[test]
fn test_config_parser() {
    let mut parser = ConfigParser::new("test_config.conf");

    // Loading a missing file first fills in the defaults and writes them;
    // here the written text is parsed straight back.
    parser.create_default_config();
    let created = parser.generate_content();
    assert!(parser.parse_content(&created).is_ok());

    assert_eq!(parser.get_bool("window_decorations"), Some(true));
    assert_eq!(parser.get_bool("window_maximized"), Some(true));
    assert_eq!(parser.get_bool("window_fullscreen"), Some(false));

    parser.set_bool("window_fullscreen", true);
    let saved = parser.generate_content();

    let mut parser2 = ConfigParser::new("test_config.conf");
    assert!(parser2.parse_content(&saved).is_ok());
    assert_eq!(parser2.get_bool("window_fullscreen"), Some(true));
}

#[test]
fn bool_coercion() {
    let mut p = ConfigParser::new("bools.conf");
    p.set("k", "TRUE");
    assert_eq!(p.get_bool("k"), Some(true));
    p.set("k", "1");
    assert_eq!(p.get_bool("k"), Some(true));
    p.set("k", "yes");
    assert_eq!(p.get_bool("k"), Some(true));
    p.set("k", "On");
    assert_eq!(p.get_bool("k"), Some(true));
    p.set("k", "FALSE");
    assert_eq!(p.get_bool("k"), Some(false));
    p.set("k", "0");
    assert_eq!(p.get_bool("k"), Some(false));
    p.set("k", "no");
    assert_eq!(p.get_bool("k"), Some(false));
    p.set("k", "Off");
    assert_eq!(p.get_bool("k"), Some(false));
    p.set("k", "maybe");
    assert_eq!(p.get_bool("k"), None);
    assert_eq!(p.get_bool("unset"), None);
}

#[test]
fn quote_stripping() {
    let mut p = ConfigParser::new("quotes.conf");
    assert!(p.parse_content("key=\"hello world\"").is_ok());
    assert_eq!(p.get("key"), Some(&"hello world".to_string()));
    assert!(p.parse_content("key='x'").is_ok());
    assert_eq!(p.get("key"), Some(&"x".to_string()));
    // mismatched quotes are left verbatim
    assert!(p.parse_content("key=\"x'").is_ok());
    assert_eq!(p.get("key"), Some(&"\"x'".to_string()));
}

#[test]
fn malformed_lines_tolerated() {
    let mut p = ConfigParser::new("messy.conf");
    assert!(p.parse_content("not a valid line\n=noKey\ngoodKey=1").is_ok());
    assert_eq!(p.get("goodKey"), Some(&"1".to_string()));
    assert_eq!(p.get("not a valid line"), None);
    // `=noKey` passes through as an entry under the empty key
    assert_eq!(p.get(""), Some(&"noKey".to_string()));
}

#[test]
fn comment_only_and_blank_lines_skipped() {
    let mut p = ConfigParser::new("sparse.conf");
    assert!(p.parse_content("# a note\n\n   \nk=v # inline\n").is_ok());
    assert_eq!(p.get("k"), Some(&"v".to_string()));
    assert_eq!(p.get("# a note"), None);
}

#[test]
fn round_trip_values_and_comments() {
    let mut p = ConfigParser::new("trip.conf");
    p.set("zeta", "26");
    p.set("alpha", "1");
    p.set_comment("alpha", "first letter");
    p.set("mid", "hello world");
    let text = p.generate_content();

    let mut q = ConfigParser::new("trip.conf");
    assert!(q.parse_content(&text).is_ok());
    assert_eq!(q.get("alpha"), Some(&"1".to_string()));
    assert_eq!(q.get("mid"), Some(&"hello world".to_string()));
    assert_eq!(q.get("zeta"), Some(&"26".to_string()));

    // the reconstructed store serializes to the same bytes
    assert_eq!(q.generate_content(), text);
    assert!(text.contains("alpha=1 # first letter"));
}

#[test]
fn save_twice_identical() {
    let mut p = ConfigParser::new("twice.conf");
    p.set("a", "1");
    p.set_comment("a", "note");
    let first = p.generate_content();
    let second = p.generate_content();
    assert_eq!(first, second);
}

#[test]
fn output_sorted_regardless_of_insertion_order() {
    let mut a = ConfigParser::new("order.conf");
    a.set("b", "2");
    a.set("a", "1");
    a.set("c", "3");
    let mut b = ConfigParser::new("order.conf");
    b.set("c", "3");
    b.set("a", "1");
    b.set("b", "2");
    assert_eq!(a.generate_content(), b.generate_content());

    let text = a.generate_content();
    let body: Vec<&str> = text.lines().skip(4).collect();
    assert_eq!(body, vec!["a=1", "b=2", "c=3"]);
}

#[test]
fn exact_serialized_form() {
    let mut p = ConfigParser::new("exact.conf");
    p.set("name", "value");
    p.set_comment("name", "note");
    let expected = format!("{}\nname=value # note", HEADER);
    assert_eq!(p.generate_content(), expected);
}

#[test]
fn empty_store_serializes_to_header_alone() {
    let p = ConfigParser::new("empty.conf");
    assert_eq!(p.generate_content(), HEADER);
}

#[test]
fn set_overwrites_and_get_reads_back() {
    let mut p = ConfigParser::new("basic.conf");
    assert_eq!(p.get("k"), None);
    p.set("k", "1");
    p.set("k", "2");
    assert_eq!(p.get("k"), Some(&"2".to_string()));
}

#[test]
fn comment_without_value_is_not_emitted() {
    let mut p = ConfigParser::new("orphan.conf");
    p.set_comment("ghostly", "no value here");
    assert_eq!(p.generate_content(), HEADER);
    p.set("ghostly", "now");
    assert!(p.generate_content().contains("ghostly=now # no value here"));
}

#[test]
fn default_creation() {
    let mut p = ConfigParser::new("fresh.conf");
    p.create_default_config();
    let written = p.generate_content();

    let mut q = ConfigParser::new("fresh.conf");
    assert!(q.parse_content(&written).is_ok());
    assert_eq!(q.get_bool("window_decorations"), Some(true));
    assert_eq!(q.get_bool("window_maximized"), Some(true));
    assert_eq!(q.get_bool("window_fullscreen"), Some(false));
    assert!(written.contains(
        "window_decorations=true # Show native window title bar and decorations"
    ));
    assert!(written.contains("window_maximized=true # Start window in maximized state"));
    assert!(written.contains(
        "window_fullscreen=false # Start window in fullscreen mode (overrides maximized)"
    ));
}

#[test]
fn end_to_end_window_settings() {
    // a fresh path: nothing on disk yet
    let mut disk: Option<String> = None;

    // first load: the file does not exist, so the defaults are created
    // and written out
    let mut store = ConfigParser::new("settings.conf");
    if disk.is_none() {
        store.create_default_config();
        disk = Some(store.generate_content());
    }
    assert!(store.parse_content(disk.as_ref().unwrap()).is_ok());
    assert_eq!(store.get_bool("window_fullscreen"), Some(false));

    store.set_bool("window_fullscreen", true);
    disk = Some(store.generate_content());

    // a new store instance at the same path sees the change
    let mut store2 = ConfigParser::new("settings.conf");
    assert!(store2.parse_content(disk.as_ref().unwrap()).is_ok());
    assert_eq!(store2.get_bool("window_fullscreen"), Some(true));
}
