use configparser::ini::{Ini, IniDefault, WriteOptions};

#[test]
fn round_trip_reparses_to_same_tree() {
    let mut config = Ini::new();
    config
        .read(
            "top=1
[alpha]
password=[in-brackets]
empty =
bare key
[beta]
x = a=b
"
            .to_owned(),
        )
        .unwrap();
    let before = config.get_map_ref().clone();
    let text = config.writes();
    let mut again = Ini::new();
    let after = again.read(text).unwrap();
    assert_eq!(before, after);
}

#[test]
fn round_trip_multiline_and_pretty() {
    let mut defaults = IniDefault::default();
    defaults.multiline = true;
    let mut config = Ini::new_from_defaults(defaults.clone());
    config
        .read("key: line1\n    line2\n\n    line3\n[s]\nk=v".to_owned())
        .unwrap();
    let before = config.get_map_ref().clone();

    let compact = config.writes();
    let mut c2 = Ini::new_from_defaults(defaults.clone());
    assert_eq!(c2.read(compact).unwrap(), before);

    let wo = WriteOptions::new_with_params(true, 2, 3);
    let pretty = config.pretty_writes(&wo);
    let mut c3 = Ini::new_from_defaults(defaults);
    assert_eq!(c3.read(pretty).unwrap(), before);
}

#[test]
fn case_insensitive_get() {
    let mut config = Ini::new();
    config.read("[SectioN]\nKeY=Value".to_owned()).unwrap();
    assert_eq!(config.get("SECTION", "KEY"), Some("Value".to_owned()));
    assert_eq!(config.get("section", "key"), Some("Value".to_owned()));
    assert_eq!(config.get("SeCtIoN", "kEy"), Some("Value".to_owned()));
}

#[test]
fn case_sensitive_get_keeps_case() {
    let mut config = Ini::new_cs();
    config.read("[SectioN]\nKeY=Value".to_owned()).unwrap();
    assert_eq!(config.get("SectioN", "KeY"), Some("Value".to_owned()));
    assert_eq!(config.get("section", "key"), None);
}

#[test]
fn last_write_wins_across_repeated_sections() {
    let mut config = Ini::new();
    config.read("[a]\nk=1\n[a]\nk=2".to_owned()).unwrap();
    assert_eq!(config.get("a", "k"), Some("2".to_owned()));
    assert_eq!(config.sections().len(), 1);
}

#[test]
fn last_write_wins_within_section() {
    let mut config = Ini::new();
    config.read("[a]\nk=1\nk=2".to_owned()).unwrap();
    assert_eq!(config.get("a", "k"), Some("2".to_owned()));
}

#[test]
fn valueless_vs_missing() {
    let mut config = Ini::new();
    config.read("foo".to_owned()).unwrap();
    assert_eq!(config.get("default", "foo"), None);
    let entry = config
        .get_map_ref()
        .get(&String::from("default"))
        .unwrap()
        .get(&String::from("foo"));
    assert_eq!(entry, Some(&None));
    assert_eq!(
        config
            .get_map_ref()
            .get(&String::from("default"))
            .unwrap()
            .get(&String::from("bar")),
        None
    );
}

#[test]
fn empty_section_persists() {
    let mut config = Ini::new();
    config.read("[a]\nk=v\n[b]\n".to_owned()).unwrap();
    let sections = config.sections();
    assert!(sections.contains(&String::from("a")));
    assert!(sections.contains(&String::from("b")));
    assert_eq!(
        config
            .get_map_ref()
            .get(&String::from("b"))
            .unwrap()
            .len(),
        0
    );
}

#[test]
fn merge_overwrites_and_keeps() {
    let mut config = Ini::new();
    config.read("[s]\nk=1".to_owned()).unwrap();
    config.read_and_append("[s]\nk=2\nj=3".to_owned()).unwrap();
    assert_eq!(config.get("s", "k"), Some("2".to_owned()));
    assert_eq!(config.get("s", "j"), Some("3".to_owned()));
}

#[test]
fn merge_keeps_untouched_sections() {
    let mut config = Ini::new();
    config.read("[s]\nk=1\n[t]\nm=4".to_owned()).unwrap();
    config.read_and_append("[s]\nk=2\n[u]\n".to_owned()).unwrap();
    assert_eq!(config.get("s", "k"), Some("2".to_owned()));
    assert_eq!(config.get("t", "m"), Some("4".to_owned()));
    assert!(config.sections().contains(&String::from("u")));
}

#[test]
fn boolean_coercion() {
    let mut config = Ini::new();
    config
        .read("[v]\nzero=0\nmaybe=maybe\nony=ON\ntee=T".to_owned())
        .unwrap();
    assert_eq!(config.getboolcoerce("v", "zero"), Ok(Some(false)));
    assert_eq!(config.getboolcoerce("v", "ony"), Ok(Some(true)));
    assert_eq!(config.getboolcoerce("v", "tee"), Ok(Some(true)));
    assert!(config.getboolcoerce("v", "maybe").is_err());
    assert_eq!(config.getboolcoerce("v", "absent"), Ok(None));
}

#[test]
fn strict_bool() {
    let mut config = Ini::new();
    config
        .read("[v]\nyes=TRUE\nno=False\ncoerce=yes\nnone\n".to_owned())
        .unwrap();
    assert_eq!(config.getbool("v", "yes"), Ok(Some(true)));
    assert_eq!(config.getbool("v", "no"), Ok(Some(false)));
    assert_eq!(
        config.getbool("v", "coerce"),
        Err(String::from("Unable to parse value into bool at v:coerce"))
    );
    assert_eq!(config.getbool("v", "none"), Ok(None));
    assert_eq!(config.getbool("v", "gone"), Ok(None));
}

#[test]
fn bracket_in_value() {
    let mut config = Ini::new();
    config.read("password=[in-brackets]".to_owned()).unwrap();
    assert_eq!(
        config.get("default", "password"),
        Some("[in-brackets]".to_owned())
    );
    assert_eq!(config.sections(), vec![String::from("default")]);
}

#[test]
fn inline_comment_configurations() {
    let line = "basic_with_extra_inline=value ! comment".to_owned();

    let mut with_bang = Ini::new();
    with_bang.set_inline_comment_symbols(Some(&['!']));
    with_bang.read(line.clone()).unwrap();
    assert_eq!(
        with_bang.get("default", "basic_with_extra_inline"),
        Some("value".to_owned())
    );

    let mut disabled = Ini::new();
    disabled.set_inline_comment_symbols(Some(&[]));
    disabled.read(line).unwrap();
    assert_eq!(
        disabled.get("default", "basic_with_extra_inline"),
        Some("value ! comment".to_owned())
    );
}

#[test]
fn multiline_joins_with_blank_lines() {
    let mut config = Ini::new();
    config.set_multiline(true);
    config
        .read("key: line1\n    line2\n\n    line3".to_owned())
        .unwrap();
    assert_eq!(
        config.get("default", "key"),
        Some("line1\nline2\n\nline3".to_owned())
    );
}

#[test]
fn unclosed_bracket_is_an_error() {
    let mut config = Ini::new();
    let before = config.get_map_ref().clone();
    let r = config.read("k=v\n[broken".to_owned());
    assert_eq!(
        r,
        Err(String::from(
            "line 1: Found opening bracket for section name but no closing bracket"
        ))
    );
    // the store is untouched on a failed parse
    assert_eq!(*config.get_map_ref(), before);
}

#[test]
fn empty_key_is_an_error() {
    let mut config = Ini::new();
    let r = config.read("=value".to_owned());
    assert_eq!(r, Err(String::from("line 0:0: Key cannot be empty")));
}

#[test]
fn indent_without_entry_is_an_error() {
    let mut config = Ini::new();
    config.set_multiline(true);
    let r = config.read("    dangling".to_owned());
    assert_eq!(
        r,
        Err(String::from(
            "line 0: Started with indentation but there is no current entry"
        ))
    );
}

#[test]
fn integer_getters_and_limits() {
    let mut config = Ini::new();
    config
        .read(
            "[n]
min=-9223372036854775808
max=9223372036854775807
umax=18446744073709551615
plus=+42
huge=99999999999999999999999
bad=4x2
blank
"
            .to_owned(),
        )
        .unwrap();
    assert_eq!(config.getint("n", "min"), Ok(Some(i64::MIN)));
    assert_eq!(config.getint("n", "max"), Ok(Some(i64::MAX)));
    assert_eq!(config.getuint("n", "umax"), Ok(Some(u64::MAX)));
    assert_eq!(config.getint("n", "plus"), Ok(Some(42)));
    assert_eq!(config.getuint("n", "plus"), Ok(Some(42)));
    assert!(config.getint("n", "huge").is_err());
    assert!(config.getuint("n", "huge").is_err());
    assert!(config.getint("n", "bad").is_err());
    assert!(config.getuint("n", "min").is_err());
    assert_eq!(config.getint("n", "blank"), Ok(None));
    assert_eq!(config.getint("n", "absent"), Ok(None));
    assert_eq!(config.getuint("n", "max"), Ok(Some(9223372036854775807)));
}

#[test]
fn set_and_remove() {
    let mut config = Ini::new();
    config.read("[section]\nkey=value".to_owned()).unwrap();
    let old = config.set("SECTION", "KEY", Some("other".to_owned()));
    assert_eq!(old, Some(Some("value".to_owned())));
    assert_eq!(config.get("section", "key"), Some("other".to_owned()));
    assert_eq!(config.setstr("fresh", "a", Some("1")), None);
    assert_eq!(config.get("fresh", "a"), Some("1".to_owned()));
    assert_eq!(
        config.remove_key("section", "key"),
        Some(Some("other".to_owned()))
    );
    assert_eq!(config.remove_key("section", "key"), None);
    let removed = config.remove_section("fresh");
    assert!(removed.is_some());
    assert_eq!(removed.unwrap().len(), 1);
    assert_eq!(config.remove_section("fresh"), None);
    config.clear();
    assert!(config.get_map_ref().is_empty());
    assert_eq!(config.get_map(), None);
}

#[test]
fn default_section_is_configurable() {
    let mut config = Ini::new();
    config.set_default_section("Top");
    config.read("x=1".to_owned()).unwrap();
    // the configured name is itself case-folded
    assert_eq!(config.sections(), vec![String::from("top")]);
    assert_eq!(config.get("top", "x"), Some("1".to_owned()));
    assert_eq!(config.get("Top", "x"), Some("1".to_owned()));
}

#[test]
fn defaults_round_trip() {
    let mut defaults = IniDefault::default();
    assert_eq!(defaults.default_section, "default");
    assert_eq!(defaults.comment_symbols, vec![';', '#']);
    assert_eq!(defaults.inline_comment_symbols, None);
    assert_eq!(defaults.delimiters, vec!['=', ':']);
    assert!(!defaults.case_sensitive);
    assert!(!defaults.multiline);
    defaults.case_sensitive = true;
    defaults.multiline = true;
    let mut config = Ini::new();
    config.load_defaults(defaults.clone());
    assert_eq!(config.defaults(), defaults);
}

#[test]
fn write_options_constructors() {
    let wo = WriteOptions::new();
    assert!(!wo.space_around_delimiters);
    assert_eq!(wo.multiline_line_indentation, 4);
    assert_eq!(wo.blank_lines_between_sections, 0);
    let wo2 = WriteOptions::new_with_params(true, 2, 1);
    assert!(wo2.space_around_delimiters);
    assert_eq!(wo2.multiline_line_indentation, 2);
    assert_eq!(wo2.blank_lines_between_sections, 1);
}

#[test]
fn blank_lines_between_sections_are_written() {
    let mut config = Ini::new();
    config.read("[a]\nk=v\n[b]\nm=w".to_owned()).unwrap();
    let wo = WriteOptions::new_with_params(false, 4, 2);
    assert_eq!(config.pretty_writes(&wo), "[a]\nk=v\n\n\n[b]\nm=w\n");
}

#[test]
fn lowercasing_applies_to_sections_and_keys_not_values() {
    let mut config = Ini::new();
    config.read("[Mixed Case]\nSome Key=Some Value".to_owned()).unwrap();
    assert_eq!(config.sections(), vec![String::from("mixed case")]);
    assert_eq!(
        config
            .get_map_ref()
            .get(&String::from("mixed case"))
            .unwrap()
            .key_at(0),
        "some key"
    );
    assert_eq!(config.get("mixed case", "some key"), Some("Some Value".to_owned()));
}

#[test]
fn empty_value_distinct_from_valueless() {
    let mut config = Ini::new();
    config.read("with=\nwithout".to_owned()).unwrap();
    assert_eq!(config.get("default", "with"), Some(String::new()));
    assert_eq!(config.get("default", "without"), None);
    assert_eq!(config.writes(), "with=\nwithout\n");
}

#[test]
fn round_trip_case_sensitive_exact() {
    // mirrors the proved law: case-sensitive options, default section first
    let mut config = Ini::new_cs();
    config.set_multiline(true);
    config
        .read(
            "Top=1
[Alpha]
Password=[in-brackets]
Empty =
Bare Key
Tale: first
    second

    third
[Beta]
X = a=b"
                .to_owned(),
        )
        .unwrap();
    let before = config.get_map_ref().clone();
    let text = config.writes();
    let mut again = Ini::new_cs();
    again.set_multiline(true);
    assert_eq!(again.read(text).unwrap(), before);

    let wo = WriteOptions::new_with_params(true, 3, 2);
    let pretty = config.pretty_writes(&wo);
    let mut third = Ini::new_cs();
    third.set_multiline(true);
    assert_eq!(third.read(pretty).unwrap(), before);
}

#[test]
fn inline_comment_only_line_is_blank() {
    let mut config = Ini::new();
    config.set_inline_comment_symbols(Some(&['!']));
    config.read("! whole line".to_owned()).unwrap();
    assert!(config.sections().is_empty());
    assert!(config.get_map_ref().is_empty());

    // with multiline on, such a line counts as a pending blank line
    let mut ml = Ini::new();
    ml.set_multiline(true);
    ml.set_inline_comment_symbols(Some(&['!']));
    ml.read("k: a\n!comment\n    b".to_owned()).unwrap();
    assert_eq!(ml.get("default", "k"), Some("a\n\nb".to_owned()));
}
