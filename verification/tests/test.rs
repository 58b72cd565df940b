use configparser::ini::{Ini, IniDefault, WriteOptions};
use std::collections::HashSet;
use std::error::Error;

const TEST_INI: &str = "defaultvalues=defaultvalues
[topsecret]
KFC = the secret herb is orega-
        colon:value after colon
Empty string =
None string
Password=[in-brackets]
[ spacing ]
    indented=indented
not indented = not indented             ;testcomment
;modified comment
[values]#another comment
Bool = True
Boolcoerce = 0
Int = -31415
Uint = 31415
Float = 3.1415";

const TEST_MORE_INI: &str = "defaultvalues=overwritten
[topsecret]
KFC=redacted
[values]
Bool=False";

const TEST_MULTILINE_INI: &str = "[Section]
Key1=Value1
Key2=Value Two
Key3=this is a haiku
    spread across separate lines

    a single value
Key4=Four";

#[test]
fn non_cs() -> Result<(), Box<dyn Error>> {
    let mut config = Ini::new();
    let map = config.read(TEST_INI.to_owned())?;
    config.set_comment_symbols(&[';', '#', '!']);
    let inpstring = config.read(
        "defaultvalues=defaultvalues
		[topsecret]
		KFC = the secret herb is orega-
                colon:value after colon
		Empty string =
		None string
        Password=[in-brackets]
		[ spacing ]
			indented=indented
		not indented = not indented				;testcomment
		!modified comment
		[values]#another comment
		Bool = True
		Boolcoerce = 0
		Int = -31415
		Uint = 31415
		Float = 3.1415"
            .to_owned(),
    )?;
    assert_eq!(map, inpstring);
    config.set("DEFAULT", "defaultvalues", Some("notdefault".to_owned()));
    assert_eq!(
        config.get("DEFAULT", "defaultvalues").unwrap(),
        "notdefault"
    );
    config.setstr("DEFAULT", "defaultvalues", Some("defaultvalues"));
    assert_eq!(
        config.get("DEFAULT", "defaultvalues").unwrap(),
        "defaultvalues"
    );
    config.setstr("DEFAULT", "defaultvalues", None);
    let map2 = config.clone().read(config.writes())?;
    assert_eq!(map2, *config.get_map_ref());
    let map3 = config.clone().read(config.writes())?;
    assert_eq!(map2, map3);
    assert_eq!(config.sections().len(), 4);
    assert_eq!(config.get("DEFAULT", "defaultvalues"), None);
    assert_eq!(
        config.get("topsecret", "KFC").unwrap(),
        "the secret herb is orega-"
    );
    assert_eq!(config.get("topsecret", "Empty string").unwrap(), "");
    assert_eq!(config.get("topsecret", "None string"), None);
    assert_eq!(config.get("spacing", "indented").unwrap(), "indented");
    assert_eq!(
        config.get("spacing", "not indented").unwrap(),
        "not indented"
    );
    assert_eq!(
        config.get("topsecret", "colon").unwrap(),
        "value after colon"
    );
    assert!(config.getbool("values", "Bool")?.unwrap());
    assert!(!config.getboolcoerce("values", "Boolcoerce")?.unwrap());
    assert_eq!(config.getint("values", "Int")?.unwrap(), -31415);
    assert_eq!(config.getuint("values", "Uint")?.unwrap(), 31415);
    assert_eq!(
        config.get("values", "Float").unwrap().parse::<f64>()?,
        3.1415
    );
    assert_eq!(config.get("topsecret", "None string"), None);
    assert_eq!(
        map.get(&String::from("default"))
            .unwrap()
            .get(&String::from("defaultvalues"))
            .unwrap()
            .clone()
            .unwrap(),
        "defaultvalues"
    );
    assert_eq!(
        map.get(&String::from("topsecret"))
            .unwrap()
            .get(&String::from("kfc"))
            .unwrap()
            .clone()
            .unwrap(),
        "the secret herb is orega-"
    );
    assert_eq!(
        map.get(&String::from("topsecret"))
            .unwrap()
            .get(&String::from("empty string"))
            .unwrap()
            .clone()
            .unwrap(),
        ""
    );
    assert_eq!(
        map.get(&String::from("topsecret"))
            .unwrap()
            .get(&String::from("none string"))
            .unwrap(),
        &None
    );
    assert_eq!(
        map.get(&String::from("spacing"))
            .unwrap()
            .get(&String::from("indented"))
            .unwrap()
            .clone()
            .unwrap(),
        "indented"
    );
    assert_eq!(
        map.get(&String::from("spacing"))
            .unwrap()
            .get(&String::from("not indented"))
            .unwrap()
            .clone()
            .unwrap(),
        "not indented"
    );
    let mut config2 = config.clone();
    let val = config2.remove_key("default", "defaultvalues");
    assert_eq!(val, Some(None));
    assert_eq!(config2.get("default", "defaultvalues"), None);
    config2.remove_section("default");
    assert_eq!(config2.get("default", "nope"), None);
    config.set(
        "topsecret",
        "none string",
        Some(String::from("None string")),
    );
    assert_eq!(
        config
            .get_map_ref()
            .get(&String::from("topsecret"))
            .unwrap()
            .get(&String::from("none string"))
            .unwrap()
            .clone()
            .unwrap(),
        "None string"
    );
    config.get_mut_map().clear();
    config2.clear();
    assert_eq!(config.get_map_ref(), config2.get_map_ref());

    config.read(TEST_INI.to_owned())?;
    config.read_and_append("defaultvalues=somenewvalue".to_owned())?;
    assert_eq!(
        config.get("default", "defaultvalues").unwrap(),
        "somenewvalue"
    );
    assert_eq!(
        config.get("topsecret", "KFC").unwrap(),
        "the secret herb is orega-"
    );

    let mut config3 = config.clone();
    config3.get_mut_map().clear();
    config3.read(TEST_INI.to_owned())?;
    config3.read_and_append(TEST_MORE_INI.to_owned())?;
    assert_eq!(
        config3.get("default", "defaultvalues").unwrap(),
        "overwritten"
    );
    assert_eq!(config3.get("topsecret", "KFC").unwrap(), "redacted");
    // spacing -> indented exists in the first text, but not the second
    assert_eq!(config3.get("spacing", "indented").unwrap(), "indented");
    assert!(!config3.getbool("values", "Bool")?.unwrap());

    Ok(())
}

#[test]
fn cs() -> Result<(), Box<dyn Error>> {
    let mut config = Ini::new_cs();
    let map = config.read(TEST_INI.to_owned())?;
    config.set_comment_symbols(&[';', '#', '!']);
    let inpstring = config.read(
        "defaultvalues=defaultvalues
        [topsecret]
        KFC = the secret herb is orega-
                colon:value after colon
        Empty string =
        None string
        Password=[in-brackets]
        [ spacing ]
            indented=indented
        not indented = not indented             ;testcomment
        !modified comment
        [values]#another comment
        Bool = True
        Boolcoerce = 0
        Int = -31415
        Uint = 31415
        Float = 3.1415"
            .to_owned(),
    )?;
    assert_eq!(map, inpstring);
    config.set("default", "defaultvalues", Some("notdefault".to_owned()));
    assert_eq!(
        config.get("default", "defaultvalues").unwrap(),
        "notdefault"
    );
    config.setstr("default", "defaultvalues", Some("defaultvalues"));
    assert_eq!(
        config.get("default", "defaultvalues").unwrap(),
        "defaultvalues"
    );
    config.setstr("default", "defaultvalues", None);
    let map2 = config.clone().read(config.writes())?;
    assert_eq!(map2, *config.get_map_ref());
    let map3 = config.clone().read(config.writes())?;
    assert_eq!(map2, map3);
    assert_eq!(config.sections().len(), 4);
    assert_eq!(config.get("default", "defaultvalues"), None);
    assert_eq!(
        config.get("topsecret", "KFC").unwrap(),
        "the secret herb is orega-"
    );
    assert_eq!(config.get("topsecret", "Empty string").unwrap(), "");
    assert_eq!(config.get("topsecret", "None string"), None);
    assert_eq!(config.get("spacing", "indented").unwrap(), "indented");
    assert_eq!(
        config.get("spacing", "not indented").unwrap(),
        "not indented"
    );
    assert_eq!(
        config.get("topsecret", "colon").unwrap(),
        "value after colon"
    );
    assert!(config.getbool("values", "Bool")?.unwrap());
    assert!(!config.getboolcoerce("values", "Boolcoerce")?.unwrap());
    assert_eq!(config.getint("values", "Int")?.unwrap(), -31415);
    assert_eq!(config.getuint("values", "Uint")?.unwrap(), 31415);
    assert_eq!(
        config.get("values", "Float").unwrap().parse::<f64>()?,
        3.1415
    );
    assert_eq!(config.get("topsecret", "None string"), None);
    assert_eq!(
        map.get(&String::from("default"))
            .unwrap()
            .get(&String::from("defaultvalues"))
            .unwrap()
            .clone()
            .unwrap(),
        "defaultvalues"
    );
    assert_eq!(
        map.get(&String::from("topsecret"))
            .unwrap()
            .get(&String::from("KFC"))
            .unwrap()
            .clone()
            .unwrap(),
        "the secret herb is orega-"
    );
    assert_eq!(
        map.get(&String::from("topsecret"))
            .unwrap()
            .get(&String::from("Empty string"))
            .unwrap()
            .clone()
            .unwrap(),
        ""
    );
    assert_eq!(
        map.get(&String::from("topsecret"))
            .unwrap()
            .get(&String::from("None string"))
            .unwrap(),
        &None
    );
    assert_eq!(
        map.get(&String::from("spacing"))
            .unwrap()
            .get(&String::from("indented"))
            .unwrap()
            .clone()
            .unwrap(),
        "indented"
    );
    assert_eq!(
        map.get(&String::from("spacing"))
            .unwrap()
            .get(&String::from("not indented"))
            .unwrap()
            .clone()
            .unwrap(),
        "not indented"
    );
    let mut config2 = config.clone();
    let val = config2.remove_key("default", "defaultvalues");
    assert_eq!(val, Some(None));
    assert_eq!(config2.get("default", "defaultvalues"), None);
    config2.remove_section("default");
    assert_eq!(config2.get("default", "nope"), None);
    config.set(
        "topsecret",
        "none string",
        Some(String::from("None string")),
    );
    assert_eq!(
        config
            .get_map_ref()
            .get(&String::from("topsecret"))
            .unwrap()
            .get(&String::from("none string"))
            .unwrap()
            .clone()
            .unwrap(),
        "None string"
    );
    config.get_mut_map().clear();
    config2.clear();
    assert_eq!(config.get_map_ref(), config2.get_map_ref());
    Ok(())
}

#[test]
fn ensure_empty_sections_exist() -> Result<(), Box<dyn Error>> {
    const FILE_CONTENTS: &str = "
[basic_section]
basic_option=basic_value
[empty_section]
";

    let mut config = Ini::new();
    config.read(FILE_CONTENTS.to_owned())?;

    assert_eq!(
        HashSet::<String>::from_iter(config.sections().into_iter()),
        HashSet::from([String::from("basic_section"), String::from("empty_section")])
    );

    Ok(())
}

#[test]
fn inline_comment_symbols() -> Result<(), Box<dyn Error>> {
    const FILE_CONTENTS: &str = "
[basic_section]
; basic comment
 ; comment with space
! extra_comment=
basic_option=value
basic_with_comment=value ; Simple comment
basic_with_extra_inline=value ! comment
empty_option=
";

    let mut config = Ini::new();
    config.read(FILE_CONTENTS.to_owned())?;

    assert_eq!(
        config.get("basic_section", "basic_option"),
        Some(String::from("value"))
    );
    assert_eq!(
        config.get("basic_section", "basic_with_comment"),
        Some(String::from("value"))
    );
    assert_eq!(
        config.get("basic_section", "basic_with_extra_inline"),
        Some(String::from("value ! comment"))
    );
    assert_eq!(
        config.get("basic_section", "! extra_comment"),
        Some(String::from(""))
    );

    assert_eq!(
        config.get("basic_section", "empty_option"),
        Some(String::from(""))
    );

    config.set_inline_comment_symbols(Some(&['!']));

    config.read(FILE_CONTENTS.to_owned())?;

    assert_eq!(
        config.get("basic_section", "basic_option"),
        Some(String::from("value"))
    );
    assert_eq!(
        config.get("basic_section", "basic_with_comment"),
        Some(String::from("value ; Simple comment"))
    );
    assert_eq!(
        config.get("basic_section", "basic_with_extra_inline"),
        Some(String::from("value"))
    );

    config.set_inline_comment_symbols(Some(&[]));

    config.read(FILE_CONTENTS.to_owned())?;

    assert_eq!(
        config.get("basic_section", "basic_option"),
        Some(String::from("value"))
    );
    assert_eq!(
        config.get("basic_section", "basic_with_comment"),
        Some(String::from("value ; Simple comment"))
    );
    assert_eq!(
        config.get("basic_section", "basic_with_extra_inline"),
        Some(String::from("value ! comment"))
    );

    Ok(())
}

#[test]
fn sort_on_write() -> Result<(), Box<dyn Error>> {
    let mut config = Ini::new_cs();
    config.read(TEST_INI.to_owned())?;

    assert_eq!(
        config.writes(),
        "defaultvalues=defaultvalues
[topsecret]
KFC=the secret herb is orega-
colon=value after colon
Empty string=
None string
Password=[in-brackets]
[spacing]
indented=indented
not indented=not indented
[values]
Bool=True
Boolcoerce=0
Int=-31415
Uint=31415
Float=3.1415
"
    );

    Ok(())
}

#[test]
fn pretty_writes_result_is_formatted_correctly() -> Result<(), Box<dyn Error>> {
    const OUT_FILE_CONTENTS: &str = "defaultvalues=defaultvalues
[topsecret]
KFC=the secret herb is orega-
Empty string=
None string
Password=[in-brackets]
[Section]
Key1: Value1
Key2: this is a haiku
    spread across separate lines
    a single value
Key3: another value
";

    let mut ini_defaults = IniDefault::default();
    ini_defaults.case_sensitive = true;
    ini_defaults.multiline = true;
    let mut config = Ini::new_from_defaults(ini_defaults);
    config.read(OUT_FILE_CONTENTS.to_owned())?;

    let mut write_options = WriteOptions::default();
    write_options.space_around_delimiters = true;
    write_options.multiline_line_indentation = 2;
    write_options.blank_lines_between_sections = 1;
    assert_eq!(
        config.pretty_writes(&write_options),
        "defaultvalues = defaultvalues

[topsecret]
KFC = the secret herb is orega-
Empty string =
None string
Password = [in-brackets]

[Section]
Key1 = Value1
Key2 = this is a haiku
  spread across separate lines
  a single value
Key3 = another value
"
    );

    Ok(())
}

#[test]
fn multiline_off() -> Result<(), Box<dyn Error>> {
    let mut config = Ini::new_cs();
    config.read(TEST_MULTILINE_INI.to_owned())?;

    let map = config.get_map_ref();

    let section = map.get(&String::from("Section")).unwrap();

    assert_eq!(config.get("Section", "Key1").unwrap(), "Value1");
    assert_eq!(config.get("Section", "Key2").unwrap(), "Value Two");
    assert_eq!(config.get("Section", "Key3").unwrap(), "this is a haiku");
    assert!(section.contains_key(&String::from("spread across separate lines")));
    assert!(section.contains_key(&String::from("a single value")));

    assert_eq!(config.get("Section", "Key4").unwrap(), "Four");

    assert_eq!(
        config.writes(),
        "[Section]
Key1=Value1
Key2=Value Two
Key3=this is a haiku
spread across separate lines
a single value
Key4=Four
"
    );

    Ok(())
}

#[test]
fn multiline_on() -> Result<(), Box<dyn Error>> {
    let mut config = Ini::new_cs();
    config.set_multiline(true);
    config.read(TEST_MULTILINE_INI.to_owned())?;

    assert_eq!(config.get("Section", "Key1").unwrap(), "Value1");
    assert_eq!(config.get("Section", "Key2").unwrap(), "Value Two");
    assert_eq!(
        config.get("Section", "Key3").unwrap(),
        "this is a haiku\nspread across separate lines\n\na single value"
    );
    assert_eq!(config.get("Section", "Key4").unwrap(), "Four");

    assert_eq!(
        config.writes(),
        "[Section]
Key1=Value1
Key2=Value Two
Key3=this is a haiku
    spread across separate lines

    a single value
Key4=Four
"
    );

    Ok(())
}
