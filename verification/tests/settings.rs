//! The configuration file: reading, setting and listing dotted keys.

use taska::config::Config;
use taska::model::TaskState;
use taska::settings::{
    accept_set, flatten, get, known_key, list, parse_config_value, set_dotted, show_config_value,
    shown_value,
};
use taska::strmap::StrMap;

const BLOCKER: &str = "needs";
const BLOCKER_INV: &str = "needed_by";
const STATUS_FIELD: &str = "state";

fn coerces_by_toml_grammar() {
    // Integers, bools and arrays parse to their TOML types; a bare word that
    // isn't valid TOML falls back to a string.
    assert!(parse_config_value("100").is_integer());
    assert!(parse_config_value("true").is_bool());
    assert!(parse_config_value(r#"["a","b"]"#).is_array());
    assert!(parse_config_value("open").is_str(), "bare word -> string");
    assert_eq!(parse_config_value("open").as_str(), Some("open"));
}

#[test]
fn config_config_value_parsing_coerces_by_toml_grammar() {
    coerces_by_toml_grammar();
}

#[test]
fn cli_config_value_parsing_coerces_by_toml_grammar() {
    coerces_by_toml_grammar();
}

fn read(text: &str) -> toml::Value {
    toml::Value::Table(text.parse::<toml::Table>().unwrap())
}

fn updates_in_place_and_creates_nested_tables() {
    let mut doc = "[compaction]\n# keep comment\nkeep_events = 1000\n"
        .parse::<toml_edit::DocumentMut>()
        .unwrap();
    // Update an existing key: value changes, the comment survives.
    set_dotted(&mut doc, "compaction.keep_events", parse_config_value("200")).unwrap();
    let text = doc.to_string();
    assert!(text.contains("keep_events = 200"), "updated: {text}");
    assert!(text.contains("# keep comment"), "comment preserved: {text}");

    // A brand-new dotted path creates the intermediate table.
    set_dotted(&mut doc, "display.column_max_width.title", parse_config_value("80")).unwrap();
    let cfg = read(&doc.to_string());
    assert_eq!(cfg["display"]["column_max_width"]["title"].as_integer(), Some(80));

    // An empty key segment is rejected rather than producing a bogus table.
    assert!(set_dotted(&mut doc, "display..title", parse_config_value("1")).is_err());
}

#[test]
fn config_set_dotted_updates_in_place_and_creates_nested_tables() {
    updates_in_place_and_creates_nested_tables();
}

#[test]
fn cli_set_dotted_updates_in_place_and_creates_nested_tables() {
    updates_in_place_and_creates_nested_tables();
}

#[test]
fn set_dotted_descends_into_inline_tables() {
    // A dotted set must walk INTO inline tables and keep the inline style.
    let doc_str = format!(
        "[display]\ncolumn_max_width = {{ title = 80 }}\n\
         [relationships]\n{BLOCKER} = {{ kind = \"blocker\", inverse = \"{BLOCKER_INV}\" }}\n"
    );
    let mut doc = doc_str.parse::<toml_edit::DocumentMut>().unwrap();
    set_dotted(&mut doc, "display.column_max_width.title", parse_config_value("120")).unwrap();
    set_dotted(
        &mut doc,
        &format!("relationships.{BLOCKER}.kind"),
        parse_config_value("\"hierarchy\""),
    )
    .unwrap();
    let text = doc.to_string();
    assert!(
        text.contains("column_max_width = { title = 120 }"),
        "updated in place, still inline: {text}"
    );
    let cfg = read(&text);
    assert_eq!(cfg["display"]["column_max_width"]["title"].as_integer(), Some(120));
    assert_eq!(cfg["relationships"][BLOCKER]["kind"].as_str(), Some("hierarchy"));
}

fn sample() -> toml::Value {
    read(&format!(
        "[compaction]\nkeep_events = 5000\n[display.column_max_width]\ntitle = 80\n\
         [workflow]\nstatus_field = \"{STATUS_FIELD}\"\n"
    ))
}

#[test]
fn list_flattens_nested_tables_to_dotted_keys() {
    let pairs = list(sample());
    let find = |k: &str| pairs.iter().find(|(key, _)| key == k).map(|(_, v)| v.clone());
    assert_eq!(find("workflow.status_field"), Some(toml::Value::from(STATUS_FIELD)));
    assert_eq!(find("compaction.keep_events"), Some(toml::Value::from(5000)));
    assert_eq!(find("display.column_max_width.title"), Some(toml::Value::from(80)));
    let keys: Vec<&str> = pairs.iter().map(|(k, _)| k.as_str()).collect();
    assert_eq!(
        keys,
        ["compaction.keep_events", "display.column_max_width.title", "workflow.status_field"],
        "in key order"
    );
}

#[test]
fn config_flatten_and_show_render_git_style() {
    let root = read(
        "[workflow]\nstatus_field = \"status\"\n[compaction]\nkeep_events = 1000\n\
         [display.column_max_width]\ntitle = 80\n",
    );
    let mut found = Vec::new();
    flatten("", root, &mut found);
    let pairs: Vec<(String, String)> =
        found.iter().map(|(k, v)| (k.clone(), show_config_value(v))).collect();
    // Nested sub-tables flatten to dotted keys; strings render bare.
    assert!(pairs.contains(&("workflow.status_field".to_string(), "status".to_string())));
    assert!(pairs.contains(&("compaction.keep_events".to_string(), "1000".to_string())));
    assert!(pairs.contains(&("display.column_max_width.title".to_string(), "80".to_string())));
}

#[test]
fn show_renders_strings_bare_and_others_as_toml() {
    assert_eq!(show_config_value(&toml::Value::from("status")), "status");
    assert_eq!(show_config_value(&toml::Value::from(5000)), "5000");
    assert_eq!(show_config_value(&toml::Value::from(true)), "true");
}

#[test]
fn get_walks_a_dotted_key() {
    assert_eq!(get(&sample(), "compaction.keep_events").ok(), Some(toml::Value::from(5000)));
    assert!(get(&sample(), "compaction.nope").is_err());
    assert!(get(&sample(), "compaction.keep_events.deeper").is_err());
    assert!(known_key(&sample(), "workflow.status_field").is_ok());
    assert!(known_key(&sample(), "workflow.state_field").is_err());
}

#[test]
fn what_is_set_is_read_back_and_the_rest_stays() {
    let (file, shown) =
        taska::settings::set("# top\n[a]\nx = 1 # one\ny = \"z\"\n", "a.x", "[1, 2]").ok().unwrap();
    assert_eq!(file, "# top\n[a]\nx = [1, 2] # one\ny = \"z\"\n");
    assert_eq!(shown.trim(), "[1, 2]");
    let root = read(&file);
    assert_eq!(get(&root, "a.y").ok(), Some(toml::Value::from("z")));
    assert_eq!(get(&root, "a.x").ok().map(|v| v.to_string()).as_deref(), Some("[1, 2]"));

    // A key below a value that is no table cannot be set, nor one in a file
    // that does not parse.
    assert!(taska::settings::set("a = 1\n", "a.b", "2").is_err());
    assert!(taska::settings::set("a = = 1\n", "a", "2").is_err());
}

#[test]
fn setting_a_key_keeps_comments_and_order() {
    let file = "# top\n\n[b] # of b\nx = 1  # one\n# above y\ny = 'two'\n\n[a]\nz = [\n  1,\n]\n# end\n";
    let (text, value) = taska::settings::set(file, "b.x", "5").unwrap();
    assert_eq!(text, file.replace("x = 1  # one", "x = 5  # one"));
    assert_eq!(value, "5");
    let (text, value) = taska::settings::set(file, "b.y", "three").unwrap();
    assert_eq!(text, file.replace("y = 'two'", "y = \"three\""));
    assert_eq!(value, "\"three\"");
    let (text, _) = taska::settings::set(file, "a.new.deep", "true").unwrap();
    assert_eq!(read(&text)["a"]["new"]["deep"].as_bool(), Some(true));
    assert!(text.starts_with("# top\n\n[b] # of b\nx = 1  # one\n# above y\n"));
    assert!(text.contains("z = [\n  1,\n]\n"));
    assert!(taska::settings::set(file, "b.x.z", "1").is_err(), "a value holds no keys");
    assert!(taska::settings::set("= 1", "b.x", "1").is_err());
}

#[test]
fn words_are_read_as_values_or_kept_as_text() {
    let word = |raw: &str| parse_config_value(raw).as_str().map(str::to_string);
    assert_eq!(word("1 2").as_deref(), Some("1 2"));
    assert_eq!(word("\"quoted\"").as_deref(), Some("quoted"));
    assert_eq!(word("").as_deref(), Some(""));
    assert_eq!(parse_config_value(" 3 ").as_integer(), Some(3));
}

#[test]
fn a_set_key_is_accepted_if_known_and_in_order() {
    let normalized = read("[workflow]\ndone_status = \"closed\"\n");
    let config = Config::default();
    let none: StrMap<TaskState> = StrMap::new();
    let said = |c: &Config, key: &str| accept_set(c, &normalized, key, &none);
    assert_eq!(said(&config, "workflow.done_status"), Ok(()));
    assert_eq!(
        said(&config, "workflow.nope").unwrap_err(),
        "unknown config key `workflow.nope` (no such field; nothing was changed)"
    );
    let mut bad = Config::default();
    bad.workflow.type_field = bad.workflow.status_field.clone();
    assert!(said(&bad, "workflow.done_status").is_err(), "two fields of one name");
}

fn date(month: u8, offset: Option<toml::value::Offset>) -> toml::Value {
    toml::Value::Datetime(toml::value::Datetime {
        date: Some(toml::value::Date { year: 1979, month, day: 27 }),
        time: offset.map(|_| toml::value::Time { hour: 7, minute: 32, second: 0, nanosecond: 0 }),
        offset,
    })
}

#[test]
fn values_with_dates_are_shown_if_the_dates_are_some() {
    let minutes = |minutes: i16| Some(toml::value::Offset::Custom { minutes });
    let listed = |v: toml::Value| shown_value(&toml::Value::Array(vec![v]));
    for v in [date(5, None), toml::Value::from(2.5), toml::Value::from(vec![1, 2])] {
        assert_eq!(shown_value(&v), Some(v.to_string()));
    }
    assert_eq!(listed(date(5, None)).as_deref(), Some("[1979-05-27]"));
    assert_eq!(listed(date(5, minutes(-90))).as_deref(), Some("[1979-05-27T07:32:00-01:30]"));
    assert_eq!(listed(date(13, None)), None);
    assert_eq!(shown_value(&date(5, minutes(i16::MIN))), None);
    let none = toml::value::Datetime { date: None, time: None, offset: None };
    assert_eq!(listed(toml::Value::Datetime(none)), None);
    assert_eq!(show_config_value(&toml::Value::Array(vec![date(5, None)])), "[1979-05-27]");
}

#[test]
fn values_of_one_key_are_listed_in_their_order() {
    let root = read("\"a.b\" = 2\nc = 3\n[a]\nb = 1\n");
    let mut flat = Vec::new();
    flatten("", root.clone(), &mut flat);
    let twice: Vec<&toml::Value> = flat.iter().filter(|p| p.0 == "a.b").map(|p| &p.1).collect();
    let listed = list(root);
    assert_eq!(listed.iter().map(|p| p.0.as_str()).collect::<Vec<_>>(), ["a.b", "a.b", "c"]);
    assert_eq!(listed.iter().take(2).map(|p| &p.1).collect::<Vec<_>>(), twice);
}
