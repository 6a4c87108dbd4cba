use english_tool::progress::ProcessData;
use english_tool::words::Word;

fn word(w: &str, t: &str) -> Word {
    Word { word: w.to_string(), translated: t.to_string() }
}

#[test]
fn default_state_is_zero() {
    let d = ProcessData::default();
    assert_eq!(d.process, 0);
    assert!(d.later.is_empty());
    assert!(d.removed.is_empty());
}

#[test]
fn missing_resource_loads_default() {
    let d = ProcessData::load_progress(None);
    assert_eq!(d, ProcessData::default());
}

#[test]
fn empty_resource_loads_default() {
    let d = ProcessData::load_progress(Some(""));
    assert_eq!(d, ProcessData::default());
}

#[test]
fn corrupt_resource_loads_default() {
    let d = ProcessData::load_progress(Some("not a record at all"));
    assert_eq!(d, ProcessData::default());
    let d2 = ProcessData::load_progress(Some("{\"later\":[],\"process\":"));
    assert_eq!(d2, ProcessData::default());
}

#[test]
fn to_json_of_default() {
    let d = ProcessData::default();
    assert_eq!(d.to_json(), "{\"later\":[],\"process\":0,\"removed\":[]}");
}

#[test]
fn to_json_exact_form() {
    let d = ProcessData {
        process: 42,
        later: vec![word("apple", " a red fruit")],
        removed: vec!["pear".to_string(), "plum".to_string()],
    };
    assert_eq!(
        d.to_json(),
        "{\"later\":[{\"translated\":\" a red fruit\",\"word\":\"apple\"}],\"process\":42,\"removed\":[\"pear\",\"plum\"]}"
    );
}

#[test]
fn to_json_escapes_quotes_and_backslashes() {
    let d = ProcessData {
        process: 0,
        later: vec![word("qu\"ote", "back\\slash")],
        removed: vec![],
    };
    assert_eq!(
        d.to_json(),
        "{\"later\":[{\"translated\":\"back\\\\slash\",\"word\":\"qu\\\"ote\"}],\"process\":0,\"removed\":[]}"
    );
}

#[test]
fn save_then_load_round_trips() {
    let d = ProcessData {
        process: 7,
        later: vec![word("apple", " a red fruit"), word("pear", "")],
        removed: vec!["plum".to_string()],
    };
    let loaded = ProcessData::load_progress(Some(&d.to_json()));
    assert_eq!(loaded, d);
}

#[test]
fn round_trip_with_tricky_strings() {
    let d = ProcessData {
        process: usize::MAX,
        later: vec![word("a\"b\\c", "\\\"\\"), word("", " ")],
        removed: vec!["\"".to_string(), "\\".to_string(), "".to_string()],
    };
    let loaded = ProcessData::load_progress(Some(&d.to_json()));
    assert_eq!(loaded, d);
}

#[test]
fn from_json_accepts_exact_record() {
    let pd = ProcessData::from_json(
        "{\"later\":[{\"translated\":\"x\",\"word\":\"y\"}],\"process\":3,\"removed\":[\"z\"]}",
    )
    .unwrap();
    assert_eq!(pd.process, 3);
    assert_eq!(pd.later, vec![word("y", "x")]);
    assert_eq!(pd.removed, vec!["z".to_string()]);
}

#[test]
fn from_json_rejects_other_shapes() {
    // reordered keys
    assert!(ProcessData::from_json("{\"process\":0,\"later\":[],\"removed\":[]}").is_none());
    // leading zero in the cursor
    assert!(ProcessData::from_json("{\"later\":[],\"process\":01,\"removed\":[]}").is_none());
    // a cursor no machine word holds
    assert!(
        ProcessData::from_json(
            "{\"later\":[],\"process\":99999999999999999999999999999999,\"removed\":[]}"
        )
        .is_none()
    );
    // trailing garbage
    assert!(ProcessData::from_json("{\"later\":[],\"process\":0,\"removed\":[]} ").is_none());
    // an unknown escape
    assert!(
        ProcessData::from_json("{\"later\":[],\"process\":0,\"removed\":[\"a\\nb\"]}").is_none()
    );
}

#[test]
fn removed_set_only_grows() {
    let mut d = ProcessData::default();
    d.mark_removed(&word("apple", ""));
    d.mark_removed(&word("pear", ""));
    assert_eq!(d.removed, vec!["apple".to_string(), "pear".to_string()]);
    assert!(d.is_removed(&"apple".to_string()));
    assert!(d.is_removed(&"pear".to_string()));
    assert!(!d.is_removed(&"plum".to_string()));
}

#[test]
fn later_queue_is_fifo() {
    let mut d = ProcessData::default();
    d.push_later(word("first", "1"));
    d.push_later(word("second", "2"));
    d.push_later(word("third", "3"));
    assert_eq!(d.later_head(), Some(word("first", "1")));
    assert_eq!(d.pop_later(), Some(word("first", "1")));
    assert_eq!(d.pop_later(), Some(word("second", "2")));
    assert_eq!(d.pop_later(), Some(word("third", "3")));
    assert_eq!(d.pop_later(), None);
    assert_eq!(d.later_head(), None);
}
