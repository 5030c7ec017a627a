use tzif_util::env::parse_bool;
use tzif_util::fmt_bridge::IoToFmt;
use tzif_util::index_map::IndexMap;
use tzif_util::tzif::LeapSecondRecord;

#[test]
fn parse_bool_recognized_values() {
    assert_eq!(parse_bool("off"), Some(false));
    assert_eq!(parse_bool("OFF"), Some(false));
    assert_eq!(parse_bool("FALSE"), Some(false));
    assert_eq!(parse_bool("false"), Some(false));
    assert_eq!(parse_bool("0"), Some(false));
    assert_eq!(parse_bool("on"), Some(true));
    assert_eq!(parse_bool("ON"), Some(true));
    assert_eq!(parse_bool("TRUE"), Some(true));
    assert_eq!(parse_bool("true"), Some(true));
    assert_eq!(parse_bool("1"), Some(true));
}

#[test]
fn parse_bool_unrecognized_values() {
    assert_eq!(parse_bool(""), None);
    assert_eq!(parse_bool("On"), None);
    assert_eq!(parse_bool("yes"), None);
    assert_eq!(parse_bool("01"), None);
    assert_eq!(parse_bool("offf"), None);
}

#[test]
fn index_map_insert_and_get() {
    let mut m: IndexMap<LeapSecondRecord> = IndexMap::new();
    m.insert(LeapSecondRecord { occurrence: 78796800, correction: 1 });
    m.insert(LeapSecondRecord { occurrence: 94694400, correction: 2 });
    assert_eq!(m.get(&78796800).unwrap().correction, 1);
    assert_eq!(m.get(&94694400).unwrap().correction, 2);
    assert!(m.get(&0).is_none());
}

#[test]
fn index_map_keeps_first_on_duplicate_key() {
    let mut m: IndexMap<LeapSecondRecord> = IndexMap::with_capacity(4);
    m.insert(LeapSecondRecord { occurrence: 78796800, correction: 1 });
    m.insert(LeapSecondRecord { occurrence: 78796800, correction: 9 });
    assert_eq!(m.get(&78796800).unwrap().correction, 1);
}

#[test]
fn io_to_fmt_round_trip() {
    let w = IoToFmt::new(String::from("log line"));
    assert_eq!(w.into_inner(), "log line");
}
