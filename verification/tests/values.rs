//! Texts, instants, JSON values and tables.

use rotastellar_agent::double::Double;
use rotastellar_agent::json::{Json, JsonNumber, Member};
use rotastellar_agent::table::Table;
use rotastellar_agent::text::{begins_with, ends_with, join, pair, same, sorts_no_later};
use rotastellar_agent::time::UtcTime;

fn d(x: f64) -> Double {
    Double::from_bits(x.to_bits())
}

#[test]
fn texts_sort_as_strings_do() {
    let texts = [
        "",
        "a",
        "ab",
        "b",
        "Z",
        "é",
        "z",
        "2026-03-09T12:00:00+00:00",
        "2026-03-09T12:00:00.5+00:00",
        "\u{1F6F0}",
    ];
    for a in texts {
        for b in texts {
            assert_eq!(sorts_no_later(a, b), a <= b);
            assert_eq!(same(a, b), a == b);
            assert_eq!(begins_with(a, b), a.starts_with(b));
            assert_eq!(ends_with(a, b), a.ends_with(b));
            assert_eq!(pair(a, b), format!("{}{}", a, b));
            assert_eq!(join(a, "-", b), format!("{}-{}", a, b));
        }
    }
}

#[test]
fn instants_are_read_and_written() {
    let t = UtcTime::parse("2026-03-09T12:00:00Z").unwrap();
    assert_eq!(t, UtcTime { secs: 1_773_057_600, nanos: 0 });
    assert_eq!(t.to_rfc3339(), "2026-03-09T12:00:00+00:00");
    assert_eq!(UtcTime::parse("2026-03-09T14:00:00.25+02:00").unwrap(), t.shift_millis(250).unwrap());
    assert_eq!(t.shift_millis(250).unwrap().to_rfc3339(), "2026-03-09T12:00:00.250+00:00");
    assert!(UtcTime::parse("2026-03-09").is_none());
    assert!(UtcTime::parse("").is_none());
    assert_eq!(t.date(), (2026, 3, 9));
    for (text, date) in [
        ("1970-01-01T00:00:00Z", (1970, 1, 1)),
        ("1969-12-31T23:59:59.999Z", (1969, 12, 31)),
        ("2000-02-29T12:00:00Z", (2000, 2, 29)),
        ("1900-03-01T00:00:00Z", (1900, 3, 1)),
        ("0001-01-01T00:00:00Z", (1, 1, 1)),
        ("0000-12-31T23:59:59Z", (0, 12, 31)),
        ("2024-12-31T23:59:59Z", (2024, 12, 31)),
    ] {
        assert_eq!(UtcTime::parse(text).unwrap().date(), date);
    }
    let now = UtcTime::now();
    assert!(now.is_after(t));
    assert!(now.is_valid());
    assert!(now.nanos < 1_000_000_000);
    assert_eq!(UtcTime::parse(&now.to_rfc3339()), Some(now));
}

#[test]
fn differences_between_instants() {
    let a = UtcTime::parse("2026-03-09T12:00:00.900Z").unwrap();
    let b = UtcTime::parse("2026-03-09T12:00:02.100Z").unwrap();
    assert_eq!(b.seconds_since(a), 1);
    assert_eq!(a.seconds_since(b), -1);
    assert_eq!(b.millis_since(a), 1200);
    assert_eq!(a.millis_since(b), -1200);
    assert!(b.is_after(a) && !a.is_after(b) && !a.is_after(a));
    assert_eq!(a.shift_millis(-900).unwrap().to_rfc3339(), "2026-03-09T12:00:00+00:00");
}

#[test]
fn leap_seconds() {
    let leap = UtcTime::parse("2016-12-31T23:59:60.500Z").unwrap();
    assert_eq!(leap.nanos, 1_500_000_000);
    let after = UtcTime::parse("2017-01-01T00:00:00Z").unwrap();
    assert_eq!(leap.shift_millis(500).unwrap(), after);
    assert_eq!(leap.shift_millis(250).unwrap().nanos, 1_750_000_000);
    assert_eq!(leap.shift_millis(-1000).unwrap(), UtcTime::parse("2016-12-31T23:59:59.500Z").unwrap());
    assert_eq!(leap.date(), (2016, 12, 31));
}

#[test]
fn the_ends_of_the_calendar() {
    let last = UtcTime { secs: 8_210_266_876_799, nanos: 999_999_999 };
    assert!(last.is_valid());
    assert!(last.shift_millis(1).is_none());
    assert_eq!(UtcTime::parse(&last.to_rfc3339()), Some(last));
    let first = UtcTime { secs: -8_334_601_228_800, nanos: 0 };
    assert!(first.is_valid());
    assert!(first.shift_millis(-1).is_none());
    assert_eq!(UtcTime::parse(&first.to_rfc3339()), Some(first));
    assert!(last.shift_millis(i64::MIN).is_none());
    for secs in [-62_167_219_201, -62_167_219_200, -1, 253_402_300_799, 253_402_300_800] {
        let t = UtcTime { secs, nanos: 1_001 };
        assert_eq!(UtcTime::parse(&t.to_rfc3339()), Some(t));
    }
    assert!(!UtcTime { secs: 8_210_266_876_800, nanos: 0 }.is_valid());
    assert!(!UtcTime { secs: 0, nanos: 1_000_000_000 }.is_valid());
    assert!(UtcTime { secs: 59, nanos: 1_999_999_999 }.is_valid());
    assert!(UtcTime { secs: -1, nanos: 1_000_000_000 }.is_valid());
    assert!(!UtcTime { secs: 59, nanos: 2_000_000_000 }.is_valid());
    assert!(last.seconds_since(first) > 0);
}

#[test]
fn members_of_objects() {
    let mut v = Json::object();
    assert!(v.is_object());
    v.set("a", Json::natural(1));
    v.set("b", Json::text("x"));
    v.set("a", Json::Bool(true));
    assert_eq!(v.flag_at("a"), Some(true));
    assert_eq!(v.text_at("b"), Some("x"));
    assert!(v.number_at("a").is_none());
    assert!(v.get("c").is_none());
    let copy = v.clone();
    assert_eq!(format!("{:?}", copy), format!("{:?}", v));
}

#[test]
fn a_later_member_counts() {
    let v = Json::Object(vec![
        Member { name: "a".into(), value: Json::natural(1) },
        Member { name: "a".into(), value: Json::natural(2) },
    ]);
    assert_eq!(v.number_at("a").unwrap().to_bits(), 2.0_f64.to_bits());
}

#[test]
fn only_objects_have_members() {
    let mut t = Json::text("x");
    t.set("a", Json::natural(1));
    assert!(matches!(&t, Json::Text(s) if s == "x"));
    t.set_new("a", Json::natural(1));
    assert!(matches!(&t, Json::Text(s) if s == "x"));
    let mut n = Json::Null;
    n.set("a", Json::natural(1));
    assert!(n.is_null());
    n.set_new("a", Json::natural(1));
    assert!(n.is_object());
    assert_eq!(n.number_at("a").unwrap().to_bits(), 1.0_f64.to_bits());
}

#[test]
fn numbers_in_json() {
    assert!(Json::number(d(f64::NAN)).is_null());
    assert!(Json::number(d(f64::INFINITY)).is_null());
    let mut v = Json::object();
    v.set("big", Json::natural(u64::MAX));
    v.set("negative", Json::Number(JsonNumber::Negative(-7)));
    v.set("half", Json::number(d(0.5)));
    v.set("count", Json::count(3));
    assert_eq!(v.number_at("big").unwrap().to_bits(), (u64::MAX as f64).to_bits());
    assert_eq!(v.number_at("negative").unwrap().to_bits(), (-7.0_f64).to_bits());
    assert_eq!(v.number_at("half").unwrap().to_bits(), 0.5_f64.to_bits());
    assert_eq!(v.number_at("count").unwrap().to_bits(), 3.0_f64.to_bits());
    assert!(Json::optional_text(&None).is_null());
}

#[test]
fn tables_file_values_under_names() {
    let mut table: Table<u32> = Table::new();
    table.insert("a".into(), 1);
    table.insert("b".into(), 2);
    table.insert("a".into(), 3);
    assert_eq!(table.len(), 2);
    assert_eq!(table.get("a"), Some(&3));
    assert_eq!(table.get("c"), None);
    if let Some(v) = table.get_mut("b") {
        *v = 5;
    }
    assert!(table.get_mut("c").is_none());
    assert_eq!(table.get("b"), Some(&5));
    assert_eq!(*table.value_at(0) + *table.value_at(1), 8);
}
