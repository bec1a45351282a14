//! Texts, and the tables and orders built on them.

use greentd::message::{Message, Piece};
use greentd::scalar::Scalar;
use greentd::settings::Settings;
use greentd::sim::CreepId;
use greentd::table::Table;
use greentd::text::{
    characters, hex, is_blank, lower, number, pad, read_number, replace, same_text, signed_number, split_once, strip_prefix, trim,
    up_to,
};

#[test]
fn texts_are_cut_at_white_space_and_marks() {
    assert_eq!(trim("  a b\t\n"), "a b");
    assert_eq!(trim("\u{a0}x\u{3000}"), "x");
    assert_eq!(trim("   "), "");
    assert!(is_blank(" \t"));
    assert!(!is_blank(" x "));
    assert_eq!(split_once("a=b=c", '='), Some(("a".to_string(), "b=c".to_string())));
    assert_eq!(split_once("abc", '='), None);
    assert_eq!(up_to("value # why", '#'), "value ");
    assert_eq!(up_to("value", '#'), "value");
    assert_eq!(strip_prefix("GREENTD_MAP", "GREENTD_"), Some("MAP".to_string()));
    assert_eq!(strip_prefix("PATH", "GREENTD_"), None);
    assert_eq!(lower("TICK_Hz"), "tick_hz");
    assert_eq!(replace("tick_hz_", '_', '-'), "tick-hz-");
    assert!(same_text("caf\u{e9}", "caf\u{e9}"));
    assert!(!same_text("a", "b"));
    assert_eq!(characters("a\u{1F600}b").len(), 3);
}

#[test]
fn numbers_are_spelled_as_they_read() {
    for n in [0u64, 7, 10, 255, 86_399, u64::MAX] {
        assert_eq!(number(n), n.to_string());
        assert_eq!(hex(n, 16), format!("{n:016x}"));
        assert_eq!(read_number(&n.to_string(), u64::MAX), Some(n));
    }
    for n in [0i32, -1, 42, i32::MIN, i32::MAX] {
        assert_eq!(signed_number(n), n.to_string());
    }
    assert_eq!(pad(7, 4), "0007");
    assert_eq!(pad(12345, 4), "12345");
    assert_eq!(hex(0xabcdef, 4), "cdef");
    assert_eq!(read_number("+5", 10), Some(5));
    assert_eq!(read_number("11", 10), None);
    assert_eq!(read_number("", 10), None);
    assert_eq!(read_number("-1", 10), None);
    assert_eq!(read_number("1x", 10), None);
}

#[test]
fn settings_hold_one_value_per_key() {
    let mut settings = Settings::new();
    assert!(settings.is_empty());
    settings.insert("b".to_string(), "1".to_string());
    settings.insert("a".to_string(), "2".to_string());
    settings.insert("b".to_string(), "3".to_string());
    settings.insert_new("a".to_string(), "4".to_string());
    assert_eq!(settings.len(), 2);
    assert_eq!(settings.get("b").map(String::as_str), Some("3"));
    assert_eq!(settings.get("a").map(String::as_str), Some("2"));
    assert_eq!(settings.first_key(), Some("a".to_string()));
    assert_eq!(settings.remove("a"), Some("2".to_string()));
    assert_eq!(settings.remove("a"), None);

    let mut below = Settings::new();
    below.insert("b".to_string(), "below".to_string());
    below.insert("c".to_string(), "below".to_string());
    let merged = settings.over(&below);
    assert_eq!(merged.get("b").map(String::as_str), Some("3"));
    assert_eq!(merged.get("c").map(String::as_str), Some("below"));
}

#[test]
fn tables_keep_the_order_in_which_keys_were_set() {
    let mut table: Table<CreepId, u32> = Table::new();
    table.insert(CreepId(3), 30);
    table.insert(CreepId(1), 10);
    table.insert(CreepId(3), 31);
    assert_eq!(table.len(), 2);
    assert_eq!(table.entry(0), (CreepId(3), 31));
    assert_eq!(table.get(&CreepId(1)), Some(10));
    assert_eq!(table.get(&CreepId(2)), None);
    table.remove(&CreepId(3));
    assert_eq!(table.entry(0), (CreepId(1), 10));
    assert!(!table.contains_key(&CreepId(3)));
    table.clear();
    assert!(table.is_empty());
}

#[test]
fn a_message_keeps_its_numbers_as_numbers() {
    let value = Scalar { bits: 1.5f32.to_bits() };
    let m = Message::new("a ").number(value).words(" b ").literal(value).whole(value);
    assert_eq!(
        m.pieces,
        vec![
            Piece::Words("a ".to_string()),
            Piece::Number(value),
            Piece::Words(" b ".to_string()),
            Piece::Literal(value),
            Piece::Whole(value),
        ]
    );
    let twice = Message::new("x").followed_by(&m);
    assert_eq!(twice.pieces.len(), 6);
}
