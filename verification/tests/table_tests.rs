use htmlize::entities::{default_table, Entity, EntityTable};
use htmlize::unescape::{correct_numeric_entity, encode_utf8, unescape_with};

#[test]
fn custom_table_lookup() {
    let entries = vec![
        Entity { key: b"&x;".to_vec(), expansion: b"y".to_vec() },
        Entity { key: b"&xy;".to_vec(), expansion: b"z".to_vec() },
    ];
    let table = EntityTable::new(entries, 3, 4);
    assert_eq!(unescape_with(&table, b"a&x;b"), b"ayb".to_vec());
    assert_eq!(unescape_with(&table, b"&xy;"), b"z".to_vec());
    assert_eq!(unescape_with(&table, b"&q;"), b"&q;".to_vec());
}

#[test]
fn custom_table_longest_match_wins() {
    let entries = vec![
        Entity { key: b"&ab".to_vec(), expansion: b"1".to_vec() },
        Entity { key: b"&abc".to_vec(), expansion: b"2".to_vec() },
    ];
    let table = EntityTable::new(entries, 3, 4);
    assert_eq!(unescape_with(&table, b"&abc"), b"2".to_vec());
    assert_eq!(unescape_with(&table, b"&abd"), b"1d".to_vec());
}

#[test]
fn default_table_decodes_escapes() {
    let table = default_table();
    assert_eq!(unescape_with(&table, b"&amp;&lt;&gt;"), b"&<>".to_vec());
}

#[test]
fn encode_utf8_widths() {
    assert_eq!(encode_utf8(0x41), b"A".to_vec());
    assert_eq!(encode_utf8(0xD7), "\u{d7}".as_bytes().to_vec());
    assert_eq!(encode_utf8(0x2022), "\u{2022}".as_bytes().to_vec());
    assert_eq!(encode_utf8(0x1F600), "\u{1f600}".as_bytes().to_vec());
}

#[test]
fn correction_table_values() {
    assert_eq!(correct_numeric_entity(0), Some("\u{fffd}".as_bytes().to_vec()));
    assert_eq!(correct_numeric_entity(0xD800), Some("\u{fffd}".as_bytes().to_vec()));
    assert_eq!(correct_numeric_entity(0x110000), Some("\u{fffd}".as_bytes().to_vec()));
    assert_eq!(correct_numeric_entity(0xFDD0), None);
    assert_eq!(correct_numeric_entity(0x0D), None);
    assert_eq!(correct_numeric_entity(0x80), Some("\u{20ac}".as_bytes().to_vec()));
    assert_eq!(correct_numeric_entity(0x7A), Some(b"z".to_vec()));
}
