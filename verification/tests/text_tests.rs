//! String helpers and table lookups used by the linker's symbol
//! resolution.

use guestlink::tables::{find_entry_index, lookup_address};
use guestlink::text::{str_eq, str_strip_prefix};

#[test]
fn str_eq_compares_characters() {
    assert!(str_eq("", ""));
    assert!(str_eq("_puts", "_puts"));
    assert!(!str_eq("_puts", "_putc"));
    assert!(!str_eq("_puts", "_puts2"));
    assert!(str_eq("héllo", "héllo"));
    assert!(!str_eq("héllo", "hello"));
}

#[test]
fn str_strip_prefix_splits_exactly() {
    assert_eq!(str_strip_prefix("_OBJC_CLASS_$_Banana", "_OBJC_CLASS_$_"), Some("Banana"));
    assert_eq!(str_strip_prefix("_OBJC_CLASS_$_", "_OBJC_CLASS_$_"), Some(""));
    assert_eq!(str_strip_prefix("_puts", "_OBJC_CLASS_$_"), None);
    assert_eq!(str_strip_prefix("_x", "_xyz"), None);
}

#[test]
fn table_lookups_find_first_entry() {
    let table: Vec<(String, u32)> = vec![
        ("_a".to_string(), 10),
        ("_b".to_string(), 20),
        ("_a".to_string(), 30),
    ];
    assert_eq!(find_entry_index(&table, "_a"), Some(0));
    assert_eq!(find_entry_index(&table, "_b"), Some(1));
    assert_eq!(find_entry_index(&table, "_c"), None);
    assert_eq!(lookup_address(&table, "_a"), Some(10));
    assert_eq!(lookup_address(&table, "_c"), None);
}
