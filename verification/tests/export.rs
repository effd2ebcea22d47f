use pd_patch::export::{box_id_number, format_wire, quote_lop_string};

#[test]
fn quote_escapes_backslash_and_quote() {
    assert_eq!(quote_lop_string("in 1"), "\"in 1\"");
    assert_eq!(quote_lop_string("a\"b"), "\"a\\\"b\"");
    assert_eq!(quote_lop_string("c:\\x"), "\"c:\\\\x\"");
    assert_eq!(quote_lop_string(""), "\"\"");
}

#[test]
fn box_id_numbers() {
    assert_eq!(box_id_number("obj-1"), Some(1));
    assert_eq!(box_id_number("obj-42"), Some(42));
    assert_eq!(box_id_number("obj-+7"), Some(7));
    assert_eq!(box_id_number("obj-18446744073709551615"), Some(u64::MAX));
    assert_eq!(box_id_number("obj-18446744073709551616"), None);
    assert_eq!(box_id_number("obj-"), None);
    assert_eq!(box_id_number("obj-x"), None);
    assert_eq!(box_id_number("box-1"), None);
    assert_eq!(box_id_number("obj"), None);
}

#[test]
fn wire_line() {
    assert_eq!(format_wire(1, "obj-1", 0, "obj-2", 0), "(wire w1 :from (obj-1 0) :to (obj-2 0))");
    assert_eq!(format_wire(12, "a", 3, "b", 10), "(wire w12 :from (a 3) :to (b 10))");
}
