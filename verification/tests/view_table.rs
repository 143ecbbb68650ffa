use bytesbox::ByteBox;

#[test]
fn view_table_shows_contents() {
    let mut table = ByteBox::prealloc(1);
    table.insert(b"key", b"value");
    let text = table.view_table();
    assert!(text.contains("ByteBox, number of cell (1), allocation (1)"));
    assert!(text.contains("Cell 0:"));
    assert!(text.contains("| k |->| key"));
    assert!(text.contains("| v |->| value"));
}

#[test]
fn display_string_lists_pairs() {
    let mut table = ByteBox::prealloc(1);
    table.insert(b"key1", b"value1");
    table.insert(b"key2", b"value2");
    let text = table.display_string();
    assert!(text.starts_with('{') && text.ends_with('}'));
    assert!(text.contains("\"key1\": \"value1\""));
    assert!(text.contains("\"key2\": \"value2\""));
    assert!(text.contains(", "));

    let empty = ByteBox::new();
    assert_eq!(empty.display_string(), "{}");
}

#[test]
fn view_table_color_wraps_in_ansi_codes() {
    let mut table = ByteBox::prealloc(1);
    table.insert(b"key", b"value");
    let text = table.view_table_color();
    // keys are green, values yellow, counters red, title blue
    assert!(text.contains("\u{1b}[32mkey\u{1b}[0m"));
    assert!(text.contains("\u{1b}[33mvalue\u{1b}[0m"));
    assert!(text.contains("\u{1b}[31m1\u{1b}[0m"));
    assert!(text.contains("\u{1b}[34mByteBox\u{1b}[0m"));
}
