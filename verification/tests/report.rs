use line_counter::report::{
    blank, centre, centre_on_terminal, decimal, margin, pad_left, pad_right, place, table,
    table_row, widest, COUNT_WIDTH, LABEL_WIDTH,
};
use line_counter::tally::ExtensionTally;

fn text(lines: &[&str]) -> Vec<String> {
    lines.iter().map(|line| line.to_string()).collect()
}

#[test]
fn blank_is_a_run_of_spaces() {
    assert_eq!(blank(0), "");
    assert_eq!(blank(1), " ");
    assert_eq!(blank(5), "     ");
}

#[test]
fn decimal_writes_the_digits() {
    assert_eq!(decimal(0), "0");
    assert_eq!(decimal(7), "7");
    assert_eq!(decimal(10), "10");
    assert_eq!(decimal(409), "409");
    assert_eq!(decimal(1234567890), "1234567890");
    assert_eq!(decimal(usize::MAX), usize::MAX.to_string());
}

#[test]
fn decimal_agrees_with_the_standard_library() {
    for n in [0usize, 1, 9, 10, 11, 99, 100, 101, 999, 1000, 65535, 1 << 40] {
        assert_eq!(decimal(n), format!("{}", n));
    }
}

#[test]
fn pad_right_fills_after_the_text() {
    assert_eq!(pad_right("txt", 13), "txt          ");
    assert_eq!(pad_right("", 3), "   ");
    assert_eq!(pad_right("abc", 3), "abc");
    assert_eq!(pad_right("abcd", 3), "abcd");
    assert_eq!(pad_right("\u{e9}t\u{e9}", 5), "\u{e9}t\u{e9}  ");
}

#[test]
fn pad_left_fills_before_the_text() {
    assert_eq!(pad_left("10", 9), "       10");
    assert_eq!(pad_left("", 2), "  ");
    assert_eq!(pad_left("123456789", 9), "123456789");
    assert_eq!(pad_left("1234567890", 9), "1234567890");
}

#[test]
fn columns_have_their_widths() {
    assert_eq!(LABEL_WIDTH, 13);
    assert_eq!(COUNT_WIDTH, 9);
}

#[test]
fn table_row_has_two_columns() {
    assert_eq!(table_row("txt", 10), "║ txt           ║        10 ║");
    assert_eq!(table_row("TOTAL", 0), "║ TOTAL         ║         0 ║");
    assert_eq!(table_row("", 123456789), "║               ║ 123456789 ║");
}

#[test]
fn table_row_grows_with_long_values() {
    assert_eq!(table_row("averylongextension", 5), "║ averylongextension ║         5 ║");
    assert_eq!(table_row("x", 12345678901), "║ x             ║ 12345678901 ║");
}

#[test]
fn table_row_agrees_with_the_standard_library() {
    let rows: [(&str, usize); 5] =
        [("rs", 42), ("", 0), ("thirteen_char", 999999999), ("\u{3053}\u{308d}", 7), ("toolongextension", 1 << 40)];
    for (label, count) in rows {
        assert_eq!(table_row(label, count), format!("║ {:<13} ║ {:>9} ║", label, count));
    }
}

#[test]
fn table_of_the_empty_tally_has_the_total_only() {
    assert_eq!(
        table(&ExtensionTally::new()),
        text(&[
            "\n",
            "BLAZINGLY FAST LINE COUNTER",
            "╔═══════════════════════════╗",
            "║ TOTAL         ║         0 ║",
            "╚═══════════════════════════╝",
        ])
    );
}

#[test]
fn table_has_a_row_for_each_extension_and_the_total() {
    let mut tally = ExtensionTally::new();
    tally.record("txt", 10);
    tally.record("rs", 1234);
    tally.record("log", 0);
    assert_eq!(
        table(&tally),
        text(&[
            "\n",
            "BLAZINGLY FAST LINE COUNTER",
            "╔═══════════════════════════╗",
            "║ log           ║         0 ║",
            "║ rs            ║      1234 ║",
            "║ txt           ║        10 ║",
            "║ TOTAL         ║      1244 ║",
            "╚═══════════════════════════╝",
        ])
    );
}

#[test]
fn widest_counts_characters() {
    assert_eq!(widest(&text(&[])), 0);
    assert_eq!(widest(&text(&["", "abc", "ab"])), 3);
    assert_eq!(widest(&text(&["╔═══╗", "abcd"])), 5);
    assert_eq!(widest(&table(&ExtensionTally::new())), 29);
}

#[test]
fn margin_is_half_of_what_is_left() {
    assert_eq!(margin(Some(80), 29), 25);
    assert_eq!(margin(Some(81), 29), 26);
    assert_eq!(margin(Some(30), 29), 0);
    assert_eq!(margin(Some(31), 29), 1);
    assert_eq!(margin(Some(100), 0), 50);
}

#[test]
fn margin_is_zero_on_a_narrow_terminal() {
    assert_eq!(margin(Some(29), 29), 0);
    assert_eq!(margin(Some(10), 29), 0);
    assert_eq!(margin(Some(0), 29), 0);
}

#[test]
fn margin_is_zero_without_a_terminal() {
    assert_eq!(margin(None, 29), 0);
    assert_eq!(margin(None, 0), 0);
}

#[test]
fn place_puts_spaces_before_each_line() {
    assert_eq!(place(&text(&["a", "", "bc"]), 2), text(&["  a", "  ", "  bc"]));
    assert_eq!(place(&text(&["a", "bc"]), 0), text(&["a", "bc"]));
    assert_eq!(place(&text(&[]), 3), text(&[]));
}

#[test]
fn centre_uses_the_widest_line() {
    let lines = text(&["title", "╔═══════╗", "x"]);
    assert_eq!(centre(&lines, Some(19)), text(&["     title", "     ╔═══════╗", "     x"]));
    assert_eq!(centre(&lines, Some(9)), lines);
    assert_eq!(centre(&lines, Some(4)), lines);
}

#[test]
fn centre_without_a_terminal_changes_nothing() {
    let lines = table(&ExtensionTally::new());
    assert_eq!(centre(&lines, None), lines);
}

#[test]
fn centre_of_the_table_on_eighty_columns() {
    let lines = centre(&table(&ExtensionTally::new()), Some(80));
    assert_eq!(lines[1], format!("{}BLAZINGLY FAST LINE COUNTER", " ".repeat(25)));
    assert_eq!(lines[2], format!("{}╔═══════════════════════════╗", " ".repeat(25)));
    assert_eq!(lines[3], format!("{}║ TOTAL         ║         0 ║", " ".repeat(25)));
}

#[test]
fn centre_on_terminal_puts_one_margin_before_all_lines() {
    let lines = text(&["title", "╔═══════╗", "x"]);
    let out = centre_on_terminal(&lines);
    assert_eq!(out.len(), lines.len());
    let margin = out[0].len() - lines[0].len();
    for (placed, line) in out.iter().zip(lines.iter()) {
        assert_eq!(placed, &format!("{}{}", " ".repeat(margin), line));
    }
}
