use line_counter::lines::count_lines;

#[test]
fn content_with_final_line_feed_has_two_lines() {
    assert_eq!(count_lines(b"a\nb\n"), 2);
}

#[test]
fn content_without_final_line_feed_has_two_lines() {
    assert_eq!(count_lines(b"a\nb"), 2);
}

#[test]
fn empty_content_has_no_lines() {
    assert_eq!(count_lines(b""), 0);
}

#[test]
fn a_single_line_feed_is_one_line() {
    assert_eq!(count_lines(b"\n"), 1);
}

#[test]
fn text_without_line_feed_is_one_line() {
    assert_eq!(count_lines(b"no line feed at all"), 1);
}

#[test]
fn blank_lines_are_counted() {
    assert_eq!(count_lines(b"\n\n\n"), 3);
    assert_eq!(count_lines(b"a\n\nb"), 3);
}

#[test]
fn carriage_returns_do_not_end_lines() {
    assert_eq!(count_lines(b"a\r\nb\r\n"), 2);
    assert_eq!(count_lines(b"a\rb"), 1);
}

#[test]
fn binary_content_is_counted_like_text() {
    assert_eq!(count_lines(&[0, 255, 10, 7, 200]), 2);
    assert_eq!(count_lines(&[10, 10, 0]), 3);
    assert_eq!(count_lines(&[0xff, 0xfe, 10]), 1);
}

#[test]
fn a_final_line_feed_adds_no_line_to_an_open_line() {
    let contents: [&[u8]; 4] = [b"a", b"a\nb", b"one\ntwo\nthree", b"\n\nx"];
    for content in contents {
        let mut closed = content.to_vec();
        closed.push(b'\n');
        assert_eq!(count_lines(&closed), count_lines(content));
    }
}

#[test]
fn a_line_feed_after_a_closed_line_is_a_line() {
    assert_eq!(count_lines(b"a\n"), 1);
    assert_eq!(count_lines(b"a\n\n"), 2);
}

#[test]
fn many_lines_are_counted() {
    let mut content = Vec::new();
    for _ in 0..1000 {
        content.extend_from_slice(b"line\n");
    }
    assert_eq!(count_lines(&content), 1000);
    content.extend_from_slice(b"tail");
    assert_eq!(count_lines(&content), 1001);
}
