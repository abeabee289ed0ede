use xpad::{parse_document, split_row};

fn fields<'a>(row: &[(&'a str, usize)]) -> Vec<&'a str> {
    row.iter().map(|cell| cell.0).collect()
}

fn widths(row: &[(&str, usize)]) -> Vec<usize> {
    row.iter().map(|cell| cell.1).collect()
}

#[test]
fn split_row_cuts_at_every_delimiter() {
    let row = split_row("a,bb,ccc", ',');
    assert_eq!(row, vec![("a", 1), ("bb", 2), ("ccc", 3)]);
}

#[test]
fn split_row_without_delimiter_is_one_field() {
    assert_eq!(split_row("plain text", ','), vec![("plain text", 10)]);
}

#[test]
fn split_row_of_empty_line_is_one_empty_field() {
    assert_eq!(split_row("", ','), vec![("", 0)]);
}

#[test]
fn split_row_keeps_empty_fields() {
    assert_eq!(fields(&split_row(",a,,b,", ',')), vec!["", "a", "", "b", ""]);
    assert_eq!(widths(&split_row(",a,,b,", ',')), vec![0, 1, 0, 1, 0]);
    assert_eq!(fields(&split_row(",,", ',')), vec!["", "", ""]);
}

#[test]
fn split_row_on_default_delimiter() {
    assert_eq!(fields(&split_row("one  two three", ' ')), vec!["one", "", "two", "three"]);
}

#[test]
fn split_row_on_multibyte_delimiter() {
    let row = split_row("ä→öö→ü", '→');
    assert_eq!(row, vec![("ä", 1), ("öö", 2), ("ü", 1)]);
}

#[test]
fn split_row_fields_borrow_the_line() {
    let line = String::from("x;yz");
    let row = split_row(&line, ';');
    assert_eq!(row[1].0.as_ptr(), line[2..].as_ptr());
}

#[test]
fn split_row_counts_grapheme_clusters_not_code_points() {
    // a letter with a combining accent: two code points, three bytes
    let row = split_row("e\u{301},o\u{308}\u{332}", ',');
    assert_eq!(widths(&row), vec![1, 1]);
    assert_eq!(row[0].0.chars().count(), 2);
    assert_eq!(row[1].0.chars().count(), 3);
}

#[test]
fn split_row_counts_a_flag_as_one() {
    let row = split_row("🇩🇪,🇷🇺🇸🇹", ',');
    assert_eq!(widths(&row), vec![1, 2]);
    assert_eq!(row[0].0.chars().count(), 2);
}

#[test]
fn split_row_counts_return_and_line_feed_as_one() {
    assert_eq!(widths(&split_row("a\r\nb", ',')), vec![3]);
}

#[test]
fn split_row_twice_gives_the_same_widths() {
    let line = "naïve|e\u{301}té|🇩🇪|";
    let first = split_row(line, '|');
    let second = split_row(line, '|');
    assert_eq!(widths(&first), vec![5, 3, 1, 0]);
    assert_eq!(first, second);
}

#[test]
fn split_row_joined_again_is_the_line() {
    for line in ["", ",", "a,,b", ",x", "x,", "no delimiter", "é,→,🇩🇪"] {
        let row = split_row(line, ',');
        assert_eq!(fields(&row).join(","), line);
        assert!(fields(&row).iter().all(|field| !field.contains(',')));
    }
}

#[test]
fn parse_document_of_empty_text_has_no_rows() {
    assert!(parse_document("", ',').is_empty());
}

#[test]
fn parse_document_has_one_row_per_line() {
    let document = parse_document("a,bb,ccc\nd,ee,f", ',');
    assert_eq!(document, vec![vec![("a", 1), ("bb", 2), ("ccc", 3)], vec![("d", 1), ("ee", 2), ("f", 1)]]);
}

#[test]
fn parse_document_ignores_one_final_line_ending() {
    assert_eq!(parse_document("a b\nc\n", ' '), vec![vec![("a", 1), ("b", 1)], vec![("c", 1)]]);
    assert_eq!(parse_document("a\r\n", ' '), vec![vec![("a", 1)]]);
}

#[test]
fn parse_document_keeps_blank_lines() {
    let document = parse_document("a\n\nb\n\n", ',');
    assert_eq!(document, vec![vec![("a", 1)], vec![("", 0)], vec![("b", 1)], vec![("", 0)]]);
    assert_eq!(parse_document("\n", ','), vec![vec![("", 0)]]);
}

#[test]
fn parse_document_strips_return_before_line_feed() {
    let document = parse_document("a,b\r\nc,d\r\n", ',');
    assert_eq!(document, vec![vec![("a", 1), ("b", 1)], vec![("c", 1), ("d", 1)]]);
}

#[test]
fn parse_document_strips_only_one_return() {
    let document = parse_document("a\r\r\nb", ',');
    assert_eq!(document, vec![vec![("a\r", 2)], vec![("b", 1)]]);
}

#[test]
fn parse_document_keeps_a_return_without_line_feed() {
    assert_eq!(parse_document("a\rb", ','), vec![vec![("a\rb", 3)]]);
    assert_eq!(parse_document("a\nb\r", ','), vec![vec![("a", 1)], vec![("b\r", 2)]]);
}

#[test]
fn parse_document_agrees_with_lines_of_std() {
    for text in ["", "\n", "\r\n", "a", "a\n", "a\r", "\ra", "a\n\nb", "a\r\n\r\nb\r", "x\n\r\ny\n"] {
        let document = parse_document(text, '\u{0}');
        let lines: Vec<&str> = document.iter().map(|row| row[0].0).collect();
        assert_eq!(lines, text.lines().collect::<Vec<_>>());
        assert!(document.iter().all(|row| row.len() == 1));
    }
}

#[test]
fn parse_document_rows_may_differ_in_length() {
    let document = parse_document("a\nb c d\ne f", ' ');
    let lengths: Vec<usize> = document.iter().map(|row| row.len()).collect();
    assert_eq!(lengths, vec![1, 3, 2]);
}
