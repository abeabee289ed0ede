use xpad::{configure_output, parse_document, Alignment, Column, OutputConfig};

fn widths(config: &OutputConfig) -> Vec<usize> {
    config.columns.iter().map(|column| column.width).collect()
}

fn alignments(config: &OutputConfig) -> Vec<Alignment> {
    config.columns.iter().map(|column| column.alignment).collect()
}

#[test]
fn default_alignment_is_left() {
    assert_eq!(Alignment::default(), Alignment::Left);
}

#[test]
fn alignment_codes() {
    assert_eq!(Alignment::from_code("l"), Some(Alignment::Left));
    assert_eq!(Alignment::from_code("r"), Some(Alignment::Right));
    assert_eq!(Alignment::from_code("c"), Some(Alignment::Center));
}

#[test]
fn alignment_codes_that_are_none() {
    for code in ["", "L", "x", "lr", "left", " l", "ł"] {
        assert_eq!(Alignment::from_code(code), None);
    }
}

#[test]
fn columns_are_as_wide_as_their_widest_field() {
    let document = parse_document("a,bb,ccc\nd,ee,f", ',');
    let config = configure_output(&document, &[], ' ');
    assert_eq!(widths(&config), vec![1, 2, 3]);
    assert_eq!(alignments(&config), vec![Alignment::Left; 3]);
    assert_eq!(config.separator, ' ');
}

#[test]
fn a_later_row_widens_a_column() {
    let document = parse_document("a,b\nccc,d\ne,ff", ',');
    assert_eq!(widths(&configure_output(&document, &[], '|')), vec![3, 2]);
}

#[test]
fn listed_alignment_applies_by_index() {
    let document = parse_document("a,bb,ccc\nd,ee,f", ',');
    let config = configure_output(&document, &[Alignment::Right], ' ');
    assert_eq!(widths(&config), vec![1, 2, 3]);
    assert_eq!(alignments(&config), vec![Alignment::Right, Alignment::Left, Alignment::Left]);
}

#[test]
fn alignment_does_not_depend_on_row_order() {
    let given = [Alignment::Center, Alignment::Right, Alignment::Left, Alignment::Right];
    let short_first = parse_document("a\nb c d\ne f", ' ');
    let long_first = parse_document("b c d\ne f\na", ' ');
    let expected = vec![Alignment::Center, Alignment::Right, Alignment::Left];
    assert_eq!(alignments(&configure_output(&short_first, &given, ' ')), expected);
    assert_eq!(alignments(&configure_output(&long_first, &given, ' ')), expected);
}

#[test]
fn as_many_columns_as_the_longest_row() {
    let document = parse_document("a\nb c d\ne f", ' ');
    let config = configure_output(&document, &[], ' ');
    assert_eq!(config.columns.len(), 3);
    assert_eq!(widths(&config), vec![1, 1, 1]);
}

#[test]
fn every_field_fits_its_column() {
    let document = parse_document("naïve;🇩🇪🇩🇪🇩🇪;x\ne\u{301};;long field\n;", ';');
    let config = configure_output(&document, &[], ' ');
    assert_eq!(widths(&config), vec![5, 3, 10]);
    for row in &document {
        for (index, cell) in row.iter().enumerate() {
            assert!(config.columns[index].width >= cell.1);
        }
    }
}

#[test]
fn empty_document_has_no_columns() {
    let document = parse_document("", ',');
    let config = configure_output(&document, &[Alignment::Right, Alignment::Center], ';');
    assert!(config.columns.is_empty());
    assert_eq!(config.separator, ';');
}

#[test]
fn rows_without_fields_add_no_column() {
    let document = vec![vec![], vec![("ab", 2)], vec![]];
    assert_eq!(widths(&configure_output(&document, &[], ' ')), vec![2]);
    let none: Vec<Vec<(&str, usize)>> = vec![vec![], vec![]];
    assert!(configure_output(&none, &[], ' ').columns.is_empty());
}

#[test]
fn widths_are_taken_as_recorded() {
    let document = vec![vec![("ab", 7)], vec![("abcdef", 3)]];
    assert_eq!(widths(&configure_output(&document, &[], ' ')), vec![7]);
}

#[test]
fn a_configuration_can_be_written_down() {
    let config = OutputConfig {
        separator: '|',
        columns: vec![Column { alignment: Alignment::Center, width: 4 }],
    };
    assert_eq!(config.columns[0].width, 4);
    assert_eq!(config.columns[0].alignment, Alignment::Center);
}
