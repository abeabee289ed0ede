//! Writing rows out again, padded to the widths of their columns.

use crate::layout::{Alignment, Column, OutputConfig};
use crate::segment::{
    count_graphemes, grapheme_count, join, lemma_first_delimiter_is_first, lemma_join_split,
    lines_of, parses, split_on, texts, Document, Row,
};
use crate::slice::{first_delimiter, strip_return};
use itertools::{Itertools, Position};
use vstd::prelude::*;
use vstd::string::StringExecFns;

verus! {

/// `count` fill characters.
pub open spec fn spaces(count: nat) -> Seq<char> {
    Seq::new(count, |i: int| ' ')
}

/// How many fill characters a text of width `text_width` gets in a column of
/// width `width`: what it falls short by, and none where it is wider.
pub open spec fn gap(text_width: nat, width: nat) -> nat {
    if text_width < width {
        (width - text_width) as nat
    } else {
        0
    }
}

/// A text of width `text_width` placed in a column of width `width`. The text
/// is never cut. Centred, an odd remainder goes behind the text.
pub open spec fn padded(text: Seq<char>, text_width: nat, width: nat, alignment: Alignment) -> Seq<
    char,
> {
    let fill = gap(text_width, width);
    match alignment {
        Alignment::Left => text + spaces(fill),
        Alignment::Right => spaces(fill) + text,
        Alignment::Center => spaces(fill / 2) + text + spaces((fill - fill / 2) as nat),
    }
}

/// Appends one character to `out` with `String::push`.
#[verifier::external_body]
fn push_char(out: &mut String, c: char)
    ensures
        final(out)@ == old(out)@.push(c),
{
    out.push(c)
}

/// Appends `count` fill characters to `out`.
fn push_spaces(out: &mut String, count: usize)
    ensures
        final(out)@ == old(out)@ + spaces(count as nat),
{
    let mut done: usize = 0;
    while done < count
        invariant
            done <= count,
            out@ == old(out)@ + spaces(done as nat),
        decreases count - done,
    {
        push_char(out, ' ');
        done += 1;
    }
}

/// Appends `text`, whose width is `text_width`, to `out`, padded to `width`
/// as `alignment` says.
pub fn pad_field(
    out: &mut String,
    text: &str,
    text_width: usize,
    width: usize,
    alignment: Alignment,
)
    ensures
        final(out)@ == old(out)@ + padded(text@, text_width as nat, width as nat, alignment),
{
    let fill = if text_width < width {
        width - text_width
    } else {
        0
    };
    match alignment {
        Alignment::Left => {
            out.append(text);
            push_spaces(out, fill);
        },
        Alignment::Right => {
            push_spaces(out, fill);
            out.append(text);
        },
        Alignment::Center => {
            let before = fill / 2;
            push_spaces(out, before);
            out.append(text);
            push_spaces(out, fill - before);
        },
    }
}

/// Appends `text` to `out`, padded to `width` as `alignment` says. The width
/// of the text is the number of its grapheme clusters.
pub fn write_col(out: &mut String, text: &str, width: usize, alignment: Alignment)
    ensures
        final(out)@ == old(out)@ + padded(
            text@,
            grapheme_count(text@),
            width as nat,
            alignment,
        ),
{
    let text_width = count_graphemes(text);
    pad_field(out, text, text_width, width, alignment);
}

/// Where a field stands among the fields that are written of its row.
enum Place {
    First,
    Middle,
    Last,
    Only,
}

/// The place of the field at `index` among `count` fields.
spec fn place_of(index: int, count: int) -> Place {
    if count == 1 {
        Place::Only
    } else if index == 0 {
        Place::First
    } else if index == count - 1 {
        Place::Last
    } else {
        Place::Middle
    }
}

/// The places of `count` fields in order, as
/// `itertools::Itertools::with_position` marks the items of an iterator of
/// that length: a single item is the only one; otherwise the first and the
/// last are marked as such and the others stand in the middle.
#[verifier::external_body]
fn places(count: usize) -> (marks: Vec<Place>)
    ensures
        marks@.len() == count,
        forall|i: int| 0 <= i < count ==> #[trigger] marks@[i] == place_of(i, count as int),
{
    (0..count).with_position().map(
        |position| match position {
            Position::First(_) => Place::First,
            Position::Middle(_) => Place::Middle,
            Position::Last(_) => Place::Last,
            Position::Only(_) => Place::Only,
        },
    ).collect()
}

/// How many fields of a row are written: those that have a column.
pub open spec fn written(fields: Seq<Seq<char>>, columns: Seq<Column>) -> nat {
    if fields.len() < columns.len() {
        fields.len()
    } else {
        columns.len()
    }
}

/// The field at `index`, padded to its column.
pub open spec fn field_text(fields: Seq<Seq<char>>, columns: Seq<Column>, index: int) -> Seq<char> {
    padded(
        fields[index],
        grapheme_count(fields[index]),
        columns[index].width as nat,
        columns[index].alignment,
    )
}

/// The first `upto` written fields of a row, each padded to its column and
/// followed by the separator, or by a line feed where it is the last one
/// written.
pub open spec fn row_prefix(
    fields: Seq<Seq<char>>,
    columns: Seq<Column>,
    separator: char,
    upto: nat,
) -> Seq<char>
    decreases upto,
{
    if upto == 0 {
        Seq::empty()
    } else {
        let index = upto - 1;
        let end = if upto == written(fields, columns) {
            '\n'
        } else {
            separator
        };
        row_prefix(fields, columns, separator, index as nat) + field_text(fields, columns, index).push(
            end,
        )
    }
}

/// A row as it is written: its fields paired with the columns by index, as
/// far as both reach, joined by the separator and ended by a line feed.
/// Nothing at all where no field has a column.
pub open spec fn row_text(fields: Seq<Seq<char>>, columns: Seq<Column>, separator: char) -> Seq<
    char,
> {
    row_prefix(fields, columns, separator, written(fields, columns))
}

/// The first `upto` rows of a document as they are written, one after another.
pub open spec fn document_text(document: Seq<Row>, config: OutputConfig, upto: nat) -> Seq<char>
    decreases upto,
{
    if upto == 0 {
        Seq::empty()
    } else {
        document_text(document, config, (upto - 1) as nat) + row_text(
            texts(document[upto - 1]@),
            config.columns@,
            config.separator,
        )
    }
}

/// The first `upto` of the given lines, each with its delimiters replaced by
/// `separator` and ended by a line feed.
pub open spec fn relined(
    lines: Seq<Seq<char>>,
    delimiter: char,
    separator: char,
    upto: nat,
) -> Seq<char>
    decreases upto,
{
    if upto == 0 {
        Seq::empty()
    } else {
        relined(lines, delimiter, separator, (upto - 1) as nat) + join(
            split_on(lines[upto - 1], delimiter),
            separator,
        ).push('\n')
    }
}

/// The first `upto` of the given lines, each ended by a line feed.
pub open spec fn lines_text(lines: Seq<Seq<char>>, upto: nat) -> Seq<char>
    decreases upto,
{
    if upto == 0 {
        Seq::empty()
    } else {
        lines_text(lines, (upto - 1) as nat) + lines[upto - 1].push('\n')
    }
}

/// The text of some lines begins with the first of them.
proof fn lemma_lines_text_first(lines: Seq<Seq<char>>, upto: nat)
    requires
        0 < upto <= lines.len(),
    ensures
        lines_text(lines, upto) == lines[0].push('\n') + lines_text(
            lines.drop_first(),
            (upto - 1) as nat,
        ),
    decreases upto,
{
    let rest = lines.drop_first();
    if upto > 1 {
        lemma_lines_text_first(lines, (upto - 1) as nat);
        assert(rest[upto - 2] == lines[upto - 1]);
        assert(lines_text(lines, upto) =~= lines[0].push('\n') + lines_text(
            rest,
            (upto - 2) as nat,
        ) + lines[upto - 1].push('\n'));
    } else {
        assert(lines_text(lines, 0) =~= Seq::<char>::empty());
        assert(lines_text(lines, upto) =~= lines[0].push('\n') + lines_text(rest, 0));
    }
}

/// Cutting a text into lines loses nothing but the carriage returns: a text
/// in which every line is ended by a line feed, and no line feed follows a
/// carriage return, is its lines, each ended by a line feed.
pub proof fn lemma_lines_text(text: Seq<char>)
    requires
        text.len() > 0 ==> text.last() == '\n',
        forall|i: int| 0 < i < text.len() && #[trigger] text[i] == '\n' ==> text[i - 1] != '\r',
    ensures
        lines_text(lines_of(text), lines_of(text).len()) == text,
    decreases text.len(),
{
    if text.len() > 0 {
        let cut = first_delimiter(text, '\n') as int;
        lemma_first_delimiter_is_first(text, '\n');
        if cut >= text.len() {
            assert(text.take(cut) =~= text);
            assert(text.take(cut).contains(text.last()));
        } else {
            let head = text.take(cut);
            let rest = text.skip(cut + 1);
            assert(strip_return(head) == head) by {
                if cut > 0 {
                    assert(head.last() == text[cut - 1]);
                }
            }
            assert forall|i: int| 0 < i < rest.len() && #[trigger] rest[i] == '\n' implies rest[i
                - 1] != '\r' by {
                assert(text[cut + 1 + i] == '\n');
            }
            lemma_lines_text(rest);
            let lines = lines_of(text);
            assert(lines.drop_first() =~= lines_of(rest));
            lemma_lines_text_first(lines, lines.len());
            assert(text =~= head.push('\n') + rest);
        }
    }
}

/// Replacing the delimiter by itself leaves the lines as they are.
proof fn lemma_relined_same(lines: Seq<Seq<char>>, delimiter: char, upto: nat)
    ensures
        relined(lines, delimiter, delimiter, upto) == lines_text(lines, upto),
    decreases upto,
{
    if upto > 0 {
        lemma_relined_same(lines, delimiter, (upto - 1) as nat);
        lemma_join_split(lines[upto - 1], delimiter);
    }
}

/// A field that is as wide as its column is written as it is.
proof fn lemma_full_width_unpadded(text: Seq<char>, width: nat, alignment: Alignment)
    ensures
        padded(text, width, width, alignment) == text,
{
}

/// The first fields of a row, each as wide as its column, are written as
/// they are, each followed by the separator.
proof fn lemma_full_width_prefix(
    fields: Seq<Seq<char>>,
    columns: Seq<Column>,
    separator: char,
    upto: nat,
)
    requires
        upto < fields.len() <= columns.len(),
        forall|i: int|
            0 <= i < fields.len() ==> grapheme_count(#[trigger] fields[i]) == columns[i].width,
    ensures
        row_prefix(fields, columns, separator, upto) + join(fields.skip(upto as int), separator)
            == join(fields, separator),
    decreases upto,
{
    if upto == 0 {
        assert(fields.skip(0) =~= fields);
    } else {
        let index = upto - 1;
        lemma_full_width_prefix(fields, columns, separator, index as nat);
        lemma_full_width_unpadded(fields[index], columns[index].width as nat, columns[index].alignment);
        assert(fields.skip(index).drop_first() =~= fields.skip(upto as int));
    }
}

/// A row whose every field is as wide as its column is written as its
/// fields joined by the separator and a line feed, whatever the alignments.
pub proof fn lemma_full_width_row(fields: Seq<Seq<char>>, columns: Seq<Column>, separator: char)
    requires
        0 < fields.len() <= columns.len(),
        forall|i: int|
            0 <= i < fields.len() ==> grapheme_count(#[trigger] fields[i]) == columns[i].width,
    ensures
        row_text(fields, columns, separator) == join(fields, separator).push('\n'),
{
    let count = fields.len();
    let index = count - 1;
    lemma_full_width_prefix(fields, columns, separator, index as nat);
    lemma_full_width_unpadded(fields[index], columns[index].width as nat, columns[index].alignment);
}

/// Rendering gives a text back unchanged where nothing needs padding: if the
/// document was parsed from `lines` and every field is exactly as wide as its
/// column, the rendered text is those lines, each ended by a line feed, with
/// the separator in place of the delimiter; where the separator is the
/// delimiter, it is the lines themselves. This holds whatever the alignments.
pub proof fn lemma_render_round_trip(
    document: Seq<Row>,
    lines: Seq<Seq<char>>,
    delimiter: char,
    config: OutputConfig,
)
    requires
        parses(document, lines, delimiter),
        forall|r: int|
            0 <= r < document.len() ==> (#[trigger] document[r])@.len() <= config.columns@.len(),
        forall|r: int, i: int|
            0 <= r < document.len() && 0 <= i < document[r]@.len() ==> (#[trigger] document[r]@[i]).1
                == config.columns@[i].width,
    ensures
        document_text(document, config, document.len()) == relined(
            lines,
            delimiter,
            config.separator,
            document.len(),
        ),
        config.separator == delimiter ==> document_text(document, config, document.len())
            == lines_text(lines, document.len()),
{
    lemma_round_trip_prefix(document, lines, delimiter, config, document.len());
    lemma_relined_same(lines, delimiter, document.len());
}

/// The round trip, for the first `upto` rows.
proof fn lemma_round_trip_prefix(
    document: Seq<Row>,
    lines: Seq<Seq<char>>,
    delimiter: char,
    config: OutputConfig,
    upto: nat,
)
    requires
        upto <= document.len(),
        parses(document, lines, delimiter),
        forall|r: int|
            0 <= r < document.len() ==> (#[trigger] document[r])@.len() <= config.columns@.len(),
        forall|r: int, i: int|
            0 <= r < document.len() && 0 <= i < document[r]@.len() ==> (#[trigger] document[r]@[i]).1
                == config.columns@[i].width,
    ensures
        document_text(document, config, upto) == relined(lines, delimiter, config.separator, upto),
    decreases upto,
{
    if upto > 0 {
        let r = upto - 1;
        lemma_round_trip_prefix(document, lines, delimiter, config, r as nat);
        let row = document[r]@;
        let fields = texts(row);
        lemma_join_split(lines[r], delimiter);
        assert forall|i: int| 0 <= i < fields.len() implies grapheme_count(#[trigger] fields[i])
            == config.columns@[i].width by {
            assert(row[i].1 == config.columns@[i].width);
        }
        lemma_full_width_row(fields, config.columns@, config.separator);
    }
}

/// Renders one row: every field that has a column is padded to the column's
/// width, the fields are joined by the separator, and a line feed ends the
/// row.
pub fn render_row(row: &Row, config: &OutputConfig) -> (line: String)
    ensures
        line@ == row_text(texts(row@), config.columns@, config.separator),
{
    let count = if row.len() < config.columns.len() {
        row.len()
    } else {
        config.columns.len()
    };
    let marks = places(count);
    let mut line = String::new();
    let mut index: usize = 0;
    while index < count
        invariant
            index <= count,
            count == written(texts(row@), config.columns@),
            marks@.len() == count,
            forall|i: int| 0 <= i < count ==> #[trigger] marks@[i] == place_of(i, count as int),
            line@ == row_prefix(texts(row@), config.columns@, config.separator, index as nat),
        decreases count - index,
    {
        let column = &config.columns[index];
        write_col(&mut line, row[index].0, column.width, column.alignment);
        match marks[index] {
            Place::First | Place::Middle => push_char(&mut line, config.separator),
            Place::Last | Place::Only => push_char(&mut line, '\n'),
        }
        index += 1;
    }
    line
}

/// Renders a document: its rows, each rendered as `render_row` does, one
/// after another.
pub fn render(document: &Document, config: &OutputConfig) -> (text: String)
    ensures
        text@ == document_text(document@, *config, document@.len()),
{
    let mut text = String::new();
    let mut r: usize = 0;
    while r < document.len()
        invariant
            r <= document@.len(),
            text@ == document_text(document@, *config, r as nat),
        decreases document@.len() - r,
    {
        let line = render_row(&document[r], config);
        text.append(line.as_str());
        r += 1;
    }
    text
}

} // verus!
