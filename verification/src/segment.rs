//! Cutting text into rows of measured fields.

use crate::slice::{first_delimiter, split_line, split_once, strip_return};
use unicode_segmentation::UnicodeSegmentation;
use vstd::prelude::*;

verus! {

/// One field of a row: its text and its display width in grapheme clusters.
pub type Cell<'input> = (&'input str, usize);

/// The fields of one line, in the order in which they stood.
pub type Row<'input> = Vec<Cell<'input>>;

/// The rows of a text, one per line, in the order in which they stood.
pub type Document<'input> = Vec<Row<'input>>;

/// The number of extended grapheme clusters of a text.
pub uninterp spec fn grapheme_count(text: Seq<char>) -> nat;

/// Counts the extended grapheme clusters of `text` with
/// `unicode_segmentation::UnicodeSegmentation::graphemes`. The count is a
/// function of the characters alone; nothing more is claimed of it here.
#[verifier::external_body]
pub(crate) fn count_graphemes(text: &str) -> (count: usize)
    ensures
        count as nat == grapheme_count(text@),
{
    text.graphemes(true).count()
}

/// The texts of the cells of a row.
pub open spec fn texts(row: Seq<Cell>) -> Seq<Seq<char>> {
    Seq::new(row.len(), |i: int| row[i].0@)
}

/// Every cell of the row carries the grapheme count of its own text.
pub open spec fn measured(row: Seq<Cell>) -> bool {
    forall|i: int| 0 <= i < row.len() ==> (#[trigger] row[i]).1 as nat == grapheme_count(row[i].0@)
}

/// The fields of a line: what stands before the first delimiter, and then
/// the fields of what follows it. A line without a delimiter is one field.
pub open spec fn split_on(text: Seq<char>, delimiter: char) -> Seq<Seq<char>>
    decreases text.len(),
{
    let cut = first_delimiter(text, delimiter) as int;
    if cut >= text.len() {
        seq![text]
    } else {
        seq![text.take(cut)] + split_on(text.skip(cut + 1), delimiter)
    }
}

/// The lines of a text. A line ends at a line feed, or at a carriage return
/// directly followed by one, or at the end of the text; what ends it is not
/// part of it, and nothing follows the last line ending.
pub open spec fn lines_of(text: Seq<char>) -> Seq<Seq<char>>
    decreases text.len(),
{
    let cut = first_delimiter(text, '\n') as int;
    if text.len() == 0 {
        seq![]
    } else if cut >= text.len() {
        seq![text]
    } else {
        seq![strip_return(text.take(cut))] + lines_of(text.skip(cut + 1))
    }
}

/// The fields put together again, with `separator` between each two.
pub open spec fn join(fields: Seq<Seq<char>>, separator: char) -> Seq<char>
    decreases fields.len(),
{
    if fields.len() == 0 {
        Seq::empty()
    } else if fields.len() == 1 {
        fields[0]
    } else {
        fields[0].push(separator) + join(fields.drop_first(), separator)
    }
}

/// What precedes the first delimiter of a text holds none.
pub proof fn lemma_first_delimiter_is_first(text: Seq<char>, delimiter: char)
    ensures
        first_delimiter(text, delimiter) <= text.len(),
        first_delimiter(text, delimiter) < text.len() ==> text[first_delimiter(
            text,
            delimiter,
        ) as int] == delimiter,
        !text.take(first_delimiter(text, delimiter) as int).contains(delimiter),
    decreases text.len(),
{
    let cut = first_delimiter(text, delimiter) as int;
    if text.len() > 0 && text[0] != delimiter {
        let rest = text.drop_first();
        lemma_first_delimiter_is_first(rest, delimiter);
        let head = text.take(cut);
        assert forall|i: int| 0 <= i < head.len() implies head[i] != delimiter by {
            if i > 0 {
                assert(rest.take(cut - 1)[i - 1] == head[i]);
            }
        }
    }
}

/// Splitting loses nothing and leaves no delimiter behind: a line has at
/// least one field, no field holds the delimiter, and the fields joined by
/// the delimiter are the line again.
pub proof fn lemma_join_split(line: Seq<char>, delimiter: char)
    ensures
        split_on(line, delimiter).len() >= 1,
        forall|i: int|
            0 <= i < split_on(line, delimiter).len() ==> !(#[trigger] split_on(
                line,
                delimiter,
            )[i]).contains(delimiter),
        join(split_on(line, delimiter), delimiter) == line,
    decreases line.len(),
{
    let cut = first_delimiter(line, delimiter) as int;
    let fields = split_on(line, delimiter);
    lemma_first_delimiter_is_first(line, delimiter);
    if cut >= line.len() {
        assert(line.take(cut) =~= line);
    } else {
        let rest = line.skip(cut + 1);
        lemma_join_split(rest, delimiter);
        assert(fields.drop_first() =~= split_on(rest, delimiter));
        assert forall|i: int| 0 <= i < fields.len() implies !(#[trigger] fields[i]).contains(
            delimiter,
        ) by {
            if i > 0 {
                assert(fields[i] == split_on(rest, delimiter)[i - 1]);
            }
        }
    }
}

/// Measuring is repeatable: two rows that were split from the same line at
/// the same delimiter have the same number of fields, with the same texts
/// and the same widths.
pub proof fn lemma_split_widths_agree(
    line: Seq<char>,
    delimiter: char,
    first: Seq<Cell>,
    second: Seq<Cell>,
)
    requires
        texts(first) == split_on(line, delimiter),
        measured(first),
        texts(second) == split_on(line, delimiter),
        measured(second),
    ensures
        first.len() == second.len(),
        forall|i: int|
            0 <= i < first.len() ==> (#[trigger] first[i]).0@ == second[i].0@ && first[i].1
                == second[i].1,
{
    assert(texts(second).len() == second.len());
    assert forall|i: int| 0 <= i < first.len() implies (#[trigger] first[i]).0@ == second[i].0@
        && first[i].1 == second[i].1 by {
        assert(texts(first)[i] == texts(second)[i]);
    }
}

/// Splits a line into its fields at every `delimiter` and measures each
/// field in grapheme clusters. Delimiters that stand side by side, or at
/// either end, give empty fields.
pub fn split_row<'input>(input: &'input str, delimiter: char) -> (row: Row<'input>)
    ensures
        texts(row@) == split_on(input@, delimiter),
        measured(row@),
{
    let mut row: Row<'input> = Vec::new();
    let mut rest = input;
    loop
        invariant_except_break
            texts(row@) + split_on(rest@, delimiter) == split_on(input@, delimiter),
        invariant
            measured(row@),
        ensures
            texts(row@) == split_on(input@, delimiter),
            measured(row@),
        decreases rest@.len(),
    {
        match split_once(rest, delimiter) {
            Some((head, tail)) => {
                let width = count_graphemes(head);
                row.push((head, width));
                rest = tail;
            },
            None => {
                let width = count_graphemes(rest);
                row.push((rest, width));
                break ;
            },
        }
    }
    row
}

/// The rows are the given lines, split at `delimiter` and measured.
pub open spec fn parses(document: Seq<Row>, lines: Seq<Seq<char>>, delimiter: char) -> bool {
    &&& document.len() == lines.len()
    &&& forall|r: int|
        0 <= r < document.len() ==> texts((#[trigger] document[r])@) == split_on(
            lines[r],
            delimiter,
        ) && measured(document[r]@)
}

/// Parses a text into a document: one row for each of its lines, split at
/// `delimiter`. The document borrows the text.
pub fn parse_document<'input>(input: &'input str, delimiter: char) -> (document: Document<'input>)
    ensures
        parses(document@, lines_of(input@), delimiter),
{
    let mut document: Document<'input> = Vec::new();
    let mut rest = input;
    let ghost mut done: Seq<Seq<char>> = Seq::empty();
    loop
        invariant_except_break
            done + lines_of(rest@) == lines_of(input@),
        invariant
            parses(document@, done, delimiter),
        ensures
            done == lines_of(input@),
        decreases rest@.len(),
    {
        if rest.is_empty() {
            break ;
        }
        match split_line(rest) {
            (line, Some(tail)) => {
                document.push(split_row(line, delimiter));
                proof {
                    done = done.push(line@);
                }
                rest = tail;
            },
            (line, None) => {
                document.push(split_row(line, delimiter));
                proof {
                    done = done.push(line@);
                }
                break ;
            },
        }
    }
    document
}

} // verus!
