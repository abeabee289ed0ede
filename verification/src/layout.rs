//! Column widths and alignments of a document.

use crate::segment::{grapheme_count, measured, Document, Row};
use vstd::prelude::*;
use vstd::string::StrSliceExecFns;

verus! {

/// How a field is placed within its column.
#[derive(Clone, Copy, Debug, PartialEq, Eq, Structural)]
pub enum Alignment {
    Left,
    Right,
    Center,
}

impl Default for Alignment {
    fn default() -> (alignment: Alignment)
        ensures
            alignment == Alignment::Left,
    {
        Alignment::Left
    }
}

/// The alignment that a one-letter code stands for: `l`, `r` or `c`.
pub open spec fn alignment_of_code(code: Seq<char>) -> Option<Alignment> {
    if code == seq!['l'] {
        Some(Alignment::Left)
    } else if code == seq!['r'] {
        Some(Alignment::Right)
    } else if code == seq!['c'] {
        Some(Alignment::Center)
    } else {
        None
    }
}

impl Alignment {
    /// Reads an alignment from its one-letter code. Anything but `l`, `r` or
    /// `c` is no code.
    pub fn from_code(code: &str) -> (alignment: Option<Alignment>)
        ensures
            alignment == alignment_of_code(code@),
    {
        if code.unicode_len() != 1 {
            return None;
        }
        let letter = code.get_char(0);
        assert(code@ =~= seq![letter]);
        if letter == 'l' {
            Some(Alignment::Left)
        } else if letter == 'r' {
            Some(Alignment::Right)
        } else if letter == 'c' {
            Some(Alignment::Center)
        } else {
            None
        }
    }
}

/// A column of the output: how its fields are aligned and how wide it is.
pub struct Column {
    pub alignment: Alignment,
    pub width: usize,
}

/// What the renderer needs besides the document: the character that joins
/// the fields of a row, and the columns in index order.
pub struct OutputConfig {
    pub separator: char,
    pub columns: Vec<Column>,
}

/// The alignment of column `index`: the one listed for it, or `Left` where
/// the list is too short.
pub open spec fn alignment_at(alignments: Seq<Alignment>, index: int) -> Alignment {
    if 0 <= index < alignments.len() {
        alignments[index]
    } else {
        Alignment::Left
    }
}

/// `count` is the length of the longest of the rows, or 0 where there are none.
pub open spec fn is_column_count(document: Seq<Row>, count: nat) -> bool {
    &&& forall|r: int| 0 <= r < document.len() ==> (#[trigger] document[r])@.len() <= count
    &&& count == 0 || exists|r: int|
        0 <= r < document.len() && (#[trigger] document[r])@.len() == count
}

/// `width` is the largest width recorded at `index` in any row that reaches
/// that far, and some row does.
pub open spec fn is_column_width(document: Seq<Row>, index: int, width: nat) -> bool {
    &&& forall|r: int|
        0 <= r < document.len() && index < (#[trigger] document[r])@.len() ==> document[r]@[index].1
            <= width
    &&& exists|r: int|
        0 <= r < document.len() && index < (#[trigger] document[r])@.len() && document[r]@[index].1
            == width
}

/// The cell at `index` of row `row` has been taken into account once the rows
/// before `rows_done` are finished and `cells_done` cells of the next one.
spec fn visited(
    document: Seq<Row>,
    rows_done: int,
    cells_done: int,
    row: int,
    index: int,
) -> bool {
    &&& 0 <= row < document.len()
    &&& 0 <= index < document[row]@.len()
    &&& row < rows_done || (row == rows_done && index < cells_done)
}

/// Some visited cell at `index` has exactly the width `width`.
spec fn attained(
    document: Seq<Row>,
    rows_done: int,
    cells_done: int,
    index: int,
    width: usize,
) -> bool {
    exists|r: int|
        visited(document, rows_done, cells_done, r, index) && (#[trigger] document[r]@[index]).1
            == width
}

/// What holds of the columns while the document is being scanned.
spec fn columns_cover(
    document: Seq<Row>,
    alignments: Seq<Alignment>,
    rows_done: int,
    cells_done: int,
    columns: Seq<Column>,
) -> bool {
    &&& forall|r: int, i: int| #[trigger]
        visited(document, rows_done, cells_done, r, i) ==> i < columns.len()
            && document[r]@[i].1 <= columns[i].width
    &&& forall|i: int|
        0 <= i < columns.len() ==> attained(
            document,
            rows_done,
            cells_done,
            i,
            (#[trigger] columns[i]).width,
        )
    &&& forall|i: int|
        0 <= i < columns.len() ==> (#[trigger] columns[i]).alignment == alignment_at(alignments, i)
}

/// Once every row is finished, the columns are the widest fields of the
/// document, as many as its longest row has.
proof fn lemma_cover_is_layout(
    document: Seq<Row>,
    alignments: Seq<Alignment>,
    columns: Seq<Column>,
)
    requires
        columns_cover(document, alignments, document.len() as int, 0, columns),
    ensures
        is_column_count(document, columns.len()),
        forall|i: int|
            0 <= i < columns.len() ==> is_column_width(
                document,
                i,
                (#[trigger] columns[i]).width as nat,
            ),
{
    let rows = document.len() as int;
    assert forall|r: int| 0 <= r < document.len() implies (#[trigger] document[r])@.len()
        <= columns.len() by {
        if document[r]@.len() > columns.len() {
            let i = columns.len() as int;
            assert(visited(document, rows, 0, r, i));
        }
    }
    if columns.len() > 0 {
        let i = columns.len() - 1;
        let r = choose|r: int|
            visited(document, rows, 0, r, i) && (#[trigger] document[r]@[i]).1 == columns[i].width;
        assert(document[r]@.len() == columns.len());
    }
    assert forall|i: int| 0 <= i < columns.len() implies is_column_width(
        document,
        i,
        (#[trigger] columns[i]).width as nat,
    ) by {
        assert forall|r: int|
            0 <= r < document.len() && i < (#[trigger] document[r])@.len() implies document[r]@[i].1
            <= columns[i].width by {
            assert(visited(document, rows, 0, r, i));
        }
        let r = choose|r: int|
            visited(document, rows, 0, r, i) && (#[trigger] document[r]@[i]).1 == columns[i].width;
        assert(0 <= r < document.len() && i < document[r]@.len() && document[r]@[i].1
            == columns[i].width);
    }
}

/// Derives the output configuration of a document: one column for every
/// index that some row reaches, as wide as the widest field recorded there,
/// aligned as `alignments` says for that index.
pub fn configure_output(
    document: &Document,
    alignments: &[Alignment],
    output_separator: char,
) -> (config: OutputConfig)
    ensures
        config.separator == output_separator,
        is_column_count(document@, config.columns@.len()),
        forall|i: int|
            0 <= i < config.columns@.len() ==> (#[trigger] config.columns@[i]).alignment
                == alignment_at(alignments@, i),
        forall|i: int|
            0 <= i < config.columns@.len() ==> is_column_width(
                document@,
                i,
                (#[trigger] config.columns@[i]).width as nat,
            ),
        forall|r: int, i: int|
            0 <= r < document@.len() && 0 <= i < document@[r]@.len() && measured(document@[r]@)
                ==> i < config.columns@.len() && config.columns@[i].width >= grapheme_count(
                (#[trigger] document@[r]@[i]).0@,
            ),
{
    let mut columns: Vec<Column> = Vec::new();
    let mut r: usize = 0;
    while r < document.len()
        invariant
            r <= document@.len(),
            columns_cover(document@, alignments@, r as int, 0, columns@),
        decreases document@.len() - r,
    {
        let row = &document[r];
        let mut idx: usize = 0;
        while idx < row.len()
            invariant
                r < document@.len(),
                row@ == document@[r as int]@,
                idx <= row@.len(),
                idx <= columns@.len(),
                columns_cover(document@, alignments@, r as int, idx as int, columns@),
            decreases row@.len() - idx,
        {
            let width = row[idx].1;
            let ghost before = columns@;
            if idx < columns.len() {
                let column = &columns[idx];
                if column.width < width {
                    let widened = Column { alignment: column.alignment, width };
                    columns.set(idx, widened);
                }
            } else {
                let alignment = if idx < alignments.len() {
                    alignments[idx]
                } else {
                    Alignment::Left
                };
                columns.push(Column { alignment, width });
            }
            proof {
                lemma_cover_step(document@, alignments@, r as int, idx as int, before, columns@);
            }
            idx += 1;
        }
        proof {
            lemma_cover_next_row(document@, alignments@, r as int, columns@);
        }
        r += 1;
    }
    proof {
        lemma_cover_is_layout(document@, alignments@, columns@);
        assert forall|r: int, i: int|
            0 <= r < document@.len() && 0 <= i < document@[r]@.len() && measured(
                document@[r]@,
            ) implies i < columns@.len() && columns@[i].width >= grapheme_count(
            (#[trigger] document@[r]@[i]).0@,
        ) by {
            assert(visited(document@, document@.len() as int, 0, r, i));
        }
    }
    OutputConfig { separator: output_separator, columns }
}

/// A column made wide enough for a field of width `width`.
spec fn widened(column: Column, width: usize) -> Column {
    Column {
        alignment: column.alignment,
        width: if column.width < width {
            width
        } else {
            column.width
        },
    }
}

/// Taking one more cell of the current row into account keeps the columns
/// covering what has been visited.
proof fn lemma_cover_step(
    document: Seq<Row>,
    alignments: Seq<Alignment>,
    r: int,
    idx: int,
    before: Seq<Column>,
    after: Seq<Column>,
)
    requires
        0 <= r < document.len(),
        0 <= idx < document[r]@.len(),
        columns_cover(document, alignments, r, idx, before),
        idx <= before.len(),
        idx < before.len() ==> after =~= before.update(idx, widened(before[idx], document[r]@[idx].1)),
        idx == before.len() ==> after == before.push(
            (Column { alignment: alignment_at(alignments, idx), width: document[r]@[idx].1 }),
        ),
    ensures
        columns_cover(document, alignments, r, idx + 1, after),
{
    assert forall|rr: int, i: int| #[trigger]
        visited(document, r, idx + 1, rr, i) implies i < after.len() && document[rr]@[i].1
        <= after[i].width by {
        if rr != r || i != idx {
            assert(visited(document, r, idx, rr, i));
        }
    }
    assert forall|i: int| 0 <= i < after.len() implies attained(
        document,
        r,
        idx + 1,
        i,
        (#[trigger] after[i]).width,
    ) by {
        if i == idx && after[i].width == document[r]@[idx].1 {
            assert(visited(document, r, idx + 1, r, i));
        } else {
            let rr = choose|rr: int|
                visited(document, r, idx, rr, i) && (#[trigger] document[rr]@[i]).1
                    == before[i].width;
            assert(visited(document, r, idx + 1, rr, i));
        }
    }
}

/// A finished row counts as one of the rows before the next.
proof fn lemma_cover_next_row(
    document: Seq<Row>,
    alignments: Seq<Alignment>,
    r: int,
    columns: Seq<Column>,
)
    requires
        0 <= r < document.len(),
        columns_cover(document, alignments, r, document[r]@.len() as int, columns),
    ensures
        columns_cover(document, alignments, r + 1, 0, columns),
{
    let full = document[r]@.len() as int;
    assert forall|rr: int, i: int| #[trigger]
        visited(document, r + 1, 0, rr, i) implies i < columns.len() && document[rr]@[i].1
        <= columns[i].width by {
        assert(visited(document, r, full, rr, i));
    }
    assert forall|i: int| 0 <= i < columns.len() implies attained(
        document,
        r + 1,
        0,
        i,
        (#[trigger] columns[i]).width,
    ) by {
        let rr = choose|rr: int|
            visited(document, r, full, rr, i) && (#[trigger] document[rr]@[i]).1
                == columns[i].width;
        assert(visited(document, r + 1, 0, rr, i));
    }
}

} // verus!
