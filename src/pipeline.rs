//! Turning raw cells into classified values, one row at a time, for the
//! per-column aggregators.

use vstd::prelude::*;
use crate::date::{date_of_text, parse_date_from_text};
use crate::encapsulators::ColumnType;

verus! {

/// Why a row cannot be handed out to the columns.
#[derive(Clone, Copy, Debug, PartialEq, Eq, Structural)]
pub enum RowError {
    /// The row has fewer cells than there are columns.
    ShortRow,
}

/// The optional text, as a character sequence.
pub open spec fn opt_view(o: Option<String>) -> Option<Seq<char>> {
    match o {
        Some(s) => Some(s@),
        None => None,
    }
}

/// `v` is what the cell `cell` classifies as, where `number` is the canonical
/// text of the number that the cell reads as, if it reads as one: a number
/// first, then a date, else text.
pub open spec fn classified_as(v: ColumnType, cell: Seq<char>, number: Option<Seq<char>>) -> bool {
    match number {
        Some(k) => v is Number && v->Number_0@ == k,
        None => match date_of_text(cell) {
            Some(d) => v == ColumnType::Date(d),
            None => v is Text && v->Text_0@ == cell,
        },
    }
}

/// Classifies one cell. `number_text` is the canonical text of the number
/// that the cell reads as, or `None` where it is not a number.
pub fn classify_cell(cell: &str, number_text: Option<String>) -> (r: ColumnType)
    ensures
        classified_as(r, cell@, opt_view(number_text)),
{
    match number_text {
        Some(k) => ColumnType::Number(k),
        None => match parse_date_from_text(cell) {
            Some(d) => ColumnType::Date(d),
            None => ColumnType::Text(cell.to_string()),
        },
    }
}

/// Classifies the first `width` cells of a row, one value per column; a row
/// shorter than `width` is refused. `number_texts[i]` is the canonical
/// number text of `row[i]`, as for `classify_cell`.
pub fn classify_row(row: &Vec<String>, number_texts: &Vec<Option<String>>, width: usize) -> (r:
    Result<Vec<ColumnType>, RowError>)
    requires
        number_texts@.len() == row@.len(),
    ensures
        r is Err <==> row@.len() < width,
        r is Err ==> r == Err::<Vec<ColumnType>, RowError>(RowError::ShortRow),
        r is Ok ==> r->Ok_0@.len() == width && forall|i: int|
            0 <= i < width ==> classified_as(
                #[trigger] r->Ok_0@[i],
                row@[i]@,
                opt_view(number_texts@[i]),
            ),
{
    if row.len() < width {
        return Err(RowError::ShortRow);
    }
    let mut out: Vec<ColumnType> = Vec::new();
    let mut i: usize = 0;
    while i < width
        invariant
            width <= row@.len(),
            number_texts@.len() == row@.len(),
            0 <= i <= width,
            out@.len() == i,
            forall|j: int|
                0 <= j < i ==> classified_as(
                    #[trigger] out@[j],
                    row@[j]@,
                    opt_view(number_texts@[j]),
                ),
        decreases width - i,
    {
        let number_text = match &number_texts[i] {
            Some(k) => Some(k.clone()),
            None => None,
        };
        out.push(classify_cell(row[i].as_str(), number_text));
        i = i + 1;
    }
    Ok(out)
}

} // verus!
