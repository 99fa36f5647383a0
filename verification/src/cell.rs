//! Cells and their values.

use vstd::prelude::*;

verus! {

/// The value of a cell.
#[derive(Clone, Debug, PartialEq, Eq)]
pub enum Value {
    /// Text, taken from the shared-string table.
    String(String),
    /// A number written as a decimal integer that fits 64 bits.
    Integer(i64),
    /// A number written in any other way: its text, as the cell holds it. This library
    /// does no floating-point arithmetic; to read the text as a floating-point number, or
    /// to refuse it, is left to the caller.
    Float(String),
    /// No value. No cell that is decoded from a worksheet holds it.
    Empty,
}

/// A cell of a worksheet: where it stands and what it holds.
#[derive(Clone, Debug, PartialEq, Eq)]
pub struct Cell {
    /// The row number that the enclosing row element declares.
    pub row: usize,
    /// The position of the cell among the cells of its row, counted from 1.
    pub column: usize,
    pub value: Value,
}

/// The cells of one worksheet, in document order.
#[derive(Clone, Debug, PartialEq, Eq)]
pub struct WorkSheet {
    pub cells: Vec<Cell>,
}

/// A [`Value`] over character sequences.
pub enum ValueView {
    String(Seq<char>),
    Integer(i64),
    Float(Seq<char>),
    Empty,
}

/// A [`Cell`] over mathematical values.
pub struct CellView {
    pub row: usize,
    pub column: nat,
    pub value: ValueView,
}

impl View for Value {
    type V = ValueView;

    open spec fn view(&self) -> ValueView {
        match *self {
            Value::String(text) => ValueView::String(text@),
            Value::Integer(number) => ValueView::Integer(number),
            Value::Float(text) => ValueView::Float(text@),
            Value::Empty => ValueView::Empty,
        }
    }
}

impl View for Cell {
    type V = CellView;

    open spec fn view(&self) -> CellView {
        CellView { row: self.row, column: self.column as nat, value: self.value@ }
    }
}

impl View for WorkSheet {
    type V = Seq<CellView>;

    open spec fn view(&self) -> Seq<CellView> {
        crate::xml_events::views(self.cells@)
    }
}

} // verus!
