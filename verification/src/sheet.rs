//! Decoding the tokens of a worksheet part into cells.
//!
//! The decoder reads the tokens in order and keeps four things between them: the current
//! row, the current column, the kind of value that cells hold, and whether character data
//! is a cell's value. `step` is the transition, `progress` its run over a token list, and
//! `decode_cells` the function that computes it.

use vstd::prelude::*;
use crate::cell::{Cell, CellView, Value, ValueView};
use crate::errors::Error;
use crate::text::{i64_of_text, parse_i64, parse_usize, same_text, usize_of_text};
use crate::xml_events::{views, Attribute, AttributeView, Token, TokenView};

verus! {

/// How the text of a cell's value is read.
#[derive(Clone, Copy, Debug, PartialEq, Eq, Structural)]
pub enum ValueType {
    /// The text is an index into the shared-string table.
    String,
    /// The text is a number.
    Number,
}

/// What the decoder keeps between two tokens.
pub struct Reading {
    /// The number of the row being read; 0 before the first row.
    pub row: usize,
    /// How many cells of the current row have begun.
    pub column: nat,
    /// How the next value is read. A cell that names no kind leaves it as it was.
    pub kind: ValueType,
    /// Whether the last start element was a `v`.
    pub capture: bool,
}

/// The decoder before the first token.
pub open spec fn initial_reading() -> Reading {
    Reading { row: 0, column: 0, kind: ValueType::String, capture: false }
}

/// The row number after the attributes of a `row` element: each attribute `r` sets it, and
/// must hold an unsigned decimal integer.
pub open spec fn row_after(attributes: Seq<AttributeView>, row: usize) -> Result<usize, Error>
    decreases attributes.len(),
{
    if attributes.len() == 0 {
        Ok(row)
    } else {
        match row_after(attributes.drop_last(), row) {
            Err(e) => Err(e),
            Ok(before) => if attributes.last().name == "r"@ {
                match usize_of_text(attributes.last().value) {
                    Some(number) => Ok(number),
                    None => Err(Error::ParseInt),
                }
            } else {
                Ok(before)
            },
        }
    }
}

/// The kind of value after the attributes of a `c` element: an attribute `t` that holds
/// `s` or `n` sets it, anything else leaves it.
pub open spec fn kind_after(attributes: Seq<AttributeView>, kind: ValueType) -> ValueType
    decreases attributes.len(),
{
    if attributes.len() == 0 {
        kind
    } else {
        let before = kind_after(attributes.drop_last(), kind);
        if attributes.last().name == "t"@ {
            if attributes.last().value == "s"@ {
                ValueType::String
            } else if attributes.last().value == "n"@ {
                ValueType::Number
            } else {
                before
            }
        } else {
            before
        }
    }
}

/// The value that the text of a `v` element denotes. Text of the string kind is an index
/// into `strings`. Text of the number kind is an integer where it reads as one, and is
/// kept as text where it does not.
pub open spec fn value_of_text(kind: ValueType, text: Seq<char>, strings: Seq<Seq<char>>) -> Result<
    ValueView,
    Error,
> {
    match kind {
        ValueType::String => match usize_of_text(text) {
            None => Err(Error::ParseInt),
            Some(index) => if index < strings.len() {
                Ok(ValueView::String(strings[index as int]))
            } else {
                Err(Error::Lookup)
            },
        },
        ValueType::Number => match i64_of_text(text) {
            Some(number) => Ok(ValueView::Integer(number)),
            None => Ok(ValueView::Float(text)),
        },
    }
}

/// One transition of the decoder: the state after `token`, and the cell that the token
/// completes, if it completes one.
pub open spec fn step(reading: Reading, token: TokenView, strings: Seq<Seq<char>>) -> Result<
    (Reading, Option<CellView>),
    Error,
> {
    match token {
        TokenView::Start { name, attributes } => {
            if name == "row"@ {
                match row_after(attributes, reading.row) {
                    Ok(row) => Ok(
                        (Reading { row, column: 0, kind: reading.kind, capture: false }, None),
                    ),
                    Err(e) => Err(e),
                }
            } else if name == "c"@ {
                Ok(
                    (
                        Reading {
                            row: reading.row,
                            column: reading.column + 1,
                            kind: kind_after(attributes, reading.kind),
                            capture: false,
                        },
                        None,
                    ),
                )
            } else {
                Ok(
                    (
                        Reading {
                            row: reading.row,
                            column: reading.column,
                            kind: reading.kind,
                            capture: name == "v"@,
                        },
                        None,
                    ),
                )
            }
        },
        TokenView::Characters(text) => {
            if reading.capture {
                match value_of_text(reading.kind, text, strings) {
                    Ok(value) => Ok(
                        (
                            reading,
                            Some(CellView { row: reading.row, column: reading.column, value }),
                        ),
                    ),
                    Err(e) => Err(e),
                }
            } else {
                Ok((reading, None))
            }
        },
        TokenView::Failure => Err(Error::XmlRead),
        TokenView::End => Ok((reading, None)),
        TokenView::Other => Ok((reading, None)),
    }
}

/// How far a run of the decoder has come: its state, the cells decoded so far, and the
/// failure that ended it, if one did.
pub struct Progress {
    pub reading: Reading,
    pub cells: Seq<CellView>,
    pub failure: Option<Error>,
}

/// The run after one more token. A run that has failed stays as it is.
pub open spec fn advance(run: Progress, token: TokenView, strings: Seq<Seq<char>>) -> Progress {
    if run.failure is Some {
        run
    } else {
        match step(run.reading, token, strings) {
            Ok((reading, Some(cell))) => Progress {
                reading,
                cells: run.cells.push(cell),
                failure: None,
            },
            Ok((reading, None)) => Progress { reading, cells: run.cells, failure: None },
            Err(e) => Progress { reading: run.reading, cells: run.cells, failure: Some(e) },
        }
    }
}

/// The run of the decoder over `tokens`, from its initial state.
pub open spec fn progress(tokens: Seq<TokenView>, strings: Seq<Seq<char>>) -> Progress
    decreases tokens.len(),
{
    if tokens.len() == 0 {
        Progress { reading: initial_reading(), cells: Seq::empty(), failure: None }
    } else {
        advance(progress(tokens.drop_last(), strings), tokens.last(), strings)
    }
}

/// A failure ends a run: the tokens after it change nothing.
pub proof fn lemma_failure_ends_run(tokens: Seq<TokenView>, strings: Seq<Seq<char>>, k: int)
    requires
        0 <= k <= tokens.len(),
        progress(tokens.take(k), strings).failure is Some,
    ensures
        progress(tokens, strings) == progress(tokens.take(k), strings),
    decreases tokens.len(),
{
    if k == tokens.len() {
        assert(tokens.take(k) =~= tokens);
    } else {
        assert(tokens.drop_last().take(k) =~= tokens.take(k));
        lemma_failure_ends_run(tokens.drop_last(), strings, k);
    }
}

/// Whether `token` is a `row` start element.
pub open spec fn is_row_start(token: TokenView) -> bool {
    token matches TokenView::Start { name, .. } && name == "row"@
}

/// Whether `token` is a `c` start element.
pub open spec fn is_cell_start(token: TokenView) -> bool {
    token matches TokenView::Start { name, .. } && name == "c"@
}

/// The number of `c` start elements among `tokens`.
pub open spec fn cell_starts(tokens: Seq<TokenView>) -> nat
    decreases tokens.len(),
{
    if tokens.len() == 0 {
        0
    } else if is_cell_start(tokens.last()) {
        cell_starts(tokens.drop_last()) + 1
    } else {
        cell_starts(tokens.drop_last())
    }
}

/// A `row` element sets the row to the number that its attributes give, whatever the row
/// was before, and the column to zero.
pub proof fn lemma_row_element_sets_row(tokens: Seq<TokenView>, strings: Seq<Seq<char>>)
    requires
        tokens.len() > 0,
        is_row_start(tokens.last()),
        progress(tokens, strings).failure is None,
    ensures
        row_after(
            tokens.last()->attributes,
            progress(tokens.drop_last(), strings).reading.row,
        ) == Ok::<usize, Error>(progress(tokens, strings).reading.row),
        progress(tokens, strings).reading.column == 0,
{
}

/// Row numbers come from the `row` elements, not from counting: as long as no `row`
/// element follows, the row stays what it was, and every cell decoded meanwhile carries
/// it.
pub proof fn lemma_rows_come_from_row_elements(
    tokens: Seq<TokenView>,
    strings: Seq<Seq<char>>,
    k: int,
)
    requires
        0 <= k <= tokens.len(),
        forall|j: int| k <= j < tokens.len() ==> !is_row_start(#[trigger] tokens[j]),
    ensures
        progress(tokens, strings).reading.row == progress(tokens.take(k), strings).reading.row,
        progress(tokens.take(k), strings).cells.len() <= progress(tokens, strings).cells.len(),
        forall|c: int|
            progress(tokens.take(k), strings).cells.len() <= c < progress(
                tokens,
                strings,
            ).cells.len() ==> (#[trigger] progress(tokens, strings).cells[c]).row == progress(
                tokens.take(k),
                strings,
            ).reading.row,
    decreases tokens.len(),
{
    if k == tokens.len() {
        assert(tokens.take(k) =~= tokens);
    } else {
        let front = tokens.drop_last();
        assert(front.take(k) =~= tokens.take(k));
        assert forall|j: int| k <= j < front.len() implies !is_row_start(#[trigger] front[j]) by {
            assert(front[j] == tokens[j]);
        }
        lemma_rows_come_from_row_elements(front, strings, k);
        assert(!is_row_start(tokens[tokens.len() - 1]));
    }
}

/// Columns count the `c` elements of a row: as long as no `row` element follows and the
/// run does not fail, the column grows by one with each `c` element, whatever address
/// the element carries.
pub proof fn lemma_columns_count_cell_elements(
    tokens: Seq<TokenView>,
    strings: Seq<Seq<char>>,
    k: int,
)
    requires
        0 <= k <= tokens.len(),
        progress(tokens, strings).failure is None,
        forall|j: int| k <= j < tokens.len() ==> !is_row_start(#[trigger] tokens[j]),
    ensures
        progress(tokens.take(k), strings).failure is None,
        progress(tokens, strings).reading.column == progress(
            tokens.take(k),
            strings,
        ).reading.column + cell_starts(tokens.skip(k)),
    decreases tokens.len(),
{
    if k == tokens.len() {
        assert(tokens.take(k) =~= tokens);
        assert(tokens.skip(k) =~= Seq::<TokenView>::empty());
    } else {
        let front = tokens.drop_last();
        assert(front.take(k) =~= tokens.take(k));
        assert(tokens.skip(k).drop_last() =~= front.skip(k));
        assert(tokens.skip(k).last() == tokens.last());
        assert forall|j: int| k <= j < front.len() implies !is_row_start(#[trigger] front[j]) by {
            assert(front[j] == tokens[j]);
        }
        lemma_columns_count_cell_elements(front, strings, k);
        assert(!is_row_start(tokens[tokens.len() - 1]));
    }
}

/// A decoded cell carries the row and the column that the decoder had come to when the
/// text of its value was read.
pub proof fn lemma_cell_carries_position(tokens: Seq<TokenView>, strings: Seq<Seq<char>>)
    requires
        tokens.len() > 0,
        progress(tokens, strings).cells.len() > progress(tokens.drop_last(), strings).cells.len(),
    ensures
        tokens.last() is Characters,
        progress(tokens, strings).cells.len() == progress(tokens.drop_last(), strings).cells.len()
            + 1,
        progress(tokens, strings).cells.last().row == progress(
            tokens.drop_last(),
            strings,
        ).reading.row,
        progress(tokens, strings).cells.last().column == progress(
            tokens.drop_last(),
            strings,
        ).reading.column,
        value_of_text(
            progress(tokens.drop_last(), strings).reading.kind,
            tokens.last()->Characters_0,
            strings,
        ) == Ok::<ValueView, Error>(progress(tokens, strings).cells.last().value),
{
}

/// No decoded cell is empty: a cell without a value gives no cell at all, and every cell
/// that is given holds text or a number.
pub proof fn lemma_no_decoded_cell_is_empty(tokens: Seq<TokenView>, strings: Seq<Seq<char>>)
    ensures
        forall|i: int|
            0 <= i < progress(tokens, strings).cells.len() ==> !((#[trigger] progress(
                tokens,
                strings,
            ).cells[i]).value is Empty),
    decreases tokens.len(),
{
    if tokens.len() > 0 {
        lemma_no_decoded_cell_is_empty(tokens.drop_last(), strings);
    }
}

/// A run only ever adds cells: the cells decoded from a part of the tokens stay, in
/// their places, when more tokens follow.
pub proof fn lemma_cells_are_kept(tokens: Seq<TokenView>, strings: Seq<Seq<char>>, k: int)
    requires
        0 <= k <= tokens.len(),
    ensures
        progress(tokens.take(k), strings).cells.is_prefix_of(progress(tokens, strings).cells),
    decreases tokens.len(),
{
    if k == tokens.len() {
        assert(tokens.take(k) =~= tokens);
    } else {
        assert(tokens.drop_last().take(k) =~= tokens.take(k));
        lemma_cells_are_kept(tokens.drop_last(), strings, k);
    }
}

/// The cells decoded from a worksheet's tokens, and the failure that stopped the
/// decoder, where one did: then `cells` holds what was decoded before it.
pub struct Decoded {
    pub cells: Vec<Cell>,
    pub failure: Option<Error>,
}

struct Decoder {
    row: usize,
    column: usize,
    kind: ValueType,
    capture: bool,
}

impl View for Decoder {
    type V = Reading;

    closed spec fn view(&self) -> Reading {
        Reading {
            row: self.row,
            column: self.column as nat,
            kind: self.kind,
            capture: self.capture,
        }
    }
}

fn read_row(attributes: &Vec<Attribute>, row: usize) -> (r: Result<usize, Error>)
    ensures
        r == row_after(views(attributes@), row),
{
    let mut current = row;
    let mut i: usize = 0;
    assert(views(attributes@).take(0) =~= Seq::<AttributeView>::empty());
    while i < attributes.len()
        invariant
            i <= attributes.len(),
            row_after(views(attributes@).take(i as int), row) == Ok::<usize, Error>(current),
        decreases attributes.len() - i,
    {
        let ghost upto = views(attributes@).take(i + 1);
        assert(upto.drop_last() =~= views(attributes@).take(i as int));
        assert(upto.last() == attributes@[i as int]@);
        if same_text(attributes[i].name.as_str(), "r") {
            match parse_usize(attributes[i].value.as_str()) {
                Some(number) => {
                    current = number;
                },
                None => {
                    proof {
                        lemma_row_failure_is_final(views(attributes@), row, i + 1);
                    }
                    return Err(Error::ParseInt);
                },
            }
        }
        i = i + 1;
    }
    assert(views(attributes@).take(i as int) =~= views(attributes@));
    Ok(current)
}

/// Once an attribute `r` fails to read, the attributes after it change nothing.
proof fn lemma_row_failure_is_final(attributes: Seq<AttributeView>, row: usize, k: int)
    requires
        0 <= k <= attributes.len(),
        row_after(attributes.take(k), row) is Err,
    ensures
        row_after(attributes, row) == row_after(attributes.take(k), row),
    decreases attributes.len(),
{
    if k == attributes.len() {
        assert(attributes.take(k) =~= attributes);
    } else {
        assert(attributes.drop_last().take(k) =~= attributes.take(k));
        lemma_row_failure_is_final(attributes.drop_last(), row, k);
    }
}

fn read_kind(attributes: &Vec<Attribute>, kind: ValueType) -> (r: ValueType)
    ensures
        r == kind_after(views(attributes@), kind),
{
    let mut current = kind;
    let mut i: usize = 0;
    assert(views(attributes@).take(0) =~= Seq::<AttributeView>::empty());
    while i < attributes.len()
        invariant
            i <= attributes.len(),
            kind_after(views(attributes@).take(i as int), kind) == current,
        decreases attributes.len() - i,
    {
        let ghost upto = views(attributes@).take(i + 1);
        assert(upto.drop_last() =~= views(attributes@).take(i as int));
        assert(upto.last() == attributes@[i as int]@);
        if same_text(attributes[i].name.as_str(), "t") {
            if same_text(attributes[i].value.as_str(), "s") {
                current = ValueType::String;
            } else if same_text(attributes[i].value.as_str(), "n") {
                current = ValueType::Number;
            }
        }
        i = i + 1;
    }
    assert(views(attributes@).take(i as int) =~= views(attributes@));
    current
}

fn read_value(kind: ValueType, text: &String, strings: &Vec<String>) -> (r: Result<Value, Error>)
    ensures
        match r {
            Ok(value) => value_of_text(kind, text@, views(strings@)) == Ok::<ValueView, Error>(
                value@,
            ),
            Err(e) => value_of_text(kind, text@, views(strings@)) == Err::<ValueView, Error>(e),
        },
{
    match kind {
        ValueType::String => match parse_usize(text.as_str()) {
            None => Err(Error::ParseInt),
            Some(index) => {
                if index < strings.len() {
                    Ok(Value::String(strings[index].clone()))
                } else {
                    Err(Error::Lookup)
                }
            },
        },
        ValueType::Number => match parse_i64(text.as_str()) {
            Some(number) => Ok(Value::Integer(number)),
            None => Ok(Value::Float(text.clone())),
        },
    }
}

impl Decoder {
    fn step(&mut self, token: &Token, strings: &Vec<String>) -> (r: Result<Option<Cell>, Error>)
        requires
            old(self).column < usize::MAX,
        ensures
            match r {
                Ok(cell) => step(old(self)@, token@, views(strings@)) == Ok::<
                    (Reading, Option<CellView>),
                    Error,
                >(
                    (
                        final(self)@,
                        match cell {
                            Some(c) => Some(c@),
                            None => None,
                        },
                    ),
                ),
                Err(e) => step(old(self)@, token@, views(strings@)) == Err::<
                    (Reading, Option<CellView>),
                    Error,
                >(e),
            },
            final(self).column <= old(self).column + 1,
    {
        match token {
            Token::Start { name, attributes } => {
                if same_text(name.as_str(), "row") {
                    match read_row(attributes, self.row) {
                        Ok(row) => {
                            self.row = row;
                            self.column = 0;
                            self.capture = false;
                            Ok(None)
                        },
                        Err(e) => Err(e),
                    }
                } else if same_text(name.as_str(), "c") {
                    self.kind = read_kind(attributes, self.kind);
                    self.column = self.column + 1;
                    self.capture = false;
                    Ok(None)
                } else {
                    self.capture = same_text(name.as_str(), "v");
                    Ok(None)
                }
            },
            Token::Characters(text) => {
                if self.capture {
                    match read_value(self.kind, text, strings) {
                        Ok(value) => Ok(Some(Cell { row: self.row, column: self.column, value })),
                        Err(e) => Err(e),
                    }
                } else {
                    Ok(None)
                }
            },
            Token::Failure => Err(Error::XmlRead),
            Token::End => Ok(None),
            Token::Other => Ok(None),
        }
    }
}

/// Decodes the tokens of a worksheet part. `strings` is the shared-string table that
/// cells of the string kind index. Decoding stops at the first failure: a row number or a
/// string index that is no integer, a string index past the table, or the tokenizer's own
/// read failure.
pub fn decode_cells(tokens: &Vec<Token>, strings: &Vec<String>) -> (decoded: Decoded)
    ensures
        views(decoded.cells@) == progress(views(tokens@), views(strings@)).cells,
        decoded.failure == progress(views(tokens@), views(strings@)).failure,
{
    let mut decoder = Decoder { row: 0, column: 0, kind: ValueType::String, capture: false };
    let mut cells: Vec<Cell> = Vec::new();
    let mut i: usize = 0;
    assert(views(tokens@).take(0) =~= Seq::<TokenView>::empty());
    assert(views(cells@) =~= Seq::<CellView>::empty());
    while i < tokens.len()
        invariant
            i <= tokens.len(),
            decoder.column <= i,
            progress(views(tokens@).take(i as int), views(strings@)).reading == decoder@,
            progress(views(tokens@).take(i as int), views(strings@)).cells == views(cells@),
            progress(views(tokens@).take(i as int), views(strings@)).failure is None,
        decreases tokens.len() - i,
    {
        let ghost upto = views(tokens@).take(i + 1);
        let ghost before = views(cells@);
        assert(upto.drop_last() =~= views(tokens@).take(i as int));
        assert(upto.last() == tokens@[i as int]@);
        match decoder.step(&tokens[i], strings) {
            Ok(Some(cell)) => {
                cells.push(cell);
                assert(views(cells@) =~= before.push(cell@));
            },
            Ok(None) => {},
            Err(e) => {
                proof {
                    lemma_failure_ends_run(views(tokens@), views(strings@), i + 1);
                }
                return Decoded { cells, failure: Some(e) };
            },
        }
        i = i + 1;
    }
    assert(views(tokens@).take(i as int) =~= views(tokens@));
    Decoded { cells, failure: None }
}

} // verus!
