//! The sheet directory of a workbook part: which sheets there are, by name.

use vstd::prelude::*;
use crate::errors::Error;
use crate::table::{has_key, lemma_put_keys, put, Table};
use crate::text::same_text;
use crate::xml_events::{
    attribute_value, find_attribute, has_failure, lemma_failure_in_front, views, AttributeView,
    Token, TokenView,
};

verus! {

/// What the workbook part says of one sheet.
#[derive(Clone, Debug, PartialEq, Eq)]
pub struct Sheet {
    /// The sheet's numeric id, as text.
    pub id: String,
    /// The id of the relationship that leads to the sheet's part.
    pub relation: String,
}

/// A [`Sheet`] over character sequences.
pub struct SheetView {
    pub id: Seq<char>,
    pub relation: Seq<char>,
}

impl View for Sheet {
    type V = SheetView;

    open spec fn view(&self) -> SheetView {
        SheetView { id: self.id@, relation: self.relation@ }
    }
}

/// The entries of a sheet directory: sheet names with what the workbook says of them.
pub type SheetEntries = Seq<(Seq<char>, SheetView)>;

/// What a `sheet` element declares: under the name of its attribute `name`, the numeric id
/// of its attribute `sheetId` and the relationship id of its attribute `id`. An attribute
/// that is missing counts as empty.
pub open spec fn declared_sheet(attributes: Seq<AttributeView>) -> (Seq<char>, SheetView) {
    (
        attribute_value(attributes, "name"@),
        SheetView {
            id: attribute_value(attributes, "sheetId"@),
            relation: attribute_value(attributes, "id"@),
        },
    )
}

/// Whether `token` is a `sheet` start element that gives the sheet the name `name`.
pub open spec fn declares_sheet_named(token: TokenView, name: Seq<char>) -> bool {
    token matches TokenView::Start { name: element, attributes } && element == "sheet"@
        && attribute_value(attributes, "name"@) == name
}

/// Whether some `sheet` element among `tokens` gives its sheet the name `name`.
pub open spec fn names_sheet(tokens: Seq<TokenView>, name: Seq<char>) -> bool {
    exists|i: int| 0 <= i < tokens.len() && declares_sheet_named(#[trigger] tokens[i], name)
}


/// The directory after one token: a `sheet` start element stores what it declares, any
/// other token changes nothing.
pub open spec fn with_sheet(entries: SheetEntries, token: TokenView) -> SheetEntries {
    match token {
        TokenView::Start { name, attributes } => if name == "sheet"@ {
            put(entries, declared_sheet(attributes).0, declared_sheet(attributes).1)
        } else {
            entries
        },
        _ => entries,
    }
}

/// The directory after the tokens of a workbook part, and whether the tokenizer failed on
/// the part. Tokens are read up to the first read failure.
pub open spec fn sheets_run(entries: SheetEntries, tokens: Seq<TokenView>) -> (SheetEntries, bool)
    decreases tokens.len(),
{
    if tokens.len() == 0 {
        (entries, false)
    } else {
        let before = sheets_run(entries, tokens.drop_last());
        if before.1 || tokens.last() is Failure {
            (before.0, true)
        } else {
            (with_sheet(before.0, tokens.last()), false)
        }
    }
}

/// After a read failure the remaining tokens change nothing.
pub proof fn lemma_sheets_run_stops(entries: SheetEntries, tokens: Seq<TokenView>, k: int)
    requires
        0 <= k <= tokens.len(),
        sheets_run(entries, tokens.take(k)).1,
    ensures
        sheets_run(entries, tokens) == sheets_run(entries, tokens.take(k)),
    decreases tokens.len(),
{
    if k == tokens.len() {
        assert(tokens.take(k) =~= tokens);
    } else {
        assert(tokens.drop_last().take(k) =~= tokens.take(k));
        lemma_sheets_run_stops(entries, tokens.drop_last(), k);
    }
}

/// Reading a workbook part fails exactly when the tokenizer failed on it.
pub proof fn lemma_sheets_run_fails_on_failure(entries: SheetEntries, tokens: Seq<TokenView>)
    ensures
        sheets_run(entries, tokens).1 <==> has_failure(tokens),
    decreases tokens.len(),
{
    if tokens.len() > 0 {
        lemma_sheets_run_fails_on_failure(entries, tokens.drop_last());
        lemma_failure_in_front(tokens);
    }
}

/// The names in the directory after a workbook part is read are the names that were in
/// it and the names that the `sheet` elements of the part declare, and no others.
pub proof fn lemma_sheets_are_those_declared(
    entries: SheetEntries,
    tokens: Seq<TokenView>,
    name: Seq<char>,
)
    requires
        !sheets_run(entries, tokens).1,
    ensures
        has_key(sheets_run(entries, tokens).0, name) <==> has_key(entries, name) || names_sheet(
            tokens,
            name,
        ),
    decreases tokens.len(),
{
    if tokens.len() > 0 {
        let front = tokens.drop_last();
        let before = sheets_run(entries, front).0;
        lemma_sheets_are_those_declared(entries, front, name);
        if names_sheet(front, name) {
            let i = choose|i: int| 0 <= i < front.len() && declares_sheet_named(
                #[trigger] front[i],
                name,
            );
            assert(declares_sheet_named(tokens[i], name));
        }
        if names_sheet(tokens, name) {
            let i = choose|i: int| 0 <= i < tokens.len() && declares_sheet_named(
                #[trigger] tokens[i],
                name,
            );
            if i < front.len() {
                assert(declares_sheet_named(front[i], name));
            }
        }
        if declares_sheet_named(tokens.last(), name) {
            assert(declares_sheet_named(tokens[tokens.len() - 1], name));
        }
        match tokens.last() {
            TokenView::Start { name: element, attributes } => {
                if element == "sheet"@ {
                    lemma_put_keys(
                        before,
                        declared_sheet(attributes).0,
                        declared_sheet(attributes).1,
                    );
                }
            },
            _ => {},
        }
    }
}

/// Reads the tokens of a workbook part into `sheets`. Each `sheet` start element stores
/// its sheet under its name; a name that comes again replaces the earlier sheet. The
/// tokenizer's read failure ends the reading with `Error::XmlRead`, and is the only
/// failure.
pub fn read_sheets(tokens: &Vec<Token>, sheets: &mut Table<Sheet>) -> (r: Result<(), Error>)
    ensures
        final(sheets)@ == sheets_run(old(sheets)@, views(tokens@)).0,
        r == if sheets_run(old(sheets)@, views(tokens@)).1 {
            Err::<(), Error>(Error::XmlRead)
        } else {
            Ok::<(), Error>(())
        },
{
    let mut i: usize = 0;
    assert(views(tokens@).take(0) =~= Seq::<TokenView>::empty());
    while i < tokens.len()
        invariant
            i <= tokens.len(),
            sheets_run(old(sheets)@, views(tokens@).take(i as int)) == (sheets@, false),
        decreases tokens.len() - i,
    {
        let ghost upto = views(tokens@).take(i + 1);
        assert(upto.drop_last() =~= views(tokens@).take(i as int));
        assert(upto.last() == tokens@[i as int]@);
        match &tokens[i] {
            Token::Start { name, attributes } => {
                if same_text(name.as_str(), "sheet") {
                    let sheet_name = find_attribute(attributes, "name");
                    let id = find_attribute(attributes, "sheetId");
                    let relation = find_attribute(attributes, "id");
                    sheets.insert(sheet_name, Sheet { id, relation });
                }
            },
            Token::Failure => {
                proof {
                    lemma_sheets_run_stops(old(sheets)@, views(tokens@), i + 1);
                }
                return Err(Error::XmlRead);
            },
            _ => {},
        }
        i = i + 1;
    }
    assert(views(tokens@).take(i as int) =~= views(tokens@));
    Ok(())
}

} // verus!
