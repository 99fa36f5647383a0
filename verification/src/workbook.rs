//! The document as a whole: a container, and the three tables that `load` resolves.

use vstd::prelude::*;
use crate::archive::{
    container_of, container_of_bytes, entry_bytes, entry_count, entry_name, entry_name_at,
    open_archive, read_entry, Archive, Container,
};
use crate::bom::{after_bom, strip_bom};
use crate::cell::{CellView, WorkSheet};
use crate::directory::{
    lemma_sheets_are_those_declared, names_sheet, read_sheets, sheets_run, Sheet, SheetEntries,
};
use crate::errors::Error;
use crate::relations::{
    declared_relation, find_target_of_kind, lemma_kind_lookup_ignores_order,
    lemma_last_declaration_is_found, lemma_relations_run_keeps_ids_distinct,
    lemma_undeclared_id_keeps_its_relation, load_relations, relations_run, single_of_kind,
    target_of_kind, token_declares, token_declares_id, Relation, RelationEntries, RelationView,
};
use crate::sheet::{decode_cells, progress};
use crate::strings::{read_shared_strings, strings_run};
use crate::table::{distinct_keys, has_key, keys_of, lookup, mapping, Table};
use crate::text::ends_with;
use crate::xml_events::{tokenize, views, xml_tokens, Token, TokenView};

verus! {

/// A spreadsheet document. `open` makes one of the bytes of a container, with empty
/// tables; `load` fills the tables; `list_worksheet` and `load_worksheet` read them.
/// Before `load` has succeeded the tables are empty and no sheet is known.
pub struct WorkBook {
    archive: Archive,
    strings: Vec<String>,
    relations: Table<Relation>,
    sheets: Table<Sheet>,
}

/// A [`WorkBook`] as mathematics: what its container answers, and its three tables.
pub struct Document {
    pub container: Container,
    /// Relationships by id, in the order in which ids first came.
    pub relations: RelationEntries,
    /// Sheets by name, in the order in which names first came.
    pub sheets: SheetEntries,
    /// The shared strings, by index.
    pub strings: Seq<Seq<char>>,
}

impl View for WorkBook {
    type V = Document;

    closed spec fn view(&self) -> Document {
        Document {
            container: container_of(self.archive),
            relations: self.relations@,
            sheets: self.sheets@,
            strings: views(self.strings@),
        }
    }
}

/// The tokens of the part `name`: those of its bytes after the byte-order mark.
pub open spec fn part_tokens(container: Container, name: Seq<char>) -> Result<
    Seq<TokenView>,
    Error,
> {
    match entry_bytes(container, name) {
        Ok(bytes) => Ok(xml_tokens(after_bom(bytes))),
        Err(e) => Err(e),
    }
}

/// The relationship table after the entries of the container from index `from` on: every
/// entry whose name ends in `.rels` is read into the table, in index order. The first
/// failure stops the reading and is returned with the table as it then stands.
pub open spec fn gathered_relations(
    container: Container,
    entries: RelationEntries,
    from: nat,
) -> (RelationEntries, Option<Error>)
    decreases container.names.len() - from,
{
    if from >= container.names.len() {
        (entries, None)
    } else {
        match container.names[from as int] {
            None => (entries, Some(Error::Zip)),
            Some(name) => if ".rels"@.is_suffix_of(name) {
                match part_tokens(container, name) {
                    Err(e) => (entries, Some(e)),
                    Ok(tokens) => if relations_run(entries, tokens).1 {
                        (relations_run(entries, tokens).0, Some(Error::XmlRead))
                    } else {
                        gathered_relations(container, relations_run(entries, tokens).0, from + 1)
                    },
                }
            } else {
                gathered_relations(container, entries, from + 1)
            },
        }
    }
}

/// The sheet directory after the workbook part is read: the part that the first
/// relationship of the office-document kind points at. Without such a relationship the
/// directory stays as it is, and that is no failure.
pub open spec fn loaded_sheets(
    container: Container,
    relations: RelationEntries,
    sheets: SheetEntries,
) -> (SheetEntries, Option<Error>) {
    match target_of_kind(relations, "/officeDocument"@) {
        None => (sheets, None),
        Some(target) => match part_tokens(container, target) {
            Err(e) => (sheets, Some(e)),
            Ok(tokens) => (
                sheets_run(sheets, tokens).0,
                if sheets_run(sheets, tokens).1 {
                    Some(Error::XmlRead)
                } else {
                    None
                },
            ),
        },
    }
}

/// The shared strings after the shared-strings part is read: the part that the first
/// relationship of the shared-strings kind points at. Without such a relationship the
/// strings stay as they are, and that is no failure.
pub open spec fn loaded_strings(
    container: Container,
    relations: RelationEntries,
    strings: Seq<Seq<char>>,
) -> (Seq<Seq<char>>, Option<Error>) {
    match target_of_kind(relations, "/sharedStrings"@) {
        None => (strings, None),
        Some(target) => match part_tokens(container, target) {
            Err(e) => (strings, Some(e)),
            Ok(tokens) => (
                strings_run(strings, tokens).strings,
                if strings_run(strings, tokens).failed {
                    Some(Error::XmlRead)
                } else {
                    None
                },
            ),
        },
    }
}

/// What `load` makes of a document, and the failure that stopped it, if one did:
/// relationships first, then the sheet directory, then the shared strings. After a
/// failure the tables hold what had been read until then.
pub open spec fn loaded(document: Document) -> (Document, Option<Error>) {
    let relations = gathered_relations(document.container, document.relations, 0);
    let sheets = loaded_sheets(document.container, relations.0, document.sheets);
    let strings = loaded_strings(document.container, relations.0, document.strings);
    if relations.1 is Some {
        (Document { relations: relations.0, ..document }, relations.1)
    } else if sheets.1 is Some {
        (Document { relations: relations.0, sheets: sheets.0, ..document }, sheets.1)
    } else {
        (
            Document {
                container: document.container,
                relations: relations.0,
                sheets: sheets.0,
                strings: strings.0,
            },
            strings.1,
        )
    }
}

/// The tokens of the worksheet `name`: those of the part that the sheet's relationship
/// points at. A name that the directory does not hold, and a sheet whose relationship id
/// the relationship table does not hold, are `Error::Lookup`.
pub open spec fn worksheet_tokens_of(document: Document, name: Seq<char>) -> Result<
    Seq<TokenView>,
    Error,
> {
    match lookup(document.sheets, name) {
        None => Err(Error::Lookup),
        Some(sheet) => match lookup(document.relations, sheet.relation) {
            None => Err(Error::Lookup),
            Some(relation) => part_tokens(document.container, relation.target),
        },
    }
}

/// The cells of the worksheet `name`, or the first failure on the way to them.
pub open spec fn worksheet_of(document: Document, name: Seq<char>) -> Result<
    Seq<CellView>,
    Error,
> {
    match worksheet_tokens_of(document, name) {
        Err(e) => Err(e),
        Ok(tokens) => match progress(tokens, document.strings).failure {
            Some(e) => Err(e),
            None => Ok(progress(tokens, document.strings).cells),
        },
    }
}

/// What `load_worksheet` promises of a call: the document is left as it was, and the
/// result is the worksheet of that document.
pub open spec fn worksheet_loaded(
    before: Document,
    after: Document,
    name: Seq<char>,
    result: Result<Seq<CellView>, Error>,
) -> bool {
    after == before && result == worksheet_of(before, name)
}

/// The cells of a loaded worksheet, or the failure.
pub open spec fn cells_of(result: Result<WorkSheet, Error>) -> Result<Seq<CellView>, Error> {
    match result {
        Ok(sheet) => Ok(sheet@),
        Err(e) => Err(e),
    }
}

/// Loading the same worksheet twice gives the same cells, or the same failure, both
/// times: the first call leaves the document as it was, and what is decoded depends on
/// the document and the name alone.
pub proof fn lemma_load_worksheet_repeats(
    start: Document,
    between: Document,
    end: Document,
    name: Seq<char>,
    first: Result<Seq<CellView>, Error>,
    second: Result<Seq<CellView>, Error>,
)
    requires
        worksheet_loaded(start, between, name, first),
        worksheet_loaded(between, end, name, second),
    ensures
        first == second,
        end == start,
{
}

/// Gathering relationships keeps every relationship id single.
pub proof fn lemma_gathered_relations_keep_ids_distinct(
    container: Container,
    entries: RelationEntries,
    from: nat,
)
    requires
        distinct_keys(entries),
    ensures
        distinct_keys(gathered_relations(container, entries, from).0),
    decreases container.names.len() - from,
{
    if from < container.names.len() {
        match container.names[from as int] {
            None => {},
            Some(name) => {
                if ".rels"@.is_suffix_of(name) {
                    match part_tokens(container, name) {
                        Err(e) => {},
                        Ok(tokens) => {
                            lemma_relations_run_keeps_ids_distinct(entries, tokens);
                            if !relations_run(entries, tokens).1 {
                                lemma_gathered_relations_keep_ids_distinct(
                                    container,
                                    relations_run(entries, tokens).0,
                                    from + 1,
                                );
                            }
                        },
                    }
                } else {
                    lemma_gathered_relations_keep_ids_distinct(container, entries, from + 1);
                }
            },
        }
    }
}

/// After a successful load of a document whose directory was empty, the sheets in the
/// directory are exactly the sheets that the workbook part declares: a name is in the
/// directory if and only if a `sheet` element of that part gives it. Where no
/// relationship of the office-document kind exists, the directory is empty.
pub proof fn lemma_loaded_sheets_are_those_declared(document: Document, name: Seq<char>)
    requires
        document.sheets.len() == 0,
        loaded(document).1 is None,
    ensures
        has_key(loaded(document).0.sheets, name) <==> (target_of_kind(
            loaded(document).0.relations,
            "/officeDocument"@,
        ) matches Some(target) && part_tokens(document.container, target) matches Ok(tokens)
            && names_sheet(tokens, name)),
{
    let relations = gathered_relations(document.container, document.relations, 0).0;
    match target_of_kind(relations, "/officeDocument"@) {
        None => {},
        Some(target) => match part_tokens(document.container, target) {
            Err(e) => {},
            Ok(tokens) => {
                lemma_sheets_are_those_declared(document.sheets, tokens, name);
            },
        },
    }
}

/// The tokens of entry `part` of the container, where the entry is a `.rels` part that
/// can be read; no tokens for any other entry.
pub open spec fn rels_tokens(container: Container, part: int) -> Seq<TokenView> {
    match entry_name_at(container, part) {
        Some(name) => if ".rels"@.is_suffix_of(name) {
            match part_tokens(container, name) {
                Ok(tokens) => tokens,
                Err(_) => Seq::empty(),
            }
        } else {
            Seq::empty()
        },
        None => Seq::empty(),
    }
}

/// Whether token `token` of entry `part` declares a relationship under the id `id`.
pub open spec fn declares_id(container: Container, part: int, token: int, id: Seq<char>) -> bool {
    0 <= token < rels_tokens(container, part).len() && token_declares_id(
        rels_tokens(container, part)[token],
        id,
    )
}

/// Whether token `token` of entry `part` declares `relation` under the id `id`.
pub open spec fn declares(
    container: Container,
    part: int,
    token: int,
    id: Seq<char>,
    relation: RelationView,
) -> bool {
    0 <= token < rels_tokens(container, part).len() && token_declares(
        rels_tokens(container, part)[token],
        id,
        relation,
    )
}

/// Whether no relationship id is declared twice in the container, be it in one part or
/// in two.
pub open spec fn declares_each_id_once(container: Container) -> bool {
    forall|p: int, t: int, q: int, u: int, id: Seq<char>|
        #[trigger] declares_id(container, p, t, id) && #[trigger] declares_id(container, q, u, id)
            ==> p == q && t == u
}

/// Whether two containers hold the same parts: the same names, in whatever order, and
/// the same bytes under each name.
pub open spec fn same_parts(first: Container, second: Container) -> bool {
    &&& first.contents == second.contents
    &&& forall|p: int|
        0 <= p < first.names.len() ==> second.names.contains(#[trigger] first.names[p])
    &&& forall|q: int|
        0 <= q < second.names.len() ==> first.names.contains(#[trigger] second.names[q])
}

/// An id that no part from `from` on declares keeps the relationship it had.
proof fn lemma_gathered_undeclared(
    container: Container,
    entries: RelationEntries,
    from: nat,
    id: Seq<char>,
)
    requires
        distinct_keys(entries),
        gathered_relations(container, entries, from).1 is None,
        forall|p: int, t: int| from <= p ==> !#[trigger] declares_id(container, p, t, id),
    ensures
        lookup(gathered_relations(container, entries, from).0, id) == lookup(entries, id),
    decreases container.names.len() - from,
{
    if from < container.names.len() {
        let name = container.names[from as int]->0;
        if ".rels"@.is_suffix_of(name) {
            let tokens = part_tokens(container, name)->Ok_0;
            assert(rels_tokens(container, from as int) == tokens);
            assert forall|t: int| 0 <= t < tokens.len() implies !token_declares_id(
                #[trigger] tokens[t],
                id,
            ) by {
                assert(!declares_id(container, from as int, t, id));
            }
            lemma_undeclared_id_keeps_its_relation(entries, tokens, id);
            lemma_relations_run_keeps_ids_distinct(entries, tokens);
            lemma_gathered_undeclared(container, relations_run(entries, tokens).0, from + 1, id);
        } else {
            lemma_gathered_undeclared(container, entries, from + 1, id);
        }
    }
}

/// An id that is declared once from `from` on holds, in the end, the relationship that
/// this declaration gives it.
proof fn lemma_gathered_declared_once(
    container: Container,
    entries: RelationEntries,
    from: nat,
    part: int,
    token: int,
    id: Seq<char>,
    relation: RelationView,
)
    requires
        distinct_keys(entries),
        gathered_relations(container, entries, from).1 is None,
        from <= part,
        declares(container, part, token, id, relation),
        forall|p: int, t: int|
            from <= p && #[trigger] declares_id(container, p, t, id) ==> p == part && t == token,
    ensures
        lookup(gathered_relations(container, entries, from).0, id) == Some(relation),
    decreases container.names.len() - from,
{
    assert(part < container.names.len());
    let name = container.names[from as int]->0;
    if ".rels"@.is_suffix_of(name) {
        let tokens = part_tokens(container, name)->Ok_0;
        let after = relations_run(entries, tokens).0;
        assert(rels_tokens(container, from as int) == tokens);
        lemma_relations_run_keeps_ids_distinct(entries, tokens);
        if from == part {
            assert forall|t: int| token < t < tokens.len() implies !token_declares_id(
                #[trigger] tokens[t],
                id,
            ) by {
                if token_declares_id(tokens[t], id) {
                    assert(declares_id(container, part, t, id));
                }
            }
            lemma_last_declaration_is_found(entries, tokens, token, id, relation);
            assert forall|p: int, t: int| from + 1 <= p implies !#[trigger] declares_id(
                container,
                p,
                t,
                id,
            ) by {}
            lemma_gathered_undeclared(container, after, from + 1, id);
        } else {
            lemma_gathered_declared_once(container, after, from + 1, part, token, id, relation);
        }
    } else {
        assert(rels_tokens(container, from as int).len() == 0);
        lemma_gathered_declared_once(container, entries, from + 1, part, token, id, relation);
    }
}

/// Containers that hold the same parts declare the same relationships.
proof fn lemma_same_parts_declare_alike(
    first: Container,
    second: Container,
    part: int,
    token: int,
    id: Seq<char>,
    relation: RelationView,
) -> (other: int)
    requires
        same_parts(first, second),
        declares(first, part, token, id, relation),
    ensures
        declares(second, other, token, id, relation),
{
    assert(0 <= part < first.names.len());
    assert(second.names.contains(first.names[part]));
    let other = choose|q: int| 0 <= q < second.names.len() && second.names[q] == first.names[part];
    assert(rels_tokens(second, other) == rels_tokens(first, part));
    other
}

/// Where no relationship id is declared twice, the relationships gathered do not depend
/// on the order of the parts: two containers that hold the same parts give every id the
/// same relationship.
pub proof fn lemma_gathered_relations_ignore_part_order(first: Container, second: Container)
    requires
        same_parts(first, second),
        declares_each_id_once(first),
        declares_each_id_once(second),
        gathered_relations(first, Seq::empty(), 0).1 is None,
        gathered_relations(second, Seq::empty(), 0).1 is None,
    ensures
        mapping(gathered_relations(first, Seq::empty(), 0).0) == mapping(
            gathered_relations(second, Seq::empty(), 0).0,
        ),
{
    let none = Seq::<(Seq<char>, RelationView)>::empty();
    let a = gathered_relations(first, none, 0).0;
    let b = gathered_relations(second, none, 0).0;
    assert forall|id: Seq<char>| lookup(a, id) == lookup(b, id) by {
        if exists|p: int, t: int| declares_id(first, p, t, id) {
            let (p, t) = choose|p: int, t: int| declares_id(first, p, t, id);
            let relation = declared_relation(rels_tokens(first, p)[t]->attributes).1;
            assert(declares(first, p, t, id, relation));
            let q = lemma_same_parts_declare_alike(first, second, p, t, id, relation);
            assert(declares_id(second, q, t, id));
            lemma_gathered_declared_once(first, none, 0, p, t, id, relation);
            lemma_gathered_declared_once(second, none, 0, q, t, id, relation);
        } else {
            assert forall|q: int, u: int| !#[trigger] declares_id(second, q, u, id) by {
                if declares_id(second, q, u, id) {
                    let relation = declared_relation(rels_tokens(second, q)[u]->attributes).1;
                    assert(declares(second, q, u, id, relation));
                    let p = lemma_same_parts_declare_alike(second, first, q, u, id, relation);
                    assert(declares_id(first, p, u, id));
                }
            }
            lemma_gathered_undeclared(first, none, 0, id);
            lemma_gathered_undeclared(second, none, 0, id);
        }
    }
    assert(mapping(a) =~= mapping(b)) by {
        assert forall|id: Seq<char>| has_key(a, id) == has_key(b, id) && (has_key(a, id)
            ==> mapping(a)[id] == mapping(b)[id]) by {
            assert(lookup(a, id) == lookup(b, id));
        }
    }
}

/// The sheets of a document do not depend on the order of the parts in its container.
/// Take two freshly opened documents whose containers hold the same parts, in whatever
/// order, and let both load. If no relationship id is declared twice, and at most one
/// relationship is of the office-document kind, then both directories hold the same
/// sheets, and the same names are listed.
pub proof fn lemma_sheets_ignore_part_order(first: Document, second: Document)
    requires
        same_parts(first.container, second.container),
        first.relations.len() == 0 && second.relations.len() == 0,
        first.sheets.len() == 0 && second.sheets.len() == 0,
        loaded(first).1 is None,
        loaded(second).1 is None,
        declares_each_id_once(first.container),
        declares_each_id_once(second.container),
        single_of_kind(loaded(first).0.relations, "/officeDocument"@),
    ensures
        loaded(first).0.sheets == loaded(second).0.sheets,
        keys_of(loaded(first).0.sheets) == keys_of(loaded(second).0.sheets),
{
    assert(first.relations =~= Seq::empty());
    assert(second.relations =~= Seq::empty());
    assert(first.sheets =~= second.sheets);
    lemma_gathered_relations_keep_ids_distinct(first.container, first.relations, 0);
    lemma_gathered_relations_keep_ids_distinct(second.container, second.relations, 0);
    lemma_gathered_relations_ignore_part_order(first.container, second.container);
    lemma_kind_lookup_ignores_order(
        loaded(first).0.relations,
        loaded(second).0.relations,
        "/officeDocument"@,
    );
}

/// The result of an operation that has no value: `Ok` without a failure.
pub open spec fn outcome(failure: Option<Error>) -> Result<(), Error> {
    match failure {
        Some(e) => Err(e),
        None => Ok(()),
    }
}

impl WorkBook {
    /// Opens the container that `bytes` hold. The document has empty tables until `load`
    /// has run. Bytes that are no container are `Error::Zip`.
    pub fn open(bytes: Vec<u8>) -> (opened: Result<WorkBook, Error>)
        ensures
            match opened {
                Ok(book) => container_of_bytes(bytes@) == Some(book@.container)
                    && book@.relations.len() == 0 && book@.sheets.len() == 0
                    && book@.strings.len() == 0,
                Err(e) => container_of_bytes(bytes@) is None && e == Error::Zip,
            },
    {
        match open_archive(bytes) {
            Some(archive) => {
                let book = WorkBook {
                    archive,
                    strings: Vec::new(),
                    relations: Table::new(),
                    sheets: Table::new(),
                };
                assert(book@.strings =~= Seq::<Seq<char>>::empty());
                Ok(book)
            },
            None => Err(Error::Zip),
        }
    }

    /// Reads the part `name` and tokenizes it.
    fn load_xml(&mut self, name: &str) -> (r: Result<Vec<Token>, Error>)
        ensures
            final(self)@ == old(self)@,
            match r {
                Ok(tokens) => part_tokens(old(self)@.container, name@) == Ok::<
                    Seq<TokenView>,
                    Error,
                >(views(tokens@)),
                Err(e) => part_tokens(old(self)@.container, name@) == Err::<Seq<TokenView>, Error>(
                    e,
                ),
            },
    {
        match read_entry(&mut self.archive, name) {
            Ok(bytes) => Ok(tokenize(strip_bom(bytes.as_slice()))),
            Err(e) => Err(e),
        }
    }

    /// Reads every `.rels` part into the relationship table.
    fn load_relationships(&mut self) -> (r: Result<(), Error>)
        ensures
            final(self)@ == (Document {
                relations: gathered_relations(old(self)@.container, old(self)@.relations, 0).0,
                ..old(self)@
            }),
            r == outcome(gathered_relations(old(self)@.container, old(self)@.relations, 0).1),
    {
        let n = entry_count(&self.archive);
        let mut i: usize = 0;
        while i < n
            invariant
                i <= n,
                n == old(self)@.container.names.len(),
                self@ == (Document { relations: self@.relations, ..old(self)@ }),
                gathered_relations(old(self)@.container, old(self)@.relations, 0)
                    == gathered_relations(old(self)@.container, self@.relations, i as nat),
            decreases n - i,
        {
            let name = match entry_name(&mut self.archive, i) {
                Some(name) => name,
                None => {
                    return Err(Error::Zip);
                },
            };
            if ends_with(name.as_str(), ".rels") {
                let tokens = match self.load_xml(name.as_str()) {
                    Ok(tokens) => tokens,
                    Err(e) => {
                        return Err(e);
                    },
                };
                match load_relations(&tokens, &mut self.relations) {
                    Ok(()) => {},
                    Err(e) => {
                        return Err(e);
                    },
                }
            }
            i = i + 1;
        }
        Ok(())
    }

    /// Reads the workbook part into the sheet directory.
    fn load_workbook(&mut self) -> (r: Result<(), Error>)
        ensures
            final(self)@ == (Document {
                sheets: loaded_sheets(
                    old(self)@.container,
                    old(self)@.relations,
                    old(self)@.sheets,
                ).0,
                ..old(self)@
            }),
            r == outcome(
                loaded_sheets(old(self)@.container, old(self)@.relations, old(self)@.sheets).1,
            ),
    {
        let target = match find_target_of_kind(&self.relations, "/officeDocument") {
            Some(target) => target,
            None => {
                return Ok(());
            },
        };
        let tokens = match self.load_xml(target.as_str()) {
            Ok(tokens) => tokens,
            Err(e) => {
                return Err(e);
            },
        };
        read_sheets(&tokens, &mut self.sheets)
    }

    /// Reads the shared-strings part into the shared-string table.
    fn load_shared_strings(&mut self) -> (r: Result<(), Error>)
        ensures
            final(self)@ == (Document {
                strings: loaded_strings(
                    old(self)@.container,
                    old(self)@.relations,
                    old(self)@.strings,
                ).0,
                ..old(self)@
            }),
            r == outcome(
                loaded_strings(old(self)@.container, old(self)@.relations, old(self)@.strings).1,
            ),
    {
        let target = match find_target_of_kind(&self.relations, "/sharedStrings") {
            Some(target) => target,
            None => {
                return Ok(());
            },
        };
        let tokens = match self.load_xml(target.as_str()) {
            Ok(tokens) => tokens,
            Err(e) => {
                return Err(e);
            },
        };
        read_shared_strings(&tokens, &mut self.strings)
    }

    /// Resolves the document: the relationships of every `.rels` part, then the sheet
    /// directory, then the shared strings. The first failure ends the loading and leaves
    /// the tables as they stand; such a document is to be dropped and opened again.
    pub fn load(&mut self) -> (r: Result<(), Error>)
        ensures
            final(self)@ == loaded(old(self)@).0,
            r == outcome(loaded(old(self)@).1),
    {
        match self.load_relationships() {
            Ok(()) => {},
            Err(e) => {
                return Err(e);
            },
        }
        match self.load_workbook() {
            Ok(()) => {},
            Err(e) => {
                return Err(e);
            },
        }
        self.load_shared_strings()
    }

    /// The names of the sheets that the directory holds, each once, in the order in which
    /// the workbook part first named them. It never fails.
    pub fn list_worksheet(&self) -> (listed: Result<Vec<String>, Error>)
        ensures
            listed matches Ok(names) && views(names@) == keys_of(self@.sheets),
            keys_of(self@.sheets).no_duplicates(),
    {
        Ok(self.sheets.keys())
    }

    /// The shared strings, by index.
    pub fn strings(&self) -> (strings: &Vec<String>)
        ensures
            views(strings@) == self@.strings,
    {
        &self.strings
    }

    /// The tokens of the worksheet `name`, found through the sheet directory and the
    /// relationship table.
    pub fn worksheet_tokens(&mut self, name: &str) -> (r: Result<Vec<Token>, Error>)
        ensures
            final(self)@ == old(self)@,
            match r {
                Ok(tokens) => worksheet_tokens_of(old(self)@, name@) == Ok::<
                    Seq<TokenView>,
                    Error,
                >(views(tokens@)),
                Err(e) => worksheet_tokens_of(old(self)@, name@) == Err::<Seq<TokenView>, Error>(
                    e,
                ),
            },
    {
        let relation = match self.sheets.get(name) {
            Some(sheet) => sheet.relation.clone(),
            None => {
                return Err(Error::Lookup);
            },
        };
        let target = match self.relations.get(relation.as_str()) {
            Some(relation) => relation.target.clone(),
            None => {
                return Err(Error::Lookup);
            },
        };
        self.load_xml(target.as_str())
    }

    /// Decodes the worksheet `name` into its cells, in document order. The document is
    /// left as it was, so that the same call gives the same cells again.
    pub fn load_worksheet(&mut self, name: &str) -> (r: Result<WorkSheet, Error>)
        ensures
            worksheet_loaded(old(self)@, final(self)@, name@, cells_of(r)),
    {
        let tokens = match self.worksheet_tokens(name) {
            Ok(tokens) => tokens,
            Err(e) => {
                return Err(e);
            },
        };
        let decoded = decode_cells(&tokens, &self.strings);
        match decoded.failure {
            Some(e) => Err(e),
            None => Ok(WorkSheet { cells: decoded.cells }),
        }
    }
}

} // verus!
