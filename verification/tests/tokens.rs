use xlsx_reader::cell::{Cell, Value};
use xlsx_reader::directory::{read_sheets, Sheet};
use xlsx_reader::errors::Error;
use xlsx_reader::relations::{find_target_of_kind, load_relations, target_of_id, Relation};
use xlsx_reader::sheet::decode_cells;
use xlsx_reader::strings::read_shared_strings;
use xlsx_reader::table::Table;
use xlsx_reader::xml_events::{find_attribute, Attribute, Token};

fn attribute(name: &str, value: &str) -> Attribute {
    Attribute { name: name.to_string(), value: value.to_string() }
}

fn start(name: &str, attributes: &[(&str, &str)]) -> Token {
    Token::Start {
        name: name.to_string(),
        attributes: attributes.iter().map(|(n, v)| attribute(n, v)).collect(),
    }
}

fn text(value: &str) -> Token {
    Token::Characters(value.to_string())
}

fn cell(row: usize, column: usize, value: Value) -> Cell {
    Cell { row, column, value }
}

fn string(value: &str) -> Value {
    Value::String(value.to_string())
}

fn strings(values: &[&str]) -> Vec<String> {
    values.iter().map(|v| v.to_string()).collect()
}

const OFFICE_DOCUMENT: &str =
    "http://schemas.openxmlformats.org/officeDocument/2006/relationships/officeDocument";

const SHARED_STRINGS: &str =
    "http://schemas.openxmlformats.org/officeDocument/2006/relationships/sharedStrings";

#[test]
fn last_attribute_of_a_name_gives_the_value() {
    let attributes = vec![attribute("Id", "a"), attribute("Target", "t"), attribute("Id", "b")];
    assert_eq!(find_attribute(&attributes, "Id"), "b");
    assert_eq!(find_attribute(&attributes, "Target"), "t");
    assert_eq!(find_attribute(&attributes, "Type"), "");
    assert_eq!(find_attribute(&Vec::new(), "Id"), "");
}

#[test]
fn relationships_are_stored_by_id() {
    let tokens = vec![
        Token::Other,
        start("Relationships", &[]),
        start("Relationship", &[("Id", "rId1"), ("Type", OFFICE_DOCUMENT), ("Target", "/xl/workbook.xml")]),
        Token::End,
        start("Relationship", &[("Target", "xl/sharedStrings.xml"), ("Id", "rId2"), ("Type", SHARED_STRINGS)]),
        Token::End,
        Token::End,
        Token::Other,
    ];
    let mut relations: Table<Relation> = Table::new();
    assert_eq!(load_relations(&tokens, &mut relations), Ok(()));
    assert_eq!(relations.len(), 2);
    assert_eq!(target_of_id(&relations, "rId1"), Some("xl/workbook.xml".to_string()));
    assert_eq!(target_of_id(&relations, "rId2"), Some("xl/sharedStrings.xml".to_string()));
    assert_eq!(target_of_id(&relations, "rId3"), None);
    assert_eq!(relations.get("rId1").unwrap().kind, OFFICE_DOCUMENT);
    assert_eq!(
        find_target_of_kind(&relations, "/officeDocument"),
        Some("xl/workbook.xml".to_string())
    );
    assert_eq!(
        find_target_of_kind(&relations, "/sharedStrings"),
        Some("xl/sharedStrings.xml".to_string())
    );
}

#[test]
fn relationship_declared_again_replaces_the_earlier_one() {
    let tokens = vec![
        start("Relationship", &[("Id", "rId1"), ("Type", "first"), ("Target", "a.xml")]),
        start("Relationship", &[("Id", "rId2"), ("Type", "second"), ("Target", "b.xml")]),
        start("Relationship", &[("Id", "rId1"), ("Type", "third"), ("Target", "c.xml")]),
    ];
    let mut relations: Table<Relation> = Table::new();
    assert_eq!(load_relations(&tokens, &mut relations), Ok(()));
    assert_eq!(relations.keys(), vec!["rId1".to_string(), "rId2".to_string()]);
    assert_eq!(
        relations.get("rId1"),
        Some(&Relation { target: "c.xml".to_string(), kind: "third".to_string() })
    );
}

#[test]
fn relationship_without_attributes_is_stored_under_the_empty_id() {
    let tokens = vec![start("Relationship", &[])];
    let mut relations: Table<Relation> = Table::new();
    assert_eq!(load_relations(&tokens, &mut relations), Ok(()));
    assert_eq!(
        relations.get(""),
        Some(&Relation { target: String::new(), kind: String::new() })
    );
}

#[test]
fn unknown_relationship_kind_is_stored_and_never_matched() {
    let tokens = vec![
        start("Relationship", &[("Id", "rId9"), ("Type", "http://example.org/relationships/custom"), ("Target", "/custom/part.xml")]),
    ];
    let mut relations: Table<Relation> = Table::new();
    assert_eq!(load_relations(&tokens, &mut relations), Ok(()));
    assert_eq!(target_of_id(&relations, "rId9"), Some("custom/part.xml".to_string()));
    assert_eq!(find_target_of_kind(&relations, "/officeDocument"), None);
    assert_eq!(find_target_of_kind(&relations, "/sharedStrings"), None);
}

#[test]
fn first_relationship_of_a_kind_is_found() {
    let tokens = vec![
        start("Relationship", &[("Id", "a"), ("Type", "x/other"), ("Target", "0.xml")]),
        start("Relationship", &[("Id", "b"), ("Type", "x/officeDocument"), ("Target", "1.xml")]),
        start("Relationship", &[("Id", "c"), ("Type", "y/officeDocument"), ("Target", "2.xml")]),
    ];
    let mut relations: Table<Relation> = Table::new();
    assert_eq!(load_relations(&tokens, &mut relations), Ok(()));
    assert_eq!(find_target_of_kind(&relations, "/officeDocument"), Some("1.xml".to_string()));
}

#[test]
fn read_failure_stops_the_reading_of_relationships() {
    let tokens = vec![
        start("Relationship", &[("Id", "rId1"), ("Type", "k"), ("Target", "a.xml")]),
        Token::Failure,
        start("Relationship", &[("Id", "rId2"), ("Type", "k"), ("Target", "b.xml")]),
    ];
    let mut relations: Table<Relation> = Table::new();
    assert_eq!(load_relations(&tokens, &mut relations), Err(Error::XmlRead));
    assert_eq!(relations.keys(), vec!["rId1".to_string()]);
}

#[test]
fn sheets_are_stored_by_name() {
    let tokens = vec![
        start("workbook", &[]),
        start("sheets", &[]),
        start("sheet", &[("name", "Data"), ("sheetId", "1"), ("id", "rId2")]),
        Token::End,
        start("sheet", &[("name", "Notes"), ("sheetId", "2"), ("id", "rId3")]),
        Token::End,
        start("sheet", &[("name", "Data"), ("sheetId", "7"), ("id", "rId9")]),
        Token::End,
    ];
    let mut sheets: Table<Sheet> = Table::new();
    assert_eq!(read_sheets(&tokens, &mut sheets), Ok(()));
    assert_eq!(sheets.keys(), vec!["Data".to_string(), "Notes".to_string()]);
    assert_eq!(
        sheets.get("Data"),
        Some(&Sheet { id: "7".to_string(), relation: "rId9".to_string() })
    );
    assert_eq!(
        sheets.get("Notes"),
        Some(&Sheet { id: "2".to_string(), relation: "rId3".to_string() })
    );
}

#[test]
fn read_failure_stops_the_reading_of_sheets() {
    let tokens = vec![
        start("sheet", &[("name", "Data"), ("sheetId", "1"), ("id", "rId2")]),
        Token::Failure,
    ];
    let mut sheets: Table<Sheet> = Table::new();
    assert_eq!(read_sheets(&tokens, &mut sheets), Err(Error::XmlRead));
    assert_eq!(sheets.keys(), vec!["Data".to_string()]);
}

#[test]
fn shared_strings_are_the_texts_of_t_elements() {
    let tokens = vec![
        start("sst", &[]),
        start("si", &[]),
        text("outside"),
        start("t", &[]),
        text("alpha"),
        Token::End,
        Token::End,
        start("si", &[]),
        start("r", &[]),
        start("t", &[]),
        text("be"),
        Token::End,
        Token::End,
        start("r", &[]),
        start("rPr", &[]),
        text("skipped"),
        Token::End,
        start("t", &[]),
        text("ta"),
        text(" again"),
        Token::End,
        Token::End,
        Token::End,
        Token::End,
    ];
    let mut table = strings(&["before"]);
    assert_eq!(read_shared_strings(&tokens, &mut table), Ok(()));
    assert_eq!(table, strings(&["before", "alpha", "be", "ta", " again"]));
}

#[test]
fn read_failure_stops_the_reading_of_shared_strings() {
    let tokens = vec![start("t", &[]), text("alpha"), Token::Failure, text("beta")];
    let mut table = Vec::new();
    assert_eq!(read_shared_strings(&tokens, &mut table), Err(Error::XmlRead));
    assert_eq!(table, strings(&["alpha"]));
}

#[test]
fn string_cell_resolves_through_the_shared_strings() {
    let tokens = vec![
        start("row", &[("r", "1")]),
        start("c", &[("r", "A1"), ("t", "s")]),
        start("v", &[]),
        text("2"),
    ];
    let decoded = decode_cells(&tokens, &strings(&["zero", "one", "two", "three"]));
    assert_eq!(decoded.failure, None);
    assert_eq!(decoded.cells, vec![cell(1, 1, string("two"))]);
}

#[test]
fn numeric_cell_is_an_integer_where_it_reads_as_one() {
    let tokens = vec![
        start("row", &[("r", "1")]),
        start("c", &[("t", "n")]),
        start("v", &[]),
        text("42"),
        start("c", &[("t", "n")]),
        start("v", &[]),
        text("3.14"),
        start("c", &[("t", "n")]),
        start("v", &[]),
        text("-7"),
        start("c", &[("t", "n")]),
        start("v", &[]),
        text("9223372036854775808"),
        start("c", &[("t", "n")]),
        start("v", &[]),
        text("abc"),
    ];
    let decoded = decode_cells(&tokens, &Vec::new());
    assert_eq!(decoded.failure, None);
    assert_eq!(
        decoded.cells,
        vec![
            cell(1, 1, Value::Integer(42)),
            cell(1, 2, Value::Float("3.14".to_string())),
            cell(1, 3, Value::Integer(-7)),
            cell(1, 4, Value::Float("9223372036854775808".to_string())),
            cell(1, 5, Value::Float("abc".to_string())),
        ]
    );
    match &decoded.cells[1].value {
        Value::Float(written) => assert_eq!(written.parse::<f64>(), Ok(3.14)),
        other => panic!("{:?}", other),
    }
    match &decoded.cells[4].value {
        Value::Float(written) => assert!(written.parse::<f64>().is_err()),
        other => panic!("{:?}", other),
    }
}

#[test]
fn row_numbers_come_from_the_row_attribute() {
    let tokens = vec![
        start("row", &[("r", "1")]),
        start("c", &[("t", "n")]),
        start("v", &[]),
        text("10"),
        Token::End,
        Token::End,
        Token::End,
        start("row", &[("r", "5")]),
        start("c", &[("t", "n")]),
        start("v", &[]),
        text("50"),
    ];
    let decoded = decode_cells(&tokens, &Vec::new());
    assert_eq!(decoded.failure, None);
    assert_eq!(
        decoded.cells,
        vec![cell(1, 1, Value::Integer(10)), cell(5, 1, Value::Integer(50))]
    );
}

#[test]
fn columns_count_the_cells_of_a_row() {
    let tokens = vec![
        start("row", &[("r", "3")]),
        start("c", &[("t", "n")]),
        start("v", &[]),
        text("1"),
        start("c", &[]),
        start("v", &[]),
        text("2"),
        start("c", &[]),
        start("v", &[]),
        text("3"),
        start("row", &[("r", "4")]),
        start("c", &[("r", "D4")]),
        start("c", &[("r", "F4")]),
        start("v", &[]),
        text("4"),
    ];
    let decoded = decode_cells(&tokens, &Vec::new());
    assert_eq!(decoded.failure, None);
    assert_eq!(
        decoded.cells,
        vec![
            cell(3, 1, Value::Integer(1)),
            cell(3, 2, Value::Integer(2)),
            cell(3, 3, Value::Integer(3)),
            cell(4, 2, Value::Integer(4)),
        ]
    );
}

#[test]
fn kind_is_carried_from_cell_to_cell() {
    let tokens = vec![
        start("row", &[("r", "1")]),
        start("c", &[]),
        start("v", &[]),
        text("0"),
        start("c", &[("t", "n")]),
        start("v", &[]),
        text("1"),
        start("c", &[("t", "b")]),
        start("v", &[]),
        text("1"),
        start("row", &[("r", "2")]),
        start("c", &[]),
        start("v", &[]),
        text("2"),
        start("c", &[("t", "s")]),
        start("v", &[]),
        text("1"),
        start("c", &[("t", "n"), ("t", "inlineStr")]),
        start("v", &[]),
        text("7"),
    ];
    let decoded = decode_cells(&tokens, &strings(&["zero", "one"]));
    assert_eq!(decoded.failure, None);
    assert_eq!(
        decoded.cells,
        vec![
            cell(1, 1, string("zero")),
            cell(1, 2, Value::Integer(1)),
            cell(1, 3, Value::Integer(1)),
            cell(2, 1, Value::Integer(2)),
            cell(2, 2, string("one")),
            cell(2, 3, Value::Integer(7)),
        ]
    );
}

#[test]
fn only_text_after_a_v_element_is_a_value() {
    let tokens = vec![
        text("0"),
        start("row", &[("r", "1")]),
        text("1"),
        start("c", &[("t", "n")]),
        text("2"),
        start("f", &[]),
        text("SUM(A1)"),
        Token::End,
        start("v", &[]),
        Token::Other,
        text("3"),
        Token::End,
        text("4"),
        start("is", &[]),
        text("5"),
    ];
    let decoded = decode_cells(&tokens, &Vec::new());
    assert_eq!(decoded.failure, None);
    assert_eq!(
        decoded.cells,
        vec![cell(1, 1, Value::Integer(3)), cell(1, 1, Value::Integer(4))]
    );
}

#[test]
fn cell_without_value_gives_no_cell() {
    let tokens = vec![
        start("row", &[("r", "1")]),
        start("c", &[("t", "n")]),
        Token::End,
        start("c", &[("t", "n")]),
        start("v", &[]),
        Token::End,
        Token::End,
    ];
    let decoded = decode_cells(&tokens, &Vec::new());
    assert_eq!(decoded.failure, None);
    assert_eq!(decoded.cells, Vec::new());
    let nothing = decode_cells(&Vec::new(), &Vec::new());
    assert_eq!(nothing.failure, None);
    assert_eq!(nothing.cells, Vec::new());
}

#[test]
fn cells_before_the_first_row_are_in_row_zero() {
    let tokens = vec![start("c", &[("t", "n")]), start("v", &[]), text("1")];
    let decoded = decode_cells(&tokens, &Vec::new());
    assert_eq!(decoded.cells, vec![cell(0, 1, Value::Integer(1))]);
}

#[test]
fn row_number_that_is_no_integer_fails() {
    let tokens = vec![
        start("row", &[("r", "1")]),
        start("c", &[("t", "n")]),
        start("v", &[]),
        text("1"),
        start("row", &[("r", "two")]),
        start("c", &[("t", "n")]),
        start("v", &[]),
        text("2"),
    ];
    let decoded = decode_cells(&tokens, &Vec::new());
    assert_eq!(decoded.failure, Some(Error::ParseInt));
    assert_eq!(decoded.cells, vec![cell(1, 1, Value::Integer(1))]);
    let negative = decode_cells(&vec![start("row", &[("r", "-1")])], &Vec::new());
    assert_eq!(negative.failure, Some(Error::ParseInt));
    let repeated = decode_cells(&vec![start("row", &[("r", "x"), ("r", "1")])], &Vec::new());
    assert_eq!(repeated.failure, Some(Error::ParseInt));
    let missing = decode_cells(&vec![start("row", &[("spans", "1:3")])], &Vec::new());
    assert_eq!(missing.failure, None);
}

#[test]
fn string_index_that_is_no_integer_fails() {
    let tokens = vec![
        start("row", &[("r", "1")]),
        start("c", &[("t", "s")]),
        start("v", &[]),
        text("one"),
    ];
    let decoded = decode_cells(&tokens, &strings(&["zero", "one"]));
    assert_eq!(decoded.failure, Some(Error::ParseInt));
    assert_eq!(decoded.cells, Vec::new());
}

#[test]
fn string_index_past_the_table_fails() {
    let tokens = vec![
        start("row", &[("r", "1")]),
        start("c", &[("t", "s")]),
        start("v", &[]),
        text("1"),
        start("c", &[("t", "s")]),
        start("v", &[]),
        text("2"),
        start("c", &[("t", "s")]),
        start("v", &[]),
        text("0"),
    ];
    let decoded = decode_cells(&tokens, &strings(&["zero", "one"]));
    assert_eq!(decoded.failure, Some(Error::Lookup));
    assert_eq!(decoded.cells, vec![cell(1, 1, string("one"))]);
}

#[test]
fn read_failure_stops_the_decoding() {
    let tokens = vec![
        start("row", &[("r", "1")]),
        start("c", &[("t", "n")]),
        start("v", &[]),
        text("1"),
        Token::Failure,
        text("2"),
    ];
    let decoded = decode_cells(&tokens, &Vec::new());
    assert_eq!(decoded.failure, Some(Error::XmlRead));
    assert_eq!(decoded.cells, vec![cell(1, 1, Value::Integer(1))]);
}
