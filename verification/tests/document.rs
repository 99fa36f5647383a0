use std::io::{Cursor, Write};
use xlsx_reader::cell::{Cell, Value};
use xlsx_reader::errors::Error;
use xlsx_reader::sheet::decode_cells;
use xlsx_reader::workbook::WorkBook;
use xlsx_reader::xml_events::Token;
use zip::write::SimpleFileOptions;
use zip::ZipWriter;

const ROOT_RELS: &str = r#"<?xml version="1.0" encoding="UTF-8" standalone="yes"?>
<Relationships xmlns="http://schemas.openxmlformats.org/package/2006/relationships">
  <Relationship Id="rId1" Type="http://schemas.openxmlformats.org/officeDocument/2006/relationships/officeDocument" Target="/xl/workbook.xml"/>
  <Relationship Id="rId20" Type="http://schemas.openxmlformats.org/package/2006/relationships/metadata/core-properties" Target="docProps/core.xml"/>
</Relationships>"#;

const WORKBOOK_RELS: &str = r#"<?xml version="1.0" encoding="UTF-8" standalone="yes"?>
<Relationships xmlns="http://schemas.openxmlformats.org/package/2006/relationships">
  <Relationship Id="rId2" Type="http://schemas.openxmlformats.org/officeDocument/2006/relationships/worksheet" Target="/xl/worksheets/sheet1.xml"/>
  <Relationship Id="rId3" Type="http://schemas.openxmlformats.org/officeDocument/2006/relationships/worksheet" Target="/xl/worksheets/sheet2.xml"/>
  <Relationship Id="rId4" Type="http://schemas.openxmlformats.org/officeDocument/2006/relationships/sharedStrings" Target="/xl/sharedStrings.xml"/>
</Relationships>"#;

const WORKBOOK: &str = r#"<?xml version="1.0" encoding="UTF-8" standalone="yes"?>
<workbook xmlns="http://schemas.openxmlformats.org/spreadsheetml/2006/main" xmlns:r="http://schemas.openxmlformats.org/officeDocument/2006/relationships">
  <sheets>
    <sheet name="Prices" sheetId="1" r:id="rId2"/>
    <sheet name="Notes" sheetId="2" r:id="rId3"/>
    <sheet name="Lost" sheetId="3" r:id="rId99"/>
  </sheets>
</workbook>"#;

const SHARED_STRINGS: &str = r#"<?xml version="1.0" encoding="UTF-8" standalone="yes"?>
<sst xmlns="http://schemas.openxmlformats.org/spreadsheetml/2006/main" count="3" uniqueCount="3">
  <si><t>apple</t></si>
  <si><t>pear</t></si>
  <si><t>plum &amp; cherry</t></si>
</sst>"#;

const SHEET1: &str = r#"<?xml version="1.0" encoding="UTF-8" standalone="yes"?>
<worksheet xmlns="http://schemas.openxmlformats.org/spreadsheetml/2006/main">
  <sheetData>
    <row r="1">
      <c r="A1" t="s"><v>2</v></c>
      <c r="B1" t="n"><v>42</v></c>
      <c r="C1"><v>3.14</v></c>
    </row>
    <row r="5">
      <c r="A5" t="s"><v>0</v></c>
      <c r="B5"/>
      <c r="C5" t="n"><v>-17</v></c>
    </row>
  </sheetData>
</worksheet>"#;

const SHEET2: &str = r#"<worksheet><sheetData><row r="2"><c t="s"><v>1</v></c></row></sheetData></worksheet>"#;

fn archive(parts: &[(&str, &[u8])]) -> Vec<u8> {
    let mut writer = ZipWriter::new(Cursor::new(Vec::new()));
    for (name, bytes) in parts {
        writer.start_file(*name, SimpleFileOptions::default()).unwrap();
        writer.write_all(bytes).unwrap();
    }
    writer.finish().unwrap().into_inner()
}

fn document() -> Vec<u8> {
    archive(&[
        ("[Content_Types].xml", b"<Types/>"),
        ("_rels/.rels", ROOT_RELS.as_bytes()),
        ("xl/workbook.xml", WORKBOOK.as_bytes()),
        ("xl/_rels/workbook.xml.rels", WORKBOOK_RELS.as_bytes()),
        ("xl/sharedStrings.xml", SHARED_STRINGS.as_bytes()),
        ("xl/worksheets/sheet1.xml", SHEET1.as_bytes()),
        ("xl/worksheets/sheet2.xml", SHEET2.as_bytes()),
    ])
}

fn loaded(bytes: Vec<u8>) -> WorkBook {
    let mut book = WorkBook::open(bytes).unwrap();
    book.load().unwrap();
    book
}

fn cell(row: usize, column: usize, value: Value) -> Cell {
    Cell { row, column, value }
}

fn sorted(mut names: Vec<String>) -> Vec<String> {
    names.sort();
    names
}

#[test]
fn it_works() {
    let mut book = WorkBook::open(document()).unwrap();
    assert_eq!(book.load(), Ok(()));
    assert_eq!(
        book.list_worksheet(),
        Ok(vec!["Prices".to_string(), "Notes".to_string(), "Lost".to_string()])
    );
    let sheet = book.load_worksheet("Prices").unwrap();
    assert_eq!(
        sheet.cells,
        vec![
            cell(1, 1, Value::String("plum & cherry".to_string())),
            cell(1, 2, Value::Integer(42)),
            cell(1, 3, Value::Float("3.14".to_string())),
            cell(5, 1, Value::String("apple".to_string())),
            cell(5, 3, Value::Integer(-17)),
        ]
    );
    let notes = book.load_worksheet("Notes").unwrap();
    assert_eq!(notes.cells, vec![cell(2, 1, Value::String("pear".to_string()))]);
}

#[test]
fn document_is_empty_before_load() {
    let mut book = WorkBook::open(document()).unwrap();
    assert_eq!(book.list_worksheet(), Ok(Vec::new()));
    assert_eq!(book.strings(), &Vec::<String>::new());
    assert_eq!(book.load_worksheet("Prices").err(), Some(Error::Lookup));
}

#[test]
fn shared_strings_are_loaded_in_document_order() {
    let book = loaded(document());
    assert_eq!(
        book.strings(),
        &vec!["apple".to_string(), "pear".to_string(), "plum & cherry".to_string()]
    );
}

#[test]
fn listed_sheets_do_not_depend_on_the_order_of_parts() {
    let forward = loaded(document());
    let backward = loaded(archive(&[
        ("xl/worksheets/sheet2.xml", SHEET2.as_bytes()),
        ("xl/worksheets/sheet1.xml", SHEET1.as_bytes()),
        ("xl/sharedStrings.xml", SHARED_STRINGS.as_bytes()),
        ("xl/_rels/workbook.xml.rels", WORKBOOK_RELS.as_bytes()),
        ("xl/workbook.xml", WORKBOOK.as_bytes()),
        ("_rels/.rels", ROOT_RELS.as_bytes()),
    ]));
    let expected = vec!["Lost".to_string(), "Notes".to_string(), "Prices".to_string()];
    assert_eq!(sorted(forward.list_worksheet().unwrap()), expected);
    assert_eq!(sorted(backward.list_worksheet().unwrap()), expected);
}

#[test]
fn loading_a_worksheet_twice_gives_the_same_cells() {
    let mut book = loaded(document());
    let first = book.load_worksheet("Prices").unwrap();
    let second = book.load_worksheet("Prices").unwrap();
    assert_eq!(first, second);
    assert_eq!(first.cells.len(), 5);
    assert_eq!(book.list_worksheet().unwrap().len(), 3);
}

#[test]
fn unknown_sheet_is_a_lookup_failure() {
    let mut book = loaded(document());
    assert_eq!(book.load_worksheet("Missing").err(), Some(Error::Lookup));
    assert_eq!(book.load_worksheet("prices").err(), Some(Error::Lookup));
}

#[test]
fn sheet_without_relationship_is_a_lookup_failure() {
    let mut book = loaded(document());
    assert_eq!(book.load_worksheet("Lost").err(), Some(Error::Lookup));
}

#[test]
fn missing_worksheet_part_is_an_archive_failure() {
    let mut book = loaded(archive(&[
        ("_rels/.rels", ROOT_RELS.as_bytes()),
        ("xl/workbook.xml", WORKBOOK.as_bytes()),
        ("xl/_rels/workbook.xml.rels", WORKBOOK_RELS.as_bytes()),
        ("xl/sharedStrings.xml", SHARED_STRINGS.as_bytes()),
    ]));
    assert_eq!(book.load_worksheet("Prices").err(), Some(Error::Zip));
}

#[test]
fn entry_that_cannot_be_read_is_an_io_failure() {
    let content = b"<Relationships><Relationship Id=\"rId1\"/></Relationships>";
    let mut writer = ZipWriter::new(Cursor::new(Vec::new()));
    let stored = SimpleFileOptions::default().compression_method(zip::CompressionMethod::Stored);
    writer.start_file("_rels/.rels", stored).unwrap();
    writer.write_all(content).unwrap();
    let mut bytes = writer.finish().unwrap().into_inner();
    let at = bytes.windows(content.len()).position(|window| window == content).unwrap();
    bytes[at + 1] = b'X';
    let mut book = WorkBook::open(bytes).unwrap();
    assert_eq!(book.load(), Err(Error::Io));
}

#[test]
fn bytes_that_are_no_archive_are_refused() {
    assert_eq!(WorkBook::open(Vec::new()).err(), Some(Error::Zip));
    assert_eq!(WorkBook::open(b"<workbook/>".to_vec()).err(), Some(Error::Zip));
}

#[test]
fn archive_without_relationships_has_no_sheets() {
    let mut book = WorkBook::open(archive(&[("xl/workbook.xml", WORKBOOK.as_bytes())])).unwrap();
    assert_eq!(book.load(), Ok(()));
    assert_eq!(book.list_worksheet(), Ok(Vec::new()));
    assert_eq!(book.strings(), &Vec::<String>::new());
    let mut empty = WorkBook::open(archive(&[])).unwrap();
    assert_eq!(empty.load(), Ok(()));
    assert_eq!(empty.list_worksheet(), Ok(Vec::new()));
}

#[test]
fn document_without_shared_strings_loads() {
    let rels = r#"<Relationships>
        <Relationship Id="rId1" Type="x/officeDocument" Target="book.xml"/>
        <Relationship Id="rId2" Type="x/worksheet" Target="/sheet.xml"/>
    </Relationships>"#;
    let mut book = loaded(archive(&[
        ("book.rels", rels.as_bytes()),
        ("book.xml", br#"<workbook><sheet name="Only" sheetId="1" id="rId2"/></workbook>"#),
        ("sheet.xml", br#"<sheetData><row r="9"><c t="n"><v>1</v></c><c t="s"><v>0</v></c></row></sheetData>"#),
    ]));
    assert_eq!(book.list_worksheet(), Ok(vec!["Only".to_string()]));
    assert_eq!(book.strings(), &Vec::<String>::new());
    assert_eq!(book.load_worksheet("Only").err(), Some(Error::Lookup));
}

#[test]
fn missing_workbook_part_fails_the_load() {
    let mut book = WorkBook::open(archive(&[("_rels/.rels", ROOT_RELS.as_bytes())])).unwrap();
    assert_eq!(book.load(), Err(Error::Zip));
}

#[test]
fn malformed_relationships_fail_the_load() {
    let mut book = WorkBook::open(archive(&[
        ("_rels/.rels", b"<Relationships><Relationship Id=\"rId1\"></Relationships>"),
    ]))
    .unwrap();
    assert_eq!(book.load(), Err(Error::XmlRead));
}

#[test]
fn malformed_worksheet_fails_after_its_leading_cells() {
    let rels = r#"<Relationships>
        <Relationship Id="rId1" Type="x/officeDocument" Target="book.xml"/>
        <Relationship Id="rId2" Type="x/worksheet" Target="sheet.xml"/>
    </Relationships>"#;
    let mut book = loaded(archive(&[
        ("book.rels", rels.as_bytes()),
        ("book.xml", br#"<workbook><sheet name="Cut" sheetId="1" id="rId2"/></workbook>"#),
        ("sheet.xml", br#"<sheetData><row r="1"><c t="n"><v>1</v></c><c t="n"><v>2"#),
    ]));
    assert_eq!(book.load_worksheet("Cut").err(), Some(Error::XmlRead));
    let tokens = book.worksheet_tokens("Cut").unwrap();
    assert_eq!(tokens.last(), Some(&Token::Failure));
    let decoded = decode_cells(&tokens, book.strings());
    assert_eq!(decoded.failure, Some(Error::XmlRead));
    assert_eq!(decoded.cells, vec![cell(1, 1, Value::Integer(1))]);
}

#[test]
fn byte_order_mark_before_a_part_is_skipped() {
    let mut rels = vec![0xef, 0xbb, 0xbf];
    rels.extend_from_slice(
        br#"<Relationships>
        <Relationship Id="rId1" Type="x/officeDocument" Target="/book.xml"/>
        <Relationship Id="rId2" Type="x/worksheet" Target="/sheet.xml"/>
    </Relationships>"#,
    );
    let mut workbook = vec![0xef, 0xbb, 0xbf];
    workbook.extend_from_slice(br#"<workbook><sheet name="Marked" sheetId="1" id="rId2"/></workbook>"#);
    let mut book = loaded(archive(&[
        ("book.rels", &rels),
        ("book.xml", &workbook),
        ("sheet.xml", br#"<sheetData><row r="4"><c t="n"><v>8</v></c></row></sheetData>"#),
    ]));
    assert_eq!(book.list_worksheet(), Ok(vec!["Marked".to_string()]));
    assert_eq!(
        book.load_worksheet("Marked").unwrap().cells,
        vec![cell(4, 1, Value::Integer(8))]
    );
}

#[test]
fn relationship_id_declared_in_two_parts_keeps_the_later_part() {
    let first = r#"<Relationships><Relationship Id="rId1" Type="x/officeDocument" Target="book.xml"/></Relationships>"#;
    let second = r#"<Relationships><Relationship Id="rId1" Type="x/worksheet" Target="sheet.xml"/></Relationships>"#;
    let book = loaded(archive(&[
        ("a.rels", first.as_bytes()),
        ("b.rels", second.as_bytes()),
        ("book.xml", br#"<workbook><sheet name="Hidden" sheetId="1" id="rId1"/></workbook>"#),
    ]));
    assert_eq!(book.list_worksheet(), Ok(Vec::new()));
    let other = loaded(archive(&[
        ("b.rels", second.as_bytes()),
        ("a.rels", first.as_bytes()),
        ("book.xml", br#"<workbook><sheet name="Hidden" sheetId="1" id="rId1"/></workbook>"#),
    ]));
    assert_eq!(other.list_worksheet(), Ok(vec!["Hidden".to_string()]));
}

#[test]
fn tokens_of_a_worksheet_are_those_of_its_part() {
    let mut book = loaded(document());
    let tokens = book.worksheet_tokens("Notes").unwrap();
    let starts: Vec<&str> = tokens
        .iter()
        .filter_map(|token| match token {
            Token::Start { name, .. } => Some(name.as_str()),
            _ => None,
        })
        .collect();
    assert_eq!(starts, vec!["worksheet", "sheetData", "row", "c", "v"]);
    assert!(tokens.contains(&Token::Characters("1".to_string())));
    assert!(tokens.contains(&Token::End));
    assert!(!tokens.contains(&Token::Failure));
    assert_eq!(book.worksheet_tokens("Missing").err(), Some(Error::Lookup));
}
