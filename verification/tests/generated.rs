use ese_parser::cursor::{ESE_MOVE_FIRST, ESE_MOVE_LAST, ESE_MOVE_NEXT, ESE_MOVE_PREVIOUS};
use ese_parser::error::EseError;
use ese_parser::ese_parser::EseParser;
use ese_parser::gen_db::prepare_db;

fn as_is(v: Vec<u8>) -> Option<Vec<u8>> {
    Some(v)
}

fn text_of_row(i: usize, width: usize) -> Vec<u8> {
    format!("Record {number:>width$}", number = i, width = width).into_bytes()
}

fn wide(text: &[u8]) -> Vec<u8> {
    let mut out = Vec::new();
    for b in text {
        out.push(*b);
        out.push(0);
    }
    out
}

#[test]
fn generated_database_loads() {
    let image = prepare_db("test_table", 8192, 10, 10).unwrap();
    assert_eq!(image.len() % 8192, 0);
    let mut jdb = EseParser::init(5, as_is);
    assert_eq!(jdb.load(image), None);
    assert_eq!(jdb.get_tables().unwrap(), vec!["test_table".to_string()]);
}

#[test]
fn generated_columns_are_listed() {
    let image = prepare_db("test_table", 4096, 10, 3).unwrap();
    let mut jdb = EseParser::init(5, as_is);
    assert_eq!(jdb.load(image), None);
    let columns = jdb.get_columns("test_table").unwrap();
    assert_eq!(columns.len(), 4);
    assert_eq!(columns[0].name, "compressed_unicode");
    assert_eq!(columns[0].id, 256);
    assert_eq!(columns[0].typ, 12);
    assert_eq!(columns[0].cp, 1200);
    assert_eq!(columns[1].name, "compressed_ascii");
    assert_eq!(columns[1].cp, 1252);
    assert_eq!(columns[2].name, "compressed_binary");
    assert_eq!(columns[2].typ, 11);
    assert_eq!(columns[3].name, "usual_text");
    assert_eq!(columns[3].id, 259);
    assert_eq!(jdb.get_columns("other").err(), Some(EseError::TableNotFound));
}

#[test]
fn generated_rows_hold_their_text() {
    let image = prepare_db("test_table", 8192, 10, 10).unwrap();
    let mut jdb = EseParser::init(5, as_is);
    assert_eq!(jdb.load(image), None);
    let table = jdb.open_table("test_table").unwrap();
    for i in 0..10 {
        let text = text_of_row(i, 10);
        assert_eq!(jdb.get_column(table, 256).unwrap(), Some(wide(&text)));
        assert_eq!(jdb.get_column(table, 257).unwrap(), Some(text.clone()));
        assert_eq!(jdb.get_column(table, 258).unwrap(), Some(text.clone()));
        assert_eq!(jdb.get_column(table, 259).unwrap(), Some(text.clone()));
        assert_eq!(jdb.move_row(table, ESE_MOVE_NEXT), i < 9);
    }
}

#[test]
fn forward_iteration_counts_the_rows() {
    for n in [0usize, 1, 2, 7, 40, 200] {
        let image = prepare_db("t", 2048, 4, n).unwrap();
        let mut jdb = EseParser::init(3, as_is);
        assert_eq!(jdb.load(image), None);
        let table = jdb.open_table("t").unwrap();
        let mut count = 0;
        let mut more = jdb.move_row(table, ESE_MOVE_FIRST);
        while more {
            count += 1;
            more = jdb.move_row(table, ESE_MOVE_NEXT);
        }
        assert_eq!(count, n);
    }
}

#[test]
fn backward_iteration_reverses_forward() {
    let n = 57;
    let image = prepare_db("t", 2048, 4, n).unwrap();
    let mut jdb = EseParser::init(3, as_is);
    assert_eq!(jdb.load(image), None);
    let table = jdb.open_table("t").unwrap();
    let mut forward = Vec::new();
    let mut more = jdb.move_row(table, ESE_MOVE_FIRST);
    while more {
        forward.push(jdb.get_column(table, 259).unwrap().unwrap());
        more = jdb.move_row(table, ESE_MOVE_NEXT);
    }
    let mut backward = Vec::new();
    let mut more = jdb.move_row(table, ESE_MOVE_LAST);
    while more {
        backward.push(jdb.get_column(table, 259).unwrap().unwrap());
        more = jdb.move_row(table, ESE_MOVE_PREVIOUS);
    }
    assert_eq!(forward.len(), n);
    backward.reverse();
    assert_eq!(forward, backward);
}

#[test]
fn ten_rows_on_two_leaves() {
    // pages of 2 KiB hold nine rows of this width: ten rows take two leaves
    let image = prepare_db("t", 2048, 30, 10).unwrap();
    assert_eq!(image.len(), 2048 * (7 + 2));
    let mut jdb = EseParser::init(3, as_is);
    assert_eq!(jdb.load(image), None);
    let table = jdb.open_table("t").unwrap();
    assert!(jdb.move_row(table, ESE_MOVE_FIRST));
    for _ in 0..9 {
        assert!(jdb.move_row(table, ESE_MOVE_NEXT));
    }
    assert!(!jdb.move_row(table, ESE_MOVE_NEXT));
}

#[test]
fn unsupported_parameters_give_no_database() {
    assert!(prepare_db("t", 1024, 10, 10).is_none());
    assert!(prepare_db("t", 16384, 10, 10).is_none());
    assert!(prepare_db("t", 2048, 4000, 1).is_none());
    let long_name = "n".repeat(256);
    assert!(prepare_db(&long_name, 2048, 10, 1).is_none());
}

fn marked(v: Vec<u8>) -> Option<Vec<u8>> {
    let mut out = v;
    out.push(b'!');
    Some(out)
}

fn refused(_: Vec<u8>) -> Option<Vec<u8>> {
    None
}

#[test]
fn compressed_columns_go_through_the_decompressor() {
    let image = prepare_db("test_table", 4096, 10, 3).unwrap();
    let mut jdb = EseParser::init(5, marked);
    assert_eq!(jdb.load(image), None);
    let table = jdb.open_table("test_table").unwrap();
    let text = text_of_row(0, 10);
    let mut with_mark = text.clone();
    with_mark.push(b'!');
    let mut wide_with_mark = wide(&text);
    wide_with_mark.push(b'!');
    // the first three columns are flagged as compressed, the fourth is not
    assert_eq!(jdb.get_column(table, 256).unwrap(), Some(wide_with_mark));
    assert_eq!(jdb.get_column(table, 257).unwrap(), Some(with_mark.clone()));
    assert_eq!(jdb.get_column(table, 258).unwrap(), Some(with_mark.clone()));
    assert_eq!(jdb.get_column(table, 259).unwrap(), Some(text));
    assert_eq!(jdb.get_column_mv(table, 257, 0).unwrap(), jdb.get_column_mv(table, 257, 1).unwrap());
    let image = prepare_db("test_table", 4096, 10, 3).unwrap();
    let mut jdb = EseParser::init(5, refused);
    assert_eq!(jdb.load(image), None);
    let table = jdb.open_table("test_table").unwrap();
    assert_eq!(jdb.get_column(table, 257), Err(EseError::RecordMalformed));
    assert!(jdb.get_column(table, 259).is_ok());
}
