use ese_parser::catalog::load_catalog;
use ese_parser::cursor::{
    first_live, iterate_leaves, last_live, seek_backward, seek_forward, seek_last_leaf, ESE_MOVE_FIRST,
    ESE_MOVE_LAST, ESE_MOVE_NEXT, ESE_MOVE_PREVIOUS,
};
use ese_parser::error::EseError;
use ese_parser::ese_parser::EseParser;
use ese_parser::long_value::{load_lv_data, load_lv_metadata};
use ese_parser::page::DbPage;
use ese_parser::reader::Reader;
use ese_parser::record::{load_data, locate_column, LastLoadState, Located};
use ese_parser::tree::{find_first_leaf_page, load_root_page_header, RootPageHeader};

const ROOT: u32 = 1;
const LEAF: u32 = 2;
const PARENT: u32 = 4;
const LONG_VALUE: u32 = 0x80;
const DEFUNCT: u8 = 2;

fn le16(v: &mut Vec<u8>, x: u16) {
    v.extend_from_slice(&x.to_le_bytes());
}

fn le32(v: &mut Vec<u8>, x: u32) {
    v.extend_from_slice(&x.to_le_bytes());
}

fn put32(v: &mut [u8], at: usize, x: u32) {
    v[at..at + 4].copy_from_slice(&x.to_le_bytes());
}

fn put16(v: &mut [u8], at: usize, x: u16) {
    v[at..at + 2].copy_from_slice(&x.to_le_bytes());
}

fn checksum(header: &[u8]) -> u32 {
    let mut crc: u32 = 0x89abcdef;
    for i in 1..(668 / 4) {
        let w = u32::from_le_bytes([header[4 * i], header[4 * i + 1], header[4 * i + 2], header[4 * i + 3]]);
        crc ^= w;
    }
    crc
}

fn header_page(ps: usize, revision: u32, page_size: u32) -> Vec<u8> {
    let mut page = vec![0u8; ps];
    put32(&mut page, 4, 0x89abcdef);
    put32(&mut page, 8, 0x620);
    put32(&mut page, 52, 3);
    put32(&mut page, 232, revision);
    put32(&mut page, 236, page_size);
    let crc = checksum(&page);
    put32(&mut page, 0, crc);
    page
}

fn extended(ps: usize, revision: u32) -> bool {
    revision >= 0x11 && ps >= 16384
}

fn header_size(ps: usize, revision: u32) -> usize {
    if revision >= 0x11 && ps > 8192 {
        80
    } else {
        40
    }
}

fn page(ps: usize, revision: u32, prev: u32, next: u32, flags: u32, records: &[(Vec<u8>, u8)]) -> Vec<u8> {
    let mut page = vec![0u8; ps];
    let hs = header_size(ps, revision);
    put32(&mut page, 16, prev);
    put32(&mut page, 20, next);
    put16(&mut page, 34, records.len() as u16);
    put32(&mut page, 36, flags);
    let mut offset = 0usize;
    for (i, (bytes, tag_flags)) in records.iter().enumerate() {
        page[hs + offset..hs + offset + bytes.len()].copy_from_slice(bytes);
        let mut offset_word = offset as u16;
        if extended(ps, revision) {
            if bytes.len() >= 2 {
                page[hs + offset + 1] |= tag_flags << 5;
            }
        } else {
            offset_word |= (*tag_flags as u16) << 13;
        }
        put16(&mut page, ps - 4 * i - 4, bytes.len() as u16);
        put16(&mut page, ps - 4 * i - 2, offset_word);
        offset += bytes.len();
    }
    page
}

fn image(ps: usize, revision: u32, pages: Vec<Vec<u8>>) -> Vec<u8> {
    let mut out = header_page(ps, revision, ps as u32);
    out.extend(header_page(ps, revision, ps as u32));
    for p in pages {
        assert_eq!(p.len(), ps);
        out.extend(p);
    }
    out
}

fn root_record() -> Vec<u8> {
    let mut v = Vec::new();
    le32(&mut v, 1);
    le32(&mut v, 0);
    le32(&mut v, 0);
    le32(&mut v, 0);
    v
}

fn catalog_row(kind: u16, id: u32, link: u32, size: u32, codepage: u32, name: &str, default: &[u8]) -> Vec<u8> {
    let mut v = Vec::new();
    le16(&mut v, 0);
    v.push(7);
    v.push(if default.is_empty() { 128 } else { 131 });
    le16(&mut v, 31);
    le32(&mut v, 10);
    le16(&mut v, kind);
    le32(&mut v, id);
    le32(&mut v, link);
    le32(&mut v, size);
    le32(&mut v, 0);
    le32(&mut v, codepage);
    v.push(0);
    let name_end = name.len() as u16;
    le16(&mut v, name_end);
    if !default.is_empty() {
        le16(&mut v, name_end | 0x8000);
        le16(&mut v, name_end | 0x8000);
        le16(&mut v, name_end + default.len() as u16);
    }
    v.extend_from_slice(name.as_bytes());
    v.extend_from_slice(default);
    v
}

struct Tagged {
    id: u16,
    flags: Option<u8>,
    payload: Vec<u8>,
}

fn row(key: u32, fixed: &[Vec<u8>], bitmap: u8, variable: &[Option<Vec<u8>>], tagged: &[Tagged], ext: bool) -> Vec<u8> {
    let mut v = Vec::new();
    le16(&mut v, 4);
    v.extend_from_slice(&key.to_be_bytes());
    let fixed_len: usize = fixed.iter().map(|f| f.len()).sum();
    let bitmap_len = (fixed.len() + 7) / 8;
    v.push(fixed.len() as u8);
    v.push(127 + variable.len() as u8);
    le16(&mut v, (4 + fixed_len + bitmap_len) as u16);
    for f in fixed {
        v.extend_from_slice(f);
    }
    if bitmap_len > 0 {
        v.push(bitmap);
    }
    let mut end = 0u16;
    for value in variable {
        match value {
            Some(bytes) => {
                end += bytes.len() as u16;
                le16(&mut v, end);
            }
            None => le16(&mut v, end | 0x8000),
        }
    }
    for value in variable {
        if let Some(bytes) = value {
            v.extend_from_slice(bytes);
        }
    }
    let mut offset = 4 * tagged.len() as u16;
    for t in tagged {
        le16(&mut v, t.id);
        let flagged = ext || t.flags.is_some();
        le16(&mut v, if flagged && !ext { offset | 0x4000 } else { offset });
        offset += t.payload.len() as u16 + if flagged { 1 } else { 0 };
    }
    for t in tagged {
        if ext || t.flags.is_some() {
            v.push(t.flags.unwrap_or(0));
        }
        v.extend_from_slice(&t.payload);
    }
    v
}

fn lv_segment(key: u32, seg_offset: u32, data: &[u8]) -> Vec<u8> {
    let mut v = Vec::new();
    le16(&mut v, 8);
    v.extend_from_slice(&key.to_be_bytes());
    v.extend_from_slice(&seg_offset.to_be_bytes());
    v.extend_from_slice(data);
    v
}

fn lv_summary(key: u32, total: u32) -> Vec<u8> {
    let mut v = Vec::new();
    le16(&mut v, 4);
    v.extend_from_slice(&key.to_be_bytes());
    le32(&mut v, 1);
    le32(&mut v, total);
    v
}

fn branch(key: u32, child: u32) -> Vec<u8> {
    let mut v = Vec::new();
    le16(&mut v, 4);
    v.extend_from_slice(&key.to_be_bytes());
    le32(&mut v, child);
    v
}

fn blob(seed: u8, len: usize) -> Vec<u8> {
    (0..len).map(|i| seed.wrapping_add((i % 251) as u8)).collect()
}

fn multi_offset_payload() -> Vec<u8> {
    let mut p = vec![0x0d];
    p.extend_from_slice(b"thirteen byte");
    p.extend_from_slice(b"rest!");
    p
}

fn multi_table_payload() -> Vec<u8> {
    // three values: "one", "three", "fives"
    let mut p = Vec::new();
    le16(&mut p, 6);
    le16(&mut p, 9);
    le16(&mut p, 14);
    p.extend_from_slice(b"one");
    p.extend_from_slice(b"three");
    p.extend_from_slice(b"fives");
    p
}

const PS: usize = 4096;
const REV: u32 = 0x0c;

fn people() -> Vec<u8> {
    let catalog = page(
        PS,
        REV,
        0,
        0,
        ROOT | LEAF,
        &[
            (root_record(), 0),
            (catalog_row(1, 10, 5, 0, 0, "people", b""), 0),
            (catalog_row(2, 1, 4, 4, 0, "id", b""), 0),
            (catalog_row(2, 2, 3, 2, 0, "age", b""), 0),
            (catalog_row(2, 128, 10, 255, 1252, "name", b""), 0),
            (catalog_row(2, 129, 10, 255, 1252, "nick", b""), 0),
            (catalog_row(2, 256, 12, 0, 1252, "notes", b""), 0),
            (catalog_row(2, 257, 12, 0, 1252, "tags", b""), 0),
            (catalog_row(2, 258, 11, 0, 0, "blob", b""), 0),
            (catalog_row(2, 259, 11, 0, 0, "packed", b""), 0),
            (catalog_row(2, 260, 12, 0, 1252, "dflt", b"dv"), 0),
            (catalog_row(3, 1, 9, 0, 0, "an_index", b""), 0),
            (catalog_row(4, 11, 7, 0, 0, "LV", b""), 0),
            (catalog_row(1, 12, 9, 0, 0, "empty", b""), 0),
            (catalog_row(2, 1, 4, 4, 0, "only", b""), 0),
        ],
    );
    let data_root = page(PS, REV, 0, 0, ROOT | PARENT, &[(root_record(), 0), (branch(4, 6), 0)]);
    let row1 = row(
        1,
        &[vec![1, 0, 0, 0], vec![30, 0]],
        0,
        &[Some(b"Ann".to_vec()), None],
        &[
            Tagged { id: 256, flags: None, payload: b"hello".to_vec() },
            Tagged { id: 257, flags: Some(0x10), payload: multi_offset_payload() },
            Tagged { id: 258, flags: Some(0x04), payload: vec![5, 0, 0, 0] },
            Tagged { id: 259, flags: Some(0x02), payload: b"dekcap".to_vec() },
        ],
        false,
    );
    let row2 = row(2, &[vec![2, 0, 0, 0], vec![31, 0]], 0, &[], &[], false);
    let row3 = row(
        3,
        &[vec![3, 0, 0, 0], vec![0, 0]],
        2,
        &[Some(b"Bob".to_vec()), Some(b"bobby".to_vec())],
        &[
            Tagged { id: 257, flags: Some(0x08), payload: multi_table_payload() },
            Tagged { id: 258, flags: Some(0x04), payload: vec![9, 0, 0, 0] },
            Tagged { id: 260, flags: None, payload: b"own".to_vec() },
        ],
        false,
    );
    let leaf1 = page(PS, REV, 0, 8, LEAF, &[(vec![], 0), (row1, 0), (row2, DEFUNCT), (row3, 0)]);
    let lv = page(
        PS,
        REV,
        0,
        0,
        ROOT | LEAF | LONG_VALUE,
        &[
            (root_record(), 0),
            (lv_summary(5, 3072), 0),
            (lv_segment(5, 1024, &blob(2, 1024)), 0),
            (lv_segment(5, 0, &blob(1, 1024)), 0),
            (lv_segment(6, 0, b"six"), 0),
            (lv_segment(5, 2048, &blob(3, 1024)), 0),
            (lv_segment(6, 3, b"gone"), DEFUNCT),
        ],
    );
    let row4 = row(4, &[vec![4, 0, 0, 0], vec![44, 0]], 0, &[Some(b"Dan".to_vec())], &[], false);
    let row5 = row(5, &[vec![5, 0, 0, 0], vec![55, 0]], 0, &[], &[], false);
    let leaf2 = page(PS, REV, 6, 0, LEAF, &[(vec![], 0), (row5, DEFUNCT), (row4, 0)]);
    let empty_root = page(PS, REV, 0, 0, ROOT | LEAF, &[(root_record(), 0)]);
    image(
        PS,
        REV,
        vec![vec![0; PS], vec![0; PS], vec![0; PS], catalog, data_root, leaf1, lv, leaf2, empty_root],
    )
}

fn reversed(v: Vec<u8>) -> Option<Vec<u8>> {
    if v.is_empty() {
        None
    } else {
        Some(v.into_iter().rev().collect())
    }
}

fn three_segments() -> Vec<u8> {
    let mut v = blob(1, 1024);
    v.extend(blob(2, 1024));
    v.extend(blob(3, 1024));
    v
}

#[test]
fn tables_and_columns_of_the_catalog() {
    let mut jdb = EseParser::init(8, reversed);
    assert_eq!(jdb.load(people()), None);
    assert_eq!(jdb.get_tables().unwrap(), vec!["people".to_string(), "empty".to_string()]);
    let columns = jdb.get_columns("people").unwrap();
    let names: Vec<&str> = columns.iter().map(|c| c.name.as_str()).collect();
    assert_eq!(names, vec!["id", "age", "name", "nick", "notes", "tags", "blob", "packed", "dflt"]);
    let ids: Vec<u32> = columns.iter().map(|c| c.id).collect();
    assert_eq!(ids, vec![1, 2, 128, 129, 256, 257, 258, 259, 260]);
    assert_eq!(columns[0].typ, 4);
    assert_eq!(columns[0].cbmax, 4);
    assert_eq!(columns[0].cp, 0);
    assert_eq!(columns[2].cp, 1252);
    assert_eq!(jdb.get_columns("empty").unwrap().len(), 1);
    assert_eq!(jdb.get_columns("nobody").err(), Some(EseError::TableNotFound));
}

#[test]
fn catalog_rows_are_grouped_by_table() {
    let mut reader = Reader::load_db(people(), 4).unwrap();
    let tables = load_catalog(&mut reader).unwrap();
    assert_eq!(tables.len(), 2);
    let first = &tables[0];
    let row = first.table_catalog_definition.as_ref().unwrap();
    assert_eq!(row.name, "people");
    assert_eq!(row.cat_type, 1);
    assert_eq!(row.father_data_page_number(), 5);
    assert_eq!(row.column_type(), 0);
    assert_eq!(first.column_catalog_definition_array.len(), 9);
    assert_eq!(first.column_catalog_definition_array[8].default_value, b"dv".to_vec());
    assert_eq!(first.column_catalog_definition_array[8].column_type(), 12);
    assert_eq!(first.column_catalog_definition_array[8].father_data_page_number(), 0);
    let lv = first.long_value_catalog_definition.as_ref().unwrap();
    assert_eq!(lv.father_data_page_number(), 7);
    assert!(tables[1].long_value_catalog_definition.is_none());
    assert_eq!(tables[1].column_catalog_definition_array.len(), 1);
}

#[test]
fn fixed_and_variable_columns() {
    let mut jdb = EseParser::init(8, reversed);
    assert_eq!(jdb.load(people()), None);
    let t = jdb.open_table("people").unwrap();
    assert_eq!(t, 0);
    assert_eq!(jdb.get_column(t, 1).unwrap(), Some(vec![1, 0, 0, 0]));
    assert_eq!(jdb.get_column(t, 2).unwrap(), Some(vec![30, 0]));
    assert_eq!(jdb.get_column(t, 128).unwrap(), Some(b"Ann".to_vec()));
    assert_eq!(jdb.get_column(t, 129).unwrap(), None);
    assert!(jdb.move_row(t, ESE_MOVE_NEXT));
    assert_eq!(jdb.get_column(t, 1).unwrap(), Some(vec![3, 0, 0, 0]));
    // the bitmap marks the second fixed column of this row as empty
    assert_eq!(jdb.get_column(t, 2).unwrap(), None);
    assert_eq!(jdb.get_column(t, 128).unwrap(), Some(b"Bob".to_vec()));
    assert_eq!(jdb.get_column(t, 129).unwrap(), Some(b"bobby".to_vec()));
}

#[test]
fn tagged_columns_and_defaults() {
    let mut jdb = EseParser::init(8, reversed);
    assert_eq!(jdb.load(people()), None);
    let t = jdb.open_table("people").unwrap();
    assert_eq!(jdb.get_column(t, 256).unwrap(), Some(b"hello".to_vec()));
    // the row has no value for the column: its default stands in
    assert_eq!(jdb.get_column(t, 260).unwrap(), Some(b"dv".to_vec()));
    assert!(jdb.move_row(t, ESE_MOVE_NEXT));
    assert_eq!(jdb.get_column(t, 256).unwrap(), None);
    assert_eq!(jdb.get_column(t, 260).unwrap(), Some(b"own".to_vec()));
    assert_eq!(jdb.get_column(t, 259).unwrap(), None);
}

#[test]
fn tagged_multi_value_with_offset() {
    let mut jdb = EseParser::init(8, reversed);
    assert_eq!(jdb.load(people()), None);
    let t = jdb.open_table("people").unwrap();
    let size = multi_offset_payload().len();
    let first = jdb.get_column_mv(t, 257, 1).unwrap().unwrap();
    let second = jdb.get_column_mv(t, 257, 2).unwrap().unwrap();
    assert_eq!(first, b"thirteen byte".to_vec());
    assert_eq!(first.len(), 13);
    assert_eq!(second, b"rest!".to_vec());
    assert_eq!(second.len(), size - 14);
    assert_eq!(jdb.get_column_mv(t, 257, 0).unwrap().unwrap(), first);
    assert_eq!(jdb.get_column(t, 257).unwrap().unwrap(), first);
    // an index beyond the values means the first
    assert_eq!(jdb.get_column_mv(t, 257, 3).unwrap().unwrap(), first);
}

#[test]
fn tagged_multi_value_with_table() {
    let mut jdb = EseParser::init(8, reversed);
    assert_eq!(jdb.load(people()), None);
    let t = jdb.open_table("people").unwrap();
    assert!(jdb.move_row(t, ESE_MOVE_NEXT));
    assert_eq!(jdb.get_column_mv(t, 257, 0).unwrap(), Some(b"one".to_vec()));
    assert_eq!(jdb.get_column_mv(t, 257, 1).unwrap(), Some(b"one".to_vec()));
    assert_eq!(jdb.get_column_mv(t, 257, 2).unwrap(), Some(b"three".to_vec()));
    assert_eq!(jdb.get_column_mv(t, 257, 3).unwrap(), Some(b"fives".to_vec()));
    assert_eq!(jdb.get_column_mv(t, 257, 4).unwrap(), Some(b"one".to_vec()));
}

#[test]
fn long_value_of_three_segments() {
    let mut jdb = EseParser::init(8, reversed);
    assert_eq!(jdb.load(people()), None);
    let t = jdb.open_table("people").unwrap();
    let value = jdb.get_column(t, 258).unwrap().unwrap();
    assert_eq!(value.len(), 3072);
    assert_eq!(value, three_segments());
    // the key of the second row has no segments
    assert!(jdb.move_row(t, ESE_MOVE_NEXT));
    assert_eq!(jdb.get_column(t, 258), Err(EseError::LongValueNotFound));
}

#[test]
fn long_value_index_and_reassembly() {
    let mut reader = Reader::load_db(people(), 4).unwrap();
    let tags = load_lv_metadata(&mut reader, 7).unwrap();
    assert_eq!(tags.len(), 4);
    let keys: Vec<(u32, u32, u32)> = tags.iter().map(|t| (t.key, t.seg_offset, t.size)).collect();
    assert_eq!(keys, vec![(5, 1024, 1024), (5, 0, 1024), (6, 0, 3), (5, 2048, 1024)]);
    assert_eq!(tags[1].local_page_key, vec![0, 0, 0, 5, 0, 0, 0, 0]);
    assert!(tags[1].common_page_key.is_empty());
    // page 7 begins at 8 * 4096; the record begins behind header, root record and summary
    assert_eq!(tags[0].offset, 8 * 4096 + 40 + 16 + 14 + 10);
    assert_eq!(load_lv_data(&mut reader, &tags, 5).unwrap(), three_segments());
    assert_eq!(load_lv_data(&mut reader, &tags, 6).unwrap(), b"six".to_vec());
    assert_eq!(load_lv_data(&mut reader, &tags, 7), Err(EseError::LongValueNotFound));
    assert_eq!(load_lv_metadata(&mut reader, 6).err(), Some(EseError::PageFlagsUnexpected));
}

#[test]
fn compressed_column_goes_through_the_decompressor() {
    let mut jdb = EseParser::init(8, reversed);
    assert_eq!(jdb.load(people()), None);
    let t = jdb.open_table("people").unwrap();
    assert_eq!(jdb.get_column(t, 259).unwrap(), Some(b"packed".to_vec()));
    assert_eq!(jdb.get_column_mv(t, 259, 0).unwrap(), jdb.get_column_mv(t, 259, 1).unwrap());
}

#[test]
fn reads_are_repeatable() {
    let mut jdb = EseParser::init(2, reversed);
    assert_eq!(jdb.load(people()), None);
    let t = jdb.open_table("people").unwrap();
    for column in [1u32, 2, 128, 129, 256, 257, 258, 259, 260, 999] {
        let first = jdb.get_column(t, column);
        let second = jdb.get_column(t, column);
        assert_eq!(first, second);
    }
}

#[test]
fn every_declared_column_decodes_on_every_row() {
    let mut jdb = EseParser::init(2, reversed);
    assert_eq!(jdb.load(people()), None);
    let t = jdb.open_table("people").unwrap();
    let columns = jdb.get_columns("people").unwrap();
    let mut rows = 0;
    let mut more = jdb.move_row(t, ESE_MOVE_FIRST);
    while more {
        for c in &columns {
            let r = jdb.get_column(t, c.id);
            assert!(r.is_ok() || (c.id == 258 && r == Err(EseError::LongValueNotFound)));
        }
        rows += 1;
        more = jdb.move_row(t, ESE_MOVE_NEXT);
    }
    assert_eq!(rows, 3);
}

#[test]
fn unknown_column_and_handle() {
    let mut jdb = EseParser::init(8, reversed);
    assert_eq!(jdb.load(people()), None);
    let t = jdb.open_table("people").unwrap();
    assert_eq!(jdb.get_column(t, 999), Err(EseError::ColumnNotFound));
    assert_eq!(jdb.get_column(7, 1), Err(EseError::OutOfRangeHandle));
    // the second table was not opened: its cursor stands on no page
    assert_eq!(jdb.get_column(1, 1), Err(EseError::OutOfRangeHandle));
    assert_eq!(jdb.open_table("nobody"), Err(EseError::TableNotFound));
    assert!(!jdb.move_row(7, ESE_MOVE_FIRST));
    assert!(!jdb.move_row(t, 4));
    assert!(!jdb.move_row(1, ESE_MOVE_NEXT));
}

#[test]
fn moves_skip_defunct_rows_and_cross_pages() {
    let mut jdb = EseParser::init(8, reversed);
    assert_eq!(jdb.load(people()), None);
    let t = jdb.open_table("people").unwrap();
    let id = |jdb: &mut EseParser<fn(Vec<u8>) -> Option<Vec<u8>>>| jdb.get_column(t, 1).unwrap().unwrap()[0];
    let mut jdb2 = EseParser::init(8, reversed as fn(Vec<u8>) -> Option<Vec<u8>>);
    assert_eq!(jdb2.load(people()), None);
    let t2 = jdb2.open_table("people").unwrap();
    assert_eq!(t2, t);
    assert_eq!(id(&mut jdb2), 1);
    assert!(jdb2.move_row(t, ESE_MOVE_NEXT));
    assert_eq!(id(&mut jdb2), 3);
    assert!(jdb2.move_row(t, ESE_MOVE_NEXT));
    assert_eq!(id(&mut jdb2), 4);
    assert!(!jdb2.move_row(t, ESE_MOVE_NEXT));
    // past the last row no row is positioned
    assert_eq!(jdb2.get_column(t, 1), Err(EseError::OutOfRangeHandle));
    assert!(!jdb2.move_row(t, ESE_MOVE_NEXT));
    assert!(!jdb2.move_row(t, ESE_MOVE_PREVIOUS));
    assert!(jdb2.move_row(t, ESE_MOVE_LAST));
    assert_eq!(id(&mut jdb2), 4);
    assert!(jdb2.move_row(t, ESE_MOVE_PREVIOUS));
    assert_eq!(id(&mut jdb2), 3);
    assert!(jdb2.move_row(t, ESE_MOVE_PREVIOUS));
    assert_eq!(id(&mut jdb2), 1);
    assert!(!jdb2.move_row(t, ESE_MOVE_PREVIOUS));
    assert_eq!(jdb2.get_column(t, 1), Err(EseError::OutOfRangeHandle));
    assert!(jdb2.move_row(t, ESE_MOVE_FIRST));
    assert_eq!(id(&mut jdb2), 1);
    assert!(jdb2.move_row(t, ESE_MOVE_LAST));
    assert_eq!(id(&mut jdb2), 4);
}

#[test]
fn first_and_last_cross_leaves_without_rows() {
    let mut file = people();
    // the rows of leaf 6 are made defunct: the first row of the table is on leaf 8
    for tag in [1usize, 3] {
        let word = 7 * PS + PS - 4 * tag - 2;
        file[word + 1] |= DEFUNCT << 5;
    }
    let mut jdb = EseParser::init(8, reversed);
    assert_eq!(jdb.load(file), None);
    let t = jdb.open_table("people").unwrap();
    assert_eq!(jdb.get_column(t, 1).unwrap(), Some(vec![4, 0, 0, 0]));
    assert!(!jdb.move_row(t, ESE_MOVE_NEXT));
    assert!(jdb.move_row(t, ESE_MOVE_FIRST));
    assert_eq!(jdb.get_column(t, 1).unwrap(), Some(vec![4, 0, 0, 0]));
    assert!(!jdb.move_row(t, ESE_MOVE_PREVIOUS));
    let mut file = people();
    // the row of leaf 8 is made defunct: the last row of the table is on leaf 6
    let word = 9 * PS + PS - 4 * 2 - 2;
    file[word + 1] |= DEFUNCT << 5;
    let mut jdb = EseParser::init(8, reversed);
    assert_eq!(jdb.load(file), None);
    let t = jdb.open_table("people").unwrap();
    assert!(jdb.move_row(t, ESE_MOVE_LAST));
    assert_eq!(jdb.get_column(t, 1).unwrap(), Some(vec![3, 0, 0, 0]));
}

#[test]
fn empty_table_has_no_rows() {
    let mut jdb = EseParser::init(8, reversed);
    assert_eq!(jdb.load(people()), None);
    let t = jdb.open_table("empty").unwrap();
    assert_eq!(t, 1);
    assert!(!jdb.move_row(t, ESE_MOVE_FIRST));
    assert!(!jdb.move_row(t, ESE_MOVE_LAST));
    assert!(!jdb.move_row(t, ESE_MOVE_NEXT));
    assert!(jdb.get_column(t, 1).is_err());
}

#[test]
fn close_table_drops_the_long_value_index() {
    let mut jdb = EseParser::init(8, reversed);
    assert_eq!(jdb.load(people()), None);
    let t = jdb.open_table("people").unwrap();
    assert_eq!(jdb.get_column(t, 258).unwrap().unwrap().len(), 3072);
    assert!(jdb.close_table(t));
    assert_eq!(jdb.get_column(t, 258), Err(EseError::LongValueNotFound));
    assert!(!jdb.close_table(9));
    assert_eq!(jdb.open_table("people"), Ok(t));
    assert_eq!(jdb.get_column(t, 258).unwrap().unwrap().len(), 3072);
}

#[test]
fn first_leaf_and_root_header() {
    let mut reader = Reader::load_db(people(), 4).unwrap();
    assert_eq!(find_first_leaf_page(&mut reader, 5), Ok(6));
    assert_eq!(find_first_leaf_page(&mut reader, 6), Ok(6));
    assert_eq!(find_first_leaf_page(&mut reader, 4), Ok(4));
    assert_eq!(find_first_leaf_page(&mut reader, 100), Err(EseError::Io));
    let page = DbPage::new(&mut reader, 5).unwrap();
    assert_eq!(page.page_number(), 5);
    assert_eq!(page.size(), 40);
    assert_eq!(page.get_available_page_tag(), 2);
    assert_eq!(page.flags(), ROOT | PARENT);
    assert!(!page.is_leaf());
    let tags = page.page_tags().clone();
    assert_eq!(tags[0].size, 16);
    assert_eq!(tags[1].offset, 16);
    let root = load_root_page_header(&reader, &page, &tags[0]).unwrap();
    assert_eq!(root.initial_number_of_pages(), 1);
    assert_eq!(root.size(), 16);
    assert!(matches!(root, RootPageHeader::xf(_)));
    assert_eq!(load_root_page_header(&reader, &page, &tags[1]), Err(EseError::RecordMalformed));
    let leaf = DbPage::new(&mut reader, 6).unwrap();
    assert_eq!(leaf.next_page(), 8);
    assert_eq!(leaf.prev_page(), 0);
    assert!(leaf.page_tags()[2].is_defunct());
    assert!(!leaf.page_tags()[1].is_defunct());
}

#[test]
fn load_data_on_a_page() {
    let mut reader = Reader::load_db(people(), 4).unwrap();
    let tables = load_catalog(&mut reader).unwrap();
    let lv = load_lv_metadata(&mut reader, 7).unwrap();
    let leaf = DbPage::new(&mut reader, 6).unwrap();
    let get = |reader: &mut Reader, tag: usize, column: u32, mv: usize| {
        let mut lls = LastLoadState::init();
        load_data(&mut lls, reader, &tables[0], &lv, &leaf, tag, column, mv, &reversed)
    };
    assert_eq!(get(&mut reader, 1, 128, 0).unwrap(), Some(b"Ann".to_vec()));
    assert_eq!(get(&mut reader, 3, 128, 0).unwrap(), Some(b"Bob".to_vec()));
    assert_eq!(get(&mut reader, 1, 257, 2).unwrap(), Some(b"rest!".to_vec()));
    assert_eq!(get(&mut reader, 0, 128, 0), Err(EseError::RecordMalformed));
    assert_eq!(get(&mut reader, 4, 128, 0), Err(EseError::RecordMalformed));
    let branch_page = DbPage::new(&mut reader, 5).unwrap();
    let mut lls = LastLoadState::init();
    assert_eq!(
        load_data(&mut lls, &mut reader, &tables[0], &lv, &branch_page, 1, 128, 0, &reversed),
        Err(EseError::PageFlagsUnexpected)
    );
}

#[test]
fn remembered_walk_gives_what_a_fresh_walk_gives() {
    let mut reader = Reader::load_db(people(), 4).unwrap();
    let tables = load_catalog(&mut reader).unwrap();
    let lv = load_lv_metadata(&mut reader, 7).unwrap();
    let leaf = DbPage::new(&mut reader, 6).unwrap();
    let other = DbPage::new(&mut reader, 8).unwrap();
    let columns = [1u32, 2, 128, 129, 256, 257, 258, 259, 260, 999];
    // one memo goes through reads in every order, on two rows and two pages
    let mut lls = LastLoadState::init();
    let mut order: Vec<(usize, u32)> = Vec::new();
    for tag in [1usize, 3] {
        for c in columns {
            order.push((tag, c));
        }
        for c in columns.iter().rev() {
            order.push((tag, *c));
        }
        for c in [128u32, 128, 257, 1, 260, 259, 2, 258] {
            order.push((tag, c));
        }
    }
    for (tag, column) in order {
        for mv in [0usize, 2] {
            let mut fresh = LastLoadState::init();
            let expected = load_data(&mut fresh, &mut reader, &tables[0], &lv, &leaf, tag, column, mv, &reversed);
            let got = load_data(&mut lls, &mut reader, &tables[0], &lv, &leaf, tag, column, mv, &reversed);
            assert_eq!(got, expected);
            let elsewhere = load_data(&mut lls, &mut reader, &tables[0], &lv, &other, 2, 128, 0, &reversed);
            assert_eq!(elsewhere.unwrap(), Some(b"Dan".to_vec()));
            let again = load_data(&mut lls, &mut reader, &tables[0], &lv, &leaf, tag, column, mv, &reversed);
            assert_eq!(again, expected);
        }
    }
}

#[test]
fn columns_are_located_in_the_page() {
    let mut reader = Reader::load_db(people(), 4).unwrap();
    let tables = load_catalog(&mut reader).unwrap();
    let leaf = DbPage::new(&mut reader, 6).unwrap();
    // the first row begins behind the header and the empty record of tag 0: key, then header
    let start = 40 + 2 + 4;
    assert_eq!(
        locate_column(&reader, &tables[0], &leaf, 1, 1, 0),
        Ok(Located::Plain { at: (start + 4) as u128, size: 4 })
    );
    assert_eq!(
        locate_column(&reader, &tables[0], &leaf, 1, 2, 0),
        Ok(Located::Plain { at: (start + 8) as u128, size: 2 })
    );
    assert_eq!(locate_column(&reader, &tables[0], &leaf, 1, 129, 0), Ok(Located::Missing { column: 3 }));
    assert_eq!(locate_column(&reader, &tables[0], &leaf, 1, 258, 0), Ok(Located::LongValue { key: 5 }));
    assert_eq!(locate_column(&reader, &tables[0], &leaf, 1, 260, 0), Ok(Located::Missing { column: 8 }));
    assert!(matches!(locate_column(&reader, &tables[0], &leaf, 1, 259, 0), Ok(Located::Packed { size: 6, .. })));
    assert_eq!(locate_column(&reader, &tables[0], &leaf, 3, 2, 0), Ok(Located::Absent));
    assert_eq!(locate_column(&reader, &tables[0], &leaf, 3, 77, 0), Err(EseError::ColumnNotFound));
}

#[test]
fn broken_sibling_link_stops_the_walk() {
    let mut file = people();
    // leaf 8 names page 5 as the page before it, and was reached from page 6
    put32(&mut file, 9 * PS + 16, 5);
    let mut jdb = EseParser::init(8, reversed);
    assert_eq!(jdb.load(file), None);
    let t = jdb.open_table("people").unwrap();
    assert!(jdb.move_row(t, ESE_MOVE_NEXT));
    assert!(!jdb.move_row(t, ESE_MOVE_NEXT));
    // the move failed: no row is positioned
    assert_eq!(jdb.get_column(t, 1), Err(EseError::OutOfRangeHandle));
}

#[test]
fn endless_chain_is_given_up() {
    let mut file = people();
    // leaf 8 names itself as the next page and no page before it
    put32(&mut file, 9 * PS + 16, 0);
    put32(&mut file, 9 * PS + 20, 8);
    // its only row is made defunct as well
    let tag_word = 9 * PS + PS - 4 * 2 - 2;
    file[tag_word + 1] |= DEFUNCT << 5;
    let mut jdb = EseParser::init(8, reversed);
    assert_eq!(jdb.load(file), None);
    let t = jdb.open_table("people").unwrap();
    assert!(jdb.move_row(t, ESE_MOVE_NEXT));
    assert!(!jdb.move_row(t, ESE_MOVE_NEXT));
}

#[test]
fn catalog_root_without_leaf_or_branch_flag() {
    let mut file = people();
    put32(&mut file, 5 * PS + 36, ROOT);
    let mut jdb = EseParser::init(8, reversed);
    assert_eq!(jdb.load(file), Some(EseError::PageFlagsUnexpected));
    assert_eq!(jdb.get_tables().unwrap(), Vec::<String>::new());
}

#[test]
fn truncated_catalog_record_is_malformed() {
    let mut file = people();
    // the local key size of the first catalog row points far out of the page
    put16(&mut file, 5 * PS + 40 + 16, 0x1fff);
    let mut reader = Reader::load_db(file, 4).unwrap();
    assert_eq!(load_catalog(&mut reader).err(), Some(EseError::RecordMalformed));
}

#[test]
fn catalog_name_must_be_text() {
    let mut file = people();
    // the name of the first table is no UTF-8
    file[5 * PS + 40 + 16 + 35] = 0xff;
    let mut reader = Reader::load_db(file, 4).unwrap();
    assert_eq!(load_catalog(&mut reader).err(), Some(EseError::RecordMalformed));
}

fn extended_database() -> Vec<u8> {
    let ps = 16384;
    let rev = 0x11;
    let catalog = page(
        ps,
        rev,
        0,
        0,
        ROOT | LEAF,
        &[
            (root_record(), 0),
            (catalog_row(1, 10, 5, 0, 0, "wide", b""), 0),
            (catalog_row(2, 1, 4, 4, 0, "id", b""), 0),
            (catalog_row(2, 256, 12, 0, 1252, "text", b""), 0),
        ],
    );
    let rows: Vec<(Vec<u8>, u8)> = vec![
        (vec![0, 0], 0),
        (
            row(1, &[vec![1, 0, 0, 0]], 0, &[], &[Tagged { id: 256, flags: None, payload: b"first".to_vec() }], true),
            0,
        ),
        (
            row(2, &[vec![2, 0, 0, 0]], 0, &[], &[Tagged { id: 256, flags: None, payload: b"gone".to_vec() }], true),
            DEFUNCT,
        ),
        (
            row(
                3,
                &[vec![3, 0, 0, 0]],
                0,
                &[],
                &[Tagged { id: 256, flags: Some(0x10), payload: multi_offset_payload() }],
                true,
            ),
            0,
        ),
    ];
    let data = page(ps, rev, 0, 0, ROOT | LEAF, &{
        let mut all = vec![(root_record(), 0)];
        all.extend(rows.into_iter().skip(1));
        all
    });
    image(ps, rev, vec![vec![0; ps], vec![0; ps], vec![0; ps], catalog, data])
}

#[test]
fn extended_layout_keeps_tag_flags_in_the_record() {
    let mut jdb = EseParser::init(4, reversed);
    assert_eq!(jdb.load(extended_database()), None);
    let t = jdb.open_table("wide").unwrap();
    assert_eq!(jdb.get_column(t, 1).unwrap(), Some(vec![1, 0, 0, 0]));
    assert_eq!(jdb.get_column(t, 256).unwrap(), Some(b"first".to_vec()));
    assert!(jdb.move_row(t, ESE_MOVE_NEXT));
    assert_eq!(jdb.get_column(t, 1).unwrap(), Some(vec![3, 0, 0, 0]));
    assert_eq!(jdb.get_column_mv(t, 256, 2).unwrap(), Some(b"rest!".to_vec()));
    assert!(!jdb.move_row(t, ESE_MOVE_NEXT));
    let mut reader = Reader::load_db(extended_database(), 4).unwrap();
    assert_eq!(reader.format_revision(), 0x11);
    let page = DbPage::new(&mut reader, 5).unwrap();
    assert_eq!(page.size(), 80);
    assert!(page.page_tags()[2].is_defunct());
}

#[test]
fn leaves_of_a_chain_name_the_leaf_before_them() {
    let mut reader = Reader::load_db(people(), 4).unwrap();
    let chain = iterate_leaves(&mut reader, 6).unwrap();
    assert_eq!(chain, vec![6, 8]);
    let mut before = 0;
    for number in &chain {
        let page = DbPage::new(&mut reader, *number).unwrap();
        assert!(page.prev_page() == 0 || page.prev_page() == before);
        before = *number;
    }
    assert_eq!(iterate_leaves(&mut reader, 8).unwrap(), vec![8]);
    assert_eq!(iterate_leaves(&mut reader, 0).unwrap(), Vec::<u32>::new());
    assert_eq!(iterate_leaves(&mut reader, 77), Err(EseError::Io));
    let mut file = people();
    put32(&mut file, 9 * PS + 16, 5);
    let mut reader = Reader::load_db(file, 4).unwrap();
    assert_eq!(iterate_leaves(&mut reader, 6), Err(EseError::SiblingChainBroken));
    // where the walk begins no link is looked at
    assert_eq!(iterate_leaves(&mut reader, 8).unwrap(), vec![8]);
}

#[test]
fn searches_on_pages() {
    let mut reader = Reader::load_db(people(), 4).unwrap();
    let leaf = DbPage::new(&mut reader, 6).unwrap();
    assert_eq!(first_live(&leaf, 1), 1);
    assert_eq!(first_live(&leaf, 2), 3);
    assert_eq!(first_live(&leaf, 4), 4);
    assert_eq!(first_live(&leaf, 9), 9);
    assert_eq!(last_live(&leaf, 3), 3);
    assert_eq!(last_live(&leaf, 2), 1);
    assert_eq!(last_live(&leaf, 0), 0);
    let found = seek_forward(&mut reader, leaf, 4).unwrap();
    assert_eq!((found.0.page_number(), found.1), (8, Some(2)));
    let found = seek_forward(&mut reader, found.0, 3).unwrap();
    assert_eq!((found.0.page_number(), found.1), (8, None));
    let found = seek_backward(&mut reader, found.0, Some(1)).unwrap();
    assert_eq!((found.0.page_number(), found.1), (6, Some(3)));
    let found = seek_backward(&mut reader, found.0, Some(0)).unwrap();
    assert_eq!((found.0.page_number(), found.1), (6, None));
    // a tag that the page does not have
    assert_eq!(seek_backward(&mut reader, found.0, Some(4)).err(), Some(EseError::RecordMalformed));
    let leaf = DbPage::new(&mut reader, 6).unwrap();
    assert_eq!(seek_last_leaf(&mut reader, leaf).unwrap().page_number(), 8);
}
