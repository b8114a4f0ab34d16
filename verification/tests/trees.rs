use ese_parser::catalog::{load_catalog, load_catalog_item};
use ese_parser::error::EseError;
use ese_parser::ese_parser::EseParser;
use ese_parser::long_value::{load_lv_data, load_lv_metadata, load_lv_tag, read_key_pair};
use ese_parser::page::DbPage;
use ese_parser::reader::Reader;
use ese_parser::record::{read_mv_entries, read_payload, read_record, start_walk, Located, MvEntry};
use ese_parser::tree::{
    clean_pgtag_flag, find_first_leaf_page, page_tag_get_branch_child_page_number, skip_keys,
};

const ROOT: u32 = 1;
const LEAF: u32 = 2;
const PARENT: u32 = 4;
const LONG_VALUE: u32 = 0x80;
const DEFUNCT: u8 = 2;

fn le16(v: &mut Vec<u8>, x: u16) {
    v.extend_from_slice(&x.to_le_bytes());
}

fn le32(v: &mut Vec<u8>, x: u32) {
    v.extend_from_slice(&x.to_le_bytes());
}

fn put32(v: &mut [u8], at: usize, x: u32) {
    v[at..at + 4].copy_from_slice(&x.to_le_bytes());
}

fn put16(v: &mut [u8], at: usize, x: u16) {
    v[at..at + 2].copy_from_slice(&x.to_le_bytes());
}

fn checksum(header: &[u8]) -> u32 {
    let mut crc: u32 = 0x89abcdef;
    for i in 1..(668 / 4) {
        let w = u32::from_le_bytes([header[4 * i], header[4 * i + 1], header[4 * i + 2], header[4 * i + 3]]);
        crc ^= w;
    }
    crc
}

fn header_page(ps: usize, revision: u32, page_size: u32) -> Vec<u8> {
    let mut page = vec![0u8; ps];
    put32(&mut page, 4, 0x89abcdef);
    put32(&mut page, 8, 0x620);
    put32(&mut page, 52, 3);
    put32(&mut page, 232, revision);
    put32(&mut page, 236, page_size);
    let crc = checksum(&page);
    put32(&mut page, 0, crc);
    page
}

fn extended(ps: usize, revision: u32) -> bool {
    revision >= 0x11 && ps >= 16384
}

fn header_size(ps: usize, revision: u32) -> usize {
    if revision >= 0x11 && ps > 8192 {
        80
    } else {
        40
    }
}

fn page(ps: usize, revision: u32, prev: u32, next: u32, flags: u32, records: &[(Vec<u8>, u8)]) -> Vec<u8> {
    let mut page = vec![0u8; ps];
    let hs = header_size(ps, revision);
    put32(&mut page, 16, prev);
    put32(&mut page, 20, next);
    put16(&mut page, 34, records.len() as u16);
    put32(&mut page, 36, flags);
    let mut offset = 0usize;
    for (i, (bytes, tag_flags)) in records.iter().enumerate() {
        page[hs + offset..hs + offset + bytes.len()].copy_from_slice(bytes);
        let mut offset_word = offset as u16;
        if extended(ps, revision) {
            if bytes.len() >= 2 {
                page[hs + offset + 1] |= tag_flags << 5;
            }
        } else {
            offset_word |= (*tag_flags as u16) << 13;
        }
        put16(&mut page, ps - 4 * i - 4, bytes.len() as u16);
        put16(&mut page, ps - 4 * i - 2, offset_word);
        offset += bytes.len();
    }
    page
}

fn image(ps: usize, revision: u32, pages: Vec<Vec<u8>>) -> Vec<u8> {
    let mut out = header_page(ps, revision, ps as u32);
    out.extend(header_page(ps, revision, ps as u32));
    for p in pages {
        assert_eq!(p.len(), ps);
        out.extend(p);
    }
    out
}

fn root_record() -> Vec<u8> {
    let mut v = Vec::new();
    le32(&mut v, 1);
    le32(&mut v, 0);
    le32(&mut v, 0);
    le32(&mut v, 0);
    v
}

fn catalog_row(kind: u16, id: u32, link: u32, size: u32, codepage: u32, name: &str, default: &[u8]) -> Vec<u8> {
    let mut v = Vec::new();
    le16(&mut v, 0);
    v.push(7);
    v.push(if default.is_empty() { 128 } else { 131 });
    le16(&mut v, 31);
    le32(&mut v, 10);
    le16(&mut v, kind);
    le32(&mut v, id);
    le32(&mut v, link);
    le32(&mut v, size);
    le32(&mut v, 0);
    le32(&mut v, codepage);
    v.push(0);
    let name_end = name.len() as u16;
    le16(&mut v, name_end);
    if !default.is_empty() {
        le16(&mut v, name_end | 0x8000);
        le16(&mut v, name_end | 0x8000);
        le16(&mut v, name_end + default.len() as u16);
    }
    v.extend_from_slice(name.as_bytes());
    v.extend_from_slice(default);
    v
}

#[allow(dead_code)]
struct Tagged {
    id: u16,
    flags: Option<u8>,
    payload: Vec<u8>,
}

fn row(key: u32, fixed: &[Vec<u8>], bitmap: u8, variable: &[Option<Vec<u8>>], tagged: &[Tagged], ext: bool) -> Vec<u8> {
    let mut v = Vec::new();
    le16(&mut v, 4);
    v.extend_from_slice(&key.to_be_bytes());
    let fixed_len: usize = fixed.iter().map(|f| f.len()).sum();
    let bitmap_len = (fixed.len() + 7) / 8;
    v.push(fixed.len() as u8);
    v.push(127 + variable.len() as u8);
    le16(&mut v, (4 + fixed_len + bitmap_len) as u16);
    for f in fixed {
        v.extend_from_slice(f);
    }
    if bitmap_len > 0 {
        v.push(bitmap);
    }
    let mut end = 0u16;
    for value in variable {
        match value {
            Some(bytes) => {
                end += bytes.len() as u16;
                le16(&mut v, end);
            }
            None => le16(&mut v, end | 0x8000),
        }
    }
    for value in variable {
        if let Some(bytes) = value {
            v.extend_from_slice(bytes);
        }
    }
    let mut offset = 4 * tagged.len() as u16;
    for t in tagged {
        le16(&mut v, t.id);
        let flagged = ext || t.flags.is_some();
        le16(&mut v, if flagged && !ext { offset | 0x4000 } else { offset });
        offset += t.payload.len() as u16 + if flagged { 1 } else { 0 };
    }
    for t in tagged {
        if ext || t.flags.is_some() {
            v.push(t.flags.unwrap_or(0));
        }
        v.extend_from_slice(&t.payload);
    }
    v
}

fn lv_segment(key: u32, seg_offset: u32, data: &[u8]) -> Vec<u8> {
    let mut v = Vec::new();
    le16(&mut v, 8);
    v.extend_from_slice(&key.to_be_bytes());
    v.extend_from_slice(&seg_offset.to_be_bytes());
    v.extend_from_slice(data);
    v
}

fn lv_summary(key: u32, total: u32) -> Vec<u8> {
    let mut v = Vec::new();
    le16(&mut v, 4);
    v.extend_from_slice(&key.to_be_bytes());
    le32(&mut v, 1);
    le32(&mut v, total);
    v
}

fn branch(key: u32, child: u32) -> Vec<u8> {
    let mut v = Vec::new();
    le16(&mut v, 4);
    v.extend_from_slice(&key.to_be_bytes());
    le32(&mut v, child);
    v
}


const PS: usize = 2048;
const REV: u32 = 0x0c;
const COMMON_KEY: u8 = 4;

fn keyed_segment(local: &[u8], data: &[u8], common: u16) -> Vec<u8> {
    let mut v = Vec::new();
    le16(&mut v, common);
    le16(&mut v, local.len() as u16);
    v.extend_from_slice(local);
    v.extend_from_slice(data);
    v
}

fn forest() -> Vec<u8> {
    // page 4: catalog root, a branch over the leaves 9 and 10
    let catalog = page(PS, REV, 0, 0, ROOT | PARENT, &[(root_record(), 0), (branch(1, 9), 0)]);
    let catalog_1 = page(
        PS,
        REV,
        0,
        10,
        LEAF,
        &[
            (vec![], 0),
            (catalog_row(2, 7, 4, 4, 0, "stray", b""), 0),
            (catalog_row(1, 10, 5, 0, 0, "first", b""), 0),
            (catalog_row(2, 1, 4, 4, 0, "a", b""), 0),
            (catalog_row(2, 2, 4, 4, 0, "gone", b""), DEFUNCT),
            (catalog_row(4, 11, 6, 0, 0, "LV", b""), 0),
        ],
    );
    let catalog_2 = page(
        PS,
        REV,
        9,
        0,
        LEAF,
        &[
            (vec![], 0),
            (catalog_row(2, 256, 12, 0, 0, "b", b""), 0),
            (catalog_row(4, 12, 99, 0, 0, "LV2", b""), 0),
            (catalog_row(5, 13, 0, 0, 0, "callback", b""), 0),
            (catalog_row(1, 20, 5, 0, 0, "second", b""), 0),
        ],
    );
    // page 5: the data of both tables, a leaf that is its own root
    let data = page(
        PS,
        REV,
        0,
        0,
        ROOT | LEAF,
        &[(root_record(), 0), (row(1, &[vec![9, 0, 0, 0]], 0, &[], &[], false), 0)],
    );
    // page 6: root of the long values, over page 7; page 7 is a branch over the leaves 8 and 11
    let lv_root = page(PS, REV, 0, 0, ROOT | PARENT | LONG_VALUE, &[(root_record(), 0), (branch(1, 7), 0)]);
    let lv_branch = page(PS, REV, 0, 12, PARENT | LONG_VALUE, &[(vec![], 0), (branch(1, 8), 0)]);
    let lv_leaf_1 = page(
        PS,
        REV,
        0,
        11,
        LEAF | LONG_VALUE,
        &[
            (vec![0, 0, 0, 7], 0),
            (keyed_segment(&[0, 0, 0, 3], b"def", 4), COMMON_KEY),
            (keyed_segment(&[0, 0, 0, 0], b"abc", 4), COMMON_KEY),
            (keyed_segment(&[0, 0, 0, 6], b"XXX", 4), COMMON_KEY | DEFUNCT),
        ],
    );
    let lv_leaf_2 = page(
        PS,
        REV,
        8,
        0,
        LEAF | LONG_VALUE,
        &[(vec![], 0), (lv_segment(7, 6, b"ghi"), 0), (lv_segment(8, 0, b"eight"), 0)],
    );
    let lv_leaf_3 = page(PS, REV, 7, 0, LEAF | LONG_VALUE, &[(vec![], 0), (lv_segment(9, 0, b"nine"), 0)]);
    image(
        PS,
        REV,
        vec![
            vec![0; PS],
            vec![0; PS],
            vec![0; PS],
            catalog,
            data,
            lv_root,
            lv_branch,
            lv_leaf_1,
            catalog_1,
            catalog_2,
            lv_leaf_2,
            lv_leaf_3,
        ],
    )
}

fn as_is(v: Vec<u8>) -> Option<Vec<u8>> {
    Some(v)
}

#[test]
fn catalog_under_a_branch() {
    let mut reader = Reader::load_db(forest(), 3).unwrap();
    let tables = load_catalog(&mut reader).unwrap();
    assert_eq!(tables.len(), 2);
    let first = &tables[0];
    assert_eq!(first.table_catalog_definition.as_ref().unwrap().name, "first");
    // a column that comes before the first row of a table belongs to no table
    let names: Vec<&str> = first.column_catalog_definition_array.iter().map(|c| c.name.as_str()).collect();
    assert_eq!(names, vec!["a", "b"]);
    // the first long-value row counts
    assert_eq!(first.long_value_catalog_definition.as_ref().unwrap().father_data_page_number(), 6);
    assert_eq!(tables[1].table_catalog_definition.as_ref().unwrap().name, "second");
    assert!(tables[1].column_catalog_definition_array.is_empty());
    assert!(tables[1].long_value_catalog_definition.is_none());
}

#[test]
fn catalog_leaf_with_a_wrong_link() {
    let mut file = forest();
    // leaf 10 names page 4 as the page before it, and was reached from page 9
    put32(&mut file, 11 * PS + 16, 4);
    let mut jdb = EseParser::init(3, as_is);
    assert_eq!(jdb.load(file), Some(EseError::SiblingChainBroken));
    let mut file = forest();
    // leaf 10 is no leaf
    put32(&mut file, 11 * PS + 36, PARENT);
    let mut jdb = EseParser::init(3, as_is);
    assert_eq!(jdb.load(file), Some(EseError::PageFlagsUnexpected));
    let mut file = forest();
    // the catalog's pages form a ring
    put32(&mut file, 11 * PS + 20, 9);
    put32(&mut file, 10 * PS + 16, 0);
    let mut jdb = EseParser::init(3, as_is);
    assert_eq!(jdb.load(file), Some(EseError::SiblingChainBroken));
}

#[test]
fn long_values_under_branches() {
    let mut reader = Reader::load_db(forest(), 3).unwrap();
    let tags = load_lv_metadata(&mut reader, 6).unwrap();
    let keys: Vec<(u32, u32, u32)> = tags.iter().map(|t| (t.key, t.seg_offset, t.size)).collect();
    assert_eq!(keys, vec![(7, 3, 3), (7, 0, 3), (7, 6, 3), (8, 0, 5), (9, 0, 4)]);
    assert_eq!(tags[0].common_page_key, vec![0, 0, 0, 7]);
    assert_eq!(tags[0].local_page_key, vec![0, 0, 0, 3]);
    assert_eq!(load_lv_data(&mut reader, &tags, 7).unwrap(), b"abcdefghi".to_vec());
    assert_eq!(load_lv_data(&mut reader, &tags, 8).unwrap(), b"eight".to_vec());
    assert_eq!(load_lv_data(&mut reader, &tags, 9).unwrap(), b"nine".to_vec());
    assert_eq!(load_lv_data(&mut reader, &tags, 10), Err(EseError::LongValueNotFound));
    // the value is as long as its segments together, which follow each other from zero on
    let mut picked: Vec<(u32, u32)> = tags.iter().filter(|t| t.key == 7).map(|t| (t.seg_offset, t.size)).collect();
    picked.sort();
    let mut end = 0;
    for (offset, size) in picked {
        assert_eq!(offset, end);
        end += size;
    }
    assert_eq!(end as usize, load_lv_data(&mut reader, &tags, 7).unwrap().len());
    // a leaf read as a root of its own passes its defunct records over as well
    let leaf = load_lv_metadata(&mut reader, 8).unwrap();
    assert_eq!(leaf.len(), 2);
    assert_eq!(leaf[1].seg_offset, 0);
    // the catalog is no long-value tree
    assert_eq!(load_lv_metadata(&mut reader, 4).err(), Some(EseError::PageFlagsUnexpected));
}

#[test]
fn long_value_records() {
    let mut reader = Reader::load_db(forest(), 3).unwrap();
    let page = DbPage::new(&mut reader, 8).unwrap();
    let tags = page.page_tags().clone();
    let tag = load_lv_tag(&reader, &page, &tags[1], &tags[0]).unwrap().unwrap();
    assert_eq!((tag.key, tag.seg_offset, tag.size), (7, 3, 3));
    // page 8 begins at 9 * 2048; the record lies behind tag 0 and its own key
    assert_eq!(tag.offset, 9 * 2048 + 40 + 4 + 8);
    assert_eq!(reader.read_bytes(tag.offset, 3).unwrap(), b"def".to_vec());
    let root = DbPage::new(&mut reader, 6).unwrap();
    let root_tags = root.page_tags().clone();
    // the branch record has a key of four bytes and a page number: no segment offset
    let odd = load_lv_tag(&reader, &root, &root_tags[1], &root_tags[0]).unwrap().unwrap();
    assert_eq!((odd.key, odd.seg_offset, odd.size), (1, 0, 4));
    assert_eq!(read_key_pair(&vec![0, 0, 1, 0], &vec![0, 0, 0, 9]), Some((256, 9)));
    assert_eq!(read_key_pair(&vec![], &vec![1, 2, 3, 4, 5]), Some((0x01020304, 0)));
    assert_eq!(read_key_pair(&vec![9, 9, 9, 9, 9], &vec![1, 2]), Some((0x09090909, 0)));
    assert_eq!(read_key_pair(&vec![1, 2, 3], &vec![4, 5, 6]), None);
    assert_eq!(read_key_pair(&vec![1], &vec![1, 2, 3, 4, 5, 6, 7, 8]), Some((0x01020304, 0x05060708)));
}

#[test]
fn branch_records_and_keys() {
    let mut reader = Reader::load_db(forest(), 3).unwrap();
    let page = DbPage::new(&mut reader, 6).unwrap();
    let tags = page.page_tags().clone();
    assert_eq!(page_tag_get_branch_child_page_number(&reader, &page, &tags[1]), Ok(7));
    assert_eq!(find_first_leaf_page(&mut reader, 6), Ok(8));
    assert_eq!(find_first_leaf_page(&mut reader, 4), Ok(9));
    assert_eq!(skip_keys(page.data(), 40, &tags[1], false), Some(40 + 16 + 2 + 4));
    assert_eq!(skip_keys(page.data(), 40, &tags[0], false), Some(40 + 2 + 1));
    // pages of this size keep no flags in their records
    assert_eq!(clean_pgtag_flag(&reader, &page, 0xe005), 0xe005);
    let leaf = DbPage::new(&mut reader, 8).unwrap();
    let leaf_tags = leaf.page_tags().clone();
    assert!(leaf_tags[1].has_common_key_size());
    assert!(!leaf_tags[0].has_common_key_size());
    assert!(leaf_tags[3].is_defunct());
    assert_eq!(skip_keys(leaf.data(), 40, &leaf_tags[1], false), Some(40 + 4 + 2 + 2 + 4));
    let catalog_leaf = DbPage::new(&mut reader, 9).unwrap();
    let item = load_catalog_item(&reader, &catalog_leaf, &catalog_leaf.page_tags()[2]).unwrap();
    assert_eq!(item.name, "first");
    assert_eq!(item.identifier, 10);
    assert_eq!(item.father_data_page_object_identifier, 10);
}

#[test]
fn a_walk_without_end_is_given_up() {
    let mut file = forest();
    // the branch 7 names itself as its child
    let at = 8 * PS + 40 + 6;
    put32(&mut file, at, 7);
    let mut reader = Reader::load_db(file, 3).unwrap();
    assert_eq!(find_first_leaf_page(&mut reader, 6), Err(EseError::PageFlagsUnexpected));
    assert_eq!(load_lv_metadata(&mut reader, 6).err(), Some(EseError::PageFlagsUnexpected));
}

#[test]
fn record_header_and_multi_values() {
    let mut reader = Reader::load_db(forest(), 3).unwrap();
    let page = DbPage::new(&mut reader, 5).unwrap();
    let tags = page.page_tags().clone();
    let rec = read_record(page.data(), 40, &tags[1], false).unwrap();
    assert_eq!(rec.start, 40 + 16 + 2 + 4);
    assert_eq!(rec.size as usize, 4 + 4 + 1);
    assert_eq!((rec.last_fixed, rec.last_variable, rec.variable_offset), (1, 127, 9));
    let walk = start_walk(page.data(), &rec).unwrap();
    assert_eq!(walk.at, (rec.start + 4) as u128);
    assert_eq!(walk.variable_id, 127);
    assert_eq!(walk.variable_value, 9);
    // a record that its tag is too short for
    let mut short = tags[1];
    short.size = 3;
    assert_eq!(read_record(page.data(), 40, &short, false), Err(EseError::RecordMalformed));
    let payload: Vec<u8> = vec![6, 0, 8, 0x80, 12, 0, b'a', b'b', 5, 0, 0, 0, b'c', b'd', b'e'];
    let entries = read_mv_entries(&payload, 0, payload.len() as u16, 0x08).unwrap();
    assert_eq!(
        entries,
        vec![
            MvEntry { shift: 6, long_value: false, size: 2 },
            MvEntry { shift: 8, long_value: true, size: 4 },
            MvEntry { shift: 12, long_value: false, size: 3 },
        ]
    );
    assert_eq!(read_payload(&payload, 0, 15, 0x08, 2), Ok(Located::LongValue { key: 5 }));
    assert_eq!(read_payload(&payload, 0, 15, 0x08, 3), Ok(Located::Plain { at: 12, size: 3 }));
    assert_eq!(read_payload(&payload, 0, 15, 0x08, 9), Ok(Located::Plain { at: 6, size: 2 }));
    assert_eq!(read_payload(&payload, 0, 15, 0x02, 0), Ok(Located::Packed { at: 0, size: 15 }));
    assert_eq!(read_payload(&payload, 0, 15, 0x01, 0), Ok(Located::Plain { at: 0, size: 15 }));
    assert_eq!(read_payload(&payload, 0, 15, 0x04, 0), Ok(Located::LongValue { key: 0x80080006 }));
    // offsets that go backwards, and a payload that ends before its values
    assert_eq!(read_mv_entries(&vec![4, 0, 2, 0, 1, 1], 0, 6, 0x08), Err(EseError::RecordMalformed));
    assert_eq!(read_mv_entries(&payload, 0, 10, 0x08), Err(EseError::RecordMalformed));
    assert_eq!(read_mv_entries(&vec![200, 1, 2], 0, 3, 0x10), Err(EseError::RecordMalformed));
    assert_eq!(read_mv_entries(&vec![], 0, 0, 0x10), Err(EseError::RecordMalformed));
}
