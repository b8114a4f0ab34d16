use encoding::all::UTF_8;
use encoding::{DecoderTrap, Encoding};
use ese_parser::cursor::{ESE_MOVE_FIRST, ESE_MOVE_NEXT};
use ese_parser::error::EseError;
use ese_parser::ese_parser::{ColumnInfo, EseParser};
use ese_parser::gen_db::prepare_db;
use ese_parser::reader::Reader;
use std::collections::HashSet;

fn as_is(v: Vec<u8>) -> Option<Vec<u8>> {
    Some(v)
}

fn caching(records: usize) -> Result<(), EseError> {
    let cache_size: usize = 10;
    let table = "test_table";
    let file = prepare_db(table, 1024 * 8, 1024, records).unwrap();
    let file_len = file.len() as u64;
    let mut reader = Reader::load_db(file, cache_size)?;
    let page_size = reader.page_size();
    let num_of_pages = std::cmp::min(file_len / page_size, page_size) as usize;
    let full_cache_size = 6 * cache_size;
    let stride = num_of_pages / full_cache_size;
    let chunk_size = page_size as usize / num_of_pages;
    let mut chunks = Vec::<Vec<u8>>::with_capacity(stride);

    println!(
        "cache_size: {}, page_size: {}, num_of_pages: {}, stride: {}, chunk_size: {}",
        cache_size, page_size, num_of_pages, stride, chunk_size
    );

    for pass in 1..3 {
        for pg_no in 1_usize..12_usize {
            let offset: u64 = (pg_no * (page_size as usize + chunk_size)) as u64;

            println!("pass {}, pg_no {}, offset {:x} ", pass, pg_no, offset);

            if pass == 1 {
                assert!(!reader.is_cached(pg_no));
                let chunk = reader.read(offset, chunk_size)?;
                chunks.push(chunk);
            } else {
                // pg_no == 1 was deleted, because cache_size is 10 pages
                // and we read 11, so least recently used page (1) was deleted;
                // each page that comes back takes the place of the one that is
                // read next, for the cache holds no more than 10 pages
                assert_eq!(reader.is_cached(pg_no), false);
                let chunk = reader.read(offset, chunk_size)?;
                assert_eq!(chunk, chunks[pg_no - 1]);
            }
        }
    }
    Ok(())
}

#[test]
pub fn reader_caching_test() -> Result<(), EseError> {
    caching(4000)
}

#[test]
pub fn test_caching_test() -> Result<(), EseError> {
    caching(1000)
}

fn check_row(jdb: &mut EseParser<fn(Vec<u8>) -> Option<Vec<u8>>>, table_id: u64, columns: &Vec<ColumnInfo>) -> HashSet<String> {
    let mut values = HashSet::<String>::new();

    for col in columns {
        match jdb.get_column_mv(table_id, col.id, 0) {
            Ok(result) => {
                if let Some(bytes) = result {
                    let mut value = String::new();
                    if col.cp == 1200 {
                        let buffer: Vec<u16> =
                            bytes.chunks(2).map(|c| u16::from_le_bytes([c[0], c[1]])).collect();
                        value = String::from_utf16(&buffer).unwrap();
                    } else if let Ok(s) = UTF_8.decode(&bytes, DecoderTrap::Strict) {
                        value = s;
                    }
                    values.insert(value);
                } else {
                    println!("column '{}' has no value", col.name);
                    values.insert("".to_string());
                }
            }
            Err(e) => panic!("error: {}", e.text()),
        }
    }
    values
}

#[test]
pub fn reader_decompress_test() -> Result<(), EseError> {
    let table = "test_table";
    let file = prepare_db(table, 1024 * 8, 10, 10).unwrap();
    let mut jdb = EseParser::init(5, as_is as fn(Vec<u8>) -> Option<Vec<u8>>);

    match jdb.load(file) {
        Some(e) => panic!("Error: {}", e.text()),
        None => println!("Loaded {}", "decompress_test.edb"),
    }

    let table_id = jdb.open_table(table)?;
    let columns = jdb.get_columns(table)?;
    let values = check_row(&mut jdb, table_id, &columns);

    println!("values: {:?}", values);
    assert_eq!(values.len(), 1);

    Ok(())
}

#[test]
pub fn test_decompress_test() -> Result<(), EseError> {
    let table = "test_table";
    let file = prepare_db(table, 1024 * 8, 10, 10).unwrap();
    let mut jdb = EseParser::init(5, as_is as fn(Vec<u8>) -> Option<Vec<u8>>);

    match jdb.load(file) {
        Some(e) => panic!("Error: {}", e.text()),
        None => println!("Loaded {}", "decompress_test.edb"),
    }

    let table_id = jdb.open_table(table)?;
    let columns = jdb.get_columns(table)?;

    assert!(jdb.move_row(table_id, ESE_MOVE_FIRST));

    for rec_no in 0.. {
        let values = check_row(&mut jdb, table_id, &columns);

        println!("{}: {:?}", rec_no, values);
        assert_eq!(values.len(), 1);

        if !jdb.move_row(table_id, ESE_MOVE_NEXT) {
            assert_eq!(rec_no, 9);
            break;
        }
    }
    Ok(())
}
