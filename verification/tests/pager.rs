use ese_parser::bytes::{get_be32, get_bytes, get_le16, get_le32, get_le64, get_u8};
use ese_parser::error::EseError;
use ese_parser::ese_parser::EseParser;
use ese_parser::gen_db::prepare_db;
use ese_parser::jet::{date_time_at, revision_description, signature_at, IoHandle};
use ese_parser::page::{decode_page_header, load_page_header, load_page_tags, DbPage, PageHeader};
use ese_parser::reader::{calc_crc32, merge_headers, parse_file_header, Reader};

fn put32(v: &mut [u8], at: usize, x: u32) {
    v[at..at + 4].copy_from_slice(&x.to_le_bytes());
}

fn checksum(header: &[u8]) -> u32 {
    let mut crc: u32 = 0x89abcdef;
    for i in 1..(668 / 4) {
        let w = u32::from_le_bytes([header[4 * i], header[4 * i + 1], header[4 * i + 2], header[4 * i + 3]]);
        crc ^= w;
    }
    crc
}

fn seal(file: &mut [u8], at: usize) {
    put32(file, at, 0);
    let crc = checksum(&file[at..at + 668]);
    put32(file, at, crc);
}

fn as_is(v: Vec<u8>) -> Option<Vec<u8>> {
    Some(v)
}

fn database(pages: usize) -> Vec<u8> {
    // rows of this width fill a leaf of 2 KiB each
    let image = prepare_db("test_table", 2048, 370, pages).unwrap();
    assert_eq!(image.len(), 2048 * (7 + pages));
    image
}

#[test]
fn header_rejection() {
    let mut file = database(1);
    file[4] ^= 0xff;
    assert_eq!(Reader::load_db(file.clone(), 10).err(), Some(EseError::BadSignature));
    let mut jdb = EseParser::init(10, as_is);
    assert_eq!(jdb.load(file), Some(EseError::BadSignature));
    assert_eq!(jdb.get_tables().unwrap(), Vec::<String>::new());
    assert_eq!(jdb.open_table("test_table"), Err(EseError::TableNotFound));
}

#[test]
fn mirror_agreement() {
    let mut file = database(1);
    // the first header leaves the revision zero, the mirror has 0x11
    put32(&mut file, 232, 0);
    seal(&mut file, 0);
    put32(&mut file, 2048 + 232, 0x11);
    seal(&mut file, 2048);
    let reader = Reader::load_db(file, 10).unwrap();
    assert_eq!(reader.format_revision(), 0x11);
    assert_eq!(reader.format_version(), 0x620);
    assert_eq!(reader.page_size(), 2048);
    assert_eq!(reader.last_page_number(), 2);
}

#[test]
fn checksum_mismatch() {
    let mut file = database(1);
    file[100] ^= 1;
    assert_eq!(Reader::load_db(file, 10).err(), Some(EseError::ChecksumMismatch));
}

#[test]
fn checksum_formula() {
    let file = database(1);
    let header: Vec<u8> = file[0..668].to_vec();
    let stored = u32::from_le_bytes([header[0], header[1], header[2], header[3]]);
    assert_eq!(calc_crc32(&header), stored);
    // an all-zero header folds to the seed
    assert_eq!(calc_crc32(&vec![0u8; 668]), 0x89abcdef);
    let mut one = vec![0u8; 668];
    one[4] = 1;
    one[667] = 0x80;
    assert_eq!(calc_crc32(&one), 0x89abcdef ^ 1 ^ 0x8000_0000);
    one[0] = 0xff;
    assert_eq!(calc_crc32(&one), 0x89abcdef ^ 1 ^ 0x8000_0000);
}

#[test]
fn revision_mismatch() {
    let mut file = database(1);
    put32(&mut file, 2048 + 232, 0x11);
    seal(&mut file, 2048);
    assert_eq!(Reader::load_db(file, 10).err(), Some(EseError::HeaderMismatch));
}

#[test]
fn page_size_mismatch() {
    let mut file = database(1);
    put32(&mut file, 2048 + 236, 4096);
    seal(&mut file, 2048);
    assert_eq!(Reader::load_db(file, 10).err(), Some(EseError::HeaderMismatch));
}

#[test]
fn page_size_that_the_format_lacks() {
    let mut file = database(1);
    // both headers name pages of 1 KiB; the mirror is looked for at that offset
    put32(&mut file, 236, 1024);
    seal(&mut file, 0);
    let header: Vec<u8> = file[0..668].to_vec();
    file[1024..1024 + 668].copy_from_slice(&header);
    assert_eq!(Reader::load_db(file, 10).err(), Some(EseError::HeaderMismatch));
}

#[test]
fn unsupported_version() {
    let mut file = database(1);
    put32(&mut file, 8, 0x623);
    seal(&mut file, 0);
    assert_eq!(Reader::load_db(file, 10).err(), Some(EseError::UnsupportedVersion));
}

#[test]
fn linear_tagged_layout_is_not_implemented() {
    let mut file = database(1);
    put32(&mut file, 232, 2);
    seal(&mut file, 0);
    put32(&mut file, 2048 + 232, 2);
    seal(&mut file, 2048);
    assert_eq!(Reader::load_db(file, 10).err(), Some(EseError::Unimplemented));
}

#[test]
fn short_file() {
    assert_eq!(Reader::load_db(vec![0u8; 100], 10).err(), Some(EseError::Io));
    assert_eq!(Reader::load_db(Vec::new(), 10).err(), Some(EseError::Io));
    let file = database(1);
    // the header is there, the mirror is not
    assert_eq!(Reader::load_db(file[0..2048].to_vec(), 10).err(), Some(EseError::Io));
}

#[test]
fn header_fields() {
    let file = database(1);
    let header = parse_file_header(&file[0..668].to_vec());
    assert_eq!(header.signature, 0x89abcdef);
    assert_eq!(header.format_version, 0x620);
    assert_eq!(header.format_revision, 0x0c);
    assert_eq!(header.page_size, 2048);
    assert_eq!(header.database_state, 3);
    assert_eq!(header.file_type, 0);
    assert_eq!(header.creation_format_version, 0x620);
    assert_eq!(header.creation_format_revision, 0x0c);
    let mut primary = header;
    primary.format_revision = 0;
    primary.page_size = 0;
    let merged = merge_headers(primary, header).unwrap();
    assert_eq!(merged.format_revision, 0x0c);
    assert_eq!(merged.page_size, 2048);
    let handle = IoHandle::new(&header);
    assert_eq!(handle.pages_data_offset, 4096);
    assert_eq!(handle.pages_data_size, 4096);
    assert_eq!(handle.last_page_number, 2);
    assert_eq!(handle.page_size, 2048);
    assert_eq!(handle.format_revision, 0x0c);
}

#[test]
fn cache_eviction() {
    let mut reader = Reader::load_db(database(12), 10).unwrap();
    // opening leaves nothing in the cache
    assert!(!reader.is_cached(0));
    assert!(!reader.is_cached(1));
    for page in 2..=12usize {
        assert!(!reader.is_cached(page));
        let bytes = reader.read((page * 2048) as u64, 16).unwrap();
        assert_eq!(bytes.len(), 16);
        assert!(reader.is_cached(page));
    }
    // eleven pages went through a cache of ten: the first has left it
    assert!(!reader.is_cached(2));
    for page in 3..=12usize {
        assert!(reader.is_cached(page));
    }
    // page 12 is served from the cache, page 2 is fetched anew
    reader.read(12 * 2048, 16).unwrap();
    assert!(!reader.is_cached(2));
    reader.read(2 * 2048, 16).unwrap();
    assert!(reader.is_cached(2));
    assert!(reader.is_cached(12));
    // the cache was full: the oldest page has left it for page 2
    assert!(!reader.is_cached(3));
    for page in 4..=12usize {
        assert!(reader.is_cached(page));
    }
    assert_eq!((0..20usize).filter(|page| reader.is_cached(*page)).count(), 10);
}

#[test]
fn cache_never_holds_more_than_its_size() {
    for size in [1usize, 2, 3, 5] {
        let mut reader = Reader::load_db(database(12), size).unwrap();
        let order = [5usize, 6, 5, 7, 8, 5, 6, 9, 10, 6, 5, 11, 12, 7, 7, 13, 5, 6, 7, 8, 9, 5];
        for page in order {
            reader.read((page * 2048) as u64, 4).unwrap();
            assert!(reader.is_cached(page));
            assert!((0..20usize).filter(|p| reader.is_cached(*p)).count() <= size);
        }
    }
}

#[test]
fn cache_of_one_page() {
    let mut reader = Reader::load_db(database(3), 1).unwrap();
    reader.read(5 * 2048, 1).unwrap();
    assert!(reader.is_cached(5));
    reader.read(6 * 2048, 1).unwrap();
    assert!(!reader.is_cached(5));
    assert!(reader.is_cached(6));
    reader.read(6 * 2048 + 100, 1).unwrap();
    assert!(reader.is_cached(6));
    // page 5 is remembered and comes back: page 6 has to leave for it
    reader.read(5 * 2048, 1).unwrap();
    assert!(reader.is_cached(5));
    assert!(!reader.is_cached(6));
}

#[test]
fn reads_give_the_bytes_of_the_file() {
    let file = database(4);
    let mut reader = Reader::load_db(file.clone(), 3).unwrap();
    assert_eq!(reader.file_len(), file.len());
    for pass in 0..2 {
        for page in [5usize, 6, 7, 8, 9, 5, 9, 6] {
            let offset = page * 2048 + 7 * pass;
            assert_eq!(reader.read(offset as u64, 64).unwrap(), file[offset..offset + 64].to_vec());
            assert_eq!(reader.read_bytes(offset as u64, 3).unwrap(), file[offset..offset + 3].to_vec());
        }
    }
    let at = 5 * 2048 + 34;
    assert_eq!(reader.read_u8(at as u64).unwrap(), file[at]);
    assert_eq!(reader.read_u16(at as u64).unwrap(), u16::from_le_bytes([file[at], file[at + 1]]));
    assert_eq!(
        reader.read_u32(at as u64).unwrap(),
        u32::from_le_bytes([file[at], file[at + 1], file[at + 2], file[at + 3]])
    );
    assert_eq!(reader.read(0, 0).unwrap(), Vec::<u8>::new());
}

#[test]
fn reads_out_of_the_page_or_the_file() {
    let file = database(1);
    let len = file.len() as u64;
    let mut reader = Reader::load_db(file, 3).unwrap();
    assert_eq!(reader.read(len, 1), Err(EseError::Io));
    assert_eq!(reader.read(len + 5000, 1), Err(EseError::Io));
    assert_eq!(reader.read(u64::MAX, 1), Err(EseError::Io));
    // the bytes would leave the page that they begin in
    assert_eq!(reader.read(2048 - 2, 4), Err(EseError::RecordMalformed));
    assert_eq!(reader.read_u32(len - 2), Err(EseError::RecordMalformed));
    assert_eq!(reader.read(2048 - 2, 2).unwrap().len(), 2);
    assert_eq!(reader.read(0, 2049), Err(EseError::RecordMalformed));
    assert_eq!(reader.read(0, 2048).unwrap().len(), 2048);
}

#[test]
fn read_string_wants_text() {
    let mut file = database(1);
    let at = 4 * 2048;
    file[at..at + 5].copy_from_slice(b"hello");
    file[at + 5] = 0xc3;
    file[at + 6] = 0xa4;
    file[at + 7] = 0xff;
    let mut reader = Reader::load_db(file, 3).unwrap();
    assert_eq!(reader.read_string(at as u64, 5).unwrap(), "hello");
    assert_eq!(reader.read_string(at as u64, 7).unwrap(), "hello\u{e4}");
    assert_eq!(reader.read_string(at as u64, 6), Err(EseError::RecordMalformed));
    assert_eq!(reader.read_string(at as u64, 8), Err(EseError::RecordMalformed));
    assert_eq!(reader.read_string(u64::MAX, 1), Err(EseError::Io));
}

#[test]
fn page_headers_of_the_revisions() {
    let mut bytes = vec![0u8; 2048];
    for (i, b) in bytes.iter_mut().enumerate().take(80) {
        *b = i as u8;
    }
    match decode_page_header(&bytes, 0x0a, 2048) {
        PageHeader::old_format(old, common) => {
            assert_eq!(old.xor_checksum, 0x03020100);
            assert_eq!(old.page_number, 0x07060504);
            assert_eq!(common.previous_page, 0x13121110);
            assert_eq!(common.next_page, 0x17161514);
            assert_eq!(common.father_data_page_object_identifier, 0x1b1a1918);
            assert_eq!(common.available_data_size, 0x1d1c);
            assert_eq!(common.available_uncommitted_data_size, 0x1f1e);
            assert_eq!(common.available_data_offset, 0x2120);
            assert_eq!(common.available_page_tag, 0x2322);
            assert_eq!(common.page_flags, 0x27262524);
            assert_eq!(common.database_modification_time, 0x0f0e0d0c0b0a0908);
        }
        other => panic!("{:?}", other),
    }
    match decode_page_header(&bytes, 0x0b, 2048) {
        PageHeader::x0b(h, _) => {
            assert_eq!(h.xor_checksum, 0x03020100);
            assert_eq!(h.ecc_checksum, 0x07060504);
        }
        other => panic!("{:?}", other),
    }
    match decode_page_header(&bytes, 0x11, 8192) {
        PageHeader::x11(h, _) => assert_eq!(h.checksum, 0x0706050403020100),
        other => panic!("{:?}", other),
    }
    match decode_page_header(&bytes, 0x11, 16384) {
        PageHeader::x11_ext(h, common, ext) => {
            assert_eq!(h.checksum, 0x0706050403020100);
            assert_eq!(common.page_flags, 0x27262524);
            assert_eq!(ext.checksum1, 0x2f2e2d2c2b2a2928);
            assert_eq!(ext.page_number, 0x4746454443424140);
            assert_eq!(ext.unknown, 0x4f4e4d4c4b4a4948);
        }
        other => panic!("{:?}", other),
    }
}

#[test]
fn pages_of_a_generated_database() {
    let file = database(2);
    let mut reader = Reader::load_db(file, 3).unwrap();
    match load_page_header(&mut reader, 6).unwrap() {
        PageHeader::x0b(_, common) => {
            assert_eq!(common.next_page, 7);
            assert_eq!(common.previous_page, 0);
            assert_eq!(common.available_page_tag, 2);
            assert_eq!(common.page_flags, 2);
        }
        other => panic!("{:?}", other),
    }
    let page = DbPage::new(&mut reader, 7).unwrap();
    assert_eq!(page.common().previous_page, 6);
    assert_eq!(page.common().next_page, 0);
    assert_eq!(page.data().len(), 2048);
    let tags = load_page_tags(&reader, &page).unwrap();
    assert_eq!(&tags, page.page_tags());
    assert_eq!(tags.len(), 2);
    assert_eq!((tags[0].flags, tags[0].offset, tags[0].size), (0, 0, 0));
    assert_eq!(tags[1].offset, 0);
    assert_eq!(tags[1].size as usize, 29 + 5 * 377);
    assert_eq!(load_page_header(&mut reader, 8).err(), Some(EseError::Io));
    assert_eq!(DbPage::new(&mut reader, 8).err(), Some(EseError::Io));
    assert_eq!(DbPage::new(&mut reader, u32::MAX).err(), Some(EseError::Io));
}

#[test]
fn tag_array_that_leaves_no_room() {
    let mut file = database(1);
    // page 6 claims more tags than a page holds
    let at = 7 * 2048 + 34;
    file[at] = 0xff;
    file[at + 1] = 0x7f;
    let mut reader = Reader::load_db(file, 3).unwrap();
    assert_eq!(DbPage::new(&mut reader, 6).err(), Some(EseError::RecordMalformed));
    let mut jdb = EseParser::init(3, as_is);
    let mut file = database(1);
    file[at] = 0xff;
    file[at + 1] = 0x7f;
    assert_eq!(jdb.load(file), None);
    assert_eq!(jdb.open_table("test_table"), Err(EseError::RecordMalformed));
}

#[test]
fn byte_readers() {
    let b = vec![1u8, 2, 3, 4, 5, 6, 7, 8, 9];
    assert_eq!(get_u8(&b, 8), Some(9));
    assert_eq!(get_u8(&b, 9), None);
    assert_eq!(get_le16(&b, 0), Some(0x0201));
    assert_eq!(get_le16(&b, 7), Some(0x0908));
    assert_eq!(get_le16(&b, 8), None);
    assert_eq!(get_le16(&b, usize::MAX), None);
    assert_eq!(get_le32(&b, 1), Some(0x05040302));
    assert_eq!(get_le32(&b, 6), None);
    assert_eq!(get_be32(&b, 1), Some(0x02030405));
    assert_eq!(get_be32(&b, 6), None);
    assert_eq!(get_le64(&b, 1), Some(0x0908070605040302));
    assert_eq!(get_le64(&b, 2), None);
    assert_eq!(get_le32(&vec![0xff, 0xff, 0xff, 0xff], 0), Some(u32::MAX));
    assert_eq!(get_bytes(&b, 2, 3), Some(vec![3, 4, 5]));
    assert_eq!(get_bytes(&b, 9, 0), Some(vec![]));
    assert_eq!(get_bytes(&b, 8, 2), None);
    assert_eq!(get_bytes(&b, 10, 0), None);
    assert_eq!(get_bytes(&b, 1, usize::MAX), None);
}

#[test]
fn revision_texts() {
    assert_eq!(revision_description(0x620, 0x0c), "Used in Windows Vista (SP0)");
    assert_eq!(revision_description(0x620, 0x14), "Used in Exchange 2013 and Active Directory 2016");
    assert_eq!(revision_description(0x620, 0), "Original operating system Beta format (April 22, 1997)");
    assert_eq!(revision_description(0x623, 0), "New Space Manager (May 15, 1999)");
    assert_eq!(revision_description(0x620, 0x0a), "Unknown");
    assert_eq!(revision_description(0x623, 1), "Unknown");
    assert_eq!(revision_description(0x621, 0x0c), "Unknown");
}

#[test]
fn error_texts() {
    assert_eq!(EseError::BadSignature.text(), "bad file header signature");
    assert_eq!(EseError::Io.text(), "read past the end of the file");
    assert_eq!(EseError::ColumnNotFound.text(), "column not found");
    assert_eq!(EseError::Unimplemented.text(), "not implemented");
}

#[test]
fn times_and_signatures() {
    let mut b = vec![0u8; 40];
    b[4..8].copy_from_slice(&0x01020304u32.to_le_bytes());
    b[8..16].copy_from_slice(&[59, 58, 23, 31, 12, 121, 0xff, 0x02]);
    b[16..32].copy_from_slice(b"COMPUTER\0\0\0\0\0\0\0\0");
    let time = date_time_at(&b, 8).unwrap();
    assert_eq!((time.seconds, time.minutes, time.hours), (59, 58, 23));
    assert_eq!((time.day, time.month, time.year), (31, 12, 121));
    assert_eq!((time.time_is_utc, time.os_snapshot), (1, 0));
    assert_eq!(date_time_at(&b, 32).map(|t| t.year), Some(0));
    assert_eq!(date_time_at(&b, 33), None);
    let signature = signature_at(&b, 4).unwrap();
    assert_eq!(signature.random, 0x01020304);
    assert_eq!(signature.logtime_create, time);
    assert_eq!(signature.computer_name, b"COMPUTER\0\0\0\0\0\0\0\0".to_vec());
    assert!(signature_at(&b, 13).is_none());
    assert!(signature_at(&b, usize::MAX).is_none());
}
