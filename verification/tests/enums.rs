use ese_parser::jet::{CatalogType, ColumnType, DbState, FileType, FixedFDPNumber, FixedPageNumber};

#[test]
fn catalog_type_codes() {
    assert_eq!(CatalogType::Table.code(), 1);
    assert_eq!(CatalogType::Column.code(), 2);
    assert_eq!(CatalogType::Index.code(), 3);
    assert_eq!(CatalogType::LongValue.code(), 4);
    assert_eq!(CatalogType::Callback.code(), 5);
    assert_eq!(CatalogType::from_code(4), Some(CatalogType::LongValue));
    assert_eq!(CatalogType::from_code(0), None);
    assert_eq!(CatalogType::from_code(6), None);
}

#[test]
fn column_type_codes() {
    assert_eq!(ColumnType::Nil.code(), 0);
    assert_eq!(ColumnType::LongText.code(), 12);
    assert_eq!(ColumnType::Max.code(), 18);
    assert_eq!(ColumnType::from_code(16), Some(ColumnType::GUID));
    assert_eq!(ColumnType::from_code(19), None);
}

#[test]
fn fixed_numbers() {
    assert_eq!(FixedPageNumber::Database.number(), 1);
    assert_eq!(FixedPageNumber::Catalog.number(), 4);
    assert_eq!(FixedPageNumber::CatalogBackup.number(), 24);
    assert_eq!(FixedFDPNumber::Database.number(), 1);
    assert_eq!(FixedFDPNumber::Catalog.number(), 2);
    assert_eq!(FixedFDPNumber::CatalogBackup.number(), 3);
}

#[test]
fn state_and_file_type() {
    assert_eq!(DbState::default(), DbState::impossible);
    assert_eq!(DbState::CleanShutdown.code(), 3);
    assert_eq!(DbState::from_code(2), Some(DbState::DirtyShutdown));
    assert_eq!(DbState::from_code(6), None);
    assert_eq!(FileType::default(), FileType::Database);
    assert_eq!(FileType::StreamingFile.code(), 1);
    assert_eq!(FileType::from_code(2), None);
}
