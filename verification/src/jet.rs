use vstd::prelude::*;
use crate::bytes::{get_bytes, in_range, le32_at, word_at};
use crate::reader::FileHeader;

verus! {

/// Page flag: the page is the root of its tree.
pub const PAGE_IS_ROOT: u32 = 0x0001;

/// Page flag: the page is a leaf.
pub const PAGE_IS_LEAF: u32 = 0x0002;

/// Page flag: the page is a branch.
pub const PAGE_IS_PARENT: u32 = 0x0004;

/// Page flag: the page is empty.
pub const PAGE_IS_EMPTY: u32 = 0x0008;

/// Page flag: the page belongs to a space tree.
pub const PAGE_IS_SPACE_TREE: u32 = 0x0020;

/// Page flag: the page belongs to an index.
pub const PAGE_IS_INDEX: u32 = 0x0040;

/// Page flag: the page belongs to a long-value tree.
pub const PAGE_IS_LONG_VALUE: u32 = 0x0080;

/// Page flag: the page uses the new record format.
pub const PAGE_IS_NEW_RECORD_FORMAT: u32 = 0x2000;

/// Page flag: the page was scrubbed.
pub const PAGE_IS_SCRUBBED: u32 = 0x4000;

/// Tag flag whose meaning is not known.
pub const TAG_FLAG_UNKNOWN: u8 = 0x1;

/// Tag flag: the record was deleted and is skipped.
pub const TAG_FLAG_IS_DEFUNCT: u8 = 0x2;

/// Tag flag: the record begins with the size of the key part it shares.
pub const TAG_FLAG_HAS_COMMON_KEY_SIZE: u8 = 0x4;

/// Tagged-value flag: the value has a variable size.
pub const TAGGED_VARIABLE_SIZE: u8 = 0x01;

/// Tagged-value flag: the value is compressed.
pub const TAGGED_COMPRESSED: u8 = 0x02;

/// Tagged-value flag: the value is stored out of the row.
pub const TAGGED_STORED: u8 = 0x04;

/// Tagged-value flag: the payload is the key of a long value.
pub const TAGGED_LONG_VALUE: u8 = 0x04;

/// Tagged-value flag: several values behind a table of offsets.
pub const TAGGED_MULTI_VALUE: u8 = 0x08;

/// Tagged-value flag: two values, parted at the offset in the first byte.
pub const TAGGED_MULTI_VALUE_OFFSET: u8 = 0x10;

/// The first revision whose pages carry the header with the ECC checksum.
pub const ESEDB_FORMAT_REVISION_NEW_RECORD_FORMAT: u32 = 0x0b;

/// The first revision with the extended page header.
pub const ESEDB_FORMAT_REVISION_EXTENDED_PAGE_HEADER: u32 = 0x11;

/// Pages with a fixed number.
#[derive(Copy, Clone, Debug, PartialEq, Eq, Structural)]
pub enum FixedPageNumber {
    Database,
    Catalog,
    CatalogBackup,
}

impl FixedPageNumber {
    /// The number, as a value.
    pub open spec fn spec_number(self) -> u32 {
        match self {
            FixedPageNumber::Database => 1,
            FixedPageNumber::Catalog => 4,
            FixedPageNumber::CatalogBackup => 24,
        }
    }

    /// The number of the page.
    #[verifier::when_used_as_spec(spec_number)]
    pub fn number(self) -> (r: u32)
        ensures
            r == self.spec_number(),
    {
        match self {
            FixedPageNumber::Database => 1,
            FixedPageNumber::Catalog => 4,
            FixedPageNumber::CatalogBackup => 24,
        }
    }
}

/// Objects with a fixed identifier.
#[derive(Copy, Clone, Debug, PartialEq, Eq, Structural)]
pub enum FixedFDPNumber {
    Database,
    Catalog,
    CatalogBackup,
}

impl FixedFDPNumber {
    /// The number, as a value.
    pub open spec fn spec_number(self) -> u32 {
        match self {
            FixedFDPNumber::Database => 1,
            FixedFDPNumber::Catalog => 2,
            FixedFDPNumber::CatalogBackup => 3,
        }
    }

    /// The identifier of the object.
    #[verifier::when_used_as_spec(spec_number)]
    pub fn number(self) -> (r: u32)
        ensures
            r == self.spec_number(),
    {
        match self {
            FixedFDPNumber::Database => 1,
            FixedFDPNumber::Catalog => 2,
            FixedFDPNumber::CatalogBackup => 3,
        }
    }
}

/// What a row of the catalog describes.
#[derive(Copy, Clone, Debug, PartialEq, Eq, Structural)]
pub enum CatalogType {
    Table,
    Column,
    Index,
    LongValue,
    Callback,
}

impl CatalogType {
    /// The number that stands for it, as a value.
    pub open spec fn spec_code(self) -> u16 {
        match self {
            CatalogType::Table => 1,
            CatalogType::Column => 2,
            CatalogType::Index => 3,
            CatalogType::LongValue => 4,
            CatalogType::Callback => 5,
        }
    }

    /// The number that stands for the type in a catalog row.
    #[verifier::when_used_as_spec(spec_code)]
    pub fn code(self) -> (r: u16)
        ensures
            r == self.spec_code(),
    {
        match self {
            CatalogType::Table => 1,
            CatalogType::Column => 2,
            CatalogType::Index => 3,
            CatalogType::LongValue => 4,
            CatalogType::Callback => 5,
        }
    }

    /// The type that `code` stands for, if it is one.
    pub fn from_code(code: u16) -> (r: Option<CatalogType>)
        ensures
            match r {
                Some(t) => t.spec_code() == code,
                None => !(1 <= code <= 5),
            },
    {
        if code == 1 {
            Some(CatalogType::Table)
        } else if code == 2 {
            Some(CatalogType::Column)
        } else if code == 3 {
            Some(CatalogType::Index)
        } else if code == 4 {
            Some(CatalogType::LongValue)
        } else if code == 5 {
            Some(CatalogType::Callback)
        } else {
            None
        }
    }
}

/// The types a column can have.
#[derive(Copy, Clone, Debug, PartialEq, Eq, Structural)]
pub enum ColumnType {
    Nil,
    Bit,
    UnsignedByte,
    Short,
    Long,
    Currency,
    IEEESingle,
    IEEEDouble,
    DateTime,
    Binary,
    Text,
    LongBinary,
    LongText,
    SLV,
    UnsignedLong,
    LongLong,
    GUID,
    UnsignedShort,
    Max,
}

impl ColumnType {
    /// The number that stands for it, as a value.
    pub open spec fn spec_code(self) -> u32 {
        match self {
            ColumnType::Nil => 0,
            ColumnType::Bit => 1,
            ColumnType::UnsignedByte => 2,
            ColumnType::Short => 3,
            ColumnType::Long => 4,
            ColumnType::Currency => 5,
            ColumnType::IEEESingle => 6,
            ColumnType::IEEEDouble => 7,
            ColumnType::DateTime => 8,
            ColumnType::Binary => 9,
            ColumnType::Text => 10,
            ColumnType::LongBinary => 11,
            ColumnType::LongText => 12,
            ColumnType::SLV => 13,
            ColumnType::UnsignedLong => 14,
            ColumnType::LongLong => 15,
            ColumnType::GUID => 16,
            ColumnType::UnsignedShort => 17,
            ColumnType::Max => 18,
        }
    }

    /// The number that stands for the type in a catalog row.
    #[verifier::when_used_as_spec(spec_code)]
    pub fn code(self) -> (r: u32)
        ensures
            r == self.spec_code(),
    {
        match self {
            ColumnType::Nil => 0,
            ColumnType::Bit => 1,
            ColumnType::UnsignedByte => 2,
            ColumnType::Short => 3,
            ColumnType::Long => 4,
            ColumnType::Currency => 5,
            ColumnType::IEEESingle => 6,
            ColumnType::IEEEDouble => 7,
            ColumnType::DateTime => 8,
            ColumnType::Binary => 9,
            ColumnType::Text => 10,
            ColumnType::LongBinary => 11,
            ColumnType::LongText => 12,
            ColumnType::SLV => 13,
            ColumnType::UnsignedLong => 14,
            ColumnType::LongLong => 15,
            ColumnType::GUID => 16,
            ColumnType::UnsignedShort => 17,
            ColumnType::Max => 18,
        }
    }

    /// The type that `code` stands for, if it is one.
    pub fn from_code(code: u32) -> (r: Option<ColumnType>)
        ensures
            match r {
                Some(t) => t.spec_code() == code,
                None => code > 18,
            },
    {
        match code {
            0 => Some(ColumnType::Nil),
            1 => Some(ColumnType::Bit),
            2 => Some(ColumnType::UnsignedByte),
            3 => Some(ColumnType::Short),
            4 => Some(ColumnType::Long),
            5 => Some(ColumnType::Currency),
            6 => Some(ColumnType::IEEESingle),
            7 => Some(ColumnType::IEEEDouble),
            8 => Some(ColumnType::DateTime),
            9 => Some(ColumnType::Binary),
            10 => Some(ColumnType::Text),
            11 => Some(ColumnType::LongBinary),
            12 => Some(ColumnType::LongText),
            13 => Some(ColumnType::SLV),
            14 => Some(ColumnType::UnsignedLong),
            15 => Some(ColumnType::LongLong),
            16 => Some(ColumnType::GUID),
            17 => Some(ColumnType::UnsignedShort),
            18 => Some(ColumnType::Max),
            _ => None,
        }
    }
}

/// The state a database was left in.
#[allow(non_camel_case_types)]
#[derive(Copy, Clone, Debug, PartialEq, Eq, Structural)]
pub enum DbState {
    impossible,
    JustCreated,
    DirtyShutdown,
    CleanShutdown,
    BeingConverted,
    ForceDetach,
}

impl DbState {
    /// The number that stands for it, as a value.
    pub open spec fn spec_code(self) -> u32 {
        match self {
            DbState::impossible => 0,
            DbState::JustCreated => 1,
            DbState::DirtyShutdown => 2,
            DbState::CleanShutdown => 3,
            DbState::BeingConverted => 4,
            DbState::ForceDetach => 5,
        }
    }

    /// The number that stands for the state in a header.
    #[verifier::when_used_as_spec(spec_code)]
    pub fn code(self) -> (r: u32)
        ensures
            r == self.spec_code(),
    {
        match self {
            DbState::impossible => 0,
            DbState::JustCreated => 1,
            DbState::DirtyShutdown => 2,
            DbState::CleanShutdown => 3,
            DbState::BeingConverted => 4,
            DbState::ForceDetach => 5,
        }
    }

    /// The state that `code` stands for, if it is one.
    pub fn from_code(code: u32) -> (r: Option<DbState>)
        ensures
            match r {
                Some(t) => t.spec_code() == code,
                None => code > 5,
            },
    {
        match code {
            0 => Some(DbState::impossible),
            1 => Some(DbState::JustCreated),
            2 => Some(DbState::DirtyShutdown),
            3 => Some(DbState::CleanShutdown),
            4 => Some(DbState::BeingConverted),
            5 => Some(DbState::ForceDetach),
            _ => None,
        }
    }
}

impl Default for DbState {
    fn default() -> (r: Self)
        ensures
            r == DbState::impossible,
    {
        DbState::impossible
    }
}

/// The kind of file.
#[derive(Copy, Clone, Debug, PartialEq, Eq, Structural)]
pub enum FileType {
    Database,
    StreamingFile,
}

impl FileType {
    /// The number that stands for it, as a value.
    pub open spec fn spec_code(self) -> u32 {
        match self {
            FileType::Database => 0,
            FileType::StreamingFile => 1,
        }
    }

    /// The number that stands for the kind in a header.
    #[verifier::when_used_as_spec(spec_code)]
    pub fn code(self) -> (r: u32)
        ensures
            r == self.spec_code(),
    {
        match self {
            FileType::Database => 0,
            FileType::StreamingFile => 1,
        }
    }

    /// The kind that `code` stands for, if it is one.
    pub fn from_code(code: u32) -> (r: Option<FileType>)
        ensures
            match r {
                Some(t) => t.spec_code() == code,
                None => code > 1,
            },
    {
        match code {
            0 => Some(FileType::Database),
            1 => Some(FileType::StreamingFile),
            _ => None,
        }
    }
}

impl Default for FileType {
    fn default() -> (r: Self)
        ensures
            r == FileType::Database,
    {
        FileType::Database
    }
}

/// A time of day as a header holds it.
#[derive(Copy, Clone, Debug, PartialEq, Eq, Structural)]
pub struct DbTime {
    pub hours: u16,
    pub minutes: u16,
    pub seconds: u16,
    pub padding: u16,
}

/// A point in time as a header holds it: the year counts from 1900.
#[derive(Copy, Clone, Debug, PartialEq, Eq, Structural)]
pub struct DateTime {
    pub seconds: u8,
    pub minutes: u8,
    pub hours: u8,
    pub day: u8,
    pub month: u8,
    pub year: u8,
    pub time_is_utc: u8,
    pub os_snapshot: u8,
}

/// The signature of a database or of its log: a random number, the time of
/// creation, and the name of the computer.
#[derive(Clone, Debug)]
pub struct Signature {
    pub random: u32,
    pub logtime_create: DateTime,
    pub computer_name: Vec<u8>,
}

/// A position in the log.
#[derive(Copy, Clone, Debug, PartialEq, Eq, Structural)]
pub struct LgPos {
    pub ib: u16,
    pub isec: u16,
    pub l_generation: i32,
}

/// What a header keeps of a backup.
#[derive(Copy, Clone, Debug, PartialEq, Eq, Structural)]
pub struct BackupInfo {
    pub lg_pos_mark: LgPos,
    pub bk_logtime_mark: DateTime,
    pub gen_low: u32,
    pub gen_high: u32,
}

/// The point in time that the eight bytes at `at` hold: seconds, minutes,
/// hours, day, month and year, and in the lowest bit of the two bytes behind
/// them whether the time is UTC and whether it comes from a snapshot.
pub open spec fn date_time_of(b: Seq<u8>, at: int) -> DateTime {
    DateTime {
        seconds: b[at],
        minutes: b[at + 1],
        hours: b[at + 2],
        day: b[at + 3],
        month: b[at + 4],
        year: b[at + 5],
        time_is_utc: b[at + 6] & 1,
        os_snapshot: b[at + 7] & 1,
    }
}

/// Reads a point in time.
pub fn date_time_at(b: &Vec<u8>, at: usize) -> (r: Option<DateTime>)
    ensures
        r == (if in_range(b@, at as int, 8) {
            Some(date_time_of(b@, at as int))
        } else {
            None
        }),
{
    if b.len() < 8 || at > b.len() - 8 {
        return None;
    }
    Some(
        DateTime {
            seconds: b[at],
            minutes: b[at + 1],
            hours: b[at + 2],
            day: b[at + 3],
            month: b[at + 4],
            year: b[at + 5],
            time_is_utc: b[at + 6] & 1,
            os_snapshot: b[at + 7] & 1,
        },
    )
}

/// Reads a signature: four bytes of a random number, eight of the time of
/// creation, and sixteen of the computer's name.
pub fn signature_at(b: &Vec<u8>, at: usize) -> (r: Option<Signature>)
    ensures
        match r {
            Some(s) => in_range(b@, at as int, 28) && s.random == le32_at(b@, at as int)
                && s.logtime_create == date_time_of(b@, at + 4) && s.computer_name@ == b@.subrange(
                at + 12,
                at + 28,
            ),
            None => !in_range(b@, at as int, 28),
        },
{
    if b.len() < 28 || at > b.len() - 28 {
        return None;
    }
    let logtime_create = match date_time_at(b, at + 4) {
        Some(t) => t,
        None => {
            return None;
        },
    };
    let computer_name = match get_bytes(b, at + 12, 16) {
        Some(n) => n,
        None => {
            return None;
        },
    };
    Some(Signature { random: word_at(b, at), logtime_create, computer_name })
}

/// A database file, by its header.
#[derive(Clone, Copy, Debug)]
pub struct DbFile {
    pub file_header: FileHeader,
}

/// Where the pages of a file lie.
#[derive(Copy, Clone, Debug)]
pub struct IoHandle {
    pub file_type: u32,
    pub format_version: u32,
    pub format_revision: u32,
    pub creation_format_version: u32,
    pub creation_format_revision: u32,
    pub pages_data_offset: i64,
    pub pages_data_size: u64,
    pub page_size: u32,
    pub last_page_number: u32,
    pub ascii_codepage: i32,
    pub abort: i32,
}

impl IoHandle {
    /// The handle for a header: the pages begin after the header and its mirror.
    pub fn new(db_file_header: &FileHeader) -> (r: IoHandle)
        requires
            db_file_header.page_size > 0,
        ensures
            r.file_type == db_file_header.file_type,
            r.format_version == db_file_header.format_version,
            r.format_revision == db_file_header.format_revision,
            r.creation_format_version == db_file_header.creation_format_version,
            r.creation_format_revision == db_file_header.creation_format_revision,
            r.page_size == db_file_header.page_size,
            r.pages_data_offset == 2 * db_file_header.page_size,
            r.pages_data_size == 2 * db_file_header.page_size,
            r.last_page_number == 2,
            r.ascii_codepage == 0,
            r.abort == 0,
    {
        let pages_data_offset: i64 = 2 * (db_file_header.page_size as i64);
        IoHandle {
            file_type: db_file_header.file_type,
            format_version: db_file_header.format_version,
            format_revision: db_file_header.format_revision,
            creation_format_version: db_file_header.creation_format_version,
            creation_format_revision: db_file_header.creation_format_revision,
            page_size: db_file_header.page_size,
            pages_data_offset,
            pages_data_size: 2 * (db_file_header.page_size as u64),
            last_page_number: 2,
            ascii_codepage: 0,
            abort: 0,
        }
    }
}

/// What is known of a pair of format version and revision.
pub fn revision_description(version: u32, revision: u32) -> (s: &'static str)
    ensures
        s@ == revision_text(version, revision),
{
    if version == 0x623 && revision == 0 {
        return "New Space Manager (May 15, 1999)";
    }
    if version != 0x620 {
        return "Unknown";
    }
    match revision {
        0x00 => "Original operating system Beta format (April 22, 1997)",
        0x01 => "Add columns in the catalog for conditional indexing and OLD (May 29, 1997)",
        0x02 => "Add the fLocalizedText flag in IDB (July 5, 1997), Revert revision in order for ESE97 to remain forward-compatible (January 28, 1998)",
        0x03 => "Add SPLIT_BUFFER to space tree root pages (October 30, 1997), Add new tagged columns to catalog (\"CallbackData\" and \"CallbackDependencies\")",
        0x04 => "Super Long Value (SLV) support: signSLV, fSLVExists in db header (May 5, 1998)",
        0x05 => "New SLV space tree (May 29, 1998)",
        0x06 => "SLV space map (October 12, 1998)",
        0x07 => "4-byte IDXSEG (December 10, 1998)",
        0x08 => "New template column format (January 25, 1999)",
        0x09 => "Sorted template columns (July 24, 1999). Used in Windows XP SP3",
        0x0b => "Contains the page header with the ECC checksum Used in Exchange",
        0x0c => "Used in Windows Vista (SP0)",
        0x11 => "Support for 2 KiB, 16 KiB and 32 KiB pages. Extended page header with additional ECC checksums. Column compression. Space hints. Used in Windows 7 (SP0)",
        0x14 => "Used in Exchange 2013 and Active Directory 2016",
        _ => "Unknown",
    }
}

/// The text for a pair of format version and revision.
pub open spec fn revision_text(version: u32, revision: u32) -> Seq<char> {
    if version == 0x623 && revision == 0 {
        "New Space Manager (May 15, 1999)"@
    } else if version != 0x620 {
        "Unknown"@
    } else if revision == 0x00 {
        "Original operating system Beta format (April 22, 1997)"@
    } else if revision == 0x01 {
        "Add columns in the catalog for conditional indexing and OLD (May 29, 1997)"@
    } else if revision == 0x02 {
        "Add the fLocalizedText flag in IDB (July 5, 1997), Revert revision in order for ESE97 to remain forward-compatible (January 28, 1998)"@
    } else if revision == 0x03 {
        "Add SPLIT_BUFFER to space tree root pages (October 30, 1997), Add new tagged columns to catalog (\"CallbackData\" and \"CallbackDependencies\")"@
    } else if revision == 0x04 {
        "Super Long Value (SLV) support: signSLV, fSLVExists in db header (May 5, 1998)"@
    } else if revision == 0x05 {
        "New SLV space tree (May 29, 1998)"@
    } else if revision == 0x06 {
        "SLV space map (October 12, 1998)"@
    } else if revision == 0x07 {
        "4-byte IDXSEG (December 10, 1998)"@
    } else if revision == 0x08 {
        "New template column format (January 25, 1999)"@
    } else if revision == 0x09 {
        "Sorted template columns (July 24, 1999). Used in Windows XP SP3"@
    } else if revision == 0x0b {
        "Contains the page header with the ECC checksum Used in Exchange"@
    } else if revision == 0x0c {
        "Used in Windows Vista (SP0)"@
    } else if revision == 0x11 {
        "Support for 2 KiB, 16 KiB and 32 KiB pages. Extended page header with additional ECC checksums. Column compression. Space hints. Used in Windows 7 (SP0)"@
    } else if revision == 0x14 {
        "Used in Exchange 2013 and Active Directory 2016"@
    } else {
        "Unknown"@
    }
}

} // verus!
