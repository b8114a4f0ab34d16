use vstd::prelude::*;
use crate::bytes::{
    bytes_opt, get_bytes, get_le16, get_le32, half_at, in_range, le16_at, le16_opt, le32_at,
    word_at,
};
use crate::error::EseError;
use crate::jet::{PAGE_IS_LEAF, PAGE_IS_PARENT, PAGE_IS_ROOT};
use crate::page::{common_of, db_of, tags_of, Db, DbPage, PageTag};
use crate::reader::{string_from_utf8, text_of, Reader};
use crate::tree::{
    branch_child_of, find_first_leaf_page, first_leaf, flags_in_record, keys_end,
    load_root_page_header, page_count, page_tag_get_branch_child_page_number, root_header_of,
    skip_keys,
};

verus! {

/// The field of a catalog row that is a column type in the row of a column
/// and the root page of a tree in every other row.
#[derive(Clone, Copy, Debug, PartialEq, Eq, Structural)]
pub enum ColumnOrPage {
    ColumnType(u32),
    FatherDataPage(u32),
}

/// A row of the catalog.
#[derive(Debug)]
pub struct CatalogDefinition {
    pub father_data_page_object_identifier: u32,
    pub cat_type: u16,
    pub identifier: u32,
    pub column_or_page: ColumnOrPage,
    pub size: u32,
    pub codepage: u32,
    pub lcmap_flags: u32,
    pub name: String,
    pub default_value: Vec<u8>,
}

/// A row of the catalog, as a value.
pub struct CatalogRow {
    pub father_data_page_object_identifier: u32,
    pub cat_type: u16,
    pub identifier: u32,
    pub column_or_page: ColumnOrPage,
    pub size: u32,
    pub codepage: u32,
    pub lcmap_flags: u32,
    pub name: Seq<char>,
    pub default_value: Seq<u8>,
}

impl View for CatalogDefinition {
    type V = CatalogRow;

    open spec fn view(&self) -> CatalogRow {
        CatalogRow {
            father_data_page_object_identifier: self.father_data_page_object_identifier,
            cat_type: self.cat_type,
            identifier: self.identifier,
            column_or_page: self.column_or_page,
            size: self.size,
            codepage: self.codepage,
            lcmap_flags: self.lcmap_flags,
            name: self.name@,
            default_value: self.default_value@,
        }
    }
}

impl CatalogRow {
    /// The column type, zero in the row of anything but a column.
    pub open spec fn column_type(self) -> u32 {
        match self.column_or_page {
            ColumnOrPage::ColumnType(t) => t,
            ColumnOrPage::FatherDataPage(_) => 0,
        }
    }

    /// The root page of the tree, zero in the row of a column.
    pub open spec fn father_data_page_number(self) -> u32 {
        match self.column_or_page {
            ColumnOrPage::ColumnType(_) => 0,
            ColumnOrPage::FatherDataPage(p) => p,
        }
    }
}

impl CatalogDefinition {
    /// The column type, zero in the row of anything but a column.
    pub fn column_type(&self) -> (r: u32)
        ensures
            r == self@.column_type(),
    {
        match self.column_or_page {
            ColumnOrPage::ColumnType(t) => t,
            ColumnOrPage::FatherDataPage(_) => 0,
        }
    }

    /// The root page of the tree, zero in the row of a column.
    pub fn father_data_page_number(&self) -> (r: u32)
        ensures
            r == self@.father_data_page_number(),
    {
        match self.column_or_page {
            ColumnOrPage::ColumnType(_) => 0,
            ColumnOrPage::FatherDataPage(p) => p,
        }
    }
}

/// A table as the catalog defines it: its own row, the rows of its columns in
/// the order of the catalog, and the row of its long-value tree.
#[derive(Debug)]
pub struct TableDefinition {
    pub table_catalog_definition: Option<CatalogDefinition>,
    pub column_catalog_definition_array: Vec<CatalogDefinition>,
    pub long_value_catalog_definition: Option<CatalogDefinition>,
}

/// A tree of pages with the table it belongs to.
#[derive(Debug)]
pub struct PageTree {
    pub object_identifier: u32,
    pub root_page_number: u32,
    pub table_definition: TableDefinition,
    pub template_table_definition: TableDefinition,
    pub number_of_leaf_values: u32,
}

/// A table definition, as a value.
pub struct TableRows {
    pub table: Option<CatalogRow>,
    pub columns: Seq<CatalogRow>,
    pub long_value: Option<CatalogRow>,
}

/// The rows that a vector of definitions holds.
pub open spec fn rows_of(v: Seq<CatalogDefinition>) -> Seq<CatalogRow> {
    Seq::new(v.len(), |i: int| v[i]@)
}

/// The row that an optional definition holds.
pub open spec fn row_of(d: Option<CatalogDefinition>) -> Option<CatalogRow> {
    match d {
        Some(c) => Some(c@),
        None => None,
    }
}

impl View for TableDefinition {
    type V = TableRows;

    open spec fn view(&self) -> TableRows {
        TableRows {
            table: row_of(self.table_catalog_definition),
            columns: rows_of(self.column_catalog_definition_array@),
            long_value: row_of(self.long_value_catalog_definition),
        }
    }
}

/// The tables that a vector of table definitions holds.
pub open spec fn tables_of(v: Seq<TableDefinition>) -> Seq<TableRows> {
    Seq::new(v.len(), |i: int| v[i]@)
}


/// The page of the catalog's root.
pub const CATALOG_PAGE_NUMBER: u32 = 4;

/// The name and the default value that the variable columns of a catalog row
/// hold, read from the table of their sizes from entry `i` on: entry 0 is the
/// name, entry 3 the default value. `end` is where the last value that was
/// present ends.
pub open spec fn catalog_texts(
    page: Seq<u8>,
    start: int,
    variable_offset: u16,
    count: int,
    i: int,
    end: u16,
    name: Seq<char>,
    default_value: Seq<u8>,
) -> Result<(Seq<char>, Seq<u8>), EseError>
    decreases count - i,
{
    if i >= count {
        Ok((name, default_value))
    } else {
        match le16_opt(page, start + variable_offset + 2 * i) {
            None => Err(EseError::RecordMalformed),
            Some(word) => if word & 0x8000 != 0 || word == end {
                catalog_texts(page, start, variable_offset, count, i + 1, end, name, default_value)
            } else if word < end {
                Err(EseError::RecordMalformed)
            } else {
                let value = bytes_opt(
                    page,
                    start + variable_offset + 2 * count + end,
                    word - end,
                );
                if i == 0 {
                    match value {
                        None => Err(EseError::RecordMalformed),
                        Some(b) => match text_of(b) {
                            None => Err(EseError::RecordMalformed),
                            Some(text) => catalog_texts(
                                page,
                                start,
                                variable_offset,
                                count,
                                i + 1,
                                word,
                                text,
                                default_value,
                            ),
                        },
                    }
                } else if i == 3 {
                    match value {
                        None => Err(EseError::RecordMalformed),
                        Some(b) => catalog_texts(
                            page,
                            start,
                            variable_offset,
                            count,
                            i + 1,
                            word,
                            name,
                            b,
                        ),
                    }
                } else {
                    catalog_texts(
                        page,
                        start,
                        variable_offset,
                        count,
                        i + 1,
                        word,
                        name,
                        default_value,
                    )
                }
            },
        }
    }
}

/// The catalog row in the record under `tag`. Behind the keys stand the four
/// bytes of the data-definition header and the fixed columns: object
/// identifier, type, identifier, column type or root page, size, flags, and
/// code page; from the tenth fixed column on, the flags of the locale map.
/// The code page is kept of columns only.
pub open spec fn catalog_item_of(page: Seq<u8>, header_size: int, tag: PageTag, clean: bool) -> Result<
    CatalogRow,
    EseError,
> {
    match keys_end(page, header_size, tag, clean) {
        None => Err(EseError::RecordMalformed),
        Some(start) => if !in_range(page, start, 22) {
            Err(EseError::RecordMalformed)
        } else {
            let last_fixed = page[start];
            let last_variable = page[start + 1];
            let variable_offset = le16_at(page, start + 2);
            let cat_type = le16_at(page, start + 8);
            let is_column = cat_type == 2;
            let count: int = if last_variable > 127 {
                last_variable - 127
            } else {
                0
            };
            if is_column && !in_range(page, start + 26, 4) {
                Err(EseError::RecordMalformed)
            } else if last_fixed >= 10 && !in_range(page, start + 33, 4) {
                Err(EseError::RecordMalformed)
            } else {
                match catalog_texts(
                    page,
                    start,
                    variable_offset,
                    count,
                    0,
                    0,
                    Seq::empty(),
                    Seq::empty(),
                ) {
                    Err(e) => Err(e),
                    Ok((name, default_value)) => Ok(
                        CatalogRow {
                            father_data_page_object_identifier: le32_at(page, start + 4),
                            cat_type,
                            identifier: le32_at(page, start + 10),
                            column_or_page: if is_column {
                                ColumnOrPage::ColumnType(le32_at(page, start + 14))
                            } else {
                                ColumnOrPage::FatherDataPage(le32_at(page, start + 14))
                            },
                            size: le32_at(page, start + 18),
                            codepage: if is_column {
                                le32_at(page, start + 26)
                            } else {
                                0
                            },
                            lcmap_flags: if last_fixed >= 10 {
                                le32_at(page, start + 33)
                            } else {
                                0
                            },
                            name,
                            default_value,
                        },
                    ),
                }
            }
        },
    }
}

/// Reads name and default value of a catalog row from its variable columns.
pub fn load_catalog_texts(data: &Vec<u8>, start: usize, variable_offset: u16, count: usize) -> (r:
    Result<(String, Vec<u8>), EseError>)
    requires
        start <= 0x30000,
        count <= 128,
    ensures
        match r {
            Ok(t) => catalog_texts(
                data@,
                start as int,
                variable_offset,
                count as int,
                0,
                0,
                Seq::empty(),
                Seq::empty(),
            ) == Ok::<(Seq<char>, Seq<u8>), EseError>((t.0@, t.1@)),
            Err(e) => catalog_texts(
                data@,
                start as int,
                variable_offset,
                count as int,
                0,
                0,
                Seq::empty(),
                Seq::empty(),
            ) == Err::<(Seq<char>, Seq<u8>), EseError>(e),
        },
{
    let mut name: String = String::new();
    let mut default_value: Vec<u8> = Vec::new();
    let mut end: u16 = 0;
    let table: usize = start + variable_offset as usize;
    let values: usize = table + 2 * count;
    let mut i: usize = 0;
    while i < count
        invariant
            i <= count,
            count <= 128,
            table == start + variable_offset,
            values == table + 2 * count,
            start <= 0x30000,
            catalog_texts(
                data@,
                start as int,
                variable_offset,
                count as int,
                0,
                0,
                Seq::empty(),
                Seq::empty(),
            ) == catalog_texts(
                data@,
                start as int,
                variable_offset,
                count as int,
                i as int,
                end,
                name@,
                default_value@,
            ),
        decreases count - i,
    {
        let entry: u16 = match get_le16(data, table + 2 * i) {
            Some(v) => v,
            None => {
                return Err(EseError::RecordMalformed);
            },
        };
        if entry & 0x8000 != 0 || entry == end {
        } else if entry < end {
            return Err(EseError::RecordMalformed);
        } else {
            let size: usize = (entry - end) as usize;
            let at: usize = values + end as usize;
            if i == 0 {
                let bytes = match get_bytes(data, at, size) {
                    Some(b) => b,
                    None => {
                        return Err(EseError::RecordMalformed);
                    },
                };
                name = match string_from_utf8(bytes) {
                    Some(s) => s,
                    None => {
                        return Err(EseError::RecordMalformed);
                    },
                };
            } else if i == 3 {
                default_value = match get_bytes(data, at, size) {
                    Some(b) => b,
                    None => {
                        return Err(EseError::RecordMalformed);
                    },
                };
            }
            end = entry;
        }
        i += 1;
    }
    Ok((name, default_value))
}

/// Decodes the catalog row in the record under `page_tag`.
pub fn load_catalog_item(reader: &Reader, db_page: &DbPage, page_tag: &PageTag) -> (r: Result<
    CatalogDefinition,
    EseError,
>)
    requires
        reader.wf(),
        db_page.wf(reader.spec_format_revision(), reader.spec_page_size()),
    ensures
        match r {
            Ok(item) => catalog_item_of(
                db_page.bytes(),
                db_page.spec_size(),
                *page_tag,
                flags_in_record(db_of(reader), db_page.spec_flags()),
            ) == Ok::<CatalogRow, EseError>(item@),
            Err(e) => catalog_item_of(
                db_page.bytes(),
                db_page.spec_size(),
                *page_tag,
                flags_in_record(db_of(reader), db_page.spec_flags()),
            ) == Err::<CatalogRow, EseError>(e),
        },
{
    let data = db_page.data();
    let clean: bool = reader.format_revision() >= 0x11 && reader.page_size() >= 16384
        && db_page.is_leaf();
    let start: usize = match skip_keys(data, db_page.size(), page_tag, clean) {
        Some(s) => s,
        None => {
            return Err(EseError::RecordMalformed);
        },
    };
    let len: usize = data.len();
    if start > len - 22 {
        return Err(EseError::RecordMalformed);
    }
    let last_fixed: u8 = data[start];
    let last_variable: u8 = data[start + 1];
    let variable_offset: u16 = half_at(data, start + 2);
    let cat_type: u16 = half_at(data, start + 8);
    let is_column: bool = cat_type == 2;
    let count: usize = if last_variable > 127 {
        (last_variable - 127) as usize
    } else {
        0
    };
    if is_column && start > len - 30 {
        return Err(EseError::RecordMalformed);
    }
    if last_fixed >= 10 && start > len - 37 {
        return Err(EseError::RecordMalformed);
    }
    let texts = match load_catalog_texts(data, start, variable_offset, count) {
        Ok(t) => t,
        Err(e) => {
            return Err(e);
        },
    };
    Ok(
        CatalogDefinition {
            father_data_page_object_identifier: word_at(data, start + 4),
            cat_type,
            identifier: word_at(data, start + 10),
            column_or_page: if is_column {
                ColumnOrPage::ColumnType(word_at(data, start + 14))
            } else {
                ColumnOrPage::FatherDataPage(word_at(data, start + 14))
            },
            size: word_at(data, start + 18),
            codepage: if is_column {
                word_at(data, start + 26)
            } else {
                0
            },
            lcmap_flags: if last_fixed >= 10 {
                word_at(data, start + 33)
            } else {
                0
            },
            name: texts.0,
            default_value: texts.1,
        },
    )
}

/// The rows of the catalog read so far: the tables that are complete, and
/// the one whose rows are coming in.
pub struct Grouping {
    pub done: Seq<TableRows>,
    pub open: TableRows,
}

/// A table without rows.
pub open spec fn no_rows() -> TableRows {
    TableRows { table: None, columns: Seq::empty(), long_value: None }
}

/// Nothing read yet.
pub open spec fn no_tables() -> Grouping {
    Grouping { done: Seq::empty(), open: no_rows() }
}

/// The grouping after one more row. The row of a table closes the table
/// before it and opens a table without columns; the row of a column joins the
/// columns of the open table; the first row of a long-value tree is kept with
/// the open table. Every other row is passed over, and so is a row that comes
/// before the first row of a table: it belongs to no table.
pub open spec fn grouped(g: Grouping, row: CatalogRow) -> Grouping {
    if row.cat_type == 1 {
        Grouping { done: closed(g), open: TableRows { table: Some(row), ..no_rows() } }
    } else if g.open.table is None {
        g
    } else if row.cat_type == 2 {
        Grouping { open: TableRows { columns: g.open.columns.push(row), ..g.open }, ..g }
    } else if row.cat_type == 4 && g.open.long_value is None {
        Grouping { open: TableRows { long_value: Some(row), ..g.open }, ..g }
    } else {
        g
    }
}

/// The tables of a grouping at the end of the catalog: the open one counts
/// if it has its table row.
pub open spec fn closed(g: Grouping) -> Seq<TableRows> {
    if g.open.table is Some {
        g.done.push(g.open)
    } else {
        g.done
    }
}

/// The grouping after the rows of a leaf from tag `i` on. Tag 0 is no row,
/// and defunct tags are passed over.
pub open spec fn catalog_page(
    page: Seq<u8>,
    header_size: int,
    tags: Seq<PageTag>,
    clean: bool,
    i: int,
    g: Grouping,
) -> Result<Grouping, EseError>
    decreases tags.len() - i,
{
    if i < 1 || i >= tags.len() {
        Ok(g)
    } else if tags[i].spec_is_defunct() {
        catalog_page(page, header_size, tags, clean, i + 1, g)
    } else {
        match catalog_item_of(page, header_size, tags[i], clean) {
            Err(e) => Err(e),
            Ok(row) => catalog_page(page, header_size, tags, clean, i + 1, grouped(g, row)),
        }
    }
}

/// The tables read from the chain of leaves that begins with page
/// `page_number` and ends with a next-page link of zero. A leaf that names a
/// page before it has to name `previous`, the page that led to it; a chain of
/// more than `limit` leaves is given up as broken.
pub open spec fn catalog_chain(
    db: Db,
    page_number: u32,
    previous: u32,
    limit: nat,
    g: Grouping,
) -> Result<Seq<TableRows>, EseError>
    decreases limit,
{
    if page_number == 0 {
        Ok(closed(g))
    } else if limit == 0 {
        Err(EseError::SiblingChainBroken)
    } else {
        match db.page(page_number) {
            Err(e) => Err(e),
            Ok(page) => match tags_of(page, db.revision, db.page_size) {
                Err(e) => Err(e),
                Ok(tags) => {
                    let common = common_of(page);
                    if common.previous_page != 0 && common.previous_page != previous {
                        Err(EseError::SiblingChainBroken)
                    } else if common.page_flags & PAGE_IS_LEAF == 0 {
                        Err(EseError::PageFlagsUnexpected)
                    } else {
                        match catalog_page(page, db.header_size(), tags, db.extended(), 1, g) {
                            Err(e) => Err(e),
                            Ok(next) => catalog_chain(
                                db,
                                common.next_page,
                                page_number,
                                (limit - 1) as nat,
                                next,
                            ),
                        }
                    }
                },
            },
        }
    }
}

/// The first leaf of the catalog: the root itself if it is a leaf and no
/// branch, else the first leaf under the child of its second tag. A root page
/// has to carry a root record, and a root that is neither branch nor leaf is
/// refused.
pub open spec fn catalog_first_leaf(db: Db) -> Result<u32, EseError> {
    match db.page(CATALOG_PAGE_NUMBER) {
        Err(e) => Err(e),
        Ok(page) => match tags_of(page, db.revision, db.page_size) {
            Err(e) => Err(e),
            Ok(tags) => {
                let flags = common_of(page).page_flags;
                if flags & PAGE_IS_ROOT != 0 && (tags.len() == 0 || root_header_of(
                    page,
                    db.header_size(),
                    tags[0],
                ) is Err) {
                    Err(EseError::RecordMalformed)
                } else if flags & PAGE_IS_PARENT != 0 {
                    if tags.len() < 2 {
                        Err(EseError::RecordMalformed)
                    } else {
                        match branch_child_of(page, db.header_size(), tags[1]) {
                            Err(e) => Err(e),
                            Ok(child) => if child == 0 {
                                Ok(0)
                            } else {
                                first_leaf(db, child, db.page_count())
                            },
                        }
                    }
                } else if flags & PAGE_IS_LEAF != 0 {
                    Ok(CATALOG_PAGE_NUMBER)
                } else {
                    Err(EseError::PageFlagsUnexpected)
                }
            },
        },
    }
}

/// The tables that the catalog of a database defines.
pub open spec fn catalog_of(db: Db) -> Result<Seq<TableRows>, EseError> {
    match catalog_first_leaf(db) {
        Err(e) => Err(e),
        Ok(first) => catalog_chain(db, first, CATALOG_PAGE_NUMBER, db.page_count(), no_tables()),
    }
}

/// The grouping that a vector of tables and an open table stand for.
pub open spec fn grouping(done: Seq<TableDefinition>, open: TableDefinition) -> Grouping {
    Grouping { done: tables_of(done), open: open@ }
}

/// Takes one more row into the grouping.
pub fn group(done: Vec<TableDefinition>, open: TableDefinition, item: CatalogDefinition) -> (r: (
    Vec<TableDefinition>,
    TableDefinition,
))
    ensures
        grouping(r.0@, r.1) == grouped(
            grouping(done@, open),
            item@,
        ),
{
    let mut done = done;
    let mut open = open;
    let ghost before = grouping(done@, open);
    if item.cat_type == 1 {
        if open.table_catalog_definition.is_some() {
            done.push(open);
            assert(tables_of(done@) =~= before.done.push(before.open));
        }
        open = TableDefinition {
            table_catalog_definition: Some(item),
            column_catalog_definition_array: Vec::new(),
            long_value_catalog_definition: None,
        };
        assert(open@.columns =~= Seq::<CatalogRow>::empty());
    } else if open.table_catalog_definition.is_none() {
    } else if item.cat_type == 2 {
        open.column_catalog_definition_array.push(item);
        assert(open@.columns =~= before.open.columns.push(item@));
    } else if item.cat_type == 4 && open.long_value_catalog_definition.is_none() {
        open.long_value_catalog_definition = Some(item);
    }
    (done, open)
}

/// Reads the rows of one leaf of the catalog into the grouping.
pub fn load_catalog_page(
    reader: &Reader,
    db_page: &DbPage,
    done: Vec<TableDefinition>,
    open: TableDefinition,
) -> (r: Result<(Vec<TableDefinition>, TableDefinition), EseError>)
    requires
        reader.wf(),
        db_page.wf(reader.spec_format_revision(), reader.spec_page_size()),
        db_page.spec_is_leaf(),
    ensures
        match r {
            Ok(g) => catalog_page(
                db_page.bytes(),
                db_page.spec_size(),
                db_page.tags(),
                db_of(reader).extended(),
                1,
                grouping(done@, open),
            ) == Ok::<Grouping, EseError>(grouping(g.0@, g.1)),
            Err(e) => catalog_page(
                db_page.bytes(),
                db_page.spec_size(),
                db_page.tags(),
                db_of(reader).extended(),
                1,
                grouping(done@, open),
            ) == Err::<Grouping, EseError>(e),
        },
{
    let pg_tags = db_page.page_tags();
    let ghost first = grouping(done@, open);
    let mut finished = done;
    let mut current = open;
    let ghost clean = db_of(reader).extended();
    let mut i: usize = 1;
    while i < pg_tags.len()
        invariant
            1 <= i,
            reader.wf(),
            db_page.wf(reader.spec_format_revision(), reader.spec_page_size()),
            db_page.spec_is_leaf(),
            pg_tags@ == db_page.tags(),
            clean == db_of(reader).extended(),
            first == grouping(done@, open),
            catalog_page(
                db_page.bytes(),
                db_page.spec_size(),
                db_page.tags(),
                clean,
                1,
                first,
            ) == catalog_page(
                db_page.bytes(),
                db_page.spec_size(),
                db_page.tags(),
                clean,
                i as int,
                grouping(finished@, current),
            ),
        decreases pg_tags.len() - i,
    {
        if !pg_tags[i].is_defunct() {
            let item = match load_catalog_item(reader, db_page, &pg_tags[i]) {
                Ok(item) => item,
                Err(e) => {
                    return Err(e);
                },
            };
            let g = group(finished, current, item);
            finished = g.0;
            current = g.1;
        }
        i += 1;
    }
    Ok((finished, current))
}

/// Reads the catalog: the tables of the database with their columns and
/// long-value trees, in the order of the catalog.
pub fn load_catalog(reader: &mut Reader) -> (r: Result<Vec<TableDefinition>, EseError>)
    requires
        old(reader).wf(),
    ensures
        final(reader).wf(),
        final(reader).same_file(old(reader)),
        match r {
            Ok(tables) => catalog_of(db_of(old(reader))) == Ok::<Seq<TableRows>, EseError>(
                tables_of(tables@),
            ),
            Err(e) => catalog_of(db_of(old(reader))) == Err::<Seq<TableRows>, EseError>(e),
        },
{
    let ghost db = db_of(reader);
    let first: u32 = {
        let db_page = match DbPage::new(reader, CATALOG_PAGE_NUMBER) {
            Ok(p) => p,
            Err(e) => {
                return Err(e);
            },
        };
        let pg_tags = db_page.page_tags();
        let flags: u32 = db_page.flags();
        if flags & PAGE_IS_ROOT != 0 {
            if pg_tags.len() == 0 {
                return Err(EseError::RecordMalformed);
            }
            match load_root_page_header(reader, &db_page, &pg_tags[0]) {
                Ok(_) => {},
                Err(_) => {
                    return Err(EseError::RecordMalformed);
                },
            }
        }
        if flags & PAGE_IS_PARENT != 0 {
            if pg_tags.len() < 2 {
                return Err(EseError::RecordMalformed);
            }
            let child: u32 = match page_tag_get_branch_child_page_number(
                reader,
                &db_page,
                &pg_tags[1],
            ) {
                Ok(c) => c,
                Err(e) => {
                    return Err(e);
                },
            };
            if child == 0 {
                0
            } else {
                match find_first_leaf_page(reader, child) {
                    Ok(leaf) => leaf,
                    Err(e) => {
                        return Err(e);
                    },
                }
            }
        } else if flags & PAGE_IS_LEAF != 0 {
            CATALOG_PAGE_NUMBER
        } else {
            return Err(EseError::PageFlagsUnexpected);
        }
    };
    assert(catalog_first_leaf(db) == Ok::<u32, EseError>(first));
    let mut done: Vec<TableDefinition> = Vec::new();
    let mut open = TableDefinition {
        table_catalog_definition: None,
        column_catalog_definition_array: Vec::new(),
        long_value_catalog_definition: None,
    };
    assert(tables_of(done@) =~= Seq::<TableRows>::empty());
    assert(open@.columns =~= Seq::<CatalogRow>::empty());
    let mut page_number: u32 = first;
    let mut prev_page_number: u32 = CATALOG_PAGE_NUMBER;
    let mut limit: usize = page_count(reader);
    while page_number != 0
        invariant
            reader.wf(),
            reader.same_file(old(reader)),
            db == db_of(reader),
            db == db_of(old(reader)),
            catalog_of(db) == catalog_chain(
                db,
                page_number,
                prev_page_number,
                limit as nat,
                grouping(done@, open),
            ),
        decreases limit,
    {
        if limit == 0 {
            return Err(EseError::SiblingChainBroken);
        }
        let db_page = match DbPage::new(reader, page_number) {
            Ok(p) => p,
            Err(e) => {
                return Err(e);
            },
        };
        if db_page.prev_page() != 0 && prev_page_number != db_page.prev_page() {
            return Err(EseError::SiblingChainBroken);
        }
        if !db_page.is_leaf() {
            return Err(EseError::PageFlagsUnexpected);
        }
        let g = match load_catalog_page(reader, &db_page, done, open) {
            Ok(g) => g,
            Err(e) => {
                return Err(e);
            },
        };
        done = g.0;
        open = g.1;
        prev_page_number = page_number;
        page_number = db_page.next_page();
        limit -= 1;
    }
    if open.table_catalog_definition.is_some() {
        let ghost before = tables_of(done@);
        let ghost last = open@;
        done.push(open);
        assert(tables_of(done@) =~= before.push(last));
    }
    Ok(done)
}


/// Whether every table has its table row.
pub open spec fn all_named(tables: Seq<TableRows>) -> bool {
    forall|i: int| 0 <= i < tables.len() ==> (#[trigger] tables[i]).table is Some
}

proof fn lemma_catalog_page(
    page: Seq<u8>,
    header_size: int,
    tags: Seq<PageTag>,
    clean: bool,
    i: int,
    g: Grouping,
)
    requires
        all_named(g.done),
    ensures
        catalog_page(page, header_size, tags, clean, i, g) matches Ok(next) ==> all_named(
            next.done,
        ),
    decreases tags.len() - i,
{
    if i < 1 || i >= tags.len() {
    } else if tags[i].spec_is_defunct() {
        lemma_catalog_page(page, header_size, tags, clean, i + 1, g);
    } else {
        match catalog_item_of(page, header_size, tags[i], clean) {
            Err(e) => {},
            Ok(row) => {
                lemma_catalog_page(page, header_size, tags, clean, i + 1, grouped(g, row));
            },
        }
    }
}

proof fn lemma_catalog_chain(db: Db, page_number: u32, previous: u32, limit: nat, g: Grouping)
    requires
        all_named(g.done),
    ensures
        catalog_chain(db, page_number, previous, limit, g) matches Ok(tables) ==> all_named(tables),
    decreases limit,
{
    if page_number != 0 && limit != 0 {
        if let Ok(page) = db.page(page_number) {
            if let Ok(tags) = tags_of(page, db.revision, db.page_size) {
                lemma_catalog_page(page, db.header_size(), tags, db.extended(), 1, g);
                if let Ok(next) = catalog_page(page, db.header_size(), tags, db.extended(), 1, g) {
                    lemma_catalog_chain(
                        db,
                        common_of(page).next_page,
                        page_number,
                        (limit - 1) as nat,
                        next,
                    );
                }
            }
        }
    }
}

/// Every table of a catalog has its table row.
pub proof fn lemma_catalog_tables(db: Db)
    ensures
        catalog_of(db) matches Ok(tables) ==> all_named(tables),
{
    if let Ok(first) = catalog_first_leaf(db) {
        lemma_catalog_chain(db, first, CATALOG_PAGE_NUMBER, db.page_count(), no_tables());
    }
}

} // verus!
