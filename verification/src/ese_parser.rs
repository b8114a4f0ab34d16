use vstd::prelude::*;
use crate::cache::MAX_CACHE_SIZE;
use crate::catalog::{catalog_of, load_catalog, tables_of, CatalogRow, TableDefinition, TableRows};
use crate::cursor::{
    backward, forward, last_leaf, linked_page, seek_backward, seek_forward, seek_last_leaf, Found,
    ESE_MOVE_FIRST, ESE_MOVE_LAST, ESE_MOVE_NEXT, ESE_MOVE_PREVIOUS,
};
use crate::error::EseError;
use crate::long_value::{load_lv_metadata, lv_index, segments_of, Segment, LV_tags};
use crate::page::{common_of, db_of, tags_of, Db, DbPage, PageTag};
use crate::reader::{open_result, FileHeader, Reader};
use crate::record::{load_data, located, yields, LastLoadState};
use crate::tree::{find_first_leaf_page, first_leaf};

verus! {

/// Where the cursor of a table stands: on which page, if on any, and on
/// which tag.
pub struct Cursor {
    pub page: Option<u32>,
    pub tag: usize,
}

/// What is known of a table: its definition, its long-value index, and its cursor.
pub struct TableState {
    pub rows: TableRows,
    pub segments: Seq<Segment>,
    pub cursor: Cursor,
}

/// A cursor that stands on no page.
pub open spec fn unpositioned() -> Cursor {
    Cursor { page: None, tag: 0 }
}

/// The root page of the data tree of a table.
pub open spec fn data_root(rows: TableRows) -> u32 {
    match rows.table {
        Some(row) => row.father_data_page_number(),
        None => 0,
    }
}

/// What a search makes of a cursor: it stands on the row that the search
/// found, and on no page where the search found none.
pub open spec fn settled(found: Result<Found, EseError>) -> Result<(Cursor, bool), EseError> {
    match found {
        Err(e) => Err(e),
        Ok(f) => match f.tag {
            Some(k) => Ok((Cursor { page: Some(f.page), tag: k }, true)),
            None => Ok((unpositioned(), false)),
        },
    }
}

/// The move to the first row: the search goes forward from the first leaf
/// of the data tree under page `root`.
pub open spec fn moved_first(db: Db, root: u32, cursor: Cursor) -> Result<(Cursor, bool), EseError> {
    match first_leaf(db, root, db.page_count()) {
        Err(e) => Err(e),
        Ok(first) => settled(forward(db, first, 0, 1, db.page_count())),
    }
}

/// The move to the next row: the search goes forward from the tag behind
/// the current one. The cursor has to stand on a page.
pub open spec fn moved_next(db: Db, cursor: Cursor) -> Result<(Cursor, bool), EseError> {
    match cursor.page {
        None => Err(EseError::OutOfRangeHandle),
        Some(p) => settled(forward(db, p, 0, cursor.tag + 1, db.page_count())),
    }
}

/// The move to the last row: the search goes backward from the last page of
/// the chain that the page of the cursor belongs to, or the first leaf of the
/// data tree where the cursor stands on no page.
pub open spec fn moved_last(db: Db, root: u32, cursor: Cursor) -> Result<(Cursor, bool), EseError> {
    let start = match cursor.page {
        Some(p) => Ok(p),
        None => first_leaf(db, root, db.page_count()),
    };
    match start {
        Err(e) => Err(e),
        Ok(s) => match last_leaf(db, s, 0, db.page_count()) {
            Err(e) => Err(e),
            Ok(last) => settled(backward(db, last, None, db.page_count())),
        },
    }
}

/// The tag before `tag`, or zero.
pub open spec fn tag_before(tag: usize) -> usize {
    if tag == 0 {
        0
    } else {
        (tag - 1) as usize
    }
}

/// The move to the row before: the search goes backward from the tag before
/// the current one. The cursor has to stand on a page.
pub open spec fn moved_previous(db: Db, cursor: Cursor) -> Result<(Cursor, bool), EseError> {
    match cursor.page {
        None => Err(EseError::OutOfRangeHandle),
        Some(p) => settled(backward(db, p, Some(tag_before(cursor.tag)), db.page_count())),
    }
}

/// Where a move takes the cursor of a table with data tree `root`, and
/// whether it found a row.
pub open spec fn moved(db: Db, root: u32, cursor: Cursor, crow: u32) -> Result<
    (Cursor, bool),
    EseError,
> {
    if crow == ESE_MOVE_FIRST {
        moved_first(db, root, cursor)
    } else if crow == ESE_MOVE_NEXT {
        moved_next(db, cursor)
    } else if crow == ESE_MOVE_LAST {
        moved_last(db, root, cursor)
    } else if crow == ESE_MOVE_PREVIOUS {
        moved_previous(db, cursor)
    } else {
        Err(EseError::Unimplemented)
    }
}

/// The cursor after a move: a move that fails leaves it on no page.
pub open spec fn cursor_after(outcome: Result<(Cursor, bool), EseError>) -> Cursor {
    match outcome {
        Ok((c, _)) => c,
        Err(_) => unpositioned(),
    }
}

/// The first table of that name.
pub open spec fn table_position(tables: Seq<TableState>, name: Seq<char>, i: int) -> Option<int>
    decreases tables.len() - i,
{
    if i < 0 || i >= tables.len() {
        None
    } else if tables[i].rows.table is Some && tables[i].rows.table->Some_0.name == name {
        Some(i)
    } else {
        table_position(tables, name, i + 1)
    }
}

/// What a column of a table has to be told of it.
#[derive(Debug)]
pub struct ColumnInfo {
    pub name: String,
    pub id: u32,
    pub typ: u32,
    pub cbmax: u32,
    pub cp: u16,
}

/// The description of a column, as a value.
pub struct ColumnFacts {
    pub name: Seq<char>,
    pub id: u32,
    pub typ: u32,
    pub cbmax: u32,
    pub cp: u16,
}

impl View for ColumnInfo {
    type V = ColumnFacts;

    open spec fn view(&self) -> ColumnFacts {
        ColumnFacts { name: self.name@, id: self.id, typ: self.typ, cbmax: self.cbmax, cp: self.cp }
    }
}

/// What the catalog row of a column tells of it.
pub open spec fn facts_of(row: CatalogRow) -> ColumnFacts {
    ColumnFacts {
        name: row.name,
        id: row.identifier,
        typ: row.column_type(),
        cbmax: row.size,
        cp: row.codepage as u16,
    }
}

/// An open table: its definition, its long-value index, the page its cursor
/// stands on and the tag of the current row.
pub struct Table {
    cat: TableDefinition,
    lv_tags: Vec<LV_tags>,
    current_page: Option<DbPage>,
    page_tag_index: usize,
    lls: LastLoadState,
}

/// What is remembered of the last read is true of the database and the
/// columns of the table.
pub open spec fn memo_ok(lls: LastLoadState, db: Db, columns: Seq<CatalogRow>) -> bool {
    lls.is_valid() ==> match linked_page(db, lls.page_number(), 0) {
        Ok((page, tags)) => lls.holds(
            db.extended(),
            page,
            common_of(page).page_flags,
            db.header_size(),
            tags,
            columns,
        ),
        Err(_) => false,
    }
}

impl Table {
    /// What is known of the table.
    pub closed spec fn state(&self) -> TableState {
        TableState {
            rows: self.cat@,
            segments: segments_of(self.lv_tags@),
            cursor: Cursor {
                page: match self.current_page {
                    Some(p) => Some(p.number()),
                    None => None,
                },
                tag: self.page_tag_index,
            },
        }
    }

    /// The table has its catalog row, and the page of its cursor is a page of `db`.
    pub closed spec fn wf(&self, db: Db) -> bool {
        &&& self.cat.table_catalog_definition is Some
        &&& self.page_tag_index <= 0xffff
        &&& match self.current_page {
            Some(p) => p.in_db(db, p.number()),
            None => true,
        }
        &&& memo_ok(self.lls, db, self.cat@.columns)
    }

    /// Forgets what is remembered of the last read unless it serves a read
    /// of column `column`: it has to be of the row that the cursor stands
    /// on, and of a column before this one.
    fn review_last_load_state(&mut self, column: u32)
        ensures
            final(self).state() == old(self).state(),
            forall|db: Db| old(self).wf(db) ==> #[trigger] final(self).wf(db),
            old(self).memo_serves(column) ==> final(self).memo() == old(self).memo(),
            !old(self).memo_serves(column) ==> !final(self).memo().is_valid(),
    {
        let serves: bool = if self.current_page.is_some() {
            self.lls.usable(self.page().page_number(), self.page_tag_index, column)
        } else {
            false
        };
        if !serves {
            self.lls.reset();
        }
    }

    /// What the table remembers of the last read.
    pub closed spec fn memo(&self) -> LastLoadState {
        self.lls
    }

    /// Whether what the table remembers serves a read of column `column`:
    /// the cursor stands on the page and the tag that it was remembered of,
    /// and the column comes behind the columns that the remembered walk has
    /// passed. A read of a column out of that order, and a read after the
    /// cursor has moved, find nothing to go by.
    pub closed spec fn memo_serves(&self, column: u32) -> bool {
        match self.current_page {
            Some(p) => self.lls.serves(p.number(), self.page_tag_index, column),
            None => false,
        }
    }

    /// The page that the cursor stands on.
    fn page(&self) -> (r: &DbPage)
        requires
            self.current_page is Some,
        ensures
            Some(*r) == self.current_page,
    {
        self.current_page.as_ref().unwrap()
    }

    /// A table as the catalog defines it, not opened yet.
    fn new(cat: TableDefinition) -> (r: Table)
        requires
            cat.table_catalog_definition is Some,
        ensures
            r.state() == fresh_state(cat@),
            forall|db: Db| r.wf(db),
    {
        let lv_tags: Vec<LV_tags> = Vec::new();
        assert(segments_of(lv_tags@) =~= Seq::<Segment>::empty());
        Table { cat, lv_tags, current_page: None, page_tag_index: 0, lls: LastLoadState::init() }
    }

    /// The table with its cursor where a search left it: on the row that was
    /// found, or on no page.
    fn settle(
        cat: TableDefinition,
        lv_tags: Vec<LV_tags>,
        lls: LastLoadState,
        found: Result<(DbPage, Option<usize>), EseError>,
    ) -> (r: (Table, Result<bool, EseError>))
        requires
            cat.table_catalog_definition is Some,
            found matches Ok(f) ==> (f.1 matches Some(k) ==> k <= 0xffff),
        ensures
            r.0.state().rows == cat@,
            r.0.state().segments == segments_of(lv_tags@),
            r.0.state().cursor == cursor_after(settled(found_of(found))),
            match settled(found_of(found)) {
                Ok(m) => r.1 == Ok::<bool, EseError>(m.1),
                Err(e) => r.1 == Err::<bool, EseError>(e),
            },
            forall|db: Db|
                (found matches Ok(f) ==> f.0.in_db(db, f.0.number())) && memo_ok(lls, db, cat@.columns)
                    ==> #[trigger] r.0.wf(db),
    {
        match found {
            Ok(f) => {
                let page = f.0;
                match f.1 {
                    Some(k) => (
                        Table { cat, lv_tags, current_page: Some(page), page_tag_index: k, lls },
                        Ok(true),
                    ),
                    None => (
                        Table { cat, lv_tags, current_page: None, page_tag_index: 0, lls },
                        Ok(false),
                    ),
                }
            },
            Err(e) => (Table { cat, lv_tags, current_page: None, page_tag_index: 0, lls }, Err(e)),
        }
    }

    /// The root page of the data tree.
    fn root(&self) -> (r: u32)
        ensures
            r == data_root(self.state().rows),
    {
        match &self.cat.table_catalog_definition {
            Some(row) => row.father_data_page_number(),
            None => 0,
        }
    }

    /// Moves the cursor to the first row of the table.
    fn move_first(self, reader: &mut Reader) -> (r: (Table, Result<bool, EseError>))
        requires
            old(reader).wf(),
            self.wf(db_of(old(reader))),
        ensures
            final(reader).wf(),
            final(reader).same_file(old(reader)),
            r.0.wf(db_of(old(reader))),
            r.0.state().rows == self.state().rows,
            r.0.state().segments == self.state().segments,
            moves_to(db_of(old(reader)), self.state(), ESE_MOVE_FIRST, r.0.state().cursor, r.1),
    {
        let ghost db = db_of(reader);
        let ghost cursor = self.state().cursor;
        let root: u32 = self.root();
        let Table { cat, lv_tags, current_page, page_tag_index, lls } = self;
        let found = match find_first_leaf_page(reader, root) {
            Err(e) => Err(e),
            Ok(first) => match DbPage::new(reader, first) {
                Err(e) => Err(e),
                Ok(page) => seek_forward(reader, page, 1),
            },
        };
        assert(settled(found_of(found)) == moved_first(db, root, cursor));
        proof {
            if found is Ok {
                lemma_tag_count(db, &(found->Ok_0).0);
            }
        }
        Table::settle(cat, lv_tags, lls, found)
    }

    /// Moves the cursor to the row after the current one.
    fn move_next(self, reader: &mut Reader) -> (r: (Table, Result<bool, EseError>))
        requires
            old(reader).wf(),
            self.wf(db_of(old(reader))),
        ensures
            final(reader).wf(),
            final(reader).same_file(old(reader)),
            r.0.wf(db_of(old(reader))),
            r.0.state().rows == self.state().rows,
            r.0.state().segments == self.state().segments,
            moves_to(db_of(old(reader)), self.state(), ESE_MOVE_NEXT, r.0.state().cursor, r.1),
    {
        let ghost db = db_of(reader);
        let Table { cat, lv_tags, current_page, page_tag_index, lls } = self;
        let found = match current_page {
            None => Err(EseError::OutOfRangeHandle),
            Some(page) => seek_forward(reader, page, page_tag_index + 1),
        };
        proof {
            if found is Ok {
                lemma_tag_count(db, &(found->Ok_0).0);
            }
        }
        Table::settle(cat, lv_tags, lls, found)
    }

    /// Moves the cursor to the last row of the table.
    fn move_last(self, reader: &mut Reader) -> (r: (Table, Result<bool, EseError>))
        requires
            old(reader).wf(),
            self.wf(db_of(old(reader))),
        ensures
            final(reader).wf(),
            final(reader).same_file(old(reader)),
            r.0.wf(db_of(old(reader))),
            r.0.state().rows == self.state().rows,
            r.0.state().segments == self.state().segments,
            moves_to(db_of(old(reader)), self.state(), ESE_MOVE_LAST, r.0.state().cursor, r.1),
    {
        let ghost db = db_of(reader);
        let ghost cursor = self.state().cursor;
        let root: u32 = self.root();
        let Table { cat, lv_tags, current_page, page_tag_index, lls } = self;
        let start = match current_page {
            Some(page) => Ok(page),
            None => match find_first_leaf_page(reader, root) {
                Err(e) => Err(e),
                Ok(first) => match DbPage::new(reader, first) {
                    Ok(page) => Ok(page),
                    Err(e) => {
                        assert(last_leaf(db, first, 0, db.page_count()) == Err::<u32, EseError>(e));
                        Err(e)
                    },
                },
            },
        };
        let found = match start {
            Err(e) => Err(e),
            Ok(page) => match seek_last_leaf(reader, page) {
                Err(e) => Err(e),
                Ok(last) => seek_backward(reader, last, None),
            },
        };
        assert(settled(found_of(found)) == moved_last(db, root, cursor));
        proof {
            if found is Ok {
                lemma_tag_count(db, &(found->Ok_0).0);
            }
        }
        Table::settle(cat, lv_tags, lls, found)
    }

    /// Moves the cursor to the row before the current one.
    fn move_previous(self, reader: &mut Reader) -> (r: (Table, Result<bool, EseError>))
        requires
            old(reader).wf(),
            self.wf(db_of(old(reader))),
        ensures
            final(reader).wf(),
            final(reader).same_file(old(reader)),
            r.0.wf(db_of(old(reader))),
            r.0.state().rows == self.state().rows,
            r.0.state().segments == self.state().segments,
            moves_to(db_of(old(reader)), self.state(), ESE_MOVE_PREVIOUS, r.0.state().cursor, r.1),
    {
        let ghost db = db_of(reader);
        let Table { cat, lv_tags, current_page, page_tag_index, lls } = self;
        let before: usize = if page_tag_index == 0 {
            0
        } else {
            page_tag_index - 1
        };
        let found = match current_page {
            None => Err(EseError::OutOfRangeHandle),
            Some(page) => seek_backward(reader, page, Some(before)),
        };
        proof {
            if found is Ok {
                lemma_tag_count(db, &(found->Ok_0).0);
            }
        }
        Table::settle(cat, lv_tags, lls, found)
    }

    /// Moves the cursor forwards: to the first row, or to the next.
    fn move_next_row(self, reader: &mut Reader, crow: u32) -> (r: (Table, Result<bool, EseError>))
        requires
            old(reader).wf(),
            self.wf(db_of(old(reader))),
            crow == ESE_MOVE_FIRST || crow == ESE_MOVE_NEXT,
        ensures
            final(reader).wf(),
            final(reader).same_file(old(reader)),
            r.0.wf(db_of(old(reader))),
            r.0.state().rows == self.state().rows,
            r.0.state().segments == self.state().segments,
            moves_to(db_of(old(reader)), self.state(), crow, r.0.state().cursor, r.1),
    {
        if crow == ESE_MOVE_FIRST {
            self.move_first(reader)
        } else {
            self.move_next(reader)
        }
    }

    /// Moves the cursor backwards: to the last row, or to the one before.
    fn move_previous_row(self, reader: &mut Reader, crow: u32) -> (r: (
        Table,
        Result<bool, EseError>,
    ))
        requires
            old(reader).wf(),
            self.wf(db_of(old(reader))),
            crow == ESE_MOVE_LAST || crow == ESE_MOVE_PREVIOUS,
        ensures
            final(reader).wf(),
            final(reader).same_file(old(reader)),
            r.0.wf(db_of(old(reader))),
            r.0.state().rows == self.state().rows,
            r.0.state().segments == self.state().segments,
            moves_to(db_of(old(reader)), self.state(), crow, r.0.state().cursor, r.1),
    {
        if crow == ESE_MOVE_LAST {
            self.move_last(reader)
        } else {
            self.move_previous(reader)
        }
    }
}

/// What a search found, without the page itself.
pub open spec fn found_of(r: Result<(DbPage, Option<usize>), EseError>) -> Result<Found, EseError> {
    match r {
        Ok(f) => Ok(Found { page: f.0.number(), tag: f.1 }),
        Err(e) => Err(e),
    }
}

/// The state of a table that was not opened yet.
pub open spec fn fresh_state(rows: TableRows) -> TableState {
    TableState { rows, segments: Seq::empty(), cursor: unpositioned() }
}

/// Whether a move of kind `crow` takes the cursor of a table in state
/// `before` to `cursor` and answers `r`.
pub open spec fn moves_to(db: Db, before: TableState, crow: u32, cursor: Cursor, r: Result<
    bool,
    EseError,
>) -> bool {
    let outcome = moved(db, data_root(before.rows), before.cursor, crow);
    &&& cursor == cursor_after(outcome)
    &&& match outcome {
        Ok((_, found)) => r == Ok::<bool, EseError>(found),
        Err(e) => r == Err::<bool, EseError>(e),
    }
}

/// A page has no more tags than a 16-bit number counts.
pub proof fn lemma_tag_count(db: Db, page: &DbPage)
    requires
        page.in_db(db, page.number()),
    ensures
        page.tags().len() <= 0xffff,
        linked_page(db, page.number(), 0) == Ok::<(Seq<u8>, Seq<PageTag>), EseError>(
            (page.bytes(), page.tags()),
        ),
{
}


/// Whether `r` is what column `column` yields in the row that the cursor of
/// `table` stands on; of a column with several values the one that `mv` asks
/// for. A cursor on no page yields `OutOfRangeHandle`.
pub open spec fn column_of<D: Fn(Vec<u8>) -> Option<Vec<u8>>>(
    db: Db,
    table: TableState,
    column: u32,
    mv: usize,
    decompress: &D,
    r: Result<Option<Vec<u8>>, EseError>,
) -> bool {
    match table.cursor.page {
        None => r == Err::<Option<Vec<u8>>, EseError>(EseError::OutOfRangeHandle),
        Some(p) => match linked_page(db, p, 0) {
            Err(e) => r == Err::<Option<Vec<u8>>, EseError>(e),
            Ok((page, tags)) => yields(
                db,
                table.segments,
                page,
                table.rows.columns,
                located(
                    db.extended(),
                    page,
                    common_of(page).page_flags,
                    db.header_size(),
                    tags,
                    table.rows.columns,
                    table.cursor.tag,
                    column,
                    mv,
                ),
                decompress,
                r,
            ),
        },
    }
}

/// The tables of a database that was just loaded: none is open.
pub open spec fn fresh_states(tables: Seq<TableRows>) -> Seq<TableState> {
    Seq::new(tables.len(), |i: int| fresh_state(tables[i]))
}

/// The database that a file holds, and the tables that its catalog defines.
pub open spec fn load_result(file: Seq<u8>) -> Result<(Db, Seq<TableRows>), EseError> {
    match open_result(file) {
        Err(e) => Err(e),
        Ok(h) => {
            let db = Db { file, page_size: h.page_size as u64, revision: h.format_revision };
            match catalog_of(db) {
                Err(e) => Err(e),
                Ok(tables) => Ok((db, tables)),
            }
        },
    }
}

/// The names of the tables.
pub open spec fn names_of(states: Seq<TableState>) -> Seq<Seq<char>> {
    Seq::new(
        states.len(),
        |i: int|
            match states[i].rows.table {
                Some(row) => row.name,
                None => Seq::empty(),
            },
    )
}

/// The names that a vector of strings holds.
pub open spec fn texts_of(v: Seq<String>) -> Seq<Seq<char>> {
    Seq::new(v.len(), |i: int| v[i]@)
}

/// The descriptions that a vector of them holds.
pub open spec fn infos_of(v: Seq<ColumnInfo>) -> Seq<ColumnFacts> {
    Seq::new(v.len(), |i: int| v[i]@)
}

/// The descriptions of the columns of a table.
pub open spec fn columns_of(rows: TableRows) -> Seq<ColumnFacts> {
    Seq::new(rows.columns.len(), |i: int| facts_of(rows.columns[i]))
}

/// The long-value index that opening a table loads: that of the tree that
/// the catalog names for the table, or the one it has where the catalog
/// names none.
pub open spec fn opened_segments(db: Db, table: TableState) -> Result<Seq<Segment>, EseError> {
    match table.rows.long_value {
        Some(row) => lv_index(db, row.father_data_page_number()),
        None => Ok(table.segments),
    }
}

/// A parser of one database: the pager, the tables of the catalog, and the
/// function that unpacks compressed values.
pub struct EseParser<D: Fn(Vec<u8>) -> Option<Vec<u8>>> {
    cache_size: usize,
    reader: Option<Reader>,
    tables: Vec<Table>,
    decompress: D,
}

impl<D: Fn(Vec<u8>) -> Option<Vec<u8>>> EseParser<D> {
    /// Whether a database is loaded.
    pub closed spec fn loaded(&self) -> bool {
        self.reader is Some
    }

    /// The database that is loaded.
    pub closed spec fn db(&self) -> Db {
        db_of(&self.reader->Some_0)
    }

    /// The tables of the database, in the order of the catalog.
    pub closed spec fn states(&self) -> Seq<TableState> {
        Seq::new(self.tables@.len(), |i: int| self.tables@[i].state())
    }

    /// The function that unpacks compressed values.
    pub closed spec fn unpacker(&self) -> &D {
        &self.decompress
    }

    /// The size of the page cache.
    pub closed spec fn spec_cache_size(&self) -> usize {
        self.cache_size
    }

    /// The parser is in order: without a database it has no tables, and with
    /// one the cursors of its tables stand on pages of it.
    pub closed spec fn wf(&self) -> bool {
        &&& 0 < self.cache_size
        &&& self.cache_size <= MAX_CACHE_SIZE
        &&& forall|v: Vec<u8>| call_requires(self.decompress, (v,))
        &&& match self.reader {
            None => self.tables@.len() == 0,
            Some(reader) => reader.wf() && forall|i: int|
                0 <= i < self.tables@.len() ==> (#[trigger] self.tables@[i]).wf(db_of(&reader)),
        }
    }

    /// A parser without a database. `cache_size` is the number of recent and
    /// of frequent pages that the cache of its pager will hold.
    pub fn init(cache_size: usize, decompress: D) -> (r: EseParser<D>)
        requires
            0 < cache_size,
            cache_size <= MAX_CACHE_SIZE,
            forall|v: Vec<u8>| call_requires(decompress, (v,)),
        ensures
            r.wf(),
            !r.loaded(),
            r.states() == Seq::<TableState>::empty(),
            r.spec_cache_size() == cache_size,
            *r.unpacker() == decompress,
    {
        let r = EseParser { cache_size, reader: None, tables: Vec::new(), decompress };
        assert(r.states() =~= Seq::<TableState>::empty());
        r
    }

    /// The place of the first table of that name.
    fn get_table_by_name(&self, table: &str) -> (r: Result<usize, EseError>)
        requires
            self.wf(),
        ensures
            match r {
                Ok(i) => table_position(self.states(), table@, 0) == Some(i as int) && i
                    < self.states().len(),
                Err(e) => e == EseError::TableNotFound && table_position(self.states(), table@, 0)
                    is None,
            },
    {
        let wanted: String = table.to_owned();
        let mut i: usize = 0;
        while i < self.tables.len()
            invariant
                self.wf(),
                i <= self.tables@.len(),
                wanted@ == table@,
                table_position(self.states(), table@, 0) == table_position(
                    self.states(),
                    table@,
                    i as int,
                ),
            decreases self.tables@.len() - i,
        {
            let found: bool = match &self.tables[i].cat.table_catalog_definition {
                Some(row) => row.name == wanted,
                None => false,
            };
            assert(self.states()[i as int] == self.tables@[i as int].state());
            if found {
                return Ok(i);
            }
            i += 1;
        }
        Err(EseError::TableNotFound)
    }

    /// The place of the table with handle `table_id`.
    fn get_table_by_id(&self, table_id: u64) -> (r: Result<usize, EseError>)
        ensures
            match r {
                Ok(i) => i == table_id && i < self.states().len(),
                Err(e) => e == EseError::OutOfRangeHandle && table_id >= self.states().len(),
            },
    {
        if table_id < self.tables.len() as u64 {
            Ok(table_id as usize)
        } else {
            Err(EseError::OutOfRangeHandle)
        }
    }

    /// Loads the database whose file holds `file`: opens it and reads its
    /// catalog. Where that fails the parser stays as it was.
    pub fn load(&mut self, file: Vec<u8>) -> (r: Option<EseError>)
        requires
            old(self).wf(),
        ensures
            final(self).wf(),
            final(self).spec_cache_size() == old(self).spec_cache_size(),
            final(self).unpacker() == old(self).unpacker(),
            match load_result(file@) {
                Err(e) => {
                    &&& r == Some(e)
                    &&& final(self).loaded() == old(self).loaded()
                    &&& final(self).db() == old(self).db()
                    &&& final(self).states() == old(self).states()
                },
                Ok((db, tables)) => {
                    &&& r is None
                    &&& final(self).loaded()
                    &&& final(self).db() == db
                    &&& final(self).states() == fresh_states(tables)
                },
            },
    {
        let mut reader = match Reader::load_db(file, self.cache_size) {
            Ok(h) => h,
            Err(e) => {
                return Some(e);
            },
        };
        let ghost db = db_of(&reader);
        let mut cat = match load_catalog(&mut reader) {
            Ok(c) => c,
            Err(e) => {
                return Some(e);
            },
        };
        let ghost all = tables_of(cat@);
        let mut tables: Vec<Table> = Vec::new();
        proof {
            crate::catalog::lemma_catalog_tables(db);
        }
        while cat.len() > 0
            invariant
                reader.wf(),
                db == db_of(&reader),
                catalog_of(db) == Ok::<Seq<TableRows>, EseError>(all),
                forall|i: int| 0 <= i < all.len() ==> (#[trigger] all[i]).table is Some,
                tables@.len() + cat@.len() == all.len(),
                forall|i: int|
                    0 <= i < tables@.len() ==> (#[trigger] tables@[i]).state() == fresh_state(
                        all[i],
                    ) && tables@[i].wf(db),
                forall|i: int|
                    0 <= i < cat@.len() ==> (#[trigger] cat@[i])@ == all[tables@.len() + i],
            decreases cat@.len(),
        {
            let ghost done = tables@.len();
            assert(cat@[0]@ == all[done as int]);
            let def = cat.remove(0);
            assert(def@.table is Some);
            tables.push(Table::new(def));
        }
        self.reader = Some(reader);
        self.tables = tables;
        assert(self.states() =~= fresh_states(all));
        None
    }

    /// The names of the tables of the database.
    pub fn get_tables(&self) -> (r: Result<Vec<String>, EseError>)
        requires
            self.wf(),
        ensures
            r matches Ok(names) && texts_of(names@) == names_of(self.states()),
    {
        let mut names: Vec<String> = Vec::new();
        let mut i: usize = 0;
        while i < self.tables.len()
            invariant
                self.wf(),
                i <= self.tables@.len(),
                names@.len() == i,
                forall|k: int| 0 <= k < i ==> (#[trigger] names@[k])@ == names_of(self.states())[k],
            decreases self.tables@.len() - i,
        {
            assert(self.states()[i as int] == self.tables@[i as int].state());
            let name: String = match &self.tables[i].cat.table_catalog_definition {
                Some(row) => row.name.clone(),
                None => String::new(),
            };
            names.push(name);
            i += 1;
        }
        assert(texts_of(names@) =~= names_of(self.states()));
        Ok(names)
    }

    /// The columns of the table `table`, in the order of the catalog.
    pub fn get_columns(&self, table: &str) -> (r: Result<Vec<ColumnInfo>, EseError>)
        requires
            self.wf(),
        ensures
            match table_position(self.states(), table@, 0) {
                None => r == Err::<Vec<ColumnInfo>, EseError>(EseError::TableNotFound),
                Some(i) => r matches Ok(columns) && infos_of(columns@) == columns_of(
                    self.states()[i].rows,
                ),
            },
    {
        let index: usize = match self.get_table_by_name(table) {
            Ok(i) => i,
            Err(e) => {
                return Err(e);
            },
        };
        assert(self.states()[index as int] == self.tables@[index as int].state());
        let defs = &self.tables[index].cat.column_catalog_definition_array;
        let ghost rows = self.states()[index as int].rows;
        let mut columns: Vec<ColumnInfo> = Vec::new();
        let mut i: usize = 0;
        while i < defs.len()
            invariant
                i <= defs@.len(),
                rows.columns.len() == defs@.len(),
                forall|k: int| 0 <= k < defs@.len() ==> rows.columns[k] == (#[trigger] defs@[k])@,
                columns@.len() == i,
                forall|k: int| 0 <= k < i ==> (#[trigger] columns@[k])@ == facts_of(rows.columns[k]),
            decreases defs@.len() - i,
        {
            let def = &defs[i];
            let col_info = ColumnInfo {
                name: def.name.clone(),
                id: def.identifier,
                typ: def.column_type(),
                cbmax: def.size,
                cp: def.codepage as u16,
            };
            columns.push(col_info);
            i += 1;
        }
        assert(infos_of(columns@) =~= columns_of(rows));
        Ok(columns)
    }

    /// Nothing but the tables may have changed from `before` to here.
    pub open spec fn same_database(&self, before: &EseParser<D>) -> bool {
        &&& self.loaded() == before.loaded()
        &&& self.db() == before.db()
        &&& self.spec_cache_size() == before.spec_cache_size()
        &&& self.unpacker() == before.unpacker()
    }

    /// Moves the cursor of table `table_id`.
    fn move_row_helper(&mut self, table_id: u64, crow: u32) -> (r: Result<bool, EseError>)
        requires
            old(self).wf(),
        ensures
            final(self).wf(),
            final(self).same_database(old(self)),
            row_moved(old(self).db(), old(self).states(), table_id, crow, final(self).states(), r),
    {
        if crow > ESE_MOVE_PREVIOUS {
            return Err(EseError::Unimplemented);
        }
        let index: usize = match self.get_table_by_id(table_id) {
            Ok(i) => i,
            Err(e) => {
                return Err(e);
            },
        };
        let ghost before = self.states();
        let ghost db = self.db();
        let mut reader = match self.reader.take() {
            Some(reader) => reader,
            None => {
                return Err(EseError::OutOfRangeHandle);
            },
        };
        assert(before[index as int] == self.tables@[index as int].state());
        let table = self.tables.remove(index);
        let moved = if crow == ESE_MOVE_FIRST || crow == ESE_MOVE_NEXT {
            table.move_next_row(&mut reader, crow)
        } else {
            table.move_previous_row(&mut reader, crow)
        };
        self.tables.insert(index, moved.0);
        self.reader = Some(reader);
        assert(self.states() =~= before.update(index as int, self.tables@[index as int].state()));
        moved.1
    }

    /// Moves the cursor of table `table` and says whether it stands on a row:
    /// to the first row, the last, the next or the one before, as `crow` says.
    /// A move that fails finds no row.
    pub fn move_row(&mut self, table: u64, crow: u32) -> (r: bool)
        requires
            old(self).wf(),
        ensures
            final(self).wf(),
            final(self).same_database(old(self)),
            exists|outcome: Result<bool, EseError>|
                row_moved(
                    old(self).db(),
                    old(self).states(),
                    table,
                    crow,
                    final(self).states(),
                    outcome,
                ) && r == (outcome == Ok::<bool, EseError>(true)),
    {
        match self.move_row_helper(table, crow) {
            Ok(r) => r,
            Err(e) => false,
        }
    }

    /// Loads the long-value index of the table at place `index`, if the
    /// catalog names a long-value tree for it.
    fn load_table_index(&mut self, index: usize) -> (r: Result<(), EseError>)
        requires
            old(self).wf(),
            index < old(self).states().len(),
        ensures
            final(self).wf(),
            final(self).same_database(old(self)),
            match opened_segments(old(self).db(), old(self).states()[index as int]) {
                Err(e) => r == Err::<(), EseError>(e) && final(self).states() == old(self).states(),
                Ok(segments) => r is Ok && final(self).states() == old(self).states().update(
                    index as int,
                    with_segments(old(self).states()[index as int], segments),
                ),
            },
    {
        let ghost before = self.states();
        assert(before[index as int] == self.tables@[index as int].state());
        let lv_root: Option<u32> = match &self.tables[index].cat.long_value_catalog_definition {
            Some(row) => Some(row.father_data_page_number()),
            None => None,
        };
        let root: u32 = match lv_root {
            Some(root) => root,
            None => {
                assert(self.states() =~= before.update(
                    index as int,
                    with_segments(before[index as int], before[index as int].segments),
                ));
                return Ok(());
            },
        };
        let mut reader = match self.reader.take() {
            Some(reader) => reader,
            None => {
                return Err(EseError::OutOfRangeHandle);
            },
        };
        let loaded = load_lv_metadata(&mut reader, root);
        self.reader = Some(reader);
        match loaded {
            Ok(lv_tags) => {
                let ghost segments = segments_of(lv_tags@);
                let Table { cat, lv_tags: _, current_page, page_tag_index, lls } =
                    self.tables.remove(index);
                self.tables.insert(
                    index,
                    Table { cat, lv_tags, current_page, page_tag_index, lls },
                );
                assert(self.states() =~= before.update(
                    index as int,
                    with_segments(before[index as int], segments),
                ));
                Ok(())
            },
            Err(e) => {
                assert(self.states() =~= before);
                Err(e)
            },
        }
    }

    /// Opens the table `table`: loads its long-value index, moves its cursor
    /// to the first row, and gives its handle.
    pub fn open_table(&mut self, table: &str) -> (r: Result<u64, EseError>)
        requires
            old(self).wf(),
        ensures
            final(self).wf(),
            final(self).same_database(old(self)),
            table_opened(old(self).db(), old(self).states(), table@, final(self).states(), r),
    {
        let index: usize = match self.get_table_by_name(table) {
            Ok(i) => i,
            Err(e) => {
                return Err(e);
            },
        };
        let ghost before = self.states();
        match self.load_table_index(index) {
            Ok(_) => {},
            Err(e) => {
                return Err(e);
            },
        }
        let ghost loaded = self.states();
        let r = self.move_row_helper(index as u64, ESE_MOVE_FIRST);
        assert(self.states() =~= before.update(
            index as int,
            TableState { cursor: self.states()[index as int].cursor, ..loaded[index as int] },
        ));
        match r {
            Ok(_) => Ok(index as u64),
            Err(e) => Err(e),
        }
    }

    /// Closes the table with handle `table`: its long-value index is dropped.
    /// Says whether there is such a table.
    pub fn close_table(&mut self, table: u64) -> (r: bool)
        requires
            old(self).wf(),
        ensures
            final(self).wf(),
            final(self).same_database(old(self)),
            r == (table < old(self).states().len()),
            final(self).states() == (if r {
                old(self).states().update(
                    table as int,
                    closed_state(old(self).states()[table as int]),
                )
            } else {
                old(self).states()
            }),
    {
        if table >= self.tables.len() as u64 {
            return false;
        }
        let index: usize = table as usize;
        let ghost before = self.states();
        assert(before[index as int] == self.tables@[index as int].state());
        let Table { cat, lv_tags: _, current_page, page_tag_index, lls } = self.tables.remove(
            index,
        );
        let lv_tags: Vec<LV_tags> = Vec::new();
        assert(segments_of(lv_tags@) =~= Seq::<Segment>::empty());
        self.tables.insert(index, Table { cat, lv_tags, current_page, page_tag_index, lls });
        assert(self.states() =~= before.update(index as int, closed_state(before[index as int])));
        true
    }

    /// Reads a column of the current row of a table.
    fn get_column_dyn_helper(&mut self, table_id: u64, column: u32, mv_index: u32) -> (r: Result<
        Option<Vec<u8>>,
        EseError,
    >)
        requires
            old(self).wf(),
        ensures
            final(self).wf(),
            final(self).same_database(old(self)),
            final(self).states() == old(self).states(),
            column_read(
                old(self).db(),
                old(self).states(),
                table_id,
                column,
                mv_index as usize,
                old(self).unpacker(),
                r,
            ),
    {
        let index: usize = match self.get_table_by_id(table_id) {
            Ok(i) => i,
            Err(e) => {
                return Err(e);
            },
        };
        let ghost before = self.states();
        let mut reader = match self.reader.take() {
            Some(reader) => reader,
            None => {
                return Err(EseError::OutOfRangeHandle);
            },
        };
        assert(before[index as int] == self.tables@[index as int].state());
        let ghost db = db_of(&reader);
        assert(self.tables@[index as int].wf(db));
        let mut table = self.tables.remove(index);
        table.review_last_load_state(column);
        assert(table.wf(db));
        let Table { cat, lv_tags, current_page, page_tag_index, lls } = table;
        let mut lls = lls;
        let r = match &current_page {
            None => Err(EseError::OutOfRangeHandle),
            Some(page) => {
                proof {
                    lemma_tag_count(db_of(&reader), page);
                }
                load_data(
                    &mut lls,
                    &mut reader,
                    &cat,
                    &lv_tags,
                    page,
                    page_tag_index,
                    column,
                    mv_index as usize,
                    &self.decompress,
                )
            },
        };
        self.tables.insert(index, Table { cat, lv_tags, current_page, page_tag_index, lls });
        self.reader = Some(reader);
        assert(self.states() =~= before);
        r
    }

    /// The value of column `column` in the current row of table `table`:
    /// `None` where the row has none.
    pub fn get_column(&mut self, table: u64, column: u32) -> (r: Result<Option<Vec<u8>>, EseError>)
        requires
            old(self).wf(),
        ensures
            final(self).wf(),
            final(self).same_database(old(self)),
            final(self).states() == old(self).states(),
            column_read(
                old(self).db(),
                old(self).states(),
                table,
                column,
                0,
                old(self).unpacker(),
                r,
            ),
    {
        self.get_column_dyn_helper(table, column, 0)
    }

    /// The value of column `column` in the current row of table `table`; of
    /// a column with several values the one that `multi_value_index` counts,
    /// from 1 on, where 0 means the first as well.
    pub fn get_column_mv(&mut self, table: u64, column: u32, multi_value_index: u32) -> (r: Result<
        Option<Vec<u8>>,
        EseError,
    >)
        requires
            old(self).wf(),
        ensures
            final(self).wf(),
            final(self).same_database(old(self)),
            final(self).states() == old(self).states(),
            column_read(
                old(self).db(),
                old(self).states(),
                table,
                column,
                multi_value_index as usize,
                old(self).unpacker(),
                r,
            ),
    {
        self.get_column_dyn_helper(table, column, multi_value_index)
    }
}

/// A table with the long-value index `segments`.
pub open spec fn with_segments(table: TableState, segments: Seq<Segment>) -> TableState {
    TableState { segments, ..table }
}

/// A table without its long-value index.
pub open spec fn closed_state(table: TableState) -> TableState {
    TableState { segments: Seq::empty(), ..table }
}

/// Whether a move of kind `crow` on the table with handle `table` takes the
/// tables from `before` to `after` and answers `r`. A kind that is none of
/// the four is not implemented, a handle that names no table is out of
/// range, and either leaves the tables alone. Any other move changes the
/// cursor of its table and nothing else.
pub open spec fn row_moved(
    db: Db,
    before: Seq<TableState>,
    table: u64,
    crow: u32,
    after: Seq<TableState>,
    r: Result<bool, EseError>,
) -> bool {
    if crow > ESE_MOVE_PREVIOUS {
        r == Err::<bool, EseError>(EseError::Unimplemented) && after == before
    } else if table >= before.len() {
        r == Err::<bool, EseError>(EseError::OutOfRangeHandle) && after == before
    } else {
        &&& after.len() == before.len()
        &&& after == before.update(
            table as int,
            TableState { cursor: after[table as int].cursor, ..before[table as int] },
        )
        &&& moves_to(db, before[table as int], crow, after[table as int].cursor, r)
    }
}

/// Whether opening the table `name` takes the tables from `before` to
/// `after` and answers `r`. Without a table of that name, or where its
/// long-value index cannot be loaded, the tables stay as they are. Else the
/// table has its index, and its cursor went to the first row; the handle is
/// the place of the table in the catalog.
pub open spec fn table_opened(
    db: Db,
    before: Seq<TableState>,
    name: Seq<char>,
    after: Seq<TableState>,
    r: Result<u64, EseError>,
) -> bool {
    match table_position(before, name, 0) {
        None => r == Err::<u64, EseError>(EseError::TableNotFound) && after == before,
        Some(i) => match opened_segments(db, before[i]) {
            Err(e) => r == Err::<u64, EseError>(e) && after == before,
            Ok(segments) => {
                let loaded = with_segments(before[i], segments);
                let outcome = moved(db, data_root(loaded.rows), loaded.cursor, ESE_MOVE_FIRST);
                &&& after == before.update(
                    i,
                    TableState { cursor: cursor_after(outcome), ..loaded },
                )
                &&& match outcome {
                    Ok(_) => r == Ok::<u64, EseError>(i as u64),
                    Err(e) => r == Err::<u64, EseError>(e),
                }
            },
        },
    }
}

/// Whether `r` is what reading column `column` of the table with handle
/// `table` yields.
pub open spec fn column_read<D: Fn(Vec<u8>) -> Option<Vec<u8>>>(
    db: Db,
    states: Seq<TableState>,
    table: u64,
    column: u32,
    mv: usize,
    decompress: &D,
    r: Result<Option<Vec<u8>>, EseError>,
) -> bool {
    if table >= states.len() {
        r == Err::<Option<Vec<u8>>, EseError>(EseError::OutOfRangeHandle)
    } else {
        column_of(db, states[table as int], column, mv, decompress, r)
    }
}


/// Whether two answers to a read are the same: the same bytes, both times
/// no value, or the same error.
pub open spec fn same_answer(
    a: Result<Option<Vec<u8>>, EseError>,
    b: Result<Option<Vec<u8>>, EseError>,
) -> bool {
    match (a, b) {
        (Ok(Some(x)), Ok(Some(y))) => x@ == y@,
        (Ok(None), Ok(None)) => true,
        (Err(e), Err(f)) => e == f,
        _ => false,
    }
}

/// Whether a function that unpacks compressed values answers the same bytes
/// with the same bytes.
pub open spec fn unpacks_alike<D: Fn(Vec<u8>) -> Option<Vec<u8>>>(decompress: &D) -> bool {
    forall|a: Vec<u8>, b: Vec<u8>, x: Option<Vec<u8>>, y: Option<Vec<u8>>|
        a@ == b@ && #[trigger] call_ensures(*decompress, (a,), x) && #[trigger] call_ensures(
            *decompress,
            (b,),
            y,
        ) ==> same_answer(unpacked_answer(x), unpacked_answer(y))
}

/// What a function that unpacks compressed values answered, as the answer to a read.
pub open spec fn unpacked_answer(out: Option<Vec<u8>>) -> Result<Option<Vec<u8>>, EseError> {
    match out {
        Some(v) => Ok(Some(v)),
        None => Err(EseError::RecordMalformed),
    }
}

/// Reading a column twice, with the tables as they are and a function that
/// unpacks the same bytes alike, gives the same answer twice.
pub proof fn lemma_reads_repeat<D: Fn(Vec<u8>) -> Option<Vec<u8>>>(
    db: Db,
    states: Seq<TableState>,
    table: u64,
    column: u32,
    mv: usize,
    decompress: &D,
    first: Result<Option<Vec<u8>>, EseError>,
    second: Result<Option<Vec<u8>>, EseError>,
)
    requires
        unpacks_alike(decompress),
        column_read(db, states, table, column, mv, decompress, first),
        column_read(db, states, table, column, mv, decompress, second),
    ensures
        same_answer(first, second),
{
}

/// Reading the value with index 0 of a column gives what reading the value
/// with index 1 gives.
pub proof fn lemma_first_value_read<D: Fn(Vec<u8>) -> Option<Vec<u8>>>(
    db: Db,
    states: Seq<TableState>,
    table: u64,
    column: u32,
    decompress: &D,
    first: Result<Option<Vec<u8>>, EseError>,
    second: Result<Option<Vec<u8>>, EseError>,
)
    requires
        unpacks_alike(decompress),
        column_read(db, states, table, column, 0, decompress, first),
        column_read(db, states, table, column, 1, decompress, second),
    ensures
        same_answer(first, second),
{
    if table < states.len() {
        let state = states[table as int];
        if let Some(p) = state.cursor.page {
            if let Ok((page, tags)) = linked_page(db, p, 0) {
                crate::record::lemma_first_value(
                    db.extended(),
                    page,
                    common_of(page).page_flags,
                    db.header_size(),
                    tags,
                    state.rows.columns,
                    state.cursor.tag,
                    column,
                );
            }
        }
    }
}

} // verus!
