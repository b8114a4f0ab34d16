use vstd::prelude::*;
use crate::bytes::{
    byte_opt, bytes_opt, get_bytes, get_le16, get_le32, get_u8, in_range, le16_at, le16_opt,
    le32_opt,
};
use crate::catalog::{CatalogDefinition, CatalogRow, TableDefinition};
use crate::error::EseError;
use crate::jet::{
    PAGE_IS_LEAF, PAGE_IS_ROOT, TAGGED_COMPRESSED, TAGGED_LONG_VALUE, TAGGED_MULTI_VALUE,
    TAGGED_MULTI_VALUE_OFFSET,
};
use crate::long_value::{load_lv_data, lv_value, segments_of, Segment, LV_tags};
use crate::page::{db_of, Db, DbPage, PageTag};
use crate::reader::Reader;
use crate::tree::{keys_end, load_root_page_header, root_header_of, skip_keys};

verus! {

/// A record of a leaf: where it begins behind its keys, how many bytes it
/// has from there, and its data-definition header.
#[derive(Clone, Copy, Debug, PartialEq, Eq, Structural)]
pub struct Record {
    pub start: usize,
    pub size: u16,
    pub last_fixed: u8,
    pub last_variable: u8,
    pub variable_offset: u16,
}

impl Record {
    /// The number of bytes of the bitmap that marks the empty fixed columns.
    pub open spec fn bitmap_size(self) -> int {
        (self.last_fixed as int + 7) / 8
    }

    /// The number of entries in the table of variable sizes.
    pub open spec fn variable_count(self) -> int {
        if self.last_variable > 127 {
            self.last_variable - 127
        } else {
            0
        }
    }

    /// Where the bitmap begins in the page: right before the variable sizes.
    pub open spec fn bitmap_at(self) -> int {
        self.start + self.variable_offset - self.bitmap_size()
    }
}

/// The cursors of a walk over the columns of a record.
#[derive(Clone, Copy, Debug, PartialEq, Eq, Structural)]
pub struct Walk {
    /// Where the next fixed column, or the next pair of the tagged index, stands in the page.
    pub at: u128,
    /// The identifier of the variable column whose size was read last.
    pub variable_id: u32,
    /// Where the next variable size stands, counted from the record's start.
    pub variable_entry: u16,
    /// Where the next variable value stands, counted from the record's start.
    pub variable_value: u16,
    /// Where the last variable value that was present ended.
    pub variable_end: u16,
    /// Where the tagged area begins, counted from the record's start; zero before it is entered.
    pub tagged_start: u16,
    /// The identifier of the pair of the tagged index that is waited for.
    pub tagged_id: u16,
    /// The offset word of that pair.
    pub tagged_offset: u16,
    /// The bytes of the tagged index that are not read yet.
    pub tagged_index_left: u16,
    /// The bytes of the tagged area that are not accounted for yet.
    pub tagged_left: u16,
}

/// Where the value of a column was found.
#[derive(Clone, Copy, Debug, PartialEq, Eq, Structural)]
pub enum Located {
    /// The record marks the column empty, or ends before it.
    Absent,
    /// The record has no value for column `column` of the table: its default stands in.
    Missing { column: usize },
    /// `size` bytes at `at` in the page.
    Plain { at: u128, size: u32 },
    /// The long value of `key`.
    LongValue { key: u32 },
    /// `size` compressed bytes at `at` in the page.
    Packed { at: u128, size: u32 },
}

/// What one column does to a walk: it ends it, or hands the cursors on.
#[derive(Clone, Copy, Debug)]
pub enum Step {
    Next(Walk),
    Done(Result<Located, EseError>),
}

/// One of the values of a multi-valued column: where it begins in the
/// payload, whether it is the key of a long value, and its size.
#[derive(Clone, Copy, Debug, PartialEq, Eq, Structural)]
pub struct MvEntry {
    pub shift: u16,
    pub long_value: bool,
    pub size: u16,
}

/// The record under `tag`: behind its keys, with what is left of the tag's size.
pub open spec fn record_of(page: Seq<u8>, header_size: int, tag: PageTag, clean: bool) -> Result<
    Record,
    EseError,
> {
    match keys_end(page, header_size, tag, clean) {
        None => Err(EseError::RecordMalformed),
        Some(end) => {
            let used = end - (header_size + tag.offset);
            if used > tag.size || !in_range(page, end, 4) {
                Err(EseError::RecordMalformed)
            } else {
                Ok(
                    Record {
                        start: end as usize,
                        size: (tag.size - used) as u16,
                        last_fixed: page[end],
                        last_variable: page[end + 1],
                        variable_offset: le16_at(page, end + 2),
                    },
                )
            }
        },
    }
}

/// The cursors before the first column: the fixed columns begin behind the
/// four bytes of the header, the variable values behind the table of their sizes.
pub open spec fn walk_start(page: Seq<u8>, rec: Record) -> Result<Walk, EseError> {
    if rec.bitmap_size() > 0 && !in_range(page, rec.bitmap_at(), rec.bitmap_size()) {
        Err(EseError::RecordMalformed)
    } else if rec.variable_offset + 2 * rec.variable_count() > 0xffff {
        Err(EseError::RecordMalformed)
    } else {
        Ok(
            Walk {
                at: (rec.start + 4) as u128,
                variable_id: 127,
                variable_entry: rec.variable_offset,
                variable_value: (rec.variable_offset + 2 * rec.variable_count()) as u16,
                variable_end: 0,
                tagged_start: 0,
                tagged_id: 0,
                tagged_offset: 0,
                tagged_index_left: 0,
                tagged_left: 0,
            },
        )
    }
}

/// Whether the bitmap marks the fixed column that stands at place `j` among
/// the columns of the table as empty.
pub open spec fn fixed_is_null(page: Seq<u8>, rec: Record, j: usize) -> Result<bool, EseError> {
    if rec.bitmap_size() == 0 {
        Ok(false)
    } else if j / 8 >= rec.bitmap_size() {
        Err(EseError::RecordMalformed)
    } else {
        Ok(page[rec.bitmap_at() + j / 8] & (1u8 << ((j % 8) as u8)) != 0)
    }
}

/// The step of a column with an identifier up to 127.
pub open spec fn fixed_step(
    page: Seq<u8>,
    rec: Record,
    st: Walk,
    id: u32,
    size: u32,
    j: usize,
    target: u32,
) -> Step {
    if id <= rec.last_fixed {
        if id == target {
            match fixed_is_null(page, rec, j) {
                Err(e) => Step::Done(Err(e)),
                Ok(true) => Step::Done(Ok(Located::Absent)),
                Ok(false) => Step::Done(Ok(Located::Plain { at: st.at, size: size })),
            }
        } else {
            Step::Next(Walk { at: (st.at + size) as u128, ..st })
        }
    } else if id == target {
        Step::Done(Ok(Located::Absent))
    } else {
        Step::Next(st)
    }
}

/// The sizes of the variable columns are read up to the one of column `id`,
/// or to the last that the record has. Each is the end of its value, counted
/// from the first value; the high bit marks a column without value.
pub open spec fn variable_walk(page: Seq<u8>, rec: Record, st: Walk, id: u32, target: u32) -> Step
    decreases id - st.variable_id,
{
    if st.variable_id >= id {
        Step::Next(st)
    } else {
        match le16_opt(page, rec.start + st.variable_entry) {
            None => Step::Done(Err(EseError::RecordMalformed)),
            Some(end) => if st.variable_entry + 2 > 0xffff {
                Step::Done(Err(EseError::RecordMalformed))
            } else {
                let read = Walk {
                    variable_entry: (st.variable_entry + 2) as u16,
                    variable_id: (st.variable_id + 1) as u32,
                    ..st
                };
                if read.variable_id == id && end & 0x8000 == 0 {
                    if end < st.variable_end {
                        Step::Done(Err(EseError::RecordMalformed))
                    } else if id == target {
                        Step::Done(
                            Ok(
                                Located::Plain {
                                    at: (rec.start + st.variable_value) as u128,
                                    size: (end - st.variable_end) as u32,
                                },
                            ),
                        )
                    } else if st.variable_value + (end - st.variable_end) > 0xffff {
                        Step::Done(Err(EseError::RecordMalformed))
                    } else {
                        let taken = Walk {
                            variable_value: (st.variable_value + (end - st.variable_end)) as u16,
                            variable_end: end,
                            ..read
                        };
                        if taken.variable_id >= rec.last_variable {
                            Step::Next(taken)
                        } else {
                            variable_walk(page, rec, taken, id, target)
                        }
                    }
                } else if read.variable_id >= rec.last_variable {
                    Step::Next(read)
                } else {
                    variable_walk(page, rec, read, id, target)
                }
            },
        }
    }
}

/// The next pair of the tagged index, identifier and offset, is read at the
/// cursor, and four bytes are taken off what is left of index and area.
pub open spec fn next_pair(page: Seq<u8>, st: Walk, first: bool) -> Result<Walk, EseError> {
    match le16_opt(page, st.at as int) {
        None => Err(EseError::RecordMalformed),
        Some(id) => match le16_opt(page, st.at + 2) {
            None => Err(EseError::RecordMalformed),
            Some(offset) => {
                let index_left: int = if first {
                    (offset & 0x3fff) - 4
                } else {
                    st.tagged_index_left - 4
                };
                if first && offset == 0 {
                    Err(EseError::RecordMalformed)
                } else if index_left < 0 || st.tagged_left < 4 {
                    Err(EseError::RecordMalformed)
                } else {
                    Ok(
                        Walk {
                            at: (st.at + 4) as u128,
                            tagged_id: id,
                            tagged_offset: offset,
                            tagged_index_left: index_left as u16,
                            tagged_left: (st.tagged_left - 4) as u16,
                            ..st
                        },
                    )
                }
            },
        },
    }
}

/// The cursors on the first tagged column: the tagged area begins where the
/// variable values end and takes the rest of the record; its first pair is read.
pub open spec fn tagged_enter(page: Seq<u8>, rec: Record, st: Walk) -> Result<Walk, EseError> {
    if st.tagged_start != 0 {
        Ok(st)
    } else if rec.size < st.variable_value {
        Err(EseError::RecordMalformed)
    } else {
        let entered = Walk {
            tagged_start: st.variable_value,
            tagged_left: (rec.size - st.variable_value) as u16,
            at: (rec.start + st.variable_value) as u128,
            ..st
        };
        if entered.tagged_left > 0 {
            next_pair(page, entered, true)
        } else {
            Ok(entered)
        }
    }
}

/// The mask that takes the flags off an offset of the tagged index.
pub open spec fn offset_mask(extended: bool) -> u16 {
    if extended {
        0x7fff
    } else {
        0x3fff
    }
}

/// The values of a payload with the multi-value flag: the first word is the
/// offset of the first value, and half of it the number of values; every
/// further word is the offset of the next value, whose high bit marks that
/// value as the key of a long value. A value ends where the next begins, the
/// last with the payload.
pub open spec fn mv_table(
    page: Seq<u8>,
    at: int,
    size: u16,
    i: int,
    count: int,
    begin: u16,
    long_value: bool,
    acc: Seq<MvEntry>,
) -> Result<Seq<MvEntry>, EseError>
    decreases count - i,
{
    if i >= count {
        if size < begin {
            Err(EseError::RecordMalformed)
        } else {
            Ok(acc.push(MvEntry { shift: begin, long_value, size: (size - begin) as u16 }))
        }
    } else {
        match le16_opt(page, at + 2 * i) {
            None => Err(EseError::RecordMalformed),
            Some(word) => if word & 0x7fff < begin {
                Err(EseError::RecordMalformed)
            } else {
                mv_table(
                    page,
                    at,
                    size,
                    i + 1,
                    count,
                    word & 0x7fff,
                    word & 0x8000 != 0,
                    acc.push(
                        MvEntry { shift: begin, long_value, size: ((word & 0x7fff) - begin) as u16 },
                    ),
                )
            },
        }
    }
}

/// The values of a multi-valued payload of `size` bytes at `at`. With the
/// offset flag there are two: the first byte is the size of the first, which
/// follows it, and the second takes the rest.
pub open spec fn mv_entries(page: Seq<u8>, at: int, size: u16, flags: u8) -> Result<
    Seq<MvEntry>,
    EseError,
> {
    if flags & TAGGED_MULTI_VALUE_OFFSET != 0 {
        match byte_opt(page, at) {
            None => Err(EseError::RecordMalformed),
            Some(first) => if size < first + 1 {
                Err(EseError::RecordMalformed)
            } else {
                Ok(
                    seq![
                        MvEntry { shift: 1, long_value: false, size: first as u16 },
                        MvEntry {
                            shift: (first + 1) as u16,
                            long_value: false,
                            size: (size - first - 1) as u16,
                        },
                    ],
                )
            },
        }
    } else {
        match le16_opt(page, at) {
            None => Err(EseError::RecordMalformed),
            Some(word) => mv_table(
                page,
                at,
                size,
                1,
                (word & 0x7fff) as int / 2,
                word & 0x7fff,
                word & 0x8000 != 0,
                Seq::empty(),
            ),
        }
    }
}

/// Which value of `count` an index asks for: index zero and an index beyond
/// the values mean the first, any other the one before it.
pub open spec fn mv_pick(mv: usize, count: int) -> int {
    if mv > 0 && mv - 1 < count {
        mv - 1
    } else {
        0
    }
}

/// What the `size` bytes of a tagged value at `at` stand for under its flags.
pub open spec fn payload(page: Seq<u8>, at: u128, size: u16, flags: u8, mv: usize) -> Result<
    Located,
    EseError,
> {
    if flags & TAGGED_LONG_VALUE != 0 {
        match le32_opt(page, at as int) {
            None => Err(EseError::RecordMalformed),
            Some(key) => Ok(Located::LongValue { key }),
        }
    } else if flags & (TAGGED_MULTI_VALUE | TAGGED_MULTI_VALUE_OFFSET) != 0 {
        match mv_entries(page, at as int, size, flags) {
            Err(e) => Err(e),
            Ok(entries) => {
                let entry = entries[mv_pick(mv, entries.len() as int)];
                if entry.long_value {
                    match le32_opt(page, at + entry.shift) {
                        None => Err(EseError::RecordMalformed),
                        Some(key) => Ok(Located::LongValue { key }),
                    }
                } else {
                    Ok(Located::Plain { at: (at + entry.shift) as u128, size: entry.size as u32 })
                }
            },
        }
    } else if flags & TAGGED_COMPRESSED != 0 {
        Ok(Located::Packed { at, size: size as u32 })
    } else {
        Ok(Located::Plain { at, size: size as u32 })
    }
}

/// The step of a tagged column whose identifier is the one that the tagged
/// index waits for: the pair behind it is read, if the index has one, and the
/// value lies between the two offsets, or takes the rest of the area. Where
/// the layout is extended, or the offset has bit `0x4000`, the value begins
/// with a byte of flags.
pub open spec fn tagged_take(
    page: Seq<u8>,
    rec: Record,
    extended: bool,
    st: Walk,
    id: u32,
    target: u32,
    mv: usize,
) -> Step {
    let previous = st.tagged_offset;
    let read = if st.tagged_index_left > 0 {
        next_pair(page, st, false)
    } else {
        Ok(st)
    };
    match read {
        Err(e) => Step::Done(Err(e)),
        Ok(st) => {
            let from = previous & offset_mask(extended);
            let to = st.tagged_offset & offset_mask(extended);
            let whole: u16 = if to > from {
                (to - from) as u16
            } else {
                st.tagged_left
            };
            let flagged = extended || previous & 0x4000 != 0;
            if st.tagged_start + from > 0xffff {
                Step::Done(Err(EseError::RecordMalformed))
            } else if whole == 0 {
                Step::Next(st)
            } else if st.tagged_left < whole {
                Step::Done(Err(EseError::RecordMalformed))
            } else {
                let taken = Walk { tagged_left: (st.tagged_left - whole) as u16, ..st };
                let value = st.tagged_start + from;
                if !flagged {
                    if id == target {
                        Step::Done(payload(page, (rec.start + value) as u128, whole, 0, mv))
                    } else {
                        Step::Next(taken)
                    }
                } else {
                    match byte_opt(page, rec.start + value) {
                        None => Step::Done(Err(EseError::RecordMalformed)),
                        Some(flags) => if value + 1 > 0xffff {
                            Step::Done(Err(EseError::RecordMalformed))
                        } else if whole > 1 && id == target {
                            Step::Done(
                                payload(
                                    page,
                                    (rec.start + value + 1) as u128,
                                    (whole - 1) as u16,
                                    flags,
                                    mv,
                                ),
                            )
                        } else {
                            Step::Next(taken)
                        },
                    }
                }
            }
        },
    }
}

/// The step of a column behind the variable ones.
pub open spec fn tagged_step(
    page: Seq<u8>,
    rec: Record,
    extended: bool,
    st: Walk,
    id: u32,
    target: u32,
    mv: usize,
) -> Step {
    match tagged_enter(page, rec, st) {
        Err(e) => Step::Done(Err(e)),
        Ok(st) => if st.tagged_left > 0 && id == st.tagged_id {
            tagged_take(page, rec, extended, st, id, target, mv)
        } else {
            Step::Next(st)
        },
    }
}

/// What column `j` of the table, with identifier `id` and `size` bytes, does
/// to the walk for column `target`. A column with an identifier over 127 that
/// yields no value ends the walk with its default, if it is the one looked for.
#[verifier::opaque]
pub open spec fn step(
    page: Seq<u8>,
    rec: Record,
    extended: bool,
    st: Walk,
    id: u32,
    size: u32,
    j: usize,
    target: u32,
    mv: usize,
) -> Step {
    if id <= 127 {
        fixed_step(page, rec, st, id, size, j, target)
    } else {
        let taken = if st.variable_id < rec.last_variable {
            variable_walk(page, rec, st, id, target)
        } else {
            tagged_step(page, rec, extended, st, id, target, mv)
        };
        match taken {
            Step::Done(r) => Step::Done(r),
            Step::Next(st) => if id == target {
                Step::Done(Ok(Located::Missing { column: j }))
            } else {
                Step::Next(st)
            },
        }
    }
}

/// The walk over the columns of the table in the order of their definition,
/// from column `j` on. A table without the column ends it with `ColumnNotFound`.
pub open spec fn walk(
    page: Seq<u8>,
    rec: Record,
    extended: bool,
    columns: Seq<CatalogRow>,
    j: int,
    st: Walk,
    target: u32,
    mv: usize,
) -> Result<Located, EseError>
    decreases columns.len() - j,
{
    if j < 0 || j >= columns.len() {
        Err(EseError::ColumnNotFound)
    } else {
        match step(
            page,
            rec,
            extended,
            st,
            columns[j].identifier,
            columns[j].size,
            j as usize,
            target,
            mv,
        ) {
            Step::Done(r) => r,
            Step::Next(next) => walk(page, rec, extended, columns, j + 1, next, target, mv),
        }
    }
}

/// The record under tag `tag_index` of a leaf, and the cursors before its
/// first column. On a root page the root record has to be in order; tag 0 is
/// no row.
pub open spec fn walk_entry(
    extended: bool,
    page: Seq<u8>,
    page_flags: u32,
    header_size: int,
    tags: Seq<PageTag>,
    tag_index: usize,
) -> Result<(Record, Walk), EseError> {
    if page_flags & PAGE_IS_ROOT != 0 && (tags.len() == 0 || root_header_of(
        page,
        header_size,
        tags[0],
    ) is Err) {
        Err(EseError::RecordMalformed)
    } else if page_flags & PAGE_IS_LEAF == 0 {
        Err(EseError::PageFlagsUnexpected)
    } else if tag_index == 0 || tag_index >= tags.len() {
        Err(EseError::RecordMalformed)
    } else {
        match record_of(page, header_size, tags[tag_index as int], extended) {
            Err(e) => Err(e),
            Ok(rec) => match walk_start(page, rec) {
                Err(e) => Err(e),
                Ok(st) => Ok((rec, st)),
            },
        }
    }
}

/// Where the value of column `column_id` lies in the record under tag
/// `tag_index` of a leaf.
pub open spec fn located(
    extended: bool,
    page: Seq<u8>,
    page_flags: u32,
    header_size: int,
    tags: Seq<PageTag>,
    columns: Seq<CatalogRow>,
    tag_index: usize,
    column_id: u32,
    mv: usize,
) -> Result<Located, EseError> {
    match walk_entry(extended, page, page_flags, header_size, tags, tag_index) {
        Err(e) => Err(e),
        Ok((rec, st)) => walk(page, rec, extended, columns, 0, st, column_id, mv),
    }
}

/// An identifier that is not `id`.
pub open spec fn other_than(id: u32) -> u32 {
    if id == 0 {
        1
    } else {
        0
    }
}

/// What a column does to a walk that looks for another column.
pub open spec fn pass_step(
    page: Seq<u8>,
    rec: Record,
    extended: bool,
    st: Walk,
    id: u32,
    size: u32,
    j: usize,
) -> Step {
    step(page, rec, extended, st, id, size, j, other_than(id), 0)
}

/// The cursors of a walk that has passed the columns from `j` up to, but
/// without, `end`, if it can pass them.
pub open spec fn passed(
    page: Seq<u8>,
    rec: Record,
    extended: bool,
    columns: Seq<CatalogRow>,
    j: int,
    end: int,
    st: Walk,
) -> Option<Walk>
    decreases end - j,
{
    if j >= end || j < 0 || j >= columns.len() {
        Some(st)
    } else {
        match pass_step(page, rec, extended, st, columns[j].identifier, columns[j].size, j as usize) {
            Step::Next(next) => passed(page, rec, extended, columns, j + 1, end, next),
            Step::Done(_) => None,
        }
    }
}

/// What a cursor remembers of the last column that was read: the row it was
/// read from, the record of that row, and the cursors of the walk behind the
/// column, with which a read of a later column of the same row goes on.
#[derive(Clone, Copy, Debug)]
pub struct LastLoadState {
    valid: bool,
    page: u32,
    tag: usize,
    last_column: u32,
    next: usize,
    rec: Record,
    walk: Walk,
}

impl LastLoadState {
    /// Whether something is remembered.
    pub closed spec fn is_valid(&self) -> bool {
        self.valid
    }

    /// The page of the row that is remembered.
    pub closed spec fn page_number(&self) -> u32 {
        self.page
    }

    /// What is remembered is true of page `page` of a table with these
    /// columns: the record is that of the remembered tag, and the walk has
    /// passed the columns before the remembered place, of which none has an
    /// identifier over the remembered one.
    pub closed spec fn holds(
        &self,
        extended: bool,
        page: Seq<u8>,
        page_flags: u32,
        header_size: int,
        tags: Seq<PageTag>,
        columns: Seq<CatalogRow>,
    ) -> bool {
        &&& self.next <= columns.len()
        &&& self.rec.start <= 0x30000
        &&& self.walk.at <= at_bound(self.next as int)
        &&& walk_entry(extended, page, page_flags, header_size, tags, self.tag) matches Ok(entry)
        &&& entry.0 == self.rec
        &&& passed(page, self.rec, extended, columns, 0, self.next as int, entry.1) == Some(self.walk)
        &&& forall|k: int|
            0 <= k < self.next ==> (#[trigger] columns[k]).identifier <= self.last_column
    }

    /// Nothing remembered.
    pub fn init() -> (r: LastLoadState)
        ensures
            !r.is_valid(),
    {
        LastLoadState {
            valid: false,
            page: 0,
            tag: 0,
            last_column: 0,
            next: 0,
            rec: Record { start: 0, size: 0, last_fixed: 0, last_variable: 0, variable_offset: 0 },
            walk: Walk {
                at: 0,
                variable_id: 0,
                variable_entry: 0,
                variable_value: 0,
                variable_end: 0,
                tagged_start: 0,
                tagged_id: 0,
                tagged_offset: 0,
                tagged_index_left: 0,
                tagged_left: 0,
            },
        }
    }
}

/// The farthest that the cursor of a walk can stand before column `j`.
pub open spec fn at_bound(j: int) -> int {
    0x100000 + j * 0x1_0000_0000
}

fn fetch8(data: &Vec<u8>, at: u128) -> (r: Option<u8>)
    ensures
        r == byte_opt(data@, at as int),
{
    if at < data.len() as u128 {
        get_u8(data, at as usize)
    } else {
        None
    }
}

fn fetch16(data: &Vec<u8>, at: u128) -> (r: Option<u16>)
    ensures
        r == le16_opt(data@, at as int),
{
    if at < data.len() as u128 {
        get_le16(data, at as usize)
    } else {
        None
    }
}

fn fetch32(data: &Vec<u8>, at: u128) -> (r: Option<u32>)
    ensures
        r == le32_opt(data@, at as int),
{
    if at < data.len() as u128 {
        get_le32(data, at as usize)
    } else {
        None
    }
}

/// Finds the record under `tag` and reads its data-definition header.
pub fn read_record(data: &Vec<u8>, header_size: usize, tag: &PageTag, clean: bool) -> (r: Result<
    Record,
    EseError,
>)
    requires
        header_size <= 80,
    ensures
        r == record_of(data@, header_size as int, *tag, clean),
        r matches Ok(rec) ==> rec.start <= 0x30000,
{
    let end: usize = match skip_keys(data, header_size, tag, clean) {
        Some(e) => e,
        None => {
            return Err(EseError::RecordMalformed);
        },
    };
    let used: usize = end - (header_size + tag.offset as usize);
    if used > tag.size as usize || data.len() < 4 || end > data.len() - 4 {
        return Err(EseError::RecordMalformed);
    }
    let variable_offset: u16 = match get_le16(data, end + 2) {
        Some(v) => v,
        None => {
            return Err(EseError::RecordMalformed);
        },
    };
    Ok(
        Record {
            start: end,
            size: (tag.size as usize - used) as u16,
            last_fixed: data[end],
            last_variable: data[end + 1],
            variable_offset,
        },
    )
}

/// Sets the cursors before the first column.
pub fn start_walk(data: &Vec<u8>, rec: &Record) -> (r: Result<Walk, EseError>)
    requires
        rec.start <= 0x30000,
    ensures
        r == walk_start(data@, *rec),
        r matches Ok(st) ==> st.at <= at_bound(0),
{
    let bitmap_size: usize = (rec.last_fixed as usize + 7) / 8;
    let table: usize = rec.start + rec.variable_offset as usize;
    if bitmap_size > 0 && (table > data.len() || bitmap_size > table) {
        return Err(EseError::RecordMalformed);
    }
    let count: u32 = if rec.last_variable > 127 {
        (rec.last_variable - 127) as u32
    } else {
        0
    };
    let value: u32 = rec.variable_offset as u32 + 2 * count;
    if value > 0xffff {
        return Err(EseError::RecordMalformed);
    }
    Ok(
        Walk {
            at: (rec.start + 4) as u128,
            variable_id: 127,
            variable_entry: rec.variable_offset,
            variable_value: value as u16,
            variable_end: 0,
            tagged_start: 0,
            tagged_id: 0,
            tagged_offset: 0,
            tagged_index_left: 0,
            tagged_left: 0,
        },
    )
}

/// Looks the fixed column at place `j` up in the bitmap of empty columns.
pub fn is_fixed_null(data: &Vec<u8>, rec: &Record, j: usize) -> (r: Result<bool, EseError>)
    requires
        rec.start <= 0x30000,
        walk_start(data@, *rec) is Ok,
    ensures
        r == fixed_is_null(data@, *rec, j),
{
    let bitmap_size: usize = (rec.last_fixed as usize + 7) / 8;
    if bitmap_size == 0 {
        return Ok(false);
    }
    if j / 8 >= bitmap_size {
        return Err(EseError::RecordMalformed);
    }
    let at: usize = rec.start + rec.variable_offset as usize - bitmap_size + j / 8;
    let bit: u8 = (j % 8) as u8;
    Ok(data[at] & (1u8 << bit) != 0)
}

/// The step of a column with an identifier up to 127.
pub fn do_fixed_step(
    data: &Vec<u8>,
    rec: &Record,
    st: Walk,
    id: u32,
    size: u32,
    j: usize,
    target: u32,
) -> (r: Step)
    requires
        rec.start <= 0x30000,
        walk_start(data@, *rec) is Ok,
        st.at <= at_bound(j as int),
    ensures
        r == fixed_step(data@, *rec, st, id, size, j, target),
        r matches Step::Next(n) ==> n.at <= at_bound(j + 1),
{
    if id <= rec.last_fixed as u32 {
        if id == target {
            match is_fixed_null(data, rec, j) {
                Err(e) => Step::Done(Err(e)),
                Ok(true) => Step::Done(Ok(Located::Absent)),
                Ok(false) => Step::Done(Ok(Located::Plain { at: st.at, size })),
            }
        } else {
            assert(at_bound(j as int) + 0xffff_ffff <= at_bound(j + 1)) by (nonlinear_arith);
            assert(at_bound(j + 1) <= 0x100000 + 0x1_0000_0000_0000_0000 * 0x1_0000_0000)
                by (nonlinear_arith)
                requires
                    j + 1 <= 0x1_0000_0000_0000_0000,
            ;
            Step::Next(Walk { at: st.at + size as u128, ..st })
        }
    } else if id == target {
        Step::Done(Ok(Located::Absent))
    } else {
        assert(at_bound(j as int) <= at_bound(j + 1)) by (nonlinear_arith);
        Step::Next(st)
    }
}

/// Reads the sizes of the variable columns up to the one of column `id`.
pub fn do_variable_walk(data: &Vec<u8>, rec: &Record, st: Walk, id: u32, target: u32) -> (r: Step)
    requires
        rec.start <= 0x30000,
    ensures
        r == variable_walk(data@, *rec, st, id, target),
        r matches Step::Next(n) ==> n.at == st.at,
{
    let mut cur = st;
    while cur.variable_id < id
        invariant
            rec.start <= 0x30000,
            cur.at == st.at,
            variable_walk(data@, *rec, st, id, target) == variable_walk(
                data@,
                *rec,
                cur,
                id,
                target,
            ),
        decreases id - cur.variable_id,
    {
        let end: u16 = match fetch16(data, (rec.start + cur.variable_entry as usize) as u128) {
            Some(v) => v,
            None => {
                return Step::Done(Err(EseError::RecordMalformed));
            },
        };
        if cur.variable_entry > 0xffff - 2 {
            return Step::Done(Err(EseError::RecordMalformed));
        }
        let read = Walk {
            variable_entry: cur.variable_entry + 2,
            variable_id: cur.variable_id + 1,
            ..cur
        };
        if read.variable_id == id && end & 0x8000 == 0 {
            if end < cur.variable_end {
                return Step::Done(Err(EseError::RecordMalformed));
            }
            let length: u16 = end - cur.variable_end;
            if id == target {
                return Step::Done(
                    Ok(
                        Located::Plain {
                            at: (rec.start + cur.variable_value as usize) as u128,
                            size: length as u32,
                        },
                    ),
                );
            }
            if cur.variable_value > 0xffff - length {
                return Step::Done(Err(EseError::RecordMalformed));
            }
            let taken = Walk {
                variable_value: cur.variable_value + length,
                variable_end: end,
                ..read
            };
            if taken.variable_id >= rec.last_variable as u32 {
                return Step::Next(taken);
            }
            cur = taken;
        } else {
            if read.variable_id >= rec.last_variable as u32 {
                return Step::Next(read);
            }
            cur = read;
        }
    }
    Step::Next(cur)
}

/// Reads the next pair of the tagged index.
pub fn read_next_pair(data: &Vec<u8>, st: Walk, first: bool) -> (r: Result<Walk, EseError>)
    requires
        st.at <= u128::MAX - 4,
    ensures
        r == next_pair(data@, st, first),
        r matches Ok(n) ==> n.at == st.at + 4,
{
    let id: u16 = match fetch16(data, st.at) {
        Some(v) => v,
        None => {
            return Err(EseError::RecordMalformed);
        },
    };
    let offset: u16 = match fetch16(data, st.at + 2) {
        Some(v) => v,
        None => {
            return Err(EseError::RecordMalformed);
        },
    };
    if first && offset == 0 {
        return Err(EseError::RecordMalformed);
    }
    let index_size: u16 = if first {
        offset & 0x3fff
    } else {
        st.tagged_index_left
    };
    if index_size < 4 || st.tagged_left < 4 {
        return Err(EseError::RecordMalformed);
    }
    Ok(
        Walk {
            at: st.at + 4,
            tagged_id: id,
            tagged_offset: offset,
            tagged_index_left: index_size - 4,
            tagged_left: st.tagged_left - 4,
            ..st
        },
    )
}

/// Enters the tagged area on the first tagged column.
pub fn enter_tagged(data: &Vec<u8>, rec: &Record, st: Walk) -> (r: Result<Walk, EseError>)
    requires
        rec.start <= 0x30000,
    ensures
        r == tagged_enter(data@, *rec, st),
        r matches Ok(n) ==> n.at == st.at || n.at <= 0x50000,
{
    if st.tagged_start != 0 {
        return Ok(st);
    }
    if rec.size < st.variable_value {
        return Err(EseError::RecordMalformed);
    }
    let entered = Walk {
        tagged_start: st.variable_value,
        tagged_left: rec.size - st.variable_value,
        at: (rec.start + st.variable_value as usize) as u128,
        ..st
    };
    if entered.tagged_left > 0 {
        read_next_pair(data, entered, true)
    } else {
        Ok(entered)
    }
}

/// Reads the values of a multi-valued payload.
pub fn read_mv_entries(data: &Vec<u8>, at: u128, size: u16, flags: u8) -> (r: Result<
    Vec<MvEntry>,
    EseError,
>)
    requires
        at <= 0x100_0000,
    ensures
        match r {
            Ok(v) => mv_entries(data@, at as int, size, flags) == Ok::<Seq<MvEntry>, EseError>(v@)
                && v@.len() >= 1,
            Err(e) => mv_entries(data@, at as int, size, flags) == Err::<Seq<MvEntry>, EseError>(
                e,
            ),
        },
{
    let mut entries: Vec<MvEntry> = Vec::new();
    if flags & TAGGED_MULTI_VALUE_OFFSET != 0 {
        let first: u8 = match fetch8(data, at) {
            Some(v) => v,
            None => {
                return Err(EseError::RecordMalformed);
            },
        };
        if size < first as u16 + 1 {
            return Err(EseError::RecordMalformed);
        }
        entries.push(MvEntry { shift: 1, long_value: false, size: first as u16 });
        entries.push(
            MvEntry { shift: first as u16 + 1, long_value: false, size: size - first as u16 - 1 },
        );
        assert(entries@ =~= seq![
            MvEntry { shift: 1, long_value: false, size: first as u16 },
            MvEntry {
                shift: (first + 1) as u16,
                long_value: false,
                size: (size - first - 1) as u16,
            },
        ]);
        return Ok(entries);
    }
    let word: u16 = match fetch16(data, at) {
        Some(v) => v,
        None => {
            return Err(EseError::RecordMalformed);
        },
    };
    let mut begin: u16 = word & 0x7fff;
    let mut long_value: bool = word & 0x8000 != 0;
    let count: u16 = begin / 2;
    let mut i: u16 = 1;
    while i < count
        invariant
            at <= 0x100_0000,
            1 <= i,
            mv_entries(data@, at as int, size, flags) == mv_table(
                data@,
                at as int,
                size,
                i as int,
                count as int,
                begin,
                long_value,
                entries@,
            ),
        decreases count - i,
    {
        let next: u16 = match fetch16(data, at + 2 * (i as u128)) {
            Some(v) => v,
            None => {
                return Err(EseError::RecordMalformed);
            },
        };
        let offset: u16 = next & 0x7fff;
        if offset < begin {
            return Err(EseError::RecordMalformed);
        }
        entries.push(MvEntry { shift: begin, long_value, size: offset - begin });
        long_value = next & 0x8000 != 0;
        begin = offset;
        i += 1;
    }
    if size < begin {
        return Err(EseError::RecordMalformed);
    }
    entries.push(MvEntry { shift: begin, long_value, size: size - begin });
    Ok(entries)
}

/// Says what a tagged value stands for under its flags.
pub fn read_payload(data: &Vec<u8>, at: u128, size: u16, flags: u8, mv: usize) -> (r: Result<
    Located,
    EseError,
>)
    requires
        at <= 0x100_0000,
    ensures
        r == payload(data@, at, size, flags, mv),
{
    if flags & TAGGED_LONG_VALUE != 0 {
        match fetch32(data, at) {
            None => Err(EseError::RecordMalformed),
            Some(key) => Ok(Located::LongValue { key }),
        }
    } else if flags & (TAGGED_MULTI_VALUE | TAGGED_MULTI_VALUE_OFFSET) != 0 {
        match read_mv_entries(data, at, size, flags) {
            Err(e) => Err(e),
            Ok(entries) => {
                let pick: usize = if mv > 0 && mv - 1 < entries.len() {
                    mv - 1
                } else {
                    0
                };
                let entry = entries[pick];
                if entry.long_value {
                    match fetch32(data, at + entry.shift as u128) {
                        None => Err(EseError::RecordMalformed),
                        Some(key) => Ok(Located::LongValue { key }),
                    }
                } else {
                    Ok(Located::Plain { at: at + entry.shift as u128, size: entry.size as u32 })
                }
            },
        }
    } else if flags & TAGGED_COMPRESSED != 0 {
        Ok(Located::Packed { at, size: size as u32 })
    } else {
        Ok(Located::Plain { at, size: size as u32 })
    }
}

/// The step of a tagged column that the tagged index waits for.
pub fn take_tagged(
    data: &Vec<u8>,
    rec: &Record,
    extended: bool,
    st: Walk,
    id: u32,
    target: u32,
    mv: usize,
) -> (r: Step)
    requires
        rec.start <= 0x30000,
        st.at <= u128::MAX - 4,
    ensures
        r == tagged_take(data@, *rec, extended, st, id, target, mv),
        r matches Step::Next(n) ==> n.at <= st.at + 4,
{
    let previous: u16 = st.tagged_offset;
    let read = if st.tagged_index_left > 0 {
        read_next_pair(data, st, false)
    } else {
        Ok(st)
    };
    let st = match read {
        Err(e) => {
            return Step::Done(Err(e));
        },
        Ok(n) => n,
    };
    let mask: u16 = if extended {
        0x7fff
    } else {
        0x3fff
    };
    let from: u16 = previous & mask;
    let to: u16 = st.tagged_offset & mask;
    let whole: u16 = if to > from {
        to - from
    } else {
        st.tagged_left
    };
    let flagged: bool = extended || previous & 0x4000 != 0;
    if st.tagged_start > 0xffff - from {
        return Step::Done(Err(EseError::RecordMalformed));
    }
    if whole == 0 {
        return Step::Next(st);
    }
    if st.tagged_left < whole {
        return Step::Done(Err(EseError::RecordMalformed));
    }
    let taken = Walk { tagged_left: st.tagged_left - whole, ..st };
    let value: u16 = st.tagged_start + from;
    if !flagged {
        if id == target {
            Step::Done(read_payload(data, (rec.start + value as usize) as u128, whole, 0, mv))
        } else {
            Step::Next(taken)
        }
    } else {
        match fetch8(data, (rec.start + value as usize) as u128) {
            None => Step::Done(Err(EseError::RecordMalformed)),
            Some(flags) => if value > 0xffff - 1 {
                Step::Done(Err(EseError::RecordMalformed))
            } else if whole > 1 && id == target {
                Step::Done(
                    read_payload(
                        data,
                        (rec.start + value as usize + 1) as u128,
                        whole - 1,
                        flags,
                        mv,
                    ),
                )
            } else {
                Step::Next(taken)
            },
        }
    }
}

/// The step of a column behind the variable ones.
pub fn do_tagged_step(
    data: &Vec<u8>,
    rec: &Record,
    extended: bool,
    st: Walk,
    id: u32,
    target: u32,
    mv: usize,
) -> (r: Step)
    requires
        rec.start <= 0x30000,
        st.at <= u128::MAX - 8,
    ensures
        r == tagged_step(data@, *rec, extended, st, id, target, mv),
        r matches Step::Next(n) ==> n.at <= st.at + 4 || n.at <= 0x50004,
{
    match enter_tagged(data, rec, st) {
        Err(e) => Step::Done(Err(e)),
        Ok(entered) => if entered.tagged_left > 0 && id == entered.tagged_id as u32 {
            take_tagged(data, rec, extended, entered, id, target, mv)
        } else {
            Step::Next(entered)
        },
    }
}

/// The step of column `j` of the table.
pub fn do_step(
    data: &Vec<u8>,
    rec: &Record,
    extended: bool,
    st: Walk,
    id: u32,
    size: u32,
    j: usize,
    target: u32,
    mv: usize,
) -> (r: Step)
    requires
        rec.start <= 0x30000,
        walk_start(data@, *rec) is Ok,
        st.at <= at_bound(j as int),
    ensures
        r == step(data@, *rec, extended, st, id, size, j, target, mv),
        r matches Step::Next(n) ==> n.at <= at_bound(j + 1),
{
    reveal(step);
    assert(at_bound(j as int) + 0xffff_ffff <= at_bound(j + 1)) by (nonlinear_arith);
    assert(at_bound(j + 1) <= 0x100000 + 0x1_0000_0000_0000_0000 * 0x1_0000_0000)
        by (nonlinear_arith)
        requires
            j + 1 <= 0x1_0000_0000_0000_0000,
    ;
    assert(0x50004 <= at_bound(j + 1)) by (nonlinear_arith)
        requires
            j >= 0,
    ;
    if id <= 127 {
        do_fixed_step(data, rec, st, id, size, j, target)
    } else {
        let taken = if st.variable_id < rec.last_variable as u32 {
            do_variable_walk(data, rec, st, id, target)
        } else {
            do_tagged_step(data, rec, extended, st, id, target, mv)
        };
        match taken {
            Step::Done(r) => Step::Done(r),
            Step::Next(next) => if id == target {
                Step::Done(Ok(Located::Missing { column: j }))
            } else {
                Step::Next(next)
            },
        }
    }
}

proof fn lemma_variable_walk_passes(
    page: Seq<u8>,
    rec: Record,
    st: Walk,
    id: u32,
    one: u32,
    other: u32,
)
    requires
        id != one,
        id != other,
    ensures
        variable_walk(page, rec, st, id, one) == variable_walk(page, rec, st, id, other),
    decreases id - st.variable_id,
{
    if st.variable_id < id {
        if let Some(end) = le16_opt(page, rec.start + st.variable_entry) {
            if st.variable_entry + 2 <= 0xffff {
                let read = Walk {
                    variable_entry: (st.variable_entry + 2) as u16,
                    variable_id: (st.variable_id + 1) as u32,
                    ..st
                };
                if read.variable_id == id && end & 0x8000 == 0 {
                    if end >= st.variable_end && st.variable_value + (end - st.variable_end)
                        <= 0xffff {
                        let taken = Walk {
                            variable_value: (st.variable_value + (end - st.variable_end)) as u16,
                            variable_end: end,
                            ..read
                        };
                        if taken.variable_id < rec.last_variable {
                            lemma_variable_walk_passes(page, rec, taken, id, one, other);
                        }
                    }
                } else if read.variable_id < rec.last_variable {
                    lemma_variable_walk_passes(page, rec, read, id, one, other);
                }
            }
        }
    }
}

/// A column does the same to every walk that looks for another column.
pub proof fn lemma_step_passes(
    page: Seq<u8>,
    rec: Record,
    extended: bool,
    st: Walk,
    id: u32,
    size: u32,
    j: usize,
    target: u32,
    mv: usize,
)
    requires
        id != target,
    ensures
        step(page, rec, extended, st, id, size, j, target, mv) == pass_step(
            page,
            rec,
            extended,
            st,
            id,
            size,
            j,
        ),
{
    reveal(step);
    lemma_variable_walk_passes(page, rec, st, id, target, other_than(id));
}

/// A walk that has passed columns without the one it looks for goes on
/// behind them as it would from the start.
pub proof fn lemma_resume(
    page: Seq<u8>,
    rec: Record,
    extended: bool,
    columns: Seq<CatalogRow>,
    j: int,
    end: int,
    st: Walk,
    target: u32,
    mv: usize,
)
    requires
        0 <= j <= end <= columns.len(),
        passed(page, rec, extended, columns, j, end, st) is Some,
        forall|k: int| j <= k < end ==> (#[trigger] columns[k]).identifier != target,
    ensures
        walk(page, rec, extended, columns, j, st, target, mv) == walk(
            page,
            rec,
            extended,
            columns,
            end,
            passed(page, rec, extended, columns, j, end, st)->Some_0,
            target,
            mv,
        ),
    decreases end - j,
{
    if j < end {
        lemma_step_passes(
            page,
            rec,
            extended,
            st,
            columns[j].identifier,
            columns[j].size,
            j as usize,
            target,
            mv,
        );
        let s = pass_step(
            page,
            rec,
            extended,
            st,
            columns[j].identifier,
            columns[j].size,
            j as usize,
        );
        if let Step::Next(next) = s {
            lemma_resume(page, rec, extended, columns, j + 1, end, next, target, mv);
        }
    }
}

/// A walk that has passed some columns and passes the next has passed one more.
pub proof fn lemma_pass_on(
    page: Seq<u8>,
    rec: Record,
    extended: bool,
    columns: Seq<CatalogRow>,
    j: int,
    end: int,
    st: Walk,
)
    requires
        0 <= j <= end < columns.len(),
        passed(page, rec, extended, columns, j, end, st) is Some,
        pass_step(
            page,
            rec,
            extended,
            passed(page, rec, extended, columns, j, end, st)->Some_0,
            columns[end].identifier,
            columns[end].size,
            end as usize,
        ) is Next,
    ensures
        passed(page, rec, extended, columns, j, end + 1, st) == Some(
            pass_step(
                page,
                rec,
                extended,
                passed(page, rec, extended, columns, j, end, st)->Some_0,
                columns[end].identifier,
                columns[end].size,
                end as usize,
            )->Next_0,
        ),
    decreases end - j,
{
    if j < end {
        let s = pass_step(
            page,
            rec,
            extended,
            st,
            columns[j].identifier,
            columns[j].size,
            j as usize,
        );
        if let Step::Next(next) = s {
            lemma_pass_on(page, rec, extended, columns, j + 1, end, next);
        }
    } else {
        let s = pass_step(
            page,
            rec,
            extended,
            st,
            columns[end].identifier,
            columns[end].size,
            end as usize,
        );
        assert(passed(page, rec, extended, columns, end + 1, end + 1, s->Next_0) == Some(
            s->Next_0,
        ));
    }
}

/// Checks the page, finds the record under tag `page_tag_index` and sets
/// the cursors before its first column.
pub fn enter_record(reader: &Reader, db_page: &DbPage, page_tag_index: usize) -> (r: Result<
    (Record, Walk),
    EseError,
>)
    requires
        reader.wf(),
        db_page.wf(reader.spec_format_revision(), reader.spec_page_size()),
    ensures
        r == walk_entry(
            db_of(reader).extended(),
            db_page.bytes(),
            db_page.spec_flags(),
            db_page.spec_size(),
            db_page.tags(),
            page_tag_index,
        ),
        r matches Ok(entry) ==> entry.0.start <= 0x30000 && entry.1.at <= at_bound(0),
{
    let pg_tags = db_page.page_tags();
    let data = db_page.data();
    let extended: bool = reader.format_revision() >= 0x11 && reader.page_size() >= 16384;
    if db_page.flags() & PAGE_IS_ROOT != 0 {
        if pg_tags.len() == 0 {
            return Err(EseError::RecordMalformed);
        }
        match load_root_page_header(reader, db_page, &pg_tags[0]) {
            Ok(_) => {},
            Err(_) => {
                return Err(EseError::RecordMalformed);
            },
        }
    }
    if !db_page.is_leaf() {
        return Err(EseError::PageFlagsUnexpected);
    }
    if page_tag_index == 0 || page_tag_index >= pg_tags.len() {
        return Err(EseError::RecordMalformed);
    }
    let rec = match read_record(data, db_page.size(), &pg_tags[page_tag_index], extended) {
        Ok(rec) => rec,
        Err(e) => {
            return Err(e);
        },
    };
    match start_walk(data, &rec) {
        Ok(st) => Ok((rec, st)),
        Err(e) => Err(e),
    }
}

/// Where a walk can be taken up again: the place of the next column, the
/// cursors there, and the greatest identifier of the columns before it.
#[derive(Clone, Copy, Debug)]
pub struct Resume {
    pub next: usize,
    pub walk: Walk,
    pub seen: u32,
}

/// Walks over the columns of the table from column `from` on, and says
/// besides what it found where the walk can be taken up behind the column
/// that ended it.
pub fn walk_from(
    data: &Vec<u8>,
    rec: &Record,
    extended: bool,
    tbl_def: &TableDefinition,
    from: Resume,
    column_id: u32,
    multi_value_index: usize,
) -> (r: (Result<Located, EseError>, Option<Resume>))
    requires
        rec.start <= 0x30000,
        walk_start(data@, *rec) is Ok,
        from.next <= tbl_def@.columns.len(),
        from.walk.at <= at_bound(from.next as int),
        forall|k: int| 0 <= k < from.next ==> (#[trigger] tbl_def@.columns[k]).identifier <= from.seen,
    ensures
        r.0 == walk(
            data@,
            *rec,
            extended,
            tbl_def@.columns,
            from.next as int,
            from.walk,
            column_id,
            multi_value_index,
        ),
        r.1 matches Some(to) ==> {
            &&& from.next <= to.next <= tbl_def@.columns.len()
            &&& to.walk.at <= at_bound(to.next as int)
            &&& passed(
                data@,
                *rec,
                extended,
                tbl_def@.columns,
                from.next as int,
                to.next as int,
                from.walk,
            ) == Some(to.walk)
            &&& forall|k: int|
                0 <= k < to.next ==> (#[trigger] tbl_def@.columns[k]).identifier <= to.seen
        },
{
    let columns = &tbl_def.column_catalog_definition_array;
    let ghost rows = tbl_def@.columns;
    let mut st = from.walk;
    let mut seen: u32 = from.seen;
    let mut j: usize = from.next;
    while j < columns.len()
        invariant
            from.next <= j <= columns.len(),
            rows == tbl_def@.columns,
            rows.len() == columns@.len(),
            forall|k: int| 0 <= k < columns@.len() ==> rows[k] == columns@[k]@,
            rec.start <= 0x30000,
            walk_start(data@, *rec) is Ok,
            st.at <= at_bound(j as int),
            forall|k: int| 0 <= k < j ==> (#[trigger] rows[k]).identifier <= seen,
            passed(data@, *rec, extended, rows, from.next as int, j as int, from.walk) == Some(st),
            walk(
                data@,
                *rec,
                extended,
                rows,
                from.next as int,
                from.walk,
                column_id,
                multi_value_index,
            ) == walk(data@, *rec, extended, rows, j as int, st, column_id, multi_value_index),
        decreases columns.len() - j,
    {
        let col = &columns[j];
        let id: u32 = col.identifier;
        assert(rows[j as int] == col@);
        let other: u32 = if id == 0 {
            1
        } else {
            0
        };
        let wider: u32 = if id > seen {
            id
        } else {
            seen
        };
        proof {
            lemma_step(data@, *rec, extended, st, id, col.size, j, column_id, multi_value_index);
        }
        match do_step(data, rec, extended, st, id, col.size, j, column_id, multi_value_index) {
            Step::Done(r) => {
                let behind = match do_step(data, rec, extended, st, id, col.size, j, other, 0) {
                    Step::Next(next) => {
                        proof {
                            lemma_pass_on(
                                data@,
                                *rec,
                                extended,
                                rows,
                                from.next as int,
                                j as int,
                                from.walk,
                            );
                        }
                        Some(Resume { next: j + 1, walk: next, seen: wider })
                    },
                    Step::Done(_) => None,
                };
                return (r, behind);
            },
            Step::Next(next) => {
                proof {
                    lemma_step_passes(
                        data@,
                        *rec,
                        extended,
                        st,
                        id,
                        col.size,
                        j,
                        column_id,
                        multi_value_index,
                    );
                    lemma_pass_on(
                        data@,
                        *rec,
                        extended,
                        rows,
                        from.next as int,
                        j as int,
                        from.walk,
                    );
                }
                st = next;
                seen = wider;
            },
        }
        j += 1;
    }
    (Err(EseError::ColumnNotFound), None)
}

/// Finds where the value of column `column_id` lies in the record under tag
/// `page_tag_index` of `db_page`, by a walk over the columns of the table.
pub fn locate_column(
    reader: &Reader,
    tbl_def: &TableDefinition,
    db_page: &DbPage,
    page_tag_index: usize,
    column_id: u32,
    multi_value_index: usize,
) -> (r: Result<Located, EseError>)
    requires
        reader.wf(),
        db_page.wf(reader.spec_format_revision(), reader.spec_page_size()),
    ensures
        r == located(
            db_of(reader).extended(),
            db_page.bytes(),
            db_page.spec_flags(),
            db_page.spec_size(),
            db_page.tags(),
            tbl_def@.columns,
            page_tag_index,
            column_id,
            multi_value_index,
        ),
{
    let extended: bool = reader.format_revision() >= 0x11 && reader.page_size() >= 16384;
    match enter_record(reader, db_page, page_tag_index) {
        Err(e) => Err(e),
        Ok(entry) => walk_from(
            db_page.data(),
            &entry.0,
            extended,
            tbl_def,
            Resume { next: 0, walk: entry.1, seen: 0 },
            column_id,
            multi_value_index,
        ).0,
    }
}

impl LastLoadState {
    /// Whether what is remembered serves a read of column `column` in the
    /// row under tag `tag` of page `page`: it is remembered of that row, and
    /// of a column with a smaller identifier.
    pub fn usable(&self, page: u32, tag: usize, column: u32) -> (r: bool)
        ensures
            r == self.serves(page, tag, column),
    {
        self.valid && self.page == page && self.tag == tag && column > self.last_column
    }

    /// Whether what is remembered serves such a read.
    pub closed spec fn serves(&self, page: u32, tag: usize, column: u32) -> bool {
        self.valid && self.page == page && self.tag == tag && column > self.last_column
    }

    /// Forgets what is remembered.
    pub fn reset(&mut self)
        ensures
            !final(self).is_valid(),
    {
        self.valid = false;
    }
}

/// Finds where the value of column `column_id` lies in the record under tag
/// `page_tag_index` of `db_page`. Where `lls` remembers the walk of an
/// earlier column of the same row, the walk goes on from there; what is
/// remembered afterwards is of this row.
pub fn locate_column_from(
    lls: &mut LastLoadState,
    reader: &Reader,
    tbl_def: &TableDefinition,
    db_page: &DbPage,
    page_tag_index: usize,
    column_id: u32,
    multi_value_index: usize,
) -> (r: Result<Located, EseError>)
    requires
        reader.wf(),
        db_page.wf(reader.spec_format_revision(), reader.spec_page_size()),
        old(lls).is_valid() && old(lls).page_number() == db_page.number() ==> old(lls).holds(
            db_of(reader).extended(),
            db_page.bytes(),
            db_page.spec_flags(),
            db_page.spec_size(),
            db_page.tags(),
            tbl_def@.columns,
        ),
    ensures
        r == located(
            db_of(reader).extended(),
            db_page.bytes(),
            db_page.spec_flags(),
            db_page.spec_size(),
            db_page.tags(),
            tbl_def@.columns,
            page_tag_index,
            column_id,
            multi_value_index,
        ),
        final(lls).is_valid() ==> final(lls).page_number() == db_page.number() && final(lls).holds(
            db_of(reader).extended(),
            db_page.bytes(),
            db_page.spec_flags(),
            db_page.spec_size(),
            db_page.tags(),
            tbl_def@.columns,
        ),
{
    let extended: bool = reader.format_revision() >= 0x11 && reader.page_size() >= 16384;
    let data = db_page.data();
    let ghost rows = tbl_def@.columns;
    let ghost entry = walk_entry(
        extended,
        db_page.bytes(),
        db_page.spec_flags(),
        db_page.spec_size(),
        db_page.tags(),
        page_tag_index,
    );
    let resumed: bool = lls.usable(db_page.page_number(), page_tag_index, column_id);
    let (rec, from) = if resumed {
        proof {
            lemma_resume(
                data@,
                lls.rec,
                extended,
                rows,
                0,
                lls.next as int,
                entry->Ok_0.1,
                column_id,
                multi_value_index,
            );
        }
        (lls.rec, Resume { next: lls.next, walk: lls.walk, seen: lls.last_column })
    } else {
        match enter_record(reader, db_page, page_tag_index) {
            Err(e) => {
                lls.valid = false;
                return Err(e);
            },
            Ok(entry) => (entry.0, Resume { next: 0, walk: entry.1, seen: 0 }),
        }
    };
    let out = walk_from(data, &rec, extended, tbl_def, from, column_id, multi_value_index);
    match out.1 {
        Some(to) => {
            proof {
                lemma_passed_join(
                    data@,
                    rec,
                    extended,
                    rows,
                    0,
                    from.next as int,
                    to.next as int,
                    entry->Ok_0.1,
                );
            }
            *lls = LastLoadState {
                valid: true,
                page: db_page.page_number(),
                tag: page_tag_index,
                last_column: to.seen,
                next: to.next,
                rec,
                walk: to.walk,
            };
        },
        None => {
            lls.valid = false;
        },
    }
    out.0
}

/// A walk that has passed the columns up to a place, and from there the
/// columns up to a second place, has passed the columns up to the second.
pub proof fn lemma_passed_join(
    page: Seq<u8>,
    rec: Record,
    extended: bool,
    columns: Seq<CatalogRow>,
    j: int,
    middle: int,
    end: int,
    st: Walk,
)
    requires
        0 <= j <= middle <= end <= columns.len(),
        passed(page, rec, extended, columns, j, middle, st) is Some,
    ensures
        passed(page, rec, extended, columns, j, end, st) == passed(
            page,
            rec,
            extended,
            columns,
            middle,
            end,
            passed(page, rec, extended, columns, j, middle, st)->Some_0,
        ),
    decreases middle - j,
{
    if j < middle {
        let s = pass_step(
            page,
            rec,
            extended,
            st,
            columns[j].identifier,
            columns[j].size,
            j as usize,
        );
        if let Step::Next(next) = s {
            lemma_passed_join(page, rec, extended, columns, j + 1, middle, end, next);
        }
    }
}

/// Whether `r` is the value `bytes`.
pub open spec fn is_value(r: Result<Option<Vec<u8>>, EseError>, bytes: Seq<u8>) -> bool {
    r matches Ok(Some(v)) && v@ == bytes
}

/// What a decompressor's answer becomes: its bytes, or a malformed record
/// where it gives none.
pub open spec fn unpacked(out: Option<Vec<u8>>) -> Result<Option<Vec<u8>>, EseError> {
    match out {
        Some(v) => Ok(Some(v)),
        None => Err(EseError::RecordMalformed),
    }
}

/// Whether `r` is what a column yields whose value was located as `loc`: the
/// bytes in the page, the long value put together from `segments`, the
/// default of the column where the record has none and the default is not
/// empty, or what `decompress` made of the compressed bytes.
pub open spec fn yields<D: Fn(Vec<u8>) -> Option<Vec<u8>>>(
    db: Db,
    segments: Seq<Segment>,
    page: Seq<u8>,
    columns: Seq<CatalogRow>,
    loc: Result<Located, EseError>,
    decompress: &D,
    r: Result<Option<Vec<u8>>, EseError>,
) -> bool {
    match loc {
        Err(e) => r == Err::<Option<Vec<u8>>, EseError>(e),
        Ok(Located::Absent) => r == Ok::<Option<Vec<u8>>, EseError>(None),
        Ok(Located::Missing { column }) => if column < columns.len()
            && columns[column as int].default_value.len() > 0 {
            is_value(r, columns[column as int].default_value)
        } else {
            r == Ok::<Option<Vec<u8>>, EseError>(None)
        },
        Ok(Located::Plain { at, size }) => match bytes_opt(page, at as int, size as int) {
            None => r == Err::<Option<Vec<u8>>, EseError>(EseError::RecordMalformed),
            Some(b) => is_value(r, b),
        },
        Ok(Located::LongValue { key }) => match lv_value(db, segments, key) {
            Err(e) => r == Err::<Option<Vec<u8>>, EseError>(e),
            Ok(b) => is_value(r, b),
        },
        Ok(Located::Packed { at, size }) => match bytes_opt(page, at as int, size as int) {
            None => r == Err::<Option<Vec<u8>>, EseError>(EseError::RecordMalformed),
            Some(b) => exists|input: Vec<u8>, out: Option<Vec<u8>>|
                input@ == b && call_ensures(*decompress, (input,), out) && r == unpacked(out),
        },
    }
}

fn fetch_bytes(data: &Vec<u8>, at: u128, size: u32) -> (r: Option<Vec<u8>>)
    ensures
        match r {
            Some(v) => bytes_opt(data@, at as int, size as int) == Some(v@),
            None => bytes_opt(data@, at as int, size as int) is None,
        },
{
    if at <= data.len() as u128 {
        get_bytes(data, at as usize, size as usize)
    } else {
        None
    }
}

/// The value of column `column_id` in the record under tag `page_tag_index`
/// of the leaf `db_page`; of a column with several values the one that
/// `multi_value_index` asks for, where 0 and 1 both mean the first.
/// `decompress` is called on the bytes of a compressed value. `lls` is what
/// the cursor remembers of the last read; it saves the walk over the columns
/// before a column that follows the last one read of the same row.
pub fn load_data<D: Fn(Vec<u8>) -> Option<Vec<u8>>>(
    lls: &mut LastLoadState,
    reader: &mut Reader,
    tbl_def: &TableDefinition,
    lv_tags: &Vec<LV_tags>,
    db_page: &DbPage,
    page_tag_index: usize,
    column_id: u32,
    multi_value_index: usize,
    decompress: &D,
) -> (r: Result<Option<Vec<u8>>, EseError>)
    requires
        old(reader).wf(),
        db_page.wf(old(reader).spec_format_revision(), old(reader).spec_page_size()),
        forall|v: Vec<u8>| call_requires(*decompress, (v,)),
        old(lls).is_valid() && old(lls).page_number() == db_page.number() ==> old(lls).holds(
            db_of(old(reader)).extended(),
            db_page.bytes(),
            db_page.spec_flags(),
            db_page.spec_size(),
            db_page.tags(),
            tbl_def@.columns,
        ),
    ensures
        final(reader).wf(),
        final(reader).same_file(old(reader)),
        final(lls).is_valid() ==> final(lls).page_number() == db_page.number() && final(lls).holds(
            db_of(old(reader)).extended(),
            db_page.bytes(),
            db_page.spec_flags(),
            db_page.spec_size(),
            db_page.tags(),
            tbl_def@.columns,
        ),
        yields(
            db_of(old(reader)),
            segments_of(lv_tags@),
            db_page.bytes(),
            tbl_def@.columns,
            located(
                db_of(old(reader)).extended(),
                db_page.bytes(),
                db_page.spec_flags(),
                db_page.spec_size(),
                db_page.tags(),
                tbl_def@.columns,
                page_tag_index,
                column_id,
                multi_value_index,
            ),
            decompress,
            r,
        ),
{
    let loc = locate_column_from(
        lls,
        reader,
        tbl_def,
        db_page,
        page_tag_index,
        column_id,
        multi_value_index,
    );
    let data = db_page.data();
    match loc {
        Err(e) => Err(e),
        Ok(Located::Absent) => Ok(None),
        Ok(Located::Missing { column }) => {
            let columns = &tbl_def.column_catalog_definition_array;
            if column < columns.len() && columns[column].default_value.len() > 0 {
                assert(tbl_def@.columns[column as int] == columns@[column as int]@);
                let default = &columns[column].default_value;
                match get_bytes(default, 0, default.len()) {
                    Some(v) => {
                        assert(v@ == default@);
                        Ok(Some(v))
                    },
                    None => Ok(None),
                }
            } else {
                proof {
                    if column < columns.len() {
                        assert(tbl_def@.columns[column as int] == columns@[column as int]@);
                    }
                }
                Ok(None)
            }
        },
        Ok(Located::Plain { at, size }) => match fetch_bytes(data, at, size) {
            Some(v) => Ok(Some(v)),
            None => Err(EseError::RecordMalformed),
        },
        Ok(Located::LongValue { key }) => match load_lv_data(reader, lv_tags, key) {
            Ok(v) => Ok(Some(v)),
            Err(e) => Err(e),
        },
        Ok(Located::Packed { at, size }) => match fetch_bytes(data, at, size) {
            Some(v) => {
                let ghost input = v;
                let out = decompress(v);
                assert(call_ensures(*decompress, (input,), out));
                match out {
                    Some(b) => Ok(Some(b)),
                    None => Err(EseError::RecordMalformed),
                }
            },
            None => Err(EseError::RecordMalformed),
        },
    }
}


/// Whether a search ended with a value or an empty column, or on a malformed record.
pub open spec fn found_or_malformed(r: Result<Located, EseError>) -> bool {
    r is Ok || r == Err::<Located, EseError>(EseError::RecordMalformed)
}

/// Whether a step hands the walk on, or ends it as `found_or_malformed` says.
pub open spec fn step_in_order(s: Step) -> bool {
    match s {
        Step::Next(_) => true,
        Step::Done(r) => found_or_malformed(r),
    }
}

proof fn lemma_mv_table(
    page: Seq<u8>,
    at: int,
    size: u16,
    i: int,
    count: int,
    begin: u16,
    long_value: bool,
    acc: Seq<MvEntry>,
)
    ensures
        match mv_table(page, at, size, i, count, begin, long_value, acc) {
            Ok(entries) => entries.len() >= 1,
            Err(e) => e == EseError::RecordMalformed,
        },
    decreases count - i,
{
    if i < count {
        if let Some(word) = le16_opt(page, at + 2 * i) {
            if !(word & 0x7fff < begin) {
                lemma_mv_table(
                    page,
                    at,
                    size,
                    i + 1,
                    count,
                    word & 0x7fff,
                    word & 0x8000 != 0,
                    acc.push(
                        MvEntry { shift: begin, long_value, size: ((word & 0x7fff) - begin) as u16 },
                    ),
                );
            }
        }
    }
}

/// A payload stands for a value, or is malformed. Of a column with several
/// values the first is meant by the index 0 as by the index 1.
pub proof fn lemma_payload(page: Seq<u8>, at: u128, size: u16, flags: u8, mv: usize)
    ensures
        found_or_malformed(payload(page, at, size, flags, mv)),
        payload(page, at, size, flags, 0) == payload(page, at, size, flags, 1),
{
    if flags & TAGGED_LONG_VALUE == 0 && flags & (TAGGED_MULTI_VALUE | TAGGED_MULTI_VALUE_OFFSET)
        != 0 && flags & TAGGED_MULTI_VALUE_OFFSET == 0 {
        if let Some(word) = le16_opt(page, at as int) {
            lemma_mv_table(
                page,
                at as int,
                size,
                1,
                (word & 0x7fff) as int / 2,
                word & 0x7fff,
                word & 0x8000 != 0,
                Seq::empty(),
            );
        }
    }
}

proof fn lemma_variable_walk(page: Seq<u8>, rec: Record, st: Walk, id: u32, target: u32)
    ensures
        step_in_order(variable_walk(page, rec, st, id, target)),
        id != target ==> !(variable_walk(page, rec, st, id, target) matches Step::Done(Ok(_))),
    decreases id - st.variable_id,
{
    if st.variable_id < id {
        if let Some(end) = le16_opt(page, rec.start + st.variable_entry) {
            if st.variable_entry + 2 <= 0xffff {
                let read = Walk {
                    variable_entry: (st.variable_entry + 2) as u16,
                    variable_id: (st.variable_id + 1) as u32,
                    ..st
                };
                if read.variable_id == id && end & 0x8000 == 0 {
                    if end >= st.variable_end && id != target && st.variable_value + (end
                        - st.variable_end) <= 0xffff {
                        let taken = Walk {
                            variable_value: (st.variable_value + (end - st.variable_end)) as u16,
                            variable_end: end,
                            ..read
                        };
                        if taken.variable_id < rec.last_variable {
                            lemma_variable_walk(page, rec, taken, id, target);
                        }
                    }
                } else if read.variable_id < rec.last_variable {
                    lemma_variable_walk(page, rec, read, id, target);
                }
            }
        }
    }
}

/// A column either hands the walk on or ends it with a value, an empty
/// column or a malformed record. It ends the walk if it is the column looked
/// for, and with no value if it is not. The value index 0 means what 1 means.
pub proof fn lemma_step(
    page: Seq<u8>,
    rec: Record,
    extended: bool,
    st: Walk,
    id: u32,
    size: u32,
    j: usize,
    target: u32,
    mv: usize,
)
    ensures
        step_in_order(step(page, rec, extended, st, id, size, j, target, mv)),
        id == target ==> step(page, rec, extended, st, id, size, j, target, mv) is Done,
        id != target ==> !(step(page, rec, extended, st, id, size, j, target, mv) matches Step::Done(
            Ok(_),
        )),
        step(page, rec, extended, st, id, size, j, target, 0) == step(
            page,
            rec,
            extended,
            st,
            id,
            size,
            j,
            target,
            1,
        ),
{
    reveal(step);
    lemma_variable_walk(page, rec, st, id, target);
    if id > 127 && st.variable_id >= rec.last_variable {
        if let Ok(entered) = tagged_enter(page, rec, st) {
            if entered.tagged_left > 0 && id == entered.tagged_id {
                let previous = entered.tagged_offset;
                let read = if entered.tagged_index_left > 0 {
                    next_pair(page, entered, false)
                } else {
                    Ok(entered)
                };
                if let Ok(now) = read {
                    let from = previous & offset_mask(extended);
                    let to = now.tagged_offset & offset_mask(extended);
                    let whole: u16 = if to > from {
                        (to - from) as u16
                    } else {
                        now.tagged_left
                    };
                    let value = now.tagged_start + from;
                    lemma_payload(page, (rec.start + value) as u128, whole, 0, mv);
                    if let Some(flags) = byte_opt(page, rec.start + value) {
                        lemma_payload(
                            page,
                            (rec.start + value + 1) as u128,
                            (whole - 1) as u16,
                            flags,
                            mv,
                        );
                    }
                }
            }
        }
    }
}

/// Whether the table has a column with this identifier.
pub open spec fn declares(columns: Seq<CatalogRow>, column_id: u32) -> bool {
    exists|k: int| 0 <= k < columns.len() && (#[trigger] columns[k]).identifier == column_id
}

proof fn lemma_walk(
    page: Seq<u8>,
    rec: Record,
    extended: bool,
    columns: Seq<CatalogRow>,
    j: int,
    st: Walk,
    target: u32,
    mv: usize,
)
    requires
        0 <= j,
    ensures
        (exists|k: int| j <= k < columns.len() && (#[trigger] columns[k]).identifier == target)
            ==> found_or_malformed(walk(page, rec, extended, columns, j, st, target, mv)),
        !(exists|k: int| j <= k < columns.len() && (#[trigger] columns[k]).identifier == target)
            ==> walk(page, rec, extended, columns, j, st, target, mv) is Err,
    decreases columns.len() - j,
{
    if j < columns.len() {
        lemma_step(
            page,
            rec,
            extended,
            st,
            columns[j].identifier,
            columns[j].size,
            j as usize,
            target,
            mv,
        );
        let s = step(
            page,
            rec,
            extended,
            st,
            columns[j].identifier,
            columns[j].size,
            j as usize,
            target,
            mv,
        );
        if let Step::Next(next) = s {
            lemma_walk(page, rec, extended, columns, j + 1, next, target, mv);
            assert(columns[j].identifier != target);
            if exists|k: int| j <= k < columns.len() && (#[trigger] columns[k]).identifier == target {
                let k = choose|k: int|
                    j <= k < columns.len() && (#[trigger] columns[k]).identifier == target;
                assert(j + 1 <= k);
            }
        }
    }
}

proof fn lemma_walk_first_value(
    page: Seq<u8>,
    rec: Record,
    extended: bool,
    columns: Seq<CatalogRow>,
    j: int,
    st: Walk,
    target: u32,
)
    requires
        0 <= j,
    ensures
        walk(page, rec, extended, columns, j, st, target, 0) == walk(
            page,
            rec,
            extended,
            columns,
            j,
            st,
            target,
            1,
        ),
    decreases columns.len() - j,
{
    if j < columns.len() {
        lemma_step(
            page,
            rec,
            extended,
            st,
            columns[j].identifier,
            columns[j].size,
            j as usize,
            target,
            0,
        );
        let s = step(
            page,
            rec,
            extended,
            st,
            columns[j].identifier,
            columns[j].size,
            j as usize,
            target,
            0,
        );
        if let Step::Next(next) = s {
            lemma_walk_first_value(page, rec, extended, columns, j + 1, next, target);
        }
    }
}

/// On a leaf, under a tag that is a row, a column that the table declares
/// is found, with a value or empty, unless the record is malformed; a column
/// that the table does not declare is never found.
pub proof fn lemma_declared_column_is_found(
    extended: bool,
    page: Seq<u8>,
    page_flags: u32,
    header_size: int,
    tags: Seq<PageTag>,
    columns: Seq<CatalogRow>,
    tag_index: usize,
    column_id: u32,
    mv: usize,
)
    requires
        page_flags & PAGE_IS_LEAF != 0,
    ensures
        declares(columns, column_id) ==> found_or_malformed(
            located(
                extended,
                page,
                page_flags,
                header_size,
                tags,
                columns,
                tag_index,
                column_id,
                mv,
            ),
        ),
        !declares(columns, column_id) ==> located(
            extended,
            page,
            page_flags,
            header_size,
            tags,
            columns,
            tag_index,
            column_id,
            mv,
        ) is Err,
{
    if 0 < tag_index < tags.len() {
        if let Ok(rec) = record_of(page, header_size, tags[tag_index as int], extended) {
            if let Ok(st) = walk_start(page, rec) {
                lemma_walk(page, rec, extended, columns, 0, st, column_id, mv);
            }
        }
    }
}

/// The value index 0 finds what the value index 1 finds: the first value,
/// or the only one.
pub proof fn lemma_first_value(
    extended: bool,
    page: Seq<u8>,
    page_flags: u32,
    header_size: int,
    tags: Seq<PageTag>,
    columns: Seq<CatalogRow>,
    tag_index: usize,
    column_id: u32,
)
    ensures
        located(extended, page, page_flags, header_size, tags, columns, tag_index, column_id, 0)
            == located(
            extended,
            page,
            page_flags,
            header_size,
            tags,
            columns,
            tag_index,
            column_id,
            1,
        ),
{
    if 0 < tag_index < tags.len() {
        if let Ok(rec) = record_of(page, header_size, tags[tag_index as int], extended) {
            if let Ok(st) = walk_start(page, rec) {
                lemma_walk_first_value(page, rec, extended, columns, 0, st, column_id);
            }
        }
    }
}

} // verus!
