use vstd::prelude::*;
use crate::bytes::{
    get_le16, get_le32, get_u8, in_range, le16_opt, le32_at, le32_opt, word_at,
};
use crate::error::EseError;
use crate::jet::{ESEDB_FORMAT_REVISION_EXTENDED_PAGE_HEADER, PAGE_IS_LEAF};
use crate::page::{common_of, db_of, page_tags_in, tags_of, Db, DbPage, PageTag};
use crate::reader::Reader;

verus! {

/// The record under tag 0 of a root page, in its 16-byte shape.
#[derive(Clone, Copy, Debug, PartialEq, Eq, Structural)]
pub struct RootPageHeader16 {
    pub initial_number_of_pages: u32,
    pub parent_fdp: u32,
    pub extent_space: u32,
    pub space_tree_page_number: u32,
}

/// The record under tag 0 of a root page, in its 25-byte shape.
#[derive(Clone, Copy, Debug, PartialEq, Eq, Structural)]
pub struct RootPageHeader25 {
    pub initial_number_of_pages: u32,
    pub unknown1: u8,
    pub parent_fdp: u32,
    pub extent_space: u32,
    pub space_tree_page_number: u32,
    pub unknown2: u32,
    pub unknown3: u32,
}

/// The record under tag 0 of a root page.
#[allow(non_camel_case_types)]
#[derive(Clone, Copy, Debug, PartialEq, Eq, Structural)]
pub enum RootPageHeader {
    xf(RootPageHeader16),
    x19(RootPageHeader25),
}

impl RootPageHeader {
    /// The number of pages the tree began with.
    pub open spec fn spec_initial_number_of_pages(&self) -> u32 {
        match self {
            RootPageHeader::xf(x) => x.initial_number_of_pages,
            RootPageHeader::x19(x) => x.initial_number_of_pages,
        }
    }

    /// The root page of the tree above.
    pub open spec fn spec_parent_fdp(&self) -> u32 {
        match self {
            RootPageHeader::xf(x) => x.parent_fdp,
            RootPageHeader::x19(x) => x.parent_fdp,
        }
    }

    /// The kind of space the tree grows by.
    pub open spec fn spec_extent_space(&self) -> u32 {
        match self {
            RootPageHeader::xf(x) => x.extent_space,
            RootPageHeader::x19(x) => x.extent_space,
        }
    }

    /// The page of the tree that keeps the free space.
    pub open spec fn spec_space_tree_page_number(&self) -> u32 {
        match self {
            RootPageHeader::xf(x) => x.space_tree_page_number,
            RootPageHeader::x19(x) => x.space_tree_page_number,
        }
    }

    /// The number of bytes of the record.
    pub open spec fn spec_size(&self) -> usize {
        match self {
            RootPageHeader::xf(_) => 16,
            RootPageHeader::x19(_) => 25,
        }
    }

    /// The number of pages the tree began with.
    #[verifier::when_used_as_spec(spec_initial_number_of_pages)]
    pub fn initial_number_of_pages(&self) -> (r: u32)
        ensures
            r == self.spec_initial_number_of_pages(),
    {
        match self {
            RootPageHeader::xf(x) => x.initial_number_of_pages,
            RootPageHeader::x19(x) => x.initial_number_of_pages,
        }
    }

    /// The root page of the tree above.
    #[verifier::when_used_as_spec(spec_parent_fdp)]
    pub fn parent_fdp(&self) -> (r: u32)
        ensures
            r == self.spec_parent_fdp(),
    {
        match self {
            RootPageHeader::xf(x) => x.parent_fdp,
            RootPageHeader::x19(x) => x.parent_fdp,
        }
    }

    /// The kind of space the tree grows by.
    #[verifier::when_used_as_spec(spec_extent_space)]
    pub fn extent_space(&self) -> (r: u32)
        ensures
            r == self.spec_extent_space(),
    {
        match self {
            RootPageHeader::xf(x) => x.extent_space,
            RootPageHeader::x19(x) => x.extent_space,
        }
    }

    /// The page of the tree that keeps the free space.
    #[verifier::when_used_as_spec(spec_space_tree_page_number)]
    pub fn space_tree_page_number(&self) -> (r: u32)
        ensures
            r == self.spec_space_tree_page_number(),
    {
        match self {
            RootPageHeader::xf(x) => x.space_tree_page_number,
            RootPageHeader::x19(x) => x.space_tree_page_number,
        }
    }

    /// The number of bytes of the record.
    #[verifier::when_used_as_spec(spec_size)]
    pub fn size(&self) -> (r: usize)
        ensures
            r == self.spec_size(),
    {
        match self {
            RootPageHeader::xf(_) => 16,
            RootPageHeader::x19(_) => 25,
        }
    }
}

/// The root record that tag `tag` of `page` points at: one of 16 or of 25
/// bytes, inside the page.
pub open spec fn root_header_of(page: Seq<u8>, header_size: int, tag: PageTag) -> Result<
    RootPageHeader,
    EseError,
> {
    let at = header_size + tag.offset;
    if tag.size == 16 && in_range(page, at, 16) {
        Ok(
            RootPageHeader::xf(
                RootPageHeader16 {
                    initial_number_of_pages: le32_at(page, at),
                    parent_fdp: le32_at(page, at + 4),
                    extent_space: le32_at(page, at + 8),
                    space_tree_page_number: le32_at(page, at + 12),
                },
            ),
        )
    } else if tag.size == 25 && in_range(page, at, 25) {
        Ok(
            RootPageHeader::x19(
                RootPageHeader25 {
                    initial_number_of_pages: le32_at(page, at),
                    unknown1: page[at + 4],
                    parent_fdp: le32_at(page, at + 5),
                    extent_space: le32_at(page, at + 9),
                    space_tree_page_number: le32_at(page, at + 13),
                    unknown2: le32_at(page, at + 17),
                    unknown3: le32_at(page, at + 21),
                },
            ),
        )
    } else {
        Err(EseError::RecordMalformed)
    }
}

/// Decodes the root record under `page_tag`.
pub fn load_root_page_header(reader: &Reader, db_page: &DbPage, page_tag: &PageTag) -> (r: Result<
    RootPageHeader,
    EseError,
>)
    requires
        db_page.wf(reader.spec_format_revision(), reader.spec_page_size()),
    ensures
        r == root_header_of(db_page.bytes(), db_page.spec_size(), *page_tag),
{
    let data = db_page.data();
    let at: usize = db_page.size() + page_tag.offset as usize;
    if page_tag.size == 16 && at <= data.len() - 16 {
        Ok(
            RootPageHeader::xf(
                RootPageHeader16 {
                    initial_number_of_pages: word_at(data, at),
                    parent_fdp: word_at(data, at + 4),
                    extent_space: word_at(data, at + 8),
                    space_tree_page_number: word_at(data, at + 12),
                },
            ),
        )
    } else if page_tag.size == 25 && at <= data.len() - 25 {
        Ok(
            RootPageHeader::x19(
                RootPageHeader25 {
                    initial_number_of_pages: word_at(data, at),
                    unknown1: data[at + 4],
                    parent_fdp: word_at(data, at + 5),
                    extent_space: word_at(data, at + 9),
                    space_tree_page_number: word_at(data, at + 13),
                    unknown2: word_at(data, at + 17),
                    unknown3: word_at(data, at + 21),
                },
            ),
        )
    } else {
        Err(EseError::RecordMalformed)
    }
}

/// Whether the first word of a record carries the tag's flags in its upper
/// three bits: on leaves of the extended layout.
pub open spec fn flags_in_record(db: Db, page_flags: u32) -> bool {
    db.extended() && page_flags & PAGE_IS_LEAF != 0
}

/// A first word of a record without the tag flags that it may carry.
pub open spec fn cleaned(word: u16, clean: bool) -> u16 {
    if clean {
        word & 0x1FFF
    } else {
        word
    }
}

/// Strips the tag flags from the first word of a leaf record.
pub fn clean_pgtag_flag(reader: &Reader, db_page: &DbPage, data: u16) -> (r: u16)
    ensures
        r == cleaned(data, flags_in_record(db_of(reader), db_page.spec_flags())),
{
    if reader.format_revision() >= ESEDB_FORMAT_REVISION_EXTENDED_PAGE_HEADER && reader.page_size()
        >= 16384 && db_page.is_leaf() {
        return data & 0x1FFF;
    }
    data
}

/// Where the local key size of the record under `tag` stands: behind the
/// common key size, if the record has one.
pub open spec fn local_key_size_at(header_size: int, tag: PageTag) -> int {
    header_size + tag.offset + (if tag.spec_has_common_key_size() {
        2int
    } else {
        0int
    })
}

/// The size of the local key of the record under `tag`. Where it is the first
/// word of the record, `clean` says whether the tag flags are stripped from it.
pub open spec fn local_key_size(page: Seq<u8>, header_size: int, tag: PageTag, clean: bool) -> Option<
    u16,
> {
    match le16_opt(page, local_key_size_at(header_size, tag)) {
        None => None,
        Some(raw) => Some(cleaned(raw, clean && !tag.spec_has_common_key_size())),
    }
}

/// Where the record under `tag` goes on behind its keys.
pub open spec fn keys_end(page: Seq<u8>, header_size: int, tag: PageTag, clean: bool) -> Option<
    int,
> {
    match local_key_size(page, header_size, tag, clean) {
        None => None,
        Some(size) => Some(local_key_size_at(header_size, tag) + 2 + size),
    }
}

/// Steps over the keys of the record under `tag`.
pub fn skip_keys(data: &Vec<u8>, header_size: usize, tag: &PageTag, clean: bool) -> (r: Option<
    usize,
>)
    requires
        header_size <= 80,
    ensures
        match r {
            Some(end) => keys_end(data@, header_size as int, *tag, clean) == Some(end as int),
            None => keys_end(data@, header_size as int, *tag, clean) is None,
        },
{
    let mut offset: usize = header_size + tag.offset as usize;
    let common: bool = tag.has_common_key_size();
    if common {
        offset += 2;
    }
    let raw: u16 = match get_le16(data, offset) {
        Some(v) => v,
        None => {
            return None;
        },
    };
    let size: u16 = if clean && !common {
        raw & 0x1FFF
    } else {
        raw
    };
    Some(offset + 2 + size as usize)
}

/// The page number that the branch record under `tag` points down to: the
/// four bytes behind its keys.
pub open spec fn branch_child_of(page: Seq<u8>, header_size: int, tag: PageTag) -> Result<
    u32,
    EseError,
> {
    match keys_end(page, header_size, tag, false) {
        None => Err(EseError::RecordMalformed),
        Some(end) => match le32_opt(page, end) {
            None => Err(EseError::RecordMalformed),
            Some(child) => Ok(child),
        },
    }
}

/// The child page of a branch record.
pub fn page_tag_get_branch_child_page_number(
    reader: &Reader,
    db_page: &DbPage,
    page_tag: &PageTag,
) -> (r: Result<u32, EseError>)
    requires
        db_page.wf(reader.spec_format_revision(), reader.spec_page_size()),
    ensures
        r == branch_child_of(db_page.bytes(), db_page.spec_size(), *page_tag),
{
    let data = db_page.data();
    let end: usize = match skip_keys(data, db_page.size(), page_tag, false) {
        Some(e) => e,
        None => {
            return Err(EseError::RecordMalformed);
        },
    };
    match get_le32(data, end) {
        Some(child) => Ok(child),
        None => Err(EseError::RecordMalformed),
    }
}

/// Where a descent from page `page_number` goes one level down: to the child
/// of the second tag. `None` on a leaf.
pub open spec fn child_of(db: Db, page_number: u32) -> Result<Option<u32>, EseError> {
    match db.page(page_number) {
        Err(e) => Err(e),
        Ok(page) => match tags_of(page, db.revision, db.page_size) {
            Err(e) => Err(e),
            Ok(tags) => if common_of(page).page_flags & PAGE_IS_LEAF != 0 {
                Ok(None)
            } else if tags.len() < 2 {
                Err(EseError::RecordMalformed)
            } else {
                match branch_child_of(page, db.header_size(), tags[1]) {
                    Err(e) => Err(e),
                    Ok(child) => Ok(Some(child)),
                }
            },
        },
    }
}

/// The first leaf under page `page_number`, reached in at most `depth` pages.
/// A descent that would take more is given up: the pages are not a tree.
pub open spec fn first_leaf(db: Db, page_number: u32, depth: nat) -> Result<u32, EseError>
    decreases depth,
{
    if depth == 0 {
        Err(EseError::PageFlagsUnexpected)
    } else {
        match child_of(db, page_number) {
            Err(e) => Err(e),
            Ok(None) => Ok(page_number),
            Ok(Some(child)) => first_leaf(db, child, (depth - 1) as nat),
        }
    }
}

/// Loads a page and says where a descent goes on from it.
pub fn descend(reader: &mut Reader, page_number: u32) -> (r: Result<Option<u32>, EseError>)
    requires
        old(reader).wf(),
    ensures
        final(reader).wf(),
        final(reader).same_file(old(reader)),
        r == child_of(db_of(old(reader)), page_number),
{
    let db_page = match DbPage::new(reader, page_number) {
        Ok(p) => p,
        Err(e) => {
            return Err(e);
        },
    };
    if db_page.is_leaf() {
        return Ok(None);
    }
    let pg_tags = db_page.page_tags();
    if pg_tags.len() < 2 {
        return Err(EseError::RecordMalformed);
    }
    match page_tag_get_branch_child_page_number(reader, &db_page, &pg_tags[1]) {
        Ok(child) => Ok(Some(child)),
        Err(e) => Err(e),
    }
}

/// The number of pages that the file of `reader` has room for.
pub fn page_count(reader: &Reader) -> (r: usize)
    requires
        reader.wf(),
    ensures
        r == db_of(reader).page_count(),
{
    reader.file_len() / (reader.page_size() as usize)
}

/// Descends from page `page_number` along the second tag of each branch to
/// the first leaf. No tree is deeper than the file has pages.
pub fn find_first_leaf_page(reader: &mut Reader, page_number: u32) -> (r: Result<u32, EseError>)
    requires
        old(reader).wf(),
    ensures
        final(reader).wf(),
        final(reader).same_file(old(reader)),
        r == first_leaf(db_of(old(reader)), page_number, db_of(old(reader)).page_count()),
{
    let mut depth: usize = page_count(reader);
    let mut current: u32 = page_number;
    let ghost db = db_of(reader);
    let ghost total = db.page_count();
    while depth > 0
        invariant
            reader.wf(),
            reader.same_file(old(reader)),
            db == db_of(reader),
            db == db_of(old(reader)),
            total == db.page_count(),
            first_leaf(db, page_number, total) == first_leaf(db, current, depth as nat),
        decreases depth,
    {
        match descend(reader, current) {
            Err(e) => {
                return Err(e);
            },
            Ok(None) => {
                return Ok(current);
            },
            Ok(Some(child)) => {
                current = child;
                depth -= 1;
            },
        }
    }
    Err(EseError::PageFlagsUnexpected)
}

} // verus!
