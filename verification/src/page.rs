use vstd::prelude::*;
use crate::bytes::{
    get_bytes, get_le16, get_le32, get_le64, half_at, in_range, le16_at, le16_opt, le32_at,
    le32_opt, le64_at, quad_at, word_at,
};
use crate::error::EseError;
use crate::jet::{
    ESEDB_FORMAT_REVISION_EXTENDED_PAGE_HEADER, ESEDB_FORMAT_REVISION_NEW_RECORD_FORMAT,
    PAGE_IS_LEAF, TAG_FLAG_HAS_COMMON_KEY_SIZE, TAG_FLAG_IS_DEFUNCT,
};
use crate::reader::{page_block, read_result, valid_page_size, Reader};

verus! {

/// The first eight bytes of a page before the ECC checksum came.
#[derive(Clone, Copy, Debug, PartialEq, Eq, Structural)]
pub struct PageHeaderOld {
    pub xor_checksum: u32,
    pub page_number: u32,
}

/// The first eight bytes of a page with the ECC checksum.
#[derive(Clone, Copy, Debug, PartialEq, Eq, Structural)]
pub struct PageHeader0x0b {
    pub xor_checksum: u32,
    pub ecc_checksum: u32,
}

/// The first eight bytes of a page with the extended header.
#[derive(Clone, Copy, Debug, PartialEq, Eq, Structural)]
pub struct PageHeader0x11 {
    pub checksum: u64,
}

/// The part that the page headers of all revisions share.
#[derive(Clone, Copy, Debug, PartialEq, Eq, Structural)]
pub struct PageHeaderCommon {
    pub database_modification_time: u64,
    pub previous_page: u32,
    pub next_page: u32,
    pub father_data_page_object_identifier: u32,
    pub available_data_size: u16,
    pub available_uncommitted_data_size: u16,
    pub available_data_offset: u16,
    pub available_page_tag: u16,
    pub page_flags: u32,
}

/// What the extended header adds on pages of 16 KiB and more.
#[derive(Clone, Copy, Debug, PartialEq, Eq, Structural)]
pub struct PageHeaderExt0x11 {
    pub checksum1: u64,
    pub checksum2: u64,
    pub checksum3: u64,
    pub page_number: u64,
    pub unknown: u64,
}

/// The header of a page, in the shape of its revision.
#[allow(non_camel_case_types)]
#[derive(Clone, Copy, Debug, PartialEq, Eq, Structural)]
pub enum PageHeader {
    old_format(PageHeaderOld, PageHeaderCommon),
    x0b(PageHeader0x0b, PageHeaderCommon),
    x11(PageHeader0x11, PageHeaderCommon),
    x11_ext(PageHeader0x11, PageHeaderCommon, PageHeaderExt0x11),
}

impl PageHeader {
    /// The part that all shapes share.
    pub open spec fn spec_common(self) -> PageHeaderCommon {
        match self {
            PageHeader::old_format(_, common) => common,
            PageHeader::x0b(_, common) => common,
            PageHeader::x11(_, common) => common,
            PageHeader::x11_ext(_, common, _) => common,
        }
    }

    /// The number of bytes of the header.
    pub open spec fn spec_size(self) -> int {
        if self is x11_ext {
            80
        } else {
            40
        }
    }
}

/// A record slot of a page.
#[derive(Clone, Copy, Debug, PartialEq, Eq, Structural)]
pub struct PageTag {
    pub flags: u8,
    pub offset: u16,
    pub size: u16,
}

impl PageTag {
    /// Whether the record of the tag was deleted.
    pub open spec fn spec_is_defunct(&self) -> bool {
        self.flags & TAG_FLAG_IS_DEFUNCT != 0
    }

    /// Whether the record begins with the size of the shared key part.
    pub open spec fn spec_has_common_key_size(&self) -> bool {
        self.flags & TAG_FLAG_HAS_COMMON_KEY_SIZE != 0
    }

    /// Whether the record of the tag was deleted.
    #[verifier::when_used_as_spec(spec_is_defunct)]
    pub fn is_defunct(&self) -> (r: bool)
        ensures
            r == self.spec_is_defunct(),
    {
        self.flags & TAG_FLAG_IS_DEFUNCT != 0
    }

    /// Whether the record begins with the size of the shared key part.
    #[verifier::when_used_as_spec(spec_has_common_key_size)]
    pub fn has_common_key_size(&self) -> (r: bool)
        ensures
            r == self.spec_has_common_key_size(),
    {
        self.flags & TAG_FLAG_HAS_COMMON_KEY_SIZE != 0
    }
}

/// Whether tags pack offset and size into 15 bits and keep their flags in the record.
pub open spec fn extended_layout(revision: u32, page_size: u64) -> bool {
    revision >= ESEDB_FORMAT_REVISION_EXTENDED_PAGE_HEADER && page_size >= 16384
}

/// The number of bytes of the page header.
pub open spec fn header_size_of(revision: u32, page_size: u64) -> int {
    if revision >= ESEDB_FORMAT_REVISION_EXTENDED_PAGE_HEADER && page_size > 8192 {
        80
    } else {
        40
    }
}

/// The shared part of the header of `page`.
pub open spec fn common_of(page: Seq<u8>) -> PageHeaderCommon {
    PageHeaderCommon {
        database_modification_time: le64_at(page, 8),
        previous_page: le32_at(page, 16),
        next_page: le32_at(page, 20),
        father_data_page_object_identifier: le32_at(page, 24),
        available_data_size: le16_at(page, 28),
        available_uncommitted_data_size: le16_at(page, 30),
        available_data_offset: le16_at(page, 32),
        available_page_tag: le16_at(page, 34),
        page_flags: le32_at(page, 36),
    }
}

/// The header of `page` under a revision and page size.
pub open spec fn page_header_of(page: Seq<u8>, revision: u32, page_size: u64) -> PageHeader {
    if revision < ESEDB_FORMAT_REVISION_NEW_RECORD_FORMAT {
        PageHeader::old_format(
            PageHeaderOld { xor_checksum: le32_at(page, 0), page_number: le32_at(page, 4) },
            common_of(page),
        )
    } else if revision < ESEDB_FORMAT_REVISION_EXTENDED_PAGE_HEADER {
        PageHeader::x0b(
            PageHeader0x0b { xor_checksum: le32_at(page, 0), ecc_checksum: le32_at(page, 4) },
            common_of(page),
        )
    } else if page_size > 8192 {
        PageHeader::x11_ext(
            PageHeader0x11 { checksum: le64_at(page, 0) },
            common_of(page),
            PageHeaderExt0x11 {
                checksum1: le64_at(page, 40),
                checksum2: le64_at(page, 48),
                checksum3: le64_at(page, 56),
                page_number: le64_at(page, 64),
                unknown: le64_at(page, 72),
            },
        )
    } else {
        PageHeader::x11(PageHeader0x11 { checksum: le64_at(page, 0) }, common_of(page))
    }
}

/// The two words of tag `i`, counted from the end of the page: offset, then size.
pub open spec fn raw_tag_offset(page: Seq<u8>, i: int) -> u16 {
    le16_at(page, page.len() - 4 * i - 2)
}

/// The size word of tag `i`, counted from the end of the page.
pub open spec fn raw_tag_size(page: Seq<u8>, i: int) -> u16 {
    le16_at(page, page.len() - 4 * i - 4)
}

/// Where the flags of tag `i` stand in the extended layout: in the first word
/// of its record.
pub open spec fn tag_flags_at(page: Seq<u8>, revision: u32, page_size: u64, i: int) -> int {
    header_size_of(revision, page_size) + (raw_tag_offset(page, i) & 0x7fff)
}

/// Whether tag `i` can be decoded: in the extended layout the word with its
/// flags has to lie in the page.
pub open spec fn tag_ok(page: Seq<u8>, revision: u32, page_size: u64, i: int) -> bool {
    extended_layout(revision, page_size) ==> in_range(
        page,
        tag_flags_at(page, revision, page_size, i),
        2,
    )
}

/// Tag `i` of `page`.
pub open spec fn tag_of(page: Seq<u8>, revision: u32, page_size: u64, i: int) -> PageTag {
    if extended_layout(revision, page_size) {
        PageTag {
            flags: (le16_at(page, tag_flags_at(page, revision, page_size, i)) >> 13) as u8,
            offset: raw_tag_offset(page, i) & 0x7fff,
            size: raw_tag_size(page, i) & 0x7fff,
        }
    } else {
        PageTag {
            flags: (raw_tag_offset(page, i) >> 13) as u8,
            offset: raw_tag_offset(page, i) & 0x1fff,
            size: raw_tag_size(page, i) & 0x1fff,
        }
    }
}

/// Whether the first `count` tags of `page` can be decoded: the tag array
/// leaves room for the header, and each tag is in order.
pub open spec fn tags_ok(page: Seq<u8>, revision: u32, page_size: u64, count: int) -> bool {
    &&& header_size_of(revision, page_size) + 4 * count <= page.len()
    &&& forall|i: int| 0 <= i < count ==> tag_ok(page, revision, page_size, i)
}

/// The tags of `page`, as many as its header counts.
pub open spec fn tags_of(page: Seq<u8>, revision: u32, page_size: u64) -> Result<
    Seq<PageTag>,
    EseError,
> {
    let count = common_of(page).available_page_tag as int;
    if tags_ok(page, revision, page_size, count) {
        Ok(Seq::new(count as nat, |i: int| tag_of(page, revision, page_size, i)))
    } else {
        Err(EseError::RecordMalformed)
    }
}

/// The bytes of page `page_number`, which stands behind the header and its
/// mirror, or `Io` where the file ends before the page does.
pub open spec fn page_bytes(file: Seq<u8>, page_size: u64, page_number: u32) -> Result<
    Seq<u8>,
    EseError,
> {
    if (page_number + 2) * page_size > file.len() {
        Err(EseError::Io)
    } else {
        Ok(page_block(file, page_size as int, page_number + 1))
    }
}

/// A page of the database: its number, its bytes, and the header and tags
/// decoded from them.
#[derive(Debug)]
pub struct DbPage {
    page_number: u32,
    page_header: PageHeader,
    page_tags: Vec<PageTag>,
    data: Vec<u8>,
}

impl DbPage {
    /// The header, in the shape of its revision.
    pub closed spec fn header(&self) -> PageHeader {
        self.page_header
    }

    /// The number of the page.
    pub closed spec fn number(&self) -> u32 {
        self.page_number
    }

    /// The bytes of the page.
    pub closed spec fn bytes(&self) -> Seq<u8> {
        self.data@
    }

    /// The tags of the page.
    pub closed spec fn tags(&self) -> Seq<PageTag> {
        self.page_tags@
    }

    /// The page is page `page_number` of `db`.
    pub open spec fn in_db(&self, db: Db, page_number: u32) -> bool {
        &&& self.wf(db.revision, db.page_size)
        &&& self.number() == page_number
        &&& db.page(page_number) == Ok::<Seq<u8>, EseError>(self.bytes())
    }

    /// Header and tags are those that the bytes hold under a revision and page size.
    pub open spec fn wf(&self, revision: u32, page_size: u64) -> bool {
        &&& valid_page_size(page_size as u32)
        &&& page_size <= u32::MAX
        &&& self.bytes().len() == page_size
        &&& self.header() == page_header_of(self.bytes(), revision, page_size)
        &&& tags_of(self.bytes(), revision, page_size) == Ok::<Seq<PageTag>, EseError>(self.tags())
    }

    /// The page is page `page_number` of the file of `reader`.
    pub open spec fn of(&self, reader: &Reader, page_number: u32) -> bool {
        self.in_db(db_of(reader), page_number)
    }

    /// The number of the page.
    #[verifier::when_used_as_spec(number)]
    pub fn page_number(&self) -> (r: u32)
        ensures
            r == self.number(),
    {
        self.page_number
    }

    /// The tags of the page.
    pub fn page_tags(&self) -> (r: &Vec<PageTag>)
        ensures
            r@ == self.tags(),
    {
        &self.page_tags
    }

    /// The bytes of the page.
    pub fn data(&self) -> (r: &Vec<u8>)
        ensures
            r@ == self.bytes(),
    {
        &self.data
    }

    /// The part of the header that all revisions share.
    pub open spec fn spec_common(&self) -> PageHeaderCommon {
        self.header().spec_common()
    }

    /// The flags of the page.
    pub open spec fn spec_flags(&self) -> u32 {
        self.spec_common().page_flags
    }

    /// Whether the page is a leaf.
    pub open spec fn spec_is_leaf(&self) -> bool {
        self.spec_flags() & PAGE_IS_LEAF != 0
    }

    /// The number of bytes before the records of the page.
    pub open spec fn spec_size(&self) -> int {
        self.header().spec_size()
    }

    /// Loads page `page_number` through the pager and decodes header and tags.
    pub fn new(reader: &mut Reader, page_number: u32) -> (r: Result<DbPage, EseError>)
        requires
            old(reader).wf(),
        ensures
            final(reader).wf(),
            final(reader).same_file(old(reader)),
            final(reader).cached() == old(reader).cache_after(
                ((page_number + 1) * old(reader).spec_page_size()) as u64,
            ),
            match r {
                Ok(p) => p.of(old(reader), page_number),
                Err(e) => page_result(old(reader), page_number) == Err::<Seq<PageTag>, EseError>(
                    e,
                ),
            },
    {
        let ps: u64 = reader.page_size();
        let revision: u32 = reader.format_revision();
        proof {
            lemma_page_read(reader.image(), ps, page_number);
        }
        let page_offset: u64 = page_offset_of(ps, page_number);
        let data = match reader.read_bytes(page_offset, ps as usize) {
            Ok(d) => d,
            Err(e) => {
                return Err(e);
            },
        };
        let page_header = decode_page_header(&data, revision, ps);
        let page_tags = match decode_page_tags(&data, revision, ps) {
            Ok(t) => t,
            Err(e) => {
                return Err(e);
            },
        };
        Ok(DbPage { page_number, page_header, page_tags, data })
    }

    /// The number of tags that the header counts.
    pub fn get_available_page_tag(&self) -> (r: usize)
        ensures
            r == self.spec_common().available_page_tag,
    {
        self.common().available_page_tag as usize
    }

    /// The part of the header that all revisions share.
    #[verifier::when_used_as_spec(spec_common)]
    pub fn common(&self) -> (r: PageHeaderCommon)
        ensures
            r == self.spec_common(),
    {
        match self.page_header {
            PageHeader::old_format(_, common) => common,
            PageHeader::x0b(_, common) => common,
            PageHeader::x11(_, common) => common,
            PageHeader::x11_ext(_, common, _) => common,
        }
    }

    /// The flags of the page.
    #[verifier::when_used_as_spec(spec_flags)]
    pub fn flags(&self) -> (r: u32)
        ensures
            r == self.spec_flags(),
    {
        self.common().page_flags
    }

    /// Whether the page is a leaf.
    #[verifier::when_used_as_spec(spec_is_leaf)]
    pub fn is_leaf(&self) -> (r: bool)
        ensures
            r == self.spec_is_leaf(),
    {
        self.common().page_flags & PAGE_IS_LEAF != 0
    }

    /// The number of the leaf before this one, or zero.
    pub fn prev_page(&self) -> (r: u32)
        ensures
            r == self.spec_common().previous_page,
    {
        self.common().previous_page
    }

    /// The number of the leaf after this one, or zero.
    pub fn next_page(&self) -> (r: u32)
        ensures
            r == self.spec_common().next_page,
    {
        self.common().next_page
    }

    /// The number of bytes of the header: where the records of the page begin.
    pub fn size(&self) -> (r: usize)
        ensures
            r == self.spec_size(),
    {
        match self.page_header {
            PageHeader::old_format(_, _) => 40,
            PageHeader::x0b(_, _) => 40,
            PageHeader::x11(_, _) => 40,
            PageHeader::x11_ext(_, _, _) => 80,
        }
    }
}

/// What loading page `page_number` gives: its tags, or why it cannot be loaded.
pub open spec fn page_result(reader: &Reader, page_number: u32) -> Result<Seq<PageTag>, EseError> {
    page_tags_in(db_of(reader), page_number)
}

/// A database as the decoders see it: the bytes of the file, and the page
/// size and revision that its header gives.
pub struct Db {
    pub file: Seq<u8>,
    pub page_size: u64,
    pub revision: u32,
}

/// The database that a reader serves.
pub open spec fn db_of(reader: &Reader) -> Db {
    Db {
        file: reader.image(),
        page_size: reader.spec_page_size(),
        revision: reader.spec_format_revision(),
    }
}

impl Db {
    /// The bytes of page `page_number`.
    pub open spec fn page(self, page_number: u32) -> Result<Seq<u8>, EseError> {
        page_bytes(self.file, self.page_size, page_number)
    }

    /// The number of bytes of a page header.
    pub open spec fn header_size(self) -> int {
        header_size_of(self.revision, self.page_size)
    }

    /// Whether tags keep their flags in the record.
    pub open spec fn extended(self) -> bool {
        extended_layout(self.revision, self.page_size)
    }

    /// The number of whole pages that the file has room for.
    pub open spec fn page_count(self) -> nat {
        (self.file.len() / (self.page_size as nat)) as nat
    }
}

/// The tags of page `page_number`, or why the page cannot be loaded.
pub open spec fn page_tags_in(db: Db, page_number: u32) -> Result<Seq<PageTag>, EseError> {
    match db.page(page_number) {
        Err(e) => Err(e),
        Ok(data) => tags_of(data, db.revision, db.page_size),
    }
}

/// A read of a whole page is a read of that page's block.
pub proof fn lemma_page_read(file: Seq<u8>, page_size: u64, page_number: u32)
    requires
        page_size > 0,
        page_size <= u32::MAX,
    ensures
        (page_number + 1) * page_size <= u64::MAX,
        match page_bytes(file, page_size, page_number) {
            Ok(b) => read_result(
                file,
                page_size as int,
                (page_number + 1) * page_size,
                page_size as int,
            ) == Ok::<Seq<u8>, EseError>(b) && b.len() == page_size,
            Err(e) => read_result(
                file,
                page_size as int,
                (page_number + 1) * page_size,
                page_size as int,
            ) == Err::<Seq<u8>, EseError>(e),
        },
{
    let n = page_number + 1;
    let ps = page_size as int;
    assert(n * ps <= 0x1_0000_0000 * 0xffff_ffff) by (nonlinear_arith)
        requires
            0 <= n <= 0x1_0000_0000,
            0 < ps <= 0xffff_ffff,
    ;
    assert((n * ps) / ps == n) by (nonlinear_arith)
        requires
            ps > 0,
            n >= 0,
    ;
    assert((n + 1) * ps == n * ps + ps) by (nonlinear_arith);
    assert((page_number + 2) * page_size == n * ps + ps) by (nonlinear_arith)
        requires
            n == page_number + 1,
            ps == page_size,
    ;
}

/// Where page `page_number` begins in the file: the header and its mirror
/// take the first two pages.
pub fn page_offset_of(page_size: u64, page_number: u32) -> (r: u64)
    requires
        page_size <= u32::MAX,
    ensures
        r == (page_number + 1) * page_size,
{
    assert((page_number + 1) * page_size <= 0x1_0000_0000 * 0xffff_ffff) by (nonlinear_arith)
        requires
            0 <= page_number + 1 <= 0x1_0000_0000,
            0 <= page_size <= 0xffff_ffff,
    ;
    (page_number as u64 + 1) * page_size
}

/// Decodes the header of a page from its bytes.
pub fn decode_page_header(data: &Vec<u8>, revision: u32, page_size: u64) -> (r: PageHeader)
    requires
        data.len() >= 80,
    ensures
        r == page_header_of(data@, revision, page_size),
{
    let common = PageHeaderCommon {
        database_modification_time: quad_at(data, 8),
        previous_page: word_at(data, 16),
        next_page: word_at(data, 20),
        father_data_page_object_identifier: word_at(data, 24),
        available_data_size: half_at(data, 28),
        available_uncommitted_data_size: half_at(data, 30),
        available_data_offset: half_at(data, 32),
        available_page_tag: half_at(data, 34),
        page_flags: word_at(data, 36),
    };
    if revision < ESEDB_FORMAT_REVISION_NEW_RECORD_FORMAT {
        PageHeader::old_format(
            PageHeaderOld { xor_checksum: word_at(data, 0), page_number: word_at(data, 4) },
            common,
        )
    } else if revision < ESEDB_FORMAT_REVISION_EXTENDED_PAGE_HEADER {
        PageHeader::x0b(
            PageHeader0x0b { xor_checksum: word_at(data, 0), ecc_checksum: word_at(data, 4) },
            common,
        )
    } else if page_size > 8192 {
        PageHeader::x11_ext(
            PageHeader0x11 { checksum: quad_at(data, 0) },
            common,
            PageHeaderExt0x11 {
                checksum1: quad_at(data, 40),
                checksum2: quad_at(data, 48),
                checksum3: quad_at(data, 56),
                page_number: quad_at(data, 64),
                unknown: quad_at(data, 72),
            },
        )
    } else {
        PageHeader::x11(PageHeader0x11 { checksum: quad_at(data, 0) }, common)
    }
}

/// Decodes the tags of a page from its bytes: as many as the header counts,
/// read from the end of the page backwards.
pub fn decode_page_tags(data: &Vec<u8>, revision: u32, page_size: u64) -> (r: Result<
    Vec<PageTag>,
    EseError,
>)
    requires
        data.len() >= 80,
        data.len() == page_size,
    ensures
        match r {
            Ok(tags) => tags_of(data@, revision, page_size) == Ok::<Seq<PageTag>, EseError>(tags@),
            Err(e) => tags_of(data@, revision, page_size) == Err::<Seq<PageTag>, EseError>(e),
        },
{
    let tags_cnt: usize = half_at(data, 34) as usize;
    let extended: bool = revision >= ESEDB_FORMAT_REVISION_EXTENDED_PAGE_HEADER && page_size
        >= 16384;
    let header_size: usize = if revision >= ESEDB_FORMAT_REVISION_EXTENDED_PAGE_HEADER
        && page_size > 8192 {
        80
    } else {
        40
    };
    let len: usize = data.len();
    if 4 * tags_cnt > len - header_size {
        return Err(EseError::RecordMalformed);
    }
    let mut tags: Vec<PageTag> = Vec::with_capacity(tags_cnt);
    let mut i: usize = 0;
    while i < tags_cnt
        invariant
            i <= tags_cnt,
            tags_cnt == common_of(data@).available_page_tag,
            len == data.len(),
            data.len() == page_size,
            header_size == header_size_of(revision, page_size),
            extended == extended_layout(revision, page_size),
            header_size + 4 * tags_cnt <= len,
            tags@.len() == i,
            forall|j: int| 0 <= j < i ==> tag_ok(data@, revision, page_size, j),
            forall|j: int| 0 <= j < i ==> tags@[j] == tag_of(data@, revision, page_size, j),
        decreases tags_cnt - i,
    {
        let page_tag_offset: u16 = half_at(data, len - 4 * i - 2);
        let page_tag_size: u16 = half_at(data, len - 4 * i - 4);
        let tag = if extended {
            let offset: u16 = page_tag_offset & 0x7fff;
            let size: u16 = page_tag_size & 0x7fff;
            let f: u16 = match get_le16(data, header_size + offset as usize) {
                Some(f) => f,
                None => {
                    assert(!tag_ok(data@, revision, page_size, i as int));
                    return Err(EseError::RecordMalformed);
                },
            };
            PageTag { flags: (f >> 13) as u8, offset, size }
        } else {
            PageTag {
                flags: (page_tag_offset >> 13) as u8,
                offset: page_tag_offset & 0x1fff,
                size: page_tag_size & 0x1fff,
            }
        };
        tags.push(tag);
        i += 1;
    }
    assert(tags@ =~= Seq::new(tags_cnt as nat, |i: int| tag_of(data@, revision, page_size, i)));
    Ok(tags)
}

/// Loads the header of page `page_number`.
pub fn load_page_header(reader: &mut Reader, page_number: u32) -> (r: Result<PageHeader, EseError>)
    requires
        old(reader).wf(),
    ensures
        final(reader).wf(),
        final(reader).same_file(old(reader)),
        match r {
            Ok(h) => {
                &&& page_bytes(old(reader).image(), old(reader).spec_page_size(), page_number) is Ok
                &&& h == page_header_of(
                    page_bytes(
                        old(reader).image(),
                        old(reader).spec_page_size(),
                        page_number,
                    )->Ok_0,
                    old(reader).spec_format_revision(),
                    old(reader).spec_page_size(),
                )
            },
            Err(e) => page_bytes(old(reader).image(), old(reader).spec_page_size(), page_number)
                == Err::<Seq<u8>, EseError>(e),
        },
{
    let ps: u64 = reader.page_size();
    let revision: u32 = reader.format_revision();
    proof {
        lemma_page_read(reader.image(), ps, page_number);
    }
    let page_offset: u64 = page_offset_of(ps, page_number);
    match reader.read_bytes(page_offset, ps as usize) {
        Ok(data) => Ok(decode_page_header(&data, revision, ps)),
        Err(e) => Err(e),
    }
}

/// The tags of a loaded page, decoded anew from its bytes.
pub fn load_page_tags(reader: &Reader, db_page: &DbPage) -> (r: Result<Vec<PageTag>, EseError>)
    requires
        reader.wf(),
        db_page.bytes().len() == reader.spec_page_size(),
    ensures
        match r {
            Ok(tags) => tags_of(
                db_page.bytes(),
                reader.spec_format_revision(),
                reader.spec_page_size(),
            ) == Ok::<Seq<PageTag>, EseError>(tags@),
            Err(e) => tags_of(db_page.bytes(), reader.spec_format_revision(), reader.spec_page_size())
                == Err::<Seq<PageTag>, EseError>(e),
        },
{
    decode_page_tags(db_page.data(), reader.format_revision(), reader.page_size())
}

} // verus!
