use vstd::prelude::*;
use crate::bytes::{be32_at, bytes_opt, get_be32, get_bytes, get_le16, get_le32, in_range, le16_opt};
use crate::error::EseError;
use crate::jet::{PAGE_IS_LEAF, PAGE_IS_LONG_VALUE, PAGE_IS_ROOT};
use crate::page::{common_of, db_of, page_offset_of, tags_of, Db, DbPage, PageTag};
use crate::reader::{read_result, Reader};
use crate::tree::{
    branch_child_of, cleaned, flags_in_record, load_root_page_header, local_key_size,
    local_key_size_at, page_count, page_tag_get_branch_child_page_number, root_header_of,
};

verus! {

/// A segment of a long value: where its bytes lie in the file, and at which
/// offset of the value of `key` they belong.
#[allow(non_camel_case_types)]
#[derive(Debug, Clone)]
pub struct LV_tags {
    pub common_page_key: Vec<u8>,
    pub local_page_key: Vec<u8>,
    pub key: u32,
    pub offset: u64,
    pub size: u32,
    pub seg_offset: u32,
}

/// A segment of a long value, as a value.
pub struct Segment {
    pub common_page_key: Seq<u8>,
    pub local_page_key: Seq<u8>,
    pub key: u32,
    pub offset: u64,
    pub size: u32,
    pub seg_offset: u32,
}

impl View for LV_tags {
    type V = Segment;

    open spec fn view(&self) -> Segment {
        Segment {
            common_page_key: self.common_page_key@,
            local_page_key: self.local_page_key@,
            key: self.key,
            offset: self.offset,
            size: self.size,
            seg_offset: self.seg_offset,
        }
    }
}

/// The segments that a vector of them holds.
pub open spec fn segments_of(v: Seq<LV_tags>) -> Seq<Segment> {
    Seq::new(v.len(), |i: int| v[i]@)
}

/// How many more bytes a value of `len` bytes can take before no segment
/// offset can name its end.
pub open spec fn room(len: nat) -> nat {
    if len <= u32::MAX {
        (u32::MAX + 1 - len) as nat
    } else {
        0
    }
}

/// Whether segment `s` goes on a value of `key` of which `len` bytes are there.
/// A segment without bytes adds nothing and is passed over.
pub open spec fn continues(s: Segment, key: u32, len: nat) -> bool {
    s.key == key && s.seg_offset == len && s.size > 0
}

/// The value of `key` put together from `segments`, with `acc` there already
/// and the scan at segment `i`: the first segment that goes on the value is
/// appended and the scan starts over, for the segments come in no order. At
/// the end of a scan that found none, the value is done, and a value without
/// bytes is no value.
pub open spec fn lv_scan(db: Db, segments: Seq<Segment>, key: u32, acc: Seq<u8>, i: int) -> Result<
    Seq<u8>,
    EseError,
>
    decreases room(acc.len()), segments.len() - i,
{
    if i < 0 || i >= segments.len() {
        if acc.len() > 0 {
            Ok(acc)
        } else {
            Err(EseError::LongValueNotFound)
        }
    } else if continues(segments[i], key, acc.len()) {
        match read_result(
            db.file,
            db.page_size as int,
            segments[i].offset as int,
            segments[i].size as int,
        ) {
            Err(e) => Err(e),
            Ok(bytes) => if bytes.len() == segments[i].size {
                lv_scan(db, segments, key, acc + bytes, 0)
            } else {
                Err(EseError::Io)
            },
        }
    } else {
        lv_scan(db, segments, key, acc, i + 1)
    }
}

/// The long value of `key`.
pub open spec fn lv_value(db: Db, segments: Seq<Segment>, key: u32) -> Result<Seq<u8>, EseError> {
    lv_scan(db, segments, key, Seq::empty(), 0)
}

/// Appends `more` to `bytes`.
pub fn append_bytes(bytes: &mut Vec<u8>, more: &Vec<u8>)
    ensures
        final(bytes)@ == old(bytes)@ + more@,
{
    let mut i: usize = 0;
    while i < more.len()
        invariant
            i <= more.len(),
            bytes@ == old(bytes)@ + more@.subrange(0, i as int),
        decreases more.len() - i,
    {
        bytes.push(more[i]);
        i += 1;
        assert(bytes@ == old(bytes)@ + more@.subrange(0, i as int));
    }
    assert(more@.subrange(0, more@.len() as int) == more@);
}

/// Puts the long value of `long_value_key` together from its segments.
pub fn load_lv_data(reader: &mut Reader, lv_tags: &Vec<LV_tags>, long_value_key: u32) -> (r: Result<
    Vec<u8>,
    EseError,
>)
    requires
        old(reader).wf(),
    ensures
        final(reader).wf(),
        final(reader).same_file(old(reader)),
        match r {
            Ok(v) => lv_value(db_of(old(reader)), segments_of(lv_tags@), long_value_key) == Ok::<
                Seq<u8>,
                EseError,
            >(v@),
            Err(e) => lv_value(db_of(old(reader)), segments_of(lv_tags@), long_value_key) == Err::<
                Seq<u8>,
                EseError,
            >(e),
        },
{
    let mut res: Vec<u8> = Vec::new();
    let mut i: usize = 0;
    let ghost db = db_of(reader);
    let ghost segments = segments_of(lv_tags@);
    while i < lv_tags.len()
        invariant
            reader.wf(),
            reader.same_file(old(reader)),
            db == db_of(reader),
            db == db_of(old(reader)),
            segments == segments_of(lv_tags@),
            i <= lv_tags.len(),
            lv_value(db, segments, long_value_key) == lv_scan(
                db,
                segments,
                long_value_key,
                res@,
                i as int,
            ),
        decreases room(res@.len()), lv_tags.len() - i,
    {
        let key: u32 = lv_tags[i].key;
        let seg_offset: u32 = lv_tags[i].seg_offset;
        let size: u32 = lv_tags[i].size;
        let offset: u64 = lv_tags[i].offset;
        assert(segments[i as int] == lv_tags@[i as int]@);
        if long_value_key == key && res.len() as u64 == seg_offset as u64 && size > 0 {
            match reader.read_bytes(offset, size as usize) {
                Ok(v) => {
                    append_bytes(&mut res, &v);
                    i = 0;
                },
                Err(e) => {
                    return Err(e);
                },
            }
        } else {
            i += 1;
        }
    }
    if res.len() > 0 {
        Ok(res)
    } else {
        Err(EseError::LongValueNotFound)
    }
}


/// The size of the key part that the record under `tag` shares with its
/// page: its first word, without the tag flags where `clean` says so, or
/// zero where the tag has no such word.
pub open spec fn common_key_size(page: Seq<u8>, header_size: int, tag: PageTag, clean: bool) -> Option<
    u16,
> {
    if tag.spec_has_common_key_size() {
        match le16_opt(page, header_size + tag.offset) {
            None => None,
            Some(raw) => Some(cleaned(raw, clean)),
        }
    } else {
        Some(0)
    }
}

/// The key of a long-value record out of the part it shares and its own:
/// both together if they make eight bytes, else the own part if it has four
/// bytes, else the shared part if that has four.
pub open spec fn page_key(common: Seq<u8>, local: Seq<u8>) -> Seq<u8> {
    if common.len() + local.len() == 8 {
        common + local
    } else if local.len() >= 4 {
        local
    } else if common.len() >= 4 {
        common
    } else {
        Seq::empty()
    }
}

/// The long-value key and the segment offset that a key holds: its first four
/// bytes, and in a key of eight bytes the next four, both big-endian. A key of
/// less than four bytes holds none.
pub open spec fn key_pair(key: Seq<u8>) -> Option<(u32, u32)> {
    if key.len() < 4 {
        None
    } else if key.len() == 8 {
        Some((be32_at(key, 0), be32_at(key, 4)))
    } else {
        Some((be32_at(key, 0), 0u32))
    }
}

/// Reads long-value key and segment offset out of the two parts of a key.
pub fn read_key_pair(common: &Vec<u8>, local: &Vec<u8>) -> (r: Option<(u32, u32)>)
    requires
        common.len() <= 0xffff,
        local.len() <= 0xffff,
    ensures
        r == key_pair(page_key(common@, local@)),
{
    let mut key: Vec<u8> = Vec::new();
    if common.len() + local.len() == 8 {
        append_bytes(&mut key, common);
        append_bytes(&mut key, local);
        assert(key@ =~= common@ + local@);
    } else if local.len() >= 4 {
        append_bytes(&mut key, local);
        assert(key@ =~= local@);
    } else if common.len() >= 4 {
        append_bytes(&mut key, common);
        assert(key@ =~= common@);
    }
    assert(key@ =~= page_key(common@, local@));
    let first: u32 = match get_be32(&key, 0) {
        Some(k) => k,
        None => {
            return None;
        },
    };
    if key.len() == 8 {
        match get_be32(&key, 4) {
            Some(k) => Some((first, k)),
            None => None,
        }
    } else {
        Some((first, 0))
    }
}

/// The two parts of the key of the record under `tag`, and where the record
/// goes on behind them. The shared part is the beginning of the record under
/// tag 0, in the size that the record under `tag` names.
pub open spec fn lv_keys_of(
    page: Seq<u8>,
    header_size: int,
    tag: PageTag,
    tag_0: PageTag,
    clean: bool,
) -> Option<(Seq<u8>, Seq<u8>, int)> {
    match common_key_size(page, header_size, tag, clean) {
        None => None,
        Some(common_size) => match bytes_opt(page, header_size + tag_0.offset, common_size as int) {
            None => None,
            Some(common) => match local_key_size(page, header_size, tag, clean) {
                None => None,
                Some(local_size) => match bytes_opt(
                    page,
                    local_key_size_at(header_size, tag) + 2,
                    local_size as int,
                ) {
                    None => None,
                    Some(local) => Some(
                        (common, local, local_key_size_at(header_size, tag) + 2 + local_size),
                    ),
                },
            },
        },
    }
}

/// The segment that the long-value record under `tag` stands for, on a page
/// that begins at `page_offset` in the file. A record with eight bytes behind
/// its key holds a key and a total size only and gives no segment. The first
/// four bytes of the key are the long-value key, the next four, in a key of
/// eight, the offset of the segment, both big-endian.
pub open spec fn lv_tag_of(
    page: Seq<u8>,
    page_offset: int,
    header_size: int,
    tag: PageTag,
    tag_0: PageTag,
    clean: bool,
) -> Result<Option<Segment>, EseError> {
    match lv_keys_of(page, header_size, tag, tag_0, clean) {
        None => Err(EseError::RecordMalformed),
        Some((common, local, body)) => {
            let used = body - (header_size + tag.offset);
            if used > tag.size {
                Err(EseError::RecordMalformed)
            } else if tag.size - used == 8 {
                if in_range(page, body, 8) {
                    Ok(None)
                } else {
                    Err(EseError::RecordMalformed)
                }
            } else {
                match key_pair(page_key(common, local)) {
                    None => Err(EseError::RecordMalformed),
                    Some(pair) => Ok(
                        Some(
                            Segment {
                                common_page_key: common,
                                local_page_key: local,
                                key: pair.0,
                                offset: (page_offset + body) as u64,
                                size: (tag.size - used) as u32,
                                seg_offset: pair.1,
                            },
                        ),
                    ),
                }
            }
        },
    }
}

/// Reads the two parts of the key of a long-value record.
pub fn read_lv_keys(
    data: &Vec<u8>,
    header_size: usize,
    page_tag: &PageTag,
    page_tag_0: &PageTag,
    clean: bool,
) -> (r: Option<(Vec<u8>, Vec<u8>, usize)>)
    requires
        header_size <= 80,
    ensures
        match r {
            Some(k) => lv_keys_of(data@, header_size as int, *page_tag, *page_tag_0, clean) == Some(
                (k.0@, k.1@, k.2 as int),
            ) && k.2 <= 0x30000 && k.2 >= header_size + page_tag.offset,
            None => lv_keys_of(data@, header_size as int, *page_tag, *page_tag_0, clean) is None,
        },
{
    let mut offset: usize = header_size + page_tag.offset as usize;
    let has_common: bool = page_tag.has_common_key_size();
    let mut common_size: u16 = 0;
    if has_common {
        let raw: u16 = match get_le16(data, offset) {
            Some(v) => v,
            None => {
                return None;
            },
        };
        common_size = if clean {
            raw & 0x1FFF
        } else {
            raw
        };
        offset += 2;
    }
    let common_page_key = match get_bytes(
        data,
        header_size + page_tag_0.offset as usize,
        common_size as usize,
    ) {
        Some(b) => b,
        None => {
            return None;
        },
    };
    let raw: u16 = match get_le16(data, offset) {
        Some(v) => v,
        None => {
            return None;
        },
    };
    let local_size: u16 = if clean && !has_common {
        raw & 0x1FFF
    } else {
        raw
    };
    offset += 2;
    let local_page_key = match get_bytes(data, offset, local_size as usize) {
        Some(b) => b,
        None => {
            return None;
        },
    };
    Some((common_page_key, local_page_key, offset + local_size as usize))
}

/// Decodes the long-value record under `page_tag`.
pub fn load_lv_tag(reader: &Reader, db_page: &DbPage, page_tag: &PageTag, page_tag_0: &PageTag) -> (r:
    Result<Option<LV_tags>, EseError>)
    requires
        reader.wf(),
        db_page.wf(reader.spec_format_revision(), reader.spec_page_size()),
    ensures
        match r {
            Ok(Some(t)) => lv_tag_of(
                db_page.bytes(),
                (db_page.number() + 1) * reader.spec_page_size(),
                db_page.spec_size(),
                *page_tag,
                *page_tag_0,
                flags_in_record(db_of(reader), db_page.spec_flags()),
            ) == Ok::<Option<Segment>, EseError>(Some(t@)),
            Ok(None) => lv_tag_of(
                db_page.bytes(),
                (db_page.number() + 1) * reader.spec_page_size(),
                db_page.spec_size(),
                *page_tag,
                *page_tag_0,
                flags_in_record(db_of(reader), db_page.spec_flags()),
            ) == Ok::<Option<Segment>, EseError>(None),
            Err(e) => lv_tag_of(
                db_page.bytes(),
                (db_page.number() + 1) * reader.spec_page_size(),
                db_page.spec_size(),
                *page_tag,
                *page_tag_0,
                flags_in_record(db_of(reader), db_page.spec_flags()),
            ) == Err::<Option<Segment>, EseError>(e),
        },
{
    let data = db_page.data();
    let header_size: usize = db_page.size();
    let clean: bool = reader.format_revision() >= 0x11 && reader.page_size() >= 16384
        && db_page.is_leaf();
    let page_offset: u64 = page_offset_of(reader.page_size(), db_page.page_number());
    let keys = match read_lv_keys(data, header_size, page_tag, page_tag_0, clean) {
        Some(k) => k,
        None => {
            return Err(EseError::RecordMalformed);
        },
    };
    let common_page_key = keys.0;
    let local_page_key = keys.1;
    let body: usize = keys.2;
    let used: usize = body - (header_size + page_tag.offset as usize);
    if used > page_tag.size as usize {
        return Err(EseError::RecordMalformed);
    }
    let left: usize = page_tag.size as usize - used;
    if left == 8 {
        if body <= data.len() - 8 {
            return Ok(None);
        } else {
            return Err(EseError::RecordMalformed);
        }
    }
    let pair = match read_key_pair(&common_page_key, &local_page_key) {
        Some(p) => p,
        None => {
            return Err(EseError::RecordMalformed);
        },
    };
    assert(page_offset <= 0x1_0000_0000 * 0x8000) by (nonlinear_arith)
        requires
            page_offset == (db_page.number() + 1) * reader.spec_page_size(),
            reader.spec_page_size() <= 0x8000,
            db_page.number() + 1 <= 0x1_0000_0000,
    ;
    Ok(
        Some(
            LV_tags {
                common_page_key,
                local_page_key,
                key: pair.0,
                offset: page_offset + body as u64,
                size: left as u32,
                seg_offset: pair.1,
            },
        ),
    )
}

/// The segments of a leaf of a long-value tree from tag `i` on, behind those
/// in `acc`. Tag 0 holds the shared key part and is no record, and defunct
/// tags are passed over.
pub open spec fn lv_page(
    page: Seq<u8>,
    page_offset: int,
    header_size: int,
    tags: Seq<PageTag>,
    clean: bool,
    i: int,
    acc: Seq<Segment>,
) -> Result<Seq<Segment>, EseError>
    decreases tags.len() - i,
{
    if i < 1 || i >= tags.len() {
        Ok(acc)
    } else if tags[i].spec_is_defunct() {
        lv_page(page, page_offset, header_size, tags, clean, i + 1, acc)
    } else {
        match lv_tag_of(page, page_offset, header_size, tags[i], tags[0], clean) {
            Err(e) => Err(e),
            Ok(None) => lv_page(
                page,
                page_offset,
                header_size,
                tags,
                clean,
                i + 1,
                acc,
            ),
            Ok(Some(s)) => lv_page(
                page,
                page_offset,
                header_size,
                tags,
                clean,
                i + 1,
                acc.push(s),
            ),
        }
    }
}

/// Whether a page is a leaf of a long-value tree.
pub open spec fn is_lv_leaf(page_flags: u32) -> bool {
    page_flags & PAGE_IS_LEAF != 0 && page_flags & PAGE_IS_LONG_VALUE != 0
}

/// The segments of the long-value tree under page `page_number`, which is at
/// most `depth` levels deep. The page has to be one of a long-value tree; a
/// root page has to carry a root record. A leaf gives its segments. Under a
/// branch the chain of pages that begins with the child of its second tag is
/// read.
pub open spec fn lv_tree(db: Db, page_number: u32, depth: nat) -> Result<Seq<Segment>, EseError>
    decreases depth, 0nat,
{
    if depth == 0 {
        Err(EseError::PageFlagsUnexpected)
    } else {
        match db.page(page_number) {
            Err(e) => Err(e),
            Ok(page) => match tags_of(page, db.revision, db.page_size) {
                Err(e) => Err(e),
                Ok(tags) => {
                    let flags = common_of(page).page_flags;
                    if flags & PAGE_IS_LONG_VALUE == 0 {
                        Err(EseError::PageFlagsUnexpected)
                    } else if flags & PAGE_IS_ROOT != 0 && (tags.len() == 0 || root_header_of(
                        page,
                        db.header_size(),
                        tags[0],
                    ) is Err) {
                        Err(EseError::RecordMalformed)
                    } else if flags & PAGE_IS_LEAF != 0 {
                        lv_page(
                            page,
                            (page_number + 1) * db.page_size,
                            db.header_size(),
                            tags,
                            flags_in_record(db, flags),
                            1,
                            Seq::empty(),
                        )
                    } else if tags.len() < 2 {
                        Err(EseError::RecordMalformed)
                    } else {
                        match branch_child_of(page, db.header_size(), tags[1]) {
                            Err(e) => Err(e),
                            Ok(child) => lv_chain(
                                db,
                                child,
                                page_number,
                                db.page_count(),
                                (depth - 1) as nat,
                                Seq::empty(),
                            ),
                        }
                    }
                },
            },
        }
    }
}

/// The segments of the chain of pages that begins with page `page_number`
/// and ends with a next-page link of zero, behind those in `acc`. A page that
/// names a page before it has to name `previous`. A page that is no leaf of a
/// long-value tree is read as a tree of its own, at most `depth` levels deep.
/// A chain of more than `limit` pages is given up as broken.
pub open spec fn lv_chain(
    db: Db,
    page_number: u32,
    previous: u32,
    limit: nat,
    depth: nat,
    acc: Seq<Segment>,
) -> Result<Seq<Segment>, EseError>
    decreases depth, limit + 1,
{
    if page_number == 0 {
        Ok(acc)
    } else if limit == 0 {
        Err(EseError::SiblingChainBroken)
    } else {
        match db.page(page_number) {
            Err(e) => Err(e),
            Ok(page) => match tags_of(page, db.revision, db.page_size) {
                Err(e) => Err(e),
                Ok(tags) => {
                    let common = common_of(page);
                    if common.previous_page != 0 && common.previous_page != previous {
                        Err(EseError::SiblingChainBroken)
                    } else {
                        let here = if is_lv_leaf(common.page_flags) {
                            lv_page(
                                page,
                                (page_number + 1) * db.page_size,
                                db.header_size(),
                                tags,
                                flags_in_record(db, common.page_flags),
                                1,
                                acc,
                            )
                        } else {
                            match lv_tree(db, page_number, depth) {
                                Err(e) => Err(e),
                                Ok(below) => Ok(acc + below),
                            }
                        };
                        match here {
                            Err(e) => Err(e),
                            Ok(next) => lv_chain(
                                db,
                                common.next_page,
                                page_number,
                                (limit - 1) as nat,
                                depth,
                                next,
                            ),
                        }
                    }
                },
            },
        }
    }
}

/// The segments of the long-value tree whose root is page `page_number`.
pub open spec fn lv_index(db: Db, page_number: u32) -> Result<Seq<Segment>, EseError> {
    lv_tree(db, page_number, db.page_count())
}

/// Reads the segments of one leaf and puts them behind `res`.
pub fn load_lv_page(reader: &Reader, db_page: &DbPage, res: Vec<LV_tags>) -> (r:
    Result<Vec<LV_tags>, EseError>)
    requires
        reader.wf(),
        db_page.wf(reader.spec_format_revision(), reader.spec_page_size()),
    ensures
        match r {
            Ok(v) => lv_page(
                db_page.bytes(),
                (db_page.number() + 1) * reader.spec_page_size(),
                db_page.spec_size(),
                db_page.tags(),
                flags_in_record(db_of(reader), db_page.spec_flags()),
                1,
                segments_of(res@),
            ) == Ok::<Seq<Segment>, EseError>(segments_of(v@)),
            Err(e) => lv_page(
                db_page.bytes(),
                (db_page.number() + 1) * reader.spec_page_size(),
                db_page.spec_size(),
                db_page.tags(),
                flags_in_record(db_of(reader), db_page.spec_flags()),
                1,
                segments_of(res@),
            ) == Err::<Seq<Segment>, EseError>(e),
        },
{
    let pg_tags = db_page.page_tags();
    let ghost first = segments_of(res@);
    let ghost clean = flags_in_record(db_of(reader), db_page.spec_flags());
    let ghost page_offset = (db_page.number() + 1) * reader.spec_page_size();
    let mut found = res;
    let mut i: usize = 1;
    while i < pg_tags.len()
        invariant
            1 <= i,
            reader.wf(),
            db_page.wf(reader.spec_format_revision(), reader.spec_page_size()),
            pg_tags@ == db_page.tags(),
            clean == flags_in_record(db_of(reader), db_page.spec_flags()),
            page_offset == (db_page.number() + 1) * reader.spec_page_size(),
            first == segments_of(res@),
            lv_page(
                db_page.bytes(),
                page_offset,
                db_page.spec_size(),
                db_page.tags(),
                clean,
                1,
                first,
            ) == lv_page(
                db_page.bytes(),
                page_offset,
                db_page.spec_size(),
                db_page.tags(),
                clean,
                i as int,
                segments_of(found@),
            ),
        decreases pg_tags.len() - i,
    {
        if !pg_tags[i].is_defunct() {
            match load_lv_tag(reader, db_page, &pg_tags[i], &pg_tags[0]) {
                Ok(Some(lv_tag)) => {
                    let ghost before = segments_of(found@);
                    found.push(lv_tag);
                    assert(segments_of(found@) =~= before.push(lv_tag@));
                },
                Ok(None) => {},
                Err(e) => {
                    return Err(e);
                },
            }
        }
        i += 1;
    }
    Ok(found)
}

/// Appends the segments in `more` to `res`.
pub fn append_tags(res: Vec<LV_tags>, more: Vec<LV_tags>) -> (r: Vec<LV_tags>)
    ensures
        segments_of(r@) == segments_of(res@) + segments_of(more@),
{
    let mut all = res;
    let mut rest = more;
    let ghost head = segments_of(res@);
    let ghost tail = segments_of(more@);
    all.append(&mut rest);
    assert(segments_of(all@) =~= head + tail);
    all
}

/// Reads the segments of the long-value tree under page `page_number`, at
/// most `depth` levels deep.
pub fn load_lv_tree(reader: &mut Reader, page_number: u32, depth: usize) -> (r: Result<
    Vec<LV_tags>,
    EseError,
>)
    requires
        old(reader).wf(),
    ensures
        final(reader).wf(),
        final(reader).same_file(old(reader)),
        match r {
            Ok(v) => lv_tree(db_of(old(reader)), page_number, depth as nat) == Ok::<
                Seq<Segment>,
                EseError,
            >(segments_of(v@)),
            Err(e) => lv_tree(db_of(old(reader)), page_number, depth as nat) == Err::<
                Seq<Segment>,
                EseError,
            >(e),
        },
    decreases depth,
{
    if depth == 0 {
        return Err(EseError::PageFlagsUnexpected);
    }
    let ghost db = db_of(reader);
    let db_page = match DbPage::new(reader, page_number) {
        Ok(p) => p,
        Err(e) => {
            return Err(e);
        },
    };
    let pg_tags = db_page.page_tags();
    let flags: u32 = db_page.flags();
    if flags & PAGE_IS_LONG_VALUE == 0 {
        return Err(EseError::PageFlagsUnexpected);
    }
    if flags & PAGE_IS_ROOT != 0 {
        if pg_tags.len() == 0 {
            return Err(EseError::RecordMalformed);
        }
        match load_root_page_header(reader, &db_page, &pg_tags[0]) {
            Ok(_) => {},
            Err(_) => {
                return Err(EseError::RecordMalformed);
            },
        }
    }
    let res: Vec<LV_tags> = Vec::new();
    assert(segments_of(res@) =~= Seq::<Segment>::empty());
    if flags & PAGE_IS_LEAF != 0 {
        return load_lv_page(reader, &db_page, res);
    }
    if pg_tags.len() < 2 {
        return Err(EseError::RecordMalformed);
    }
    let child: u32 = match page_tag_get_branch_child_page_number(reader, &db_page, &pg_tags[1]) {
        Ok(c) => c,
        Err(e) => {
            return Err(e);
        },
    };
    let mut res = res;
    let mut prev_page_number: u32 = page_number;
    let mut current: u32 = child;
    let mut limit: usize = page_count(reader);
    while current != 0
        invariant
            depth > 0,
            reader.wf(),
            reader.same_file(old(reader)),
            db == db_of(reader),
            db == db_of(old(reader)),
            lv_tree(db, page_number, depth as nat) == lv_chain(
                db,
                current,
                prev_page_number,
                limit as nat,
                (depth - 1) as nat,
                segments_of(res@),
            ),
        decreases limit,
    {
        if limit == 0 {
            return Err(EseError::SiblingChainBroken);
        }
        let db_page = match DbPage::new(reader, current) {
            Ok(p) => p,
            Err(e) => {
                return Err(e);
            },
        };
        if db_page.prev_page() != 0 && prev_page_number != db_page.prev_page() {
            return Err(EseError::SiblingChainBroken);
        }
        let page_flags: u32 = db_page.flags();
        if page_flags & PAGE_IS_LEAF != 0 && page_flags & PAGE_IS_LONG_VALUE != 0 {
            res = match load_lv_page(reader, &db_page, res) {
                Ok(v) => v,
                Err(e) => {
                    return Err(e);
                },
            };
        } else {
            let below = match load_lv_tree(reader, current, depth - 1) {
                Ok(v) => v,
                Err(e) => {
                    return Err(e);
                },
            };
            res = append_tags(res, below);
        }
        prev_page_number = current;
        current = db_page.next_page();
        limit -= 1;
    }
    Ok(res)
}

/// Reads the long-value index of a table: the segments of the tree whose
/// root is page `page_number`. No tree is deeper than the file has pages.
pub fn load_lv_metadata(reader: &mut Reader, page_number: u32) -> (r: Result<Vec<LV_tags>, EseError>)
    requires
        old(reader).wf(),
    ensures
        final(reader).wf(),
        final(reader).same_file(old(reader)),
        match r {
            Ok(v) => lv_index(db_of(old(reader)), page_number) == Ok::<Seq<Segment>, EseError>(
                segments_of(v@),
            ),
            Err(e) => lv_index(db_of(old(reader)), page_number) == Err::<Seq<Segment>, EseError>(
                e,
            ),
        },
{
    let depth: usize = page_count(reader);
    load_lv_tree(reader, page_number, depth)
}


/// Whether the segments at the places `picks` are segments of `key` that
/// follow each other without gap or overlap from offset `start` on.
pub open spec fn contiguous(segments: Seq<Segment>, key: u32, picks: Seq<int>, start: nat) -> bool
    decreases picks.len(),
{
    if picks.len() == 0 {
        true
    } else {
        let first = picks[0];
        &&& 0 <= first < segments.len()
        &&& continues(segments[first], key, start)
        &&& contiguous(segments, key, picks.drop_first(), start + segments[first].size as nat)
    }
}

/// The sizes of the segments at the places `picks`, added up.
pub open spec fn total_size(segments: Seq<Segment>, picks: Seq<int>) -> nat
    decreases picks.len(),
{
    if picks.len() == 0 {
        0
    } else {
        segments[picks[0]].size as nat + total_size(segments, picks.drop_first())
    }
}

proof fn lemma_lv_scan(db: Db, segments: Seq<Segment>, key: u32, acc: Seq<u8>, i: int) -> (picks:
    Seq<int>)
    ensures
        lv_scan(db, segments, key, acc, i) matches Ok(v) ==> contiguous(
            segments,
            key,
            picks,
            acc.len(),
        ) && v.len() == acc.len() + total_size(segments, picks) && v.len() > 0,
    decreases room(acc.len()), segments.len() - i,
{
    if i < 0 || i >= segments.len() {
        Seq::empty()
    } else if continues(segments[i], key, acc.len()) {
        match read_result(
            db.file,
            db.page_size as int,
            segments[i].offset as int,
            segments[i].size as int,
        ) {
            Err(e) => Seq::empty(),
            Ok(bytes) => if bytes.len() == segments[i].size {
                let rest = lemma_lv_scan(db, segments, key, acc + bytes, 0);
                let picks = seq![i] + rest;
                assert(picks.drop_first() =~= rest);
                picks
            } else {
                Seq::empty()
            },
        }
    } else {
        lemma_lv_scan(db, segments, key, acc, i + 1)
    }
}

/// A long value that is put together is made of segments of its key that
/// part it without gap or overlap from offset zero on, and is as long as
/// their sizes added up.
pub proof fn lemma_long_value_is_partitioned(db: Db, segments: Seq<Segment>, key: u32)
    ensures
        lv_value(db, segments, key) matches Ok(v) ==> exists|picks: Seq<int>|
            contiguous(segments, key, picks, 0) && v.len() == total_size(segments, picks),
{
    let picks = lemma_lv_scan(db, segments, key, Seq::empty(), 0);
    if let Ok(v) = lv_value(db, segments, key) {
        assert(contiguous(segments, key, picks, 0) && v.len() == total_size(segments, picks));
    }
}

} // verus!
