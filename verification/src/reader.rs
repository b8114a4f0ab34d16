use vstd::prelude::*;
use cache_2q::Cache;
use crate::bytes::{
    get_bytes, get_le16, get_le32, get_u8, in_range, le16_at, le32_at, word_at,
};
use crate::cache::{
    cache_clear, cache_contains_key, cache_get, cache_insert, cache_is_remembered, cache_new,
    cache_oldest, cache_remove, enqueued, key_position, refreshed, view_of, CacheView,
    MAX_CACHE_SIZE,
};
use crate::error::EseError;

verus! {

/// The four bytes `ef cd ab 89` that follow the checksum of a database header.
pub const ESEDB_FILE_SIGNATURE: u32 = 0x89abcdef;

/// The seed of the header checksum.
pub const ESEDB_CHECKSUM_SEED: u32 = 0x89abcdef;

/// The only format version that is read.
pub const ESEDB_FORMAT_VERSION: u32 = 0x620;

/// The number of bytes of a database header.
pub const FILE_HEADER_SIZE: usize = 668;

/// The page size with which the two headers are fetched.
pub const HEADER_PAGE_SIZE: u64 = 2048;

/// The fields of a database header that the reader goes by.
#[derive(Clone, Copy, Debug, PartialEq, Eq, Structural)]
pub struct FileHeader {
    pub checksum: u32,
    pub signature: u32,
    pub format_version: u32,
    pub file_type: u32,
    pub database_state: u32,
    pub last_object_identifier: u32,
    pub format_revision: u32,
    pub page_size: u32,
    pub creation_format_version: u32,
    pub creation_format_revision: u32,
}

/// The header that the `FILE_HEADER_SIZE` bytes `h` hold.
pub open spec fn file_header_of(h: Seq<u8>) -> FileHeader {
    FileHeader {
        checksum: le32_at(h, 0),
        signature: le32_at(h, 4),
        format_version: le32_at(h, 8),
        file_type: le32_at(h, 12),
        database_state: le32_at(h, 52),
        last_object_identifier: le32_at(h, 212),
        format_revision: le32_at(h, 232),
        page_size: le32_at(h, 236),
        creation_format_version: le32_at(h, 340),
        creation_format_revision: le32_at(h, 344),
    }
}

/// The seed folded by exclusive or with the 32-bit words of `h` from the
/// second up to, but without, word `words`.
pub open spec fn xor_fold(h: Seq<u8>, words: int) -> u32
    decreases words,
{
    if words <= 1 {
        ESEDB_CHECKSUM_SEED
    } else {
        xor_fold(h, words - 1) ^ le32_at(h, 4 * (words - 1))
    }
}

/// The checksum of a header: every word after the stored checksum is folded in.
pub open spec fn header_checksum(h: Seq<u8>) -> u32 {
    xor_fold(h, FILE_HEADER_SIZE as int / 4)
}

/// Whether the format has pages of this size.
pub open spec fn valid_page_size(page_size: u32) -> bool {
    page_size == 2048 || page_size == 4096 || page_size == 8192 || page_size == 16384 || page_size
        == 32768
}

/// Page `index` of a file cut into pages of `page_size` bytes.
pub open spec fn page_block(file: Seq<u8>, page_size: int, index: int) -> Seq<u8> {
    file.subrange(index * page_size, (index + 1) * page_size)
}

/// What a read of `len` bytes at `offset` gives: the bytes, if the page that
/// holds `offset` lies in the file and the bytes end inside that page.
pub open spec fn read_result(file: Seq<u8>, page_size: int, offset: int, len: int) -> Result<
    Seq<u8>,
    EseError,
> {
    let first = (offset / page_size) * page_size;
    if first + page_size > file.len() {
        Err(EseError::Io)
    } else if offset - first + len > page_size {
        Err(EseError::RecordMalformed)
    } else {
        Ok(file.subrange(offset, offset + len))
    }
}

/// Whether a cache has room for the value of `index`, which it does not
/// hold: a place is free, or the value will push the oldest out of a full
/// recent queue, which an insertion does by itself.
pub open spec fn has_room(cache: CacheView, index: usize) -> bool {
    cache.total() + 1 <= cache.limit || (!cache.remembered.contains(index) && cache.recent.len()
        >= cache.limit)
}

/// The cache with room for the value of `index`: where it has none, its
/// oldest value leaves, of the recent queue first.
pub open spec fn made_room(cache: CacheView, index: usize) -> CacheView {
    if has_room(cache, index) {
        cache
    } else {
        match cache.oldest() {
            Some(key) => cache.after_remove(key),
            None => cache,
        }
    }
}

/// The cache after the page `index` with bytes `block` was asked for: a cached
/// page is looked up; another is inserted first, after room was made for it.
pub open spec fn after_read(cache: CacheView, index: usize, block: Seq<u8>) -> CacheView {
    if cache.holds(index) {
        cache.after_get(index)
    } else {
        made_room(cache, index).after_insert(index, block).after_get(index)
    }
}

/// The header a file opens with, or why it does not open: the two headers are
/// fetched with 2 KiB pages, revision and page size that the first leaves zero
/// come from the mirror.
pub open spec fn open_result(file: Seq<u8>) -> Result<FileHeader, EseError> {
    match read_result(file, HEADER_PAGE_SIZE as int, 0, FILE_HEADER_SIZE as int) {
        Err(e) => Err(e),
        Ok(h) => {
            let primary = file_header_of(h);
            if primary.signature != ESEDB_FILE_SIGNATURE {
                Err(EseError::BadSignature)
            } else if primary.checksum != header_checksum(h) {
                Err(EseError::ChecksumMismatch)
            } else {
                match read_result(
                    file,
                    HEADER_PAGE_SIZE as int,
                    primary.page_size as int,
                    FILE_HEADER_SIZE as int,
                ) {
                    Err(e) => Err(e),
                    Ok(m) => merged_header(primary, file_header_of(m)),
                }
            }
        },
    }
}

/// The header that results from a first header and its mirror.
pub open spec fn merged_header(primary: FileHeader, mirror: FileHeader) -> Result<
    FileHeader,
    EseError,
> {
    let revision = if primary.format_revision == 0 {
        mirror.format_revision
    } else {
        primary.format_revision
    };
    let page_size = if primary.page_size == 0 {
        mirror.page_size
    } else {
        primary.page_size
    };
    if revision != mirror.format_revision {
        Err(EseError::HeaderMismatch)
    } else if page_size != mirror.page_size {
        Err(EseError::HeaderMismatch)
    } else if primary.format_version != ESEDB_FORMAT_VERSION {
        Err(EseError::UnsupportedVersion)
    } else if !valid_page_size(page_size) {
        Err(EseError::HeaderMismatch)
    } else if revision <= 2 {
        Err(EseError::Unimplemented)
    } else {
        Ok(FileHeader { format_revision: revision, page_size: page_size, ..primary })
    }
}

/// Whether every entry of a queue is a page of `file` under its index.
pub open spec fn queue_coherent(queue: Seq<(usize, Seq<u8>)>, file: Seq<u8>, page_size: int) -> bool {
    forall|i: int|
        0 <= i < queue.len() ==> ((#[trigger] queue[i]).0 + 1) * page_size <= file.len()
            && queue[i].1 == page_block(file, page_size, queue[i].0 as int)
}

/// Whether a cache holds pages of `file` only, within its limit.
pub open spec fn cache_coherent(cache: CacheView, file: Seq<u8>, page_size: int) -> bool {
    &&& queue_coherent(cache.recent, file, page_size)
    &&& queue_coherent(cache.frequent, file, page_size)
    &&& cache.recent.len() <= cache.limit
    &&& cache.frequent.len() <= cache.limit
    &&& cache.total() <= cache.limit
    &&& cache.limit >= 1
}

/// The position of a key is the first place where it stands, or the length
/// of the queue.
pub proof fn lemma_key_position(queue: Seq<(usize, Seq<u8>)>, key: usize)
    ensures
        0 <= key_position(queue, key) <= queue.len(),
        key_position(queue, key) < queue.len() ==> queue[key_position(queue, key)].0 == key,
        forall|i: int| 0 <= i < key_position(queue, key) ==> (#[trigger] queue[i]).0 != key,
    decreases queue.len(),
{
    if queue.len() > 0 && queue[0].0 != key {
        let rest = queue.drop_first();
        lemma_key_position(rest, key);
        assert forall|i: int| 0 <= i < key_position(queue, key) implies (#[trigger] queue[i]).0
            != key by {
            if i > 0 {
                assert(queue[i] == rest[i - 1]);
            }
        }
    }
}

/// A key that stands at `i`, with no earlier occurrence, has position `i`.
pub proof fn lemma_key_position_is(queue: Seq<(usize, Seq<u8>)>, key: usize, i: int)
    requires
        0 <= i <= queue.len(),
        forall|j: int| 0 <= j < i ==> (#[trigger] queue[j]).0 != key,
        i < queue.len() ==> queue[i].0 == key,
    ensures
        key_position(queue, key) == i,
{
    lemma_key_position(queue, key);
    let p = key_position(queue, key);
    if p < i {
        assert(queue[p].0 == key);
    } else if p > i {
        assert(queue[i].0 == key);
    }
}

proof fn lemma_enqueued(queue: Seq<(usize, Seq<u8>)>, limit: nat, key: usize, value: Seq<u8>, file: Seq<u8>, page_size: int)
    requires
        queue_coherent(queue, file, page_size),
        queue.len() <= limit,
        limit >= 1,
        key_position(queue, key) == queue.len(),
        (key + 1) * page_size <= file.len(),
        value == page_block(file, page_size, key as int),
    ensures
        queue_coherent(enqueued(queue, limit, key, value), file, page_size),
        enqueued(queue, limit, key, value).len() <= limit,
        key_position(enqueued(queue, limit, key, value), key) == enqueued(queue, limit, key, value).len() - 1,
        enqueued(queue, limit, key, value).last() == (key, value),
{
    let next = enqueued(queue, limit, key, value);
    lemma_key_position(queue, key);
    let kept = if queue.len() + 1 > limit { queue.drop_first() } else { queue };
    assert(next == kept.push((key, value)));
    assert forall|i: int| 0 <= i < kept.len() implies (#[trigger] kept[i]).0 != key && (kept[i].0 + 1) * page_size <= file.len()
        && kept[i].1 == page_block(file, page_size, kept[i].0 as int) by {
        if queue.len() + 1 > limit {
            assert(kept[i] == queue[i + 1]);
        } else {
            assert(kept[i] == queue[i]);
        }
    }
    assert forall|i: int| 0 <= i < next.len() implies ((#[trigger] next[i]).0 + 1) * page_size <= file.len()
        && next[i].1 == page_block(file, page_size, next[i].0 as int) by {
        if i < kept.len() {
            assert(next[i] == kept[i]);
        }
    }
    assert forall|j: int| 0 <= j < next.len() - 1 implies (#[trigger] next[j]).0 != key by {
        assert(next[j] == kept[j]);
    }
    lemma_key_position_is(next, key, next.len() - 1);
}

proof fn lemma_refreshed(queue: Seq<(usize, Seq<u8>)>, key: usize, file: Seq<u8>, page_size: int)
    requires
        queue_coherent(queue, file, page_size),
        key_position(queue, key) < queue.len(),
    ensures
        queue_coherent(refreshed(queue, key), file, page_size),
        refreshed(queue, key).len() == queue.len(),
        queue[key_position(queue, key)].1 == page_block(file, page_size, key as int),
        (key + 1) * page_size <= file.len(),
{
    lemma_key_position(queue, key);
    let p = key_position(queue, key);
    let next = refreshed(queue, key);
    assert forall|i: int| 0 <= i < next.len() implies ((#[trigger] next[i]).0 + 1) * page_size <= file.len()
        && next[i].1 == page_block(file, page_size, next[i].0 as int) by {
        if i < p {
            assert(next[i] == queue[i]);
        } else if i < next.len() - 1 {
            assert(next[i] == queue[i + 1]);
        } else {
            assert(next[i] == queue[p]);
        }
    }
}

/// A read keeps a coherent cache coherent, and leaves the page in it.
pub proof fn lemma_after_read(cache: CacheView, index: usize, file: Seq<u8>, page_size: int)
    requires
        cache_coherent(cache, file, page_size),
        (index + 1) * page_size <= file.len(),
    ensures
        cache_coherent(after_read(cache, index, page_block(file, page_size, index as int)), file, page_size),
        after_read(cache, index, page_block(file, page_size, index as int)).holds(index),
        after_read(cache, index, page_block(file, page_size, index as int)).limit == cache.limit,
{
    let block = page_block(file, page_size, index as int);
    lemma_key_position(cache.recent, index);
    lemma_key_position(cache.frequent, index);
    if cache.holds(index) {
        lemma_after_get(cache, index, file, page_size);
    } else {
        lemma_made_room(cache, index, file, page_size);
        lemma_after_insert(made_room(cache, index), index, file, page_size);
        lemma_after_get(
            made_room(cache, index).after_insert(index, block),
            index,
            file,
            page_size,
        );
    }
}

/// A queue without one of its entries is coherent still, and has no key
/// that it did not have.
proof fn lemma_removed(queue: Seq<(usize, Seq<u8>)>, at: int, key: usize, file: Seq<u8>, page_size: int)
    requires
        queue_coherent(queue, file, page_size),
        0 <= at < queue.len(),
        key_position(queue, key) == queue.len(),
    ensures
        queue_coherent(queue.remove(at), file, page_size),
        key_position(queue.remove(at), key) == queue.len() - 1,
{
    let next = queue.remove(at);
    lemma_key_position(queue, key);
    assert forall|i: int| 0 <= i < next.len() implies ((#[trigger] next[i]).0 + 1) * page_size
        <= file.len() && next[i].1 == page_block(file, page_size, next[i].0 as int) && next[i].0
        != key by {
        if i < at {
            assert(next[i] == queue[i]);
        } else {
            assert(next[i] == queue[i + 1]);
        }
    }
    lemma_key_position_is(next, key, next.len() as int);
}

/// Making room keeps a coherent cache coherent, and leaves room.
pub proof fn lemma_made_room(cache: CacheView, index: usize, file: Seq<u8>, page_size: int)
    requires
        cache_coherent(cache, file, page_size),
        !cache.holds(index),
    ensures
        cache_coherent(made_room(cache, index), file, page_size),
        !made_room(cache, index).holds(index),
        has_room(made_room(cache, index), index),
        made_room(cache, index).limit == cache.limit,
        made_room(cache, index).remembered == cache.remembered,
{
    lemma_key_position(cache.recent, index);
    lemma_key_position(cache.frequent, index);
    if !has_room(cache, index) {
        if cache.recent.len() > 0 {
            let key = cache.recent[0].0;
            lemma_key_position_is(cache.recent, key, 0);
            lemma_removed(cache.recent, 0, index, file, page_size);
        } else {
            let key = cache.frequent[0].0;
            lemma_key_position_is(cache.recent, key, 0);
            lemma_key_position_is(cache.frequent, key, 0);
            lemma_removed(cache.frequent, 0, index, file, page_size);
        }
    }
}

proof fn lemma_after_get(cache: CacheView, index: usize, file: Seq<u8>, page_size: int)
    requires
        cache_coherent(cache, file, page_size),
        cache.holds(index),
    ensures
        cache_coherent(cache.after_get(index), file, page_size),
        cache.after_get(index).holds(index),
        cache.value_of(index) == page_block(file, page_size, index as int),
        (index + 1) * page_size <= file.len(),
        cache.after_get(index).limit == cache.limit,
        cache.after_get(index).recent.len() == cache.recent.len(),
        cache.after_get(index).frequent.len() == cache.frequent.len(),
{
    lemma_key_position(cache.recent, index);
    lemma_key_position(cache.frequent, index);
    if cache.in_recent(index) {
        lemma_refreshed(cache.recent, index, file, page_size);
        let next = refreshed(cache.recent, index);
        let p = key_position(cache.recent, index);
        assert(next[next.len() - 1] == cache.recent[p]);
        lemma_key_position(next, index);
    } else {
        lemma_refreshed(cache.frequent, index, file, page_size);
        let next = refreshed(cache.frequent, index);
        let p = key_position(cache.frequent, index);
        assert(next[next.len() - 1] == cache.frequent[p]);
        lemma_key_position(next, index);
    }
}

proof fn lemma_after_insert(cache: CacheView, index: usize, file: Seq<u8>, page_size: int)
    requires
        cache_coherent(cache, file, page_size),
        !cache.holds(index),
        has_room(cache, index),
        (index + 1) * page_size <= file.len(),
    ensures
        cache_coherent(cache.after_insert(index, page_block(file, page_size, index as int)), file, page_size),
        cache.after_insert(index, page_block(file, page_size, index as int)).holds(index),
        cache.after_insert(index, page_block(file, page_size, index as int)).limit == cache.limit,
        cache.after_insert(index, page_block(file, page_size, index as int)).frequent.len()
            == cache.frequent.len() + (if cache.remembered.contains(index) {
            1int
        } else {
            0int
        }),
        cache.after_insert(index, page_block(file, page_size, index as int)).recent.len()
            == cache.recent.len() + (if !cache.remembered.contains(index) && cache.recent.len()
            < cache.limit {
            1int
        } else {
            0int
        }),
{
    let block = page_block(file, page_size, index as int);
    lemma_key_position(cache.recent, index);
    lemma_key_position(cache.frequent, index);
    if cache.remembered.contains(index) {
        lemma_enqueued(cache.frequent, cache.limit, index, block, file, page_size);
    } else {
        lemma_enqueued(cache.recent, cache.limit, index, block, file, page_size);
    }
}

/// The pager: the bytes of a database file, served page by page through a
/// two-queue cache.
pub struct Reader {
    file: Vec<u8>,
    cache: Cache<usize, Vec<u8>>,
    cache_size: usize,
    recent_count: usize,
    frequent_count: usize,
    format_version: u32,
    format_revision: u32,
    page_size: u64,
    last_page_number: u32,
}

impl Reader {
    /// The bytes of the file.
    pub closed spec fn image(&self) -> Seq<u8> {
        self.file@
    }

    /// What the page cache holds.
    pub closed spec fn cached(&self) -> CacheView {
        view_of(self.cache)
    }

    /// The size of a page.
    pub closed spec fn spec_page_size(&self) -> u64 {
        self.page_size
    }

    /// The format version of the file.
    pub closed spec fn spec_format_version(&self) -> u32 {
        self.format_version
    }

    /// The format revision of the file.
    pub closed spec fn spec_format_revision(&self) -> u32 {
        self.format_revision
    }

    /// The number of the last page before the data pages.
    pub closed spec fn spec_last_page_number(&self) -> u32 {
        self.last_page_number
    }

    /// The reader knows the size of its cache and how many pages each of
    /// its queues holds.
    pub closed spec fn counted(&self) -> bool {
        &&& self.cache_size == view_of(self.cache).limit
        &&& self.recent_count == view_of(self.cache).recent.len()
        &&& self.frequent_count == view_of(self.cache).frequent.len()
    }

    /// The cache holds pages of the file only, and no more than its size.
    pub open spec fn coherent(&self) -> bool {
        &&& self.spec_page_size() > 0
        &&& self.counted()
        &&& cache_coherent(self.cached(), self.image(), self.spec_page_size() as int)
    }

    /// The state of a reader over an opened database.
    pub open spec fn wf(&self) -> bool {
        &&& self.coherent()
        &&& self.spec_page_size() <= u32::MAX
        &&& valid_page_size(self.spec_page_size() as u32)
        &&& self.spec_format_version() == ESEDB_FORMAT_VERSION
        &&& self.spec_format_revision() > 2
    }

    /// Same file, page size, version and revision; the cache may differ.
    pub open spec fn same_file(&self, other: &Reader) -> bool {
        &&& self.image() == other.image()
        &&& self.spec_page_size() == other.spec_page_size()
        &&& self.spec_format_version() == other.spec_format_version()
        &&& self.spec_format_revision() == other.spec_format_revision()
        &&& self.spec_last_page_number() == other.spec_last_page_number()
        &&& self.cached().limit == other.cached().limit
    }

    /// What a read at `offset` gives on this file.
    pub open spec fn read_spec(&self, offset: u64, len: usize) -> Result<Seq<u8>, EseError> {
        read_result(self.image(), self.spec_page_size() as int, offset as int, len as int)
    }

    /// What reading has done to the cache: nothing where the page lies outside
    /// the file, else one lookup of the page, after its insertion if it was
    /// absent, for which the oldest page leaves where the cache is full.
    pub open spec fn cache_after(&self, offset: u64) -> CacheView {
        let ps = self.spec_page_size() as int;
        let index = offset as int / ps;
        if (index + 1) * ps > self.image().len() {
            self.cached()
        } else {
            after_read(self.cached(), index as usize, page_block(self.image(), ps, index))
        }
    }

    /// The size of a page.
    #[verifier::when_used_as_spec(spec_page_size)]
    pub fn page_size(&self) -> (r: u64)
        ensures
            r == self.spec_page_size(),
    {
        self.page_size
    }

    /// The format version of the file.
    #[verifier::when_used_as_spec(spec_format_version)]
    pub fn format_version(&self) -> (r: u32)
        ensures
            r == self.spec_format_version(),
    {
        self.format_version
    }

    /// The format revision of the file.
    #[verifier::when_used_as_spec(spec_format_revision)]
    pub fn format_revision(&self) -> (r: u32)
        ensures
            r == self.spec_format_revision(),
    {
        self.format_revision
    }

    /// The number of the last page before the data pages.
    #[verifier::when_used_as_spec(spec_last_page_number)]
    pub fn last_page_number(&self) -> (r: u32)
        ensures
            r == self.spec_last_page_number(),
    {
        self.last_page_number
    }

    /// The number of bytes of the file.
    pub fn file_len(&self) -> (r: usize)
        ensures
            r == self.image().len(),
    {
        self.file.len()
    }

    /// Whether page `index` of the file is in the cache.
    pub fn is_cached(&self, index: usize) -> (r: bool)
        ensures
            r == self.cached().holds(index),
    {
        cache_contains_key(&self.cache, index)
    }

    /// Makes room in the cache for page `index`, which it does not hold, and
    /// says whether the page is remembered. A page needs room where the
    /// cache is full, unless it will push the oldest page out of a full recent
    /// queue by itself. The page that leaves is the oldest, of the recent queue
    /// first.
    fn make_room(&mut self, index: usize) -> (remembered: bool)
        requires
            old(self).counted(),
            !old(self).cached().holds(index),
            old(self).cached().total() <= old(self).cached().limit,
        ensures
            final(self).counted(),
            final(self).cached() == made_room(old(self).cached(), index),
            remembered == old(self).cached().remembered.contains(index),
            final(self).image() == old(self).image(),
            final(self).spec_page_size() == old(self).spec_page_size(),
            final(self).spec_format_version() == old(self).spec_format_version(),
            final(self).spec_format_revision() == old(self).spec_format_revision(),
            final(self).spec_last_page_number() == old(self).spec_last_page_number(),
    {
        let remembered: bool = cache_is_remembered(&mut self.cache, index);
        let full: bool = self.recent_count + self.frequent_count >= self.cache_size;
        if full && (remembered || self.recent_count < self.cache_size) {
            match cache_oldest(&self.cache) {
                Some(key) => {
                    proof {
                        let cache = view_of(self.cache);
                        if cache.recent.len() > 0 {
                            lemma_key_position_is(cache.recent, key, 0);
                        } else {
                            lemma_key_position_is(cache.recent, key, 0);
                            lemma_key_position_is(cache.frequent, key, 0);
                        }
                    }
                    cache_remove(&mut self.cache, key);
                    if self.recent_count > 0 {
                        self.recent_count = self.recent_count - 1;
                    } else {
                        self.frequent_count = self.frequent_count - 1;
                    }
                },
                None => {},
            }
        }
        remembered
    }

    /// Reads `len` bytes at `offset` through the cache.
    pub fn read(&mut self, offset: u64, len: usize) -> (r: Result<Vec<u8>, EseError>)
        requires
            old(self).coherent(),
        ensures
            final(self).coherent(),
            final(self).same_file(old(self)),
            final(self).wf() == old(self).wf(),
            final(self).cached() == old(self).cache_after(offset),
            final(self).cached().total() <= final(self).cached().limit,
            match r {
                Ok(v) => old(self).read_spec(offset, len) == Ok::<Seq<u8>, EseError>(v@),
                Err(e) => old(self).read_spec(offset, len) == Err::<Seq<u8>, EseError>(e),
            },
    {
        let ps: u64 = self.page_size;
        let pg_no: u64 = offset / ps;
        let file_len: usize = self.file.len();
        assert(pg_no * ps <= offset && offset - pg_no * ps < ps) by (nonlinear_arith)
            requires
                pg_no == offset / ps,
                ps > 0,
        ;
        let first: u64 = pg_no * ps;
        if (file_len as u64) < ps || first > file_len as u64 - ps {
            assert((pg_no + 1) * ps == first + ps) by (nonlinear_arith)
                requires
                    first == pg_no * ps,
            ;
            return Err(EseError::Io);
        }
        assert((pg_no + 1) * ps == first + ps) by (nonlinear_arith)
            requires
                first == pg_no * ps,
        ;
        assert(pg_no <= first) by (nonlinear_arith)
            requires
                first == pg_no * ps,
                ps > 0,
        ;
        let index: usize = pg_no as usize;
        let ghost block = page_block(self.file@, ps as int, index as int);
        proof {
            lemma_after_read(view_of(self.cache), index, self.file@, ps as int);
        }
        if !cache_contains_key(&self.cache, index) {
            let page = get_bytes(&self.file, first as usize, ps as usize);
            match page {
                Some(buf) => {
                    proof {
                        lemma_made_room(view_of(self.cache), index, self.file@, ps as int);
                    }
                    let remembered: bool = self.make_room(index);
                    proof {
                        lemma_after_insert(view_of(self.cache), index, self.file@, ps as int);
                    }
                    cache_insert(&mut self.cache, index, buf);
                    if remembered {
                        self.frequent_count = self.frequent_count + 1;
                    } else if self.recent_count < self.cache_size {
                        self.recent_count = self.recent_count + 1;
                    }
                },
                None => {
                    assert(false);
                },
            }
        }
        proof {
            lemma_after_get(view_of(self.cache), index, self.file@, ps as int);
        }
        let cached = cache_get(&mut self.cache, index);
        assert(view_of(self.cache) == after_read(view_of(old(self).cache), index, block));
        match cached {
            Some(page_buf) => {
                let page_offset: u64 = offset - first;
                if len as u64 > ps - page_offset {
                    return Err(EseError::RecordMalformed);
                }
                match get_bytes(&page_buf, page_offset as usize, len) {
                    Some(v) => {
                        assert(v@ == self.file@.subrange(offset as int, offset + len));
                        Ok(v)
                    },
                    None => {
                        assert(false);
                        Err(EseError::Io)
                    },
                }
            },
            None => {
                assert(false);
                Err(EseError::Io)
            },
        }
    }

    /// Reads `size` bytes at `offset`.
    pub fn read_bytes(&mut self, offset: u64, size: usize) -> (r: Result<Vec<u8>, EseError>)
        requires
            old(self).coherent(),
        ensures
            final(self).coherent(),
            final(self).same_file(old(self)),
            final(self).wf() == old(self).wf(),
            final(self).cached() == old(self).cache_after(offset),
            match r {
                Ok(v) => old(self).read_spec(offset, size) == Ok::<Seq<u8>, EseError>(v@),
                Err(e) => old(self).read_spec(offset, size) == Err::<Seq<u8>, EseError>(e),
            },
    {
        self.read(offset, size)
    }

    /// Reads the byte at `offset`.
    pub fn read_u8(&mut self, offset: u64) -> (r: Result<u8, EseError>)
        requires
            old(self).coherent(),
        ensures
            final(self).coherent(),
            final(self).same_file(old(self)),
            final(self).wf() == old(self).wf(),
            final(self).cached() == old(self).cache_after(offset),
            match r {
                Ok(v) => old(self).read_spec(offset, 1) is Ok && v == old(self).image()[offset as int],
                Err(e) => old(self).read_spec(offset, 1) == Err::<Seq<u8>, EseError>(e),
            },
    {
        match self.read(offset, 1) {
            Ok(v) => {
                let b = get_u8(&v, 0);
                match b {
                    Some(x) => Ok(x),
                    None => {
                        assert(false);
                        Err(EseError::Io)
                    },
                }
            },
            Err(e) => Err(e),
        }
    }

    /// Reads the little-endian 16-bit number at `offset`.
    pub fn read_u16(&mut self, offset: u64) -> (r: Result<u16, EseError>)
        requires
            old(self).coherent(),
        ensures
            final(self).coherent(),
            final(self).same_file(old(self)),
            final(self).wf() == old(self).wf(),
            final(self).cached() == old(self).cache_after(offset),
            match r {
                Ok(v) => old(self).read_spec(offset, 2) is Ok && v == le16_at(
                    old(self).image(),
                    offset as int,
                ),
                Err(e) => old(self).read_spec(offset, 2) == Err::<Seq<u8>, EseError>(e),
            },
    {
        match self.read(offset, 2) {
            Ok(v) => {
                let b = get_le16(&v, 0);
                match b {
                    Some(x) => Ok(x),
                    None => {
                        assert(false);
                        Err(EseError::Io)
                    },
                }
            },
            Err(e) => Err(e),
        }
    }

    /// Reads the little-endian 32-bit number at `offset`.
    pub fn read_u32(&mut self, offset: u64) -> (r: Result<u32, EseError>)
        requires
            old(self).coherent(),
        ensures
            final(self).coherent(),
            final(self).same_file(old(self)),
            final(self).wf() == old(self).wf(),
            final(self).cached() == old(self).cache_after(offset),
            match r {
                Ok(v) => old(self).read_spec(offset, 4) is Ok && v == le32_at(
                    old(self).image(),
                    offset as int,
                ),
                Err(e) => old(self).read_spec(offset, 4) == Err::<Seq<u8>, EseError>(e),
            },
    {
        match self.read(offset, 4) {
            Ok(v) => {
                let b = get_le32(&v, 0);
                match b {
                    Some(x) => Ok(x),
                    None => {
                        assert(false);
                        Err(EseError::Io)
                    },
                }
            },
            Err(e) => Err(e),
        }
    }

    /// Reads `size` bytes at `offset` as text: bytes that are no UTF-8 are a
    /// malformed record.
    pub fn read_string(&mut self, offset: u64, size: usize) -> (r: Result<String, EseError>)
        requires
            old(self).coherent(),
        ensures
            final(self).coherent(),
            final(self).same_file(old(self)),
            final(self).wf() == old(self).wf(),
            final(self).cached() == old(self).cache_after(offset),
            match r {
                Ok(s) => old(self).read_spec(offset, size) is Ok && text_of(
                    old(self).read_spec(offset, size)->Ok_0,
                ) == Some(s@),
                Err(e) => match old(self).read_spec(offset, size) {
                    Ok(b) => e == EseError::RecordMalformed && text_of(b) is None,
                    Err(f) => e == f,
                },
            },
    {
        match self.read(offset, size) {
            Ok(v) => match string_from_utf8(v) {
                Some(s) => Ok(s),
                None => Err(EseError::RecordMalformed),
            },
            Err(e) => Err(e),
        }
    }

    /// Reads and checks the header and its mirror, with the pages of 2 KiB that
    /// a reader starts with.
    fn load_db_file_header(&mut self) -> (r: Result<FileHeader, EseError>)
        requires
            old(self).coherent(),
            old(self).spec_page_size() == HEADER_PAGE_SIZE,
        ensures
            final(self).coherent(),
            final(self).same_file(old(self)),
            match r {
                Ok(h) => open_result(old(self).image()) == Ok::<FileHeader, EseError>(h),
                Err(e) => open_result(old(self).image()) == Err::<FileHeader, EseError>(e),
            },
    {
        let h = match self.read(0, FILE_HEADER_SIZE) {
            Ok(h) => h,
            Err(e) => {
                return Err(e);
            },
        };
        let primary = parse_file_header(&h);
        if primary.signature != ESEDB_FILE_SIGNATURE {
            return Err(EseError::BadSignature);
        }
        let checksum: u32 = calc_crc32(&h);
        if primary.checksum != checksum {
            return Err(EseError::ChecksumMismatch);
        }
        let m = match self.read(primary.page_size as u64, FILE_HEADER_SIZE) {
            Ok(m) => m,
            Err(e) => {
                return Err(e);
            },
        };
        let mirror = parse_file_header(&m);
        merge_headers(primary, mirror)
    }

    /// Opens the database whose file holds `file`, with a page cache of
    /// `cache_size` recent and as many frequent pages.
    fn new(file: Vec<u8>, cache_size: usize) -> (r: Result<Reader, EseError>)
        requires
            0 < cache_size,
            cache_size <= MAX_CACHE_SIZE,
        ensures
            match r {
                Ok(reader) => {
                    &&& open_result(file@) is Ok
                    &&& reader.opened_on(file@, open_result(file@)->Ok_0, cache_size)
                },
                Err(e) => open_result(file@) == Err::<FileHeader, EseError>(e),
            },
    {
        let mut reader = Reader {
            file,
            cache: cache_new(cache_size),
            cache_size,
            recent_count: 0,
            frequent_count: 0,
            page_size: HEADER_PAGE_SIZE,
            format_version: 0,
            format_revision: 0,
            last_page_number: 0,
        };
        let db_fh = match reader.load_db_file_header() {
            Ok(h) => h,
            Err(e) => {
                return Err(e);
            },
        };
        reader.format_version = db_fh.format_version;
        reader.format_revision = db_fh.format_revision;
        reader.page_size = db_fh.page_size as u64;
        reader.last_page_number = 2;
        cache_clear(&mut reader.cache);
        reader.recent_count = 0;
        reader.frequent_count = 0;
        Ok(reader)
    }

    /// The state of a reader that has just opened `file` with header `h`.
    pub open spec fn opened_on(&self, file: Seq<u8>, h: FileHeader, cache_size: usize) -> bool {
        &&& self.wf()
        &&& self.image() == file
        &&& self.spec_page_size() == h.page_size
        &&& self.spec_format_version() == h.format_version
        &&& self.spec_format_revision() == h.format_revision
        &&& self.spec_last_page_number() == 2
        &&& self.cached() == CacheView::empty(cache_size as nat)
    }

    /// Opens the database whose file holds `file`: the headers are checked as
    /// `open_result` says, and the cache starts empty.
    pub fn load_db(file: Vec<u8>, cache_size: usize) -> (r: Result<Reader, EseError>)
        requires
            0 < cache_size,
            cache_size <= MAX_CACHE_SIZE,
        ensures
            match r {
                Ok(reader) => {
                    &&& open_result(file@) is Ok
                    &&& reader.opened_on(file@, open_result(file@)->Ok_0, cache_size)
                },
                Err(e) => open_result(file@) == Err::<FileHeader, EseError>(e),
            },
    {
        Reader::new(file, cache_size)
    }
}

/// The text that bytes spell, if they are UTF-8.
pub open spec fn text_of(b: Seq<u8>) -> Option<Seq<char>> {
    if vstd::utf8::valid_utf8(b) {
        Some(vstd::utf8::decode_utf8(b))
    } else {
        None
    }
}

/// `String::from_utf8`: the string whose bytes are `bytes`, if they are valid
/// UTF-8, else nothing.
#[verifier::external_body]
pub(crate) fn string_from_utf8(bytes: Vec<u8>) -> (r: Option<String>)
    ensures
        match r {
            Some(s) => text_of(bytes@) == Some(s@),
            None => text_of(bytes@) is None,
        },
{
    String::from_utf8(bytes).ok()
}

/// Decodes the fields of a header.
pub fn parse_file_header(h: &Vec<u8>) -> (r: FileHeader)
    requires
        h.len() == FILE_HEADER_SIZE,
    ensures
        r == file_header_of(h@),
{
    FileHeader {
        checksum: word_at(h, 0),
        signature: word_at(h, 4),
        format_version: word_at(h, 8),
        file_type: word_at(h, 12),
        database_state: word_at(h, 52),
        last_object_identifier: word_at(h, 212),
        format_revision: word_at(h, 232),
        page_size: word_at(h, 236),
        creation_format_version: word_at(h, 340),
        creation_format_revision: word_at(h, 344),
    }
}

/// The checksum of the header in `h`: the seed `0x89abcdef` folded by
/// exclusive or with every 32-bit word after the first.
pub fn calc_crc32(h: &Vec<u8>) -> (crc: u32)
    requires
        h.len() == FILE_HEADER_SIZE,
    ensures
        crc == header_checksum(h@),
{
    let mut crc: u32 = ESEDB_CHECKSUM_SEED;
    let words: usize = FILE_HEADER_SIZE / 4;
    let mut i: usize = 1;
    while i < words
        invariant
            1 <= i <= words,
            words == FILE_HEADER_SIZE / 4,
            h.len() == FILE_HEADER_SIZE,
            crc == xor_fold(h@, i as int),
        decreases words - i,
    {
        let w: u32 = word_at(h, 4 * i);
        crc = crc ^ w;
        i += 1;
    }
    crc
}

/// Fills revision and page size that the first header leaves zero from the
/// mirror, and checks that the two agree on them and that the format is one
/// that is read.
pub fn merge_headers(primary: FileHeader, mirror: FileHeader) -> (r: Result<FileHeader, EseError>)
    ensures
        r == merged_header(primary, mirror),
{
    let mut header = primary;
    if header.format_revision == 0 {
        header.format_revision = mirror.format_revision;
    }
    if header.format_revision != mirror.format_revision {
        return Err(EseError::HeaderMismatch);
    }
    if header.page_size == 0 {
        header.page_size = mirror.page_size;
    }
    if header.page_size != mirror.page_size {
        return Err(EseError::HeaderMismatch);
    }
    if header.format_version != ESEDB_FORMAT_VERSION {
        return Err(EseError::UnsupportedVersion);
    }
    let ps: u32 = header.page_size;
    if !(ps == 2048 || ps == 4096 || ps == 8192 || ps == 16384 || ps == 32768) {
        return Err(EseError::HeaderMismatch);
    }
    if header.format_revision <= 2 {
        return Err(EseError::Unimplemented);
    }
    Ok(header)
}


/// The cache after the pages `pages` of a file were asked for, one after the other.
pub open spec fn after_reads(cache: CacheView, pages: Seq<usize>, file: Seq<u8>, page_size: int) -> CacheView
    decreases pages.len(),
{
    if pages.len() == 0 {
        cache
    } else {
        after_read(
            after_reads(cache, pages.drop_last(), file, page_size),
            pages.last(),
            page_block(file, page_size, pages.last() as int),
        )
    }
}

/// The keys of a queue, oldest first.
pub open spec fn queue_keys(queue: Seq<(usize, Seq<u8>)>) -> Seq<usize> {
    Seq::new(queue.len(), |i: int| queue[i].0)
}

/// The number of pages that have left the recent queue of a cache of size
/// `limit` when `count` different pages were asked for.
pub open spec fn pushed_out(count: int, limit: int) -> int {
    if count > limit {
        count - limit
    } else {
        0
    }
}

/// The cache of a reader never holds more pages than the size that it was
/// made with, the pages of both queues counted together.
pub proof fn lemma_cache_within_capacity(reader: &Reader)
    requires
        reader.coherent(),
    ensures
        reader.cached().recent.len() + reader.cached().frequent.len() <= reader.cached().limit,
{
}

/// A cache that starts empty and is asked for different pages keeps the
/// newest of them in its recent queue, as many as its size allows, and
/// remembers the ones that left; its frequent queue stays empty. So it holds
/// no more pages than its size.
pub proof fn lemma_distinct_reads(limit: nat, pages: Seq<usize>, file: Seq<u8>, page_size: int)
    requires
        limit >= 1,
        pages.no_duplicates(),
        pages.len() <= 5 * limit,
    ensures
        ({
            let cache = after_reads(CacheView::empty(limit), pages, file, page_size);
            let out = pushed_out(pages.len() as int, limit as int);
            &&& cache.limit == limit
            &&& cache.frequent.len() == 0
            &&& queue_keys(cache.recent) == pages.subrange(out, pages.len() as int)
            &&& cache.remembered == pages.subrange(0, out)
            &&& cache.recent.len() + cache.frequent.len() <= limit
        }),
    decreases pages.len(),
{
    let start = CacheView::empty(limit);
    if pages.len() == 0 {
        assert(queue_keys(start.recent) =~= pages.subrange(0, 0));
        assert(start.remembered =~= pages.subrange(0, 0));
    } else {
        let earlier = pages.drop_last();
        let page = pages.last();
        let n = earlier.len() as int;
        assert(earlier.no_duplicates()) by {
            assert forall|i: int, j: int| 0 <= i < n && 0 <= j < n && i != j implies earlier[i]
                != earlier[j] by {
                assert(earlier[i] == pages[i] && earlier[j] == pages[j]);
            }
        }
        lemma_distinct_reads(limit, earlier, file, page_size);
        let cache = after_reads(start, earlier, file, page_size);
        let out = pushed_out(n, limit as int);
        let block = page_block(file, page_size, page as int);
        assert(queue_keys(cache.recent).len() == cache.recent.len());
        assert(0 <= out <= n);
        assert(cache.recent.len() == n - out);
        assert forall|i: int| 0 <= i < cache.recent.len() implies (#[trigger] cache.recent[i]).0
            != page by {
            assert(queue_keys(cache.recent)[i] == cache.recent[i].0);
            assert(earlier.subrange(out, n)[i] == earlier[out + i]);
            assert(earlier[out + i] == pages[out + i]);
        }
        lemma_key_position_is(cache.recent, page, cache.recent.len() as int);
        lemma_key_position_is(cache.frequent, page, 0);
        assert(!cache.holds(page));
        assert(!cache.remembered.contains(page)) by {
            if cache.remembered.contains(page) {
                let i = choose|i: int| 0 <= i < cache.remembered.len() && cache.remembered[i] == page;
                assert(earlier.subrange(0, out)[i] == pages[i]);
            }
        }
        let inserted = cache.after_insert(page, block);
        let kept = if cache.recent.len() + 1 > limit {
            cache.recent.drop_first()
        } else {
            cache.recent
        };
        assert(inserted.recent == kept.push((page, block)));
        assert forall|i: int| 0 <= i < kept.len() implies (#[trigger] kept[i]).0 != page by {
            if cache.recent.len() + 1 > limit {
                assert(kept[i] == cache.recent[i + 1]);
            }
        }
        assert forall|i: int| 0 <= i < inserted.recent.len() - 1 implies (
        #[trigger] inserted.recent[i]).0 != page by {
            assert(inserted.recent[i] == kept[i]);
        }
        lemma_key_position_is(inserted.recent, page, inserted.recent.len() - 1);
        let last = after_read(cache, page, block);
        assert(last == inserted.after_get(page));
        assert(last.recent =~= inserted.recent);
        let out2 = pushed_out(pages.len() as int, limit as int);
        assert(queue_keys(last.recent) =~= pages.subrange(out2, pages.len() as int)) by {
            assert forall|i: int| 0 <= i < last.recent.len() implies queue_keys(last.recent)[i]
                == pages.subrange(out2, pages.len() as int)[i] by {
                if i < last.recent.len() - 1 {
                    assert(last.recent[i] == kept[i]);
                    if cache.recent.len() + 1 > limit {
                        assert(kept[i] == cache.recent[i + 1]);
                        assert(queue_keys(cache.recent)[i + 1] == cache.recent[i + 1].0);
                        assert(earlier.subrange(out, n)[i + 1] == pages[out + i + 1]);
                    } else {
                        assert(queue_keys(cache.recent)[i] == cache.recent[i].0);
                        assert(earlier.subrange(out, n)[i] == pages[out + i]);
                    }
                }
            }
        }
        assert(last.remembered =~= pages.subrange(0, out2)) by {
            if cache.recent.len() + 1 > limit {
                assert(queue_keys(cache.recent)[0] == cache.recent[0].0);
                assert(earlier.subrange(out, n)[0] == pages[out]);
                assert(cache.remembered =~= pages.subrange(0, out));
            } else {
                assert(cache.remembered =~= pages.subrange(0, out));
            }
        }
    }
}

/// After one more than its size of different pages were asked of a cache
/// that started empty, the first of them is no longer cached, and the
/// last still is.
pub proof fn lemma_first_page_evicted(limit: nat, pages: Seq<usize>, file: Seq<u8>, page_size: int)
    requires
        limit >= 1,
        pages.no_duplicates(),
        pages.len() == limit + 1,
    ensures
        !after_reads(CacheView::empty(limit), pages, file, page_size).holds(pages[0]),
        after_reads(CacheView::empty(limit), pages, file, page_size).holds(pages.last()),
{
    lemma_distinct_reads(limit, pages, file, page_size);
    let cache = after_reads(CacheView::empty(limit), pages, file, page_size);
    let keys = pages.subrange(1, pages.len() as int);
    assert(queue_keys(cache.recent).len() == cache.recent.len());
    assert(cache.recent.len() == limit);
    assert forall|i: int| 0 <= i < cache.recent.len() implies (#[trigger] cache.recent[i]).0
        != pages[0] by {
        assert(queue_keys(cache.recent)[i] == cache.recent[i].0);
        assert(keys[i] == pages[i + 1]);
    }
    lemma_key_position_is(cache.recent, pages[0], cache.recent.len() as int);
    lemma_key_position_is(cache.frequent, pages[0], 0);
    lemma_key_position(cache.recent, pages.last());
    let p = key_position(cache.recent, pages.last());
    if p >= cache.recent.len() {
        let i = cache.recent.len() - 1;
        assert(queue_keys(cache.recent)[i] == cache.recent[i].0);
        assert(keys[i] == pages[i + 1]);
    }
}

} // verus!
