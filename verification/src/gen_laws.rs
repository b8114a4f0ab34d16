use vstd::prelude::*;
use vstd::string::StringSliceAdditionalSpecFns;
use crate::bytes::{le16_at, le32_at};
use crate::catalog::{
    catalog_chain, catalog_first_leaf, catalog_item_of, catalog_of, catalog_page, catalog_texts,
    closed, grouped, no_rows, no_tables, CatalogRow, ColumnOrPage, Grouping, TableRows,
};
use crate::reader::text_of;
use crate::error::EseError;
use crate::gen_db::{
    before, catalog_records, database_image, flat, header_page, le16_bytes, le32_bytes, leaf_count,
    leaf_page, leaf_pages, leaf_records, page_fits, page_header_bytes, page_image, root_records,
    rows_per_leaf, tag_array, zeros, GENERATED_REVISION, TABLE_OBJECT,
};
use crate::gen_db::{be32_bytes, root_record, DATA_ROOT_PAGE};
use crate::cursor::{
    backward, forward, last_leaf, linked_page, next_of, previous_of, skip_backward, skip_forward,
    Found, ESE_MOVE_FIRST, ESE_MOVE_LAST, ESE_MOVE_NEXT, ESE_MOVE_PREVIOUS,
};
use crate::ese_parser::{
    data_root, fresh_state, fresh_states, load_result, moved, opened_segments, table_position,
    unpositioned, Cursor,
};
use crate::long_value::Segment;
use crate::row_laws::{chain_in_order, chain_mirrored, rows_visited};
use crate::page::{common_of, tag_of, tags_of, Db, PageTag};
use crate::reader::{
    file_header_of, header_checksum, merged_header, open_result, read_result, xor_fold,
    FileHeader, ESEDB_FILE_SIGNATURE, ESEDB_FORMAT_VERSION, FILE_HEADER_SIZE,
};
use crate::tree::{branch_child_of, child_of, first_leaf, keys_end, local_key_size_at};

verus! {

/// Two bytes that were written as a 16-bit number read as that number.
pub proof fn lemma_le16_reads(s: Seq<u8>, at: int, x: u16)
    requires
        0 <= at,
        at + 2 <= s.len(),
        s.subrange(at, at + 2) == le16_bytes(x),
    ensures
        le16_at(s, at) == x,
{
    assert(s[at] == s.subrange(at, at + 2)[0]);
    assert(s[at + 1] == s.subrange(at, at + 2)[1]);
}

/// Four bytes that were written as a 32-bit number read as that number.
pub proof fn lemma_le32_reads(s: Seq<u8>, at: int, x: u32)
    requires
        0 <= at,
        at + 4 <= s.len(),
        s.subrange(at, at + 4) == le32_bytes(x),
    ensures
        le32_at(s, at) == x,
{
    assert(s[at] == s.subrange(at, at + 4)[0]);
    assert(s[at + 1] == s.subrange(at, at + 4)[1]);
    assert(s[at + 2] == s.subrange(at, at + 4)[2]);
    assert(s[at + 3] == s.subrange(at, at + 4)[3]);
}

/// The tag that the generator writes for record `i` of a page: no flags,
/// the offset behind the records before it, and its size.
pub open spec fn written_tag(records: Seq<Seq<u8>>, i: int) -> PageTag {
    PageTag {
        flags: 0,
        offset: flat(records.take(i)).len() as u16,
        size: records[i].len() as u16,
    }
}

/// Where the tag of record `i` stands in the tags of a page.
pub proof fn lemma_tag_array(records: Seq<Seq<u8>>, i: int)
    requires
        0 <= i < records.len(),
    ensures
        tag_array(records).len() == 4 * records.len(),
        tag_array(records).subrange(
            4 * (records.len() - 1 - i),
            4 * (records.len() - 1 - i) + 2,
        ) == le16_bytes(records[i].len() as u16),
        tag_array(records).subrange(
            4 * (records.len() - 1 - i) + 2,
            4 * (records.len() - 1 - i) + 4,
        ) == le16_bytes(flat(records.take(i)).len() as u16),
    decreases records.len(),
{
    let n = records.len() as int;
    let rest = records.drop_last();
    let head = le16_bytes(records.last().len() as u16) + le16_bytes(flat(rest).len() as u16);
    assert(tag_array(records) == head + tag_array(rest));
    lemma_tag_array_len(rest);
    if i == n - 1 {
        assert(records.take(i) =~= rest);
        assert(tag_array(records).subrange(0, 2) =~= le16_bytes(records[i].len() as u16));
        assert(tag_array(records).subrange(2, 4) =~= le16_bytes(flat(records.take(i)).len() as u16));
    } else {
        lemma_tag_array(rest, i);
        assert(rest.take(i) =~= records.take(i));
        assert(rest[i] == records[i]);
        let at = 4 * (n - 1 - i);
        assert(tag_array(records).subrange(at, at + 2) =~= tag_array(rest).subrange(
            at - 4,
            at - 2,
        ));
        assert(tag_array(records).subrange(at + 2, at + 4) =~= tag_array(rest).subrange(at - 2, at));
    }
}

/// The tags of a page take four bytes for each record.
pub proof fn lemma_tag_array_len(records: Seq<Seq<u8>>)
    ensures
        tag_array(records).len() == 4 * records.len(),
    decreases records.len(),
{
    if records.len() > 0 {
        lemma_tag_array_len(records.drop_last());
    }
}

/// A number of 13 bits is its own offset or size in a tag, without flags.
pub proof fn lemma_plain_tag_word(x: u16)
    requires
        x < 0x2000,
    ensures
        x & 0x1fff == x,
        (x >> 13) as u8 == 0,
{
    assert(x & 0x1fff == x && (x >> 13) as u8 == 0) by (bit_vector)
        requires
            x < 0x2000,
    ;
}

/// The fields of the header that a page begins with read as written.
pub proof fn lemma_page_header(
    page: Seq<u8>,
    rest: Seq<u8>,
    previous: u32,
    next: u32,
    object: u32,
    tags: u16,
    flags: u32,
)
    requires
        page == page_header_bytes(previous, next, object, tags, flags) + rest,
    ensures
        common_of(page).previous_page == previous,
        common_of(page).next_page == next,
        common_of(page).page_flags == flags,
        common_of(page).available_page_tag == tags,
{
    let header = page_header_bytes(previous, next, object, tags, flags);
    assert(header.len() == 40);
    assert(page.subrange(16, 20) =~= le32_bytes(previous));
    assert(page.subrange(20, 24) =~= le32_bytes(next));
    assert(page.subrange(34, 36) =~= le16_bytes(tags));
    assert(page.subrange(36, 40) =~= le32_bytes(flags));
    lemma_le32_reads(page, 16, previous);
    lemma_le32_reads(page, 20, next);
    lemma_le16_reads(page, 34, tags);
    lemma_le32_reads(page, 36, flags);
}

/// The tag of record `i` reads as written from a page that ends with the
/// tags of its records.
pub proof fn lemma_page_tag(page: Seq<u8>, front: Seq<u8>, records: Seq<Seq<u8>>, i: int)
    requires
        page == front + tag_array(records),
        0 <= i < records.len(),
        flat(records).len() < 0x2000,
        page.len() == 2048 || page.len() == 4096 || page.len() == 8192,
    ensures
        tag_of(page, GENERATED_REVISION, page.len() as u64, i) == written_tag(records, i),
{
    let n = records.len() as int;
    let tail = tag_array(records);
    lemma_tag_array(records, i);
    crate::gen_db::lemma_flat_len(records, i);
    let at = page.len() - 4 * i - 4;
    let inner = 4 * (n - 1 - i);
    assert(front.len() + 4 * n == page.len());
    assert(page.subrange(at, at + 2) =~= tail.subrange(inner, inner + 2));
    assert(page.subrange(at + 2, at + 4) =~= tail.subrange(inner + 2, inner + 4));
    lemma_le16_reads(page, at, records[i].len() as u16);
    lemma_le16_reads(page, at + 2, flat(records.take(i)).len() as u16);
    lemma_plain_tag_word(records[i].len() as u16);
    lemma_plain_tag_word(flat(records.take(i)).len() as u16);
}

/// The tags of a page as the generator writes them.
pub open spec fn written_tags(records: Seq<Seq<u8>>) -> Seq<PageTag> {
    Seq::new(records.len(), |i: int| written_tag(records, i))
}

/// A page that the generator writes decodes to what was written: the links,
/// the flags, and a tag without flags for each record.
pub proof fn lemma_page_decodes(
    page_size: int,
    previous: u32,
    next: u32,
    object: u32,
    flags: u32,
    records: Seq<Seq<u8>>,
)
    requires
        page_fits(page_size, records),
        page_size == 2048 || page_size == 4096 || page_size == 8192,
    ensures
        ({
            let page = page_image(page_size, previous, next, object, flags, records)->Some_0;
            &&& page.len() == page_size
            &&& common_of(page).previous_page == previous
            &&& common_of(page).next_page == next
            &&& common_of(page).page_flags == flags
            &&& common_of(page).available_page_tag == records.len()
            &&& tags_of(page, GENERATED_REVISION, page_size as u64) == Ok::<Seq<PageTag>, EseError>(
                written_tags(records),
            )
            &&& page.subrange(40, 40 + flat(records).len() as int) == flat(records)
        }),
{
    let n = records.len() as int;
    let header = page_header_bytes(previous, next, object, n as u16, flags);
    let body = flat(records);
    let gap = zeros(page_size - 40 - body.len() - 4 * n);
    let tail = tag_array(records);
    let page = page_image(page_size, previous, next, object, flags, records)->Some_0;
    assert(page == header + body + gap + tail);
    lemma_tag_array_len(records);
    assert(header.len() == 40);
    assert(page.len() == page_size);
    assert(page =~= header + (body + gap + tail));
    lemma_page_header(page, body + gap + tail, previous, next, object, n as u16, flags);
    assert(page.subrange(40, 40 + body.len() as int) =~= body);
    assert forall|i: int| 0 <= i < n implies tag_of(page, GENERATED_REVISION, page_size as u64, i)
        == #[trigger] written_tags(records)[i] by {
        lemma_page_tag(page, header + body + gap, records, i);
    }
    lemma_tags_of(page, page_size as u64, n, written_tags(records));
}

/// A page whose tags all decode has them as its tags.
pub proof fn lemma_tags_of(page: Seq<u8>, page_size: u64, count: int, tags: Seq<PageTag>)
    requires
        common_of(page).available_page_tag == count,
        tags.len() == count,
        40 + 4 * count <= page.len(),
        page_size <= 8192,
        forall|i: int|
            0 <= i < count ==> tag_of(page, GENERATED_REVISION, page_size, i) == #[trigger] tags[i],
    ensures
        tags_of(page, GENERATED_REVISION, page_size) == Ok::<Seq<PageTag>, EseError>(tags),
{
    assert(tags_of(page, GENERATED_REVISION, page_size)->Ok_0 =~= tags);
}


/// The records of a leaf, if it has them.
pub open spec fn records_of_leaf(width: nat, count: nat, per_leaf: int, j: int) -> Option<
    Seq<Seq<u8>>,
> {
    leaf_records(
        width,
        (j * per_leaf) as nat,
        (if j * per_leaf + per_leaf < count {
            j * per_leaf + per_leaf
        } else {
            count as int
        }) as nat,
    )
}

/// A leaf that the generator writes is a page of the page size.
pub proof fn lemma_leaf_page_len(
    page_size: int,
    width: nat,
    count: nat,
    per_leaf: int,
    j: int,
    leaves: int,
)
    requires
        page_size == 2048 || page_size == 4096 || page_size == 8192,
        leaf_page(page_size, width, count, per_leaf, j, leaves) is Some,
    ensures
        leaf_page(page_size, width, count, per_leaf, j, leaves)->Some_0.len() == page_size,
        records_of_leaf(width, count, per_leaf, j) is Some,
        page_fits(page_size, records_of_leaf(width, count, per_leaf, j)->Some_0),
{
    let records = records_of_leaf(width, count, per_leaf, j)->Some_0;
    lemma_page_decodes(
        page_size,
        if j == 0 {
            0u32
        } else {
            (5 + j) as u32
        },
        if j + 1 == leaves {
            0u32
        } else {
            (7 + j) as u32
        },
        TABLE_OBJECT,
        2,
        records,
    );
}

/// Where leaf `m` stands among the leaves from leaf `j` on.
#[verifier::rlimit(50)]
pub proof fn lemma_leaf_pages(
    page_size: int,
    width: nat,
    count: nat,
    per_leaf: int,
    j: int,
    leaves: int,
    m: int,
)
    requires
        page_size == 2048 || page_size == 4096 || page_size == 8192,
        leaf_pages(page_size, width, count, per_leaf, j, leaves) is Some,
        0 <= j <= leaves,
    ensures
        leaf_pages(page_size, width, count, per_leaf, j, leaves)->Some_0.len() == (leaves - j)
            * page_size,
        j <= m < leaves ==> leaf_page(page_size, width, count, per_leaf, m, leaves) is Some
            && leaf_pages(page_size, width, count, per_leaf, j, leaves)->Some_0.subrange(
            (m - j) * page_size,
            (m - j + 1) * page_size,
        ) == leaf_page(page_size, width, count, per_leaf, m, leaves)->Some_0,
    decreases leaves - j,
{
    let all = leaf_pages(page_size, width, count, per_leaf, j, leaves)->Some_0;
    if j < leaves {
        let page = leaf_page(page_size, width, count, per_leaf, j, leaves)->Some_0;
        let rest = leaf_pages(page_size, width, count, per_leaf, j + 1, leaves)->Some_0;
        assert(all == page + rest);
        lemma_leaf_page_len(page_size, width, count, per_leaf, j, leaves);
        lemma_leaf_pages(page_size, width, count, per_leaf, j + 1, leaves, m);
        assert((leaves - j) * page_size == page_size + (leaves - j - 1) * page_size)
            by (nonlinear_arith);
        if j <= m < leaves {
            if m == j {
                assert((m - j) * page_size == 0) by (nonlinear_arith)
                    requires
                        m == j,
                ;
                assert((m - j + 1) * page_size == page_size) by (nonlinear_arith)
                    requires
                        m == j,
                ;
                assert(all.subrange(0, page_size) =~= page);
            } else {
                assert((m - j) * page_size == page_size + (m - j - 1) * page_size)
                    by (nonlinear_arith);
                assert((m - j + 1) * page_size == page_size + (m - j) * page_size)
                    by (nonlinear_arith);
                assert((m - (j + 1) + 1) * page_size == (m - j) * page_size) by (nonlinear_arith);
                assert(0 <= (m - j - 1) * page_size) by (nonlinear_arith)
                    requires
                        m > j,
                        page_size > 0,
                ;
                assert((m - j) * page_size <= (leaves - j - 1) * page_size) by (nonlinear_arith)
                    requires
                        m < leaves,
                        page_size > 0,
                ;
                assert(all.subrange((m - j) * page_size, (m - j + 1) * page_size)
                    =~= rest.subrange((m - j - 1) * page_size, (m - j) * page_size));
            }
        }
    } else {
        assert((leaves - j) * page_size == 0) by (nonlinear_arith)
            requires
                leaves == j,
        ;
    }
}

/// The database that a generated file holds.
pub open spec fn generated_db(image: Seq<u8>, page_size: usize) -> Db {
    Db { file: image, page_size: page_size as u64, revision: GENERATED_REVISION }
}

/// A page that stands in a file behind as many bytes as the pages before it
/// take is the page of its number.
pub proof fn lemma_page_in_file(
    file: Seq<u8>,
    head: Seq<u8>,
    page: Seq<u8>,
    tail: Seq<u8>,
    page_size: u64,
    number: u32,
)
    requires
        file == head + page + tail,
        page_size > 0,
        page.len() == page_size,
        head.len() == (number + 1) * page_size,
    ensures
        crate::page::page_bytes(file, page_size, number) == Ok::<Seq<u8>, EseError>(page),
{
    assert((number + 2) * page_size == (number + 1) * page_size + page_size) by (nonlinear_arith);
    assert(file.subrange((number + 1) * page_size, (number + 2) * page_size) =~= page);
    assert(crate::reader::page_block(file, page_size as int, number + 1) == file.subrange(
        (number + 1) * page_size,
        (number + 1 + 1) * page_size,
    ));
}

/// A database has at least one leaf.
pub proof fn lemma_leaf_count(count: int, per_leaf: int)
    requires
        count >= 0,
        per_leaf >= 1,
    ensures
        leaf_count(count, per_leaf) >= 1,
        leaf_count(count, per_leaf) <= count || leaf_count(count, per_leaf) == 1,
{
    if count > 0 {
        assert((count + per_leaf - 1) / per_leaf >= 1 && (count + per_leaf - 1) / per_leaf <= count)
            by (nonlinear_arith)
            requires
                count >= 1,
                per_leaf >= 1,
        ;
    }
}

/// The parts that a generated file is made of.
pub open spec fn generated_parts(
    table: Seq<u8>,
    page_size: usize,
    record_size: usize,
    records_cnt: usize,
) -> (Seq<u8>, Seq<u8>, Seq<u8>, Seq<u8>) {
    let per_leaf = rows_per_leaf(page_size as int, record_size as int);
    (
        header_page(page_size as u32) + header_page(page_size as u32) + zeros(3 * page_size),
        page_image(page_size as int, 0, 0, 2, 3, catalog_records(table))->Some_0,
        page_image(
            page_size as int,
            0,
            0,
            TABLE_OBJECT,
            5,
            root_records(records_cnt as nat),
        )->Some_0,
        leaf_pages(
            page_size as int,
            record_size as nat,
            records_cnt as nat,
            per_leaf,
            0,
            leaf_count(records_cnt as int, per_leaf),
        )->Some_0,
    )
}

/// A header page has the size of a page.
pub proof fn lemma_header_page_len(page_size: u32)
    requires
        page_size >= 2048,
    ensures
        header_page(page_size).len() == page_size,
        crate::gen_db::header_fields(page_size).len() == 668,
{
}

/// The five pages that a generated file begins with.
pub proof fn lemma_front_len(page_size: u32)
    requires
        page_size >= 2048,
    ensures
        (header_page(page_size) + header_page(page_size) + zeros(3 * page_size)).len() == 5
            * page_size,
{
    lemma_header_page_len(page_size);
}

/// A generated file is made of five pages of headers and zeros, the catalog
/// page, the root of the data tree, and the leaves.
pub proof fn lemma_generated_parts(
    table: Seq<u8>,
    page_size: usize,
    record_size: usize,
    records_cnt: usize,
)
    requires
        database_image(table, page_size, record_size, records_cnt) is Some,
    ensures
        ({
            let image = database_image(table, page_size, record_size, records_cnt)->Some_0;
            let parts = generated_parts(table, page_size, record_size, records_cnt);
            let per_leaf = rows_per_leaf(page_size as int, record_size as int);
            let leaves = leaf_count(records_cnt as int, per_leaf);
            &&& page_size == 2048 || page_size == 4096 || page_size == 8192
            &&& records_cnt < 0xffff_0000
            &&& per_leaf >= 1
            &&& leaves >= 1
            &&& leaves <= records_cnt || leaves == 1
            &&& image == parts.0 + parts.1 + parts.2 + parts.3
            &&& parts.0.len() == 5 * page_size
            &&& parts.1.len() == page_size
            &&& parts.2.len() == page_size
            &&& parts.3.len() == leaves * page_size
            &&& page_fits(page_size as int, catalog_records(table))
            &&& page_fits(page_size as int, root_records(records_cnt as nat))
            &&& leaf_pages(
                page_size as int,
                record_size as nat,
                records_cnt as nat,
                per_leaf,
                0,
                leaves,
            ) is Some
        }),
{
    reveal(database_image);
    let ps = page_size as int;
    let per_leaf = rows_per_leaf(ps, record_size as int);
    let leaves = leaf_count(records_cnt as int, per_leaf);
    lemma_leaf_count(records_cnt as int, per_leaf);
    lemma_page_decodes(ps, 0, 0, 2, 3, catalog_records(table));
    lemma_page_decodes(ps, 0, 0, TABLE_OBJECT, 5, root_records(records_cnt as nat));
    lemma_leaf_pages(ps, record_size as nat, records_cnt as nat, per_leaf, 0, leaves, 0);
    lemma_front_len(page_size as u32);
    assert((leaves - 0) * ps == leaves * ps);
}

/// The number of pages of a file of so many bytes.
pub proof fn lemma_page_count(len: nat, page_size: int, pages: int)
    requires
        page_size > 0,
        pages >= 0,
        len == pages * page_size,
    ensures
        len / (page_size as nat) == pages,
{
    assert(len / (page_size as nat) == pages) by (nonlinear_arith)
        requires
            len == pages * page_size,
            page_size > 0,
            pages >= 0,
    ;
}

/// Where the catalog page and the root of the data tree stand in a file
/// that is made of these parts.
pub proof fn lemma_fixed_pages(
    image: Seq<u8>,
    front: Seq<u8>,
    catalog: Seq<u8>,
    root: Seq<u8>,
    leaves: Seq<u8>,
    db: Db,
)
    requires
        image == front + catalog + root + leaves,
        db.file == image,
        db.page_size > 0,
        front.len() == 5 * db.page_size,
        catalog.len() == db.page_size,
        root.len() == db.page_size,
    ensures
        db.page(4) == Ok::<Seq<u8>, EseError>(catalog),
        db.page(5) == Ok::<Seq<u8>, EseError>(root),
{
    assert(image =~= front + catalog + (root + leaves));
    lemma_page_in_file(image, front, catalog, root + leaves, db.page_size, 4);
    assert(image =~= (front + catalog) + root + leaves);
    lemma_page_in_file(image, front + catalog, root, leaves, db.page_size, 5);
}

/// Where leaf `m` stands in a file that ends with the leaves.
pub proof fn lemma_leaf_in_file(
    image: Seq<u8>,
    head: Seq<u8>,
    pages: Seq<u8>,
    page: Seq<u8>,
    db: Db,
    m: int,
    leaves: int,
)
    requires
        image == head + pages,
        db.file == image,
        db.page_size > 0,
        head.len() == 7 * db.page_size,
        pages.len() == leaves * db.page_size,
        0 <= m < leaves,
        6 + m <= u32::MAX,
        page.len() == db.page_size,
        pages.subrange(m * db.page_size, (m + 1) * db.page_size) == page,
    ensures
        db.page((6 + m) as u32) == Ok::<Seq<u8>, EseError>(page),
{
    let ps = db.page_size as int;
    assert(0 <= m * ps && (m + 1) * ps <= leaves * ps && (m + 1) * ps == m * ps + ps)
        by (nonlinear_arith)
        requires
            0 <= m < leaves,
            ps > 0,
    ;
    let front = pages.subrange(0, m * ps);
    let back = pages.subrange((m + 1) * ps, pages.len() as int);
    assert(pages =~= front + page + back);
    assert(image =~= (head + front) + page + back);
    assert((6 + m + 1) * ps == 7 * ps + m * ps) by (nonlinear_arith);
    lemma_page_in_file(image, head + front, page, back, db.page_size, (6 + m) as u32);
}

/// The catalog page, the root of the data tree and the leaves of a generated
/// database stand on the pages 4, 5 and from 6 on.
pub proof fn lemma_generated_pages(
    table: Seq<u8>,
    page_size: usize,
    record_size: usize,
    records_cnt: usize,
    m: int,
)
    requires
        database_image(table, page_size, record_size, records_cnt) is Some,
    ensures
        ({
            let image = database_image(table, page_size, record_size, records_cnt)->Some_0;
            let db = generated_db(image, page_size);
            let parts = generated_parts(table, page_size, record_size, records_cnt);
            let per_leaf = rows_per_leaf(page_size as int, record_size as int);
            let leaves = leaf_count(records_cnt as int, per_leaf);
            &&& db.page_count() == 7 + leaves
            &&& db.page(4) == Ok::<Seq<u8>, EseError>(parts.1)
            &&& db.page(5) == Ok::<Seq<u8>, EseError>(parts.2)
            &&& 0 <= m < leaves ==> leaf_page(
                page_size as int,
                record_size as nat,
                records_cnt as nat,
                per_leaf,
                m,
                leaves,
            ) is Some && 6 + m <= u32::MAX && db.page((6 + m) as u32) == Ok::<Seq<u8>, EseError>(
                leaf_page(
                    page_size as int,
                    record_size as nat,
                    records_cnt as nat,
                    per_leaf,
                    m,
                    leaves,
                )->Some_0,
            )
        }),
{
    let ps = page_size as int;
    let image = database_image(table, page_size, record_size, records_cnt)->Some_0;
    let db = generated_db(image, page_size);
    let parts = generated_parts(table, page_size, record_size, records_cnt);
    let per_leaf = rows_per_leaf(ps, record_size as int);
    let leaves = leaf_count(records_cnt as int, per_leaf);
    lemma_generated_parts(table, page_size, record_size, records_cnt);
    assert((7 + leaves) * ps == 7 * ps + leaves * ps) by (nonlinear_arith);
    lemma_page_count(image.len(), ps, 7 + leaves);
    lemma_fixed_pages(image, parts.0, parts.1, parts.2, parts.3, db);
    if 0 <= m < leaves {
        lemma_leaf_pages(ps, record_size as nat, records_cnt as nat, per_leaf, 0, leaves, m);
        let page = leaf_page(ps, record_size as nat, records_cnt as nat, per_leaf, m, leaves)->Some_0;
        lemma_leaf_page_len(ps, record_size as nat, records_cnt as nat, per_leaf, m, leaves);
        lemma_leaf_in_file(image, parts.0 + parts.1 + parts.2, parts.3, page, db, m, leaves);
    }
}

/// A tag without flags is not defunct and has no common key size.
pub proof fn lemma_plain_tag(tag: PageTag)
    requires
        tag.flags == 0,
    ensures
        !tag.spec_is_defunct(),
        !tag.spec_has_common_key_size(),
{
    assert(0u8 & 2u8 == 0u8 && 0u8 & 4u8 == 0u8) by (bit_vector);
}

/// Two records one behind the other.
pub proof fn lemma_flat_two(a: Seq<u8>, b: Seq<u8>)
    ensures
        flat(seq![a, b]) == a + b,
        flat(seq![a]) == a,
        seq![a, b].take(1) == seq![a],
{
    let one = seq![a];
    let two = seq![a, b];
    assert(one.drop_last() =~= Seq::<Seq<u8>>::empty());
    assert(flat(one.drop_last()) =~= Seq::<u8>::empty());
    assert(flat(one) =~= a);
    assert(two.drop_last() =~= one);
    assert(flat(two) =~= a + b);
    assert(two.take(1) =~= one);
}

/// The branch record of the root of the data tree names page 6.
pub proof fn lemma_root_branch(page: Seq<u8>, records_cnt: nat)
    requires
        page.len() >= 2048,
        page.subrange(40, 40 + flat(root_records(records_cnt)).len() as int) == flat(
            root_records(records_cnt),
        ),
    ensures
        branch_child_of(page, 40, written_tag(root_records(records_cnt), 1)) == Ok::<
            u32,
            EseError,
        >(6),
        root_records(records_cnt).len() == 2,
{
    let records = root_records(records_cnt);
    let branch = le16_bytes(4) + be32_bytes(records_cnt as u32) + le32_bytes(6);
    lemma_flat_two(root_record(), branch);
    assert(records =~= seq![root_record(), branch]);
    assert(flat(records) == root_record() + branch);
    assert(root_record().len() == 16);
    assert(branch.len() == 10);
    let tag = written_tag(records, 1);
    assert(tag.offset == 16 && tag.size == 10 && tag.flags == 0);
    lemma_plain_tag(tag);
    let body = page.subrange(40, 40 + flat(records).len() as int);
    assert(page.subrange(56, 58) =~= body.subrange(16, 18));
    assert(body.subrange(16, 18) =~= le16_bytes(4));
    lemma_le16_reads(page, 56, 4);
    assert(page.subrange(62, 66) =~= body.subrange(22, 26));
    assert(body.subrange(22, 26) =~= le32_bytes(6));
    lemma_le32_reads(page, 62, 6);
    assert(local_key_size_at(40, tag) == 56);
    assert(keys_end(page, 40, tag, false) == Some(62int));
}

/// The flags of the pages of a data tree: the root is a branch and no leaf,
/// the leaves are leaves.
pub proof fn lemma_page_flags()
    ensures
        5u32 & crate::jet::PAGE_IS_LEAF == 0,
        2u32 & crate::jet::PAGE_IS_LEAF != 0,
{
    assert(5u32 & 2u32 == 0 && 2u32 & 2u32 != 0) by (bit_vector);
}

/// The number of records of a leaf: one for tag 0, and one for each row.
pub proof fn lemma_leaf_records_len(width: nat, from: nat, to: nat)
    requires
        leaf_records(width, from, to) is Some,
    ensures
        leaf_records(width, from, to)->Some_0.len() == 1 + (if to > from {
            to - from
        } else {
            0
        }),
    decreases to,
{
    if to > from {
        lemma_leaf_records_len(width, from, (to - 1) as nat);
    }
}

/// The number of rows on leaf `m`.
pub open spec fn rows_on_leaf(count: int, per_leaf: int, m: int) -> int {
    if m * per_leaf + per_leaf < count {
        per_leaf
    } else if count > m * per_leaf {
        count - m * per_leaf
    } else {
        0
    }
}

/// What is known of leaf `m` of a generated database: it is page `6 + m`,
/// a leaf with a tag for each of its rows and one more, none defunct, and it
/// names the leaves beside it.
pub open spec fn leaf_in_order(db: Db, count: int, per_leaf: int, leaves: int, m: int) -> bool {
    match db.page((6 + m) as u32) {
        Err(_) => false,
        Ok(page) => {
            &&& common_of(page).page_flags == 2
            &&& common_of(page).previous_page == (if m == 0 {
                0int
            } else {
                5 + m
            })
            &&& common_of(page).next_page == (if m + 1 == leaves {
                0int
            } else {
                7 + m
            })
            &&& tags_of(page, db.revision, db.page_size) matches Ok(tags)
            &&& tags.len() == 1 + rows_on_leaf(count, per_leaf, m)
            &&& forall|i: int| 0 <= i < tags.len() ==> !(#[trigger] tags[i]).spec_is_defunct()
        },
    }
}

/// The root of the data tree of a generated database leads to page 6.
pub proof fn lemma_generated_root(db: Db, root_page: Seq<u8>, records_cnt: nat)
    requires
        db.revision == GENERATED_REVISION,
        db.page_size == 2048 || db.page_size == 4096 || db.page_size == 8192,
        db.page(5) == Ok::<Seq<u8>, EseError>(root_page),
        page_fits(db.page_size as int, root_records(records_cnt)),
        root_page == page_image(
            db.page_size as int,
            0,
            0,
            TABLE_OBJECT,
            5,
            root_records(records_cnt),
        )->Some_0,
    ensures
        child_of(db, 5) == Ok::<Option<u32>, EseError>(Some(6u32)),
{
    lemma_page_flags();
    lemma_page_decodes(db.page_size as int, 0, 0, TABLE_OBJECT, 5, root_records(records_cnt));
    lemma_root_branch(root_page, records_cnt);
    assert(written_tags(root_records(records_cnt))[1] == written_tag(root_records(records_cnt), 1));
}

/// Leaf `m` of a generated database is in order.
pub proof fn lemma_generated_leaf(
    table: Seq<u8>,
    page_size: usize,
    record_size: usize,
    records_cnt: usize,
    m: int,
)
    requires
        database_image(table, page_size, record_size, records_cnt) is Some,
        0 <= m < leaf_count(
            records_cnt as int,
            rows_per_leaf(page_size as int, record_size as int),
        ),
    ensures
        leaf_in_order(
            generated_db(
                database_image(table, page_size, record_size, records_cnt)->Some_0,
                page_size,
            ),
            records_cnt as int,
            rows_per_leaf(page_size as int, record_size as int),
            leaf_count(records_cnt as int, rows_per_leaf(page_size as int, record_size as int)),
            m,
        ),
{
    let ps = page_size as int;
    let per_leaf = rows_per_leaf(ps, record_size as int);
    let leaves = leaf_count(records_cnt as int, per_leaf);
    lemma_generated_parts(table, page_size, record_size, records_cnt);
    lemma_generated_pages(table, page_size, record_size, records_cnt, m);
    lemma_leaf_in_order(ps, record_size as nat, records_cnt as nat, per_leaf, leaves, m);
}

/// The root of the data tree of a generated database leads to its first leaf.
pub proof fn lemma_generated_first_leaf(
    table: Seq<u8>,
    page_size: usize,
    record_size: usize,
    records_cnt: usize,
)
    requires
        database_image(table, page_size, record_size, records_cnt) is Some,
    ensures
        first_leaf(
            generated_db(
                database_image(table, page_size, record_size, records_cnt)->Some_0,
                page_size,
            ),
            DATA_ROOT_PAGE,
            (7 + leaf_count(
                records_cnt as int,
                rows_per_leaf(page_size as int, record_size as int),
            )) as nat,
        ) == Ok::<u32, EseError>(6),
{
    let image = database_image(table, page_size, record_size, records_cnt)->Some_0;
    let db = generated_db(image, page_size);
    let per_leaf = rows_per_leaf(page_size as int, record_size as int);
    let leaves = leaf_count(records_cnt as int, per_leaf);
    lemma_generated_parts(table, page_size, record_size, records_cnt);
    lemma_generated_pages(table, page_size, record_size, records_cnt, 0);
    lemma_generated_leaf(table, page_size, record_size, records_cnt, 0);
    lemma_page_flags();
    lemma_generated_root(db, db.page(5)->Ok_0, records_cnt as nat);
    assert(leaf_in_order(db, records_cnt as int, per_leaf, leaves, 0));
    assert(child_of(db, 6) == Ok::<Option<u32>, EseError>(None));
    lemma_descent(db, (7 + leaves) as nat);
}

/// A root that leads to a leaf has that leaf as its first leaf.
pub proof fn lemma_descent(db: Db, depth: nat)
    requires
        depth >= 2,
        child_of(db, 5) == Ok::<Option<u32>, EseError>(Some(6u32)),
        child_of(db, 6) == Ok::<Option<u32>, EseError>(None),
    ensures
        first_leaf(db, 5, depth) == Ok::<u32, EseError>(6),
{
    assert(first_leaf(db, 6, (depth - 1) as nat) == Ok::<u32, EseError>(6));
}

/// Every leaf of a generated database is in order, the root of its data
/// tree leads to the first leaf, and the file has seven pages before the leaves.
pub proof fn lemma_generated_tree(
    table: Seq<u8>,
    page_size: usize,
    record_size: usize,
    records_cnt: usize,
)
    requires
        database_image(table, page_size, record_size, records_cnt) is Some,
    ensures
        tree_in_order(
            generated_db(
                database_image(table, page_size, record_size, records_cnt)->Some_0,
                page_size,
            ),
            records_cnt as int,
            rows_per_leaf(page_size as int, record_size as int),
            leaf_count(records_cnt as int, rows_per_leaf(page_size as int, record_size as int)),
        ),
{
    let image = database_image(table, page_size, record_size, records_cnt)->Some_0;
    let db = generated_db(image, page_size);
    let per_leaf = rows_per_leaf(page_size as int, record_size as int);
    let leaves = leaf_count(records_cnt as int, per_leaf);
    lemma_generated_parts(table, page_size, record_size, records_cnt);
    lemma_generated_pages(table, page_size, record_size, records_cnt, 0);
    lemma_generated_first_leaf(table, page_size, record_size, records_cnt);
    assert forall|m: int| 0 <= m < leaves implies #[trigger] leaf_in_order(
        db,
        records_cnt as int,
        per_leaf,
        leaves,
        m,
    ) by {
        lemma_generated_leaf(table, page_size, record_size, records_cnt, m);
    }
}

/// Leaf `m` as the generator writes it decodes to a leaf in order.
pub proof fn lemma_leaf_in_order(
    page_size: int,
    width: nat,
    count: nat,
    per_leaf: int,
    leaves: int,
    m: int,
)
    requires
        page_size == 2048 || page_size == 4096 || page_size == 8192,
        leaf_page(page_size, width, count, per_leaf, m, leaves) is Some,
        0 <= m < leaves,
        leaves <= 0xffff_0000,
        per_leaf >= 1,
    ensures
        ({
            let page = leaf_page(page_size, width, count, per_leaf, m, leaves)->Some_0;
            &&& common_of(page).page_flags == 2
            &&& common_of(page).previous_page == (if m == 0 {
                0int
            } else {
                5 + m
            })
            &&& common_of(page).next_page == (if m + 1 == leaves {
                0int
            } else {
                7 + m
            })
            &&& tags_of(page, GENERATED_REVISION, page_size as u64) matches Ok(tags)
            &&& tags.len() == 1 + rows_on_leaf(count as int, per_leaf, m)
            &&& forall|i: int| 0 <= i < tags.len() ==> !(#[trigger] tags[i]).spec_is_defunct()
        }),
{
    let records = records_of_leaf(width, count, per_leaf, m)->Some_0;
    lemma_leaf_page_len(page_size, width, count, per_leaf, m, leaves);
    let previous = if m == 0 {
        0u32
    } else {
        (5 + m) as u32
    };
    let next = if m + 1 == leaves {
        0u32
    } else {
        (7 + m) as u32
    };
    lemma_page_decodes(page_size, previous, next, TABLE_OBJECT, 2, records);
    assert(0 <= m * per_leaf) by (nonlinear_arith)
        requires
            m >= 0,
            per_leaf >= 1,
    ;
    lemma_leaf_records_len(
        width,
        (m * per_leaf) as nat,
        (if m * per_leaf + per_leaf < count {
            m * per_leaf + per_leaf
        } else {
            count as int
        }) as nat,
    );
    let tags = written_tags(records);
    assert forall|i: int| 0 <= i < tags.len() implies !(#[trigger] tags[i]).spec_is_defunct() by {
        lemma_plain_tag(tags[i]);
    }
}


/// The rows on the leaves: every leaf but the last is full, the last has the
/// rest, and a table with rows has no leaf without rows.
pub proof fn lemma_rows_on_leaf(count: int, per_leaf: int, leaves: int, m: int)
    requires
        count >= 0,
        per_leaf >= 1,
        leaves == leaf_count(count, per_leaf),
        0 <= m < leaves,
    ensures
        m * per_leaf >= 0,
        (m + 1) * per_leaf == m * per_leaf + per_leaf,
        rows_on_leaf(count, per_leaf, m) >= 0,
        count > 0 ==> rows_on_leaf(count, per_leaf, m) >= 1,
        m + 1 < leaves ==> rows_on_leaf(count, per_leaf, m) == per_leaf,
        m + 1 == leaves ==> m * per_leaf + rows_on_leaf(count, per_leaf, m) == count,
{
    assert(m * per_leaf >= 0 && (m + 1) * per_leaf == m * per_leaf + per_leaf) by (nonlinear_arith)
        requires
            m >= 0,
            per_leaf >= 1,
    ;
    if count > 0 {
        assert((leaves - 1) * per_leaf < count && leaves * per_leaf >= count) by (nonlinear_arith)
            requires
                per_leaf >= 1,
                count > 0,
                leaves == (count + per_leaf - 1) / per_leaf,
        ;
        assert(m * per_leaf <= (leaves - 1) * per_leaf) by (nonlinear_arith)
            requires
                m <= leaves - 1,
                per_leaf >= 1,
        ;
        if m + 1 < leaves {
            assert((m + 1) * per_leaf <= (leaves - 1) * per_leaf) by (nonlinear_arith)
                requires
                    m + 1 <= leaves - 1,
                    per_leaf >= 1,
            ;
        } else {
            assert(leaves * per_leaf == m * per_leaf + per_leaf) by (nonlinear_arith)
                requires
                    leaves == m + 1,
            ;
        }
    }
}

/// What is known of a generated data tree: the number of its leaves, that
/// each is in order, and where the root leads.
pub open spec fn tree_in_order(db: Db, count: int, per_leaf: int, leaves: int) -> bool {
    &&& per_leaf >= 1
    &&& count >= 0
    &&& leaves == leaf_count(count, per_leaf)
    &&& leaves + 7 <= u32::MAX
    &&& db.page_count() == 7 + leaves
    &&& first_leaf(db, DATA_ROOT_PAGE, db.page_count()) == Ok::<u32, EseError>(6)
    &&& forall|m: int| 0 <= m < leaves ==> #[trigger] leaf_in_order(db, count, per_leaf, leaves, m)
}

/// The checksum folds the words behind the first: headers that differ in
/// their first word only have the same checksum.
pub proof fn lemma_xor_fold(a: Seq<u8>, b: Seq<u8>, words: int)
    requires
        a.len() == b.len(),
        4 * words <= a.len(),
        forall|i: int| 4 <= i < a.len() ==> a[i] == b[i],
    ensures
        xor_fold(a, words) == xor_fold(b, words),
    decreases words,
{
    if words > 1 {
        lemma_xor_fold(a, b, words - 1);
    }
}

/// The header that a generated file begins with.
pub open spec fn generated_header(page_size: u32) -> FileHeader {
    FileHeader {
        checksum: header_checksum(crate::gen_db::header_fields(page_size)),
        signature: ESEDB_FILE_SIGNATURE,
        format_version: ESEDB_FORMAT_VERSION,
        file_type: 0,
        database_state: 3,
        last_object_identifier: 0,
        format_revision: GENERATED_REVISION,
        page_size,
        creation_format_version: ESEDB_FORMAT_VERSION,
        creation_format_revision: GENERATED_REVISION,
    }
}

/// Zeros read as zero.
pub proof fn lemma_zero_reads(s: Seq<u8>, at: int)
    requires
        0 <= at,
        at + 4 <= s.len(),
        s.subrange(at, at + 4) == zeros(4),
    ensures
        le32_at(s, at) == 0,
{
    assert(s[at] == s.subrange(at, at + 4)[0]);
    assert(s[at + 1] == s.subrange(at, at + 4)[1]);
    assert(s[at + 2] == s.subrange(at, at + 4)[2]);
    assert(s[at + 3] == s.subrange(at, at + 4)[3]);
}

/// The fields of the header that the generator writes read as written.
pub proof fn lemma_header_fields(page_size: u32, h: Seq<u8>)
    requires
        h == le32_bytes(header_checksum(crate::gen_db::header_fields(page_size)))
            + crate::gen_db::header_fields(page_size).subrange(4, FILE_HEADER_SIZE as int),
    ensures
        h.len() == FILE_HEADER_SIZE,
        file_header_of(h) == generated_header(page_size),
        header_checksum(h) == generated_header(page_size).checksum,
{
    let fields = crate::gen_db::header_fields(page_size);
    assert(fields.len() == 668);
    assert(h.len() == 668);
    assert(h.subrange(0, 4) =~= le32_bytes(header_checksum(fields)));
    lemma_le32_reads(h, 0, header_checksum(fields));
    assert(h.subrange(4, 8) =~= le32_bytes(ESEDB_FILE_SIGNATURE));
    lemma_le32_reads(h, 4, ESEDB_FILE_SIGNATURE);
    assert(h.subrange(8, 12) =~= le32_bytes(ESEDB_FORMAT_VERSION));
    lemma_le32_reads(h, 8, ESEDB_FORMAT_VERSION);
    assert(h.subrange(12, 16) =~= zeros(4));
    lemma_zero_reads(h, 12);
    assert(h.subrange(52, 56) =~= le32_bytes(3));
    lemma_le32_reads(h, 52, 3);
    assert(h.subrange(212, 216) =~= zeros(4));
    lemma_zero_reads(h, 212);
    assert(h.subrange(232, 236) =~= le32_bytes(GENERATED_REVISION));
    lemma_le32_reads(h, 232, GENERATED_REVISION);
    assert(h.subrange(236, 240) =~= le32_bytes(page_size));
    lemma_le32_reads(h, 236, page_size);
    assert(h.subrange(340, 344) =~= le32_bytes(ESEDB_FORMAT_VERSION));
    lemma_le32_reads(h, 340, ESEDB_FORMAT_VERSION);
    assert(h.subrange(344, 348) =~= le32_bytes(GENERATED_REVISION));
    lemma_le32_reads(h, 344, GENERATED_REVISION);
    assert forall|i: int| 4 <= i < 668 implies h[i] == fields[i] by {
        assert(h[i] == fields.subrange(4, 668)[i - 4]);
    }
    lemma_xor_fold(h, fields, 167);
}

/// A file that begins with two header pages of the generator opens.
#[verifier::rlimit(50)]
pub proof fn lemma_headers_open(file: Seq<u8>, rest: Seq<u8>, page_size: u32)
    requires
        page_size == 2048 || page_size == 4096 || page_size == 8192,
        file == header_page(page_size) + header_page(page_size) + rest,
    ensures
        open_result(file) == Ok::<FileHeader, EseError>(generated_header(page_size)),
{
    let page = header_page(page_size);
    let fields = crate::gen_db::header_fields(page_size);
    let h = le32_bytes(header_checksum(fields)) + fields.subrange(4, 668);
    lemma_header_fields(page_size, h);
    lemma_header_page_len(page_size);
    assert(page.subrange(0, 668) =~= h);
    assert(file.subrange(0, 668) =~= h);
    assert(file.subrange(page_size as int, page_size + 668) =~= h);
    assert(0int / 2048 == 0);
    assert((page_size as int / 2048) * 2048 == page_size) by {
        if page_size == 2048 {
            assert(2048int / 2048 == 1);
        } else if page_size == 4096 {
            assert(4096int / 2048 == 2);
        } else {
            assert(8192int / 2048 == 4);
        }
    }
    assert(read_result(file, 2048, 0, 668) == Ok::<Seq<u8>, EseError>(h));
    assert(read_result(file, 2048, page_size as int, 668) == Ok::<Seq<u8>, EseError>(h));
    assert(merged_header(generated_header(page_size), generated_header(page_size)) == Ok::<
        FileHeader,
        EseError,
    >(generated_header(page_size)));
}

/// A generated file opens, with the page size it was generated with and the
/// revision of the generator.
pub proof fn lemma_generated_opens(
    table: Seq<u8>,
    page_size: usize,
    record_size: usize,
    records_cnt: usize,
)
    requires
        database_image(table, page_size, record_size, records_cnt) is Some,
    ensures
        open_result(database_image(table, page_size, record_size, records_cnt)->Some_0) == Ok::<
            FileHeader,
            EseError,
        >(generated_header(page_size as u32)),
{
    let image = database_image(table, page_size, record_size, records_cnt)->Some_0;
    let parts = generated_parts(table, page_size, record_size, records_cnt);
    lemma_generated_parts(table, page_size, record_size, records_cnt);
    let page = header_page(page_size as u32);
    assert(image =~= page + page + (zeros(3 * page_size) + parts.1 + parts.2 + parts.3));
    lemma_headers_open(image, zeros(3 * page_size) + parts.1 + parts.2 + parts.3, page_size as u32);
}


/// Where record `i` stands among the records of a page.
pub proof fn lemma_flat_record(records: Seq<Seq<u8>>, i: int)
    requires
        0 <= i < records.len(),
    ensures
        flat(records.take(i)).len() + records[i].len() <= flat(records).len(),
        flat(records).subrange(
            flat(records.take(i)).len() as int,
            flat(records.take(i)).len() as int + records[i].len(),
        ) == records[i],
    decreases records.len(),
{
    let rest = records.drop_last();
    assert(flat(records) == flat(rest) + records.last());
    if i == records.len() - 1 {
        assert(records.take(i) =~= rest);
        assert(flat(records).subrange(flat(rest).len() as int, flat(records).len() as int)
            =~= records.last());
    } else {
        lemma_flat_record(rest, i);
        assert(rest.take(i) =~= records.take(i));
        assert(rest[i] == records[i]);
        let from = flat(records.take(i)).len() as int;
        assert(flat(records).subrange(from, from + records[i].len()) =~= flat(rest).subrange(
            from,
            from + records[i].len(),
        ));
    }
}

/// The text that the bytes of characters spell.
pub proof fn lemma_text_of(chars: Seq<char>)
    ensures
        text_of(vstd::utf8::encode_utf8(chars)) == Some(chars),
{
    vstd::utf8::encode_utf8_valid_utf8(chars);
    vstd::utf8::encode_utf8_decode_utf8(chars);
}

/// The row that a catalog record of the generator stands for.
pub open spec fn written_row(kind: u16, id: u32, link: u32, codepage: u32, name: Seq<char>) -> CatalogRow {
    CatalogRow {
        father_data_page_object_identifier: TABLE_OBJECT,
        cat_type: kind,
        identifier: id,
        column_or_page: if kind == 2 {
            ColumnOrPage::ColumnType(link)
        } else {
            ColumnOrPage::FatherDataPage(link)
        },
        size: 0,
        codepage: if kind == 2 {
            codepage
        } else {
            0
        },
        lcmap_flags: 0,
        name,
        default_value: Seq::empty(),
    }
}

/// A size of at most 15 bits has no high bit.
pub proof fn lemma_short_word(w: u16)
    requires
        w <= 0x7fff,
    ensures
        w & 0x8000 == 0,
{
    assert(w & 0x8000 == 0) by (bit_vector)
        requires
            w <= 0x7fff,
    ;
}

/// The name of a catalog record of the generator reads as written.
pub proof fn lemma_catalog_name(page: Seq<u8>, start: int, name: Seq<char>)
    requires
        0 <= start,
        start + 33 + vstd::utf8::encode_utf8(name).len() <= page.len(),
        vstd::utf8::encode_utf8(name).len() <= 0x7fff,
        page.subrange(start + 31, start + 33) == le16_bytes(
            vstd::utf8::encode_utf8(name).len() as u16,
        ),
        page.subrange(start + 33, start + 33 + vstd::utf8::encode_utf8(name).len())
            == vstd::utf8::encode_utf8(name),
    ensures
        catalog_texts(page, start, 31, 1, 0, 0, Seq::empty(), Seq::empty()) == Ok::<
            (Seq<char>, Seq<u8>),
            EseError,
        >((name, Seq::<u8>::empty())),
{
    let bytes = vstd::utf8::encode_utf8(name);
    let word = bytes.len() as u16;
    lemma_le16_reads(page, start + 31, word);
    lemma_short_word(word);
    lemma_text_of(name);
    if word == 0 {
        assert(bytes =~= Seq::<u8>::empty());
        assert(name =~= Seq::<char>::empty());
        assert(catalog_texts(page, start, 31, 1, 1, 0, Seq::empty(), Seq::empty()) == Ok::<
            (Seq<char>, Seq<u8>),
            EseError,
        >((Seq::<char>::empty(), Seq::<u8>::empty())));
    } else {
        assert(catalog_texts(page, start, 31, 1, 1, word, name, Seq::empty()) == Ok::<
            (Seq<char>, Seq<u8>),
            EseError,
        >((name, Seq::<u8>::empty())));
    }
}

/// A catalog record of the generator decodes to the row it was written for.
pub proof fn lemma_catalog_record(
    page: Seq<u8>,
    tag: PageTag,
    kind: u16,
    id: u32,
    link: u32,
    codepage: u32,
    name: Seq<char>,
)
    requires
        tag.flags == 0,
        vstd::utf8::encode_utf8(name).len() <= 0x7fff,
        40 + tag.offset + crate::gen_db::catalog_record(
            kind,
            id,
            link,
            codepage,
            vstd::utf8::encode_utf8(name),
        ).len() <= page.len(),
        page.subrange(
            40 + tag.offset,
            40 + tag.offset + crate::gen_db::catalog_record(
                kind,
                id,
                link,
                codepage,
                vstd::utf8::encode_utf8(name),
            ).len(),
        ) == crate::gen_db::catalog_record(kind, id, link, codepage, vstd::utf8::encode_utf8(name)),
    ensures
        catalog_item_of(page, 40, tag, false) == Ok::<CatalogRow, EseError>(
            written_row(kind, id, link, codepage, name),
        ),
{
    let bytes = vstd::utf8::encode_utf8(name);
    let rec = crate::gen_db::catalog_record(kind, id, link, codepage, bytes);
    let at = 40 + tag.offset;
    let start = at + 2;
    lemma_plain_tag(tag);
    assert(rec.len() == 35 + bytes.len());
    let body = page.subrange(at, at + rec.len());
    assert(page.subrange(at, at + 2) =~= body.subrange(0, 2));
    assert(body.subrange(0, 2) =~= le16_bytes(0));
    lemma_le16_reads(page, at, 0);
    assert(local_key_size_at(40, tag) == at);
    assert(keys_end(page, 40, tag, false) == Some(start));
    assert(page[start] == body[2] && body[2] == 7);
    assert(page[start + 1] == body[3] && body[3] == 128);
    assert(page.subrange(start + 2, start + 4) =~= body.subrange(4, 6));
    assert(body.subrange(4, 6) =~= le16_bytes(31));
    lemma_le16_reads(page, start + 2, 31);
    assert(page.subrange(start + 4, start + 8) =~= body.subrange(6, 10));
    assert(body.subrange(6, 10) =~= le32_bytes(TABLE_OBJECT));
    lemma_le32_reads(page, start + 4, TABLE_OBJECT);
    assert(page.subrange(start + 8, start + 10) =~= body.subrange(10, 12));
    assert(body.subrange(10, 12) =~= le16_bytes(kind));
    lemma_le16_reads(page, start + 8, kind);
    assert(page.subrange(start + 10, start + 14) =~= body.subrange(12, 16));
    assert(body.subrange(12, 16) =~= le32_bytes(id));
    lemma_le32_reads(page, start + 10, id);
    assert(page.subrange(start + 14, start + 18) =~= body.subrange(16, 20));
    assert(body.subrange(16, 20) =~= le32_bytes(link));
    lemma_le32_reads(page, start + 14, link);
    assert(page.subrange(start + 18, start + 22) =~= body.subrange(20, 24));
    assert(body.subrange(20, 24) =~= le32_bytes(0));
    lemma_le32_reads(page, start + 18, 0);
    assert(page.subrange(start + 26, start + 30) =~= body.subrange(28, 32));
    assert(body.subrange(28, 32) =~= le32_bytes(codepage));
    lemma_le32_reads(page, start + 26, codepage);
    assert(page.subrange(start + 31, start + 33) =~= body.subrange(33, 35));
    assert(body.subrange(33, 35) =~= le16_bytes(bytes.len() as u16));
    assert(page.subrange(start + 33, start + 33 + bytes.len()) =~= body.subrange(
        35,
        35 + bytes.len() as int,
    ));
    assert(body.subrange(35, 35 + bytes.len() as int) =~= bytes);
    lemma_catalog_name(page, start, name);
}


/// The table that the catalog of a generated database defines.
pub open spec fn generated_table(name: Seq<char>) -> TableRows {
    TableRows {
        table: Some(written_row(1, TABLE_OBJECT, DATA_ROOT_PAGE, 0, name)),
        columns: seq![
            written_row(2, 256, 12, 1200, "compressed_unicode"@),
            written_row(2, 257, 12, 1252, "compressed_ascii"@),
            written_row(2, 258, 11, 0, "compressed_binary"@),
            written_row(2, 259, 12, 0, "usual_text"@),
        ],
        long_value: None,
    }
}

/// One row of a catalog page is read and joins the grouping.
pub proof fn lemma_catalog_page_step(
    page: Seq<u8>,
    tags: Seq<PageTag>,
    i: int,
    g: Grouping,
    row: CatalogRow,
)
    requires
        1 <= i < tags.len(),
        tags[i].flags == 0,
        catalog_item_of(page, 40, tags[i], false) == Ok::<CatalogRow, EseError>(row),
    ensures
        catalog_page(page, 40, tags, false, i, g) == catalog_page(
            page,
            40,
            tags,
            false,
            i + 1,
            grouped(g, row),
        ),
{
    lemma_plain_tag(tags[i]);
}

/// Record `i` of a generated catalog page decodes to the row it was written for.
pub proof fn lemma_catalog_row(
    page: Seq<u8>,
    records: Seq<Seq<u8>>,
    i: int,
    kind: u16,
    id: u32,
    link: u32,
    codepage: u32,
    name: Seq<char>,
)
    requires
        0 <= i < records.len(),
        40 + flat(records).len() <= page.len(),
        flat(records).len() < 0x2000,
        page.subrange(40, 40 + flat(records).len() as int) == flat(records),
        vstd::utf8::encode_utf8(name).len() <= 0x7fff,
        records[i] == crate::gen_db::catalog_record(
            kind,
            id,
            link,
            codepage,
            vstd::utf8::encode_utf8(name),
        ),
    ensures
        catalog_item_of(page, 40, written_tag(records, i), false) == Ok::<CatalogRow, EseError>(
            written_row(kind, id, link, codepage, name),
        ),
{
    lemma_flat_record(records, i);
    let off = flat(records.take(i)).len() as int;
    let len = records[i].len() as int;
    let body = page.subrange(40, 40 + flat(records).len() as int);
    assert(page.subrange(40 + off, 40 + off + len) =~= body.subrange(off, off + len));
    lemma_catalog_record(page, written_tag(records, i), kind, id, link, codepage, name);
}

/// The flags of the catalog page of a generated database: a root and a leaf, no branch.
pub proof fn lemma_catalog_flags()
    ensures
        3u32 & crate::jet::PAGE_IS_ROOT != 0,
        3u32 & crate::jet::PAGE_IS_PARENT == 0,
        3u32 & crate::jet::PAGE_IS_LEAF != 0,
{
    assert(3u32 & 1u32 != 0 && 3u32 & 4u32 == 0 && 3u32 & 2u32 != 0) by (bit_vector);
}

/// Whether the five rows of a catalog page decode to the rows of the
/// generated table of that name.
#[verifier::opaque]
pub open spec fn rows_in_order(page: Seq<u8>, tags: Seq<PageTag>, name: Seq<char>) -> bool {
    &&& tags.len() == 6
    &&& tags[1].flags == 0
    &&& tags[2].flags == 0
    &&& tags[3].flags == 0
    &&& tags[4].flags == 0
    &&& tags[5].flags == 0
    &&& catalog_item_of(page, 40, tags[1], false) == Ok::<CatalogRow, EseError>(
        written_row(1, TABLE_OBJECT, DATA_ROOT_PAGE, 0, name),
    )
    &&& catalog_item_of(page, 40, tags[2], false) == Ok::<CatalogRow, EseError>(
        written_row(2, 256, 12, 1200, "compressed_unicode"@),
    )
    &&& catalog_item_of(page, 40, tags[3], false) == Ok::<CatalogRow, EseError>(
        written_row(2, 257, 12, 1252, "compressed_ascii"@),
    )
    &&& catalog_item_of(page, 40, tags[4], false) == Ok::<CatalogRow, EseError>(
        written_row(2, 258, 11, 0, "compressed_binary"@),
    )
    &&& catalog_item_of(page, 40, tags[5], false) == Ok::<CatalogRow, EseError>(
        written_row(2, 259, 12, 0, "usual_text"@),
    )
}

/// The rows of a generated catalog page make one table.
pub proof fn lemma_catalog_rows(page: Seq<u8>, tags: Seq<PageTag>, name: Seq<char>)
    requires
        rows_in_order(page, tags, name),
    ensures
        catalog_page(page, 40, tags, false, 1, no_tables()) matches Ok(g) && closed(g) == seq![
            generated_table(name),
        ],
{
    reveal(rows_in_order);
    let r1 = written_row(1, TABLE_OBJECT, DATA_ROOT_PAGE, 0, name);
    let r2 = written_row(2, 256, 12, 1200, "compressed_unicode"@);
    let r3 = written_row(2, 257, 12, 1252, "compressed_ascii"@);
    let r4 = written_row(2, 258, 11, 0, "compressed_binary"@);
    let r5 = written_row(2, 259, 12, 0, "usual_text"@);
    let g0 = no_tables();
    let g1 = grouped(g0, r1);
    let g2 = grouped(g1, r2);
    let g3 = grouped(g2, r3);
    let g4 = grouped(g3, r4);
    let g5 = grouped(g4, r5);
    lemma_catalog_page_step(page, tags, 1, g0, r1);
    lemma_catalog_page_step(page, tags, 2, g1, r2);
    lemma_catalog_page_step(page, tags, 3, g2, r3);
    lemma_catalog_page_step(page, tags, 4, g3, r4);
    lemma_catalog_page_step(page, tags, 5, g4, r5);
    assert(catalog_page(page, 40, tags, false, 6, g5) == Ok::<Grouping, EseError>(g5));
    assert(g5.open.columns =~= generated_table(name).columns);
    assert(g5.done =~= Seq::<TableRows>::empty());
    assert(closed(g5) =~= seq![generated_table(name)]);
}

/// A catalog of one page, which is root and leaf at once, defines the
/// tables that the rows of that page make.
pub proof fn lemma_catalog_of_one_page(db: Db, records: Seq<Seq<u8>>, tables: Seq<TableRows>)
    requires
        db.revision == GENERATED_REVISION,
        db.page_size == 2048 || db.page_size == 4096 || db.page_size == 8192,
        db.page_count() >= 1,
        catalog_page_in_order(db, records),
        written_tags(records).len() > 0,
        crate::tree::root_header_of(db.page(4)->Ok_0, 40, written_tags(records)[0]) is Ok,
        catalog_page(db.page(4)->Ok_0, 40, written_tags(records), false, 1, no_tables()) matches Ok(
            g,
        ) && closed(g) == tables,
    ensures
        catalog_of(db) == Ok::<Seq<TableRows>, EseError>(tables),
{
    reveal(catalog_page_in_order);
    lemma_catalog_flags();
    let page = db.page(4)->Ok_0;
    let g = catalog_page(page, 40, written_tags(records), false, 1, no_tables())->Ok_0;
    assert(catalog_first_leaf(db) == Ok::<u32, EseError>(4));
    assert(catalog_chain(db, 0, 4, (db.page_count() - 1) as nat, g) == Ok::<
        Seq<TableRows>,
        EseError,
    >(closed(g)));
}

/// The root record of a generated page is in order.
pub proof fn lemma_root_record(page: Seq<u8>, records: Seq<Seq<u8>>)
    requires
        records.len() > 0,
        records[0] == root_record(),
        page.len() >= 2048,
    ensures
        crate::tree::root_header_of(page, 40, written_tag(records, 0)) is Ok,
{
    assert(records.take(0) =~= Seq::<Seq<u8>>::empty());
    assert(root_record().len() == 16);
}

/// What is known of the catalog page of a generated database.
#[verifier::opaque]
pub open spec fn catalog_page_in_order(db: Db, records: Seq<Seq<u8>>) -> bool {
    match db.page(4) {
        Err(_) => false,
        Ok(page) => {
            &&& page.len() >= 2048
            &&& common_of(page).page_flags == 3
            &&& common_of(page).previous_page == 0
            &&& common_of(page).next_page == 0
            &&& tags_of(page, db.revision, db.page_size) == Ok::<Seq<PageTag>, EseError>(
                written_tags(records),
            )
            &&& 40 + flat(records).len() <= page.len()
            &&& flat(records).len() < 0x2000
            &&& page.subrange(40, 40 + flat(records).len() as int) == flat(records)
        },
    }
}

/// The catalog page of a generated database is in order.
pub proof fn lemma_generated_catalog_page(
    table: Seq<u8>,
    page_size: usize,
    record_size: usize,
    records_cnt: usize,
)
    requires
        database_image(table, page_size, record_size, records_cnt) is Some,
    ensures
        catalog_page_in_order(
            generated_db(
                database_image(table, page_size, record_size, records_cnt)->Some_0,
                page_size,
            ),
            catalog_records(table),
        ),
        generated_db(
            database_image(table, page_size, record_size, records_cnt)->Some_0,
            page_size,
        ).page_count() >= 1,
{
    reveal(catalog_page_in_order);
    lemma_generated_parts(table, page_size, record_size, records_cnt);
    lemma_generated_pages(table, page_size, record_size, records_cnt, 0);
    lemma_page_decodes(page_size as int, 0, 0, 2, 3, catalog_records(table));
}

/// The tags of a generated catalog page: six, without flags, the first for
/// the root record.
pub proof fn lemma_catalog_tags(table: Seq<u8>)
    ensures
        written_tags(catalog_records(table)).len() == 6,
        forall|i: int| 0 <= i < 6 ==> (#[trigger] written_tags(catalog_records(table))[i]).flags == 0,
        written_tags(catalog_records(table))[0] == written_tag(catalog_records(table), 0),
        catalog_records(table)[0] == root_record(),
{
}

/// The catalog page of a generated database has its rows and its root
/// record in order.
pub proof fn lemma_generated_catalog_rows_in_order(
    name: Seq<char>,
    page_size: usize,
    record_size: usize,
    records_cnt: usize,
)
    requires
        database_image(vstd::utf8::encode_utf8(name), page_size, record_size, records_cnt) is Some,
    ensures
        ({
            let table = vstd::utf8::encode_utf8(name);
            let db = generated_db(
                database_image(table, page_size, record_size, records_cnt)->Some_0,
                page_size,
            );
            let tags = written_tags(catalog_records(table));
            &&& catalog_page_in_order(db, catalog_records(table))
            &&& db.page_count() >= 1
            &&& rows_in_order(db.page(4)->Ok_0, tags, name)
            &&& tags.len() > 0
            &&& crate::tree::root_header_of(db.page(4)->Ok_0, 40, tags[0]) is Ok
        }),
{
    reveal(catalog_page_in_order);
    let table = vstd::utf8::encode_utf8(name);
    let image = database_image(table, page_size, record_size, records_cnt)->Some_0;
    let db = generated_db(image, page_size);
    let records = catalog_records(table);
    lemma_generated_catalog_page(table, page_size, record_size, records_cnt);
    lemma_catalog_name_len(table, page_size, record_size, records_cnt);
    lemma_catalog_tags(table);
    let page = db.page(4)->Ok_0;
    lemma_generated_catalog_rows(page, name);
    lemma_root_record(page, records);
}

/// The catalog of a generated database defines one table: the table of the
/// name it was generated with, with its data tree under page 5 and four columns.
pub proof fn lemma_generated_catalog(
    name: Seq<char>,
    page_size: usize,
    record_size: usize,
    records_cnt: usize,
)
    requires
        database_image(vstd::utf8::encode_utf8(name), page_size, record_size, records_cnt) is Some,
    ensures
        catalog_of(
            generated_db(
                database_image(
                    vstd::utf8::encode_utf8(name),
                    page_size,
                    record_size,
                    records_cnt,
                )->Some_0,
                page_size,
            ),
        ) == Ok::<Seq<TableRows>, EseError>(seq![generated_table(name)]),
{
    let table = vstd::utf8::encode_utf8(name);
    let image = database_image(table, page_size, record_size, records_cnt)->Some_0;
    let db = generated_db(image, page_size);
    let tags = written_tags(catalog_records(table));
    lemma_generated_catalog_rows_in_order(name, page_size, record_size, records_cnt);
    lemma_catalog_name_len(table, page_size, record_size, records_cnt);
    lemma_catalog_rows(db.page(4)->Ok_0, tags, name);
    lemma_catalog_of_one_page(db, catalog_records(table), seq![generated_table(name)]);
}

/// A database is generated with pages of 2, 4 or 8 KiB, and for a table
/// whose name has at most 255 bytes.
pub proof fn lemma_catalog_name_len(
    table: Seq<u8>,
    page_size: usize,
    record_size: usize,
    records_cnt: usize,
)
    requires
        database_image(table, page_size, record_size, records_cnt) is Some,
    ensures
        table.len() <= 255,
        page_size == 2048 || page_size == 4096 || page_size == 8192,
{
    reveal(database_image);
}

/// The five rows of a generated catalog page decode to the rows they were
/// written for.
pub proof fn lemma_generated_catalog_rows(page: Seq<u8>, name: Seq<char>)
    requires
        vstd::utf8::encode_utf8(name).len() <= 255,
        40 + flat(catalog_records(vstd::utf8::encode_utf8(name))).len() <= page.len(),
        flat(catalog_records(vstd::utf8::encode_utf8(name))).len() < 0x2000,
        page.subrange(
            40,
            40 + flat(catalog_records(vstd::utf8::encode_utf8(name))).len() as int,
        ) == flat(catalog_records(vstd::utf8::encode_utf8(name))),
    ensures
        rows_in_order(page, written_tags(catalog_records(vstd::utf8::encode_utf8(name))), name),
{
    reveal(rows_in_order);
    let records = catalog_records(vstd::utf8::encode_utf8(name));
    crate::gen_db::lemma_short_names();
    lemma_catalog_row(page, records, 1, 1, TABLE_OBJECT, DATA_ROOT_PAGE, 0, name);
    lemma_catalog_row(page, records, 2, 2, 256, 12, 1200, "compressed_unicode"@);
    lemma_catalog_row(page, records, 3, 2, 257, 12, 1252, "compressed_ascii"@);
    lemma_catalog_row(page, records, 4, 2, 258, 11, 0, "compressed_binary"@);
    lemma_catalog_row(page, records, 5, 2, 259, 12, 0, "usual_text"@);
}


/// A generated database loads: its file opens, and its catalog defines the
/// one table it was generated with. Opening that table finds it under its
/// name, as the first table, without long values and with its data tree under
/// page 5; a move to the first row and moves to the next row until none is
/// found find exactly as many rows as the database was generated with; and a
/// move to the last row and moves to the previous row find the same rows in
/// the opposite order.
pub proof fn lemma_generated_database(
    name: Seq<char>,
    page_size: usize,
    record_size: usize,
    records_cnt: usize,
    fuel: nat,
)
    requires
        database_image(vstd::utf8::encode_utf8(name), page_size, record_size, records_cnt) is Some,
        fuel > records_cnt,
    ensures
        ({
            let image = database_image(
                vstd::utf8::encode_utf8(name),
                page_size,
                record_size,
                records_cnt,
            )->Some_0;
            let db = generated_db(image, page_size);
            let tables = seq![generated_table(name)];
            &&& load_result(image) == Ok::<(Db, Seq<TableRows>), EseError>((db, tables))
            &&& table_position(fresh_states(tables), name, 0) == Some(0int)
            &&& data_root(generated_table(name)) == DATA_ROOT_PAGE
            &&& opened_segments(db, fresh_state(generated_table(name))) == Ok::<
                Seq<Segment>,
                EseError,
            >(Seq::empty())
            &&& rows_visited(
                db,
                DATA_ROOT_PAGE,
                unpositioned(),
                ESE_MOVE_FIRST,
                ESE_MOVE_NEXT,
                true,
                fuel,
            ).len() == records_cnt
            &&& rows_visited(
                db,
                DATA_ROOT_PAGE,
                unpositioned(),
                ESE_MOVE_LAST,
                ESE_MOVE_PREVIOUS,
                true,
                fuel,
            ) == rows_visited(
                db,
                DATA_ROOT_PAGE,
                unpositioned(),
                ESE_MOVE_FIRST,
                ESE_MOVE_NEXT,
                true,
                fuel,
            ).reverse()
        }),
{
    let table = vstd::utf8::encode_utf8(name);
    lemma_generated_opens(table, page_size, record_size, records_cnt);
    lemma_generated_catalog(name, page_size, record_size, records_cnt);
    lemma_generated_rows_both_ways(table, page_size, record_size, records_cnt, fuel);
    lemma_catalog_name_len(table, page_size, record_size, records_cnt);
    let tables = seq![generated_table(name)];
    assert(fresh_states(tables)[0] == fresh_state(generated_table(name)));
}


/// Where row `g` of a generated table stands, counted from zero: on the
/// leaf that the rows before it fill, under the tag behind theirs.
pub open spec fn row_at(per_leaf: int, g: int) -> Cursor {
    Cursor { page: Some((6 + g / per_leaf) as u32), tag: (g % per_leaf + 1) as usize }
}

/// The row under tag `t` of leaf `m` is row `m * per_leaf + t - 1`.
pub proof fn lemma_row_at(per_leaf: int, m: int, t: int)
    requires
        per_leaf >= 1,
        m >= 0,
        1 <= t <= per_leaf,
    ensures
        row_at(per_leaf, m * per_leaf + t - 1) == (Cursor {
            page: Some((6 + m) as u32),
            tag: t as usize,
        }),
        m * per_leaf + t - 1 >= 0,
{
    vstd::arithmetic::div_mod::lemma_fundamental_div_mod_converse(
        m * per_leaf + t - 1,
        per_leaf,
        m,
        t - 1,
    );
    assert(m * per_leaf >= 0) by (nonlinear_arith)
        requires
            m >= 0,
            per_leaf >= 1,
    ;
}

/// The move to the next row from a row that is not the last of its leaf.
pub proof fn lemma_next_on_leaf(db: Db, count: int, per_leaf: int, leaves: int, m: int, t: int)
    requires
        tree_in_order(db, count, per_leaf, leaves),
        0 <= m < leaves,
        1 <= t < rows_on_leaf(count, per_leaf, m),
    ensures
        moved(db, DATA_ROOT_PAGE, on_row(m, t), ESE_MOVE_NEXT) == Ok::<(Cursor, bool), EseError>(
            (on_row(m, t + 1), true),
        ),
{
    assert(leaf_in_order(db, count, per_leaf, leaves, m));
    let page = db.page((6 + m) as u32)->Ok_0;
    let tags = tags_of(page, db.revision, db.page_size)->Ok_0;
    assert(linked_page(db, (6 + m) as u32, 0) == Ok::<(Seq<u8>, Seq<PageTag>), EseError>(
        (page, tags),
    ));
    assert(!tags[t + 1].spec_is_defunct());
    assert(skip_forward(tags, t + 1) == t + 1);
    assert(forward(db, (6 + m) as u32, 0, t + 1, db.page_count()) == Ok::<Found, EseError>(
        Found { page: (6 + m) as u32, tag: Some((t + 1) as usize) },
    ));
}

/// The move to the next row from the last row of a leaf before the last leaf.
pub proof fn lemma_next_across(db: Db, count: int, per_leaf: int, leaves: int, m: int)
    requires
        tree_in_order(db, count, per_leaf, leaves),
        0 <= m,
        m + 1 < leaves,
    ensures
        moved(db, DATA_ROOT_PAGE, on_row(m, per_leaf), ESE_MOVE_NEXT) == Ok::<
            (Cursor, bool),
            EseError,
        >((on_row(m + 1, 1), true)),
{
    lemma_rows_on_leaf(count, per_leaf, leaves, m);
    assert(leaf_in_order(db, count, per_leaf, leaves, m));
    let page = db.page((6 + m) as u32)->Ok_0;
    let tags = tags_of(page, db.revision, db.page_size)->Ok_0;
    let limit = db.page_count();
    assert(linked_page(db, (6 + m) as u32, 0) == Ok::<(Seq<u8>, Seq<PageTag>), EseError>(
        (page, tags),
    ));
    assert(skip_forward(tags, per_leaf + 1) == per_leaf + 1);
    lemma_rows_on_leaf(count, per_leaf, leaves, m + 1);
    assert(leaf_in_order(db, count, per_leaf, leaves, m + 1));
    let next_page = db.page((7 + m) as u32)->Ok_0;
    let next_tags = tags_of(next_page, db.revision, db.page_size)->Ok_0;
    assert(linked_page(db, (7 + m) as u32, (6 + m) as u32) == Ok::<
        (Seq<u8>, Seq<PageTag>),
        EseError,
    >((next_page, next_tags)));
    assert(!next_tags[1].spec_is_defunct());
    assert(skip_forward(next_tags, 1) == 1);
    assert(forward(db, (7 + m) as u32, (6 + m) as u32, 1, (limit - 1) as nat) == Ok::<
        Found,
        EseError,
    >(Found { page: (7 + m) as u32, tag: Some(1usize) }));
    assert(forward(db, (6 + m) as u32, 0, per_leaf + 1, limit) == Ok::<Found, EseError>(
        Found { page: (7 + m) as u32, tag: Some(1usize) },
    ));
}

/// From the last row of the last leaf no move to the next row finds a row.
pub proof fn lemma_next_at_end(db: Db, count: int, per_leaf: int, leaves: int)
    requires
        tree_in_order(db, count, per_leaf, leaves),
        1 <= rows_on_leaf(count, per_leaf, leaves - 1),
    ensures
        moved(
            db,
            DATA_ROOT_PAGE,
            on_row(leaves - 1, rows_on_leaf(count, per_leaf, leaves - 1)),
            ESE_MOVE_NEXT,
        ) matches Ok(r) && !r.1,
{
    lemma_leaf_count(count, per_leaf);
    let m = leaves - 1;
    let t = rows_on_leaf(count, per_leaf, m);
    assert(leaf_in_order(db, count, per_leaf, leaves, m));
    let page = db.page((6 + m) as u32)->Ok_0;
    let tags = tags_of(page, db.revision, db.page_size)->Ok_0;
    assert(linked_page(db, (6 + m) as u32, 0) == Ok::<(Seq<u8>, Seq<PageTag>), EseError>(
        (page, tags),
    ));
    assert(skip_forward(tags, t + 1) == t + 1);
    assert(forward(db, (6 + m) as u32, 0, t + 1, db.page_count()) == Ok::<Found, EseError>(
        Found { page: (6 + m) as u32, tag: None },
    ));
}

/// From a row of a tree in order, the moves to the next row find the rows
/// behind it in their order.
pub proof fn lemma_next_visits(
    db: Db,
    count: int,
    per_leaf: int,
    leaves: int,
    m: int,
    t: int,
    g: int,
    fuel: nat,
)
    requires
        tree_in_order(db, count, per_leaf, leaves),
        0 <= m < leaves,
        1 <= t <= rows_on_leaf(count, per_leaf, m),
        g == m * per_leaf + t - 1,
        fuel > count - 1 - g,
    ensures
        rows_visited(
            db,
            DATA_ROOT_PAGE,
            on_row(m, t),
            ESE_MOVE_FIRST,
            ESE_MOVE_NEXT,
            false,
            fuel,
        ) == Seq::new((count - 1 - g) as nat, |i: int| row_at(per_leaf, g + 1 + i)),
    decreases count - g,
{
    let visited = rows_visited(
        db,
        DATA_ROOT_PAGE,
        on_row(m, t),
        ESE_MOVE_FIRST,
        ESE_MOVE_NEXT,
        false,
        fuel,
    );
    let expected = Seq::new((count - 1 - g) as nat, |i: int| row_at(per_leaf, g + 1 + i));
    lemma_rows_on_leaf(count, per_leaf, leaves, m);
    if t < rows_on_leaf(count, per_leaf, m) {
        lemma_next_on_leaf(db, count, per_leaf, leaves, m, t);
        lemma_next_visits(db, count, per_leaf, leaves, m, t + 1, g + 1, (fuel - 1) as nat);
        lemma_row_at(per_leaf, m, t + 1);
        let rest = Seq::new((count - 2 - g) as nat, |i: int| row_at(per_leaf, g + 2 + i));
        assert(visited == seq![on_row(m, t + 1)] + rest);
        assert(seq![on_row(m, t + 1)] + rest =~= expected);
    } else if m + 1 < leaves {
        lemma_next_across(db, count, per_leaf, leaves, m);
        lemma_rows_on_leaf(count, per_leaf, leaves, m + 1);
        lemma_next_visits(db, count, per_leaf, leaves, m + 1, 1, g + 1, (fuel - 1) as nat);
        lemma_row_at(per_leaf, m + 1, 1);
        let rest = Seq::new((count - 2 - g) as nat, |i: int| row_at(per_leaf, g + 2 + i));
        assert(visited == seq![on_row(m + 1, 1)] + rest);
        assert(seq![on_row(m + 1, 1)] + rest =~= expected);
    } else {
        lemma_next_at_end(db, count, per_leaf, leaves);
        assert(visited =~= expected);
    }
}

/// The cursor on the row under tag `t` of leaf `m`.
pub open spec fn on_row(m: int, t: int) -> Cursor {
    Cursor { page: Some((6 + m) as u32), tag: t as usize }
}

/// The move to the previous row from a row that is not the first of its leaf.
pub proof fn lemma_previous_on_leaf(
    db: Db,
    count: int,
    per_leaf: int,
    leaves: int,
    m: int,
    t: int,
)
    requires
        tree_in_order(db, count, per_leaf, leaves),
        0 <= m < leaves,
        2 <= t <= rows_on_leaf(count, per_leaf, m),
    ensures
        moved(db, DATA_ROOT_PAGE, on_row(m, t), ESE_MOVE_PREVIOUS) == Ok::<(Cursor, bool), EseError>(
            (on_row(m, t - 1), true),
        ),
{
    assert(leaf_in_order(db, count, per_leaf, leaves, m));
    let page = db.page((6 + m) as u32)->Ok_0;
    let tags = tags_of(page, db.revision, db.page_size)->Ok_0;
    assert(linked_page(db, (6 + m) as u32, 0) == Ok::<(Seq<u8>, Seq<PageTag>), EseError>(
        (page, tags),
    ));
    assert(!tags[t - 1].spec_is_defunct());
    assert(skip_backward(tags, t - 1) == t - 1);
    assert(backward(db, (6 + m) as u32, Some((t - 1) as usize), db.page_count()) == Ok::<
        Found,
        EseError,
    >(Found { page: (6 + m) as u32, tag: Some((t - 1) as usize) }));
}

/// The move to the previous row from the first row of a leaf behind the first leaf.
pub proof fn lemma_previous_across(db: Db, count: int, per_leaf: int, leaves: int, m: int)
    requires
        tree_in_order(db, count, per_leaf, leaves),
        0 < m < leaves,
        1 <= rows_on_leaf(count, per_leaf, m),
    ensures
        moved(db, DATA_ROOT_PAGE, on_row(m, 1), ESE_MOVE_PREVIOUS) == Ok::<(Cursor, bool), EseError>(
            (on_row(m - 1, per_leaf), true),
        ),
{
    assert(leaf_in_order(db, count, per_leaf, leaves, m));
    let page = db.page((6 + m) as u32)->Ok_0;
    let tags = tags_of(page, db.revision, db.page_size)->Ok_0;
    let limit = db.page_count();
    assert(linked_page(db, (6 + m) as u32, 0) == Ok::<(Seq<u8>, Seq<PageTag>), EseError>(
        (page, tags),
    ));
    assert(skip_backward(tags, 0) == 0);
    lemma_rows_on_leaf(count, per_leaf, leaves, m - 1);
    assert(leaf_in_order(db, count, per_leaf, leaves, m - 1));
    let before_page = db.page((5 + m) as u32)->Ok_0;
    let before_tags = tags_of(before_page, db.revision, db.page_size)->Ok_0;
    assert(linked_page(db, (5 + m) as u32, 0) == Ok::<(Seq<u8>, Seq<PageTag>), EseError>(
        (before_page, before_tags),
    ));
    assert(!before_tags[per_leaf].spec_is_defunct());
    assert(skip_backward(before_tags, per_leaf) == per_leaf);
    assert(backward(db, (5 + m) as u32, None, (limit - 1) as nat) == Ok::<Found, EseError>(
        Found { page: (5 + m) as u32, tag: Some(per_leaf as usize) },
    ));
    assert(backward(db, (6 + m) as u32, Some(0usize), limit) == Ok::<Found, EseError>(
        Found { page: (5 + m) as u32, tag: Some(per_leaf as usize) },
    ));
}

/// From the first row of the first leaf no move to the previous row finds a row.
pub proof fn lemma_previous_at_start(db: Db, count: int, per_leaf: int, leaves: int)
    requires
        tree_in_order(db, count, per_leaf, leaves),
        1 <= rows_on_leaf(count, per_leaf, 0),
    ensures
        moved(db, DATA_ROOT_PAGE, on_row(0, 1), ESE_MOVE_PREVIOUS) matches Ok(r) && !r.1,
{
    lemma_leaf_count(count, per_leaf);
    assert(leaf_in_order(db, count, per_leaf, leaves, 0));
    let page = db.page(6)->Ok_0;
    let tags = tags_of(page, db.revision, db.page_size)->Ok_0;
    assert(linked_page(db, 6, 0) == Ok::<(Seq<u8>, Seq<PageTag>), EseError>((page, tags)));
    assert(skip_backward(tags, 0) == 0);
    assert(backward(db, 6, Some(0usize), db.page_count()) == Ok::<Found, EseError>(
        Found { page: 6, tag: None },
    ));
}

/// From a row of a tree in order, the moves to the previous row find the
/// rows before it, the nearest first.
pub proof fn lemma_previous_visits(
    db: Db,
    count: int,
    per_leaf: int,
    leaves: int,
    m: int,
    t: int,
    g: int,
    fuel: nat,
)
    requires
        tree_in_order(db, count, per_leaf, leaves),
        0 <= m < leaves,
        1 <= t <= rows_on_leaf(count, per_leaf, m),
        g == m * per_leaf + t - 1,
        fuel > g,
    ensures
        rows_visited(
            db,
            DATA_ROOT_PAGE,
            on_row(m, t),
            ESE_MOVE_LAST,
            ESE_MOVE_PREVIOUS,
            false,
            fuel,
        ) == Seq::new(g as nat, |i: int| row_at(per_leaf, g - 1 - i)),
    decreases g,
{
    let visited = rows_visited(
        db,
        DATA_ROOT_PAGE,
        on_row(m, t),
        ESE_MOVE_LAST,
        ESE_MOVE_PREVIOUS,
        false,
        fuel,
    );
    let expected = Seq::new(g as nat, |i: int| row_at(per_leaf, g - 1 - i));
    lemma_rows_on_leaf(count, per_leaf, leaves, m);
    if t >= 2 {
        lemma_previous_on_leaf(db, count, per_leaf, leaves, m, t);
        lemma_previous_visits(db, count, per_leaf, leaves, m, t - 1, g - 1, (fuel - 1) as nat);
        lemma_row_at(per_leaf, m, t - 1);
        let rest = Seq::new((g - 1) as nat, |i: int| row_at(per_leaf, g - 2 - i));
        assert(visited == seq![on_row(m, t - 1)] + rest);
        assert(seq![on_row(m, t - 1)] + rest =~= expected);
    } else if m > 0 {
        lemma_previous_across(db, count, per_leaf, leaves, m);
        lemma_rows_on_leaf(count, per_leaf, leaves, m - 1);
        assert((m - 1) * per_leaf + per_leaf == m * per_leaf) by (nonlinear_arith);
        lemma_previous_visits(
            db,
            count,
            per_leaf,
            leaves,
            m - 1,
            per_leaf,
            g - 1,
            (fuel - 1) as nat,
        );
        lemma_row_at(per_leaf, m - 1, per_leaf);
        let rest = Seq::new((g - 1) as nat, |i: int| row_at(per_leaf, g - 2 - i));
        assert(visited == seq![on_row(m - 1, per_leaf)] + rest);
        assert(seq![on_row(m - 1, per_leaf)] + rest =~= expected);
    } else {
        lemma_previous_at_start(db, count, per_leaf, leaves);
        assert(g == 0) by (nonlinear_arith)
            requires
                g == m * per_leaf + t - 1,
                m == 0,
                t == 1,
        ;
        assert(visited =~= expected);
    }
}

/// The last leaf of a tree in order is found from every leaf before it.
pub proof fn lemma_last_leaf(
    db: Db,
    count: int,
    per_leaf: int,
    leaves: int,
    m: int,
    from: u32,
    limit: nat,
)
    requires
        tree_in_order(db, count, per_leaf, leaves),
        0 <= m < leaves,
        from == 0 || from == 5 + m,
        limit >= leaves - 1 - m,
    ensures
        last_leaf(db, (6 + m) as u32, from, limit) == Ok::<u32, EseError>((5 + leaves) as u32),
    decreases leaves - m,
{
    assert(leaf_in_order(db, count, per_leaf, leaves, m));
    if m + 1 < leaves {
        lemma_last_leaf(db, count, per_leaf, leaves, m + 1, (6 + m) as u32, (limit - 1) as nat);
    }
}


/// The move to the first row of a tree in order.
pub proof fn lemma_first_move(db: Db, count: int, per_leaf: int, leaves: int)
    requires
        tree_in_order(db, count, per_leaf, leaves),
    ensures
        count > 0 ==> moved(db, DATA_ROOT_PAGE, unpositioned(), ESE_MOVE_FIRST) == Ok::<
            (Cursor, bool),
            EseError,
        >((on_row(0, 1), true)),
        count == 0 ==> (moved(db, DATA_ROOT_PAGE, unpositioned(), ESE_MOVE_FIRST) matches Ok(r)
            && !r.1),
{
    lemma_leaf_count(count, per_leaf);
    lemma_rows_on_leaf(count, per_leaf, leaves, 0);
    assert(leaf_in_order(db, count, per_leaf, leaves, 0));
    let page = db.page(6)->Ok_0;
    let tags = tags_of(page, db.revision, db.page_size)->Ok_0;
    assert(linked_page(db, 6, 0) == Ok::<(Seq<u8>, Seq<PageTag>), EseError>((page, tags)));
    if count > 0 {
        assert(!tags[1].spec_is_defunct());
        assert(skip_forward(tags, 1) == 1);
        assert(forward(db, 6, 0, 1, db.page_count()) == Ok::<Found, EseError>(
            Found { page: 6, tag: Some(1usize) },
        ));
    }
}

/// The move to the last row of a tree in order.
pub proof fn lemma_last_move(db: Db, count: int, per_leaf: int, leaves: int)
    requires
        tree_in_order(db, count, per_leaf, leaves),
    ensures
        count > 0 ==> moved(db, DATA_ROOT_PAGE, unpositioned(), ESE_MOVE_LAST) == Ok::<
            (Cursor, bool),
            EseError,
        >((on_row(leaves - 1, rows_on_leaf(count, per_leaf, leaves - 1)), true)),
        count == 0 ==> (moved(db, DATA_ROOT_PAGE, unpositioned(), ESE_MOVE_LAST) matches Ok(r)
            && !r.1),
{
    lemma_leaf_count(count, per_leaf);
    let last = leaves - 1;
    lemma_rows_on_leaf(count, per_leaf, leaves, last);
    lemma_last_leaf(db, count, per_leaf, leaves, 0, 0, db.page_count());
    assert(leaf_in_order(db, count, per_leaf, leaves, last));
    let page = db.page((6 + last) as u32)->Ok_0;
    let tags = tags_of(page, db.revision, db.page_size)->Ok_0;
    assert(linked_page(db, (6 + last) as u32, 0) == Ok::<(Seq<u8>, Seq<PageTag>), EseError>(
        (page, tags),
    ));
    if count > 0 {
        let rows = rows_on_leaf(count, per_leaf, last);
        assert(!tags[rows].spec_is_defunct());
        assert(skip_backward(tags, rows) == rows);
        assert(backward(db, (6 + last) as u32, None, db.page_count()) == Ok::<Found, EseError>(
            Found { page: (6 + last) as u32, tag: Some(rows as usize) },
        ));
    }
}

/// On a tree in order, the moves from the first row on visit the rows in
/// their order, and the moves from the last row back visit them in the
/// opposite order.
pub proof fn lemma_tree_visits(db: Db, count: int, per_leaf: int, leaves: int, fuel: nat)
    requires
        tree_in_order(db, count, per_leaf, leaves),
        fuel > count,
    ensures
        rows_visited(
            db,
            DATA_ROOT_PAGE,
            unpositioned(),
            ESE_MOVE_FIRST,
            ESE_MOVE_NEXT,
            true,
            fuel,
        ) == Seq::new(count as nat, |i: int| row_at(per_leaf, i)),
        rows_visited(
            db,
            DATA_ROOT_PAGE,
            unpositioned(),
            ESE_MOVE_LAST,
            ESE_MOVE_PREVIOUS,
            true,
            fuel,
        ) == Seq::new(count as nat, |i: int| row_at(per_leaf, count - 1 - i)),
{
    let forwards = rows_visited(
        db,
        DATA_ROOT_PAGE,
        unpositioned(),
        ESE_MOVE_FIRST,
        ESE_MOVE_NEXT,
        true,
        fuel,
    );
    let backwards = rows_visited(
        db,
        DATA_ROOT_PAGE,
        unpositioned(),
        ESE_MOVE_LAST,
        ESE_MOVE_PREVIOUS,
        true,
        fuel,
    );
    lemma_leaf_count(count, per_leaf);
    lemma_first_move(db, count, per_leaf, leaves);
    lemma_last_move(db, count, per_leaf, leaves);
    if count > 0 {
        let last = leaves - 1;
        let rows = rows_on_leaf(count, per_leaf, last);
        lemma_rows_on_leaf(count, per_leaf, leaves, 0);
        lemma_rows_on_leaf(count, per_leaf, leaves, last);
        lemma_next_visits(db, count, per_leaf, leaves, 0, 1, 0, (fuel - 1) as nat);
        lemma_row_at(per_leaf, 0, 1);
        let rest = Seq::new((count - 1) as nat, |i: int| row_at(per_leaf, 0 + 1 + i));
        assert(forwards == seq![on_row(0, 1)] + rest);
        assert(seq![on_row(0, 1)] + rest =~= Seq::new(count as nat, |i: int| row_at(per_leaf, i)));
        lemma_previous_visits(
            db,
            count,
            per_leaf,
            leaves,
            last,
            rows,
            count - 1,
            (fuel - 1) as nat,
        );
        lemma_row_at(per_leaf, last, rows);
        let before = Seq::new((count - 1) as nat, |i: int| row_at(per_leaf, count - 1 - 1 - i));
        assert(backwards == seq![on_row(last, rows)] + before);
        assert(seq![on_row(last, rows)] + before =~= Seq::new(
            count as nat,
            |i: int| row_at(per_leaf, count - 1 - i),
        ));
    } else {
        assert(forwards =~= Seq::new(count as nat, |i: int| row_at(per_leaf, i)));
        assert(backwards =~= Seq::new(count as nat, |i: int| row_at(per_leaf, count - 1 - i)));
    }
}

/// In a generated database with `records_cnt` rows, the moves from the
/// first row on visit `records_cnt` rows, and the moves from the last row
/// back visit the same rows in the opposite order.
pub proof fn lemma_generated_rows_both_ways(
    table: Seq<u8>,
    page_size: usize,
    record_size: usize,
    records_cnt: usize,
    fuel: nat,
)
    requires
        database_image(table, page_size, record_size, records_cnt) is Some,
        fuel > records_cnt,
    ensures
        ({
            let db = generated_db(
                database_image(table, page_size, record_size, records_cnt)->Some_0,
                page_size,
            );
            let forwards = rows_visited(
                db,
                DATA_ROOT_PAGE,
                unpositioned(),
                ESE_MOVE_FIRST,
                ESE_MOVE_NEXT,
                true,
                fuel,
            );
            let backwards = rows_visited(
                db,
                DATA_ROOT_PAGE,
                unpositioned(),
                ESE_MOVE_LAST,
                ESE_MOVE_PREVIOUS,
                true,
                fuel,
            );
            &&& forwards.len() == records_cnt
            &&& backwards == forwards.reverse()
        }),
{
    let image = database_image(table, page_size, record_size, records_cnt)->Some_0;
    let db = generated_db(image, page_size);
    let per_leaf = rows_per_leaf(page_size as int, record_size as int);
    let leaves = leaf_count(records_cnt as int, per_leaf);
    lemma_generated_tree(table, page_size, record_size, records_cnt);
    lemma_tree_visits(db, records_cnt as int, per_leaf, leaves, fuel);
    let forwards = Seq::new(records_cnt as nat, |i: int| row_at(per_leaf, i));
    let backwards = Seq::new(records_cnt as nat, |i: int| row_at(per_leaf, records_cnt - 1 - i));
    assert(backwards =~= forwards.reverse());
}

/// The leaves of a generated table, in their order.
pub open spec fn generated_chain(leaves: int) -> Seq<u32> {
    Seq::new(leaves as nat, |m: int| (6 + m) as u32)
}

/// The leaves of a generated table are a chain in order whose links to the
/// page before mirror those to the next, so that what holds of the rows of
/// every such chain holds of a generated table.
pub proof fn lemma_generated_chain(db: Db, count: int, per_leaf: int, leaves: int)
    requires
        tree_in_order(db, count, per_leaf, leaves),
        leaves >= 1,
    ensures
        chain_in_order(db, generated_chain(leaves)),
        chain_mirrored(db, generated_chain(leaves)),
        first_leaf(db, DATA_ROOT_PAGE, db.page_count()) == Ok::<u32, EseError>(
            generated_chain(leaves)[0],
        ),
{
    let chain = generated_chain(leaves);
    assert forall|k: int| 0 <= k < chain.len() implies {
        &&& (#[trigger] chain[k]) != 0
        &&& linked_page(db, chain[k], 0) is Ok
        &&& previous_of(db, chain[k]) == (if k > 0 {
            chain[k - 1]
        } else {
            0
        })
        &&& next_of(db, chain[k]) == (if k + 1 < chain.len() {
            chain[k + 1]
        } else {
            0
        })
    } by {
        assert(leaf_in_order(db, count, per_leaf, leaves, k));
    }
}

} // verus!
