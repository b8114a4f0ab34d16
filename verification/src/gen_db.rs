use vstd::prelude::*;
use vstd::string::StringSliceAdditionalSpecFns;
use crate::jet::TAGGED_COMPRESSED;
use crate::long_value::append_bytes;
use crate::reader::{
    calc_crc32, header_checksum, ESEDB_FILE_SIGNATURE, ESEDB_FORMAT_VERSION, FILE_HEADER_SIZE,
};

verus! {

/// The revision that generated databases carry: pages with the ECC header,
/// tags with 13 bits of offset.
pub const GENERATED_REVISION: u32 = 0x0c;

/// The two bytes of a 16-bit number, low byte first.
pub open spec fn le16_bytes(x: u16) -> Seq<u8> {
    seq![(x % 256) as u8, (x / 256) as u8]
}

/// The four bytes of a 32-bit number, low byte first.
pub open spec fn le32_bytes(x: u32) -> Seq<u8> {
    seq![
        (x % 256) as u8,
        ((x / 256) % 256) as u8,
        ((x / 65536) % 256) as u8,
        (x / 16777216) as u8,
    ]
}

/// The four bytes of a 32-bit number, high byte first.
pub open spec fn be32_bytes(x: u32) -> Seq<u8> {
    seq![
        (x / 16777216) as u8,
        ((x / 65536) % 256) as u8,
        ((x / 256) % 256) as u8,
        (x % 256) as u8,
    ]
}

/// `n` zero bytes.
pub open spec fn zeros(n: int) -> Seq<u8> {
    Seq::new(
        if n < 0 {
            0
        } else {
            n as nat
        },
        |i: int| 0u8,
    )
}

/// Appends a 16-bit number, low byte first.
pub fn push_le16(out: &mut Vec<u8>, x: u16)
    ensures
        final(out)@ == old(out)@ + le16_bytes(x),
{
    out.push((x % 256) as u8);
    out.push((x / 256) as u8);
    assert(out@ =~= old(out)@ + le16_bytes(x));
}

/// Appends a 32-bit number, low byte first.
pub fn push_le32(out: &mut Vec<u8>, x: u32)
    ensures
        final(out)@ == old(out)@ + le32_bytes(x),
{
    out.push((x % 256) as u8);
    out.push(((x / 256) % 256) as u8);
    out.push(((x / 65536) % 256) as u8);
    out.push((x / 16777216) as u8);
    assert(out@ =~= old(out)@ + le32_bytes(x));
}

/// Appends a 32-bit number, high byte first.
pub fn push_be32(out: &mut Vec<u8>, x: u32)
    ensures
        final(out)@ == old(out)@ + be32_bytes(x),
{
    out.push((x / 16777216) as u8);
    out.push(((x / 65536) % 256) as u8);
    out.push(((x / 256) % 256) as u8);
    out.push((x % 256) as u8);
    assert(out@ =~= old(out)@ + be32_bytes(x));
}

/// Appends `n` zero bytes.
pub fn push_zeros(out: &mut Vec<u8>, n: usize)
    ensures
        final(out)@ == old(out)@ + zeros(n as int),
{
    let mut i: usize = 0;
    while i < n
        invariant
            i <= n,
            out@ == old(out)@ + zeros(i as int),
        decreases n - i,
    {
        out.push(0);
        i += 1;
        assert(out@ =~= old(out)@ + zeros(i as int));
    }
}

/// The header of a generated database without its checksum: signature,
/// version `0x620`, a clean shutdown, the generated revision and the page size.
pub open spec fn header_fields(page_size: u32) -> Seq<u8> {
    zeros(4) + le32_bytes(ESEDB_FILE_SIGNATURE) + le32_bytes(ESEDB_FORMAT_VERSION) + zeros(40)
        + le32_bytes(3) + zeros(176) + le32_bytes(GENERATED_REVISION) + le32_bytes(page_size)
        + zeros(100) + le32_bytes(ESEDB_FORMAT_VERSION) + le32_bytes(GENERATED_REVISION) + zeros(
        320,
    )
}

/// The page that a database begins with, and its mirror: the header with
/// its checksum, and zeros to the end of the page.
pub open spec fn header_page(page_size: u32) -> Seq<u8> {
    le32_bytes(header_checksum(header_fields(page_size))) + header_fields(page_size).subrange(
        4,
        FILE_HEADER_SIZE as int,
    ) + zeros(page_size - FILE_HEADER_SIZE)
}

/// Builds the header page of a database of pages of `page_size` bytes.
pub fn build_header_page(page_size: u32) -> (r: Vec<u8>)
    requires
        page_size >= FILE_HEADER_SIZE,
    ensures
        r@ == header_page(page_size),
        r@.len() == page_size,
{
    let mut fields: Vec<u8> = Vec::new();
    push_zeros(&mut fields, 4);
    push_le32(&mut fields, ESEDB_FILE_SIGNATURE);
    push_le32(&mut fields, ESEDB_FORMAT_VERSION);
    push_zeros(&mut fields, 40);
    push_le32(&mut fields, 3);
    push_zeros(&mut fields, 176);
    push_le32(&mut fields, GENERATED_REVISION);
    push_le32(&mut fields, page_size);
    push_zeros(&mut fields, 100);
    push_le32(&mut fields, ESEDB_FORMAT_VERSION);
    push_le32(&mut fields, GENERATED_REVISION);
    push_zeros(&mut fields, 320);
    assert(fields@ == header_fields(page_size));
    let checksum: u32 = calc_crc32(&fields);
    let mut page: Vec<u8> = Vec::new();
    push_le32(&mut page, checksum);
    let mut i: usize = 4;
    while i < FILE_HEADER_SIZE
        invariant
            4 <= i <= FILE_HEADER_SIZE,
            fields@.len() == FILE_HEADER_SIZE,
            page@ == le32_bytes(checksum) + fields@.subrange(4, i as int),
        decreases FILE_HEADER_SIZE - i,
    {
        page.push(fields[i]);
        i += 1;
        assert(page@ =~= le32_bytes(checksum) + fields@.subrange(4, i as int));
    }
    push_zeros(&mut page, page_size as usize - FILE_HEADER_SIZE);
    page
}

/// The records of a page one behind the other.
pub open spec fn flat(records: Seq<Seq<u8>>) -> Seq<u8>
    decreases records.len(),
{
    if records.len() == 0 {
        Seq::empty()
    } else {
        flat(records.drop_last()) + records.last()
    }
}

/// The tags of the records of a page as they stand at its end: the tag of
/// the last record first, each with the size of its record and then the
/// offset of the record behind the page header.
pub open spec fn tag_array(records: Seq<Seq<u8>>) -> Seq<u8>
    decreases records.len(),
{
    if records.len() == 0 {
        Seq::empty()
    } else {
        le16_bytes(records.last().len() as u16) + le16_bytes(
            flat(records.drop_last()).len() as u16,
        ) + tag_array(records.drop_last())
    }
}

/// The forty bytes that a generated page begins with: no checksums and no
/// time, the links to the pages before and after, the object the page
/// belongs to, the number of tags and the flags.
pub open spec fn page_header_bytes(previous: u32, next: u32, object: u32, tags: u16, flags: u32) -> Seq<
    u8,
> {
    zeros(16) + le32_bytes(previous) + le32_bytes(next) + le32_bytes(object) + zeros(6)
        + le16_bytes(tags) + le32_bytes(flags)
}

/// Whether the records and their tags have room in a page behind its header,
/// with offsets and sizes of 13 bits.
pub open spec fn page_fits(page_size: int, records: Seq<Seq<u8>>) -> bool {
    &&& 40 + flat(records).len() + 4 * records.len() <= page_size
    &&& page_size <= 0x2000
}

/// A page with these records: the header, the records, zeros, and the tags.
pub open spec fn page_image(
    page_size: int,
    previous: u32,
    next: u32,
    object: u32,
    flags: u32,
    records: Seq<Seq<u8>>,
) -> Option<Seq<u8>> {
    if page_fits(page_size, records) {
        Some(
            page_header_bytes(previous, next, object, records.len() as u16, flags) + flat(records)
                + zeros(page_size - 40 - flat(records).len() - 4 * records.len()) + tag_array(
                records,
            ),
        )
    } else {
        None
    }
}

/// The byte strings that a vector of vectors holds.
pub open spec fn views(v: Seq<Vec<u8>>) -> Seq<Seq<u8>> {
    Seq::new(v.len(), |i: int| v[i]@)
}

proof fn lemma_views_take(v: Seq<Vec<u8>>, i: int)
    requires
        0 <= i < v.len(),
    ensures
        views(v).take(i + 1).drop_last() == views(v).take(i),
        views(v).take(i + 1).last() == v[i]@,
        views(v).take(v.len() as int) == views(v),
{
    assert(views(v).take(i + 1).drop_last() =~= views(v).take(i));
    assert(views(v).take(v.len() as int) =~= views(v));
}

/// Puts a page together from its records.
pub fn build_page(
    page_size: usize,
    previous: u32,
    next: u32,
    object: u32,
    flags: u32,
    records: &Vec<Vec<u8>>,
) -> (r: Option<Vec<u8>>)
    ensures
        match r {
            Some(page) => page_image(page_size as int, previous, next, object, flags, views(records@))
                == Some(page@) && page@.len() == page_size,
            None => page_image(page_size as int, previous, next, object, flags, views(records@))
                is None,
        },
{
    let count: usize = records.len();
    let ghost all = views(records@);
    let mut body: Vec<u8> = Vec::new();
    let mut offsets: Vec<usize> = Vec::new();
    let mut i: usize = 0;
    while i < count
        invariant
            i <= count,
            count == records@.len(),
            all == views(records@),
            body@ == flat(all.take(i as int)),
            offsets@.len() == i,
            forall|k: int| 0 <= k < i ==> offsets@[k] == flat(all.take(k)).len(),
        decreases count - i,
    {
        proof {
            lemma_views_take(records@, i as int);
        }
        offsets.push(body.len());
        append_bytes(&mut body, &records[i]);
        i += 1;
    }
    proof {
        if count > 0 {
            lemma_views_take(records@, count - 1);
        } else {
            assert(all.take(0) =~= all);
        }
    }
    assert(body@ == flat(all));
    if page_size > 0x2000 || page_size < 40 || body.len() > page_size - 40 || count > (page_size
        - 40 - body.len()) / 4 {
        return None;
    }
    let mut page: Vec<u8> = Vec::new();
    push_zeros(&mut page, 16);
    push_le32(&mut page, previous);
    push_le32(&mut page, next);
    push_le32(&mut page, object);
    push_zeros(&mut page, 6);
    push_le16(&mut page, count as u16);
    push_le32(&mut page, flags);
    append_bytes(&mut page, &body);
    let gap: usize = page_size - 40 - body.len() - 4 * count;
    push_zeros(&mut page, gap);
    let ghost head = page@;
    let mut k: usize = count;
    let mut tail: Vec<u8> = Vec::new();
    while k > 0
        invariant
            k <= count,
            count == records@.len(),
            all == views(records@),
            offsets@.len() == count,
            forall|j: int| 0 <= j < count ==> offsets@[j] == flat(all.take(j)).len(),
            body@ == flat(all),
            body@.len() <= 0x2000,
            tail@.len() == 4 * (count - k),
            tag_array(all) == tail@ + tag_array(all.take(k as int)),
        decreases k,
    {
        proof {
            lemma_views_take(records@, k - 1);
            lemma_flat_len(all, k as int);
            lemma_flat_len(all, k - 1);
        }
        k -= 1;
        let ghost before = tail@;
        push_le16(&mut tail, records[k].len() as u16);
        push_le16(&mut tail, offsets[k] as u16);
        assert(tail@ + tag_array(all.take(k as int)) =~= before + (le16_bytes(
            all.take(k + 1).last().len() as u16,
        ) + le16_bytes(flat(all.take(k as int)).len() as u16) + tag_array(all.take(k as int))));
    }
    assert(all.take(0).len() == 0);
    assert(tag_array(all) =~= tail@);
    append_bytes(&mut page, &tail);
    assert(page@ =~= page_header_bytes(previous, next, object, count as u16, flags) + flat(all)
        + zeros(page_size - 40 - flat(all).len() - 4 * count) + tag_array(all));
    Some(page)
}

/// A beginning of the records takes no more room than all of them.
pub proof fn lemma_flat_len(records: Seq<Seq<u8>>, k: int)
    requires
        0 <= k <= records.len(),
    ensures
        flat(records.take(k)).len() <= flat(records).len(),
        k < records.len() ==> flat(records.take(k)).len() + records[k].len() <= flat(records).len(),
    decreases records.len() - k,
{
    if k == records.len() {
        assert(records.take(k) =~= records);
    } else {
        lemma_flat_len(records, k + 1);
        assert(records.take(k + 1).drop_last() =~= records.take(k));
        assert(records.take(k + 1).last() == records[k]);
    }
}


/// The page of the root of the data tree of the generated table.
pub const DATA_ROOT_PAGE: u32 = 5;

/// The object identifier of the generated table.
pub const TABLE_OBJECT: u32 = 10;

/// The decimal digits of `n`, as ASCII.
pub open spec fn digits_of(n: nat) -> Seq<u8>
    decreases n,
{
    if n < 10 {
        seq![(48 + n) as u8]
    } else {
        digits_of(n / 10).push((48 + n % 10) as u8)
    }
}

/// `n` blanks.
pub open spec fn blanks(n: int) -> Seq<u8> {
    Seq::new(
        if n < 0 {
            0
        } else {
            n as nat
        },
        |i: int| 32u8,
    )
}

/// The text of row `i`: the word `Record`, a blank, and the number of the
/// row, with blanks before it where it has less than `width` digits.
pub open spec fn record_text(i: nat, width: nat) -> Seq<u8> {
    "Record ".spec_bytes() + blanks(width - digits_of(i).len()) + digits_of(i)
}

/// An ASCII text in the two bytes per character of UTF-16, low byte first.
pub open spec fn utf16(text: Seq<u8>) -> Seq<u8>
    decreases text.len(),
{
    if text.len() == 0 {
        Seq::empty()
    } else {
        utf16(text.drop_last()).push(text.last()).push(0u8)
    }
}

/// Appends the decimal digits of `n`.
pub fn push_digits(out: &mut Vec<u8>, n: usize)
    ensures
        final(out)@ == old(out)@ + digits_of(n as nat),
    decreases n,
{
    if n >= 10 {
        push_digits(out, n / 10);
    }
    out.push((48 + n % 10) as u8);
    assert(out@ =~= old(out)@ + digits_of(n as nat));
}

/// Appends the bytes of a text.
pub fn push_str(out: &mut Vec<u8>, text: &str)
    ensures
        final(out)@ == old(out)@ + text.spec_bytes(),
{
    let bytes = text.as_bytes();
    let mut i: usize = 0;
    while i < bytes.len()
        invariant
            i <= bytes@.len(),
            bytes@ == text.spec_bytes(),
            out@ == old(out)@ + bytes@.subrange(0, i as int),
        decreases bytes@.len() - i,
    {
        out.push(bytes[i]);
        i += 1;
        assert(out@ =~= old(out)@ + bytes@.subrange(0, i as int));
    }
    assert(bytes@.subrange(0, bytes@.len() as int) =~= bytes@);
}

/// Builds the text of row `i`.
pub fn build_record_text(i: usize, width: usize) -> (r: Vec<u8>)
    ensures
        r@ == record_text(i as nat, width as nat),
{
    let mut digits: Vec<u8> = Vec::new();
    push_digits(&mut digits, i);
    assert(digits@ =~= digits_of(i as nat));
    let mut text: Vec<u8> = Vec::new();
    push_str(&mut text, "Record ");
    let mut k: usize = digits.len();
    while k < width
        invariant
            digits@.len() <= k,
            k <= width || k == digits@.len(),
            text@ == "Record ".spec_bytes() + blanks(k - digits@.len()),
        decreases width - k,
    {
        text.push(32);
        k += 1;
        assert(text@ =~= "Record ".spec_bytes() + blanks(k - digits@.len()));
    }
    assert(blanks(k - digits@.len()) =~= blanks(width - digits@.len()));
    append_bytes(&mut text, &digits);
    text
}

/// Writes an ASCII text in UTF-16.
pub fn build_utf16(text: &Vec<u8>) -> (r: Vec<u8>)
    ensures
        r@ == utf16(text@),
{
    let mut wide: Vec<u8> = Vec::new();
    let mut i: usize = 0;
    while i < text.len()
        invariant
            i <= text@.len(),
            wide@ == utf16(text@.take(i as int)),
        decreases text@.len() - i,
    {
        assert(text@.take(i + 1).drop_last() =~= text@.take(i as int));
        wide.push(text[i]);
        wide.push(0);
        i += 1;
    }
    assert(text@.take(text@.len() as int) =~= text@);
    wide
}

/// The record of row `i` of the generated table: a key of four bytes with
/// the number of the row, a header without fixed and variable columns, and
/// the four tagged columns 256 to 259, which hold the text of the row in
/// UTF-16 and three times as it is. The first three values begin with a byte
/// of flags that marks them as compressed, and their offsets in the tagged
/// index carry the bit that says so; the bytes behind the flags are the text
/// as it is, for a decompressor that hands its bytes back. No row without
/// room in the 14 bits of the offsets of the tagged index.
pub open spec fn row_record(i: nat, width: nat) -> Option<Seq<u8>> {
    let text = record_text(i, width);
    let wide = utf16(text);
    if wide.len() + 3 * text.len() + 19 >= 0x2000 || i >= 0xffff_ffff {
        None
    } else {
        Some(
            le16_bytes(4) + be32_bytes((i + 1) as u32) + seq![0u8, 127u8] + le16_bytes(4)
                + le16_bytes(256) + le16_bytes((0x4000 + 16) as u16) + le16_bytes(257) + le16_bytes(
                (0x4000 + 17 + wide.len()) as u16,
            ) + le16_bytes(258) + le16_bytes((0x4000 + 18 + wide.len() + text.len()) as u16)
                + le16_bytes(259) + le16_bytes((19 + wide.len() + 2 * text.len()) as u16)
                + seq![TAGGED_COMPRESSED] + wide + seq![TAGGED_COMPRESSED] + text + seq![
                TAGGED_COMPRESSED,
            ] + text + text,
        )
    }
}

/// Builds the record of row `i`.
pub fn build_row_record(i: usize, width: usize) -> (r: Option<Vec<u8>>)
    ensures
        match r {
            Some(v) => row_record(i as nat, width as nat) == Some(v@),
            None => row_record(i as nat, width as nat) is None,
        },
{
    let text = build_record_text(i, width);
    let wide = build_utf16(&text);
    if wide.len() >= 0x2000 || text.len() >= 0x2000 || wide.len() + 3 * text.len() + 19 >= 0x2000
        || i >= 0xffff_ffff {
        return None;
    }
    let mut record: Vec<u8> = Vec::new();
    push_le16(&mut record, 4);
    push_be32(&mut record, (i + 1) as u32);
    record.push(0);
    record.push(127);
    assert(record@ =~= le16_bytes(4) + be32_bytes((i + 1) as u32) + seq![0u8, 127u8]);
    push_le16(&mut record, 4);
    push_le16(&mut record, 256);
    push_le16(&mut record, (0x4000 + 16) as u16);
    push_le16(&mut record, 257);
    push_le16(&mut record, (0x4000 + 17 + wide.len()) as u16);
    push_le16(&mut record, 258);
    push_le16(&mut record, (0x4000 + 18 + wide.len() + text.len()) as u16);
    push_le16(&mut record, 259);
    push_le16(&mut record, (19 + wide.len() + 2 * text.len()) as u16);
    push_flag(&mut record);
    append_bytes(&mut record, &wide);
    push_flag(&mut record);
    append_bytes(&mut record, &text);
    push_flag(&mut record);
    append_bytes(&mut record, &text);
    append_bytes(&mut record, &text);
    Some(record)
}

/// Appends the byte of flags of a compressed value.
pub fn push_flag(out: &mut Vec<u8>)
    ensures
        final(out)@ == old(out)@ + seq![TAGGED_COMPRESSED],
{
    out.push(TAGGED_COMPRESSED);
    assert(out@ =~= old(out)@ + seq![TAGGED_COMPRESSED]);
}

/// A row of the catalog: no key, seven fixed columns, which are the object,
/// the type of the row, the identifier, the column type or root page, two
/// zeros and the code page, an empty bitmap, and the name as the one
/// variable column.
pub open spec fn catalog_record(kind: u16, id: u32, link: u32, codepage: u32, name: Seq<u8>) -> Seq<
    u8,
> {
    le16_bytes(0) + seq![7u8, 128u8] + le16_bytes(31) + le32_bytes(TABLE_OBJECT) + le16_bytes(kind)
        + le32_bytes(id) + le32_bytes(link) + le32_bytes(0) + le32_bytes(0) + le32_bytes(codepage)
        + seq![0u8] + le16_bytes(name.len() as u16) + name
}

/// Builds a row of the catalog.
pub fn build_catalog_record(kind: u16, id: u32, link: u32, codepage: u32, name: &str) -> (r: Vec<u8>)
    requires
        name.spec_bytes().len() <= 0x7fff,
    ensures
        r@ == catalog_record(kind, id, link, codepage, name.spec_bytes()),
{
    let mut record: Vec<u8> = Vec::new();
    push_le16(&mut record, 0);
    record.push(7);
    record.push(128);
    assert(record@ =~= le16_bytes(0) + seq![7u8, 128u8]);
    push_le16(&mut record, 31);
    push_le32(&mut record, TABLE_OBJECT);
    push_le16(&mut record, kind);
    push_le32(&mut record, id);
    push_le32(&mut record, link);
    push_le32(&mut record, 0);
    push_le32(&mut record, 0);
    push_le32(&mut record, codepage);
    let ghost before = record@;
    record.push(0);
    assert(record@ =~= before + seq![0u8]);
    push_le16(&mut record, name.len() as u16);
    push_str(&mut record, name);
    record
}

/// The record under tag 0 of a root page: one page to begin with, and
/// nothing else.
pub open spec fn root_record() -> Seq<u8> {
    le32_bytes(1) + zeros(12)
}

/// Builds the record under tag 0 of a root page.
pub fn build_root_record() -> (r: Vec<u8>)
    ensures
        r@ == root_record(),
{
    let mut record: Vec<u8> = Vec::new();
    push_le32(&mut record, 1);
    push_zeros(&mut record, 12);
    record
}

/// The records of the catalog page of a database with the table `table`:
/// the root record, the row of the table, and the rows of its four columns.
pub open spec fn catalog_records(table: Seq<u8>) -> Seq<Seq<u8>> {
    seq![
        root_record(),
        catalog_record(1, TABLE_OBJECT, DATA_ROOT_PAGE, 0, table),
        catalog_record(2, 256, 12, 1200, "compressed_unicode".spec_bytes()),
        catalog_record(2, 257, 12, 1252, "compressed_ascii".spec_bytes()),
        catalog_record(2, 258, 11, 0, "compressed_binary".spec_bytes()),
        catalog_record(2, 259, 12, 0, "usual_text".spec_bytes()),
    ]
}

/// The records of the root of the data tree: the root record, and a branch
/// record with the key of the last row that names page 6, the first leaf.
pub open spec fn root_records(records_cnt: nat) -> Seq<Seq<u8>> {
    seq![root_record(), le16_bytes(4) + be32_bytes(records_cnt as u32) + le32_bytes(6)]
}

/// The records of a leaf with the rows from `from` up to, but without, `to`:
/// an empty record under tag 0, then the rows.
pub open spec fn leaf_records(width: nat, from: nat, to: nat) -> Option<Seq<Seq<u8>>>
    decreases to,
{
    if to <= from {
        Some(seq![Seq::<u8>::empty()])
    } else {
        match leaf_records(width, from, (to - 1) as nat) {
            None => None,
            Some(rows) => match row_record((to - 1) as nat, width) {
                None => None,
                Some(row) => Some(rows.push(row)),
            },
        }
    }
}

/// Builds the records of a leaf.
pub fn build_leaf_records(width: usize, from: usize, to: usize) -> (r: Option<Vec<Vec<u8>>>)
    ensures
        match r {
            Some(v) => leaf_records(width as nat, from as nat, to as nat) == Some(views(v@)),
            None => leaf_records(width as nat, from as nat, to as nat) is None,
        },
{
    let mut records: Vec<Vec<u8>> = Vec::new();
    records.push(Vec::new());
    assert(views(records@) =~= seq![Seq::<u8>::empty()]);
    let mut i: usize = from;
    while i < to
        invariant
            from <= i || to <= from,
            i <= to || to <= from,
            to <= from ==> i == from,
            leaf_records(width as nat, from as nat, i as nat) == Some(views(records@)),
        decreases to - i,
    {
        let row = match build_row_record(i, width) {
            Some(row) => row,
            None => {
                proof {
                    lemma_leaf_records_none(width as nat, from as nat, i as nat, to as nat);
                }
                return None;
            },
        };
        let ghost before = views(records@);
        records.push(row);
        assert(views(records@) =~= before.push(row@));
        i += 1;
    }
    proof {
        if to <= from {
            assert(leaf_records(width as nat, from as nat, to as nat) == Some(
                seq![Seq::<u8>::empty()],
            ));
            assert(leaf_records(width as nat, from as nat, from as nat) == Some(
                seq![Seq::<u8>::empty()],
            ));
        }
    }
    Some(records)
}

/// A leaf with a row that has no record has no records.
pub proof fn lemma_leaf_records_none(width: nat, from: nat, i: nat, to: nat)
    requires
        from <= i < to,
        row_record(i, width) is None,
    ensures
        leaf_records(width, from, to) is None,
    decreases to,
{
    if to - 1 > i {
        lemma_leaf_records_none(width, from, i, (to - 1) as nat);
    }
}


/// The room that is kept for a row: its key and header, its tagged index,
/// three bytes of flags, and five times a text with a number of at most
/// twenty digits.
pub open spec fn row_budget(width: int) -> int {
    29 + 5 * (7 + if width > 20 {
        width
    } else {
        20
    })
}

/// The number of rows that go on a leaf: as many as have room, with their
/// tags, beside the header and tag 0.
pub open spec fn rows_per_leaf(page_size: int, width: int) -> int {
    (page_size - 44) / (row_budget(width) + 4)
}

/// The number of leaves for `count` rows: at least one.
pub open spec fn leaf_count(count: int, per_leaf: int) -> int {
    if count == 0 {
        1
    } else {
        (count + per_leaf - 1) / per_leaf
    }
}

/// Leaf `j` of `leaves`: page `6 + j`, linked to the leaves beside it, with
/// the rows from `j * per_leaf` on.
pub open spec fn leaf_page(
    page_size: int,
    width: nat,
    count: nat,
    per_leaf: int,
    j: int,
    leaves: int,
) -> Option<Seq<u8>> {
    let from = j * per_leaf;
    let to = if from + per_leaf < count {
        from + per_leaf
    } else {
        count as int
    };
    match leaf_records(width, from as nat, to as nat) {
        None => None,
        Some(records) => page_image(
            page_size,
            if j == 0 {
                0u32
            } else {
                (5 + j) as u32
            },
            if j + 1 == leaves {
                0u32
            } else {
                (7 + j) as u32
            },
            TABLE_OBJECT,
            2,
            records,
        ),
    }
}

/// Some bytes in front of bytes that may not be there.
pub open spec fn before(head: Seq<u8>, rest: Option<Seq<u8>>) -> Option<Seq<u8>> {
    match rest {
        None => None,
        Some(bytes) => Some(head + bytes),
    }
}

/// The leaves from leaf `j` on, one behind the other.
pub open spec fn leaf_pages(
    page_size: int,
    width: nat,
    count: nat,
    per_leaf: int,
    j: int,
    leaves: int,
) -> Option<Seq<u8>>
    decreases leaves - j,
{
    if j >= leaves {
        Some(Seq::empty())
    } else {
        match leaf_page(page_size, width, count, per_leaf, j, leaves) {
            None => None,
            Some(page) => before(page, leaf_pages(page_size, width, count, per_leaf, j + 1, leaves)),
        }
    }
}

/// The file of a database with one table, named `table`, of `records_cnt`
/// rows: the header and its mirror, three pages of zeros, the catalog on
/// page 4, the root of the data tree on page 5, and the leaves with the rows
/// from page 6 on. The pages have 2, 4 or 8 KiB. There is no such file where
/// a row has no room on a page.
#[verifier::opaque]
pub open spec fn database_image(
    table: Seq<u8>,
    page_size: usize,
    record_size: usize,
    records_cnt: usize,
) -> Option<Seq<u8>> {
    let per_leaf = rows_per_leaf(page_size as int, record_size as int);
    if !(page_size == 2048 || page_size == 4096 || page_size == 8192) || table.len() > 255
        || records_cnt >= 0xffff_0000 || per_leaf <= 0 {
        None
    } else {
        match page_image(page_size as int, 0, 0, 2, 3, catalog_records(table)) {
            None => None,
            Some(catalog) => match page_image(
                page_size as int,
                0,
                0,
                TABLE_OBJECT,
                5,
                root_records(records_cnt as nat),
            ) {
                None => None,
                Some(root) => before(
                    header_page(page_size as u32) + header_page(page_size as u32) + zeros(
                        3 * page_size,
                    ) + catalog + root,
                    leaf_pages(
                        page_size as int,
                        record_size as nat,
                        records_cnt as nat,
                        per_leaf,
                        0,
                        leaf_count(records_cnt as int, per_leaf),
                    ),
                ),
            },
        }
    }
}

/// Builds the catalog page.
pub fn build_catalog_page(table: &str, page_size: usize) -> (r: Option<Vec<u8>>)
    requires
        table.spec_bytes().len() <= 255,
    ensures
        match r {
            Some(page) => page_image(
                page_size as int,
                0,
                0,
                2,
                3,
                catalog_records(table.spec_bytes()),
            ) == Some(page@),
            None => page_image(page_size as int, 0, 0, 2, 3, catalog_records(table.spec_bytes()))
                is None,
        },
{
    proof {
        reveal_strlit("compressed_unicode");
        reveal_strlit("compressed_ascii");
        reveal_strlit("compressed_binary");
        reveal_strlit("usual_text");
        lemma_short_names();
    }
    let mut records: Vec<Vec<u8>> = Vec::new();
    records.push(build_root_record());
    records.push(build_catalog_record(1, TABLE_OBJECT, DATA_ROOT_PAGE, 0, table));
    records.push(build_catalog_record(2, 256, 12, 1200, "compressed_unicode"));
    records.push(build_catalog_record(2, 257, 12, 1252, "compressed_ascii"));
    records.push(build_catalog_record(2, 258, 11, 0, "compressed_binary"));
    records.push(build_catalog_record(2, 259, 12, 0, "usual_text"));
    assert(views(records@) =~= catalog_records(table.spec_bytes()));
    build_page(page_size, 0, 0, 2, 3, &records)
}

/// The names of the generated columns are short.
pub proof fn lemma_short_names()
    ensures
        "compressed_unicode".spec_bytes().len() <= 0x7fff,
        "compressed_ascii".spec_bytes().len() <= 0x7fff,
        "compressed_binary".spec_bytes().len() <= 0x7fff,
        "usual_text".spec_bytes().len() <= 0x7fff,
{
    reveal_strlit("compressed_unicode");
    reveal_strlit("compressed_ascii");
    reveal_strlit("compressed_binary");
    reveal_strlit("usual_text");
    vstd::string::is_ascii_spec_bytes("compressed_unicode");
    vstd::string::is_ascii_spec_bytes("compressed_ascii");
    vstd::string::is_ascii_spec_bytes("compressed_binary");
    vstd::string::is_ascii_spec_bytes("usual_text");
}

/// Builds the root page of the data tree.
pub fn build_root_page(page_size: usize, records_cnt: usize) -> (r: Option<Vec<u8>>)
    ensures
        match r {
            Some(page) => page_image(
                page_size as int,
                0,
                0,
                TABLE_OBJECT,
                5,
                root_records(records_cnt as nat),
            ) == Some(page@),
            None => page_image(page_size as int, 0, 0, TABLE_OBJECT, 5, root_records(records_cnt as nat))
                is None,
        },
{
    let mut records: Vec<Vec<u8>> = Vec::new();
    records.push(build_root_record());
    let mut branch: Vec<u8> = Vec::new();
    push_le16(&mut branch, 4);
    push_be32(&mut branch, records_cnt as u32);
    push_le32(&mut branch, 6);
    records.push(branch);
    assert(views(records@) =~= root_records(records_cnt as nat));
    build_page(page_size, 0, 0, TABLE_OBJECT, 5, &records)
}

/// Builds leaf `j`, whose rows begin with row `from`.
pub fn build_leaf_page(
    page_size: usize,
    width: usize,
    count: usize,
    per_leaf: usize,
    j: usize,
    leaves: usize,
    from: usize,
) -> (r: Option<Vec<u8>>)
    requires
        from == j * per_leaf,
        from <= count < 0xffff_0000,
        per_leaf <= 0x2000,
        j < leaves <= 0xffff_0000,
    ensures
        match r {
            Some(page) => leaf_page(
                page_size as int,
                width as nat,
                count as nat,
                per_leaf as int,
                j as int,
                leaves as int,
            ) == Some(page@),
            None => leaf_page(
                page_size as int,
                width as nat,
                count as nat,
                per_leaf as int,
                j as int,
                leaves as int,
            ) is None,
        },
{
    let to: usize = if from + per_leaf < count {
        from + per_leaf
    } else {
        count
    };
    let records = match build_leaf_records(width, from, to) {
        Some(r) => r,
        None => {
            return None;
        },
    };
    let previous: u32 = if j == 0 {
        0
    } else {
        (5 + j) as u32
    };
    let next: u32 = if j + 1 == leaves {
        0
    } else {
        (7 + j) as u32
    };
    build_page(page_size, previous, next, TABLE_OBJECT, 2, &records)
}

/// Where the rows of the leaves begin: leaf `j + 1` begins `per_leaf` rows
/// behind leaf `j`, and every leaf but the last is full.
pub proof fn lemma_leaf_rows(count: int, per_leaf: int, j: int, leaves: int)
    requires
        per_leaf >= 1,
        count >= 0,
        0 <= j < leaves,
        leaves == leaf_count(count, per_leaf),
    ensures
        (j + 1) * per_leaf == j * per_leaf + per_leaf,
        j * per_leaf <= count,
        j + 1 < leaves ==> j * per_leaf + per_leaf <= count,
        leaves <= count || leaves == 1,
{
    assert((j + 1) * per_leaf == j * per_leaf + per_leaf) by (nonlinear_arith);
    if count > 0 {
        assert((leaves - 1) * per_leaf < count && leaves <= count) by (nonlinear_arith)
            requires
                per_leaf >= 1,
                count > 0,
                leaves == (count + per_leaf - 1) / per_leaf,
        ;
        assert(j * per_leaf <= (leaves - 1) * per_leaf) by (nonlinear_arith)
            requires
                j <= leaves - 1,
                per_leaf >= 1,
        ;
        if j + 1 < leaves {
            assert((j + 1) * per_leaf <= (leaves - 1) * per_leaf) by (nonlinear_arith)
                requires
                    j + 1 <= leaves - 1,
                    per_leaf >= 1,
            ;
        }
    } else {
        assert(j * per_leaf == 0) by (nonlinear_arith)
            requires
                j == 0,
        ;
    }
}

/// Builds the leaves, one behind the other.
pub fn build_leaf_pages(
    page_size: usize,
    width: usize,
    count: usize,
    per_leaf: usize,
    leaves: usize,
) -> (r: Option<Vec<u8>>)
    requires
        count < 0xffff_0000,
        1 <= per_leaf <= 0x2000,
        leaves == leaf_count(count as int, per_leaf as int),
    ensures
        match r {
            Some(pages) => leaf_pages(
                page_size as int,
                width as nat,
                count as nat,
                per_leaf as int,
                0,
                leaves as int,
            ) == Some(pages@),
            None => leaf_pages(
                page_size as int,
                width as nat,
                count as nat,
                per_leaf as int,
                0,
                leaves as int,
            ) is None,
        },
{
    let mut pages: Vec<u8> = Vec::new();
    let mut j: usize = 0;
    let mut from: usize = 0;
    assert(before(
        pages@,
        leaf_pages(page_size as int, width as nat, count as nat, per_leaf as int, 0, leaves as int),
    ) == leaf_pages(page_size as int, width as nat, count as nat, per_leaf as int, 0, leaves as int))
        by {
        let all = leaf_pages(
            page_size as int,
            width as nat,
            count as nat,
            per_leaf as int,
            0,
            leaves as int,
        );
        if all is Some {
            assert(pages@ + all->Some_0 =~= all->Some_0);
        }
    }
    while j < leaves
        invariant
            j <= leaves,
            count < 0xffff_0000,
            1 <= per_leaf <= 0x2000,
            from == j * per_leaf,
            leaves == leaf_count(count as int, per_leaf as int),
            leaf_pages(
                page_size as int,
                width as nat,
                count as nat,
                per_leaf as int,
                0,
                leaves as int,
            ) == before(
                pages@,
                leaf_pages(
                    page_size as int,
                    width as nat,
                    count as nat,
                    per_leaf as int,
                    j as int,
                    leaves as int,
                ),
            ),
        decreases leaves - j,
    {
        proof {
            lemma_leaf_rows(count as int, per_leaf as int, j as int, leaves as int);
        }
        let page = match build_leaf_page(page_size, width, count, per_leaf, j, leaves, from) {
            Some(p) => p,
            None => {
                return None;
            },
        };
        let ghost written = pages@;
        append_bytes(&mut pages, &page);
        proof {
            let rest = leaf_pages(
                page_size as int,
                width as nat,
                count as nat,
                per_leaf as int,
                j + 1,
                leaves as int,
            );
            if rest is Some {
                assert(written + (page@ + rest->Some_0) =~= (written + page@) + rest->Some_0);
            }
        }
        from = from + per_leaf;
        j += 1;
    }
    assert(pages@ + Seq::<u8>::empty() =~= pages@);
    Some(pages)
}

/// The number of rows on a leaf, and the number of leaves.
pub fn plan_leaves(page_size: usize, record_size: usize, records_cnt: usize) -> (r: (usize, usize))
    requires
        page_size == 2048 || page_size == 4096 || page_size == 8192,
        records_cnt < 0xffff_0000,
    ensures
        r.0 == rows_per_leaf(page_size as int, record_size as int),
        r.0 <= 0x2000,
        r.0 >= 1 ==> r.1 == leaf_count(records_cnt as int, r.0 as int),
{
    if record_size > 0x2000 {
        assert(rows_per_leaf(page_size as int, record_size as int) == 0) by (nonlinear_arith)
            requires
                record_size > 0x2000,
                page_size <= 8192,
                page_size >= 2048,
        ;
        return (0, 0);
    }
    let width: usize = if record_size > 20 {
        record_size
    } else {
        20
    };
    let per_leaf: usize = (page_size - 44) / (29 + 5 * (7 + width) + 4);
    if per_leaf == 0 {
        return (0, 0);
    }
    let leaves: usize = if records_cnt == 0 {
        1
    } else {
        (records_cnt + per_leaf - 1) / per_leaf
    };
    (per_leaf, leaves)
}

/// Generates the file of a database with one table, named `table`, whose
/// `records_cnt` rows hold the text `Record` and their number, `record_size`
/// characters wide, in each of four tagged columns. The first three columns
/// are flagged as compressed and hold their bytes as they are, so that a read
/// of them goes through the decompressor. `None` where the page size is none
/// of 2, 4 and 8 KiB, the name has more than 255 bytes, or a row has no room
/// on a page.
pub fn prepare_db(table: &str, pg_size: usize, record_size: usize, records_cnt: usize) -> (r: Option<
    Vec<u8>,
>)
    ensures
        match r {
            Some(image) => database_image(table.spec_bytes(), pg_size, record_size, records_cnt)
                == Some(image@),
            None => database_image(table.spec_bytes(), pg_size, record_size, records_cnt) is None,
        },
{
    reveal(database_image);
    if !(pg_size == 2048 || pg_size == 4096 || pg_size == 8192) || table.as_bytes().len() > 255
        || records_cnt >= 0xffff_0000 {
        return None;
    }
    let plan = plan_leaves(pg_size, record_size, records_cnt);
    if plan.0 == 0 {
        return None;
    }
    let catalog = match build_catalog_page(table, pg_size) {
        Some(p) => p,
        None => {
            return None;
        },
    };
    let root = match build_root_page(pg_size, records_cnt) {
        Some(p) => p,
        None => {
            return None;
        },
    };
    let pages = match build_leaf_pages(pg_size, record_size, records_cnt, plan.0, plan.1) {
        Some(p) => p,
        None => {
            return None;
        },
    };
    let header = build_header_page(pg_size as u32);
    Some(assemble(&header, 3 * pg_size, &catalog, &root, &pages))
}

/// Puts the pages of a file one behind the other.
pub fn assemble(header: &Vec<u8>, blank: usize, catalog: &Vec<u8>, root: &Vec<u8>, leaves: &Vec<u8>) -> (r:
    Vec<u8>)
    ensures
        r@ == header@ + header@ + zeros(blank as int) + catalog@ + root@ + leaves@,
{
    let mut image: Vec<u8> = Vec::new();
    append_bytes(&mut image, header);
    append_bytes(&mut image, header);
    push_zeros(&mut image, blank);
    append_bytes(&mut image, catalog);
    append_bytes(&mut image, root);
    append_bytes(&mut image, leaves);
    assert(image@ =~= header@ + header@ + zeros(blank as int) + catalog@ + root@ + leaves@);
    image
}

} // verus!
