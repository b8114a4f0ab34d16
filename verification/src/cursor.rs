use vstd::prelude::*;
use crate::error::EseError;
use crate::page::{common_of, db_of, tags_of, Db, DbPage, PageTag};
use crate::reader::Reader;
use crate::tree::page_count;

verus! {

/// Moves to the first row of a table.
pub const ESE_MOVE_FIRST: u32 = 0;

/// Moves to the last row of a table.
pub const ESE_MOVE_LAST: u32 = 1;

/// Moves to the row after the current one.
pub const ESE_MOVE_NEXT: u32 = 2;

/// Moves to the row before the current one.
pub const ESE_MOVE_PREVIOUS: u32 = 3;

/// Where a search for a row ended: on which page, and on which tag if it
/// found a row.
pub struct Found {
    pub page: u32,
    pub tag: Option<usize>,
}

/// The first tag from `i` on that is not defunct, or the number of tags.
pub open spec fn skip_forward(tags: Seq<PageTag>, i: int) -> int
    decreases tags.len() - i,
{
    if i < 0 || i >= tags.len() {
        i
    } else if tags[i].spec_is_defunct() {
        skip_forward(tags, i + 1)
    } else {
        i
    }
}

/// The last tag up to `i` that is not defunct, or zero: tag 0 is no row.
pub open spec fn skip_backward(tags: Seq<PageTag>, i: int) -> int
    decreases i,
{
    if i <= 0 || i >= tags.len() {
        0
    } else if tags[i].spec_is_defunct() {
        skip_backward(tags, i - 1)
    } else {
        i
    }
}

/// The tags and the header of a page of the database, loaded after page
/// `from`: a page that names a page before it has to name `from`, where
/// `from` is not zero.
pub open spec fn linked_page(db: Db, page_number: u32, from: u32) -> Result<
    (Seq<u8>, Seq<PageTag>),
    EseError,
> {
    match db.page(page_number) {
        Err(e) => Err(e),
        Ok(page) => match tags_of(page, db.revision, db.page_size) {
            Err(e) => Err(e),
            Ok(tags) => if from != 0 && common_of(page).previous_page != 0 && common_of(
                page,
            ).previous_page != from {
                Err(EseError::SiblingChainBroken)
            } else {
                Ok((page, tags))
            },
        },
    }
}

/// The first row from tag `i` of page `page_number` on, which was reached
/// from page `from`: the first tag that is not defunct, on this page or,
/// from tag 1 on, on the pages that follow it. The search ends without a row
/// on the page whose next-page link is zero. A chain of more than `limit`
/// further pages is given up as broken.
pub open spec fn forward(db: Db, page_number: u32, from: u32, i: int, limit: nat) -> Result<
    Found,
    EseError,
>
    decreases limit,
{
    match linked_page(db, page_number, from) {
        Err(e) => Err(e),
        Ok((page, tags)) => {
            let k = skip_forward(tags, i);
            let next = common_of(page).next_page;
            if k < tags.len() {
                Ok(Found { page: page_number, tag: Some(k as usize) })
            } else if next == 0 {
                Ok(Found { page: page_number, tag: None })
            } else if limit == 0 {
                Err(EseError::SiblingChainBroken)
            } else {
                forward(db, next, page_number, 1, (limit - 1) as nat)
            }
        },
    }
}

/// The tag to begin a search backwards with: `i`, or the last tag of the page
/// where the page is entered from the one behind it.
pub open spec fn backward_start(tags: Seq<PageTag>, i: Option<usize>) -> int {
    match i {
        Some(i) => i as int,
        None => if tags.len() == 0 {
            0
        } else {
            tags.len() - 1
        },
    }
}

/// The last row up to tag `i` of page `page_number`: the last tag that is
/// not defunct, on this page or on the pages before it. The search ends
/// without a row on the page whose previous-page link is zero. A tag to begin
/// with that the page does not have makes a malformed record.
pub open spec fn backward(db: Db, page_number: u32, i: Option<usize>, limit: nat) -> Result<
    Found,
    EseError,
>
    decreases limit,
{
    match linked_page(db, page_number, 0) {
        Err(e) => Err(e),
        Ok((page, tags)) => {
            let start = backward_start(tags, i);
            let k = skip_backward(tags, start);
            let previous = common_of(page).previous_page;
            if start > 0 && start >= tags.len() {
                Err(EseError::RecordMalformed)
            } else if k > 0 {
                Ok(Found { page: page_number, tag: Some(k as usize) })
            } else if previous == 0 {
                Ok(Found { page: page_number, tag: None })
            } else if limit == 0 {
                Err(EseError::SiblingChainBroken)
            } else {
                backward(db, previous, None, (limit - 1) as nat)
            }
        },
    }
}

/// The last page of the chain that page `page_number`, reached from page
/// `from`, belongs to: the one whose next-page link is zero.
pub open spec fn last_leaf(db: Db, page_number: u32, from: u32, limit: nat) -> Result<u32, EseError>
    decreases limit,
{
    match linked_page(db, page_number, from) {
        Err(e) => Err(e),
        Ok((page, tags)) => {
            let next = common_of(page).next_page;
            if next == 0 {
                Ok(page_number)
            } else if limit == 0 {
                Err(EseError::SiblingChainBroken)
            } else {
                last_leaf(db, next, page_number, (limit - 1) as nat)
            }
        },
    }
}

/// Loads page `page_number`, which the link of page `from` named.
pub fn load_linked(reader: &mut Reader, page_number: u32, from: u32) -> (r: Result<
    DbPage,
    EseError,
>)
    requires
        old(reader).wf(),
    ensures
        final(reader).wf(),
        final(reader).same_file(old(reader)),
        match r {
            Ok(p) => p.in_db(db_of(old(reader)), page_number) && linked_page(
                db_of(old(reader)),
                page_number,
                from,
            ) == Ok::<(Seq<u8>, Seq<PageTag>), EseError>((p.bytes(), p.tags())),
            Err(e) => linked_page(db_of(old(reader)), page_number, from) == Err::<
                (Seq<u8>, Seq<PageTag>),
                EseError,
            >(e),
        },
{
    let page = match DbPage::new(reader, page_number) {
        Ok(p) => p,
        Err(e) => {
            return Err(e);
        },
    };
    if from != 0 && page.prev_page() != 0 && page.prev_page() != from {
        return Err(EseError::SiblingChainBroken);
    }
    Ok(page)
}

/// Looks for the first row from tag `i` of `page` on.
pub fn seek_forward(reader: &mut Reader, page: DbPage, i: usize) -> (r: Result<
    (DbPage, Option<usize>),
    EseError,
>)
    requires
        old(reader).wf(),
        page.in_db(db_of(old(reader)), page.number()),
    ensures
        final(reader).wf(),
        final(reader).same_file(old(reader)),
        match r {
            Ok(f) => f.0.in_db(db_of(old(reader)), f.0.number()) && (f.1 matches Some(k) ==> k
                < f.0.tags().len()) && forward(
                db_of(old(reader)),
                page.number(),
                0,
                i as int,
                db_of(old(reader)).page_count(),
            ) == Ok::<Found, EseError>(Found { page: f.0.number(), tag: f.1 }),
            Err(e) => forward(
                db_of(old(reader)),
                page.number(),
                0,
                i as int,
                db_of(old(reader)).page_count(),
            ) == Err::<Found, EseError>(e),
        },
{
    let ghost db = db_of(reader);
    let ghost start = page.number();
    let mut current = page;
    let mut from: u32 = 0;
    let mut at: usize = i;
    let mut limit: usize = page_count(reader);
    loop
        invariant
            reader.wf(),
            reader.same_file(old(reader)),
            db == db_of(reader),
            db == db_of(old(reader)),
            start == page.number(),
            current.in_db(db, current.number()),
            linked_page(db, current.number(), from) == Ok::<(Seq<u8>, Seq<PageTag>), EseError>(
                (current.bytes(), current.tags()),
            ),
            forward(db, start, 0, i as int, db.page_count()) == forward(
                db,
                current.number(),
                from,
                at as int,
                limit as nat,
            ),
        decreases limit,
    {
        let k: usize = first_live(&current, at);
        if k < current.page_tags().len() {
            return Ok((current, Some(k)));
        }
        let next: u32 = current.next_page();
        if next == 0 {
            return Ok((current, None));
        }
        if limit == 0 {
            return Err(EseError::SiblingChainBroken);
        }
        let here: u32 = current.page_number();
        current = match load_linked(reader, next, here) {
            Ok(p) => p,
            Err(e) => {
                assert(forward(db, next, here, 1, (limit - 1) as nat) == Err::<Found, EseError>(e));
                return Err(e);
            },
        };
        from = here;
        at = 1;
        limit -= 1;
    }
}

/// The first tag of `page` from `i` on that is not defunct.
pub fn first_live(page: &DbPage, i: usize) -> (k: usize)
    ensures
        k == skip_forward(page.tags(), i as int),
{
    let tags = page.page_tags();
    let mut k: usize = i;
    while k < tags.len() && tags[k].is_defunct()
        invariant
            tags@ == page.tags(),
            skip_forward(page.tags(), i as int) == skip_forward(page.tags(), k as int),
        decreases tags.len() - k,
    {
        k += 1;
    }
    k
}

/// The last tag of `page` up to `i` that is not defunct, or zero.
pub fn last_live(page: &DbPage, i: usize) -> (k: usize)
    requires
        i == 0 || i < page.tags().len(),
    ensures
        k == skip_backward(page.tags(), i as int),
        k <= i,
{
    let tags = page.page_tags();
    let mut k: usize = i;
    while k > 0 && tags[k].is_defunct()
        invariant
            tags@ == page.tags(),
            k == 0 || k < tags.len(),
            k <= i,
            skip_backward(page.tags(), i as int) == skip_backward(page.tags(), k as int),
        decreases k,
    {
        k -= 1;
    }
    k
}

/// Looks for the last row up to tag `i` of `page`, or up to its last tag.
pub fn seek_backward(reader: &mut Reader, page: DbPage, i: Option<usize>) -> (r: Result<
    (DbPage, Option<usize>),
    EseError,
>)
    requires
        old(reader).wf(),
        page.in_db(db_of(old(reader)), page.number()),
    ensures
        final(reader).wf(),
        final(reader).same_file(old(reader)),
        match r {
            Ok(f) => f.0.in_db(db_of(old(reader)), f.0.number()) && (f.1 matches Some(k) ==> 0 < k
                < f.0.tags().len()) && backward(
                db_of(old(reader)),
                page.number(),
                i,
                db_of(old(reader)).page_count(),
            ) == Ok::<Found, EseError>(Found { page: f.0.number(), tag: f.1 }),
            Err(e) => backward(db_of(old(reader)), page.number(), i, db_of(old(reader)).page_count())
                == Err::<Found, EseError>(e),
        },
{
    let ghost db = db_of(reader);
    let ghost start = page.number();
    let mut current = page;
    let mut at: Option<usize> = i;
    let mut limit: usize = page_count(reader);
    loop
        invariant
            reader.wf(),
            reader.same_file(old(reader)),
            db == db_of(reader),
            db == db_of(old(reader)),
            start == page.number(),
            current.in_db(db, current.number()),
            backward(db, start, i, db.page_count()) == backward(
                db,
                current.number(),
                at,
                limit as nat,
            ),
        decreases limit,
    {
        let len: usize = current.page_tags().len();
        let begin: usize = match at {
            Some(i) => i,
            None => if len == 0 {
                0
            } else {
                len - 1
            },
        };
        if begin > 0 && begin >= len {
            return Err(EseError::RecordMalformed);
        }
        let k: usize = last_live(&current, begin);
        if k > 0 {
            return Ok((current, Some(k)));
        }
        let previous: u32 = current.prev_page();
        if previous == 0 {
            return Ok((current, None));
        }
        if limit == 0 {
            return Err(EseError::SiblingChainBroken);
        }
        current = match load_linked(reader, previous, 0) {
            Ok(p) => p,
            Err(e) => {
                assert(backward(db, previous, None, (limit - 1) as nat) == Err::<Found, EseError>(
                    e,
                ));
                return Err(e);
            },
        };
        at = None;
        limit -= 1;
    }
}

/// Follows the next-page links from `page` to the last page of its chain.
pub fn seek_last_leaf(reader: &mut Reader, page: DbPage) -> (r: Result<DbPage, EseError>)
    requires
        old(reader).wf(),
        page.in_db(db_of(old(reader)), page.number()),
    ensures
        final(reader).wf(),
        final(reader).same_file(old(reader)),
        match r {
            Ok(p) => p.in_db(db_of(old(reader)), p.number()) && last_leaf(
                db_of(old(reader)),
                page.number(),
                0,
                db_of(old(reader)).page_count(),
            ) == Ok::<u32, EseError>(p.number()),
            Err(e) => last_leaf(
                db_of(old(reader)),
                page.number(),
                0,
                db_of(old(reader)).page_count(),
            ) == Err::<u32, EseError>(e),
        },
{
    let ghost db = db_of(reader);
    let ghost start = page.number();
    let mut current = page;
    let mut from: u32 = 0;
    let mut limit: usize = page_count(reader);
    loop
        invariant
            reader.wf(),
            reader.same_file(old(reader)),
            db == db_of(reader),
            db == db_of(old(reader)),
            start == page.number(),
            current.in_db(db, current.number()),
            linked_page(db, current.number(), from) == Ok::<(Seq<u8>, Seq<PageTag>), EseError>(
                (current.bytes(), current.tags()),
            ),
            last_leaf(db, start, 0, db.page_count()) == last_leaf(
                db,
                current.number(),
                from,
                limit as nat,
            ),
        decreases limit,
    {
        let next: u32 = current.next_page();
        if next == 0 {
            return Ok(current);
        }
        if limit == 0 {
            return Err(EseError::SiblingChainBroken);
        }
        let here: u32 = current.page_number();
        current = match load_linked(reader, next, here) {
            Ok(p) => p,
            Err(e) => {
                assert(last_leaf(db, next, here, (limit - 1) as nat) == Err::<u32, EseError>(e));
                return Err(e);
            },
        };
        from = here;
        limit -= 1;
    }
}


/// The leaves from page `page_number` on along the next-page links, to the
/// one whose link is zero. Page zero is no page, and begins no chain. A leaf
/// that names a page before it has to name the leaf that led to it; a chain
/// of more than `limit` further leaves is given up as broken.
pub open spec fn leaf_chain(db: Db, page_number: u32, from: u32, limit: nat) -> Result<
    Seq<u32>,
    EseError,
>
    decreases limit,
{
    if page_number == 0 {
        Ok(Seq::empty())
    } else {
        match linked_page(db, page_number, from) {
            Err(e) => Err(e),
            Ok((page, _)) => if common_of(page).next_page == 0 {
                Ok(seq![page_number])
            } else if limit == 0 {
                Err(EseError::SiblingChainBroken)
            } else {
                match leaf_chain(db, common_of(page).next_page, page_number, (limit - 1) as nat) {
                    Err(e) => Err(e),
                    Ok(rest) => Ok(seq![page_number] + rest),
                }
            },
        }
    }
}

/// Some pages in front of pages that may not be there.
pub open spec fn chained(head: Seq<u32>, rest: Result<Seq<u32>, EseError>) -> Result<
    Seq<u32>,
    EseError,
> {
    match rest {
        Err(e) => Err(e),
        Ok(pages) => Ok(head + pages),
    }
}

/// The numbers of the leaves from page `start` on, along the next-page links.
pub fn iterate_leaves(reader: &mut Reader, start: u32) -> (r: Result<Vec<u32>, EseError>)
    requires
        old(reader).wf(),
    ensures
        final(reader).wf(),
        final(reader).same_file(old(reader)),
        match r {
            Ok(pages) => leaf_chain(db_of(old(reader)), start, 0, db_of(old(reader)).page_count())
                == Ok::<Seq<u32>, EseError>(pages@),
            Err(e) => leaf_chain(db_of(old(reader)), start, 0, db_of(old(reader)).page_count())
                == Err::<Seq<u32>, EseError>(e),
        },
{
    let ghost db = db_of(reader);
    let mut pages: Vec<u32> = Vec::new();
    let mut current: u32 = start;
    let mut from: u32 = 0;
    let mut limit: usize = page_count(reader);
    assert(chained(pages@, leaf_chain(db, start, 0, db.page_count())) == leaf_chain(
        db,
        start,
        0,
        db.page_count(),
    )) by {
        let all = leaf_chain(db, start, 0, db.page_count());
        if all is Ok {
            assert(pages@ + all->Ok_0 =~= all->Ok_0);
        }
    }
    while current != 0
        invariant
            reader.wf(),
            reader.same_file(old(reader)),
            db == db_of(reader),
            db == db_of(old(reader)),
            leaf_chain(db, start, 0, db.page_count()) == chained(
                pages@,
                leaf_chain(db, current, from, limit as nat),
            ),
        decreases limit,
    {
        let page = match load_linked(reader, current, from) {
            Ok(p) => p,
            Err(e) => {
                return Err(e);
            },
        };
        let ghost before = pages@;
        pages.push(current);
        let next: u32 = page.next_page();
        if next == 0 {
            assert(before + seq![current] =~= pages@);
            return Ok(pages);
        }
        if limit == 0 {
            return Err(EseError::SiblingChainBroken);
        }
        proof {
            let rest = leaf_chain(db, next, current, (limit - 1) as nat);
            if rest is Ok {
                assert(before + (seq![current] + rest->Ok_0) =~= pages@ + rest->Ok_0);
            }
        }
        from = current;
        current = next;
        limit -= 1;
    }
    assert(pages@ + Seq::<u32>::empty() =~= pages@);
    Ok(pages)
}

/// The page that page `page_number` names as the one before it.
pub open spec fn previous_of(db: Db, page_number: u32) -> u32 {
    match db.page(page_number) {
        Ok(page) => common_of(page).previous_page,
        Err(_) => 0,
    }
}

/// The page that page `page_number` names as the one after it.
pub open spec fn next_of(db: Db, page_number: u32) -> u32 {
    match db.page(page_number) {
        Ok(page) => common_of(page).next_page,
        Err(_) => 0,
    }
}

/// On a chain of leaves that was walked to its end, every leaf that names a
/// page before it names the leaf that was visited before it, and every leaf
/// but the last names the leaf that was visited after it.
pub proof fn lemma_chain_is_linked(db: Db, page_number: u32, from: u32, limit: nat)
    requires
        leaf_chain(db, page_number, from, limit) is Ok,
        page_number != 0,
    ensures
        ({
            let chain = leaf_chain(db, page_number, from, limit)->Ok_0;
            &&& chain.len() >= 1
            &&& chain[0] == page_number
            &&& next_of(db, chain.last()) == 0
            &&& last_leaf(db, page_number, from, limit) == Ok::<u32, EseError>(chain.last())
            &&& from != 0 ==> previous_of(db, page_number) == 0 || previous_of(db, page_number)
                == from
            &&& forall|k: int|
                0 < k < chain.len() ==> next_of(db, chain[k - 1]) == #[trigger] chain[k] && (
                previous_of(db, chain[k]) == 0 || previous_of(db, chain[k]) == chain[k - 1])
        }),
    decreases limit,
{
    let (page, _) = linked_page(db, page_number, from)->Ok_0;
    let next = common_of(page).next_page;
    if next != 0 && limit != 0 {
        lemma_chain_is_linked(db, next, page_number, (limit - 1) as nat);
        let rest = leaf_chain(db, next, page_number, (limit - 1) as nat)->Ok_0;
        let chain = leaf_chain(db, page_number, from, limit)->Ok_0;
        assert(chain == seq![page_number] + rest);
        assert forall|k: int| 0 < k < chain.len() implies next_of(db, chain[k - 1])
            == #[trigger] chain[k] && (previous_of(db, chain[k]) == 0 || previous_of(db, chain[k])
            == chain[k - 1]) by {
            assert(chain[k] == rest[k - 1]);
            if k > 1 {
                assert(chain[k - 1] == rest[k - 2]);
            }
        }
        assert(chain.last() == rest.last());
    }
}

/// Between a tag and the first tag behind it that is not defunct all tags
/// are defunct.
pub proof fn lemma_skip_forward(tags: Seq<PageTag>, i: int)
    requires
        0 <= i,
    ensures
        i <= skip_forward(tags, i),
        skip_forward(tags, i) < tags.len() ==> !tags[skip_forward(tags, i)].spec_is_defunct(),
        forall|k: int|
            i <= k < skip_forward(tags, i) && k < tags.len() ==> (#[trigger] tags[k]).spec_is_defunct(),
    decreases tags.len() - i,
{
    if i < tags.len() && tags[i].spec_is_defunct() {
        lemma_skip_forward(tags, i + 1);
    }
}

/// The search backwards passes the defunct tags and stops at the first that
/// is not.
pub proof fn lemma_skip_backward(tags: Seq<PageTag>, i: int, stop: int)
    requires
        0 < stop <= i < tags.len(),
        !tags[stop].spec_is_defunct(),
        forall|k: int| stop < k <= i ==> (#[trigger] tags[k]).spec_is_defunct(),
    ensures
        skip_backward(tags, i) == stop,
    decreases i - stop,
{
    if i > stop {
        lemma_skip_backward(tags, i - 1, stop);
    }
}

/// On one page, the move to the previous row undoes the move to the next
/// row: where the page has a row behind the row under tag `row`, the search
/// forward from behind `row` finds it, and the search backward from before it
/// finds `row` again.
pub proof fn lemma_previous_undoes_next(db: Db, page_number: u32, row: usize, limit: nat)
    requires
        linked_page(db, page_number, 0) is Ok,
        0 < row < linked_page(db, page_number, 0)->Ok_0.1.len(),
        !linked_page(db, page_number, 0)->Ok_0.1[row as int].spec_is_defunct(),
        skip_forward(linked_page(db, page_number, 0)->Ok_0.1, row + 1) < linked_page(
            db,
            page_number,
            0,
        )->Ok_0.1.len(),
        linked_page(db, page_number, 0)->Ok_0.1.len() <= usize::MAX,
    ensures
        ({
            let next = skip_forward(linked_page(db, page_number, 0)->Ok_0.1, row + 1);
            &&& forward(db, page_number, 0, row + 1, limit) == Ok::<Found, EseError>(
                Found { page: page_number, tag: Some(next as usize) },
            )
            &&& backward(db, page_number, Some((next - 1) as usize), limit) == Ok::<
                Found,
                EseError,
            >(Found { page: page_number, tag: Some(row) })
        }),
{
    let tags = linked_page(db, page_number, 0)->Ok_0.1;
    lemma_skip_forward(tags, row + 1);
    let next = skip_forward(tags, row + 1);
    lemma_skip_backward(tags, next - 1, row as int);
}

} // verus!
