use vstd::prelude::*;
use crate::cursor::{
    backward, backward_start, forward, last_leaf, leaf_chain, linked_page, next_of, previous_of, skip_backward, skip_forward, Found,
    ESE_MOVE_FIRST, ESE_MOVE_LAST, ESE_MOVE_NEXT, ESE_MOVE_PREVIOUS,
};
use crate::error::EseError;
use crate::ese_parser::{
    moved, moved_next, moved_previous, settled, unpositioned, Cursor,
};
use crate::page::{Db, PageTag};
use crate::tree::first_leaf;

verus! {

/// The rows that are found by a move of kind `begin`, if `first` says so,
/// and moves of kind `go_on` after it, until a move finds none. No more than
/// `fuel` moves are made.
pub open spec fn rows_visited(
    db: Db,
    root: u32,
    cursor: Cursor,
    begin: u32,
    go_on: u32,
    first: bool,
    fuel: nat,
) -> Seq<Cursor>
    decreases fuel,
{
    if fuel == 0 {
        Seq::empty()
    } else {
        match moved(
            db,
            root,
            cursor,
            if first {
                begin
            } else {
                go_on
            },
        ) {
            Ok((next, true)) => seq![next] + rows_visited(
                db,
                root,
                next,
                begin,
                go_on,
                false,
                (fuel - 1) as nat,
            ),
            _ => Seq::empty(),
        }
    }
}

/// The tags of a page of a chain.
pub open spec fn tags_on(db: Db, page_number: u32) -> Seq<PageTag> {
    linked_page(db, page_number, 0)->Ok_0.1
}

/// Whether `chain` is the chain of leaves of a tree: every page of it can
/// be loaded, every page but the first may name the page before it as the
/// one before it, every page names the next as the one after it, and the
/// last names none. The chain has no page zero, and no more links than the
/// file has pages.
pub open spec fn chain_in_order(db: Db, chain: Seq<u32>) -> bool {
    &&& 1 <= chain.len() <= db.page_count() + 1
    &&& forall|k: int|
        0 <= k < chain.len() ==> {
            &&& (#[trigger] chain[k]) != 0
            &&& linked_page(db, chain[k], 0) is Ok
            &&& k > 0 ==> previous_of(db, chain[k]) == 0 || previous_of(db, chain[k]) == chain[k
                - 1]
            &&& next_of(db, chain[k]) == (if k + 1 < chain.len() {
                chain[k + 1]
            } else {
                0
            })
        }
}

/// The place of the first row at or behind tag `i` of page `k` of a chain:
/// defunct tags are passed over, and behind the last tag of a page the
/// search goes on with tag 1 of the next.
pub open spec fn next_place(db: Db, chain: Seq<u32>, k: int, i: int) -> Option<(int, int)>
    decreases chain.len() - k, tags_on(db, chain[k]).len() - i,
{
    if k < 0 || k >= chain.len() || i < 0 {
        None
    } else if i >= tags_on(db, chain[k]).len() {
        next_place(db, chain, k + 1, 1)
    } else if tags_on(db, chain[k])[i].spec_is_defunct() {
        next_place(db, chain, k, i + 1)
    } else {
        Some((k, i))
    }
}

/// The rows of a chain from tag `i` of page `k` on, in their order: the tags
/// from 1 on that are not defunct, page by page.
pub open spec fn rows_from(db: Db, chain: Seq<u32>, k: int, i: int) -> Seq<Cursor>
    decreases chain.len() - k, tags_on(db, chain[k]).len() - i,
{
    if k < 0 || k >= chain.len() || i < 0 {
        Seq::empty()
    } else if i >= tags_on(db, chain[k]).len() {
        rows_from(db, chain, k + 1, 1)
    } else if tags_on(db, chain[k])[i].spec_is_defunct() {
        rows_from(db, chain, k, i + 1)
    } else {
        seq![Cursor { page: Some(chain[k]), tag: i as usize }] + rows_from(db, chain, k, i + 1)
    }
}

/// The rows from a place on are the first row at or behind the place, and
/// the rows behind that row.
pub proof fn lemma_rows_from(db: Db, chain: Seq<u32>, k: int, i: int)
    ensures
        match next_place(db, chain, k, i) {
            None => rows_from(db, chain, k, i) == Seq::<Cursor>::empty(),
            Some(p) => k <= p.0 < chain.len() && 0 <= p.1 < tags_on(db, chain[p.0]).len()
                && !tags_on(db, chain[p.0])[p.1].spec_is_defunct() && (p.0 == k ==> p.1 >= i)
                && rows_from(db, chain, k, i) == seq![
                Cursor { page: Some(chain[p.0]), tag: p.1 as usize },
            ] + rows_from(db, chain, p.0, p.1 + 1),
        },
    decreases chain.len() - k, tags_on(db, chain[k]).len() - i,
{
    if k < 0 || k >= chain.len() || i < 0 {
    } else if i >= tags_on(db, chain[k]).len() {
        lemma_rows_from(db, chain, k + 1, 1);
    } else if tags_on(db, chain[k])[i].spec_is_defunct() {
        lemma_rows_from(db, chain, k, i + 1);
    }
}

/// The search on one page: the first tag at or behind `i` that is not
/// defunct is the place of the next row if it is on this page, and else the
/// next row is the first row behind tag 1 of the next page.
pub proof fn lemma_next_place_skips(db: Db, chain: Seq<u32>, k: int, i: int)
    requires
        0 <= k < chain.len(),
        0 <= i,
    ensures
        i <= skip_forward(tags_on(db, chain[k]), i),
        skip_forward(tags_on(db, chain[k]), i) < tags_on(db, chain[k]).len() ==> next_place(
            db,
            chain,
            k,
            i,
        ) == Some((k, skip_forward(tags_on(db, chain[k]), i))),
        skip_forward(tags_on(db, chain[k]), i) >= tags_on(db, chain[k]).len() ==> next_place(
            db,
            chain,
            k,
            i,
        ) == next_place(db, chain, k + 1, 1),
    decreases tags_on(db, chain[k]).len() - i,
{
    let tags = tags_on(db, chain[k]);
    if i < tags.len() && tags[i].spec_is_defunct() {
        lemma_next_place_skips(db, chain, k, i + 1);
    }
}

/// What a search forward finds, by the place of the next row.
pub open spec fn found_at(chain: Seq<u32>, place: Option<(int, int)>) -> Found {
    match place {
        Some(p) => Found { page: chain[p.0], tag: Some(p.1 as usize) },
        None => Found { page: chain.last(), tag: None },
    }
}

/// On a chain in order the search forward finds the next row of the chain.
pub proof fn lemma_forward_on_chain(db: Db, chain: Seq<u32>, k: int, i: int, limit: nat)
    requires
        chain_in_order(db, chain),
        0 <= k < chain.len(),
        0 <= i,
        limit >= chain.len() - 1 - k,
    ensures
        forward(
            db,
            chain[k],
            if k == 0 {
                0u32
            } else {
                chain[k - 1]
            },
            i,
            limit,
        ) == Ok::<Found, EseError>(found_at(chain, next_place(db, chain, k, i))),
        forward(db, chain[k], 0, i, limit) == Ok::<Found, EseError>(
            found_at(chain, next_place(db, chain, k, i)),
        ),
    decreases chain.len() - k,
{
    let from = if k == 0 {
        0u32
    } else {
        chain[k - 1]
    };
    lemma_next_place_skips(db, chain, k, i);
    assert(linked_page(db, chain[k], 0) is Ok);
    assert(linked_page(db, chain[k], from) == linked_page(db, chain[k], 0));
    let tags = tags_on(db, chain[k]);
    if skip_forward(tags, i) >= tags.len() {
        if k + 1 < chain.len() {
            lemma_forward_on_chain(db, chain, k + 1, 1, (limit - 1) as nat);
        } else {
            assert(next_place(db, chain, k + 1, 1) == None::<(int, int)>);
        }
    }
}

/// From a row of a chain in order, the moves to the next row visit the rows
/// behind it in their order.
pub proof fn lemma_next_on_chain(
    db: Db,
    root: u32,
    chain: Seq<u32>,
    k: int,
    t: int,
    fuel: nat,
)
    requires
        chain_in_order(db, chain),
        0 <= k < chain.len(),
        0 <= t < 0xffff,
        fuel > rows_from(db, chain, k, t + 1).len(),
    ensures
        rows_visited(
            db,
            root,
            Cursor { page: Some(chain[k]), tag: t as usize },
            ESE_MOVE_FIRST,
            ESE_MOVE_NEXT,
            false,
            fuel,
        ) == rows_from(db, chain, k, t + 1),
    decreases rows_from(db, chain, k, t + 1).len(),
{
    lemma_forward_on_chain(db, chain, k, t + 1, db.page_count());
    lemma_rows_from(db, chain, k, t + 1);
    match next_place(db, chain, k, t + 1) {
        None => {},
        Some(p) => {
            lemma_tags_count(db, chain[p.0]);
            lemma_next_on_chain(db, root, chain, p.0, p.1, (fuel - 1) as nat);
        },
    }
}

/// A page has no more tags than a 16-bit number counts.
pub proof fn lemma_tags_count(db: Db, page_number: u32)
    requires
        linked_page(db, page_number, 0) is Ok,
    ensures
        tags_on(db, page_number).len() <= 0xffff,
{
}

/// On a tree whose leaves are a chain in order, the move to the first row
/// and the moves to the next row until none is found visit the rows of the
/// chain, each once, in their order: as many positions as the leaves have
/// tags from 1 on that are not defunct.
pub proof fn lemma_rows_are_visited(db: Db, root: u32, chain: Seq<u32>, fuel: nat)
    requires
        chain_in_order(db, chain),
        first_leaf(db, root, db.page_count()) == Ok::<u32, EseError>(chain[0]),
        fuel > rows_from(db, chain, 0, 1).len(),
    ensures
        rows_visited(db, root, unpositioned(), ESE_MOVE_FIRST, ESE_MOVE_NEXT, true, fuel)
            == rows_from(db, chain, 0, 1),
{
    lemma_forward_on_chain(db, chain, 0, 1, db.page_count());
    lemma_rows_from(db, chain, 0, 1);
    match next_place(db, chain, 0, 1) {
        None => {},
        Some(p) => {
            lemma_tags_count(db, chain[p.0]);
            lemma_next_on_chain(db, root, chain, p.0, p.1, (fuel - 1) as nat);
        },
    }
}

/// The chain of leaves that is read from a page on is a chain in order.
pub proof fn lemma_chain_in_order(db: Db, page_number: u32, from: u32, limit: nat)
    requires
        leaf_chain(db, page_number, from, limit) is Ok,
        page_number != 0,
        limit <= db.page_count(),
    ensures
        chain_in_order(db, leaf_chain(db, page_number, from, limit)->Ok_0),
        leaf_chain(db, page_number, from, limit)->Ok_0.len() <= limit + 1,
        leaf_chain(db, page_number, from, limit)->Ok_0[0] == page_number,
        from != 0 ==> previous_of(db, page_number) == 0 || previous_of(db, page_number) == from,
    decreases limit,
{
    let (page, _) = linked_page(db, page_number, from)->Ok_0;
    let next = next_of(db, page_number);
    let chain = leaf_chain(db, page_number, from, limit)->Ok_0;
    assert(linked_page(db, page_number, 0) is Ok);
    if next != 0 && limit != 0 {
        lemma_chain_in_order(db, next, page_number, (limit - 1) as nat);
        let rest = leaf_chain(db, next, page_number, (limit - 1) as nat)->Ok_0;
        assert(chain == seq![page_number] + rest);
        assert forall|k: int| 0 <= k < chain.len() implies {
            &&& (#[trigger] chain[k]) != 0
            &&& linked_page(db, chain[k], 0) is Ok
            &&& k > 0 ==> previous_of(db, chain[k]) == 0 || previous_of(db, chain[k]) == chain[k
                - 1]
            &&& next_of(db, chain[k]) == (if k + 1 < chain.len() {
                chain[k + 1]
            } else {
                0
            })
        } by {
            if k > 0 {
                assert(chain[k] == rest[k - 1]);
                if k > 1 {
                    assert(chain[k - 1] == rest[k - 2]);
                }
                if k + 1 < chain.len() {
                    assert(chain[k + 1] == rest[k]);
                }
            } else {
                assert(chain[1] == rest[0]);
            }
        }
    } else {
        assert(chain == seq![page_number]);
    }
}

/// Whether every page of a chain but the first names the page before it as
/// the one before it, and the first names none.
pub open spec fn chain_mirrored(db: Db, chain: Seq<u32>) -> bool {
    forall|k: int|
        0 <= k < chain.len() ==> previous_of(db, #[trigger] chain[k]) == (if k > 0 {
            chain[k - 1]
        } else {
            0
        })
}

/// The tag at which a search backward that is given no tag begins.
pub open spec fn last_tag(db: Db, page_number: u32) -> int {
    backward_start(tags_on(db, page_number), None)
}

/// The place of the last row at or before tag `i` of page `k` of a chain:
/// defunct tags are passed over, tag 0 holds no row, and before tag 1 of a
/// page the search goes on with the last tag of the page before.
pub open spec fn previous_place(db: Db, chain: Seq<u32>, k: int, i: int) -> Option<(int, int)>
    decreases k, i,
{
    if k < 0 || k >= chain.len() {
        None
    } else if i <= 0 {
        if k == 0 {
            None
        } else {
            previous_place(db, chain, k - 1, last_tag(db, chain[k - 1]))
        }
    } else if i >= tags_on(db, chain[k]).len() {
        previous_place(db, chain, k, last_tag(db, chain[k]))
    } else if tags_on(db, chain[k])[i].spec_is_defunct() {
        previous_place(db, chain, k, i - 1)
    } else {
        Some((k, i))
    }
}

/// The rows of a chain at and before tag `i` of page `k`, the last of them
/// first.
pub open spec fn rows_back(db: Db, chain: Seq<u32>, k: int, i: int) -> Seq<Cursor>
    decreases k, i,
{
    if k < 0 || k >= chain.len() {
        Seq::empty()
    } else if i <= 0 {
        if k == 0 {
            Seq::empty()
        } else {
            rows_back(db, chain, k - 1, last_tag(db, chain[k - 1]))
        }
    } else if i >= tags_on(db, chain[k]).len() {
        rows_back(db, chain, k, last_tag(db, chain[k]))
    } else if tags_on(db, chain[k])[i].spec_is_defunct() {
        rows_back(db, chain, k, i - 1)
    } else {
        seq![Cursor { page: Some(chain[k]), tag: i as usize }] + rows_back(db, chain, k, i - 1)
    }
}

/// The rows at and before a place are the last row at or before the place,
/// and the rows before that row.
pub proof fn lemma_rows_back(db: Db, chain: Seq<u32>, k: int, i: int)
    ensures
        match previous_place(db, chain, k, i) {
            None => rows_back(db, chain, k, i) == Seq::<Cursor>::empty(),
            Some(p) => 0 <= p.0 <= k && p.0 < chain.len() && 0 < p.1 < tags_on(
                db,
                chain[p.0],
            ).len() && !tags_on(db, chain[p.0])[p.1].spec_is_defunct() && rows_back(
                db,
                chain,
                k,
                i,
            ) == seq![Cursor { page: Some(chain[p.0]), tag: p.1 as usize }] + rows_back(
                db,
                chain,
                p.0,
                p.1 - 1,
            ),
        },
    decreases k, i,
{
    if k < 0 || k >= chain.len() {
    } else if i <= 0 {
        if k > 0 {
            lemma_rows_back(db, chain, k - 1, last_tag(db, chain[k - 1]));
        }
    } else if i >= tags_on(db, chain[k]).len() {
        lemma_rows_back(db, chain, k, last_tag(db, chain[k]));
    } else if tags_on(db, chain[k])[i].spec_is_defunct() {
        lemma_rows_back(db, chain, k, i - 1);
    }
}

/// The search backward on one page: the last tag at or before `i` that is
/// not defunct is the place of the row before if it is behind tag 0, and
/// else the row before is the last row of the page before.
pub proof fn lemma_previous_place_skips(db: Db, chain: Seq<u32>, k: int, i: int)
    requires
        0 <= k < chain.len(),
        i <= 0 || i < tags_on(db, chain[k]).len(),
    ensures
        skip_backward(tags_on(db, chain[k]), i) > 0 ==> previous_place(db, chain, k, i) == Some(
            (k, skip_backward(tags_on(db, chain[k]), i)),
        ),
        skip_backward(tags_on(db, chain[k]), i) <= 0 ==> previous_place(db, chain, k, i)
            == previous_place(db, chain, k, 0),
    decreases i,
{
    let tags = tags_on(db, chain[k]);
    if i > 0 && tags[i].spec_is_defunct() {
        lemma_previous_place_skips(db, chain, k, i - 1);
    }
}

/// What a search backward finds, by the place of the row before.
pub open spec fn found_back(chain: Seq<u32>, place: Option<(int, int)>) -> Found {
    match place {
        Some(p) => Found { page: chain[p.0], tag: Some(p.1 as usize) },
        None => Found { page: chain[0], tag: None },
    }
}

/// On a chain in order whose links to the page before mirror those to the
/// next, the search backward finds the row before.
pub proof fn lemma_backward_on_chain(
    db: Db,
    chain: Seq<u32>,
    k: int,
    at: Option<usize>,
    limit: nat,
)
    requires
        chain_in_order(db, chain),
        chain_mirrored(db, chain),
        0 <= k < chain.len(),
        at is Some ==> at->Some_0 == 0 || at->Some_0 < tags_on(db, chain[k]).len(),
        limit >= k,
    ensures
        backward(db, chain[k], at, limit) == Ok::<Found, EseError>(
            found_back(
                chain,
                previous_place(db, chain, k, backward_start(tags_on(db, chain[k]), at)),
            ),
        ),
    decreases k,
{
    let tags = tags_on(db, chain[k]);
    let start = backward_start(tags, at);
    assert(linked_page(db, chain[k], 0) is Ok);
    lemma_previous_place_skips(db, chain, k, start);
    if skip_backward(tags, start) <= 0 {
        if k > 0 {
            assert(previous_of(db, chain[k]) == chain[k - 1]);
            assert(chain[k - 1] != 0);
            lemma_backward_on_chain(db, chain, k - 1, None, (limit - 1) as nat);
        } else {
            assert(previous_of(db, chain[k]) == 0);
        }
    }
}

/// From every page of a chain in order the search for the last leaf finds
/// the last page of the chain.
pub proof fn lemma_last_on_chain(db: Db, chain: Seq<u32>, k: int, limit: nat)
    requires
        chain_in_order(db, chain),
        0 <= k < chain.len(),
        limit >= chain.len() - 1 - k,
    ensures
        last_leaf(db, chain[k], 0, limit) == Ok::<u32, EseError>(chain.last()),
        k > 0 ==> last_leaf(db, chain[k], chain[k - 1], limit) == Ok::<u32, EseError>(
            chain.last(),
        ),
    decreases chain.len() - k,
{
    assert(linked_page(db, chain[k], 0) is Ok);
    if k > 0 {
        assert(linked_page(db, chain[k], chain[k - 1]) == linked_page(db, chain[k], 0));
    }
    if k + 1 < chain.len() {
        assert(chain[k + 1] != 0);
        lemma_last_on_chain(db, chain, k + 1, (limit - 1) as nat);
    }
}

/// From a row of a mirrored chain, the moves to the row before visit the
/// rows before it, the nearest first.
pub proof fn lemma_previous_on_chain(
    db: Db,
    root: u32,
    chain: Seq<u32>,
    k: int,
    t: int,
    fuel: nat,
)
    requires
        chain_in_order(db, chain),
        chain_mirrored(db, chain),
        0 <= k < chain.len(),
        0 < t < tags_on(db, chain[k]).len(),
        fuel > rows_back(db, chain, k, t - 1).len(),
    ensures
        rows_visited(
            db,
            root,
            Cursor { page: Some(chain[k]), tag: t as usize },
            ESE_MOVE_LAST,
            ESE_MOVE_PREVIOUS,
            false,
            fuel,
        ) == rows_back(db, chain, k, t - 1),
    decreases rows_back(db, chain, k, t - 1).len(),
{
    lemma_tags_count(db, chain[k]);
    lemma_backward_on_chain(db, chain, k, Some((t - 1) as usize), db.page_count());
    lemma_rows_back(db, chain, k, t - 1);
    match previous_place(db, chain, k, t - 1) {
        None => {},
        Some(p) => {
            lemma_previous_on_chain(db, root, chain, p.0, p.1, (fuel - 1) as nat);
        },
    }
}

/// The rows of a chain in their order are the rows at and before a place,
/// turned round, and the rows behind the place.
pub proof fn lemma_rows_meet(db: Db, chain: Seq<u32>, k: int, i: int)
    requires
        0 <= k < chain.len(),
        0 <= i,
        i == 0 || i < tags_on(db, chain[k]).len(),
    ensures
        rows_from(db, chain, 0, 1) == rows_back(db, chain, k, i).reverse() + rows_from(
            db,
            chain,
            k,
            i + 1,
        ),
    decreases k, i,
{
    let whole = rows_from(db, chain, 0, 1);
    if i > 0 {
        lemma_rows_meet(db, chain, k, i - 1);
        let before = rows_back(db, chain, k, i - 1);
        let behind = rows_from(db, chain, k, i + 1);
        if !tags_on(db, chain[k])[i].spec_is_defunct() {
            let here = seq![Cursor { page: Some(chain[k]), tag: i as usize }];
            assert((here + before).reverse() =~= before.reverse() + here);
            assert(before.reverse() + (here + behind) =~= (before.reverse() + here) + behind);
        }
    } else if k > 0 {
        let last = last_tag(db, chain[k - 1]);
        lemma_rows_meet(db, chain, k - 1, last);
        assert(rows_from(db, chain, k - 1, last + 1) == rows_from(db, chain, k, 1));
        assert(rows_back(db, chain, k, 0) == rows_back(db, chain, k - 1, last));
    } else {
        assert(rows_back(db, chain, 0, 0) =~= Seq::<Cursor>::empty());
        assert(Seq::<Cursor>::empty().reverse() + whole =~= whole);
    }
}

/// The rows at and before the last tag of the last page are the rows of the
/// chain, the last of them first.
pub proof fn lemma_rows_turn(db: Db, chain: Seq<u32>)
    requires
        chain.len() >= 1,
    ensures
        rows_back(db, chain, chain.len() - 1, last_tag(db, chain.last())) == rows_from(
            db,
            chain,
            0,
            1,
        ).reverse(),
{
    let k = chain.len() - 1;
    let last = last_tag(db, chain[k]);
    lemma_rows_meet(db, chain, k, last);
    let back = rows_back(db, chain, k, last);
    assert(rows_from(db, chain, k, last + 1) == rows_from(db, chain, k + 1, 1));
    assert(rows_from(db, chain, k + 1, 1) =~= Seq::<Cursor>::empty());
    assert(back.reverse() + Seq::<Cursor>::empty() =~= back.reverse());
    assert(back =~= back.reverse().reverse());
}

/// On a tree whose leaves are a mirrored chain in order, the move to the
/// last row and the moves to the row before until none is found visit the
/// rows that the moves forward visit, in the opposite order.
pub proof fn lemma_rows_are_visited_backward(db: Db, root: u32, chain: Seq<u32>, fuel: nat)
    requires
        chain_in_order(db, chain),
        chain_mirrored(db, chain),
        first_leaf(db, root, db.page_count()) == Ok::<u32, EseError>(chain[0]),
        fuel > rows_from(db, chain, 0, 1).len(),
    ensures
        rows_visited(db, root, unpositioned(), ESE_MOVE_LAST, ESE_MOVE_PREVIOUS, true, fuel)
            == rows_from(db, chain, 0, 1).reverse(),
        rows_visited(db, root, unpositioned(), ESE_MOVE_LAST, ESE_MOVE_PREVIOUS, true, fuel)
            == rows_visited(
            db,
            root,
            unpositioned(),
            ESE_MOVE_FIRST,
            ESE_MOVE_NEXT,
            true,
            fuel,
        ).reverse(),
{
    let k = chain.len() - 1;
    let last = last_tag(db, chain[k]);
    lemma_rows_are_visited(db, root, chain, fuel);
    lemma_rows_turn(db, chain);
    lemma_last_on_chain(db, chain, 0, db.page_count());
    lemma_backward_on_chain(db, chain, k, None, db.page_count());
    lemma_rows_back(db, chain, k, last);
    assert(rows_back(db, chain, k, last).len() == rows_from(db, chain, 0, 1).len());
    match previous_place(db, chain, k, last) {
        None => {},
        Some(p) => {
            lemma_previous_on_chain(db, root, chain, p.0, p.1, (fuel - 1) as nat);
        },
    }
}

/// Where the search forward from behind a row ends at a place, the search
/// backward from before that place ends at the row.
pub proof fn lemma_places_mirror(db: Db, chain: Seq<u32>, row: (int, int), k: int, i: int)
    requires
        0 <= k < chain.len(),
        1 <= i,
        previous_place(db, chain, k, i - 1) == Some(row),
        next_place(db, chain, k, i) is Some,
    ensures
        previous_place(
            db,
            chain,
            next_place(db, chain, k, i)->Some_0.0,
            next_place(db, chain, k, i)->Some_0.1 - 1,
        ) == Some(row),
    decreases chain.len() - k, tags_on(db, chain[k]).len() - i,
{
    if i >= tags_on(db, chain[k]).len() {
        assert(next_place(db, chain, k, i) == next_place(db, chain, k + 1, 1));
        assert(k + 1 < chain.len());
        assert(previous_place(db, chain, k, i - 1) == previous_place(
            db,
            chain,
            k,
            last_tag(db, chain[k]),
        ));
        assert(previous_place(db, chain, k + 1, 0) == previous_place(
            db,
            chain,
            k,
            last_tag(db, chain[k]),
        ));
        lemma_places_mirror(db, chain, row, k + 1, 1);
    } else if tags_on(db, chain[k])[i].spec_is_defunct() {
        lemma_places_mirror(db, chain, row, k, i + 1);
    }
}

/// The move to the next row from a row of a chain in order.
pub proof fn lemma_moved_next_on_chain(db: Db, chain: Seq<u32>, k: int, t: int)
    requires
        chain_in_order(db, chain),
        0 <= k < chain.len(),
        0 <= t < 0xffff,
    ensures
        moved_next(db, Cursor { page: Some(chain[k]), tag: t as usize }) == settled(
            Ok(found_at(chain, next_place(db, chain, k, t + 1))),
        ),
{
    lemma_forward_on_chain(db, chain, k, t + 1, db.page_count());
}

/// The move to the row before from a row of a mirrored chain in order.
pub proof fn lemma_moved_previous_on_chain(db: Db, chain: Seq<u32>, k: int, t: int)
    requires
        chain_in_order(db, chain),
        chain_mirrored(db, chain),
        0 <= k < chain.len(),
        0 < t < tags_on(db, chain[k]).len(),
    ensures
        moved_previous(db, Cursor { page: Some(chain[k]), tag: t as usize }) == settled(
            Ok(found_back(chain, previous_place(db, chain, k, t - 1))),
        ),
{
    lemma_tags_count(db, chain[k]);
    lemma_backward_on_chain(db, chain, k, Some((t - 1) as usize), db.page_count());
}

/// On a mirrored chain in order, a move to the next row that finds one,
/// followed by a move to the row before, ends on the row it began on.
pub proof fn lemma_previous_undoes_next_on_chain(
    db: Db,
    chain: Seq<u32>,
    k: int,
    t: int,
    next: Cursor,
)
    requires
        chain_in_order(db, chain),
        chain_mirrored(db, chain),
        0 <= k < chain.len(),
        0 < t < tags_on(db, chain[k]).len(),
        !tags_on(db, chain[k])[t].spec_is_defunct(),
        moved_next(db, Cursor { page: Some(chain[k]), tag: t as usize }) == Ok::<
            (Cursor, bool),
            EseError,
        >((next, true)),
    ensures
        moved_previous(db, next) == Ok::<(Cursor, bool), EseError>(
            (Cursor { page: Some(chain[k]), tag: t as usize }, true),
        ),
{
    lemma_tags_count(db, chain[k]);
    lemma_moved_next_on_chain(db, chain, k, t);
    lemma_rows_from(db, chain, k, t + 1);
    let place = next_place(db, chain, k, t + 1);
    assert(place is Some);
    let p = place->Some_0;
    lemma_tags_count(db, chain[p.0]);
    assert(next == Cursor { page: Some(chain[p.0]), tag: p.1 as usize });
    assert(previous_place(db, chain, k, t) == Some((k, t)));
    lemma_places_mirror(db, chain, (k, t), k, t + 1);
    lemma_next_place_later(db, chain, k, t + 1);
    lemma_moved_previous_on_chain(db, chain, p.0, p.1);
}

/// A row that is found on a later page stands behind tag 0 of its page.
pub proof fn lemma_next_place_later(db: Db, chain: Seq<u32>, k: int, i: int)
    requires
        next_place(db, chain, k, i) is Some,
        i >= 1,
    ensures
        next_place(db, chain, k, i)->Some_0.1 >= 1,
    decreases chain.len() - k, tags_on(db, chain[k]).len() - i,
{
    if k < 0 || k >= chain.len() || i < 0 {
    } else if i >= tags_on(db, chain[k]).len() {
        lemma_next_place_later(db, chain, k + 1, 1);
    } else if tags_on(db, chain[k])[i].spec_is_defunct() {
        lemma_next_place_later(db, chain, k, i + 1);
    }
}

/// A move to the next row from the last row of a chain in order finds no
/// row, gives no error and leaves the cursor on no page.
pub proof fn lemma_move_past_last(db: Db, chain: Seq<u32>, k: int, t: int)
    requires
        chain_in_order(db, chain),
        0 <= k < chain.len(),
        0 <= t < 0xffff,
        rows_from(db, chain, k, t + 1).len() == 0,
    ensures
        moved_next(db, Cursor { page: Some(chain[k]), tag: t as usize }) == Ok::<
            (Cursor, bool),
            EseError,
        >((unpositioned(), false)),
{
    lemma_moved_next_on_chain(db, chain, k, t);
    lemma_rows_from(db, chain, k, t + 1);
}

/// No page stands twice in a chain in order.
pub proof fn lemma_pages_differ(db: Db, chain: Seq<u32>, a: int, b: int)
    requires
        chain_in_order(db, chain),
        0 <= a < b < chain.len(),
    ensures
        chain[a] != chain[b],
    decreases chain.len() - b,
{
    if chain[a] == chain[b] {
        assert(next_of(db, chain[a]) == chain[a + 1]);
        assert(chain[a + 1] != 0);
        if b + 1 < chain.len() {
            lemma_pages_differ(db, chain, a + 1, b + 1);
        }
    }
}

/// A row is not among the rows behind it.
pub proof fn lemma_row_is_not_behind(
    db: Db,
    chain: Seq<u32>,
    k: int,
    i: int,
    row: (int, int),
    j: int,
)
    requires
        chain_in_order(db, chain),
        0 <= row.0 < chain.len(),
        0 <= row.1 < 0xffff,
        row.0 < k || (row.0 == k && row.1 < i),
        0 <= j < rows_from(db, chain, k, i).len(),
    ensures
        rows_from(db, chain, k, i)[j] != (Cursor { page: Some(chain[row.0]), tag: row.1 as usize }),
    decreases chain.len() - k, tags_on(db, chain[k]).len() - i,
{
    if k < 0 || k >= chain.len() || i < 0 {
    } else if i >= tags_on(db, chain[k]).len() {
        lemma_row_is_not_behind(db, chain, k + 1, 1, row, j);
    } else if tags_on(db, chain[k])[i].spec_is_defunct() {
        lemma_row_is_not_behind(db, chain, k, i + 1, row, j);
    } else if j > 0 {
        lemma_row_is_not_behind(db, chain, k, i + 1, row, j - 1);
    } else {
        lemma_tags_count(db, chain[k]);
        if row.0 < k {
            lemma_pages_differ(db, chain, row.0, k);
        }
    }
}

/// The rows of a chain in order are visited once each: no two of the
/// positions are the same.
pub proof fn lemma_rows_differ(db: Db, chain: Seq<u32>, k: int, i: int, a: int, b: int)
    requires
        chain_in_order(db, chain),
        0 <= a < b < rows_from(db, chain, k, i).len(),
    ensures
        rows_from(db, chain, k, i)[a] != rows_from(db, chain, k, i)[b],
    decreases rows_from(db, chain, k, i).len(),
{
    lemma_rows_from(db, chain, k, i);
    let p = next_place(db, chain, k, i)->Some_0;
    lemma_tags_count(db, chain[p.0]);
    if a == 0 {
        lemma_row_is_not_behind(db, chain, p.0, p.1 + 1, p, b - 1);
    } else {
        lemma_rows_differ(db, chain, p.0, p.1 + 1, a - 1, b - 1);
    }
}

} // verus!
