//! Free lists of a buddy allocator, as sequences.
//!
//! `lists[o]` holds the first frames of the free blocks of order `o`, the head
//! of the list first.
use vstd::prelude::*;

use crate::mm::blocks;

verus! {

/// Block `i` of list `o` holds `frame`.
pub open spec fn block_holds(lists: Seq<Seq<int>>, o: int, i: int, frame: int) -> bool {
    &&& 0 <= o < 12
    &&& 0 <= i < lists[o].len()
    &&& lists[o][i] <= frame < lists[o][i] + blocks::pages(o)
}

/// The frame is in a free block.
pub open spec fn covers(lists: Seq<Seq<int>>, frame: int) -> bool {
    exists|o: int, i: int| #[trigger] block_holds(lists, o, i, frame)
}

/// Twelve empty lists.
pub open spec fn no_blocks() -> Seq<Seq<int>> {
    Seq::new(12, |o: int| Seq::<int>::empty())
}

/// Without blocks, no frame is free.
pub proof fn lemma_no_blocks(frame: int)
    ensures
        !covers(no_blocks(), frame),
{
    if covers(no_blocks(), frame) {
        let (o, i) = choose|o: int, i: int| block_holds(no_blocks(), o, i, frame);
    }
}

/// The lists with a block put at the head of list `o`.
pub open spec fn push_block(lists: Seq<Seq<int>>, o: int, frame: int) -> Seq<Seq<int>> {
    lists.update(o, seq![frame] + lists[o])
}

/// The lists with a block taken out of list `o`.
pub open spec fn take_block(lists: Seq<Seq<int>>, o: int, frame: int) -> Seq<Seq<int>> {
    lists.update(o, lists[o].remove(lists[o].index_of(frame)))
}

/// The smallest order from `o` up that has a free block; 12 if none has.
pub open spec fn first_order(lists: Seq<Seq<int>>, o: int) -> int
    decreases 12 - o,
{
    if o >= 12 {
        12
    } else if lists[o].len() > 0 {
        o
    } else {
        first_order(lists, o + 1)
    }
}

/// The upper halves that are left over when the block of order `o` at `frame`
/// is halved down to `order`, each put in its list.
pub open spec fn split(lists: Seq<Seq<int>>, frame: int, o: int, order: int) -> Seq<Seq<int>>
    decreases o,
{
    if o <= order || o <= 0 {
        lists
    } else {
        split(push_block(lists, o - 1, frame + blocks::pages(o - 1)), frame, o - 1, order)
    }
}

/// The frame that an allocation of `order` gives.
pub open spec fn alloc_frame_of(lists: Seq<Seq<int>>, order: int) -> int {
    lists[first_order(lists, order)][0]
}

/// The lists after an allocation of `order`.
pub open spec fn alloc_lists(lists: Seq<Seq<int>>, order: int) -> Seq<Seq<int>> {
    let c = first_order(lists, order);
    split(take_block(lists, c, lists[c][0]), lists[c][0], c, order)
}

/// The lists after the block of order `o` at `frame` was freed: it is joined
/// with its buddy as long as the buddy is free.
pub open spec fn free_lists_of(lists: Seq<Seq<int>>, frame: int, o: int) -> Seq<Seq<int>>
    decreases 11 - o,
{
    if o < 11 && lists[o].contains(blocks::buddy_of(frame, o)) {
        free_lists_of(take_block(lists, o, blocks::buddy_of(frame, o)), blocks::parent_of(frame, o), o + 1)
    } else {
        push_block(lists, o, frame)
    }
}

/// The largest order up to `o` to which `start` is aligned and of which a
/// block fits into `count` frames.
pub open spec fn fitting_order(start: int, count: int, o: int) -> int
    decreases o,
{
    if o <= 0 || (start % blocks::pages(o) == 0 && blocks::pages(o) <= count) {
        o
    } else {
        fitting_order(start, count, o - 1)
    }
}

/// The lists after `count` frames from `start` on were freed, in blocks as
/// large as alignment and count allow.
pub open spec fn add_range_lists(lists: Seq<Seq<int>>, start: int, count: int) -> Seq<Seq<int>>
    decreases count,
{
    if count <= 0 {
        lists
    } else {
        let o = fitting_order(start, count, 11);
        proof {
            lemma_fitting_order_bounds(start, count, 11);
        }
        add_range_lists(
            free_lists_of(lists, start, o),
            start + blocks::pages(o),
            count - blocks::pages(o),
        )
    }
}

/// No free block has a free buddy of its own order.
pub open spec fn coalesced(lists: Seq<Seq<int>>) -> bool {
    forall|o: int, f: int|
        0 <= o < 11 && #[trigger] lists[o].contains(f) ==> !lists[o].contains(blocks::buddy_of(f, o))
}

/// Every block is aligned to its size and no two blocks share a frame.
pub open spec fn disjoint_blocks(lists: Seq<Seq<int>>) -> bool {
    &&& lists.len() == 12
    &&& forall|o: int, i: int|
        #![trigger lists[o][i]]
        0 <= o < 12 && 0 <= i < lists[o].len() ==> 0 <= lists[o][i] && lists[o][i]
            % blocks::pages(o) == 0
    &&& forall|o: int, i: int, o2: int, j: int, g: int|
        #[trigger] block_holds(lists, o, i, g) && #[trigger] block_holds(lists, o2, j, g) ==> o
            == o2 && i == j
}

pub open spec fn distinct(lists: Seq<Seq<int>>) -> bool {
    forall|o: int| 0 <= o < 12 ==> (#[trigger] lists[o]).no_duplicates()
}

/// What the lists hold after a block was split.
pub proof fn lemma_split(lists: Seq<Seq<int>>, frame: int, o: int, order: int)
    requires
        lists.len() == 12,
        0 <= order <= o < 12,
    ensures
        split(lists, frame, o, order).len() == 12,
        forall|k: int|
            0 <= k < 12 ==> #[trigger] split(lists, frame, o, order)[k] == if order <= k < o {
                seq![frame + blocks::pages(k)] + lists[k]
            } else {
                lists[k]
            },
    decreases o,
{
    if o > order {
        lemma_split(push_block(lists, o - 1, frame + blocks::pages(o - 1)), frame, o - 1, order);
    }
}

pub proof fn lemma_first_order(lists: Seq<Seq<int>>, o: int)
    requires
        0 <= o <= 12,
    ensures
        o <= first_order(lists, o) <= 12,
        forall|k: int| o <= k < first_order(lists, o) ==> #[trigger] lists[k].len() == 0,
        first_order(lists, o) < 12 ==> lists[first_order(lists, o)].len() > 0,
    decreases 12 - o,
{
    if o < 12 && lists[o].len() == 0 {
        lemma_first_order(lists, o + 1);
    }
}

pub proof fn lemma_alloc_coalesced(lists: Seq<Seq<int>>, order: int)
    requires
        lists.len() == 12,
        distinct(lists),
        coalesced(lists),
        0 <= order < 12,
        first_order(lists, order) < 12,
    ensures
        coalesced(alloc_lists(lists, order)),
{
    let c = first_order(lists, order);
    let f = lists[c][0];
    lemma_first_order(lists, order);
    let l1 = take_block(lists, c, f);
    lemma_split(l1, f, c, order);
    let l2 = alloc_lists(lists, order);
    assert(lists[c].contains(f));
    assert forall|o: int, g: int| 0 <= o < 11 && #[trigger] l2[o].contains(g) implies !l2[o].contains(
        blocks::buddy_of(g, o),
    ) by {
        if order <= o < c {
            assert(lists[o].len() == 0);
            assert(l2[o] =~= seq![f + blocks::pages(o)]);
            blocks::lemma_pages(o);
            assert(g == f + blocks::pages(o));
        } else {
            let b = blocks::buddy_of(g, o);
            assert(lists[o].contains(g)) by {
                let i = l2[o].index_of(g);
                if o == c {
                    let k = lists[c].index_of(f);
                    let j = if i >= k { i + 1 } else { i };
                    assert(lists[o][j] == g);
                } else {
                    assert(lists[o][i] == g);
                }
            }
            if l2[o].contains(b) {
                let i = l2[o].index_of(b);
                if o == c {
                    let k = lists[c].index_of(f);
                    let j = if i >= k { i + 1 } else { i };
                    assert(lists[o][j] == b);
                } else {
                    assert(lists[o][i] == b);
                }
            }
        }
    }
}

pub proof fn lemma_take_coalesced(lists: Seq<Seq<int>>, o: int, f: int)
    requires
        lists.len() == 12,
        coalesced(lists),
        0 <= o < 12,
        lists[o].contains(f),
    ensures
        coalesced(take_block(lists, o, f)),
{
    let l2 = take_block(lists, o, f);
    let k = lists[o].index_of(f);
    assert forall|o2: int, g: int| 0 <= o2 < 11 && l2[o2].contains(g) implies #[trigger] lists[o2].contains(g) by {
        let i = l2[o2].index_of(g);
        let j = if o2 == o && i >= k { i + 1 } else { i };
        assert(lists[o2][j] == g);
    }
    assert forall|o2: int, g: int| 0 <= o2 < 11 && #[trigger] l2[o2].contains(g) implies !l2[o2].contains(
        blocks::buddy_of(g, o2),
    ) by {
        assert(lists[o2].contains(g));
        let b = blocks::buddy_of(g, o2);
        if l2[o2].contains(b) {
            assert(lists[o2].contains(b));
        }
    }
}

pub proof fn lemma_push_coalesced(lists: Seq<Seq<int>>, o: int, f: int)
    requires
        lists.len() == 12,
        coalesced(lists),
        0 <= o < 12,
        0 <= f,
        f % blocks::pages(o) == 0,
        o < 11 ==> !lists[o].contains(blocks::buddy_of(f, o)),
        forall|i: int|
            0 <= i < lists[o].len() ==> 0 <= #[trigger] lists[o][i] && lists[o][i] % blocks::pages(o)
                == 0,
    ensures
        coalesced(push_block(lists, o, f)),
{
    let l2 = push_block(lists, o, f);
    blocks::lemma_buddy(f, o);
    assert forall|o2: int, g: int| 0 <= o2 < 11 && #[trigger] l2[o2].contains(g) implies !l2[o2].contains(
        blocks::buddy_of(g, o2),
    ) by {
        let b = blocks::buddy_of(g, o2);
        let i = l2[o2].index_of(g);
        if o2 != o {
            assert(lists[o2].contains(g));
        } else {
            if i == 0 {
                if l2[o].contains(b) {
                    let j = l2[o].index_of(b);
                    if j > 0 {
                        assert(lists[o][j - 1] == b);
                    }
                }
            } else {
                assert(lists[o][i - 1] == g);
                assert(lists[o].contains(g));
                blocks::lemma_buddy(g, o);
                if l2[o].contains(b) {
                    let j = l2[o].index_of(b);
                    if j == 0 {
                        assert(blocks::buddy_of(f, o) == g);
                    } else {
                        assert(lists[o][j - 1] == b);
                    }
                }
            }
        }
    }
}

pub proof fn lemma_fitting_order_bounds(start: int, count: int, o: int)
    requires
        0 <= o,
        1 <= count,
    ensures
        0 <= fitting_order(start, count, o) <= o,
        1 <= blocks::pages(fitting_order(start, count, o)) <= count,
    decreases o,
{
    blocks::lemma_pages(o);
    if o == 0 {
        vstd::arithmetic::power2::lemma2_to64();
    } else {
        lemma_fitting_order_bounds(start, count, o - 1);
    }
}

/// The order that `add_range` computes is the largest that fits.
pub proof fn lemma_fitting_order(start: u64, count: u64, align: int, size: int, order: int)
    requires
        count > 0,
        start == 0 ==> align == 11,
        start > 0 ==> align == vstd::std_specs::bits::u64_trailing_zeros(start),
        size == 63 - vstd::std_specs::bits::u64_leading_zeros(count),
        order == if align < size {
            if align > 11 {
                11
            } else {
                align
            }
        } else {
            if size > 11 {
                11
            } else {
                size
            }
        },
    ensures
        0 <= order <= 11,
        order == fitting_order(start as int, count as int, 11),
        start as int % blocks::pages(order) == 0,
        blocks::pages(order) <= count,
{
    blocks::lemma_leading_zeros(count, 0);
    if start > 0 {
        blocks::lemma_trailing_zeros(start, 0);
    }
    lemma_fitting_order_from(start, count, align, size, order, 11);
}

proof fn lemma_fitting_order_from(
    start: u64,
    count: u64,
    align: int,
    size: int,
    order: int,
    o: int,
)
    requires
        count > 0,
        start == 0 ==> align == 11,
        start > 0 ==> align == vstd::std_specs::bits::u64_trailing_zeros(start),
        size == 63 - vstd::std_specs::bits::u64_leading_zeros(count),
        0 <= order <= o <= 11,
        order <= align,
        order <= size,
        order == 11 || order == align || order == size,
    ensures
        order == fitting_order(start as int, count as int, o),
        start as int % blocks::pages(order) == 0,
        blocks::pages(order) <= count,
    decreases o,
{
    blocks::lemma_pages(o);
    blocks::lemma_leading_zeros(count, o);
    if start > 0 {
        blocks::lemma_trailing_zeros(start, o);
    } else {
        assert(0int % blocks::pages(o) == 0);
    }
    if o > order {
        lemma_fitting_order_from(start, count, align, size, order, o - 1);
    }
}

/// Freeing the block that an allocation gave restores the free lists exactly,
/// the order within each list included.
pub proof fn law_free_undoes_alloc(lists: Seq<Seq<int>>, order: int)
    requires
        disjoint_blocks(lists),
        coalesced(lists),
        0 <= order < 12,
        first_order(lists, order) < 12,
    ensures
        free_lists_of(alloc_lists(lists, order), alloc_frame_of(lists, order), order) == lists,
{
    lemma_first_order(lists, order);
    let c = first_order(lists, order);
    let f = lists[c][0];
    assert(lists[c].index_of(f) == 0) by {
        let k = lists[c].index_of(f);
        assert(lists[c].contains(f));
        blocks::lemma_pages(c);
        assert(block_holds(lists, c, 0, f));
        assert(block_holds(lists, c, k, f));
    }
    let l1 = take_block(lists, c, f);
    lemma_split(l1, f, c, order);
    assert(l1 == lists.update(c, lists[c].remove(0)));
    lemma_rejoin(lists, l1, alloc_lists(lists, order), f, order, c);
}

/// Joining the halves from order `o` up to `c` again.
proof fn lemma_rejoin(
    lists: Seq<Seq<int>>,
    l1: Seq<Seq<int>>,
    now: Seq<Seq<int>>,
    f: int,
    o: int,
    c: int,
)
    requires
        disjoint_blocks(lists),
        coalesced(lists),
        0 <= o <= c < 12,
        lists[c].len() > 0,
        f == lists[c][0],
        l1 == lists.update(c, lists[c].remove(0)),
        forall|k: int| o <= k < c ==> #[trigger] lists[k].len() == 0,
        now.len() == 12,
        forall|k: int|
            0 <= k < 12 ==> #[trigger] now[k] == if o <= k < c {
                seq![f + blocks::pages(k)] + l1[k]
            } else {
                l1[k]
            },
    ensures
        free_lists_of(now, f, o) == lists,
    decreases c - o,
{
    blocks::lemma_align_down(f, o, c);
    if o == c {
        assert(now =~= l1);
        if c < 11 {
            let b = blocks::buddy_of(f, c);
            assert(lists[c].contains(f));
            assert(!lists[c].contains(b));
            assert(!now[c].contains(b)) by {
                if now[c].contains(b) {
                    let i = now[c].index_of(b);
                    assert(lists[c][i + 1] == b);
                }
            }
        }
        assert(seq![f] + lists[c].remove(0) =~= lists[c]);
        assert(push_block(now, c, f) =~= lists);
    } else {
        blocks::lemma_align_down(f, o + 1, c);
        blocks::lemma_halves(f, o);
        let b = f + blocks::pages(o);
        assert(lists[o].len() == 0);
        assert(now[o] =~= seq![b]);
        assert(now[o][0] == b);
        assert(now[o].contains(b));
        let next = take_block(now, o, b);
        assert(next[o] =~= Seq::<int>::empty());
        assert(l1[o] =~= Seq::<int>::empty());
        lemma_rejoin(lists, l1, next, f, o + 1, c);
    }
}

/// The set of free frames alone fixes which blocks are free: no other set of
/// joined-up blocks covers the same frames.
pub proof fn law_blocks_fixed_by_frames(a: Seq<Seq<int>>, b: Seq<Seq<int>>)
    requires
        disjoint_blocks(a),
        disjoint_blocks(b),
        coalesced(a),
        coalesced(b),
        forall|g: int| covers(a, g) <==> covers(b, g),
    ensures
        forall|o: int, f: int| 0 <= o < 12 ==> (a[o].contains(f) <==> b[o].contains(f)),
{
    assert forall|o: int, f: int| 0 <= o < 12 implies (a[o].contains(f) <==> b[o].contains(f)) by {
        if a[o].contains(f) {
            lemma_block_in_both(a, b, o, f);
        }
        if b[o].contains(f) {
            lemma_block_in_both(b, a, o, f);
        }
    }
}

/// A larger block that holds a smaller free block is not free throughout:
/// otherwise some block in there would have a free buddy.
proof fn lemma_gap(a: Seq<Seq<int>>, o: int, f: int, big: int, s: int) -> (gap: int)
    requires
        disjoint_blocks(a),
        coalesced(a),
        0 <= o < big < 12,
        a[o].contains(f),
        0 <= s,
        s % blocks::pages(big) == 0,
        s <= f,
        f + blocks::pages(o) <= s + blocks::pages(big),
    ensures
        s <= gap < s + blocks::pages(big),
        !covers(a, gap),
    decreases o,
{
    let i = a[o].index_of(f);
    let b = blocks::buddy_of(f, o);
    blocks::lemma_pages(o);
    assert(a[o][i] == f);
    assert(f % blocks::pages(o) == 0);
    blocks::lemma_buddy(f, o);
    let p = blocks::parent_of(f, o);
    blocks::lemma_block_nested(p, s, o + 1, big);
    assert(s <= b < s + blocks::pages(big));
    let (o2, j) = choose|o2: int, j: int| #[trigger] block_holds(a, o2, j, b);
    let t = a[o2][j];
    if covers(a, b) {
        blocks::lemma_pages(o2);
        assert(a[o2].contains(t));
    }
    if !covers(a, b) {
        b
    } else if o2 == o {
        blocks::lemma_aligned_meet(t, b, blocks::pages(o));
        assert(a[o].contains(b));
        b
    } else if o2 > o {
        blocks::lemma_block_nested(b, t, o, o2);
        blocks::lemma_block_nested(p, t, o + 1, o2);
        assert(block_holds(a, o2, j, f));
        assert(block_holds(a, o, i, f));
        b
    } else {
        blocks::lemma_block_nested(t, b, o2, o);
        lemma_gap(a, o2, t, big, s)
    }
}

proof fn lemma_block_in_both(a: Seq<Seq<int>>, b: Seq<Seq<int>>, o: int, f: int)
    requires
        disjoint_blocks(a),
        disjoint_blocks(b),
        coalesced(a),
        coalesced(b),
        forall|g: int| covers(a, g) <==> covers(b, g),
        0 <= o < 12,
        a[o].contains(f),
    ensures
        b[o].contains(f),
{
    let i = a[o].index_of(f);
    blocks::lemma_pages(o);
    assert(a[o][i] == f);
    assert(block_holds(a, o, i, f));
    assert(covers(b, f));
    let (o2, j) = choose|o2: int, j: int| #[trigger] block_holds(b, o2, j, f);
    let t = b[o2][j];
    blocks::lemma_pages(o2);
    assert(b[o2].contains(t));
    if o2 == o {
        blocks::lemma_aligned_meet(t, f, blocks::pages(o));
    } else if o2 > o {
        blocks::lemma_block_nested(f, t, o, o2);
        let g = lemma_gap(a, o, f, o2, t);
        assert(block_holds(b, o2, j, g));
    } else {
        blocks::lemma_block_nested(t, f, o2, o);
        let g = lemma_gap(b, o2, t, o, f);
        assert(block_holds(a, o, i, g));
    }
}
/// The frames from `s` on form a free run of an order, aligned to its size.
pub open spec fn free_run(lists: Seq<Seq<int>>, s: int, order: int) -> bool {
    &&& 0 <= s
    &&& s % blocks::pages(order) == 0
    &&& forall|g: int| s <= g < s + blocks::pages(order) ==> #[trigger] covers(lists, g)
}

/// A free run lies in one block.
pub proof fn lemma_run_in_block(lists: Seq<Seq<int>>, s: int, order: int) -> (found: (int, int))
    requires
        disjoint_blocks(lists),
        coalesced(lists),
        0 <= order < 12,
        free_run(lists, s, order),
    ensures
        order <= found.0 < 12,
        0 <= found.1 < lists[found.0].len(),
        lists[found.0][found.1] <= s,
        s + blocks::pages(order) <= lists[found.0][found.1] + blocks::pages(found.0),
{
    blocks::lemma_pages(order);
    assert(covers(lists, s));
    let (o, i) = choose|o: int, i: int| #[trigger] block_holds(lists, o, i, s);
    let f = lists[o][i];
    assert(lists[o].contains(f));
    if o < order {
        blocks::lemma_block_nested(f, s, o, order);
        let gap = lemma_gap(lists, o, f, order, s);
        assert(covers(lists, gap));
    } else {
        blocks::lemma_block_nested(s, f, order, o);
    }
    (o, i)
}

/// An allocation fails exactly when no aligned run of its size is free.
pub proof fn law_alloc_fails_iff_no_run(lists: Seq<Seq<int>>, order: int)
    requires
        disjoint_blocks(lists),
        coalesced(lists),
        0 <= order < 12,
    ensures
        first_order(lists, order) == 12 <==> !exists|s: int| #[trigger]
            free_run(lists, s, order),
{
    lemma_first_order(lists, order);
    let c = first_order(lists, order);
    if c < 12 {
        let s = lists[c][0];
        blocks::lemma_align_down(s, order, c);
        blocks::lemma_pages_monotonic(order, c);
        assert forall|g: int| s <= g < s + blocks::pages(order) implies #[trigger] covers(
            lists,
            g,
        ) by {
            assert(block_holds(lists, c, 0, g));
        }
        assert(free_run(lists, s, order));
    }
    if exists|s: int| #[trigger] free_run(lists, s, order) {
        let s = choose|s: int| #[trigger] free_run(lists, s, order);
        let (o, _) = lemma_run_in_block(lists, s, order);
        assert(lists[o].len() > 0);
    }
}

} // verus!
