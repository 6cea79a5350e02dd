//! Copies of page-table trees.
use vstd::prelude::*;

use crate::mm::addr::PAddr;
use crate::mm::blocks;
use crate::mm::entry;
use crate::mm::free_lists;
use crate::mm::pmm::Pmm;
use crate::mm::tables;
use crate::mm::vmm;

verus! {

/// The table in a frame is the same in both memories.
pub open spec fn table_same(mem: Seq<u64>, mem2: Seq<u64>, t: int) -> bool {
    forall|j: int| 0 <= j < 512 ==> #[trigger] mem2[t * 512 + j] == mem[t * 512 + j]
}

/// All tables from one down are the same in both memories.
pub open spec fn subtree_same(mem: Seq<u64>, mem2: Seq<u64>, f: int, level: int) -> bool {
    forall|p: Seq<int>|
        #![trigger tables::node(mem, f, level, p)]
        tables::node(mem, f, level, p) matches Some(t) ==> table_same(mem, mem2, t)
}

/// The frame is the table `f` or one below it.
pub open spec fn in_subtree(mem: Seq<u64>, f: int, level: int, frame: int) -> bool {
    exists|p: Seq<int>| #[trigger] tables::node(mem, f, level, p) == Some(frame)
}

/// All tables from one down lie in the memory and none of them is free.
pub open spec fn subtree_ok(mem: Seq<u64>, f: int, level: int, lists: Seq<Seq<int>>) -> bool {
    forall|p: Seq<int>|
        #![trigger tables::node(mem, f, level, p)]
        tables::node(mem, f, level, p) matches Some(t) ==> {
            &&& 0 <= t
            &&& t * 512 + 512 <= mem.len()
            &&& !free_lists::covers(lists, t)
        }
}

/// No frame is a table twice.
pub open spec fn subtree_distinct(mem: Seq<u64>, f: int, level: int) -> bool {
    forall|p: Seq<int>, q: Seq<int>|
        #![trigger tables::node(mem, f, level, p), tables::node(mem, f, level, q)]
        tables::node(mem, f, level, p) is Some && tables::node(mem, f, level, p) == tables::node(
            mem,
            f,
            level,
            q,
        ) ==> p == q
}

/// Number of tables below the first `i` entries of a table.
pub open spec fn tables_below(mem: Seq<u64>, f: int, level: int, i: int) -> int
    decreases level, i,
{
    if i <= 0 {
        0
    } else {
        let e = mem[f * 512 + (i - 1)];
        tables_below(mem, f, level, i - 1) + if entry::is_dir(e, level) {
            1 + tables_below(mem, entry::entry_frame(e), level - 1, 512)
        } else {
            0
        }
    }
}

/// Entry `j` of a table.
pub open spec fn slot(mem: Seq<u64>, t: int, j: int) -> u64 {
    mem[t * 512 + j]
}

/// The free blocks when the table that entry `j` of the table `f` refers to is
/// about to be copied, where `lists` are those before the table `f` was: a table
/// is copied before those that its entries refer to, which are copied in their
/// order.
pub open spec fn child_lists(
    lists: Seq<Seq<int>>,
    mem: Seq<u64>,
    f: int,
    level: int,
    j: int,
) -> Seq<Seq<int>> {
    vmm::alloc_frames(lists, 1 + tables_below(mem, f, level, j))
}

/// The table `d` of one memory is a copy of the table `f` of another: entries
/// that are not used are zero, those that map a page are the same, and those
/// that refer to a table refer to a copy of that table with the same flags, in
/// the frame that the allocator gave out for it.
pub open spec fn copied(
    mem2: Seq<u64>,
    d: int,
    mem: Seq<u64>,
    f: int,
    level: int,
    lists: Seq<Seq<int>>,
) -> bool
    decreases level,
{
    forall|j: int|
        #![trigger slot(mem2, d, j)]
        0 <= j < 512 ==> {
            let e = slot(mem, f, j);
            let e2 = slot(mem2, d, j);
            if entry::is_dir(e, level) {
                &&& entry::is_dir(e2, level)
                &&& e2 == entry::entry_addr(e2) | (e & !entry::ENTRY_ADDR_MASK)
                &&& entry::entry_frame(e2) == free_lists::alloc_frame_of(
                    child_lists(lists, mem, f, level, j),
                    0,
                )
                &&& copied(
                    mem2,
                    entry::entry_frame(e2),
                    mem,
                    entry::entry_frame(e),
                    level - 1,
                    child_lists(lists, mem, f, level, j),
                )
            } else if entry::present(e) {
                e2 == e
            } else {
                e2 == 0
            }
        }
}

/// Entry `j` of the table `d` is a copy of that of the table `f`.
pub open spec fn entry_copied(
    mem2: Seq<u64>,
    d: int,
    mem: Seq<u64>,
    f: int,
    level: int,
    lists: Seq<Seq<int>>,
    j: int,
) -> bool {
    let e = mem[f * 512 + j];
    let e2 = mem2[d * 512 + j];
    if entry::is_dir(e, level) {
        &&& entry::is_dir(e2, level)
        &&& e2 == entry::entry_addr(e2) | (e & !entry::ENTRY_ADDR_MASK)
        &&& entry::entry_frame(e2) == free_lists::alloc_frame_of(
            child_lists(lists, mem, f, level, j),
            0,
        )
        &&& copied(
            mem2,
            entry::entry_frame(e2),
            mem,
            entry::entry_frame(e),
            level - 1,
            child_lists(lists, mem, f, level, j),
        )
    } else if entry::present(e) {
        e2 == e
    } else {
        e2 == 0
    }
}

proof fn lemma_copied_entries(
    mem2: Seq<u64>,
    d: int,
    mem: Seq<u64>,
    f: int,
    level: int,
    lists: Seq<Seq<int>>,
)
    ensures
        copied(mem2, d, mem, f, level, lists) <==> forall|j: int|
            0 <= j < 512 ==> #[trigger] entry_copied(mem2, d, mem, f, level, lists, j),
{
    if copied(mem2, d, mem, f, level, lists) {
        assert forall|j: int| 0 <= j < 512 implies #[trigger] entry_copied(
            mem2,
            d,
            mem,
            f,
            level,
            lists,
            j,
        ) by {
            let _ = slot(mem2, d, j);
        }
    }
    if forall|j: int| 0 <= j < 512 ==> #[trigger] entry_copied(mem2, d, mem, f, level, lists, j) {
        assert forall|j: int|
            #![trigger slot(mem2, d, j)]
            0 <= j < 512 implies {
            let e = slot(mem, f, j);
            let e2 = slot(mem2, d, j);
            if entry::is_dir(e, level) {
                &&& entry::is_dir(e2, level)
                &&& e2 == entry::entry_addr(e2) | (e & !entry::ENTRY_ADDR_MASK)
                &&& entry::entry_frame(e2) == free_lists::alloc_frame_of(
                    child_lists(lists, mem, f, level, j),
                    0,
                )
                &&& copied(
                    mem2,
                    entry::entry_frame(e2),
                    mem,
                    entry::entry_frame(e),
                    level - 1,
                    child_lists(lists, mem, f, level, j),
                )
            } else if entry::present(e) {
                e2 == e
            } else {
                e2 == 0
            }
        } by {
            assert(entry_copied(mem2, d, mem, f, level, lists, j));
        }
    }
}

/// The free blocks after single frames were freed in their order.
pub open spec fn free_all(lists: Seq<Seq<int>>, frames: Seq<int>) -> Seq<Seq<int>>
    decreases frames.len(),
{
    if frames.len() == 0 {
        lists
    } else {
        free_lists::free_lists_of(free_all(lists, frames.drop_last()), frames.last(), 0)
    }
}

/// The tables below the first `i` entries of a table, in their order, each
/// after those below it.
pub open spec fn tables_in_order(mem: Seq<u64>, f: int, level: int, i: int) -> Seq<int>
    decreases level, i,
{
    if i <= 0 {
        Seq::empty()
    } else {
        let e = mem[f * 512 + (i - 1)];
        tables_in_order(mem, f, level, i - 1) + if entry::is_dir(e, level) {
            let c = entry::entry_frame(e);
            tables_in_order(mem, c, level - 1, 512).push(c)
        } else {
            Seq::empty()
        }
    }
}

/// The copies of the tables below the first `i` entries of a table, in the same
/// order.
pub open spec fn copies_in_order(
    mem: Seq<u64>,
    f: int,
    level: int,
    lists: Seq<Seq<int>>,
    i: int,
) -> Seq<int>
    decreases level, i,
{
    if i <= 0 {
        Seq::empty()
    } else {
        let e = mem[f * 512 + (i - 1)];
        copies_in_order(mem, f, level, lists, i - 1) + if entry::is_dir(e, level) {
            let lc = child_lists(lists, mem, f, level, i - 1);
            copies_in_order(mem, entry::entry_frame(e), level - 1, lc, 512).push(
                free_lists::alloc_frame_of(lc, 0),
            )
        } else {
            Seq::empty()
        }
    }
}

/// The first entry from `i` on whose tables cannot all be copied, where there
/// are `free` frames for the table and all below it.
pub open spec fn failing_entry(mem: Seq<u64>, f: int, level: int, free: int, i: int) -> int
    decreases 512 - i,
{
    if i >= 512 || (entry::is_dir(mem[f * 512 + i], level) && 1 + tables_below(
        mem,
        f,
        level,
        i + 1,
    ) > free) {
        i
    } else {
        failing_entry(mem, f, level, free, i + 1)
    }
}

/// The frames that are freed, in their order, after all `free` frames were
/// taken for copies and there are more tables to copy.
pub open spec fn given_back(
    mem: Seq<u64>,
    f: int,
    level: int,
    lists: Seq<Seq<int>>,
    free: int,
) -> Seq<int>
    decreases level,
{
    if free <= 0 || level <= 0 {
        Seq::empty()
    } else {
        let i = failing_entry(mem, f, level, free, 0);
        given_back(
            mem,
            entry::entry_frame(mem[f * 512 + i]),
            level - 1,
            child_lists(lists, mem, f, level, i),
            free - 1 - tables_below(mem, f, level, i),
        ) + copies_in_order(mem, f, level, lists, i).push(free_lists::alloc_frame_of(lists, 0))
    }
}

/// Frames can be freed in two steps.
proof fn lemma_free_all_add(lists: Seq<Seq<int>>, a: Seq<int>, b: Seq<int>)
    ensures
        free_all(lists, a + b) == free_all(free_all(lists, a), b),
    decreases b.len(),
{
    if b.len() == 0 {
        assert(a + b =~= a);
    } else {
        assert((a + b).drop_last() =~= a + b.drop_last());
        assert((a + b).last() == b.last());
        lemma_free_all_add(lists, a, b.drop_last());
    }
}

/// What lies below an entry lies below its table.
proof fn lemma_child(mem: Seq<u64>, f: int, level: int, j: int, p: Seq<int>)
    requires
        0 <= j < 512,
        entry::is_dir(mem[f * 512 + j], level),
    ensures
        tables::node(mem, f, level, seq![j] + p) == tables::node(
            mem,
            entry::entry_frame(mem[f * 512 + j]),
            level - 1,
            p,
        ),
{
    let q = seq![j] + p;
    assert(q[0] == j);
    assert(q.drop_first() =~= p);
}

/// A table other than the first lies below one of its entries.
proof fn lemma_parent(mem: Seq<u64>, f: int, level: int, p: Seq<int>)
    requires
        p.len() > 0,
        tables::node(mem, f, level, p) is Some,
    ensures
        0 <= p[0] < 512,
        entry::is_dir(mem[f * 512 + p[0]], level),
        tables::node(mem, f, level, p) == tables::node(
            mem,
            entry::entry_frame(mem[f * 512 + p[0]]),
            level - 1,
            p.drop_first(),
        ),
        p == seq![p[0]] + p.drop_first(),
{
    assert(p =~= seq![p[0]] + p.drop_first());
}

proof fn lemma_child_same(mem: Seq<u64>, mem2: Seq<u64>, f: int, level: int, j: int)
    requires
        subtree_same(mem, mem2, f, level),
        0 <= j < 512,
    ensures
        mem2[f * 512 + j] == mem[f * 512 + j],
        entry::is_dir(mem[f * 512 + j], level) ==> subtree_same(
            mem,
            mem2,
            entry::entry_frame(mem[f * 512 + j]),
            level - 1,
        ),
{
    assert(tables::node(mem, f, level, Seq::empty()) == Some(f));
    assert(table_same(mem, mem2, f));
    if entry::is_dir(mem[f * 512 + j], level) {
        let c = entry::entry_frame(mem[f * 512 + j]);
        assert forall|p: Seq<int>|
            #![trigger tables::node(mem, c, level - 1, p)]
            tables::node(mem, c, level - 1, p) matches Some(t) ==> table_same(mem, mem2, t) by {
            lemma_child(mem, f, level, j, p);
            let _ = tables::node(mem, f, level, seq![j] + p);
        }
    }
}

/// Where all tables are the same, so is what they say.
proof fn lemma_node_same(mem: Seq<u64>, mem2: Seq<u64>, f: int, level: int, p: Seq<int>)
    requires
        subtree_same(mem, mem2, f, level),
    ensures
        tables::node(mem2, f, level, p) == tables::node(mem, f, level, p),
    decreases p.len(),
{
    if p.len() > 0 && 0 <= p[0] < 512 {
        lemma_child_same(mem, mem2, f, level, p[0]);
        let e = mem[f * 512 + p[0]];
        if entry::is_dir(e, level) {
            lemma_node_same(mem, mem2, entry::entry_frame(e), level - 1, p.drop_first());
        }
    }
}

/// Where all tables are the same, so are their frames.
pub proof fn lemma_subtree_same(
    mem: Seq<u64>,
    mem2: Seq<u64>,
    f: int,
    level: int,
    lists: Seq<Seq<int>>,
)
    requires
        subtree_same(mem, mem2, f, level),
        mem2.len() == mem.len(),
    ensures
        forall|p: Seq<int>| #[trigger] tables::node(mem2, f, level, p) == tables::node(
            mem,
            f,
            level,
            p,
        ),
        subtree_ok(mem, f, level, lists) ==> subtree_ok(mem2, f, level, lists),
        subtree_distinct(mem, f, level) ==> subtree_distinct(mem2, f, level),
        forall|g: int| #[trigger] in_subtree(mem2, f, level, g) == in_subtree(mem, f, level, g),
{
    assert forall|p: Seq<int>| #[trigger] tables::node(mem2, f, level, p) == tables::node(
        mem,
        f,
        level,
        p,
    ) by {
        lemma_node_same(mem, mem2, f, level, p);
    }
    assert forall|g: int| #[trigger] in_subtree(mem2, f, level, g) == in_subtree(
        mem,
        f,
        level,
        g,
    ) by {
        if in_subtree(mem2, f, level, g) {
            let p = choose|p: Seq<int>| #[trigger] tables::node(mem2, f, level, p) == Some(g);
            assert(tables::node(mem, f, level, p) == Some(g));
        }
        if in_subtree(mem, f, level, g) {
            let p = choose|p: Seq<int>| #[trigger] tables::node(mem, f, level, p) == Some(g);
            assert(tables::node(mem2, f, level, p) == Some(g));
        }
    }
}

/// The number of tables depends on the tables only.
pub proof fn lemma_count_same(mem: Seq<u64>, mem2: Seq<u64>, f: int, level: int, i: int)
    requires
        subtree_same(mem, mem2, f, level),
        i <= 512,
    ensures
        tables_below(mem2, f, level, i) == tables_below(mem, f, level, i),
    decreases level, i,
{
    if i > 0 {
        lemma_count_same(mem, mem2, f, level, i - 1);
        lemma_child_same(mem, mem2, f, level, i - 1);
        let e = mem[f * 512 + (i - 1)];
        if entry::is_dir(e, level) {
            lemma_count_same(mem, mem2, entry::entry_frame(e), level - 1, 512);
        }
    }
}

/// The order of the tables depends on the tables only.
proof fn lemma_order_same(mem: Seq<u64>, mem2: Seq<u64>, f: int, level: int, i: int)
    requires
        subtree_same(mem, mem2, f, level),
        i <= 512,
    ensures
        tables_in_order(mem2, f, level, i) == tables_in_order(mem, f, level, i),
    decreases level, i,
{
    if i > 0 {
        lemma_order_same(mem, mem2, f, level, i - 1);
        lemma_child_same(mem, mem2, f, level, i - 1);
        let e = mem[f * 512 + (i - 1)];
        if entry::is_dir(e, level) {
            lemma_order_same(mem, mem2, entry::entry_frame(e), level - 1, 512);
        }
    }
}

/// So does that of their copies.
proof fn lemma_copies_same(
    mem: Seq<u64>,
    mem2: Seq<u64>,
    f: int,
    level: int,
    lists: Seq<Seq<int>>,
    i: int,
)
    requires
        subtree_same(mem, mem2, f, level),
        i <= 512,
    ensures
        copies_in_order(mem2, f, level, lists, i) == copies_in_order(mem, f, level, lists, i),
    decreases level, i,
{
    if i > 0 {
        lemma_copies_same(mem, mem2, f, level, lists, i - 1);
        lemma_child_same(mem, mem2, f, level, i - 1);
        lemma_count_same(mem, mem2, f, level, i - 1);
        let e = mem[f * 512 + (i - 1)];
        if entry::is_dir(e, level) {
            let lc = child_lists(lists, mem, f, level, i - 1);
            lemma_copies_same(mem, mem2, entry::entry_frame(e), level - 1, lc, 512);
        }
    }
}

proof fn lemma_failing_same(
    mem: Seq<u64>,
    mem2: Seq<u64>,
    f: int,
    level: int,
    free: int,
    i: int,
)
    requires
        subtree_same(mem, mem2, f, level),
        0 <= i,
    ensures
        failing_entry(mem2, f, level, free, i) == failing_entry(mem, f, level, free, i),
        i <= failing_entry(mem, f, level, free, i),
        i <= 512 ==> failing_entry(mem, f, level, free, i) <= 512,
    decreases 512 - i,
{
    if i < 512 {
        lemma_child_same(mem, mem2, f, level, i);
        lemma_count_same(mem, mem2, f, level, i + 1);
        lemma_failing_same(mem, mem2, f, level, free, i + 1);
    }
}

/// Which frames are given back depends on the tables only.
pub proof fn lemma_given_back_same(
    mem: Seq<u64>,
    mem2: Seq<u64>,
    f: int,
    level: int,
    lists: Seq<Seq<int>>,
    free: int,
)
    requires
        subtree_same(mem, mem2, f, level),
        free < 1 + tables_below(mem, f, level, 512),
    ensures
        given_back(mem2, f, level, lists, free) == given_back(mem, f, level, lists, free),
    decreases level,
{
    if free > 0 && level > 0 {
        let i = failing_entry(mem, f, level, free, 0);
        lemma_failing_same(mem, mem2, f, level, free, 0);
        lemma_fails(mem, f, level, free, 0);
        lemma_child_same(mem, mem2, f, level, i);
        lemma_count_same(mem, mem2, f, level, i);
        lemma_copies_same(mem, mem2, f, level, lists, i);
        let e = mem[f * 512 + i];
        lemma_given_back_same(
            mem,
            mem2,
            entry::entry_frame(e),
            level - 1,
            child_lists(lists, mem, f, level, i),
            free - 1 - tables_below(mem, f, level, i),
        );
    }
}

/// Where not all tables can be copied, there is an entry at which that shows.
proof fn lemma_fails(mem: Seq<u64>, f: int, level: int, free: int, i: int)
    requires
        0 <= i <= 512,
        free < 1 + tables_below(mem, f, level, 512),
        1 + tables_below(mem, f, level, i) <= free,
    ensures
        ({
            let k = failing_entry(mem, f, level, free, i);
            &&& i <= k < 512
            &&& entry::is_dir(mem[f * 512 + k], level)
            &&& 1 + tables_below(mem, f, level, k) <= free
            &&& 1 + tables_below(mem, f, level, k + 1) > free
        }),
    decreases 512 - i,
{
    if i < 512 && !(entry::is_dir(mem[f * 512 + i], level) && 1 + tables_below(
        mem,
        f,
        level,
        i + 1,
    ) > free) {
        lemma_fails(mem, f, level, free, i + 1);
    }
}

proof fn lemma_count_grows(mem: Seq<u64>, f: int, level: int, i: int, n: int)
    requires
        i <= n,
    ensures
        0 <= tables_below(mem, f, level, i) <= tables_below(mem, f, level, n),
    decreases level, n,
{
    if n > 0 {
        let e = mem[f * 512 + (n - 1)];
        if entry::is_dir(e, level) {
            lemma_count_grows(mem, entry::entry_frame(e), level - 1, 0, 512);
        }
        if i < n {
            lemma_count_grows(mem, f, level, i, n - 1);
        } else {
            lemma_count_grows(mem, f, level, n - 1, n - 1);
        }
    }
}

/// A copy stays one where neither its tables nor those it was made of change.
pub proof fn lemma_copied_same(
    mem2: Seq<u64>,
    mem3: Seq<u64>,
    d: int,
    mem: Seq<u64>,
    mem1: Seq<u64>,
    f: int,
    level: int,
    lists: Seq<Seq<int>>,
)
    requires
        copied(mem2, d, mem, f, level, lists),
        subtree_same(mem2, mem3, d, level),
        subtree_same(mem, mem1, f, level),
    ensures
        copied(mem3, d, mem1, f, level, lists),
    decreases level,
{
    lemma_copied_entries(mem2, d, mem, f, level, lists);
    lemma_copied_entries(mem3, d, mem1, f, level, lists);
    assert forall|j: int| 0 <= j < 512 implies #[trigger] entry_copied(
        mem3,
        d,
        mem1,
        f,
        level,
        lists,
        j,
    ) by {
        lemma_count_same(mem, mem1, f, level, j);
        assert(entry_copied(mem2, d, mem, f, level, lists, j));
        lemma_child_same(mem2, mem3, d, level, j);
        lemma_child_same(mem, mem1, f, level, j);
        let e = mem[f * 512 + j];
        let e2 = mem2[d * 512 + j];
        if entry::is_dir(e, level) {
            lemma_copied_same(
                mem2,
                mem3,
                entry::entry_frame(e2),
                mem,
                mem1,
                entry::entry_frame(e),
                level - 1,
                child_lists(lists, mem, f, level, j),
            );
        }
    }
}

/// A copy has tables at the same paths and maps the same pages.
pub proof fn lemma_copied_paths(
    mem2: Seq<u64>,
    d: int,
    mem: Seq<u64>,
    f: int,
    level: int,
    lists: Seq<Seq<int>>,
    p: Seq<int>,
)
    requires
        copied(mem2, d, mem, f, level, lists),
    ensures
        tables::node(mem2, d, level, p) is Some <==> tables::node(mem, f, level, p) is Some,
        tables::leaf_at(mem2, d, level, p) == tables::leaf_at(mem, f, level, p),
    decreases p.len(),
{
    entry::lemma_zero_entry();
    lemma_copied_entries(mem2, d, mem, f, level, lists);
    if p.len() > 0 && 0 <= p[0] < 512 {
        assert(entry_copied(mem2, d, mem, f, level, lists, p[0]));
        let e = mem[f * 512 + p[0]];
        let e2 = mem2[d * 512 + p[0]];
        if p.len() == 1 {
            assert(p.drop_last() =~= Seq::empty());
            assert(p.drop_first() =~= Seq::empty());
        } else {
            assert(p.drop_last()[0] == p[0]);
            assert(p.drop_last().drop_first() =~= p.drop_first().drop_last());
        }
        if entry::is_dir(e, level) {
            lemma_copied_paths(
                mem2,
                entry::entry_frame(e2),
                mem,
                entry::entry_frame(e),
                level - 1,
                child_lists(lists, mem, f, level, p[0]),
                p.drop_first(),
            );
        }
    } else if p.len() > 0 {
        if p.len() == 1 {
            assert(p.last() == p[0]);
        } else {
            assert(p.drop_last()[0] == p[0]);
        }
    }
}

/// A copy has as many tables.
proof fn lemma_copied_count(
    mem2: Seq<u64>,
    d: int,
    mem: Seq<u64>,
    f: int,
    level: int,
    lists: Seq<Seq<int>>,
    i: int,
    n: int,
)
    requires
        0 <= i <= n,
        forall|j: int| 0 <= j < i ==> #[trigger] entry_copied(mem2, d, mem, f, level, lists, j),
        forall|j: int| i <= j < n ==> #[trigger] mem2[d * 512 + j] == 0,
        n <= 512,
    ensures
        tables_below(mem2, d, level, n) == tables_below(mem, f, level, i),
    decreases level, n,
{
    entry::lemma_zero_entry();
    if n > i {
        assert(mem2[d * 512 + (n - 1)] == 0);
        lemma_copied_count(mem2, d, mem, f, level, lists, i, n - 1);
    } else if n > 0 {
        lemma_copied_count(mem2, d, mem, f, level, lists, i - 1, n - 1);
        assert(entry_copied(mem2, d, mem, f, level, lists, n - 1));
        let e = mem[f * 512 + (n - 1)];
        let e2 = mem2[d * 512 + (n - 1)];
        if entry::is_dir(e, level) {
            let c = entry::entry_frame(e);
            let c2 = entry::entry_frame(e2);
            let lc = child_lists(lists, mem, f, level, n - 1);
            lemma_copied_entries(mem2, c2, mem, c, level - 1, lc);
            lemma_copied_count(mem2, c2, mem, c, level - 1, lc, 512, 512);
        }
    }
}

/// The tables of a copy are the copies of the tables.
proof fn lemma_copied_order(
    mem2: Seq<u64>,
    d: int,
    mem: Seq<u64>,
    f: int,
    level: int,
    lists: Seq<Seq<int>>,
    i: int,
    n: int,
)
    requires
        0 <= i <= n,
        forall|j: int| 0 <= j < i ==> #[trigger] entry_copied(mem2, d, mem, f, level, lists, j),
        forall|j: int| i <= j < n ==> #[trigger] mem2[d * 512 + j] == 0,
        n <= 512,
    ensures
        tables_in_order(mem2, d, level, n) == copies_in_order(mem, f, level, lists, i),
    decreases level, n,
{
    entry::lemma_zero_entry();
    if n > i {
        assert(mem2[d * 512 + (n - 1)] == 0);
        lemma_copied_order(mem2, d, mem, f, level, lists, i, n - 1);
        assert(tables_in_order(mem2, d, level, n) =~= tables_in_order(mem2, d, level, n - 1));
    } else if n > 0 {
        lemma_copied_order(mem2, d, mem, f, level, lists, i - 1, n - 1);
        assert(entry_copied(mem2, d, mem, f, level, lists, n - 1));
        let e = mem[f * 512 + (n - 1)];
        let e2 = mem2[d * 512 + (n - 1)];
        if entry::is_dir(e, level) {
            let c = entry::entry_frame(e);
            let c2 = entry::entry_frame(e2);
            let lc = child_lists(lists, mem, f, level, n - 1);
            lemma_copied_entries(mem2, c2, mem, c, level - 1, lc);
            lemma_copied_order(mem2, c2, mem, c, level - 1, lc, 512, 512);
        }
    }
}

/// A write to one table leaves another as it is.
proof fn lemma_other_table(mem: Seq<u64>, d: int, i: int, e: u64, t: int)
    requires
        0 <= i < 512,
        t != d,
        0 <= t,
        t * 512 + 512 <= mem.len(),
        0 <= d,
        d * 512 + 512 <= mem.len(),
    ensures
        table_same(mem, mem.update(d * 512 + i, e), t),
{
}

/// An unused entry of a table is written; where it then refers to a table,
/// that one and those below it come in.
proof fn lemma_attach(
    mem: Seq<u64>,
    d: int,
    level: int,
    i: int,
    e: u64,
    lists: Seq<Seq<int>>,
)
    requires
        subtree_distinct(mem, d, level),
        subtree_ok(mem, d, level, lists),
        0 <= i < 512,
        !entry::present(mem[d * 512 + i]),
        entry::is_dir(e, level) ==> {
            let c = entry::entry_frame(e);
            &&& subtree_distinct(mem, c, level - 1)
            &&& subtree_ok(mem, c, level - 1, lists)
            &&& forall|x: int| #[trigger]
                in_subtree(mem, c, level - 1, x) ==> !in_subtree(mem, d, level, x)
        },
    ensures
        ({
            let mem2 = mem.update(d * 512 + i, e);
            let c = entry::entry_frame(e);
            &&& forall|p: Seq<int>|
                #![trigger tables::node(mem2, d, level, p)]
                tables::node(mem2, d, level, p) == (if p.len() > 0 && p[0] == i {
                    if entry::is_dir(e, level) {
                        tables::node(mem, c, level - 1, p.drop_first())
                    } else {
                        None
                    }
                } else {
                    tables::node(mem, d, level, p)
                })
            &&& subtree_distinct(mem2, d, level)
            &&& subtree_ok(mem2, d, level, lists)
            &&& forall|x: int| #[trigger]
                in_subtree(mem2, d, level, x) <==> in_subtree(mem, d, level, x) || (entry::is_dir(
                    e,
                    level,
                ) && in_subtree(mem, c, level - 1, x))
            &&& entry::is_dir(e, level) ==> subtree_same(mem, mem2, c, level - 1)
            &&& forall|j: int|
                0 <= j < 512 && j != i && entry::is_dir(#[trigger] slot(mem, d, j), level)
                    ==> subtree_same(
                    mem,
                    mem2,
                    entry::entry_frame(slot(mem, d, j)),
                    level - 1,
                )
        }),
{
    let mem2 = mem.update(d * 512 + i, e);
    let c = entry::entry_frame(e);
    assert(tables::node(mem, d, level, Seq::empty()) == Some(d));
    assert(in_subtree(mem, d, level, d));
    if entry::is_dir(e, level) {
        assert forall|p: Seq<int>|
            #![trigger tables::node(mem, c, level - 1, p)]
            tables::node(mem, c, level - 1, p) matches Some(t) ==> table_same(mem, mem2, t) by {
            if let Some(t) = tables::node(mem, c, level - 1, p) {
                assert(in_subtree(mem, c, level - 1, t));
                assert(t != d);
                lemma_other_table(mem, d, i, e, t);
            }
        }
    }
    assert forall|j: int|
        0 <= j < 512 && j != i && entry::is_dir(#[trigger] slot(mem, d, j), level) implies subtree_same(
        mem,
        mem2,
        entry::entry_frame(slot(mem, d, j)),
        level - 1,
    ) by {
        let cj = entry::entry_frame(slot(mem, d, j));
        assert forall|p: Seq<int>|
            #![trigger tables::node(mem, cj, level - 1, p)]
            tables::node(mem, cj, level - 1, p) matches Some(t) ==> table_same(mem, mem2, t) by {
            if let Some(t) = tables::node(mem, cj, level - 1, p) {
                lemma_child(mem, d, level, j, p);
                let q = seq![j] + p;
                assert(tables::node(mem, d, level, q) == Some(t));
                if t == d {
                    assert(q == Seq::<int>::empty());
                    assert(q.len() > 0);
                }
                lemma_other_table(mem, d, i, e, t);
            }
        }
    }
    assert forall|p: Seq<int>|
        #![trigger tables::node(mem2, d, level, p)]
        tables::node(mem2, d, level, p) == (if p.len() > 0 && p[0] == i {
            if entry::is_dir(e, level) {
                tables::node(mem, c, level - 1, p.drop_first())
            } else {
                None
            }
        } else {
            tables::node(mem, d, level, p)
        }) by {
        if p.len() > 0 && p[0] == i {
            if entry::is_dir(e, level) {
                lemma_node_same(mem, mem2, c, level - 1, p.drop_first());
            }
        } else if p.len() > 0 && 0 <= p[0] < 512 {
            let e1 = slot(mem, d, p[0]);
            assert(mem2[d * 512 + p[0]] == e1);
            if entry::is_dir(e1, level) {
                lemma_node_same(
                    mem,
                    mem2,
                    entry::entry_frame(e1),
                    level - 1,
                    p.drop_first(),
                );
            }
        }
    }
    assert forall|p: Seq<int>, q: Seq<int>|
        #![trigger tables::node(mem2, d, level, p), tables::node(mem2, d, level, q)]
        tables::node(mem2, d, level, p) is Some && tables::node(mem2, d, level, p)
            == tables::node(mem2, d, level, q) implies p == q by {
        let t = tables::node(mem2, d, level, p).unwrap();
        let pi = p.len() > 0 && p[0] == i;
        let qi = q.len() > 0 && q[0] == i;
        if pi && qi {
            assert(p =~= seq![p[0]] + p.drop_first());
            assert(q =~= seq![q[0]] + q.drop_first());
            let _ = tables::node(mem, c, level - 1, p.drop_first());
            let _ = tables::node(mem, c, level - 1, q.drop_first());
        } else if pi {
            assert(in_subtree(mem, c, level - 1, t));
            assert(tables::node(mem, d, level, q) == Some(t));
        } else if qi {
            assert(in_subtree(mem, c, level - 1, t));
            assert(tables::node(mem, d, level, p) == Some(t));
        } else {
            let _ = tables::node(mem, d, level, p);
            let _ = tables::node(mem, d, level, q);
        }
    }
    assert forall|x: int| #[trigger]
        in_subtree(mem2, d, level, x) <==> in_subtree(mem, d, level, x) || (entry::is_dir(
            e,
            level,
        ) && in_subtree(mem, c, level - 1, x)) by {
        if in_subtree(mem2, d, level, x) {
            let p = choose|p: Seq<int>| #[trigger] tables::node(mem2, d, level, p) == Some(x);
            if p.len() > 0 && p[0] == i {
                assert(tables::node(mem, c, level - 1, p.drop_first()) == Some(x));
            } else {
                assert(tables::node(mem, d, level, p) == Some(x));
            }
        }
        if in_subtree(mem, d, level, x) {
            let p = choose|p: Seq<int>| #[trigger] tables::node(mem, d, level, p) == Some(x);
            if p.len() > 0 {
                lemma_parent(mem, d, level, p);
            }
            assert(tables::node(mem2, d, level, p) == Some(x));
        }
        if entry::is_dir(e, level) && in_subtree(mem, c, level - 1, x) {
            let p = choose|p: Seq<int>| #[trigger] tables::node(mem, c, level - 1, p) == Some(x);
            let q = seq![i] + p;
            assert(q[0] == i);
            assert(q.drop_first() =~= p);
            assert(tables::node(mem2, d, level, q) == Some(x));
        }
    }
}

/// The frame is a table below one of the first `i` entries.
spec fn below_first(mem: Seq<u64>, d: int, level: int, i: int, frame: int) -> bool {
    exists|p: Seq<int>| #[trigger]
        tables::node(mem, d, level, p) == Some(frame) && p.len() > 0 && p[0] < i
}

proof fn lemma_below_next(mem: Seq<u64>, d: int, level: int, i: int, frame: int)
    requires
        0 <= i < 512,
    ensures
        below_first(mem, d, level, i + 1, frame) <==> below_first(mem, d, level, i, frame) || (
        entry::is_dir(mem[d * 512 + i], level) && in_subtree(
            mem,
            entry::entry_frame(mem[d * 512 + i]),
            level - 1,
            frame,
        )),
{
    let c = entry::entry_frame(mem[d * 512 + i]);
    if below_first(mem, d, level, i + 1, frame) {
        let p = choose|p: Seq<int>| #[trigger]
            tables::node(mem, d, level, p) == Some(frame) && p.len() > 0 && p[0] < i + 1;
        lemma_parent(mem, d, level, p);
        if p[0] == i {
            assert(tables::node(mem, c, level - 1, p.drop_first()) == Some(frame));
        }
    }
    if below_first(mem, d, level, i, frame) {
        let p = choose|p: Seq<int>| #[trigger]
            tables::node(mem, d, level, p) == Some(frame) && p.len() > 0 && p[0] < i;
        assert(p[0] < i + 1);
    }
    if entry::is_dir(mem[d * 512 + i], level) && in_subtree(mem, c, level - 1, frame) {
        let p = choose|p: Seq<int>| #[trigger] tables::node(mem, c, level - 1, p) == Some(frame);
        lemma_child(mem, d, level, i, p);
        let q = seq![i] + p;
        assert(q[0] == i);
        assert(tables::node(mem, d, level, q) == Some(frame));
    }
}

/// Frees a table and all below it.
fn free_cloned_table(mem: &mut [u64], pmm: &mut Pmm, phys: PAddr, level: u8)
    requires
        old(pmm).wf(old(mem)@),
        phys.0 % 4096 == 0,
        level <= 3,
        subtree_ok(old(mem)@, phys.0 as int / 4096, level as int, old(pmm).lists()),
        subtree_distinct(old(mem)@, phys.0 as int / 4096, level as int),
        old(pmm).hhdm() == 0 ==> !in_subtree(
            old(mem)@,
            phys.0 as int / 4096,
            level as int,
            0,
        ),
    ensures
        final(pmm).wf(final(mem)@),
        final(pmm).total() == old(pmm).total(),
        final(pmm).hhdm() == old(pmm).hhdm(),
        final(pmm).lists() == free_all(
            old(pmm).lists(),
            tables_in_order(old(mem)@, phys.0 as int / 4096, level as int, 512).push(
                phys.0 as int / 4096,
            ),
        ),
        forall|x: int| #[trigger]
            free_lists::covers(final(pmm).lists(), x) <==> free_lists::covers(
                old(pmm).lists(),
                x,
            ) || in_subtree(
                old(mem)@,
                phys.0 as int / 4096,
                level as int,
                x,
            ),
        final(pmm).free_count() == old(pmm).free_count() + 1 + tables_below(
            old(mem)@,
            phys.0 as int / 4096,
            level as int,
            512,
        ),
        final(mem)@.len() == old(mem)@.len(),
        forall|w: int|
            0 <= w < old(mem)@.len() && !final(pmm).is_free(w / 512) ==> #[trigger] final(mem)@[w]
                == old(mem)@[w],
    decreases level,
{
    let ghost d = phys.0 as int / 4096;
    let ghost lv = level as int;
    let ghost mem0 = mem@;
    let mut i: usize = 0;
    proof {
        assert(tables::node(mem0, d, lv, Seq::empty()) == Some(d));
        assert(in_subtree(mem0, d, lv, d));
        blocks::lemma_single();
        pmm.lemma_wf(mem0);
        assert forall|x: int| !below_first(mem0, d, lv, 0, x) by {
            if below_first(mem0, d, lv, 0, x) {
                let p = choose|p: Seq<int>| #[trigger]
                    tables::node(mem0, d, lv, p) == Some(x) && p.len() > 0 && p[0] < 0;
                lemma_parent(mem0, d, lv, p);
            }
        }
    }
    while i < 512
        invariant
            i <= 512,
            level <= 3,
            lv == level,
            d == phys.0 as int / 4096,
            mem0 == old(mem)@,
            mem@.len() == mem0.len(),
            pmm.wf(mem@),
            pmm.total() == old(pmm).total(),
            pmm.hhdm() == old(pmm).hhdm(),
            subtree_ok(mem0, d, lv, old(pmm).lists()),
            subtree_distinct(mem0, d, lv),
            pmm.hhdm() == 0 ==> !in_subtree(mem0, d, lv, 0),
            tables::node(mem0, d, lv, Seq::empty()) == Some(d),
            in_subtree(mem0, d, lv, d),
            forall|x: int| #[trigger]
                free_lists::covers(pmm.lists(), x) <==> free_lists::covers(
                    old(pmm).lists(),
                    x,
                ) || below_first(
                    mem0,
                    d,
                    lv,
                    i as int,
                    x,
                ),
            pmm.free_count() == old(pmm).free_count() + tables_below(mem0, d, lv, i as int),
            pmm.lists() == free_all(old(pmm).lists(), tables_in_order(mem0, d, lv, i as int)),
            forall|w: int|
                0 <= w < mem0.len() && !pmm.is_free(w / 512) ==> #[trigger] mem@[w] == mem0[w],
        decreases 512 - i,
    {
        proof {
            lemma_root_not_below(mem0, d, lv, i as int);
            assert(!old(pmm).is_free(d));
            assert(!pmm.is_free(d));
            assert((d * 512 + i) / 512 == d);
        }
        let e: u64 = vmm::read_entry(mem, phys, i);
        assert(e == mem0[d * 512 + i]);
        let is_leaf: bool = level == 0 || (level <= 2 && e & (1 << 7) != 0);
        proof {
            entry::lemma_leaf_test(e);
            assert forall|x: int| #![auto] below_first(mem0, d, lv, i + 1, x) <==> below_first(
                mem0,
                d,
                lv,
                i as int,
                x,
            ) || (entry::is_dir(e, lv) && in_subtree(
                mem0,
                entry::entry_frame(e),
                lv - 1,
                x,
            )) by {
                lemma_below_next(mem0, d, lv, i as int, x);
            }
        }
        if e & 1 != 0 && !is_leaf {
            let child: PAddr = PAddr(e & entry::ENTRY_ADDR_MASK);
            let ghost c = entry::entry_frame(e);
            let ghost mem1 = mem@;
            proof {
                entry::lemma_address_field(e);
                assert forall|p: Seq<int>|
                    #![trigger tables::node(mem0, c, lv - 1, p)]
                    tables::node(mem0, c, lv - 1, p) matches Some(t) ==> table_same(
                        mem0,
                        mem1,
                        t,
                    ) && !pmm.is_free(t) && 0 <= t && t * 512 + 512 <= mem0.len() by {
                    if let Some(t) = tables::node(mem0, c, lv - 1, p) {
                        lemma_child(mem0, d, lv, i as int, p);
                        lemma_later_not_below(mem0, d, lv, i as int, p, t);
                        assert(!old(pmm).is_free(t));
                        assert(!pmm.is_free(t));
                        assert forall|j: int| 0 <= j < 512 implies #[trigger] mem1[t * 512 + j]
                            == mem0[t * 512 + j] by {
                            assert((t * 512 + j) / 512 == t);
                        }
                    }
                }
                assert forall|p: Seq<int>, q: Seq<int>|
                    #![trigger tables::node(mem0, c, lv - 1, p), tables::node(mem0, c, lv - 1, q)]
                    tables::node(mem0, c, lv - 1, p) is Some && tables::node(mem0, c, lv - 1, p)
                        == tables::node(mem0, c, lv - 1, q) implies p == q by {
                    lemma_child(mem0, d, lv, i as int, p);
                    lemma_child(mem0, d, lv, i as int, q);
                    assert((seq![i as int] + p).drop_first() =~= p);
                    assert((seq![i as int] + q).drop_first() =~= q);
                }
                lemma_subtree_same(mem0, mem1, c, lv - 1, pmm.lists());
                lemma_count_same(mem0, mem1, c, lv - 1, 512);
                lemma_order_same(mem0, mem1, c, lv - 1, 512);
                lemma_free_all_add(
                    old(pmm).lists(),
                    tables_in_order(mem0, d, lv, i as int),
                    tables_in_order(mem0, c, lv - 1, 512).push(c),
                );
                if pmm.hhdm() == 0 && in_subtree(mem1, c, lv - 1, 0) {
                    assert(in_subtree(mem0, c, lv - 1, 0));
                    let p = choose|p: Seq<int>| #[trigger]
                        tables::node(mem0, c, lv - 1, p) == Some(0int);
                    lemma_child(mem0, d, lv, i as int, p);
                }
            }
            free_cloned_table(mem, pmm, child, level - 1);
            proof {
                assert(child.0 as int / 4096 == c);
                assert forall|w: int| 0 <= w < mem0.len() && !pmm.is_free(w / 512) implies #[trigger] mem@[w]
                    == mem0[w] by {
                    assert(mem@[w] == mem1[w]);
                }
                assert forall|x: int| #[trigger]
                    free_lists::covers(pmm.lists(), x) <==> free_lists::covers(
                        old(pmm).lists(),
                        x,
                    ) || below_first(
                        mem0,
                        d,
                        lv,
                        i + 1,
                        x,
                    ) by {
                    assert(in_subtree(mem1, c, lv - 1, x) == in_subtree(mem0, c, lv - 1, x));
                    assert(below_first(mem0, d, lv, i + 1, x) <==> below_first(
                        mem0,
                        d,
                        lv,
                        i as int,
                        x,
                    ) || in_subtree(mem0, c, lv - 1, x));
                }
            }
        } else {
            proof {
                assert(tables_in_order(mem0, d, lv, i + 1) =~= tables_in_order(
                    mem0,
                    d,
                    lv,
                    i as int,
                ));
            }
        }
        i = i + 1;
    }
    proof {
        let order = tables_in_order(mem0, d, lv, 512);
        assert(order.push(d).drop_last() =~= order);
        lemma_root_not_below(mem0, d, lv, 512);
        assert(!old(pmm).is_free(d));
        assert(!pmm.is_free(d));
    }
    let ghost mem1 = mem@;
    let ghost was_free = |x: int| pmm.is_free(x);
    pmm.free_pages(mem, phys, 0);
    proof {
        assert forall|x: int| #[trigger]
            free_lists::covers(pmm.lists(), x) <==> free_lists::covers(old(pmm).lists(), x)
                || in_subtree(mem0, d, lv, x) by {
            assert(pmm.is_free(x) <==> was_free(x) || x == d);
            if in_subtree(mem0, d, lv, x) && x != d {
                let p = choose|p: Seq<int>| #[trigger] tables::node(mem0, d, lv, p) == Some(x);
                if p.len() > 0 {
                    lemma_parent(mem0, d, lv, p);
                }
                assert(below_first(mem0, d, lv, 512, x));
            }
        }
        assert forall|w: int| 0 <= w < mem0.len() && !pmm.is_free(w / 512) implies #[trigger] mem@[w]
            == mem0[w] by {
            assert(!was_free(w / 512));
            assert(mem@[w] == mem1[w]);
        }
    }
}

/// The first table is not below its own entries.
proof fn lemma_root_not_below(mem: Seq<u64>, d: int, level: int, i: int)
    requires
        subtree_distinct(mem, d, level),
    ensures
        !below_first(mem, d, level, i, d),
{
    assert(tables::node(mem, d, level, Seq::empty()) == Some(d));
    if below_first(mem, d, level, i, d) {
        let p = choose|p: Seq<int>| #[trigger]
            tables::node(mem, d, level, p) == Some(d) && p.len() > 0 && p[0] < i;
        assert(p == Seq::<int>::empty());
    }
}

/// What lies below an entry does not lie below an earlier one.
proof fn lemma_later_not_below(
    mem: Seq<u64>,
    d: int,
    level: int,
    i: int,
    p: Seq<int>,
    t: int,
)
    requires
        subtree_distinct(mem, d, level),
        tables::node(mem, d, level, seq![i] + p) == Some(t),
    ensures
        !below_first(mem, d, level, i, t),
{
    let q = seq![i] + p;
    assert(q[0] == i);
    if below_first(mem, d, level, i, t) {
        let p2 = choose|p: Seq<int>| #[trigger]
            tables::node(mem, d, level, p) == Some(t) && p.len() > 0 && p[0] < i;
        assert(p2 == q);
    }
}

/// What a copy in progress keeps: the first `i` entries of the table `d` are
/// copied, the others are zero, and the tables that were made are exactly the
/// frames that were taken.
spec fn copying(
    mem: Seq<u64>,
    lists: Seq<Seq<int>>,
    mem0: Seq<u64>,
    lists0: Seq<Seq<int>>,
    d: int,
    f: int,
    level: int,
    i: int,
) -> bool {
    &&& mem.len() == mem0.len()
    &&& forall|w: int|
        0 <= w < mem0.len() && !free_lists::covers(lists0, w / 512) ==> #[trigger] mem[w]
            == mem0[w]
    &&& forall|j: int| 0 <= j < i ==> #[trigger] entry_copied(mem, d, mem0, f, level, lists0, j)
    &&& forall|j: int| i <= j < 512 ==> #[trigger] mem[d * 512 + j] == 0
    &&& subtree_ok(mem, d, level, lists)
    &&& subtree_distinct(mem, d, level)
    &&& forall|x: int| #[trigger]
        free_lists::covers(lists, x) <==> free_lists::covers(lists0, x) && !in_subtree(
            mem,
            d,
            level,
            x,
        )
    &&& forall|x: int| #[trigger]
        in_subtree(mem, d, level, x) ==> free_lists::covers(lists0, x)
    &&& lists == vmm::alloc_frames(lists0, 1 + tables_below(mem0, f, level, i))
}

/// Writing the next entry.
proof fn lemma_copy_entry(
    mem: Seq<u64>,
    lists: Seq<Seq<int>>,
    mem0: Seq<u64>,
    lists0: Seq<Seq<int>>,
    d: int,
    f: int,
    level: int,
    i: int,
    e: u64,
)
    requires
        copying(mem, lists, mem0, lists0, d, f, level, i),
        0 <= i < 512,
        !entry::is_dir(mem0[f * 512 + i], level),
        e == if entry::present(mem0[f * 512 + i]) {
            mem0[f * 512 + i]
        } else {
            0
        },
    ensures
        copying(mem.update(d * 512 + i, e), lists, mem0, lists0, d, f, level, i + 1),
{
    let mem2 = mem.update(d * 512 + i, e);
    entry::lemma_zero_entry();
    assert(tables::node(mem, d, level, Seq::empty()) == Some(d));
    assert(in_subtree(mem, d, level, d));
    assert(mem[d * 512 + i] == 0);
    lemma_attach(mem, d, level, i, e, lists);
    assert forall|j: int| 0 <= j < i + 1 implies #[trigger] entry_copied(
        mem2,
        d,
        mem0,
        f,
        level,
        lists0,
        j,
    ) by {
        if j < i {
            lemma_entry_stays(mem, mem2, d, mem0, f, level, lists0, j);
        }
    }
    assert forall|j: int| i + 1 <= j < 512 implies #[trigger] mem2[d * 512 + j] == 0 by {
        assert(mem[d * 512 + j] == 0);
    }
}

/// A copied entry stays one where the tables below it stay.
proof fn lemma_entry_stays(
    mem: Seq<u64>,
    mem2: Seq<u64>,
    d: int,
    mem0: Seq<u64>,
    f: int,
    level: int,
    lists: Seq<Seq<int>>,
    j: int,
)
    requires
        entry_copied(mem, d, mem0, f, level, lists, j),
        mem2[d * 512 + j] == mem[d * 512 + j],
        entry::is_dir(slot(mem, d, j), level) ==> subtree_same(
            mem,
            mem2,
            entry::entry_frame(slot(mem, d, j)),
            level - 1,
        ),
    ensures
        entry_copied(mem2, d, mem0, f, level, lists, j),
{
    let e = mem0[f * 512 + j];
    if entry::is_dir(e, level) {
        lemma_copied_same(
            mem,
            mem2,
            entry::entry_frame(slot(mem, d, j)),
            mem0,
            mem0,
            entry::entry_frame(e),
            level - 1,
            child_lists(lists, mem0, f, level, j),
        );
    }
}

/// A copy of a table below the next entry is made, and the entry written.
proof fn lemma_copy_child(
    mem: Seq<u64>,
    lists: Seq<Seq<int>>,
    mem1: Seq<u64>,
    lists1: Seq<Seq<int>>,
    mem0: Seq<u64>,
    lists0: Seq<Seq<int>>,
    d: int,
    f: int,
    level: int,
    i: int,
    e2: u64,
)
    requires
        copying(mem, lists, mem0, lists0, d, f, level, i),
        subtree_ok(mem0, f, level, lists0),
        0 <= i < 512,
        entry::is_dir(mem0[f * 512 + i], level),
        mem1.len() == mem.len(),
        forall|w: int|
            0 <= w < mem.len() && !free_lists::covers(lists, w / 512) ==> #[trigger] mem1[w]
                == mem[w],
        entry::is_dir(e2, level),
        e2 == entry::entry_addr(e2) | (mem0[f * 512 + i] & !entry::ENTRY_ADDR_MASK),
        ({
            let c = entry::entry_frame(mem0[f * 512 + i]);
            let c2 = entry::entry_frame(e2);
            &&& c2 == free_lists::alloc_frame_of(lists, 0)
            &&& copied(mem1, c2, mem, c, level - 1, lists)
            &&& subtree_ok(mem1, c2, level - 1, lists1)
            &&& subtree_distinct(mem1, c2, level - 1)
            &&& forall|x: int| #[trigger]
                free_lists::covers(lists1, x) <==> free_lists::covers(lists, x) && !in_subtree(
                    mem1,
                    c2,
                    level - 1,
                    x,
                )
            &&& forall|x: int| #[trigger]
                in_subtree(mem1, c2, level - 1, x) ==> free_lists::covers(lists, x)
            &&& lists1 == vmm::alloc_frames(lists, 1 + tables_below(mem, c, level - 1, 512))
        }),
    ensures
        copying(mem1.update(d * 512 + i, e2), lists1, mem0, lists0, d, f, level, i + 1),
{
    let c = entry::entry_frame(mem0[f * 512 + i]);
    let c2 = entry::entry_frame(e2);
    let mem2 = mem1.update(d * 512 + i, e2);
    entry::lemma_zero_entry();
    assert(tables::node(mem, d, level, Seq::empty()) == Some(d));
    assert(in_subtree(mem, d, level, d));
    // The tables made so far are not free, so they stay.
    assert forall|p: Seq<int>|
        #![trigger tables::node(mem, d, level, p)]
        tables::node(mem, d, level, p) matches Some(t) ==> table_same(mem, mem1, t) by {
        if let Some(t) = tables::node(mem, d, level, p) {
            lemma_unfree_table_same(mem, mem1, lists, t);
        }
    }
    lemma_subtree_same(mem, mem1, d, level, lists);
    // Neither do the tables that are copied change.
    assert forall|p: Seq<int>|
        #![trigger tables::node(mem0, c, level - 1, p)]
        tables::node(mem0, c, level - 1, p) matches Some(t) ==> table_same(mem0, mem, t) by {
        if let Some(t) = tables::node(mem0, c, level - 1, p) {
            lemma_child(mem0, f, level, i, p);
            let _ = tables::node(mem0, f, level, seq![i] + p);
            lemma_unfree_table_same(mem0, mem, lists0, t);
        }
    }
    lemma_subtree_same(mem0, mem, c, level - 1, lists0);
    assert forall|p: Seq<int>|
        #![trigger tables::node(mem, c, level - 1, p)]
        tables::node(mem, c, level - 1, p) matches Some(t) ==> table_same(mem, mem0, t) by {
        if let Some(t) = tables::node(mem, c, level - 1, p) {
            assert(tables::node(mem0, c, level - 1, p) == Some(t));
            assert(table_same(mem0, mem, t));
        }
    }
    lemma_copied_same(mem1, mem1, c2, mem, mem0, c, level - 1, lists);
    lemma_count_same(mem0, mem, c, level - 1, 512);
    // The new tables come in.
    assert(subtree_ok(mem1, d, level, lists1)) by {
        assert forall|p: Seq<int>|
            #![trigger tables::node(mem1, d, level, p)]
            tables::node(mem1, d, level, p) matches Some(t) ==> {
                &&& 0 <= t
                &&& t * 512 + 512 <= mem1.len()
                &&& !free_lists::covers(lists1, t)
            } by {
            if let Some(t) = tables::node(mem1, d, level, p) {
                assert(tables::node(mem, d, level, p) == Some(t));
                assert(!free_lists::covers(lists, t));
            }
        }
    }
    assert(mem1[d * 512 + i] == 0) by {
        assert(table_same(mem, mem1, d));
        assert(mem[d * 512 + i] == 0);
    }
    assert forall|x: int| #[trigger] in_subtree(mem1, c2, level - 1, x) implies !in_subtree(
        mem1,
        d,
        level,
        x,
    ) by {
        assert(free_lists::covers(lists, x));
        assert(in_subtree(mem1, d, level, x) == in_subtree(mem, d, level, x));
    }
    lemma_attach(mem1, d, level, i, e2, lists1);
    assert forall|j: int| 0 <= j < i + 1 implies #[trigger] entry_copied(
        mem2,
        d,
        mem0,
        f,
        level,
        lists0,
        j,
    ) by {
        if j < i {
            assert(entry_copied(mem, d, mem0, f, level, lists0, j));
            lemma_child_same(mem, mem1, d, level, j);
            lemma_entry_stays(mem, mem1, d, mem0, f, level, lists0, j);
            lemma_entry_stays(mem1, mem2, d, mem0, f, level, lists0, j);
        } else {
            lemma_copied_same(mem1, mem2, c2, mem0, mem0, c, level - 1, lists);
        }
    }
    assert forall|j: int| i + 1 <= j < 512 implies #[trigger] mem2[d * 512 + j] == 0 by {
        assert(mem[d * 512 + j] == 0);
        assert(table_same(mem, mem1, d));
        assert(mem1[d * 512 + j] == mem[d * 512 + j]);
    }
    assert forall|w: int| 0 <= w < mem0.len() && !free_lists::covers(lists0, w / 512) implies #[trigger] mem2[w]
        == mem0[w] by {
        assert(free_lists::covers(lists0, d));
        assert(!free_lists::covers(lists, w / 512));
        assert(mem1[w] == mem[w]);
    }
    assert forall|x: int| #[trigger]
        free_lists::covers(lists1, x) <==> free_lists::covers(lists0, x) && !in_subtree(
            mem2,
            d,
            level,
            x,
        ) by {
        assert(in_subtree(mem1, d, level, x) == in_subtree(mem, d, level, x));
    }
    assert forall|x: int| #[trigger] in_subtree(mem2, d, level, x) implies free_lists::covers(
        lists0,
        x,
    ) by {
        assert(in_subtree(mem1, d, level, x) == in_subtree(mem, d, level, x));
    }
    lemma_count_grows(mem0, f, level, 0, i);
    lemma_count_grows(mem0, c, level - 1, 0, 512);
    vmm::lemma_alloc_frames_add(
        lists0,
        1 + tables_below(mem0, f, level, i),
        1 + tables_below(mem0, c, level - 1, 512),
    );
}

proof fn lemma_unfree_table_same(mem: Seq<u64>, mem2: Seq<u64>, lists: Seq<Seq<int>>, t: int)
    requires
        !free_lists::covers(lists, t),
        0 <= t,
        t * 512 + 512 <= mem.len(),
        forall|w: int|
            0 <= w < mem.len() && !free_lists::covers(lists, w / 512) ==> #[trigger] mem2[w]
                == mem[w],
    ensures
        table_same(mem, mem2, t),
{
    assert forall|j: int| 0 <= j < 512 implies #[trigger] mem2[t * 512 + j] == mem[t * 512
        + j] by {
        assert((t * 512 + j) / 512 == t);
    }
}

/// A new table without entries.
proof fn lemma_copy_start(
    mem: Seq<u64>,
    lists: Seq<Seq<int>>,
    mem0: Seq<u64>,
    lists0: Seq<Seq<int>>,
    d: int,
    f: int,
    level: int,
)
    requires
        forall|j: int| 0 <= j < 512 ==> #[trigger] mem[d * 512 + j] == 0,
        0 <= d,
        d * 512 + 512 <= mem.len(),
        !free_lists::covers(lists, d),
    ensures
        forall|p: Seq<int>| #[trigger] tables::node(mem, d, level, p) == (if p.len() == 0 {
            Some(d)
        } else {
            None
        }),
        subtree_ok(mem, d, level, lists),
        subtree_distinct(mem, d, level),
        forall|x: int| #[trigger] in_subtree(mem, d, level, x) <==> x == d,
{
    entry::lemma_zero_entry();
    assert forall|p: Seq<int>| #[trigger] tables::node(mem, d, level, p) == (if p.len() == 0 {
        Some(d)
    } else {
        None
    }) by {
        if p.len() > 0 && 0 <= p[0] < 512 {
            assert(mem[d * 512 + p[0]] == 0);
        }
    }
    assert forall|p: Seq<int>, q: Seq<int>|
        #![trigger tables::node(mem, d, level, p), tables::node(mem, d, level, q)]
        tables::node(mem, d, level, p) is Some && tables::node(mem, d, level, p) == tables::node(
            mem,
            d,
            level,
            q,
        ) implies p == q by {
        assert(p =~= q);
    }
    assert(tables::node(mem, d, level, Seq::empty()) == Some(d));
}

/// A write to a table that is not free.
proof fn lemma_own_write(mem: Seq<u64>, pmm: &Pmm, d: int, i: int, e: u64)
    requires
        pmm.wf(mem),
        !free_lists::covers(pmm.lists(), d),
        0 <= i < 512,
        0 <= d,
        d * 512 + 512 <= mem.len(),
    ensures
        pmm.wf(mem.update(d * 512 + i, e)),
{
    let mem2 = mem.update(d * 512 + i, e);
    assert forall|w: int| 0 <= w < mem.len() && pmm.is_free(w / 512) implies #[trigger] mem2[w]
        == mem[w] by {
        assert((d * 512 + i) / 512 == d);
    }
    pmm.lemma_wf_other_memory(mem, mem2);
}

/// The table below the next entry can be copied in turn.
proof fn lemma_source_child(
    mem: Seq<u64>,
    lists: Seq<Seq<int>>,
    mem0: Seq<u64>,
    lists0: Seq<Seq<int>>,
    d: int,
    f: int,
    level: int,
    i: int,
)
    requires
        copying(mem, lists, mem0, lists0, d, f, level, i),
        subtree_ok(mem0, f, level, lists0),
        0 <= i < 512,
        entry::is_dir(mem0[f * 512 + i], level),
    ensures
        ({
            let c = entry::entry_frame(mem0[f * 512 + i]);
            &&& subtree_ok(mem, c, level - 1, lists)
            &&& tables_below(mem, c, level - 1, 512) == tables_below(mem0, c, level - 1, 512)
            &&& subtree_same(mem0, mem, c, level - 1)
        }),
{
    let c = entry::entry_frame(mem0[f * 512 + i]);
    assert forall|p: Seq<int>|
        #![trigger tables::node(mem0, c, level - 1, p)]
        tables::node(mem0, c, level - 1, p) matches Some(t) ==> table_same(mem0, mem, t) && 0 <= t
            && t * 512 + 512 <= mem0.len() && !free_lists::covers(lists, t) by {
        if let Some(t) = tables::node(mem0, c, level - 1, p) {
            lemma_child(mem0, f, level, i, p);
            let _ = tables::node(mem0, f, level, seq![i] + p);
            lemma_unfree_table_same(mem0, mem, lists0, t);
            assert(!free_lists::covers(lists, t));
        }
    }
    lemma_subtree_same(mem0, mem, c, level - 1, lists);
    lemma_count_same(mem0, mem, c, level - 1, 512);
}

/// Where the table below the next entry could not be copied, what was made so
/// far is still there.
proof fn lemma_failed_child(
    mem: Seq<u64>,
    lists: Seq<Seq<int>>,
    mem2: Seq<u64>,
    lists2: Seq<Seq<int>>,
    mem0: Seq<u64>,
    lists0: Seq<Seq<int>>,
    d: int,
    f: int,
    level: int,
    i: int,
)
    requires
        copying(mem, lists, mem0, lists0, d, f, level, i),
        0 <= i <= 512,
        mem2.len() == mem.len(),
        forall|w: int|
            0 <= w < mem.len() && !free_lists::covers(lists, w / 512) ==> #[trigger] mem2[w]
                == mem[w],
        forall|x: int| #[trigger]
            free_lists::covers(lists2, x) == free_lists::covers(lists, x),
    ensures
        subtree_ok(mem2, d, level, lists2),
        subtree_distinct(mem2, d, level),
        forall|x: int| #[trigger]
            in_subtree(mem2, d, level, x) == in_subtree(mem, d, level, x),
        tables_below(mem2, d, level, 512) == tables_below(mem0, f, level, i),
        tables_in_order(mem2, d, level, 512) == copies_in_order(mem0, f, level, lists0, i),
{
    assert forall|p: Seq<int>|
        #![trigger tables::node(mem, d, level, p)]
        tables::node(mem, d, level, p) matches Some(t) ==> table_same(mem, mem2, t)
            && !free_lists::covers(lists2, t) by {
        if let Some(t) = tables::node(mem, d, level, p) {
            lemma_unfree_table_same(mem, mem2, lists, t);
            assert(!free_lists::covers(lists, t));
        }
    }
    lemma_subtree_same(mem, mem2, d, level, lists2);
    lemma_count_same(mem, mem2, d, level, 512);
    lemma_copied_count(mem, d, mem0, f, level, lists0, i, 512);
    lemma_order_same(mem, mem2, d, level, 512);
    lemma_copied_order(mem, d, mem0, f, level, lists0, i, 512);
}

/// Copies a table and all below it into new frames.
///
/// Where there are too few of them, those that were taken are freed again. The
/// free frames are then the same as before, but blocks of one size may have
/// changed places in their list.
pub fn clone_table(mem: &mut [u64], pmm: &mut Pmm, src: PAddr, level: u8) -> (r: Option<PAddr>)
    requires
        old(pmm).wf(old(mem)@),
        old(pmm).total() <= 0x100_0000_0000,
        src.0 % 4096 == 0,
        level <= 3,
        subtree_ok(old(mem)@, src.0 as int / 4096, level as int, old(pmm).lists()),
    ensures
        final(pmm).wf(final(mem)@),
        final(pmm).total() == old(pmm).total(),
        final(pmm).hhdm() == old(pmm).hhdm(),
        final(mem)@.len() == old(mem)@.len(),
        forall|w: int|
            0 <= w < old(mem)@.len() && !old(pmm).is_free(w / 512) ==> #[trigger] final(mem)@[w]
                == old(mem)@[w],
        ({
            let f = src.0 as int / 4096;
            let count = 1 + tables_below(old(mem)@, f, level as int, 512);
            &&& r is Some <==> old(pmm).free_count() >= count
            &&& r is None ==> {
                &&& final(pmm).free_count() == old(pmm).free_count()
                &&& final(pmm).lists() == free_all(
                    vmm::alloc_frames(old(pmm).lists(), old(pmm).free_count()),
                    given_back(
                        old(mem)@,
                        f,
                        level as int,
                        old(pmm).lists(),
                        old(pmm).free_count(),
                    ),
                )
                &&& forall|x: int| #[trigger]
                    free_lists::covers(final(pmm).lists(), x) == free_lists::covers(
                        old(pmm).lists(),
                        x,
                    )
            }
            &&& r matches Some(new) ==> {
                let d = new.0 as int / 4096;
                &&& new.0 % 4096 == 0
                &&& d == free_lists::alloc_frame_of(old(pmm).lists(), 0)
                &&& copied(final(mem)@, d, old(mem)@, f, level as int, old(pmm).lists())
                &&& subtree_ok(final(mem)@, d, level as int, final(pmm).lists())
                &&& subtree_distinct(final(mem)@, d, level as int)
                &&& final(pmm).lists() == vmm::alloc_frames(old(pmm).lists(), count)
                &&& final(pmm).free_count() == old(pmm).free_count() - count
                &&& forall|x: int| #[trigger]
                    free_lists::covers(final(pmm).lists(), x) <==> free_lists::covers(
                        old(pmm).lists(),
                        x,
                    ) && !in_subtree(
                        final(mem)@,
                        d,
                        level as int,
                        x,
                    )
                &&& forall|x: int| #[trigger]
                    in_subtree(final(mem)@, d, level as int, x) ==> free_lists::covers(
                        old(pmm).lists(),
                        x,
                    )
                &&& final(pmm).hhdm() == 0 ==> !in_subtree(final(mem)@, d, level as int, 0)
            }
        }),
    decreases level,
{
    let ghost f = src.0 as int / 4096;
    let ghost lv = level as int;
    let ghost mem0 = mem@;
    let ghost l0 = pmm.lists();
    let ghost free0 = pmm.free_count();
    proof {
        pmm.lemma_wf(mem0);
        blocks::lemma_single();
        lemma_count_grows(mem0, f, lv, 0, 512);
    }
    let dst: PAddr = match pmm.alloc_pages(mem, 0) {
        Some(frame) => frame,
        None => {
            return None;
        },
    };
    let ghost d = dst.0 as int / 4096;
    let ghost l1 = pmm.lists();
    let ghost mem1 = mem@;
    vmm::zero_frame(mem, dst);
    proof {
        let mem2 = mem@;
        assert(old(pmm).is_free(d));
        assert(!pmm.is_free(d));
        assert forall|w: int| 0 <= w < mem1.len() && pmm.is_free(w / 512) implies #[trigger] mem2[w]
            == mem1[w] by {}
        pmm.lemma_wf_other_memory(mem1, mem2);
        assert forall|w: int| 0 <= w < mem0.len() && !free_lists::covers(l0, w / 512) implies #[trigger] mem2[w]
            == mem0[w] by {
            assert(!old(pmm).is_free(w / 512));
            assert(!pmm.is_free(w / 512));
            assert(mem1[w] == mem0[w]);
        }
        assert forall|j: int| 0 <= j < 512 implies #[trigger] mem2[d * 512 + j] == 0 by {
            assert((d * 512 + j) / 512 == d);
        }
        lemma_copy_start(mem2, l1, mem0, l0, d, f, lv);
        assert forall|x: int| #[trigger]
            free_lists::covers(l1, x) <==> free_lists::covers(l0, x) && !in_subtree(
                mem2,
                d,
                lv,
                x,
            ) by {
            assert(pmm.is_free(x) <==> old(pmm).is_free(x) && x != d);
        }
        assert(vmm::alloc_frames(free_lists::alloc_lists(l0, 0), 0) == l1);
    }
    let mut i: usize = 0;
    while i < 512
        invariant
            i <= 512,
            level <= 3,
            lv == level,
            f == src.0 as int / 4096,
            d == dst.0 as int / 4096,
            dst.0 % 4096 == 0,
            d == free_lists::alloc_frame_of(l0, 0),
            mem0 == old(mem)@,
            l0 == old(pmm).lists(),
            free0 == old(pmm).free_count(),
            pmm.wf(mem@),
            pmm.total() == old(pmm).total(),
            pmm.total() <= 0x100_0000_0000,
            pmm.hhdm() == old(pmm).hhdm(),
            subtree_ok(mem0, f, lv, l0),
            copying(mem@, pmm.lists(), mem0, l0, d, f, lv, i as int),
            pmm.free_count() == free0 - 1 - tables_below(mem0, f, lv, i as int),
            failing_entry(mem0, f, lv, free0, 0) == failing_entry(mem0, f, lv, free0, i as int),
            old(pmm).is_free(0) ==> pmm.hhdm() > 0,
        decreases 512 - i,
    {
        let ghost cur = mem@;
        let ghost lc = pmm.lists();
        proof {
            assert(tables::node(mem0, f, lv, Seq::empty()) == Some(f));
            lemma_unfree_table_same(mem0, cur, l0, f);
            assert(cur[f * 512 + i] == mem0[f * 512 + i]);
            assert(tables::node(cur, d, lv, Seq::empty()) == Some(d));
            assert(in_subtree(cur, d, lv, d));
        }
        let e: u64 = vmm::read_entry(mem, src, i);
        let is_leaf: bool = level == 0 || (level <= 2 && e & (1 << 7) != 0);
        proof {
            entry::lemma_leaf_test(e);
            pmm.lemma_wf(cur);
        }
        if e & 1 == 0 {
            proof {
                lemma_copy_entry(cur, lc, mem0, l0, d, f, lv, i as int, 0);
                assert(cur[d * 512 + i] == 0);
                assert(cur.update(d * 512 + i, 0) =~= cur);
            }
        } else if is_leaf {
            vmm::write_entry(mem, dst, i, e);
            proof {
                lemma_copy_entry(cur, lc, mem0, l0, d, f, lv, i as int, e);
                lemma_own_write(cur, pmm, d, i as int, e);
            }
        } else {
            let child: PAddr = PAddr(e & entry::ENTRY_ADDR_MASK);
            let ghost c = entry::entry_frame(e);
            proof {
                entry::lemma_address_field(e);
                lemma_source_child(cur, lc, mem0, l0, d, f, lv, i as int);
            }
            let copy = clone_table(mem, pmm, child, level - 1);
            let new_child: PAddr = match copy {
                Some(n) => n,
                None => {
                    proof {
                        lemma_count_grows(mem0, f, lv, i + 1, 512);
                        lemma_failed_child(cur, lc, mem@, pmm.lists(), mem0, l0, d, f, lv, i as int);
                        lemma_given_back_same(
                            mem0,
                            cur,
                            c,
                            lv - 1,
                            lc,
                            free0 - 1 - tables_below(mem0, f, lv, i as int),
                        );
                        vmm::lemma_alloc_frames_add(
                            l0,
                            1 + tables_below(mem0, f, lv, i as int),
                            free0 - 1 - tables_below(mem0, f, lv, i as int),
                        );
                        lemma_free_all_add(
                            vmm::alloc_frames(l0, free0),
                            given_back(
                                mem0,
                                c,
                                lv - 1,
                                lc,
                                free0 - 1 - tables_below(mem0, f, lv, i as int),
                            ),
                            copies_in_order(mem0, f, lv, l0, i as int).push(d),
                        );
                        assert(failing_entry(mem0, f, lv, free0, i as int) == i);
                    }
                    free_cloned_table(mem, pmm, dst, level);
                    return None;
                },
            };
            let ghost m1 = mem@;
            let ghost l2 = pmm.lists();
            let flags: u64 = e & !entry::ENTRY_ADDR_MASK;
            let e2: u64 = (new_child.0 & entry::ENTRY_ADDR_MASK) | flags;
            proof {
                pmm.lemma_wf(m1);
                let c2 = new_child.0 as int / 4096;
                assert(tables::node(m1, c2, lv - 1, Seq::empty()) == Some(c2));
                assert(in_subtree(m1, c2, lv - 1, c2));
                entry::lemma_address_field(new_child.0);
                entry::lemma_flag_part(e);
                entry::lemma_entry_parts(new_child.0, flags);
            }
            vmm::write_entry(mem, dst, i, e2);
            proof {
                lemma_copy_child(cur, lc, m1, l2, mem0, l0, d, f, lv, i as int, e2);
                assert(!free_lists::covers(l2, d));
                lemma_own_write(m1, pmm, d, i as int, e2);
            }
        }
        proof {
            pmm.lemma_wf(mem@);
        }
        i = i + 1;
    }
    proof {
        lemma_copied_entries(mem@, d, mem0, f, lv, l0);
        pmm.lemma_wf(mem@);
    }
    Some(dst)
}

} // verus!
