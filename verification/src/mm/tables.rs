//! The tree of page tables that a memory holds below a root frame.
//!
//! A table is named by its path: the indices that lead to it from the root.
use vstd::prelude::*;

use crate::mm::entry;
use crate::mm::free_lists;
use crate::mm::space;
use crate::mm::space::Space;

verus! {

/// Frame of the table at a path below the table in frame `f`, if there is one.
pub open spec fn node(mem: Seq<u64>, f: int, level: int, path: Seq<int>) -> Option<int>
    decreases path.len(),
{
    if path.len() == 0 {
        Some(f)
    } else if 0 <= path[0] < 512 && entry::is_dir(mem[f * 512 + path[0]], level) {
        node(mem, entry::entry_frame(mem[f * 512 + path[0]]), level - 1, path.drop_first())
    } else {
        None
    }
}

/// Entry that maps a page at a path, if there is one.
pub open spec fn leaf_at(mem: Seq<u64>, f: int, level: int, path: Seq<int>) -> Option<u64> {
    if path.len() == 0 || !(0 <= path.last() < 512) {
        None
    } else {
        match node(mem, f, level, path.drop_last()) {
            None => None,
            Some(t) => {
                let e = mem[t * 512 + path.last()];
                if entry::is_leaf(e, level - (path.len() - 1)) {
                    Some(e)
                } else {
                    None
                }
            },
        }
    }
}

/// Entry that refers to the table at a path, if there is one.
pub open spec fn dir_at(mem: Seq<u64>, f: int, level: int, path: Seq<int>) -> Option<u64> {
    if path.len() == 0 || !(0 <= path.last() < 512) {
        None
    } else {
        match node(mem, f, level, path.drop_last()) {
            None => None,
            Some(t) => {
                let e = mem[t * 512 + path.last()];
                if entry::is_dir(e, level - (path.len() - 1)) {
                    Some(e)
                } else {
                    None
                }
            },
        }
    }
}

/// What the tables below a root say, with the number of free frames.
pub open spec fn space_of(mem: Seq<u64>, root: int, free: int) -> Space {
    Space {
        tables: Set::new(|p: Seq<int>| node(mem, root, 3, p) is Some),
        leaves: Map::new(
            |p: Seq<int>| leaf_at(mem, root, 3, p) is Some,
            |p: Seq<int>| leaf_at(mem, root, 3, p).unwrap(),
        ),
        free,
    }
}

/// Every table lies in the memory.
pub open spec fn in_memory(mem: Seq<u64>, root: int) -> bool {
    forall|p: Seq<int>|
        #![trigger node(mem, root, 3, p)]
        node(mem, root, 3, p) matches Some(t) ==> 0 <= t && t * 512 + 512 <= mem.len()
}

/// No frame is a table twice.
pub open spec fn is_tree(mem: Seq<u64>, root: int) -> bool {
    forall|p: Seq<int>, q: Seq<int>|
        #![trigger node(mem, root, 3, p), node(mem, root, 3, q)]
        node(mem, root, 3, p) is Some && node(mem, root, 3, p) == node(mem, root, 3, q) ==> p == q
}

/// The frame is one of the tables.
pub open spec fn is_table(mem: Seq<u64>, root: int, frame: int) -> bool {
    exists|p: Seq<int>| #[trigger] node(mem, root, 3, p) == Some(frame)
}

/// `path` starts with `start`.
pub open spec fn extends(path: Seq<int>, start: Seq<int>) -> bool {
    path.len() >= start.len() && path.take(start.len() as int) == start
}

/// Two entries that mean the same: both unused, or equal.
pub open spec fn same_entry(a: u64, b: u64) -> bool {
    a == b || (!entry::present(a) && !entry::present(b))
}

/// Entry `i` of the table at a path means the same in both memories.
pub open spec fn slot_kept(
    mem: Seq<u64>,
    mem2: Seq<u64>,
    root: int,
    path: Seq<int>,
    i: int,
) -> bool {
    node(mem, root, 3, path) matches Some(t) ==> same_entry(mem[t * 512 + i], mem2[t * 512 + i])
}

/// A step further down.
pub proof fn lemma_node_push(mem: Seq<u64>, f: int, level: int, path: Seq<int>, i: int)
    ensures
        node(mem, f, level, path.push(i)) == match node(mem, f, level, path) {
            None => None,
            Some(t) => if 0 <= i < 512 && entry::is_dir(mem[t * 512 + i], level - path.len()) {
                Some(entry::entry_frame(mem[t * 512 + i]))
            } else {
                None
            },
        },
    decreases path.len(),
{
    let longer = path.push(i);
    if path.len() == 0 {
        assert(longer.drop_first() =~= Seq::empty());
        reveal_with_fuel(node, 2);
    } else {
        let e = mem[f * 512 + path[0]];
        assert(longer[0] == path[0]);
        assert(longer.drop_first() =~= path.drop_first().push(i));
        if 0 <= path[0] < 512 && entry::is_dir(e, level) {
            lemma_node_push(mem, entry::entry_frame(e), level - 1, path.drop_first(), i);
        }
    }
}

/// A table is reached through tables, and no deeper than its level allows.
pub proof fn lemma_node_prefix(mem: Seq<u64>, f: int, level: int, path: Seq<int>, k: int)
    requires
        node(mem, f, level, path) is Some,
        0 <= k <= path.len(),
        0 <= level,
    ensures
        node(mem, f, level, path.take(k)) is Some,
        path.len() <= level,
        forall|j: int| 0 <= j < path.len() ==> 0 <= #[trigger] path[j] < 512,
    decreases path.len(),
{
    if path.len() == 0 {
        assert(path.take(k) =~= path);
    } else {
        let last = path.len() - 1;
        assert(path =~= path.drop_last().push(path.last()));
        lemma_node_push(mem, f, level, path.drop_last(), path.last());
        if k == path.len() {
            assert(path.take(k) =~= path);
            lemma_node_prefix(mem, f, level, path.drop_last(), last as int);
        } else {
            lemma_node_prefix(mem, f, level, path.drop_last(), k);
            assert(path.drop_last().take(k) =~= path.take(k));
        }
        assert forall|j: int| 0 <= j < path.len() implies 0 <= #[trigger] path[j] < 512 by {
            if j < last {
                assert(path.drop_last()[j] == path[j]);
            }
        }
    }
}

/// A table below the root is where the entry that refers to it says.
pub proof fn lemma_dir(mem: Seq<u64>, f: int, level: int, path: Seq<int>)
    ensures
        dir_at(mem, f, level, path) is Some <==> path.len() > 0 && node(mem, f, level, path) is Some,
        dir_at(mem, f, level, path) matches Some(e) ==> node(mem, f, level, path) == Some(
            entry::entry_frame(e),
        ),
{
    if path.len() > 0 {
        assert(path =~= path.drop_last().push(path.last()));
        lemma_node_push(mem, f, level, path.drop_last(), path.last());
    }
}

/// Where every entry but one is kept, so is every path that does not lead
/// through that entry.
proof fn lemma_kept(
    mem: Seq<u64>,
    mem2: Seq<u64>,
    root: int,
    at: Seq<int>,
    i: int,
    path: Seq<int>,
)
    requires
        forall|p: Seq<int>, j: int|
            0 <= j < 512 && !(p == at && j == i) ==> #[trigger] slot_kept(mem, mem2, root, p, j),
        !extends(path, at.push(i)),
    ensures
        node(mem2, root, 3, path) == node(mem, root, 3, path),
        leaf_at(mem2, root, 3, path) == leaf_at(mem, root, 3, path),
        dir_at(mem2, root, 3, path) == dir_at(mem, root, 3, path),
    decreases path.len(),
{
    if path.len() > 0 {
        let p = path.drop_last();
        let j = path.last();
        assert(path =~= p.push(j));
        if extends(p, at.push(i)) {
            assert(path.take(at.len() as int + 1) =~= p.take(at.len() as int + 1));
        }
        lemma_kept(mem, mem2, root, at, i, p);
        lemma_node_push(mem, root, 3, p, j);
        lemma_node_push(mem2, root, 3, p, j);
        if p == at && j == i {
            assert(path.take(at.len() as int + 1) =~= path);
        }
        if 0 <= j < 512 {
            assert(slot_kept(mem, mem2, root, p, j));
        }
    }
}

/// What lies below an entry that is unused, maps a page, or refers to a table
/// without used entries.
proof fn lemma_below(mem: Seq<u64>, root: int, at: Seq<int>, i: int, path: Seq<int>)
    requires
        node(mem, root, 3, at) is Some,
        0 <= i < 512,
        extends(path, at.push(i)),
    ensures
        ({
            let t = node(mem, root, 3, at).unwrap();
            let e = mem[t * 512 + i];
            let level = 3 - at.len();
            let g = entry::entry_frame(e);
            &&& !entry::is_dir(e, level) ==> node(mem, root, 3, path) is None && leaf_at(
                mem,
                root,
                3,
                path,
            ) == (if path == at.push(i) && entry::is_leaf(e, level) {
                Some(e)
            } else {
                None
            }) && dir_at(mem, root, 3, path) is None
            &&& entry::is_dir(e, level) && (forall|j: int|
                0 <= j < 512 ==> !entry::present(#[trigger] mem[g * 512 + j])) ==> node(
                mem,
                root,
                3,
                path,
            ) == (if path == at.push(i) {
                Some(g)
            } else {
                None
            }) && leaf_at(mem, root, 3, path) is None && dir_at(mem, root, 3, path) == (if path
                == at.push(i) {
                Some(e)
            } else {
                None
            })
        }),
    decreases path.len(),
{
    let here = at.push(i);
    lemma_node_push(mem, root, 3, at, i);
    assert(here.drop_last() =~= at);
    if path.len() == here.len() {
        assert(path.take(here.len() as int) =~= path);
    } else {
        let p = path.drop_last();
        assert(p.take(here.len() as int) =~= path.take(here.len() as int));
        assert(extends(p, here));
        lemma_below(mem, root, at, i, p);
        assert(path =~= p.push(path.last()));
        lemma_node_push(mem, root, 3, p, path.last());
    }
}

/// No entry of the table in a frame is used.
pub open spec fn unused(mem: Seq<u64>, frame: int) -> bool {
    forall|j: int| 0 <= j < 512 ==> !entry::present(#[trigger] mem[frame * 512 + j])
}

/// The entry refers to no table, or to one without used entries.
pub open spec fn shallow(mem: Seq<u64>, e: u64, level: int) -> bool {
    entry::is_dir(e, level) ==> unused(mem, entry::entry_frame(e))
}

/// An entry is written, and nothing lies below its old value nor its new one.
pub open spec fn entry_written(
    mem: Seq<u64>,
    mem2: Seq<u64>,
    root: int,
    at: Seq<int>,
    i: int,
) -> bool {
    &&& node(mem, root, 3, at) is Some
    &&& 0 <= i < 512
    &&& forall|p: Seq<int>, j: int|
        0 <= j < 512 && !(p == at && j == i) ==> #[trigger] slot_kept(mem, mem2, root, p, j)
    &&& shallow(mem, mem[node(mem, root, 3, at).unwrap() * 512 + i], 3 - at.len())
    &&& shallow(mem2, mem2[node(mem, root, 3, at).unwrap() * 512 + i], 3 - at.len())
}

/// Table that an entry of a table of the given level refers to.
pub open spec fn dir_of(e: u64, level: int) -> Option<int> {
    if entry::is_dir(e, level) {
        Some(entry::entry_frame(e))
    } else {
        None
    }
}

/// The entry, where it maps a page.
pub open spec fn page_of(e: u64, level: int) -> Option<u64> {
    if entry::is_leaf(e, level) {
        Some(e)
    } else {
        None
    }
}

/// The entry, where it refers to a table.
pub open spec fn dir_entry(e: u64, level: int) -> Option<u64> {
    if entry::is_dir(e, level) {
        Some(e)
    } else {
        None
    }
}

proof fn lemma_write_entry_at(
    mem: Seq<u64>,
    mem2: Seq<u64>,
    root: int,
    at: Seq<int>,
    i: int,
    p: Seq<int>,
)
    requires
        entry_written(mem, mem2, root, at, i),
    ensures
        ({
            let e = mem2[node(mem, root, 3, at).unwrap() * 512 + i];
            &&& node(mem2, root, 3, p) == (if p == at.push(i) {
                dir_of(e, 3 - at.len())
            } else {
                node(mem, root, 3, p)
            })
            &&& leaf_at(mem2, root, 3, p) == (if p == at.push(i) {
                page_of(e, 3 - at.len())
            } else {
                leaf_at(mem, root, 3, p)
            })
            &&& dir_at(mem2, root, 3, p) == (if p == at.push(i) {
                dir_entry(e, 3 - at.len())
            } else {
                dir_at(mem, root, 3, p)
            })
        }),
{
    let here = at.push(i);
    assert(!extends(at, here));
    lemma_kept(mem, mem2, root, at, i, at);
    if extends(p, here) {
        lemma_below(mem, root, at, i, p);
        lemma_below(mem2, root, at, i, p);
    } else {
        assert(here.take(here.len() as int) =~= here);
        lemma_kept(mem, mem2, root, at, i, p);
    }
}

/// The effect of writing one entry: only its own path changes.
pub proof fn lemma_write_entry(mem: Seq<u64>, mem2: Seq<u64>, root: int, at: Seq<int>, i: int)
    requires
        entry_written(mem, mem2, root, at, i),
    ensures
        ({
            let e = mem2[node(mem, root, 3, at).unwrap() * 512 + i];
            &&& forall|p: Seq<int>| #[trigger]
                node(mem2, root, 3, p) == (if p == at.push(i) {
                    dir_of(e, 3 - at.len())
                } else {
                    node(mem, root, 3, p)
                })
            &&& forall|p: Seq<int>| #[trigger]
                leaf_at(mem2, root, 3, p) == (if p == at.push(i) {
                    page_of(e, 3 - at.len())
                } else {
                    leaf_at(mem, root, 3, p)
                })
            &&& forall|p: Seq<int>| #[trigger]
                dir_at(mem2, root, 3, p) == (if p == at.push(i) {
                    dir_entry(e, 3 - at.len())
                } else {
                    dir_at(mem, root, 3, p)
                })
        }),
{
    let e = mem2[node(mem, root, 3, at).unwrap() * 512 + i];
    assert forall|p: Seq<int>| #[trigger]
        node(mem2, root, 3, p) == (if p == at.push(i) {
            dir_of(e, 3 - at.len())
        } else {
            node(mem, root, 3, p)
        }) by {
        lemma_write_entry_at(mem, mem2, root, at, i, p);
    }
    assert forall|p: Seq<int>| #[trigger]
        leaf_at(mem2, root, 3, p) == (if p == at.push(i) {
            page_of(e, 3 - at.len())
        } else {
            leaf_at(mem, root, 3, p)
        }) by {
        lemma_write_entry_at(mem, mem2, root, at, i, p);
    }
    assert forall|p: Seq<int>| #[trigger]
        dir_at(mem2, root, 3, p) == (if p == at.push(i) {
            dir_entry(e, 3 - at.len())
        } else {
            dir_at(mem, root, 3, p)
        }) by {
        lemma_write_entry_at(mem, mem2, root, at, i, p);
    }
}

/// Where every entry is kept, every path is.
pub proof fn lemma_same_tables(mem: Seq<u64>, mem2: Seq<u64>, root: int)
    requires
        forall|p: Seq<int>, j: int|
            0 <= j < 512 ==> #[trigger] slot_kept(mem, mem2, root, p, j),
    ensures
        forall|p: Seq<int>| #[trigger] node(mem2, root, 3, p) == node(mem, root, 3, p),
        forall|p: Seq<int>| #[trigger] leaf_at(mem2, root, 3, p) == leaf_at(mem, root, 3, p),
        forall|p: Seq<int>| #[trigger] dir_at(mem2, root, 3, p) == dir_at(mem, root, 3, p),
{
    assert forall|p: Seq<int>| #[trigger] node(mem2, root, 3, p) == node(mem, root, 3, p) by {
        let at = Seq::new(p.len() + 1, |j: int| 0int);
        lemma_kept(mem, mem2, root, at, 0, p);
    }
    assert forall|p: Seq<int>| #[trigger]
        leaf_at(mem2, root, 3, p) == leaf_at(mem, root, 3, p) by {
        let at = Seq::new(p.len() + 1, |j: int| 0int);
        lemma_kept(mem, mem2, root, at, 0, p);
    }
    assert forall|p: Seq<int>| #[trigger] dir_at(mem2, root, 3, p) == dir_at(mem, root, 3, p) by {
        let at = Seq::new(p.len() + 1, |j: int| 0int);
        lemma_kept(mem, mem2, root, at, 0, p);
    }
}

/// The tables lie in the memory, form a tree, and none of them is free.
pub open spec fn tables_ok(mem: Seq<u64>, root: int, lists: Seq<Seq<int>>) -> bool {
    &&& in_memory(mem, root)
    &&& is_tree(mem, root)
    &&& forall|p: Seq<int>|
        #![trigger node(mem, root, 3, p)]
        node(mem, root, 3, p) matches Some(t) ==> !free_lists::covers(lists, t)
}

/// Tables of a memory make a well-formed address space.
pub proof fn lemma_space_wf(mem: Seq<u64>, root: int, free: int)
    requires
        free >= 0,
    ensures
        space_of(mem, root, free).wf(),
{
    let s = space_of(mem, root, free);
    assert forall|p: Seq<int>, k: int|
        #![trigger s.tables.contains(p), p.take(k)]
        s.tables.contains(p) && 0 <= k <= p.len() implies s.tables.contains(p.take(k)) by {
        lemma_node_prefix(mem, root, 3, p, k);
    }
    assert forall|p: Seq<int>| #[trigger] s.tables.contains(p) implies p.len() <= 3
        && !s.leaves.contains_key(p) by {
        lemma_node_prefix(mem, root, 3, p, 0);
        if p.len() > 0 {
            assert(p =~= p.drop_last().push(p.last()));
            lemma_node_push(mem, root, 3, p.drop_last(), p.last());
        }
    }
    assert forall|p: Seq<int>| #[trigger] s.leaves.contains_key(p) implies 2 <= p.len() <= 4
        && s.tables.contains(p.drop_last()) by {
        lemma_node_prefix(mem, root, 3, p.drop_last(), 0);
    }
    assert forall|p: Seq<int>, j: int|
        #![trigger s.tables.contains(p), p[j]]
        s.tables.contains(p) && 0 <= j < p.len() implies 0 <= p[j] < 512 by {
        lemma_node_prefix(mem, root, 3, p, 0);
    }
    space::lemma_paths_finite(s.tables);
}

/// A table holds nothing if and only if none of its entries is used.
pub proof fn lemma_table_empty(mem: Seq<u64>, root: int, free: int, path: Seq<int>)
    requires
        node(mem, root, 3, path) is Some,
    ensures
        space_of(mem, root, free).table_empty(path) <==> unused(
            mem,
            node(mem, root, 3, path).unwrap(),
        ),
{
    let s = space_of(mem, root, free);
    let t = node(mem, root, 3, path).unwrap();
    lemma_node_prefix(mem, root, 3, path, 0);
    assert forall|i: int| 0 <= i < 512 implies #[trigger] s.has(path.push(i)) == entry::present(
        mem[t * 512 + i],
    ) by {
        lemma_node_push(mem, root, 3, path, i);
        assert(path.push(i).drop_last() =~= path);
    }
    if s.table_empty(path) {
        assert forall|j: int| 0 <= j < 512 implies !entry::present(#[trigger] mem[t * 512 + j]) by {
            assert(!s.has(path.push(j)));
        }
    }
    if unused(mem, t) {
        assert forall|i: int| 0 <= i < 512 implies !s.has(#[trigger] path.push(i)) by {
            assert(!entry::present(mem[t * 512 + i]));
        }
    }
}

/// Writes outside the tables leave them as they are.
pub proof fn lemma_tables_untouched(
    mem: Seq<u64>,
    mem2: Seq<u64>,
    root: int,
    lists: Seq<Seq<int>>,
    free: int,
)
    requires
        tables_ok(mem, root, lists),
        mem2.len() == mem.len(),
        forall|w: int|
            0 <= w < mem.len() && is_table(mem, root, w / 512) ==> #[trigger] mem2[w] == mem[w],
    ensures
        tables_ok(mem2, root, lists),
        forall|p: Seq<int>| #[trigger] node(mem2, root, 3, p) == node(mem, root, 3, p),
        forall|p: Seq<int>| #[trigger] dir_at(mem2, root, 3, p) == dir_at(mem, root, 3, p),
        forall|f: int| #[trigger] is_table(mem2, root, f) == is_table(mem, root, f),
        space_of(mem2, root, free) == space_of(mem, root, free),
{
    assert forall|p: Seq<int>, j: int| 0 <= j < 512 implies #[trigger] slot_kept(
        mem,
        mem2,
        root,
        p,
        j,
    ) by {
        if let Some(t) = node(mem, root, 3, p) {
            assert((t * 512 + j) / 512 == t);
            assert(is_table(mem, root, t));
            assert(mem2[t * 512 + j] == mem[t * 512 + j]);
        }
    }
    lemma_same_tables(mem, mem2, root);
    lemma_is_table_from_nodes(mem, mem2, root);
    assert(space_of(mem2, root, free) =~= space_of(mem, root, free));
}

proof fn lemma_is_table_from_nodes(mem: Seq<u64>, mem2: Seq<u64>, root: int)
    requires
        forall|p: Seq<int>| #[trigger] node(mem2, root, 3, p) == node(mem, root, 3, p),
    ensures
        forall|f: int| #[trigger] is_table(mem2, root, f) == is_table(mem, root, f),
{
    assert forall|f: int| #[trigger] is_table(mem2, root, f) == is_table(mem, root, f) by {
        if is_table(mem2, root, f) {
            let p = choose|p: Seq<int>| #[trigger] node(mem2, root, 3, p) == Some(f);
            assert(node(mem, root, 3, p) == Some(f));
        }
        if is_table(mem, root, f) {
            let p = choose|p: Seq<int>| #[trigger] node(mem, root, 3, p) == Some(f);
            assert(node(mem2, root, 3, p) == Some(f));
        }
    }
}

/// In a tree, a write to one entry of a table reaches no other entry.
proof fn lemma_one_slot(
    mem: Seq<u64>,
    root: int,
    lists: Seq<Seq<int>>,
    at: Seq<int>,
    i: int,
    e: u64,
)
    requires
        tables_ok(mem, root, lists),
        node(mem, root, 3, at) is Some,
        0 <= i < 512,
    ensures
        ({
            let t = node(mem, root, 3, at).unwrap();
            let mem2 = mem.update(t * 512 + i, e);
            &&& mem2[t * 512 + i] == e
            &&& forall|p: Seq<int>, j: int|
                0 <= j < 512 && !(p == at && j == i) ==> #[trigger] slot_kept(
                    mem,
                    mem2,
                    root,
                    p,
                    j,
                )
        }),
{
    let t = node(mem, root, 3, at).unwrap();
    let mem2 = mem.update(t * 512 + i, e);
    assert forall|p: Seq<int>, j: int| 0 <= j < 512 && !(p == at && j == i) implies #[trigger] slot_kept(
        mem,
        mem2,
        root,
        p,
        j,
    ) by {
        if let Some(u) = node(mem, root, 3, p) {
            if u * 512 + j == t * 512 + i {
                assert(u == t && j == i);
            }
        }
    }
}

/// An unused entry is made to refer to a new table.
pub proof fn lemma_add_table(
    mem: Seq<u64>,
    root: int,
    lists: Seq<Seq<int>>,
    free: int,
    at: Seq<int>,
    i: int,
    e: u64,
)
    requires
        tables_ok(mem, root, lists),
        node(mem, root, 3, at) is Some,
        0 <= i < 512,
        !entry::present(mem[node(mem, root, 3, at).unwrap() * 512 + i]),
        entry::is_dir(e, 3 - at.len()),
        unused(mem, entry::entry_frame(e)),
        !is_table(mem, root, entry::entry_frame(e)),
        0 <= entry::entry_frame(e),
        entry::entry_frame(e) * 512 + 512 <= mem.len(),
        !free_lists::covers(lists, entry::entry_frame(e)),
    ensures
        ({
            let g = entry::entry_frame(e);
            let mem2 = mem.update(node(mem, root, 3, at).unwrap() * 512 + i, e);
            let s = space_of(mem, root, free);
            &&& tables_ok(mem2, root, lists)
            &&& forall|p: Seq<int>| #[trigger]
                node(mem2, root, 3, p) == (if p == at.push(i) {
                    Some(g)
                } else {
                    node(mem, root, 3, p)
                })
            &&& forall|p: Seq<int>| #[trigger]
                dir_at(mem2, root, 3, p) == (if p == at.push(i) {
                    Some(e)
                } else {
                    dir_at(mem, root, 3, p)
                })
            &&& forall|f: int| #[trigger]
                is_table(mem2, root, f) == (f == g || is_table(mem, root, f))
            &&& node(mem, root, 3, at.push(i)) is None
            &&& space_of(mem2, root, free) == (Space { tables: s.tables.insert(at.push(i)), ..s })
            &&& !s.has(at.push(i))
        }),
{
    let g = entry::entry_frame(e);
    let t = node(mem, root, 3, at).unwrap();
    let here = at.push(i);
    let mem2 = mem.update(t * 512 + i, e);
    let s = space_of(mem, root, free);
    assert(here.drop_last() =~= at);
    lemma_node_push(mem, root, 3, at, i);
    lemma_one_slot(mem, root, lists, at, i, e);
    assert(unused(mem2, g)) by {
        assert(g != t);
        assert forall|j: int| 0 <= j < 512 implies !entry::present(
            #[trigger] mem2[g * 512 + j],
        ) by {
            assert(!entry::present(mem[g * 512 + j]));
            assert(mem2[g * 512 + j] == mem[g * 512 + j]);
        }
    }
    lemma_write_entry(mem, mem2, root, at, i);
    assert forall|p: Seq<int>, q: Seq<int>|
        #![trigger node(mem2, root, 3, p), node(mem2, root, 3, q)]
        node(mem2, root, 3, p) is Some && node(mem2, root, 3, p) == node(
            mem2,
            root,
            3,
            q,
        ) implies p == q by {
        let _ = node(mem, root, 3, p);
        let _ = node(mem, root, 3, q);
        if p == here && q != here {
            assert(node(mem, root, 3, q) == Some(g));
        }
        if q == here && p != here {
            assert(node(mem, root, 3, p) == Some(g));
        }
    }
    assert forall|f: int| #[trigger] is_table(mem2, root, f) == (f == g || is_table(
        mem,
        root,
        f,
    )) by {
        if is_table(mem2, root, f) {
            let p = choose|p: Seq<int>| #[trigger] node(mem2, root, 3, p) == Some(f);
            let _ = node(mem, root, 3, p);
        }
        if is_table(mem, root, f) {
            let p = choose|p: Seq<int>| #[trigger] node(mem, root, 3, p) == Some(f);
            assert(node(mem2, root, 3, p) == Some(f));
        }
        assert(node(mem2, root, 3, here) == Some(g));
    }
    assert(space_of(mem2, root, free) =~= (Space { tables: s.tables.insert(here), ..s }));
}

/// The entry of a table that holds nothing is cleared.
pub proof fn lemma_remove_table(
    mem: Seq<u64>,
    root: int,
    lists: Seq<Seq<int>>,
    free: int,
    at: Seq<int>,
    i: int,
)
    requires
        tables_ok(mem, root, lists),
        0 <= i < 512,
        node(mem, root, 3, at) is Some,
        node(mem, root, 3, at.push(i)) is Some,
        unused(mem, node(mem, root, 3, at.push(i)).unwrap()),
    ensures
        ({
            let g = node(mem, root, 3, at.push(i)).unwrap();
            let mem2 = mem.update(node(mem, root, 3, at).unwrap() * 512 + i, 0);
            let s = space_of(mem, root, free);
            &&& tables_ok(mem2, root, lists)
            &&& forall|p: Seq<int>| #[trigger]
                node(mem2, root, 3, p) == (if p == at.push(i) {
                    None
                } else {
                    node(mem, root, 3, p)
                })
            &&& forall|p: Seq<int>| #[trigger]
                dir_at(mem2, root, 3, p) == (if p == at.push(i) {
                    None
                } else {
                    dir_at(mem, root, 3, p)
                })
            &&& forall|f: int| #[trigger]
                is_table(mem2, root, f) == (f != g && is_table(mem, root, f))
            &&& space_of(mem2, root, free) == (Space { tables: s.tables.remove(at.push(i)), ..s })
        }),
{
    let t = node(mem, root, 3, at).unwrap();
    let here = at.push(i);
    let g = node(mem, root, 3, here).unwrap();
    let mem2 = mem.update(t * 512 + i, 0);
    let s = space_of(mem, root, free);
    assert(here.drop_last() =~= at);
    entry::lemma_zero_entry();
    lemma_node_push(mem, root, 3, at, i);
    lemma_one_slot(mem, root, lists, at, i, 0);
    lemma_write_entry(mem, mem2, root, at, i);
    assert forall|p: Seq<int>, q: Seq<int>|
        #![trigger node(mem2, root, 3, p), node(mem2, root, 3, q)]
        node(mem2, root, 3, p) is Some && node(mem2, root, 3, p) == node(
            mem2,
            root,
            3,
            q,
        ) implies p == q by {
        let _ = node(mem, root, 3, p);
        let _ = node(mem, root, 3, q);
    }
    assert forall|f: int| #[trigger] is_table(mem2, root, f) == (f != g && is_table(
        mem,
        root,
        f,
    )) by {
        if is_table(mem2, root, f) {
            let p = choose|p: Seq<int>| #[trigger] node(mem2, root, 3, p) == Some(f);
            assert(node(mem, root, 3, p) == Some(f));
        }
        if f != g && is_table(mem, root, f) {
            let p = choose|p: Seq<int>| #[trigger] node(mem, root, 3, p) == Some(f);
            assert(node(mem2, root, 3, p) == Some(f));
        }
    }
    assert(space_of(mem2, root, free) =~= (Space { tables: s.tables.remove(here), ..s }));
}

/// An entry that refers to no table is overwritten by one that does not
/// either.
pub proof fn lemma_write_page(
    mem: Seq<u64>,
    root: int,
    lists: Seq<Seq<int>>,
    free: int,
    at: Seq<int>,
    i: int,
    e: u64,
)
    requires
        tables_ok(mem, root, lists),
        0 <= i < 512,
        node(mem, root, 3, at) is Some,
        node(mem, root, 3, at.push(i)) is None,
        !entry::is_dir(e, 3 - at.len()),
    ensures
        ({
            let mem2 = mem.update(node(mem, root, 3, at).unwrap() * 512 + i, e);
            let s = space_of(mem, root, free);
            &&& tables_ok(mem2, root, lists)
            &&& forall|p: Seq<int>| #[trigger] node(mem2, root, 3, p) == node(mem, root, 3, p)
            &&& forall|p: Seq<int>| #[trigger] dir_at(mem2, root, 3, p) == dir_at(mem, root, 3, p)
            &&& forall|f: int| #[trigger] is_table(mem2, root, f) == is_table(mem, root, f)
            &&& space_of(mem2, root, free) == (Space {
                leaves: if entry::is_leaf(e, 3 - at.len()) {
                    s.leaves.insert(at.push(i), e)
                } else {
                    s.leaves.remove(at.push(i))
                },
                ..s
            })
        }),
{
    let t = node(mem, root, 3, at).unwrap();
    let here = at.push(i);
    let mem2 = mem.update(t * 512 + i, e);
    let s = space_of(mem, root, free);
    assert(here.drop_last() =~= at);
    lemma_node_push(mem, root, 3, at, i);
    lemma_one_slot(mem, root, lists, at, i, e);
    lemma_write_entry(mem, mem2, root, at, i);
    lemma_is_table_from_nodes(mem, mem2, root);
    assert(space_of(mem2, root, free) =~= (Space {
        leaves: if entry::is_leaf(e, 3 - at.len()) {
            s.leaves.insert(here, e)
        } else {
            s.leaves.remove(here)
        },
        ..s
    }));
}

} // verus!
