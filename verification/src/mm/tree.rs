//! Page tables as a value: an address space, the entries that lead to its
//! tables, and the free blocks that the frames of tables come from and go to.
use vstd::prelude::*;

use crate::mm::entry;
use crate::mm::free_lists;
use crate::mm::space;
use crate::mm::space::Space;
use crate::mm::tables;
use crate::mm::vmm;
use crate::mm::vmm::{MapError, PageSize, UnmapError};

verus! {

/// Page tables.
#[verifier::ext_equal]
pub struct Tree {
    /// The tables and the mapped pages.
    pub space: Space,
    /// The entries that refer to tables, by the path of the table. They say in
    /// which frame a table is.
    pub dirs: Map<Seq<int>, u64>,
    /// The free blocks.
    pub lists: Seq<Seq<int>>,
}

/// What the allocator holds after the frames of `c` tables on a path were
/// freed, from the one at depth `d` up.
pub open spec fn release(
    lists: Seq<Seq<int>>,
    dirs: Map<Seq<int>, u64>,
    path: Seq<int>,
    d: int,
    c: int,
) -> Seq<Seq<int>>
    decreases c,
{
    if c <= 0 {
        lists
    } else {
        let frame = entry::entry_frame(dirs[path.take(d)]);
        release(free_lists::free_lists_of(lists, frame, 0), dirs, path, d - 1, c - 1)
    }
}

impl Tree {
    /// The tables below a root, where `free` frames are left.
    pub open spec fn of(mem: Seq<u64>, root: int, lists: Seq<Seq<int>>, free: int) -> Tree {
        Tree {
            space: tables::space_of(mem, root, free),
            dirs: Map::new(
                |p: Seq<int>| tables::dir_at(mem, root, 3, p) is Some,
                |p: Seq<int>| tables::dir_at(mem, root, 3, p).unwrap(),
            ),
            lists,
        }
    }

    /// The tables that turn the address space into `s`, which has a page more at
    /// depth `n` of a path. Missing tables are in the frames that the allocator
    /// gives out next, the uppermost first; all others stay as they are.
    pub open spec fn grown(self, path: Seq<int>, n: int, s: Space) -> Tree {
        let need = self.space.missing(path, n);
        Tree {
            space: s,
            dirs: Map::new(
                |p: Seq<int>| p.len() > 0 && s.tables.contains(p),
                |p: Seq<int>|
                    if self.space.tables.contains(p) {
                        self.dirs[p]
                    } else {
                        vmm::frame_entry(
                            free_lists::alloc_frame_of(
                                vmm::alloc_frames(self.lists, p.len() - (n - need)),
                                0,
                            ),
                        )
                    },
            ),
            lists: vmm::alloc_frames(self.lists, need),
        }
    }

    /// Maps a page.
    pub open spec fn map(self, virt: u64, phys: u64, flags: u64, size: PageSize) -> (
        Tree,
        Result<(), MapError>,
    ) {
        let r = self.space.map(virt, phys, flags, size);
        if r.1 is Ok {
            (self.grown(space::path_of(virt), space::depth(size), r.0), r.1)
        } else {
            (self, r.1)
        }
    }

    /// The tables that turn the address space into `s`, which lacks a page and
    /// the lowest tables on its path.
    pub open spec fn shrunk(self, path: Seq<int>, n: int, s: Space) -> Tree {
        Tree {
            space: s,
            dirs: self.dirs.restrict(s.tables),
            lists: release(self.lists, self.dirs, path, n - 1, s.free - self.space.free),
        }
    }

    /// Unmaps a page, and frees the tables that are then empty.
    pub open spec fn unmap(self, virt: u64, size: PageSize) -> (Tree, Result<(), UnmapError>) {
        let r = self.space.unmap(virt, size);
        if r.1 is Ok {
            (self.shrunk(space::path_of(virt), space::depth(size), r.0), r.1)
        } else {
            (self, r.1)
        }
    }

    /// Unmaps the pages numbered from `i` to `end` of a range, as far as each
    /// is mapped.
    pub open spec fn roll_back(self, virt: u64, size: PageSize, i: int, end: int) -> Tree
        decreases end - i,
    {
        if i >= end {
            self
        } else {
            self.unmap((virt + i * space::page_bytes(size)) as u64, size).0.roll_back(
                virt,
                size,
                i + 1,
                end,
            )
        }
    }

    /// Maps the pages numbered from `i` to `pages` of a range; where one of
    /// them cannot be mapped, unmaps all before it.
    pub open spec fn map_range(
        self,
        virt: u64,
        phys: u64,
        pages: int,
        flags: u64,
        size: PageSize,
        i: int,
    ) -> (Tree, Result<(), MapError>)
        decreases pages - i,
    {
        if i >= pages {
            (self, Ok(()))
        } else {
            let step = i * space::page_bytes(size);
            let next = self.map((virt + step) as u64, (phys + step) as u64, flags, size);
            if next.1 is Ok {
                next.0.map_range(virt, phys, pages, flags, size, i + 1)
            } else {
                (next.0.roll_back(virt, size, 0, i), next.1)
            }
        }
    }

    /// Unmaps the pages numbered from `i` to `pages` of a range, up to the
    /// first that is not mapped.
    pub open spec fn unmap_range(self, virt: u64, pages: int, size: PageSize, i: int) -> (
        Tree,
        Result<(), UnmapError>,
    )
        decreases pages - i,
    {
        if i >= pages {
            (self, Ok(()))
        } else {
            let next = self.unmap((virt + i * space::page_bytes(size)) as u64, size);
            if next.1 is Ok {
                next.0.unmap_range(virt, pages, size, i + 1)
            } else {
                next
            }
        }
    }
}

/// The memory that mapping a page leaves behind holds the tables that it
/// should.
pub proof fn lemma_map(
    mem: Seq<u64>,
    lists: Seq<Seq<int>>,
    free: int,
    mem2: Seq<u64>,
    lists2: Seq<Seq<int>>,
    free2: int,
    root: int,
    virt: u64,
    phys: u64,
    flags: u64,
    size: PageSize,
    r: Result<(), MapError>,
)
    requires
        free >= 0,
        (tables::space_of(mem2, root, free2), r) == tables::space_of(mem, root, free).map(
            virt,
            phys,
            flags,
            size,
        ),
        ({
            let path = space::path_of(virt);
            let n = space::depth(size);
            let need = tables::space_of(mem, root, free).missing(path, n);
            &&& lists2 == if r is Ok {
                vmm::alloc_frames(lists, need)
            } else {
                lists
            }
            &&& forall|p: Seq<int>| #[trigger]
                tables::dir_at(mem2, root, 3, p) == (if r is Ok {
                    vmm::dir_after_map(
                        lists,
                        path,
                        n,
                        need,
                        p,
                        tables::dir_at(mem, root, 3, p),
                    )
                } else {
                    tables::dir_at(mem, root, 3, p)
                })
        }),
    ensures
        (Tree::of(mem2, root, lists2, free2), r) == Tree::of(mem, root, lists, free).map(
            virt,
            phys,
            flags,
            size,
        ),
{
    let path = space::path_of(virt);
    let n = space::depth(size);
    let before = Tree::of(mem, root, lists, free);
    let after = Tree::of(mem2, root, lists2, free2);
    let s = before.space;
    let s2 = after.space;
    let need = s.missing(path, n);
    tables::lemma_space_wf(mem, root, free);
    if r is Ok {
        let grown = before.grown(path, n, s2);
        assert forall|p: Seq<int>| #[trigger] after.dirs.contains_key(p) == grown.dirs.contains_key(
            p,
        ) by {
            tables::lemma_dir(mem2, root, 3, p);
        }
        assert forall|p: Seq<int>| #[trigger] after.dirs.contains_key(p) implies after.dirs[p]
            == grown.dirs[p] by {
            tables::lemma_dir(mem2, root, 3, p);
            tables::lemma_dir(mem, root, 3, p);
            let m = p.len() as int;
            assert(s2.tables.contains(p));
            if p == path.take(m) && m < n {
                space::lemma_missing_tables(s, path, n, m);
            }
        }
        assert(after.dirs =~= grown.dirs);
    } else {
        assert(after.dirs =~= before.dirs);
    }
}

proof fn lemma_release(
    mem: Seq<u64>,
    root: int,
    lists: Seq<Seq<int>>,
    free: int,
    path: Seq<int>,
    d: int,
    c: int,
)
    requires
        0 <= d <= path.len(),
        c <= d,
        tables::node(mem, root, 3, path.take(d)) is Some || c <= 0,
    ensures
        vmm::release_tables(lists, mem, root, path, d, c) == release(
            lists,
            Tree::of(mem, root, lists, free).dirs,
            path,
            d,
            c,
        ),
    decreases c,
{
    if c > 0 {
        let dirs = Tree::of(mem, root, lists, free).dirs;
        let here = path.take(d);
        tables::lemma_dir(mem, root, 3, here);
        assert(dirs.contains_key(here));
        let next = free_lists::free_lists_of(lists, entry::entry_frame(dirs[here]), 0);
        if c > 1 {
            tables::lemma_node_prefix(mem, root, 3, here, d - 1);
            assert(here.take(d - 1) =~= path.take(d - 1));
        }
        lemma_release(mem, root, next, free, path, d - 1, c - 1);
    }
}

/// The memory that unmapping a page leaves behind holds the tables that it
/// should.
pub proof fn lemma_unmap(
    mem: Seq<u64>,
    lists: Seq<Seq<int>>,
    free: int,
    mem2: Seq<u64>,
    lists2: Seq<Seq<int>>,
    free2: int,
    root: int,
    virt: u64,
    size: PageSize,
    r: Result<(), UnmapError>,
)
    requires
        free >= 0,
        (tables::space_of(mem2, root, free2), r) == tables::space_of(mem, root, free).unmap(
            virt,
            size,
        ),
        r is Err ==> mem2 == mem && lists2 == lists,
        r is Ok ==> free2 - free < space::depth(size) && lists2 == vmm::release_tables(
            lists,
            mem,
            root,
            space::path_of(virt),
            space::depth(size) - 1,
            free2 - free,
        ),
        vmm::no_new_dirs(mem, mem2, root),
    ensures
        (Tree::of(mem2, root, lists2, free2), r) == Tree::of(mem, root, lists, free).unmap(
            virt,
            size,
        ),
{
    let path = space::path_of(virt);
    let n = space::depth(size);
    let before = Tree::of(mem, root, lists, free);
    let after = Tree::of(mem2, root, lists2, free2);
    if r is Ok {
        let shrunk = before.shrunk(path, n, after.space);
        tables::lemma_space_wf(mem, root, free);
        assert(path.take(n).drop_last() =~= path.take(n - 1));
        assert(before.space.tables.contains(path.take(n - 1)));
        lemma_release(mem, root, lists, free, path, n - 1, free2 - free);
        assert forall|p: Seq<int>| #[trigger] after.dirs.contains_key(p)
            == shrunk.dirs.contains_key(p) by {
            tables::lemma_dir(mem2, root, 3, p);
            tables::lemma_dir(mem, root, 3, p);
            if shrunk.dirs.contains_key(p) {
                assert(before.dirs.contains_key(p));
                assert(after.space.tables.contains(p));
            }
        }
        assert(after.dirs =~= shrunk.dirs);
    }
}

} // verus!
