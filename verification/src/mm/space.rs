//! An address space as a value: the tables and the mapped pages by path.
use vstd::prelude::*;
use vstd::set_lib::*;

use crate::mm::entry;
use crate::mm::vmm::{MapError, PageSize, UnmapError};

verus! {

/// Flags that large and huge pages take over from those asked for.
pub const LEAF_FLAGS: u64 = 0x8000_0000_0000_011E;

/// An address space.
///
/// A path is the sequence of table indices from the top level down. A table is
/// named by the path that leads to it, a mapped page by the path of its entry.
#[verifier::ext_equal]
pub struct Space {
    /// The tables.
    pub tables: Set<Seq<int>>,
    /// The entries that map pages.
    pub leaves: Map<Seq<int>, u64>,
    /// Frames that new tables can be taken from.
    pub free: int,
}

/// The address is sign-extended from bit 47.
pub open spec fn canonical(virt: u64) -> bool {
    virt < 0x8000_0000_0000 || virt >= 0xFFFF_8000_0000_0000
}

/// Bytes in a page.
pub open spec fn page_bytes(size: PageSize) -> int {
    match size {
        PageSize::Base => 0x1000,
        PageSize::Large => 0x20_0000,
        PageSize::Huge => 0x4000_0000,
    }
}

/// Length of the path of the entry that maps a page.
pub open spec fn depth(size: PageSize) -> int {
    match size {
        PageSize::Base => 4,
        PageSize::Large => 3,
        PageSize::Huge => 2,
    }
}

/// Table indices of an address, from the top level down.
pub open spec fn path_of(virt: u64) -> Seq<int> {
    seq![
        entry::level_index(virt, 3),
        entry::level_index(virt, 2),
        entry::level_index(virt, 1),
        entry::level_index(virt, 0),
    ]
}

/// Flags of the entry that maps a page.
pub open spec fn page_flags(flags: u64, size: PageSize) -> u64 {
    if size is Base {
        flags | entry::P
    } else {
        (flags & LEAF_FLAGS) | entry::P | entry::PS
    }
}

/// Entry that maps a page.
pub open spec fn page_entry(phys: u64, flags: u64, size: PageSize) -> u64 {
    phys | page_flags(flags, size)
}

impl Space {
    /// There is a table or a mapped page at the path.
    pub open spec fn has(self, path: Seq<int>) -> bool {
        self.tables.contains(path) || self.leaves.contains_key(path)
    }

    /// What every address space keeps: the top-level table exists, tables and
    /// pages are reached through tables, and no path is both.
    pub open spec fn wf(self) -> bool {
        &&& self.free >= 0
        &&& self.tables.finite()
        &&& self.tables.contains(Seq::empty())
        &&& forall|p: Seq<int>, k: int|
            #![trigger self.tables.contains(p), p.take(k)]
            self.tables.contains(p) && 0 <= k <= p.len() ==> self.tables.contains(p.take(k))
        &&& forall|p: Seq<int>| #[trigger]
            self.tables.contains(p) ==> p.len() <= 3 && !self.leaves.contains_key(p)
        &&& forall|p: Seq<int>| #[trigger]
            self.leaves.contains_key(p) ==> 2 <= p.len() <= 4 && self.tables.contains(
                p.drop_last(),
            )
        &&& forall|p: Seq<int>, j: int|
            #![trigger self.tables.contains(p), p[j]]
            self.tables.contains(p) && 0 <= j < p.len() ==> 0 <= p[j] < 512
        &&& forall|p: Seq<int>| #[trigger]
            self.leaves.contains_key(p) ==> 0 <= p.last() < 512
    }

    /// Where an address leads, and with which flags.
    pub open spec fn translate(self, virt: u64) -> Option<(int, u64)> {
        let path = path_of(virt);
        if !canonical(virt) {
            None
        } else if self.leaves.contains_key(path.take(2)) {
            self.lookup(virt, PageSize::Huge)
        } else if self.leaves.contains_key(path.take(3)) {
            self.lookup(virt, PageSize::Large)
        } else if self.leaves.contains_key(path.take(4)) {
            self.lookup(virt, PageSize::Base)
        } else {
            None
        }
    }

    /// Where the page of the given size that holds an address leads.
    pub open spec fn lookup(self, virt: u64, size: PageSize) -> Option<(int, u64)> {
        let e = self.leaves[path_of(virt).take(depth(size))];
        Some((entry::entry_addr(e) + virt as int % page_bytes(size), e & entry::PT_FLAGS_ALL))
    }

    /// Number of tables that are missing on the way to an entry.
    pub open spec fn missing(self, path: Seq<int>, n: int) -> int
        decreases n,
    {
        if n <= 1 {
            0
        } else {
            self.missing(path, n - 1) + if self.tables.contains(path.take(n - 1)) {
                0int
            } else {
                1
            }
        }
    }

    /// The entry at the first `n` steps of a path is in use, or a page is
    /// mapped above it.
    pub open spec fn blocked(self, path: Seq<int>, n: int) -> bool {
        ||| self.has(path.take(n))
        ||| exists|k: int| 0 < k < n && self.leaves.contains_key(#[trigger] path.take(k))
    }

    /// The space with an entry and the tables that lead to it.
    pub open spec fn with_page(self, path: Seq<int>, n: int, e: u64) -> Space {
        Space {
            tables: Set::new(
                |p: Seq<int>|
                    self.tables.contains(p) || (p.len() < n && p == path.take(p.len() as int)),
            ),
            leaves: self.leaves.insert(path.take(n), e),
            free: self.free - self.missing(path, n),
        }
    }

    /// Enters a page: nothing changes unless the entry is free and all tables
    /// that are missing can be made.
    pub open spec fn place(self, path: Seq<int>, n: int, e: u64) -> (Space, Result<
        (),
        MapError,
    >) {
        if self.blocked(path, n) {
            (self, Err(MapError::AlreadyMapped))
        } else if self.missing(path, n) > self.free {
            (self, Err(MapError::OutOfMemory))
        } else {
            (self.with_page(path, n, e), Ok(()))
        }
    }

    /// Maps a page.
    pub open spec fn map(self, virt: u64, phys: u64, flags: u64, size: PageSize) -> (
        Space,
        Result<(), MapError>,
    ) {
        if !canonical(virt) {
            (self, Err(MapError::NonCanonical))
        } else if virt as int % page_bytes(size) != 0 || phys as int % page_bytes(size) != 0 {
            (self, Err(MapError::Misaligned))
        } else {
            self.place(path_of(virt), depth(size), page_entry(phys, flags, size))
        }
    }

    /// The table at a path holds nothing.
    pub open spec fn table_empty(self, path: Seq<int>) -> bool {
        forall|i: int| 0 <= i < 512 ==> !self.has(#[trigger] path.push(i))
    }

    /// Gives a table back if it holds nothing.
    pub open spec fn reclaim(self, path: Seq<int>) -> Space {
        if self.table_empty(path) {
            Space { tables: self.tables.remove(path), free: self.free + 1, ..self }
        } else {
            self
        }
    }

    /// Gives back the tables on a path that hold nothing, from depth `d` up to
    /// the one below depth `k`.
    pub open spec fn reclaim_up(self, path: Seq<int>, d: int, k: int) -> Space
        decreases d - k,
    {
        if d <= k {
            self
        } else {
            self.reclaim(path.take(d)).reclaim_up(path, d - 1, k)
        }
    }

    /// The space without an entry.
    pub open spec fn without_page(self, path: Seq<int>) -> Space {
        Space { leaves: self.leaves.remove(path), ..self }
    }

    /// Unmaps a page, and gives back the tables that are then empty.
    pub open spec fn unmap(self, virt: u64, size: PageSize) -> (Space, Result<(), UnmapError>) {
        let path = path_of(virt);
        let n = depth(size);
        if !canonical(virt) {
            (self, Err(UnmapError::NonCanonical))
        } else if virt as int % page_bytes(size) != 0 {
            (self, Err(UnmapError::Misaligned))
        } else if !self.leaves.contains_key(path.take(n)) {
            (self, Err(UnmapError::NotMapped))
        } else {
            (self.without_page(path.take(n)).reclaim_up(path, n - 1, 0), Ok(()))
        }
    }

    /// Unmaps the pages numbered from `i` to `end` of a range, as far as each
    /// is mapped.
    pub open spec fn roll_back(self, virt: u64, size: PageSize, i: int, end: int) -> Space
        decreases end - i,
    {
        if i >= end {
            self
        } else {
            self.unmap((virt + i * page_bytes(size)) as u64, size).0.roll_back(
                virt,
                size,
                i + 1,
                end,
            )
        }
    }

    /// Maps the pages numbered from `i` to `pages` of a range; where one of
    /// them cannot be mapped, unmaps all before it.
    pub open spec fn map_range(
        self,
        virt: u64,
        phys: u64,
        pages: int,
        flags: u64,
        size: PageSize,
        i: int,
    ) -> (Space, Result<(), MapError>)
        decreases pages - i,
    {
        if i >= pages {
            (self, Ok(()))
        } else {
            let step = i * page_bytes(size);
            let next = self.map((virt + step) as u64, (phys + step) as u64, flags, size);
            if next.1 is Ok {
                next.0.map_range(virt, phys, pages, flags, size, i + 1)
            } else {
                (next.0.roll_back(virt, size, 0, i), next.1)
            }
        }
    }

    /// No address overflows while a range is mapped from page `i` on, and every
    /// page that is mapped lies within the physical address space.
    pub open spec fn range_fits(
        self,
        virt: u64,
        phys: u64,
        pages: int,
        flags: u64,
        size: PageSize,
        i: int,
    ) -> bool
        decreases pages - i,
    {
        i >= pages || {
            let step = i * page_bytes(size);
            let next = self.map((virt + step) as u64, (phys + step) as u64, flags, size);
            &&& virt + step <= u64::MAX
            &&& phys + step <= u64::MAX
            &&& next.1 is Ok ==> phys + step < 0x10_0000_0000_0000 && next.0.range_fits(
                virt,
                phys,
                pages,
                flags,
                size,
                i + 1,
            )
        }
    }

    /// No address overflows while a range is unmapped from page `i` on.
    pub open spec fn unmap_fits(self, virt: u64, pages: int, size: PageSize, i: int) -> bool
        decreases pages - i,
    {
        i >= pages || {
            let step = i * page_bytes(size);
            let next = self.unmap((virt + step) as u64, size);
            &&& virt + step <= u64::MAX
            &&& next.1 is Ok ==> next.0.unmap_fits(virt, pages, size, i + 1)
        }
    }

    /// Unmaps the pages numbered from `i` to `pages` of a range, up to the
    /// first that is not mapped.
    pub open spec fn unmap_range(self, virt: u64, pages: int, size: PageSize, i: int) -> (
        Space,
        Result<(), UnmapError>,
    )
        decreases pages - i,
    {
        if i >= pages {
            (self, Ok(()))
        } else {
            let next = self.unmap((virt + i * page_bytes(size)) as u64, size);
            if next.1 is Ok {
                next.0.unmap_range(virt, pages, size, i + 1)
            } else {
                next
            }
        }
    }
}

/// A range whose end does not overflow and that ends within the physical
/// address space can be mapped.
pub proof fn lemma_range_fits(
    s: Space,
    virt: u64,
    phys: u64,
    pages: int,
    flags: u64,
    size: PageSize,
    i: int,
)
    requires
        0 <= i,
        virt + pages * page_bytes(size) <= u64::MAX,
        phys + pages * page_bytes(size) <= 0x10_0000_0000_0000,
    ensures
        s.range_fits(virt, phys, pages, flags, size, i),
    decreases pages - i,
{
    if i < pages {
        let step = i * page_bytes(size);
        assert((i + 1) * page_bytes(size) <= pages * page_bytes(size)) by (nonlinear_arith)
            requires
                i + 1 <= pages,
                page_bytes(size) >= 0,
        ;
        assert((i + 1) * page_bytes(size) == step + page_bytes(size)) by (nonlinear_arith)
            requires
                step == i * page_bytes(size),
        ;
        let next = s.map((virt + step) as u64, (phys + step) as u64, flags, size);
        lemma_range_fits(next.0, virt, phys, pages, flags, size, i + 1);
    }
}

/// A range whose end does not overflow can be unmapped.
pub proof fn lemma_unmap_fits(s: Space, virt: u64, pages: int, size: PageSize, i: int)
    requires
        0 <= i,
        virt + pages * page_bytes(size) <= u64::MAX,
    ensures
        s.unmap_fits(virt, pages, size, i),
    decreases pages - i,
{
    if i < pages {
        let step = i * page_bytes(size);
        assert(i * page_bytes(size) <= pages * page_bytes(size)) by (nonlinear_arith)
            requires
                i <= pages,
                page_bytes(size) >= 0,
        ;
        lemma_unmap_fits(s.unmap((virt + step) as u64, size).0, virt, pages, size, i + 1);
    }
}

/// Path number `c`, in an order in which all paths of tables come up.
spec fn nth_path(c: int) -> Seq<int> {
    let rest = c / 4;
    Seq::new(
        (c % 4) as nat,
        |j: int|
            if j == 0 {
                rest % 512
            } else if j == 1 {
                (rest / 512) % 512
            } else {
                (rest / 512) / 512
            },
    )
}

/// There are finitely many paths that a table can have.
pub proof fn lemma_paths_finite(paths: Set<Seq<int>>)
    requires
        forall|p: Seq<int>| #[trigger] paths.contains(p) ==> p.len() <= 3,
        forall|p: Seq<int>, j: int|
            #![trigger paths.contains(p), p[j]]
            paths.contains(p) && 0 <= j < p.len() ==> 0 <= p[j] < 512,
    ensures
        paths.finite(),
{
    let range = set_int_range(0, 0x2000_0000);
    let f = |c: int| nth_path(c);
    let all = range.map(f);
    lemma_int_range(0, 0x2000_0000);
    range.lemma_map_finite(f);
    assert forall|p: Seq<int>| #[trigger] paths.contains(p) implies all.contains(p) by {
        let d0 = if p.len() > 0 {
            p[0]
        } else {
            0
        };
        let d1 = if p.len() > 1 {
            p[1]
        } else {
            0
        };
        let d2 = if p.len() > 2 {
            p[2]
        } else {
            0
        };
        let rest = d0 + 512 * d1 + 262144 * d2;
        let c = 4 * rest + p.len();
        assert(0 <= d0 < 512 && 0 <= d1 < 512 && 0 <= d2 < 512);
        assert(c % 4 == p.len() && c / 4 == rest);
        assert(rest % 512 == d0 && rest / 512 == d1 + 512 * d2);
        assert((d1 + 512 * d2) % 512 == d1 && (d1 + 512 * d2) / 512 == d2);
        assert(nth_path(c) =~= p);
        assert(f(c) == p);
        assert(range.contains(c));
    }
    assert(paths.subset_of(all));
    lemma_set_subset_finite(all, paths);
}

/// The last table that is given back comes after all below it.
pub proof fn lemma_reclaim_last(s: Space, path: Seq<int>, d: int, k: int)
    requires
        k < d,
    ensures
        s.reclaim_up(path, d, k) == s.reclaim_up(path, d, k + 1).reclaim(path.take(k + 1)),
    decreases d - k,
{
    if d > k + 1 {
        lemma_reclaim_last(s.reclaim(path.take(d)), path, d - 1, k);
    } else {
        assert(s.reclaim(path.take(d)).reclaim_up(path, k, k) == s.reclaim(path.take(d)));
    }
}

/// Giving tables back leaves those outside the given depths alone.
pub proof fn lemma_reclaim_keeps(s: Space, path: Seq<int>, d: int, k: int, q: Seq<int>)
    requires
        q.len() <= k,
        0 <= k,
        d <= path.len(),
    ensures
        s.reclaim_up(path, d, k).tables.contains(q) == s.tables.contains(q),
        s.reclaim_up(path, d, k).leaves == s.leaves,
    decreases d - k,
{
    if d > k {
        assert(path.take(d).len() == d);
        lemma_reclaim_keeps(s.reclaim(path.take(d)), path, d - 1, k, q);
    }
}

/// Mapping takes as many frames as tables are missing.
pub proof fn lemma_map_free(s: Space, virt: u64, phys: u64, flags: u64, size: PageSize)
    ensures
        ({
            let r = s.map(virt, phys, flags, size);
            let need = s.missing(path_of(virt), depth(size));
            &&& need >= 0
            &&& r.1 is Ok ==> r.0.free == s.free - need
            &&& r.1 is Err ==> r.0 == s
        }),
{
    lemma_missing_bounds(s, path_of(virt), depth(size));
}

/// Nothing lies below a path at which there is no table.
pub proof fn lemma_absent(s: Space, path: Seq<int>, k: int, n: int)
    requires
        s.wf(),
        !s.tables.contains(path.take(k)),
        0 <= k < n <= path.len(),
    ensures
        !s.has(path.take(n)),
{
    let p = path.take(n);
    assert(p.take(k) =~= path.take(k));
    assert(p.drop_last().take(k) =~= path.take(k));
}

proof fn lemma_missing_bounds(s: Space, path: Seq<int>, n: int)
    ensures
        0 <= s.missing(path, n),
    decreases n,
{
    if n > 1 {
        lemma_missing_bounds(s, path, n - 1);
    }
}

/// The tables up to depth `k` are there.
proof fn lemma_missing_below(s: Space, path: Seq<int>, k: int, n: int)
    requires
        s.wf(),
        s.tables.contains(path.take(k)),
        n <= k + 1,
        k <= path.len(),
    ensures
        s.missing(path, n) == 0,
    decreases n,
{
    if n > 1 {
        lemma_missing_below(s, path, k, n - 1);
        assert(path.take(k).take(n - 1) =~= path.take(n - 1));
    }
}

/// Making the first missing table leaves one fewer to make.
proof fn lemma_missing_step(s: Space, s2: Space, path: Seq<int>, k: int, n: int)
    requires
        s.wf(),
        s.tables.contains(path.take(k)),
        !s.tables.contains(path.take(k + 1)),
        s2.tables == s.tables.insert(path.take(k + 1)),
        0 <= k,
        k + 1 < n <= path.len(),
    ensures
        s.missing(path, n) == s2.missing(path, n) + 1,
    decreases n,
{
    let at = path.take(k + 1);
    if n - 1 == k + 1 {
        lemma_missing_below(s, path, k, k + 1);
        assert(s2.missing(path, k + 1) == 0) by {
            lemma_missing_other(s, s2, path, k + 1, k + 1);
        }
    } else {
        lemma_missing_step(s, s2, path, k, n - 1);
        assert(path.take(n - 1).len() != at.len());
    }
}

/// A table at depth `d` does not count towards the entries above it.
proof fn lemma_missing_other(s: Space, s2: Space, path: Seq<int>, d: int, n: int)
    requires
        s2.tables == s.tables.insert(path.take(d)),
        n <= d <= path.len(),
    ensures
        s2.missing(path, n) == s.missing(path, n),
    decreases n,
{
    if n > 1 {
        lemma_missing_other(s, s2, path, d, n - 1);
        assert(path.take(n - 1).len() != path.take(d).len());
    }
}

/// Below the last table on a path all tables are missing.
pub proof fn lemma_missing_exact(s: Space, path: Seq<int>, k: int, n: int)
    requires
        s.wf(),
        s.tables.contains(path.take(k)),
        !s.tables.contains(path.take(k + 1)),
        0 <= k < n <= path.len(),
    ensures
        s.missing(path, n) == n - 1 - k,
    decreases n,
{
    if n == k + 1 {
        lemma_missing_below(s, path, k, n);
    } else {
        lemma_missing_exact(s, path, k, n - 1);
        if n - 1 > k + 1 {
            lemma_absent(s, path, k + 1, n - 1);
        }
    }
}

/// The tables that are missing on a path are the lowest ones.
pub proof fn lemma_missing_tables(s: Space, path: Seq<int>, n: int, m: int)
    requires
        s.wf(),
        0 <= m < n <= path.len(),
    ensures
        s.tables.contains(path.take(m)) <==> m < n - s.missing(path, n),
    decreases n,
{
    assert(path.take(0) =~= Seq::empty());
    if n == 1 {
        assert(m == 0);
    } else if s.tables.contains(path.take(n - 1)) {
        lemma_missing_below(s, path, n - 1, n);
        assert(path.take(n - 1).take(m) =~= path.take(m));
    } else if m == n - 1 {
        lemma_missing_bounds(s, path, n - 1);
    } else {
        lemma_missing_tables(s, path, n - 1, m);
    }
}

/// Making the first missing table, then placing the page, is placing the page.
pub proof fn lemma_place_step(s: Space, path: Seq<int>, k: int, n: int, e: u64)
    requires
        s.wf(),
        s.tables.contains(path.take(k)),
        !s.has(path.take(k + 1)),
        s.free > 0,
        0 <= k,
        k + 1 < n <= path.len(),
    ensures
        ({
            let s2 = Space { tables: s.tables.insert(path.take(k + 1)), free: s.free - 1, ..s };
            let r = s.place(path, n, e);
            let r2 = s2.place(path, n, e);
            &&& r.1 == r2.1
            &&& r2.1 is Ok || r2.1 == Err::<(), _>(MapError::OutOfMemory)
            &&& r.1 is Ok ==> r.0 == r2.0
            &&& r.1 is Err ==> r.0 == s
            &&& s.missing(path, n) == s2.missing(path, n) + 1
        }),
{
    let at = path.take(k + 1);
    let s2 = Space { tables: s.tables.insert(at), free: s.free - 1, ..s };
    lemma_missing_step(s, s2, path, k, n);
    lemma_missing_bounds(s2, path, n);
    lemma_absent(s, path, k + 1, n);
    assert(path.take(n).len() != at.len());
    assert forall|j: int| 0 < j < n implies !s.leaves.contains_key(#[trigger] path.take(j)) by {
        if j <= k {
            assert(path.take(k).take(j) =~= path.take(j));
        } else if j > k + 1 {
            lemma_absent(s, path, k + 1, j);
        }
    }
    assert(at =~= path.take(at.len() as int));
    assert(s.with_page(path, n, e).tables =~= s2.with_page(path, n, e).tables);
}

/// Without room for a table that is missing the page cannot be placed.
pub proof fn lemma_place_no_room(s: Space, path: Seq<int>, k: int, n: int, e: u64)
    requires
        s.wf(),
        s.tables.contains(path.take(k)),
        !s.has(path.take(k + 1)),
        s.free == 0,
        0 <= k,
        k + 1 < n <= path.len(),
    ensures
        s.place(path, n, e) == (s, Err::<(), MapError>(MapError::OutOfMemory)),
{
    let s2 = Space { tables: s.tables.insert(path.take(k + 1)), free: s.free - 1, ..s };
    lemma_missing_step(s, s2, path, k, n);
    lemma_missing_bounds(s2, path, n);
    lemma_absent(s, path, k + 1, n);
    assert forall|j: int| 0 < j < n implies !s.leaves.contains_key(#[trigger] path.take(j)) by {
        if j <= k {
            assert(path.take(k).take(j) =~= path.take(j));
        } else if j > k + 1 {
            lemma_absent(s, path, k + 1, j);
        }
    }
}

/// Where all tables are there, placing a page only enters it.
pub proof fn lemma_place_last(s: Space, path: Seq<int>, n: int, e: u64)
    requires
        s.wf(),
        s.tables.contains(path.take(n - 1)),
        1 <= n <= path.len(),
    ensures
        s.has(path.take(n)) ==> s.place(path, n, e) == (s, Err::<(), MapError>(
            MapError::AlreadyMapped,
        )),
        !s.has(path.take(n)) ==> s.place(path, n, e) == (
            (Space { leaves: s.leaves.insert(path.take(n), e), ..s }),
            Ok::<(), MapError>(()),
        ),
        s.missing(path, n) == 0,
{
    lemma_missing_below(s, path, n - 1, n);
    assert forall|j: int| 0 < j < n implies !s.leaves.contains_key(#[trigger] path.take(j)) by {
        assert(path.take(n - 1).take(j) =~= path.take(j));
    }
    assert forall|p: Seq<int>| p.len() < n && p == path.take(p.len() as int) implies #[trigger] s.tables.contains(
    p) by {
        assert(path.take(n - 1).take(p.len() as int) =~= path.take(p.len() as int));
    }
    assert(s.with_page(path, n, e).tables =~= s.tables);
}

} // verus!
