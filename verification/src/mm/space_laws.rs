//! What mapping, unmapping and looking up have to do with each other.
use vstd::prelude::*;

use crate::mm::entry;
use crate::mm::space;
use crate::mm::space::Space;
use crate::mm::vmm::PageSize;

verus! {

/// The address lies in the page.
pub open spec fn in_page(v: u64, virt: u64, size: PageSize) -> bool {
    virt <= v < virt + space::page_bytes(size)
}

/// The flags that a lookup finds of a page that was mapped.
pub open spec fn found_flags(flags: u64, size: PageSize) -> u64 {
    if size is Base {
        flags | entry::P
    } else {
        (flags & space::LEAF_FLAGS) | entry::P
    }
}

/// Addresses of one page share the path of its entry.
pub proof fn lemma_in_page(v: u64, virt: u64, size: PageSize)
    requires
        in_page(v, virt, size),
        virt as int % space::page_bytes(size) == 0,
        space::canonical(virt),
    ensures
        space::canonical(v),
        space::path_of(v).take(space::depth(size)) == space::path_of(virt).take(
            space::depth(size),
        ),
        v as int % space::page_bytes(size) == v - virt,
{
    let a = v as int;
    let b = virt as int;
    match size {
        PageSize::Base => {
            lemma_base_quotient(a, b);
        },
        PageSize::Large => {
            lemma_large_quotient(a, b);
        },
        PageSize::Huge => {
            lemma_huge_quotient(a, b);
        },
    }
    assert(a / 0x80_0000_0000 == b / 0x80_0000_0000);
    assert(space::canonical(v)) by {
        lemma_canonical_quotient(v, virt);
    }
    assert(space::path_of(v).take(space::depth(size)) =~= space::path_of(virt).take(
        space::depth(size),
    ));
}

proof fn lemma_base_quotient(a: int, b: int)
    requires
        b % 0x1000 == 0,
        b <= a < b + 0x1000,
    ensures
        a / 0x1000 == b / 0x1000,
        a / 0x20_0000 == b / 0x20_0000,
        a / 0x4000_0000 == b / 0x4000_0000,
        a / 0x80_0000_0000 == b / 0x80_0000_0000,
        a % 0x1000 == a - b,
{
    assert((a / 0x1000) / 512 == a / 0x20_0000);
    assert((b / 0x1000) / 512 == b / 0x20_0000);
    lemma_upper_quotients(a, b);
}

proof fn lemma_large_quotient(a: int, b: int)
    requires
        b % 0x20_0000 == 0,
        b <= a < b + 0x20_0000,
    ensures
        a / 0x20_0000 == b / 0x20_0000,
        a / 0x4000_0000 == b / 0x4000_0000,
        a / 0x80_0000_0000 == b / 0x80_0000_0000,
        a % 0x20_0000 == a - b,
{
    lemma_upper_quotients(a, b);
}

proof fn lemma_huge_quotient(a: int, b: int)
    requires
        b % 0x4000_0000 == 0,
        b <= a < b + 0x4000_0000,
    ensures
        a / 0x4000_0000 == b / 0x4000_0000,
        a / 0x80_0000_0000 == b / 0x80_0000_0000,
        a % 0x4000_0000 == a - b,
{
    assert((a / 0x4000_0000) / 512 == a / 0x80_0000_0000);
    assert((b / 0x4000_0000) / 512 == b / 0x80_0000_0000);
}

proof fn lemma_upper_quotients(a: int, b: int)
    requires
        a / 0x20_0000 == b / 0x20_0000,
    ensures
        a / 0x4000_0000 == b / 0x4000_0000,
        a / 0x80_0000_0000 == b / 0x80_0000_0000,
{
    assert((a / 0x20_0000) / 512 == a / 0x4000_0000);
    assert((b / 0x20_0000) / 512 == b / 0x4000_0000);
    assert((a / 0x4000_0000) / 512 == a / 0x80_0000_0000);
    assert((b / 0x4000_0000) / 512 == b / 0x80_0000_0000);
}

proof fn lemma_canonical_quotient(v: u64, virt: u64)
    requires
        v as int / 0x80_0000_0000 == virt as int / 0x80_0000_0000,
        space::canonical(virt),
    ensures
        space::canonical(v),
{
}

/// Only addresses of one page share the path of its entry.
proof fn lemma_same_path(v: u64, virt: u64, size: PageSize)
    requires
        space::canonical(v),
        space::canonical(virt),
        virt as int % space::page_bytes(size) == 0,
        space::path_of(v).take(space::depth(size)) == space::path_of(virt).take(
            space::depth(size),
        ),
    ensures
        in_page(v, virt, size),
{
    let p = space::path_of(v).take(space::depth(size));
    let q = space::path_of(virt).take(space::depth(size));
    assert(p[0] == entry::level_index(v, 3) && q[0] == entry::level_index(virt, 3));
    assert(p[1] == entry::level_index(v, 2) && q[1] == entry::level_index(virt, 2));
    lemma_top_index(v, virt);
    lemma_huge_index(v as int, virt as int);
    if size !is Huge {
        assert(p[2] == entry::level_index(v, 1) && q[2] == entry::level_index(virt, 1));
        lemma_large_index(v as int, virt as int);
        if size is Base {
            assert(p[3] == entry::level_index(v, 0) && q[3] == entry::level_index(virt, 0));
            lemma_base_index(v as int, virt as int);
        }
    }
}

proof fn lemma_top_index(v: u64, virt: u64)
    requires
        space::canonical(v),
        space::canonical(virt),
        (v as int / 0x80_0000_0000) % 512 == (virt as int / 0x80_0000_0000) % 512,
    ensures
        v as int / 0x80_0000_0000 == virt as int / 0x80_0000_0000,
{
    let a = v as int / 0x80_0000_0000;
    let b = virt as int / 0x80_0000_0000;
    assert(0 <= a < 256 || 0x200_0000 - 256 <= a < 0x200_0000);
    assert(0 <= b < 256 || 0x200_0000 - 256 <= b < 0x200_0000);
}

proof fn lemma_huge_index(a: int, b: int)
    requires
        (a / 0x4000_0000) % 512 == (b / 0x4000_0000) % 512,
        a / 0x80_0000_0000 == b / 0x80_0000_0000,
    ensures
        a / 0x4000_0000 == b / 0x4000_0000,
{
    assert((a / 0x4000_0000) / 512 == a / 0x80_0000_0000);
    assert((b / 0x4000_0000) / 512 == b / 0x80_0000_0000);
}

proof fn lemma_large_index(a: int, b: int)
    requires
        (a / 0x20_0000) % 512 == (b / 0x20_0000) % 512,
        a / 0x4000_0000 == b / 0x4000_0000,
    ensures
        a / 0x20_0000 == b / 0x20_0000,
{
    assert((a / 0x20_0000) / 512 == a / 0x4000_0000);
    assert((b / 0x20_0000) / 512 == b / 0x4000_0000);
}

proof fn lemma_base_index(a: int, b: int)
    requires
        (a / 0x1000) % 512 == (b / 0x1000) % 512,
        a / 0x20_0000 == b / 0x20_0000,
    ensures
        a / 0x1000 == b / 0x1000,
{
    assert((a / 0x1000) / 512 == a / 0x20_0000);
    assert((b / 0x1000) / 512 == b / 0x20_0000);
}

/// What the entry of a page says.
proof fn lemma_page_entry(phys: u64, flags: u64, size: PageSize)
    requires
        phys as int % space::page_bytes(size) == 0,
        phys < 0x10_0000_0000_0000,
        flags & entry::PT_FLAGS_ALL == flags,
    ensures
        entry::entry_addr(space::page_entry(phys, flags, size)) == phys,
        space::page_entry(phys, flags, size) & entry::PT_FLAGS_ALL == found_flags(flags, size),
{
    let f = flags;
    let all = space::page_flags(f, size);
    if size is Base {
        assert((f | 1) & 0x000F_FFFF_FFFF_F000 == 0 && (f | 1) & 0x8000_0000_0000_0F7F == (f
            | 1)) by (bit_vector)
            requires
                f & 0x8000_0000_0000_0F7F == f,
        ;
    } else {
        assert(((f & 0x8000_0000_0000_011E) | 1 | 0x80) & 0x000F_FFFF_FFFF_F000 == 0 && ((f
            & 0x8000_0000_0000_011E) | 1 | 0x80) & 0x8000_0000_0000_0F7F == (f
            & 0x8000_0000_0000_011E) | 1) by (bit_vector);
    }
    entry::lemma_address_field(phys);
    entry::lemma_entry_parts(phys, all);
}

/// Reading back: once a page is mapped, each of its addresses leads to the
/// corresponding physical address, with the flags asked for.
pub proof fn law_mapped_page_translates(
    s: Space,
    virt: u64,
    phys: u64,
    flags: u64,
    size: PageSize,
    v: u64,
)
    requires
        s.wf(),
        s.map(virt, phys, flags, size).1 is Ok,
        phys < 0x10_0000_0000_0000,
        flags & entry::PT_FLAGS_ALL == flags,
        in_page(v, virt, size),
    ensures
        s.map(virt, phys, flags, size).0.translate(v) == Some(
            (phys + (v - virt), found_flags(flags, size)),
        ),
{
    let s2 = s.map(virt, phys, flags, size).0;
    let path = space::path_of(virt);
    let n = space::depth(size);
    let pv = space::path_of(v);
    lemma_in_page(v, virt, size);
    lemma_page_entry(phys, flags, size);
    assert(s2.leaves.contains_key(pv.take(n)));
    assert forall|k: int| 0 < k < n implies !s2.leaves.contains_key(#[trigger] pv.take(k)) by {
        assert(pv.take(n).take(k) =~= pv.take(k));
        assert(path.take(n).take(k) =~= path.take(k));
        assert(!s.leaves.contains_key(path.take(k)));
        assert(pv.take(k).len() != path.take(n).len());
    }
}

/// Mapping a page changes no address outside it.
pub proof fn law_map_keeps_other_pages(
    s: Space,
    virt: u64,
    phys: u64,
    flags: u64,
    size: PageSize,
    v: u64,
)
    requires
        s.wf(),
        !in_page(v, virt, size),
    ensures
        s.map(virt, phys, flags, size).0.translate(v) == s.translate(v),
{
    let r = s.map(virt, phys, flags, size);
    if r.1 is Ok && space::canonical(v) {
        lemma_other_paths(v, virt, size);
    }
}

/// The paths of an address outside a page differ from that of the page.
proof fn lemma_other_paths(v: u64, virt: u64, size: PageSize)
    requires
        space::canonical(v),
        space::canonical(virt),
        virt as int % space::page_bytes(size) == 0,
        !in_page(v, virt, size),
    ensures
        forall|k: int|
            2 <= k <= 4 ==> #[trigger] space::path_of(v).take(k) != space::path_of(virt).take(
                space::depth(size),
            ),
{
    let n = space::depth(size);
    assert forall|k: int| 2 <= k <= 4 implies #[trigger] space::path_of(v).take(k)
        != space::path_of(virt).take(n) by {
        if space::path_of(v).take(k) == space::path_of(virt).take(n) {
            assert(space::path_of(v).take(k).len() == k);
            assert(space::path_of(virt).take(n).len() == n);
            lemma_same_path(v, virt, size);
        }
    }
}

/// A page that could not be mapped leaves everything as it was.
pub proof fn law_failed_map_changes_nothing(
    s: Space,
    virt: u64,
    phys: u64,
    flags: u64,
    size: PageSize,
)
    ensures
        s.map(virt, phys, flags, size).1 is Err ==> s.map(virt, phys, flags, size).0 == s,
{
}

/// Once a page is unmapped, none of its addresses leads anywhere.
pub proof fn law_unmapped_page_is_gone(s: Space, virt: u64, size: PageSize, v: u64)
    requires
        s.wf(),
        s.unmap(virt, size).1 is Ok,
        in_page(v, virt, size),
    ensures
        s.unmap(virt, size).0.translate(v) is None,
{
    let path = space::path_of(virt);
    let n = space::depth(size);
    let pv = space::path_of(v);
    let s2 = s.unmap(virt, size).0;
    lemma_in_page(v, virt, size);
    space::lemma_reclaim_keeps(s.without_page(path.take(n)), path, n - 1, 0, Seq::empty());
    let target = path.take(n);
    assert forall|k: int| 2 <= k <= 4 implies !s2.leaves.contains_key(#[trigger] pv.take(k)) by {
        assert(pv.take(k).len() == k);
        if k < n {
            assert(target.drop_last().take(k) =~= pv.take(k)) by {
                assert(target.drop_last().take(k) =~= target.take(k));
                assert(target.take(k) =~= pv.take(k));
            }
            assert(s.tables.contains(target.drop_last()));
        } else if k > n {
            let q = pv.take(k).drop_last();
            assert(q.take(n) =~= target);
            if s.leaves.contains_key(pv.take(k)) {
                assert(s.tables.contains(q));
                assert(s.tables.contains(target));
            }
        }
    }
}

/// Unmapping a page changes no address outside it.
pub proof fn law_unmap_keeps_other_pages(s: Space, virt: u64, size: PageSize, v: u64)
    requires
        s.wf(),
        !in_page(v, virt, size),
    ensures
        s.unmap(virt, size).0.translate(v) == s.translate(v),
{
    let path = space::path_of(virt);
    let n = space::depth(size);
    let r = s.unmap(virt, size);
    if r.1 is Ok && space::canonical(v) {
        space::lemma_reclaim_keeps(s.without_page(path.take(n)), path, n - 1, 0, Seq::empty());
        lemma_other_paths(v, virt, size);
    }
}

/// The space holds no empty table but the top-level one.
pub open spec fn trim(s: Space) -> bool {
    forall|p: Seq<int>| #[trigger] s.tables.contains(p) && p.len() > 0 ==> !s.table_empty(p)
}

/// None of the first `n` tables on a path is empty but the top-level one.
pub open spec fn trim_path(s: Space, path: Seq<int>, n: int) -> bool {
    forall|k: int|
        0 < k < n && #[trigger] s.tables.contains(path.take(k)) ==> !s.table_empty(path.take(k))
}

/// Giving back the tables of a path on which none is empty changes nothing.
proof fn lemma_reclaim_trim(s: Space, path: Seq<int>, d: int)
    requires
        trim_path(s, path, d + 1),
        d <= path.len(),
        d > 0 ==> s.tables.contains(path.take(d)),
        s.wf(),
    ensures
        s.reclaim_up(path, d, 0) == s,
    decreases d,
{
    if d > 0 {
        assert(path.take(d).len() == d);
        assert(path.take(d).take(d - 1) =~= path.take(d - 1));
        lemma_reclaim_trim(s, path, d - 1);
    }
}

/// Tables that were made on a path and are empty again are given back.
proof fn lemma_reclaim_new(s: Space, s2: Space, path: Seq<int>, d: int, k: int)
    requires
        s.wf(),
        trim_path(s, path, d + 1),
        0 <= k <= d < path.len(),
        forall|j: int| 0 <= j < path.len() ==> 0 <= #[trigger] path[j] < 512,
        s.tables.contains(path.take(k)),
        !s.has(path.take(k + 1)),
        s2.leaves == s.leaves,
        s2.free == s.free - (d - k),
        forall|p: Seq<int>| #[trigger]
            s2.tables.contains(p) <==> s.tables.contains(p) || (k < p.len() <= d && p
                == path.take(p.len() as int)),
    ensures
        s2.reclaim_up(path, d, 0) == s,
    decreases d,
{
    if d == k {
        assert(s2.tables =~= s.tables);
        assert(s2 == s);
        lemma_reclaim_trim(s, path, d);
    } else {
        let at = path.take(d);
        assert(at.len() == d);
        assert(at == path.take(at.len() as int));
        assert(s2.table_empty(at)) by {
            assert forall|i: int| 0 <= i < 512 implies !s2.has(#[trigger] at.push(i)) by {
                let c = at.push(i);
                assert(c.len() == d + 1);
                if s2.has(c) {
                    assert(s.has(c));
                    assert(c.take(k + 1) =~= path.take(k + 1));
                    assert(c.drop_last() =~= at);
                    assert(at.take(k + 1) =~= path.take(k + 1));
                }
            }
        }
        let s3 = s2.reclaim(at);
        assert(!s.tables.contains(at)) by {
            assert(at.take(k + 1) =~= path.take(k + 1));
        }
        assert forall|p: Seq<int>| #[trigger]
            s3.tables.contains(p) <==> s.tables.contains(p) || (k < p.len() <= d - 1 && p
                == path.take(p.len() as int)) by {
            if p.len() == d && p == path.take(p.len() as int) {
                assert(p == at);
            }
        }
        lemma_reclaim_new(s, s3, path, d - 1, k);
    }
}

/// The deepest table on a path above an entry that is not in use.
proof fn lemma_deepest(s: Space, path: Seq<int>, n: int) -> (k: int)
    requires
        s.wf(),
        1 <= n <= path.len(),
        !s.has(path.take(n)),
        forall|j: int| 0 < j < n ==> !s.leaves.contains_key(#[trigger] path.take(j)),
    ensures
        0 <= k < n,
        s.tables.contains(path.take(k)),
        !s.has(path.take(k + 1)),
    decreases n,
{
    if s.tables.contains(path.take(n - 1)) {
        n - 1
    } else {
        assert(path.take(0) =~= Seq::empty());
        assert(n > 1);
        assert(!s.has(path.take(n - 1)));
        lemma_deepest(s, path, n - 1)
    }
}

/// Unmapping a page that was just mapped restores the address space, down to
/// its tables and the number of free frames, where no table on the way to the
/// page was empty before. (An empty one is given back as well.)
pub proof fn law_unmap_undoes_map(s: Space, virt: u64, phys: u64, flags: u64, size: PageSize)
    requires
        s.wf(),
        trim_path(s, space::path_of(virt), space::depth(size)),
        s.map(virt, phys, flags, size).1 is Ok,
    ensures
        s.map(virt, phys, flags, size).0.unmap(virt, size).1 is Ok,
        s.map(virt, phys, flags, size).0.unmap(virt, size).0 == s,
{
    let path = space::path_of(virt);
    let n = space::depth(size);
    let s1 = s.map(virt, phys, flags, size).0;
    let k = lemma_deepest(s, path, n);
    space::lemma_missing_exact(s, path, k, n);
    let s2 = s1.without_page(path.take(n));
    assert(s2.leaves =~= s.leaves);
    assert forall|p: Seq<int>| #[trigger]
        s2.tables.contains(p) <==> s.tables.contains(p) || (k < p.len() <= n - 1 && p
            == path.take(p.len() as int)) by {
        if p.len() <= k && p == path.take(p.len() as int) {
            assert(path.take(k).take(p.len() as int) =~= p);
        }
    }
    lemma_reclaim_new(s, s2, path, n - 1, k);
}

/// In particular it restores where every address leads, whatever tables the
/// space held.
pub proof fn law_unmap_undoes_map_everywhere(
    s: Space,
    virt: u64,
    phys: u64,
    flags: u64,
    size: PageSize,
    v: u64,
)
    requires
        s.wf(),
        s.map(virt, phys, flags, size).1 is Ok,
    ensures
        s.map(virt, phys, flags, size).0.unmap(virt, size).1 is Ok,
        s.map(virt, phys, flags, size).0.unmap(virt, size).0.translate(v) == s.translate(v),
{
    let path = space::path_of(virt);
    let n = space::depth(size);
    let s1 = s.map(virt, phys, flags, size).0;
    let s2 = s1.without_page(path.take(n));
    space::lemma_reclaim_keeps(s2, path, n - 1, 0, Seq::empty());
    assert(s2.leaves =~= s.leaves);
}

/// The indices of a path are those of a table of 512 entries.
proof fn lemma_path_indices(virt: u64)
    ensures
        space::path_of(virt).len() == 4,
        forall|j: int| 0 <= j < 4 ==> 0 <= #[trigger] space::path_of(virt)[j] < 512,
{
}

/// The tables on the way to an entry, down to depth `m`.
spec fn with_tables(s: Space, path: Seq<int>, m: int) -> Set<Seq<int>> {
    Set::new(
        |p: Seq<int>| s.tables.contains(p) || (p.len() < m && p == path.take(p.len() as int)),
    )
}

/// As many tables come in as were missing.
proof fn lemma_with_tables_len(s: Space, path: Seq<int>, m: int)
    requires
        s.wf(),
        1 <= m <= path.len(),
    ensures
        with_tables(s, path, m).finite(),
        with_tables(s, path, m).len() == s.tables.len() + s.missing(path, m),
    decreases m,
{
    if m == 1 {
        assert forall|p: Seq<int>| p.len() < 1 implies #[trigger] s.tables.contains(p) by {
            assert(p =~= Seq::empty());
        }
        assert(with_tables(s, path, m) =~= s.tables);
    } else {
        lemma_with_tables_len(s, path, m - 1);
        let at = path.take(m - 1);
        let before = with_tables(s, path, m - 1);
        assert(with_tables(s, path, m) =~= before.insert(at)) by {
            assert forall|p: Seq<int>| #[trigger]
                with_tables(s, path, m).contains(p) == before.insert(at).contains(p) by {
                if p.len() == m - 1 && p == path.take(p.len() as int) {
                    assert(p == at);
                }
            }
        }
        assert(before.contains(at) == s.tables.contains(at));
    }
}

/// Every table below the top level holds something, but for those of a set.
spec fn trim_beside(s: Space, kept: Set<Seq<int>>) -> bool {
    forall|p: Seq<int>| #[trigger]
        s.tables.contains(p) && p.len() > 0 && !kept.contains(p) ==> !s.table_empty(p)
}

/// Mapping keeps an address space well-formed, makes no empty table, and takes
/// one frame for each table it makes.
pub proof fn law_map_keeps(s: Space, virt: u64, phys: u64, flags: u64, size: PageSize)
    requires
        s.wf(),
    ensures
        s.map(virt, phys, flags, size).0.wf(),
        trim(s) ==> trim(s.map(virt, phys, flags, size).0),
        s.map(virt, phys, flags, size).0.free + s.map(virt, phys, flags, size).0.tables.len()
            == s.free + s.tables.len(),
{
    lemma_map_keeps(s, virt, phys, flags, size, Set::empty());
    if trim(s) {
        assert(trim_beside(s, Set::empty()));
    }
}

proof fn lemma_map_keeps(
    s: Space,
    virt: u64,
    phys: u64,
    flags: u64,
    size: PageSize,
    kept: Set<Seq<int>>,
)
    requires
        s.wf(),
    ensures
        s.map(virt, phys, flags, size).0.wf(),
        trim_beside(s, kept) ==> trim_beside(s.map(virt, phys, flags, size).0, kept),
        s.map(virt, phys, flags, size).0.free + s.map(virt, phys, flags, size).0.tables.len()
            == s.free + s.tables.len(),
        s.tables.subset_of(s.map(virt, phys, flags, size).0.tables),
{
    let r = s.map(virt, phys, flags, size);
    if r.1 is Ok {
        let s2 = r.0;
        let path = space::path_of(virt);
        let n = space::depth(size);
        let target = path.take(n);
        lemma_path_indices(virt);
        lemma_with_tables_len(s, path, n);
        assert(s2.tables =~= with_tables(s, path, n));
        assert(target.drop_last() =~= path.take(n - 1));
        assert(path.take(0) =~= Seq::empty());
        assert forall|p: Seq<int>, k: int|
            #![trigger s2.tables.contains(p), p.take(k)]
            s2.tables.contains(p) && 0 <= k <= p.len() implies s2.tables.contains(p.take(k)) by {
            if !s.tables.contains(p) {
                assert(p.take(k) =~= path.take(k));
                assert(p.take(k).len() == k);
            }
        }
        assert forall|p: Seq<int>| #[trigger] s2.tables.contains(p) implies p.len() <= 3
            && !s2.leaves.contains_key(p) by {
            if s.tables.contains(p) {
                assert(p != target);
            } else {
                if p.len() == 0 {
                    assert(p =~= Seq::empty());
                }
                assert(!s.leaves.contains_key(path.take(p.len() as int)));
                assert(p.len() != target.len());
            }
        }
        if trim_beside(s, kept) {
            assert forall|p: Seq<int>| #[trigger]
                s2.tables.contains(p) && p.len() > 0 && !kept.contains(p) implies !s2.table_empty(
                p,
            ) by {
                if s.tables.contains(p) {
                    let i = choose|i: int| 0 <= i < 512 && s.has(#[trigger] p.push(i));
                    assert(s2.has(p.push(i)));
                } else {
                    let m = p.len() as int;
                    let c = p.push(path[m]);
                    assert(c =~= path.take(m + 1));
                    assert(s2.has(c));
                }
            }
        }
    }
}

/// Every table below the top level holds something, but for the one at a path
/// and those of a set.
spec fn trim_but(s: Space, at: Seq<int>, kept: Set<Seq<int>>) -> bool {
    forall|p: Seq<int>| #[trigger]
        s.tables.contains(p) && p.len() > 0 && p != at && !kept.contains(p) ==> !s.table_empty(p)
}

proof fn lemma_reclaim_up_keeps(s: Space, path: Seq<int>, d: int, kept: Set<Seq<int>>)
    requires
        s.wf(),
        0 <= d <= path.len(),
        s.tables.contains(path.take(d)),
    ensures
        s.reclaim_up(path, d, 0).wf(),
        trim_but(s, path.take(d), kept) ==> trim_beside(s.reclaim_up(path, d, 0), kept),
        s.reclaim_up(path, d, 0).free + s.reclaim_up(path, d, 0).tables.len() == s.free
            + s.tables.len(),
    decreases d,
{
    let at = path.take(d);
    if d == 0 {
        assert(at.len() == 0);
    } else {
        let s2 = s.reclaim(at);
        let up = path.take(d - 1);
        assert(at.len() == d);
        assert(at.take(d - 1) =~= up);
        if s.table_empty(at) {
            assert forall|p: Seq<int>, k: int|
                #![trigger s2.tables.contains(p), p.take(k)]
                s2.tables.contains(p) && 0 <= k <= p.len() implies s2.tables.contains(p.take(k)) by {
                assert(s.tables.contains(p));
                if p.take(k) == at {
                    assert(k == d);
                    if k == p.len() {
                        assert(p.take(k) =~= p);
                    } else {
                        assert(p.take(k + 1) =~= at.push(p[k]));
                        assert(s.tables.contains(p.take(k + 1)));
                        assert(!s.has(at.push(p[k])));
                    }
                }
            }
            assert forall|p: Seq<int>| #[trigger] s2.leaves.contains_key(p) implies 2 <= p.len() <= 4
                && s2.tables.contains(p.drop_last()) by {
                if p.drop_last() == at {
                    assert(p =~= at.push(p.last()));
                    assert(!s.has(at.push(p.last())));
                }
            }
            assert(s2.wf());
            assert(up.len() != at.len());
            if trim_but(s, at, kept) {
                assert forall|p: Seq<int>| #[trigger]
                    s2.tables.contains(p) && p.len() > 0 && p != up && !kept.contains(
                    p,
                ) implies !s2.table_empty(p) by {
                    let i = choose|i: int| 0 <= i < 512 && s.has(#[trigger] p.push(i));
                    if p.push(i) == at {
                        assert(p =~= up) by {
                            assert(at.drop_last() =~= up);
                            assert(p.push(i).drop_last() =~= p);
                        }
                    }
                    assert(s2.has(p.push(i)));
                }
            }
        } else if trim_but(s, at, kept) {
            assert(trim_but(s2, up, kept));
        }
        lemma_reclaim_up_keeps(s2, path, d - 1, kept);
    }
}

/// Unmapping keeps an address space well-formed, leaves no empty table behind,
/// and frees one frame for each table it gives back.
pub proof fn law_unmap_keeps(s: Space, virt: u64, size: PageSize)
    requires
        s.wf(),
    ensures
        s.unmap(virt, size).0.wf(),
        trim(s) ==> trim(s.unmap(virt, size).0),
        s.unmap(virt, size).0.free + s.unmap(virt, size).0.tables.len() == s.free
            + s.tables.len(),
{
    lemma_unmap_keeps(s, virt, size, Set::empty());
    if trim(s) {
        assert(trim_beside(s, Set::empty()));
    }
}

proof fn lemma_unmap_keeps(s: Space, virt: u64, size: PageSize, kept: Set<Seq<int>>)
    requires
        s.wf(),
    ensures
        s.unmap(virt, size).0.wf(),
        trim_beside(s, kept) ==> trim_beside(s.unmap(virt, size).0, kept),
        s.unmap(virt, size).0.free + s.unmap(virt, size).0.tables.len() == s.free
            + s.tables.len(),
{
    let r = s.unmap(virt, size);
    if r.1 is Ok {
        let path = space::path_of(virt);
        let n = space::depth(size);
        let target = path.take(n);
        let s2 = s.without_page(target);
        let at = path.take(n - 1);
        lemma_path_indices(virt);
        assert(target.drop_last() =~= at);
        if trim_beside(s, kept) {
            assert forall|p: Seq<int>| #[trigger]
                s2.tables.contains(p) && p.len() > 0 && p != at && !kept.contains(
                p,
            ) implies !s2.table_empty(p) by {
                let i = choose|i: int| 0 <= i < 512 && s.has(#[trigger] p.push(i));
                assert(p.push(i).drop_last() =~= p);
                assert(s2.has(p.push(i)));
            }
        }
        lemma_reclaim_up_keeps(s2, path, n - 1, kept);
    }
}

/// Below every table that is not one of a space, where none of those is empty,
/// a page is mapped.
proof fn lemma_leaf_below(base: Space, s: Space, p: Seq<int>) -> (leaf: Seq<int>)
    requires
        base.wf(),
        s.wf(),
        trim_beside(s, base.tables),
        s.tables.contains(p),
        !base.tables.contains(p),
        p.len() > 0,
    ensures
        s.leaves.contains_key(leaf),
        leaf.len() > p.len(),
        leaf.take(p.len() as int) == p,
    decreases 4 - p.len(),
{
    let i = choose|i: int| 0 <= i < 512 && s.has(#[trigger] p.push(i));
    let c = p.push(i);
    assert(c.take(p.len() as int) =~= p);
    if s.leaves.contains_key(c) {
        c
    } else {
        let leaf = lemma_leaf_below(base, s, c);
        assert(leaf.take(p.len() as int) =~= leaf.take(c.len() as int).take(p.len() as int));
        leaf
    }
}

/// A space that has the pages and the tables of another, and no further table
/// that is empty, has its tables only.
proof fn lemma_tables_by_leaves(base: Space, s: Space)
    requires
        base.wf(),
        s.wf(),
        trim_beside(s, base.tables),
        base.tables.subset_of(s.tables),
        base.leaves == s.leaves,
    ensures
        base.tables == s.tables,
{
    assert forall|p: Seq<int>| base.tables.contains(p) == s.tables.contains(p) by {
        if p.len() == 0 {
            assert(p =~= Seq::empty());
        } else if s.tables.contains(p) && !base.tables.contains(p) {
            let leaf = lemma_leaf_below(base, s, p);
            assert(base.tables.contains(leaf.drop_last()));
            assert(leaf.drop_last().take(p.len() as int) =~= p);
        }
    }
    assert(base.tables =~= s.tables);
}

/// Giving back the empty tables on a path takes no table of a space whose pages
/// and tables are all there, and none of whose tables on the path is empty.
proof fn lemma_reclaim_up_base(base: Space, s: Space, path: Seq<int>, d: int)
    requires
        base.tables.subset_of(s.tables),
        base.leaves.dom().subset_of(s.leaves.dom()),
        trim_path(base, path, d + 1),
        d <= path.len(),
    ensures
        base.tables.subset_of(s.reclaim_up(path, d, 0).tables),
        s.reclaim_up(path, d, 0).leaves == s.leaves,
    decreases d,
{
    if d > 0 {
        let at = path.take(d);
        if s.table_empty(at) && base.tables.contains(at) {
            let i = choose|i: int| 0 <= i < 512 && base.has(#[trigger] at.push(i));
            assert(s.has(at.push(i)));
        }
        lemma_reclaim_up_base(base, s.reclaim(at), path, d - 1);
    }
}

/// Address of page `i` of a range.
pub open spec fn page_at(start: u64, size: PageSize, i: int) -> u64 {
    (start + i * space::page_bytes(size)) as u64
}

/// Path of the entry of page `i` of a range.
spec fn entry_path(virt: u64, size: PageSize, i: int) -> Seq<int> {
    space::path_of(page_at(virt, size, i)).take(space::depth(size))
}

/// The space after the pages numbered from `i` to `end` of a range are mapped,
/// provided that each can be.
spec fn all_mapped(
    s: Space,
    virt: u64,
    phys: u64,
    flags: u64,
    size: PageSize,
    i: int,
    end: int,
) -> Option<Space>
    decreases end - i,
{
    if i >= end {
        Some(s)
    } else {
        let r = s.map(page_at(virt, size, i), page_at(phys, size, i), flags, size);
        if r.1 is Ok {
            all_mapped(r.0, virt, phys, flags, size, i + 1, end)
        } else {
            None
        }
    }
}

/// Where a range cannot be mapped there is a first page that cannot.
proof fn lemma_first_failure(
    s: Space,
    virt: u64,
    phys: u64,
    pages: int,
    flags: u64,
    size: PageSize,
    i: int,
) -> (m: int)
    requires
        0 <= i,
        s.map_range(virt, phys, pages, flags, size, i).1 is Err,
        s.range_fits(virt, phys, pages, flags, size, i),
    ensures
        i <= m < pages,
        all_mapped(s, virt, phys, flags, size, i, m) is Some,
        s.map_range(virt, phys, pages, flags, size, i).0 == all_mapped(
            s,
            virt,
            phys,
            flags,
            size,
            i,
            m,
        ).unwrap().roll_back(virt, size, 0, m),
        virt + m * space::page_bytes(size) <= u64::MAX,
    decreases pages - i,
{
    let r = s.map(page_at(virt, size, i), page_at(phys, size, i), flags, size);
    if r.1 is Ok {
        lemma_first_failure(r.0, virt, phys, pages, flags, size, i + 1)
    } else {
        i
    }
}

/// What mapping the pages of a range one by one keeps and adds.
proof fn lemma_all_mapped(
    s: Space,
    virt: u64,
    phys: u64,
    flags: u64,
    size: PageSize,
    i: int,
    end: int,
    kept: Set<Seq<int>>,
)
    requires
        s.wf(),
        0 <= i <= end,
        virt + end * space::page_bytes(size) <= u64::MAX,
        all_mapped(s, virt, phys, flags, size, i, end) is Some,
    ensures
        ({
            let t = all_mapped(s, virt, phys, flags, size, i, end).unwrap();
            &&& t.wf()
            &&& trim_beside(s, kept) ==> trim_beside(t, kept)
            &&& t.free + t.tables.len() == s.free + s.tables.len()
            &&& s.tables.subset_of(t.tables)
            &&& forall|j: int| i <= j < end ==> #[trigger] is_entry(t, virt, size, j)
            &&& forall|j: int|
                i <= j < end ==> !s.leaves.contains_key(#[trigger] entry_path(virt, size, j))
            &&& forall|p: Seq<int>| #[trigger]
                t.leaves.contains_key(p) ==> s.leaves.contains_key(p) || exists|j: int|
                    i <= j < end && p == #[trigger] entry_path(virt, size, j)
            &&& forall|p: Seq<int>| #[trigger]
                s.leaves.contains_key(p) ==> t.leaves.contains_key(p) && t.leaves[p]
                    == s.leaves[p]
        }),
    decreases end - i,
{
    if i < end {
        let v = page_at(virt, size, i);
        let r = s.map(v, page_at(phys, size, i), flags, size);
        let s2 = r.0;
        lemma_map_keeps(s, v, page_at(phys, size, i), flags, size, kept);
        lemma_all_mapped(s2, virt, phys, flags, size, i + 1, end, kept);
        let t = all_mapped(s, virt, phys, flags, size, i, end).unwrap();
        assert(s2.leaves.contains_key(entry_path(virt, size, i)));
        assert(is_entry(t, virt, size, i));
        assert forall|j: int| i <= j < end implies !s.leaves.contains_key(
            #[trigger] entry_path(virt, size, j),
        ) by {
            if j > i {
                assert(!s2.leaves.contains_key(entry_path(virt, size, j)));
            }
        }
        assert forall|p: Seq<int>| #[trigger] t.leaves.contains_key(p) implies s.leaves.contains_key(
            p,
        ) || exists|j: int| i <= j < end && p == #[trigger] entry_path(virt, size, j) by {
            if s2.leaves.contains_key(p) {
                if !s.leaves.contains_key(p) {
                    assert(p == entry_path(virt, size, i));
                }
            } else {
                let j = choose|j: int|
                    i + 1 <= j < end && p == #[trigger] entry_path(virt, size, j);
                assert(i <= j < end);
            }
        }
        assert forall|p: Seq<int>| #[trigger] s.leaves.contains_key(p) implies t.leaves.contains_key(
            p,
        ) && t.leaves[p] == s.leaves[p] by {
            assert(p != entry_path(virt, size, i));
            assert(s2.leaves.contains_key(p));
        }
    }
}

/// Page `j` of the range is mapped at an address that can be unmapped.
spec fn is_entry(s: Space, virt: u64, size: PageSize, j: int) -> bool {
    &&& s.leaves.contains_key(entry_path(virt, size, j))
    &&& space::canonical(page_at(virt, size, j))
    &&& page_at(virt, size, j) as int % space::page_bytes(size) == 0
}

/// Pages of a range have entries of their own.
proof fn lemma_entries_distinct(virt: u64, size: PageSize, i: int, j: int)
    requires
        0 <= i < j,
        virt + j * space::page_bytes(size) <= u64::MAX,
        space::canonical(page_at(virt, size, i)),
        space::canonical(page_at(virt, size, j)),
        page_at(virt, size, i) as int % space::page_bytes(size) == 0,
    ensures
        entry_path(virt, size, i) != entry_path(virt, size, j),
{
    let b = space::page_bytes(size);
    assert(0 <= i * b && i * b + b <= j * b) by (nonlinear_arith)
        requires
            0 <= i,
            i + 1 <= j,
            b > 0,
    ;
    if entry_path(virt, size, i) == entry_path(virt, size, j) {
        lemma_same_path(page_at(virt, size, j), page_at(virt, size, i), size);
    }
}

/// Pages of a range have paths of their own.
pub proof fn lemma_pages_have_own_entries(virt: u64, size: PageSize, i: int, j: int)
    requires
        0 <= i < j,
        virt + j * space::page_bytes(size) <= u64::MAX,
        space::canonical(page_at(virt, size, i)),
        space::canonical(page_at(virt, size, j)),
        page_at(virt, size, i) as int % space::page_bytes(size) == 0,
    ensures
        space::path_of(page_at(virt, size, i)).take(space::depth(size)) != space::path_of(
            page_at(virt, size, j),
        ).take(space::depth(size)),
{
    lemma_entries_distinct(virt, size, i, j);
}

/// What rolling back keeps and takes away.
proof fn lemma_roll_back(
    s: Space,
    virt: u64,
    size: PageSize,
    i: int,
    end: int,
    kept: Set<Seq<int>>,
)
    requires
        s.wf(),
        0 <= i <= end,
        virt + end * space::page_bytes(size) <= u64::MAX,
        forall|j: int| i <= j < end ==> #[trigger] is_entry(s, virt, size, j),
    ensures
        ({
            let t = s.roll_back(virt, size, i, end);
            &&& t.wf()
            &&& trim_beside(s, kept) ==> trim_beside(t, kept)
            &&& t.free + t.tables.len() == s.free + s.tables.len()
            &&& forall|p: Seq<int>| #[trigger]
                t.leaves.contains_key(p) <==> s.leaves.contains_key(p) && !exists|j: int|
                    i <= j < end && p == #[trigger] entry_path(virt, size, j)
            &&& forall|p: Seq<int>| #[trigger]
                t.leaves.contains_key(p) ==> t.leaves[p] == s.leaves[p]
        }),
    decreases end - i,
{
    if i < end {
        let v = page_at(virt, size, i);
        let path = space::path_of(v);
        let n = space::depth(size);
        let s2 = s.unmap(v, size).0;
        assert(is_entry(s, virt, size, i));
        lemma_unmap_keeps(s, v, size, kept);
        space::lemma_reclaim_keeps(s.without_page(path.take(n)), path, n - 1, 0, Seq::empty());
        assert(s2.leaves == s.leaves.remove(entry_path(virt, size, i)));
        assert forall|j: int| i + 1 <= j < end implies #[trigger] is_entry(
            s2,
            virt,
            size,
            j,
        ) by {
            assert(is_entry(s, virt, size, j));
            assert(j * space::page_bytes(size) <= end * space::page_bytes(size))
                by (nonlinear_arith)
                requires
                    j <= end,
                    space::page_bytes(size) > 0,
            ;
            lemma_entries_distinct(virt, size, i, j);
        }
        lemma_roll_back(s2, virt, size, i + 1, end, kept);
        let t = s.roll_back(virt, size, i, end);
        assert forall|p: Seq<int>| #[trigger]
            t.leaves.contains_key(p) <==> s.leaves.contains_key(p) && !exists|j: int|
                i <= j < end && p == #[trigger] entry_path(virt, size, j) by {
            if s.leaves.contains_key(p) && !t.leaves.contains_key(p) {
                if s2.leaves.contains_key(p) {
                    let j = choose|j: int|
                        i + 1 <= j < end && p == #[trigger] entry_path(virt, size, j);
                    assert(i <= j < end);
                } else {
                    assert(p == entry_path(virt, size, i));
                }
            }
            if t.leaves.contains_key(p) {
                assert(s2.leaves.contains_key(p));
                assert forall|j: int| i <= j < end implies p != #[trigger] entry_path(
                    virt,
                    size,
                    j,
                ) by {
                    if j > i {
                        assert(i + 1 <= j < end);
                    }
                }
            }
        }
    }
}

/// The tables on the way to page `i` of a range are not empty but for the
/// top-level one.
pub open spec fn trim_at(s: Space, virt: u64, size: PageSize, i: int) -> bool {
    trim_path(s, space::path_of(page_at(virt, size, i)), space::depth(size))
}

/// Rolling back takes no table of a space whose pages and tables are all there,
/// if none of its tables on the way to the pages is empty.
proof fn lemma_roll_back_base(
    base: Space,
    s: Space,
    virt: u64,
    size: PageSize,
    i: int,
    end: int,
)
    requires
        base.tables.subset_of(s.tables),
        base.leaves.dom().subset_of(s.leaves.dom()),
        forall|j: int| i <= j < end ==> #[trigger] trim_at(base, virt, size, j),
        forall|j: int|
            i <= j < end ==> !base.leaves.contains_key(#[trigger] entry_path(virt, size, j)),
    ensures
        base.tables.subset_of(s.roll_back(virt, size, i, end).tables),
    decreases end - i,
{
    if i < end {
        let v = page_at(virt, size, i);
        let path = space::path_of(v);
        let n = space::depth(size);
        let s1 = s.without_page(path.take(n));
        assert(trim_at(base, virt, size, i));
        assert(!base.leaves.contains_key(entry_path(virt, size, i)));
        lemma_reclaim_up_base(base, s1, path, n - 1);
        lemma_roll_back_base(base, s.unmap(v, size).0, virt, size, i + 1, end);
    }
}

/// A range that cannot be mapped as a whole leaves every address leading where
/// it led before. Where no table on the way to its pages was empty, it leaves
/// everything as it was, down to the tables and the number of free frames.
pub proof fn law_failed_range_changes_nothing(
    s: Space,
    virt: u64,
    phys: u64,
    pages: int,
    flags: u64,
    size: PageSize,
)
    requires
        s.wf(),
        s.map_range(virt, phys, pages, flags, size, 0).1 is Err,
        s.range_fits(virt, phys, pages, flags, size, 0),
    ensures
        s.map_range(virt, phys, pages, flags, size, 0).0.leaves == s.leaves,
        forall|v: u64|
            #![trigger s.translate(v)]
            s.map_range(virt, phys, pages, flags, size, 0).0.translate(v) == s.translate(v),
        (forall|j: int| 0 <= j < pages ==> #[trigger] trim_at(s, virt, size, j))
            ==> s.map_range(virt, phys, pages, flags, size, 0).0 == s,
{
    let m = lemma_first_failure(s, virt, phys, pages, flags, size, 0);
    let t = all_mapped(s, virt, phys, flags, size, 0, m).unwrap();
    let u = s.map_range(virt, phys, pages, flags, size, 0).0;
    lemma_all_mapped(s, virt, phys, flags, size, 0, m, s.tables);
    lemma_roll_back(t, virt, size, 0, m, s.tables);
    assert forall|p: Seq<int>| #[trigger]
        u.leaves.contains_key(p) == s.leaves.contains_key(p) && (s.leaves.contains_key(p)
            ==> u.leaves[p] == s.leaves[p]) by {
        if s.leaves.contains_key(p) {
            assert(t.leaves.contains_key(p));
            assert forall|j: int| 0 <= j < m implies p != #[trigger] entry_path(
                virt,
                size,
                j,
            ) by {}
        }
        if u.leaves.contains_key(p) {
            assert(t.leaves.contains_key(p));
        }
    }
    assert(u.leaves =~= s.leaves);
    if forall|j: int| 0 <= j < pages ==> #[trigger] trim_at(s, virt, size, j) {
        lemma_roll_back_base(s, t, virt, size, 0, m);
        lemma_tables_by_leaves(s, u);
    }
}

/// Mapping the pages of a range from page `i` on changes no address outside
/// them.
proof fn lemma_range_keeps(
    s: Space,
    virt: u64,
    phys: u64,
    pages: int,
    flags: u64,
    size: PageSize,
    i: int,
    v: u64,
)
    requires
        s.wf(),
        0 <= i,
        s.map_range(virt, phys, pages, flags, size, i).1 is Ok,
        s.range_fits(virt, phys, pages, flags, size, i),
        v < virt + i * space::page_bytes(size) || v >= virt + pages * space::page_bytes(size),
    ensures
        s.map_range(virt, phys, pages, flags, size, i).0.translate(v) == s.translate(v),
    decreases pages - i,
{
    if i < pages {
        let b = space::page_bytes(size);
        assert(0 <= i * b && i * b + b == (i + 1) * b && (i + 1) * b <= pages * b)
            by (nonlinear_arith)
            requires
                0 <= i,
                i + 1 <= pages,
                b > 0,
        ;
        let page = (virt + i * b) as u64;
        let frame = (phys + i * b) as u64;
        law_map_keeps(s, page, frame, flags, size);
        law_map_keeps_other_pages(s, page, frame, flags, size, v);
        let next = s.map(page, frame, flags, size).0;
        lemma_range_keeps(next, virt, phys, pages, flags, size, i + 1, v);
    }
}

/// Once the pages of a range from page `i` on are mapped, each of their
/// addresses leads to the corresponding physical address.
proof fn lemma_range_translates(
    s: Space,
    virt: u64,
    phys: u64,
    pages: int,
    flags: u64,
    size: PageSize,
    i: int,
    v: u64,
)
    requires
        s.wf(),
        0 <= i,
        s.map_range(virt, phys, pages, flags, size, i).1 is Ok,
        s.range_fits(virt, phys, pages, flags, size, i),
        flags & entry::PT_FLAGS_ALL == flags,
        virt + i * space::page_bytes(size) <= v < virt + pages * space::page_bytes(size),
    ensures
        s.map_range(virt, phys, pages, flags, size, i).0.translate(v) == Some(
            (phys + (v - virt), found_flags(flags, size)),
        ),
    decreases pages - i,
{
    let b = space::page_bytes(size);
    assert(i < pages) by (nonlinear_arith)
        requires
            i * b < pages * b,
            b > 0,
    ;
    assert(0 <= i * b && i * b + b == (i + 1) * b) by (nonlinear_arith)
        requires
            0 <= i,
            b > 0,
    ;
    let page = (virt + i * b) as u64;
    let frame = (phys + i * b) as u64;
    law_map_keeps(s, page, frame, flags, size);
    let next = s.map(page, frame, flags, size).0;
    if v < virt + (i + 1) * b {
        law_mapped_page_translates(s, page, frame, flags, size, v);
        lemma_range_keeps(next, virt, phys, pages, flags, size, i + 1, v);
    } else {
        lemma_range_translates(next, virt, phys, pages, flags, size, i + 1, v);
    }
}

/// Reading back a range: once it is mapped, each of its addresses leads to the
/// corresponding physical address, with the flags asked for.
pub proof fn law_mapped_range_translates(
    s: Space,
    virt: u64,
    phys: u64,
    pages: int,
    flags: u64,
    size: PageSize,
    v: u64,
)
    requires
        s.wf(),
        s.map_range(virt, phys, pages, flags, size, 0).1 is Ok,
        s.range_fits(virt, phys, pages, flags, size, 0),
        flags & entry::PT_FLAGS_ALL == flags,
        virt <= v < virt + pages * space::page_bytes(size),
    ensures
        s.map_range(virt, phys, pages, flags, size, 0).0.translate(v) == Some(
            (phys + (v - virt), found_flags(flags, size)),
        ),
{
    lemma_range_translates(s, virt, phys, pages, flags, size, 0, v);
}

/// Mapping a range changes no address outside it.
pub proof fn law_map_range_keeps_other_pages(
    s: Space,
    virt: u64,
    phys: u64,
    pages: int,
    flags: u64,
    size: PageSize,
    v: u64,
)
    requires
        s.wf(),
        s.range_fits(virt, phys, pages, flags, size, 0),
        !(virt <= v < virt + pages * space::page_bytes(size)),
    ensures
        s.map_range(virt, phys, pages, flags, size, 0).0.translate(v) == s.translate(v),
{
    if s.map_range(virt, phys, pages, flags, size, 0).1 is Ok {
        lemma_range_keeps(s, virt, phys, pages, flags, size, 0, v);
    } else {
        law_failed_range_changes_nothing(s, virt, phys, pages, flags, size);
    }
}

/// Unmapping the pages of a range from page `i` on: what becomes of an address.
proof fn lemma_range_unmapped(s: Space, virt: u64, pages: int, size: PageSize, i: int, v: u64)
    requires
        s.wf(),
        0 <= i,
        s.unmap_fits(virt, pages, size, i),
    ensures
        ({
            let r = s.unmap_range(virt, pages, size, i);
            let b = space::page_bytes(size);
            &&& !(virt + i * b <= v < virt + pages * b) ==> r.0.translate(v) == s.translate(v)
            &&& r.1 is Ok && virt + i * b <= v < virt + pages * b ==> r.0.translate(v) is None
        }),
    decreases pages - i,
{
    let b = space::page_bytes(size);
    if i < pages {
        assert(0 <= i * b && i * b + b == (i + 1) * b && (i + 1) * b <= pages * b)
            by (nonlinear_arith)
            requires
                0 <= i,
                i + 1 <= pages,
                b > 0,
        ;
        let page = (virt + i * b) as u64;
        let r = s.unmap(page, size);
        law_unmap_keeps(s, page, size);
        if in_page(v, page, size) {
            if r.1 is Ok {
                law_unmapped_page_is_gone(s, page, size, v);
            }
        } else {
            law_unmap_keeps_other_pages(s, page, size, v);
        }
        if r.1 is Ok {
            lemma_range_unmapped(r.0, virt, pages, size, i + 1, v);
        }
    } else {
        assert(pages * b <= i * b) by (nonlinear_arith)
            requires
                pages <= i,
                b > 0,
        ;
    }
}

/// Once a range is unmapped, none of its addresses leads anywhere.
pub proof fn law_unmapped_range_is_gone(s: Space, virt: u64, pages: int, size: PageSize, v: u64)
    requires
        s.wf(),
        s.unmap_range(virt, pages, size, 0).1 is Ok,
        s.unmap_fits(virt, pages, size, 0),
        virt <= v < virt + pages * space::page_bytes(size),
    ensures
        s.unmap_range(virt, pages, size, 0).0.translate(v) is None,
{
    lemma_range_unmapped(s, virt, pages, size, 0, v);
}

/// Unmapping a range, also one that cannot be unmapped to its end, changes no
/// address outside it.
pub proof fn law_unmap_range_keeps_other_pages(
    s: Space,
    virt: u64,
    pages: int,
    size: PageSize,
    v: u64,
)
    requires
        s.wf(),
        s.unmap_fits(virt, pages, size, 0),
        !(virt <= v < virt + pages * space::page_bytes(size)),
    ensures
        s.unmap_range(virt, pages, size, 0).0.translate(v) == s.translate(v),
{
    lemma_range_unmapped(s, virt, pages, size, 0, v);
}

} // verus!
