//! The kernel heap: slabs of equal objects for small sizes, blocks of frames
//! for large ones.
use vstd::prelude::*;

use crate::mm::addr::PAddr;
use crate::mm::blocks;
use crate::mm::free_lists;
use crate::mm::pmm;
use crate::mm::pmm::{Pmm, FRAME_SIZE, MAX_ORDER};

verus! {

/// Bytes of the smallest objects.
const MIN_OBJ_SIZE: u32 = 16;

/// Bytes of the largest objects.
const MAX_OBJ_SIZE: usize = 1024;

const NUM_BUCKETS: usize = 7;

/// Bits of an address that tell the page.
const SLAB_MASK: u64 = 0xFFFF_FFFF_FFFF_F000;

/// Why the heap could not be set up. Nothing in the heap's own setup can fail.
#[derive(Debug, Copy, Clone, PartialEq, Eq, Structural)]
pub enum HeapError {
    /// Some memory that the heap relies on is missing.
    NoMemory,
}

/// Sets up the heap. It relies on the direct map.
pub fn init(hhdm_offset: u64) -> (r: Result<(), HeapError>)
    requires
        hhdm_offset != 0,
    ensures
        r is Ok,
{
    Ok(())
}

/// Size and alignment of an allocation.
#[derive(Debug, Copy, Clone, PartialEq, Eq, Structural)]
pub struct Layout {
    /// Bytes.
    pub size: usize,
    /// Alignment in bytes.
    pub align: usize,
}

impl Layout {
    /// Bytes that an object must span to be aligned as well as large enough.
    pub open spec fn need(self) -> int {
        if self.size >= self.align {
            self.size as int
        } else {
            self.align as int
        }
    }
}

/// Words of an object of a bucket. The buckets hold objects of 16, 32, 64, 128,
/// 256, 512 and 1024 bytes.
pub open spec fn obj_words(bucket: int) -> int {
    if bucket == 0 {
        2
    } else if bucket == 1 {
        4
    } else if bucket == 2 {
        8
    } else if bucket == 3 {
        16
    } else if bucket == 4 {
        32
    } else if bucket == 5 {
        64
    } else {
        128
    }
}

/// Bytes of an object of a bucket.
pub open spec fn obj_size(bucket: int) -> int {
    obj_words(bucket) * 8
}

/// Number of objects in a slab. The place of one object is taken by the header.
pub open spec fn obj_count(bucket: int) -> int {
    512int / obj_words(bucket) - 1
}

/// Bucket for an allocation: the one with the smallest objects that are large
/// enough.
pub open spec fn bucket_of(need: int) -> Option<int> {
    if need <= 16 {
        Some(0)
    } else if need <= 32 {
        Some(1)
    } else if need <= 64 {
        Some(2)
    } else if need <= 128 {
        Some(3)
    } else if need <= 256 {
        Some(4)
    } else if need <= 512 {
        Some(5)
    } else if need <= 1024 {
        Some(6)
    } else {
        None
    }
}

/// Smallest order from `o` on whose blocks span the given number of frames.
pub open spec fn order_of(frames: int, o: int) -> Option<int>
    decreases 12 - o,
{
    if o > 11 {
        None
    } else if frames <= blocks::pages(o) {
        Some(o)
    } else {
        order_of(frames, o + 1)
    }
}

/// Order for a large allocation.
pub open spec fn large_order(need: int) -> Option<int> {
    order_of((need + 4095) / 4096, 0)
}

/// Sizes of the objects of all buckets.
fn make_obj_sizes() -> (sizes: [u32; NUM_BUCKETS])
    ensures
        forall|b: int| 0 <= b < 7 ==> #[trigger] sizes@[b] == obj_size(b),
{
    let mut sizes: [u32; NUM_BUCKETS] = [0; NUM_BUCKETS];
    let mut size: u32 = MIN_OBJ_SIZE;
    let mut i: usize = 0;
    while i < NUM_BUCKETS
        invariant
            i <= NUM_BUCKETS,
            i < 7 ==> size == obj_size(i as int),
            forall|b: int| 0 <= b < i ==> #[trigger] sizes@[b] == obj_size(b),
        decreases NUM_BUCKETS - i,
    {
        sizes[i] = size;
        size = size * 2;
        i = i + 1;
    }
    sizes
}

/// Bucket for an allocation, if it is a small one.
fn bucket_for(layout: Layout) -> (r: Option<usize>)
    ensures
        match bucket_of(layout.need()) {
            Some(b) => r == Some(b as usize),
            None => r is None,
        },
{
    let need: usize = if layout.size >= layout.align {
        layout.size
    } else {
        layout.align
    };
    if need > MAX_OBJ_SIZE {
        return None;
    }
    let sizes = make_obj_sizes();
    let mut b: usize = 0;
    while b < NUM_BUCKETS
        invariant
            b <= NUM_BUCKETS,
            need <= 1024,
            need == layout.need(),
            forall|i: int| 0 <= i < 7 ==> #[trigger] sizes@[i] == obj_size(i),
            b > 0 ==> need > obj_size(b - 1),
        decreases NUM_BUCKETS - b,
    {
        if need <= sizes[b] as usize {
            return Some(b);
        }
        b = b + 1;
    }
    None
}

/// Order for a large allocation, if there are blocks of that size.
fn order_for_large(layout: Layout) -> (r: Option<usize>)
    ensures
        match large_order(layout.need()) {
            Some(o) => r == Some(o as usize) && 0 <= o <= MAX_ORDER,
            None => r is None,
        },
{
    let need: usize = if layout.size >= layout.align {
        layout.size
    } else {
        layout.align
    };
    let frames: usize = if need % 4096 == 0 {
        need / 4096
    } else {
        need / 4096 + 1
    };
    let mut order: usize = 0;
    let mut pages: usize = 1;
    proof {
        blocks::lemma_single();
    }
    while order <= MAX_ORDER
        invariant
            order <= MAX_ORDER + 1,
            frames == (layout.need() + 4095) / 4096,
            order <= MAX_ORDER ==> pages == blocks::pages(order as int),
            order_of(frames as int, 0) == order_of(frames as int, order as int),
        decreases MAX_ORDER + 1 - order,
    {
        if frames <= pages {
            return Some(order);
        }
        proof {
            blocks::lemma_pages(order as int);
            blocks::lemma_pages_bound(order as int);
        }
        pages = pages * 2;
        order = order + 1;
    }
    None
}

/// Sizes of objects and slabs.
pub proof fn lemma_bucket(bucket: int)
    requires
        0 <= bucket < 7,
    ensures
        2 <= obj_words(bucket) <= 128,
        3 <= obj_count(bucket) <= 255,
        obj_words(bucket) * (obj_count(bucket) + 1) == 512,
        obj_size(bucket) * (obj_count(bucket) + 1) == 4096,
        obj_size(bucket) == 8 * obj_words(bucket),
{
    assert(512int / 2 == 256 && 512int / 4 == 128 && 512int / 8 == 64 && 512int / 16 == 32);
    assert(512int / 32 == 16 && 512int / 64 == 8 && 512int / 128 == 4);
    if bucket == 0 {
    } else if bucket == 1 {
    } else if bucket == 2 {
    } else if bucket == 3 {
    } else if bucket == 4 {
    } else if bucket == 5 {
    } else {
        assert(bucket == 6);
    }
    let w = obj_words(bucket);
    let n = obj_count(bucket) + 1;
    assert(w * n == 512);
    assert((w * 8) * n == 8 * (w * n)) by (nonlinear_arith);
}

/// A slab: a frame that is cut into objects of one size.
pub struct Slab {
    /// Bucket that the objects belong to.
    pub bucket: int,
    /// Numbers of the free objects, in the order in which they are given out.
    pub free: Seq<int>,
}

/// The heap as a value.
#[verifier::ext_equal]
pub struct HeapView {
    /// The slabs, by frame.
    pub slabs: Map<int, Slab>,
    /// For each bucket the frame of the slab that objects are taken from.
    pub active: Seq<Option<int>>,
    /// For each bucket the frames of the other slabs that have free objects.
    pub partial: Seq<Seq<int>>,
    /// The large allocations: orders by first frame.
    pub large: Map<int, int>,
}

/// Address of an object of a slab.
pub open spec fn obj_addr(hhdm: int, f: int, bucket: int, i: int) -> int {
    pmm::frame_address(hhdm, f) + obj_size(bucket) * (i + 1)
}

/// First word of an object of a slab.
spec fn obj_word(f: int, bucket: int, i: int) -> int {
    f * 512 + obj_words(bucket) * (i + 1)
}

/// A new slab.
pub open spec fn new_slab(bucket: int) -> Slab {
    Slab { bucket, free: Seq::new(obj_count(bucket) as nat, |i: int| i) }
}

impl HeapView {
    /// The heap without any slab.
    pub open spec fn empty() -> HeapView {
        HeapView {
            slabs: Map::empty(),
            active: Seq::new(7, |b: int| None),
            partial: Seq::new(7, |b: int| Seq::empty()),
            large: Map::empty(),
        }
    }

    /// The active slab of a bucket has a free object.
    pub open spec fn active_usable(self, b: int) -> bool {
        self.active[b] matches Some(f) && self.slabs[f].free.len() > 0
    }

    /// The heap after the first free object of a slab is given out.
    pub open spec fn pop(self, f: int) -> HeapView {
        let slab = self.slabs[f];
        HeapView {
            slabs: self.slabs.insert(
                f,
                Slab { bucket: slab.bucket, free: slab.free.drop_first() },
            ),
            ..self
        }
    }

    /// The slab that the next object of a bucket comes from; `fresh` is the
    /// frame for a new slab, if there is one.
    pub open spec fn source(self, b: int, fresh: Option<int>) -> Option<int> {
        if self.active_usable(b) {
            self.active[b]
        } else if self.partial[b].len() > 0 {
            Some(self.partial[b][0])
        } else {
            fresh
        }
    }

    /// The heap with the slab that the next object of a bucket comes from made
    /// the active one.
    pub open spec fn prepared(self, b: int, fresh: Option<int>) -> HeapView {
        if self.active_usable(b) {
            self
        } else if self.partial[b].len() > 0 {
            HeapView {
                active: self.active.update(b, Some(self.partial[b][0])),
                partial: self.partial.update(b, self.partial[b].drop_first()),
                ..self
            }
        } else {
            match fresh {
                Some(f) => HeapView {
                    slabs: self.slabs.insert(f, new_slab(b)),
                    active: self.active.update(b, Some(f)),
                    ..self
                },
                None => HeapView { active: self.active.update(b, None), ..self },
            }
        }
    }

    /// The heap after an allocation from a bucket.
    pub open spec fn alloc_small(self, b: int, fresh: Option<int>) -> HeapView {
        match self.source(b, fresh) {
            Some(f) => self.prepared(b, fresh).pop(f),
            None => self.prepared(b, fresh),
        }
    }

    /// Number of the object that an allocation from a bucket gives.
    pub open spec fn next_object(self, b: int, fresh: Option<int>) -> int {
        self.prepared(b, fresh).slabs[self.source(b, fresh).unwrap()].free[0]
    }

    /// A new slab is needed for the next object of a bucket.
    pub open spec fn needs_slab(self, b: int) -> bool {
        !self.active_usable(b) && self.partial[b].len() == 0
    }

    /// The heap after an object was given back.
    pub open spec fn dealloc_small(self, f: int, i: int) -> HeapView {
        let slab = self.slabs[f];
        let b = slab.bucket;
        let with_object = HeapView {
            slabs: self.slabs.insert(f, Slab { bucket: b, free: seq![i] + slab.free }),
            ..self
        };
        if self.active[b] != Some(f) && slab.free.len() == 0 {
            HeapView { partial: self.partial.update(b, seq![f] + self.partial[b]), ..with_object }
        } else {
            with_object
        }
    }

    /// Object `i` of the slab in frame `f` is in use.
    pub open spec fn live(self, f: int, i: int) -> bool {
        &&& self.slabs.contains_key(f)
        &&& 0 <= i < obj_count(self.slabs[f].bucket)
        &&& !self.slabs[f].free.contains(i)
    }

    /// What every heap keeps.
    pub open spec fn wf(self) -> bool {
        &&& self.active.len() == 7
        &&& self.partial.len() == 7
        &&& forall|f: int| #[trigger] self.slabs.contains_key(f) ==> self.slab_wf(f)
        &&& forall|b: int|
            0 <= b < 7 ==> match #[trigger] self.active[b] {
                Some(f) => self.slabs.contains_key(f) && self.slabs[f].bucket == b
                    && !self.partial[b].contains(f),
                None => true,
            }
        &&& forall|b: int| 0 <= b < 7 ==> (#[trigger] self.partial[b]).no_duplicates()
        &&& forall|b: int, i: int|
            #![trigger self.partial[b][i]]
            0 <= b < 7 && 0 <= i < self.partial[b].len() ==> {
                let f = self.partial[b][i];
                &&& self.slabs.contains_key(f)
                &&& self.slabs[f].bucket == b
                &&& self.slabs[f].free.len() > 0
            }
    }

    /// What every slab keeps: its free objects are objects of it, each is there
    /// once, and a slab that is neither active nor partial is full.
    pub open spec fn slab_wf(self, f: int) -> bool {
        let slab = self.slabs[f];
        &&& 0 <= slab.bucket < 7
        &&& slab.free.no_duplicates()
        &&& forall|j: int|
            #![trigger slab.free[j]]
            0 <= j < slab.free.len() ==> 0 <= slab.free[j] < obj_count(slab.bucket)
        &&& slab.free.len() == 0 || self.active[slab.bucket] == Some(f)
            || self.partial[slab.bucket].contains(f)
    }
}

/// Word that links to item `j` of the list of free objects of a slab.
spec fn free_link(hhdm: int, f: int, slab: Slab, j: int) -> int {
    if 0 <= j < slab.free.len() {
        obj_addr(hhdm, f, slab.bucket, slab.free[j])
    } else {
        0
    }
}

/// Item `j` of the list of free objects links to the next.
spec fn object_linked(mem: Seq<u64>, hhdm: int, f: int, slab: Slab, j: int) -> bool {
    mem[obj_word(f, slab.bucket, slab.free[j])] == free_link(hhdm, f, slab, j + 1)
}

/// The list of free objects of a slab is in the memory.
spec fn slab_linked(mem: Seq<u64>, hhdm: int, f: int, slab: Slab) -> bool {
    &&& mem[f * 512 + 1] == free_link(hhdm, f, slab, 0)
    &&& forall|j: int|
        0 <= j < slab.free.len() ==> #[trigger] object_linked(mem, hhdm, f, slab, j)
}

/// Word that links to item `i` of a list of slabs.
spec fn slab_link(hhdm: int, list: Seq<int>, i: int) -> int {
    if 0 <= i < list.len() {
        pmm::frame_address(hhdm, list[i])
    } else {
        0
    }
}

/// Item `i` of a list of slabs links to the next.
spec fn partial_linked(mem: Seq<u64>, hhdm: int, list: Seq<int>, i: int) -> bool {
    mem[list[i] * 512] == slab_link(hhdm, list, i + 1)
}

/// A list of slabs is in the memory.
spec fn list_linked(mem: Seq<u64>, hhdm: int, list: Seq<int>) -> bool {
    forall|i: int| 0 <= i < list.len() ==> #[trigger] partial_linked(mem, hhdm, list, i)
}

/// The frame belongs to the large allocation that starts at frame `f`.
pub open spec fn large_holds(h: HeapView, f: int, frame: int) -> bool {
    h.large.contains_key(f) && f <= frame < f + blocks::pages(h.large[f])
}

/// Slabs and large allocations take frames that are not free, each its own.
pub open spec fn frames_apart(h: HeapView, pmm: &Pmm) -> bool {
    &&& forall|f: int| #[trigger]
        h.slabs.contains_key(f) ==> 0 <= f < pmm.total() && !pmm.is_free(f)
            && pmm::frame_address(pmm.hhdm(), f) > 0
    &&& forall|f: int| #[trigger]
        h.large.contains_key(f) ==> {
            &&& 0 <= h.large[f] <= 11
            &&& 0 <= f
            &&& f + blocks::pages(h.large[f]) <= pmm.total()
            &&& f % blocks::pages(h.large[f]) == 0
            &&& pmm::frame_address(pmm.hhdm(), f) > 0
        }
    &&& forall|f: int, g: int| #[trigger]
        large_holds(h, f, g) ==> !pmm.is_free(g) && !h.slabs.contains_key(g)
    &&& forall|f: int, f2: int, g: int| #[trigger]
        large_holds(h, f, g) && #[trigger] large_holds(h, f2, g) ==> f == f2
}

/// The heap. Its lists of slabs and of free objects are in the slabs.
pub struct Heap {
    active: [Option<u64>; NUM_BUCKETS],
    partial: [Option<u64>; NUM_BUCKETS],
    state: Ghost<HeapView>,
}

impl Heap {
    /// The heap as a value.
    pub closed spec fn view(&self) -> HeapView {
        self.state@
    }

    /// The lists are in the memory, and the heads lead to them.
    spec fn linked(&self, mem: Seq<u64>, hhdm: int) -> bool {
        &&& forall|f: int| #[trigger]
            self@.slabs.contains_key(f) ==> slab_linked(mem, hhdm, f, self@.slabs[f])
        &&& forall|b: int|
            0 <= b < 7 ==> #[trigger] list_linked(mem, hhdm, self@.partial[b])
        &&& forall|b: int|
            0 <= b < 7 ==> match #[trigger] self.active[b] {
                Some(a) => self@.active[b] matches Some(f) && a == pmm::frame_address(hhdm, f),
                None => self@.active[b] is None,
            }
        &&& forall|b: int|
            0 <= b < 7 ==> match #[trigger] self.partial[b] {
                Some(a) => self@.partial[b].len() > 0 && a == slab_link(
                    hhdm,
                    self@.partial[b],
                    0,
                ),
                None => self@.partial[b].len() == 0,
            }
    }

    /// The heap, the allocator it takes frames from, and the memory that holds
    /// both are well-formed.
    pub closed spec fn wf(&self, mem: Seq<u64>, pmm: &Pmm) -> bool {
        &&& pmm.wf(mem)
        &&& pmm.hhdm() % 4096 == 0
        &&& self@.wf()
        &&& frames_apart(self@, pmm)
        &&& self.linked(mem, pmm.hhdm())
    }

    /// The heap without any slab.
    pub fn new() -> (heap: Self)
        ensures
            heap@ == HeapView::empty(),
            forall|mem: Seq<u64>, pmm: &Pmm|
                pmm.wf(mem) && pmm.hhdm() % 4096 == 0 ==> #[trigger] heap.wf(mem, pmm),
    {
        let heap = Heap {
            active: [None; NUM_BUCKETS],
            partial: [None; NUM_BUCKETS],
            state: Ghost(HeapView::empty()),
        };
        heap
    }
}

/// Where the objects of a slab are.
proof fn lemma_object(f: int, bucket: int, i: int)
    requires
        0 <= bucket < 7,
        0 <= i < obj_count(bucket),
    ensures
        obj_words(bucket) <= obj_word(f, bucket, i) - f * 512,
        obj_word(f, bucket, i) - f * 512 + obj_words(bucket) <= 512,
        obj_size(bucket) * (i + 1) == 8 * (obj_words(bucket) * (i + 1)),
        (obj_words(bucket) * (i + 1)) / obj_words(bucket) == i + 1,
{
    lemma_bucket(bucket);
    let w = obj_words(bucket);
    let n = obj_count(bucket);
    assert(w <= w * (i + 1) && w * (i + 1) + w <= w * (n + 1)) by (nonlinear_arith)
        requires
            2 <= w,
            0 <= i < n,
    ;
    assert((8 * w) * (i + 1) == 8 * (w * (i + 1))) by (nonlinear_arith);
    vstd::arithmetic::div_mod::lemma_div_multiples_vanish(i + 1, w);
}

/// Objects of a slab have words of their own.
proof fn lemma_objects_apart(f: int, bucket: int, i: int, j: int)
    requires
        0 <= bucket < 7,
        0 <= i < obj_count(bucket),
        0 <= j < obj_count(bucket),
        i != j,
    ensures
        obj_word(f, bucket, i) != obj_word(f, bucket, j),
{
    lemma_object(f, bucket, i);
    lemma_object(f, bucket, j);
}

/// The list of free objects of a slab depends on its frame only.
proof fn lemma_slab_stays(mem: Seq<u64>, mem2: Seq<u64>, hhdm: int, f: int, h: HeapView)
    requires
        h.slabs.contains_key(f),
        h.slab_wf(f),
        slab_linked(mem, hhdm, f, h.slabs[f]),
        forall|w: int|
            f * 512 + 1 <= w < f * 512 + 512 ==> #[trigger] mem2[w] == mem[w],
    ensures
        slab_linked(mem2, hhdm, f, h.slabs[f]),
{
    let slab = h.slabs[f];
    assert forall|j: int| 0 <= j < slab.free.len() implies #[trigger] object_linked(
        mem2,
        hhdm,
        f,
        slab,
        j,
    ) by {
        lemma_bucket(slab.bucket);
        lemma_object(f, slab.bucket, slab.free[j]);
        assert(object_linked(mem, hhdm, f, slab, j));
    }
}

/// Giving out the first free object of a slab.
proof fn lemma_pop(mem: Seq<u64>, hhdm: int, f: int, h: HeapView)
    requires
        h.slabs.contains_key(f),
        h.slab_wf(f),
        h.slabs[f].free.len() > 0,
        slab_linked(mem, hhdm, f, h.slabs[f]),
        0 <= f,
        f * 512 + 512 <= mem.len(),
    ensures
        ({
            let slab = h.slabs[f];
            let next = mem[obj_word(f, slab.bucket, slab.free[0])];
            slab_linked(mem.update(f * 512 + 1, next), hhdm, f, h.pop(f).slabs[f])
        }),
{
    let slab = h.slabs[f];
    let slab2 = h.pop(f).slabs[f];
    let mem2 = mem.update(f * 512 + 1, mem[obj_word(f, slab.bucket, slab.free[0])]);
    assert(object_linked(mem, hhdm, f, slab, 0));
    assert forall|j: int| 0 <= j < slab2.free.len() implies #[trigger] object_linked(
        mem2,
        hhdm,
        f,
        slab2,
        j,
    ) by {
        lemma_bucket(slab.bucket);
        lemma_object(f, slab.bucket, slab.free[j + 1]);
        assert(object_linked(mem, hhdm, f, slab, j + 1));
    }
}

/// Taking an object back into a slab.
proof fn lemma_push(mem: Seq<u64>, mem2: Seq<u64>, hhdm: int, f: int, h: HeapView, i: int)
    requires
        h.live(f, i),
        h.slab_wf(f),
        slab_linked(mem, hhdm, f, h.slabs[f]),
        0 <= f,
        f * 512 + 512 <= mem.len(),
        mem2.len() == mem.len(),
        ({
            let b = h.slabs[f].bucket;
            &&& mem2[obj_word(f, b, i)] == mem[f * 512 + 1]
            &&& mem2[f * 512 + 1] == obj_addr(hhdm, f, b, i)
            &&& forall|w: int|
                f * 512 + 2 <= w < f * 512 + 512 && w != obj_word(f, b, i) ==> #[trigger] mem2[w]
                    == mem[w]
        }),
    ensures
        slab_linked(mem2, hhdm, f, h.dealloc_small(f, i).slabs[f]),
{
    let slab = h.slabs[f];
    let slab2 = h.dealloc_small(f, i).slabs[f];
    assert(slab2.free[0] == i);
    assert forall|j: int| 0 <= j < slab2.free.len() implies #[trigger] object_linked(
        mem2,
        hhdm,
        f,
        slab2,
        j,
    ) by {
        if j > 0 {
            assert(slab2.free[j] == slab.free[j - 1]);
            assert(object_linked(mem, hhdm, f, slab, j - 1));
            lemma_bucket(slab.bucket);
            lemma_object(f, slab.bucket, slab.free[j - 1]);
            assert(slab.free.contains(slab.free[j - 1]));
            lemma_objects_apart(f, slab.bucket, i, slab.free[j - 1]);
        }
    }
}

/// The word may be changed by the heap: it belongs to the header of a slab or
/// to a free object.
pub open spec fn heap_word(h: HeapView, w: int) -> bool {
    let f = w / 512;
    let slab = h.slabs[f];
    let size = obj_words(slab.bucket);
    h.slabs.contains_key(f) && (w % 512 < size || slab.free.contains((w % 512) / size - 1))
}

/// Only words of the heap and of free frames differ.
pub open spec fn only_heap_changed(
    h: HeapView,
    lists: Seq<Seq<int>>,
    mem: Seq<u64>,
    h2: HeapView,
    lists2: Seq<Seq<int>>,
    mem2: Seq<u64>,
) -> bool {
    &&& mem2.len() == mem.len()
    &&& forall|w: int|
        0 <= w < mem.len() && !heap_word(h, w) && !heap_word(h2, w) && !free_lists::covers(
            lists,
            w / 512,
        ) && !free_lists::covers(lists2, w / 512) ==> #[trigger] mem2[w] == mem[w]
}

/// Word of the memory at an address of the direct map.
fn word_at(addr: u64, hhdm: u64) -> (w: usize)
    requires
        hhdm <= addr,
        (addr - hhdm) / 8 <= usize::MAX,
    ensures
        w == (addr - hhdm) / 8,
{
    ((addr - hhdm) / 8) as usize
}

/// The frames stay apart where neither the slabs' frames nor the large
/// allocations change.
proof fn lemma_apart_stays(h: HeapView, h2: HeapView, pmm: &Pmm)
    requires
        frames_apart(h, pmm),
        h2.large == h.large,
        forall|f: int| #[trigger] h2.slabs.contains_key(f) ==> h.slabs.contains_key(f),
    ensures
        frames_apart(h2, pmm),
{
    assert forall|f: int, g: int| #[trigger] large_holds(h2, f, g) implies !pmm.is_free(g)
        && !h2.slabs.contains_key(g) by {
        assert(large_holds(h, f, g));
    }
    assert forall|f: int, f2: int, g: int| #[trigger]
        large_holds(h2, f, g) && #[trigger] large_holds(h2, f2, g) implies f == f2 by {
        assert(large_holds(h, f, g) && large_holds(h, f2, g));
    }
}

/// Frame that the allocator gives out next.
pub open spec fn fresh_frame(pmm: &Pmm) -> Option<int> {
    if pmm.free_count() > 0 {
        Some(free_lists::alloc_frame_of(pmm.lists(), 0))
    } else {
        None
    }
}

/// Objects beside the header.
proof fn lemma_count(bucket: int)
    requires
        0 <= bucket < 7,
    ensures
        (4096 - obj_size(bucket)) / obj_size(bucket) == obj_count(bucket),
        0 < obj_size(bucket) <= 1024,
{
    lemma_bucket(bucket);
    let s = obj_size(bucket);
    let n = obj_count(bucket);
    assert(s * (n + 1) == 4096);
    assert(4096 - s == n * s) by (nonlinear_arith)
        requires
            s * (n + 1) == 4096,
    ;
    vstd::arithmetic::div_mod::lemma_div_multiples_vanish(n, s);
    vstd::arithmetic::mul::lemma_mul_is_commutative(n, s);
}

/// A frame that was free becomes the active slab of a bucket.
proof fn lemma_refilled(
    h: HeapView,
    mem0: Seq<u64>,
    mem1: Seq<u64>,
    mem2: Seq<u64>,
    hhdm: int,
    pmm0: &Pmm,
    pmm: &Pmm,
    b: int,
    g: int,
)
    requires
        0 <= b < 7,
        h.wf(),
        h.needs_slab(b),
        frames_apart(h, pmm0),
        pmm0.is_free(g),
        0 <= g < pmm.total(),
        pmm.total() == pmm0.total(),
        pmm.hhdm() == pmm0.hhdm(),
        pmm.hhdm() == hhdm,
        pmm::frame_address(hhdm, g) > 0,
        forall|x: int| pmm.is_free(x) <==> pmm0.is_free(x) && x != g,
        pmm.wf(mem1),
        mem1.len() == mem0.len(),
        mem2.len() == mem1.len(),
        pmm::only_links_changed(mem0, mem1, pmm0.lists(), pmm.lists()),
        forall|w: int| 0 <= w < mem1.len() && w / 512 != g ==> #[trigger] mem2[w] == mem1[w],
        forall|f: int| #[trigger]
            h.slabs.contains_key(f) ==> slab_linked(mem0, hhdm, f, h.slabs[f]),
        forall|c: int| 0 <= c < 7 ==> #[trigger] list_linked(mem0, hhdm, h.partial[c]),
        slab_linked(mem2, hhdm, g, new_slab(b)),
    ensures
        ({
            let h2 = h.prepared(b, Some(g));
            &&& pmm.wf(mem2)
            &&& h2.wf()
            &&& frames_apart(h2, pmm)
            &&& forall|f: int| #[trigger]
                h2.slabs.contains_key(f) ==> slab_linked(mem2, hhdm, f, h2.slabs[f])
            &&& forall|c: int| 0 <= c < 7 ==> #[trigger] list_linked(mem2, hhdm, h2.partial[c])
            &&& only_heap_changed(h, pmm0.lists(), mem0, h2, pmm.lists(), mem2)
        }),
{
    let h2 = h.prepared(b, Some(g));
    pmm.lemma_wf(mem1);
    assert(!pmm.is_free(g));
    assert(!h.slabs.contains_key(g));
    assert forall|w: int| 0 <= w < mem1.len() && pmm.is_free(w / 512) implies #[trigger] mem2[w]
        == mem1[w] by {}
    pmm.lemma_wf_other_memory(mem1, mem2);
    assert forall|w: int|
        0 <= w < mem0.len() && !pmm0.is_free(w / 512) implies #[trigger] mem2[w] == mem0[w] by {
        assert(!pmm.is_free(w / 512));
        assert(mem1[w] == mem0[w]);
    }
    lemma_bucket(b);
    assert forall|f: int| #[trigger] h2.slabs.contains_key(f) implies h2.slab_wf(f) && slab_linked(
        mem2,
        hhdm,
        f,
        h2.slabs[f],
    ) by {
        if f != g {
            assert(h.slabs.contains_key(f));
            assert(h.slab_wf(f));
            assert(!pmm0.is_free(f));
            assert forall|w: int| f * 512 + 1 <= w < f * 512 + 512 implies #[trigger] mem2[w]
                == mem0[w] by {
                assert(w / 512 == f);
            }
            lemma_slab_stays(mem0, mem2, hhdm, f, h);
            assert(h2.slabs[f] == h.slabs[f]);
        }
    }
    assert forall|c: int, i: int|
        #![trigger h2.partial[c][i]]
        0 <= c < 7 && 0 <= i < h2.partial[c].len() implies {
        let f = h2.partial[c][i];
        &&& h2.slabs.contains_key(f)
        &&& h2.slabs[f].bucket == c
        &&& h2.slabs[f].free.len() > 0
    } by {
        let f = h.partial[c][i];
        assert(h.slabs.contains_key(f));
    }
    assert forall|c: int| 0 <= c < 7 implies match #[trigger] h2.active[c] {
        Some(f) => h2.slabs.contains_key(f) && h2.slabs[f].bucket == c && !h2.partial[c].contains(
            f,
        ),
        None => true,
    } by {
        if c != b {
            assert(h.active[c] == h2.active[c]);
        }
    }
    assert forall|c: int| 0 <= c < 7 implies (#[trigger] h2.partial[c]).no_duplicates() by {
        assert(h.partial[c].no_duplicates());
    }
    assert forall|c: int| 0 <= c < 7 implies #[trigger] list_linked(mem2, hhdm, h2.partial[c]) by {
        assert(list_linked(mem0, hhdm, h.partial[c]));
        assert forall|i: int| 0 <= i < h2.partial[c].len() implies #[trigger] partial_linked(
            mem2,
            hhdm,
            h2.partial[c],
            i,
        ) by {
            let f = h.partial[c][i];
            assert(h.slabs.contains_key(f));
            assert(!pmm0.is_free(f));
            assert(partial_linked(mem0, hhdm, h.partial[c], i));
            assert((f * 512) / 512 == f);
        }
    }
    assert forall|f: int, x: int| #[trigger] large_holds(h2, f, x) implies !pmm.is_free(x)
        && !h2.slabs.contains_key(x) by {
        assert(large_holds(h, f, x));
        assert(!pmm0.is_free(x));
        assert(!pmm.is_free(x));
    }
    assert forall|f: int, f2: int, x: int| #[trigger]
        large_holds(h2, f, x) && #[trigger] large_holds(h2, f2, x) implies f == f2 by {
        assert(large_holds(h, f, x) && large_holds(h, f2, x));
    }
    assert forall|f: int| #[trigger] h2.slabs.contains_key(f) implies 0 <= f < pmm.total()
        && !pmm.is_free(f) && pmm::frame_address(pmm.hhdm(), f) > 0 by {
        if f != g {
            assert(h.slabs.contains_key(f));
            assert(!pmm0.is_free(f));
            assert(!pmm.is_free(f));
        }
    }
    assert(h2.wf());
}

/// What an allocation from a bucket returns and changes.
pub open spec fn small_outcome(
    h: HeapView,
    pmm: &Pmm,
    mem: Seq<u64>,
    b: int,
    r: Option<u64>,
    h2: HeapView,
    pmm2: &Pmm,
    mem2: Seq<u64>,
) -> bool {
    let fresh = fresh_frame(pmm);
    let taken = h.needs_slab(b) && fresh is Some;
    &&& h2 == h.alloc_small(b, fresh)
    &&& match h.source(b, fresh) {
        Some(f) => r matches Some(addr) && addr == obj_addr(
            pmm.hhdm(),
            f,
            b,
            h.next_object(b, fresh),
        ),
        None => r is None,
    }
    &&& pmm2.total() == pmm.total()
    &&& pmm2.hhdm() == pmm.hhdm()
    &&& pmm2.lists() == if taken {
        free_lists::alloc_lists(pmm.lists(), 0)
    } else {
        pmm.lists()
    }
    &&& pmm2.free_count() == if taken {
        pmm.free_count() - 1
    } else {
        pmm.free_count()
    }
    &&& forall|g: int| #[trigger]
        pmm2.is_free(g) <==> pmm.is_free(g) && !(taken && fresh == Some(g))
    &&& only_heap_changed(h, pmm.lists(), mem, h2, pmm2.lists(), mem2)
}

/// A bucket whose active slab is full can do without.
proof fn lemma_deactivated(h: HeapView, b: int)
    requires
        h.wf(),
        0 <= b < 7,
        h.needs_slab(b),
    ensures
        h.prepared(b, None).wf(),
{
    let h2 = h.prepared(b, None);
    assert forall|f: int| #[trigger] h2.slabs.contains_key(f) implies h2.slab_wf(f) by {
        assert(h.slab_wf(f));
    }
    assert forall|c: int| 0 <= c < 7 implies match #[trigger] h2.active[c] {
        Some(f) => h2.slabs.contains_key(f) && h2.slabs[f].bucket == c && !h2.partial[c].contains(
            f,
        ),
        None => true,
    } by {
        if c != b {
            assert(h.active[c] == h2.active[c]);
        }
    }
    assert forall|c: int| 0 <= c < 7 implies (#[trigger] h2.partial[c]).no_duplicates() by {
        assert(h.partial[c].no_duplicates());
    }
    assert forall|c: int, i: int|
        #![trigger h2.partial[c][i]]
        0 <= c < 7 && 0 <= i < h2.partial[c].len() implies {
        let f = h2.partial[c][i];
        &&& h2.slabs.contains_key(f)
        &&& h2.slabs[f].bucket == c
        &&& h2.slabs[f].free.len() > 0
    } by {
        let _ = h.partial[c][i];
    }
}

/// Frame of the slab that an address lies in.
pub open spec fn ptr_frame(hhdm: int, ptr: u64) -> int {
    (ptr - hhdm) / 4096
}

/// Number of the object that an address of a slab belongs to.
pub open spec fn ptr_index(hhdm: int, b: int, ptr: u64) -> int {
    ((ptr - hhdm) % 4096) / obj_size(b) - 1
}

/// The address is that of an object of a bucket that is in use.
pub open spec fn small_ptr(h: HeapView, hhdm: int, b: int, ptr: u64) -> bool {
    let f = ptr_frame(hhdm, ptr);
    let i = ptr_index(hhdm, b, ptr);
    &&& h.live(f, i)
    &&& h.slabs[f].bucket == b
    &&& ptr == obj_addr(hhdm, f, b, i)
}

/// Taking an object back keeps the heap well-formed.
proof fn lemma_slabs_after_dealloc(h: HeapView, f: int, i: int)
    requires
        h.wf(),
        h.live(f, i),
    ensures
        h.dealloc_small(f, i).wf(),
{
    let h2 = h.dealloc_small(f, i);
    let slab = h.slabs[f];
    let slab2 = h2.slabs[f];
    let b = slab.bucket;
    assert(h.slab_wf(f));
    let listed = h.active[b] != Some(f) && slab.free.len() == 0;
    assert(h2.partial[b].len() == h.partial[b].len() + if listed {
        1int
    } else {
        0
    });
    if listed {
        assert(h2.partial[b][0] == f);
        assert(h2.partial[b].contains(f));
        assert(!h.partial[b].contains(f)) by {
            if h.partial[b].contains(f) {
                let j = choose|j: int| 0 <= j < h.partial[b].len() && h.partial[b][j] == f;
                assert(h.slabs[h.partial[b][j]].free.len() > 0);
            }
        }
    }
    assert forall|c: int, j: int|
        #![trigger h2.partial[c][j]]
        0 <= c < 7 && 0 <= j < h2.partial[c].len() implies {
        let g = h2.partial[c][j];
        &&& h2.slabs.contains_key(g)
        &&& h2.slabs[g].bucket == c
        &&& h2.slabs[g].free.len() > 0
    } by {
        if c == b && listed {
            if j > 0 {
                assert(h2.partial[c][j] == h.partial[c][j - 1]);
            }
        } else {
            assert(h2.partial[c][j] == h.partial[c][j]);
        }
    }
    assert forall|c: int| 0 <= c < 7 implies (#[trigger] h2.partial[c]).no_duplicates() by {
        assert(h.partial[c].no_duplicates());
        if c == b && listed {
            assert forall|x: int, y: int|
                0 <= x < h2.partial[c].len() && 0 <= y < h2.partial[c].len() && x
                    != y implies h2.partial[c][x] != h2.partial[c][y] by {
                if x > 0 {
                    assert(h2.partial[c][x] == h.partial[c][x - 1]);
                    assert(h.partial[c].contains(h.partial[c][x - 1]));
                }
                if y > 0 {
                    assert(h2.partial[c][y] == h.partial[c][y - 1]);
                    assert(h.partial[c].contains(h.partial[c][y - 1]));
                }
            }
        }
    }
    assert forall|c: int| 0 <= c < 7 implies match #[trigger] h2.active[c] {
        Some(g) => h2.slabs.contains_key(g) && h2.slabs[g].bucket == c && !h2.partial[c].contains(
            g,
        ),
        None => true,
    } by {
        assert(h.active[c] == h2.active[c]);
        if let Some(g) = h.active[c] {
            if c == b && listed && h2.partial[c].contains(g) {
                let j = choose|j: int| 0 <= j < h2.partial[c].len() && h2.partial[c][j] == g;
                assert(j > 0);
                assert(h.partial[c][j - 1] == g);
                assert(h.partial[c].contains(g));
            }
        }
    }
    assert forall|g: int| #[trigger] h2.slabs.contains_key(g) implies h2.slab_wf(g) by {
        assert(h.slabs.contains_key(g));
        assert(h.slab_wf(g));
        let c = h.slabs[g].bucket;
        if h.partial[c].contains(g) {
            let j = choose|j: int| 0 <= j < h.partial[c].len() && h.partial[c][j] == g;
            if c == b && listed {
                assert(h2.partial[c][j + 1] == g);
            }
            assert(h2.partial[c].contains(g));
        }
        if g == f {
            assert forall|j: int|
                #![trigger slab2.free[j]]
                0 <= j < slab2.free.len() implies 0 <= slab2.free[j] < obj_count(b) by {
                if j > 0 {
                    assert(slab2.free[j] == slab.free[j - 1]);
                }
            }
            assert forall|x: int, y: int|
                0 <= x < slab2.free.len() && 0 <= y < slab2.free.len() && x
                    != y implies slab2.free[x] != slab2.free[y] by {
                if x > 0 {
                    assert(slab2.free[x] == slab.free[x - 1]);
                    assert(slab.free.contains(slab.free[x - 1]));
                }
                if y > 0 {
                    assert(slab2.free[y] == slab.free[y - 1]);
                    assert(slab.free.contains(slab.free[y - 1]));
                }
            }
        }
    }
}

/// What an allocation of a block of frames returns and changes.
pub open spec fn large_outcome(
    h: HeapView,
    pmm: &Pmm,
    mem: Seq<u64>,
    order: Option<int>,
    r: Option<u64>,
    h2: HeapView,
    pmm2: &Pmm,
    mem2: Seq<u64>,
) -> bool {
    match order {
        Some(o) if free_lists::first_order(pmm.lists(), o) < 12 => {
            let f = free_lists::alloc_frame_of(pmm.lists(), o);
            &&& r matches Some(addr) && addr == pmm::frame_address(pmm.hhdm(), f)
            &&& h2 == (HeapView { large: h.large.insert(f, o), ..h })
            &&& pmm::alloc_outcome(pmm, mem, o, Some(PAddr((f * 4096) as u64)), pmm2, mem2)
        },
        _ => {
            &&& r is None
            &&& h2 == h
            &&& mem2 == mem
            &&& pmm2.lists() == pmm.lists()
            &&& pmm2.free_count() == pmm.free_count()
            &&& pmm2.total() == pmm.total()
            &&& pmm2.hhdm() == pmm.hhdm()
        },
    }
}

/// The address is that of a large allocation of an order.
pub open spec fn large_ptr(h: HeapView, hhdm: int, order: int, ptr: u64) -> bool {
    let f = ptr_frame(hhdm, ptr);
    &&& h.large.contains_key(f)
    &&& h.large[f] == order
    &&& ptr == pmm::frame_address(hhdm, f)
}

/// What freeing a block of frames changes. Nothing was ever allocated for a
/// layout that no block is large enough for, so then nothing is freed.
pub open spec fn large_freed(
    h: HeapView,
    pmm: &Pmm,
    mem: Seq<u64>,
    order: Option<int>,
    ptr: u64,
    h2: HeapView,
    pmm2: &Pmm,
    mem2: Seq<u64>,
) -> bool {
    match order {
        Some(o) => {
            let f = ptr_frame(pmm.hhdm(), ptr);
            &&& h2 == (HeapView { large: h.large.remove(f), ..h })
            &&& pmm::free_outcome(pmm, mem, PAddr((ptr - pmm.hhdm()) as u64), o, pmm2, mem2)
        },
        None => h2 == h && mem2 == mem && *pmm2 == *pmm,
    }
}

/// What an allocation returns and changes.
pub open spec fn allocate_outcome(
    h: HeapView,
    pmm: &Pmm,
    mem: Seq<u64>,
    layout: Layout,
    r: Option<u64>,
    h2: HeapView,
    pmm2: &Pmm,
    mem2: Seq<u64>,
) -> bool {
    match bucket_of(layout.need()) {
        Some(b) => small_outcome(h, pmm, mem, b, r, h2, pmm2, mem2),
        None => large_outcome(h, pmm, mem, large_order(layout.need()), r, h2, pmm2, mem2),
    }
}

/// The address is null, or one that an allocation with this layout returned and
/// that was not freed since.
pub open spec fn can_deallocate(h: HeapView, hhdm: int, ptr: u64, layout: Layout) -> bool {
    ptr != 0 ==> match bucket_of(layout.need()) {
        Some(b) => small_ptr(h, hhdm, b, ptr),
        None => large_order(layout.need()) matches Some(o) ==> large_ptr(h, hhdm, o, ptr),
    }
}

/// What freeing changes.
pub open spec fn deallocate_outcome(
    h: HeapView,
    pmm: &Pmm,
    mem: Seq<u64>,
    ptr: u64,
    layout: Layout,
    h2: HeapView,
    pmm2: &Pmm,
    mem2: Seq<u64>,
) -> bool {
    if ptr == 0 {
        h2 == h && mem2 == mem && *pmm2 == *pmm
    } else {
        match bucket_of(layout.need()) {
            Some(b) => {
                &&& h2 == h.dealloc_small(
                    ptr_frame(pmm.hhdm(), ptr),
                    ptr_index(pmm.hhdm(), b, ptr),
                )
                &&& *pmm2 == *pmm
                &&& only_heap_changed(h, pmm.lists(), mem, h2, pmm2.lists(), mem2)
            },
            None => large_freed(h, pmm, mem, large_order(layout.need()), ptr, h2, pmm2, mem2),
        }
    }
}

/// A block of frames that were free becomes a large allocation.
proof fn lemma_large_added(h: HeapView, pmm: &Pmm, pmm2: &Pmm, f: int, o: int)
    requires
        frames_apart(h, pmm),
        0 <= o <= 11,
        0 <= f,
        f + blocks::pages(o) <= pmm.total(),
        f % blocks::pages(o) == 0,
        pmm::frame_address(pmm.hhdm(), f) > 0,
        pmm2.total() == pmm.total(),
        pmm2.hhdm() == pmm.hhdm(),
        forall|g: int| f <= g < f + blocks::pages(o) ==> pmm.is_free(g),
        forall|g: int|
            pmm2.is_free(g) <==> pmm.is_free(g) && !(f <= g < f + blocks::pages(o)),
    ensures
        frames_apart(HeapView { large: h.large.insert(f, o), ..h }, pmm2),
{
    let h2 = HeapView { large: h.large.insert(f, o), ..h };
    blocks::lemma_pages_bound(o);
    assert(!h.large.contains_key(f)) by {
        if h.large.contains_key(f) {
            blocks::lemma_pages_bound(h.large[f]);
            assert(large_holds(h, f, f));
            assert(pmm.is_free(f));
        }
    }
    assert forall|x: int| #[trigger] h2.slabs.contains_key(x) implies 0 <= x < pmm2.total()
        && !pmm2.is_free(x) && pmm::frame_address(pmm2.hhdm(), x) > 0 by {
        assert(h.slabs.contains_key(x));
        assert(!pmm.is_free(x));
        assert(!pmm2.is_free(x));
    }
    assert forall|x: int, g: int| #[trigger] large_holds(h2, x, g) implies !pmm2.is_free(g)
        && !h2.slabs.contains_key(g) by {
        if x == f {
            assert(pmm.is_free(g));
            assert(!pmm2.is_free(g));
        } else {
            assert(large_holds(h, x, g));
            assert(!pmm.is_free(g));
            assert(!pmm2.is_free(g));
        }
    }
    assert forall|x: int, y: int, g: int| #[trigger]
        large_holds(h2, x, g) && #[trigger] large_holds(h2, y, g) implies x == y by {
        if x == f || y == f {
            if x != f {
                assert(large_holds(h, x, g));
                assert(pmm.is_free(g));
            }
            if y != f {
                assert(large_holds(h, y, g));
                assert(pmm.is_free(g));
            }
        } else {
            assert(large_holds(h, x, g) && large_holds(h, y, g));
        }
    }
}

/// A large allocation is freed.
proof fn lemma_large_removed(h: HeapView, pmm: &Pmm, pmm2: &Pmm, f: int)
    requires
        frames_apart(h, pmm),
        h.large.contains_key(f),
        pmm2.total() == pmm.total(),
        pmm2.hhdm() == pmm.hhdm(),
        forall|g: int|
            pmm2.is_free(g) <==> pmm.is_free(g) || f <= g < f + blocks::pages(h.large[f]),
    ensures
        frames_apart(HeapView { large: h.large.remove(f), ..h }, pmm2),
{
    let h2 = HeapView { large: h.large.remove(f), ..h };
    assert forall|x: int| #[trigger] h2.slabs.contains_key(x) implies 0 <= x < pmm2.total()
        && !pmm2.is_free(x) && pmm::frame_address(pmm2.hhdm(), x) > 0 by {
        assert(h.slabs.contains_key(x));
        assert(!pmm.is_free(x));
        assert(!large_holds(h, f, x));
        assert(!pmm2.is_free(x));
    }
    assert forall|x: int, g: int| #[trigger] large_holds(h2, x, g) implies !pmm2.is_free(g)
        && !h2.slabs.contains_key(g) by {
        assert(large_holds(h, x, g));
        assert(!pmm.is_free(g));
        assert(!large_holds(h, f, g));
        assert(!pmm2.is_free(g));
    }
    assert forall|x: int, y: int, g: int| #[trigger]
        large_holds(h2, x, g) && #[trigger] large_holds(h2, y, g) implies x == y by {
        assert(large_holds(h, x, g) && large_holds(h, y, g));
    }
}

impl Heap {
    /// Gives out the first free object of the active slab of a bucket.
    fn pop_active(&mut self, mem: &mut [u64], pmm: &Pmm, bucket: usize) -> (addr: u64)
        requires
            bucket < NUM_BUCKETS,
            old(self).wf(old(mem)@, pmm),
            old(self)@.active_usable(bucket as int),
        ensures
            final(self).wf(final(mem)@, pmm),
            ({
                let f = old(self)@.active[bucket as int].unwrap();
                &&& final(self)@ == old(self)@.pop(f)
                &&& addr == obj_addr(
                    pmm.hhdm(),
                    f,
                    bucket as int,
                    old(self)@.slabs[f].free[0],
                )
            }),
            only_heap_changed(
                old(self)@,
                pmm.lists(),
                old(mem)@,
                final(self)@,
                pmm.lists(),
                final(mem)@,
            ),
    {
        let ghost b = bucket as int;
        let ghost h = self@;
        let ghost mem0 = mem@;
        let ghost f = h.active[b].unwrap();
        let ghost slab = h.slabs[f];
        let hhdm: u64 = pmm.hhdm_offset();
        let n: usize = mem.len();
        proof {
            pmm.lemma_wf(mem0);
            assert(h.slab_wf(f));
            assert(slab_linked(mem0, hhdm as int, f, slab));
            assert(object_linked(mem0, hhdm as int, f, slab, 0));
            lemma_bucket(b);
            lemma_object(f, b, slab.free[0]);
            assert(self.active[b] is Some);
        }
        let base: u64 = self.active[bucket].unwrap();
        let header: usize = word_at(base, hhdm);
        let addr: u64 = mem[header + 1];
        let next: u64 = mem[word_at(addr, hhdm)];
        mem[header + 1] = next;
        proof {
            self.state = Ghost(h.pop(f));
            lemma_pop(mem0, hhdm as int, f, h);
            let h2 = self@;
            let slab2 = h2.slabs[f];
            assert forall|g: int| #[trigger] h2.slabs.contains_key(g) implies h2.slab_wf(g)
                && slab_linked(mem@, hhdm as int, g, h2.slabs[g]) by {
                assert(h.slabs.contains_key(g));
                if g != f {
                    lemma_slab_stays(mem0, mem@, hhdm as int, g, h);
                    assert(h2.slabs[g] == h.slabs[g]);
                } else {
                    assert forall|j: int|
                        #![trigger slab2.free[j]]
                        0 <= j < slab2.free.len() implies 0 <= slab2.free[j] < obj_count(b) by {
                        assert(slab2.free[j] == slab.free[j + 1]);
                    }
                }
            }
            assert forall|c: int| 0 <= c < 7 implies #[trigger] list_linked(
                mem@,
                hhdm as int,
                h2.partial[c],
            ) by {
                assert(list_linked(mem0, hhdm as int, h.partial[c]));
                assert forall|i: int| 0 <= i < h2.partial[c].len() implies #[trigger] partial_linked(
                    mem@,
                    hhdm as int,
                    h2.partial[c],
                    i,
                ) by {
                    assert(partial_linked(mem0, hhdm as int, h.partial[c], i));
                }
            }
            assert forall|c: int, i: int|
                #![trigger h2.partial[c][i]]
                0 <= c < 7 && 0 <= i < h2.partial[c].len() implies {
                let g = h2.partial[c][i];
                &&& h2.slabs.contains_key(g)
                &&& h2.slabs[g].bucket == c
                &&& h2.slabs[g].free.len() > 0
            } by {
                let g = h.partial[c][i];
                assert(h.partial[c].contains(g));
                if g == f {
                    assert(c == b);
                }
            }
            assert forall|w: int| 0 <= w < mem0.len() && pmm.is_free(w / 512) implies #[trigger] mem@[w]
                == mem0[w] by {
                assert((f * 512 + 1) / 512 == f);
            }
            pmm.lemma_wf_other_memory(mem0, mem@);
            assert(heap_word(h, f * 512 + 1)) by {
                assert((f * 512 + 1) / 512 == f && (f * 512 + 1) % 512 == 1);
            }
            lemma_apart_stays(h, h2, pmm);
            assert(h2.wf());
            assert(self.linked(mem@, hhdm as int));
        }
        addr
    }

    /// Makes the first partial slab of a bucket the active one; says whether
    /// there was one.
    fn take_partial(&mut self, mem: &mut [u64], pmm: &Pmm, bucket: usize) -> (taken: bool)
        requires
            bucket < NUM_BUCKETS,
            old(self).wf(old(mem)@, pmm),
            !old(self)@.active_usable(bucket as int),
        ensures
            final(self).wf(final(mem)@, pmm),
            taken == (old(self)@.partial[bucket as int].len() > 0),
            taken ==> final(self)@ == old(self)@.prepared(bucket as int, None),
            !taken ==> final(self)@ == old(self)@,
            only_heap_changed(
                old(self)@,
                pmm.lists(),
                old(mem)@,
                final(self)@,
                pmm.lists(),
                final(mem)@,
            ),
    {
        let ghost b = bucket as int;
        let ghost h = self@;
        let ghost mem0 = mem@;
        let hhdm: u64 = pmm.hhdm_offset();
        let n: usize = mem.len();
        let ghost list = h.partial[b];
        let slab: u64 = match self.partial[bucket] {
            Some(s) => s,
            None => {
                return false;
            },
        };
        let ghost f = list[0];
        proof {
            pmm.lemma_wf(mem0);
            assert(self.partial[b] is Some);
            assert(h.slabs.contains_key(f));
            assert(h.slab_wf(f));
            assert(list_linked(mem0, hhdm as int, list));
            assert(partial_linked(mem0, hhdm as int, list, 0));
        }
        let header: usize = word_at(slab, hhdm);
        let next: u64 = mem[header];
        self.partial[bucket] = if next == 0 {
            None
        } else {
            Some(next)
        };
        mem[header] = 0;
        self.active[bucket] = Some(slab);
        proof {
            let h2 = h.prepared(b, None);
            self.state = Ghost(h2);
            let list2 = h2.partial[b];
            assert forall|i: int| 0 <= i < list2.len() implies list2[i] == list[i + 1] by {}
            if list2.len() > 0 {
                assert(h.slabs.contains_key(list[1]));
                assert(list2[0] == list[1]);
            }
            assert forall|g: int| #[trigger] h2.slabs.contains_key(g) implies h2.slab_wf(g)
                && slab_linked(mem@, hhdm as int, g, h2.slabs[g]) by {
                assert(h.slab_wf(g));
                lemma_slab_stays(mem0, mem@, hhdm as int, g, h);
                let c = h.slabs[g].bucket;
                if g != f && h.partial[c].contains(g) {
                    let i = choose|i: int| 0 <= i < h.partial[c].len() && h.partial[c][i] == g;
                    if c == b {
                        assert(list2[i - 1] == g);
                    }
                    assert(h2.partial[c].contains(g));
                }
            }
            assert(!list2.contains(f)) by {
                if list2.contains(f) {
                    let i = choose|i: int| 0 <= i < list2.len() && list2[i] == f;
                    assert(list[i + 1] == list[0]);
                    assert(list.no_duplicates());
                }
            }
            assert forall|c: int, i: int|
                #![trigger h2.partial[c][i]]
                0 <= c < 7 && 0 <= i < h2.partial[c].len() implies {
                let g = h2.partial[c][i];
                &&& h2.slabs.contains_key(g)
                &&& h2.slabs[g].bucket == c
                &&& h2.slabs[g].free.len() > 0
            } by {
                if c == b {
                    assert(h2.partial[c][i] == h.partial[c][i + 1]);
                } else {
                    assert(h2.partial[c][i] == h.partial[c][i]);
                }
            }
            assert forall|c: int| 0 <= c < 7 implies (#[trigger] h2.partial[c]).no_duplicates() by {
                assert(h.partial[c].no_duplicates());
            }
            assert forall|c: int| 0 <= c < 7 implies match #[trigger] h2.active[c] {
                Some(g) => h2.slabs.contains_key(g) && h2.slabs[g].bucket == c
                    && !h2.partial[c].contains(g),
                None => true,
            } by {
                assert(h.active[c] == h2.active[c] || c == b);
            }
            assert forall|c: int| 0 <= c < 7 implies #[trigger] list_linked(
                mem@,
                hhdm as int,
                h2.partial[c],
            ) by {
                assert(list_linked(mem0, hhdm as int, h.partial[c]));
                assert forall|i: int| 0 <= i < h2.partial[c].len() implies #[trigger] partial_linked(
                    mem@,
                    hhdm as int,
                    h2.partial[c],
                    i,
                ) by {
                    let i0 = if c == b {
                        i + 1
                    } else {
                        i
                    };
                    let g = h.partial[c][i0];
                    assert(h2.partial[c][i] == g);
                    assert(h.slabs.contains_key(g) && h.slabs[g].bucket == c);
                    assert(partial_linked(mem0, hhdm as int, h.partial[c], i0));
                    if g == f {
                        assert(c == b);
                        assert(list2.contains(f));
                    }
                }
            }
            assert forall|w: int| 0 <= w < mem0.len() && pmm.is_free(w / 512) implies #[trigger] mem@[w]
                == mem0[w] by {
                assert((f * 512) / 512 == f);
            }
            pmm.lemma_wf_other_memory(mem0, mem@);
            assert(heap_word(h, f * 512)) by {
                lemma_bucket(b);
                assert((f * 512) / 512 == f && (f * 512) % 512 == 0);
            }
            lemma_apart_stays(h, h2, pmm);
            assert(h2.wf());
            assert(self.linked(mem@, hhdm as int));
        }
        true
    }

    /// Makes a new slab the active one of a bucket; says whether there was a
    /// frame for it.
    fn refill(&mut self, mem: &mut [u64], pmm: &mut Pmm, bucket: usize) -> (made: bool)
        requires
            bucket < NUM_BUCKETS,
            old(self).wf(old(mem)@, old(pmm)),
            old(self)@.needs_slab(bucket as int),
        ensures
            final(self).wf(final(mem)@, final(pmm)),
            final(pmm).total() == old(pmm).total(),
            final(pmm).hhdm() == old(pmm).hhdm(),
            made == (old(pmm).free_count() > 0),
            ({
                let fresh = fresh_frame(old(pmm));
                &&& made ==> {
                    &&& final(self)@ == old(self)@.prepared(bucket as int, fresh)
                    &&& final(pmm).lists() == free_lists::alloc_lists(old(pmm).lists(), 0)
                    &&& final(pmm).free_count() == old(pmm).free_count() - 1
                    &&& !old(self)@.slabs.contains_key(fresh.unwrap())
                    &&& old(pmm).is_free(fresh.unwrap())
                    &&& forall|g: int| #[trigger]
                        final(pmm).is_free(g) <==> old(pmm).is_free(g) && g != fresh.unwrap()
                }
                &&& !made ==> final(self)@ == old(self)@ && final(mem)@ == old(mem)@
                    && final(pmm).lists() == old(pmm).lists() && final(pmm).free_count() == 0
            }),
            only_heap_changed(
                old(self)@,
                old(pmm).lists(),
                old(mem)@,
                final(self)@,
                final(pmm).lists(),
                final(mem)@,
            ),
    {
        let ghost b = bucket as int;
        let ghost h = self@;
        let ghost mem0 = mem@;
        let hhdm: u64 = pmm.hhdm_offset();
        let sizes = make_obj_sizes();
        let bytes: u64 = sizes[bucket] as u64;
        proof {
            pmm.lemma_wf(mem0);
            blocks::lemma_single();
            lemma_bucket(b);
        }
        let phys: PAddr = match pmm.alloc_pages(mem, 0) {
            Some(p) => p,
            None => {
                return false;
            },
        };
        let ghost g = phys.0 as int / 4096;
        let ghost mem1 = mem@;
        proof {
            pmm.lemma_wf(mem1);
            assert(old(pmm).is_free(g));
            assert(!pmm.is_free(g));
            assert(!h.slabs.contains_key(g));
            assert(sizes@[b] == obj_size(b));
        }
        let n: usize = mem.len();
        let base: u64 = phys.0 + hhdm;
        let count: u64 = (FRAME_SIZE - bytes) / bytes;
        proof {
            lemma_count(b);
        }
        let mut head: u64 = 0;
        let mut i: u64 = count;
        let ghost slab = new_slab(b);
        while i > 0
            invariant
                0 <= i <= count,
                count == obj_count(b),
                0 <= b < 7,
                bytes == obj_size(b),
                g == phys.0 as int / 4096,
                phys.0 == g * 4096,
                0 <= g,
                g * 512 + 512 <= mem@.len(),
                base == pmm::frame_address(hhdm as int, g),
                base + 4096 <= u64::MAX,
                mem@.len() == mem1.len(),
                mem@.len() == n,
                slab == new_slab(b),
                head == free_link(hhdm as int, g, slab, i as int),
                forall|w: int|
                    0 <= w < mem1.len() && w / 512 != g ==> #[trigger] mem@[w] == mem1[w],
                forall|j: int|
                    i <= j < count ==> #[trigger] object_linked(mem@, hhdm as int, g, slab, j),
            decreases i,
        {
            let ghost m = mem@;
            i = i - 1;
            proof {
                lemma_bucket(b);
                lemma_object(g, b, i as int);
                assert(slab.free[i as int] == i);
            }
            let addr: u64 = base + bytes * (i + 1);
            let w: usize = word_at(addr, hhdm);
            mem[w] = head;
            head = addr;
            proof {
                assert(w == obj_word(g, b, i as int));
                assert forall|j: int| i <= j < count implies #[trigger] object_linked(
                    mem@,
                    hhdm as int,
                    g,
                    slab,
                    j,
                ) by {
                    if j > i {
                        assert(object_linked(m, hhdm as int, g, slab, j));
                        assert(slab.free[j] == j);
                        lemma_object(g, b, j);
                        lemma_objects_apart(g, b, i as int, j);
                    }
                }
            }
        }
        let ghost mem2 = mem@;
        let header: usize = word_at(base, hhdm);
        mem[header] = 0;
        mem[header + 1] = head;
        self.active[bucket] = Some(base);
        proof {
            let h2 = h.prepared(b, Some(g));
            self.state = Ghost(h2);
            let hh = hhdm as int;
            assert(header == g * 512);
            assert forall|j: int| 0 <= j < slab.free.len() implies #[trigger] object_linked(
                mem@,
                hh,
                g,
                slab,
                j,
            ) by {
                assert(object_linked(mem2, hh, g, slab, j));
                assert(slab.free[j] == j);
                lemma_object(g, b, j);
            }
            assert(slab_linked(mem@, hh, g, slab));
            lemma_refilled(h, mem0, mem1, mem@, hh, old(pmm), pmm, b, g);
            assert forall|c: int| 0 <= c < 7 implies match #[trigger] self.active[c] {
                Some(a) => h2.active[c] matches Some(f) && a == pmm::frame_address(hh, f),
                None => h2.active[c] is None,
            } by {
                assert(old(self).active[c] == self.active[c] || c == b);
            }
            assert(self.linked(mem@, hh));
        }
        true
    }

    /// Allocates an object of a bucket.
    fn alloc_small(&mut self, mem: &mut [u64], pmm: &mut Pmm, bucket: usize) -> (r: Option<u64>)
        requires
            bucket < NUM_BUCKETS,
            old(self).wf(old(mem)@, old(pmm)),
        ensures
            final(self).wf(final(mem)@, final(pmm)),
            small_outcome(
                old(self)@,
                old(pmm),
                old(mem)@,
                bucket as int,
                r,
                final(self)@,
                final(pmm),
                final(mem)@,
            ),
    {
        let ghost b = bucket as int;
        let ghost h = self@;
        let ghost mem0 = mem@;
        let ghost l0 = pmm.lists();
        let ghost fresh = fresh_frame(pmm);
        let hhdm: u64 = pmm.hhdm_offset();
        let mut usable: bool = false;
        proof {
            pmm.lemma_wf(mem0);
            if let Some(f) = h.active[b] {
                assert(h.slabs.contains_key(f));
                assert(slab_linked(mem0, hhdm as int, f, h.slabs[f]));
                assert(h.slab_wf(f));
                if h.slabs[f].free.len() > 0 {
                    lemma_bucket(b);
                    lemma_object(f, b, h.slabs[f].free[0]);
                }
            }
            assert(self.active[b] is Some == h.active[b] is Some);
        }
        let n: usize = mem.len();
        if let Some(active) = self.active[bucket] {
            usable = mem[word_at(active, hhdm) + 1] != 0;
        }
        assert(usable == h.active_usable(b));
        if !usable {
            if !self.take_partial(mem, pmm, bucket) {
                if !self.refill(mem, pmm, bucket) {
                    self.active[bucket] = None;
                    proof {
                        let h2 = h.prepared(b, None);
                        self.state = Ghost(h2);
                        lemma_deactivated(h, b);
                        lemma_apart_stays(h, h2, pmm);
                        assert forall|c: int| 0 <= c < 7 implies match #[trigger] self.active[c] {
                            Some(a) => h2.active[c] matches Some(f) && a == pmm::frame_address(
                                hhdm as int,
                                f,
                            ),
                            None => h2.active[c] is None,
                        } by {
                            assert(old(self).active[c] == self.active[c] || c == b);
                        }
                        assert(self.linked(mem@, hhdm as int));
                    }
                    return None;
                }
            }
        }
        let ghost mem1 = mem@;
        let ghost h1 = self@;
        proof {
            assert(h1 == h.prepared(b, fresh));
            if h.partial[b].len() > 0 {
                let f = h.partial[b][0];
                assert(h.slabs.contains_key(f));
            }
            lemma_bucket(b);
            assert(h1.active_usable(b));
            assert(h1.active[b] == h.source(b, fresh));
        }
        let addr: u64 = self.pop_active(mem, pmm, bucket);
        proof {
            assert forall|w: int|
                0 <= w < mem0.len() && !heap_word(h, w) && !heap_word(self@, w)
                    && !free_lists::covers(l0, w / 512) && !free_lists::covers(
                    pmm.lists(),
                    w / 512,
                ) implies #[trigger] mem@[w] == mem0[w] by {
                if heap_word(h1, w) {
                    if h.slabs.contains_key(w / 512) {
                        assert(h1.slabs[w / 512] == h.slabs[w / 512]);
                    } else {
                        assert(old(pmm).is_free(w / 512));
                    }
                }
                assert(mem1[w] == mem0[w]);
            }
        }
        Some(addr)
    }

    /// Takes an object of a bucket back.
    #[verifier::rlimit(30)]
    fn dealloc_small(
        &mut self,
        mem: &mut [u64],
        pmm: &Pmm,
        bucket: usize,
        slab_ptr: u64,
        ptr: u64,
    )
        requires
            bucket < NUM_BUCKETS,
            old(self).wf(old(mem)@, pmm),
            small_ptr(old(self)@, pmm.hhdm(), bucket as int, ptr),
            slab_ptr == pmm::frame_address(pmm.hhdm(), ptr_frame(pmm.hhdm(), ptr)),
        ensures
            final(self).wf(final(mem)@, pmm),
            final(self)@ == old(self)@.dealloc_small(
                ptr_frame(pmm.hhdm(), ptr),
                ptr_index(pmm.hhdm(), bucket as int, ptr),
            ),
            only_heap_changed(
                old(self)@,
                pmm.lists(),
                old(mem)@,
                final(self)@,
                pmm.lists(),
                final(mem)@,
            ),
    {
        let ghost b = bucket as int;
        let ghost h = self@;
        let ghost mem0 = mem@;
        let hhdm: u64 = pmm.hhdm_offset();
        let ghost hh = hhdm as int;
        let ghost f = ptr_frame(hh, ptr);
        let ghost i = ptr_index(hh, b, ptr);
        let ghost h2 = h.dealloc_small(f, i);
        let n: usize = mem.len();
        proof {
            pmm.lemma_wf(mem0);
            assert(h.slabs.contains_key(f));
            assert(h.slab_wf(f));
            lemma_bucket(b);
            lemma_object(f, b, i);
            assert(slab_linked(mem0, hh, f, h.slabs[f]));
            if h.slabs[f].free.len() > 0 {
                lemma_object(f, b, h.slabs[f].free[0]);
            }
        }
        let header: usize = word_at(slab_ptr, hhdm);
        let free: u64 = mem[header + 1];
        let was_full: bool = free == 0;
        let object: usize = word_at(ptr, hhdm);
        mem[object] = free;
        mem[header + 1] = ptr;
        let ghost mem1 = mem@;
        proof {
            assert(header == f * 512);
            assert(object == obj_word(f, b, i));
            lemma_push(mem0, mem1, hh, f, h, i);
            assert(self.active[b] is Some == h.active[b] is Some);
            assert(was_full == (h.slabs[f].free.len() == 0));
        }
        let is_active: bool = match self.active[bucket] {
            Some(a) => a == slab_ptr,
            None => false,
        };
        proof {
            assert(is_active == (h.active[b] == Some(f))) by {
                if let Some(f2) = h.active[b] {
                    assert(pmm::frame_address(hh, f2) == pmm::frame_address(hh, f) <==> f2 == f);
                }
            }
        }
        if !is_active && was_full {
            mem[header] = match self.partial[bucket] {
                Some(p) => p,
                None => 0,
            };
            self.partial[bucket] = Some(slab_ptr);
        }
        proof {
            self.state = Ghost(h2);
            lemma_slabs_after_dealloc(h, f, i);
            let list = h.partial[b];
            let list2 = h2.partial[b];
            assert(self.partial[b] is Some == (list2.len() > 0)) by {
                assert(old(self).partial[b] is Some == (list.len() > 0));
            }
            assert forall|w: int|
                0 <= w < mem0.len() && w != f * 512 && w != f * 512 + 1 && w != object implies #[trigger] mem@[w]
                == mem0[w] by {}
            assert forall|g: int| #[trigger] h2.slabs.contains_key(g) implies slab_linked(
                mem@,
                hh,
                g,
                h2.slabs[g],
            ) by {
                if g != f {
                    assert(h.slabs.contains_key(g));
                    lemma_slab_stays(mem0, mem@, hh, g, h);
                    assert(h2.slabs[g] == h.slabs[g]);
                } else {
                    lemma_push(mem0, mem@, hh, f, h, i);
                }
            }
            assert forall|c: int| 0 <= c < 7 implies #[trigger] list_linked(
                mem@,
                hh,
                h2.partial[c],
            ) by {
                assert(list_linked(mem0, hh, h.partial[c]));
                assert forall|j: int| 0 <= j < h2.partial[c].len() implies #[trigger] partial_linked(
                    mem@,
                    hh,
                    h2.partial[c],
                    j,
                ) by {
                    if c == b && !is_active && was_full {
                        if j > 0 {
                            assert(list2[j] == list[j - 1]);
                            assert(h.slabs[list[j - 1]].free.len() > 0);
                            assert(partial_linked(mem0, hh, list, j - 1));
                        } else {
                            if list.len() > 0 {
                                assert(list2[1] == list[0]);
                            }
                            assert(old(self).partial[b] is Some == (list.len() > 0));
                        }
                    } else {
                        let g = h.partial[c][j];
                        assert(h2.partial[c] == h.partial[c]);
                        assert(partial_linked(mem0, hh, h.partial[c], j));
                        assert(h.slabs.contains_key(g) && h.slabs[g].bucket == c);
                        if g == f {
                            assert(c == b);
                            assert(h.slabs[f].free.len() > 0);
                        }
                    }
                }
            }
            assert forall|c: int| 0 <= c < 7 implies match #[trigger] self.partial[c] {
                Some(a) => h2.partial[c].len() > 0 && a == slab_link(hh, h2.partial[c], 0),
                None => h2.partial[c].len() == 0,
            } by {
                assert(old(self).partial[c] == self.partial[c] || c == b);
            }
            assert forall|w: int| 0 <= w < mem0.len() && pmm.is_free(w / 512) implies #[trigger] mem@[w]
                == mem0[w] by {
                assert((f * 512) / 512 == f && (f * 512 + 1) / 512 == f);
                assert(object as int / 512 == f);
            }
            pmm.lemma_wf_other_memory(mem0, mem@);
            assert(heap_word(h, f * 512) && heap_word(h, f * 512 + 1)) by {
                assert((f * 512) / 512 == f && (f * 512) % 512 == 0);
                assert((f * 512 + 1) / 512 == f && (f * 512 + 1) % 512 == 1);
            }
            assert(heap_word(h2, object as int)) by {
                let off = obj_words(b) * (i + 1);
                assert(object as int / 512 == f && object as int % 512 == off);
                assert(h2.slabs[f].free[0] == i);
                assert(h2.slabs[f].free.contains(i));
            }
            lemma_apart_stays(h, h2, pmm);
            assert(self.linked(mem@, hh));
        }
    }

    /// The lists of the heap depend on the frames of its slabs only.
    proof fn lemma_linked_stays(&self, mem: Seq<u64>, mem2: Seq<u64>, hhdm: int)
        requires
            self@.wf(),
            self.linked(mem, hhdm),
            forall|f: int, w: int|
                #![trigger self@.slabs.contains_key(f), mem2[w]]
                self@.slabs.contains_key(f) && f * 512 <= w < f * 512 + 512 ==> mem2[w] == mem[w],
        ensures
            self.linked(mem2, hhdm),
    {
        let h = self@;
        assert forall|f: int| #[trigger] h.slabs.contains_key(f) implies slab_linked(
            mem2,
            hhdm,
            f,
            h.slabs[f],
        ) by {
            assert(h.slab_wf(f));
            lemma_slab_stays(mem, mem2, hhdm, f, h);
        }
        assert forall|c: int| 0 <= c < 7 implies #[trigger] list_linked(mem2, hhdm, h.partial[c]) by {
            assert(list_linked(mem, hhdm, h.partial[c]));
            assert forall|i: int| 0 <= i < h.partial[c].len() implies #[trigger] partial_linked(
                mem2,
                hhdm,
                h.partial[c],
                i,
            ) by {
                assert(partial_linked(mem, hhdm, h.partial[c], i));
                assert(h.slabs.contains_key(h.partial[c][i]));
            }
        }
    }

    /// What a well-formed heap keeps.
    pub proof fn lemma_wf(&self, mem: Seq<u64>, pmm: &Pmm)
        requires
            self.wf(mem, pmm),
        ensures
            pmm.wf(mem),
            self@.wf(),
            frames_apart(self@, pmm),
    {
    }

    /// The heap stays well-formed where its frames are left alone and do not
    /// become free.
    pub proof fn lemma_wf_other_memory(
        &self,
        mem: Seq<u64>,
        pmm: &Pmm,
        mem2: Seq<u64>,
        pmm2: &Pmm,
    )
        requires
            self.wf(mem, pmm),
            pmm2.wf(mem2),
            pmm2.total() == pmm.total(),
            pmm2.hhdm() == pmm.hhdm(),
            forall|f: int| #[trigger] self@.slabs.contains_key(f) ==> !pmm2.is_free(f),
            forall|f: int, g: int| #[trigger] large_holds(self@, f, g) ==> !pmm2.is_free(g),
            forall|f: int, w: int|
                #![trigger self@.slabs.contains_key(f), mem2[w]]
                self@.slabs.contains_key(f) && f * 512 <= w < f * 512 + 512 ==> mem2[w] == mem[w],
        ensures
            self.wf(mem2, pmm2),
    {
        self.lemma_linked_stays(mem, mem2, pmm.hhdm());
    }

    /// Allocates a block of frames.
    fn alloc_large(&mut self, mem: &mut [u64], pmm: &mut Pmm, layout: Layout) -> (r: Option<u64>)
        requires
            old(self).wf(old(mem)@, old(pmm)),
        ensures
            final(self).wf(final(mem)@, final(pmm)),
            large_outcome(
                old(self)@,
                old(pmm),
                old(mem)@,
                large_order(layout.need()),
                r,
                final(self)@,
                final(pmm),
                final(mem)@,
            ),
    {
        let ghost h = self@;
        let ghost mem0 = mem@;
        let hhdm: u64 = pmm.hhdm_offset();
        proof {
            pmm.lemma_wf(mem0);
        }
        let order: usize = match order_for_large(layout) {
            Some(o) => o,
            None => {
                return None;
            },
        };
        let phys: PAddr = match pmm.alloc_pages(mem, order) {
            Some(p) => p,
            None => {
                return None;
            },
        };
        proof {
            let f = phys.0 as int / 4096;
            let o = order as int;
            let h2 = HeapView { large: h.large.insert(f, o), ..h };
            self.state = Ghost(h2);
            pmm.lemma_wf(mem@);
            blocks::lemma_pages_bound(o);
            assert forall|g: int, w: int|
                #![trigger h2.slabs.contains_key(g), mem@[w]]
                h2.slabs.contains_key(g) && g * 512 <= w < g * 512 + 512 implies mem@[w]
                == mem0[w] by {
                assert(w / 512 == g);
                assert(h.slabs.contains_key(g));
                assert(!old(pmm).is_free(g));
                assert(!pmm.is_free(g));
            }
            old(self).lemma_linked_stays(mem0, mem@, hhdm as int);
            assert(h2.wf()) by {
                assert forall|g: int| #[trigger] h2.slabs.contains_key(g) implies h2.slab_wf(g) by {
                    assert(h.slab_wf(g));
                }
            }
            lemma_large_added(h, old(pmm), pmm, f, o);
            assert(self.linked(mem@, hhdm as int)) by {
                assert(self.active == old(self).active && self.partial == old(self).partial);
            }
        }
        Some(phys.0 + hhdm)
    }

    /// Frees a block of frames.
    fn dealloc_large(&mut self, mem: &mut [u64], pmm: &mut Pmm, ptr: u64, layout: Layout)
        requires
            old(self).wf(old(mem)@, old(pmm)),
            large_order(layout.need()) matches Some(o) ==> large_ptr(
                old(self)@,
                old(pmm).hhdm(),
                o,
                ptr,
            ),
        ensures
            final(self).wf(final(mem)@, final(pmm)),
            large_freed(
                old(self)@,
                old(pmm),
                old(mem)@,
                large_order(layout.need()),
                ptr,
                final(self)@,
                final(pmm),
                final(mem)@,
            ),
    {
        let ghost h = self@;
        let ghost mem0 = mem@;
        let hhdm: u64 = pmm.hhdm_offset();
        proof {
            pmm.lemma_wf(mem0);
        }
        if let Some(order) = order_for_large(layout) {
            let ghost f = ptr_frame(hhdm as int, ptr);
            let ghost o = order as int;
            let phys: PAddr = PAddr(ptr - hhdm);
            proof {
                assert(h.large.contains_key(f));
                blocks::lemma_pages_bound(o);
                assert forall|g: int| f <= g < f + blocks::pages(o) implies !pmm.is_free(g) by {
                    assert(large_holds(h, f, g));
                }
            }
            pmm.free_pages(mem, phys, order);
            proof {
                let h2 = HeapView { large: h.large.remove(f), ..h };
                self.state = Ghost(h2);
                assert forall|g: int, w: int|
                    #![trigger h2.slabs.contains_key(g), mem@[w]]
                    h2.slabs.contains_key(g) && g * 512 <= w < g * 512 + 512 implies mem@[w]
                    == mem0[w] by {
                    assert(w / 512 == g);
                    assert(h.slabs.contains_key(g));
                    assert(!old(pmm).is_free(g));
                    assert(!large_holds(h, f, g));
                    assert(!pmm.is_free(g));
                }
                old(self).lemma_linked_stays(mem0, mem@, hhdm as int);
                assert(h2.wf()) by {
                    assert forall|g: int| #[trigger] h2.slabs.contains_key(g) implies h2.slab_wf(
                        g,
                    ) by {
                        assert(h.slab_wf(g));
                    }
                }
                lemma_large_removed(h, old(pmm), pmm, f);
                assert(self.linked(mem@, hhdm as int)) by {
                    assert(self.active == old(self).active && self.partial == old(self).partial);
                }
            }
        }
    }

    /// Allocates memory for a layout. Returns its address in the direct map, or
    /// nothing where there is no room.
    pub fn allocate(&mut self, mem: &mut [u64], pmm: &mut Pmm, layout: Layout) -> (r: Option<u64>)
        requires
            old(self).wf(old(mem)@, old(pmm)),
        ensures
            final(self).wf(final(mem)@, final(pmm)),
            allocate_outcome(
                old(self)@,
                old(pmm),
                old(mem)@,
                layout,
                r,
                final(self)@,
                final(pmm),
                final(mem)@,
            ),
    {
        match bucket_for(layout) {
            Some(bucket) => self.alloc_small(mem, pmm, bucket),
            None => self.alloc_large(mem, pmm, layout),
        }
    }

    /// Frees memory that was allocated for a layout. A null address is ignored.
    pub fn deallocate(&mut self, mem: &mut [u64], pmm: &mut Pmm, ptr: u64, layout: Layout)
        requires
            old(self).wf(old(mem)@, old(pmm)),
            can_deallocate(old(self)@, old(pmm).hhdm(), ptr, layout),
        ensures
            final(self).wf(final(mem)@, final(pmm)),
            deallocate_outcome(
                old(self)@,
                old(pmm),
                old(mem)@,
                ptr,
                layout,
                final(self)@,
                final(pmm),
                final(mem)@,
            ),
    {
        if ptr == 0 {
            return;
        }
        match bucket_for(layout) {
            Some(bucket) => {
                let slab_ptr: u64 = ptr & SLAB_MASK;
                proof {
                    let hh = pmm.hhdm();
                    let b = bucket as int;
                    let f = ptr_frame(hh, ptr);
                    let i = ptr_index(hh, b, ptr);
                    assert(ptr & 0xFFFF_FFFF_FFFF_F000 == ptr - ptr % 4096) by (bit_vector);
                    assert(self@.slab_wf(f));
                    lemma_bucket(b);
                    lemma_object(f, b, i);
                    assert(ptr as int % 4096 == obj_size(b) * (i + 1)) by {
                        let k = hh / 4096;
                        assert(hh == k * 4096);
                        assert(ptr == (k + f) * 4096 + obj_size(b) * (i + 1));
                    }
                }
                self.dealloc_small(mem, pmm, bucket, slab_ptr, ptr);
            },
            None => {
                self.dealloc_large(mem, pmm, ptr, layout);
            },
        }
    }
}

} // verus!
