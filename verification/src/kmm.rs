//! The kernel's physical page allocator. Each memory region keeps a list of
//! free blocks sorted by address; a block's header (its size in pages and
//! the addresses of the next and previous free blocks) is stored in the
//! first bytes of the block itself.

use vstd::prelude::*;
use crate::le::{le_bytes, le_u32_at, lemma_le_roundtrip, read_word, u32_to_le};
use crate::memory::Memory;

verus! {

/// Where the main RAM starts in the physical address space.
pub const MAIN_RAM_BASE: u32 = 0x20000000;

/// The regions that physical memory is divided into.
#[derive(Clone, Copy, Debug, PartialEq, Eq, Structural)]
pub enum MemoryRegion {
    App,
    System,
    Base,
}

/// A value that is stored in memory in a raw form, which may not be valid.
pub trait FromUnsafeData: Sized {
    type Raw;

    /// The value a raw form stands for, `None` when it is invalid.
    spec fn spec_from_unsafe_data(data: Self::Raw) -> Option<Self>;

    /// The raw form of a value.
    spec fn spec_into_unsafe(self) -> Self::Raw;

    /// Reads a raw form; `None` when it is invalid.
    fn from_unsafe_data(data: Self::Raw) -> (r: Option<Self>)
        ensures
            r == Self::spec_from_unsafe_data(data),
    ;

    /// Gives the raw form of a value.
    fn into_unsafe(self) -> (r: UnsafeData<Self>)
        ensures
            r.0 == self.spec_into_unsafe(),
    ;
}

/// A raw value as it was read from memory.
#[derive(Clone, Copy)]
pub struct UnsafeData<Safe: FromUnsafeData>(pub Safe::Raw);

impl<Safe: FromUnsafeData> UnsafeData<Safe> {
    /// Wraps a raw value.
    pub fn new(value: Safe::Raw) -> (r: UnsafeData<Safe>)
        ensures
            r.0 == value,
    {
        UnsafeData(value)
    }

    /// The value the raw form stands for, `None` when it is invalid.
    pub fn try_safe(self) -> (r: Option<Safe>)
        ensures
            r == Safe::spec_from_unsafe_data(self.0),
    {
        Safe::from_unsafe_data(self.0)
    }

    /// The value the raw form stands for, which must be valid.
    pub fn assert_safe(self) -> (r: Safe)
        requires
            Safe::spec_from_unsafe_data(self.0) is Some,
        ensures
            Safe::spec_from_unsafe_data(self.0) == Some(r),
    {
        self.try_safe().unwrap()
    }
}

/// The page number of a free block's header: between 1 and `0xFFFFF`.
#[derive(Clone, Copy, Debug, PartialEq, Eq, Structural)]
pub struct MemoryBlockHeaderPtr(u32);

impl MemoryBlockHeaderPtr {
    /// The page number.
    pub closed spec fn page(self) -> u32 {
        self.0
    }

    /// The pointer to a page number.
    pub closed spec fn of(page: u32) -> MemoryBlockHeaderPtr {
        MemoryBlockHeaderPtr(page)
    }

    pub proof fn lemma_of_page(page: u32)
        ensures
            Self::of(page).page() == page,
    {
    }

    /// The page number of an address.
    pub fn page_number(&self) -> (r: u32)
        ensures
            r == self.page(),
    {
        self.0
    }

    /// The block at a page-aligned address above the first page; `None`
    /// for any other address.
    pub fn from_ptr(ptr: u32) -> (r: Option<MemoryBlockHeaderPtr>)
        ensures
            r == (if ptr % 4096 == 0 && ptr >= 4096 {
                Some(MemoryBlockHeaderPtr::of((ptr / 4096) as u32))
            } else {
                None
            }),
    {
        if (ptr & 0xFFFu32) != 0 {
            proof { lemma_low_bits(ptr); }
            return None;
        }
        if (ptr & !0xFFFu32) == 0 {
            proof { lemma_low_bits(ptr); lemma_high_bits(ptr); }
            return None;
        }
        proof { lemma_low_bits(ptr); lemma_high_bits(ptr); lemma_shift_page(ptr); }
        Some(MemoryBlockHeaderPtr(ptr >> 12u32))
    }

    /// The block `pages` pages further on; `None` past page `0xFFFFF`.
    pub fn offset(self, pages: u32) -> (r: Option<MemoryBlockHeaderPtr>)
        ensures
            r == (if self.page() + pages <= 0xFFFFF {
                Some(MemoryBlockHeaderPtr::of((self.page() + pages) as u32))
            } else {
                None
            }),
    {
        let new_ptr = match self.0.checked_add(pages) {
            Some(n) => n,
            None => { return None; },
        };
        if (new_ptr & 0x000FFFFFu32) != new_ptr {
            proof { lemma_page_mask(new_ptr); }
            return None;
        }
        proof { lemma_page_mask(new_ptr); }
        Some(MemoryBlockHeaderPtr(new_ptr))
    }
}

proof fn lemma_low_bits(x: u32)
    ensures
        (x & 0xFFFu32) == x % 4096,
{
    assert((x & 0xFFFu32) == x % 4096) by (bit_vector);
}

proof fn lemma_high_bits(x: u32)
    ensures
        (x & !0xFFFu32) == 0 <==> x < 4096,
{
    assert((x & !0xFFFu32) == 0 <==> x < 4096) by (bit_vector);
}

proof fn lemma_shift_page(x: u32)
    ensures
        x >> 12u32 == x / 4096,
        (x / 4096) << 12u32 == x - x % 4096,
{
    assert(x >> 12u32 == x / 4096) by (bit_vector);
    assert((x / 4096) << 12u32 == x - x % 4096) by (bit_vector);
}

proof fn lemma_page_mask(x: u32)
    ensures
        (x & 0x000FFFFFu32) == x <==> x <= 0xFFFFF,
{
    assert((x & 0x000FFFFFu32) == x <==> x <= 0xFFFFF) by (bit_vector);
}

proof fn lemma_page_address(p: u32)
    requires
        p <= 0xFFFFF,
    ensures
        p << 12u32 == p * 4096,
        (p * 4096) as u32 & 0xFFFu32 == 0,
        ((p * 4096) as u32 & !0xFFFu32) == 0 <==> p == 0,
        ((p * 4096) as u32) >> 12u32 == p,
{
    assert(p << 12u32 == p * 4096) by (bit_vector)
        requires
            p <= 0xFFFFF,
    ;
    assert((p * 4096) as u32 & 0xFFFu32 == 0) by (bit_vector)
        requires
            p <= 0xFFFFF,
    ;
    assert(((p * 4096) as u32 & !0xFFFu32) == 0 <==> p == 0) by (bit_vector)
        requires
            p <= 0xFFFFF,
    ;
    assert(((p * 4096) as u32) >> 12u32 == p) by (bit_vector)
        requires
            p <= 0xFFFFF,
    ;
}

/// The block that a raw link stands for: zero is no block, an address off
/// a page boundary is invalid.
pub open spec fn spec_link(ptr: u32) -> Option<Option<MemoryBlockHeaderPtr>> {
    if ptr % 4096 != 0 {
        None
    } else if ptr < 4096 {
        Some(None)
    } else {
        Some(Some(MemoryBlockHeaderPtr::of((ptr / 4096) as u32)))
    }
}

/// The raw link to a block, zero for none.
pub open spec fn spec_raw_link(p: Option<MemoryBlockHeaderPtr>) -> u32 {
    match p {
        Some(b) => b.page() << 12u32,
        None => 0,
    }
}

/// A link written to a header reads back as the block it links to, and no
/// link reads back as none, for every block above the first page.
pub proof fn law_link_roundtrip(p: Option<MemoryBlockHeaderPtr>)
    requires
        p matches Some(b) ==> 1 <= b.page() <= 0xFFFFF,
    ensures
        spec_link(spec_raw_link(p)) == Some(p),
{
    if let Some(b) = p {
        let n = b.page();
        lemma_page_address(n);
        lemma_low_bits((n * 4096) as u32);
        assert((n * 4096) as u32 == n * 4096) by (nonlinear_arith)
            requires
                1 <= n <= 0xFFFFF,
        ;
        assert((n * 4096) / 4096 == n) by (nonlinear_arith)
            requires
                1 <= n <= 0xFFFFF,
        ;
        assert(MemoryBlockHeaderPtr::of(n) == b);
    }
}

impl FromUnsafeData for Option<MemoryBlockHeaderPtr> {
    type Raw = u32;

    open spec fn spec_from_unsafe_data(data: u32) -> Option<Option<MemoryBlockHeaderPtr>> {
        spec_link(data)
    }

    open spec fn spec_into_unsafe(self) -> u32 {
        spec_raw_link(self)
    }

    fn from_unsafe_data(ptr: u32) -> (r: Option<Option<MemoryBlockHeaderPtr>>) {
        proof { lemma_low_bits(ptr); lemma_high_bits(ptr); lemma_shift_page(ptr); }
        if (ptr & 0xFFFu32) != 0 {
            return None;
        }
        if (ptr & !0xFFFu32) == 0 {
            return Some(None);
        }
        Some(Some(MemoryBlockHeaderPtr(ptr >> 12u32)))
    }

    fn into_unsafe(self) -> (r: UnsafeData<Option<MemoryBlockHeaderPtr>>) {
        match self {
            Some(p) => UnsafeData(p.0 << 12u32),
            None => UnsafeData(0),
        }
    }
}


/// The little-endian word that `mem` holds at `a`.
pub open spec fn word_in<M: Memory>(mem: &M, a: int) -> u32 {
    crate::le::le_u32(mem.spec_byte(a), mem.spec_byte(a + 1), mem.spec_byte(a + 2), mem.spec_byte(a + 3))
}

/// The size field of the header at page `p`.
pub open spec fn hsize<M: Memory>(mem: &M, p: int) -> u32 {
    word_in(mem, p * 4096)
}

/// The raw next link of the header at page `p`.
pub open spec fn hnext<M: Memory>(mem: &M, p: int) -> u32 {
    word_in(mem, p * 4096 + 4)
}

/// The raw previous link of the header at page `p`.
pub open spec fn hprev<M: Memory>(mem: &M, p: int) -> u32 {
    word_in(mem, p * 4096 + 8)
}

/// Whether the twelve header bytes of page `p` are mapped.
pub open spec fn header_mapped<M: Memory>(mem: &M, p: int) -> bool {
    forall|i: int| 0 <= i < 12 ==> #[trigger] mem.spec_mapped(p * 4096 + i)
}

/// Whether `after` is `before` with only the header bytes of page `p`
/// changed, to hold `size`, `next` and `prev`.
pub open spec fn header_stored<M: Memory>(before: &M, after: &M, p: int, size: u32, next: u32, prev: u32) -> bool {
    &&& forall|a: int| #[trigger] after.spec_mapped(a) == before.spec_mapped(a)
    &&& forall|a: int| !(p * 4096 <= a < p * 4096 + 12) ==> #[trigger] after.spec_byte(a) == before.spec_byte(a)
    &&& hsize(after, p) == size
    &&& hnext(after, p) == next
    &&& hprev(after, p) == prev
}

/// A header store leaves the header of every other page as it was.
pub proof fn lemma_other_header<M: Memory>(before: &M, after: &M, p: int, size: u32, next: u32, prev: u32, q: int)
    requires
        header_stored(before, after, p, size, next, prev),
        q != p,
    ensures
        hsize(after, q) == hsize(before, q),
        hnext(after, q) == hnext(before, q),
        hprev(after, q) == hprev(before, q),
        header_mapped(after, q) == header_mapped(before, q),
{
    if header_mapped(before, q) {
        assert forall|i: int| 0 <= i < 12 implies #[trigger] after.spec_mapped(q * 4096 + i) by {
            assert(before.spec_mapped(q * 4096 + i));
        }
    }
    if header_mapped(after, q) {
        assert forall|i: int| 0 <= i < 12 implies #[trigger] before.spec_mapped(q * 4096 + i) by {
            assert(after.spec_mapped(q * 4096 + i));
        }
    }
    assert(q * 4096 + 12 <= p * 4096 || p * 4096 + 12 <= q * 4096) by (nonlinear_arith)
        requires
            q != p,
    ;
    assert(after.spec_byte(q * 4096) == before.spec_byte(q * 4096 + 0));
    assert(after.spec_byte(q * 4096 + 4) == before.spec_byte(q * 4096 + 4));
    assert(after.spec_byte(q * 4096 + 8) == before.spec_byte(q * 4096 + 8));
    assert(after.spec_byte(q * 4096 + 1) == before.spec_byte(q * 4096 + 1));
    assert(after.spec_byte(q * 4096 + 2) == before.spec_byte(q * 4096 + 2));
    assert(after.spec_byte(q * 4096 + 3) == before.spec_byte(q * 4096 + 3));
    assert(after.spec_byte(q * 4096 + 5) == before.spec_byte(q * 4096 + 5));
    assert(after.spec_byte(q * 4096 + 6) == before.spec_byte(q * 4096 + 6));
    assert(after.spec_byte(q * 4096 + 7) == before.spec_byte(q * 4096 + 7));
    assert(after.spec_byte(q * 4096 + 9) == before.spec_byte(q * 4096 + 9));
    assert(after.spec_byte(q * 4096 + 10) == before.spec_byte(q * 4096 + 10));
    assert(after.spec_byte(q * 4096 + 11) == before.spec_byte(q * 4096 + 11));
}

/// A free block's header: its size in pages and the raw links to the next
/// and previous free blocks.
pub struct MemoryBlockHeader {
    pub size: u32,
    pub next: UnsafeData<Option<MemoryBlockHeaderPtr>>,
    pub prev: UnsafeData<Option<MemoryBlockHeaderPtr>>,
}

impl MemoryBlockHeaderPtr {
    /// Reads the header stored at the block.
    pub fn read<M: Memory>(&self, mem: &M) -> (r: MemoryBlockHeader)
        requires
            self.page() <= 0xFFFFF,
            header_mapped(mem, self.page() as int),
        ensures
            r.size == hsize(mem, self.page() as int),
            r.next.0 == hnext(mem, self.page() as int),
            r.prev.0 == hprev(mem, self.page() as int),
    {
        let ghost p = self.0 as int;
        proof { lemma_page_address(self.0); }
        let mut data: Vec<u8> = vec![0u8; 12];
        mem.read(self.0 << 12u32, &mut data);
        proof {
        }
        let size = read_word(data.as_slice(), 0);
        let next = read_word(data.as_slice(), 4);
        let prev = read_word(data.as_slice(), 8);
        proof {
            assert(data@[0] == mem.spec_byte(p * 4096 + 0));
            assert(data@[4] == mem.spec_byte(p * 4096 + 4));
            assert(data@[8] == mem.spec_byte(p * 4096 + 8));
            assert(data@[1] == mem.spec_byte(p * 4096 + 1));
            assert(data@[5] == mem.spec_byte(p * 4096 + 5));
            assert(data@[9] == mem.spec_byte(p * 4096 + 9));
            assert(data@[2] == mem.spec_byte(p * 4096 + 2));
            assert(data@[6] == mem.spec_byte(p * 4096 + 6));
            assert(data@[10] == mem.spec_byte(p * 4096 + 10));
            assert(data@[3] == mem.spec_byte(p * 4096 + 3));
            assert(data@[7] == mem.spec_byte(p * 4096 + 7));
            assert(data@[11] == mem.spec_byte(p * 4096 + 11));
        }
        MemoryBlockHeader { size, next: UnsafeData::new(next), prev: UnsafeData::new(prev) }
    }

    /// Stores a header at the block.
    pub fn write<M: Memory>(&self, mem: &mut M, header: &MemoryBlockHeader)
        requires
            self.page() <= 0xFFFFF,
            header_mapped(old(mem), self.page() as int),
        ensures
            header_stored(old(mem), final(mem), self.page() as int, header.size, header.next.0, header.prev.0),
    {
        let ghost p = self.0 as int;
        proof { lemma_page_address(self.0); }
        let a = u32_to_le(header.size);
        let b = u32_to_le(header.next.0);
        let c = u32_to_le(header.prev.0);
        let data: [u8; 12] = [a[0], a[1], a[2], a[3], b[0], b[1], b[2], b[3], c[0], c[1], c[2], c[3]];
        mem.write(self.0 << 12u32, data.as_slice());
        proof {
            lemma_le_roundtrip(header.size);
            lemma_le_roundtrip(header.next.0);
            lemma_le_roundtrip(header.prev.0);
            assert(mem.spec_byte(p * 4096 + 0) == a@[0]);
            assert(mem.spec_byte(p * 4096 + 1) == a@[1]);
            assert(mem.spec_byte(p * 4096 + 2) == a@[2]);
            assert(mem.spec_byte(p * 4096 + 3) == a@[3]);
            assert(mem.spec_byte(p * 4096 + 4) == b@[0]);
            assert(mem.spec_byte(p * 4096 + 5) == b@[1]);
            assert(mem.spec_byte(p * 4096 + 6) == b@[2]);
            assert(mem.spec_byte(p * 4096 + 7) == b@[3]);
            assert(mem.spec_byte(p * 4096 + 8) == c@[0]);
            assert(mem.spec_byte(p * 4096 + 9) == c@[1]);
            assert(mem.spec_byte(p * 4096 + 10) == c@[2]);
            assert(mem.spec_byte(p * 4096 + 11) == c@[3]);
            assert(le_u32_at(le_bytes(header.size), 0) == header.size);
        }
    }
}

/// Whether the pages `p .. p + n` are all mapped.
pub open spec fn pages_mapped<M: Memory>(mem: &M, p: int, n: int) -> bool {
    forall|a: int| p * 4096 <= a < (p + n) * 4096 ==> #[trigger] mem.spec_mapped(a)
}

/// A region's free list: its first and last free block, and where the
/// region starts and how many pages it spans.
pub struct RegionDesc {
    first: Option<MemoryBlockHeaderPtr>,
    last: Option<MemoryBlockHeaderPtr>,
    start: u32,
    size: u32,
    nodes: Ghost<Seq<u32>>,
}

impl Default for RegionDesc {
    fn default() -> (r: RegionDesc)
        ensures
            r.nodes().len() == 0,
            r.spec_first() is None,
            r.spec_last() is None,
            r.spec_start() == 0,
            r.spec_size() == 0,
    {
        RegionDesc { first: None, last: None, start: 0, size: 0, nodes: Ghost(Seq::empty()) }
    }
}

/// Whether `i` is the first of `blocks` (start and size in pages) with at
/// least `pages` pages.
pub open spec fn spec_first_fit(blocks: Seq<(int, int)>, pages: int, i: int) -> bool {
    &&& 0 <= i < blocks.len()
    &&& blocks[i].1 >= pages
    &&& forall|j: int| 0 <= j < i ==> (#[trigger] blocks[j]).1 < pages
}

/// The free blocks after `pages` pages were taken from block `i`: taken
/// from the first block, the rest of that block stays free (with all the
/// blocks after it only when something of it is left); taken from a later
/// block, the list stays as it was.
pub open spec fn spec_after_alloc(blocks: Seq<(int, int)>, i: int, pages: int) -> Seq<(int, int)> {
    if i == 0 {
        if blocks[0].1 > pages {
            seq![(blocks[0].0 + pages, blocks[0].1 - pages)] + blocks.skip(1)
        } else {
            Seq::empty()
        }
    } else {
        blocks
    }
}

impl RegionDesc {
    /// The page numbers of the free blocks, in list order.
    pub closed spec fn nodes(&self) -> Seq<u32> {
        self.nodes@
    }

    pub closed spec fn spec_first(&self) -> Option<MemoryBlockHeaderPtr> {
        self.first
    }

    pub closed spec fn spec_last(&self) -> Option<MemoryBlockHeaderPtr> {
        self.last
    }

    pub closed spec fn spec_start(&self) -> u32 {
        self.start
    }

    pub closed spec fn spec_size(&self) -> u32 {
        self.size
    }

    /// The free blocks as (first page, size in pages), sorted by address.
    pub open spec fn blocks<M: Memory>(&self, mem: &M) -> Seq<(int, int)> {
        Seq::new(self.nodes().len(), |i: int| (self.nodes()[i] as int, hsize(mem, self.nodes()[i] as int) as int))
    }

    /// The free list stored in `mem` links the free blocks in address
    /// order; the blocks are disjoint, mapped, and lie below page
    /// `0x100000`.
    #[verifier::opaque]
    pub open spec fn wf<M: Memory>(&self, mem: &M) -> bool {
        let n = self.nodes();
        &&& self.spec_first() == (if n.len() > 0 { Some(MemoryBlockHeaderPtr::of(n[0])) } else { None })
        &&& forall|i: int| 0 <= i < n.len() ==> 1 <= #[trigger] n[i] <= 0xFFFFF
        &&& forall|i: int, j: int| 0 <= i < j < n.len() ==> #[trigger] n[i] < #[trigger] n[j]
        &&& forall|i: int, j: int| 0 <= i < j < n.len() ==> #[trigger] n[i] + hsize(mem, n[i] as int) <= #[trigger] n[j]
        &&& forall|i: int| 0 <= i < n.len() ==> header_mapped(mem, #[trigger] n[i] as int)
        &&& forall|i: int| 0 <= i < n.len() ==> pages_mapped(mem, #[trigger] n[i] as int, hsize(mem, n[i] as int) as int)
        &&& forall|i: int| 0 <= i < n.len() ==> #[trigger] n[i] + hsize(mem, n[i] as int) <= 0x100000
        &&& forall|i: int| 0 <= i < n.len() ==> #[trigger] hnext(mem, n[i] as int) == (if i + 1 < n.len() {
            (n[i + 1] * 4096) as u32
        } else {
            0u32
        })
    }
}

/// What a well-formed free list says of its block at position `j`.
proof fn lemma_node<M: Memory>(r: &RegionDesc, m: &M, j: int)
    requires
        r.wf(m),
        0 <= j < r.nodes().len(),
    ensures
        1 <= r.nodes()[j] <= 0xFFFFF,
        header_mapped(m, r.nodes()[j] as int),
        pages_mapped(m, r.nodes()[j] as int, hsize(m, r.nodes()[j] as int) as int),
        r.nodes()[j] + hsize(m, r.nodes()[j] as int) <= 0x100000,
        hnext(m, r.nodes()[j] as int) == (if j + 1 < r.nodes().len() { (r.nodes()[j + 1] * 4096) as u32 } else { 0u32 }),
        r.spec_first() == Some(MemoryBlockHeaderPtr::of(r.nodes()[0])),
        j > 0 ==> r.nodes()[0] + hsize(m, r.nodes()[0] as int) <= r.nodes()[j] && r.nodes()[0] < r.nodes()[j],
        j + 1 < r.nodes().len() ==> r.nodes()[j] + hsize(m, r.nodes()[j] as int) <= r.nodes()[j + 1],
{
    reveal(RegionDesc::wf);
    let n = r.nodes();
    assert(1 <= n[j] <= 0xFFFFF);
    assert(header_mapped(m, n[j] as int));
    assert(pages_mapped(m, n[j] as int, hsize(m, n[j] as int) as int));
    assert(n[j] + hsize(m, n[j] as int) <= 0x100000);
    assert(hnext(m, n[j] as int) == (if j + 1 < n.len() { (n[j + 1] * 4096) as u32 } else { 0u32 }));
    if j > 0 {
        assert(n[0] + hsize(m, n[0] as int) <= n[j]);
        assert(n[0] < n[j]);
    }
    if j + 1 < n.len() {
        assert(n[j] + hsize(m, n[j] as int) <= n[j + 1]);
    }
}

/// An empty free list is well formed.
proof fn lemma_empty_wf<M: Memory>(r: &RegionDesc, m: &M)
    requires
        r.nodes().len() == 0,
        r.spec_first() is None,
    ensures
        r.wf(m),
        r.blocks(m) == Seq::<(int, int)>::empty(),
{
    reveal(RegionDesc::wf);
    assert(r.blocks(m) =~= Seq::<(int, int)>::empty());
}

/// A free list stays well formed when a header is stored on a page that
/// holds no free block's header.
proof fn lemma_store_elsewhere<M: Memory>(r: &RegionDesc, before: &M, after: &M, p: int, size: u32, next: u32, prev: u32)
    requires
        r.wf(before),
        header_stored(before, after, p, size, next, prev),
        forall|i: int| 0 <= i < r.nodes().len() && r.nodes()[i] == p ==> size == hsize(before, p) && next == hnext(before, p),
    ensures
        r.wf(after),
        r.blocks(after) == r.blocks(before),
{
    reveal(RegionDesc::wf);
    let n = r.nodes();
    assert forall|i: int| 0 <= i < n.len() implies hsize(after, #[trigger] n[i] as int) == hsize(before, n[i] as int)
        && hnext(after, n[i] as int) == hnext(before, n[i] as int) && header_mapped(after, n[i] as int)
        == header_mapped(before, n[i] as int) by {
        if n[i] == p {
            assert forall|t: int| 0 <= t < 12 implies #[trigger] after.spec_mapped(p * 4096 + t) == before.spec_mapped(p * 4096 + t) by {}
            if header_mapped(before, p) {
                assert forall|t: int| 0 <= t < 12 implies #[trigger] after.spec_mapped(p * 4096 + t) by {
                    assert(before.spec_mapped(p * 4096 + t));
                }
            }
            if header_mapped(after, p) {
                assert forall|t: int| 0 <= t < 12 implies #[trigger] before.spec_mapped(p * 4096 + t) by {
                    assert(after.spec_mapped(p * 4096 + t));
                }
            }
        } else {
            lemma_other_header(before, after, p, size, next, prev, n[i] as int);
        }
    }
    assert forall|i: int| 0 <= i < n.len() implies pages_mapped(after, #[trigger] n[i] as int, hsize(after, n[i] as int) as int) by {
        assert(hsize(after, n[i] as int) == hsize(before, n[i] as int));
        assert forall|a: int| n[i] * 4096 <= a < (n[i] + hsize(after, n[i] as int)) * 4096 implies #[trigger] after.spec_mapped(a) by {
            assert(before.spec_mapped(a));
        }
    }
    assert(r.blocks(after) =~= r.blocks(before));
}

/// Taking pages from the front of the first free block leaves a list whose
/// head is the rest of that block.
proof fn lemma_split_head<M: Memory>(r0: &RegionDesc, r1: &RegionDesc, m0: &M, m1: &M, pages: u32, rem: u32, prev: u32)
    requires
        r0.wf(m0),
        r0.nodes().len() > 0,
        rem > 0,
        hsize(m0, r0.nodes()[0] as int) == pages + rem,
        r1.nodes() == seq![(r0.nodes()[0] + pages) as u32] + r0.nodes().skip(1),
        r1.spec_first() == Some(MemoryBlockHeaderPtr::of((r0.nodes()[0] + pages) as u32)),
        header_stored(m0, m1, r0.nodes()[0] + pages, rem, hnext(m0, r0.nodes()[0] as int), prev),
    ensures
        r1.wf(m1),
        r1.blocks(m1) == seq![(r0.blocks(m0)[0].0 + pages, r0.blocks(m0)[0].1 - pages)] + r0.blocks(m0).skip(1),
{
    reveal(RegionDesc::wf);
    let n = r0.nodes();
    let n1 = r1.nodes();
    let nb = (n[0] + pages) as u32;
    let s0 = hsize(m0, n[0] as int);
    assert(n1[0] == nb);
    assert forall|k: int| 1 <= k < n.len() implies n[0] + s0 <= #[trigger] n[k] by {
        assert(n[0] + hsize(m0, n[0] as int) <= n[k]);
    }
    assert forall|k: int| 1 <= k < n.len() implies hsize(m1, #[trigger] n[k] as int) == hsize(m0, n[k] as int)
        && hnext(m1, n[k] as int) == hnext(m0, n[k] as int) && header_mapped(m1, n[k] as int) == header_mapped(
        m0,
        n[k] as int,
    ) by {
        lemma_other_header(m0, m1, nb as int, rem, hnext(m0, n[0] as int), prev, n[k] as int);
    }
    assert forall|k: int| 0 <= k < n1.len() implies #[trigger] n1[k] == if k == 0 { nb } else { n[k] } by {}
    assert forall|i: int| 0 <= i < n1.len() implies 1 <= #[trigger] n1[i] <= 0xFFFFF by {
        if i == 0 {
            assert(nb <= n[0] + s0 - 1);
        }
    }
    assert forall|i: int, j: int| 0 <= i < j < n1.len() implies #[trigger] n1[i] + hsize(m1, n1[i] as int) <= #[trigger] n1[j] by {
        if i == 0 {
            assert(n[0] + s0 <= n[j]);
        } else {
            assert(n[i] + hsize(m0, n[i] as int) <= n[j]);
        }
    }
    assert forall|i: int| 0 <= i < n1.len() implies header_mapped(m1, #[trigger] n1[i] as int) by {
        if i == 0 {
            assert forall|t: int| 0 <= t < 12 implies #[trigger] m1.spec_mapped(nb * 4096 + t) by {
                assert(pages_mapped(m0, n[0] as int, s0 as int));
                assert(n[0] * 4096 <= nb * 4096 + t < (n[0] + s0) * 4096);
                assert(m0.spec_mapped(nb * 4096 + t));
            }
        } else {
            assert(header_mapped(m0, n[i] as int));
        }
    }
    assert forall|i: int| 0 <= i < n1.len() implies pages_mapped(m1, #[trigger] n1[i] as int, hsize(m1, n1[i] as int) as int) by {
        if i == 0 {
            assert forall|a: int| nb * 4096 <= a < (nb + rem) * 4096 implies #[trigger] m1.spec_mapped(a) by {
                assert(pages_mapped(m0, n[0] as int, s0 as int));
                assert(n[0] * 4096 <= a < (n[0] + s0) * 4096);
                assert(m0.spec_mapped(a));
            }
        } else {
            assert(pages_mapped(m0, n[i] as int, hsize(m0, n[i] as int) as int));
            assert forall|a: int| n[i] * 4096 <= a < (n[i] + hsize(m1, n[i] as int)) * 4096 implies #[trigger] m1.spec_mapped(a) by {
                assert(m0.spec_mapped(a));
            }
        }
    }
    assert forall|i: int| 0 <= i < n1.len() implies #[trigger] n1[i] + hsize(m1, n1[i] as int) <= 0x100000 by {
        if i == 0 {
            assert(n[0] + s0 <= 0x100000);
        } else {
            assert(n[i] + hsize(m0, n[i] as int) <= 0x100000);
        }
    }
    assert forall|i: int| 0 <= i < n1.len() implies #[trigger] hnext(m1, n1[i] as int) == (if i + 1 < n1.len() {
        (n1[i + 1] * 4096) as u32
    } else {
        0u32
    }) by {
        if i == 0 {
            assert(hnext(m0, n[0] as int) == (if 1 < n.len() { (n[1] * 4096) as u32 } else { 0u32 }));
        } else {
            assert(hnext(m0, n[i] as int) == (if i + 1 < n.len() { (n[i + 1] * 4096) as u32 } else { 0u32 }));
        }
    }
    assert(r1.blocks(m1) =~= seq![(r0.blocks(m0)[0].0 + pages, r0.blocks(m0)[0].1 - pages)] + r0.blocks(m0).skip(1));
}

/// The well-formedness and the blocks of a free list depend only on its
/// nodes and its first block.
proof fn lemma_wf_same<M: Memory>(r0: &RegionDesc, r1: &RegionDesc, m: &M)
    requires
        r0.wf(m),
        r1.nodes() == r0.nodes(),
        r1.spec_first() == r0.spec_first(),
    ensures
        r1.wf(m),
        r1.blocks(m) == r0.blocks(m),
{
    reveal(RegionDesc::wf);
    assert(r1.blocks(m) =~= r0.blocks(m));
}

/// Writing the header of the rest of a block that is not first in the
/// list leaves the list as it was: the header lands inside that block.
proof fn lemma_take_later<M: Memory>(r: &RegionDesc, m0: &M, m1: &M, j: int, pages: u32, rem: u32, next: u32, prev: u32)
    requires
        r.wf(m0),
        0 <= j < r.nodes().len(),
        rem > 0,
        hsize(m0, r.nodes()[j] as int) == pages + rem,
        next == hnext(m0, r.nodes()[j] as int),
        header_stored(m0, m1, r.nodes()[j] + pages, rem, next, prev),
    ensures
        r.wf(m1),
        r.blocks(m1) == r.blocks(m0),
{
    reveal(RegionDesc::wf);
    let n = r.nodes();
    let nb = n[j] + pages;
    assert forall|i: int| 0 <= i < n.len() && n[i] == nb implies rem == hsize(m0, nb) && next == hnext(m0, nb) by {
        if i < j {
            assert(n[i] + hsize(m0, n[i] as int) <= n[j]);
        } else if i > j {
            assert(n[j] + hsize(m0, n[j] as int) <= n[i]);
        }
    }
    lemma_store_elsewhere(r, m0, m1, nb, rem, next, prev);
}

/// The free blocks after block `i` absorbed the block after it, where the
/// two are adjacent.
pub open spec fn spec_merge_at(blocks: Seq<(int, int)>, i: int) -> Seq<(int, int)> {
    if 0 <= i && i + 1 < blocks.len() && blocks[i].0 + blocks[i].1 == blocks[i + 1].0 {
        blocks.update(i, (blocks[i].0, blocks[i].1 + blocks[i + 1].1)).remove(i + 1)
    } else {
        blocks
    }
}

/// Whether a block starting at page `p` goes in at position `k` of the
/// sorted `blocks`.
pub open spec fn spec_insert_pos(blocks: Seq<(int, int)>, p: int, k: int) -> bool {
    &&& 0 <= k <= blocks.len()
    &&& forall|i: int| 0 <= i < k ==> (#[trigger] blocks[i]).0 < p
    &&& forall|i: int| k <= i < blocks.len() ==> (#[trigger] blocks[i]).0 > p
}

/// The free blocks after `n` pages from page `p` were put back at
/// position `k` and merged with the blocks next to them where adjacent.
pub open spec fn spec_freed(blocks: Seq<(int, int)>, k: int, p: int, n: int) -> Seq<(int, int)> {
    let inserted = spec_merge_at(blocks.insert(k, (p, n)), k);
    if k > 0 {
        spec_merge_at(inserted, k - 1)
    } else {
        inserted
    }
}

/// Whether the pages `p .. p + n` lie outside every free block, and `p`
/// is no block's first page.
pub open spec fn spec_outside(blocks: Seq<(int, int)>, p: int, n: int) -> bool {
    forall|i: int|
        0 <= i < blocks.len() ==> ((#[trigger] blocks[i]).0 < p && blocks[i].0 + blocks[i].1 <= p) || (p
            < blocks[i].0 && p + n <= blocks[i].0)
}

/// Storing, at the header of block `i`, the joined size of it and the
/// adjacent block after it, and the next link of that block, leaves a
/// well-formed list without that block.
#[verifier::spinoff_prover]
#[verifier::rlimit(60)]
proof fn lemma_merge_store<M: Memory>(r0: &RegionDesc, r1: &RegionDesc, m1: &M, m2: &M, i: int, prev: u32)
    requires
        r0.wf(m1),
        0 <= i,
        i + 1 < r0.nodes().len(),
        r0.nodes()[i] + hsize(m1, r0.nodes()[i] as int) == r0.nodes()[i + 1],
        hsize(m1, r0.nodes()[i] as int) + hsize(m1, r0.nodes()[i + 1] as int) <= u32::MAX,
        header_stored(
            m1,
            m2,
            r0.nodes()[i] as int,
            (hsize(m1, r0.nodes()[i] as int) + hsize(m1, r0.nodes()[i + 1] as int)) as u32,
            hnext(m1, r0.nodes()[i + 1] as int),
            prev,
        ),
        r1.nodes() == r0.nodes().remove(i + 1),
        r1.spec_first() == r0.spec_first(),
    ensures
        r1.wf(m2),
        r1.blocks(m2) == spec_merge_at(r0.blocks(m1), i),
{
    reveal(RegionDesc::wf);
    let n = r0.nodes();
    let n1 = r1.nodes();
    let si = hsize(m1, n[i] as int);
    let sj = hsize(m1, n[i + 1] as int);
    assert forall|k: int| 0 <= k < n.len() && k != i implies hsize(m2, #[trigger] n[k] as int) == hsize(m1, n[k] as int)
        && hnext(m2, n[k] as int) == hnext(m1, n[k] as int) && header_mapped(m2, n[k] as int) == header_mapped(
        m1,
        n[k] as int,
    ) by {
        if k < i {
            assert(n[k] < n[i]);
        } else {
            assert(n[i] < n[k]);
        }
        lemma_other_header(m1, m2, n[i] as int, (si + sj) as u32, hnext(m1, n[i + 1] as int), prev, n[k] as int);
    }
    assert forall|k: int| 0 <= k < n1.len() implies #[trigger] n1[k] == if k <= i { n[k] } else { n[k + 1] } by {}
    assert forall|k: int| 0 <= k < n.len() && k != i implies #[trigger] n[k] != n[i] by {
        if k < i { assert(n[k] < n[i]); } else { assert(n[i] < n[k]); }
    }
    assert(header_mapped(m2, n[i] as int)) by {
        assert forall|t: int| 0 <= t < 12 implies #[trigger] m2.spec_mapped(n[i] * 4096 + t) by {
            assert(header_mapped(m1, n[i] as int));
            assert(m1.spec_mapped(n[i] * 4096 + t));
        }
    }
    assert forall|a: int, b: int| 0 <= a < b < n1.len() implies #[trigger] n1[a] + hsize(m2, n1[a] as int) <= #[trigger] n1[b] by {
        if a == i {
            assert(n[i + 1] + sj <= n[b + 1]);
        } else if a < i {
            if b <= i {
                assert(n[a] + hsize(m1, n[a] as int) <= n[b]);
            } else {
                assert(n[a] + hsize(m1, n[a] as int) <= n[b + 1]);
            }
        } else {
            assert(n[a + 1] + hsize(m1, n[a + 1] as int) <= n[b + 1]);
        }
    }
    assert forall|a: int, b: int| 0 <= a < b < n1.len() implies #[trigger] n1[a] < #[trigger] n1[b] by {
        let a0 = if a <= i { a } else { a + 1 };
        let b0 = if b <= i { b } else { b + 1 };
        assert(n[a0] < n[b0]);
    }
    assert forall|k: int| 0 <= k < n1.len() implies pages_mapped(m2, #[trigger] n1[k] as int, hsize(m2, n1[k] as int) as int) by {
        if k == i {
            assert forall|a: int| n[i] * 4096 <= a < (n[i] + si + sj) * 4096 implies #[trigger] m2.spec_mapped(a) by {
                if a < n[i + 1] * 4096 {
                    assert(pages_mapped(m1, n[i] as int, si as int));
                    assert(m1.spec_mapped(a));
                } else {
                    assert(pages_mapped(m1, n[i + 1] as int, sj as int));
                    assert(m1.spec_mapped(a));
                }
            }
        } else {
            let k0 = if k < i { k } else { k + 1 };
            assert(pages_mapped(m1, n[k0] as int, hsize(m1, n[k0] as int) as int));
            assert forall|a: int| n[k0] * 4096 <= a < (n[k0] + hsize(m2, n[k0] as int)) * 4096 implies #[trigger] m2.spec_mapped(a) by {
                assert(m1.spec_mapped(a));
            }
        }
    }
    assert forall|k: int| 0 <= k < n1.len() implies header_mapped(m2, #[trigger] n1[k] as int) by {
        if k != i {
            let k0 = if k < i { k } else { k + 1 };
            assert(header_mapped(m1, n[k0] as int));
        }
    }
    assert forall|k: int| 0 <= k < n1.len() implies #[trigger] n1[k] + hsize(m2, n1[k] as int) <= 0x100000 by {
        if k == i {
            assert(n[i + 1] + sj <= 0x100000);
        } else {
            let k0 = if k < i { k } else { k + 1 };
            assert(n[k0] + hsize(m1, n[k0] as int) <= 0x100000);
        }
    }
    assert forall|k: int| 0 <= k < n1.len() implies #[trigger] hnext(m2, n1[k] as int) == (if k + 1 < n1.len() {
        (n1[k + 1] * 4096) as u32
    } else {
        0u32
    }) by {
        if k == i {
            assert(hnext(m1, n[i + 1] as int) == (if i + 2 < n.len() { (n[i + 2] * 4096) as u32 } else { 0u32 }));
        } else if k < i {
            assert(hnext(m1, n[k] as int) == (if k + 1 < n.len() { (n[k + 1] * 4096) as u32 } else { 0u32 }));
        } else {
            assert(hnext(m1, n[k + 1] as int) == (if k + 2 < n.len() { (n[k + 2] * 4096) as u32 } else { 0u32 }));
        }
    }
    assert forall|k: int| 0 <= k < n1.len() implies 1 <= #[trigger] n1[k] <= 0xFFFFF by {
        let k0 = if k <= i { k } else { k + 1 };
        assert(1 <= n[k0] <= 0xFFFFF);
    }
    let b0 = r0.blocks(m1);
    assert(b0[i].0 + b0[i].1 == b0[i + 1].0);
    assert(r1.blocks(m2) =~= spec_merge_at(b0, i));
}

/// Where a freed block goes in the list: first, or between a block and
/// the block after it, if any.
#[derive(PartialEq, Eq, Structural)]
enum BlockInsertionPoint {
    First,
    Between(MemoryBlockHeaderPtr, Option<MemoryBlockHeaderPtr>),
}

/// Whether a block at page `p` goes in at position `k` of the nodes.
pub open spec fn spec_node_pos(n: Seq<u32>, p: int, k: int) -> bool {
    &&& 0 <= k <= n.len()
    &&& forall|i: int| 0 <= i < k ==> #[trigger] n[i] <= p
    &&& forall|i: int| k <= i < n.len() ==> #[trigger] n[i] > p
}

/// Putting a block of `pages` pages at page `p`, outside every free block,
/// into the list at its position `k` keeps the list well formed.
#[verifier::spinoff_prover]
#[verifier::rlimit(60)]
proof fn lemma_insert<M: Memory>(r0: &RegionDesc, r1: &RegionDesc, m0: &M, m3: &M, k: int, p: int, pages: u32)
    requires
        r0.wf(m0),
        spec_node_pos(r0.nodes(), p, k),
        spec_outside(r0.blocks(m0), p, pages as int),
        1 <= p,
        p + pages <= 0x100000,
        p <= 0xFFFFF,
        header_mapped(m0, p),
        pages_mapped(m0, p, pages as int),
        r1.nodes() == r0.nodes().insert(k, p as u32),
        r1.spec_first() == (if k == 0 { Some(MemoryBlockHeaderPtr::of(p as u32)) } else { r0.spec_first() }),
        forall|a: int| #[trigger] m3.spec_mapped(a) == m0.spec_mapped(a),
        forall|i: int| 0 <= i < r0.nodes().len() ==> hsize(m3, #[trigger] r0.nodes()[i] as int) == hsize(m0, r0.nodes()[i] as int),
        forall|i: int| 0 <= i < r0.nodes().len() && i != k - 1 ==> hnext(m3, #[trigger] r0.nodes()[i] as int) == hnext(m0, r0.nodes()[i] as int),
        k > 0 ==> hnext(m3, r0.nodes()[k - 1] as int) == (p * 4096) as u32,
        hsize(m3, p) == pages,
        hnext(m3, p) == (if k < r0.nodes().len() { (r0.nodes()[k] * 4096) as u32 } else { 0u32 }),
    ensures
        r1.wf(m3),
        r1.blocks(m3) == r0.blocks(m0).insert(k, (p, pages as int)),
{
    reveal(RegionDesc::wf);
    let n = r0.nodes();
    let n1 = r1.nodes();
    let b0 = r0.blocks(m0);
    assert forall|i: int| 0 <= i < n1.len() implies #[trigger] n1[i] == if i < k { n[i] } else if i == k { p as u32 } else { n[i - 1] } by {}
    assert forall|i: int| 0 <= i < n.len() implies (n[i] + hsize(m0, n[i] as int) <= p && n[i] < p) || (p < n[i] && p + pages <= n[i]) by {
        assert(b0[i].0 == n[i]);
    }
    assert forall|i: int| 0 <= i < n1.len() implies 1 <= #[trigger] n1[i] <= 0xFFFFF by {
        if i < k { assert(1 <= n[i] <= 0xFFFFF); } else if i > k { assert(1 <= n[i - 1] <= 0xFFFFF); }
    }
    assert forall|a: int, b: int| 0 <= a < b < n1.len() implies #[trigger] n1[a] < #[trigger] n1[b] by {
        if a < k && b < k { assert(n[a] < n[b]); }
        else if a < k && b == k { assert(n[a] <= p); }
        else if a < k { assert(n[a] < n[b - 1]); }
        else if a == k { assert(n[b - 1] > p); }
        else { assert(n[a - 1] < n[b - 1]); }
    }
    assert forall|a: int, b: int| 0 <= a < b < n1.len() implies #[trigger] n1[a] + hsize(m3, n1[a] as int) <= #[trigger] n1[b] by {
        if a < k && b < k { assert(n[a] + hsize(m0, n[a] as int) <= n[b]); }
        else if a < k && b == k { assert(n[a] <= p); }
        else if a < k { assert(n[a] + hsize(m0, n[a] as int) <= n[b - 1]); }
        else if a == k { assert(n[b - 1] > p); }
        else { assert(n[a - 1] + hsize(m0, n[a - 1] as int) <= n[b - 1]); }
    }
    assert forall|i: int| 0 <= i < n1.len() implies header_mapped(m3, #[trigger] n1[i] as int) by {
        let q = n1[i] as int;
        if i == k {
            assert forall|t: int| 0 <= t < 12 implies #[trigger] m3.spec_mapped(q * 4096 + t) by {
                assert(m0.spec_mapped(q * 4096 + t));
            }
        } else {
            let i0 = if i < k { i } else { i - 1 };
            assert(header_mapped(m0, n[i0] as int));
            assert forall|t: int| 0 <= t < 12 implies #[trigger] m3.spec_mapped(q * 4096 + t) by {
                assert(m0.spec_mapped(q * 4096 + t));
            }
        }
    }
    assert forall|i: int| 0 <= i < n1.len() implies pages_mapped(m3, #[trigger] n1[i] as int, hsize(m3, n1[i] as int) as int) by {
        let q = n1[i] as int;
        if i == k {
            assert forall|a: int| q * 4096 <= a < (q + pages) * 4096 implies #[trigger] m3.spec_mapped(a) by {
                assert(m0.spec_mapped(a));
            }
        } else {
            let i0 = if i < k { i } else { i - 1 };
            assert(pages_mapped(m0, n[i0] as int, hsize(m0, n[i0] as int) as int));
            assert forall|a: int| q * 4096 <= a < (q + hsize(m3, q)) * 4096 implies #[trigger] m3.spec_mapped(a) by {
                assert(m0.spec_mapped(a));
            }
        }
    }
    assert forall|i: int| 0 <= i < n1.len() implies #[trigger] n1[i] + hsize(m3, n1[i] as int) <= 0x100000 by {
        if i < k { assert(n[i] + hsize(m0, n[i] as int) <= 0x100000); }
        else if i > k { assert(n[i - 1] + hsize(m0, n[i - 1] as int) <= 0x100000); }
    }
    assert forall|i: int| 0 <= i < n1.len() implies #[trigger] hnext(m3, n1[i] as int) == (if i + 1 < n1.len() {
        (n1[i + 1] * 4096) as u32
    } else {
        0u32
    }) by {
        if i < k - 1 {
            assert(hnext(m0, n[i] as int) == (if i + 1 < n.len() { (n[i + 1] * 4096) as u32 } else { 0u32 }));
        } else if i == k - 1 {
        } else if i == k {
        } else {
            assert(hnext(m0, n[i - 1] as int) == (if i < n.len() { (n[i] * 4096) as u32 } else { 0u32 }));
        }
    }
    assert(r1.blocks(m3) =~= b0.insert(k, (p, pages as int)));
}

/// Whether page `q` is one of the nodes `n`.
pub open spec fn in_nodes(n: Seq<u32>, q: int) -> bool {
    exists|i: int| 0 <= i < n.len() && n[i] == q
}

/// Whether `after` keeps the mappings of `before` and the header size and
/// next link of every page but the nodes `n` and the page `e`.
pub open spec fn kept_nodes<M: Memory>(before: &M, after: &M, n: Seq<u32>, e: int) -> bool {
    &&& forall|a: int| #[trigger] after.spec_mapped(a) == before.spec_mapped(a)
    &&& forall|q: int|
        !in_nodes(n, q) && q != e ==> #[trigger] hsize(after, q) == hsize(before, q) && hnext(after, q) == hnext(before, q)
}

proof fn lemma_kept_refl<M: Memory>(m: &M, n: Seq<u32>, e: int)
    ensures
        kept_nodes(m, m, n, e),
{
}

proof fn lemma_stored_kept<M: Memory>(before: &M, after: &M, p: int, size: u32, next: u32, prev: u32, n: Seq<u32>, e: int)
    requires
        header_stored(before, after, p, size, next, prev),
        p == e || in_nodes(n, p),
    ensures
        kept_nodes(before, after, n, e),
{
    assert forall|q: int| !in_nodes(n, q) && q != e implies #[trigger] hsize(after, q) == hsize(before, q) && hnext(after, q)
        == hnext(before, q) by {
        if q == p {
            assert(in_nodes(n, p));
        } else {
            lemma_other_header(before, after, p, size, next, prev, q);
        }
    }
}

/// Two changes that each keep what lies outside `n` and `e` keep it
/// together; a change that keeps what lies outside `n1` keeps what lies
/// outside `n` and `e` when every node of `n1` is a node of `n` or `e`.
proof fn lemma_kept_trans<M: Memory>(m0: &M, m1: &M, m2: &M, n1: Seq<u32>, e1: int, n2: Seq<u32>, e2: int, n: Seq<u32>, e: int)
    requires
        kept_nodes(m0, m1, n1, e1),
        kept_nodes(m1, m2, n2, e2),
        e1 == e || in_nodes(n, e1),
        e2 == e || in_nodes(n, e2),
        forall|q: int| in_nodes(n1, q) ==> q == e || in_nodes(n, q),
        forall|q: int| in_nodes(n2, q) ==> q == e || in_nodes(n, q),
    ensures
        kept_nodes(m0, m2, n, e),
{
    assert forall|q: int| !in_nodes(n, q) && q != e implies #[trigger] hsize(m2, q) == hsize(m0, q) && hnext(m2, q) == hnext(m0, q) by {
        assert(!in_nodes(n1, q));
        assert(!in_nodes(n2, q));
        assert(hsize(m1, q) == hsize(m0, q));
        assert(hsize(m2, q) == hsize(m1, q));
    }
}

/// A free list none of whose nodes was touched stays as it was.
proof fn lemma_untouched<M: Memory>(r: &RegionDesc, m0: &M, m1: &M, n: Seq<u32>, e: int)
    requires
        r.wf(m0),
        kept_nodes(m0, m1, n, e),
        forall|i: int| 0 <= i < r.nodes().len() ==> !in_nodes(n, #[trigger] r.nodes()[i] as int) && r.nodes()[i] != e,
    ensures
        r.wf(m1),
        r.blocks(m1) == r.blocks(m0),
{
    reveal(RegionDesc::wf);
    let rn = r.nodes();
    assert forall|i: int| 0 <= i < rn.len() implies hsize(m1, #[trigger] rn[i] as int) == hsize(m0, rn[i] as int)
        && hnext(m1, rn[i] as int) == hnext(m0, rn[i] as int) by {
        assert(!in_nodes(n, rn[i] as int));
    }
    assert forall|i: int| 0 <= i < rn.len() implies header_mapped(m1, #[trigger] rn[i] as int) by {
        assert(header_mapped(m0, rn[i] as int));
        assert forall|t: int| 0 <= t < 12 implies #[trigger] m1.spec_mapped(rn[i] * 4096 + t) by {
            assert(m0.spec_mapped(rn[i] * 4096 + t));
        }
    }
    assert forall|i: int| 0 <= i < rn.len() implies pages_mapped(m1, #[trigger] rn[i] as int, hsize(m1, rn[i] as int) as int) by {
        assert(pages_mapped(m0, rn[i] as int, hsize(m0, rn[i] as int) as int));
        assert forall|a: int| rn[i] * 4096 <= a < (rn[i] + hsize(m1, rn[i] as int)) * 4096 implies #[trigger] m1.spec_mapped(a) by {
            assert(m0.spec_mapped(a));
        }
    }
    assert(r.blocks(m1) =~= r.blocks(m0));
}

/// The page allocator over a memory `M`, with a free list per region.
pub struct KMM<M: Memory> {
    mem: M,
    region_app: RegionDesc,
    region_system: RegionDesc,
    region_base: RegionDesc,
}

impl RegionDesc {
    /// Starts the free list with one free block of `pages` pages at `addr`.
    fn init<M: Memory>(&mut self, mem: &mut M, addr: u32, pages: u32)
        requires
            addr % 4096 == 0,
            addr >= 4096,
            addr / 4096 + pages <= 0x100000,
            header_mapped(old(mem), addr as int / 4096),
            pages_mapped(old(mem), addr as int / 4096, pages as int),
        ensures
            final(self).wf(final(mem)),
            final(self).blocks(final(mem)) == seq![(addr as int / 4096, pages as int)],
            final(self).spec_first() == Some(MemoryBlockHeaderPtr::of((addr / 4096) as u32)),
            final(self).spec_last() == Some(MemoryBlockHeaderPtr::of((addr / 4096) as u32)),
            final(self).spec_start() == addr,
            final(self).spec_size() == pages,
            header_stored(old(mem), final(mem), addr as int / 4096, pages, 0, 0),
    {
        let ptr = MemoryBlockHeaderPtr::from_ptr(addr).unwrap();
        self.start = addr;
        self.size = pages;
        self.first = Some(ptr);
        self.last = Some(ptr);
        let header = MemoryBlockHeader { size: pages, next: None.into_unsafe(), prev: None.into_unsafe() };
        let ghost m0 = *mem;
        ptr.write(mem, &header);
        let ghost nodes1 = seq![ptr.page()];
        self.nodes = Ghost(nodes1);
        proof {
            let p = ptr.page() as int;
            assert forall|a: int| p * 4096 <= a < (p + pages) * 4096 implies #[trigger] mem.spec_mapped(a) by {
                assert(m0.spec_mapped(a));
            }
            assert(self.nodes()[0] == ptr.page());
            assert(self.blocks(mem) =~= seq![(addr as int / 4096, pages as int)]);
            assert(self.wf(mem)) by {
                reveal(RegionDesc::wf);
                assert(self.nodes()[0] == ptr.page());
            }
        }
    }

    /// Takes `pages` pages from the front of the free block at position
    /// `j`, whose header `block` was read from memory.
    fn take<M: Memory>(&mut self, mem: &mut M, ptr: MemoryBlockHeaderPtr, block: MemoryBlockHeader, pages: u32, Ghost(j): Ghost<int>)
        requires
            old(self).wf(old(mem)),
            0 <= j < old(self).nodes().len(),
            ptr == MemoryBlockHeaderPtr::of(old(self).nodes()[j]),
            block.size == hsize(old(mem), old(self).nodes()[j] as int),
            block.next.0 == hnext(old(mem), old(self).nodes()[j] as int),
            block.size >= pages,
        ensures
            final(self).wf(final(mem)),
            final(self).blocks(final(mem)) == spec_after_alloc(old(self).blocks(old(mem)), j, pages as int),
            final(self).spec_start() == old(self).spec_start(),
            final(self).spec_size() == old(self).spec_size(),
            kept_nodes(old(mem), final(mem), Seq::empty(), old(self).nodes()[j] + pages),
            pages < block.size || *final(mem) == *old(mem),
    {
        let ghost n = self.nodes();
        let ghost m0 = *mem;
        proof {
            MemoryBlockHeaderPtr::lemma_of_page(n[j]);
            lemma_node(self, mem, j);
            lemma_node(self, mem, 0);
        }
        let rem = block.size - pages;
        let new_block_ptr = if rem > 0 {
            let nb = ptr.offset(pages).unwrap();
            proof {
                MemoryBlockHeaderPtr::lemma_of_page((n[j] + pages) as u32);
                assert forall|i: int| 0 <= i < 12 implies #[trigger] mem.spec_mapped(nb.page() * 4096 + i) by {
                    assert(pages_mapped(mem, n[j] as int, hsize(mem, n[j] as int) as int));
                }
            }
            let header = MemoryBlockHeader { size: rem, next: block.next, prev: block.prev };
            nb.write(mem, &header);
            proof {
                lemma_stored_kept(&m0, mem, nb.page() as int, rem, block.next.0, block.prev.0, Seq::empty(), n[j] + pages);
            }
            Some(nb)
        } else {
            proof {
                lemma_kept_refl(mem, Seq::empty(), n[j] + pages);
            }
            None
        };
        if self.first == Some(ptr) {
            self.first = new_block_ptr;
        }
        if self.last == Some(ptr) {
            self.last = new_block_ptr;
        }
        let ghost nodes1 = if j == 0 {
            if rem > 0 { seq![new_block_ptr.unwrap().page()] + n.skip(1) } else { Seq::empty() }
        } else {
            n
        };
        self.nodes = Ghost(nodes1);
        proof {
            if j == 0 {
                if rem > 0 {
                    lemma_split_head(old(self), self, &m0, mem, pages, rem, block.prev.0);
                } else {
                    lemma_empty_wf(self, mem);
                }
            } else {
                assert(n[0] < n[j]);
                if rem > 0 {
                    lemma_take_later(old(self), &m0, mem, j, pages, rem, block.next.0, block.prev.0);
                }
                lemma_wf_same(old(self), self, mem);
            }
        }
    }

    /// Takes `pages` pages from the first free block that has that many
    /// and gives the block's page number; `None` when no block is large
    /// enough. Only a block at the head of the list is taken off it.
    fn allocate<M: Memory>(&mut self, mem: &mut M, pages: u32) -> (r: Option<u32>)
        requires
            old(self).wf(old(mem)),
        ensures
            final(self).wf(final(mem)),
            r is None <==> forall|j: int| 0 <= j < old(self).blocks(old(mem)).len() ==> (#[trigger] old(self).blocks(old(mem))[j]).1 < pages,
            r is None ==> *final(self) == *old(self) && *final(mem) == *old(mem),
            r matches Some(page) ==> exists|i: int|
                spec_first_fit(old(self).blocks(old(mem)), pages as int, i) && page == old(self).blocks(old(mem))[i].0
                    && final(self).blocks(final(mem)) == spec_after_alloc(old(self).blocks(old(mem)), i, pages as int)
                    && kept_nodes(old(mem), final(mem), Seq::empty(), old(self).blocks(old(mem))[i].0 + pages)
                    && (pages < old(self).blocks(old(mem))[i].1 || *final(mem) == *old(mem)),
            final(self).spec_start() == old(self).spec_start(),
            final(self).spec_size() == old(self).spec_size(),
    {
        let ghost n = self.nodes();
        let ghost bl = self.blocks(mem);
        assert(self.spec_first() == (if n.len() > 0 { Some(MemoryBlockHeaderPtr::of(n[0])) } else { None })) by {
            reveal(RegionDesc::wf);
        }
        let mut memory_block_ptr = self.first;
        let ghost mut j: int = 0;
        let mut found: Option<(MemoryBlockHeaderPtr, MemoryBlockHeader)> = None;
        loop
            invariant_except_break
                self.wf(mem),
                self.nodes() == n,
                bl == self.blocks(mem),
                0 <= j <= n.len(),
                memory_block_ptr == (if j < n.len() { Some(MemoryBlockHeaderPtr::of(n[j])) } else { None }),
                forall|t: int| 0 <= t < j ==> (#[trigger] bl[t]).1 < pages,
                found is None,
            ensures
                self.wf(mem),
                self.nodes() == n,
                bl == self.blocks(mem),
                0 <= j <= n.len(),
                forall|t: int| 0 <= t < j ==> (#[trigger] bl[t]).1 < pages,
                found is None ==> j == n.len(),
                found matches Some((ptr, block)) ==> j < n.len() && ptr == MemoryBlockHeaderPtr::of(n[j])
                    && block.size == hsize(mem, n[j] as int) && block.next.0 == hnext(mem, n[j] as int) && block.size >= pages,
            decreases n.len() - j,
        {
            match memory_block_ptr {
                None => {
                    break;
                },
                Some(ptr) => {
                    proof {
                        MemoryBlockHeaderPtr::lemma_of_page(n[j]);
                        lemma_node(self, mem, j);
                    }
                    let memory_block = ptr.read(mem);
                    if memory_block.size >= pages {
                        found = Some((ptr, memory_block));
                        break;
                    } else {
                        proof {
                            if j + 1 < n.len() {
                                lemma_node(self, mem, j + 1);
                                lemma_page_address(n[j + 1]);
                                lemma_low_bits((n[j + 1] * 4096) as u32);
                                lemma_shift_page((n[j + 1] * 4096) as u32);
                            }
                        }
                        memory_block_ptr = memory_block.next.assert_safe();
                        proof {
                            j = j + 1;
                        }
                    }
                },
            }
        }
        match found {
            None => None,
            Some((ptr, block)) => {
                let page = ptr.page_number();
                proof {
                    MemoryBlockHeaderPtr::lemma_of_page(n[j]);
                    assert(spec_first_fit(bl, pages as int, j));
                }
                self.take(mem, ptr, block, pages, Ghost(j));
                Some(page)
            },
        }
    }
}

impl RegionDesc {
    /// Joins the free block at `ptr` (position `i`, whose header is `cur`)
    /// with the next free block when that one starts where it ends: `cur`
    /// gets the joined size and the next block's link, the block after
    /// the two links back to `ptr`, and `ptr` becomes the last block when
    /// none is after them. Gives whether the blocks were joined; the caller
    /// stores `cur` then.
    fn merge_right<M: Memory>(&mut self, mem: &mut M, ptr: MemoryBlockHeaderPtr, cur: &mut MemoryBlockHeader, Ghost(i): Ghost<int>) -> (r: bool)
        requires
            old(self).wf(old(mem)),
            0 <= i < old(self).nodes().len(),
            ptr == MemoryBlockHeaderPtr::of(old(self).nodes()[i]),
            old(cur).size == hsize(old(mem), old(self).nodes()[i] as int),
            old(cur).next.0 == hnext(old(mem), old(self).nodes()[i] as int),
        ensures
            r == (i + 1 < old(self).nodes().len() && old(self).nodes()[i] + hsize(old(mem), old(self).nodes()[i] as int)
                == old(self).nodes()[i + 1]),
            !r ==> *final(self) == *old(self) && *final(mem) == *old(mem) && *final(cur) == *old(cur),
            kept_nodes(old(mem), final(mem), old(self).nodes(), old(self).nodes()[i] as int),
            r ==> {
                let n = old(self).nodes();
                &&& final(cur).size == hsize(old(mem), n[i] as int) + hsize(old(mem), n[i + 1] as int)
                &&& final(cur).next.0 == hnext(old(mem), n[i + 1] as int)
                &&& final(cur).prev == old(cur).prev
                &&& final(self).nodes() == n
                &&& final(self).spec_first() == old(self).spec_first()
                &&& final(self).wf(final(mem))
                &&& final(self).blocks(final(mem)) == old(self).blocks(old(mem))
                &&& final(self).spec_last() == (if i + 2 < n.len() { old(self).spec_last() } else { Some(ptr) })
                &&& final(self).spec_start() == old(self).spec_start()
                &&& final(self).spec_size() == old(self).spec_size()
            },
    {
        let ghost n = self.nodes();
        let ghost m0 = *mem;
        proof {
            lemma_node(self, mem, i);
            MemoryBlockHeaderPtr::lemma_of_page(n[i]);
            if i + 1 < n.len() {
                lemma_node(self, mem, i + 1);
                lemma_page_address(n[i + 1]);
                lemma_low_bits((n[i + 1] * 4096) as u32);
                lemma_shift_page((n[i + 1] * 4096) as u32);
                MemoryBlockHeaderPtr::lemma_of_page(n[i + 1]);
            }
        }
        let end = ptr.offset(cur.size);
        let cur_next = cur.next.assert_safe();
        match (end, cur_next) {
            (Some(end), Some(cur_next)) => {
                if cur_next == end {
                    let next = cur_next.read(mem);
                    cur.size = cur.size + next.size;
                    cur.next = next.next;
                    proof {
                        if i + 2 < n.len() {
                            lemma_node(self, mem, i + 2);
                            lemma_page_address(n[i + 2]);
                            lemma_low_bits((n[i + 2] * 4096) as u32);
                            lemma_shift_page((n[i + 2] * 4096) as u32);
                            MemoryBlockHeaderPtr::lemma_of_page(n[i + 2]);
                        }
                    }
                    match cur.next.assert_safe() {
                        Some(next_next_ptr) => {
                            let mut next_next = next_next_ptr.read(mem);
                            next_next.prev = Some(ptr).into_unsafe();
                            next_next_ptr.write(mem, &next_next);
                            proof {
                                assert(in_nodes(n, n[i + 2] as int));
                                lemma_stored_kept(&m0, mem, n[i + 2] as int, next_next.size, next_next.next.0, next_next.prev.0, n, n[i] as int);
                                lemma_store_elsewhere(self, &m0, mem, n[i + 2] as int, next_next.size, next_next.next.0, next_next.prev.0);
                            }
                        },
                        None => {
                            self.last = Some(ptr);
                            proof {
                                lemma_wf_same(old(self), self, mem);
                                lemma_kept_refl(mem, n, n[i] as int);
                            }
                        },
                    }
                    true
                } else {
                    proof { lemma_kept_refl(mem, n, n[i] as int); }
                    false
                }
            },
            _ => {
                proof { lemma_kept_refl(mem, n, n[i] as int); }
                false
            },
        }
    }

    /// Joins the free block at `ptr` (position `i`, whose header was read
    /// into `cur`) with the next free block where adjacent, and stores the
    /// joined header.
    fn merge_into<M: Memory>(&mut self, mem: &mut M, ptr: MemoryBlockHeaderPtr, cur: &mut MemoryBlockHeader, Ghost(i): Ghost<int>)
        requires
            old(self).wf(old(mem)),
            0 <= i < old(self).nodes().len(),
            ptr == MemoryBlockHeaderPtr::of(old(self).nodes()[i]),
            old(cur).size == hsize(old(mem), old(self).nodes()[i] as int),
            old(cur).next.0 == hnext(old(mem), old(self).nodes()[i] as int),
        ensures
            final(self).wf(final(mem)),
            final(self).blocks(final(mem)) == spec_merge_at(old(self).blocks(old(mem)), i),
            final(cur).prev == old(cur).prev,
            final(self).nodes().len() >= i + 1,
            forall|t: int| 0 <= t <= i ==> #[trigger] final(self).nodes()[t] == old(self).nodes()[t],
            final(self).spec_start() == old(self).spec_start(),
            final(self).spec_size() == old(self).spec_size(),
            kept_nodes(old(mem), final(mem), old(self).nodes(), old(self).nodes()[i] as int),
            forall|q: int| in_nodes(final(self).nodes(), q) ==> in_nodes(old(self).nodes(), q),
    {
        let ghost n = self.nodes();
        let ghost b0 = self.blocks(mem);
        let ghost m0 = *mem;
        if self.merge_right(mem, ptr, cur, Ghost(i)) {
            let ghost r1 = *self;
            let ghost m1 = *mem;
            proof {
                lemma_node(self, mem, i);
                assert(r1.blocks(&m1)[i] == b0[i]);
                assert(r1.blocks(&m1)[i + 1] == b0[i + 1]);
                MemoryBlockHeaderPtr::lemma_of_page(n[i]);
                lemma_node(self, mem, i + 1);
                lemma_node(old(self), old(mem), i + 1);
            }
            ptr.write(mem, cur);
            let ghost nodes2 = n.remove(i + 1);
            self.nodes = Ghost(nodes2);
            proof {
                lemma_merge_store(&r1, self, &m1, mem, i, cur.prev.0);
                lemma_stored_kept(&m1, mem, n[i] as int, cur.size, cur.next.0, cur.prev.0, n, n[i] as int);
                lemma_kept_trans(&m0, &m1, mem, n, n[i] as int, n, n[i] as int, n, n[i] as int);
                assert forall|q: int| in_nodes(self.nodes(), q) implies in_nodes(n, q) by {
                    let t = choose|t: int| 0 <= t < self.nodes().len() && self.nodes()[t] == q;
                    if t <= i { assert(n[t] == q); } else { assert(n[t + 1] == q); }
                }
            }
        } else {
            proof {
                assert(b0 =~= spec_merge_at(b0, i));
            }
        }
    }

    /// Joins the free block at `ptr` (position `k`, whose header links back
    /// to the block before it) with the free blocks right after and right
    /// before it, where adjacent.
    fn coalesce<M: Memory>(&mut self, mem: &mut M, ptr: MemoryBlockHeaderPtr, Ghost(k): Ghost<int>)
        requires
            old(self).wf(old(mem)),
            0 <= k < old(self).nodes().len(),
            ptr == MemoryBlockHeaderPtr::of(old(self).nodes()[k]),
            hprev(old(mem), old(self).nodes()[k] as int) == (if k > 0 {
                (old(self).nodes()[k - 1] * 4096) as u32
            } else {
                0u32
            }),
        ensures
            final(self).wf(final(mem)),
            final(self).blocks(final(mem)) == ({
                let b = spec_merge_at(old(self).blocks(old(mem)), k);
                if k > 0 { spec_merge_at(b, k - 1) } else { b }
            }),
            final(self).spec_start() == old(self).spec_start(),
            final(self).spec_size() == old(self).spec_size(),
            kept_nodes(old(mem), final(mem), old(self).nodes(), old(self).nodes()[k] as int),
    {
        let ghost n = self.nodes();
        let ghost b0 = self.blocks(mem);
        let ghost m0 = *mem;
        proof {
            lemma_node(self, mem, k);
            MemoryBlockHeaderPtr::lemma_of_page(n[k]);
            if k > 0 {
                lemma_node(self, mem, k - 1);
                lemma_page_address(n[k - 1]);
                lemma_low_bits((n[k - 1] * 4096) as u32);
                lemma_shift_page((n[k - 1] * 4096) as u32);
                MemoryBlockHeaderPtr::lemma_of_page(n[k - 1]);
            }
        }
        let mut cur = ptr.read(mem);
        self.merge_into(mem, ptr, &mut cur, Ghost(k));
        let ghost b1 = self.blocks(mem);
        let ghost m1 = *mem;
        let ghost n1 = self.nodes();
        match cur.prev.assert_safe() {
            Some(cur_prev) => {
                proof {
                    assert(self.nodes()[k - 1] == n[k - 1]);
                    lemma_node(self, mem, k - 1);
                }
                let mut prev = cur_prev.read(mem);
                self.merge_into(mem, cur_prev, &mut prev, Ghost(k - 1));
                proof {
                    assert(in_nodes(n, n[k - 1] as int));
                    lemma_kept_trans(&m0, &m1, mem, n, n[k] as int, n1, n1[k - 1] as int, n, n[k] as int);
                }
            },
            None => {},
        }
    }
}

/// Links the block at `ptr` between the free blocks `prev` (position
/// `k - 1`) and `next` (position `k`, if any): `prev` links forward to it
/// and `next` back to it.
fn link_neighbours<M: Memory>(
    mem: &mut M,
    ptr: MemoryBlockHeaderPtr,
    prev: MemoryBlockHeaderPtr,
    next: Option<MemoryBlockHeaderPtr>,
    Ghost(r): Ghost<RegionDesc>,
    Ghost(k): Ghost<int>,
)
    requires
        r.wf(old(mem)),
        0 < k <= r.nodes().len(),
        prev == MemoryBlockHeaderPtr::of(r.nodes()[k - 1]),
        next == (if k < r.nodes().len() { Some(MemoryBlockHeaderPtr::of(r.nodes()[k])) } else { None }),
        1 <= ptr.page() <= 0xFFFFF,
        forall|i: int| 0 <= i < r.nodes().len() ==> #[trigger] r.nodes()[i] != ptr.page(),
    ensures
        forall|a: int| #[trigger] final(mem).spec_mapped(a) == old(mem).spec_mapped(a),
        forall|i: int| 0 <= i < r.nodes().len() ==> hsize(final(mem), #[trigger] r.nodes()[i] as int) == hsize(old(mem), r.nodes()[i] as int),
        forall|i: int| 0 <= i < r.nodes().len() && i != k - 1 ==> hnext(final(mem), #[trigger] r.nodes()[i] as int) == hnext(old(mem), r.nodes()[i] as int),
        hnext(final(mem), r.nodes()[k - 1] as int) == (ptr.page() * 4096) as u32,
        header_mapped(final(mem), ptr.page() as int) == header_mapped(old(mem), ptr.page() as int),
        kept_nodes(old(mem), final(mem), r.nodes(), ptr.page() as int),
{
    let ghost n = r.nodes();
    let ghost m0 = *mem;
    let ghost p = ptr.page() as int;
    proof {
        lemma_node(&r, mem, k - 1);
        MemoryBlockHeaderPtr::lemma_of_page(n[k - 1]);
        lemma_page_address(ptr.page());
        if k < n.len() {
            lemma_node(&r, mem, k);
            MemoryBlockHeaderPtr::lemma_of_page(n[k]);
        }
    }
    let mut prev_block = prev.read(mem);
    prev_block.next = Some(ptr).into_unsafe();
    prev.write(mem, &prev_block);
    proof {
        assert forall|i: int| 0 <= i < n.len() && i != k - 1 implies hsize(mem, #[trigger] n[i] as int)
            == hsize(&m0, n[i] as int) && hnext(mem, n[i] as int) == hnext(&m0, n[i] as int) by {
            assert(n[i] != n[k - 1]) by { reveal(RegionDesc::wf); }
            lemma_other_header(&m0, mem, n[k - 1] as int, prev_block.size, prev_block.next.0, prev_block.prev.0, n[i] as int);
        }
        lemma_other_header(&m0, mem, n[k - 1] as int, prev_block.size, prev_block.next.0, prev_block.prev.0, p);
        if k < n.len() {
            lemma_other_header(&m0, mem, n[k - 1] as int, prev_block.size, prev_block.next.0, prev_block.prev.0, n[k] as int);
            assert(n[k] != n[k - 1]) by { reveal(RegionDesc::wf); }
        }
        assert(in_nodes(n, n[k - 1] as int));
        lemma_stored_kept(&m0, mem, n[k - 1] as int, prev_block.size, prev_block.next.0, prev_block.prev.0, n, p);
    }
    let ghost m1 = *mem;
    match next {
        Some(next) => {
            let mut next_block = next.read(mem);
            next_block.prev = Some(ptr).into_unsafe();
            next.write(mem, &next_block);
            proof {
                assert forall|i: int| 0 <= i < n.len() implies hsize(mem, #[trigger] n[i] as int)
                    == hsize(&m1, n[i] as int) && hnext(mem, n[i] as int) == hnext(&m1, n[i] as int) by {
                    if n[i] != n[k] {
                        lemma_other_header(&m1, mem, n[k] as int, next_block.size, next_block.next.0, next_block.prev.0, n[i] as int);
                    }
                }
                lemma_other_header(&m1, mem, n[k] as int, next_block.size, next_block.next.0, next_block.prev.0, p);
                assert(in_nodes(n, n[k] as int));
                lemma_stored_kept(&m1, mem, n[k] as int, next_block.size, next_block.next.0, next_block.prev.0, n, p);
                lemma_kept_trans(&m0, &m1, mem, n, p, n, p, n, p);
            }
        },
        None => {},
    }
}

impl RegionDesc {
    /// Finds where a block at `addr` goes in the list: after the last
    /// block at or below it.
    fn find_insertion_point<M: Memory>(&self, mem: &M, addr: MemoryBlockHeaderPtr) -> (r: BlockInsertionPoint)
        requires
            self.wf(mem),
        ensures
            exists|k: int|
                #[trigger] spec_node_pos(self.nodes(), addr.page() as int, k) && r == (if k == 0 {
                    BlockInsertionPoint::First
                } else {
                    BlockInsertionPoint::Between(
                        MemoryBlockHeaderPtr::of(self.nodes()[k - 1]),
                        if k < self.nodes().len() { Some(MemoryBlockHeaderPtr::of(self.nodes()[k])) } else { None },
                    )
                }),
    {
        let ghost n = self.nodes();
        let ghost p = addr.page() as int;
        assert(self.spec_first() == (if n.len() > 0 { Some(MemoryBlockHeaderPtr::of(n[0])) } else { None })) by {
            reveal(RegionDesc::wf);
        }
        let mut memory_block_ptr = self.first;
        let mut prev_block_ptr: Option<MemoryBlockHeaderPtr> = None;
        let ghost mut j: int = 0;
        loop
            invariant
                self.wf(mem),
                n == self.nodes(),
                p == addr.page(),
                0 <= j <= n.len(),
                memory_block_ptr == (if j < n.len() { Some(MemoryBlockHeaderPtr::of(n[j])) } else { None }),
                prev_block_ptr == (if j > 0 { Some(MemoryBlockHeaderPtr::of(n[j - 1])) } else { None }),
                forall|t: int| 0 <= t < j ==> #[trigger] n[t] <= p,
            decreases n.len() - j,
        {
            match memory_block_ptr {
                None => {
                    proof {
                        assert(spec_node_pos(n, p, j));
                    }
                    return match prev_block_ptr {
                        Some(prev) => BlockInsertionPoint::Between(prev, None),
                        None => BlockInsertionPoint::First,
                    };
                },
                Some(ptr) => {
                    proof {
                        MemoryBlockHeaderPtr::lemma_of_page(n[j]);
                        lemma_node(self, mem, j);
                    }
                    if ptr.page_number() > addr.page_number() {
                        proof {
                            assert forall|i: int| j <= i < n.len() implies #[trigger] n[i] > p by {
                                if i > j {
                                    assert(n[j] < n[i]) by { reveal(RegionDesc::wf); }
                                }
                            }
                            assert(spec_node_pos(n, p, j));
                        }
                        return match prev_block_ptr {
                            Some(prev) => BlockInsertionPoint::Between(prev, Some(ptr)),
                            None => BlockInsertionPoint::First,
                        };
                    }
                    proof {
                        if j + 1 < n.len() {
                            lemma_node(self, mem, j + 1);
                            lemma_page_address(n[j + 1]);
                            lemma_low_bits((n[j + 1] * 4096) as u32);
                            lemma_shift_page((n[j + 1] * 4096) as u32);
                        }
                    }
                    prev_block_ptr = Some(ptr);
                    memory_block_ptr = ptr.read(mem).next.assert_safe();
                    proof {
                        j = j + 1;
                    }
                },
            }
        }
    }

    /// Links a block at `ptr` into the list at the point found for it: as
    /// the first block, or after `prev` and before `next`; `block` gets the
    /// links to its neighbours.
    fn link_in<M: Memory>(
        &mut self,
        mem: &mut M,
        ptr: MemoryBlockHeaderPtr,
        point: BlockInsertionPoint,
        block: &mut MemoryBlockHeader,
        Ghost(k): Ghost<int>,
    )
        requires
            old(self).wf(old(mem)),
            spec_node_pos(old(self).nodes(), ptr.page() as int, k),
            point == (if k == 0 {
                BlockInsertionPoint::First
            } else {
                BlockInsertionPoint::Between(
                    MemoryBlockHeaderPtr::of(old(self).nodes()[k - 1]),
                    if k < old(self).nodes().len() { Some(MemoryBlockHeaderPtr::of(old(self).nodes()[k])) } else { None },
                )
            }),
            1 <= ptr.page() <= 0xFFFFF,
            forall|i: int| 0 <= i < old(self).nodes().len() ==> #[trigger] old(self).nodes()[i] != ptr.page(),
            old(block).next.0 == 0,
            old(block).prev.0 == 0,
        ensures
            final(self).nodes() == old(self).nodes(),
            final(self).spec_first() == (if k == 0 { Some(ptr) } else { old(self).spec_first() }),
            final(self).spec_start() == old(self).spec_start(),
            final(self).spec_size() == old(self).spec_size(),
            final(block).size == old(block).size,
            final(block).next.0 == (if k < old(self).nodes().len() { (old(self).nodes()[k] * 4096) as u32 } else { 0u32 }),
            final(block).prev.0 == (if k > 0 { (old(self).nodes()[k - 1] * 4096) as u32 } else { 0u32 }),
            forall|a: int| #[trigger] final(mem).spec_mapped(a) == old(mem).spec_mapped(a),
            forall|i: int| 0 <= i < old(self).nodes().len() ==> hsize(final(mem), #[trigger] old(self).nodes()[i] as int) == hsize(old(mem), old(self).nodes()[i] as int),
            forall|i: int| 0 <= i < old(self).nodes().len() && i != k - 1 ==> hnext(final(mem), #[trigger] old(self).nodes()[i] as int) == hnext(old(mem), old(self).nodes()[i] as int),
            k > 0 ==> hnext(final(mem), old(self).nodes()[k - 1] as int) == (ptr.page() * 4096) as u32,
            header_mapped(final(mem), ptr.page() as int) == header_mapped(old(mem), ptr.page() as int),
            kept_nodes(old(mem), final(mem), old(self).nodes(), ptr.page() as int),
    {
        let ghost n = self.nodes();
        proof {
            assert(self.spec_first() == (if n.len() > 0 { Some(MemoryBlockHeaderPtr::of(n[0])) } else { None })) by {
                reveal(RegionDesc::wf);
            }
            if n.len() > 0 {
                lemma_node(self, mem, 0);
                lemma_page_address(n[0]);
                MemoryBlockHeaderPtr::lemma_of_page(n[0]);
            }
            if k > 0 {
                lemma_node(self, mem, k - 1);
                lemma_page_address(n[k - 1]);
                MemoryBlockHeaderPtr::lemma_of_page(n[k - 1]);
            }
            if k < n.len() {
                lemma_node(self, mem, k);
                lemma_page_address(n[k]);
                MemoryBlockHeaderPtr::lemma_of_page(n[k]);
            }
        }
        match point {
            BlockInsertionPoint::First => {
                block.next = self.first.into_unsafe();
                self.first = Some(ptr);
                if self.last.is_none() {
                    self.last = Some(ptr);
                }
                proof {
                    lemma_kept_refl(mem, n, ptr.page() as int);
                }
            },
            BlockInsertionPoint::Between(prev, next) => {
                block.prev = Some(prev).into_unsafe();
                match next {
                    Some(next) => {
                        block.next = Some(next).into_unsafe();
                    },
                    None => {
                        self.last = Some(ptr);
                    },
                }
                link_neighbours(mem, ptr, prev, next, Ghost(*old(self)), Ghost(k));
            },
        }
    }

    /// Puts the `pages` pages at `addr`, which lie outside every free
    /// block, back on the free list in address order, and joins them with
    /// the free blocks right before and after them where adjacent.
    #[verifier::spinoff_prover]
    #[verifier::rlimit(60)]
    fn free<M: Memory>(&mut self, mem: &mut M, addr: u32, pages: u32)
        requires
            old(self).wf(old(mem)),
            addr % 4096 == 0,
            addr >= 4096,
            addr as int / 4096 + pages <= 0x100000,
            header_mapped(old(mem), addr as int / 4096),
            pages_mapped(old(mem), addr as int / 4096, pages as int),
            spec_outside(old(self).blocks(old(mem)), addr as int / 4096, pages as int),
        ensures
            final(self).wf(final(mem)),
            exists|k: int|
                #[trigger] spec_insert_pos(old(self).blocks(old(mem)), addr as int / 4096, k) && final(self).blocks(final(mem))
                    == spec_freed(old(self).blocks(old(mem)), k, addr as int / 4096, pages as int),
            final(self).spec_start() == old(self).spec_start(),
            final(self).spec_size() == old(self).spec_size(),
            kept_nodes(old(mem), final(mem), old(self).nodes(), addr as int / 4096),
    {
        let ghost n = self.nodes();
        let ghost b0 = self.blocks(mem);
        let ghost m0 = *mem;
        let ghost p = addr as int / 4096;
        let ptr = MemoryBlockHeaderPtr::from_ptr(addr).unwrap();
        proof {
            MemoryBlockHeaderPtr::lemma_of_page(p as u32);
            lemma_page_address(p as u32);
            assert forall|i: int| 0 <= i < n.len() implies #[trigger] n[i] != p by {
                assert(b0[i].0 == n[i]);
            }
        }
        let mut memory_block = MemoryBlockHeader { size: pages, next: None.into_unsafe(), prev: None.into_unsafe() };
        let point = self.find_insertion_point(mem, ptr);
        let ghost k = choose|k: int|
            #[trigger] spec_node_pos(n, p, k) && point == (if k == 0 {
                BlockInsertionPoint::First
            } else {
                BlockInsertionPoint::Between(
                    MemoryBlockHeaderPtr::of(n[k - 1]),
                    if k < n.len() { Some(MemoryBlockHeaderPtr::of(n[k])) } else { None },
                )
            });
        self.link_in(mem, ptr, point, &mut memory_block, Ghost(k));
        let ghost m2 = *mem;
        ptr.write(mem, &memory_block);
        let ghost nodes1 = n.insert(k, p as u32);
        self.nodes = Ghost(nodes1);
        proof {
            assert forall|i: int| 0 <= i < n.len() implies hsize(mem, #[trigger] n[i] as int) == hsize(&m2, n[i] as int)
                && hnext(mem, n[i] as int) == hnext(&m2, n[i] as int) by {
                lemma_other_header(&m2, mem, p, memory_block.size, memory_block.next.0, memory_block.prev.0, n[i] as int);
            }
            lemma_insert(old(self), self, &m0, mem, k, p, pages);
            assert(self.nodes()[k] == p as u32);
            assert(spec_insert_pos(b0, p, k)) by {
                assert forall|i: int| 0 <= i < k implies (#[trigger] b0[i]).0 < p by {
                    assert(b0[i].0 == n[i]);
                }
                assert forall|i: int| k <= i < b0.len() implies (#[trigger] b0[i]).0 > p by {
                    assert(b0[i].0 == n[i]);
                }
            }
        }
        let ghost m3 = *mem;
        proof {
            lemma_stored_kept(&m2, &m3, p, memory_block.size, memory_block.next.0, memory_block.prev.0, n, p);
            lemma_kept_trans(&m0, &m2, &m3, n, p, n, p, n, p);
            assert forall|q: int| in_nodes(nodes1, q) implies q == p || in_nodes(n, q) by {
                let t = choose|t: int| 0 <= t < nodes1.len() && nodes1[t] == q;
                if t < k { assert(n[t] == q); } else if t > k { assert(n[t - 1] == q); }
            }
        }
        self.coalesce(mem, ptr, Ghost(k));
        proof {
            lemma_kept_trans(&m0, &m3, mem, n, p, nodes1, p, n, p);
        }
    }
}

/// Whether two blocks (first page, size in pages) do not overlap and do not
/// share a first page.
pub open spec fn separated(a: (int, int), b: (int, int)) -> bool {
    (a.0 < b.0 && a.0 + a.1 <= b.0) || (b.0 < a.0 && b.0 + b.1 <= a.0)
}

/// Whether every block of `x` is separated from every block of `y`.
pub open spec fn spec_apart(x: Seq<(int, int)>, y: Seq<(int, int)>) -> bool {
    forall|i: int, j: int| 0 <= i < x.len() && 0 <= j < y.len() ==> separated(#[trigger] x[i], #[trigger] y[j])
}

proof fn lemma_apart_sym(x: Seq<(int, int)>, y: Seq<(int, int)>)
    requires
        spec_apart(x, y),
    ensures
        spec_apart(y, x),
{
    assert forall|i: int, j: int| 0 <= i < y.len() && 0 <= j < x.len() implies separated(#[trigger] y[i], #[trigger] x[j]) by {
        assert(separated(x[j], y[i]));
    }
}

/// Taking pages from a block keeps the blocks apart from others.
proof fn lemma_apart_alloc(x: Seq<(int, int)>, i: int, pages: int, y: Seq<(int, int)>)
    requires
        spec_apart(x, y),
        0 <= i < x.len(),
        x[i].1 >= pages >= 0,
    ensures
        spec_apart(spec_after_alloc(x, i, pages), y),
{
    let z = spec_after_alloc(x, i, pages);
    if i == 0 && x[0].1 > pages {
        assert forall|a: int, j: int| 0 <= a < z.len() && 0 <= j < y.len() implies separated(#[trigger] z[a], #[trigger] y[j]) by {
            if a == 0 {
                assert(separated(x[0], y[j]));
            } else {
                assert(z[a] == x[a]);
                assert(separated(x[a], y[j]));
            }
        }
    }
}

/// Joining two adjacent blocks keeps the blocks apart from others.
proof fn lemma_apart_merge(x: Seq<(int, int)>, i: int, y: Seq<(int, int)>)
    requires
        spec_apart(x, y),
    ensures
        spec_apart(spec_merge_at(x, i), y),
{
    let z = spec_merge_at(x, i);
    if 0 <= i && i + 1 < x.len() && x[i].0 + x[i].1 == x[i + 1].0 {
        assert forall|a: int, j: int| 0 <= a < z.len() && 0 <= j < y.len() implies separated(#[trigger] z[a], #[trigger] y[j]) by {
            if a < i {
                assert(z[a] == x[a]);
                assert(separated(x[a], y[j]));
            } else if a == i {
                assert(separated(x[i], y[j]));
                assert(separated(x[i + 1], y[j]));
            } else {
                assert(z[a] == x[a + 1]);
                assert(separated(x[a + 1], y[j]));
            }
        }
    }
}

/// Putting back pages that lie outside the blocks of `y` keeps the blocks
/// apart from them, also once joined with their neighbours.
proof fn lemma_apart_freed(x: Seq<(int, int)>, k: int, p: int, n: int, y: Seq<(int, int)>)
    requires
        spec_apart(x, y),
        0 <= k <= x.len(),
        spec_outside(y, p, n),
    ensures
        spec_apart(spec_freed(x, k, p, n), y),
{
    let z = x.insert(k, (p, n));
    assert forall|a: int, j: int| 0 <= a < z.len() && 0 <= j < y.len() implies separated(#[trigger] z[a], #[trigger] y[j]) by {
        if a < k {
            assert(separated(x[a], y[j]));
        } else if a == k {
            assert(separated(y[j], (p, n)));
        } else {
            assert(z[a] == x[a - 1]);
            assert(separated(x[a - 1], y[j]));
        }
    }
    lemma_apart_merge(z, k, y);
    if k > 0 {
        lemma_apart_merge(spec_merge_at(z, k), k - 1, y);
    }
}

/// A block that is separated from every block of `y` starts at no block
/// of `y`, and `y`'s first pages lie outside it.
proof fn lemma_apart_nodes<M: Memory>(rx: &RegionDesc, ry: &RegionDesc, m: &M)
    requires
        spec_apart(rx.blocks(m), ry.blocks(m)),
    ensures
        forall|j: int| 0 <= j < ry.nodes().len() ==> !in_nodes(rx.nodes(), #[trigger] ry.nodes()[j] as int),
{
    assert forall|j: int| 0 <= j < ry.nodes().len() implies !in_nodes(rx.nodes(), #[trigger] ry.nodes()[j] as int) by {
        if in_nodes(rx.nodes(), ry.nodes()[j] as int) {
            let i = choose|i: int| 0 <= i < rx.nodes().len() && rx.nodes()[i] == ry.nodes()[j];
            assert(separated(rx.blocks(m)[i], ry.blocks(m)[j]));
        }
    }
}

impl<M: Memory> KMM<M> {
    /// The memory the allocator works in.
    pub closed spec fn spec_mem(&self) -> M {
        self.mem
    }

    /// The free list of a region.
    pub closed spec fn spec_region(&self, region: MemoryRegion) -> RegionDesc {
        match region {
            MemoryRegion::App => self.region_app,
            MemoryRegion::System => self.region_system,
            MemoryRegion::Base => self.region_base,
        }
    }

    /// The free blocks of a region as (first page, size in pages), sorted
    /// by address.
    pub open spec fn free_blocks(&self, region: MemoryRegion) -> Seq<(int, int)> {
        self.spec_region(region).blocks(&self.spec_mem())
    }

    /// Every region's free list is well formed, and the free blocks of two
    /// regions never overlap.
    pub open spec fn wf(&self) -> bool {
        &&& forall|r: MemoryRegion| #[trigger] self.spec_region(r).wf(&self.spec_mem())
        &&& forall|r1: MemoryRegion, r2: MemoryRegion|
            r1 != r2 ==> spec_apart(#[trigger] self.free_blocks(r1), #[trigger] self.free_blocks(r2))
    }

    /// An allocator over `mem` whose regions have no free blocks yet.
    pub fn new(mem: M) -> (r: KMM<M>)
        ensures
            r.wf(),
            r.spec_mem() == mem,
            forall|region: MemoryRegion| #[trigger] r.free_blocks(region).len() == 0,
    {
        let r = KMM {
            mem,
            region_app: RegionDesc::default(),
            region_system: RegionDesc::default(),
            region_base: RegionDesc::default(),
        };
        proof {
            lemma_empty_wf(&r.region_app, &r.mem);
            lemma_empty_wf(&r.region_system, &r.mem);
            lemma_empty_wf(&r.region_base, &r.mem);
            assert forall|x: MemoryRegion| #[trigger] r.spec_region(x).wf(&r.spec_mem()) by {
                match x {
                    MemoryRegion::App => {},
                    MemoryRegion::System => {},
                    MemoryRegion::Base => {},
                }
            }
            assert forall|x: MemoryRegion| #[trigger] r.free_blocks(x).len() == 0 by {
                match x {
                    MemoryRegion::App => {},
                    MemoryRegion::System => {},
                    MemoryRegion::Base => {},
                }
            }
        }
        r
    }

    /// The memory the allocator works in.
    pub fn mem(&self) -> (r: &M)
        ensures
            *r == self.spec_mem(),
    {
        &self.mem
    }

    /// After an operation on `region` that changed only headers of its
    /// own nodes or of page `e`, outside every other region's blocks, the
    /// other regions keep their free lists.
    proof fn lemma_others(k0: &KMM<M>, k1: &KMM<M>, region: MemoryRegion, e: int)
        requires
            k0.wf(),
            k1.spec_region(region).wf(&k1.spec_mem()),
            kept_nodes(&k0.spec_mem(), &k1.spec_mem(), k0.spec_region(region).nodes(), e),
            forall|r: MemoryRegion| r != region ==> #[trigger] k1.spec_region(r) == k0.spec_region(r),
            forall|r: MemoryRegion, j: int|
                r != region && 0 <= j < k0.spec_region(r).nodes().len() ==> #[trigger] k0.spec_region(r).nodes()[j] != e,
            forall|r: MemoryRegion| r != region ==> spec_apart(k1.free_blocks(region), #[trigger] k0.free_blocks(r)),
        ensures
            k1.wf(),
            forall|r: MemoryRegion| r != region ==> #[trigger] k1.free_blocks(r) == k0.free_blocks(r),
    {
        assert forall|r: MemoryRegion| r != region implies #[trigger] k1.free_blocks(r) == k0.free_blocks(r)
            && k1.spec_region(r).wf(&k1.spec_mem()) by {
            let rr = k0.spec_region(r);
            assert(spec_apart(k0.free_blocks(region), k0.free_blocks(r)));
            lemma_apart_nodes(&k0.spec_region(region), &rr, &k0.spec_mem());
            assert forall|j: int| 0 <= j < rr.nodes().len() implies !in_nodes(k0.spec_region(region).nodes(), #[trigger] rr.nodes()[j] as int)
                && rr.nodes()[j] != e by {
                assert(k0.spec_region(r).nodes()[j] != e);
            }
            lemma_untouched(&rr, &k0.spec_mem(), &k1.spec_mem(), k0.spec_region(region).nodes(), e);
        }
        assert forall|x: MemoryRegion| #[trigger] k1.spec_region(x).wf(&k1.spec_mem()) by {
            if x != region {
                assert(k1.free_blocks(x) == k0.free_blocks(x));
            }
        }
        assert forall|r1: MemoryRegion, r2: MemoryRegion| r1 != r2 implies spec_apart(#[trigger] k1.free_blocks(r1), #[trigger] k1.free_blocks(r2)) by {
            if r1 == region {
                assert(k1.free_blocks(r2) == k0.free_blocks(r2));
            } else if r2 == region {
                assert(k1.free_blocks(r1) == k0.free_blocks(r1));
                lemma_apart_sym(k1.free_blocks(region), k0.free_blocks(r1));
            } else {
                assert(k1.free_blocks(r1) == k0.free_blocks(r1));
                assert(k1.free_blocks(r2) == k0.free_blocks(r2));
                assert(spec_apart(k0.free_blocks(r1), k0.free_blocks(r2)));
            }
        }
    }
}

impl<M: Memory> KMM<M> {
    /// Makes the `pages` pages at `addr` the one free block of `region`.
    /// `addr` is page aligned and above the first page; the pages lie
    /// outside the free blocks of the other regions.
    pub fn init_region(&mut self, region: MemoryRegion, addr: u32, pages: u32)
        requires
            old(self).wf(),
            addr % 4096 == 0,
            addr >= 4096,
            addr as int / 4096 + pages <= 0x100000,
            header_mapped(&old(self).spec_mem(), addr as int / 4096),
            pages_mapped(&old(self).spec_mem(), addr as int / 4096, pages as int),
            forall|r: MemoryRegion| r != region ==> spec_outside(#[trigger] old(self).free_blocks(r), addr as int / 4096, pages as int),
        ensures
            final(self).wf(),
            final(self).free_blocks(region) == seq![(addr as int / 4096, pages as int)],
            forall|r: MemoryRegion| r != region ==> #[trigger] final(self).free_blocks(r) == old(self).free_blocks(r),
    {
        let ghost k0 = *self;
        let ghost p = addr as int / 4096;
        match region {
            MemoryRegion::App => self.region_app.init(&mut self.mem, addr, pages),
            MemoryRegion::System => self.region_system.init(&mut self.mem, addr, pages),
            MemoryRegion::Base => self.region_base.init(&mut self.mem, addr, pages),
        }
        proof {
            lemma_stored_kept(&k0.spec_mem(), &self.spec_mem(), p, pages, 0, 0, k0.spec_region(region).nodes(), p);
            assert forall|r: MemoryRegion, j: int| r != region && 0 <= j < k0.spec_region(r).nodes().len()
                implies #[trigger] k0.spec_region(r).nodes()[j] != p by {
                assert(k0.free_blocks(r)[j].0 == k0.spec_region(r).nodes()[j]);
            }
            assert forall|r: MemoryRegion| r != region implies spec_apart(self.free_blocks(region), #[trigger] k0.free_blocks(r)) by {
                let y = k0.free_blocks(r);
                assert forall|i: int, j: int| 0 <= i < self.free_blocks(region).len() && 0 <= j < y.len()
                    implies separated(#[trigger] self.free_blocks(region)[i], #[trigger] y[j]) by {
                    assert(separated(y[j], (p, pages as int)));
                }
            }
            KMM::lemma_others(&k0, self, region, p);
        }
    }

    /// Takes `pages` pages from the first free block of `region` that has
    /// that many and gives the block's page number; `None` when no block is
    /// large enough. The pages come off the free list only when the block
    /// is the region's first.
    pub fn allocate_linear(&mut self, region: MemoryRegion, pages: u32) -> (r: Option<u32>)
        requires
            old(self).wf(),
        ensures
            final(self).wf(),
            r is None <==> forall|j: int| 0 <= j < old(self).free_blocks(region).len() ==> (#[trigger] old(self).free_blocks(region)[j]).1 < pages,
            r is None ==> *final(self) == *old(self),
            r matches Some(page) ==> exists|i: int|
                #[trigger] spec_first_fit(old(self).free_blocks(region), pages as int, i) && page == old(self).free_blocks(region)[i].0
                    && final(self).free_blocks(region) == spec_after_alloc(old(self).free_blocks(region), i, pages as int),
            forall|x: MemoryRegion| x != region ==> #[trigger] final(self).free_blocks(x) == old(self).free_blocks(x),
    {
        let ghost k0 = *self;
        proof {
            assert(self.spec_region(MemoryRegion::App).wf(&self.spec_mem()));
            assert(self.spec_region(MemoryRegion::System).wf(&self.spec_mem()));
            assert(self.spec_region(MemoryRegion::Base).wf(&self.spec_mem()));
        }
        let r = match region {
            MemoryRegion::App => self.region_app.allocate(&mut self.mem, pages),
            MemoryRegion::System => self.region_system.allocate(&mut self.mem, pages),
            MemoryRegion::Base => self.region_base.allocate(&mut self.mem, pages),
        };
        proof {
            let x0 = k0.free_blocks(region);
            match r {
                None => {
                    assert(*self == k0);
                },
                Some(page) => {
                    let i = choose|i: int|
                        spec_first_fit(x0, pages as int, i) && page == x0[i].0 && self.free_blocks(region) == spec_after_alloc(x0, i, pages as int)
                            && kept_nodes(&k0.spec_mem(), &self.spec_mem(), Seq::empty(), x0[i].0 + pages)
                            && (pages < x0[i].1 || self.spec_mem() == k0.spec_mem());
                    let e = x0[i].0 + pages;
                    let an = k0.spec_region(region).nodes();
                    assert(kept_nodes(&k0.spec_mem(), &self.spec_mem(), an, e));
                    assert forall|x: MemoryRegion, j: int| x != region && 0 <= j < k0.spec_region(x).nodes().len()
                        implies #[trigger] k0.spec_region(x).nodes()[j] != e || self.spec_mem() == k0.spec_mem() by {
                        assert(k0.free_blocks(x)[j].0 == k0.spec_region(x).nodes()[j]);
                        assert(separated(x0[i], k0.free_blocks(x)[j]));
                    }
                    assert forall|x: MemoryRegion| x != region implies spec_apart(self.free_blocks(region), #[trigger] k0.free_blocks(x)) by {
                        lemma_apart_alloc(x0, i, pages as int, k0.free_blocks(x));
                    }
                    if self.spec_mem() == k0.spec_mem() {
                        assert forall|x: MemoryRegion| x != region implies #[trigger] self.free_blocks(x) == k0.free_blocks(x) by {}
                        assert forall|x: MemoryRegion| #[trigger] self.spec_region(x).wf(&self.spec_mem()) by {
                            if x != region {
                                assert(k0.spec_region(x).wf(&k0.spec_mem()));
                            }
                        }
                        assert forall|r1: MemoryRegion, r2: MemoryRegion| r1 != r2 implies spec_apart(#[trigger] self.free_blocks(r1), #[trigger] self.free_blocks(r2)) by {
                            if r1 == region {
                            } else if r2 == region {
                                lemma_apart_sym(self.free_blocks(region), k0.free_blocks(r1));
                            } else {
                                assert(spec_apart(k0.free_blocks(r1), k0.free_blocks(r2)));
                            }
                        }
                    } else {
                        KMM::lemma_others(&k0, self, region, e);
                    }
                },
            }
        }
        r
    }

    /// Puts the `pages` pages at `addr`, which lie outside the free blocks
    /// of every region, back on the free list of `region` in address
    /// order, joined with the free blocks right before and after them
    /// where adjacent.
    pub fn free(&mut self, region: MemoryRegion, addr: u32, pages: u32)
        requires
            old(self).wf(),
            addr % 4096 == 0,
            addr >= 4096,
            addr as int / 4096 + pages <= 0x100000,
            header_mapped(&old(self).spec_mem(), addr as int / 4096),
            pages_mapped(&old(self).spec_mem(), addr as int / 4096, pages as int),
            forall|r: MemoryRegion| spec_outside(#[trigger] old(self).free_blocks(r), addr as int / 4096, pages as int),
        ensures
            final(self).wf(),
            exists|k: int|
                #[trigger] spec_insert_pos(old(self).free_blocks(region), addr as int / 4096, k)
                    && final(self).free_blocks(region) == spec_freed(old(self).free_blocks(region), k, addr as int / 4096, pages as int),
            forall|x: MemoryRegion| x != region ==> #[trigger] final(self).free_blocks(x) == old(self).free_blocks(x),
    {
        let ghost k0 = *self;
        let ghost p = addr as int / 4096;
        proof {
            assert(self.spec_region(MemoryRegion::App).wf(&self.spec_mem()));
            assert(self.spec_region(MemoryRegion::System).wf(&self.spec_mem()));
            assert(self.spec_region(MemoryRegion::Base).wf(&self.spec_mem()));
            assert(spec_outside(self.free_blocks(MemoryRegion::App), p, pages as int));
            assert(spec_outside(self.free_blocks(MemoryRegion::System), p, pages as int));
            assert(spec_outside(self.free_blocks(MemoryRegion::Base), p, pages as int));
        }
        match region {
            MemoryRegion::App => self.region_app.free(&mut self.mem, addr, pages),
            MemoryRegion::System => self.region_system.free(&mut self.mem, addr, pages),
            MemoryRegion::Base => self.region_base.free(&mut self.mem, addr, pages),
        }
        proof {
            let x0 = k0.free_blocks(region);
            assert(spec_outside(x0, p, pages as int));
            let k = choose|k: int|
                #[trigger] spec_insert_pos(x0, p, k) && self.free_blocks(region) == spec_freed(x0, k, p, pages as int);
            assert forall|x: MemoryRegion, j: int| x != region && 0 <= j < k0.spec_region(x).nodes().len()
                implies #[trigger] k0.spec_region(x).nodes()[j] != p by {
                assert(k0.free_blocks(x)[j].0 == k0.spec_region(x).nodes()[j]);
                assert(spec_outside(k0.free_blocks(x), p, pages as int));
            }
            assert forall|x: MemoryRegion| x != region implies spec_apart(self.free_blocks(region), #[trigger] k0.free_blocks(x)) by {
                assert(spec_apart(x0, k0.free_blocks(x)));
                lemma_apart_freed(x0, k, p, pages as int, k0.free_blocks(x));
            }
            KMM::lemma_others(&k0, self, region, p);
        }
    }
}

/// The pages that a list of free blocks covers.
pub open spec fn spec_pages(blocks: Seq<(int, int)>) -> Set<int> {
    Set::new(|q: int| exists|i: int| 0 <= i < blocks.len() && #[trigger] blocks[i].0 <= q < blocks[i].0 + blocks[i].1)
}

/// The pages `p .. p + n`.
pub open spec fn spec_range(p: int, n: int) -> Set<int> {
    Set::new(|q: int| p <= q < p + n)
}

/// Joining two adjacent free blocks covers the same pages.
pub proof fn lemma_merge_keeps_pages(x: Seq<(int, int)>, i: int)
    requires
        forall|j: int| 0 <= j < x.len() ==> (#[trigger] x[j]).1 >= 0,
    ensures
        spec_pages(spec_merge_at(x, i)) == spec_pages(x),
        forall|j: int| 0 <= j < spec_merge_at(x, i).len() ==> (#[trigger] spec_merge_at(x, i)[j]).1 >= 0,
{
    let z = spec_merge_at(x, i);
    if 0 <= i && i + 1 < x.len() && x[i].0 + x[i].1 == x[i + 1].0 {
        assert forall|q: int| #[trigger] spec_pages(z).contains(q) == spec_pages(x).contains(q) by {
            if spec_pages(z).contains(q) {
                let a = choose|a: int| 0 <= a < z.len() && #[trigger] z[a].0 <= q < z[a].0 + z[a].1;
                if a < i {
                    assert(x[a] == z[a]);
                } else if a == i {
                    if q < x[i].0 + x[i].1 {
                        assert(x[i].0 <= q < x[i].0 + x[i].1);
                    } else {
                        assert(x[i + 1].0 <= q < x[i + 1].0 + x[i + 1].1);
                    }
                } else {
                    assert(x[a + 1] == z[a]);
                }
            }
            if spec_pages(x).contains(q) {
                let a = choose|a: int| 0 <= a < x.len() && #[trigger] x[a].0 <= q < x[a].0 + x[a].1;
                if a < i {
                    assert(z[a] == x[a]);
                } else if a == i || a == i + 1 {
                    assert(z[i].0 <= q < z[i].0 + z[i].1);
                } else {
                    assert(z[a - 1] == x[a]);
                }
            }
        }
        assert(spec_pages(z) =~= spec_pages(x));
    }
}

/// Freeing pages adds exactly them to the pages that the free blocks
/// cover, whatever neighbours they were joined with.
pub proof fn law_free_adds_pages(blocks: Seq<(int, int)>, k: int, p: int, n: int)
    requires
        0 <= k <= blocks.len(),
        n >= 0,
        forall|j: int| 0 <= j < blocks.len() ==> (#[trigger] blocks[j]).1 >= 0,
    ensures
        spec_pages(spec_freed(blocks, k, p, n)) == spec_pages(blocks).union(spec_range(p, n)),
{
    let z = blocks.insert(k, (p, n));
    assert forall|q: int| #[trigger] spec_pages(z).contains(q) == spec_pages(blocks).union(spec_range(p, n)).contains(q) by {
        if spec_pages(z).contains(q) {
            let a = choose|a: int| 0 <= a < z.len() && #[trigger] z[a].0 <= q < z[a].0 + z[a].1;
            if a < k {
                assert(blocks[a] == z[a]);
            } else if a > k {
                assert(blocks[a - 1] == z[a]);
            }
        }
        if spec_pages(blocks).contains(q) {
            let a = choose|a: int| 0 <= a < blocks.len() && #[trigger] blocks[a].0 <= q < blocks[a].0 + blocks[a].1;
            if a < k {
                assert(z[a] == blocks[a]);
            } else {
                assert(z[a + 1] == blocks[a]);
            }
        }
        if spec_range(p, n).contains(q) {
            assert(z[k].0 <= q < z[k].0 + z[k].1);
        }
    }
    assert(spec_pages(z) =~= spec_pages(blocks).union(spec_range(p, n)));
    assert forall|j: int| 0 <= j < z.len() implies (#[trigger] z[j]).1 >= 0 by {
        if j < k { assert(z[j] == blocks[j]); } else if j > k { assert(z[j] == blocks[j - 1]); }
    }
    lemma_merge_keeps_pages(z, k);
    if k > 0 {
        lemma_merge_keeps_pages(spec_merge_at(z, k), k - 1);
    }
}

/// Taking pages from the first free block, when some of it is left, takes
/// exactly those pages off the pages that the free blocks cover.
pub proof fn law_alloc_takes_pages(blocks: Seq<(int, int)>, pages: int)
    requires
        blocks.len() > 0,
        0 <= pages < blocks[0].1,
        forall|j: int| 1 <= j < blocks.len() ==> blocks[0].0 + blocks[0].1 <= (#[trigger] blocks[j]).0,
    ensures
        spec_pages(spec_after_alloc(blocks, 0, pages)) == spec_pages(blocks).difference(spec_range(blocks[0].0, pages)),
{
    let z = spec_after_alloc(blocks, 0, pages);
    let r = spec_range(blocks[0].0, pages);
    assert forall|q: int| #[trigger] spec_pages(z).contains(q) == spec_pages(blocks).difference(r).contains(q) by {
        if spec_pages(z).contains(q) {
            let a = choose|a: int| 0 <= a < z.len() && #[trigger] z[a].0 <= q < z[a].0 + z[a].1;
            if a == 0 {
                assert(blocks[0].0 <= q < blocks[0].0 + blocks[0].1);
            } else {
                assert(z[a] == blocks[a]);
            }
        }
        if spec_pages(blocks).difference(r).contains(q) {
            let a = choose|a: int| 0 <= a < blocks.len() && #[trigger] blocks[a].0 <= q < blocks[a].0 + blocks[a].1;
            if a == 0 {
                assert(z[0].0 <= q < z[0].0 + z[0].1);
            } else {
                assert(z[a] == blocks[a]);
            }
        }
    }
    assert(spec_pages(z) =~= spec_pages(blocks).difference(r));
}

/// Freeing the pages just taken from the first free block, when some of it
/// was left, gives back the free blocks as they were.
pub proof fn law_free_undoes_alloc(blocks: Seq<(int, int)>, pages: int)
    requires
        blocks.len() > 0,
        0 < pages < blocks[0].1,
        forall|j: int| 1 <= j < blocks.len() ==> blocks[0].0 + blocks[0].1 <= (#[trigger] blocks[j]).0,
    ensures
        spec_insert_pos(spec_after_alloc(blocks, 0, pages), blocks[0].0, 0),
        spec_freed(spec_after_alloc(blocks, 0, pages), 0, blocks[0].0, pages) == blocks,
{
    let z = spec_after_alloc(blocks, 0, pages);
    assert forall|i: int| 0 <= i < z.len() implies (#[trigger] z[i]).0 > blocks[0].0 by {
        if i > 0 {
            assert(z[i] == blocks[i]);
        }
    }
    let y = z.insert(0, (blocks[0].0, pages));
    assert(y[0].0 + y[0].1 == y[1].0);
    assert(spec_merge_at(y, 0) =~= blocks);
}

/// A region that is one free block gets that block back when the pages just
/// taken from it, some or all, are freed.
pub proof fn law_free_restores_single_block(blocks: Seq<(int, int)>, pages: int)
    requires
        blocks.len() == 1,
        0 < pages <= blocks[0].1,
    ensures
        spec_insert_pos(spec_after_alloc(blocks, 0, pages), blocks[0].0, 0),
        spec_freed(spec_after_alloc(blocks, 0, pages), 0, blocks[0].0, pages) == blocks,
{
    if pages < blocks[0].1 {
        law_free_undoes_alloc(blocks, pages);
    } else {
        let z = spec_after_alloc(blocks, 0, pages);
        assert(z =~= Seq::<(int, int)>::empty());
        assert(z.insert(0, (blocks[0].0, pages)) =~= blocks);
    }
}

} // verus!
