//! Emulated memory: pages, page-backed physical memory, and a virtual
//! address space assembled from page spans.

use vstd::prelude::*;
use crate::le::{
    le_bytes, le_bytes16, le_bytes64, le_u16_at, le_u32_at, le_u64_at, lemma_le_roundtrip, read_u16_le, read_u32_le, read_u64_le,
    u16_to_le, u32_to_le, u64_to_le,
};

verus! {

/// The size of a page in bytes.
pub const PAGE_SIZE: u32 = 0x1000;

/// One page of memory.
pub struct Page(pub [u8; 4096]);

impl Page {
    /// A page filled with zero bytes.
    pub fn zero() -> (r: Page)
        ensures
            forall|i: int| 0 <= i < 4096 ==> r.0@[i] == 0,
    {
        Page([0u8; 4096])
    }
}

/// Whether `len` bytes from `addr` are all mapped.
pub open spec fn range_mapped<M: Memory>(m: &M, addr: int, len: int) -> bool {
    forall|i: int| 0 <= i < len ==> #[trigger] m.spec_mapped(addr + i)
}

/// The `len` bytes that `m` holds from `addr`.
pub open spec fn bytes_at<M: Memory>(m: &M, addr: int, len: nat) -> Seq<u8> {
    Seq::new(len, |i: int| m.spec_byte(addr + i))
}

/// Whether `after` is `before` with `bytes` stored at `addr`.
pub open spec fn stored<M: Memory>(before: &M, after: &M, addr: int, bytes: Seq<u8>) -> bool {
    &&& forall|a: int| #[trigger] after.spec_mapped(a) == before.spec_mapped(a)
    &&& forall|a: int|
        #[trigger] after.spec_byte(a) == if addr <= a < addr + bytes.len() {
            bytes[a - addr]
        } else {
            before.spec_byte(a)
        }
}

/// A byte-addressed memory. A read gives back what the last write to the
/// same addresses stored.
pub trait Memory: Sized {
    /// Whether the byte at `addr` exists.
    spec fn spec_mapped(&self, addr: int) -> bool;

    /// The byte at `addr`.
    spec fn spec_byte(&self, addr: int) -> u8;

    /// The number of pages this memory spans (zero where it has no size
    /// of its own).
    spec fn spec_size_in_pages(&self) -> u32;

    /// The number of pages this memory spans (zero where it has no size
    /// of its own).
    fn size_in_pages(&self) -> (r: u32)
        ensures
            r == self.spec_size_in_pages(),
    ;

    /// Fills `bytes` with the memory from `addr` on.
    fn read(&self, addr: u32, bytes: &mut Vec<u8>)
        requires
            forall|i: int| 0 <= i < old(bytes)@.len() ==> #[trigger] self.spec_mapped(addr + i),
        ensures
            final(bytes)@.len() == old(bytes)@.len(),
            forall|i: int| 0 <= i < old(bytes)@.len() ==> #[trigger] final(bytes)@[i] == self.spec_byte(addr + i),
    ;

    /// Stores `bytes` from `addr` on.
    fn write(&mut self, addr: u32, bytes: &[u8])
        requires
            forall|i: int| 0 <= i < bytes@.len() ==> #[trigger] old(self).spec_mapped(addr + i),
        ensures
            forall|a: int| #[trigger] final(self).spec_mapped(a) == old(self).spec_mapped(a),
            forall|a: int|
                #[trigger] final(self).spec_byte(a) == if addr <= a < addr + bytes@.len() {
                    bytes@[a - addr]
                } else {
                    old(self).spec_byte(a)
                },
    ;
}

/// The byte at `addr`.
pub fn read_u8<M: Memory>(m: &M, addr: u32) -> (r: u8)
    requires
        m.spec_mapped(addr as int),
    ensures
        r == m.spec_byte(addr as int),
{
    let mut data: Vec<u8> = vec![0u8];
    m.read(addr, &mut data);
    assert(data@[0] == m.spec_byte(addr + 0));
    data[0]
}

/// The little-endian word at `addr`.
pub fn read_u32<M: Memory>(m: &M, addr: u32) -> (r: u32)
    requires
        range_mapped(m, addr as int, 4),
    ensures
        r == le_u32_at(bytes_at(m, addr as int, 4), 0),
{
    let mut data: Vec<u8> = vec![0u8, 0u8, 0u8, 0u8];
    m.read(addr, &mut data);
    assert(data@ =~= bytes_at(m, addr as int, 4));
    read_u32_le(data.as_slice())
}

/// The little-endian halfword at `addr`.
pub fn read_u16<M: Memory>(m: &M, addr: u32) -> (r: u16)
    requires
        range_mapped(m, addr as int, 2),
    ensures
        r == le_u16_at(bytes_at(m, addr as int, 2), 0),
{
    let mut data: Vec<u8> = vec![0u8, 0u8];
    m.read(addr, &mut data);
    assert(data@ =~= bytes_at(m, addr as int, 2));
    read_u16_le(data.as_slice())
}

/// The little-endian doubleword at `addr`.
pub fn read_u64<M: Memory>(m: &M, addr: u32) -> (r: u64)
    requires
        range_mapped(m, addr as int, 8),
    ensures
        r == le_u64_at(bytes_at(m, addr as int, 8), 0),
{
    let mut data: Vec<u8> = vec![0u8, 0u8, 0u8, 0u8, 0u8, 0u8, 0u8, 0u8];
    m.read(addr, &mut data);
    assert(data@ =~= bytes_at(m, addr as int, 8));
    read_u64_le(data.as_slice())
}

/// Stores the little-endian bytes of `value` at `addr`.
pub fn write_u16<M: Memory>(m: &mut M, addr: u32, value: u16)
    requires
        range_mapped(old(m), addr as int, 2),
    ensures
        stored(old(m), final(m), addr as int, le_bytes16(value)),
{
    let data = u16_to_le(value);
    m.write(addr, data.as_slice());
}

/// Stores the little-endian bytes of `value` at `addr`.
pub fn write_u64<M: Memory>(m: &mut M, addr: u32, value: u64)
    requires
        range_mapped(old(m), addr as int, 8),
    ensures
        stored(old(m), final(m), addr as int, le_bytes64(value)),
{
    let data = u64_to_le(value);
    m.write(addr, data.as_slice());
}

/// What a read gives back of a write: the bytes written, and elsewhere
/// what was there before.
pub proof fn law_read_after_write<M: Memory>(before: &M, after: &M, addr: int, bytes: Seq<u8>, a: int, n: nat)
    requires
        stored(before, after, addr, bytes),
    ensures
        bytes_at(after, addr, bytes.len()) == bytes,
        (a + n <= addr || addr + bytes.len() <= a) ==> bytes_at(after, a, n) == bytes_at(before, a, n),
{
    assert(bytes_at(after, addr, bytes.len()) =~= bytes);
    if a + n <= addr || addr + bytes.len() <= a {
        assert(bytes_at(after, a, n) =~= bytes_at(before, a, n));
    }
}

/// Stores one byte at `addr`.
pub fn write_u8<M: Memory>(m: &mut M, addr: u32, value: u8)
    requires
        old(m).spec_mapped(addr as int),
    ensures
        stored(old(m), final(m), addr as int, seq![value]),
{
    let data: [u8; 1] = [value];
    assert(data@ =~= seq![value]);
    m.write(addr, data.as_slice());
}

/// Stores the little-endian bytes of `value` at `addr`.
pub fn write_u32<M: Memory>(m: &mut M, addr: u32, value: u32)
    requires
        range_mapped(old(m), addr as int, 4),
    ensures
        stored(old(m), final(m), addr as int, le_bytes(value)),
{
    let data = u32_to_le(value);
    m.write(addr, data.as_slice());
}

/// A read of four bytes after a write of a word's bytes gives the word.
pub proof fn lemma_word_stored<M: Memory>(before: &M, after: &M, addr: int, value: u32)
    requires
        stored(before, after, addr, le_bytes(value)),
    ensures
        le_u32_at(bytes_at(after, addr, 4), 0) == value,
{
    lemma_le_roundtrip(value);
    assert(bytes_at(after, addr, 4) =~= le_bytes(value));
}

/// A borrowed run of pages.
pub struct PageSlice<'a>(pub &'a [Page]);

impl<'a> PageSlice<'a> {
    /// The size of the run in bytes.
    pub fn size_in_bytes(&self) -> (r: u32)
        requires
            self.0@.len() * 4096 <= u32::MAX,
        ensures
            r == self.0@.len() * 4096,
    {
        (self.0.len() as u32) * 0x1000
    }

    /// The pages of the run.
    pub fn pages(&self) -> (r: &'a [Page])
        ensures
            r@ == self.0@,
    {
        self.0
    }

    /// The number of pages in the run (saturating at `u32::MAX`).
    pub fn size_in_pages(&self) -> (r: u32)
        ensures
            r == if self.0@.len() <= u32::MAX { self.0@.len() as u32 } else { u32::MAX },
    {
        let n = self.0.len();
        if n <= u32::MAX as usize { n as u32 } else { u32::MAX }
    }

    /// The byte at `addr`, counted from the start of the first page.
    pub open spec fn spec_byte(&self, addr: int) -> u8 {
        self.0@[addr / 4096].0@[addr % 4096]
    }

    /// Fills `bytes` with the run's bytes from `addr` on.
    pub fn read(&self, addr: u32, bytes: &mut Vec<u8>)
        requires
            addr + old(bytes)@.len() <= self.0@.len() * 4096,
            addr + old(bytes)@.len() <= 0x1_0000_0000,
        ensures
            final(bytes)@.len() == old(bytes)@.len(),
            forall|i: int| 0 <= i < old(bytes)@.len() ==> final(bytes)@[i] == self.spec_byte(addr + i),
    {
        let n = bytes.len();
        let mut i: usize = 0;
        while i < n
            invariant
                n == bytes@.len(),
                n == old(bytes)@.len(),
                i <= n,
                addr + n <= self.0@.len() * 4096,
                addr + n <= 0x1_0000_0000,
                forall|j: int| 0 <= j < i ==> bytes@[j] == self.spec_byte(addr + j),
            decreases n - i,
        {
            let a: u64 = addr as u64 + i as u64;
            let p = (a / 4096) as usize;
            let o = (a % 4096) as usize;
            bytes[i] = self.0[p].0[o];
            i = i + 1;
        }
    }
}

/// The byte at `addr` of a run of pages, counted from the start of the
/// first page.
pub open spec fn pages_byte(pages: Seq<Page>, addr: int) -> u8 {
    pages[addr / 4096].0@[addr % 4096]
}

/// Writes `bytes` into a run of pages from `addr` on, counted from the
/// start of the first page; whoever owns the pages sees the write.
pub fn write_pages(pages: &mut [Page], addr: u32, bytes: &[u8])
    requires
        addr + bytes@.len() <= old(pages)@.len() * 4096,
        addr + bytes@.len() <= 0x1_0000_0000,
    ensures
        final(pages)@.len() == old(pages)@.len(),
        forall|a: int| 0 <= a < old(pages)@.len() * 4096 ==> #[trigger] pages_byte(final(pages)@, a) == if addr <= a < addr
            + bytes@.len() {
            bytes@[a - addr]
        } else {
            pages_byte(old(pages)@, a)
        },
{
    let n = bytes.len();
    let ghost before = pages@;
    let mut i: usize = 0;
    while i < n
        invariant
            n == bytes@.len(),
            i <= n,
            addr + n <= before.len() * 4096,
            addr + n <= 0x1_0000_0000,
            pages@.len() == before.len(),
            forall|a: int| 0 <= a < before.len() * 4096 ==> #[trigger] pages_byte(pages@, a) == if addr <= a < addr + i {
                bytes@[a - addr]
            } else {
                pages_byte(before, a)
            },
        decreases n - i,
    {
        let a: u64 = addr as u64 + i as u64;
        let p = (a / 4096) as usize;
        let o = (a % 4096) as usize;
        assert(p < pages@.len()) by (nonlinear_arith)
            requires a < pages@.len() * 4096, p == a / 4096;
        let ghost mid = pages@;
        let mut page = Page(pages[p].0);
        page.0[o] = bytes[i];
        pages[p] = page;
        assert forall|x: int| 0 <= x < before.len() * 4096 implies #[trigger] pages_byte(pages@, x) == if addr <= x < addr + i
            + 1 {
            bytes@[x - addr]
        } else {
            pages_byte(before, x)
        } by {
            if x / 4096 == p as int && x % 4096 == o as int {
                assert(x == a) by (nonlinear_arith)
                    requires x / 4096 == p, x % 4096 == o, p == a / 4096, o == a % 4096;
            } else {
                assert(x != a as int);
                assert(pages_byte(pages@, x) == pages_byte(mid, x));
            }
        }
        i = i + 1;
    }
}

impl<'a> From<&'a [Page]> for PageSlice<'a> {
    fn from(pages: &'a [Page]) -> (r: PageSlice<'a>) {
        PageSlice(pages)
    }
}

impl<'a> vstd::std_specs::convert::FromSpecImpl<&'a [Page]> for PageSlice<'a> {
    open spec fn obeys_from_spec() -> bool {
        true
    }

    open spec fn from_spec(pages: &'a [Page]) -> PageSlice<'a> {
        PageSlice(pages)
    }
}

/// Memory made of pages, addressed from zero.
pub struct PhysicalMemory(pub Vec<Page>);

impl PhysicalMemory {
    /// `pages` pages of zero bytes.
    pub fn new(pages: u32) -> (r: PhysicalMemory)
        ensures
            r.0@.len() == pages,
            forall|a: int| 0 <= a < pages * 4096 ==> r.spec_byte(a) == 0,
    {
        let mut v: Vec<Page> = Vec::new();
        let mut i: u32 = 0;
        while i < pages
            invariant
                i <= pages,
                v@.len() == i,
                forall|p: int, o: int| 0 <= p < i && 0 <= o < 4096 ==> v@[p].0@[o] == 0,
            decreases pages - i,
        {
            v.push(Page::zero());
            i = i + 1;
        }
        let r = PhysicalMemory(v);
        assert forall|a: int| 0 <= a < pages * 4096 implies r.spec_byte(a) == 0 by {
            assert(0 <= a / 4096 < pages) by (nonlinear_arith)
                requires 0 <= a < pages * 4096;
        }
        r
    }

    /// The pages as a slice.
    pub fn slice(&self) -> (r: PageSlice<'_>)
        ensures
            r.0@ == self.0@,
    {
        PageSlice(self.0.as_slice())
    }

    /// The pages as a slice to write through: what is written there is
    /// what the memory then holds.
    pub fn slice_mut(&mut self) -> (r: &mut [Page])
        ensures
            r@ == old(self).0@,
            final(self).0@ == final(r)@,
    {
        self.0.as_mut_slice()
    }
}

impl Memory for PhysicalMemory {
    open spec fn spec_mapped(&self, addr: int) -> bool {
        0 <= addr < self.0@.len() * 4096 && addr <= u32::MAX
    }

    open spec fn spec_byte(&self, addr: int) -> u8 {
        if self.spec_mapped(addr) {
            self.0@[addr / 4096].0@[addr % 4096]
        } else {
            0
        }
    }

    open spec fn spec_size_in_pages(&self) -> u32 {
        if self.0@.len() <= u32::MAX { self.0@.len() as u32 } else { u32::MAX }
    }

    fn size_in_pages(&self) -> (r: u32) {
        let n = self.0.len();
        if n <= u32::MAX as usize { n as u32 } else { u32::MAX }
    }

    fn read(&self, addr: u32, bytes: &mut Vec<u8>) {
        let n = bytes.len();
        let mut i: usize = 0;
        while i < n
            invariant
                n == bytes@.len(),
                n == old(bytes)@.len(),
                i <= n,
                forall|j: int| 0 <= j < n ==> #[trigger] self.spec_mapped(addr + j),
                forall|j: int| 0 <= j < i ==> bytes@[j] == self.spec_byte(addr + j),
            decreases n - i,
        {
            assert(self.spec_mapped(addr + i));
            let a: u64 = addr as u64 + i as u64;
            let p = (a / 4096) as usize;
            let o = (a % 4096) as usize;
            assert(p < self.0@.len()) by (nonlinear_arith)
                requires a < self.0@.len() * 4096, p == a / 4096;
            bytes[i] = self.0[p].0[o];
            i = i + 1;
        }
    }

    fn write(&mut self, addr: u32, bytes: &[u8]) {
        let n = bytes.len();
        let ghost before = *self;
        let mut i: usize = 0;
        while i < n
            invariant
                n == bytes@.len(),
                i <= n,
                self.0@.len() == before.0@.len(),
                forall|j: int| 0 <= j < n ==> #[trigger] before.spec_mapped(addr + j),
                forall|a: int| #[trigger] self.spec_byte(a) == if addr <= a < addr + i {
                    bytes@[a - addr]
                } else {
                    before.spec_byte(a)
                },
            decreases n - i,
        {
            assert(before.spec_mapped(addr + i));
            let a: u64 = addr as u64 + i as u64;
            let p = (a / 4096) as usize;
            let o = (a % 4096) as usize;
            assert(p < self.0@.len()) by (nonlinear_arith)
                requires a < self.0@.len() * 4096, p == a / 4096;
            let ghost mid = *self;
            self.0[p].0[o] = bytes[i];
            assert forall|x: int| #[trigger] self.spec_byte(x) == if addr <= x < addr + i + 1 {
                bytes@[x - addr]
            } else {
                before.spec_byte(x)
            } by {
                if x / 4096 == p as int && x % 4096 == o as int {
                    assert(x == a) by (nonlinear_arith)
                        requires x / 4096 == p, x % 4096 == o, p == a / 4096, o == a % 4096;
                } else {
                    assert(x != a as int);
                    assert(self.spec_byte(x) == mid.spec_byte(x));
                }
            }
            i = i + 1;
        }
    }
}

/// What backs a span of virtual pages.
pub enum PageSpanKind<M: Memory> {
    /// Memory that the span's pages map onto, from its start.
    Normal { backing: M },
}

impl<M: Memory> PageSpanKind<M> {
    /// The memory behind the span.
    pub open spec fn spec_backing(&self) -> M {
        match self {
            PageSpanKind::Normal { backing } => *backing,
        }
    }
}

/// A run of virtual pages from `start`, `size` pages long, tagged with `tag`.
pub struct PageSpan<M: Memory, T: Clone> {
    pub start: u32,
    pub size: u32,
    pub kind: PageSpanKind<M>,
    pub tag: T,
}

/// A virtual address space made of spans of pages, each backed by a memory
/// of its own; the spans are kept sorted by their first page and do not
/// overlap.
pub struct VirtualMemory<M: Memory, T: Clone> {
    spans: Vec<PageSpan<M, T>>,
}

/// The span at `index` holds the page that a lookup asked for, `offset`
/// pages into it.
pub struct MemoryLookup {
    pub index: usize,
    pub offset: u32,
}

impl<M: Memory, T: Clone> VirtualMemory<M, T> {
    /// The spans, sorted by first page.
    pub closed spec fn spans(&self) -> Seq<PageSpan<M, T>> {
        self.spans@
    }

    /// The spans are sorted and do not overlap, and each ends at a page
    /// number that fits in 32 bits.
    pub open spec fn wf(&self) -> bool {
        &&& forall|i: int, j: int| 0 <= i < j < self.spans().len() ==> #[trigger] self.spans()[i].start < #[trigger] self.spans()[j].start
        &&& forall|i: int, j: int| 0 <= i < j < self.spans().len() ==> #[trigger] self.spans()[i].start + self.spans()[i].size <= #[trigger] self.spans()[j].start
        &&& forall|i: int| 0 <= i < self.spans().len() ==> #[trigger] self.spans()[i].start + self.spans()[i].size <= u32::MAX
    }

    /// Whether span `i` covers the byte at `a`.
    pub open spec fn covers(&self, i: int, a: int) -> bool {
        &&& 0 <= i < self.spans().len()
        &&& self.spans()[i].start * 4096 <= a < (self.spans()[i].start + self.spans()[i].size) * 4096
    }

    /// The span that covers the byte at `a`.
    pub open spec fn span_at(&self, a: int) -> int {
        choose|i: int| self.covers(i, a)
    }

    /// An address space with no spans.
    pub fn new() -> (r: VirtualMemory<M, T>)
        ensures
            r.wf(),
            r.spans().len() == 0,
    {
        VirtualMemory { spans: Vec::new() }
    }

    /// The last span whose first page is at or below `page`, if any.
    fn floor_index(&self, page: u32) -> (r: Option<usize>)
        requires
            self.wf(),
        ensures
            r matches Some(i) ==> i < self.spans().len() && self.spans()[i as int].start <= page && (i + 1 == self.spans().len()
                || self.spans()[i + 1].start > page),
            r is None ==> forall|j: int| 0 <= j < self.spans().len() ==> #[trigger] self.spans()[j].start > page,
    {
        let mut lo: usize = 0;
        let mut hi: usize = self.spans.len();
        while lo < hi
            invariant
                self.wf(),
                lo <= hi <= self.spans().len(),
                forall|j: int| 0 <= j < lo ==> #[trigger] self.spans()[j].start <= page,
                forall|j: int| hi <= j < self.spans().len() ==> #[trigger] self.spans()[j].start > page,
            decreases hi - lo,
        {
            let mid = lo + (hi - lo) / 2;
            if self.spans[mid].start <= page {
                proof {
                    assert forall|j: int| 0 <= j <= mid implies #[trigger] self.spans()[j].start <= page by {
                        if j < mid {
                            assert(self.spans()[j].start + self.spans()[j].size <= self.spans()[mid as int].start);
                        }
                    }
                }
                lo = mid + 1;
            } else {
                proof {
                    assert forall|j: int| mid <= j < self.spans().len() implies #[trigger] self.spans()[j].start > page by {
                        if j > mid {
                            assert(self.spans()[mid as int].start + self.spans()[mid as int].size <= self.spans()[j].start);
                        }
                    }
                }
                hi = mid;
            }
        }
        if lo == 0 {
            None
        } else {
            Some(lo - 1)
        }
    }

    /// The span that holds `page` and how far into it the page lies.
    fn lookup(&self, page: u32) -> (r: Option<MemoryLookup>)
        requires
            self.wf(),
        ensures
            r matches Some(l) ==> self.covers(l.index as int, page * 4096) && l.offset == page - self.spans()[l.index as int].start,
            r is None ==> forall|i: int| !#[trigger] self.covers(i, page * 4096),
    {
        match self.floor_index(page) {
            Some(i) => {
                let s = &self.spans[i];
                if (s.start as u64) + (s.size as u64) > page as u64 {
                    Some(MemoryLookup { index: i, offset: page - s.start })
                } else {
                    proof {
                        assert forall|j: int| !#[trigger] self.covers(j, page * 4096) by {
                            if 0 <= j < self.spans().len() {
                                if j < i {
                                    assert(self.spans()[j].start + self.spans()[j].size <= self.spans()[i as int].start);
                                } else if j > i {
                                    assert(self.spans()[j].start > page);
                                }
                            }
                        }
                    }
                    None
                }
            },
            None => None,
        }
    }
}

/// Whether `after` is `before` with `span` at position `k`: in place of the
/// span there when that one starts at the same page, else inserted.
pub open spec fn spec_placed<M: Memory, T: Clone>(before: Seq<PageSpan<M, T>>, after: Seq<PageSpan<M, T>>, k: int, span: PageSpan<M, T>) -> bool {
    &&& 0 <= k <= before.len()
    &&& if k < before.len() && before[k].start == span.start {
        after == before.update(k, span)
    } else {
        after == before.insert(k, span)
    }
}

impl<M: Memory, T: Clone> VirtualMemory<M, T> {
    /// Two spans never cover the same byte.
    pub proof fn lemma_covers_unique(&self, i: int, j: int, a: int)
        requires
            self.wf(),
            self.covers(i, a),
            self.covers(j, a),
        ensures
            i == j,
    {
        if i < j {
            assert(self.spans()[i].start + self.spans()[i].size <= self.spans()[j].start);
        } else if j < i {
            assert(self.spans()[j].start + self.spans()[j].size <= self.spans()[i].start);
        }
    }

    /// Maps the pages of `mem` at the page of `addr`, replacing a span that
    /// starts at the same page. The new span overlaps no other span.
    pub fn map_memory(&mut self, addr: u32, mem: M, tag: T)
        requires
            old(self).wf(),
            old(self).spans().len() < usize::MAX,
            addr / 4096 + mem.spec_size_in_pages() <= u32::MAX,
            forall|i: int|
                0 <= i < old(self).spans().len() && #[trigger] old(self).spans()[i].start != addr / 4096 ==> old(self).spans()[i].start
                    + old(self).spans()[i].size <= addr / 4096 || addr / 4096 + mem.spec_size_in_pages() <= old(self).spans()[i].start,
        ensures
            final(self).wf(),
            exists|k: int|
                #[trigger] spec_placed(
                    old(self).spans(),
                    final(self).spans(),
                    k,
                    PageSpan { start: (addr / 4096) as u32, size: mem.spec_size_in_pages(), kind: PageSpanKind::Normal { backing: mem }, tag },
                ),
    {
        let page = addr >> 12u32;
        proof {
            assert(addr >> 12u32 == addr / 4096) by (bit_vector);
        }
        let size = mem.size_in_pages();
        let span = PageSpan { start: page, size, kind: PageSpanKind::Normal { backing: mem }, tag };
        let ghost old_spans = self.spans();
        match self.floor_index(page) {
            Some(i) => {
                if self.spans[i].start == page {
                    self.spans.set(i, span);
                    proof {
                        assert forall|a: int, b: int| 0 <= a < b < self.spans().len() implies #[trigger] self.spans()[a].start
                            + self.spans()[a].size <= #[trigger] self.spans()[b].start by {
                            if a == i {
                                assert(old_spans[b].start != page);
                            } else if b == i {
                                assert(old_spans[a].start + old_spans[a].size <= old_spans[i as int].start);
                            }
                        }
                        assert(spec_placed(old_spans, self.spans(), i as int, span));
                    }
                } else {
                    self.spans.insert(i + 1, span);
                    proof {
                        assert forall|a: int, b: int| 0 <= a < b < self.spans().len() implies #[trigger] self.spans()[a].start
                            + self.spans()[a].size <= #[trigger] self.spans()[b].start by {
                            if a <= i && b == i + 1 {
                                assert(old_spans[a].start <= page);
                                if a < i {
                                    assert(old_spans[a].start + old_spans[a].size <= old_spans[i as int].start);
                                }
                                assert(old_spans[a].start != page);
                            } else if a == i + 1 {
                                assert(old_spans[b - 1].start > page);
                                assert(old_spans[b - 1].start != page);
                            } else if a <= i && b > i + 1 {
                                assert(old_spans[a].start + old_spans[a].size <= old_spans[b - 1].start);
                            } else if a > i + 1 {
                                assert(old_spans[a - 1].start + old_spans[a - 1].size <= old_spans[b - 1].start);
                            }
                        }
                        assert forall|a: int, b: int| 0 <= a < b < self.spans().len() implies #[trigger] self.spans()[a].start
                            < #[trigger] self.spans()[b].start by {
                            if a <= i && b == i + 1 {
                                assert(old_spans[a].start <= page);
                                if a < i { assert(old_spans[a].start < old_spans[i as int].start); }
                            } else if a == i + 1 {
                                assert(old_spans[b - 1].start > page);
                            } else if a <= i && b > i + 1 {
                                assert(old_spans[a].start < old_spans[b - 1].start);
                            } else if a > i + 1 {
                                assert(old_spans[a - 1].start < old_spans[b - 1].start);
                            }
                        }
                        assert(i + 1 < old_spans.len() ==> old_spans[i + 1].start != page);
                        assert(spec_placed(old_spans, self.spans(), i + 1, span));
                    }
                }
            },
            None => {
                self.spans.insert(0, span);
                proof {
                    assert forall|a: int, b: int| 0 <= a < b < self.spans().len() implies #[trigger] self.spans()[a].start
                        + self.spans()[a].size <= #[trigger] self.spans()[b].start by {
                        if a == 0 {
                            assert(old_spans[b - 1].start > page);
                            assert(old_spans[b - 1].start != page);
                        } else {
                            assert(old_spans[a - 1].start + old_spans[a - 1].size <= old_spans[b - 1].start);
                        }
                    }
                    assert forall|a: int, b: int| 0 <= a < b < self.spans().len() implies #[trigger] self.spans()[a].start
                        < #[trigger] self.spans()[b].start by {
                        if a == 0 {
                            assert(old_spans[b - 1].start > page);
                        } else {
                            assert(old_spans[a - 1].start < old_spans[b - 1].start);
                        }
                    }
                    assert(0 < old_spans.len() ==> old_spans[0].start != page);
                    assert(spec_placed(old_spans, self.spans(), 0, span));
                }
            },
        }
    }
}

proof fn lemma_split_address(a: u32)
    ensures
        a >> 12u32 == a / 4096,
        a & 0xFFFu32 == a % 4096,
        a == (a / 4096) * 4096 + a % 4096,
{
    assert(a >> 12u32 == a / 4096) by (bit_vector);
    assert(a & 0xFFFu32 == a % 4096) by (bit_vector);
}

impl<M: Memory, T: Clone> VirtualMemory<M, T> {
    /// The memory behind span `i`.
    pub open spec fn backing(&self, i: int) -> M {
        self.spans()[i].kind.spec_backing()
    }

    /// The address within span `i`'s memory of the byte at `a`.
    pub open spec fn rel(&self, i: int, a: int) -> int {
        a - self.spans()[i].start * 4096
    }

    /// Where the chunk of a transfer at `a` lies: the span that covers `a`,
    /// the address in its memory, and how many bytes of the span are left
    /// from there.
    fn chunk(&self, a: u32) -> (r: (usize, u32, u64))
        requires
            self.wf(),
            exists|i: int| #[trigger] self.covers(i, a as int),
        ensures
            self.covers(r.0 as int, a as int),
            r.1 == self.rel(r.0 as int, a as int),
            r.2 == (self.spans()[r.0 as int].start + self.spans()[r.0 as int].size) * 4096 - a,
            r.2 >= 1,
    {
        let ghost i = choose|i: int| self.covers(i, a as int);
        proof {
            lemma_split_address(a);
        }
        let page = a >> 12u32;
        let page_offset = a & 0xFFFu32;
        proof {
            assert(self.covers(i, page * 4096));
        }
        let l = self.lookup(page).unwrap();
        proof {
            self.lemma_covers_unique(l.index as int, i, page * 4096);
        }
        let s = &self.spans[l.index];
        let item_bytes: u64 = ((s.size - l.offset) as u64) * 4096 - page_offset as u64;
        let rel: u32 = l.offset * 4096 + page_offset;
        (l.index, rel, item_bytes)
    }
}

impl<M: Memory, T: Clone> Memory for VirtualMemory<M, T> {
    open spec fn spec_mapped(&self, addr: int) -> bool {
        &&& self.wf()
        &&& 0 <= addr <= u32::MAX
        &&& exists|i: int| #[trigger] self.covers(i, addr) && self.backing(i).spec_mapped(self.rel(i, addr))
    }

    open spec fn spec_byte(&self, addr: int) -> u8 {
        if exists|i: int| #[trigger] self.covers(i, addr) {
            self.backing(self.span_at(addr)).spec_byte(self.rel(self.span_at(addr), addr))
        } else {
            0
        }
    }

    open spec fn spec_size_in_pages(&self) -> u32 {
        0
    }

    fn size_in_pages(&self) -> (r: u32) {
        0
    }

    fn read(&self, addr: u32, bytes: &mut Vec<u8>) {
        let n = bytes.len();
        let mut done: usize = 0;
        while done < n
            invariant
                bytes@.len() == n,
                n == old(bytes)@.len(),
                done <= n,
                forall|t: int| 0 <= t < n ==> #[trigger] self.spec_mapped(addr + t),
                forall|t: int| 0 <= t < done ==> bytes@[t] == self.spec_byte(addr + t),
            decreases n - done,
        {
            proof {
                assert(self.spec_mapped(addr + done));
            }
            let a: u32 = (addr as u64 + done as u64) as u32;
            let (i, rel, item_bytes) = self.chunk(a);
            let left = n - done;
            let max: usize = if item_bytes >= left as u64 { left } else { item_bytes as usize };
            let mut tmp: Vec<u8> = vec![0u8; max];
            proof {
                assert forall|t: int| 0 <= t < max implies #[trigger] self.backing(i as int).spec_mapped(rel + t) by {
                    let u = done + t;
                    assert(self.spec_mapped(addr + u));
                    assert(addr + u == addr + done + t);
                    let j = choose|j: int| #[trigger] self.covers(j, addr + done + t) && self.backing(j).spec_mapped(self.rel(j, addr + done + t));
                    assert(self.covers(i as int, addr + done + t));
                    self.lemma_covers_unique(i as int, j, addr + done + t);
                }
            }
            match &self.spans[i].kind {
                PageSpanKind::Normal { backing } => backing.read(rel, &mut tmp),
            }
            let mut t: usize = 0;
            while t < max
                invariant
                    t <= max,
                    done + max <= n,
                    bytes@.len() == n,
                    tmp@.len() == max,
                    forall|u: int| 0 <= u < max ==> tmp@[u] == self.backing(i as int).spec_byte(rel + u),
                    forall|u: int| 0 <= u < done ==> bytes@[u] == self.spec_byte(addr + u),
                    forall|u: int| 0 <= u < t ==> bytes@[done + u] == tmp@[u],
                decreases max - t,
            {
                bytes.set(done + t, tmp[t]);
                t = t + 1;
            }
            proof {
                assert forall|u: int| 0 <= u < done + max implies bytes@[u] == self.spec_byte(addr + u) by {
                    if u >= done {
                        let x = addr + u;
                        assert(self.covers(i as int, x));
                        assert(self.span_at(x) == i) by {
                            self.lemma_covers_unique(i as int, self.span_at(x), x);
                        }
                        assert(bytes@[u] == tmp@[u - done]);
                    }
                }
            }
            done = done + max;
        }
    }

    fn write(&mut self, addr: u32, bytes: &[u8]) {
        let n = bytes.len();
        let ghost v0 = *self;
        if n == 0 {
            return;
        }
        proof {
            assert(v0.spec_mapped(addr + 0));
        }
        let mut done: usize = 0;
        while done < n
            invariant
                n == bytes@.len(),
                done <= n,
                self.wf(),
                self.spans().len() == v0.spans().len(),
                forall|k: int| 0 <= k < self.spans().len() ==> (#[trigger] self.spans()[k]).start == v0.spans()[k].start
                    && self.spans()[k].size == v0.spans()[k].size,
                forall|t: int| 0 <= t < n ==> #[trigger] v0.spec_mapped(addr + t),
                forall|x: int| #[trigger] self.spec_mapped(x) == v0.spec_mapped(x),
                forall|x: int| #[trigger] self.spec_byte(x) == if addr <= x < addr + done {
                    bytes@[x - addr]
                } else {
                    v0.spec_byte(x)
                },
            decreases n - done,
        {
            proof {
                assert(v0.spec_mapped(addr + done));
                assert(self.spec_mapped(addr + done));
            }
            let a: u32 = (addr as u64 + done as u64) as u32;
            let (i, rel, item_bytes) = self.chunk(a);
            let left = n - done;
            let max: usize = if item_bytes >= left as u64 { left } else { item_bytes as usize };
            proof {
                assert forall|t: int| 0 <= t < max implies #[trigger] self.backing(i as int).spec_mapped(rel + t) by {
                    let u = done + t;
                    assert(v0.spec_mapped(addr + u));
                    assert(addr + u == addr + done + t);
                    assert(self.spec_mapped(addr + done + t));
                    let j = choose|j: int| #[trigger] self.covers(j, addr + done + t) && self.backing(j).spec_mapped(self.rel(j, addr + done + t));
                    assert(self.covers(i as int, addr + done + t));
                    self.lemma_covers_unique(i as int, j, addr + done + t);
                }
            }
            let ghost v1 = *self;
            let ghost b1 = self.backing(i as int);
            let mut span = self.spans.remove(i);
            let chunk = &bytes[done..done + max];
            match &mut span.kind {
                PageSpanKind::Normal { backing } => backing.write(rel, chunk),
            }
            let ghost b2 = span.kind.spec_backing();
            self.spans.insert(i, span);
            proof {
                assert(self.spans() =~= v1.spans().update(i as int, span));
                assert forall|x: int| #[trigger] self.spec_mapped(x) == v1.spec_mapped(x) by {
                    if exists|j: int| #[trigger] v1.covers(j, x) {
                        let j = choose|j: int| #[trigger] v1.covers(j, x);
                        assert(self.covers(j, x));
                        if self.spec_mapped(x) {
                            let j2 = choose|j2: int| #[trigger] self.covers(j2, x) && self.backing(j2).spec_mapped(self.rel(j2, x));
                            self.lemma_covers_unique(j, j2, x);
                            assert(v1.covers(j2, x));
                        }
                        if v1.spec_mapped(x) {
                            let j2 = choose|j2: int| #[trigger] v1.covers(j2, x) && v1.backing(j2).spec_mapped(v1.rel(j2, x));
                            assert(self.covers(j2, x));
                        }
                    } else {
                        if self.spec_mapped(x) {
                            let j2 = choose|j2: int| #[trigger] self.covers(j2, x) && self.backing(j2).spec_mapped(self.rel(j2, x));
                            assert(v1.covers(j2, x));
                        }
                    }
                }
                assert forall|x: int| #[trigger] self.spec_byte(x) == if addr <= x < addr + done + max {
                    bytes@[x - addr]
                } else {
                    v0.spec_byte(x)
                } by {
                    assert(v1.spec_byte(x) == (if addr <= x < addr + done { bytes@[x - addr] } else { v0.spec_byte(x) }));
                    if exists|j: int| #[trigger] v1.covers(j, x) {
                        let j = v1.span_at(x);
                        assert(v1.covers(j, x));
                        assert(self.covers(j, x));
                        assert(self.span_at(x) == j) by {
                            self.lemma_covers_unique(j, self.span_at(x), x);
                        }
                        assert(self.spec_byte(x) == self.backing(j).spec_byte(self.rel(j, x)));
                        if j == i {
                            assert(self.backing(j) == b2);
                            assert(b2.spec_byte(self.rel(j, x)) == if rel <= self.rel(j, x) < rel + max {
                                chunk@[self.rel(j, x) - rel]
                            } else {
                                b1.spec_byte(self.rel(j, x))
                            });
                            if addr + done <= x < addr + done + max {
                                assert(self.rel(j, x) - rel == x - a);
                                assert(chunk@[x - a] == bytes@[x - addr]);
                            } else {
                                assert(v1.spec_byte(x) == b1.spec_byte(v1.rel(j, x)));
                            }
                        } else {
                            assert(self.spans()[j] == v1.spans()[j]);
                            assert(self.spec_byte(x) == v1.spec_byte(x));
                            if addr + done <= x < addr + done + max {
                                assert(v1.covers(i as int, x));
                                v1.lemma_covers_unique(i as int, j, x);
                            }
                        }
                    } else {
                        if addr + done <= x < addr + done + max {
                            assert(v1.covers(i as int, x));
                        }
                        assert(!exists|j: int| #[trigger] self.covers(j, x)) by {
                            if exists|j: int| #[trigger] self.covers(j, x) {
                                let j = choose|j: int| #[trigger] self.covers(j, x);
                                assert(v1.covers(j, x));
                            }
                        }
                    }
                }
            }
            done = done + max;
        }
    }
}

} // verus!
