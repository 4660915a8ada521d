//! What the program loader computes: the configuration page that every
//! process sees and where the program's segments lie in its code image.

use vstd::prelude::*;
use crate::formats::SystemControlInfo;
use crate::le::{le_bytes, le_bytes64, le_u32_at, le_u64_at, lemma_le_roundtrip, u32_to_le, u64_to_le};

verus! {

/// The title id of the NS system module, stored in the configuration page.
pub const NS_TITLE_ID: u64 = 0x0004013000008002;

/// The SDK version stored in the configuration page.
pub const CTR_SDK_VERSION: u32 = 0x0000F297;

/// The memory given to applications: 64 MiB.
pub const APP_MEMORY_SIZE: u32 = 0x0400_0000;

/// `s` with the bytes `b` written from byte `off` on.
pub open spec fn spec_put(s: Seq<u8>, off: int, b: Seq<u8>) -> Seq<u8> {
    Seq::new(s.len(), |i: int| if off <= i < off + b.len() { b[i - off] } else { s[i] })
}

/// The configuration page: zero but for the kernel version 2.52 (bytes
/// 3 and 2), the NS title id at 0x8, the system core version at 0x10, the
/// unit info and previous firmware at 0x14 and 0x16, the SDK version at
/// 0x18, the application memory size at 0x40, the firmware version 2.52
/// and its system core version at 0x62 to 0x64 and the SDK version again
/// at 0x68.
pub open spec fn spec_config_page() -> Seq<u8> {
    let z = Seq::new(0x1000, |i: int| 0u8);
    let a = z.update(0x2, 0x34u8).update(0x3, 0x2u8);
    let b = spec_put(a, 0x8, le_bytes64(NS_TITLE_ID));
    let c = b.update(0x10, 0x2u8).update(0x14, 0x1u8).update(0x16, 0x1u8);
    let d = spec_put(c, 0x18, le_bytes(CTR_SDK_VERSION));
    let e = d.update(0x62, 0x34u8).update(0x63, 0x2u8).update(0x64, 0x2u8);
    let f = spec_put(e, 0x68, le_bytes(CTR_SDK_VERSION));
    spec_put(f, 0x40, le_bytes(APP_MEMORY_SIZE))
}

/// Writes the bytes `b` into `page` from byte `off` on.
fn put_bytes(page: &mut Vec<u8>, off: usize, b: &[u8])
    requires
        off + b@.len() <= old(page)@.len(),
    ensures
        final(page)@ == spec_put(old(page)@, off as int, b@),
{
    let ghost p0 = page@;
    let plen = page.len();
    let mut i: usize = 0;
    while i < b.len()
        invariant
            off + b@.len() <= p0.len(),
            plen == p0.len(),
            page@.len() == p0.len(),
            i <= b@.len(),
            page@ == spec_put(p0, off as int, b@.subrange(0, i as int)),
        decreases b@.len() - i,
    {
        page.set(off + i, b[i]);
        i = i + 1;
        assert(page@ =~= spec_put(p0, off as int, b@.subrange(0, i as int)));
    }
    assert(b@.subrange(0, b@.len() as int) =~= b@);
}

/// The configuration memory page that the system shows every process.
pub fn config_page() -> (r: Vec<u8>)
    ensures
        r@ == spec_config_page(),
        r@.len() == 0x1000,
        r@[0x2] == 0x34 && r@[0x3] == 0x2,
        le_u64_at(r@, 0x8) == NS_TITLE_ID,
        r@[0x10] == 0x2 && r@[0x14] == 0x1 && r@[0x16] == 0x1,
        le_u32_at(r@, 0x18) == CTR_SDK_VERSION,
        le_u32_at(r@, 0x40) == APP_MEMORY_SIZE,
        r@[0x62] == 0x34 && r@[0x63] == 0x2 && r@[0x64] == 0x2,
        le_u32_at(r@, 0x68) == CTR_SDK_VERSION,
{
    let mut page: Vec<u8> = vec![0u8; 0x1000];
    assert(page@ =~= Seq::new(0x1000, |i: int| 0u8));
    page.set(0x2, 0x34);
    page.set(0x3, 0x2);
    let tid = u64_to_le(NS_TITLE_ID);
    put_bytes(&mut page, 0x8, &tid);
    page.set(0x10, 0x2);
    page.set(0x14, 0x1);
    page.set(0x16, 0x1);
    let sdk = u32_to_le(CTR_SDK_VERSION);
    put_bytes(&mut page, 0x18, &sdk);
    page.set(0x62, 0x34);
    page.set(0x63, 0x2);
    page.set(0x64, 0x2);
    put_bytes(&mut page, 0x68, &sdk);
    let mem = u32_to_le(APP_MEMORY_SIZE);
    put_bytes(&mut page, 0x40, &mem);
    proof {
        lemma_le_roundtrip(CTR_SDK_VERSION);
        lemma_le_roundtrip(APP_MEMORY_SIZE);
        lemma_le_roundtrip((NS_TITLE_ID % 0x1_0000_0000) as u32);
        lemma_le_roundtrip((NS_TITLE_ID / 0x1_0000_0000) as u32);
        let p = page@;
        let lo = le_bytes((NS_TITLE_ID % 0x1_0000_0000) as u32);
        let hi = le_bytes((NS_TITLE_ID / 0x1_0000_0000) as u32);
        assert(p.subrange(0x8, 0xC) =~= lo);
        assert(p.subrange(0xC, 0x10) =~= hi);
        assert(le_u32_at(p, 0x8) == le_u32_at(lo, 0));
        assert(le_u32_at(p, 0xC) == le_u32_at(hi, 0));
        assert(p.subrange(0x18, 0x1C) =~= le_bytes(CTR_SDK_VERSION));
        assert(le_u32_at(p, 0x18) == le_u32_at(le_bytes(CTR_SDK_VERSION), 0));
        assert(le_u32_at(p, 0x68) == le_u32_at(le_bytes(CTR_SDK_VERSION), 0));
        assert(le_u32_at(p, 0x40) == le_u32_at(le_bytes(APP_MEMORY_SIZE), 0));
    }
    page
}

/// A segment of the code image: its first byte and the byte after it.
#[derive(Clone, Copy, Debug, PartialEq, Eq, Structural)]
pub struct Segment {
    pub start: usize,
    pub end: usize,
}

/// Where the text, read-only data and data segments lie in the code
/// image: one after the other from its start.
#[derive(Clone, Copy, Debug, PartialEq, Eq, Structural)]
pub struct SegmentLayout {
    pub text: Segment,
    pub rodata: Segment,
    pub data: Segment,
}

/// The byte size of a segment of `pages` pages, as a 32-bit shift by the
/// page size gives it.
pub open spec fn spec_segment_size(pages: u32) -> int {
    (pages as int * 0x1000) % 0x1_0000_0000
}

/// The size of one segment of the code image.
fn segment_size(pages: u32) -> (r: u32)
    ensures
        r == spec_segment_size(pages),
{
    let r = pages << 12u32;
    assert(r == (pages as int * 0x1000) % 0x1_0000_0000) by (bit_vector)
        requires
            r == pages << 12u32,
    ;
    r
}

/// Where the program's segments lie in a code image of `code_len` bytes,
/// as the system control info of its extended header sizes them; `None`
/// when the image is too short for them.
pub fn segment_layout(sci: &SystemControlInfo, code_len: usize) -> (r: Option<SegmentLayout>)
    ensures
        ({
            let t = spec_segment_size(sci.text_csi.size_in_pages);
            let ro = spec_segment_size(sci.rodata_csi.size_in_pages);
            let d = spec_segment_size(sci.data_csi.size_in_pages);
            &&& r is Some <==> t + ro + d <= code_len
            &&& r matches Some(l) ==> l == (SegmentLayout {
                text: Segment { start: 0, end: t as usize },
                rodata: Segment { start: t as usize, end: (t + ro) as usize },
                data: Segment { start: (t + ro) as usize, end: (t + ro + d) as usize },
            })
        }),
{
    let t = segment_size(sci.text_csi.size_in_pages) as usize;
    let ro = segment_size(sci.rodata_csi.size_in_pages) as usize;
    let d = segment_size(sci.data_csi.size_in_pages) as usize;
    if t > code_len || ro > code_len - t || d > code_len - t - ro {
        return None;
    }
    Some(SegmentLayout {
        text: Segment { start: 0, end: t },
        rodata: Segment { start: t, end: t + ro },
        data: Segment { start: t + ro, end: t + ro + d },
    })
}

} // verus!
