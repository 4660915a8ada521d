//! The layouts of two file headers of the console's executables, read
//! field by field from little-endian bytes.

use vstd::prelude::*;
use crate::le::{le_u16_at, le_u32_at, le_u64_at, read_word};

verus! {

/// The bytes `off .. off + n`.
pub open spec fn span(s: Seq<u8>, off: int, n: int) -> Seq<u8> {
    s.subrange(off, off + n)
}

fn rd8(b: &[u8], off: usize) -> (r: u8)
    requires
        off < b@.len(),
    ensures
        r == b@[off as int],
{
    b[off]
}

fn rd16(b: &[u8], off: usize) -> (r: u16)
    requires
        off + 2 <= b@.len(),
    ensures
        r == le_u16_at(b@, off as int),
{
    (b[off] as u16) + (b[off + 1] as u16) * 0x100
}

fn rd32(b: &[u8], off: usize) -> (r: u32)
    requires
        off + 4 <= b@.len(),
    ensures
        r == le_u32_at(b@, off as int),
{
    read_word(b, off)
}

fn rd64(b: &[u8], off: usize) -> (r: u64)
    requires
        off + 8 <= b@.len(),
    ensures
        r == le_u64_at(b@, off as int),
{
    // The slice's length, which fits in usize, bounds the offsets below.
    let n = b.len();
    let lo = read_word(b, off);
    let hi = read_word(b, off + 4);
    (lo as u64) + (hi as u64) * 0x1_0000_0000
}

fn bytes<const N: usize>(b: &[u8], off: usize) -> (r: [u8; N])
    requires
        off + N <= b@.len(),
    ensures
        r@ == span(b@, off as int, N as int),
{
    let mut a = [0u8; N];
    let n = b.len();
    let mut i: usize = 0;
    while i < N
        invariant
            n == b@.len(),
            i <= N,
            off + N <= b@.len(),
            a@.len() == N,
            forall|j: int| 0 <= j < i ==> a@[j] == b@[off + j],
        decreases N - i,
    {
        a[i] = b[off + i];
        i = i + 1;
    }
    assert(a@ =~= span(b@, off as int, N as int));
    a
}

fn blocks8<const K: usize>(b: &[u8], off: usize) -> (r: [[u8; 8]; K])
    requires
        off + 8 * K <= b@.len(),
    ensures
        forall|i: int| 0 <= i < K ==> (#[trigger] r@[i])@ == span(b@, off + 8 * i, 8),
{
    let mut a = [[0u8; 8]; K];
    let n = b.len();
    let mut i: usize = 0;
    while i < K
        invariant
            n == b@.len(),
            i <= K,
            off + 8 * K <= b@.len(),
            a@.len() == K,
            forall|j: int| 0 <= j < i ==> (#[trigger] a@[j])@ == span(b@, off + 8 * j, 8),
        decreases K - i,
    {
        a[i] = bytes::<8>(b, off + 8 * i);
        i = i + 1;
    }
    a
}

fn blocks2<const K: usize>(b: &[u8], off: usize) -> (r: [[u8; 2]; K])
    requires
        off + 2 * K <= b@.len(),
    ensures
        forall|i: int| 0 <= i < K ==> (#[trigger] r@[i])@ == span(b@, off + 2 * i, 2),
{
    let mut a = [[0u8; 2]; K];
    let n = b.len();
    let mut i: usize = 0;
    while i < K
        invariant
            n == b@.len(),
            i <= K,
            off + 2 * K <= b@.len(),
            a@.len() == K,
            forall|j: int| 0 <= j < i ==> (#[trigger] a@[j])@ == span(b@, off + 2 * j, 2),
        decreases K - i,
    {
        a[i] = bytes::<2>(b, off + 2 * i);
        i = i + 1;
    }
    a
}

fn words<const K: usize>(b: &[u8], off: usize) -> (r: [u32; K])
    requires
        off + 4 * K <= b@.len(),
    ensures
        forall|i: int| 0 <= i < K ==> #[trigger] r@[i] == le_u32_at(b@, off + 4 * i),
{
    let mut a = [0u32; K];
    let n = b.len();
    let mut i: usize = 0;
    while i < K
        invariant
            n == b@.len(),
            i <= K,
            off + 4 * K <= b@.len(),
            a@.len() == K,
            forall|j: int| 0 <= j < i ==> #[trigger] a@[j] == le_u32_at(b@, off + 4 * j),
        decreases K - i,
    {
        a[i] = read_word(b, off + 4 * i);
        i = i + 1;
    }
    a
}

/// Where a code section is loaded and how large it is.
pub struct CodeSetInfo {
    pub address: u32,
    pub size_in_pages: u32,
    pub size_in_bytes: u32,
}

impl CodeSetInfo {
    /// Whether this value holds the fields that the 0xc bytes of `s`
    /// from `off` lay out.
    pub open spec fn laid_out(&self, s: Seq<u8>, off: int) -> bool {
        &&& self.address == le_u32_at(s, off + 0x0)
        &&& self.size_in_pages == le_u32_at(s, off + 0x4)
        &&& self.size_in_bytes == le_u32_at(s, off + 0x8)
    }

    /// Reads the value laid out in the bytes of `b` from `off`.
    pub fn parse(b: &[u8], off: usize) -> (r: CodeSetInfo)
        requires
            off + 0xc <= b@.len(),
        ensures
            r.laid_out(b@, off as int),
    {
        // The slice's length, which fits in usize, bounds the offsets below.
        let n = b.len();
        CodeSetInfo {
            address: rd32(b, off + 0x0),
            size_in_pages: rd32(b, off + 0x4),
            size_in_bytes: rd32(b, off + 0x8),
        }
    }
}

/// Save data size and jump id.
pub struct SystemInfo {
    pub savedata_size: u64,
    pub jump_id: u64,
    pub _0: [u8; 48],
}

impl SystemInfo {
    /// Whether this value holds the fields that the 0x40 bytes of `s`
    /// from `off` lay out.
    pub open spec fn laid_out(&self, s: Seq<u8>, off: int) -> bool {
        &&& self.savedata_size == le_u64_at(s, off + 0x0)
        &&& self.jump_id == le_u64_at(s, off + 0x8)
        &&& self._0@ == span(s, off + 0x10, 0x30)
    }

    /// Reads the value laid out in the bytes of `b` from `off`.
    pub fn parse(b: &[u8], off: usize) -> (r: SystemInfo)
        requires
            off + 0x40 <= b@.len(),
        ensures
            r.laid_out(b@, off as int),
    {
        // The slice's length, which fits in usize, bounds the offsets below.
        let n = b.len();
        SystemInfo {
            savedata_size: rd64(b, off + 0x0),
            jump_id: rd64(b, off + 0x8),
            _0: bytes::<0x30>(b, off + 0x10),
        }
    }
}

/// How the system loads the program: title, code sections, stack, dependencies.
pub struct SystemControlInfo {
    pub title: [u8; 8],
    pub _0: [u8; 5],
    pub flag: u8,
    pub remaster_version: u16,
    pub text_csi: CodeSetInfo,
    pub stack_size: u32,
    pub rodata_csi: CodeSetInfo,
    pub _1: [u8; 4],
    pub data_csi: CodeSetInfo,
    pub bss_size: u32,
    pub dependency_list: [[u8; 8]; 48],
    pub system_info: SystemInfo,
}

impl SystemControlInfo {
    /// Whether this value holds the fields that the 0x200 bytes of `s`
    /// from `off` lay out.
    pub open spec fn laid_out(&self, s: Seq<u8>, off: int) -> bool {
        &&& self.title@ == span(s, off + 0x0, 0x8)
        &&& self._0@ == span(s, off + 0x8, 0x5)
        &&& self.flag == s[off + 0xd]
        &&& self.remaster_version == le_u16_at(s, off + 0xe)
        &&& self.text_csi.laid_out(s, off + 0x10)
        &&& self.stack_size == le_u32_at(s, off + 0x1c)
        &&& self.rodata_csi.laid_out(s, off + 0x20)
        &&& self._1@ == span(s, off + 0x2c, 0x4)
        &&& self.data_csi.laid_out(s, off + 0x30)
        &&& self.bss_size == le_u32_at(s, off + 0x3c)
        &&& forall|i: int| 0 <= i < 48 ==> (#[trigger] self.dependency_list@[i])@ == span(s, off + 0x40 + 8 * i, 8)
        &&& self.system_info.laid_out(s, off + 0x1c0)
    }

    /// Reads the value laid out in the bytes of `b` from `off`.
    pub fn parse(b: &[u8], off: usize) -> (r: SystemControlInfo)
        requires
            off + 0x200 <= b@.len(),
        ensures
            r.laid_out(b@, off as int),
    {
        // The slice's length, which fits in usize, bounds the offsets below.
        let n = b.len();
        SystemControlInfo {
            title: bytes::<0x8>(b, off + 0x0),
            _0: bytes::<0x5>(b, off + 0x8),
            flag: rd8(b, off + 0xd),
            remaster_version: rd16(b, off + 0xe),
            text_csi: CodeSetInfo::parse(b, off + 0x10),
            stack_size: rd32(b, off + 0x1c),
            rodata_csi: CodeSetInfo::parse(b, off + 0x20),
            _1: bytes::<0x4>(b, off + 0x2c),
            data_csi: CodeSetInfo::parse(b, off + 0x30),
            bss_size: rd32(b, off + 0x3c),
            dependency_list: blocks8::<48>(b, off + 0x40),
            system_info: SystemInfo::parse(b, off + 0x1c0),
        }
    }
}

/// The storage that the program may reach.
pub struct StorageInfo {
    pub extdata_id: u64,
    pub system_savedata_id: u64,
    pub storage_accessible_unique_id: u64,
    pub flags: u64,
}

impl StorageInfo {
    /// Whether this value holds the fields that the 0x20 bytes of `s`
    /// from `off` lay out.
    pub open spec fn laid_out(&self, s: Seq<u8>, off: int) -> bool {
        &&& self.extdata_id == le_u64_at(s, off + 0x0)
        &&& self.system_savedata_id == le_u64_at(s, off + 0x8)
        &&& self.storage_accessible_unique_id == le_u64_at(s, off + 0x10)
        &&& self.flags == le_u64_at(s, off + 0x18)
    }

    /// Reads the value laid out in the bytes of `b` from `off`.
    pub fn parse(b: &[u8], off: usize) -> (r: StorageInfo)
        requires
            off + 0x20 <= b@.len(),
        ensures
            r.laid_out(b@, off as int),
    {
        // The slice's length, which fits in usize, bounds the offsets below.
        let n = b.len();
        StorageInfo {
            extdata_id: rd64(b, off + 0x0),
            system_savedata_id: rd64(b, off + 0x8),
            storage_accessible_unique_id: rd64(b, off + 0x10),
            flags: rd64(b, off + 0x18),
        }
    }
}

/// The program's id, priority, limits and the services it may use.
pub struct Arm11LocalCaps {
    pub program_id: u64,
    pub core_version: u32,
    pub flag1: u8,
    pub flag2: u8,
    pub flag0: u8,
    pub priority: u8,
    pub resource_limits: [[u8; 2]; 16],
    pub storage_info: StorageInfo,
    pub service_access_control: [[u8; 8]; 32],
    pub extended_service_access_control: [[u8; 8]; 2],
    pub _0: [u8; 15],
    pub resource_limit_category: u8,
}

impl Arm11LocalCaps {
    /// Whether this value holds the fields that the 0x170 bytes of `s`
    /// from `off` lay out.
    pub open spec fn laid_out(&self, s: Seq<u8>, off: int) -> bool {
        &&& self.program_id == le_u64_at(s, off + 0x0)
        &&& self.core_version == le_u32_at(s, off + 0x8)
        &&& self.flag1 == s[off + 0xc]
        &&& self.flag2 == s[off + 0xd]
        &&& self.flag0 == s[off + 0xe]
        &&& self.priority == s[off + 0xf]
        &&& forall|i: int| 0 <= i < 16 ==> (#[trigger] self.resource_limits@[i])@ == span(s, off + 0x10 + 2 * i, 2)
        &&& self.storage_info.laid_out(s, off + 0x30)
        &&& forall|i: int| 0 <= i < 32 ==> (#[trigger] self.service_access_control@[i])@ == span(s, off + 0x50 + 8 * i, 8)
        &&& forall|i: int| 0 <= i < 2 ==> (#[trigger] self.extended_service_access_control@[i])@ == span(s, off + 0x150 + 8 * i, 8)
        &&& self._0@ == span(s, off + 0x160, 0xf)
        &&& self.resource_limit_category == s[off + 0x16f]
    }

    /// Reads the value laid out in the bytes of `b` from `off`.
    pub fn parse(b: &[u8], off: usize) -> (r: Arm11LocalCaps)
        requires
            off + 0x170 <= b@.len(),
        ensures
            r.laid_out(b@, off as int),
    {
        // The slice's length, which fits in usize, bounds the offsets below.
        let n = b.len();
        Arm11LocalCaps {
            program_id: rd64(b, off + 0x0),
            core_version: rd32(b, off + 0x8),
            flag1: rd8(b, off + 0xc),
            flag2: rd8(b, off + 0xd),
            flag0: rd8(b, off + 0xe),
            priority: rd8(b, off + 0xf),
            resource_limits: blocks2::<16>(b, off + 0x10),
            storage_info: StorageInfo::parse(b, off + 0x30),
            service_access_control: blocks8::<32>(b, off + 0x50),
            extended_service_access_control: blocks8::<2>(b, off + 0x150),
            _0: bytes::<0xf>(b, off + 0x160),
            resource_limit_category: rd8(b, off + 0x16f),
        }
    }
}

/// The kernel capability descriptors.
pub struct Arm11KernelCaps {
    pub descriptors: [u32; 28],
    pub _0: [u8; 16],
}

impl Arm11KernelCaps {
    /// Whether this value holds the fields that the 0x80 bytes of `s`
    /// from `off` lay out.
    pub open spec fn laid_out(&self, s: Seq<u8>, off: int) -> bool {
        &&& forall|i: int| 0 <= i < 28 ==> #[trigger] self.descriptors@[i] == le_u32_at(s, off + 0x0 + 4 * i)
        &&& self._0@ == span(s, off + 0x70, 0x10)
    }

    /// Reads the value laid out in the bytes of `b` from `off`.
    pub fn parse(b: &[u8], off: usize) -> (r: Arm11KernelCaps)
        requires
            off + 0x80 <= b@.len(),
        ensures
            r.laid_out(b@, off as int),
    {
        // The slice's length, which fits in usize, bounds the offsets below.
        let n = b.len();
        Arm11KernelCaps {
            descriptors: words::<28>(b, off + 0x0),
            _0: bytes::<0x10>(b, off + 0x70),
        }
    }
}

/// The access control descriptors of the other processor.
pub struct Arm9AccessControl {
    pub descriptors: [u8; 15],
    pub descriptor_version: u8,
}

impl Arm9AccessControl {
    /// Whether this value holds the fields that the 0x10 bytes of `s`
    /// from `off` lay out.
    pub open spec fn laid_out(&self, s: Seq<u8>, off: int) -> bool {
        &&& self.descriptors@ == span(s, off + 0x0, 0xf)
        &&& self.descriptor_version == s[off + 0xf]
    }

    /// Reads the value laid out in the bytes of `b` from `off`.
    pub fn parse(b: &[u8], off: usize) -> (r: Arm9AccessControl)
        requires
            off + 0x10 <= b@.len(),
        ensures
            r.laid_out(b@, off as int),
    {
        // The slice's length, which fits in usize, bounds the offsets below.
        let n = b.len();
        Arm9AccessControl {
            descriptors: bytes::<0xf>(b, off + 0x0),
            descriptor_version: rd8(b, off + 0xf),
        }
    }
}

/// The capabilities of the program.
pub struct AccessControlInfo {
    pub arm11_local_caps: Arm11LocalCaps,
    pub arm11_kernel_caps: Arm11KernelCaps,
    pub arm9_access_control: Arm9AccessControl,
}

impl AccessControlInfo {
    /// Whether this value holds the fields that the 0x200 bytes of `s`
    /// from `off` lay out.
    pub open spec fn laid_out(&self, s: Seq<u8>, off: int) -> bool {
        &&& self.arm11_local_caps.laid_out(s, off + 0x0)
        &&& self.arm11_kernel_caps.laid_out(s, off + 0x170)
        &&& self.arm9_access_control.laid_out(s, off + 0x1f0)
    }

    /// Reads the value laid out in the bytes of `b` from `off`.
    pub fn parse(b: &[u8], off: usize) -> (r: AccessControlInfo)
        requires
            off + 0x200 <= b@.len(),
        ensures
            r.laid_out(b@, off as int),
    {
        // The slice's length, which fits in usize, bounds the offsets below.
        let n = b.len();
        AccessControlInfo {
            arm11_local_caps: Arm11LocalCaps::parse(b, off + 0x0),
            arm11_kernel_caps: Arm11KernelCaps::parse(b, off + 0x170),
            arm9_access_control: Arm9AccessControl::parse(b, off + 0x1f0),
        }
    }
}

/// The extended header of an executable.
pub struct ExHeader {
    pub sci: SystemControlInfo,
    pub aci: AccessControlInfo,
    pub access_desc_sig: [u8; 256],
    pub ncch_hdr_public_key: [u8; 256],
    pub acli: AccessControlInfo,
}

impl ExHeader {
    /// Whether this value holds the fields that the 0x800 bytes of `s`
    /// from `off` lay out.
    pub open spec fn laid_out(&self, s: Seq<u8>, off: int) -> bool {
        &&& self.sci.laid_out(s, off + 0x0)
        &&& self.aci.laid_out(s, off + 0x200)
        &&& self.access_desc_sig@ == span(s, off + 0x400, 0x100)
        &&& self.ncch_hdr_public_key@ == span(s, off + 0x500, 0x100)
        &&& self.acli.laid_out(s, off + 0x600)
    }

    /// Reads the value laid out in the bytes of `b` from `off`.
    pub fn parse(b: &[u8], off: usize) -> (r: ExHeader)
        requires
            off + 0x800 <= b@.len(),
        ensures
            r.laid_out(b@, off as int),
    {
        // The slice's length, which fits in usize, bounds the offsets below.
        let n = b.len();
        ExHeader {
            sci: SystemControlInfo::parse(b, off + 0x0),
            aci: AccessControlInfo::parse(b, off + 0x200),
            access_desc_sig: bytes::<0x100>(b, off + 0x400),
            ncch_hdr_public_key: bytes::<0x100>(b, off + 0x500),
            acli: AccessControlInfo::parse(b, off + 0x600),
        }
    }

    /// A value whose bytes are all zero.
    pub fn zero() -> (r: ExHeader)
        ensures
            r.laid_out(Seq::new(0x800, |i: int| 0u8), 0),
    {
        let z: Vec<u8> = vec![0u8; 0x800];
        assert(z@ =~= Seq::new(0x800, |i: int| 0u8));
        ExHeader::parse(z.as_slice(), 0)
    }

    /// Replaces the value by the one laid out in the first 0x800 bytes of
    /// `b`.
    pub fn copy_from_bytes(&mut self, b: &[u8])
        requires
            b@.len() >= 0x800,
        ensures
            final(self).laid_out(b@, 0),
    {
        *self = ExHeader::parse(b, 0);
    }
}

/// The code sections that a system control info describes lie at fixed
/// places of its bytes: the text section's address, page count and byte
/// size at bytes 0x10, 0x14 and 0x18, the stack size at 0x1c, the read-only
/// data section's at 0x20, 0x24 and 0x28, the data section's at 0x30, 0x34
/// and 0x38 and the bss size at 0x3c, each a little-endian word.
pub proof fn law_system_control_info_layout(sci: SystemControlInfo, s: Seq<u8>, off: int)
    requires
        sci.laid_out(s, off),
    ensures
        sci.text_csi.address == le_u32_at(s, off + 0x10),
        sci.text_csi.size_in_pages == le_u32_at(s, off + 0x14),
        sci.text_csi.size_in_bytes == le_u32_at(s, off + 0x18),
        sci.stack_size == le_u32_at(s, off + 0x1c),
        sci.rodata_csi.address == le_u32_at(s, off + 0x20),
        sci.rodata_csi.size_in_pages == le_u32_at(s, off + 0x24),
        sci.rodata_csi.size_in_bytes == le_u32_at(s, off + 0x28),
        sci.data_csi.address == le_u32_at(s, off + 0x30),
        sci.data_csi.size_in_pages == le_u32_at(s, off + 0x34),
        sci.data_csi.size_in_bytes == le_u32_at(s, off + 0x38),
        sci.bss_size == le_u32_at(s, off + 0x3c),
{
}

/// The code sections of an extended header lie where the system control
/// info, at its start, places them: the text section's address, page count
/// and byte size at bytes 0x10, 0x14 and 0x18, the stack size at 0x1c, the
/// read-only data section's at 0x20, 0x24 and 0x28, the data section's at
/// 0x30, 0x34 and 0x38 and the bss size at 0x3c, each a little-endian
/// word.
pub proof fn law_code_sections_layout(h: ExHeader, s: Seq<u8>, off: int)
    requires
        h.laid_out(s, off),
    ensures
        h.sci.text_csi.address == le_u32_at(s, off + 0x10),
        h.sci.text_csi.size_in_pages == le_u32_at(s, off + 0x14),
        h.sci.text_csi.size_in_bytes == le_u32_at(s, off + 0x18),
        h.sci.stack_size == le_u32_at(s, off + 0x1c),
        h.sci.rodata_csi.address == le_u32_at(s, off + 0x20),
        h.sci.rodata_csi.size_in_pages == le_u32_at(s, off + 0x24),
        h.sci.rodata_csi.size_in_bytes == le_u32_at(s, off + 0x28),
        h.sci.data_csi.address == le_u32_at(s, off + 0x30),
        h.sci.data_csi.size_in_pages == le_u32_at(s, off + 0x34),
        h.sci.data_csi.size_in_bytes == le_u32_at(s, off + 0x38),
        h.sci.bss_size == le_u32_at(s, off + 0x3c),
{
    law_system_control_info_layout(h.sci, s, off);
}

/// The header of a content container.
pub struct Header {
    pub sig: [u8; 256],
    pub magic: [u8; 4],
    pub content_size: u32,
    pub partition_id: u64,
    pub maker_code: u16,
    pub version: u16,
    pub verification_word: u32,
    pub program_id: u64,
    pub _0: [u8; 16],
    pub logo_region_hash: [u8; 32],
    pub product_code: [u8; 16],
    pub exheader_hash: [u8; 32],
    pub exheader_size: u32,
    pub _1: [u8; 4],
    pub flags: [u8; 8],
    pub plain_region_offset: u32,
    pub plain_region_size: u32,
    pub logo_region_offset: u32,
    pub logo_region_size: u32,
    pub exefs_offset: u32,
    pub exefs_size: u32,
    pub exefs_hash_region_size: u32,
    pub _2: [u8; 4],
    pub romfs_offset: u32,
    pub romfs_size: u32,
    pub romfs_hash_region_size: u32,
    pub _3: [u8; 4],
    pub exefs_superblock_hash: [u8; 32],
    pub romfs_superblock_hash: [u8; 32],
}

impl Header {
    /// Whether this value holds the fields that the 0x200 bytes of `s`
    /// from `off` lay out.
    pub open spec fn laid_out(&self, s: Seq<u8>, off: int) -> bool {
        &&& self.sig@ == span(s, off + 0x0, 0x100)
        &&& self.magic@ == span(s, off + 0x100, 0x4)
        &&& self.content_size == le_u32_at(s, off + 0x104)
        &&& self.partition_id == le_u64_at(s, off + 0x108)
        &&& self.maker_code == le_u16_at(s, off + 0x110)
        &&& self.version == le_u16_at(s, off + 0x112)
        &&& self.verification_word == le_u32_at(s, off + 0x114)
        &&& self.program_id == le_u64_at(s, off + 0x118)
        &&& self._0@ == span(s, off + 0x120, 0x10)
        &&& self.logo_region_hash@ == span(s, off + 0x130, 0x20)
        &&& self.product_code@ == span(s, off + 0x150, 0x10)
        &&& self.exheader_hash@ == span(s, off + 0x160, 0x20)
        &&& self.exheader_size == le_u32_at(s, off + 0x180)
        &&& self._1@ == span(s, off + 0x184, 0x4)
        &&& self.flags@ == span(s, off + 0x188, 0x8)
        &&& self.plain_region_offset == le_u32_at(s, off + 0x190)
        &&& self.plain_region_size == le_u32_at(s, off + 0x194)
        &&& self.logo_region_offset == le_u32_at(s, off + 0x198)
        &&& self.logo_region_size == le_u32_at(s, off + 0x19c)
        &&& self.exefs_offset == le_u32_at(s, off + 0x1a0)
        &&& self.exefs_size == le_u32_at(s, off + 0x1a4)
        &&& self.exefs_hash_region_size == le_u32_at(s, off + 0x1a8)
        &&& self._2@ == span(s, off + 0x1ac, 0x4)
        &&& self.romfs_offset == le_u32_at(s, off + 0x1b0)
        &&& self.romfs_size == le_u32_at(s, off + 0x1b4)
        &&& self.romfs_hash_region_size == le_u32_at(s, off + 0x1b8)
        &&& self._3@ == span(s, off + 0x1bc, 0x4)
        &&& self.exefs_superblock_hash@ == span(s, off + 0x1c0, 0x20)
        &&& self.romfs_superblock_hash@ == span(s, off + 0x1e0, 0x20)
    }

    /// Reads the value laid out in the bytes of `b` from `off`.
    pub fn parse(b: &[u8], off: usize) -> (r: Header)
        requires
            off + 0x200 <= b@.len(),
        ensures
            r.laid_out(b@, off as int),
    {
        // The slice's length, which fits in usize, bounds the offsets below.
        let n = b.len();
        Header {
            sig: bytes::<0x100>(b, off + 0x0),
            magic: bytes::<0x4>(b, off + 0x100),
            content_size: rd32(b, off + 0x104),
            partition_id: rd64(b, off + 0x108),
            maker_code: rd16(b, off + 0x110),
            version: rd16(b, off + 0x112),
            verification_word: rd32(b, off + 0x114),
            program_id: rd64(b, off + 0x118),
            _0: bytes::<0x10>(b, off + 0x120),
            logo_region_hash: bytes::<0x20>(b, off + 0x130),
            product_code: bytes::<0x10>(b, off + 0x150),
            exheader_hash: bytes::<0x20>(b, off + 0x160),
            exheader_size: rd32(b, off + 0x180),
            _1: bytes::<0x4>(b, off + 0x184),
            flags: bytes::<0x8>(b, off + 0x188),
            plain_region_offset: rd32(b, off + 0x190),
            plain_region_size: rd32(b, off + 0x194),
            logo_region_offset: rd32(b, off + 0x198),
            logo_region_size: rd32(b, off + 0x19c),
            exefs_offset: rd32(b, off + 0x1a0),
            exefs_size: rd32(b, off + 0x1a4),
            exefs_hash_region_size: rd32(b, off + 0x1a8),
            _2: bytes::<0x4>(b, off + 0x1ac),
            romfs_offset: rd32(b, off + 0x1b0),
            romfs_size: rd32(b, off + 0x1b4),
            romfs_hash_region_size: rd32(b, off + 0x1b8),
            _3: bytes::<0x4>(b, off + 0x1bc),
            exefs_superblock_hash: bytes::<0x20>(b, off + 0x1c0),
            romfs_superblock_hash: bytes::<0x20>(b, off + 0x1e0),
        }
    }

    /// A value whose bytes are all zero.
    pub fn zero() -> (r: Header)
        ensures
            r.laid_out(Seq::new(0x200, |i: int| 0u8), 0),
    {
        let z: Vec<u8> = vec![0u8; 0x200];
        assert(z@ =~= Seq::new(0x200, |i: int| 0u8));
        Header::parse(z.as_slice(), 0)
    }

    /// Replaces the value by the one laid out in the first 0x200 bytes of
    /// `b`.
    pub fn copy_from_bytes(&mut self, b: &[u8])
        requires
            b@.len() >= 0x200,
        ensures
            final(self).laid_out(b@, 0),
    {
        *self = Header::parse(b, 0);
    }
}

/// The parts of a content container lie where its header says, each a
/// little-endian word at a fixed place of the header: the content size at
/// 0x104, the program id (a doubleword) at 0x118, the extended header's size
/// at 0x180, and the offset and size of the plain region, the logo, the
/// executable file system and the read-only file system at 0x190 to 0x1b4.
pub proof fn law_container_header_layout(h: Header, s: Seq<u8>, off: int)
    requires
        h.laid_out(s, off),
    ensures
        h.content_size == le_u32_at(s, off + 0x104),
        h.program_id == le_u64_at(s, off + 0x118),
        h.exheader_size == le_u32_at(s, off + 0x180),
        h.plain_region_offset == le_u32_at(s, off + 0x190),
        h.plain_region_size == le_u32_at(s, off + 0x194),
        h.logo_region_offset == le_u32_at(s, off + 0x198),
        h.logo_region_size == le_u32_at(s, off + 0x19c),
        h.exefs_offset == le_u32_at(s, off + 0x1a0),
        h.exefs_size == le_u32_at(s, off + 0x1a4),
        h.romfs_offset == le_u32_at(s, off + 0x1b0),
        h.romfs_size == le_u32_at(s, off + 0x1b4),
{
}

} // verus!
