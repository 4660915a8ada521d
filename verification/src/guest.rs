//! The guest side of a process: its registers, its memory as the CPU
//! emulator offers it, thread-local storage slots, and the decoding of the
//! supervisor calls that guest threads make.

use vstd::prelude::*;
use crate::le::{le_u32_at, read_u32_le};
use crate::types::{Timeout, ThreadInitializer};

verus! {

/// Where the stacks of userland threads end.
pub const USERLAND_STACK_BASE: u32 = 0x10000000;

/// Where the thread-local storage pages of a process start.
pub const USERLAND_TLS_BASE: u32 = 0x1FF82000;

/// The size of the main thread's stack.
pub const STACK_SIZE: u32 = 0x00002000;

/// The value of a register, read as unsigned or as signed.
#[derive(Clone, Copy, Debug, PartialEq, Eq, Structural)]
pub struct RegValue {
    pub bits: u32,
}

impl RegValue {
    /// The register read as unsigned.
    pub fn u32(self) -> (r: u32)
        ensures
            r == self.bits,
    {
        self.bits
    }

    /// The register read as signed, two's complement.
    pub fn i32(self) -> (r: i32)
        ensures
            r == self.bits as i32,
    {
        self.bits as i32
    }

    /// A register holding an unsigned value.
    pub fn from_u32(value: u32) -> (r: RegValue)
        ensures
            r.bits == value,
    {
        RegValue { bits: value }
    }

    /// A register holding a signed value, two's complement.
    pub fn from_i32(value: i32) -> (r: RegValue)
        ensures
            r.bits == value as u32,
    {
        RegValue { bits: value as u32 }
    }
}

impl From<u32> for RegValue {
    fn from(value: u32) -> (r: RegValue) {
        RegValue::from_u32(value)
    }
}

impl vstd::std_specs::convert::FromSpecImpl<u32> for RegValue {
    open spec fn obeys_from_spec() -> bool {
        true
    }

    open spec fn from_spec(v: u32) -> RegValue {
        RegValue { bits: v }
    }
}

/// A register file: sixteen general registers and the status register.
pub trait Regs {
    /// The value of register `reg` (0 to 15).
    spec fn spec_reg(&self, reg: int) -> u32;

    /// The status register.
    spec fn spec_cpsr(&self) -> u32;

    fn r(&self, reg: u8) -> (v: RegValue)
        requires
            reg < 16,
        ensures
            v.bits == self.spec_reg(reg as int),
    ;

    fn sr(&mut self, reg: u8, value: RegValue)
        requires
            reg < 16,
        ensures
            forall|k: int| 0 <= k < 16 ==> #[trigger] final(self).spec_reg(k) == if k == reg as int {
                value.bits
            } else {
                old(self).spec_reg(k)
            },
            final(self).spec_cpsr() == old(self).spec_cpsr(),
    ;

    fn set_cpsr(&mut self, value: u32)
        ensures
            forall|k: int| 0 <= k < 16 ==> #[trigger] final(self).spec_reg(k) == old(self).spec_reg(k),
            final(self).spec_cpsr() == value,
    ;
}

/// The saved registers of a guest thread.
pub struct ThreadRegs {
    pub cpsr: u32,
    pub regs: [u32; 16],
    pub ext_regs: [u32; 64],
}

impl ThreadRegs {
    /// Registers that are all zero.
    pub fn zero() -> (r: ThreadRegs)
        ensures
            r.cpsr == 0,
            forall|k: int| 0 <= k < 16 ==> r.regs@[k] == 0,
            forall|k: int| 0 <= k < 64 ==> r.ext_regs@[k] == 0,
    {
        ThreadRegs { cpsr: 0, regs: [0u32; 16], ext_regs: [0u32; 64] }
    }
}

impl Regs for ThreadRegs {
    open spec fn spec_reg(&self, reg: int) -> u32 {
        self.regs@[reg]
    }

    open spec fn spec_cpsr(&self) -> u32 {
        self.cpsr
    }

    fn r(&self, reg: u8) -> (v: RegValue) {
        RegValue { bits: self.regs[reg as usize] }
    }

    fn sr(&mut self, reg: u8, value: RegValue) {
        self.regs[reg as usize] = value.bits;
    }

    fn set_cpsr(&mut self, value: u32) {
        self.cpsr = value;
    }
}

/// The access a mapping of guest memory allows.
#[derive(Clone, Copy, Debug, PartialEq, Eq, Structural)]
pub enum Protection {
    ReadOnly,
    ReadWrite,
    ReadExecute,
}

/// Guest memory, as the CPU emulator that implements this trait holds it.
/// Addresses wrap at the end of the 32-bit address space.
pub trait Memory: Sized {
    /// The byte of guest memory at `addr`.
    spec fn spec_byte(&self, addr: u32) -> u8;

    /// Fills `bytes` with the guest memory from `addr` on.
    fn read(&self, addr: u32, bytes: &mut Vec<u8>)
        ensures
            final(bytes)@.len() == old(bytes)@.len(),
            forall|i: int| 0 <= i < old(bytes)@.len() ==> #[trigger] final(bytes)@[i] == self.spec_byte((addr + i) as u32),
    ;

    /// Writes `bytes` to the guest memory from `addr` on.
    fn write(&mut self, addr: u32, bytes: &[u8])
        requires
            bytes@.len() <= 0x1_0000_0000,
        ensures
            forall|a: u32| #[trigger] final(self).spec_byte(a) == if spec_offset(addr, a) < bytes@.len() {
                bytes@[spec_offset(addr, a)]
            } else {
                old(self).spec_byte(a)
            },
    ;
}

/// The `len` bytes of guest memory from `addr` on.
pub open spec fn spec_bytes<M: Memory>(mem: &M, addr: u32, len: nat) -> Seq<u8> {
    Seq::new(len, |i: int| mem.spec_byte((addr + i) as u32))
}

/// How far address `a` lies after `addr`, going round the address space.
pub open spec fn spec_offset(addr: u32, a: u32) -> int {
    (a - addr) % 0x1_0000_0000
}

/// Guest memory that can be mapped.
pub trait MemoryMap: Memory {
    /// Whether the byte at `addr` is mapped.
    spec fn spec_mapped(&self, addr: u32) -> bool;

    /// Maps `size` bytes at `addr`, filled from `init` when given. What the
    /// mapped pages then hold is up to the emulator; what was mapped stays
    /// mapped.
    fn map(&mut self, addr: u32, size: u32, name: &str, init: Option<&[u8]>, prot: Protection)
        requires
            init matches Some(d) ==> d@.len() <= size,
        ensures
            forall|a: u32| spec_offset(addr, a) < size ==> #[trigger] final(self).spec_mapped(a),
            forall|a: u32| old(self).spec_mapped(a) ==> #[trigger] final(self).spec_mapped(a),
    ;
}

/// What the scheduler is to do after a supervisor call.
#[derive(Clone, Copy, Debug, PartialEq, Eq, Structural)]
pub enum SvcResult {
    Continue,
    Reschedule,
}

/// Register contents that a guest saves and restores between runs.
pub trait SavedGuestContext: Regs + Sized {
    fn zero() -> Self;
}

impl SavedGuestContext for ThreadRegs {
    fn zero() -> (r: ThreadRegs)
        ensures
            r.cpsr == 0,
            forall|k: int| 0 <= k < 16 ==> r.regs@[k] == 0,
            forall|k: int| 0 <= k < 64 ==> r.ext_regs@[k] == 0,
    {
        ThreadRegs::zero()
    }
}

/// A CPU emulator that runs guest threads.
pub trait GuestContext {
    /// The registers the emulator holds.
    spec fn spec_regs(&self) -> ThreadRegs;

    /// Saves the registers of the thread that ran last.
    fn save(&self, out: &mut ThreadRegs)
        ensures
            *final(out) == self.spec_regs(),
    ;

    /// Restores a thread's registers and thread-local storage address.
    fn restore(&mut self, saved: &ThreadRegs, tls: u32)
        ensures
            final(self).spec_regs() == *saved,
    ;

    /// Stops execution at an address.
    fn breakpoint(&mut self, addr: u32, thumb: bool);
}

/// The timeout of a wait given in nanoseconds as two registers: the low
/// and the high word. A set top bit waits without end; zero does not wait.
pub open spec fn spec_make_timeout(timeout_low: u32, timeout_high: u32) -> Timeout {
    let ns = (timeout_high as u64) * 0x1_0000_0000 + timeout_low as u64;
    if ns < 0x8000_0000_0000_0000 {
        if ns == 0 {
            Timeout::Instant
        } else {
            Timeout::After(ns as u64)
        }
    } else {
        Timeout::Forever
    }
}

/// The timeout of a wait given in nanoseconds as two registers.
pub fn make_timeout(timeout_low: u32, timeout_high: u32) -> (r: Timeout)
    ensures
        r == spec_make_timeout(timeout_low, timeout_high),
{
    let ns: u64 = ((timeout_high as u64) << 32u64) | (timeout_low as u64);
    assert(ns == (timeout_high as u64) * 0x1_0000_0000 + timeout_low as u64) by (bit_vector)
        requires
            ns == ((timeout_high as u64) << 32u64) | (timeout_low as u64),
    ;
    assert((ns & 0x8000000000000000u64 == 0) == (ns < 0x8000_0000_0000_0000)) by (bit_vector);
    if ns & 0x8000000000000000u64 == 0 {
        if ns == 0 {
            Timeout::Instant
        } else {
            Timeout::After(ns)
        }
    } else {
        Timeout::Forever
    }
}

/// The number of a supervisor call instruction: the low 24 bits of its
/// little-endian word.
pub open spec fn spec_svc_number(word_bytes: Seq<u8>) -> u32 {
    le_u32_at(word_bytes, 0) & 0xFFFFFFu32
}

/// The number of a supervisor call from the four bytes of its instruction.
pub fn svc_number(word_bytes: &[u8]) -> (r: u32)
    requires
        word_bytes@.len() >= 4,
    ensures
        r == spec_svc_number(word_bytes@),
        r <= 0xFFFFFF,
{
    let w = read_u32_le(word_bytes);
    let r = w & 0xFFFFFFu32;
    assert(r <= 0xFFFFFF) by (bit_vector)
        requires
            r == w & 0xFFFFFFu32,
    ;
    r
}

/// The number of the supervisor call whose instruction word lies in guest
/// memory just before the program counter `pc`.
pub open spec fn spec_svc_at<M: Memory>(mem: &M, pc: u32) -> u32 {
    spec_svc_number(spec_bytes(mem, (pc - 4) as u32, 4))
}

/// The number of the supervisor call that the thread just made: read from
/// the instruction before the program counter.
pub fn get_svc<R: Regs, M: Memory>(regs: &R, mem: &M) -> (r: u32)
    requires
        regs.spec_reg(15) >= 4,
    ensures
        r == spec_svc_at(mem, regs.spec_reg(15)),
        r <= 0xFFFFFF,
{
    let pc = regs.r(15).u32();
    let mut svc_bytes: Vec<u8> = vec![0u8, 0u8, 0u8, 0u8];
    mem.read(pc - 4, &mut svc_bytes);
    assert(svc_bytes@ =~= spec_bytes(mem, (pc - 4) as u32, 4));
    svc_number(svc_bytes.as_slice())
}

/// A guest thread's saved execution state and its thread-local storage
/// address.
pub struct ThreadContext {
    pub tls: u32,
    pub ctx: ThreadRegs,
}

impl ThreadContext {
    /// A thread with zero registers and no thread-local storage yet.
    pub fn new() -> (r: ThreadContext)
        ensures
            r.tls == 0,
            r.ctx.cpsr == 0,
            forall|k: int| 0 <= k < 16 ==> r.ctx.regs@[k] == 0,
    {
        ThreadContext { tls: 0, ctx: ThreadRegs::zero() }
    }

    /// Sets the thread's argument, passed in register 0.
    pub fn set_arg(&mut self, v: u32)
        ensures
            final(self).ctx.regs@ == old(self).ctx.regs@.update(0, v),
            final(self).ctx.cpsr == old(self).ctx.cpsr,
            final(self).tls == old(self).tls,
    {
        self.ctx.regs[0] = v;
    }

    /// The program counter, register 15.
    pub fn pc(&self) -> (r: u32)
        ensures
            r == self.ctx.regs@[15],
    {
        self.ctx.regs[15]
    }

    /// Sets the program counter, register 15.
    pub fn set_pc(&mut self, v: u32)
        ensures
            final(self).ctx.regs@ == old(self).ctx.regs@.update(15, v),
            final(self).ctx.cpsr == old(self).ctx.cpsr,
            final(self).tls == old(self).tls,
    {
        self.ctx.regs[15] = v;
    }

    /// Sets the stack pointer, register 13.
    pub fn set_sp(&mut self, v: u32)
        ensures
            final(self).ctx.regs@ == old(self).ctx.regs@.update(13, v),
            final(self).ctx.cpsr == old(self).ctx.cpsr,
            final(self).tls == old(self).tls,
    {
        self.ctx.regs[13] = v;
    }

    /// Sets the status register.
    pub fn set_cpsr(&mut self, v: u32)
        ensures
            final(self).ctx.regs@ == old(self).ctx.regs@,
            final(self).ctx.cpsr == v,
            final(self).tls == old(self).tls,
    {
        self.ctx.cpsr = v;
    }

    /// Saves the registers of the thread that just ran on `guest`.
    pub fn load<G: GuestContext>(&mut self, guest: &G)
        ensures
            final(self).ctx == guest.spec_regs(),
            final(self).tls == old(self).tls,
    {
        guest.save(&mut self.ctx);
    }

    /// Restores this thread's registers into `guest` to run it.
    pub fn store<G: GuestContext>(&self, guest: &mut G)
        ensures
            final(guest).spec_regs() == self.ctx,
    {
        guest.restore(&self.ctx, self.tls);
    }
}

/// The free thread-local storage slots of a process and the number of
/// pages mapped for them.
pub struct ProcessTLS {
    pub free: Vec<u8>,
    pub next_offset: u8,
}

impl ProcessTLS {
    pub fn new() -> (r: ProcessTLS)
        ensures
            r.free@.len() == 0,
            r.next_offset == 0,
    {
        ProcessTLS { free: Vec::new(), next_offset: 0 }
    }
}

/// The eight slots of page `page`, in the order they are kept: the first
/// slot last, so that it is taken first.
pub open spec fn spec_page_slots(page: u8) -> Seq<u8> {
    Seq::new(8, |i: int| ((page << 3u8) | (7 - i) as u8) as u8)
}

/// The free slots once a page has been mapped if none was free.
pub open spec fn spec_refilled(tls: &ProcessTLS) -> Seq<u8> {
    if tls.free@.len() == 0 {
        spec_page_slots(tls.next_offset)
    } else {
        tls.free@
    }
}

/// The address of a thread-local storage slot: 512 bytes each.
pub open spec fn spec_tls_address(slot: u8) -> u32 {
    (USERLAND_TLS_BASE + (slot as u32) * 512) as u32
}

/// A guest process: its memory and its thread-local storage slots.
pub struct ProcessContext<M: MemoryMap> {
    pub memory: M,
    pub tls: ProcessTLS,
}

impl<M: MemoryMap> ProcessContext<M> {
    pub fn new(memory: M) -> (r: ProcessContext<M>)
        ensures
            r.tls.free@.len() == 0,
            r.tls.next_offset == 0,
    {
        ProcessContext { memory, tls: ProcessTLS::new() }
    }

    /// Takes a free thread-local storage slot and returns its address;
    /// when none is free, first maps one more page of eight slots.
    pub fn allocate_tls(&mut self) -> (r: u32)
        requires
            old(self).tls.free@.len() > 0 || old(self).tls.next_offset < 255,
        ensures
            r == spec_tls_address(spec_refilled(&old(self).tls).last()),
            final(self).tls.free@ == spec_refilled(&old(self).tls).drop_last(),
            final(self).tls.next_offset == if old(self).tls.free@.len() == 0 {
                (old(self).tls.next_offset + 1) as u8
            } else {
                old(self).tls.next_offset
            },
            old(self).tls.free@.len() == 0 ==> forall|a: u32| spec_offset(
                (USERLAND_TLS_BASE + old(self).tls.next_offset * 0x1000) as u32,
                a,
            ) < 0x1000 ==> #[trigger] final(self).memory.spec_mapped(a),
            forall|a: u32| old(self).memory.spec_mapped(a) ==> #[trigger] final(self).memory.spec_mapped(a),
            old(self).tls.free@.len() > 0 ==> final(self).memory == old(self).memory,
    {
        if self.tls.free.len() == 0 {
            let off: u32 = self.tls.next_offset as u32;
            assert(off << 12u32 == off * 4096) by (bit_vector)
                requires
                    off < 256,
            ;
            let page_addr: u32 = USERLAND_TLS_BASE + (off << 12u32);
            self.memory.map(page_addr, 0x1000, "tls", None, Protection::ReadWrite);
            let base: u8 = self.tls.next_offset << 3u8;
            let mut k: u8 = 8;
            while k > 0
                invariant
                    k <= 8,
                    self.tls.next_offset == old(self).tls.next_offset,
                    old(self).tls.next_offset < 255,
                    old(self).tls.free@.len() == 0,
                    base == self.tls.next_offset << 3u8,
                    self.tls.free@ == spec_page_slots(self.tls.next_offset).subrange(0, 8 - k),
                    forall|a: u32| spec_offset(page_addr, a) < 0x1000 ==> #[trigger] self.memory.spec_mapped(a),
                    forall|a: u32| old(self).memory.spec_mapped(a) ==> #[trigger] self.memory.spec_mapped(a),
                decreases k,
            {
                k = k - 1;
                self.tls.free.push(base | k);
                assert(self.tls.free@ =~= spec_page_slots(self.tls.next_offset).subrange(0, 8 - k));
            }
            self.tls.next_offset = self.tls.next_offset + 1;
        }
        let slot = self.tls.free.pop().unwrap();
        let sl: u32 = slot as u32;
        assert(sl << 9u32 == sl * 512) by (bit_vector)
            requires
                sl < 256,
        ;
        USERLAND_TLS_BASE + (sl << 9u32)
    }

    /// A new thread of this process: it starts at `entrypoint` in user mode
    /// (Thumb when the address is odd), with its stack at `stack_top`, `arg`
    /// in register 0, and a thread-local storage slot of its own.
    pub fn new_thread(&mut self, entrypoint: u32, stack_top: u32, arg: u32) -> (r: ThreadContext)
        requires
            old(self).tls.free@.len() > 0 || old(self).tls.next_offset < 255,
        ensures
            r.tls == spec_tls_address(spec_refilled(&old(self).tls).last()),
            final(self).tls.free@ == spec_refilled(&old(self).tls).drop_last(),
            r.ctx.regs@[13] == stack_top,
            r.ctx.regs@[15] == entrypoint,
            r.ctx.regs@[0] == arg,
            r.ctx.cpsr == (if entrypoint & 1 != 0 { 0x30u32 } else { 0x10u32 }),
            forall|k: int| 0 <= k < 16 && k != 0 && k != 13 && k != 15 ==> r.ctx.regs@[k] == 0,
    {
        let mut thread_context = ThreadContext::new();
        let tls = self.allocate_tls();
        thread_context.set_sp(stack_top);
        thread_context.tls = tls;
        thread_context.set_pc(entrypoint);
        thread_context.set_arg(arg);
        let thumb: u32 = if (entrypoint & 1) != 0 { 0x20 } else { 0 };
        assert(0x10u32 | 0x20u32 == 0x30u32) by (bit_vector);
        assert(0x10u32 | 0u32 == 0x10u32) by (bit_vector);
        thread_context.set_cpsr(0x10 | thumb);
        thread_context
    }

    /// The execution state of a native thread of this process.
    pub fn init_thread(&mut self, init: ThreadInitializer) -> (r: ThreadContext)
        requires
            old(self).tls.free@.len() > 0 || old(self).tls.next_offset < 255,
        ensures
            r.ctx.regs@[13] == init.stack_top,
            r.ctx.regs@[15] == init.entrypoint,
            r.ctx.regs@[0] == init.arg,
            r.tls == spec_tls_address(spec_refilled(&old(self).tls).last()),
    {
        self.new_thread(init.entrypoint, init.stack_top, init.arg)
    }
}

} // verus!
