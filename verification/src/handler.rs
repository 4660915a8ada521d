//! The supervisor calls of guest threads: each call takes its arguments
//! from registers (and guest memory), acts on the kernel, and leaves its
//! results in registers. Calls that the kernel does not support are
//! reported as faults; what only the host can do (start a thread's
//! execution, listen for an interrupt, read the tick counter) is handed
//! back as a request.

use vstd::prelude::*;
use crate::errors::{HANDLE_TYPE_MISMATCH, SESSION_EMPTY, TIMEOUT_REACHED};
use crate::guest::{
    get_svc, make_timeout, spec_bytes, spec_make_timeout, spec_offset, spec_svc_at, Memory, MemoryMap, Protection, RegValue, Regs, SvcResult,
    STACK_SIZE, USERLAND_STACK_BASE,
};
use crate::kernel::Kernel;
use crate::object::{spec_event, spec_timer, EventImpl, KObjectData, KObjectRef, KTypedObject, ObjectType, TimerImpl, TimerImplData};
use crate::svc::{spec_handle_is, spec_made_object, spec_peer_ok, spec_reply_ok, spec_reply_ok_with, spec_receive_ok, spec_all_sync};
use crate::le::{i32_to_le, le_bytes, le_u32_at, read_i32_le, read_u32_le};
use crate::object::{spec_kind, QueuedWaker, Waker};
use crate::sync::{spec_drained, spec_queued, spec_undrained, spec_woken_from};
use crate::types::{ArbitrationAction, ArbitrationFail, ArbitrationType};
use crate::types::{spec_deadline, ResetType, Signal, ThreadWaitType, Timeout};
use crate::types::{spec_raw_or_zero, Handle, HandleImpl, ThreadIndex, ThreadInitializer, ThreadResume, ThreadState};

verus! {

/// Why a supervisor call cannot be carried out.
#[derive(Clone, Copy, Debug, PartialEq, Eq, Structural)]
pub enum SvcFault {
    /// No such supervisor call.
    UnknownSvc(u32),
    /// The call, or this use of it, is not supported.
    Unsupported(u32),
    /// A port other than the service manager's was asked for.
    InvalidPort,
    /// A handle to wait on is not a synchronisation object's.
    InvalidHandles,
    /// The other end of a port or session is gone, or a reply has no
    /// request to answer.
    Disconnected,
    /// A table or counter of the kernel is full.
    Exhausted,
}

/// What the host is to do for a supervisor call.
#[derive(Clone, Copy, Debug, PartialEq, Eq, Structural)]
pub enum SvcRequest {
    Nothing,
    /// Start executing a new thread of the running process.
    StartThread(ThreadIndex, ThreadInitializer),
    /// Activate the interrupt whenever the device raises it.
    ListenInterrupt(u32),
    /// Put the tick counter for this many nanoseconds since start into
    /// registers 0 (low word) and 1 (high word).
    SystemTick(u64),
}

/// The outcome of a supervisor call.
#[derive(Clone, Copy, Debug, PartialEq, Eq, Structural)]
pub struct SvcOutcome {
    pub result: SvcResult,
    pub request: SvcRequest,
}

/// `after` is `before` with the registers in `changes` set.
pub open spec fn spec_regs_after<R: Regs>(before: &R, after: &R, changes: Map<int, u32>) -> bool {
    &&& forall|k: int| 0 <= k < 16 ==> #[trigger] after.spec_reg(k) == if changes.dom().contains(k) {
        changes[k]
    } else {
        before.spec_reg(k)
    }
    &&& after.spec_cpsr() == before.spec_cpsr()
}

/// Continues the running thread.
pub open spec fn spec_continue() -> SvcOutcome {
    SvcOutcome { result: SvcResult::Continue, request: SvcRequest::Nothing }
}

/// Runs another thread.
pub open spec fn spec_reschedule() -> SvcOutcome {
    SvcOutcome { result: SvcResult::Reschedule, request: SvcRequest::Nothing }
}

fn set_reg<R: Regs>(regs: &mut R, reg: u8, v: u32)
    requires
        reg < 16,
    ensures
        spec_regs_after(old(regs), final(regs), map![reg as int => v]),
{
    regs.sr(reg, RegValue::from_u32(v));
}

fn get_reg<R: Regs>(regs: &R, reg: u8) -> (r: u32)
    requires
        reg < 16,
    ensures
        r == regs.spec_reg(reg as int),
{
    regs.r(reg).u32()
}

/// ControlMemory: maps the memory asked for, read and write, and reports
/// success.
fn svc_control_memory<R: Regs, M: MemoryMap>(regs: &mut R, mem: &mut M) -> (r: SvcOutcome)
    ensures
        r == spec_continue(),
        spec_regs_after(old(regs), final(regs), map![0int => 0u32]),
        spec_svc_mapped(0x01, old(regs), old(mem), final(mem)),
{
    let addr0 = get_reg(regs, 1);
    let size = get_reg(regs, 3);
    mem.map(addr0, size, "ControlMemory", None, Protection::ReadWrite);
    set_reg(regs, 0, 0);
    SvcOutcome { result: SvcResult::Continue, request: SvcRequest::Nothing }
}

/// What QueryMemory puts in the registers, and what it returns.
pub open spec fn spec_query_memory_done<R: Regs>(r0: &R, r1: &R, r: Result<SvcOutcome, SvcFault>) -> bool {
    let addr = r0.spec_reg(2);
    &&& USERLAND_STACK_BASE - STACK_SIZE <= addr < USERLAND_STACK_BASE ==> r == Ok::<SvcOutcome, SvcFault>(
        spec_continue(),
    ) && spec_regs_after(
        r0,
        r1,
        map![0int => 0u32, 1int => (USERLAND_STACK_BASE - STACK_SIZE) as u32, 2int => STACK_SIZE, 3int => 3u32, 4int => 3u32, 5int => 0u32],
    )
    &&& 0x08000000 < addr < USERLAND_STACK_BASE - STACK_SIZE ==> r == Ok::<SvcOutcome, SvcFault>(spec_continue())
        && spec_regs_after(
        r0,
        r1,
        map![0int => 0u32, 1int => 0x08000000u32, 2int => (0x08000000 - STACK_SIZE) as u32, 3int => 0u32, 4int => 0u32, 5int => 0u32],
    )
    &&& !(USERLAND_STACK_BASE - STACK_SIZE <= addr < USERLAND_STACK_BASE) && !(0x08000000 < addr
        < USERLAND_STACK_BASE - STACK_SIZE) ==> r == Err::<SvcOutcome, SvcFault>(SvcFault::Unsupported(0x02))
        && *r1 == *r0
}

/// QueryMemory, for the main thread's stack and for the unmapped range
/// below it: base, size, permission, state and flags.
fn svc_query_memory<R: Regs>(regs: &mut R) -> (r: Result<SvcOutcome, SvcFault>)
    ensures
        spec_query_memory_done(old(regs), final(regs), r),
{
    let addr = get_reg(regs, 2);
    if addr >= USERLAND_STACK_BASE - STACK_SIZE && addr < USERLAND_STACK_BASE {
        set_reg(regs, 0, 0);
        set_reg(regs, 1, USERLAND_STACK_BASE - STACK_SIZE);
        set_reg(regs, 2, STACK_SIZE);
        set_reg(regs, 3, 3);
        set_reg(regs, 4, 3);
        set_reg(regs, 5, 0);
        Ok(SvcOutcome { result: SvcResult::Continue, request: SvcRequest::Nothing })
    } else if addr > 0x08000000 && addr < USERLAND_STACK_BASE - STACK_SIZE {
        set_reg(regs, 0, 0);
        set_reg(regs, 1, 0x08000000);
        set_reg(regs, 2, 0x08000000 - STACK_SIZE);
        set_reg(regs, 3, 0);
        set_reg(regs, 4, 0);
        set_reg(regs, 5, 0);
        Ok(SvcOutcome { result: SvcResult::Continue, request: SvcRequest::Nothing })
    } else {
        Err(SvcFault::Unsupported(0x02))
    }
}

/// Whether the running process can take one more handle.
fn handle_room(kctx: &Kernel) -> (r: bool)
    requires
        kctx.wf(),
        kctx.spec_current().is_some(),
    ensures
        r == (kctx.current_process_spec().handles().dom().len() < u32::MAX),
{
    kctx.current_handle_count() < 0xFFFF_FFFFusize
}

/// A 64-bit signed value from its low and high words.
pub open spec fn spec_join(low: u32, high: u32) -> i64 {
    ((high as u64) * 0x1_0000_0000 + low as u64) as i64
}

fn join(low: u32, high: u32) -> (r: i64)
    ensures
        r == spec_join(low, high),
{
    let v: u64 = ((high as u64) << 32u64) | (low as u64);
    assert(v == (high as u64) * 0x1_0000_0000 + low as u64) by (bit_vector)
        requires
            v == ((high as u64) << 32u64) | (low as u64),
    ;
    v as i64
}

/// What CreateThread does to the registers (`r0` before, `r1` after) and the kernel (`k0`, `k1`), and what it returns.
pub open spec fn spec_create_thread_done<R: Regs>(r0: &R, r1: &R, k0: &Kernel, k1: &Kernel, r: Result<SvcOutcome, SvcFault>) -> bool {
    &&& k0.spec_next_tid() == u32::MAX || k0.current_process_spec().handles().dom().len() >= u32::MAX ==> r
        == Err::<SvcOutcome, SvcFault>(SvcFault::Exhausted) && *r1 == *r0 && *k1 == *k0
    &&& k0.spec_next_tid() < u32::MAX && k0.current_process_spec().handles().dom().len() < u32::MAX ==> {
        let index = ThreadIndex(k0.spec_next_tid() as usize);
        let init = ThreadInitializer {
            entrypoint: r0.spec_reg(1),
            stack_top: r0.spec_reg(3),
            arg: r0.spec_reg(2),
        };
        let h = r1.spec_reg(1);
        &&& r == Ok::<SvcOutcome, SvcFault>(
            SvcOutcome { result: SvcResult::Reschedule, request: SvcRequest::StartThread(index, init) },
        )
        &&& spec_regs_after(r0, r1, map![0int => 0u32, 1int => h])
        &&& h != 0
        &&& !k0.current_process_spec().handles().dom().contains(h)
        &&& k1.current_process_spec().handles() == k0.current_process_spec().handles().insert(
            h,
            KObjectRef(k0.spec_objects()@.len() as usize),
        )
        &&& k1.spec_threads()@.last().index == index
        &&& k1.spec_threads()@.last().state == ThreadState::Ready
        &&& k1.spec_next() == Some(index)
    }
}

/// CreateThread: adds a thread to the running process, gives it a handle
/// in register 1, runs it next, and asks the host to start it at the entry
/// point in register 1 with the argument in register 2 and the stack top
/// in register 3.
fn svc_create_thread<R: Regs>(regs: &mut R, kctx: &mut Kernel) -> (r: Result<SvcOutcome, SvcFault>)
    requires
        old(kctx).wf(),
        old(kctx).spec_current().is_some(),
    ensures
        final(kctx).wf(),
        final(kctx).spec_current() == old(kctx).spec_current(),
        spec_create_thread_done(old(regs), final(regs), old(kctx), final(kctx), r),
{
    if kctx.next_tid() == 0xFFFF_FFFFu32 || !handle_room(kctx) {
        return Err(SvcFault::Exhausted);
    }
    let entrypoint = get_reg(regs, 1);
    let arg = get_reg(regs, 2);
    let stack_top = get_reg(regs, 3);
    let (index, handle) = kctx.create_thread();
    set_reg(regs, 0, 0);
    set_reg(regs, 1, handle.raw());
    kctx.schedule_next(index);
    Ok(
        SvcOutcome {
            result: SvcResult::Reschedule,
            request: SvcRequest::StartThread(index, ThreadInitializer { entrypoint, stack_top, arg }),
        },
    )
}

/// ExitThread: ends the running thread.
fn svc_exit_thread(kctx: &mut Kernel) -> (r: SvcOutcome)
    requires
        old(kctx).wf(),
        old(kctx).spec_current().is_some(),
        old(kctx).current_thread_spec().state == ThreadState::Running,
    ensures
        final(kctx).wf(),
        r == spec_reschedule(),
        final(kctx).spec_current() == old(kctx).spec_current(),
        final(kctx).current_thread_spec().state == ThreadState::Done,
{
    kctx.exit_thread();
    SvcOutcome { result: SvcResult::Reschedule, request: SvcRequest::Nothing }
}

/// SleepThread: the running thread sleeps for the nanoseconds in registers
/// 0 (low word) and 1 (high word).
fn svc_sleep_thread<R: Regs>(regs: &R, kctx: &mut Kernel) -> (r: SvcOutcome)
    requires
        old(kctx).wf(),
        old(kctx).spec_current().is_some(),
        old(kctx).current_thread_spec().state == ThreadState::Running,
    ensures
        final(kctx).wf(),
        r == spec_reschedule(),
        final(kctx).spec_current() == old(kctx).spec_current(),
        final(kctx).current_thread_spec().state == ThreadState::Waiting,
        final(kctx).current_thread_spec().wait_type == Some(ThreadWaitType::Sleep),
        final(kctx).current_thread_spec().wait_objects@.len() == 0,
        final(kctx).current_thread_spec().wait_timeout.is_some() == (spec_make_timeout(regs.spec_reg(0), regs.spec_reg(1))
            != Timeout::Forever),
        final(kctx).current_thread_spec().wait_timeout == spec_deadline(
            spec_make_timeout(regs.spec_reg(0), regs.spec_reg(1)),
            final(kctx).spec_last_time(),
        ),
{
    let time = make_timeout(get_reg(regs, 0), get_reg(regs, 1));
    let now = kctx.read_time();
    let deadline = time.deadline(now);
    let _ = kctx.suspend_thread(Vec::new(), deadline, ThreadWaitType::Sleep);
    SvcOutcome { result: SvcResult::Reschedule, request: SvcRequest::Nothing }
}

/// What CreateEvent (or, for `timer`, CreateTimer) does to the registers and the kernel, and what it returns.
pub open spec fn spec_create_sync_done<R: Regs>(timer: bool, r0: &R, r1: &R, k0: &Kernel, k1: &Kernel, r: Result<SvcOutcome, SvcFault>) -> bool {
    &&& r0.spec_reg(1) > 2 ==> r == Err::<SvcOutcome, SvcFault>(SvcFault::Unsupported(if timer { 0x1Au32 } else { 0x17u32 }))
        && *k1 == *k0
    &&& r0.spec_reg(1) <= 2 && k0.current_process_spec().handles().dom().len() >= u32::MAX ==> r
        == Err::<SvcOutcome, SvcFault>(SvcFault::Exhausted) && *k1 == *k0
    &&& r0.spec_reg(1) <= 2 && k0.current_process_spec().handles().dom().len() < u32::MAX ==> {
        let reset_type = ResetType::spec_from_raw(r0.spec_reg(1));
        let signal = Signal { reset_type, signaled: false };
        let data = if timer {
            KObjectData::Timer(TimerImpl { signal, data: TimerImplData { next_ns: -1i64, interval: -1i64 } })
        } else {
            KObjectData::Event(EventImpl { signal })
        };
        &&& r == Ok::<SvcOutcome, SvcFault>(spec_continue())
        &&& spec_regs_after(r0, r1, map![0int => 0u32, 1int => r1.spec_reg(1)])
        &&& spec_made_object(k0, k1, data, Handle::spec_of(r1.spec_reg(1)))
    }
}

/// CreateEvent and CreateTimer: makes the object with the reset type in
/// register 1 and puts its handle in register 1.
fn svc_create_sync<R: Regs>(regs: &mut R, kctx: &mut Kernel, timer: bool) -> (r: Result<SvcOutcome, SvcFault>)
    requires
        old(kctx).wf(),
        old(kctx).spec_current().is_some(),
    ensures
        final(kctx).spec_current() == old(kctx).spec_current(),
        final(kctx).wf(),
        spec_create_sync_done(timer, old(regs), final(regs), old(kctx), final(kctx), r),
{
    let raw = get_reg(regs, 1);
    if raw > 2 {
        return Err(SvcFault::Unsupported(if timer { 0x1A } else { 0x17 }));
    }
    if !handle_room(kctx) {
        return Err(SvcFault::Exhausted);
    }
    let reset_type = ResetType::from_raw(raw);
    let res = if timer {
        crate::svc::create_timer(kctx, reset_type)
    } else {
        crate::svc::create_event(kctx, reset_type)
    };
    let h = match res {
        Ok(h) => h,
        Err(_) => {
            return Err(SvcFault::Exhausted);
        },
    };
    set_reg(regs, 0, 0);
    set_reg(regs, 1, h.raw());
    proof {
        Handle::lemma_of_raw(h);
    }
    Ok(SvcOutcome { result: SvcResult::Continue, request: SvcRequest::Nothing })
}

/// What SignalEvent does to the registers and the kernel, and what it returns.
pub open spec fn spec_signal_event_done<R: Regs>(r0: &R, r1: &R, k0: &Kernel, k1: &Kernel, r: SvcOutcome) -> bool {
    &&& spec_handle_is(k0, Handle::spec_from(r0.spec_reg(0)), ObjectType::KEvent) ==> r == spec_reschedule()
        && spec_regs_after(r0, r1, map![0int => 0u32]) && crate::svc::spec_event_signalled(
        k0,
        k1,
        k0.spec_lookup(Handle::spec_from(r0.spec_reg(0))).unwrap(),
    )
    &&& !spec_handle_is(k0, Handle::spec_from(r0.spec_reg(0)), ObjectType::KEvent) ==> r == spec_continue()
        && spec_regs_after(r0, r1, map![0int => HANDLE_TYPE_MISMATCH]) && *k1 == *k0
}

/// SignalEvent: signals the event whose handle is in register 0 and runs
/// another thread; register 0 gets the result code.
fn svc_signal_event<R: Regs>(regs: &mut R, kctx: &mut Kernel) -> (r: SvcOutcome)
    requires
        old(kctx).wf(),
        old(kctx).spec_current().is_some(),
    ensures
        final(kctx).wf(),
        final(kctx).spec_current() == old(kctx).spec_current(),
        spec_signal_event_done(old(regs), final(regs), old(kctx), final(kctx), r),
{
    let handle = Handle::from_raw(get_reg(regs, 0));
    match crate::svc::signal_event(kctx, handle) {
        Ok(()) => {
            set_reg(regs, 0, 0);
            SvcOutcome { result: SvcResult::Reschedule, request: SvcRequest::Nothing }
        },
        Err(e) => {
            set_reg(regs, 0, e);
            SvcOutcome { result: SvcResult::Continue, request: SvcRequest::Nothing }
        },
    }
}

/// What ClearEvent (or, for `timer`, CancelTimer) does to the registers and the kernel, and what it returns.
pub open spec fn spec_reset_sync_done<R: Regs>(timer: bool, r0: &R, r1: &R, k0: &Kernel, k1: &Kernel, r: SvcOutcome) -> bool {
    let ty = if timer { ObjectType::KTimer } else { ObjectType::KEvent };
    let h = Handle::spec_from(r0.spec_reg(0));
    &&& r == spec_continue()
    &&& spec_handle_is(k0, h, ty) ==> {
        let o = k0.spec_lookup(h).unwrap();
        &&& spec_regs_after(r0, r1, map![0int => 0u32])
        &&& k0.spec_objects().same_except(&k1.spec_objects(), o)
        &&& !timer ==> k1.spec_objects().obj(o).data is Event && !spec_event(
            k1.spec_objects().obj(o).data,
        ).signal.signaled
        &&& timer ==> k1.spec_objects().obj(o).data is Timer && spec_timer(
            k1.spec_objects().obj(o).data,
        ).data == (TimerImplData { next_ns: -1i64, interval: -1i64 })
        &&& k1.spec_threads() == k0.spec_threads()
    }
    &&& !spec_handle_is(k0, h, ty) ==> spec_regs_after(
        r0,
        r1,
        map![0int => HANDLE_TYPE_MISMATCH],
    ) && *k1 == *k0
}

/// ClearEvent and CancelTimer: clears the event, or disarms the timer,
/// whose handle is in register 0; register 0 gets the result code.
fn svc_reset_sync<R: Regs>(regs: &mut R, kctx: &mut Kernel, timer: bool) -> (r: SvcOutcome)
    requires
        old(kctx).wf(),
        old(kctx).spec_current().is_some(),
    ensures
        final(kctx).wf(),
        final(kctx).spec_current() == old(kctx).spec_current(),
        spec_reset_sync_done(timer, old(regs), final(regs), old(kctx), final(kctx), r),
{
    let handle = Handle::from_raw(get_reg(regs, 0));
    let ty = if timer { ObjectType::KTimer } else { ObjectType::KEvent };
    match crate::svc::lookup_typed(kctx, &handle, ty) {
        Some(o) => {
            let ghost k0 = *kctx;
            let (objs, threads) = kctx.parts_mut();
            if timer {
                objs.timer_cancel(threads, o);
            } else {
                objs.event_clear(threads, o);
            }
            proof {
                Kernel::lemma_keeps_wf(&k0, kctx);
            }
            set_reg(regs, 0, 0);
        },
        None => {
            set_reg(regs, 0, HANDLE_TYPE_MISMATCH);
        },
    }
    SvcOutcome { result: SvcResult::Continue, request: SvcRequest::Nothing }
}

/// What SetTimer does to the registers and the kernel, and what it returns.
pub open spec fn spec_set_timer_done<R: Regs>(r0: &R, r1: &R, k0: &Kernel, k1: &Kernel, r: SvcOutcome) -> bool {
    let h = Handle::spec_from(r0.spec_reg(0));
    let initial = spec_join(r0.spec_reg(2), r0.spec_reg(3));
    let interval = spec_join(r0.spec_reg(1), r0.spec_reg(4));
    &&& r == spec_continue()
    &&& spec_handle_is(k0, h, ObjectType::KTimer) ==> {
        let o = k0.spec_lookup(h).unwrap();
        &&& spec_regs_after(r0, r1, map![0int => 0u32])
        &&& k0.spec_objects().same_except(&k1.spec_objects(), o)
        &&& k1.spec_objects().obj(o).data == KObjectData::Timer(
            TimerImpl {
                signal: spec_timer(k0.spec_objects().obj(o).data).signal,
                data: TimerImplData { next_ns: initial, interval },
            },
        )
    }
    &&& !spec_handle_is(k0, h, ObjectType::KTimer) ==> spec_regs_after(
        r0,
        r1,
        map![0int => HANDLE_TYPE_MISMATCH],
    ) && *k1 == *k0
}

/// SetTimer: arms the timer whose handle is in register 0; the period is
/// in registers 1 (low) and 4 (high), the first deadline in registers 2
/// (low) and 3 (high). Register 0 gets the result code.
fn svc_set_timer<R: Regs>(regs: &mut R, kctx: &mut Kernel) -> (r: SvcOutcome)
    requires
        old(kctx).wf(),
        old(kctx).spec_current().is_some(),
    ensures
        final(kctx).wf(),
        final(kctx).spec_current() == old(kctx).spec_current(),
        spec_set_timer_done(old(regs), final(regs), old(kctx), final(kctx), r),
{
    let handle = Handle::from_raw(get_reg(regs, 0));
    let interval = join(get_reg(regs, 1), get_reg(regs, 4));
    let initial = join(get_reg(regs, 2), get_reg(regs, 3));
    match crate::svc::set_timer(kctx, handle, initial, interval) {
        Ok(()) => set_reg(regs, 0, 0),
        Err(e) => set_reg(regs, 0, e),
    }
    SvcOutcome { result: SvcResult::Continue, request: SvcRequest::Nothing }
}

/// CreateMemoryBlock: reports success and a fixed handle.
fn svc_create_memory_block<R: Regs>(regs: &mut R) -> (r: SvcOutcome)
    ensures
        r == spec_continue(),
        spec_regs_after(old(regs), final(regs), map![0int => 0u32, 1int => 0xA000u32]),
{
    set_reg(regs, 0, 0);
    set_reg(regs, 1, 0xA000);
    SvcOutcome { result: SvcResult::Continue, request: SvcRequest::Nothing }
}

/// MapMemoryBlock: maps 0x22000 bytes at the address in register 1.
fn svc_map_memory_block<R: Regs, M: MemoryMap>(regs: &mut R, mem: &mut M) -> (r: SvcOutcome)
    ensures
        r == spec_continue(),
        spec_regs_after(old(regs), final(regs), map![0int => 0u32]),
        spec_svc_mapped(0x1F, old(regs), old(mem), final(mem)),
{
    let addr = get_reg(regs, 1);
    mem.map(addr, 0x22000, "MapMemoryBlock", None, Protection::ReadWrite);
    set_reg(regs, 0, 0);
    SvcOutcome { result: SvcResult::Continue, request: SvcRequest::Nothing }
}

/// What CreateAddressArbiter does to the registers and the kernel, and what it returns.
pub open spec fn spec_create_arbiter_done<R: Regs>(r0: &R, r1: &R, k0: &Kernel, k1: &Kernel, r: Result<SvcOutcome, SvcFault>) -> bool {
    &&& k0.current_process_spec().handles().dom().len() >= u32::MAX ==> r == Err::<SvcOutcome, SvcFault>(
        SvcFault::Exhausted,
    ) && *k1 == *k0
    &&& k0.current_process_spec().handles().dom().len() < u32::MAX ==> {
        &&& r == Ok::<SvcOutcome, SvcFault>(spec_continue())
        &&& spec_regs_after(r0, r1, map![0int => 0u32, 1int => r1.spec_reg(1)])
        &&& spec_made_object(
            k0,
            k1,
            KObjectData::Arbiter(crate::object::ArbiterImpl { signals: 0 }),
            Handle::spec_of(r1.spec_reg(1)),
        )
    }
}

/// CreateAddressArbiter: register 0 gets the result code, register 1 the
/// new arbiter's handle.
fn svc_create_address_arbiter<R: Regs>(regs: &mut R, kctx: &mut Kernel) -> (r: Result<SvcOutcome, SvcFault>)
    requires
        old(kctx).wf(),
        old(kctx).spec_current().is_some(),
    ensures
        final(kctx).spec_current() == old(kctx).spec_current(),
        final(kctx).wf(),
        spec_create_arbiter_done(old(regs), final(regs), old(kctx), final(kctx), r),
{
    if !handle_room(kctx) {
        return Err(SvcFault::Exhausted);
    }
    let h = match crate::svc::create_address_arbiter(kctx) {
        Ok(h) => h,
        Err(_) => {
            return Err(SvcFault::Exhausted);
        },
    };
    set_reg(regs, 0, 0);
    set_reg(regs, 1, h.raw());
    proof {
        Handle::lemma_of_raw(h);
    }
    Ok(SvcOutcome { result: SvcResult::Continue, request: SvcRequest::Nothing })
}

/// What CloseHandle does to the registers and the kernel, and what it returns.
pub open spec fn spec_close_handle_done<R: Regs>(r0: &R, r1: &R, k0: &Kernel, k1: &Kernel, r: SvcOutcome) -> bool {
    let h = Handle::spec_from(r0.spec_reg(0));
    &&& r == spec_continue()
    &&& k0.spec_lookup(h).is_some() ==> spec_regs_after(r0, r1, map![0int => 0u32])
    &&& k0.spec_lookup(h).is_none() ==> spec_regs_after(
        r0,
        r1,
        map![0int => HANDLE_TYPE_MISMATCH],
    )
    &&& h matches Some(hh) ==> k1.current_process_spec().handles()
        == k0.current_process_spec().handles().remove(hh.spec_raw())
    &&& h is None ==> *k1 == *k0
    &&& k1.spec_threads() == k0.spec_threads()
    &&& k1.spec_objects()@ == k0.spec_objects()@
    &&& k0.spec_lookup(h).is_some() ==> crate::kernel::spec_released(
        &k0.spec_objects(),
        &k1.spec_objects(),
        k0.spec_lookup(h).unwrap(),
    )
    &&& k0.spec_lookup(h).is_none() ==> k0.spec_objects().same_counts(&k1.spec_objects())
}

/// CloseHandle: closes the handle in register 0; register 0 gets the
/// result code.
fn svc_close_handle<R: Regs>(regs: &mut R, kctx: &mut Kernel) -> (r: SvcOutcome)
    requires
        old(kctx).wf(),
        old(kctx).spec_current().is_some(),
    ensures
        final(kctx).wf(),
        final(kctx).spec_current() == old(kctx).spec_current(),
        spec_close_handle_done(old(regs), final(regs), old(kctx), final(kctx), r),
{
    let handle = Handle::from_raw(get_reg(regs, 0));
    match crate::svc::close_handle(kctx, handle) {
        Ok(()) => set_reg(regs, 0, 0),
        Err(e) => set_reg(regs, 0, e),
    }
    SvcOutcome { result: SvcResult::Continue, request: SvcRequest::Nothing }
}

/// DuplicateHandle: reports success; register 1 keeps the handle.
fn svc_duplicate_handle<R: Regs>(regs: &mut R) -> (r: SvcOutcome)
    ensures
        r == spec_continue(),
        spec_regs_after(old(regs), final(regs), map![0int => 0u32]),
{
    set_reg(regs, 0, 0);
    SvcOutcome { result: SvcResult::Continue, request: SvcRequest::Nothing }
}

/// GetProcessInfo, for the amount of physical memory of the running
/// process only.
fn svc_get_process_info<R: Regs>(regs: &mut R) -> (r: Result<SvcOutcome, SvcFault>)
    ensures
        old(regs).spec_reg(1) == 0xFFFF8001 && old(regs).spec_reg(2) == 20 ==> r == Ok::<SvcOutcome, SvcFault>(
            spec_continue(),
        ) && spec_regs_after(old(regs), final(regs), map![0int => 0u32, 1int => 0xA0000000u32, 2int => 0u32]),
        !(old(regs).spec_reg(1) == 0xFFFF8001 && old(regs).spec_reg(2) == 20) ==> r == Err::<SvcOutcome, SvcFault>(
            SvcFault::Unsupported(0x2B),
        ) && *final(regs) == *old(regs),
{
    let handle = get_reg(regs, 1);
    let typ = get_reg(regs, 2);
    if handle == 0xFFFF8001 && typ == 20 {
        set_reg(regs, 0, 0);
        set_reg(regs, 1, 0xA0000000);
        set_reg(regs, 2, 0);
        Ok(SvcOutcome { result: SvcResult::Continue, request: SvcRequest::Nothing })
    } else {
        Err(SvcFault::Unsupported(0x2B))
    }
}

/// What BindInterrupt does to the registers and the kernel, and what it returns.
pub open spec fn spec_bind_interrupt_done<R: Regs>(r0: &R, r1: &R, k0: &Kernel, k1: &Kernel, r: SvcOutcome) -> bool {
    let name = r0.spec_reg(0);
    let h = Handle::spec_from(r0.spec_reg(1));
    &&& spec_handle_is(k0, h, ObjectType::KEvent) ==> {
        &&& r == (SvcOutcome { result: SvcResult::Continue, request: SvcRequest::ListenInterrupt(name) })
        &&& spec_regs_after(r0, r1, map![0int => 0u32])
        &&& k1.spec_interrupts() == k0.spec_interrupts().insert(
            name,
            KTypedObject { object: k0.spec_lookup(h).unwrap(), ty: ObjectType::KEvent },
        )
    }
    &&& !spec_handle_is(k0, h, ObjectType::KEvent) ==> r == spec_continue() && spec_regs_after(
        r0,
        r1,
        map![0int => HANDLE_TYPE_MISMATCH],
    ) && *k1 == *k0
    &&& k1.spec_threads() == k0.spec_threads()
    &&& k1.spec_objects()@ == k0.spec_objects()@
}

/// BindInterrupt: binds the interrupt in register 0 to the event whose
/// handle is in register 1 and asks the host to listen for it; register 0
/// gets the result code.
fn svc_bind_interrupt<R: Regs>(regs: &mut R, kctx: &mut Kernel) -> (r: SvcOutcome)
    requires
        old(kctx).wf(),
        old(kctx).spec_current().is_some(),
    ensures
        final(kctx).wf(),
        final(kctx).spec_current() == old(kctx).spec_current(),
        spec_bind_interrupt_done(old(regs), final(regs), old(kctx), final(kctx), r),
{
    let name = get_reg(regs, 0);
    let handle = Handle::from_raw(get_reg(regs, 1));
    match crate::svc::lookup_typed(kctx, &handle, ObjectType::KEvent) {
        Some(o) => {
            kctx.acquire_object(o);
            kctx.bind_interrupt(name, KTypedObject { object: o, ty: ObjectType::KEvent });
            set_reg(regs, 0, 0);
            SvcOutcome { result: SvcResult::Continue, request: SvcRequest::ListenInterrupt(name) }
        },
        None => {
            set_reg(regs, 0, HANDLE_TYPE_MISMATCH);
            SvcOutcome { result: SvcResult::Continue, request: SvcRequest::Nothing }
        },
    }
}

/// The `count` handles whose words lie in guest memory from `addr` on; a
/// zero word is no handle.
pub open spec fn spec_handles_at<M: Memory>(mem: &M, addr: u32, count: nat) -> Seq<Option<Handle>> {
    Seq::new(count, |k: int| Handle::spec_from(le_u32_at(spec_bytes(mem, addr, 4 * count), 4 * k)))
}

/// The IPC message a thread left in its thread-local storage at `tls`:
/// the bytes from offset 0x80 on.
pub open spec fn spec_tls_message<M: Memory>(mem: &M, tls: u32) -> Seq<u8> {
    spec_bytes(mem, (tls + 0x80) as u32, crate::ipc::IPC_REQUEST_SIZE as nat)
}

/// Reads `count` handle words from guest memory at `addr`; a zero word is
/// no handle.
fn read_handles<M: Memory>(mem: &M, addr: u32, count: u32) -> (r: Vec<Option<Handle>>)
    requires
        count < 0x4000_0000,
    ensures
        r@ == spec_handles_at(mem, addr, count as nat),
{
    let n: usize = count as usize;
    let mut bytes: Vec<u8> = Vec::new();
    let mut i: usize = 0;
    while i < 4 * n
        invariant
            n == count,
            count < 0x4000_0000,
            i <= 4 * n,
            bytes@.len() == i,
        decreases 4 * n - i,
    {
        bytes.push(0);
        i = i + 1;
    }
    mem.read(addr, &mut bytes);
    assert(bytes@ =~= spec_bytes(mem, addr, 4 * count as nat));
    let ghost want = spec_handles_at(mem, addr, count as nat);
    let mut handles: Vec<Option<Handle>> = Vec::new();
    let mut k: usize = 0;
    while k < n
        invariant
            n == count,
            count < 0x4000_0000,
            bytes@.len() == 4 * n,
            bytes@ == spec_bytes(mem, addr, 4 * count as nat),
            want == spec_handles_at(mem, addr, count as nat),
            k <= n,
            handles@ == want.subrange(0, k as int),
        decreases n - k,
    {
        let w = crate::le::read_word(bytes.as_slice(), 4 * k);
        handles.push(Handle::from_raw(w));
        k = k + 1;
        assert(handles@ =~= want.subrange(0, k as int));
    }
    assert(handles@ =~= want);
    handles
}

/// Copies the IPC message the running thread left in its thread-local
/// storage (at offset 0x80) into its IPC data area.
fn load_ipc<M: Memory>(mem: &M, tls: u32, kctx: &mut Kernel)
    requires
        old(kctx).wf(),
        old(kctx).spec_current().is_some(),
        tls <= u32::MAX - 0x180,
    ensures
        final(kctx).wf(),
        final(kctx).spec_current() == old(kctx).spec_current(),
        final(kctx).spec_objects() == old(kctx).spec_objects(),
        final(kctx).spec_processes() == old(kctx).spec_processes(),
        old(kctx).spec_threads().same_threads(&final(kctx).spec_threads()),
        old(kctx).same_schedule(final(kctx)),
        final(kctx).current_thread_spec().state == old(kctx).current_thread_spec().state,
        final(kctx).current_thread_spec().wake_key == old(kctx).current_thread_spec().wake_key,
        forall|i: int| 0 <= i < old(kctx).spec_threads()@.len() && i != old(kctx).current_thread_pos()
            ==> #[trigger] final(kctx).spec_threads()@[i] == old(kctx).spec_threads()@[i],
        final(kctx).current_thread_spec().ipc_data@ == spec_tls_message(mem, tls),
        final(kctx).current_thread_spec().wait_objects == old(kctx).current_thread_spec().wait_objects,
{
    let mut data: Vec<u8> = Vec::new();
    let mut i: usize = 0;
    while i < crate::ipc::IPC_REQUEST_SIZE
        invariant
            i <= crate::ipc::IPC_REQUEST_SIZE,
            data@.len() == i,
        decreases crate::ipc::IPC_REQUEST_SIZE - i,
    {
        data.push(0);
        i = i + 1;
    }
    mem.read(tls + 0x80, &mut data);
    assert(data@ =~= spec_tls_message(mem, tls));
    let ghost k0 = *kctx;
    kctx.set_thread_ipc_data(data.as_slice());
    proof {
        k0.spec_threads().lemma_pos(k0.spec_current().unwrap().1);
        crate::sync::lemma_thread_at(&kctx.spec_threads(), k0.current_thread_pos());
        assert(kctx.spec_threads()@[k0.current_thread_pos()].index == k0.spec_threads()@[k0.current_thread_pos()].index);
    }
}

/// What ArbitrateAddress does to the registers, guest memory (`m0`, `m1`) and the kernel, and what it returns.
pub open spec fn spec_arbitrate_done<R: Regs, M: Memory>(r0: &R, r1: &R, m0: &M, m1: &M, k0: &Kernel, k1: &Kernel, r: Result<SvcOutcome, SvcFault>) -> bool {
    let h = Handle::spec_from(r0.spec_reg(0));
    let addr = r0.spec_reg(1);
    let typ = r0.spec_reg(2);
    &&& forall|a: u32| spec_offset(r0.spec_reg(1), a) >= 4 ==> #[trigger] m1.spec_byte(a) == m0.spec_byte(a)
    &&& typ > 4 ==> r == Err::<SvcOutcome, SvcFault>(SvcFault::Unsupported(0x22)) && *k1 == *k0
        && *r1 == *r0
    &&& typ <= 4 && !spec_handle_is(k0, h, ObjectType::KAddressArbiter) ==> r == Ok::<SvcOutcome, SvcFault>(
        spec_continue(),
    ) && spec_regs_after(r0, r1, map![0int => HANDLE_TYPE_MISMATCH]) && *k1 == *k0
    &&& r is Ok && typ <= 4 && spec_handle_is(k0, h, ObjectType::KAddressArbiter) ==> spec_regs_after(
        r0,
        r1,
        map![0int => 0u32],
    )
    &&& r == Ok::<SvcOutcome, SvcFault>(spec_reschedule()) ==> {
        let o = k0.spec_lookup(h).unwrap();
        &&& k1.current_thread_spec().state == ThreadState::Waiting
        &&& k1.current_thread_spec().wait_type == Some(ThreadWaitType::Arbiter)
        &&& k1.current_thread_spec().wait_objects@ == seq![o]
        &&& k1.spec_objects().obj(o).wakers@ == k0.spec_objects().obj(o).wakers@.push(
            QueuedWaker {
                waker: Waker { thread: k0.spec_current().unwrap().1, key: k0.current_thread_spec().wake_key },
                addr,
            },
        )
    }
    &&& ArbitrationType::spec_from_raw(typ) == ArbitrationType::Signal && typ <= 4 && spec_handle_is(
        k0,
        h,
        ObjectType::KAddressArbiter,
    ) ==> r == Ok::<SvcOutcome, SvcFault>(spec_continue())
    &&& spec_arbitration_done(r0, r1, m0, m1, k0, k1, r)
}

/// What ArbitrateAddress does on an arbiter with the word it reads from
/// guest memory: a wait with a timeout is not supported, a wait that is
/// due makes the thread wait, a decrement stores the word less one, and a
/// signal wakes the threads it releases.
pub open spec fn spec_arbitration_done<R: Regs, M: Memory>(
    r0: &R,
    r1: &R,
    m0: &M,
    m1: &M,
    k0: &Kernel,
    k1: &Kernel,
    r: Result<SvcOutcome, SvcFault>,
) -> bool {
    let h = Handle::spec_from(r0.spec_reg(0));
    let addr = r0.spec_reg(1);
    let typ = r0.spec_reg(2);
    let value = r0.spec_reg(3) as i32;
    let is_arbiter = typ <= 4 && spec_handle_is(k0, h, ObjectType::KAddressArbiter);
    let mv = le_u32_at(spec_bytes(m0, addr, 4), 0) as i32;
    let arb = ArbitrationType::spec_from_raw(typ).spec_arbitrate(mv, value);
    let drained = spec_drained(k0.spec_objects().obj(k0.spec_lookup(h).unwrap()).wakers@, addr, value);
    &&& is_arbiter ==> (r == Err::<SvcOutcome, SvcFault>(SvcFault::Unsupported(0x22)) <==> arb.1 == Err::<(), ArbitrationFail>(
        ArbitrationFail::WaitTimeout,
    ))
    &&& is_arbiter ==> (r == Ok::<SvcOutcome, SvcFault>(spec_reschedule()) <==> arb.1 == Err::<(), ArbitrationFail>(
        ArbitrationFail::Wait,
    ))
    &&& is_arbiter && r is Ok && arb.0 == Some(ArbitrationAction::Decrement) ==> forall|a: u32| #[trigger] m1.spec_byte(a)
        == if spec_offset(addr, a) < 4 {
        le_bytes(mv.wrapping_sub(1) as u32)[spec_offset(addr, a)]
    } else {
        m0.spec_byte(a)
    }
    &&& !(is_arbiter && r is Ok && arb.0 == Some(ArbitrationAction::Decrement)) ==> forall|a: u32| #[trigger] m1.spec_byte(a)
        == m0.spec_byte(a)
    &&& is_arbiter && arb.1 == Ok::<(), ArbitrationFail>(()) && arb.0 != Some(ArbitrationAction::Signal) ==> r
        == Ok::<SvcOutcome, SvcFault>(spec_continue()) && *k1 == *k0
    &&& is_arbiter && arb.0 == Some(ArbitrationAction::Signal) && r is Ok ==> {
        &&& forall|tid: ThreadIndex| k0.spec_threads().has(tid) && spec_queued(drained, tid) ==> spec_woken_from(
            k0.spec_threads().thread(tid),
            #[trigger] k1.spec_threads().thread(tid),
        )
        &&& forall|tid: ThreadIndex| k0.spec_threads().has(tid) && !spec_queued(drained, tid) ==> #[trigger] k1.spec_threads().thread(tid)
            == k0.spec_threads().thread(tid)
        &&& k1.spec_objects().obj(k0.spec_lookup(h).unwrap()).wakers@ == spec_undrained(
            k0.spec_objects().obj(k0.spec_lookup(h).unwrap()).wakers@,
            addr,
            value,
        ).filter(|x: QueuedWaker| !spec_queued(drained, x.waker.thread))
    }
}

/// ArbitrateAddress: on the arbiter whose handle is in register 0, at the
/// address in register 1, with the type in register 2 and the value in
/// register 3. A signal wakes threads waiting at the address; a wait reads
/// the word at the address and, when it is less than the value, may
/// decrement it and makes the running thread wait. Register 0 gets the
/// result code.
fn svc_arbitrate_address<R: Regs, M: MemoryMap>(regs: &mut R, mem: &mut M, kctx: &mut Kernel) -> (r: Result<SvcOutcome, SvcFault>)
    requires
        old(kctx).wf(),
        old(kctx).spec_current().is_some(),
        old(kctx).current_thread_spec().state == ThreadState::Running,
    ensures
        final(kctx).wf(),
        final(kctx).spec_current() == old(kctx).spec_current(),
        spec_arbitrate_done(old(regs), final(regs), old(mem), final(mem), old(kctx), final(kctx), r),
{
    let typ_raw = get_reg(regs, 2);
    if typ_raw > 4 {
        return Err(SvcFault::Unsupported(0x22));
    }
    let handle = Handle::from_raw(get_reg(regs, 0));
    let addr = get_reg(regs, 1);
    let typ = ArbitrationType::from_raw(typ_raw);
    let value = get_reg(regs, 3) as i32;
    match crate::svc::lookup_typed(kctx, &handle, ObjectType::KAddressArbiter) {
        None => {
            set_reg(regs, 0, HANDLE_TYPE_MISMATCH);
            Ok(SvcOutcome { result: SvcResult::Continue, request: SvcRequest::Nothing })
        },
        Some(o) => {
            let mut data: Vec<u8> = vec![0u8, 0u8, 0u8, 0u8];
            mem.read(addr, &mut data);
            assert(data@ =~= spec_bytes(mem, addr, 4));
            let memory_value = read_i32_le(data.as_slice());
            let (action, arb_result) = typ.arbitrate(memory_value, value);
            proof {
                crate::types::law_arbitrate_decrement_waits(typ, memory_value, value);
            }
            let waits = match arb_result {
                Ok(()) => false,
                Err(ArbitrationFail::Wait) => true,
                Err(ArbitrationFail::WaitTimeout) => {
                    return Err(SvcFault::Unsupported(0x22));
                },
            };
            match action {
                Some(ArbitrationAction::Decrement) => {
                    let b = i32_to_le(memory_value.wrapping_sub(1));
                    let out: Vec<u8> = vec![b[0], b[1], b[2], b[3]];
                    mem.write(addr, out.as_slice());
                },
                Some(ArbitrationAction::Signal) => {
                    let ghost k0 = *kctx;
                    let (objs, threads) = kctx.parts_mut();
                    let _ = objs.arbiter_signal(threads, o, value, addr);
                    proof {
                        Kernel::lemma_keeps_wf(&k0, kctx);
                    }
                },
                None => {},
            }
            let mut result = SvcResult::Continue;
            if waits {
                let ghost k1 = *kctx;
                let mut objects: Vec<KObjectRef> = Vec::new();
                objects.push(o);
                let waker = kctx.suspend_thread(objects, None, ThreadWaitType::Arbiter);
                let ghost k2 = *kctx;
                proof {
                    let tid = k1.spec_current().unwrap().1;
                    k2.spec_threads().lemma_pos(tid);
                    assert(k2.spec_threads().thread(tid).wait_objects@[0] == o);
                }
                let (objs, threads) = kctx.parts_mut();
                objs.arbiter_wait(threads, o, waker, addr);
                proof {
                    Kernel::lemma_keeps_wf(&k2, kctx);
                }
                result = SvcResult::Reschedule;
            }
            set_reg(regs, 0, 0);
            Ok(SvcOutcome { result, request: SvcRequest::Nothing })
        },
    }
}

/// What WaitSynchronization1 does to the registers and the kernel, and what it returns.
pub open spec fn spec_wait_sync_1_done<R: Regs>(r0: &R, r1: &R, k0: &Kernel, k1: &Kernel, r: SvcOutcome) -> bool {
    let h = Handle::spec_from(r0.spec_reg(0));
    &&& spec_handle_is(k0, h, ObjectType::KSynchronizationObject) ==> {
        &&& r == spec_reschedule()
        &&& spec_regs_after(r0, r1, map![0int => 0u32])
        &&& crate::svc::spec_waited_1(k0, k1, k0.spec_lookup(h).unwrap(), spec_join(r0.spec_reg(2), r0.spec_reg(3)))
    }
    &&& !spec_handle_is(k0, h, ObjectType::KSynchronizationObject) ==> r == spec_continue() && spec_regs_after(
        r0,
        r1,
        map![0int => HANDLE_TYPE_MISMATCH],
    ) && *k1 == *k0
}

/// WaitSynchronization1: the running thread waits on the object whose
/// handle is in register 0, for the nanoseconds in registers 2 (low) and 3
/// (high). Register 0 gets the result code.
fn svc_wait_sync_1<R: Regs>(regs: &mut R, kctx: &mut Kernel) -> (r: SvcOutcome)
    requires
        old(kctx).wf(),
        old(kctx).spec_current().is_some(),
        old(kctx).current_thread_spec().state == ThreadState::Running,
    ensures
        final(kctx).wf(),
        final(kctx).spec_current() == old(kctx).spec_current(),
        spec_wait_sync_1_done(old(regs), final(regs), old(kctx), final(kctx), r),
{
    let handle = Handle::from_raw(get_reg(regs, 0));
    let low = get_reg(regs, 2);
    let high = get_reg(regs, 3);
    let timeout = join(low, high);
    proof {
        let v: u64 = ((high as u64) * 0x1_0000_0000 + low as u64) as u64;
        assert(((v as i64) >= 0) == (v < 0x8000_0000_0000_0000u64)) by (bit_vector);
        assert((high as u64) * 0x1_0000_0000 + low as u64 <= u64::MAX) by (nonlinear_arith)
            requires
                high <= u32::MAX,
                low <= u32::MAX,
        ;
    }
    match crate::svc::wait_sync_1(kctx, handle, timeout) {
        Ok(_) => {
            set_reg(regs, 0, 0);
            SvcOutcome { result: SvcResult::Reschedule, request: SvcRequest::Nothing }
        },
        Err(e) => {
            set_reg(regs, 0, e);
            SvcOutcome { result: SvcResult::Continue, request: SvcRequest::Nothing }
        },
    }
}

/// What WaitSynchronizationN does to the registers and the kernel, and what it returns.
pub open spec fn spec_wait_sync_n_done<R: Regs>(r0: &R, r1: &R, k0: &Kernel, k1: &Kernel, r: Result<SvcOutcome, SvcFault>) -> bool {
    &&& r0.spec_reg(2) >= 0x4000_0000 ==> r == Err::<SvcOutcome, SvcFault>(SvcFault::Exhausted) && *k1
        == *k0
    &&& r is Err ==> *k1 == *k0 && *r1 == *r0
    &&& r is Ok ==> {
        &&& r == Ok::<SvcOutcome, SvcFault>(spec_reschedule())
        &&& spec_regs_after(r0, r1, map![0int => 0u32, 1int => 0xFFFF_FFFFu32])
        &&& k1.current_thread_spec().wait_type == Some(ThreadWaitType::WaitSyncN)
        &&& k1.current_thread_spec().wait_objects@.len() == r0.spec_reg(2)
            || k1.current_thread_spec().state == ThreadState::Ready
    }
}

/// WaitSynchronizationN: the running thread waits on the objects whose
/// handles are in guest memory at the address in register 1 (their number
/// in register 2), for the nanoseconds in registers 4 (low) and 0 (high).
/// Register 0 gets the result code, register 1 minus one.
fn svc_wait_sync_n<R: Regs, M: MemoryMap>(regs: &mut R, mem: &M, kctx: &mut Kernel) -> (r: Result<SvcOutcome, SvcFault>)
    requires
        old(kctx).wf(),
        old(kctx).spec_current().is_some(),
        old(kctx).current_thread_spec().state == ThreadState::Running,
    ensures
        final(kctx).wf(),
        final(kctx).spec_current() == old(kctx).spec_current(),
        spec_wait_sync_n_done(old(regs), final(regs), old(kctx), final(kctx), r),
{
    let addr = get_reg(regs, 1);
    let count = get_reg(regs, 2);
    if count >= 0x4000_0000 {
        return Err(SvcFault::Exhausted);
    }
    let low = get_reg(regs, 4);
    let high = get_reg(regs, 0);
    let handles = read_handles(mem, addr, count);
    if !crate::svc::all_sync(kctx, handles.as_slice()) {
        return Err(SvcFault::InvalidHandles);
    }
    let timeout = join(low, high);
    let _ = crate::svc::wait_sync_n(kctx, handles.as_slice(), false, timeout);
    set_reg(regs, 0, 0);
    set_reg(regs, 1, 0xFFFF_FFFF);
    Ok(SvcOutcome { result: SvcResult::Reschedule, request: SvcRequest::Nothing })
}

/// When ConnectToPort fails: the name in guest memory `m0` at the address
/// in register 1 of `r0` is not `srv:`, the running process of `k0` has
/// no room for the handles, or the port's server end is gone.
pub open spec fn spec_connect_done<R: Regs, M: Memory>(r0: &R, m0: &M, k0: &Kernel, r: Result<SvcOutcome, SvcFault>) -> bool {
    let name = spec_bytes(m0, r0.spec_reg(1), 11);
    let named_srv = name[0] == 0x73u8 && name[1] == 0x72u8 && name[2] == 0x76u8 && name[3] == 0x3Au8 && name[4] == 0u8;
    let key = crate::kernel::spec_port_key(seq![0x73u8, 0x72u8, 0x76u8, 0x3Au8]);
    let registered = k0.spec_ports().dom().contains(key);
    let port = k0.spec_ports()[key].object;
    let n = k0.current_process_spec().handles().dom().len();
    let exhausted = if registered { n + 1 >= u32::MAX } else { n >= u32::MAX };
    let disconnected = registered && k0.spec_objects().has_type(port, ObjectType::KClientPort) && !spec_peer_ok(
        k0,
        port,
        ObjectType::ServerPortHLE,
    );
    &&& r == Err::<SvcOutcome, SvcFault>(SvcFault::InvalidPort) <==> !named_srv
    &&& r == Err::<SvcOutcome, SvcFault>(SvcFault::Exhausted) <==> named_srv && exhausted
    &&& r == Err::<SvcOutcome, SvcFault>(SvcFault::Disconnected) <==> named_srv && !exhausted && disconnected
    &&& r is Err ==> r == Err::<SvcOutcome, SvcFault>(SvcFault::InvalidPort) || r == Err::<SvcOutcome, SvcFault>(
        SvcFault::Exhausted,
    ) || r == Err::<SvcOutcome, SvcFault>(SvcFault::Disconnected)
}

/// ConnectToPort: connects to the port named by the string in guest
/// memory at the address in register 1; only the service manager's port,
/// `srv:`, is known. Register 0 gets the result code, register 1 the
/// session's client handle (zero on failure).
fn svc_connect_to_port<R: Regs, M: MemoryMap>(regs: &mut R, mem: &M, kctx: &mut Kernel) -> (r: Result<SvcOutcome, SvcFault>)
    requires
        old(kctx).wf(),
        old(kctx).spec_current().is_some(),
        old(kctx).current_thread_spec().state == ThreadState::Running,
    ensures
        final(kctx).wf(),
        final(kctx).spec_current() == old(kctx).spec_current(),
        r matches Ok(o) ==> o.request == SvcRequest::Nothing,
        r matches Ok(o) && o.result == SvcResult::Reschedule ==> final(regs).spec_reg(0) == 0 && final(regs).spec_reg(1)
            != 0 && final(kctx).current_process_spec().handles().dom().contains(final(regs).spec_reg(1)),
        r == Ok::<SvcOutcome, SvcFault>(spec_continue()) ==> spec_regs_after(
            old(regs),
            final(regs),
            map![0int => HANDLE_TYPE_MISMATCH, 1int => 0u32],
        ),
        spec_connect_done(old(regs), mem, old(kctx), r),
{
    let ghost k0 = *kctx;
    let name_address = get_reg(regs, 1);
    let mut name: Vec<u8> = vec![0u8, 0u8, 0u8, 0u8, 0u8, 0u8, 0u8, 0u8, 0u8, 0u8, 0u8];
    mem.read(name_address, &mut name);
    assert(name@ =~= spec_bytes(mem, name_address, 11));
    if !(name[0] == 0x73u8 && name[1] == 0x72u8 && name[2] == 0x76u8 && name[3] == 0x3Au8 && name[4] == 0u8) {
        return Err(SvcFault::InvalidPort);
    }
    let srv: Vec<u8> = vec![name[0], name[1], name[2], name[3]];
    assert(srv@ =~= seq![0x73u8, 0x72u8, 0x76u8, 0x3Au8]);
    let port_object = kctx.lookup_port(srv.as_slice());
    let port = match port_object {
        Some(p) => {
            if !handle_room(kctx) {
                return Err(SvcFault::Exhausted);
            }
            proof {
                k0.spec_processes().lemma_pos(k0.spec_current().unwrap().0);
                k0.current_process_spec().lemma_handles_finite();
            }
            kctx.acquire_object(p.object);
            let h = kctx.new_handle(p.object);
            proof {
                assert(kctx.current_process_spec().handles().dom() =~= k0.current_process_spec().handles().dom().insert(h.spec_raw()));
            }
            Some(h)
        },
        None => None,
    };
    if !handle_room(kctx) {
        return Err(SvcFault::Exhausted);
    }
    match crate::svc::lookup_typed(kctx, &port, ObjectType::KClientPort) {
        Some(o) => {
            if !crate::svc::peer_ok(kctx, o, ObjectType::ServerPortHLE) {
                return Err(SvcFault::Disconnected);
            }
        },
        None => {},
    }
    match crate::svc::create_session_to_port(kctx, port) {
        Ok((_, handle)) => {
            set_reg(regs, 0, 0);
            set_reg(regs, 1, handle.raw());
            Ok(SvcOutcome { result: SvcResult::Reschedule, request: SvcRequest::Nothing })
        },
        Err(e) => {
            set_reg(regs, 0, e);
            set_reg(regs, 1, 0);
            Ok(SvcOutcome { result: SvcResult::Continue, request: SvcRequest::Nothing })
        },
    }
}

/// What SendSyncRequest does to the registers and what it returns.
pub open spec fn spec_send_request_done<R: Regs>(r0: &R, r1: &R, k0: &Kernel, k1: &Kernel, r: Result<SvcOutcome, SvcFault>) -> bool {
    let h = Handle::spec_from(r0.spec_reg(0));
    &&& spec_handle_is(k0, h, ObjectType::KClientSession) && spec_peer_ok(
        k0,
        k0.spec_lookup(h).unwrap(),
        ObjectType::ServerSessionHLE,
    ) ==> r == Ok::<SvcOutcome, SvcFault>(spec_reschedule()) && spec_regs_after(r0, r1, map![0int => 0u32])
        && crate::svc::spec_request_sent(k0, k1, k0.spec_lookup(h).unwrap())
    &&& spec_handle_is(k0, h, ObjectType::KClientSession) && !spec_peer_ok(
        k0,
        k0.spec_lookup(h).unwrap(),
        ObjectType::ServerSessionHLE,
    ) ==> r == Err::<SvcOutcome, SvcFault>(SvcFault::Disconnected)
    &&& !spec_handle_is(k0, h, ObjectType::KClientSession) ==> r == Ok::<SvcOutcome, SvcFault>(spec_continue())
        && spec_regs_after(r0, r1, map![0int => HANDLE_TYPE_MISMATCH])
}

/// SendSyncRequest: sends the IPC message in the running thread's
/// thread-local storage on the client session whose handle is in register
/// 0 and waits for the reply. Register 0 gets the result code.
fn svc_send_sync_request<R: Regs, M: MemoryMap>(regs: &mut R, mem: &M, tls: u32, kctx: &mut Kernel) -> (r: Result<
    SvcOutcome,
    SvcFault,
>)
    requires
        old(kctx).wf(),
        old(kctx).spec_current().is_some(),
        old(kctx).current_thread_spec().state == ThreadState::Running,
        tls <= u32::MAX - 0x180,
    ensures
        final(kctx).wf(),
        final(kctx).spec_current() == old(kctx).spec_current(),
        spec_send_request_done(old(regs), final(regs), old(kctx), final(kctx), r),
{
    let handle = Handle::from_raw(get_reg(regs, 0));
    let ghost k0 = *kctx;
    load_ipc(mem, tls, kctx);
    let ghost k1 = *kctx;
    proof {
        assert(k1.spec_lookup(handle) == k0.spec_lookup(handle));
    }
    match crate::svc::lookup_typed(kctx, &handle, ObjectType::KClientSession) {
        Some(o) => {
            if !crate::svc::peer_ok(kctx, o, ObjectType::ServerSessionHLE) {
                return Err(SvcFault::Disconnected);
            }
        },
        None => {},
    }
    match crate::svc::send_sync_request(kctx, handle) {
        Ok(_) => {
            proof {
                let o = k0.spec_lookup(handle).unwrap();
                let s = crate::svc::spec_peer_of(&k0, o);
                let tid = k0.spec_current().unwrap().1;
                assert(crate::svc::spec_peer_of(&k1, o) == s);
                let q = k0.spec_objects().obj(s).wakers@;
                if q.len() > 0 {
                    let u = q[0].waker.thread;
                    assert(crate::sync::waker_ok(&k0.spec_threads(), k0.spec_objects()@[s.0 as int].wakers@[0].waker, s.0 as int));
                    assert(u != tid);
                    k0.spec_threads().lemma_pos(u);
                    k0.spec_threads().lemma_pos(tid);
                    k0.spec_threads().lemma_same_threads(&k1.spec_threads());
                    assert(k1.spec_threads().thread(u) == k0.spec_threads().thread(u));
                }
            }
            set_reg(regs, 0, 0);
            Ok(SvcOutcome { result: SvcResult::Reschedule, request: SvcRequest::Nothing })
        },
        Err(e) => {
            set_reg(regs, 0, e);
            Ok(SvcOutcome { result: SvcResult::Continue, request: SvcRequest::Nothing })
        },
    }
}

/// What AcceptSession does to the registers and the kernel, and what it returns.
pub open spec fn spec_accept_session_done<R: Regs>(r0: &R, r1: &R, k0: &Kernel, k1: &Kernel, r: Result<SvcOutcome, SvcFault>) -> bool {
    let h = Handle::spec_from(r0.spec_reg(1));
    &&& k0.current_process_spec().handles().dom().len() >= u32::MAX ==> r == Err::<SvcOutcome, SvcFault>(
        SvcFault::Exhausted,
    )
    &&& k0.current_process_spec().handles().dom().len() < u32::MAX && !spec_handle_is(
        k0,
        h,
        ObjectType::KServerPort,
    ) ==> r == Ok::<SvcOutcome, SvcFault>(spec_continue()) && spec_regs_after(
        r0,
        r1,
        map![0int => HANDLE_TYPE_MISMATCH],
    ) && *k1 == *k0
    &&& r == Ok::<SvcOutcome, SvcFault>(spec_continue()) && spec_handle_is(k0, h, ObjectType::KServerPort) ==> {
        let o = k0.spec_lookup(h).unwrap();
        let q = crate::object::spec_sessions(k0.spec_objects().obj(o).data);
        &&& q.len() > 0
        &&& spec_regs_after(r0, r1, map![0int => 0u32, 1int => r1.spec_reg(1)])
        &&& k1.current_process_spec().handles() == k0.current_process_spec().handles().insert(
            r1.spec_reg(1),
            q[0].object,
        )
    }
}

/// AcceptSession: accepts a session on the server port whose handle is in
/// register 1. Register 0 gets the result code, register 1 the session's
/// server handle. Waiting for a session to come is not supported.
fn svc_accept_session<R: Regs>(regs: &mut R, kctx: &mut Kernel) -> (r: Result<SvcOutcome, SvcFault>)
    requires
        old(kctx).wf(),
        old(kctx).spec_current().is_some(),
        old(kctx).current_thread_spec().state == ThreadState::Running,
    ensures
        final(kctx).wf(),
        final(kctx).spec_current() == old(kctx).spec_current(),
        spec_accept_session_done(old(regs), final(regs), old(kctx), final(kctx), r),
{
    let handle = Handle::from_raw(get_reg(regs, 1));
    if !handle_room(kctx) {
        return Err(SvcFault::Exhausted);
    }
    match crate::svc::lookup_typed(kctx, &handle, ObjectType::KServerPort) {
        Some(o) => {
            let waiting = match &kctx.objects().get(o).data {
                KObjectData::ServerPort(p) => p.session_queue.len() > 0,
                _ => false,
            };
            if waiting {
                if !crate::svc::peer_ok(kctx, o, ObjectType::ClientPortHLE) {
                    return Err(SvcFault::Disconnected);
                }
                let s = match &kctx.objects().get(o).data {
                    KObjectData::ServerPort(p) => p.session_queue[0].object,
                    _ => o,
                };
                if s.0 >= kctx.objects().len() {
                    return Err(SvcFault::Disconnected);
                }
            }
        },
        None => {},
    }
    match crate::svc::accept_session(kctx, handle) {
        Ok(Ok(server_session)) => {
            set_reg(regs, 0, 0);
            set_reg(regs, 1, server_session.raw());
            Ok(SvcOutcome { result: SvcResult::Continue, request: SvcRequest::Nothing })
        },
        Ok(Err(_)) => Err(SvcFault::Unsupported(0x4A)),
        Err(e) => {
            set_reg(regs, 0, e);
            Ok(SvcOutcome { result: SvcResult::Continue, request: SvcRequest::Nothing })
        },
    }
}

/// When ReplyAndReceive fails, and when it answers with a result code,
/// for registers `r0` (before) and `r1` (after), guest memory `m0`, the
/// thread-local storage at `tls`, and the kernel `k0` (before) and `k1`
/// (after).
pub open spec fn spec_reply_receive_done<R: Regs, M: Memory>(
    r0: &R,
    r1: &R,
    m0: &M,
    tls: u32,
    k0: &Kernel,
    k1: &Kernel,
    r: Result<SvcOutcome, SvcFault>,
) -> bool {
    let count = r0.spec_reg(2);
    let target = Handle::spec_from(r0.spec_reg(3));
    let hs = spec_handles_at(m0, r0.spec_reg(1), count as nat);
    let refused = spec_handle_is(k0, target, ObjectType::KServerSession) && !spec_reply_ok_with(
        k0,
        k0.spec_lookup(target).unwrap(),
        spec_tls_message(m0, tls),
    );
    let mismatched = target is Some && !spec_handle_is(k0, target, ObjectType::KServerSession);
    &&& r == Err::<SvcOutcome, SvcFault>(SvcFault::Exhausted) <==> count >= 0x4000_0000
    &&& r == Err::<SvcOutcome, SvcFault>(SvcFault::Disconnected) <==> count < 0x4000_0000 && refused
    &&& r == Err::<SvcOutcome, SvcFault>(SvcFault::InvalidHandles) <==> count < 0x4000_0000 && !refused && !mismatched
        && !spec_all_sync(k1, hs)
    &&& r == Ok::<SvcOutcome, SvcFault>(spec_continue()) <==> count < 0x4000_0000 && !refused && mismatched
    &&& r is Err ==> r == Err::<SvcOutcome, SvcFault>(SvcFault::Exhausted) || r == Err::<SvcOutcome, SvcFault>(
        SvcFault::Disconnected,
    ) || r == Err::<SvcOutcome, SvcFault>(SvcFault::InvalidHandles)
    &&& count >= 0x4000_0000 ==> *k1 == *k0 && *r1 == *r0
}

/// ReplyAndReceive: replies with the IPC message in the running thread's
/// thread-local storage on the server session whose handle is in register
/// 3 (none when zero), then waits on the handles in guest memory at the
/// address in register 1 (their number in register 2). Register 0 gets
/// the result code when the reply is refused.
fn svc_reply_and_receive<R: Regs, M: MemoryMap>(regs: &mut R, mem: &M, tls: u32, kctx: &mut Kernel) -> (r: Result<
    SvcOutcome,
    SvcFault,
>)
    requires
        old(kctx).wf(),
        old(kctx).spec_current().is_some(),
        old(kctx).current_thread_spec().state == ThreadState::Running,
        tls <= u32::MAX - 0x180,
    ensures
        final(kctx).wf(),
        final(kctx).spec_current() == old(kctx).spec_current(),
        r == Ok::<SvcOutcome, SvcFault>(spec_reschedule()) ==> final(kctx).current_thread_spec().wait_type == Some(
            ThreadWaitType::WaitSyncN,
        ) && *final(regs) == *old(regs),
        r == Ok::<SvcOutcome, SvcFault>(spec_continue()) ==> spec_regs_after(
            old(regs),
            final(regs),
            map![0int => HANDLE_TYPE_MISMATCH],
        ),
        r matches Ok(o) ==> o.request == SvcRequest::Nothing,
        spec_reply_receive_done(old(regs), final(regs), mem, tls, old(kctx), final(kctx), r),
{
    let ghost k0 = *kctx;
    let handles_addr = get_reg(regs, 1);
    let count = get_reg(regs, 2);
    if count >= 0x4000_0000 {
        return Err(SvcFault::Exhausted);
    }
    let reply_target = Handle::from_raw(get_reg(regs, 3));
    load_ipc(mem, tls, kctx);
    let ghost k1 = *kctx;
    let handles = read_handles(mem, handles_addr, count);
    proof {
        assert(k1.spec_lookup(reply_target) == k0.spec_lookup(reply_target));
    }
    match crate::svc::lookup_typed(kctx, &reply_target, ObjectType::KServerSession) {
        Some(s) => {
            proof {
                let q = crate::object::spec_requests(k0.spec_objects().obj(s).data);
                let tid = k0.spec_current().unwrap().1;
                k0.spec_threads().lemma_same_threads(&k1.spec_threads());
                k0.spec_threads().lemma_pos(tid);
                if q.len() > 0 && k0.spec_threads().has(q[0]) {
                    k0.spec_threads().lemma_pos(q[0]);
                    k1.spec_threads().lemma_pos(q[0]);
                }
                k1.spec_threads().lemma_pos(tid);
                assert(spec_reply_ok(&k1, s) == spec_reply_ok_with(&k0, s, spec_tls_message(mem, tls)));
            }
            if !crate::svc::can_reply(kctx, s) {
                return Err(SvcFault::Disconnected);
            }
        },
        None => {},
    }
    match crate::svc::reply_and_receive_pre(kctx, handles.as_slice(), reply_target) {
        Ok(Some(_)) => Ok(SvcOutcome { result: SvcResult::Reschedule, request: SvcRequest::Nothing }),
        Ok(None) => Err(SvcFault::InvalidHandles),
        Err(e) => {
            set_reg(regs, 0, e);
            Ok(SvcOutcome { result: SvcResult::Continue, request: SvcRequest::Nothing })
        },
    }
}

/// Whether a number is that of a supported supervisor call.
pub open spec fn spec_known_svc(svc: u32) -> bool {
    svc == 0x01 || svc == 0x02 || svc == 0x08 || svc == 0x09 || svc == 0x0A || svc == 0x17 || svc == 0x18 || svc
        == 0x19 || svc == 0x1A || svc == 0x1B || svc == 0x1C || svc == 0x1E || svc == 0x1F || svc == 0x21 || svc
        == 0x22 || svc == 0x23 || svc == 0x24 || svc == 0x25 || svc == 0x27 || svc == 0x28 || svc == 0x2B || svc
        == 0x2D || svc == 0x32 || svc == 0x4A || svc == 0x4F || svc == 0x50 || svc == 0x51 || svc == 0x53 || svc
        == 0x54
}

/// What supervisor call number `svc` does: to the registers (`r0` before,
/// `r1` after), guest memory (`m0`, `m1`) and the kernel (`k0`, `k1`), and
/// what it returns.
pub open spec fn spec_svc_done<R: Regs, M: Memory>(
    svc: u32,
    tls: u32,
    r0: &R,
    r1: &R,
    m0: &M,
    m1: &M,
    k0: &Kernel,
    k1: &Kernel,
    r: Result<SvcOutcome, SvcFault>,
) -> bool {
    &&& !spec_known_svc(svc) ==> r == Err::<SvcOutcome, SvcFault>(SvcFault::UnknownSvc(svc)) && *k1 == *k0
        && *r1 == *r0
    &&& svc == 0x01 || svc == 0x1F ==> r == Ok::<SvcOutcome, SvcFault>(spec_continue()) && spec_regs_after(
        r0,
        r1,
        map![0int => 0u32],
    )
    &&& svc == 0x1E ==> r == Ok::<SvcOutcome, SvcFault>(spec_continue()) && spec_regs_after(
        r0,
        r1,
        map![0int => 0u32, 1int => 0xA000u32],
    )
    &&& svc == 0x27 || svc == 0x51 ==> r == Ok::<SvcOutcome, SvcFault>(spec_continue()) && spec_regs_after(
        r0,
        r1,
        map![0int => 0u32],
    )
    &&& svc == 0x53 || svc == 0x54 ==> r == Ok::<SvcOutcome, SvcFault>(spec_continue()) && *r1 == *r0
        && *k1 == *k0
    &&& svc == 0x09 ==> r == Ok::<SvcOutcome, SvcFault>(spec_reschedule()) && k1.current_thread_spec().state
        == ThreadState::Done
    &&& svc == 0x0A ==> r == Ok::<SvcOutcome, SvcFault>(spec_reschedule()) && k1.current_thread_spec().state
        == ThreadState::Waiting && k1.current_thread_spec().wait_type == Some(ThreadWaitType::Sleep)
    &&& svc == 0x28 ==> (r matches Ok(o) && o.result == SvcResult::Continue && o.request is SystemTick) && *r1
        == *r0
    &&& svc == 0x0A ==> *r1 == *r0 && k1.current_thread_spec().wait_objects@.len() == 0
        && k1.current_thread_spec().wait_timeout.is_some() == (spec_make_timeout(r0.spec_reg(0), r0.spec_reg(1))
        != Timeout::Forever) && k1.current_thread_spec().wait_timeout == spec_deadline(
        spec_make_timeout(r0.spec_reg(0), r0.spec_reg(1)),
        k1.spec_last_time(),
    )
    &&& svc == 0x2B ==> (r0.spec_reg(1) == 0xFFFF8001 && r0.spec_reg(2) == 20 <==> r is Ok)
    &&& svc == 0x2B && r is Ok ==> r == Ok::<SvcOutcome, SvcFault>(spec_continue()) && spec_regs_after(
        r0,
        r1,
        map![0int => 0u32, 1int => 0xA0000000u32, 2int => 0u32],
    )
    &&& svc == 0x2B && r is Err ==> r == Err::<SvcOutcome, SvcFault>(SvcFault::Unsupported(0x2B)) && *r1 == *r0
    &&& svc == 0x02 ==> spec_query_memory_done(r0, r1, r)
    &&& svc == 0x08 ==> spec_create_thread_done(r0, r1, k0, k1, r)
    &&& svc == 0x17 ==> spec_create_sync_done(false, r0, r1, k0, k1, r)
    &&& svc == 0x1A ==> spec_create_sync_done(true, r0, r1, k0, k1, r)
    &&& svc == 0x18 ==> r is Ok && spec_signal_event_done(r0, r1, k0, k1, r->Ok_0)
    &&& svc == 0x19 ==> r is Ok && spec_reset_sync_done(false, r0, r1, k0, k1, r->Ok_0)
    &&& svc == 0x1C ==> r is Ok && spec_reset_sync_done(true, r0, r1, k0, k1, r->Ok_0)
    &&& svc == 0x1B ==> r is Ok && spec_set_timer_done(r0, r1, k0, k1, r->Ok_0)
    &&& svc == 0x21 ==> spec_create_arbiter_done(r0, r1, k0, k1, r)
    &&& svc == 0x22 ==> spec_arbitrate_done(r0, r1, m0, m1, k0, k1, r)
    &&& svc == 0x23 ==> r is Ok && spec_close_handle_done(r0, r1, k0, k1, r->Ok_0)
    &&& svc == 0x24 ==> r is Ok && spec_wait_sync_1_done(r0, r1, k0, k1, r->Ok_0)
    &&& svc == 0x25 ==> spec_wait_sync_n_done(r0, r1, k0, k1, r)
    &&& svc == 0x32 ==> spec_send_request_done(r0, r1, k0, k1, r)
    &&& svc == 0x4A ==> spec_accept_session_done(r0, r1, k0, k1, r)
    &&& svc == 0x50 ==> r is Ok && spec_bind_interrupt_done(r0, r1, k0, k1, r->Ok_0)
    &&& svc != 0x01 && svc != 0x1F && svc != 0x22 ==> *m1 == *m0
    &&& svc == 0x22 ==> forall|a: u32| spec_offset(r0.spec_reg(1), a) >= 4 ==> #[trigger] m1.spec_byte(a) == m0.spec_byte(a)
    &&& svc == 0x2D ==> spec_connect_done(r0, m0, k0, r)
    &&& svc == 0x4F ==> spec_reply_receive_done(r0, r1, m0, tls, k0, k1, r)
}

/// What a supervisor call does to the mapped guest memory: ControlMemory
/// maps the `r3` bytes from the address in `r1`, MapMemoryBlock 0x22000
/// bytes from the address in `r1`, and what was mapped stays mapped.
pub open spec fn spec_svc_mapped<R: Regs, M: MemoryMap>(svc: u32, r0: &R, m0: &M, m1: &M) -> bool {
    &&& svc == 0x01 ==> forall|a: u32| spec_offset(r0.spec_reg(1), a) < r0.spec_reg(3) ==> #[trigger] m1.spec_mapped(a)
    &&& svc == 0x1F ==> forall|a: u32| spec_offset(r0.spec_reg(1), a) < 0x22000 ==> #[trigger] m1.spec_mapped(a)
    &&& svc == 0x01 || svc == 0x1F ==> forall|a: u32| m0.spec_mapped(a) ==> #[trigger] m1.spec_mapped(a)
}

/// MapMemoryBlock maps 0x22000 bytes from the address in register 1, and
/// keeps mapped what was mapped before.
pub proof fn law_map_memory_block_maps<R: Regs, M: MemoryMap>(r0: &R, m0: &M, m1: &M, a: u32)
    requires
        spec_svc_mapped(0x1F, r0, m0, m1),
    ensures
        spec_offset(r0.spec_reg(1), a) < 0x22000 ==> m1.spec_mapped(a),
        m0.spec_mapped(a) ==> m1.spec_mapped(a),
{
}

/// GetProcessInfo answers only the physical memory query (type 20) on the
/// calling process's pseudo-handle, with 0xA0000000 as the low word and 0
/// as the high word of the value; any other query is not supported and
/// leaves the registers as they were.
pub proof fn law_get_process_info<R: Regs, M: Memory>(
    tls: u32,
    r0: &R,
    r1: &R,
    m0: &M,
    m1: &M,
    k0: &Kernel,
    k1: &Kernel,
    r: Result<SvcOutcome, SvcFault>,
)
    requires
        spec_svc_done(0x2B, tls, r0, r1, m0, m1, k0, k1, r),
    ensures
        r0.spec_reg(1) == 0xFFFF8001 && r0.spec_reg(2) == 20 ==> r == Ok::<SvcOutcome, SvcFault>(spec_continue())
            && r1.spec_reg(0) == 0 && r1.spec_reg(1) == 0xA0000000 && r1.spec_reg(2) == 0,
        !(r0.spec_reg(1) == 0xFFFF8001 && r0.spec_reg(2) == 20) ==> r == Err::<SvcOutcome, SvcFault>(
            SvcFault::Unsupported(0x2B),
        ) && *r1 == *r0,
{
}

/// ControlMemory maps every byte of the range that the guest asked for,
/// from the address in register 1 for the size in register 3, and keeps
/// mapped what was mapped before.
pub proof fn law_control_memory_maps<R: Regs, M: MemoryMap>(r0: &R, m0: &M, m1: &M, a: u32)
    requires
        spec_svc_mapped(0x01, r0, m0, m1),
    ensures
        spec_offset(r0.spec_reg(1), a) < r0.spec_reg(3) ==> m1.spec_mapped(a),
        m0.spec_mapped(a) ==> m1.spec_mapped(a),
{
}

/// SleepThread makes the thread wait, with no object, until the time read
/// during the call plus the nanoseconds in registers 0 (low word) and 1
/// (high word), or the largest time when the sum does not fit; a negative
/// count, as a 64-bit two's complement number, makes it wait without end.
pub proof fn law_sleep_deadline<R: Regs, M: Memory>(
    tls: u32,
    r0: &R,
    r1: &R,
    m0: &M,
    m1: &M,
    k0: &Kernel,
    k1: &Kernel,
    r: Result<SvcOutcome, SvcFault>,
)
    requires
        spec_svc_done(0x0A, tls, r0, r1, m0, m1, k0, k1, r),
    ensures
        ({
            let ns = r0.spec_reg(1) as int * 0x1_0000_0000 + r0.spec_reg(0) as int;
            let now = k1.spec_last_time();
            &&& r == Ok::<SvcOutcome, SvcFault>(spec_reschedule())
            &&& k1.current_thread_spec().state == ThreadState::Waiting
            &&& k1.current_thread_spec().wait_objects@.len() == 0
            &&& ns < 0x8000_0000_0000_0000 && now + ns <= u64::MAX ==> k1.current_thread_spec().wait_timeout == Some(
                (now + ns) as u64,
            )
            &&& ns < 0x8000_0000_0000_0000 && now + ns > u64::MAX ==> k1.current_thread_spec().wait_timeout == Some(
                u64::MAX,
            )
            &&& ns >= 0x8000_0000_0000_0000 ==> k1.current_thread_spec().wait_timeout == None::<u64>
        }),
{
}

/// Carries out supervisor call number `svc` of the running thread.
pub fn dispatch_svc<R: Regs, M: MemoryMap>(svc: u32, regs: &mut R, tls: u32, mem: &mut M, kctx: &mut Kernel) -> (r: Result<
    SvcOutcome,
    SvcFault,
>)
    requires
        old(kctx).wf(),
        old(kctx).spec_current().is_some(),
        old(kctx).current_thread_spec().state == ThreadState::Running,
        tls <= u32::MAX - 0x180,
    ensures
        final(kctx).wf(),
        final(kctx).spec_current() == old(kctx).spec_current(),
        spec_svc_done(svc, tls, old(regs), final(regs), old(mem), final(mem), old(kctx), final(kctx), r),
        spec_svc_mapped(svc, old(regs), old(mem), final(mem)),
{
    if svc == 0x01 {
        Ok(svc_control_memory(regs, mem))
    } else if svc == 0x02 {
        svc_query_memory(regs)
    } else if svc == 0x08 {
        svc_create_thread(regs, kctx)
    } else if svc == 0x09 {
        Ok(svc_exit_thread(kctx))
    } else if svc == 0x0A {
        Ok(svc_sleep_thread(regs, kctx))
    } else if svc == 0x17 {
        svc_create_sync(regs, kctx, false)
    } else if svc == 0x18 {
        Ok(svc_signal_event(regs, kctx))
    } else if svc == 0x19 {
        Ok(svc_reset_sync(regs, kctx, false))
    } else if svc == 0x1A {
        svc_create_sync(regs, kctx, true)
    } else if svc == 0x1B {
        Ok(svc_set_timer(regs, kctx))
    } else if svc == 0x1C {
        Ok(svc_reset_sync(regs, kctx, true))
    } else if svc == 0x1E {
        Ok(svc_create_memory_block(regs))
    } else if svc == 0x1F {
        Ok(svc_map_memory_block(regs, mem))
    } else if svc == 0x21 {
        svc_create_address_arbiter(regs, kctx)
    } else if svc == 0x22 {
        svc_arbitrate_address(regs, mem, kctx)
    } else if svc == 0x23 {
        Ok(svc_close_handle(regs, kctx))
    } else if svc == 0x24 {
        Ok(svc_wait_sync_1(regs, kctx))
    } else if svc == 0x25 {
        svc_wait_sync_n(regs, mem, kctx)
    } else if svc == 0x27 {
        Ok(svc_duplicate_handle(regs))
    } else if svc == 0x28 {
        Ok(SvcOutcome { result: SvcResult::Continue, request: SvcRequest::SystemTick(kctx.time()) })
    } else if svc == 0x2B {
        svc_get_process_info(regs)
    } else if svc == 0x2D {
        svc_connect_to_port(regs, mem, kctx)
    } else if svc == 0x32 {
        svc_send_sync_request(regs, mem, tls, kctx)
    } else if svc == 0x4A {
        svc_accept_session(regs, kctx)
    } else if svc == 0x4F {
        svc_reply_and_receive(regs, mem, tls, kctx)
    } else if svc == 0x50 {
        Ok(svc_bind_interrupt(regs, kctx))
    } else if svc == 0x51 {
        set_reg(regs, 0, 0);
        Ok(SvcOutcome { result: SvcResult::Continue, request: SvcRequest::Nothing })
    } else if svc == 0x53 || svc == 0x54 {
        Ok(SvcOutcome { result: SvcResult::Continue, request: SvcRequest::Nothing })
    } else {
        Err(SvcFault::UnknownSvc(svc))
    }
}

/// Handles the supervisor call that the running thread just made: the
/// call's number is read from the instruction before the program counter.
pub fn handle_svc<R: Regs, M: MemoryMap>(regs: &mut R, tls: u32, mem: &mut M, kctx: &mut Kernel) -> (r: Result<
    SvcOutcome,
    SvcFault,
>)
    requires
        old(kctx).wf(),
        old(kctx).spec_current().is_some(),
        old(kctx).current_thread_spec().state == ThreadState::Running,
        old(regs).spec_reg(15) >= 4,
        tls <= u32::MAX - 0x180,
    ensures
        final(kctx).wf(),
        final(kctx).spec_current() == old(kctx).spec_current(),
        spec_svc_done(
            spec_svc_at(old(mem), old(regs).spec_reg(15)),
            tls,
            old(regs),
            final(regs),
            old(mem),
            final(mem),
            old(kctx),
            final(kctx),
            r,
        ),
        spec_svc_mapped(spec_svc_at(old(mem), old(regs).spec_reg(15)), old(regs), old(mem), final(mem)),
{
    let svc = get_svc(regs, mem);
    dispatch_svc(svc, regs, tls, mem, kctx)
}

/// What resuming a thread from a supervisor call does: to its registers
/// (`r0` before, `r1` after), guest memory (`m0`, `m1`) and the kernel
/// (`k0`, `k1`), and what it returns.
pub open spec fn spec_resume_done<R: Regs, M: Memory>(
    resume: ThreadResume,
    r0: &R,
    r1: &R,
    m0: &M,
    m1: &M,
    k0: &Kernel,
    k1: &Kernel,
    r: Result<(), SvcFault>,
) -> bool {
    &&& r is Ok && resume == ThreadResume::TimeoutReached ==> r1.spec_reg(0) == TIMEOUT_REACHED
    &&& r is Ok && resume is WaitSyncN ==> r1.spec_reg(1) == resume->index as u32
    &&& {
        let svc = spec_svc_at(m0, r0.spec_reg(15));
        let count = r0.spec_reg(2);
        let hs = spec_handles_at(m0, r0.spec_reg(1), count as nat);
        let listed = resume is WaitSyncN && resume->index < count;
        let h = hs[resume->index as int];
        let o = k0.spec_lookup(h).unwrap();
        let is_session = spec_handle_is(k0, h, ObjectType::KServerSession);
        let q = crate::object::spec_requests(k0.spec_objects().obj(o).data);
        &&& svc != 0x4F ==> r is Ok && *k1 == *k0 && *m1 == *m0
        &&& svc != 0x4F && resume == ThreadResume::Normal ==> *r1 == *r0
        &&& svc != 0x4F && resume == ThreadResume::TimeoutReached ==> spec_regs_after(
            r0,
            r1,
            map![0int => TIMEOUT_REACHED],
        )
        &&& svc != 0x4F && resume is WaitSyncN ==> spec_regs_after(r0, r1, map![1int => resume->index as u32])
        &&& r is Err ==> *r1 == *r0
        &&& svc == 0x4F ==> (r == Err::<(), SvcFault>(SvcFault::Exhausted) <==> count >= 0x4000_0000)
        &&& svc == 0x4F ==> (r == Err::<(), SvcFault>(SvcFault::Unsupported(0x4F)) <==> count < 0x4000_0000 && !listed)
        &&& svc == 0x4F ==> (r == Err::<(), SvcFault>(SvcFault::Disconnected) <==> count < 0x4000_0000 && listed && is_session
            && !spec_receive_ok(k0, o))
        &&& r is Err ==> *k1 == *k0 && *m1 == *m0 && (r == Err::<(), SvcFault>(
            SvcFault::Exhausted,
        ) || r == Err::<(), SvcFault>(SvcFault::Unsupported(0x4F)) || r == Err::<(), SvcFault>(SvcFault::Disconnected))
        &&& svc == 0x4F && r is Ok ==> {
            &&& forall|a: u32| #[trigger] m1.spec_byte(a) == if spec_offset(r0.spec_reg(0), a) < 4 {
                le_bytes(resume->index as u32)[spec_offset(r0.spec_reg(0), a)]
            } else {
                m0.spec_byte(a)
            }
            &&& spec_regs_after(
                r0,
                r1,
                map![0int => if is_session && q.len() == 0 { SESSION_EMPTY } else { 0u32 }, 1int => resume->index as u32],
            )
            &&& is_session && q.len() > 0 ==> crate::kernel::spec_message_translated(
                k0,
                k1,
                q[0],
                k0.spec_current().unwrap().1,
                false,
            )
            &&& !is_session ==> *k1 == *k0
        }
    }
}

/// Finishes the supervisor call that a thread resumes from: for
/// ReplyAndReceive, receives on the object that ended the wait and writes
/// its position to guest memory at the address in register 0; then tells
/// the thread why it woke (a timeout result code in register 0, or the
/// position of the object in register 1).
pub fn handle_resume<R: Regs, M: MemoryMap>(resume: ThreadResume, regs: &mut R, tls: u32, mem: &mut M, kctx: &mut Kernel) -> (r:
    Result<(), SvcFault>)
    requires
        old(kctx).wf(),
        old(kctx).spec_current().is_some(),
        old(regs).spec_reg(15) >= 4,
    ensures
        final(kctx).wf(),
        final(kctx).spec_current() == old(kctx).spec_current(),
        spec_resume_done(resume, old(regs), final(regs), old(mem), final(mem), old(kctx), final(kctx), r),
{
    let svc = get_svc(regs, mem);
    if svc == 0x4F {
        let index_out = get_reg(regs, 0);
        let handles_addr = get_reg(regs, 1);
        let count = get_reg(regs, 2);
        if count >= 0x4000_0000 {
            return Err(SvcFault::Exhausted);
        }
        let handles = read_handles(mem, handles_addr, count);
        let index = match resume {
            ThreadResume::WaitSyncN { index } => index,
            _ => {
                return Err(SvcFault::Unsupported(0x4F));
            },
        };
        if index >= handles.len() {
            return Err(SvcFault::Unsupported(0x4F));
        }
        match crate::svc::lookup_typed(kctx, &handles[index], ObjectType::KServerSession) {
            Some(s) => {
                if !crate::svc::can_receive(kctx, s) {
                    return Err(SvcFault::Disconnected);
                }
            },
            None => {},
        }
        let (index, res) = crate::svc::reply_and_receive_post(kctx, handles.as_slice(), &resume);
        let b = crate::le::u32_to_le(index as u32);
        let out: Vec<u8> = vec![b[0], b[1], b[2], b[3]];
        assert(out@ =~= le_bytes(index as u32));
        mem.write(index_out, out.as_slice());
        match res {
            Err(err) => set_reg(regs, 0, err),
            Ok(()) => set_reg(regs, 0, 0),
        }
    }
    match resume {
        ThreadResume::Normal => {},
        ThreadResume::TimeoutReached => set_reg(regs, 0, TIMEOUT_REACHED),
        ThreadResume::WaitSyncN { index } => set_reg(regs, 1, index as u32),
    }
    Ok(())
}

/// Handles the supervisor calls of guest threads.
pub trait SvcHandler {
    fn handle<R: Regs, M: MemoryMap>(&self, regs: &mut R, tls: u32, mem: &mut M, kctx: &mut Kernel) -> (r: Result<
        SvcOutcome,
        SvcFault,
    >)
        requires
            old(kctx).wf(),
            old(kctx).spec_current().is_some(),
            old(kctx).current_thread_spec().state == ThreadState::Running,
            old(regs).spec_reg(15) >= 4,
            tls <= u32::MAX - 0x180,
        ensures
            final(kctx).wf(),
            final(kctx).spec_current() == old(kctx).spec_current(),
    ;

    fn handle_resume<R: Regs, M: MemoryMap>(&self, resume: ThreadResume, regs: &mut R, tls: u32, mem: &mut M, kctx: &mut Kernel) -> (r:
        Result<(), SvcFault>)
        requires
            old(kctx).wf(),
            old(kctx).spec_current().is_some(),
            old(regs).spec_reg(15) >= 4,
        ensures
            final(kctx).wf(),
            final(kctx).spec_current() == old(kctx).spec_current(),
    ;
}

/// The supervisor call handler of guest processes.
pub struct ProcessSvcHandler;

impl SvcHandler for ProcessSvcHandler {
    fn handle<R: Regs, M: MemoryMap>(&self, regs: &mut R, tls: u32, mem: &mut M, kctx: &mut Kernel) -> (r: Result<
        SvcOutcome,
        SvcFault,
    >)
        ensures
            spec_svc_done(
                spec_svc_at(old(mem), old(regs).spec_reg(15)),
                tls,
                old(regs),
                final(regs),
                old(mem),
                final(mem),
                old(kctx),
                final(kctx),
                r,
            ),
    {
        handle_svc(regs, tls, mem, kctx)
    }

    fn handle_resume<R: Regs, M: MemoryMap>(&self, resume: ThreadResume, regs: &mut R, tls: u32, mem: &mut M, kctx: &mut Kernel) -> (r:
        Result<(), SvcFault>)
        ensures
            spec_resume_done(resume, old(regs), final(regs), old(mem), final(mem), old(kctx), final(kctx), r),
    {
        handle_resume(resume, regs, tls, mem, kctx)
    }
}

} // verus!
