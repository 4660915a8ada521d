//! The kernel: processes and their handle tables, threads, objects, the
//! current thread, registered ports and bound interrupts.

use vstd::prelude::*;
use std::collections::BTreeMap;
use crate::object::{KObjectData, KObjectRef, KTypedObject, ObjectManager, ObjectType, ThreadImpl, Waker};
use crate::object_table::ObjectTable;
use crate::sync::{inv, spec_timer_due, spec_timer_fired, spec_woken_by, spec_woken_by_timer, waker_ok};
use crate::object::{spec_event, spec_less, spec_more, spec_occurrences, spec_timer};
use crate::thread::{spec_due, spec_woken, ThreadWakeReason};
use crate::thread::{CommonThread, CommonThreadManager};
use crate::ipc::{param_handle, payload_word, payload_words, spec_handle_section, spec_params_start, spec_translatable, word_at, IPCHandles, IPCHeaderCode, IPCReader, IPCTranslateParameter, IPCWriter, IPC_REQUEST_SIZE};
use crate::ipc::{lemma_descriptor_within, spec_descriptor_at, spec_encode_handles, spec_handle_descriptor};
use crate::types::{spec_raw_or_zero, Handle, ProcessId, ThreadIndex, ThreadResume, ThreadState, ThreadWaitType};

verus! {

broadcast use vstd::std_specs::btree::group_btree_axioms;

/// `clocksource::precise::Instant::now().as_nanos()`: the reading of the
/// monotonic clock in nanoseconds. Nothing is stated of the value.
#[verifier::external_body]
fn clock_now_ns() -> (r: u64) {
    clocksource::precise::Instant::now().as_nanos()
}

/// The nanoseconds from `start` to `now` on a clock that counts modulo 2^64:
/// `now - start`, wrapping when `now` is smaller.
pub fn elapsed_ns(now: u64, start: u64) -> (r: u64)
    ensures
        r == now.wrapping_sub(start),
        start <= now ==> r == now - start,
        now < start ==> r == now - start + 0x1_0000_0000_0000_0000,
{
    now.wrapping_sub(start)
}

/// A process as the kernel sees it: its id, name and handle table.
pub struct CommonProcess {
    pub pid: ProcessId,
    pub name: String,
    pub objects: ObjectTable<KObjectRef>,
}

impl CommonProcess {
    /// The process's handle table.
    pub closed spec fn handles(&self) -> Map<u32, KObjectRef> {
        self.objects@
    }

    /// A process holds finitely many handles.
    pub proof fn lemma_handles_finite(&self)
        ensures
            self.handles().dom().finite(),
    {
        self.objects.lemma_finite();
    }

    /// A process with an empty handle table.
    pub fn new(pid: ProcessId, name: String) -> (r: CommonProcess)
        ensures
            r.pid == pid,
            r.name == name,
            r.handles() == Map::<u32, KObjectRef>::empty(),
    {
        CommonProcess { pid, name, objects: ObjectTable::new() }
    }

    /// Gives the process a new handle to an object.
    pub fn new_handle(&mut self, obj: KObjectRef) -> (h: Handle)
        requires
            old(self).handles().dom().len() < u32::MAX,
        ensures
            h.spec_raw() != 0,
            !old(self).handles().dom().contains(h.spec_raw()),
            final(self).handles() == old(self).handles().insert(h.spec_raw(), obj),
            final(self).pid == old(self).pid,
            final(self).name == old(self).name,
    {
        self.objects.insert(obj)
    }

    /// Closes a handle; false when it was not open.
    pub fn close_handle(&mut self, handle: &Handle) -> (r: bool)
        ensures
            r == old(self).handles().dom().contains(handle.spec_raw()),
            final(self).handles() == old(self).handles().remove(handle.spec_raw()),
            final(self).pid == old(self).pid,
            final(self).name == old(self).name,
    {
        self.objects.remove(handle).is_some()
    }

    /// Closes a handle and gives back its object.
    pub fn lookup_close_handle(&mut self, handle: &Handle) -> (r: Option<KObjectRef>)
        ensures
            r == (if old(self).handles().dom().contains(handle.spec_raw()) {
                Some(old(self).handles()[handle.spec_raw()])
            } else {
                None
            }),
            final(self).handles() == old(self).handles().remove(handle.spec_raw()),
            final(self).pid == old(self).pid,
            final(self).name == old(self).name,
    {
        self.objects.remove(handle)
    }

    /// The object that a handle refers to.
    pub fn lookup_handle(&self, handle: &Handle) -> (r: Option<KObjectRef>)
        ensures
            r == (if self.handles().dom().contains(handle.spec_raw()) {
                Some(self.handles()[handle.spec_raw()])
            } else {
                None
            }),
    {
        match self.objects.lookup(handle) {
            Some(o) => Some(*o),
            None => None,
        }
    }

    /// The number of open handles.
    pub fn handle_count(&self) -> (r: usize)
        ensures
            r == self.handles().dom().len(),
    {
        self.objects.len()
    }
}

/// The processes of the kernel.
pub struct CommonProcessManager {
    processes: Vec<CommonProcess>,
}

impl View for CommonProcessManager {
    type V = Seq<CommonProcess>;

    closed spec fn view(&self) -> Seq<CommonProcess> {
        self.processes@
    }
}

impl CommonProcessManager {
    pub open spec fn has(&self, pid: ProcessId) -> bool {
        exists|i: int| 0 <= i < self@.len() && (#[trigger] self@[i]).pid == pid
    }

    /// Process ids are distinct.
    pub open spec fn wf(&self) -> bool {
        forall|i: int, j: int| 0 <= i < j < self@.len() ==> (#[trigger] self@[i]).pid != (#[trigger] self@[j]).pid
    }

    pub open spec fn pos(&self, pid: ProcessId) -> int {
        choose|i: int| 0 <= i < self@.len() && (#[trigger] self@[i]).pid == pid
    }

    pub open spec fn process(&self, pid: ProcessId) -> CommonProcess {
        self@[self.pos(pid)]
    }

    pub proof fn lemma_pos(&self, pid: ProcessId)
        requires
            self.wf(),
            self.has(pid),
        ensures
            0 <= self.pos(pid) < self@.len(),
            self@[self.pos(pid)].pid == pid,
            forall|i: int| 0 <= i < self@.len() && (#[trigger] self@[i]).pid == pid ==> i == self.pos(pid),
    {
    }

    /// Two process lists with the same ids at every position have the same
    /// processes in the same positions.
    pub proof fn lemma_same_pids(&self, new: &CommonProcessManager)
        requires
            self.wf(),
            new@.len() == self@.len(),
            forall|i: int| 0 <= i < self@.len() ==> (#[trigger] new@[i]).pid == self@[i].pid,
        ensures
            new.wf(),
            forall|pid: ProcessId| #[trigger] new.has(pid) == self.has(pid),
            forall|pid: ProcessId| self.has(pid) ==> #[trigger] new.pos(pid) == self.pos(pid),
    {
        assert forall|i: int, j: int| 0 <= i < j < new@.len() implies (#[trigger] new@[i]).pid != (#[trigger] new@[j]).pid by {
            assert(self@[i].pid == new@[i].pid);
            assert(self@[j].pid == new@[j].pid);
        }
        assert forall|pid: ProcessId| #[trigger] new.has(pid) == self.has(pid) by {
            if self.has(pid) {
                let i = self.pos(pid);
                assert(new@[i].pid == pid);
            }
            if new.has(pid) {
                let i = new.pos(pid);
                assert(self@[i].pid == pid);
            }
        }
        assert forall|pid: ProcessId| self.has(pid) implies #[trigger] new.pos(pid) == self.pos(pid) by {
            let i = self.pos(pid);
            assert(new@[i].pid == pid);
            assert(new.has(pid));
            let k = new.pos(pid);
            assert(self@[k].pid == pid);
        }
    }

    pub fn new() -> (r: CommonProcessManager)
        ensures
            r@.len() == 0,
    {
        CommonProcessManager { processes: Vec::new() }
    }

    /// Adds a process whose id is not in use.
    pub fn push(&mut self, process: CommonProcess)
        requires
            old(self).wf(),
            !old(self).has(process.pid),
        ensures
            final(self).wf(),
            final(self)@ == old(self)@.push(process),
    {
        self.processes.push(process);
        proof {
            assert forall|i: int, j: int| 0 <= i < j < self@.len() implies (#[trigger] self@[i]).pid != (#[trigger] self@[j]).pid by {
                if j == self@.len() - 1 {
                    assert(old(self)@[i] == self@[i]);
                    if self@[i].pid == process.pid {
                        assert(old(self).has(process.pid));
                    }
                } else {
                    assert(old(self)@[i] == self@[i]);
                    assert(old(self)@[j] == self@[j]);
                }
            }
        }
    }

    /// The position of the process with id `pid`.
    pub fn find_pos(&self, pid: ProcessId) -> (r: usize)
        requires
            self.wf(),
            self.has(pid),
        ensures
            r == self.pos(pid),
    {
        let mut i: usize = 0;
        while i < self.processes.len()
            invariant
                i <= self@.len(),
                self.wf(),
                self.has(pid),
                forall|j: int| 0 <= j < i ==> (#[trigger] self@[j]).pid != pid,
            decreases self@.len() - i,
        {
            if self.processes[i].pid == pid {
                return i;
            }
            i = i + 1;
        }
        proof {
            let k = choose|k: int| 0 <= k < self@.len() && (#[trigger] self@[k]).pid == pid;
            assert(self@[k].pid != pid);
        }
        0
    }

    /// The process with id `pid`.
    pub fn find_common_process(&self, pid: ProcessId) -> (r: &CommonProcess)
        requires
            self.wf(),
            self.has(pid),
        ensures
            *r == self.process(pid),
    {
        let p = self.find_pos(pid);
        &self.processes[p]
    }

    pub fn at(&self, p: usize) -> (r: &CommonProcess)
        requires
            p < self@.len(),
        ensures
            *r == self@[p as int],
    {
        &self.processes[p]
    }

    /// Gives the process at position `p` a new handle to `obj`.
    pub fn new_handle_at(&mut self, p: usize, obj: KObjectRef) -> (h: Handle)
        requires
            old(self).wf(),
            p < old(self)@.len(),
            old(self)@[p as int].handles().dom().len() < u32::MAX,
        ensures
            final(self).wf(),
            final(self)@.len() == old(self)@.len(),
            forall|j: int| 0 <= j < old(self)@.len() && j != p ==> final(self)@[j] == #[trigger] old(self)@[j],
            final(self)@[p as int].pid == old(self)@[p as int].pid,
            h.spec_raw() != 0,
            !old(self)@[p as int].handles().dom().contains(h.spec_raw()),
            final(self)@[p as int].handles() == old(self)@[p as int].handles().insert(h.spec_raw(), obj),
    {
        let h = self.processes[p].new_handle(obj);
        proof {
            assert forall|i: int, j: int| 0 <= i < j < self@.len() implies (#[trigger] self@[i]).pid != (#[trigger] self@[j]).pid by {
                assert(self@[i].pid == old(self)@[i].pid);
                assert(self@[j].pid == old(self)@[j].pid);
            }
        }
        h
    }

    /// Closes a handle of the process at position `p`, giving back its object.
    pub fn lookup_close_at(&mut self, p: usize, handle: &Handle) -> (r: Option<KObjectRef>)
        requires
            old(self).wf(),
            p < old(self)@.len(),
        ensures
            final(self).wf(),
            final(self)@.len() == old(self)@.len(),
            forall|j: int| 0 <= j < old(self)@.len() && j != p ==> final(self)@[j] == #[trigger] old(self)@[j],
            final(self)@[p as int].pid == old(self)@[p as int].pid,
            r == (if old(self)@[p as int].handles().dom().contains(handle.spec_raw()) {
                Some(old(self)@[p as int].handles()[handle.spec_raw()])
            } else {
                None
            }),
            final(self)@[p as int].handles() == old(self)@[p as int].handles().remove(handle.spec_raw()),
    {
        let r = self.processes[p].lookup_close_handle(handle);
        proof {
            assert forall|i: int, j: int| 0 <= i < j < self@.len() implies (#[trigger] self@[i]).pid != (#[trigger] self@[j]).pid by {
                assert(self@[i].pid == old(self)@[i].pid);
                assert(self@[j].pid == old(self)@[j].pid);
            }
        }
        r
    }
}

/// The thread that runs now and the thread chosen to run next.
pub struct ExecutionInfo {
    pub current: Option<(ProcessId, ThreadIndex)>,
    pub next: Option<ThreadIndex>,
}

/// Interrupts that have fired and wait to be delivered.
pub struct ActiveInterrupts {
    active: Vec<u32>,
}

impl ActiveInterrupts {
    pub closed spec fn spec_active(&self) -> Seq<u32> {
        self.active@
    }

    pub fn new() -> (r: ActiveInterrupts)
        ensures
            r.spec_active().len() == 0,
    {
        ActiveInterrupts { active: Vec::new() }
    }

    /// Records that an interrupt fired.
    pub fn activate(&mut self, interrupt: u32)
        ensures
            final(self).spec_active() == old(self).spec_active().push(interrupt),
    {
        self.active.push(interrupt);
    }

    /// Takes every recorded interrupt, oldest first.
    pub fn drain(&mut self) -> (r: Vec<u32>)
        ensures
            r@ == old(self).spec_active(),
            final(self).spec_active().len() == 0,
    {
        let mut r: Vec<u32> = Vec::new();
        std::mem::swap(&mut r, &mut self.active);
        r
    }
}

/// The key under which a port is registered: the bytes of its name, at
/// most eight, as a little-endian number (the name padded with zeros to
/// eight bytes).
pub open spec fn spec_port_key(name: Seq<u8>) -> u64
    decreases name.len(),
{
    if name.len() == 0 {
        0
    } else {
        spec_port_key(name.drop_last()) | ((name.last() as u64) << ((8 * (name.len() - 1)) as u64))
    }
}

/// The key of a port name of at most eight bytes.
pub fn port_key(name: &[u8]) -> (r: u64)
    requires
        name@.len() <= 8,
    ensures
        r == spec_port_key(name@),
{
    let mut key: u64 = 0;
    let mut i: usize = 0;
    while i < name.len()
        invariant
            i <= name@.len(),
            name@.len() <= 8,
            key == spec_port_key(name@.subrange(0, i as int)),
        decreases name@.len() - i,
    {
        proof {
            assert(name@.subrange(0, i + 1).drop_last() =~= name@.subrange(0, i as int));
        }
        let shift: u64 = 8 * (i as u64);
        key = key | ((name[i] as u64) << shift);
        i = i + 1;
    }
    proof {
        assert(name@.subrange(0, name@.len() as int) =~= name@);
    }
    key
}

/// Byte `i` of a port name padded with zeros to eight bytes.
pub open spec fn spec_padded_byte(name: Seq<u8>, i: int) -> u8 {
    if i < name.len() {
        name[i]
    } else {
        0
    }
}

proof fn lemma_key_step(k: u64, b: u8, m: u64, i: u64)
    requires
        m < 8,
        i < 8,
        k < (1u64 << (8 * m)),
    ensures
        ((k | ((b as u64) << (8 * m))) >> (8 * i)) & 0xFF == if i < m {
            (k >> (8 * i)) & 0xFF
        } else if i == m {
            b as u64
        } else {
            0
        },
        m < 7 ==> (k | ((b as u64) << (8 * m))) < (1u64 << (8 * (m + 1))),
{
    assert(((k | ((b as u64) << (8 * m))) >> (8 * i)) & 0xFF == if i < m {
        (k >> (8 * i)) & 0xFF
    } else if i == m {
        b as u64
    } else {
        0
    }) by (bit_vector)
        requires
            m < 8,
            i < 8,
            k < (1u64 << (8 * m)),
    ;
    assert(m < 7 ==> (k | ((b as u64) << (8 * m))) < (1u64 << (8 * (m + 1)))) by (bit_vector)
        requires
            m < 8,
            k < (1u64 << (8 * m)),
    ;
}

/// Each byte of a port key is the byte of the name, padded with zeros.
proof fn lemma_key_bytes(name: Seq<u8>)
    requires
        name.len() <= 8,
    ensures
        name.len() < 8 ==> spec_port_key(name) < (1u64 << (8 * name.len()) as u64),
        forall|i: u64| i < 8 ==> (#[trigger] (spec_port_key(name) >> (8 * i))) & 0xFF == spec_padded_byte(name, i as int) as u64,
    decreases name.len(),
{
    if name.len() == 0 {
        assert forall|i: u64| i < 8 implies (#[trigger] (spec_port_key(name) >> (8 * i))) & 0xFF == spec_padded_byte(name, i as int) as u64 by {
            assert((0u64 >> (8 * i)) & 0xFF == 0) by (bit_vector);
        }
        assert(0u64 < (1u64 << 0u64)) by (bit_vector);
    } else {
        let p = name.drop_last();
        lemma_key_bytes(p);
        let m = (name.len() - 1) as u64;
        let k = spec_port_key(p);
        assert(k < (1u64 << (8 * m))) by {
            if m == 7 {
                assert(k < (1u64 << (8 * 7u64)));
            }
        }
        assert forall|i: u64| i < 8 implies (#[trigger] (spec_port_key(name) >> (8 * i))) & 0xFF == spec_padded_byte(name, i as int) as u64 by {
            lemma_key_step(k, name.last(), m, i);
            if i < m {
                assert((k >> (8 * i)) & 0xFF == spec_padded_byte(p, i as int) as u64);
            }
        }
        lemma_key_step(k, name.last(), m, 0);
    }
}

/// Two port names of at most eight bytes share a key exactly when they
/// agree once padded with zeros to eight bytes, so a lookup finds the
/// port registered under the same padded name and no other.
pub proof fn law_port_key_injective(a: Seq<u8>, b: Seq<u8>)
    requires
        a.len() <= 8,
        b.len() <= 8,
    ensures
        spec_port_key(a) == spec_port_key(b) <==> forall|i: int| 0 <= i < 8 ==> spec_padded_byte(a, i) == spec_padded_byte(b, i),
{
    lemma_key_bytes(a);
    lemma_key_bytes(b);
    let ka = spec_port_key(a);
    let kb = spec_port_key(b);
    if forall|i: int| 0 <= i < 8 ==> spec_padded_byte(a, i) == spec_padded_byte(b, i) {
        assert forall|i: u64| i < 8 implies (#[trigger] (ka >> (8 * i))) & 0xFF == (kb >> (8 * i)) & 0xFF by {
            assert(spec_padded_byte(a, i as int) == spec_padded_byte(b, i as int));
        }
        assert((ka >> (8 * 0u64)) & 0xFF == (kb >> (8 * 0u64)) & 0xFF);
        assert((ka >> (8 * 1u64)) & 0xFF == (kb >> (8 * 1u64)) & 0xFF);
        assert((ka >> (8 * 2u64)) & 0xFF == (kb >> (8 * 2u64)) & 0xFF);
        assert((ka >> (8 * 3u64)) & 0xFF == (kb >> (8 * 3u64)) & 0xFF);
        assert((ka >> (8 * 4u64)) & 0xFF == (kb >> (8 * 4u64)) & 0xFF);
        assert((ka >> (8 * 5u64)) & 0xFF == (kb >> (8 * 5u64)) & 0xFF);
        assert((ka >> (8 * 6u64)) & 0xFF == (kb >> (8 * 6u64)) & 0xFF);
        assert((ka >> (8 * 7u64)) & 0xFF == (kb >> (8 * 7u64)) & 0xFF);
        assert(ka == kb) by (bit_vector)
            requires
                (ka >> 0u64) & 0xFF == (kb >> 0u64) & 0xFF,
                (ka >> 8u64) & 0xFF == (kb >> 8u64) & 0xFF,
                (ka >> 16u64) & 0xFF == (kb >> 16u64) & 0xFF,
                (ka >> 24u64) & 0xFF == (kb >> 24u64) & 0xFF,
                (ka >> 32u64) & 0xFF == (kb >> 32u64) & 0xFF,
                (ka >> 40u64) & 0xFF == (kb >> 40u64) & 0xFF,
                (ka >> 48u64) & 0xFF == (kb >> 48u64) & 0xFF,
                (ka >> 56u64) & 0xFF == (kb >> 56u64) & 0xFF,
        ;
    }
    if ka == kb {
        assert forall|i: int| 0 <= i < 8 implies spec_padded_byte(a, i) == spec_padded_byte(b, i) by {
            let j = i as u64;
            assert((ka >> (8 * j)) & 0xFF == spec_padded_byte(a, j as int) as u64);
            assert((kb >> (8 * j)) & 0xFF == spec_padded_byte(b, j as int) as u64);
        }
    }
}

/// `objs1` is `objs0` after one strong reference to `o` was given up.
pub open spec fn spec_released(objs0: &ObjectManager, objs1: &ObjectManager, o: KObjectRef) -> bool {
    &&& objs1.spec_ref_count(o) == spec_less(objs0.spec_ref_count(o), 1)
    &&& forall|p: KObjectRef| p != o ==> #[trigger] objs1.spec_ref_count(p) == objs0.spec_ref_count(p)
}

/// `objs1` is `objs0` after the reference held by the binding of interrupt
/// `name` in `interrupts`, if any, was given up.
pub open spec fn spec_unbound(objs0: &ObjectManager, objs1: &ObjectManager, interrupts: Map<u32, KTypedObject>, name: u32) -> bool {
    if interrupts.dom().contains(name) && objs0.valid(interrupts[name].object) {
        spec_released(objs0, objs1, interrupts[name].object)
    } else {
        objs0.same_counts(objs1)
    }
}

/// `objs1` is `objs0` after one more strong reference to `o` was taken.
pub open spec fn spec_acquired(objs0: &ObjectManager, objs1: &ObjectManager, o: KObjectRef) -> bool {
    &&& objs1.spec_ref_count(o) == if objs0.spec_ref_count(o) < usize::MAX {
        objs0.spec_ref_count(o) + 1
    } else {
        objs0.spec_ref_count(o)
    }
    &&& forall|p: KObjectRef| p != o ==> #[trigger] objs1.spec_ref_count(p) == objs0.spec_ref_count(p)
}

/// The kernel's invariant over its parts.
pub open spec fn kernel_wf(
    objects: ObjectManager,
    processes: CommonProcessManager,
    threads: CommonThreadManager,
    current: Option<(ProcessId, ThreadIndex)>,
    next_pid: u32,
    next_tid: u32,
    ports: Map<u64, KTypedObject>,
) -> bool {
    &&& inv(&objects, &threads)
    &&& processes.wf()
    &&& forall|i: int| 0 <= i < threads@.len() ==> (#[trigger] threads@[i]).index.0 < next_tid
    &&& forall|i: int| 0 <= i < threads@.len() ==> processes.has((#[trigger] threads@[i]).pid)
    &&& forall|i: int| 0 <= i < processes@.len() ==> (#[trigger] processes@[i]).pid.0 < next_pid
    &&& forall|i: int, h: u32| 0 <= i < processes@.len() && #[trigger] processes@[i].handles().dom().contains(h)
        ==> objects.valid(processes@[i].handles()[h])
    &&& forall|k: u64| #[trigger] ports.dom().contains(k) ==> objects.valid(ports[k].object)
    &&& current matches Some((pid, tid)) ==> threads.has(tid) && processes.has(pid) && threads.thread(tid).pid == pid
}

/// Whether object `j` is bound to one of the first `n` interrupts of
/// `active`.
#[verifier::opaque]
pub open spec fn spec_interrupt_target(interrupts: Map<u32, KTypedObject>, active: Seq<u32>, n: int, j: int) -> bool {
    exists|k: int| 0 <= k < n && interrupts.dom().contains(active[k]) && (#[trigger] interrupts[active[k]]).object.0 == j
}

/// Adding a thread that refers only to existing objects keeps the
/// invariant of objects and threads.
proof fn lemma_add_thread_keeps_inv(objs: &ObjectManager, ct0: &CommonThreadManager, ct1: &CommonThreadManager, t: CommonThread)
    requires
        inv(objs, ct0),
        ct1.wf(),
        ct1@ == ct0@.push(t),
        crate::thread::spec_refs_valid(t, objs),
    ensures
        inv(objs, ct1),
{
    assert forall|j: int, i: int| 0 <= j < objs@.len() && 0 <= i < objs@[j].wakers@.len() implies waker_ok(
        ct1,
        (#[trigger] objs@[j].wakers@[i]).waker,
        j,
    ) by {
        let w = objs@[j].wakers@[i].waker;
        assert(waker_ok(ct0, w, j));
        ct0.lemma_pos(w.thread);
        let k = ct0.pos(w.thread);
        assert(ct1@[k] == ct0@[k]);
        assert(ct1.has(w.thread));
        ct1.lemma_pos(w.thread);
    }
    assert forall|k: int| 0 <= k < ct1@.len() implies crate::thread::spec_refs_valid(#[trigger] ct1@[k], objs) by {
        if k < ct0@.len() {
            assert(ct1@[k] == ct0@[k]);
        }
    }
}

/// Changing a thread that no queued waker belongs to, without making it
/// refer to objects that do not exist, keeps the invariant of objects and
/// threads.
proof fn lemma_unqueued_change_keeps_inv(objs: &ObjectManager, ct0: &CommonThreadManager, ct1: &CommonThreadManager, p: int)
    requires
        inv(objs, ct0),
        ct1.wf(),
        0 <= p < ct0@.len(),
        ct0.same_except(ct1, p),
        ct1@[p].index == ct0@[p].index,
        ct0@[p].state != ThreadState::Waiting,
        crate::thread::spec_refs_valid(ct1@[p], objs),
    ensures
        inv(objs, ct1),
{
    crate::sync::lemma_thread_at(ct0, p);
    assert forall|j: int, i: int| 0 <= j < objs@.len() && 0 <= i < objs@[j].wakers@.len() implies waker_ok(
        ct1,
        (#[trigger] objs@[j].wakers@[i]).waker,
        j,
    ) by {
        let w = objs@[j].wakers@[i].waker;
        assert(waker_ok(ct0, w, j));
        assert(w.thread != ct0@[p].index);
        crate::sync::lemma_thread_frame(ct0, ct1, p, w.thread);
    }
    assert forall|k: int| 0 <= k < ct1@.len() implies crate::thread::spec_refs_valid(#[trigger] ct1@[k], objs) by {
        if k != p {
            assert(ct1@[k] == ct0@[k]);
        }
    }
}

/// Changing only the IPC data area of one thread keeps the invariant of
/// objects and threads.
proof fn lemma_ipc_change_keeps_inv(objs: &ObjectManager, ct0: &CommonThreadManager, ct1: &CommonThreadManager, p: int)
    requires
        inv(objs, ct0),
        ct1.wf(),
        0 <= p < ct0@.len(),
        ct0.same_except(ct1, p),
        ct1@[p].index == ct0@[p].index,
        ct1@[p].state == ct0@[p].state,
        ct1@[p].wake_key == ct0@[p].wake_key,
        ct1@[p].wait_objects == ct0@[p].wait_objects,
        ct1@[p].wait_type == ct0@[p].wait_type,
        ct1@[p].kobj == ct0@[p].kobj,
    ensures
        inv(objs, ct1),
{
    crate::sync::lemma_thread_at(ct0, p);
    crate::sync::lemma_thread_at(ct1, p);
    assert forall|j: int, i: int| 0 <= j < objs@.len() && 0 <= i < objs@[j].wakers@.len() implies waker_ok(
        ct1,
        (#[trigger] objs@[j].wakers@[i]).waker,
        j,
    ) by {
        let w = objs@[j].wakers@[i].waker;
        assert(waker_ok(ct0, w, j));
        if w.thread != ct0@[p].index {
            crate::sync::lemma_thread_frame(ct0, ct1, p, w.thread);
        }
    }
    assert forall|k: int| 0 <= k < ct1@.len() implies crate::thread::spec_refs_valid(#[trigger] ct1@[k], objs) by {
        assert(crate::thread::spec_refs_valid(ct0@[k], objs));
    }
}

/// Handle `j` of the handle parameter whose descriptor is word `q`, among
/// the `t` translate words from word `s0` on, is moved and has the raw
/// value `g`.
pub open spec fn spec_moves_at(data: Seq<u8>, s0: nat, t: nat, q: int, j: int, g: u32) -> bool {
    &&& spec_descriptor_at(data, s0, t, q)
    &&& (word_at(data, q) & 16u32) != 0
    &&& 0 <= j < payload_words(word_at(data, q))
    &&& param_handle(data, q, j) is Some
    &&& param_handle(data, q, j).unwrap().spec_raw() == g
}

/// Some handle parameter moves the handle `g` in a word before word `pos`.
pub open spec fn spec_moved_before(data: Seq<u8>, s0: nat, t: nat, pos: int, g: u32) -> bool {
    exists|q: int, j: int| #[trigger] spec_moves_at(data, s0, t, q, j, g) && q + 1 + j < pos
}

/// Some handle parameter of the message moves the handle `g`.
pub open spec fn spec_moved_in(data: Seq<u8>, s0: nat, t: nat, g: u32) -> bool {
    exists|q: int, j: int| #[trigger] spec_moves_at(data, s0, t, q, j, g)
}

/// Whether handle `i` of the parameter whose descriptor is word `p` is an
/// open handle of the sender when it is read: open in the sender's table
/// `src` at the start and not moved by an earlier handle of the message.
pub open spec fn spec_handle_live(data: Seq<u8>, s0: nat, t: nat, src: Map<u32, KObjectRef>, p: int, i: int) -> bool {
    let h = param_handle(data, p, i);
    &&& h is Some
    &&& src.dom().contains(h.unwrap().spec_raw())
    &&& !spec_moved_before(data, s0, t, p + 1 + i, h.unwrap().spec_raw())
}

/// The word `w` written for handle `i` of the parameter whose descriptor
/// is word `p`: for a live handle (`spec_handle_live`), a nonzero handle
/// that the receiver's table `dest` maps to the same object; zero for no
/// handle, and, between two processes (`other`), zero for a handle that is
/// not live. Between threads of one process the new handle may have been
/// moved on by a later handle of the message that names it.
pub open spec fn spec_handle_sent(
    data: Seq<u8>,
    s0: nat,
    t: nat,
    src: Map<u32, KObjectRef>,
    dest: Map<u32, KObjectRef>,
    other: bool,
    p: int,
    i: int,
    w: u32,
) -> bool {
    let h = param_handle(data, p, i);
    let live = spec_handle_live(data, s0, t, src, p, i);
    &&& live ==> w != 0 && ((dest.dom().contains(w) && dest[w] == src[h.unwrap().spec_raw()]) || (!other && spec_moved_in(
        data,
        s0,
        t,
        w,
    )))
    &&& !live && (other || h is None) ==> w == 0
}

/// Word `w` is written as a handle of a parameter of the translated
/// message `out` that stands before word `pos`.
pub open spec fn spec_written_before(data: Seq<u8>, s0: nat, t: nat, out: Seq<u8>, pos: int, w: u32) -> bool {
    exists|p: int, i: int|
        spec_descriptor_at(data, s0, t, p) && 0 <= i < payload_words(word_at(data, p)) && p + 1 + i < pos && #[trigger] payload_word(
            out,
            p,
            i,
        ) == w
}

/// Two descriptors of the translate section: the first, with its payload,
/// lies before the second.
proof fn lemma_descriptors_ordered(data: Seq<u8>, w: nat, left: nat, p: int, q: int)
    requires
        spec_descriptor_at(data, w, left, p),
        spec_descriptor_at(data, w, left, q),
        p < q,
    ensures
        p + 1 + payload_words(word_at(data, p)) <= q,
    decreases left,
{
    let d = word_at(data, w as int);
    let w1 = w + 1 + payload_words(d);
    let left1 = (left - 1 - payload_words(d)) as nat;
    lemma_descriptor_within(data, w, left, p);
    if p == w {
        assert(spec_descriptor_at(data, w1, left1, q));
        lemma_descriptor_within(data, w1, left1, q);
    } else {
        assert(spec_descriptor_at(data, w1, left1, p));
        assert(spec_descriptor_at(data, w1, left1, q));
        lemma_descriptors_ordered(data, w1, left1, p, q);
    }
}

/// The handles moved before the word after handle `i` of the parameter at
/// word `p` are those moved before that handle and, if it is moved, the
/// handle itself.
proof fn lemma_moved_before_step(data: Seq<u8>, s0: nat, t: nat, p: int, i: int, g: u32)
    requires
        spec_descriptor_at(data, s0, t, p),
        0 <= i < payload_words(word_at(data, p)),
    ensures
        spec_moved_before(data, s0, t, p + 1 + i + 1, g) == (spec_moved_before(data, s0, t, p + 1 + i, g) || spec_moves_at(
            data,
            s0,
            t,
            p,
            i,
            g,
        )),
{
    if spec_moved_before(data, s0, t, p + 1 + i + 1, g) && !spec_moved_before(data, s0, t, p + 1 + i, g) {
        let (q, j) = choose|q: int, j: int| #[trigger] spec_moves_at(data, s0, t, q, j, g) && q + 1 + j < p + 1 + i + 1;
        assert(q + 1 + j == p + 1 + i);
        if q < p {
            lemma_descriptors_ordered(data, s0, t, q, p);
        } else if q > p {
            lemma_descriptors_ordered(data, s0, t, p, q);
        }
        assert(q == p && j == i);
    }
    if spec_moves_at(data, s0, t, p, i, g) {
        assert(spec_moves_at(data, s0, t, p, i, g) && p + i + 1 < p + 1 + i + 1);
    }
}

/// No handle stands at the descriptor word `p`.
proof fn lemma_moved_before_descriptor(data: Seq<u8>, s0: nat, t: nat, p: int, g: u32)
    requires
        spec_descriptor_at(data, s0, t, p),
    ensures
        spec_moved_before(data, s0, t, p + 1, g) == spec_moved_before(data, s0, t, p, g),
{
    if spec_moved_before(data, s0, t, p + 1, g) && !spec_moved_before(data, s0, t, p, g) {
        let (q, j) = choose|q: int, j: int| #[trigger] spec_moves_at(data, s0, t, q, j, g) && q + 1 + j < p + 1;
        assert(q + 1 + j == p);
        if q < p {
            lemma_descriptors_ordered(data, s0, t, q, p);
        }
    }
}

/// Every handle of the section stands before its end.
proof fn lemma_moved_before_end(data: Seq<u8>, s0: nat, t: nat, g: u32)
    ensures
        spec_moved_before(data, s0, t, (s0 + t) as int, g) == spec_moved_in(data, s0, t, g),
{
    if spec_moved_in(data, s0, t, g) {
        let (q, j) = choose|q: int, j: int| #[trigger] spec_moves_at(data, s0, t, q, j, g);
        lemma_descriptor_within(data, s0, t, q);
        assert(spec_moves_at(data, s0, t, q, j, g) && q + 1 + j < s0 + t);
    }
}

/// A word written for a handle stays as `spec_handle_sent` says while the
/// receiver's table keeps its entries: between two processes it only
/// gains, in one process it loses only handles that the message moves.
proof fn lemma_handle_sent_kept(
    data: Seq<u8>,
    s0: nat,
    t: nat,
    src: Map<u32, KObjectRef>,
    d0: Map<u32, KObjectRef>,
    d1: Map<u32, KObjectRef>,
    other: bool,
    p: int,
    i: int,
    w: u32,
)
    requires
        spec_handle_sent(data, s0, t, src, d0, other, p, i, w),
        other ==> d0.submap_of(d1),
        !other ==> forall|g: u32| #[trigger] d0.dom().contains(g) && !spec_moved_in(data, s0, t, g) ==> d1.dom().contains(g)
            && d1[g] == d0[g],
    ensures
        spec_handle_sent(data, s0, t, src, d1, other, p, i, w),
{
    if d0.dom().contains(w) {
        if other {
            assert(d1.dom().contains(w));
        }
    }
}

/// The message in the IPC data area of thread `src` in `k0` stands in the
/// IPC data area of thread `dest` in `k1`, translated: the header, the
/// result code of a reply and the normal parameters are copied; each
/// handle parameter keeps its flags and count, and each of its handles is
/// written as `spec_handle_sent` says. The sender keeps every handle that
/// the message does not move, to the same object. Between two processes
/// the sender loses every moved handle and keeps nothing else new, and the
/// receiver only gains handles; within one process every other handle
/// that the process has afterwards, a moved one among them, is one that
/// the message was given as a new handle.
pub open spec fn spec_message_translated(k0: &Kernel, k1: &Kernel, src: ThreadIndex, dest: ThreadIndex, reply: bool) -> bool {
    let data = k0.spec_threads().thread(src).ipc_data@;
    let h = IPCHeaderCode::spec_decode(word_at(data, 0));
    let start = spec_params_start(reply);
    let s0 = (start + h.normal_parameter_count) as nat;
    let t = h.translate_parameter_size as nat;
    let out = k1.spec_threads().thread(dest).ipc_data@;
    let sp = k0.spec_threads().thread(src).pid;
    let dp = k0.spec_threads().thread(dest).pid;
    let src0 = k0.spec_processes().process(sp).handles();
    let src1 = k1.spec_processes().process(sp).handles();
    let dest0 = k0.spec_processes().process(dp).handles();
    let dest1 = k1.spec_processes().process(dp).handles();
    &&& word_at(out, 0) == h.spec_encode()
    &&& reply ==> word_at(out, 1) == word_at(data, 1)
    &&& forall|k: int| 0 <= k < h.normal_parameter_count ==> #[trigger] word_at(out, start + k) == word_at(data, start + k)
    &&& forall|p: int| #[trigger] spec_descriptor_at(data, s0, t, p) ==> word_at(out, p) == spec_handle_descriptor(
        (word_at(data, p) & 16u32) != 0,
        (word_at(data, p) & 32u32) != 0,
        payload_words(word_at(data, p)),
    )
    &&& forall|p: int, i: int| spec_descriptor_at(data, s0, t, p) && 0 <= i < payload_words(word_at(data, p))
        ==> spec_handle_sent(data, s0, t, src0, dest1, sp != dp, p, i, #[trigger] payload_word(out, p, i))
    &&& forall|g: u32| #[trigger] src0.dom().contains(g) && !spec_moved_in(data, s0, t, g) ==> src1.dom().contains(g)
        && src1[g] == src0[g]
    &&& sp != dp ==> forall|g: u32| #[trigger] spec_moved_in(data, s0, t, g) ==> !src1.dom().contains(g)
    &&& sp == dp ==> forall|g: u32| #[trigger] src1.dom().contains(g) && !(src0.dom().contains(g) && !spec_moved_in(data, s0, t, g))
        ==> spec_written_before(data, s0, t, out, (s0 + t) as int, g)
    &&& sp != dp ==> src1.submap_of(src0)
    &&& sp != dp ==> dest0.submap_of(dest1)
}

/// A translated message stays translated while the threads' messages and
/// processes and the receiving thread's IPC data area are kept.
pub proof fn lemma_message_translated_kept(
    k0: &Kernel,
    k1: &Kernel,
    j0: &Kernel,
    j1: &Kernel,
    src: ThreadIndex,
    dest: ThreadIndex,
    reply: bool,
)
    requires
        spec_message_translated(k0, k1, src, dest, reply),
        j0.spec_threads().thread(src) == k0.spec_threads().thread(src),
        j0.spec_threads().thread(dest).pid == k0.spec_threads().thread(dest).pid,
        j0.spec_processes() == k0.spec_processes(),
        j1.spec_processes() == k1.spec_processes(),
        j1.spec_threads().thread(dest).ipc_data == k1.spec_threads().thread(dest).ipc_data,
    ensures
        spec_message_translated(j0, j1, src, dest, reply),
{
}

/// The kernel.
pub struct Kernel {
    pub start_time_ns: u64,
    objects: ObjectManager,
    processes: CommonProcessManager,
    threads: CommonThreadManager,
    exec_info: ExecutionInfo,
    next_pid: u32,
    next_tid: u32,
    ports: BTreeMap<u64, KTypedObject>,
    interrupts: BTreeMap<u32, KTypedObject>,
    active_interrupts: ActiveInterrupts,
    last_time_ns: u64,
}

impl Kernel {
    /// The nanoseconds since the start that `read_time` last read.
    pub closed spec fn spec_last_time(&self) -> u64 {
        self.last_time_ns
    }

    pub closed spec fn spec_objects(&self) -> ObjectManager {
        self.objects
    }

    pub closed spec fn spec_processes(&self) -> CommonProcessManager {
        self.processes
    }

    pub closed spec fn spec_threads(&self) -> CommonThreadManager {
        self.threads
    }

    pub closed spec fn spec_current(&self) -> Option<(ProcessId, ThreadIndex)> {
        self.exec_info.current
    }

    pub closed spec fn spec_next(&self) -> Option<ThreadIndex> {
        self.exec_info.next
    }

    pub closed spec fn spec_next_pid(&self) -> u32 {
        self.next_pid
    }

    pub closed spec fn spec_next_tid(&self) -> u32 {
        self.next_tid
    }

    /// The registered ports: client ends by the key of their name.
    pub closed spec fn spec_ports(&self) -> Map<u64, KTypedObject> {
        self.ports@
    }

    /// The bound interrupts and their events.
    pub closed spec fn spec_interrupts(&self) -> Map<u32, KTypedObject> {
        self.interrupts@
    }

    pub closed spec fn spec_active(&self) -> Seq<u32> {
        self.active_interrupts.spec_active()
    }

    /// The process that runs now.
    pub open spec fn current_process_spec(&self) -> CommonProcess {
        self.spec_processes().process(self.spec_current().unwrap().0)
    }

    /// The thread that runs now.
    pub open spec fn current_thread_spec(&self) -> CommonThread {
        self.spec_threads().thread(self.spec_current().unwrap().1)
    }

    /// The kernel's invariant: objects and threads keep their queues
    /// current; thread and process ids are below the next ones to be given;
    /// every handle and port refers to an existing object; the current
    /// thread, if any, exists and belongs to an existing process.
    pub open spec fn wf(&self) -> bool {
        kernel_wf(
            self.spec_objects(),
            self.spec_processes(),
            self.spec_threads(),
            self.spec_current(),
            self.spec_next_pid(),
            self.spec_next_tid(),
            self.spec_ports(),
        )
    }

    /// `new` differs from `self` at most in its objects, processes and threads.
    pub open spec fn same_schedule(&self, new: &Kernel) -> bool {
        &&& new.spec_current() == self.spec_current()
        &&& new.spec_next() == self.spec_next()
        &&& new.spec_next_pid() == self.spec_next_pid()
        &&& new.spec_next_tid() == self.spec_next_tid()
        &&& new.spec_ports() == self.spec_ports()
        &&& new.spec_interrupts() == self.spec_interrupts()
        &&& new.spec_active() == self.spec_active()
    }

    /// `new` has the objects of `self` and more objects after them, which
    /// no thread waits on.
    pub open spec fn objects_grew(&self, new: &Kernel) -> bool {
        &&& new.spec_objects()@.len() >= self.spec_objects()@.len()
        &&& forall|j: int| 0 <= j < self.spec_objects()@.len() ==> new.spec_objects()@[j] == #[trigger] self.spec_objects()@[j]
        &&& forall|j: int| self.spec_objects()@.len() <= j < new.spec_objects()@.len()
            ==> (#[trigger] new.spec_objects()@[j]).wakers@.len() == 0
    }

    /// The position of the running process among the processes.
    pub open spec fn current_pos(&self) -> int {
        self.spec_processes().pos(self.spec_current().unwrap().0)
    }

    /// Adding objects keeps the kernel's invariant.
    proof fn lemma_grow_keeps_wf(k0: &Kernel, k1: &Kernel)
        requires
            k0.wf(),
            k0.objects_grew(k1),
            k1.spec_threads() == k0.spec_threads(),
            k1.spec_processes() == k0.spec_processes(),
            k0.same_schedule(k1),
        ensures
            k1.wf(),
    {
        crate::ports::lemma_grow_keeps_inv(&k0.objects, &k0.threads, &k1.objects);
    }

    /// A kernel with no objects, processes or threads, whose clock starts now.
    pub fn new() -> (r: Kernel)
        ensures
            r.wf(),
            r.spec_objects()@.len() == 0,
            r.spec_processes()@.len() == 0,
            r.spec_threads()@.len() == 0,
            r.spec_current().is_none(),
            r.spec_next().is_none(),
    {
        let start_time_ns = clock_now_ns();
        Kernel {
            start_time_ns,
            objects: ObjectManager::new(),
            processes: CommonProcessManager::new(),
            threads: CommonThreadManager::new(),
            exec_info: ExecutionInfo { current: None, next: None },
            next_pid: 0,
            next_tid: 0,
            ports: BTreeMap::new(),
            interrupts: BTreeMap::new(),
            active_interrupts: ActiveInterrupts::new(),
            last_time_ns: 0,
        }
    }

    /// Reads the nanoseconds since the kernel started, as `time` does, and
    /// keeps the reading: the kernel is otherwise unchanged.
    pub fn read_time(&mut self) -> (r: u64)
        requires
            old(self).wf(),
        ensures
            final(self).wf(),
            r == final(self).spec_last_time(),
            final(self).spec_objects() == old(self).spec_objects(),
            final(self).spec_processes() == old(self).spec_processes(),
            final(self).spec_threads() == old(self).spec_threads(),
            old(self).same_schedule(final(self)),
    {
        let now = self.time();
        self.last_time_ns = now;
        now
    }

    /// The objects of the kernel.
    pub fn objects(&self) -> (r: &ObjectManager)
        ensures
            *r == self.spec_objects(),
    {
        &self.objects
    }

    /// The reading of the clock, in nanoseconds.
    pub fn current_time(&self) -> (r: u64) {
        clock_now_ns()
    }

    /// Nanoseconds since the kernel started; wraps if the clock went back.
    /// The clock is read once and handed to `elapsed_ns` with the start time.
    pub fn time(&self) -> (r: u64) {
        let now = clock_now_ns();
        elapsed_ns(now, self.start_time_ns)
    }

    /// Adds an object with no waiting threads.
    pub fn new_object(&mut self, data: KObjectData) -> (r: KObjectRef)
        requires
            old(self).wf(),
        ensures
            final(self).wf(),
            r.0 == old(self).spec_objects()@.len(),
            final(self).spec_objects()@.len() == old(self).spec_objects()@.len() + 1,
            final(self).spec_objects().obj(r).data == data,
            old(self).objects_grew(final(self)),
            final(self).spec_threads() == old(self).spec_threads(),
            final(self).spec_processes() == old(self).spec_processes(),
            old(self).same_schedule(final(self)),
            final(self).spec_objects().spec_ref_count(r) == 1,
            forall|o: KObjectRef| o != r ==> #[trigger] final(self).spec_objects().spec_ref_count(o)
                == old(self).spec_objects().spec_ref_count(o),
    {
        let ghost k0 = *self;
        let r = self.objects.new_object(data);
        proof {
            Kernel::lemma_grow_keeps_wf(&k0, self);
        }
        r
    }

    /// Adds an object and returns a reference typed by its concrete kind.
    pub fn new_object_typed(&mut self, data: KObjectData) -> (r: KTypedObject)
        requires
            old(self).wf(),
        ensures
            final(self).wf(),
            r.object.0 == old(self).spec_objects()@.len(),
            r.ty == crate::object::spec_kind(data),
            final(self).spec_objects()@.len() == old(self).spec_objects()@.len() + 1,
            final(self).spec_objects().obj(r.object).data == data,
            old(self).objects_grew(final(self)),
            final(self).spec_threads() == old(self).spec_threads(),
            final(self).spec_processes() == old(self).spec_processes(),
            old(self).same_schedule(final(self)),
            final(self).spec_objects().spec_ref_count(r.object) == 1,
            forall|o: KObjectRef| o != r.object ==> #[trigger] final(self).spec_objects().spec_ref_count(o)
                == old(self).spec_objects().spec_ref_count(o),
    {
        let ghost k0 = *self;
        let r = self.objects.new_object_typed(data);
        proof {
            Kernel::lemma_grow_keeps_wf(&k0, self);
        }
        r
    }

    /// The process and thread that run now.
    pub fn current_pid_tid(&self) -> (r: (ProcessId, ThreadIndex))
        requires
            self.spec_current().is_some(),
        ensures
            r == self.spec_current().unwrap(),
    {
        match &self.exec_info.current {
            Some(c) => *c,
            None => (ProcessId(0), ThreadIndex(0)),
        }
    }

    /// The process that runs now.
    pub fn current_process(&self) -> (r: &CommonProcess)
        requires
            self.wf(),
            self.spec_current().is_some(),
        ensures
            *r == self.current_process_spec(),
    {
        let (pid, _) = self.current_pid_tid();
        self.processes.find_common_process(pid)
    }

    /// The thread that runs now.
    pub fn current_thread(&self) -> (r: &CommonThread)
        requires
            self.wf(),
            self.spec_current().is_some(),
        ensures
            *r == self.current_thread_spec(),
    {
        let (_, tid) = self.current_pid_tid();
        self.threads.find_thread(tid)
    }

    /// Gives the running process a new handle to an object; the handle
    /// takes over the strong reference that the caller held.
    pub fn new_handle(&mut self, obj: KObjectRef) -> (h: Handle)
        requires
            old(self).wf(),
            old(self).spec_current().is_some(),
            old(self).spec_objects().valid(obj),
            old(self).current_process_spec().handles().dom().len() < u32::MAX,
        ensures
            final(self).wf(),
            h.spec_raw() != 0,
            !old(self).current_process_spec().handles().dom().contains(h.spec_raw()),
            final(self).current_process_spec().handles() == old(self).current_process_spec().handles().insert(
                h.spec_raw(),
                obj,
            ),
            final(self).current_process_spec().pid == old(self).current_process_spec().pid,
            final(self).current_pos() == old(self).current_pos(),
            final(self).spec_processes()@.len() == old(self).spec_processes()@.len(),
            forall|j: int| 0 <= j < old(self).spec_processes()@.len() && j != old(self).current_pos()
                ==> #[trigger] final(self).spec_processes()@[j] == old(self).spec_processes()@[j],
            final(self).spec_objects() == old(self).spec_objects(),
            final(self).spec_threads() == old(self).spec_threads(),
            old(self).same_schedule(final(self)),
    {
        let ghost k0 = *self;
        let (pid, _) = self.current_pid_tid();
        let p = self.processes.find_pos(pid);
        proof {
            k0.processes.lemma_pos(pid);
        }
        let h = self.processes.new_handle_at(p, obj);
        proof {
            k0.processes.lemma_same_pids(&self.processes);
            self.processes.lemma_pos(pid);
            assert forall|i: int, g: u32| 0 <= i < self.spec_processes()@.len()
                && #[trigger] self.spec_processes()@[i].handles().dom().contains(g)
                implies self.spec_objects().valid(self.spec_processes()@[i].handles()[g]) by {
                if i != p {
                    assert(self.spec_processes()@[i] == k0.spec_processes()@[i]);
                } else if g != h.spec_raw() {
                    assert(k0.spec_processes()@[i].handles().dom().contains(g));
                }
            }
            assert forall|i: int| 0 <= i < self.spec_threads()@.len() implies self.spec_processes().has(
                (#[trigger] self.spec_threads()@[i]).pid,
            ) by {
                assert(k0.spec_processes().has(k0.spec_threads()@[i].pid));
            }
            assert forall|i: int| 0 <= i < self.spec_processes()@.len() implies (#[trigger] self.spec_processes()@[i]).pid.0
                < self.spec_next_pid() by {
                assert(k0.spec_processes()@[i].pid == self.spec_processes()@[i].pid);
            }
        }
        h
    }

    /// Adds an object and gives the running process a handle to it.
    pub fn new_object_handle(&mut self, data: KObjectData) -> (r: (KObjectRef, Handle))
        requires
            old(self).wf(),
            old(self).spec_current().is_some(),
            old(self).current_process_spec().handles().dom().len() < u32::MAX,
        ensures
            final(self).wf(),
            r.0.0 == old(self).spec_objects()@.len(),
            final(self).spec_objects()@.len() == old(self).spec_objects()@.len() + 1,
            final(self).spec_objects().obj(r.0).data == data,
            old(self).objects_grew(final(self)),
            r.1.spec_raw() != 0,
            !old(self).current_process_spec().handles().dom().contains(r.1.spec_raw()),
            final(self).current_process_spec().handles() == old(self).current_process_spec().handles().insert(
                r.1.spec_raw(),
                r.0,
            ),
            final(self).current_pos() == old(self).current_pos(),
            final(self).spec_processes()@.len() == old(self).spec_processes()@.len(),
            forall|j: int| 0 <= j < old(self).spec_processes()@.len() && j != old(self).current_pos()
                ==> #[trigger] final(self).spec_processes()@[j] == old(self).spec_processes()@[j],
            final(self).spec_threads() == old(self).spec_threads(),
            old(self).same_schedule(final(self)),
    {
        let obj = self.new_object(data);
        let h = self.new_handle(obj);
        (obj, h)
    }

    /// The object that a handle of the running process refers to.
    pub fn lookup_handle(&self, handle: &Handle) -> (r: Option<KObjectRef>)
        requires
            self.wf(),
            self.spec_current().is_some(),
        ensures
            r == (if self.current_process_spec().handles().dom().contains(handle.spec_raw()) {
                Some(self.current_process_spec().handles()[handle.spec_raw()])
            } else {
                None
            }),
            r matches Some(o) ==> self.spec_objects().valid(o),
    {
        proof {
            self.processes.lemma_pos(self.spec_current().unwrap().0);
        }
        self.current_process().lookup_handle(handle)
    }

    /// Closes a handle of the running process, giving up its reference to
    /// the object (which is dropped when that was the last); false when the
    /// handle was not open.
    pub fn close_handle(&mut self, handle: &Handle) -> (r: bool)
        requires
            old(self).wf(),
            old(self).spec_current().is_some(),
        ensures
            final(self).wf(),
            r == old(self).current_process_spec().handles().dom().contains(handle.spec_raw()),
            final(self).current_process_spec().handles() == old(self).current_process_spec().handles().remove(
                handle.spec_raw(),
            ),
            final(self).current_pos() == old(self).current_pos(),
            final(self).spec_processes()@.len() == old(self).spec_processes()@.len(),
            forall|j: int| 0 <= j < old(self).spec_processes()@.len() && j != old(self).current_pos()
                ==> #[trigger] final(self).spec_processes()@[j] == old(self).spec_processes()@[j],
            final(self).spec_objects()@ == old(self).spec_objects()@,
            final(self).spec_threads() == old(self).spec_threads(),
            old(self).same_schedule(final(self)),
            !r ==> old(self).spec_objects().same_counts(&final(self).spec_objects()),
            r ==> spec_released(
                &old(self).spec_objects(),
                &final(self).spec_objects(),
                old(self).current_process_spec().handles()[handle.spec_raw()],
            ),
    {
        let ghost k0 = *self;
        let r = self.close_process_handle(handle);
        match r {
            Some(o) => {
                let ghost k1 = *self;
                self.objects.release(o);
                proof {
                    assert(self.spec_objects()@ == k1.spec_objects()@);
                    assert(inv(&self.spec_objects(), &self.spec_threads()));
                }
                true
            },
            None => false,
        }
    }

    /// Closes a handle of the running process and gives back its object.
    fn close_process_handle(&mut self, handle: &Handle) -> (r: Option<KObjectRef>)
        requires
            old(self).wf(),
            old(self).spec_current().is_some(),
        ensures
            final(self).wf(),
            r == (if old(self).current_process_spec().handles().dom().contains(handle.spec_raw()) {
                Some(old(self).current_process_spec().handles()[handle.spec_raw()])
            } else {
                None
            }),
            final(self).current_process_spec().handles() == old(self).current_process_spec().handles().remove(
                handle.spec_raw(),
            ),
            final(self).current_pos() == old(self).current_pos(),
            final(self).spec_processes()@.len() == old(self).spec_processes()@.len(),
            forall|j: int| 0 <= j < old(self).spec_processes()@.len() && j != old(self).current_pos()
                ==> #[trigger] final(self).spec_processes()@[j] == old(self).spec_processes()@[j],
            final(self).spec_objects() == old(self).spec_objects(),
            final(self).spec_threads() == old(self).spec_threads(),
            old(self).same_schedule(final(self)),
    {
        let ghost k0 = *self;
        let (pid, _) = self.current_pid_tid();
        let p = self.processes.find_pos(pid);
        proof {
            k0.processes.lemma_pos(pid);
        }
        let r = self.processes.lookup_close_at(p, handle);
        proof {
            k0.processes.lemma_same_pids(&self.processes);
            self.processes.lemma_pos(pid);
            assert forall|i: int, g: u32| 0 <= i < self.spec_processes()@.len()
                && #[trigger] self.spec_processes()@[i].handles().dom().contains(g)
                implies self.spec_objects().valid(self.spec_processes()@[i].handles()[g]) by {
                if i != p {
                    assert(self.spec_processes()@[i] == k0.spec_processes()@[i]);
                } else {
                    assert(k0.spec_processes()@[i].handles().dom().contains(g));
                }
            }
            assert forall|i: int| 0 <= i < self.spec_threads()@.len() implies self.spec_processes().has(
                (#[trigger] self.spec_threads()@[i]).pid,
            ) by {
                assert(k0.spec_processes().has(k0.spec_threads()@[i].pid));
            }
            assert forall|i: int| 0 <= i < self.spec_processes()@.len() implies (#[trigger] self.spec_processes()@[i]).pid.0
                < self.spec_next_pid() by {
                assert(k0.spec_processes()@[i].pid == self.spec_processes()@[i].pid);
            }
        }
        r
    }

    /// The first ready thread, if any.
    pub fn next_thread(&self) -> (r: Option<ThreadIndex>)
        ensures
            r is None <==> forall|i: int| 0 <= i < self.spec_threads()@.len() ==> (#[trigger] self.spec_threads()@[i]).state
                != ThreadState::Ready,
            r matches Some(tid) ==> self.spec_threads().first_ready(tid),
    {
        self.threads.next_thread()
    }

    /// Adds a process with an empty handle table under the next process id.
    #[verifier::spinoff_prover]
    pub fn new_process(&mut self, name: String) -> (r: ProcessId)
        requires
            old(self).wf(),
            old(self).spec_next_pid() < u32::MAX,
        ensures
            final(self).wf(),
            r.0 == old(self).spec_next_pid(),
            final(self).spec_next_pid() == old(self).spec_next_pid() + 1,
            final(self).spec_processes()@.len() == old(self).spec_processes()@.len() + 1,
            forall|j: int| 0 <= j < old(self).spec_processes()@.len()
                ==> #[trigger] final(self).spec_processes()@[j] == old(self).spec_processes()@[j],
            final(self).spec_processes()@.last().pid == r,
            final(self).spec_processes()@.last().name == name,
            final(self).spec_processes()@.last().handles() == Map::<u32, KObjectRef>::empty(),
            final(self).spec_objects() == old(self).spec_objects(),
            final(self).spec_threads() == old(self).spec_threads(),
            final(self).spec_current() == old(self).spec_current(),
            final(self).spec_next() == old(self).spec_next(),
            final(self).spec_next_tid() == old(self).spec_next_tid(),
            final(self).spec_ports() == old(self).spec_ports(),
            final(self).spec_interrupts() == old(self).spec_interrupts(),
    {
        let ghost k0 = *self;
        let pid = self.next_pid;
        self.next_pid = pid + 1;
        let process = CommonProcess::new(ProcessId(pid), name);
        proof {
            if k0.processes.has(ProcessId(pid)) {
                let i = k0.processes.pos(ProcessId(pid));
                assert(k0.spec_processes()@[i].pid.0 < pid);
            }
        }
        self.processes.push(process);
        proof {
            assert forall|i: int| 0 <= i < self.spec_threads()@.len() implies self.spec_processes().has(
                (#[trigger] self.spec_threads()@[i]).pid,
            ) by {
                let q = k0.spec_threads()@[i].pid;
                assert(k0.spec_processes().has(q));
                let k = k0.processes.pos(q);
                assert(self.spec_processes()@[k] == k0.spec_processes()@[k]);
            }
            assert forall|i: int, g: u32| 0 <= i < self.spec_processes()@.len()
                && #[trigger] self.spec_processes()@[i].handles().dom().contains(g)
                implies self.spec_objects().valid(self.spec_processes()@[i].handles()[g]) by {
                if i < k0.spec_processes()@.len() {
                    assert(self.spec_processes()@[i] == k0.spec_processes()@[i]);
                }
            }
            if let Some((cp, ct)) = self.spec_current() {
                let k = k0.processes.pos(cp);
                assert(self.spec_processes()@[k] == k0.spec_processes()@[k]);
            }
        }
        ProcessId(pid)
    }

    /// Adds a thread of a process under the next thread index, with a
    /// kernel object that stands for it; returns the index and the object.
    #[verifier::spinoff_prover]
    pub fn new_thread(&mut self, pid: ProcessId) -> (r: (ThreadIndex, KObjectRef))
        requires
            old(self).wf(),
            old(self).spec_processes().has(pid),
            old(self).spec_next_tid() < u32::MAX,
        ensures
            final(self).wf(),
            r.0.0 == old(self).spec_next_tid(),
            final(self).spec_next_tid() == old(self).spec_next_tid() + 1,
            r.1.0 == old(self).spec_objects()@.len(),
            final(self).spec_objects()@.len() == old(self).spec_objects()@.len() + 1,
            final(self).spec_objects().obj(r.1).data == KObjectData::Thread(ThreadImpl { index: r.0, dead: false }),
            old(self).objects_grew(final(self)),
            final(self).spec_threads()@.len() == old(self).spec_threads()@.len() + 1,
            forall|j: int| 0 <= j < old(self).spec_threads()@.len()
                ==> #[trigger] final(self).spec_threads()@[j] == old(self).spec_threads()@[j],
            final(self).spec_threads()@.last().index == r.0,
            final(self).spec_threads()@.last().pid == pid,
            final(self).spec_threads()@.last().state == ThreadState::Ready,
            final(self).spec_threads()@.last().kobj == (KTypedObject { object: r.1, ty: ObjectType::KThread }),
            final(self).spec_threads()@.last().resume == ThreadResume::Normal,
            final(self).spec_processes() == old(self).spec_processes(),
            final(self).spec_current() == old(self).spec_current(),
            final(self).spec_next() == old(self).spec_next(),
            final(self).spec_next_pid() == old(self).spec_next_pid(),
            final(self).spec_ports() == old(self).spec_ports(),
            final(self).spec_interrupts() == old(self).spec_interrupts(),
            final(self).spec_objects().spec_ref_count(r.1) == 1,
            forall|o: KObjectRef| o.0 < old(self).spec_objects()@.len() ==> #[trigger] final(self).spec_objects().spec_ref_count(o)
                == old(self).spec_objects().spec_ref_count(o),
    {
        let ghost k0 = *self;
        let tid = self.next_tid;
        self.next_tid = tid + 1;
        let index = ThreadIndex(tid as usize);
        let obj = self.objects.new_object(KObjectData::Thread(ThreadImpl::new(index)));
        let ghost objs1 = self.objects;
        proof {
            crate::ports::lemma_grow_keeps_inv(&k0.objects, &k0.threads, &objs1);
        }
        let kobj = KTypedObject { object: obj, ty: ObjectType::KThread };
        let thread = CommonThread::new(pid, index, kobj);
        proof {
            if k0.threads.has(index) {
                let i = k0.threads.pos(index);
                assert(k0.spec_threads()@[i].index.0 < tid);
            }
        }
        let ghost ct0 = self.threads;
        self.threads.add(thread);
        proof {
            lemma_add_thread_keeps_inv(&self.objects, &ct0, &self.threads, thread);
            if let Some((cp, ct)) = self.spec_current() {
                let k = k0.threads.pos(ct);
                assert(self.spec_threads()@[k] == k0.spec_threads()@[k]);
                self.threads.lemma_pos(ct);
                k0.threads.lemma_pos(ct);
            }
            assert forall|i: int| 0 <= i < self.spec_threads()@.len() implies self.spec_processes().has(
                (#[trigger] self.spec_threads()@[i]).pid,
            ) by {
                if i < k0.spec_threads()@.len() {
                    assert(self.spec_threads()@[i] == k0.spec_threads()@[i]);
                }
            }
            assert forall|i: int| 0 <= i < self.spec_threads()@.len() implies (#[trigger] self.spec_threads()@[i]).index.0
                < self.spec_next_tid() by {
                if i < k0.spec_threads()@.len() {
                    assert(self.spec_threads()@[i] == k0.spec_threads()@[i]);
                }
            }
        }
        (index, obj)
    }

    /// Adds a thread to the running process and gives the process a handle
    /// to its kernel object. The caller makes the thread's execution state
    /// from the thread's initializer.
    pub fn create_thread(&mut self) -> (r: (ThreadIndex, Handle))
        requires
            old(self).wf(),
            old(self).spec_current().is_some(),
            old(self).spec_next_tid() < u32::MAX,
            old(self).current_process_spec().handles().dom().len() < u32::MAX,
        ensures
            final(self).wf(),
            r.0.0 == old(self).spec_next_tid(),
            final(self).spec_next_tid() == old(self).spec_next_tid() + 1,
            final(self).spec_threads()@.len() == old(self).spec_threads()@.len() + 1,
            forall|j: int| 0 <= j < old(self).spec_threads()@.len()
                ==> #[trigger] final(self).spec_threads()@[j] == old(self).spec_threads()@[j],
            final(self).spec_threads()@.last().index == r.0,
            final(self).spec_threads()@.last().pid == old(self).spec_current().unwrap().0,
            final(self).spec_threads()@.last().state == ThreadState::Ready,
            final(self).spec_objects()@.len() == old(self).spec_objects()@.len() + 1,
            old(self).objects_grew(final(self)),
            !old(self).current_process_spec().handles().dom().contains(r.1.spec_raw()),
            final(self).current_process_spec().handles() == old(self).current_process_spec().handles().insert(
                r.1.spec_raw(),
                KObjectRef(old(self).spec_objects()@.len() as usize),
            ),
            final(self).spec_objects().obj(KObjectRef(old(self).spec_objects()@.len() as usize)).data
                == KObjectData::Thread(ThreadImpl { index: r.0, dead: false }),
            final(self).spec_current() == old(self).spec_current(),
            final(self).spec_objects().spec_ref_count(KObjectRef(old(self).spec_objects()@.len() as usize)) == 2,
            forall|o: KObjectRef| o.0 < old(self).spec_objects()@.len() ==> #[trigger] final(self).spec_objects().spec_ref_count(o)
                == old(self).spec_objects().spec_ref_count(o),
    {
        let (pid, _) = self.current_pid_tid();
        proof {
            self.processes.lemma_pos(pid);
        }
        let (index, object) = self.new_thread(pid);
        self.acquire_object(object);
        let h = self.new_handle(object);
        (index, h)
    }

    /// Takes one more strong reference to an object, for a handle, a table
    /// or a queue that is to hold it.
    pub fn acquire_object(&mut self, o: KObjectRef)
        requires
            old(self).wf(),
            old(self).spec_objects().valid(o),
        ensures
            final(self).wf(),
            final(self).spec_objects()@ == old(self).spec_objects()@,
            spec_acquired(&old(self).spec_objects(), &final(self).spec_objects(), o),
            final(self).spec_processes() == old(self).spec_processes(),
            final(self).spec_threads() == old(self).spec_threads(),
            final(self).spec_current() == old(self).spec_current(),
            final(self).spec_next_tid() == old(self).spec_next_tid(),
            final(self).spec_next_pid() == old(self).spec_next_pid(),
            final(self).spec_ports() == old(self).spec_ports(),
            final(self).spec_interrupts() == old(self).spec_interrupts(),
            final(self).spec_active() == old(self).spec_active(),
            old(self).same_schedule(final(self)),
    {
        self.objects.acquire(o);
    }

    /// Puts the running thread to sleep on `objects`, with a deadline and a
    /// wait type, and returns the waker that ends this wait.
    pub fn suspend_thread(&mut self, objects: Vec<KObjectRef>, timeout: Option<u64>, wait_type: ThreadWaitType) -> (w: Waker)
        requires
            old(self).wf(),
            old(self).spec_current().is_some(),
            old(self).current_thread_spec().state == ThreadState::Running,
            forall|i: int| 0 <= i < objects@.len() ==> old(self).spec_objects().valid(#[trigger] objects@[i]),
        ensures
            final(self).wf(),
            w.thread == old(self).spec_current().unwrap().1,
            w.key == old(self).current_thread_spec().wake_key,
            old(self).spec_threads().same_except(&final(self).spec_threads(), old(self).spec_threads().pos(w.thread)),
            final(self).current_thread_spec().state == ThreadState::Waiting,
            final(self).current_thread_spec().wait_objects@ == objects@,
            final(self).current_thread_spec().wait_timeout == timeout,
            final(self).current_thread_spec().wait_type == Some(wait_type),
            final(self).current_thread_spec().wake_key == old(self).current_thread_spec().wake_key,
            final(self).current_thread_spec().index == old(self).current_thread_spec().index,
            final(self).current_thread_spec().pid == old(self).current_thread_spec().pid,
            final(self).current_thread_spec().resume == old(self).current_thread_spec().resume,
            final(self).current_thread_spec().kobj == old(self).current_thread_spec().kobj,
            final(self).current_thread_spec().ipc_data == old(self).current_thread_spec().ipc_data,
            final(self).spec_threads().pos(w.thread) == old(self).spec_threads().pos(w.thread),
            final(self).spec_objects()@ == old(self).spec_objects()@,
            forall|o: KObjectRef| #[trigger] final(self).spec_objects().spec_ref_count(o) == spec_more(
                old(self).spec_objects().spec_ref_count(o),
                spec_occurrences(objects@, o),
            ),
            final(self).spec_processes() == old(self).spec_processes(),
            old(self).same_schedule(final(self)),
            final(self).spec_last_time() == old(self).spec_last_time(),
    {
        let ghost k0 = *self;
        let (_, tid) = self.current_pid_tid();
        let p = self.threads.find_pos(tid);
        proof {
            k0.threads.lemma_pos(tid);
        }
        self.objects.acquire_all(&objects);
        let w = self.threads.suspend(p, objects, timeout, wait_type);
        proof {
            lemma_unqueued_change_keeps_inv(&self.objects, &k0.threads, &self.threads, p as int);
            crate::sync::lemma_thread_at(&self.threads, p as int);
            assert forall|i: int| 0 <= i < self.spec_threads()@.len() implies self.spec_processes().has(
                (#[trigger] self.spec_threads()@[i]).pid,
            ) by {
                assert(k0.spec_processes().has(k0.spec_threads()@[i].pid));
            }
            assert forall|i: int| 0 <= i < self.spec_threads()@.len() implies (#[trigger] self.spec_threads()@[i]).index.0
                < self.spec_next_tid() by {
                assert(k0.spec_threads()@[i].index == self.spec_threads()@[i].index);
            }
        }
        w
    }

    /// Ends the running thread: it is done, its kernel object is marked
    /// ended, and every thread that waits for it wakes.
    #[verifier::spinoff_prover]
    pub fn exit_thread(&mut self)
        requires
            old(self).wf(),
            old(self).spec_current().is_some(),
            old(self).current_thread_spec().state != ThreadState::Waiting,
        ensures
            final(self).wf(),
            final(self).current_thread_spec().state == ThreadState::Done,
            final(self).spec_threads()@.len() == old(self).spec_threads()@.len(),
            final(self).spec_objects()@.len() == old(self).spec_objects()@.len(),
            old(self).spec_objects().has_type(old(self).current_thread_spec().kobj.object, ObjectType::KThread) ==> {
                let o = old(self).current_thread_spec().kobj.object;
                &&& final(self).spec_objects().obj(o).data is Thread
                &&& crate::object::spec_thread_obj(final(self).spec_objects().obj(o).data).dead
            },
            final(self).spec_processes() == old(self).spec_processes(),
            old(self).same_schedule(final(self)),
    {
        let ghost k0 = *self;
        let (_, tid) = self.current_pid_tid();
        let p = self.threads.find_pos(tid);
        proof {
            k0.threads.lemma_pos(tid);
        }
        let kobj = self.threads.at(p).kobj;
        self.threads.set_state(p, ThreadState::Done);
        proof {
            lemma_unqueued_change_keeps_inv(&self.objects, &k0.threads, &self.threads, p as int);
            crate::sync::lemma_thread_at(&self.threads, p as int);
        }
        let ghost ct1 = self.threads;
        let ghost objs1 = self.objects;
        if self.objects.kind_of(kobj.object) == ObjectType::ThreadImpl {
            self.objects.thread_on_death(&mut self.threads, kobj.object);
            proof {
                if !crate::object::spec_thread_obj(objs1.obj(kobj.object).data).dead {
                    assert(!crate::sync::spec_queued(objs1.obj(kobj.object).wakers@, tid)) by {
                        if crate::sync::spec_queued(objs1.obj(kobj.object).wakers@, tid) {
                            let k = choose|k: int| 0 <= k < objs1.obj(kobj.object).wakers@.len()
                                && (#[trigger] objs1.obj(kobj.object).wakers@[k]).waker.thread == tid;
                            assert(waker_ok(&ct1, objs1@[kobj.object.0 as int].wakers@[k].waker, kobj.object.0 as int));
                        }
                    }
                    assert(ct1.has(tid));
                    assert(crate::sync::spec_queued(objs1.obj(kobj.object).wakers@, tid) == false);
                    assert(self.threads.thread(tid) == ct1.thread(tid));
                }
            }
        }
        proof {
            assert(self.threads.thread(tid) == ct1.thread(tid));
            ct1.lemma_same_threads(&self.threads);
            k0.threads.lemma_same_threads(&ct1);
            assert forall|i: int| 0 <= i < self.spec_threads()@.len() implies self.spec_processes().has(
                (#[trigger] self.spec_threads()@[i]).pid,
            ) by {
                assert(k0.spec_processes().has(k0.spec_threads()@[i].pid));
            }
            assert forall|i: int| 0 <= i < self.spec_threads()@.len() implies (#[trigger] self.spec_threads()@[i]).index.0
                < self.spec_next_tid() by {
                assert(k0.spec_threads()@[i].index == self.spec_threads()@[i].index);
            }
        }
    }

    /// A change of objects and threads that keeps their invariant, keeps
    /// the threads in place and adds no process keeps the kernel's invariant.
    pub proof fn lemma_keeps_wf(k0: &Kernel, k1: &Kernel)
        requires
            k0.wf(),
            inv(&k1.spec_objects(), &k1.spec_threads()),
            k0.spec_threads().same_threads(&k1.spec_threads()),
            k1.spec_objects()@.len() >= k0.spec_objects()@.len(),
            k1.spec_processes() == k0.spec_processes(),
            k1.spec_current() matches Some((pid, tid)) ==> k0.spec_threads().has(tid) && k0.spec_threads().thread(tid).pid
                == pid,
            k1.spec_next_pid() == k0.spec_next_pid(),
            k1.spec_next_tid() == k0.spec_next_tid(),
            k1.spec_ports() == k0.spec_ports(),
        ensures
            k1.wf(),
    {
        k0.threads.lemma_same_threads(&k1.threads);
        if let Some((pid, tid)) = k1.spec_current() {
            k0.threads.lemma_pos(tid);
            assert(k0.spec_processes().has(k0.spec_threads()@[k0.threads.pos(tid)].pid));
        }
        assert forall|i: int| 0 <= i < k1.spec_threads()@.len() implies k1.spec_processes().has(
            (#[trigger] k1.spec_threads()@[i]).pid,
        ) by {
            assert(k0.spec_processes().has(k0.spec_threads()@[i].pid));
        }
        assert forall|i: int| 0 <= i < k1.spec_threads()@.len() implies (#[trigger] k1.spec_threads()@[i]).index.0
            < k1.spec_next_tid() by {
            assert(k0.spec_threads()@[i].index == k1.spec_threads()@[i].index);
        }
    }

    /// Whether the thread chosen to run next, if any, exists and is ready.
    pub open spec fn next_is_ready(&self) -> bool {
        self.spec_next() matches Some(t) ==> self.spec_threads().has(t) && self.spec_threads().thread(t).state
            == ThreadState::Ready
    }

    /// Whether the thread chosen to run next, if any, exists and is ready.
    pub fn can_run_next(&self) -> (r: bool)
        requires
            self.wf(),
        ensures
            r == self.next_is_ready(),
    {
        match self.exec_info.next {
            None => true,
            Some(t) => {
                let mut i: usize = 0;
                while i < self.threads.len()
                    invariant
                        i <= self.spec_threads()@.len(),
                        self.wf(),
                        self.spec_next() == Some(t),
                        forall|j: int| 0 <= j < i ==> (#[trigger] self.spec_threads()@[j]).index != t,
                    decreases self.spec_threads()@.len() - i,
                {
                    if self.threads.at(i).index == t {
                        proof {
                            crate::sync::lemma_thread_at(&self.threads, i as int);
                        }
                        return self.threads.at(i).state == ThreadState::Ready;
                    }
                    i = i + 1;
                }
                false
            },
        }
    }

    /// `new` is `self` with thread `t` started: it runs, was handed
    /// `resume`, and nothing else changed but the choice of the next thread.
    pub open spec fn started(&self, new: &Kernel, t: ThreadIndex, resume: ThreadResume) -> bool {
        &&& self.spec_threads().has(t)
        &&& resume == self.spec_threads().thread(t).resume
        &&& new.spec_current() == Some((self.spec_threads().thread(t).pid, t))
        &&& self.spec_threads().same_except(&new.spec_threads(), self.spec_threads().pos(t))
        &&& new.current_thread_spec().state == ThreadState::Running
        &&& new.current_thread_spec().resume == ThreadResume::Normal
        &&& new.current_thread_spec().index == t
        &&& new.current_thread_spec().wait_objects == self.spec_threads().thread(t).wait_objects
        &&& new.current_thread_spec().wake_key == self.spec_threads().thread(t).wake_key
        &&& new.current_thread_spec().ipc_data == self.spec_threads().thread(t).ipc_data
        &&& new.spec_objects() == self.spec_objects()
        &&& new.spec_processes() == self.spec_processes()
        &&& new.spec_ports() == self.spec_ports()
        &&& new.spec_interrupts() == self.spec_interrupts()
        &&& new.spec_active() == self.spec_active()
        &&& new.spec_next_pid() == self.spec_next_pid()
        &&& new.spec_next_tid() == self.spec_next_tid()
    }

    /// Makes a ready thread the running one and hands it what it is told on
    /// resuming.
    #[verifier::spinoff_prover]
    fn start_thread(&mut self, index: ThreadIndex) -> (resume: ThreadResume)
        requires
            old(self).wf(),
            old(self).spec_current().is_none(),
            old(self).spec_threads().has(index),
            old(self).spec_threads().thread(index).state == ThreadState::Ready,
        ensures
            final(self).wf(),
            old(self).started(final(self), index, resume),
            final(self).spec_next() == old(self).spec_next(),
    {
        let ghost k0 = *self;
        proof {
            k0.threads.lemma_pos(index);
        }
        let p = self.threads.find_pos(index);
        self.threads.set_state(p, ThreadState::Running);
        let resume = self.threads.take_resume(p);
        let pid = self.threads.at(p).pid;
        self.exec_info.current = Some((pid, index));
        proof {
            lemma_unqueued_change_keeps_inv(&self.objects, &k0.threads, &self.threads, p as int);
            crate::sync::lemma_thread_at(&self.threads, p as int);
            Kernel::lemma_keeps_wf(&k0, self);
        }
        resume
    }

    /// Takes the thread chosen to run next, else finds the first ready one.
    #[verifier::spinoff_prover]
    fn take_next(&mut self) -> (r: Option<ThreadIndex>)
        requires
            old(self).wf(),
            old(self).next_is_ready(),
        ensures
            final(self).wf(),
            final(self).spec_next().is_none(),
            final(self).spec_threads() == old(self).spec_threads(),
            final(self).spec_objects() == old(self).spec_objects(),
            final(self).spec_current() == old(self).spec_current(),
            old(self).started_from(final(self)),
            r is None <==> old(self).spec_next().is_none() && forall|i: int| 0 <= i < old(self).spec_threads()@.len()
                ==> (#[trigger] old(self).spec_threads()@[i]).state != ThreadState::Ready,
            r matches Some(t) ==> old(self).chosen(t),
    {
        match self.exec_info.next {
            Some(n) => {
                self.exec_info.next = None;
                Some(n)
            },
            None => {
                let r = self.threads.next_thread();
                proof {
                    if let Some(t) = r {
                        self.threads.lemma_first_ready(t);
                    }
                }
                r
            },
        }
    }

    /// `new` keeps everything of `self` that starting a thread leaves alone.
    pub open spec fn started_from(&self, new: &Kernel) -> bool {
        &&& new.spec_processes() == self.spec_processes()
        &&& new.spec_ports() == self.spec_ports()
        &&& new.spec_interrupts() == self.spec_interrupts()
        &&& new.spec_active() == self.spec_active()
        &&& new.spec_next_pid() == self.spec_next_pid()
        &&& new.spec_next_tid() == self.spec_next_tid()
    }

    /// Thread `t` is the one to run next: the chosen one, else the first
    /// ready one; it exists and is ready.
    pub open spec fn chosen(&self, t: ThreadIndex) -> bool {
        &&& self.spec_next() matches Some(n) ==> t == n
        &&& self.spec_next() is None ==> self.spec_threads().first_ready(t)
        &&& self.spec_threads().has(t)
        &&& self.spec_threads().thread(t).state == ThreadState::Ready
    }

    /// Starts running a thread: the one chosen to run next, else the first
    /// ready one. It becomes the running thread and is handed what it is
    /// told on resuming; `None` when no thread is ready.
    pub fn begin_run(&mut self) -> (r: Option<(ThreadIndex, ThreadResume)>)
        requires
            old(self).wf(),
            old(self).spec_current().is_none(),
            old(self).next_is_ready(),
        ensures
            final(self).wf(),
            final(self).spec_next().is_none(),
            r is None <==> old(self).spec_next().is_none() && forall|i: int| 0 <= i < old(self).spec_threads()@.len()
                ==> (#[trigger] old(self).spec_threads()@[i]).state != ThreadState::Ready,
            r is None ==> final(self).spec_current().is_none() && final(self).spec_threads() == old(self).spec_threads()
                && final(self).spec_objects() == old(self).spec_objects(),
            r matches Some((t, resume)) ==> old(self).chosen(t) && old(self).started(final(self), t, resume),
    {
        let index = self.take_next();
        match index {
            None => None,
            Some(index) => {
                let resume = self.start_thread(index);
                Some((index, resume))
            },
        }
    }

    /// Stops running the current thread: a thread still running becomes
    /// ready again; one that waits or is done stays so.
    #[verifier::spinoff_prover]
    pub fn end_run(&mut self)
        requires
            old(self).wf(),
            old(self).spec_current().is_some(),
        ensures
            final(self).wf(),
            final(self).spec_current().is_none(),
            old(self).spec_threads().same_except(&final(self).spec_threads(), old(self).current_thread_pos()),
            final(self).spec_threads()@[old(self).current_thread_pos()].state == (if old(self).current_thread_spec().state
                == ThreadState::Running {
                ThreadState::Ready
            } else {
                old(self).current_thread_spec().state
            }),
            final(self).spec_threads()@[old(self).current_thread_pos()].resume == old(self).current_thread_spec().resume,
            final(self).spec_threads()@[old(self).current_thread_pos()].wake_key == old(self).current_thread_spec().wake_key,
            final(self).spec_threads()@[old(self).current_thread_pos()].wait_objects
                == old(self).current_thread_spec().wait_objects,
            final(self).spec_threads()@[old(self).current_thread_pos()].ipc_data == old(self).current_thread_spec().ipc_data,
            final(self).spec_objects() == old(self).spec_objects(),
            final(self).spec_processes() == old(self).spec_processes(),
            final(self).spec_next() == old(self).spec_next(),
            final(self).spec_ports() == old(self).spec_ports(),
            final(self).spec_interrupts() == old(self).spec_interrupts(),
            final(self).spec_active() == old(self).spec_active(),
            final(self).spec_next_pid() == old(self).spec_next_pid(),
            final(self).spec_next_tid() == old(self).spec_next_tid(),
    {
        let ghost k0 = *self;
        let (_, tid) = self.current_pid_tid();
        self.exec_info.current = None;
        proof {
            k0.threads.lemma_pos(tid);
        }
        let p = self.threads.find_pos(tid);
        if self.threads.at(p).state == ThreadState::Running {
            self.threads.set_state(p, ThreadState::Ready);
            proof {
                lemma_unqueued_change_keeps_inv(&self.objects, &k0.threads, &self.threads, p as int);
            }
        }
        proof {
            Kernel::lemma_keeps_wf(&k0, self);
        }
    }

    /// The position of the running thread among the threads.
    pub open spec fn current_thread_pos(&self) -> int {
        self.spec_threads().pos(self.spec_current().unwrap().1)
    }

    /// Replaces the IPC data area of the running thread.
    #[verifier::spinoff_prover]
    pub fn set_thread_ipc_data(&mut self, data: &[u8])
        requires
            old(self).wf(),
            old(self).spec_current().is_some(),
            data@.len() == crate::ipc::IPC_REQUEST_SIZE,
        ensures
            old(self).spec_threads().same_threads(&final(self).spec_threads()),
            final(self).wf(),
            old(self).spec_threads().same_except(&final(self).spec_threads(), old(self).current_thread_pos()),
            final(self).current_thread_pos() == old(self).current_thread_pos(),
            final(self).current_thread_spec().ipc_data@ == data@,
            final(self).current_thread_spec().state == old(self).current_thread_spec().state,
            final(self).current_thread_spec().wake_key == old(self).current_thread_spec().wake_key,
            final(self).current_thread_spec().wait_objects == old(self).current_thread_spec().wait_objects,
            final(self).current_thread_spec().resume == old(self).current_thread_spec().resume,
            final(self).spec_objects() == old(self).spec_objects(),
            final(self).spec_processes() == old(self).spec_processes(),
            old(self).same_schedule(final(self)),
    {
        let ghost k0 = *self;
        let (_, tid) = self.current_pid_tid();
        proof {
            k0.threads.lemma_pos(tid);
        }
        let p = self.threads.find_pos(tid);
        let mut copy: Vec<u8> = Vec::new();
        let mut i: usize = 0;
        while i < data.len()
            invariant
                i <= data@.len(),
                copy@ == data@.subrange(0, i as int),
            decreases data@.len() - i,
        {
            copy.push(data[i]);
            i = i + 1;
            assert(copy@ =~= data@.subrange(0, i as int));
        }
        assert(copy@ =~= data@);
        self.threads.set_ipc_data(p, copy);
        proof {
            crate::sync::lemma_thread_at(&k0.threads, p as int);
            crate::sync::lemma_thread_at(&self.threads, p as int);
            assert forall|j: int, i: int| 0 <= j < self.objects@.len() && 0 <= i < self.objects@[j].wakers@.len() implies waker_ok(
                &self.threads,
                (#[trigger] self.objects@[j].wakers@[i]).waker,
                j,
            ) by {
                let w = self.objects@[j].wakers@[i].waker;
                assert(waker_ok(&k0.threads, w, j));
                if w.thread != tid {
                    crate::sync::lemma_thread_frame(&k0.threads, &self.threads, p as int, w.thread);
                }
            }
            assert forall|k: int| 0 <= k < self.threads@.len() implies crate::thread::spec_refs_valid(
                #[trigger] self.threads@[k],
                &self.objects,
            ) by {
                assert(crate::thread::spec_refs_valid(k0.threads@[k], &self.objects));
            }
            Kernel::lemma_keeps_wf(&k0, self);
        }
    }

    /// Copies the running thread's IPC data area into `data`.
    pub fn get_thread_ipc_data(&self, data: &mut Vec<u8>)
        requires
            self.wf(),
            self.spec_current().is_some(),
        ensures
            final(data)@ == self.current_thread_spec().ipc_data@,
    {
        let t = self.current_thread();
        let mut copy: Vec<u8> = Vec::new();
        let mut i: usize = 0;
        while i < t.ipc_data.len()
            invariant
                i <= t.ipc_data@.len(),
                copy@ == t.ipc_data@.subrange(0, i as int),
            decreases t.ipc_data@.len() - i,
        {
            copy.push(t.ipc_data[i]);
            i = i + 1;
            assert(copy@ =~= t.ipc_data@.subrange(0, i as int));
        }
        assert(copy@ =~= t.ipc_data@);
        *data = copy;
    }

    /// Registers a port's client end under a name of at most eight bytes,
    /// replacing any port registered under the same name.
    pub fn register_port(&mut self, name: &[u8], port: KTypedObject)
        requires
            old(self).wf(),
            name@.len() <= 8,
            old(self).spec_objects().valid(port.object),
        ensures
            final(self).wf(),
            final(self).spec_ports() == old(self).spec_ports().insert(spec_port_key(name@), port),
            final(self).spec_objects()@ == old(self).spec_objects()@,
            old(self).spec_ports().dom().contains(spec_port_key(name@)) ==> spec_released(
                &old(self).spec_objects(),
                &final(self).spec_objects(),
                old(self).spec_ports()[spec_port_key(name@)].object,
            ),
            !old(self).spec_ports().dom().contains(spec_port_key(name@)) ==> old(self).spec_objects().same_counts(
                &final(self).spec_objects(),
            ),
            final(self).spec_threads() == old(self).spec_threads(),
            final(self).spec_processes() == old(self).spec_processes(),
            final(self).spec_current() == old(self).spec_current(),
            final(self).spec_interrupts() == old(self).spec_interrupts(),
    {
        let key = port_key(name);
        let ghost k0 = *self;
        let replaced = self.ports.insert(key, port);
        match replaced {
            Some(p) => {
                assert(k0.spec_ports().dom().contains(key));
                self.objects.release(p.object);
            },
            None => {},
        }
        proof {
            assert forall|k: u64| #[trigger] self.spec_ports().dom().contains(k) implies self.spec_objects().valid(
                self.spec_ports()[k].object,
            ) by {
                if k != key {
                    assert(k0.spec_ports().dom().contains(k));
                }
            }
        }
    }

    /// The port registered under a name; `None` for a name longer than
    /// eight bytes or one under which nothing is registered.
    pub fn lookup_port(&self, name: &[u8]) -> (r: Option<KTypedObject>)
        ensures
            r == (if name@.len() > 8 || !self.spec_ports().dom().contains(spec_port_key(name@)) {
                None
            } else {
                Some(self.spec_ports()[spec_port_key(name@)])
            }),
    {
        if name.len() > 8 {
            return None;
        }
        let key = port_key(name);
        match self.ports.get(&key) {
            Some(p) => Some(*p),
            None => None,
        }
    }

    /// Binds an interrupt to an event, replacing any earlier binding.
    pub fn bind_interrupt(&mut self, name: u32, event: KTypedObject)
        requires
            old(self).wf(),
        ensures
            final(self).wf(),
            final(self).spec_interrupts() == old(self).spec_interrupts().insert(name, event),
            final(self).spec_objects()@ == old(self).spec_objects()@,
            spec_unbound(&old(self).spec_objects(), &final(self).spec_objects(), old(self).spec_interrupts(), name),
            final(self).spec_threads() == old(self).spec_threads(),
            final(self).spec_processes() == old(self).spec_processes(),
            final(self).spec_current() == old(self).spec_current(),
            final(self).spec_ports() == old(self).spec_ports(),
    {
        let replaced = self.interrupts.insert(name, event);
        self.release_replaced(replaced);
    }

    /// Gives up the reference that an interrupt binding held, if it names
    /// an object.
    fn release_replaced(&mut self, replaced: Option<KTypedObject>)
        requires
            old(self).wf(),
        ensures
            final(self).wf(),
            final(self).spec_objects()@ == old(self).spec_objects()@,
            replaced is Some && old(self).spec_objects().valid(replaced.unwrap().object) ==> spec_released(
                &old(self).spec_objects(),
                &final(self).spec_objects(),
                replaced.unwrap().object,
            ),
            replaced is None || !old(self).spec_objects().valid(replaced.unwrap().object) ==> old(self).spec_objects().same_counts(
                &final(self).spec_objects(),
            ),
            final(self).spec_threads() == old(self).spec_threads(),
            final(self).spec_processes() == old(self).spec_processes(),
            final(self).spec_current() == old(self).spec_current(),
            final(self).spec_ports() == old(self).spec_ports(),
            final(self).spec_interrupts() == old(self).spec_interrupts(),
            final(self).spec_next_pid() == old(self).spec_next_pid(),
            final(self).spec_next_tid() == old(self).spec_next_tid(),
            final(self).spec_active() == old(self).spec_active(),
            old(self).same_schedule(final(self)),
    {
        match replaced {
            Some(p) => {
                if p.object.0 < self.objects.len() {
                    self.objects.release(p.object);
                }
            },
            None => {},
        }
    }

    /// Removes an interrupt's binding.
    pub fn unbind_interrupt(&mut self, name: u32)
        requires
            old(self).wf(),
        ensures
            final(self).wf(),
            final(self).spec_interrupts() == old(self).spec_interrupts().remove(name),
            final(self).spec_objects()@ == old(self).spec_objects()@,
            spec_unbound(&old(self).spec_objects(), &final(self).spec_objects(), old(self).spec_interrupts(), name),
            final(self).spec_threads() == old(self).spec_threads(),
            final(self).spec_processes() == old(self).spec_processes(),
            final(self).spec_current() == old(self).spec_current(),
            final(self).spec_ports() == old(self).spec_ports(),
    {
        let removed = self.interrupts.remove(&name);
        self.release_replaced(removed);
    }

    /// Records that an interrupt fired; it is delivered at the next tick.
    pub fn activate_interrupt(&mut self, interrupt: u32)
        requires
            old(self).wf(),
        ensures
            final(self).wf(),
            final(self).spec_active() == old(self).spec_active().push(interrupt),
            final(self).spec_objects() == old(self).spec_objects(),
            final(self).spec_threads() == old(self).spec_threads(),
            final(self).spec_processes() == old(self).spec_processes(),
            final(self).spec_current() == old(self).spec_current(),
            final(self).spec_interrupts() == old(self).spec_interrupts(),
    {
        self.active_interrupts.activate(interrupt);
    }

    /// Lets time pass up to `time`: every thread whose deadline has come
    /// wakes with a timeout, then every armed timer whose deadline has come
    /// fires, waking threads that wait on it. No other thread changes.
    #[verifier::spinoff_prover]
    pub fn tick_at(&mut self, time: u64)
        requires
            old(self).wf(),
            time <= i64::MAX,
        ensures
            final(self).wf(),
            final(self).spec_objects()@.len() == old(self).spec_objects()@.len(),
            forall|j: int| 0 <= j < old(self).spec_objects()@.len() ==> {
                let d0 = old(self).spec_objects()@[j].data;
                if d0 is Timer && spec_timer_due(spec_timer(d0), time) {
                    exists|b: bool| spec_timer_fired(spec_timer(d0), #[trigger] final(self).spec_objects()@[j].data, time, b)
                } else {
                    final(self).spec_objects()@[j].data == d0
                }
            },
            old(self).spec_threads().same_threads(&final(self).spec_threads()),
            forall|i: int| 0 <= i < old(self).spec_threads()@.len() && spec_due(#[trigger] old(self).spec_threads()@[i], time)
                ==> spec_woken(old(self).spec_threads()@[i], final(self).spec_threads()@[i], ThreadWakeReason::Timeout),
            forall|i: int| 0 <= i < old(self).spec_threads()@.len() && !spec_due(#[trigger] old(self).spec_threads()@[i], time)
                ==> final(self).spec_threads()@[i] == old(self).spec_threads()@[i] || spec_woken_by_timer(
                old(self).spec_objects(),
                time,
                old(self).spec_threads()@[i],
                final(self).spec_threads()@[i],
            ),
            final(self).spec_processes() == old(self).spec_processes(),
            old(self).same_schedule(final(self)),
    {
        let ghost k0 = *self;
        self.threads.tick_at(&mut self.objects, time);
        let ghost k1 = *self;
        proof {
            Kernel::lemma_keeps_wf(&k0, self);
        }
        let n = self.objects.len();
        let mut i: usize = 0;
        while i < n
            invariant
                n == self.spec_objects()@.len(),
                n == k0.spec_objects()@.len(),
                i <= n,
                time <= i64::MAX,
                self.wf(),
                k0.wf(),
                k0.spec_threads().same_threads(&self.spec_threads()),
                self.spec_processes() == k0.spec_processes(),
                k0.same_schedule(self),
                forall|j: int| 0 <= j < n ==> (#[trigger] k1.spec_objects()@[j]).data == k0.spec_objects()@[j].data,
                forall|j: int| 0 <= j < n ==> {
                    let d0 = k0.spec_objects()@[j].data;
                    if j < i && d0 is Timer && spec_timer_due(spec_timer(d0), time) {
                        exists|b: bool| spec_timer_fired(spec_timer(d0), #[trigger] self.spec_objects()@[j].data, time, b)
                    } else {
                        self.spec_objects()@[j].data == d0
                    }
                },
                forall|k: int| 0 <= k < k0.spec_threads()@.len() && spec_due(#[trigger] k0.spec_threads()@[k], time)
                    ==> spec_woken(k0.spec_threads()@[k], self.spec_threads()@[k], ThreadWakeReason::Timeout),
                forall|k: int| 0 <= k < k0.spec_threads()@.len() && !spec_due(#[trigger] k0.spec_threads()@[k], time)
                    ==> self.spec_threads()@[k] == k0.spec_threads()@[k] || spec_woken_by_timer(
                    k0.spec_objects(),
                    time,
                    k0.spec_threads()@[k],
                    self.spec_threads()@[k],
                ),
            decreases n - i,
        {
            let r = KObjectRef(i);
            if self.objects.kind_of(r) == ObjectType::TimerImpl {
                let ghost k2 = *self;
                self.objects.timer_tick(&mut self.threads, r, time);
                proof {
                    Kernel::lemma_keeps_wf(&k2, self);
                    let d0 = k0.spec_objects()@[i as int].data;
                    if spec_timer_due(spec_timer(d0), time) {
                        let b = k2.spec_objects().obj(r).wakers@.len() == 0;
                        assert(spec_timer_fired(spec_timer(d0), self.spec_objects()@[i as int].data, time, b));
                    }
                    assert forall|k: int| 0 <= k < k0.spec_threads()@.len() && spec_due(#[trigger] k0.spec_threads()@[k], time)
                        implies spec_woken(k0.spec_threads()@[k], self.spec_threads()@[k], ThreadWakeReason::Timeout) by {
                        assert(k2.spec_threads()@[k].state == ThreadState::Ready);
                    }
                    assert forall|k: int| 0 <= k < k0.spec_threads()@.len() && !spec_due(#[trigger] k0.spec_threads()@[k], time)
                        implies self.spec_threads()@[k] == k0.spec_threads()@[k] || spec_woken_by_timer(
                        k0.spec_objects(),
                        time,
                        k0.spec_threads()@[k],
                        self.spec_threads()@[k],
                    ) by {
                        let tid = k2.spec_threads()@[k].index;
                        k2.spec_threads().lemma_pos(tid);
                        k2.spec_threads().lemma_same_threads(&self.spec_threads());
                        if self.spec_threads()@[k] != k2.spec_threads()@[k] {
                            assert(spec_woken_by(k2.spec_threads().thread(tid), self.spec_threads().thread(tid), r));
                            if k2.spec_threads()@[k] == k0.spec_threads()@[k] {
                                assert(spec_timer_due(spec_timer(k0.spec_objects()@[i as int].data), time));
                                assert(k0.spec_objects()@[i as int].data is Timer);
                            }
                        }
                    }
                    assert forall|j: int| 0 <= j < n && j != i implies self.spec_objects()@[j].data
                        == #[trigger] k2.spec_objects()@[j].data by {}
                }
            }
            i = i + 1;
        }
    }

    /// Lets time pass up to now, then signals the event bound to every
    /// interrupt that fired since the last tick, in the order they fired.
    /// Timers are left alone when more than 2^63 nanoseconds have passed
    /// since the kernel started.
    pub fn tick(&mut self)
        requires
            old(self).wf(),
        ensures
            final(self).wf(),
            final(self).spec_active().len() == 0,
            final(self).spec_objects()@.len() == old(self).spec_objects()@.len(),
            old(self).spec_threads().same_threads(&final(self).spec_threads()),
            final(self).spec_processes() == old(self).spec_processes(),
            final(self).spec_current() == old(self).spec_current(),
            final(self).spec_next() == old(self).spec_next(),
            final(self).spec_ports() == old(self).spec_ports(),
            final(self).spec_interrupts() == old(self).spec_interrupts(),
    {
        let t = self.time();
        if t <= 0x7FFF_FFFF_FFFF_FFFFu64 {
            self.tick_at(t);
        }
        self.deliver_interrupts();
    }

    /// Signals the event bound to every interrupt that fired since the last
    /// delivery, in the order they fired; an interrupt with no binding, or
    /// bound to an object that is no event, is dropped. Only events bound
    /// to a fired interrupt change, and they stay events of the same kind.
    #[verifier::spinoff_prover]
    pub fn deliver_interrupts(&mut self)
        requires
            old(self).wf(),
        ensures
            final(self).wf(),
            final(self).spec_active().len() == 0,
            final(self).spec_objects()@.len() == old(self).spec_objects()@.len(),
            forall|j: int| 0 <= j < old(self).spec_objects()@.len() && !spec_interrupt_target(
                old(self).spec_interrupts(),
                old(self).spec_active(),
                old(self).spec_active().len() as int,
                j,
            ) ==> (#[trigger] final(self).spec_objects()@[j]).data == old(self).spec_objects()@[j].data,
            forall|j: int| 0 <= j < old(self).spec_objects()@.len() && old(self).spec_objects()@[j].data is Event
                ==> (#[trigger] final(self).spec_objects()@[j]).data is Event && spec_event(
                final(self).spec_objects()@[j].data,
            ).signal.reset_type == spec_event(old(self).spec_objects()@[j].data).signal.reset_type,
            old(self).spec_threads().same_threads(&final(self).spec_threads()),
            final(self).spec_processes() == old(self).spec_processes(),
            final(self).spec_current() == old(self).spec_current(),
            final(self).spec_next() == old(self).spec_next(),
            final(self).spec_ports() == old(self).spec_ports(),
            final(self).spec_interrupts() == old(self).spec_interrupts(),
    {
        let ghost k0 = *self;
        let active = self.active_interrupts.drain();
        let mut i: usize = 0;
        while i < active.len()
            invariant
                i <= active@.len(),
                active@ == k0.spec_active(),
                self.wf(),
                k0.wf(),
                self.spec_active().len() == 0,
                self.spec_objects()@.len() == k0.spec_objects()@.len(),
                k0.spec_threads().same_threads(&self.spec_threads()),
                self.spec_processes() == k0.spec_processes(),
                self.spec_current() == k0.spec_current(),
                self.spec_next() == k0.spec_next(),
                self.spec_next_pid() == k0.spec_next_pid(),
                self.spec_next_tid() == k0.spec_next_tid(),
                self.spec_ports() == k0.spec_ports(),
                self.spec_interrupts() == k0.spec_interrupts(),
                forall|j: int| 0 <= j < k0.spec_objects()@.len() && !spec_interrupt_target(
                    k0.spec_interrupts(),
                    k0.spec_active(),
                    i as int,
                    j,
                ) ==> (#[trigger] self.spec_objects()@[j]).data == k0.spec_objects()@[j].data,
                forall|j: int| 0 <= j < k0.spec_objects()@.len() && k0.spec_objects()@[j].data is Event
                    ==> (#[trigger] self.spec_objects()@[j]).data is Event && spec_event(self.spec_objects()@[j].data).signal.reset_type
                    == spec_event(k0.spec_objects()@[j].data).signal.reset_type,
            decreases active@.len() - i,
        {
            let interrupt = active[i];
            let ghost k2 = *self;
            match self.interrupts.get(&interrupt) {
                Some(event) => {
                    let ev = *event;
                    if ev.object.0 < self.objects.len() && self.objects.kind_of(ev.object) == ObjectType::EventImpl {
                        self.objects.event_signal(&mut self.threads, ev.object);
                        proof {
                            Kernel::lemma_keeps_wf(&k2, self);
                        }
                    }
                },
                None => {},
            }
            proof {
                assert forall|j: int| 0 <= j < k0.spec_objects()@.len() && !spec_interrupt_target(
                    k0.spec_interrupts(),
                    k0.spec_active(),
                    i + 1,
                    j,
                ) implies (#[trigger] self.spec_objects()@[j]).data == k0.spec_objects()@[j].data by {
                    reveal(spec_interrupt_target);
                    if k0.spec_interrupts().dom().contains(interrupt) {
                        assert(k0.spec_interrupts()[k0.spec_active()[i as int]].object.0 != j);
                    }
                    assert(!spec_interrupt_target(k0.spec_interrupts(), k0.spec_active(), i as int, j));
                    assert(self.spec_objects()@[j].data == k2.spec_objects()@[j].data);
                }
                assert forall|j: int| 0 <= j < k0.spec_objects()@.len() && k0.spec_objects()@[j].data is Event
                    implies (#[trigger] self.spec_objects()@[j]).data is Event && spec_event(self.spec_objects()@[j].data).signal.reset_type
                    == spec_event(k0.spec_objects()@[j].data).signal.reset_type by {
                    assert(k2.spec_objects()@[j].data is Event);
                }
            }
            i = i + 1;
        }
    }

    /// The processes at positions `sp` and `dp` may differ in `new`; every
    /// other process, every process id, and the objects, threads and
    /// schedule are kept.
    pub open spec fn handles_moved(&self, new: &Kernel, sp: int, dp: int) -> bool {
        &&& new.spec_processes()@.len() == self.spec_processes()@.len()
        &&& forall|j: int| 0 <= j < self.spec_processes()@.len() ==> (#[trigger] new.spec_processes()@[j]).pid
            == self.spec_processes()@[j].pid
        &&& forall|j: int| 0 <= j < self.spec_processes()@.len() && j != sp && j != dp
            ==> #[trigger] new.spec_processes()@[j] == self.spec_processes()@[j]
        &&& new.spec_objects()@ == self.spec_objects()@
        &&& forall|o: KObjectRef| #[trigger] new.spec_objects().spec_ref_count(o) >= self.spec_objects().spec_ref_count(o)
        &&& new.spec_threads() == self.spec_threads()
        &&& self.same_schedule(new)
    }

    /// Translates one handle of the process at position `sp` into a handle
    /// of the process at position `dp` to the same object; a moved handle
    /// is closed in `sp`. `None` when there is no handle or it is not open.
    fn translate_handle(&mut self, handle: Option<Handle>, moved: bool, sp: usize, dp: usize) -> (r: Option<Handle>)
        requires
            old(self).wf(),
            sp < old(self).spec_processes()@.len(),
            dp < old(self).spec_processes()@.len(),
            old(self).spec_processes()@[dp as int].handles().dom().len() < u32::MAX,
        ensures
            final(self).wf(),
            old(self).handles_moved(final(self), sp as int, dp as int),
            final(self).spec_processes()@[dp as int].handles().dom().len() <= old(self).spec_processes()@[dp as int].handles().dom().len() + 1,
            r matches Some(h2) ==> final(self).spec_processes()@[dp as int].handles().dom().contains(h2.spec_raw())
                && handle is Some && old(self).spec_processes()@[sp as int].handles().dom().contains(handle.unwrap().spec_raw())
                && final(self).spec_processes()@[dp as int].handles()[h2.spec_raw()]
                == old(self).spec_processes()@[sp as int].handles()[handle.unwrap().spec_raw()],
            r is None <==> (handle is None || !old(self).spec_processes()@[sp as int].handles().dom().contains(handle.unwrap().spec_raw())),
            sp != dp ==> final(self).spec_processes()@[sp as int].handles().submap_of(old(self).spec_processes()@[sp as int].handles()),
            sp != dp ==> old(self).spec_processes()@[dp as int].handles().submap_of(final(self).spec_processes()@[dp as int].handles()),
            sp != dp && moved && handle is Some ==> !final(self).spec_processes()@[sp as int].handles().dom().contains(handle.unwrap().spec_raw()),
            !moved ==> old(self).spec_processes()@[dp as int].handles().submap_of(final(self).spec_processes()@[dp as int].handles()),
            r matches Some(h2) ==> h2.spec_raw() != 0,
            r is Some && !moved ==> spec_acquired(
                &old(self).spec_objects(),
                &final(self).spec_objects(),
                old(self).spec_processes()@[sp as int].handles()[handle.unwrap().spec_raw()],
            ),
            r is None || moved ==> old(self).spec_objects().same_counts(&final(self).spec_objects()),
            forall|g: u32| #[trigger] old(self).spec_processes()@[sp as int].handles().dom().contains(g) && !(moved && handle is Some
                && g == handle.unwrap().spec_raw()) ==> final(self).spec_processes()@[sp as int].handles().dom().contains(g)
                && final(self).spec_processes()@[sp as int].handles()[g] == old(self).spec_processes()@[sp as int].handles()[g],            forall|g: u32| #[trigger] final(self).spec_processes()@[dp as int].handles().dom().contains(g) ==> (old(
                self,
            ).spec_processes()@[dp as int].handles().dom().contains(g) && !(sp == dp && moved && handle is Some && g
                == handle.unwrap().spec_raw())) || (r is Some && g == r.unwrap().spec_raw()),
    {
        let ghost k0 = *self;
        match handle {
            None => None,
            Some(h) => {
                let obj = if moved {
                    self.processes.lookup_close_at(sp, &h)
                } else {
                    self.processes.at(sp).lookup_handle(&h)
                };
                let ghost k1 = *self;
                proof {
                    k0.processes.lemma_same_pids(&self.processes);
                    assert forall|i: int, g: u32| 0 <= i < self.spec_processes()@.len()
                        && #[trigger] self.spec_processes()@[i].handles().dom().contains(g)
                        implies self.spec_objects().valid(self.spec_processes()@[i].handles()[g]) by {
                        if i != sp {
                            assert(self.spec_processes()@[i] == k0.spec_processes()@[i]);
                        } else {
                            assert(k0.spec_processes()@[i].handles().dom().contains(g));
                        }
                    }
                    assert forall|i: int| 0 <= i < self.spec_threads()@.len() implies self.spec_processes().has(
                        (#[trigger] self.spec_threads()@[i]).pid,
                    ) by {
                        assert(k0.spec_processes().has(k0.spec_threads()@[i].pid));
                    }
                    assert forall|i: int| 0 <= i < self.spec_processes()@.len() implies (#[trigger] self.spec_processes()@[i]).pid.0
                        < self.spec_next_pid() by {
                        assert(k0.spec_processes()@[i].pid == self.spec_processes()@[i].pid);
                    }
                    if let Some((cp, ct)) = self.spec_current() {
                        assert(k0.spec_processes().has(cp));
                    }
                    if sp == dp {
                        k0.spec_processes()@[dp as int].lemma_handles_finite();
                        vstd::set_lib::lemma_len_subset(
                            self.spec_processes()@[dp as int].handles().dom(),
                            k0.spec_processes()@[dp as int].handles().dom(),
                        );
                    }
                }
                match obj {
                    None => None,
                    Some(o) => {
                        proof {
                            assert(k0.spec_processes()@[sp as int].handles().dom().contains(h.spec_raw()));
                            assert(self.spec_objects().valid(o));
                        }
                        if !moved {
                            self.objects.acquire(o);
                        }
                        let h2 = self.processes.new_handle_at(dp, o);
                        proof {
                            k1.spec_processes()@[dp as int].lemma_handles_finite();
                            assert(self.spec_processes()@[dp as int].handles().dom() =~= k1.spec_processes()@[dp as int].handles().dom().insert(h2.spec_raw()));
                            if sp != dp {
                                assert(k1.spec_processes()@[dp as int] == k0.spec_processes()@[dp as int]);
                                assert(self.spec_processes()@[sp as int] == k1.spec_processes()@[sp as int]);
                            }
                            k1.processes.lemma_same_pids(&self.processes);
                            assert forall|i: int, g: u32| 0 <= i < self.spec_processes()@.len()
                                && #[trigger] self.spec_processes()@[i].handles().dom().contains(g)
                                implies self.spec_objects().valid(self.spec_processes()@[i].handles()[g]) by {
                                if i != dp {
                                    assert(self.spec_processes()@[i] == k1.spec_processes()@[i]);
                                } else if g != h2.spec_raw() {
                                    assert(k1.spec_processes()@[i].handles().dom().contains(g));
                                }
                            }
                            assert forall|i: int| 0 <= i < self.spec_threads()@.len() implies self.spec_processes().has(
                                (#[trigger] self.spec_threads()@[i]).pid,
                            ) by {
                                assert(k1.spec_processes().has(k1.spec_threads()@[i].pid));
                            }
                            assert forall|i: int| 0 <= i < self.spec_processes()@.len() implies (#[trigger] self.spec_processes()@[i]).pid.0
                                < self.spec_next_pid() by {
                                assert(k1.spec_processes()@[i].pid == self.spec_processes()@[i].pid);
                            }
                            if let Some((cp, ct)) = self.spec_current() {
                                assert(k1.spec_processes().has(cp));
                            }
                            assert forall|g: u32| #[trigger] k0.spec_processes()@[sp as int].handles().dom().contains(g) && !(moved
                                && g == h.spec_raw()) implies self.spec_processes()@[sp as int].handles().dom().contains(g)
                                && self.spec_processes()@[sp as int].handles()[g] == k0.spec_processes()@[sp as int].handles()[g] by {
                                assert(k1.spec_processes()@[sp as int].handles().dom().contains(g));
                                assert(k1.spec_processes()@[sp as int].handles()[g] == k0.spec_processes()@[sp as int].handles()[g]);
                            }
                        }
                        Some(h2)
                    },
                }
            },
        }
    }

    /// Translates the IPC message of thread `src` into the IPC data area of
    /// thread `dest`: a request when `reply` is false, else a reply with
    /// its result code. The header and the normal parameters are copied;
    /// each handle parameter is written again with the same flags and
    /// count, each handle replaced by a new handle of `dest`'s process to
    /// the same object (closed in `src`'s process when moved), or by zero
    /// when it is not an open handle of `src`'s process when it is read
    /// (a handle that an earlier handle of the message moved is no longer
    /// open). Handles that the message does not move stay open.
    #[verifier::spinoff_prover]
    #[verifier::rlimit(30)]
    pub fn translate_ipc(&mut self, src: ThreadIndex, dest: ThreadIndex, reply: bool)
        requires
            old(self).wf(),
            old(self).spec_threads().has(src),
            old(self).spec_threads().has(dest),
            src != dest,
            spec_translatable(old(self).spec_threads().thread(src).ipc_data@, reply),
            old(self).spec_processes().process(old(self).spec_threads().thread(dest).pid).handles().dom().len() + 64
                <= u32::MAX,
        ensures
            final(self).wf(),
            spec_message_translated(old(self), final(self), src, dest, reply),
            old(self).spec_threads().same_except(&final(self).spec_threads(), old(self).spec_threads().pos(dest)),
            old(self).spec_threads().same_threads(&final(self).spec_threads()),
            final(self).spec_threads().thread(dest).state == old(self).spec_threads().thread(dest).state,
            final(self).spec_threads().thread(dest).wake_key == old(self).spec_threads().thread(dest).wake_key,
            final(self).spec_threads().thread(dest).resume == old(self).spec_threads().thread(dest).resume,
            final(self).spec_threads().thread(dest).wait_objects == old(self).spec_threads().thread(dest).wait_objects,
            final(self).spec_objects()@ == old(self).spec_objects()@,
            forall|o: KObjectRef| #[trigger] final(self).spec_objects().spec_ref_count(o) >= old(self).spec_objects().spec_ref_count(o),
            final(self).spec_processes()@.len() == old(self).spec_processes()@.len(),
            forall|j: int| 0 <= j < old(self).spec_processes()@.len() ==> (#[trigger] final(self).spec_processes()@[j]).pid
                == old(self).spec_processes()@[j].pid,
            forall|j: int| 0 <= j < old(self).spec_processes()@.len() && old(self).spec_processes()@[j].pid
                != old(self).spec_threads().thread(src).pid && old(self).spec_processes()@[j].pid
                != old(self).spec_threads().thread(dest).pid ==> #[trigger] final(self).spec_processes()@[j]
                == old(self).spec_processes()@[j],
            old(self).same_schedule(final(self)),
    {
        let ghost k0 = *self;
        proof {
            k0.threads.lemma_pos(src);
            k0.threads.lemma_pos(dest);
        }
        let ps = self.threads.find_pos(src);
        let pd = self.threads.find_pos(dest);
        let src_pid = self.threads.at(ps).pid;
        let dest_pid = self.threads.at(pd).pid;
        proof {
            k0.processes.lemma_pos(src_pid);
            k0.processes.lemma_pos(dest_pid);
        }
        let sp = self.processes.find_pos(src_pid);
        let dp = self.processes.find_pos(dest_pid);
        let ghost src0 = k0.spec_processes()@[sp as int].handles();
        let ghost dest0 = k0.spec_processes()@[dp as int].handles();
        proof {
            if src_pid != dest_pid {
                assert(k0.spec_processes()@[sp as int].pid != k0.spec_processes()@[dp as int].pid);
            }
        }
        let mut src_data: Vec<u8> = Vec::new();
        let mut dest_data: Vec<u8> = Vec::new();
        self.get_ipc_data_at(ps, &mut src_data);
        self.get_ipc_data_at(pd, &mut dest_data);
        let ghost data = src_data@;
        let ghost hdr = IPCHeaderCode::spec_decode(word_at(data, 0));
        let ghost start = spec_params_start(reply);
        let mut reader = if reply {
            IPCReader::new_response(src_data.as_slice())
        } else {
            IPCReader::new_request(src_data.as_slice())
        };
        let header = reader.header();
        let mut writer = if reply {
            IPCWriter::new_response(header.command_id, reader.result(), dest_data)
        } else {
            IPCWriter::new_request(header.command_id, dest_data)
        };
        let n = header.normal_parameter_count;
        let ghost t = hdr.translate_parameter_size;
        let ghost init = k0.spec_processes()@[dp as int].handles().dom().len();
        proof {
            assert(hdr.normal_parameter_count < 64) by {
                let w = word_at(data, 0);
                assert(((w & 0xFC0u32) >> 6u32) < 64) by (bit_vector);
            }
            assert(hdr.translate_parameter_size < 64) by {
                let w = word_at(data, 0);
                assert((w & 0x3Fu32) < 64) by (bit_vector);
            }
        }
        proof {
            assert(4 * (start + n + t) <= IPC_REQUEST_SIZE);
            assert(spec_handle_section(data, (start + n) as nat, t as nat));
        }
        let mut k: u8 = 0;
        while k < n
            invariant
                4 * (start + n + t) <= IPC_REQUEST_SIZE,
                spec_handle_section(data, (start + n) as nat, t as nat),
                k <= n,
                n == hdr.normal_parameter_count,
                n < 64,
                reader.spec_data() == data,
                reader.spec_header() == hdr,
                reader.spec_word() == start + k,
                reader.spec_normal_left() == n - k,
                reader.spec_translate_left() == t,
                writer.wf(),
                writer.spec_command_id() == hdr.command_id,
                writer.spec_normal_count() == k,
                writer.spec_translate_size() == 0,
                writer.spec_word() == start + k,
                writer.spec_data().len() == IPC_REQUEST_SIZE,
                reply ==> word_at(writer.spec_data(), 1) == word_at(data, 1),
                forall|j: int| 0 <= j < k ==> #[trigger] word_at(writer.spec_data(), start + j) == word_at(data, start + j),
                spec_translatable(data, reply),
                start == spec_params_start(reply),
            decreases n - k,
        {
            let ghost before = writer.spec_data();
            let v = reader.read_normal();
            writer.write_normal(v);
            k = k + 1;
            proof {
                assert forall|j: int| 0 <= j < k implies #[trigger] word_at(writer.spec_data(), start + j) == word_at(data, start + j) by {
                    if j < k - 1 {
                        assert(word_at(writer.spec_data(), start + j) == word_at(before, start + j));
                    }
                }
            }
        }
        proof {
            assert forall|p: int| #[trigger] spec_descriptor_at(data, (start + n) as nat, t as nat, p) implies p >= start + n by {
                lemma_descriptor_within(data, (start + n) as nat, t as nat, p);
            }
        }
        let ghost s0 = (start + n) as nat;
        proof {
            if sp == dp {
                assert(src_pid == dest_pid);
            }
            assert forall|g: u32| !#[trigger] spec_moved_before(data, s0, t as nat, s0 as int, g) by {
                if spec_moved_before(data, s0, t as nat, s0 as int, g) {
                    let (q, j) = choose|q: int, j: int| #[trigger] spec_moves_at(data, s0, t as nat, q, j, g) && q + 1 + j < s0;
                    lemma_descriptor_within(data, s0, t as nat, q);
                }
            }
        }
        while reader.has_more_translate_params()
            invariant
                n == hdr.normal_parameter_count,
                t == hdr.translate_parameter_size,
                n < 64,
                t < 64,
                s0 == start + n,
                reader.spec_data() == data,
                reader.spec_normal_left() == 0,
                reader.spec_word() >= start + n,
                reader.spec_word() + reader.spec_translate_left() == start + n + t,
                reader.spec_translate_left() <= t,
                spec_handle_section(data, reader.spec_word(), reader.spec_translate_left()),
                writer.wf(),
                writer.spec_command_id() == hdr.command_id,
                writer.spec_normal_count() == n,
                writer.spec_translate_size() + reader.spec_translate_left() == t,
                writer.spec_word() == reader.spec_word(),
                4 * (reader.spec_word() + reader.spec_translate_left()) <= IPC_REQUEST_SIZE,
                writer.spec_data().len() == IPC_REQUEST_SIZE,
                reply ==> word_at(writer.spec_data(), 1) == word_at(data, 1),
                forall|j: int| 0 <= j < n ==> #[trigger] word_at(writer.spec_data(), start + j) == word_at(data, start + j),
                start == spec_params_start(reply),
                self.wf(),
                k0.handles_moved(self, sp as int, dp as int),
                sp < k0.spec_processes()@.len(),
                dp < k0.spec_processes()@.len(),
                init == k0.spec_processes()@[dp as int].handles().dom().len(),
                init + 64 <= u32::MAX,
                self.spec_processes()@[dp as int].handles().dom().len() <= init + (t - reader.spec_translate_left()),
                (src_pid != dest_pid) == (sp != dp),
                start >= 1,
                forall|p: int| #[trigger] spec_descriptor_at(data, s0, t as nat, p) ==> p < reader.spec_word()
                    || spec_descriptor_at(data, reader.spec_word(), reader.spec_translate_left(), p),
                forall|p: int| #[trigger] spec_descriptor_at(data, s0, t as nat, p) && p < reader.spec_word() ==> {
                    &&& p + 1 + payload_words(word_at(data, p)) <= reader.spec_word()
                    &&& word_at(writer.spec_data(), p) == spec_handle_descriptor(
                        (word_at(data, p) & 16u32) != 0,
                        (word_at(data, p) & 32u32) != 0,
                        payload_words(word_at(data, p)),
                    )
                },
                forall|p: int| #[trigger] spec_descriptor_at(data, reader.spec_word(), reader.spec_translate_left(), p)
                    ==> spec_descriptor_at(data, s0, t as nat, p),
                src0 == k0.spec_processes()@[sp as int].handles(),
                dest0 == k0.spec_processes()@[dp as int].handles(),
                sp != dp ==> self.spec_processes()@[sp as int].handles().submap_of(src0),
                sp != dp ==> dest0.submap_of(self.spec_processes()@[dp as int].handles()),
                forall|g: u32| #[trigger] src0.dom().contains(g) && !spec_moved_before(data, s0, t as nat, reader.spec_word() as int, g)
                    ==> self.spec_processes()@[sp as int].handles().dom().contains(g) && self.spec_processes()@[sp as int].handles()[g]
                    == src0[g],
                sp != dp ==> forall|g: u32| #[trigger] spec_moved_before(data, s0, t as nat, reader.spec_word() as int, g)
                    ==> !self.spec_processes()@[sp as int].handles().dom().contains(g),
                sp == dp ==> forall|g: u32| #[trigger] self.spec_processes()@[sp as int].handles().dom().contains(g) && !(src0.dom().contains(
                    g,
                ) && !spec_moved_before(data, s0, t as nat, reader.spec_word() as int, g)) ==> spec_written_before(
                    data,
                    s0,
                    t as nat,
                    writer.spec_data(),
                    reader.spec_word() as int,
                    g,
                ),
                forall|p: int, i: int| spec_descriptor_at(data, s0, t as nat, p) && p < reader.spec_word() && 0 <= i < payload_words(
                    word_at(data, p),
                ) ==> spec_handle_sent(
                    data,
                    s0,
                    t as nat,
                    src0,
                    self.spec_processes()@[dp as int].handles(),
                    sp != dp,
                    p,
                    i,
                    #[trigger] payload_word(writer.spec_data(), p, i),
                ),
            decreases reader.spec_translate_left(),
        {
            let ghost left0 = reader.spec_translate_left();
            let ghost w0 = reader.spec_word();
            let ghost wdata0 = writer.spec_data();
            let ghost rest0 = reader.spec_rest();
            proof {
                assert(reader.spec_rest()[0] == word_at(data, w0 as int));
            }
            let param = reader.read_translate();
            match param {
                IPCTranslateParameter::Handle { moved, calling_process, handles } => {
                    let single = matches!(handles, IPCHandles::Single(_));
                    let hs = handles.as_slice();
                    let ghost len = hs@.len();
                    let ghost d = word_at(data, w0 as int);
                    proof {
                        assert(rest0[0] == d);
                        assert(hs@.len() == payload_words(d));
                        assert(moved == ((d & 16u32) != 0));
                        assert(calling_process == ((d & 32u32) != 0));
                        assert forall|i2: int| 0 <= i2 < payload_words(d) implies #[trigger] param_handle(data, w0 as int, i2)
                            == hs@[i2] by {
                            assert(rest0[1 + i2] == word_at(data, w0 + 1 + i2));
                        }
                        assert(spec_descriptor_at(data, w0, left0, w0 as int));
                        assert(spec_descriptor_at(data, s0, t as nat, w0 as int));
                        assert forall|g: u32| #[trigger] spec_moved_before(data, s0, t as nat, (w0 + 1) as int, g) == spec_moved_before(
                            data,
                            s0,
                            t as nat,
                            w0 as int,
                            g,
                        ) by {
                            lemma_moved_before_descriptor(data, s0, t as nat, w0 as int, g);
                        }
                    }
                    let mut out: Vec<Option<Handle>> = Vec::new();
                    let mut i: usize = 0;
                    while i < hs.len()
                        invariant
                            i <= hs@.len(),
                            hs@.len() == len,
                            1 <= len <= 64,
                            out@.len() == i,
                            self.wf(),
                            k0.handles_moved(self, sp as int, dp as int),
                            sp < k0.spec_processes()@.len(),
                            dp < k0.spec_processes()@.len(),
                            init + 64 <= u32::MAX,
                            (t - left0) + len < 64,
                            self.spec_processes()@[dp as int].handles().dom().len() <= init + (t - left0) + i,
                            spec_descriptor_at(data, s0, t as nat, w0 as int),
                            len == payload_words(word_at(data, w0 as int)),
                            moved == ((word_at(data, w0 as int) & 16u32) != 0),
                            forall|j: int| 0 <= j < len ==> #[trigger] param_handle(data, w0 as int, j) == hs@[j],
                            sp != dp ==> self.spec_processes()@[sp as int].handles().submap_of(src0),
                            sp != dp ==> dest0.submap_of(self.spec_processes()@[dp as int].handles()),
                            forall|g: u32| #[trigger] src0.dom().contains(g) && !spec_moved_before(data, s0, t as nat, w0 + 1 + i, g)
                                ==> self.spec_processes()@[sp as int].handles().dom().contains(g)
                                && self.spec_processes()@[sp as int].handles()[g] == src0[g],
                            sp != dp ==> forall|g: u32| #[trigger] spec_moved_before(data, s0, t as nat, w0 + 1 + i, g)
                                ==> !self.spec_processes()@[sp as int].handles().dom().contains(g),
                            sp == dp ==> forall|g: u32| #[trigger] self.spec_processes()@[sp as int].handles().dom().contains(g) && !(
                            src0.dom().contains(g) && !spec_moved_before(data, s0, t as nat, w0 + 1 + i, g)) ==> spec_written_before(
                                data,
                                s0,
                                t as nat,
                                wdata0,
                                w0 as int,
                                g,
                            ) || exists|j: int| 0 <= j < i && spec_raw_or_zero(#[trigger] out@[j]) == g,
                            forall|p: int, j: int| spec_descriptor_at(data, s0, t as nat, p) && p < w0 && 0 <= j < payload_words(
                                word_at(data, p),
                            ) ==> spec_handle_sent(
                                data,
                                s0,
                                t as nat,
                                src0,
                                self.spec_processes()@[dp as int].handles(),
                                sp != dp,
                                p,
                                j,
                                #[trigger] payload_word(wdata0, p, j),
                            ),
                            forall|j: int| 0 <= j < i ==> spec_handle_sent(
                                data,
                                s0,
                                t as nat,
                                src0,
                                self.spec_processes()@[dp as int].handles(),
                                sp != dp,
                                w0 as int,
                                j,
                                spec_raw_or_zero(#[trigger] out@[j]),
                            ),
                        decreases hs@.len() - i,
                    {
                        let ghost k2 = *self;
                        let ghost out0 = out@;
                        let ghost ii = i as int;
                        let th = self.translate_handle(hs[i], moved, sp, dp);
                        out.push(th);
                        i = i + 1;
                        proof {
                            let c2 = k2.spec_processes()@[dp as int].handles();
                            let c3 = self.spec_processes()@[dp as int].handles();
                            let s2 = k2.spec_processes()@[sp as int].handles();
                            let s3 = self.spec_processes()@[sp as int].handles();
                            assert(param_handle(data, w0 as int, ii) == hs@[ii]);
                            assert forall|g: u32| #[trigger] spec_moves_at(data, s0, t as nat, w0 as int, ii, g) implies moved
                                && hs@[ii] is Some && g == hs@[ii].unwrap().spec_raw() by {
                            }
                            assert forall|g: u32| #[trigger] src0.dom().contains(g) && !spec_moved_before(
                                data,
                                s0,
                                t as nat,
                                w0 + 1 + i,
                                g,
                            ) implies s3.dom().contains(g) && s3[g] == src0[g] by {
                                lemma_moved_before_step(data, s0, t as nat, w0 as int, ii, g);
                                assert(s2.dom().contains(g));
                                if moved && hs@[ii] is Some && g == hs@[ii].unwrap().spec_raw() {
                                    assert(spec_moves_at(data, s0, t as nat, w0 as int, ii, g));
                                }
                            }
                            if sp != dp {
                                vstd::map_lib::lemma_submap_of_trans(s3, s2, src0);
                                assert forall|g: u32| #[trigger] dest0.dom().contains(g) implies c3.dom().contains(g) && dest0[g] == c3[g] by {
                                    assert(c2.dom().contains(g));
                                }
                                assert forall|g: u32| #[trigger] spec_moved_before(data, s0, t as nat, w0 + 1 + i, g) implies !s3.dom().contains(
                                    g,
                                ) by {
                                    lemma_moved_before_step(data, s0, t as nat, w0 as int, ii, g);
                                    if spec_moved_before(data, s0, t as nat, w0 + 1 + ii, g) {
                                        assert(!s2.dom().contains(g));
                                    }
                                }
                                assert(c2.submap_of(c3));
                            } else {
                                assert forall|g: u32| #[trigger] c2.dom().contains(g) && !spec_moved_in(data, s0, t as nat, g) implies c3.dom().contains(
                                    g,
                                ) && c3[g] == c2[g] by {
                                    if moved && hs@[ii] is Some && g == hs@[ii].unwrap().spec_raw() {
                                        assert(spec_moves_at(data, s0, t as nat, w0 as int, ii, g));
                                    }
                                }
                            }
                            if sp == dp {
                                assert forall|g: u32| #[trigger] s3.dom().contains(g) && !(src0.dom().contains(g) && !spec_moved_before(
                                    data,
                                    s0,
                                    t as nat,
                                    w0 + 1 + i,
                                    g,
                                )) implies spec_written_before(data, s0, t as nat, wdata0, w0 as int, g) || exists|j: int| 0 <= j < i
                                    && spec_raw_or_zero(#[trigger] out@[j]) == g by {
                                    lemma_moved_before_step(data, s0, t as nat, w0 as int, ii, g);
                                    if th is Some && g == th.unwrap().spec_raw() {
                                        assert(spec_raw_or_zero(out@[ii]) == g);
                                    } else {
                                        assert(s2.dom().contains(g));
                                        assert(!(moved && hs@[ii] is Some && g == hs@[ii].unwrap().spec_raw()));
                                        assert(!spec_moves_at(data, s0, t as nat, w0 as int, ii, g));
                                        if !spec_written_before(data, s0, t as nat, wdata0, w0 as int, g) {
                                            let j = choose|j: int| 0 <= j < ii && spec_raw_or_zero(#[trigger] out0[j]) == g;
                                            assert(out@[j] == out0[j]);
                                        }
                                    }
                                }
                            }
                            assert forall|p: int, j: int| spec_descriptor_at(data, s0, t as nat, p) && p < w0 && 0 <= j < payload_words(
                                word_at(data, p),
                            ) implies spec_handle_sent(data, s0, t as nat, src0, c3, sp != dp, p, j, #[trigger] payload_word(wdata0, p, j)) by {
                                lemma_handle_sent_kept(data, s0, t as nat, src0, c2, c3, sp != dp, p, j, payload_word(wdata0, p, j));
                            }
                            assert forall|j: int| 0 <= j < ii implies spec_handle_sent(
                                data,
                                s0,
                                t as nat,
                                src0,
                                c3,
                                sp != dp,
                                w0 as int,
                                j,
                                spec_raw_or_zero(#[trigger] out@[j]),
                            ) by {
                                assert(out@[j] == out0[j]);
                                lemma_handle_sent_kept(data, s0, t as nat, src0, c2, c3, sp != dp, w0 as int, j, spec_raw_or_zero(out0[j]));
                            }
                            let hj = hs@[ii];
                            assert(out@[ii] == th);
                            if spec_handle_live(data, s0, t as nat, src0, w0 as int, ii) {
                                assert(src0.dom().contains(hj.unwrap().spec_raw()));
                                assert(s2.dom().contains(hj.unwrap().spec_raw()));
                            } else if sp != dp && hj is Some {
                                let g = hj.unwrap().spec_raw();
                                if src0.dom().contains(g) {
                                    assert(spec_moved_before(data, s0, t as nat, w0 + 1 + ii, g));
                                    assert(!s2.dom().contains(g));
                                } else {
                                    assert(!s2.dom().contains(g));
                                }
                            }
                            assert(spec_handle_sent(data, s0, t as nat, src0, c3, sp != dp, w0 as int, ii, spec_raw_or_zero(out@[ii])));
                        }
                    }
                    let new_handles = if single {
                        IPCHandles::Single(out[0])
                    } else {
                        IPCHandles::Multiple(out)
                    };
                    let new_param = IPCTranslateParameter::Handle { moved, calling_process, handles: new_handles };
                    let ghost wword = writer.spec_word();
                    let ghost nview = new_param@;
                    writer.write_translate(&new_param);
                    proof {
                        let w1 = w0 + 1 + payload_words(d);
                        let left1 = (left0 - 1 - payload_words(d)) as nat;
                        let wnew = writer.spec_data();
                        let cur_dest = self.spec_processes()@[dp as int].handles();
                        assert(new_param@->handles =~= out@);
                        assert(w1 == reader.spec_word());
                        assert(left1 == reader.spec_translate_left());
                        assert(wword == w0);
                        assert(nview->moved == moved && nview->calling_process == calling_process && nview->handles == out@);
                        assert(word_at(wnew, wword as int + 0) == spec_encode_handles(nview->moved, nview->calling_process, nview->handles)[0]);
                        assert(word_at(wnew, w0 as int) == spec_handle_descriptor(moved, calling_process, out@.len()));
                        assert forall|i2: int| 0 <= i2 < payload_words(d) implies #[trigger] payload_word(wnew, w0 as int, i2)
                            == spec_raw_or_zero(out@[i2]) by {
                            assert(word_at(wnew, wword + (1 + i2)) == spec_encode_handles(nview->moved, nview->calling_process, nview->handles)[1 + i2]);
                        }
                        assert forall|p: int| #[trigger] spec_descriptor_at(data, s0, t as nat, p) implies p < w1
                            || spec_descriptor_at(data, w1, left1, p) by {
                            if p >= w0 {
                                assert(spec_descriptor_at(data, w0, left0, p));
                                assert(p == w0 || spec_descriptor_at(data, w1, left1, p));
                            }
                        }
                        assert forall|p: int| #[trigger] spec_descriptor_at(data, s0, t as nat, p) && p < w1 implies {
                            &&& p + 1 + payload_words(word_at(data, p)) <= w1
                            &&& word_at(wnew, p) == spec_handle_descriptor(
                                (word_at(data, p) & 16u32) != 0,
                                (word_at(data, p) & 32u32) != 0,
                                payload_words(word_at(data, p)),
                            )
                        } by {
                            lemma_descriptor_within(data, s0, t as nat, p);
                            if p >= w0 {
                                assert(spec_descriptor_at(data, w0, left0, p));
                                if p != w0 {
                                    assert(spec_descriptor_at(data, w1, left1, p));
                                    lemma_descriptor_within(data, w1, left1, p);
                                }
                            } else {
                                assert(word_at(wnew, p) == word_at(wdata0, p));
                            }
                        }
                        assert forall|p: int| #[trigger] spec_descriptor_at(data, w1, left1, p) implies spec_descriptor_at(
                            data,
                            s0,
                            t as nat,
                            p,
                        ) by {
                            assert(spec_descriptor_at(data, w0, left0, p));
                        }
                        if sp == dp {
                            assert forall|g: u32| #[trigger] cur_dest.dom().contains(g) && !(src0.dom().contains(g) && !spec_moved_before(
                                data,
                                s0,
                                t as nat,
                                w1 as int,
                                g,
                            )) implies spec_written_before(data, s0, t as nat, wnew, w1 as int, g) by {
                                assert(w0 + 1 + len == w1);
                                if spec_written_before(data, s0, t as nat, wdata0, w0 as int, g) {
                                    let (p, j) = choose|p: int, j: int|
                                        spec_descriptor_at(data, s0, t as nat, p) && 0 <= j < payload_words(word_at(data, p)) && p + 1 + j
                                            < w0 && #[trigger] payload_word(wdata0, p, j) == g;
                                    lemma_descriptor_within(data, s0, t as nat, p);
                                    assert(word_at(wnew, p + 1 + j) == word_at(wdata0, p + 1 + j));
                                    assert(payload_word(wnew, p, j) == g);
                                } else {
                                    let j = choose|j: int| 0 <= j < len && spec_raw_or_zero(#[trigger] out@[j]) == g;
                                    assert(payload_word(wnew, w0 as int, j) == spec_raw_or_zero(out@[j]));
                                    assert(payload_word(wnew, w0 as int, j) == g);
                                }
                            }
                        }
                        assert forall|p: int, j: int| spec_descriptor_at(data, s0, t as nat, p) && p < w1 && 0 <= j < payload_words(
                            word_at(data, p),
                        ) implies spec_handle_sent(data, s0, t as nat, src0, cur_dest, sp != dp, p, j, #[trigger] payload_word(wnew, p, j)) by {
                            lemma_descriptor_within(data, s0, t as nat, p);
                            if p >= w0 {
                                assert(spec_descriptor_at(data, w0, left0, p));
                                if p != w0 {
                                    assert(spec_descriptor_at(data, w1, left1, p));
                                    lemma_descriptor_within(data, w1, left1, p);
                                }
                                assert(payload_word(wnew, w0 as int, j) == spec_raw_or_zero(out@[j]));
                                assert(spec_handle_sent(data, s0, t as nat, src0, cur_dest, sp != dp, w0 as int, j, spec_raw_or_zero(out@[j])));
                            } else {
                                assert(word_at(wnew, p + 1 + j) == word_at(wdata0, p + 1 + j));
                                assert(payload_word(wnew, p, j) == payload_word(wdata0, p, j));
                                assert(spec_handle_sent(data, s0, t as nat, src0, cur_dest, sp != dp, p, j, payload_word(wdata0, p, j)));
                            }
                        }
                    }
                },
                _ => {},
            }
        }
        proof {
            let out = writer.spec_data();
            let cur_dest = self.spec_processes()@[dp as int].handles();
            assert forall|g: u32| #[trigger] spec_moved_before(data, s0, t as nat, reader.spec_word() as int, g) == spec_moved_in(
                data,
                s0,
                t as nat,
                g,
            ) by {
                lemma_moved_before_end(data, s0, t as nat, g);
            }
            assert forall|g: u32| #[trigger] spec_moved_in(data, s0, t as nat, g) implies spec_moved_before(
                data,
                s0,
                t as nat,
                reader.spec_word() as int,
                g,
            ) by {
                lemma_moved_before_end(data, s0, t as nat, g);
            }
            assert forall|p: int, i: int| spec_descriptor_at(data, s0, t as nat, p) && 0 <= i < payload_words(word_at(data, p))
                implies spec_handle_sent(data, s0, t as nat, src0, cur_dest, sp != dp, p, i, #[trigger] payload_word(out, p, i)) by {
                lemma_descriptor_within(data, s0, t as nat, p);
            }
        }
        let ghost k3 = *self;
        self.threads.set_ipc_data(pd, writer.into_data());
        proof {
            lemma_ipc_change_keeps_inv(&self.objects, &k3.threads, &self.threads, pd as int);
            Kernel::lemma_keeps_wf(&k3, self);
            let out = self.spec_threads().thread(dest).ipc_data@;
            let src1 = self.spec_processes().process(src_pid).handles();
            let dest1 = self.spec_processes().process(dest_pid).handles();
            assert(k0.spec_threads().thread(src).ipc_data@ == data);
            assert(k0.spec_processes().process(src_pid).handles() == src0);
            assert(src1 == self.spec_processes()@[sp as int].handles());
            assert(dest1 == self.spec_processes()@[dp as int].handles());
            assert(forall|p: int, i: int| spec_descriptor_at(data, s0, t as nat, p) && 0 <= i < payload_words(word_at(data, p))
                ==> spec_handle_sent(data, s0, t as nat, src0, dest1, src_pid != dest_pid, p, i, #[trigger] payload_word(out, p, i)));
            assert(forall|g: u32| #[trigger] src0.dom().contains(g) && !spec_moved_in(data, s0, t as nat, g) ==> src1.dom().contains(g)
                && src1[g] == src0[g]);
            assert(src_pid != dest_pid ==> forall|g: u32| #[trigger] spec_moved_in(data, s0, t as nat, g) ==> !src1.dom().contains(g));
            assert(src_pid == dest_pid ==> forall|g: u32| #[trigger] src1.dom().contains(g) && !(src0.dom().contains(g) && !spec_moved_in(
                data,
                s0,
                t as nat,
                g,
            )) ==> spec_written_before(data, s0, t as nat, out, (s0 + t) as int, g));
        }
    }

    /// Copies the IPC data area of the thread at position `p`.
    fn get_ipc_data_at(&self, p: usize, data: &mut Vec<u8>)
        requires
            self.wf(),
            p < self.spec_threads()@.len(),
        ensures
            final(data)@ == self.spec_threads()@[p as int].ipc_data@,
    {
        let t = self.threads.at(p);
        let mut copy: Vec<u8> = Vec::new();
        let mut i: usize = 0;
        while i < t.ipc_data.len()
            invariant
                i <= t.ipc_data@.len(),
                copy@ == t.ipc_data@.subrange(0, i as int),
            decreases t.ipc_data@.len() - i,
        {
            copy.push(t.ipc_data[i]);
            i = i + 1;
            assert(copy@ =~= t.ipc_data@.subrange(0, i as int));
        }
        assert(copy@ =~= t.ipc_data@);
        *data = copy;
    }

    /// The object that a handle of the running process refers to, if any.
    pub open spec fn spec_lookup(&self, handle: Option<Handle>) -> Option<KObjectRef> {
        match handle {
            Some(h) => if self.current_process_spec().handles().dom().contains(h.spec_raw()) {
                Some(self.current_process_spec().handles()[h.spec_raw()])
            } else {
                None
            },
            None => None,
        }
    }

    /// The object that a handle, if any, of the running process refers to.
    pub fn lookup(&self, handle: &Option<Handle>) -> (r: Option<KObjectRef>)
        requires
            self.wf(),
            self.spec_current().is_some(),
        ensures
            r == self.spec_lookup(*handle),
            r matches Some(o) ==> self.spec_objects().valid(o),
    {
        match handle {
            Some(h) => self.lookup_handle(h),
            None => None,
        }
    }

    /// The concrete type of an object.
    pub fn kind_of(&self, o: KObjectRef) -> (r: ObjectType)
        requires
            self.spec_objects().valid(o),
        ensures
            r == crate::object::spec_kind(self.spec_objects().obj(o).data),
    {
        self.objects.kind_of(o)
    }

    /// The number of open handles of the process that a thread belongs to.
    pub fn thread_process_handle_count(&self, tid: ThreadIndex) -> (r: usize)
        requires
            self.wf(),
            self.spec_threads().has(tid),
        ensures
            r == self.spec_processes().process(self.spec_threads().thread(tid).pid).handles().dom().len(),
    {
        proof {
            self.spec_threads().lemma_pos(tid);
        }
        let pid = self.threads.find_thread(tid).pid;
        proof {
            self.spec_processes().lemma_pos(pid);
        }
        self.processes.find_common_process(pid).handle_count()
    }

    /// Whether a thread exists.
    pub fn has_thread(&self, tid: ThreadIndex) -> (r: bool)
        requires
            self.wf(),
        ensures
            r == self.spec_threads().has(tid),
    {
        let mut i: usize = 0;
        while i < self.threads.len()
            invariant
                i <= self.spec_threads()@.len(),
                forall|j: int| 0 <= j < i ==> (#[trigger] self.spec_threads()@[j]).index != tid,
            decreases self.spec_threads()@.len() - i,
        {
            if self.threads.at(i).index == tid {
                return true;
            }
            i = i + 1;
        }
        false
    }

    /// Copies the IPC data area of a thread.
    pub fn thread_ipc_data(&self, tid: ThreadIndex, data: &mut Vec<u8>)
        requires
            self.wf(),
            self.spec_threads().has(tid),
        ensures
            final(data)@ == self.spec_threads().thread(tid).ipc_data@,
    {
        proof {
            self.spec_threads().lemma_pos(tid);
        }
        let p = self.threads.find_pos(tid);
        self.get_ipc_data_at(p, data);
    }

    /// The index the next thread will get.
    pub fn next_tid(&self) -> (r: u32)
        ensures
            r == self.spec_next_tid(),
    {
        self.next_tid
    }

    /// The number of open handles of the running process.
    pub fn current_handle_count(&self) -> (r: usize)
        requires
            self.wf(),
            self.spec_current().is_some(),
        ensures
            r == self.current_process_spec().handles().dom().len(),
    {
        self.current_process().handle_count()
    }

    /// The objects and the threads, to be changed together; the caller
    /// keeps their invariant.
    pub fn parts_mut(&mut self) -> (r: (&mut ObjectManager, &mut CommonThreadManager))
        ensures
            *r.0 == old(self).spec_objects(),
            *r.1 == old(self).spec_threads(),
            final(self).spec_objects() == *final(r.0),
            final(self).spec_threads() == *final(r.1),
            final(self).spec_processes() == old(self).spec_processes(),
            old(self).same_schedule(final(self)),
    {
        (&mut self.objects, &mut self.threads)
    }

    /// Chooses the thread to run next.
    pub fn schedule_next(&mut self, thread: ThreadIndex)
        requires
            old(self).wf(),
        ensures
            final(self).wf(),
            final(self).spec_next() == Some(thread),
            final(self).spec_current() == old(self).spec_current(),
            final(self).spec_objects() == old(self).spec_objects(),
            final(self).spec_threads() == old(self).spec_threads(),
            final(self).spec_processes() == old(self).spec_processes(),
            final(self).spec_ports() == old(self).spec_ports(),
            final(self).spec_interrupts() == old(self).spec_interrupts(),
    {
        self.exec_info.next = Some(thread);
    }
}

impl crate::object::HLECodeSetImpl {
    /// Starts the process of this code set: a new process under the code
    /// set's name with one thread, to which the code set's main thread goes.
    /// Gives the process, the thread and the main thread's token; the code
    /// set has no main thread afterwards.
    pub fn create_process(&mut self, kctx: &mut Kernel) -> (r: (ProcessId, ThreadIndex, u64))
        requires
            old(self).main_thread.is_some(),
            old(kctx).wf(),
            old(kctx).spec_next_pid() < u32::MAX,
            old(kctx).spec_next_tid() < u32::MAX,
        ensures
            final(self).main_thread.is_none(),
            final(self).process_name == old(self).process_name,
            r.2 == old(self).main_thread.unwrap(),
            final(kctx).wf(),
            r.0.0 == old(kctx).spec_next_pid(),
            r.1.0 == old(kctx).spec_next_tid(),
            final(kctx).spec_processes()@.len() == old(kctx).spec_processes()@.len() + 1,
            final(kctx).spec_processes()@.last().pid == r.0,
            final(kctx).spec_processes()@.last().name@ == old(self).process_name@,
            final(kctx).spec_threads()@.len() == old(kctx).spec_threads()@.len() + 1,
            final(kctx).spec_threads()@.last().index == r.1,
            final(kctx).spec_threads()@.last().pid == r.0,
            final(kctx).spec_threads()@.last().state == ThreadState::Ready,
            final(kctx).spec_current() == old(kctx).spec_current(),
    {
        let token = self.main_thread.take().unwrap();
        let pid = kctx.new_process(self.process_name.clone());
        proof {
            let i = kctx.spec_processes()@.len() - 1;
            assert(kctx.spec_processes()@[i].pid == pid);
        }
        let (tid, _) = kctx.new_thread(pid);
        (pid, tid, token)
    }
}

} // verus!
