//! Threads as the kernel sees them: their scheduling state, what they wait
//! on, and the wake-up protocol. A thread's wake key changes at every
//! wake-up, so a waker made for an earlier wait can no longer wake it.

use vstd::prelude::*;
use crate::object::{spec_less, spec_mentions, spec_occurrences, spec_without_thread, KObjectRef, KTypedObject, ObjectManager, Waker};
use crate::types::{ProcessId, ThreadIndex, ThreadResume, ThreadState, ThreadWaitType};

verus! {

/// Why a waiting thread wakes up.
#[derive(Clone, Copy, Debug, PartialEq, Eq, Structural)]
pub enum ThreadWakeReason {
    Timeout,
    Object(KObjectRef),
}

/// The wake key after `k`, wrapping around.
pub open spec fn spec_next_key(k: u64) -> u64 {
    if k == u64::MAX {
        0
    } else {
        (k + 1) as u64
    }
}

/// Whether `index` is the first position of `o` in `s`.
pub open spec fn spec_first_position(s: Seq<KObjectRef>, o: KObjectRef, index: int) -> bool {
    &&& 0 <= index < s.len()
    &&& s[index] == o
    &&& forall|j: int| 0 <= j < index ==> s[j] != o
}

/// What a thread that waited with `wait_type` on `objects` is told when it
/// wakes for `reason`.
pub open spec fn spec_resume_for(
    reason: ThreadWakeReason,
    wait_type: ThreadWaitType,
    objects: Seq<KObjectRef>,
    resume: ThreadResume,
) -> bool {
    match reason {
        ThreadWakeReason::Timeout => if wait_type == ThreadWaitType::Sleep {
            resume == ThreadResume::Normal
        } else {
            resume == ThreadResume::TimeoutReached
        },
        ThreadWakeReason::Object(o) => if wait_type == ThreadWaitType::WaitSyncN {
            resume matches ThreadResume::WaitSyncN { index } && spec_first_position(objects, o, index as int)
        } else {
            resume == ThreadResume::Normal
        },
    }
}

/// Whether a thread may be woken for `reason`: it has a wait type, only a
/// timeout ends a sleep, and an object ending a multi-object wait is one of
/// the objects waited on.
pub open spec fn spec_can_wake_up(t: CommonThread, reason: ThreadWakeReason) -> bool {
    &&& t.wait_type.is_some()
    &&& reason matches ThreadWakeReason::Object(o) ==> {
        &&& t.wait_type != Some(ThreadWaitType::Sleep)
        &&& t.wait_type == Some(ThreadWaitType::WaitSyncN) ==> t.wait_objects@.contains(o)
    }
}

/// `new` is `old` woken for `reason`.
pub open spec fn spec_woken(old: CommonThread, new: CommonThread, reason: ThreadWakeReason) -> bool {
    &&& new.state == ThreadState::Ready
    &&& new.wake_key == spec_next_key(old.wake_key)
    &&& new.wait_objects@.len() == 0
    &&& spec_resume_for(reason, old.wait_type.unwrap(), old.wait_objects@, new.resume)
    &&& new.index == old.index
    &&& new.pid == old.pid
    &&& new.wait_timeout == old.wait_timeout
    &&& new.wait_type == old.wait_type
    &&& new.kobj == old.kobj
    &&& new.ipc_data == old.ipc_data
}

/// Whether a thread waits with a deadline at or before `time`.
pub open spec fn spec_due(t: CommonThread, time: u64) -> bool {
    &&& t.state == ThreadState::Waiting
    &&& t.wait_timeout is Some
    &&& t.wait_timeout.unwrap() <= time
}

/// A thread's kernel state.
#[derive(Debug)]
pub struct CommonThread {
    pub index: ThreadIndex,
    pub pid: ProcessId,
    pub state: ThreadState,
    pub wait_objects: Vec<KObjectRef>,
    pub wake_key: u64,
    pub wait_timeout: Option<u64>,
    pub wait_type: Option<ThreadWaitType>,
    pub resume: ThreadResume,
    pub kobj: KTypedObject,
    pub ipc_data: Vec<u8>,
}

impl CommonThread {
    /// A ready thread that waits on nothing, with an empty IPC data area.
    pub fn new(pid: ProcessId, tid: ThreadIndex, kobj: KTypedObject) -> (r: CommonThread)
        ensures
            r.index == tid,
            r.pid == pid,
            r.state == ThreadState::Ready,
            r.wait_objects@.len() == 0,
            r.wake_key == 0,
            r.wait_timeout.is_none(),
            r.wait_type.is_none(),
            r.resume == ThreadResume::Normal,
            r.kobj == kobj,
            r.ipc_data@ == Seq::new(256, |i: int| 0u8),
    {
        let mut ipc_data: Vec<u8> = Vec::new();
        let mut i: usize = 0;
        while i < 256
            invariant
                i <= 256,
                ipc_data@ == Seq::new(i as nat, |j: int| 0u8),
            decreases 256 - i,
        {
            ipc_data.push(0u8);
            i = i + 1;
            assert(ipc_data@ =~= Seq::new(i as nat, |j: int| 0u8));
        }
        CommonThread {
            index: tid,
            pid,
            state: ThreadState::Ready,
            wait_objects: Vec::new(),
            wake_key: 0,
            wait_timeout: None,
            wait_type: None,
            resume: ThreadResume::Normal,
            kobj,
            ipc_data,
        }
    }

    /// A running thread starts to wait on `objects`.
    pub fn wait(&mut self, objects: Vec<KObjectRef>)
        requires
            old(self).state == ThreadState::Running,
        ensures
            final(self).state == ThreadState::Waiting,
            final(self).wait_objects@ == objects@,
            final(self).index == old(self).index,
            final(self).pid == old(self).pid,
            final(self).wake_key == old(self).wake_key,
            final(self).wait_timeout == old(self).wait_timeout,
            final(self).wait_type == old(self).wait_type,
            final(self).resume == old(self).resume,
            final(self).kobj == old(self).kobj,
            final(self).ipc_data == old(self).ipc_data,
    {
        self.wait_objects = objects;
        self.state = ThreadState::Waiting;
    }

    /// Wakes the thread for `reason`: it becomes ready, its wake key moves
    /// on, it is told why it woke, it stops waiting, and each object it
    /// waited on drops the thread's wakers and the reference the wait held.
    pub fn wake_up(&mut self, objs: &mut ObjectManager, reason: ThreadWakeReason)
        requires
            spec_can_wake_up(*old(self), reason),
            spec_refs_valid(*old(self), old(objs)),
        ensures
            spec_woken(*old(self), *final(self), reason),
            final(objs)@.len() == old(objs)@.len(),
            forall|j: int| 0 <= j < old(objs)@.len() ==> {
                &&& (#[trigger] final(objs)@[j]).data == old(objs)@[j].data
                &&& spec_mentions(old(self).wait_objects@, j) ==> final(objs)@[j].wakers@
                    == spec_without_thread(old(objs)@[j].wakers@, old(self).index.0 as u64)
                &&& !spec_mentions(old(self).wait_objects@, j) ==> final(objs)@[j] == old(objs)@[j]
            },
            forall|o: KObjectRef| #[trigger] final(objs).spec_ref_count(o) == spec_less(
                old(objs).spec_ref_count(o),
                spec_occurrences(old(self).wait_objects@, o),
            ),
    {
        self.state = ThreadState::Ready;
        self.wake_key = self.wake_key.wrapping_add(1);
        let wait_type = self.wait_type.unwrap();
        self.resume = match reason {
            ThreadWakeReason::Timeout => match wait_type {
                ThreadWaitType::Sleep => ThreadResume::Normal,
                _ => ThreadResume::TimeoutReached,
            },
            ThreadWakeReason::Object(object) => match wait_type {
                ThreadWaitType::WaitSyncN => {
                    let mut index: usize = 0;
                    while index < self.wait_objects.len() && self.wait_objects[index] != object
                        invariant
                            index <= self.wait_objects@.len(),
                            self.wait_objects@ == old(self).wait_objects@,
                            self.wait_objects@.contains(object),
                            forall|j: int| 0 <= j < index ==> self.wait_objects@[j] != object,
                        decreases self.wait_objects@.len() - index,
                    {
                        index = index + 1;
                    }
                    ThreadResume::WaitSyncN { index }
                },
                _ => ThreadResume::Normal,
            },
        };
        objs.remove_wakers_from(&self.wait_objects, self.index.0 as u64);
        objs.release_all(&self.wait_objects);
        self.wait_objects = Vec::new();
    }
}

/// Whether every object that a thread waits on exists in `objs`.
pub open spec fn spec_refs_valid(t: CommonThread, objs: &ObjectManager) -> bool {
    &&& forall|i: int| 0 <= i < t.wait_objects@.len() ==> objs.valid(#[trigger] t.wait_objects@[i])
    &&& objs.valid(t.kobj.object)
}

/// The threads of the kernel.
pub struct CommonThreadManager {
    threads: Vec<CommonThread>,
}

impl View for CommonThreadManager {
    type V = Seq<CommonThread>;

    closed spec fn view(&self) -> Seq<CommonThread> {
        self.threads@
    }
}

impl CommonThreadManager {
    /// Thread indices are distinct, a waiting thread has a wait type, and
    /// every IPC data area has its full size.
    pub open spec fn wf(&self) -> bool {
        &&& forall|i: int, j: int| 0 <= i < j < self@.len() ==> (#[trigger] self@[i]).index != (#[trigger] self@[j]).index
        &&& forall|i: int| 0 <= i < self@.len() ==> ((#[trigger] self@[i]).state == ThreadState::Waiting
            ==> self@[i].wait_type.is_some())
        &&& forall|i: int| 0 <= i < self@.len() ==> (#[trigger] self@[i]).ipc_data@.len() == crate::ipc::IPC_REQUEST_SIZE
    }

    /// Every thread refers only to objects of `objs`.
    pub open spec fn refs_valid(&self, objs: &ObjectManager) -> bool {
        forall|i: int| 0 <= i < self@.len() ==> spec_refs_valid(#[trigger] self@[i], objs)
    }

    pub open spec fn has(&self, tid: ThreadIndex) -> bool {
        exists|i: int| 0 <= i < self@.len() && (#[trigger] self@[i]).index == tid
    }

    /// The position of the thread with index `tid`.
    pub open spec fn pos(&self, tid: ThreadIndex) -> int {
        choose|i: int| 0 <= i < self@.len() && (#[trigger] self@[i]).index == tid
    }

    /// The thread with index `tid`.
    pub open spec fn thread(&self, tid: ThreadIndex) -> CommonThread {
        self@[self.pos(tid)]
    }

    /// `new` keeps every thread of `self` except the one at position `p`.
    pub open spec fn same_except(&self, new: &CommonThreadManager, p: int) -> bool {
        &&& new@.len() == self@.len()
        &&& forall|j: int| 0 <= j < self@.len() && j != p ==> new@[j] == #[trigger] self@[j]
    }

    /// `new` has the same threads as `self`, in the same positions, with the
    /// same indices, processes and kernel objects.
    pub open spec fn same_threads(&self, new: &CommonThreadManager) -> bool {
        &&& new@.len() == self@.len()
        &&& forall|i: int| 0 <= i < self@.len() ==> {
            &&& (#[trigger] new@[i]).index == self@[i].index
            &&& new@[i].pid == self@[i].pid
            &&& new@[i].kobj == self@[i].kobj
        }
    }

    /// Thread `tid` is the first ready thread.
    pub open spec fn first_ready(&self, tid: ThreadIndex) -> bool {
        exists|i: int| 0 <= i < self@.len() && (#[trigger] self@[i]).index == tid && self@[i].state == ThreadState::Ready
            && forall|j: int| 0 <= j < i ==> (#[trigger] self@[j]).state != ThreadState::Ready
    }

    /// The first ready thread exists and is ready.
    pub proof fn lemma_first_ready(&self, tid: ThreadIndex)
        requires
            self.wf(),
            self.first_ready(tid),
        ensures
            self.has(tid),
            self.thread(tid).state == ThreadState::Ready,
    {
        let i = choose|i: int| 0 <= i < self@.len() && (#[trigger] self@[i]).index == tid && self@[i].state == ThreadState::Ready
            && forall|j: int| 0 <= j < i ==> (#[trigger] self@[j]).state != ThreadState::Ready;
        assert(self@[i].index == tid);
        self.lemma_pos(tid);
    }

    /// Every thread of `self` that does not wait is unchanged in `new`.
    pub open spec fn keeps_unblocked(&self, new: &CommonThreadManager) -> bool {
        forall|i: int| 0 <= i < self@.len() && (#[trigger] self@[i]).state != ThreadState::Waiting ==> new@[i] == self@[i]
    }

    /// Threads kept in place keep their positions.
    pub proof fn lemma_same_threads(&self, new: &CommonThreadManager)
        requires
            self.wf(),
            self.same_threads(new),
        ensures
            forall|tid: ThreadIndex| #[trigger] new.has(tid) == self.has(tid),
            forall|tid: ThreadIndex| self.has(tid) && new.wf() ==> #[trigger] new.pos(tid) == self.pos(tid),
            forall|tid: ThreadIndex| self.has(tid) && new.wf() ==> (#[trigger] new.thread(tid)).pid == self.thread(tid).pid
                && new.thread(tid).index == tid && new.thread(tid).kobj == self.thread(tid).kobj,
    {
        assert forall|tid: ThreadIndex| #[trigger] new.has(tid) == self.has(tid) by {
            if self.has(tid) {
                let i = self.pos(tid);
                assert(new@[i].index == tid);
            }
            if new.has(tid) {
                let i = new.pos(tid);
                assert(self@[i].index == tid);
            }
        }
        assert forall|tid: ThreadIndex| self.has(tid) && new.wf() implies #[trigger] new.pos(tid) == self.pos(tid) by {
            let i = self.pos(tid);
            assert(new@[i].index == tid);
            assert(new.has(tid));
            let k = new.pos(tid);
            assert(self@[k].index == tid);
        }
        assert forall|tid: ThreadIndex| self.has(tid) && new.wf() implies (#[trigger] new.thread(tid)).pid == self.thread(tid).pid
            && new.thread(tid).index == tid && new.thread(tid).kobj == self.thread(tid).kobj by {
            let i = self.pos(tid);
            assert(new@[i].index == tid);
            assert(new.has(tid));
            let k = new.pos(tid);
            assert(self@[k].index == tid);
        }
    }

    /// Whether waker `w` can be delivered for object `o`: its thread exists,
    /// and when its key is current the thread may be woken by `o`.
    pub open spec fn can_wake(&self, w: Waker, o: KObjectRef) -> bool {
        &&& self.has(w.thread)
        &&& self.thread(w.thread).wake_key == w.key ==> spec_can_wake_up(
            self.thread(w.thread),
            ThreadWakeReason::Object(o),
        )
    }

    /// Whether waker `w` may still be delivered: its thread has not woken
    /// since the waker was made, or has woken once and not run since.
    pub open spec fn waker_live(&self, w: Waker) -> bool {
        let t = self.thread(w.thread);
        t.wake_key == w.key || (t.wake_key == spec_next_key(w.key) && t.state == ThreadState::Ready)
    }

    pub proof fn lemma_pos(&self, tid: ThreadIndex)
        requires
            self.wf(),
            self.has(tid),
        ensures
            0 <= self.pos(tid) < self@.len(),
            self@[self.pos(tid)].index == tid,
            forall|i: int| 0 <= i < self@.len() && (#[trigger] self@[i]).index == tid ==> i == self.pos(tid),
    {
    }

    pub fn new() -> (r: CommonThreadManager)
        ensures
            r@.len() == 0,
            r.wf(),
    {
        CommonThreadManager { threads: Vec::new() }
    }

    pub fn len(&self) -> (r: usize)
        ensures
            r == self@.len(),
    {
        self.threads.len()
    }

    /// Adds a thread whose index is not in use.
    pub fn add(&mut self, thread: CommonThread)
        requires
            old(self).wf(),
            !old(self).has(thread.index),
            thread.state != ThreadState::Waiting,
            thread.ipc_data@.len() == crate::ipc::IPC_REQUEST_SIZE,
        ensures
            final(self).wf(),
            final(self)@ == old(self)@.push(thread),
    {
        self.threads.push(thread);
        proof {
            assert forall|i: int, j: int| 0 <= i < j < self@.len() implies (#[trigger] self@[i]).index != (#[trigger] self@[j]).index by {
                if j == self@.len() - 1 {
                    assert(old(self)@[i] == self@[i]);
                }
            }
        }
    }

    /// The position of the thread with index `tid`.
    pub fn find_pos(&self, tid: ThreadIndex) -> (r: usize)
        requires
            self.wf(),
            self.has(tid),
        ensures
            r == self.pos(tid),
    {
        let mut i: usize = 0;
        while i < self.threads.len()
            invariant
                i <= self@.len(),
                self.wf(),
                self.has(tid),
                forall|j: int| 0 <= j < i ==> (#[trigger] self@[j]).index != tid,
            decreases self@.len() - i,
        {
            if self.threads[i].index == tid {
                return i;
            }
            i = i + 1;
        }
        proof {
            let k = choose|k: int| 0 <= k < self@.len() && (#[trigger] self@[k]).index == tid;
            assert(self@[k].index != tid);
        }
        0
    }

    /// The first ready thread, if any.
    pub fn next_thread(&self) -> (r: Option<ThreadIndex>)
        ensures
            r is None <==> forall|i: int| 0 <= i < self@.len() ==> (#[trigger] self@[i]).state != ThreadState::Ready,
            r matches Some(tid) ==> self.first_ready(tid),
    {
        let mut i: usize = 0;
        while i < self.threads.len()
            invariant
                i <= self@.len(),
                forall|j: int| 0 <= j < i ==> (#[trigger] self@[j]).state != ThreadState::Ready,
            decreases self@.len() - i,
        {
            if self.threads[i].state == ThreadState::Ready {
                return Some(self.threads[i].index);
            }
            i = i + 1;
        }
        None
    }

    /// The thread with index `tid`.
    pub fn find_thread(&self, tid: ThreadIndex) -> (r: &CommonThread)
        requires
            self.wf(),
            self.has(tid),
        ensures
            *r == self.thread(tid),
    {
        let p = self.find_pos(tid);
        &self.threads[p]
    }

    /// The thread at a position.
    pub fn at(&self, p: usize) -> (r: &CommonThread)
        requires
            p < self@.len(),
        ensures
            *r == self@[p as int],
    {
        &self.threads[p]
    }

    /// Sets the scheduling state of the thread at position `p`.
    pub fn set_state(&mut self, p: usize, state: ThreadState)
        requires
            old(self).wf(),
            p < old(self)@.len(),
            state == ThreadState::Waiting ==> old(self)@[p as int].wait_type.is_some(),
        ensures
            old(self).same_threads(final(self)),
            final(self).wf(),
            old(self).same_except(final(self), p as int),
            final(self)@[p as int].state == state,
            final(self)@[p as int].index == old(self)@[p as int].index,
            final(self)@[p as int].pid == old(self)@[p as int].pid,
            final(self)@[p as int].wait_objects == old(self)@[p as int].wait_objects,
            final(self)@[p as int].wake_key == old(self)@[p as int].wake_key,
            final(self)@[p as int].wait_timeout == old(self)@[p as int].wait_timeout,
            final(self)@[p as int].wait_type == old(self)@[p as int].wait_type,
            final(self)@[p as int].resume == old(self)@[p as int].resume,
            final(self)@[p as int].kobj == old(self)@[p as int].kobj,
            final(self)@[p as int].ipc_data == old(self)@[p as int].ipc_data,
    {
        self.threads[p].state = state;
        proof {
            assert forall|i: int, j: int| 0 <= i < j < self@.len() implies (#[trigger] self@[i]).index != (#[trigger] self@[j]).index by {
                assert(self@[i].index == old(self)@[i].index);
                assert(self@[j].index == old(self)@[j].index);
            }
        }
    }

    /// Takes what the thread at position `p` is to be told when it resumes,
    /// leaving `Normal`.
    pub fn take_resume(&mut self, p: usize) -> (r: ThreadResume)
        requires
            old(self).wf(),
            p < old(self)@.len(),
        ensures
            old(self).same_threads(final(self)),
            final(self).wf(),
            r == old(self)@[p as int].resume,
            old(self).same_except(final(self), p as int),
            final(self)@[p as int].resume == ThreadResume::Normal,
            final(self)@[p as int].state == old(self)@[p as int].state,
            final(self)@[p as int].index == old(self)@[p as int].index,
            final(self)@[p as int].pid == old(self)@[p as int].pid,
            final(self)@[p as int].wait_objects == old(self)@[p as int].wait_objects,
            final(self)@[p as int].wake_key == old(self)@[p as int].wake_key,
            final(self)@[p as int].wait_timeout == old(self)@[p as int].wait_timeout,
            final(self)@[p as int].wait_type == old(self)@[p as int].wait_type,
            final(self)@[p as int].kobj == old(self)@[p as int].kobj,
            final(self)@[p as int].ipc_data == old(self)@[p as int].ipc_data,
    {
        let r = self.threads[p].resume;
        self.threads[p].resume = ThreadResume::Normal;
        proof {
            assert forall|i: int, j: int| 0 <= i < j < self@.len() implies (#[trigger] self@[i]).index != (#[trigger] self@[j]).index by {
                assert(self@[i].index == old(self)@[i].index);
                assert(self@[j].index == old(self)@[j].index);
            }
        }
        r
    }

    /// Replaces the IPC data area of the thread at position `p`.
    pub fn set_ipc_data(&mut self, p: usize, data: Vec<u8>)
        requires
            old(self).wf(),
            p < old(self)@.len(),
            data@.len() == crate::ipc::IPC_REQUEST_SIZE,
        ensures
            old(self).same_threads(final(self)),
            final(self).wf(),
            old(self).same_except(final(self), p as int),
            final(self)@[p as int].ipc_data@ == data@,
            final(self)@[p as int].state == old(self)@[p as int].state,
            final(self)@[p as int].index == old(self)@[p as int].index,
            final(self)@[p as int].pid == old(self)@[p as int].pid,
            final(self)@[p as int].wait_objects == old(self)@[p as int].wait_objects,
            final(self)@[p as int].wake_key == old(self)@[p as int].wake_key,
            final(self)@[p as int].wait_timeout == old(self)@[p as int].wait_timeout,
            final(self)@[p as int].wait_type == old(self)@[p as int].wait_type,
            final(self)@[p as int].resume == old(self)@[p as int].resume,
            final(self)@[p as int].kobj == old(self)@[p as int].kobj,
    {
        self.threads[p].ipc_data = data;
        proof {
            assert forall|i: int, j: int| 0 <= i < j < self@.len() implies (#[trigger] self@[i]).index != (#[trigger] self@[j]).index by {
                assert(self@[i].index == old(self)@[i].index);
                assert(self@[j].index == old(self)@[j].index);
            }
        }
    }

    /// Puts the running thread at position `p` to sleep on `objects`, with
    /// a deadline and a wait type, and returns its waker.
    pub fn suspend(
        &mut self,
        p: usize,
        objects: Vec<KObjectRef>,
        timeout: Option<u64>,
        wait_type: ThreadWaitType,
    ) -> (w: Waker)
        requires
            old(self).wf(),
            p < old(self)@.len(),
            old(self)@[p as int].state == ThreadState::Running,
        ensures
            old(self).same_threads(final(self)),
            final(self).wf(),
            old(self).same_except(final(self), p as int),
            w.thread == old(self)@[p as int].index,
            w.key == old(self)@[p as int].wake_key,
            final(self)@[p as int].state == ThreadState::Waiting,
            final(self)@[p as int].wait_objects@ == objects@,
            final(self)@[p as int].wait_timeout == timeout,
            final(self)@[p as int].wait_type == Some(wait_type),
            final(self)@[p as int].index == old(self)@[p as int].index,
            final(self)@[p as int].pid == old(self)@[p as int].pid,
            final(self)@[p as int].wake_key == old(self)@[p as int].wake_key,
            final(self)@[p as int].resume == old(self)@[p as int].resume,
            final(self)@[p as int].kobj == old(self)@[p as int].kobj,
            final(self)@[p as int].ipc_data == old(self)@[p as int].ipc_data,
    {
        self.threads[p].wait(objects);
        self.threads[p].wait_timeout = timeout;
        self.threads[p].wait_type = Some(wait_type);
        proof {
            assert forall|i: int, j: int| 0 <= i < j < self@.len() implies (#[trigger] self@[i]).index != (#[trigger] self@[j]).index by {
                assert(self@[i].index == old(self)@[i].index);
                assert(self@[j].index == old(self)@[j].index);
            }
        }
        Waker { thread: self.threads[p].index, key: self.threads[p].wake_key }
    }

    /// Wakes the thread at position `p` for `reason` and removes its
    /// wakers from every object it waited on.
    pub fn wake_at(&mut self, objs: &mut ObjectManager, p: usize, reason: ThreadWakeReason)
        requires
            old(self).wf(),
            p < old(self)@.len(),
            spec_refs_valid(old(self)@[p as int], old(objs)),
            spec_can_wake_up(old(self)@[p as int], reason),
        ensures
            old(self).same_threads(final(self)),
            final(self).wf(),
            old(self).same_except(final(self), p as int),
            spec_woken(old(self)@[p as int], final(self)@[p as int], reason),
            final(objs)@.len() == old(objs)@.len(),
            forall|j: int| 0 <= j < old(objs)@.len() ==> {
                &&& (#[trigger] final(objs)@[j]).data == old(objs)@[j].data
                &&& spec_mentions(old(self)@[p as int].wait_objects@, j) ==> final(objs)@[j].wakers@
                    == spec_without_thread(old(objs)@[j].wakers@, old(self)@[p as int].index.0 as u64)
                &&& !spec_mentions(old(self)@[p as int].wait_objects@, j) ==> final(objs)@[j] == old(objs)@[j]
            },
    {
        self.threads[p].wake_up(objs, reason);
        proof {
            assert forall|i: int, j: int| 0 <= i < j < self@.len() implies (#[trigger] self@[i]).index != (#[trigger] self@[j]).index by {
                assert(self@[i].index == old(self)@[i].index);
                assert(self@[j].index == old(self)@[j].index);
            }
        }
    }

    /// Delivers a waker for `object`: when `key` is the thread's current
    /// wake key the thread wakes and true is returned, otherwise nothing
    /// changes and false is returned.
    pub fn wake_up_thread(&mut self, objs: &mut ObjectManager, index: ThreadIndex, key: u64, object: KObjectRef) -> (r: bool)
        requires
            old(self).wf(),
            old(self).refs_valid(old(objs)),
            old(self).can_wake(Waker { thread: index, key }, object),
        ensures
            old(self).same_threads(final(self)),
            final(self).wf(),
            r == (old(self).thread(index).wake_key == key),
            !r ==> final(self)@ == old(self)@ && final(objs)@ == old(objs)@,
            r ==> old(self).same_except(final(self), old(self).pos(index)),
            r ==> spec_woken(old(self).thread(index), final(self)@[old(self).pos(index)], ThreadWakeReason::Object(object)),
            final(objs)@.len() == old(objs)@.len(),
            forall|j: int| 0 <= j < old(objs)@.len() ==> (#[trigger] final(objs)@[j]).data == old(objs)@[j].data,
            r ==> forall|j: int| 0 <= j < old(objs)@.len() ==> {
                &&& spec_mentions(old(self).thread(index).wait_objects@, j) ==> (#[trigger] final(objs)@[j]).wakers@
                    == spec_without_thread(old(objs)@[j].wakers@, index.0 as u64)
                &&& !spec_mentions(old(self).thread(index).wait_objects@, j) ==> final(objs)@[j] == old(objs)@[j]
            },
    {
        let p = self.find_pos(index);
        if self.threads[p].wake_key == key {
            self.wake_at(objs, p, ThreadWakeReason::Object(object));
            true
        } else {
            false
        }
    }
}

impl CommonThreadManager {
    /// Wakes every waiting thread whose deadline is at or before `time`.
    pub fn tick_at(&mut self, objs: &mut ObjectManager, time: u64)
        requires
            old(self).wf(),
            old(self).refs_valid(old(objs)),
        ensures
            old(self).same_threads(final(self)),
            final(self).wf(),
            final(self).refs_valid(final(objs)),
            final(self)@.len() == old(self)@.len(),
            final(objs)@.len() == old(objs)@.len(),
            forall|j: int| 0 <= j < old(objs)@.len() ==> (#[trigger] final(objs)@[j]).data == old(objs)@[j].data,
            crate::sync::queues_current(old(objs), old(self)) ==> crate::sync::queues_current(final(objs), final(self)),
            forall|i: int| 0 <= i < old(self)@.len() ==> {
                let t = #[trigger] old(self)@[i];
                if spec_due(t, time) {
                    spec_woken(t, final(self)@[i], ThreadWakeReason::Timeout)
                } else {
                    final(self)@[i] == t
                }
            },
    {
        let n = self.threads.len();
        let mut i: usize = 0;
        while i < n
            invariant
                n == self@.len(),
                n == old(self)@.len(),
                i <= n,
                self.wf(),
                self.refs_valid(objs),
                objs@.len() == old(objs)@.len(),
                forall|j: int| 0 <= j < old(objs)@.len() ==> (#[trigger] objs@[j]).data == old(objs)@[j].data,
                crate::sync::queues_current(old(objs), old(self)) ==> crate::sync::queues_current(objs, self),
                forall|k: int| i <= k < n ==> self@[k] == #[trigger] old(self)@[k],
                forall|k: int| 0 <= k < i ==> {
                    let t = #[trigger] old(self)@[k];
                    if spec_due(t, time) {
                        spec_woken(t, self@[k], ThreadWakeReason::Timeout)
                    } else {
                        self@[k] == t
                    }
                },
            decreases n - i,
        {
            let due = match (self.threads[i].state, self.threads[i].wait_timeout) {
                (ThreadState::Waiting, Some(timeout)) => timeout <= time,
                _ => false,
            };
            if due {
                let ghost before = self@;
                let ghost objs_before = objs@;
                assert(spec_refs_valid(self@[i as int], objs));
                let ghost ct_before = *self;
                let ghost objs_q = *objs;
                self.wake_at(objs, i, ThreadWakeReason::Timeout);
                proof {
                    if crate::sync::queues_current(old(objs), old(self)) {
                        crate::sync::lemma_wake_keeps_queues(&objs_q, &ct_before, objs, self, i as int);
                    }
                    assert forall|k: int| 0 <= k < self@.len() implies spec_refs_valid(#[trigger] self@[k], objs) by {
                        if k != i {
                            assert(self@[k] == before[k]);
                            assert(spec_refs_valid(before[k], objs));
                        }
                    }
                    assert forall|j: int| 0 <= j < old(objs)@.len() implies (#[trigger] objs@[j]).data == old(objs)@[j].data by {
                        assert(objs@[j].data == objs_before[j].data);
                    }
                    assert forall|k: int| i < k < n implies self@[k] == #[trigger] old(self)@[k] by {
                        assert(self@[k] == before[k]);
                    }
                    assert forall|k: int| 0 <= k < i implies self@[k] == #[trigger] before[k] by {}
                }
            }
            i = i + 1;
        }
    }
}

impl Waker {
    /// Delivers this waker for `object`: `Ok` when it woke its thread,
    /// `Err` when the thread had already been woken since it started to wait
    /// and has not run since. A waker whose thread has run again after its
    /// wake-up is stale and must not be delivered.
    pub fn wake(&self, object: KObjectRef, ct: &mut CommonThreadManager, objs: &mut ObjectManager) -> (r: Result<(), ()>)
        requires
            old(ct).wf(),
            old(ct).refs_valid(old(objs)),
            old(ct).can_wake(*self, object),
            old(ct).waker_live(*self),
        ensures
            r is Err ==> old(ct).thread(self.thread).state == ThreadState::Ready,
            old(ct).same_threads(final(ct)),
            final(ct).wf(),
            r is Ok == (old(ct).thread(self.thread).wake_key == self.key),
            r is Err ==> final(ct)@ == old(ct)@ && final(objs)@ == old(objs)@,
            r is Ok ==> old(ct).same_except(final(ct), old(ct).pos(self.thread)),
            r is Ok ==> spec_woken(old(ct).thread(self.thread), final(ct)@[old(ct).pos(self.thread)], ThreadWakeReason::Object(object)),
            final(objs)@.len() == old(objs)@.len(),
            forall|j: int| 0 <= j < old(objs)@.len() ==> (#[trigger] final(objs)@[j]).data == old(objs)@[j].data,
            r is Ok ==> forall|j: int| 0 <= j < old(objs)@.len() ==> {
                &&& spec_mentions(old(ct).thread(self.thread).wait_objects@, j) ==> (#[trigger] final(objs)@[j]).wakers@
                    == spec_without_thread(old(objs)@[j].wakers@, self.thread.0 as u64)
                &&& !spec_mentions(old(ct).thread(self.thread).wait_objects@, j) ==> final(objs)@[j] == old(objs)@[j]
            },
    {
        if ct.wake_up_thread(objs, self.thread, self.key, object) {
            Ok(())
        } else {
            Err(())
        }
    }
}

/// A waker made for a wait wakes its thread at most once: after it has been
/// delivered, delivering it again changes nothing.
pub proof fn law_waker_wakes_once(old_t: CommonThread, new_t: CommonThread, reason: ThreadWakeReason)
    requires
        spec_woken(old_t, new_t, reason),
    ensures
        new_t.wake_key != old_t.wake_key,
        new_t.state == ThreadState::Ready,
        new_t.wait_objects@.len() == 0,
{
}

} // verus!
