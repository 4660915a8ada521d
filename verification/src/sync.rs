//! Synchronisation objects and the invariant that keeps their waker queues
//! current: every waker queued on an object belongs to a thread that is
//! waiting on that object with the waker's key, so delivering it never
//! fails.

use vstd::prelude::*;
use crate::object::{
    spec_event, spec_thread_obj, spec_timer, spec_kind, spec_mentions, spec_waker_of, spec_without_thread, KObjectData, KObjectRef, ObjectManager,
    ObjectType, QueuedWaker, Waker,
};
use crate::thread::{spec_woken, CommonThread, CommonThreadManager, ThreadWakeReason};
use crate::types::{ResetType, ThreadIndex, ThreadState, ThreadWaitType};

verus! {

/// A queued waker for the object with index `j` is current: its thread
/// waits on that object with the waker's key.
pub open spec fn waker_ok(ct: &CommonThreadManager, w: Waker, j: int) -> bool {
    &&& ct.has(w.thread)
    &&& ct.thread(w.thread).wake_key == w.key
    &&& ct.thread(w.thread).state == ThreadState::Waiting
    &&& spec_mentions(ct.thread(w.thread).wait_objects@, j)
    &&& ct.thread(w.thread).wait_type != Some(ThreadWaitType::Sleep)
}

/// Every waker in every object's queue is current.
pub open spec fn queues_current(objs: &ObjectManager, ct: &CommonThreadManager) -> bool {
    forall|j: int, i: int|
        0 <= j < objs@.len() && 0 <= i < objs@[j].wakers@.len() ==> waker_ok(ct, (#[trigger] objs@[j].wakers@[i]).waker, j)
}

/// The invariant of the kernel's objects and threads.
pub open spec fn inv(objs: &ObjectManager, ct: &CommonThreadManager) -> bool {
    &&& ct.wf()
    &&& ct.refs_valid(objs)
    &&& queues_current(objs, ct)
}

/// Whether waiting on an object ends at once.
pub open spec fn spec_ready(d: KObjectData) -> bool {
    match d {
        KObjectData::Event(e) => e.signal.signaled,
        KObjectData::Timer(t) => t.signal.signaled,
        KObjectData::Mutex(m) => !m.acquired,
        KObjectData::Thread(t) => t.dead,
        _ => false,
    }
}

/// Changing one thread leaves every other thread as it was.
pub proof fn lemma_thread_frame(ct0: &CommonThreadManager, ct1: &CommonThreadManager, p: int, u: ThreadIndex)
    requires
        ct0.wf(),
        ct1.wf(),
        0 <= p < ct0@.len(),
        ct0.same_except(ct1, p),
        ct1@[p].index == ct0@[p].index,
        ct0.has(u),
        u != ct0@[p].index,
    ensures
        ct1.has(u),
        ct1.thread(u) == ct0.thread(u),
        ct1.pos(u) == ct0.pos(u),
{
    let k = ct0.pos(u);
    assert(ct1@[k] == ct0@[k]);
    assert(ct1@[k].index == u);
}

/// The same threads exist after one of them changes in place.
pub proof fn lemma_has_frame(ct0: &CommonThreadManager, ct1: &CommonThreadManager, p: int, u: ThreadIndex)
    requires
        ct0.wf(),
        ct1.wf(),
        0 <= p < ct0@.len(),
        ct0.same_except(ct1, p),
        ct1@[p].index == ct0@[p].index,
    ensures
        ct1.has(u) == ct0.has(u),
{
    if ct0.has(u) {
        let k = ct0.pos(u);
        if k == p {
            assert(ct1@[p].index == u);
        } else {
            assert(ct1@[k] == ct0@[k]);
        }
    }
    if ct1.has(u) {
        let k = ct1.pos(u);
        if k == p {
            assert(ct0@[p].index == u);
        } else {
            assert(ct1@[k] == ct0@[k]);
        }
    }
}

/// The thread at position `p` is the thread with its own index.
pub proof fn lemma_thread_at(ct: &CommonThreadManager, p: int)
    requires
        ct.wf(),
        0 <= p < ct@.len(),
    ensures
        ct.has(ct@[p].index),
        ct.pos(ct@[p].index) == p,
        ct.thread(ct@[p].index) == ct@[p],
{
    assert(ct@[p].index == ct@[p].index);
}

/// Waking a thread and removing its wakers from the objects it waited on
/// keeps every queue current.
pub proof fn lemma_wake_keeps_queues(
    objs0: &ObjectManager,
    ct0: &CommonThreadManager,
    objs1: &ObjectManager,
    ct1: &CommonThreadManager,
    p: int,
)
    requires
        inv(objs0, ct0),
        ct1.wf(),
        0 <= p < ct0@.len(),
        ct0.same_except(ct1, p),
        ct1@[p].index == ct0@[p].index,
        ct1@[p].wait_objects@.len() == 0,
        ct1@[p].kobj == ct0@[p].kobj,
        objs1@.len() == objs0@.len(),
        forall|j: int| 0 <= j < objs0@.len() ==> {
            &&& spec_mentions(ct0@[p].wait_objects@, j) ==> (#[trigger] objs1@[j]).wakers@
                == spec_without_thread(objs0@[j].wakers@, ct0@[p].index.0 as u64)
            &&& !spec_mentions(ct0@[p].wait_objects@, j) ==> objs1@[j] == objs0@[j]
        },
    ensures
        queues_current(objs1, ct1),
        ct1.refs_valid(objs1),
{
    let t = ct0@[p].index;
    lemma_thread_at(ct0, p);
    assert forall|j: int, i: int| 0 <= j < objs1@.len() && 0 <= i < objs1@[j].wakers@.len() implies waker_ok(
        ct1,
        (#[trigger] objs1@[j].wakers@[i]).waker,
        j,
    ) by {
        let w = objs1@[j].wakers@[i].waker;
        let q0 = objs0@[j].wakers@;
        if spec_mentions(ct0@[p].wait_objects@, j) {
            let pred = |x: QueuedWaker| !spec_waker_of(x.waker, t.0 as u64);
            assert(objs1@[j].wakers@ == q0.filter(pred));
            q0.lemma_filter_pred(pred, i);
            assert(pred(objs1@[j].wakers@[i]));
            assert(q0.filter(pred).contains(objs1@[j].wakers@[i]));
            q0.lemma_filter_contains_rev(pred, objs1@[j].wakers@[i]);
            assert(q0.contains(objs1@[j].wakers@[i]));
            let i0 = choose|i0: int| 0 <= i0 < q0.len() && q0[i0] == objs1@[j].wakers@[i];
            assert(waker_ok(ct0, q0[i0].waker, j));
            assert(w.thread != t);
            lemma_thread_frame(ct0, ct1, p, w.thread);
        } else {
            assert(objs1@[j] == objs0@[j]);
            assert(waker_ok(ct0, q0[i].waker, j));
            assert(w.thread != t);
            lemma_thread_frame(ct0, ct1, p, w.thread);
        }
    }
    assert forall|k: int| 0 <= k < ct1@.len() implies crate::thread::spec_refs_valid(#[trigger] ct1@[k], objs1) by {
        assert(crate::thread::spec_refs_valid(ct0@[k], objs0));
        if k != p {
            assert(ct1@[k] == ct0@[k]);
        } else {
            assert(ct1@[k].kobj == ct0@[k].kobj);
        }
    }
}

impl ObjectManager {
    /// Delivers a current waker of object `o`: its thread wakes.
    pub fn wake_current(&mut self, ct: &mut CommonThreadManager, w: Waker, o: KObjectRef)
        requires
            inv(old(self), old(ct)),
            old(self).valid(o),
            waker_ok(old(ct), w, o.0 as int),
        ensures
            old(ct).same_threads(final(ct)),
            inv(final(self), final(ct)),
            old(ct).same_except(final(ct), old(ct).pos(w.thread)),
            spec_woken(old(ct).thread(w.thread), final(ct)@[old(ct).pos(w.thread)], ThreadWakeReason::Object(o)),
            final(self)@.len() == old(self)@.len(),
            forall|j: int| 0 <= j < old(self)@.len() ==> (#[trigger] final(self)@[j]).data == old(self)@[j].data,
            forall|j: int| 0 <= j < old(self)@.len() ==> (#[trigger] final(self)@[j]).wakers@.len() <= old(self)@[j].wakers@.len(),
            forall|j: int| 0 <= j < old(self)@.len() ==> {
                &&& spec_mentions(old(ct).thread(w.thread).wait_objects@, j) ==> (#[trigger] final(self)@[j]).wakers@
                    == spec_without_thread(old(self)@[j].wakers@, w.thread.0 as u64)
                &&& !spec_mentions(old(ct).thread(w.thread).wait_objects@, j) ==> final(self)@[j] == old(self)@[j]
            },
    {
        let ghost ct0 = *ct;
        let ghost objs0 = *self;
        let ghost p = ct.pos(w.thread);
        proof {
            ct.lemma_pos(w.thread);
            let k = choose|k: int| 0 <= k < ct0.thread(w.thread).wait_objects@.len() && (#[trigger] ct0.thread(w.thread).wait_objects@[k]).0 == o.0;
            assert(ct0.thread(w.thread).wait_objects@[k] == o);
        }
        let r = w.wake(o, ct, self);
        assert(r is Ok);
        proof {
            lemma_wake_keeps_queues(&objs0, &ct0, self, ct, p);
            assert forall|j: int| 0 <= j < objs0@.len() implies (#[trigger] self@[j]).wakers@.len() <= objs0@[j].wakers@.len() by {
                if spec_mentions(ct0.thread(w.thread).wait_objects@, j) {
                    objs0@[j].wakers@.lemma_filter_len(|x: QueuedWaker| !spec_waker_of(x.waker, w.thread.0 as u64));
                }
            }
        }
    }

    /// A thread waits on a synchronisation object with a waker made for
    /// that wait. An object that is ready (a set signal, a free mutex, an
    /// ended thread) wakes the thread at once and is consumed; otherwise
    /// the waker joins the object's queue. A waker whose thread has
    /// already woken only finds out that the object is ready, and the
    /// object stays as it was.
    pub fn sync_wait(&mut self, ct: &mut CommonThreadManager, this: KObjectRef, w: Waker)
        requires
            inv(old(self), old(ct)),
            old(self).has_type(this, ObjectType::KSynchronizationObject),
            old(ct).has(w.thread),
            old(ct).thread(w.thread).wake_key == w.key ==> waker_ok(old(ct), w, this.0 as int),
            old(ct).thread(w.thread).wake_key != w.key ==> spec_ready(old(self).obj(this).data),
        ensures
            old(ct).same_threads(final(ct)),
            inv(final(self), final(ct)),
            final(self)@.len() == old(self)@.len(),
            !spec_ready(old(self).obj(this).data) ==> {
                &&& final(ct)@ == old(ct)@
                &&& old(self).same_except(final(self), this)
                &&& final(self).obj(this).data == old(self).obj(this).data
                &&& final(self).obj(this).wakers@ == old(self).obj(this).wakers@.push(QueuedWaker { waker: w, addr: 0 })
            },
            spec_ready(old(self).obj(this).data) && old(ct).thread(w.thread).wake_key == w.key ==> {
                &&& spec_woken(old(ct).thread(w.thread), final(ct)@[old(ct).pos(w.thread)], ThreadWakeReason::Object(this))
                &&& old(ct).same_except(final(ct), old(ct).pos(w.thread))
                &&& spec_after_wait(old(self).obj(this).data, final(self).obj(this).data)
            },
            spec_ready(old(self).obj(this).data) && old(ct).thread(w.thread).wake_key != w.key ==> {
                &&& final(ct)@ == old(ct)@
                &&& final(self)@ == old(self)@
            },
            forall|j: int| 0 <= j < old(self)@.len() && j != this.0 ==> (#[trigger] final(self)@[j]).data == old(self)@[j].data,
    {
        let ghost ct0 = *ct;
        let ghost objs0 = *self;
        proof {
            ct.lemma_pos(w.thread);
        }
        let p = ct.find_pos(w.thread);
        let current = ct.at(p).wake_key == w.key;
        let kind = self.kind_of(this);
        match kind {
            ObjectType::EventImpl | ObjectType::TimerImpl | ObjectType::MutexImpl | ObjectType::ThreadImpl => {
                let ready = match &self.get(this).data {
                    KObjectData::Event(e) => e.signal.signaled,
                    KObjectData::Timer(t) => t.signal.signaled,
                    KObjectData::Mutex(m) => !m.acquired,
                    KObjectData::Thread(t) => t.dead,
                    _ => false,
                };
                if ready {
                    if current {
                        let new_data = match &self.get(this).data {
                            KObjectData::Event(e) => {
                                let mut e2 = *e;
                                e2.signal.consume();
                                KObjectData::Event(e2)
                            },
                            KObjectData::Timer(t) => {
                                let mut t2 = *t;
                                t2.signal.consume();
                                KObjectData::Timer(t2)
                            },
                            KObjectData::Mutex(m) => KObjectData::Mutex(crate::object::MutexImpl { acquired: true }),
                            KObjectData::Thread(t) => KObjectData::Thread(*t),
                            _ => KObjectData::Mutex(crate::object::MutexImpl { acquired: true }),
                        };
                        let ghost d = new_data;
                        self.set_data(this, new_data);
                        let ghost objs1 = *self;
                        proof {
                            assert forall|j: int, i: int| 0 <= j < self@.len() && 0 <= i < self@[j].wakers@.len() implies waker_ok(
                                ct,
                                (#[trigger] self@[j].wakers@[i]).waker,
                                j,
                            ) by {
                                if j != this.0 {
                                    assert(self@[j] == objs0@[j]);
                                }
                                assert(self@[j].wakers == objs0@[j].wakers);
                                assert(waker_ok(ct, objs0@[j].wakers@[i].waker, j));
                            }
                        }
                        self.wake_current(ct, w, this);
                        proof {
                            assert(self.obj(this).data == d);
                            assert forall|j: int| 0 <= j < old(self)@.len() && j != this.0 implies (#[trigger] self@[j]).data
                                == old(self)@[j].data by {
                                assert(objs1@[j] == objs0@[j]);
                            }
                        }
                    }
                } else {
                    self.push_waker(this, QueuedWaker { waker: w, addr: 0 });
                    proof {
                        lemma_push_keeps_queues(&objs0, ct, self, this, QueuedWaker { waker: w, addr: 0 });
                    }
                }
            },
            _ => {
                self.push_waker(this, QueuedWaker { waker: w, addr: 0 });
                proof {
                    lemma_push_keeps_queues(&objs0, ct, self, this, QueuedWaker { waker: w, addr: 0 });
                }
            },
        }
    }
}

/// What waiting consumes of a ready object: a non-sticky signal is taken,
/// a free mutex is acquired, an ended thread stays ended.
pub open spec fn spec_after_wait(old: KObjectData, new: KObjectData) -> bool {
    match old {
        KObjectData::Event(e) => new == KObjectData::Event(crate::object::EventImpl { signal: e.signal.spec_after_consume() }),
        KObjectData::Timer(t) => new == KObjectData::Timer(crate::object::TimerImpl { signal: t.signal.spec_after_consume(), data: t.data }),
        KObjectData::Mutex(_) => new == KObjectData::Mutex(crate::object::MutexImpl { acquired: true }),
        KObjectData::Thread(t) => new == KObjectData::Thread(t),
        _ => true,
    }
}

/// An ended thread stays ready for every later wait: a wait on it ends at
/// once and leaves it ended, so each wait after it ends does the same.
pub proof fn law_ended_thread_stays_ready(d0: KObjectData, d1: KObjectData)
    requires
        d0 matches KObjectData::Thread(t) && t.dead,
        spec_after_wait(d0, d1),
    ensures
        spec_ready(d0),
        d1 == d0,
        spec_ready(d1),
{
}

/// A free mutex is ready; a wait on it takes it, after which it is not
/// ready until it is released.
pub proof fn law_mutex_wait_takes_it(d0: KObjectData, d1: KObjectData)
    requires
        d0 is Mutex,
        spec_after_wait(d0, d1),
    ensures
        spec_ready(d0) <==> (d0 matches KObjectData::Mutex(m) && !m.acquired),
        d1 == KObjectData::Mutex(crate::object::MutexImpl { acquired: true }),
        !spec_ready(d1),
{
}

/// The mutex protocol over its states: a wait takes a free mutex; a
/// release with no thread waiting frees it, so that the next wait takes it
/// again at once; a release with a thread waiting keeps it taken, for the
/// oldest waiter that `mutex_release` wakes.
pub proof fn law_mutex_protocol(d0: KObjectData, d1: KObjectData, d2: KObjectData, waiting: bool)
    requires
        d0 is Mutex,
        spec_ready(d0),
        spec_after_wait(d0, d1),
        !waiting ==> d2 == KObjectData::Mutex(crate::object::MutexImpl { acquired: false }),
        waiting ==> d2 == d1,
    ensures
        !spec_ready(d1),
        !waiting ==> spec_ready(d2) && forall|d3: KObjectData| #[trigger] spec_after_wait(d2, d3) ==> d3 == d1,
        waiting ==> !spec_ready(d2),
{
}

/// Appending a current waker to a queue keeps every queue current.
pub proof fn lemma_push_keeps_queues(
    objs0: &ObjectManager,
    ct: &CommonThreadManager,
    objs1: &ObjectManager,
    this: KObjectRef,
    qw: QueuedWaker,
)
    requires
        inv(objs0, ct),
        objs0.valid(this),
        waker_ok(ct, qw.waker, this.0 as int),
        objs0.same_except(objs1, this),
        objs1.obj(this).wakers@ == objs0.obj(this).wakers@.push(qw),
    ensures
        inv(objs1, ct),
{
    assert forall|j: int, i: int| 0 <= j < objs1@.len() && 0 <= i < objs1@[j].wakers@.len() implies waker_ok(
        ct,
        (#[trigger] objs1@[j].wakers@[i]).waker,
        j,
    ) by {
        if j != this.0 {
            assert(objs1@[j] == objs0@[j]);
            assert(waker_ok(ct, objs0@[j].wakers@[i].waker, j));
        } else if i < objs0@[j].wakers@.len() {
            assert(objs1@[j].wakers@[i] == objs0@[j].wakers@[i]);
            assert(waker_ok(ct, objs0@[j].wakers@[i].waker, j));
        }
    }
    assert forall|k: int| 0 <= k < ct@.len() implies crate::thread::spec_refs_valid(#[trigger] ct@[k], objs1) by {
        assert(crate::thread::spec_refs_valid(ct@[k], objs0));
    }
}

/// `t1` is `t0` after one wake-up.
pub open spec fn spec_woken_from(t0: CommonThread, t1: CommonThread) -> bool {
    &&& t1.state == ThreadState::Ready
    &&& t1.wake_key == crate::thread::spec_next_key(t0.wake_key)
    &&& t1.index == t0.index
    &&& t1.pid == t0.pid
    &&& t1.wait_objects@.len() == 0
}

/// Thread `t1` is thread `t0` woken because `o`, which it waited on, was
/// signalled.
pub open spec fn spec_woken_by(t0: CommonThread, t1: CommonThread, o: KObjectRef) -> bool {
    &&& spec_woken_from(t0, t1)
    &&& t0.state == ThreadState::Waiting
    &&& spec_mentions(t0.wait_objects@, o.0 as int)
}

/// Thread `t1` is `t0` woken by one of the timers of `objs` that are due
/// at `time`.
pub open spec fn spec_woken_by_timer(objs: ObjectManager, time: u64, t0: CommonThread, t1: CommonThread) -> bool {
    exists|j: int| 0 <= j < objs@.len() && (#[trigger] objs@[j]).data is Timer && spec_timer_due(spec_timer(objs@[j].data), time)
        && spec_woken_by(t0, t1, KObjectRef(j as usize))
}

/// Whether a queue holds a waker of thread `tid`.
pub open spec fn spec_queued(q: Seq<QueuedWaker>, tid: ThreadIndex) -> bool {
    exists|k: int| 0 <= k < q.len() && (#[trigger] q[k]).waker.thread == tid
}

impl ObjectManager {
    /// Delivers every waker of a list taken from object `o`, each of them
    /// current when the list was taken. Every listed thread wakes once.
    pub fn wake_all(&mut self, ct: &mut CommonThreadManager, o: KObjectRef, list: &Vec<QueuedWaker>)
        requires
            inv(old(self), old(ct)),
            old(self).valid(o),
            forall|k: int| 0 <= k < list@.len() ==> waker_ok(old(ct), (#[trigger] list@[k]).waker, o.0 as int),
        ensures
            old(ct).same_threads(final(ct)),
            inv(final(self), final(ct)),
            final(self)@.len() == old(self)@.len(),
            forall|j: int| 0 <= j < old(self)@.len() ==> (#[trigger] final(self)@[j]).data == old(self)@[j].data,
            final(ct)@.len() == old(ct)@.len(),
            forall|tid: ThreadIndex| #[trigger] final(ct).has(tid) == old(ct).has(tid),
            forall|tid: ThreadIndex| old(ct).has(tid) && spec_queued(list@, tid) ==> spec_woken_from(
                old(ct).thread(tid),
                #[trigger] final(ct).thread(tid),
            ),
            forall|tid: ThreadIndex| old(ct).has(tid) && !spec_queued(list@, tid) ==> #[trigger] final(ct).thread(tid)
                == old(ct).thread(tid),
            list@.len() == 0 ==> final(ct)@ == old(ct)@ && final(self)@ == old(self)@,
            forall|j: int| 0 <= j < old(self)@.len() ==> (#[trigger] final(self)@[j]).wakers@.len() <= old(self)@[j].wakers@.len(),
            final(self).obj(o).wakers@ == old(self).obj(o).wakers@.filter(|x: QueuedWaker| !spec_queued(list@, x.waker.thread)),
    {
        let ghost ct0 = *ct;
        let ghost objs0 = *self;
        proof {
            let none = |x: QueuedWaker| !spec_queued(list@.subrange(0, 0), x.waker.thread);
            assert forall|x: QueuedWaker| #[trigger] none(x) by {}
            lemma_filter_all(objs0.obj(o).wakers@, none);
        }
        let mut i: usize = 0;
        while i < list.len()
            invariant
                i <= list@.len(),
                inv(self, ct),
                self.valid(o),
                self@.len() == objs0@.len(),
                forall|j: int| 0 <= j < objs0@.len() ==> (#[trigger] self@[j]).data == objs0@[j].data,
                ct@.len() == ct0@.len(),
                ct0.wf(),
                ct0.same_threads(ct),
                i == 0 ==> ct@ == ct0@ && self@ == objs0@,
                forall|j: int| 0 <= j < objs0@.len() ==> (#[trigger] self@[j]).wakers@.len() <= objs0@[j].wakers@.len(),
                forall|k: int| 0 <= k < list@.len() ==> waker_ok(&ct0, (#[trigger] list@[k]).waker, o.0 as int),
                forall|tid: ThreadIndex| #[trigger] ct.has(tid) == ct0.has(tid),
                forall|tid: ThreadIndex| ct0.has(tid) && spec_queued(list@.subrange(0, i as int), tid) ==> spec_woken_from(
                    ct0.thread(tid),
                    #[trigger] ct.thread(tid),
                ),
                forall|tid: ThreadIndex| ct0.has(tid) && !spec_queued(list@.subrange(0, i as int), tid) ==> #[trigger] ct.thread(tid)
                    == ct0.thread(tid),
                self.obj(o).wakers@ == objs0.obj(o).wakers@.filter(
                    |x: QueuedWaker| !spec_queued(list@.subrange(0, i as int), x.waker.thread),
                ),
            decreases list@.len() - i,
        {
            let w = list[i].waker;
            let ghost ct1 = *ct;
            let ghost objs1 = *self;
            let ghost s0 = list@.subrange(0, i as int);
            let ghost s1 = list@.subrange(0, i + 1);
            proof {
                assert(s1 =~= s0.push(list@[i as int]));
                assert(waker_ok(&ct0, w, o.0 as int));
                assert(ct.has(w.thread));
                ct.lemma_pos(w.thread);
                assert forall|tid: ThreadIndex| spec_queued(s1, tid) <==> (spec_queued(s0, tid) || tid == w.thread) by {
                    if spec_queued(s1, tid) {
                        let k = choose|k: int| 0 <= k < s1.len() && (#[trigger] s1[k]).waker.thread == tid;
                        if k < s0.len() {
                            assert(s0[k] == s1[k]);
                        }
                    }
                    if spec_queued(s0, tid) {
                        let k = choose|k: int| 0 <= k < s0.len() && (#[trigger] s0[k]).waker.thread == tid;
                        assert(s1[k] == s0[k]);
                    }
                    if tid == w.thread {
                        assert(s1[i as int].waker.thread == tid);
                    }
                }
            }
            let p = ct.find_pos(w.thread);
            if ct.at(p).wake_key == w.key {
                proof {
                    assert(!spec_queued(s0, w.thread)) by {
                        if spec_queued(s0, w.thread) {
                            assert(ct.thread(w.thread).wake_key == crate::thread::spec_next_key(ct0.thread(w.thread).wake_key));
                        }
                    }
                    assert(ct.thread(w.thread) == ct0.thread(w.thread));
                }
                self.wake_current(ct, w, o);
                proof {
                    let p0 = |x: QueuedWaker| !spec_queued(s0, x.waker.thread);
                    let q0 = |x: QueuedWaker| !spec_waker_of(x.waker, w.thread.0 as u64);
                    let p1 = |x: QueuedWaker| !spec_queued(s1, x.waker.thread);
                    assert(spec_mentions(ct1.thread(w.thread).wait_objects@, o.0 as int));
                    assert forall|x: QueuedWaker| #[trigger] p1(x) == (p0(x) && q0(x)) by {
                        assert(spec_queued(s1, x.waker.thread) <==> (spec_queued(s0, x.waker.thread) || x.waker.thread == w.thread));
                    }
                    lemma_filter_twice(objs0.obj(o).wakers@, p0, q0, p1);
                    lemma_thread_at(&ct1, p as int);
                    assert forall|tid: ThreadIndex| #[trigger] ct.has(tid) == ct0.has(tid) by {
                        lemma_has_frame(&ct1, ct, p as int, tid);
                    }
                    assert forall|tid: ThreadIndex| ct0.has(tid) && tid != w.thread implies #[trigger] ct.thread(tid) == ct1.thread(tid) by {
                        lemma_thread_frame(&ct1, ct, p as int, tid);
                    }
                    assert forall|j: int| 0 <= j < objs0@.len() implies (#[trigger] self@[j]).data == objs0@[j].data by {
                        assert(self@[j].data == objs1@[j].data);
                    }
                    assert forall|j: int| 0 <= j < objs0@.len() implies (#[trigger] self@[j]).wakers@.len() <= objs0@[j].wakers@.len() by {
                        assert(self@[j].wakers@.len() <= objs1@[j].wakers@.len());
                    }
                }
            } else {
                proof {
                    assert(spec_queued(s0, w.thread)) by {
                        if !spec_queued(s0, w.thread) {
                            assert(ct.thread(w.thread) == ct0.thread(w.thread));
                        }
                    }
                    let p0 = |x: QueuedWaker| !spec_queued(s0, x.waker.thread);
                    let p1 = |x: QueuedWaker| !spec_queued(s1, x.waker.thread);
                    assert forall|x: QueuedWaker| #[trigger] p1(x) == p0(x) by {
                        assert(spec_queued(s1, x.waker.thread) <==> (spec_queued(s0, x.waker.thread) || x.waker.thread == w.thread));
                    }
                    assert(p1 =~= p0);
                }
            }
            i = i + 1;
        }
        proof {
            assert(list@.subrange(0, list@.len() as int) =~= list@);
        }
    }
}

/// Changing only an object's state keeps every queue current.
pub proof fn lemma_data_keeps_queues(objs0: &ObjectManager, ct: &CommonThreadManager, objs1: &ObjectManager, this: KObjectRef)
    requires
        inv(objs0, ct),
        objs0.valid(this),
        objs0.same_except(objs1, this),
        objs1.obj(this).wakers == objs0.obj(this).wakers,
    ensures
        inv(objs1, ct),
{
    assert forall|j: int, i: int| 0 <= j < objs1@.len() && 0 <= i < objs1@[j].wakers@.len() implies waker_ok(
        ct,
        (#[trigger] objs1@[j].wakers@[i]).waker,
        j,
    ) by {
        if j != this.0 {
            assert(objs1@[j] == objs0@[j]);
        }
        assert(waker_ok(ct, objs0@[j].wakers@[i].waker, j));
    }
    assert forall|k: int| 0 <= k < ct@.len() implies crate::thread::spec_refs_valid(#[trigger] ct@[k], objs1) by {
        assert(crate::thread::spec_refs_valid(ct@[k], objs0));
    }
}

/// Taking a prefix off one queue keeps every queue current.
pub proof fn lemma_drop_keeps_queues(
    objs0: &ObjectManager,
    ct: &CommonThreadManager,
    objs1: &ObjectManager,
    this: KObjectRef,
    n: int,
)
    requires
        inv(objs0, ct),
        objs0.valid(this),
        0 <= n <= objs0.obj(this).wakers@.len(),
        objs0.same_except(objs1, this),
        objs1.obj(this).wakers@ == objs0.obj(this).wakers@.subrange(n, objs0.obj(this).wakers@.len() as int),
    ensures
        inv(objs1, ct),
{
    assert forall|j: int, i: int| 0 <= j < objs1@.len() && 0 <= i < objs1@[j].wakers@.len() implies waker_ok(
        ct,
        (#[trigger] objs1@[j].wakers@[i]).waker,
        j,
    ) by {
        if j != this.0 {
            assert(objs1@[j] == objs0@[j]);
            assert(waker_ok(ct, objs0@[j].wakers@[i].waker, j));
        } else {
            assert(objs1@[j].wakers@[i] == objs0@[j].wakers@[i + n]);
            assert(waker_ok(ct, objs0@[j].wakers@[i + n].waker, j));
        }
    }
    assert forall|k: int| 0 <= k < ct@.len() implies crate::thread::spec_refs_valid(#[trigger] ct@[k], objs1) by {
        assert(crate::thread::spec_refs_valid(ct@[k], objs0));
    }
}

/// Every object of `objs0` other than `this` is as it was in `objs1`, but
/// that those the oldest waiter of `this`, if any, waited on have dropped
/// its wakers once it woke.
pub open spec fn spec_others_after_wake(objs0: &ObjectManager, ct0: &CommonThreadManager, objs1: &ObjectManager, this: KObjectRef) -> bool {
    let q = objs0.obj(this).wakers@;
    forall|j: int| 0 <= j < objs0@.len() && j != this.0 ==> if q.len() > 0 && spec_mentions(
        ct0.thread(q[0].waker.thread).wait_objects@,
        j,
    ) {
        (#[trigger] objs1@[j]).wakers@ == spec_without_thread(objs0@[j].wakers@, q[0].waker.thread.0 as u64)
            && objs1@[j].data == objs0@[j].data
    } else {
        objs1@[j] == objs0@[j]
    }
}

/// What signalling object `this` does to its waiters (`objs0`, `ct0`
/// before; `objs1`, `ct1` after). A sticky signal wakes every queued
/// thread and empties the queue; any other wakes the oldest waiter, which
/// leaves the queue with all its wakers while the rest stay in order. No
/// other thread changes.
pub open spec fn spec_waiters_signalled(
    objs0: &ObjectManager,
    ct0: &CommonThreadManager,
    objs1: &ObjectManager,
    ct1: &CommonThreadManager,
    this: KObjectRef,
    sticky: bool,
) -> bool {
    let q = objs0.obj(this).wakers@;
    &&& sticky ==> objs1.obj(this).wakers@.len() == 0
    &&& sticky ==> forall|tid: ThreadIndex| ct0.has(tid) && spec_queued(q, tid) ==> spec_woken_from(
        ct0.thread(tid),
        #[trigger] ct1.thread(tid),
    )
    &&& sticky ==> forall|tid: ThreadIndex| ct0.has(tid) && !spec_queued(q, tid) ==> #[trigger] ct1.thread(tid) == ct0.thread(tid)
    &&& !sticky && q.len() > 0 ==> {
        &&& spec_woken(ct0.thread(q[0].waker.thread), ct1@[ct0.pos(q[0].waker.thread)], ThreadWakeReason::Object(this))
        &&& ct0.same_except(ct1, ct0.pos(q[0].waker.thread))
        &&& objs1.obj(this).wakers@ == spec_without_thread(q.subrange(1, q.len() as int), q[0].waker.thread.0 as u64)
    }
    &&& q.len() == 0 ==> ct1@ == ct0@ && objs1.obj(this).wakers@.len() == 0
}

impl ObjectManager {
    /// Wakes the threads waiting on a signalled object: every one of them
    /// for a sticky signal, else the oldest. Returns whether a thread that
    /// consumes the signal woke.
    pub fn signal_waiters(&mut self, ct: &mut CommonThreadManager, this: KObjectRef, sticky: bool) -> (woke: bool)
        requires
            inv(old(self), old(ct)),
            old(self).valid(this),
        ensures
            old(ct).same_threads(final(ct)),
            inv(final(self), final(ct)),
            final(self)@.len() == old(self)@.len(),
            forall|j: int| 0 <= j < old(self)@.len() ==> (#[trigger] final(self)@[j]).data == old(self)@[j].data,
            woke == (!sticky && old(self).obj(this).wakers@.len() > 0),
            sticky ==> final(self).obj(this).wakers@.len() == 0,
            sticky ==> forall|tid: ThreadIndex| old(ct).has(tid) && spec_queued(old(self).obj(this).wakers@, tid)
                ==> spec_woken_from(old(ct).thread(tid), #[trigger] final(ct).thread(tid)),
            sticky ==> forall|tid: ThreadIndex| old(ct).has(tid) && !spec_queued(old(self).obj(this).wakers@, tid)
                ==> #[trigger] final(ct).thread(tid) == old(ct).thread(tid),
            woke ==> spec_woken(
                old(ct).thread(old(self).obj(this).wakers@[0].waker.thread),
                final(ct)@[old(ct).pos(old(self).obj(this).wakers@[0].waker.thread)],
                ThreadWakeReason::Object(this),
            ),
            woke ==> old(ct).same_except(final(ct), old(ct).pos(old(self).obj(this).wakers@[0].waker.thread)),
            woke ==> final(self).obj(this).wakers@ == spec_without_thread(
                old(self).obj(this).wakers@.subrange(1, old(self).obj(this).wakers@.len() as int),
                old(self).obj(this).wakers@[0].waker.thread.0 as u64,
            ),
            !sticky && !woke ==> final(ct)@ == old(ct)@ && final(self)@ == old(self)@,
            old(self).obj(this).wakers@.len() == 0 ==> final(ct)@ == old(ct)@,
            old(ct).keeps_unblocked(final(ct)),
            spec_waiters_signalled(old(self), old(ct), final(self), final(ct), this, sticky),
            !sticky ==> spec_others_after_wake(old(self), old(ct), final(self), this),
    {
        let ghost objs0 = *self;
        let ghost ct0 = *ct;
        if sticky {
            let q = self.take_wakers(this);
            proof {
                let n = objs0.obj(this).wakers@.len() as int;
                assert(self.obj(this).wakers@ =~= objs0.obj(this).wakers@.subrange(n, n));
                lemma_drop_keeps_queues(&objs0, ct, self, this, n);
                assert forall|k: int| 0 <= k < q@.len() implies waker_ok(old(ct), (#[trigger] q@[k]).waker, this.0 as int) by {
                    assert(q@[k] == objs0@[this.0 as int].wakers@[k]);
                }
            }
            let ghost objs1 = *self;
            self.wake_all(ct, this, &q);
            proof {
                assert(self@[this.0 as int].data == objs1@[this.0 as int].data);
                ct0.lemma_same_threads(ct);
                assert forall|i: int| 0 <= i < ct0@.len() && (#[trigger] ct0@[i]).state != ThreadState::Waiting implies ct@[i] == ct0@[i] by {
                    let tid = ct0@[i].index;
                    lemma_thread_at(&ct0, i);
                    assert(!spec_queued(q@, tid)) by {
                        if spec_queued(q@, tid) {
                            let k = choose|k: int| 0 <= k < q@.len() && (#[trigger] q@[k]).waker.thread == tid;
                            assert(waker_ok(&ct0, q@[k].waker, this.0 as int));
                        }
                    }
                    assert(ct.thread(tid) == ct0.thread(tid));
                }
            }
            false
        } else {
            let first = self.pop_front_waker(this);
            match first {
                Some(qw) => {
                    proof {
                        assert(qw == objs0@[this.0 as int].wakers@[0]);
                        assert(waker_ok(ct, qw.waker, this.0 as int));
                        lemma_drop_keeps_queues(&objs0, ct, self, this, 1);
                    }
                    let ghost objs1 = *self;
                    self.wake_current(ct, qw.waker, this);
                    proof {
                        assert(spec_mentions(ct0.thread(qw.waker.thread).wait_objects@, this.0 as int));
                        assert(self@[this.0 as int].wakers@ == spec_without_thread(objs1@[this.0 as int].wakers@, qw.waker.thread.0 as u64));
                        assert forall|j: int| 0 <= j < objs0@.len() implies (#[trigger] self@[j]).data == objs0@[j].data by {
                            assert(self@[j].data == objs1@[j].data);
                        }
                        ct0.lemma_pos(qw.waker.thread);
                    }
                    true
                },
                None => false,
            }
        }
    }

    /// Signals an event and wakes its waiters: all of them when it is
    /// sticky (it stays signalled), else the oldest one, which takes the
    /// signal.
    pub fn event_signal(&mut self, ct: &mut CommonThreadManager, this: KObjectRef)
        requires
            inv(old(self), old(ct)),
            old(self).has_type(this, ObjectType::KEvent),
        ensures
            old(ct).keeps_unblocked(final(ct)),
            old(ct).same_threads(final(ct)),
            inv(final(self), final(ct)),
            final(self)@.len() == old(self)@.len(),
            forall|j: int| 0 <= j < old(self)@.len() && j != this.0 ==> (#[trigger] final(self)@[j]).data == old(self)@[j].data,
            final(self).obj(this).data is Event,
            spec_event(final(self).obj(this).data).signal.reset_type == spec_event(old(self).obj(this).data).signal.reset_type,
            spec_event(final(self).obj(this).data).signal.signaled == (spec_event(old(self).obj(this).data).signal.reset_type
                == ResetType::Sticky || old(self).obj(this).wakers@.len() == 0),
            spec_event(old(self).obj(this).data).signal.reset_type == ResetType::Sticky ==> {
                &&& final(self).obj(this).wakers@.len() == 0
                &&& forall|tid: ThreadIndex| old(ct).has(tid) && spec_queued(old(self).obj(this).wakers@, tid)
                    ==> spec_woken_from(old(ct).thread(tid), #[trigger] final(ct).thread(tid))
            },
            spec_event(old(self).obj(this).data).signal.reset_type != ResetType::Sticky
                && old(self).obj(this).wakers@.len() > 0 ==> spec_woken(
                old(ct).thread(old(self).obj(this).wakers@[0].waker.thread),
                final(ct)@[old(ct).pos(old(self).obj(this).wakers@[0].waker.thread)],
                ThreadWakeReason::Object(this),
            ),
            spec_event(old(self).obj(this).data).signal.reset_type != ResetType::Sticky
                && old(self).obj(this).wakers@.len() > 0 ==> {
                let q = old(self).obj(this).wakers@;
                &&& final(self).obj(this).wakers@ == spec_without_thread(q.subrange(1, q.len() as int), q[0].waker.thread.0 as u64)
                &&& old(ct).same_except(final(ct), old(ct).pos(q[0].waker.thread))
            },
            old(self).obj(this).wakers@.len() == 0 ==> final(ct)@ == old(ct)@,
            spec_waiters_signalled(
                old(self),
                old(ct),
                final(self),
                final(ct),
                this,
                spec_event(old(self).obj(this).data).signal.reset_type == ResetType::Sticky,
            ),
    {
        let ghost objs0 = *self;
        let mut e = match &self.get(this).data {
            KObjectData::Event(e) => *e,
            _ => crate::object::EventImpl::new(ResetType::OneShot),
        };
        e.signal.signal();
        self.set_data(this, KObjectData::Event(e));
        proof {
            lemma_data_keeps_queues(&objs0, ct, self, this);
        }
        let sticky = e.signal.is_sticky();
        let ghost objs1 = *self;
        let woke = self.signal_waiters(ct, this, sticky);
        let ghost objs2 = *self;
        if woke {
            e.signal.reset();
            self.set_data(this, KObjectData::Event(e));
            proof {
                lemma_data_keeps_queues(&objs2, ct, self, this);
            }
        }
        proof {
            assert forall|j: int| 0 <= j < old(self)@.len() && j != this.0 implies (#[trigger] self@[j]).data == old(self)@[j].data by {
                assert(objs1@[j] == objs0@[j]);
                assert(objs2@[j].data == objs1@[j].data);
                assert(self@[j].data == objs2@[j].data);
            }
        }
    }

    /// Clears an event's signal.
    pub fn event_clear(&mut self, ct: &CommonThreadManager, this: KObjectRef)
        requires
            inv(old(self), ct),
            old(self).has_type(this, ObjectType::KEvent),
        ensures
            inv(final(self), ct),
            old(self).same_except(final(self), this),
            final(self).obj(this).wakers == old(self).obj(this).wakers,
            final(self).obj(this).data is Event,
            spec_event(final(self).obj(this).data).signal.reset_type == spec_event(old(self).obj(this).data).signal.reset_type,
            !spec_event(final(self).obj(this).data).signal.signaled,
    {
        let ghost objs0 = *self;
        let mut e = match &self.get(this).data {
            KObjectData::Event(e) => *e,
            _ => crate::object::EventImpl::new(ResetType::OneShot),
        };
        e.signal.reset();
        self.set_data(this, KObjectData::Event(e));
        proof {
            lemma_data_keeps_queues(&objs0, ct, self, this);
        }
    }

    /// Arms a timer: it fires first at `initial_ns`, then every `interval`.
    pub fn timer_set(&mut self, ct: &CommonThreadManager, this: KObjectRef, initial_ns: i64, interval: i64)
        requires
            inv(old(self), ct),
            old(self).has_type(this, ObjectType::KTimer),
        ensures
            inv(final(self), ct),
            old(self).same_except(final(self), this),
            final(self).obj(this).wakers == old(self).obj(this).wakers,
            final(self).obj(this).data is Timer,
            spec_timer(final(self).obj(this).data).signal == spec_timer(old(self).obj(this).data).signal,
            spec_timer(final(self).obj(this).data).data.next_ns == initial_ns,
            spec_timer(final(self).obj(this).data).data.interval == interval,
    {
        let ghost objs0 = *self;
        let mut t = match &self.get(this).data {
            KObjectData::Timer(t) => *t,
            _ => crate::object::TimerImpl::new(ResetType::OneShot),
        };
        t.data = crate::object::TimerImplData { next_ns: initial_ns, interval };
        self.set_data(this, KObjectData::Timer(t));
        proof {
            lemma_data_keeps_queues(&objs0, ct, self, this);
        }
    }

    /// Disarms a timer.
    pub fn timer_cancel(&mut self, ct: &CommonThreadManager, this: KObjectRef)
        requires
            inv(old(self), ct),
            old(self).has_type(this, ObjectType::KTimer),
        ensures
            inv(final(self), ct),
            old(self).same_except(final(self), this),
            final(self).obj(this).wakers == old(self).obj(this).wakers,
            final(self).obj(this).data is Timer,
            spec_timer(final(self).obj(this).data).signal == spec_timer(old(self).obj(this).data).signal,
            spec_timer(final(self).obj(this).data).data.next_ns == -1,
            spec_timer(final(self).obj(this).data).data.interval == -1,
    {
        self.timer_set(ct, this, -1, -1);
    }

    /// Lets a timer see the time: an armed timer whose deadline has come
    /// is signalled and wakes its waiters as an event does; a pulse timer
    /// is armed again one period later, any other is disarmed.
    pub fn timer_tick(&mut self, ct: &mut CommonThreadManager, this: KObjectRef, time_ns: u64)
        requires
            inv(old(self), old(ct)),
            old(self).has_type(this, ObjectType::KTimer),
            time_ns <= i64::MAX,
        ensures
            old(ct).keeps_unblocked(final(ct)),
            old(ct).same_threads(final(ct)),
            inv(final(self), final(ct)),
            final(self)@.len() == old(self)@.len(),
            forall|j: int| 0 <= j < old(self)@.len() && j != this.0 ==> (#[trigger] final(self)@[j]).data == old(self)@[j].data,
            !spec_timer_due(spec_timer(old(self).obj(this).data), time_ns) ==> final(self)@ == old(self)@
                && final(ct)@ == old(ct)@,
            spec_timer_due(spec_timer(old(self).obj(this).data), time_ns) ==> spec_timer_fired(
                spec_timer(old(self).obj(this).data),
                final(self).obj(this).data,
                time_ns,
                old(self).obj(this).wakers@.len() == 0,
            ),
            forall|tid: ThreadIndex| old(ct).has(tid) ==> #[trigger] final(ct).thread(tid) == old(ct).thread(tid)
                || spec_woken_by(old(ct).thread(tid), final(ct).thread(tid), this),
            spec_timer_due(spec_timer(old(self).obj(this).data), time_ns) ==> spec_waiters_signalled(
                old(self),
                old(ct),
                final(self),
                final(ct),
                this,
                spec_timer(old(self).obj(this).data).signal.reset_type == ResetType::Sticky,
            ),
    {
        let ghost objs0 = *self;
        let ghost ct0 = *ct;
        let mut t = match &self.get(this).data {
            KObjectData::Timer(t) => *t,
            _ => crate::object::TimerImpl::new(ResetType::OneShot),
        };
        if t.data.valid() && (t.data.next_ns as u64) <= time_ns {
            t.signal.signal();
            if t.signal.is_pulse() {
                let interval = t.data.interval;
                let next: u64 = time_ns + (interval as u64);
                t.data = crate::object::TimerImplData { next_ns: #[verifier::truncate] (next as i64), interval };
            } else {
                t.data = crate::object::TimerImplData { next_ns: -1, interval: -1 };
            }
            self.set_data(this, KObjectData::Timer(t));
            proof {
                lemma_data_keeps_queues(&objs0, ct, self, this);
            }
            let sticky = t.signal.is_sticky();
            let ghost objs1 = *self;
            let woke = self.signal_waiters(ct, this, sticky);
            let ghost objs2 = *self;
            proof {
                let q = objs1.obj(this).wakers@;
                ct0.lemma_same_threads(ct);
                assert forall|tid: ThreadIndex| ct0.has(tid) implies #[trigger] ct.thread(tid) == ct0.thread(tid)
                    || spec_woken_by(ct0.thread(tid), ct.thread(tid), this) by {
                    ct0.lemma_pos(tid);
                    if spec_queued(q, tid) {
                        let k = choose|k: int| 0 <= k < q.len() && (#[trigger] q[k]).waker.thread == tid;
                        assert(waker_ok(&ct0, objs1@[this.0 as int].wakers@[k].waker, this.0 as int));
                    }
                    if woke {
                        let u = q[0].waker.thread;
                        assert(waker_ok(&ct0, objs1@[this.0 as int].wakers@[0].waker, this.0 as int));
                        ct0.lemma_pos(u);
                        if tid != u {
                            assert(ct0.pos(tid) != ct0.pos(u));
                        } else {
                            assert(spec_queued(q, tid));
                        }
                    }
                }
            }
            if woke {
                t.signal.reset();
                self.set_data(this, KObjectData::Timer(t));
                proof {
                    lemma_data_keeps_queues(&objs2, ct, self, this);
                }
            }
            proof {
                assert forall|j: int| 0 <= j < old(self)@.len() && j != this.0 implies (#[trigger] self@[j]).data == old(self)@[j].data by {
                    assert(objs1@[j] == objs0@[j]);
                    assert(objs2@[j].data == objs1@[j].data);
                    assert(self@[j].data == objs2@[j].data);
                }
            }
        }
    }

    /// Releases a mutex: it passes to its oldest waiter, or becomes free.
    pub fn mutex_release(&mut self, ct: &mut CommonThreadManager, this: KObjectRef)
        requires
            inv(old(self), old(ct)),
            old(self).has_type(this, ObjectType::KMutex),
        ensures
            old(ct).same_threads(final(ct)),
            inv(final(self), final(ct)),
            final(self)@.len() == old(self)@.len(),
            forall|j: int| 0 <= j < old(self)@.len() && j != this.0 ==> (#[trigger] final(self)@[j]).data == old(self)@[j].data,
            old(self).obj(this).wakers@.len() == 0 ==> final(ct)@ == old(ct)@ && final(self).obj(this).data
                == KObjectData::Mutex(crate::object::MutexImpl { acquired: false }),
            old(self).obj(this).wakers@.len() > 0 ==> final(self).obj(this).data == old(self).obj(this).data
                && spec_woken(
                old(ct).thread(old(self).obj(this).wakers@[0].waker.thread),
                final(ct)@[old(ct).pos(old(self).obj(this).wakers@[0].waker.thread)],
                ThreadWakeReason::Object(this),
            ),
    {
        let ghost objs0 = *self;
        if self.get(this).wakers.len() > 0 {
            let w = self.get(this).wakers[0].waker;
            proof {
                assert(waker_ok(ct, objs0@[this.0 as int].wakers@[0].waker, this.0 as int));
            }
            self.wake_current(ct, w, this);
        } else {
            self.set_data(this, KObjectData::Mutex(crate::object::MutexImpl { acquired: false }));
            proof {
                lemma_data_keeps_queues(&objs0, ct, self, this);
            }
        }
    }

    /// Marks a thread's kernel object as ended and wakes every thread that
    /// waits for it; later waits end at once.
    pub fn thread_on_death(&mut self, ct: &mut CommonThreadManager, this: KObjectRef)
        requires
            inv(old(self), old(ct)),
            old(self).has_type(this, ObjectType::KThread),
        ensures
            old(ct).same_threads(final(ct)),
            inv(final(self), final(ct)),
            final(self)@.len() == old(self)@.len(),
            forall|j: int| 0 <= j < old(self)@.len() && j != this.0 ==> (#[trigger] final(self)@[j]).data == old(self)@[j].data,
            final(self).obj(this).data is Thread,
            spec_thread_obj(final(self).obj(this).data).dead,
            spec_thread_obj(final(self).obj(this).data).index == spec_thread_obj(old(self).obj(this).data).index,
            !spec_thread_obj(old(self).obj(this).data).dead ==> {
                &&& final(self).obj(this).wakers@.len() == 0
                &&& forall|tid: ThreadIndex| old(ct).has(tid) && spec_queued(old(self).obj(this).wakers@, tid)
                    ==> spec_woken_from(old(ct).thread(tid), #[trigger] final(ct).thread(tid))
                &&& forall|tid: ThreadIndex| old(ct).has(tid) && !spec_queued(old(self).obj(this).wakers@, tid)
                    ==> #[trigger] final(ct).thread(tid) == old(ct).thread(tid)
            },
            spec_thread_obj(old(self).obj(this).data).dead ==> final(self)@ == old(self)@
                && final(ct)@ == old(ct)@,
    {
        let ghost objs0 = *self;
        let mut t = match &self.get(this).data {
            KObjectData::Thread(t) => *t,
            _ => crate::object::ThreadImpl::new(ThreadIndex(0)),
        };
        if !t.dead {
            t.dead = true;
            self.set_data(this, KObjectData::Thread(t));
            proof {
                lemma_data_keeps_queues(&objs0, ct, self, this);
            }
            let ghost objs1 = *self;
            let _ = self.signal_waiters(ct, this, true);
            proof {
                assert forall|j: int| 0 <= j < old(self)@.len() && j != this.0 implies (#[trigger] self@[j]).data == old(self)@[j].data by {
                    assert(objs1@[j] == objs0@[j]);
                }
            }
        }
    }
}

/// `d` is timer `t0` after it fired at `time_ns`; `no_waiters` tells
/// whether nobody waited on it.
pub open spec fn spec_timer_fired(t0: crate::object::TimerImpl, d: KObjectData, time_ns: u64, no_waiters: bool) -> bool {
    let t = spec_timer(d);
    &&& d is Timer
    &&& t.signal.reset_type == t0.signal.reset_type
    &&& t.signal.signaled == (t0.signal.reset_type == ResetType::Sticky || no_waiters)
    &&& t0.signal.reset_type == ResetType::Pulse ==> t.data.next_ns == (time_ns + t0.data.interval) as i64
        && t.data.interval == t0.data.interval
    &&& t0.signal.reset_type != ResetType::Pulse ==> t.data.next_ns == -1 && t.data.interval == -1
}

/// Whether an armed timer's deadline has come at `time_ns`.
pub open spec fn spec_timer_due(t: crate::object::TimerImpl, time_ns: u64) -> bool {
    t.data.next_ns >= 0 && t.data.interval >= 0 && (t.data.next_ns as u64) <= time_ns
}

/// The wakers that signalling an arbiter at `addr` releases: the oldest
/// ones waiting at that address, at most `amount` of them, or all of them
/// for a negative amount.
pub open spec fn spec_drained(q: Seq<QueuedWaker>, addr: u32, amount: i32) -> Seq<QueuedWaker> {
    let f = q.filter(|w: QueuedWaker| w.addr == addr);
    if amount < 0 {
        f
    } else {
        f.take(if amount as int <= f.len() { amount as int } else { f.len() as int })
    }
}

/// The wakers that stay in an arbiter's queue when it is signalled at
/// `addr`: those that `spec_drained` does not release, in their order.
pub open spec fn spec_undrained(q: Seq<QueuedWaker>, addr: u32, amount: i32) -> Seq<QueuedWaker>
    decreases q.len(),
{
    if q.len() == 0 {
        Seq::empty()
    } else {
        let p = q.drop_last();
        if q.last().addr == addr && (amount < 0 || spec_drained(p, addr, amount).len() < amount) {
            spec_undrained(p, addr, amount)
        } else {
            spec_undrained(p, addr, amount).push(q.last())
        }
    }
}

/// Filtering by a condition that every element meets keeps every element.
pub proof fn lemma_filter_all(s: Seq<QueuedWaker>, p: spec_fn(QueuedWaker) -> bool)
    requires
        forall|x: QueuedWaker| #[trigger] p(x),
    ensures
        s.filter(p) == s,
    decreases s.len(),
{
    reveal(Seq::filter);
    if s.len() > 0 {
        lemma_filter_all(s.drop_last(), p);
        assert(s.drop_last().push(s.last()) =~= s);
    }
}

/// Filtering twice is filtering once by both conditions.
pub proof fn lemma_filter_twice(
    s: Seq<QueuedWaker>,
    p: spec_fn(QueuedWaker) -> bool,
    q: spec_fn(QueuedWaker) -> bool,
    r: spec_fn(QueuedWaker) -> bool,
)
    requires
        forall|x: QueuedWaker| #[trigger] r(x) == (p(x) && q(x)),
    ensures
        s.filter(p).filter(q) == s.filter(r),
    decreases s.len(),
{
    reveal(Seq::filter);
    if s.len() > 0 {
        lemma_filter_twice(s.drop_last(), p, q, r);
        let x = s.last();
        assert(r(x) == (p(x) && q(x)));
        if p(x) {
            let sp = s.drop_last().filter(p);
            assert(sp.push(x).drop_last() =~= sp);
            assert(sp.push(x).last() == x);
        }
    }
}

/// Splits an arbiter's queue into the wakers that signalling it at `addr`
/// releases, as `spec_drained` says, and the others.
pub fn split_drained(q: &Vec<QueuedWaker>, addr: u32, amount: i32) -> (r: (Vec<QueuedWaker>, Vec<QueuedWaker>))
    ensures
        r.0@ == spec_drained(q@, addr, amount),
        r.1@ == spec_undrained(q@, addr, amount),
        forall|k: int| 0 <= k < r.0@.len() ==> q@.contains(#[trigger] r.0@[k]),
        forall|k: int| 0 <= k < r.1@.len() ==> q@.contains(#[trigger] r.1@[k]),
{
    let ghost pred = |w: QueuedWaker| w.addr == addr;
    let ghost q0 = q@;
    let all: bool = amount < 0;
    let mut signal_count: u32 = if amount < 0 { 0xFFFFFFFFu32 } else { amount as u32 };
    let mut drained: Vec<QueuedWaker> = Vec::new();
    let mut kept: Vec<QueuedWaker> = Vec::new();
    let mut i: usize = 0;
    while i < q.len()
        invariant
            q@ == q0,
            pred == (|w: QueuedWaker| w.addr == addr),
            all == (amount < 0),
            i <= q0.len(),
            all ==> signal_count == 0xFFFFFFFFu32,
            all ==> drained@ == q0.subrange(0, i as int).filter(pred),
            !all ==> drained@.len() + signal_count == amount as int,
            !all ==> drained@ == q0.subrange(0, i as int).filter(pred).take(
                if amount as int <= q0.subrange(0, i as int).filter(pred).len() { amount as int } else {
                    q0.subrange(0, i as int).filter(pred).len() as int
                },
            ),
            forall|k: int| 0 <= k < drained@.len() ==> q@.contains(#[trigger] drained@[k]),
            forall|k: int| 0 <= k < kept@.len() ==> q@.contains(#[trigger] kept@[k]),
            drained@ == spec_drained(q0.subrange(0, i as int), addr, amount),
            kept@ == spec_undrained(q0.subrange(0, i as int), addr, amount),
        decreases q0.len() - i,
    {
        let w = q[i];
        let ghost f0 = q0.subrange(0, i as int).filter(pred);
        proof {
            reveal_with_fuel(Seq::filter, 1);
            assert(q0.subrange(0, i + 1).drop_last() =~= q0.subrange(0, i as int));
            q0.subrange(0, i as int).lemma_filter_len(pred);
            assert(q0.subrange(0, i + 1).last() == w);
            assert((signal_count > 0) == (amount < 0 || spec_drained(q0.subrange(0, i as int), addr, amount).len() < amount));
        }
        if w.addr == addr && signal_count > 0 {
            drained.push(w);
            if signal_count != 0xFFFFFFFFu32 {
                signal_count = signal_count - 1;
            }
            proof {
                reveal_with_fuel(Seq::filter, 1);
                let s1 = q0.subrange(0, i + 1);
                assert(s1.drop_last() =~= q0.subrange(0, i as int));
                assert(s1.last() == w);
                let f1 = s1.filter(pred);
                assert(pred(w));
                assert(f1 == f0.push(w));
                if !all {
                    assert(f0.take(f0.len() as int) =~= f0);
                    assert(f1.take(f1.len() as int) =~= f1);
                }
                assert(q@[i as int] == drained@[drained@.len() - 1]);
            }
        } else {
            kept.push(w);
            proof {
                reveal_with_fuel(Seq::filter, 1);
                let s1 = q0.subrange(0, i + 1);
                assert(s1.drop_last() =~= q0.subrange(0, i as int));
                assert(s1.last() == w);
                let f1 = s1.filter(pred);
                if w.addr == addr {
                    assert(f1 == f0.push(w));
                    assert(!all);
                    assert(f1.take(amount as int) =~= f0.take(amount as int));
                } else {
                    assert(!pred(w));
                    assert(f1 == f0);
                }
                assert(q@[i as int] == kept@[kept@.len() - 1]);
            }
        }
        i = i + 1;
    }
    proof {
        assert(q0.subrange(0, q0.len() as int) =~= q0);
    }
    (drained, kept)
}

impl ObjectManager {
    /// A thread waits on an address arbiter for the address `addr`.
    pub fn arbiter_wait(&mut self, ct: &CommonThreadManager, this: KObjectRef, w: Waker, addr: u32)
        requires
            inv(old(self), ct),
            old(self).has_type(this, ObjectType::KAddressArbiter),
            waker_ok(ct, w, this.0 as int),
        ensures
            inv(final(self), ct),
            old(self).same_except(final(self), this),
            final(self).obj(this).data == old(self).obj(this).data,
            final(self).obj(this).wakers@ == old(self).obj(this).wakers@.push(QueuedWaker { waker: w, addr }),
    {
        let ghost objs0 = *self;
        self.push_waker(this, QueuedWaker { waker: w, addr });
        proof {
            lemma_push_keeps_queues(&objs0, ct, self, this, QueuedWaker { waker: w, addr });
        }
    }

    /// Signals an address arbiter at `addr`: wakes the oldest threads
    /// waiting there, at most `amount` of them, or all of them for a
    /// negative amount. Returns whether a thread woke.
    pub fn arbiter_signal(&mut self, ct: &mut CommonThreadManager, this: KObjectRef, amount: i32, addr: u32) -> (r: bool)
        requires
            inv(old(self), old(ct)),
            old(self).has_type(this, ObjectType::KAddressArbiter),
        ensures
            old(ct).same_threads(final(ct)),
            inv(final(self), final(ct)),
            final(self)@.len() == old(self)@.len(),
            forall|j: int| 0 <= j < old(self)@.len() ==> (#[trigger] final(self)@[j]).data == old(self)@[j].data,
            r == (spec_drained(old(self).obj(this).wakers@, addr, amount).len() > 0),
            forall|tid: ThreadIndex| old(ct).has(tid) && spec_queued(spec_drained(old(self).obj(this).wakers@, addr, amount), tid)
                ==> spec_woken_from(old(ct).thread(tid), #[trigger] final(ct).thread(tid)),
            forall|tid: ThreadIndex| old(ct).has(tid) && !spec_queued(spec_drained(old(self).obj(this).wakers@, addr, amount), tid)
                ==> #[trigger] final(ct).thread(tid) == old(ct).thread(tid),
            final(self).obj(this).wakers@ == spec_undrained(old(self).obj(this).wakers@, addr, amount).filter(
                |x: QueuedWaker| !spec_queued(spec_drained(old(self).obj(this).wakers@, addr, amount), x.waker.thread),
            ),
    {
        let ghost objs0 = *self;
        let q = self.take_wakers(this);
        let ghost q0 = q@;
        let (drained, kept) = split_drained(&q, addr, amount);
        proof {
            assert(q0 == objs0.obj(this).wakers@);
            assert forall|k: int| 0 <= k < drained@.len() implies waker_ok(ct, (#[trigger] drained@[k]).waker, this.0 as int) by {
                let i0 = choose|i0: int| 0 <= i0 < q0.len() && q0[i0] == drained@[k];
                assert(waker_ok(ct, objs0@[this.0 as int].wakers@[i0].waker, this.0 as int));
            }
            assert forall|k: int| 0 <= k < kept@.len() implies waker_ok(ct, (#[trigger] kept@[k]).waker, this.0 as int) by {
                let i0 = choose|i0: int| 0 <= i0 < q0.len() && q0[i0] == kept@[k];
                assert(waker_ok(ct, objs0@[this.0 as int].wakers@[i0].waker, this.0 as int));
            }
        }
        let has_waken = drained.len() > 0;
        self.set_wakers(this, kept);
        proof {
            assert forall|j: int, k: int| 0 <= j < self@.len() && 0 <= k < self@[j].wakers@.len() implies waker_ok(
                ct,
                (#[trigger] self@[j].wakers@[k]).waker,
                j,
            ) by {
                if j != this.0 {
                    assert(self@[j] == objs0@[j]);
                    assert(waker_ok(ct, objs0@[j].wakers@[k].waker, j));
                }
            }
            assert forall|k: int| 0 <= k < ct@.len() implies crate::thread::spec_refs_valid(#[trigger] ct@[k], self) by {
                assert(crate::thread::spec_refs_valid(ct@[k], &objs0));
            }
        }
        let ghost objs1 = *self;
        self.wake_all(ct, this, &drained);
        proof {
            assert forall|j: int| 0 <= j < objs0@.len() implies (#[trigger] self@[j]).data == objs0@[j].data by {
                assert(self@[j].data == objs1@[j].data);
            }
        }
        has_waken
    }
}

} // verus!
