//! The kernel's system calls as threads make them: each looks up the
//! handles it is given in the running process, checks the objects' types,
//! and changes objects and threads; a call that puts the running thread to
//! sleep asks for the scheduler to run another thread.

use vstd::prelude::*;
use crate::errors::{HANDLE_TYPE_MISMATCH, SESSION_EMPTY};
use crate::ipc::{spec_translatable, translatable};
use crate::kernel::{lemma_message_translated_kept, spec_message_translated, Kernel};
use crate::object::{
    spec_event, spec_kind, spec_peer, spec_requests, spec_sessions, spec_supports, spec_timer, KTypedObject, ArbiterImpl, EventImpl, KObjectData, KObjectRef, MutexImpl, ObjectType,
    TimerImpl, TimerImplData,
};
use crate::object::{QueuedWaker, Waker};
use crate::sync::{spec_after_wait, spec_ready};
use crate::thread::{spec_next_key, spec_woken, ThreadWakeReason};
use crate::types::{Handle, ResetType, Signal, ThreadResume, ThreadState, ThreadWaitType, Timeout};

verus! {

/// Asks the scheduler to run another thread.
#[derive(Clone, Copy, Debug, PartialEq, Eq, Structural)]
pub struct Reschedule;

/// The running process got a new handle to a new object holding `data`,
/// returned as `h`; nothing else changed but the objects' growth.
pub open spec fn spec_made_object(k0: &Kernel, k1: &Kernel, data: KObjectData, h: Handle) -> bool {
    let o = KObjectRef(k0.spec_objects()@.len() as usize);
    &&& k1.spec_objects()@.len() == k0.spec_objects()@.len() + 1
    &&& k1.spec_objects().obj(o).data == data
    &&& k0.objects_grew(k1)
    &&& !k0.current_process_spec().handles().dom().contains(h.spec_raw())
    &&& k1.current_process_spec().handles() == k0.current_process_spec().handles().insert(h.spec_raw(), o)
    &&& k1.current_pos() == k0.current_pos()
    &&& k1.spec_processes()@.len() == k0.spec_processes()@.len()
    &&& forall|j: int| 0 <= j < k0.spec_processes()@.len() && j != k0.current_pos()
        ==> #[trigger] k1.spec_processes()@[j] == k0.spec_processes()@[j]
    &&& k1.spec_threads() == k0.spec_threads()
    &&& k0.same_schedule(k1)
}

/// Makes an object and gives the running process a handle to it.
fn make_object(kctx: &mut Kernel, data: KObjectData) -> (r: Handle)
    requires
        old(kctx).wf(),
        old(kctx).spec_current().is_some(),
        old(kctx).current_process_spec().handles().dom().len() < u32::MAX,
    ensures
        final(kctx).wf(),
        spec_made_object(old(kctx), final(kctx), data, r),
{
    let (_, h) = kctx.new_object_handle(data);
    h
}

/// CreateEvent: makes an unsignalled event with the given reset type.
pub fn create_event(kctx: &mut Kernel, reset_type: ResetType) -> (r: Result<Handle, u32>)
    requires
        old(kctx).wf(),
        old(kctx).spec_current().is_some(),
        old(kctx).current_process_spec().handles().dom().len() < u32::MAX,
    ensures
        final(kctx).wf(),
        r matches Ok(h) && spec_made_object(
            old(kctx),
            final(kctx),
            KObjectData::Event(EventImpl { signal: Signal { reset_type, signaled: false } }),
            h,
        ),
{
    Ok(make_object(kctx, KObjectData::Event(EventImpl::new(reset_type))))
}

/// CreateTimer: makes an unsignalled, unarmed timer with the given reset
/// type.
pub fn create_timer(kctx: &mut Kernel, reset_type: ResetType) -> (r: Result<Handle, u32>)
    requires
        old(kctx).wf(),
        old(kctx).spec_current().is_some(),
        old(kctx).current_process_spec().handles().dom().len() < u32::MAX,
    ensures
        final(kctx).wf(),
        r matches Ok(h) && spec_made_object(
            old(kctx),
            final(kctx),
            KObjectData::Timer(
                TimerImpl {
                    signal: Signal { reset_type, signaled: false },
                    data: TimerImplData { next_ns: -1i64, interval: -1i64 },
                },
            ),
            h,
        ),
{
    Ok(make_object(kctx, KObjectData::Timer(TimerImpl::new(reset_type))))
}

/// CreateAddressArbiter: makes an address arbiter.
pub fn create_address_arbiter(kctx: &mut Kernel) -> (r: Result<Handle, u32>)
    requires
        old(kctx).wf(),
        old(kctx).spec_current().is_some(),
        old(kctx).current_process_spec().handles().dom().len() < u32::MAX,
    ensures
        final(kctx).wf(),
        r matches Ok(h) && spec_made_object(old(kctx), final(kctx), KObjectData::Arbiter(ArbiterImpl { signals: 0 }), h),
{
    Ok(make_object(kctx, KObjectData::Arbiter(ArbiterImpl::new())))
}

/// CreateMutex: makes a mutex, held by its creator when `acquired`.
pub fn create_mutex(kctx: &mut Kernel, acquired: bool) -> (r: Result<Handle, u32>)
    requires
        old(kctx).wf(),
        old(kctx).spec_current().is_some(),
        old(kctx).current_process_spec().handles().dom().len() < u32::MAX,
    ensures
        final(kctx).wf(),
        r matches Ok(h) && spec_made_object(old(kctx), final(kctx), KObjectData::Mutex(MutexImpl { acquired }), h),
{
    Ok(make_object(kctx, KObjectData::Mutex(MutexImpl::new(acquired))))
}

/// Whether a handle refers to an object that offers the interface `ty`.
pub open spec fn spec_handle_is(k: &Kernel, handle: Option<Handle>, ty: ObjectType) -> bool {
    k.spec_lookup(handle) matches Some(o) && spec_supports(spec_kind(k.spec_objects().obj(o).data), ty)
}

/// Looks a handle up and checks that its object offers the interface `ty`.
pub fn lookup_typed(kctx: &Kernel, handle: &Option<Handle>, ty: ObjectType) -> (r: Option<KObjectRef>)
    requires
        kctx.wf(),
        kctx.spec_current().is_some(),
    ensures
        r is Some == spec_handle_is(kctx, *handle, ty),
        r matches Some(o) ==> kctx.spec_lookup(*handle) == Some(o) && kctx.spec_objects().has_type(o, ty),
{
    match kctx.lookup(handle) {
        Some(o) => if crate::object::supports(kctx.kind_of(o), ty) {
            Some(o)
        } else {
            None
        },
        None => None,
    }
}

/// Kernel `k1` is `k0` after event `o` was signalled: a sticky event stays
/// signalled and wakes every waiter, any other wakes its oldest waiter,
/// which takes the signal, or stays signalled when nobody waits.
pub open spec fn spec_event_signalled(k0: &Kernel, k1: &Kernel, o: KObjectRef) -> bool {
    let e0 = spec_event(k0.spec_objects().obj(o).data);
    &&& k1.spec_objects().obj(o).data is Event
    &&& spec_event(k1.spec_objects().obj(o).data).signal.reset_type == e0.signal.reset_type
    &&& spec_event(k1.spec_objects().obj(o).data).signal.signaled == (e0.signal.reset_type == ResetType::Sticky
        || k0.spec_objects().obj(o).wakers@.len() == 0)
    &&& k1.spec_objects()@.len() == k0.spec_objects()@.len()
    &&& forall|j: int| 0 <= j < k0.spec_objects()@.len() && j != o.0 ==> (#[trigger] k1.spec_objects()@[j]).data
        == k0.spec_objects()@[j].data
    &&& crate::sync::spec_waiters_signalled(
        &k0.spec_objects(),
        &k0.spec_threads(),
        &k1.spec_objects(),
        &k1.spec_threads(),
        o,
        e0.signal.reset_type == ResetType::Sticky,
    )
    &&& k1.spec_processes() == k0.spec_processes()
    &&& k0.same_schedule(k1)
}

/// SignalEvent: signals the event a handle refers to and wakes its
/// waiters; `HANDLE_TYPE_MISMATCH` when the handle is no event's.
pub fn signal_event(kctx: &mut Kernel, handle: Option<Handle>) -> (r: Result<(), u32>)
    requires
        old(kctx).wf(),
        old(kctx).spec_current().is_some(),
    ensures
        final(kctx).wf(),
        r is Ok == spec_handle_is(old(kctx), handle, ObjectType::KEvent),
        r is Err ==> r == Err::<(), u32>(HANDLE_TYPE_MISMATCH) && *final(kctx) == *old(kctx),
        r is Ok ==> spec_event_signalled(old(kctx), final(kctx), old(kctx).spec_lookup(handle).unwrap()),
{
    match lookup_typed(kctx, &handle, ObjectType::KEvent) {
        Some(o) => {
            let ghost k0 = *kctx;
            let (objs, threads) = kctx.parts_mut();
            objs.event_signal(threads, o);
            proof {
                Kernel::lemma_keeps_wf(&k0, kctx);
            }
            Ok(())
        },
        None => Err(HANDLE_TYPE_MISMATCH),
    }
}

/// SetTimer: arms the timer a handle refers to, to fire first at
/// `initial` nanoseconds and then every `interval`; `HANDLE_TYPE_MISMATCH`
/// when the handle is no timer's.
pub fn set_timer(kctx: &mut Kernel, handle: Option<Handle>, initial: i64, interval: i64) -> (r: Result<(), u32>)
    requires
        old(kctx).wf(),
        old(kctx).spec_current().is_some(),
    ensures
        final(kctx).wf(),
        r is Ok == spec_handle_is(old(kctx), handle, ObjectType::KTimer),
        r is Err ==> r == Err::<(), u32>(HANDLE_TYPE_MISMATCH) && *final(kctx) == *old(kctx),
        r is Ok ==> {
            let o = old(kctx).spec_lookup(handle).unwrap();
            &&& old(kctx).spec_objects().same_except(&final(kctx).spec_objects(), o)
            &&& final(kctx).spec_objects().obj(o).wakers == old(kctx).spec_objects().obj(o).wakers
            &&& final(kctx).spec_objects().obj(o).data == KObjectData::Timer(
                TimerImpl {
                    signal: spec_timer(old(kctx).spec_objects().obj(o).data).signal,
                    data: TimerImplData { next_ns: initial, interval },
                },
            )
            &&& final(kctx).spec_threads() == old(kctx).spec_threads()
            &&& final(kctx).spec_processes() == old(kctx).spec_processes()
            &&& old(kctx).same_schedule(final(kctx))
        },
{
    match lookup_typed(kctx, &handle, ObjectType::KTimer) {
        Some(o) => {
            let ghost k0 = *kctx;
            let (objs, threads) = kctx.parts_mut();
            objs.timer_set(threads, o, initial, interval);
            proof {
                Kernel::lemma_keeps_wf(&k0, kctx);
            }
            Ok(())
        },
        None => Err(HANDLE_TYPE_MISMATCH),
    }
}

/// The timeout of a wait given in nanoseconds: zero does not wait, a
/// negative value waits without end.
pub fn make_timeout(ns: i64) -> (r: Timeout)
    ensures
        ns == 0 ==> r == Timeout::Instant,
        ns > 0 ==> r == Timeout::After(ns as u64),
        ns < 0 ==> r == Timeout::Forever,
{
    if ns >= 0 {
        if ns == 0 {
            Timeout::Instant
        } else {
            Timeout::After(ns as u64)
        }
    } else {
        Timeout::Forever
    }
}

/// Kernel `k1` is `k0` after the running thread waited on object `o` for
/// `timeout` nanoseconds (none when negative): a ready object wakes it at
/// once and is consumed, any other takes its waker at the end of its queue.
pub open spec fn spec_waited_1(k0: &Kernel, k1: &Kernel, o: KObjectRef, timeout: i64) -> bool {
    let t0 = k0.current_thread_spec();
    let t1 = k1.current_thread_spec();
    &&& k1.spec_current() == k0.spec_current()
    &&& t1.wait_type == Some(ThreadWaitType::WaitSync1)
    &&& t1.wait_timeout.is_some() == (timeout >= 0)
    &&& !spec_ready(k0.spec_objects().obj(o).data) ==> {
        &&& t1.state == ThreadState::Waiting
        &&& t1.wake_key == t0.wake_key
        &&& t1.wait_objects@ == seq![o]
        &&& k1.spec_objects().obj(o).data == k0.spec_objects().obj(o).data
        &&& k1.spec_objects().obj(o).wakers@ == k0.spec_objects().obj(o).wakers@.push(
            QueuedWaker { waker: Waker { thread: t0.index, key: t0.wake_key }, addr: 0 },
        )
    }
    &&& spec_ready(k0.spec_objects().obj(o).data) ==> {
        &&& t1.state == ThreadState::Ready
        &&& t1.wake_key == spec_next_key(t0.wake_key)
        &&& t1.resume == ThreadResume::Normal
        &&& spec_after_wait(k0.spec_objects().obj(o).data, k1.spec_objects().obj(o).data)
    }
    &&& k1.spec_processes() == k0.spec_processes()
}

/// WaitSynchronization1: the running thread waits on the object a handle
/// refers to, for `timeout` nanoseconds (none when negative). A ready
/// object ends the wait at once and is consumed; otherwise the thread
/// joins the object's queue. `HANDLE_TYPE_MISMATCH` when the handle is no
/// synchronisation object's.
pub fn wait_sync_1(kctx: &mut Kernel, handle: Option<Handle>, timeout: i64) -> (r: Result<Option<Reschedule>, u32>)
    requires
        old(kctx).wf(),
        old(kctx).spec_current().is_some(),
        old(kctx).current_thread_spec().state == ThreadState::Running,
    ensures
        final(kctx).wf(),
        r is Ok == spec_handle_is(old(kctx), handle, ObjectType::KSynchronizationObject),
        r is Err ==> r == Err::<Option<Reschedule>, u32>(HANDLE_TYPE_MISMATCH) && *final(kctx) == *old(kctx),
        r is Ok ==> r == Ok::<Option<Reschedule>, u32>(Some(Reschedule)) && spec_waited_1(
            old(kctx),
            final(kctx),
            old(kctx).spec_lookup(handle).unwrap(),
            timeout,
        ),
{
    match lookup_typed(kctx, &handle, ObjectType::KSynchronizationObject) {
        Some(o) => {
            let time = make_timeout(timeout);
            let now = kctx.time();
            let deadline = time.deadline(now);
            let mut objects: Vec<KObjectRef> = Vec::new();
            objects.push(o);
            let ghost k0 = *kctx;
            let waker = kctx.suspend_thread(objects, deadline, ThreadWaitType::WaitSync1);
            let ghost k1 = *kctx;
            proof {
                let tid = k0.spec_current().unwrap().1;
                k1.spec_threads().lemma_pos(tid);
                assert(k1.spec_threads().thread(tid).wait_objects@[0] == o);
            }
            let (objs, threads) = kctx.parts_mut();
            objs.sync_wait(threads, o, waker);
            proof {
                Kernel::lemma_keeps_wf(&k1, kctx);
                let tid = k0.spec_current().unwrap().1;
                k1.spec_threads().lemma_same_threads(&kctx.spec_threads());
                crate::sync::lemma_thread_at(&kctx.spec_threads(), k1.spec_threads().pos(tid));
            }
            Ok(Some(Reschedule))
        },
        None => Err(HANDLE_TYPE_MISMATCH),
    }
}

/// Copies a list of object references.
fn copy_refs(v: &Vec<KObjectRef>) -> (r: Vec<KObjectRef>)
    ensures
        r@ == v@,
{
    let mut r: Vec<KObjectRef> = Vec::new();
    let mut i: usize = 0;
    while i < v.len()
        invariant
            i <= v@.len(),
            r@ == v@.subrange(0, i as int),
        decreases v@.len() - i,
    {
        r.push(v[i]);
        i = i + 1;
        assert(r@ =~= v@.subrange(0, i as int));
    }
    assert(r@ =~= v@);
    r
}

/// WaitSynchronizationN: the running thread waits on the objects that
/// `handles` refer to, for `timeout` nanoseconds (none when negative),
/// until any one of them is ready. The objects are tried in order: the
/// first ready one ends the wait at once and is consumed, and the thread
/// is told its position; the thread joins the queue of every object tried
/// before it. Once the thread has woken, the objects after are left alone.
pub fn wait_sync_n(kctx: &mut Kernel, handles: &[Option<Handle>], wait_all: bool, timeout: i64) -> (r: Result<
    Option<Reschedule>,
    u32,
>)
    requires
        old(kctx).wf(),
        old(kctx).spec_current().is_some(),
        old(kctx).current_thread_spec().state == ThreadState::Running,
        !wait_all,
        forall|i: int| 0 <= i < handles@.len() ==> spec_handle_is(old(kctx), #[trigger] handles@[i], ObjectType::KSynchronizationObject),
    ensures
        final(kctx).wf(),
        r == Ok::<Option<Reschedule>, u32>(Some(Reschedule)),
        ({
            let t0 = old(kctx).current_thread_spec();
            let t1 = final(kctx).current_thread_spec();
            &&& final(kctx).spec_current() == old(kctx).spec_current()
            &&& t1.wait_type == Some(ThreadWaitType::WaitSyncN)
            &&& t1.wait_timeout.is_some() == (timeout >= 0)
            &&& t1.state == ThreadState::Waiting || t1.state == ThreadState::Ready
            &&& t1.state == ThreadState::Waiting ==> t1.wake_key == t0.wake_key && t1.wait_objects@ == handles@.map_values(
                |h: Option<Handle>| old(kctx).spec_lookup(h).unwrap(),
            )
            &&& t1.state == ThreadState::Ready ==> t1.wake_key == spec_next_key(t0.wake_key) && t1.resume is WaitSyncN
            &&& (forall|i: int| 0 <= i < handles@.len() ==> !spec_ready(
                #[trigger] old(kctx).spec_objects().obj(old(kctx).spec_lookup(handles@[i]).unwrap()).data,
            )) ==> t1.state == ThreadState::Waiting
        }),
        final(kctx).spec_processes() == old(kctx).spec_processes(),
        old(kctx).spec_threads().same_except(&final(kctx).spec_threads(), old(kctx).spec_threads().pos(old(kctx).spec_current().unwrap().1)),
        final(kctx).spec_objects()@.len() == old(kctx).spec_objects()@.len(),
        forall|x: int| 0 <= x < old(kctx).spec_objects()@.len() && !spec_ready(old(kctx).spec_objects()@[x].data)
            ==> (#[trigger] final(kctx).spec_objects()@[x]).data == old(kctx).spec_objects()@[x].data,
        forall|x: int| 0 <= x < old(kctx).spec_objects()@.len() ==> spec_kind((#[trigger] final(kctx).spec_objects()@[x]).data)
            == spec_kind(old(kctx).spec_objects()@[x].data),
{
    let ghost k0 = *kctx;
    let ghost objs_spec = handles@.map_values(|h: Option<Handle>| k0.spec_lookup(h).unwrap());
    let mut objects: Vec<KObjectRef> = Vec::new();
    let mut i: usize = 0;
    while i < handles.len()
        invariant
            *kctx == k0,
            k0.wf(),
            k0.spec_current().is_some(),
            i <= handles@.len(),
            objs_spec == handles@.map_values(|h: Option<Handle>| k0.spec_lookup(h).unwrap()),
            forall|j: int| 0 <= j < handles@.len() ==> spec_handle_is(&k0, #[trigger] handles@[j], ObjectType::KSynchronizationObject),
            objects@ == objs_spec.subrange(0, i as int),
            forall|j: int| 0 <= j < i ==> k0.spec_objects().has_type(#[trigger] objects@[j], ObjectType::KSynchronizationObject),
        decreases handles@.len() - i,
    {
        let o = kctx.lookup(&handles[i]);
        proof {
            assert(spec_handle_is(&k0, handles@[i as int], ObjectType::KSynchronizationObject));
        }
        objects.push(o.unwrap());
        i = i + 1;
        proof {
            assert(objects@ =~= objs_spec.subrange(0, i as int));
        }
    }
    proof {
        assert(objects@ =~= objs_spec);
    }
    let time = make_timeout(timeout);
    let now = kctx.time();
    let deadline = time.deadline(now);
    let list = copy_refs(&objects);
    let waker = kctx.suspend_thread(list, deadline, ThreadWaitType::WaitSyncN);
    let ghost k1 = *kctx;
    let ghost tid = k0.spec_current().unwrap().1;
    let ghost p = k0.spec_threads().pos(tid);
    proof {
        k1.spec_threads().lemma_pos(tid);
        k0.spec_threads().lemma_pos(tid);
    }
    let mut i: usize = 0;
    while i < objects.len()
        invariant
            i <= objects@.len(),
            objects@ == objs_spec,
            forall|j: int| 0 <= j < objects@.len() ==> k0.spec_objects().has_type(#[trigger] objects@[j], ObjectType::KSynchronizationObject),
            kctx.wf(),
            k1.wf(),
            waker.thread == tid,
            waker.key == k0.current_thread_spec().wake_key,
            kctx.spec_current() == k0.spec_current(),
            kctx.spec_current() == Some((k0.spec_current().unwrap().0, tid)),
            kctx.spec_processes() == k0.spec_processes(),
            kctx.spec_objects()@.len() == k0.spec_objects()@.len(),
            k1.spec_threads().same_threads(&kctx.spec_threads()),
            k1.spec_objects()@ == k0.spec_objects()@,
            k1.spec_threads().has(tid),
            p == k1.spec_threads().pos(tid),
            kctx.spec_threads().pos(tid) == p,
            kctx.spec_threads()@[p].wait_type == Some(ThreadWaitType::WaitSyncN),
            kctx.spec_threads()@[p].wait_timeout == deadline,
            deadline.is_some() == (timeout >= 0),
            kctx.spec_threads()@[p].wake_key == waker.key ==> {
                &&& kctx.spec_threads()@[p].state == ThreadState::Waiting
                &&& kctx.spec_threads()@[p].wait_objects@ == objs_spec
                &&& forall|x: int| 0 <= x < k0.spec_objects()@.len() ==> (#[trigger] kctx.spec_objects()@[x]).data
                    == k0.spec_objects()@[x].data
                &&& forall|j: int| 0 <= j < i ==> !spec_ready(#[trigger] k0.spec_objects().obj(objects@[j]).data)
            },
            kctx.spec_threads()@[p].wake_key != waker.key ==> {
                &&& kctx.spec_threads()@[p].state == ThreadState::Ready
                &&& kctx.spec_threads()@[p].wake_key == spec_next_key(waker.key)
                &&& kctx.spec_threads()@[p].resume is WaitSyncN
                &&& exists|j: int| 0 <= j < i && spec_ready(#[trigger] k0.spec_objects().obj(objects@[j]).data)
            },
            k0.spec_threads().same_except(&kctx.spec_threads(), p),
            forall|x: int| 0 <= x < k0.spec_objects()@.len() && !spec_ready(k0.spec_objects()@[x].data)
                ==> (#[trigger] kctx.spec_objects()@[x]).data == k0.spec_objects()@[x].data,
            forall|x: int| 0 <= x < k0.spec_objects()@.len() ==> spec_kind((#[trigger] kctx.spec_objects()@[x]).data)
                == spec_kind(k0.spec_objects()@[x].data),
        decreases objects@.len() - i,
    {
        let o = objects[i];
        let current = kctx.current_thread().wake_key == waker.key;
        if current {
            let ghost k2 = *kctx;
            proof {
                crate::sync::lemma_thread_at(&k2.spec_threads(), p);
                assert(k2.spec_threads()@[p].wait_objects@[i as int] == o);
                assert(k2.spec_objects().has_type(o, ObjectType::KSynchronizationObject)) by {
                    assert(k2.spec_objects()@[o.0 as int].data == k0.spec_objects()@[o.0 as int].data);
                }
            }
            let (objs, threads) = kctx.parts_mut();
            objs.sync_wait(threads, o, waker);
            proof {
                Kernel::lemma_keeps_wf(&k2, kctx);
                k2.spec_threads().lemma_same_threads(&kctx.spec_threads());
                assert(spec_next_key(waker.key) != waker.key);
                assert(k2.spec_objects()@[o.0 as int].data == k0.spec_objects()@[o.0 as int].data);
                assert forall|j: int| 0 <= j < k0.spec_threads()@.len() && j != p implies kctx.spec_threads()@[j]
                    == #[trigger] k0.spec_threads()@[j] by {
                    assert(k2.spec_threads()@[j] == k0.spec_threads()@[j]);
                }
                assert forall|x: int| 0 <= x < k0.spec_objects()@.len() && !spec_ready(k0.spec_objects()@[x].data)
                    implies (#[trigger] kctx.spec_objects()@[x]).data == k0.spec_objects()@[x].data by {
                    assert(k2.spec_objects()@[x].data == k0.spec_objects()@[x].data);
                }
                assert forall|x: int| 0 <= x < k0.spec_objects()@.len() implies spec_kind((#[trigger] kctx.spec_objects()@[x]).data)
                    == spec_kind(k0.spec_objects()@[x].data) by {
                    assert(k2.spec_objects()@[x].data == k0.spec_objects()@[x].data);
                    if x == o.0 && spec_ready(k2.spec_objects().obj(o).data) {
                        lemma_after_wait_kind(k2.spec_objects().obj(o).data, kctx.spec_objects().obj(o).data);
                    }
                }
                if kctx.spec_threads()@[p].wake_key == waker.key {
                    assert(!spec_ready(k2.spec_objects().obj(o).data));
                    assert forall|x: int| 0 <= x < k0.spec_objects()@.len() implies (#[trigger] kctx.spec_objects()@[x]).data
                        == k0.spec_objects()@[x].data by {
                        if x != o.0 {
                            assert(kctx.spec_objects()@[x] == k2.spec_objects()@[x]);
                        }
                    }
                    assert forall|j: int| 0 <= j < i + 1 implies !spec_ready(
                        #[trigger] k0.spec_objects().obj(objects@[j]).data,
                    ) by {}
                } else {
                    assert(spec_ready(k0.spec_objects().obj(objects@[i as int]).data));
                }
            }
        }
        i = i + 1;
    }
    proof {
        crate::sync::lemma_thread_at(&kctx.spec_threads(), p);
        if forall|i: int| 0 <= i < handles@.len() ==> !spec_ready(
            #[trigger] k0.spec_objects().obj(k0.spec_lookup(handles@[i]).unwrap()).data,
        ) {
            if kctx.spec_threads()@[p].wake_key != waker.key {
                let j = choose|j: int| 0 <= j < objects@.len() && spec_ready(#[trigger] k0.spec_objects().obj(objects@[j]).data);
                assert(objects@[j] == k0.spec_lookup(handles@[j]).unwrap());
                assert(!spec_ready(k0.spec_objects().obj(k0.spec_lookup(handles@[j]).unwrap()).data));
            }
        }
    }
    Ok(Some(Reschedule))
}

/// Waiting on a ready object keeps its kind.
proof fn lemma_after_wait_kind(d0: KObjectData, d1: KObjectData)
    requires
        spec_ready(d0),
        spec_after_wait(d0, d1),
    ensures
        spec_kind(d1) == spec_kind(d0),
{
}

/// Handles that all refer to synchronisation objects still do when the
/// running process's handles and the objects' kinds are kept.
proof fn lemma_all_sync_kept(k0: &Kernel, k1: &Kernel, handles: Seq<Option<Handle>>)
    requires
        k0.wf(),
        k0.spec_current().is_some(),
        spec_all_sync(k0, handles),
        k1.spec_current() == k0.spec_current(),
        k1.spec_processes() == k0.spec_processes(),
        k1.spec_objects()@.len() == k0.spec_objects()@.len(),
        forall|x: int| 0 <= x < k0.spec_objects()@.len() ==> spec_kind((#[trigger] k1.spec_objects()@[x]).data)
            == spec_kind(k0.spec_objects()@[x].data),
    ensures
        spec_all_sync(k1, handles),
{
    k0.spec_processes().lemma_pos(k0.spec_current().unwrap().0);
    assert forall|i: int| 0 <= i < handles.len() implies spec_handle_is(k1, #[trigger] handles[i], ObjectType::KSynchronizationObject) by {
        assert(spec_handle_is(k0, handles[i], ObjectType::KSynchronizationObject));
        let o = k0.spec_lookup(handles[i]).unwrap();
        assert(k1.spec_objects()@[o.0 as int].data == k1.spec_objects().obj(o).data);
    }
}

/// Whether the other end of the port or session end `o` exists and has not
/// been dropped, is of kind `kind`, and is not `o` itself.
pub open spec fn spec_peer_ok(k: &Kernel, o: KObjectRef, kind: ObjectType) -> bool {
    &&& spec_peer(k.spec_objects().obj(o).data).object matches Some(s)
    &&& k.spec_objects().alive(s)
    &&& spec_kind(k.spec_objects().obj(s).data) == kind
    &&& s != o
}

/// Whether the other end of a port or session end exists and has not been
/// dropped, is of kind `kind`, and is not the end itself.
pub fn peer_ok(kctx: &Kernel, o: KObjectRef, kind: ObjectType) -> (r: bool)
    requires
        kctx.spec_objects().valid(o),
        ({
            let d = kctx.spec_objects().obj(o).data;
            d is ServerPort || d is ClientPort || d is ServerSession || d is ClientSession
        }),
    ensures
        r == spec_peer_ok(kctx, o, kind),
{
    match kctx.objects().peer(o).object {
        Some(s) => kctx.objects().is_alive(s) && kctx.kind_of(s) == kind && s != o,
        None => false,
    }
}

/// The other end of the port or session end `o`.
pub open spec fn spec_peer_of(k: &Kernel, o: KObjectRef) -> KObjectRef {
    spec_peer(k.spec_objects().obj(o).data).object.unwrap()
}

/// Kernel `k1` is `k0` after the running thread sent a request on client
/// session `o`: its request joins the server end's queue, it waits on `o`,
/// and the oldest thread waiting on the server end, if any, wakes.
pub open spec fn spec_request_sent(k0: &Kernel, k1: &Kernel, o: KObjectRef) -> bool {
    let s = spec_peer_of(k0, o);
    &&& spec_requests(k1.spec_objects().obj(s).data) == spec_requests(k0.spec_objects().obj(s).data).push(
        k0.spec_current().unwrap().1,
    )
    &&& k1.spec_current() == k0.spec_current()
    &&& k1.spec_processes() == k0.spec_processes()
    &&& k1.current_thread_spec().state == ThreadState::Waiting
    &&& k1.current_thread_spec().wait_objects@ == seq![o]
    &&& k0.spec_objects().obj(s).wakers@.len() > 0 ==> {
        let u = k0.spec_objects().obj(s).wakers@[0].waker.thread;
        spec_woken(k0.spec_threads().thread(u), k1.spec_threads().thread(u), ThreadWakeReason::Object(s))
    }
}

/// SendSyncRequest: the running thread sends the message in its IPC data
/// area on the client session a handle refers to and waits for the reply;
/// its request joins the server end's queue and a server thread waiting
/// there wakes. `HANDLE_TYPE_MISMATCH` when the handle is no client
/// session's.
pub fn send_sync_request(kctx: &mut Kernel, handle: Option<Handle>) -> (r: Result<Option<Reschedule>, u32>)
    requires
        old(kctx).wf(),
        old(kctx).spec_current().is_some(),
        old(kctx).current_thread_spec().state == ThreadState::Running,
        spec_handle_is(old(kctx), handle, ObjectType::KClientSession) ==> spec_peer_ok(
            old(kctx),
            old(kctx).spec_lookup(handle).unwrap(),
            ObjectType::ServerSessionHLE,
        ),
    ensures
        final(kctx).wf(),
        r is Ok == spec_handle_is(old(kctx), handle, ObjectType::KClientSession),
        r is Err ==> r == Err::<Option<Reschedule>, u32>(HANDLE_TYPE_MISMATCH) && *final(kctx) == *old(kctx),
        r is Ok ==> r == Ok::<Option<Reschedule>, u32>(Some(Reschedule)) && spec_request_sent(
            old(kctx),
            final(kctx),
            old(kctx).spec_lookup(handle).unwrap(),
        ),
{
    match lookup_typed(kctx, &handle, ObjectType::KClientSession) {
        Some(o) => {
            let mut objects: Vec<KObjectRef> = Vec::new();
            objects.push(o);
            let ghost k0 = *kctx;
            let waker = kctx.suspend_thread(objects, None, ThreadWaitType::WaitSync1);
            let ghost k1 = *kctx;
            proof {
                let tid = k0.spec_current().unwrap().1;
                k1.spec_threads().lemma_pos(tid);
                assert(k1.spec_threads().thread(tid).wait_objects@[0] == o);
                assert(k1.spec_threads().thread(tid).wait_objects@ =~= seq![o]);
            }
            let (objs, threads) = kctx.parts_mut();
            let _ = objs.sync_request(threads, o, waker);
            proof {
                Kernel::lemma_keeps_wf(&k1, kctx);
                let s = spec_peer_of(&k0, o);
                if k0.spec_objects().obj(s).wakers@.len() > 0 {
                    let u = k0.spec_objects().obj(s).wakers@[0].waker.thread;
                    let tid = k0.spec_current().unwrap().1;
                    assert(crate::sync::waker_ok(&k0.spec_threads(), k0.spec_objects()@[s.0 as int].wakers@[0].waker, s.0 as int));
                    assert(u != tid);
                    k0.spec_threads().lemma_pos(u);
                    k0.spec_threads().lemma_pos(tid);
                    assert(k1.spec_threads().thread(u) == k0.spec_threads().thread(u));
                    k1.spec_threads().lemma_same_threads(&kctx.spec_threads());
                }
            }
            Ok(Some(Reschedule))
        },
        None => Err(HANDLE_TYPE_MISMATCH),
    }
}

/// CreateSessionToPort: connects to the port whose client end a handle
/// refers to. A new session's server end joins the server port's queue
/// (waking a thread waiting to accept), the running thread waits on the
/// client port, and the running process gets a handle to the session's
/// client end. `HANDLE_TYPE_MISMATCH` when the handle is no client port's.
pub fn create_session_to_port(kctx: &mut Kernel, handle: Option<Handle>) -> (r: Result<(Option<Reschedule>, Handle), u32>)
    requires
        old(kctx).wf(),
        old(kctx).spec_current().is_some(),
        old(kctx).current_thread_spec().state == ThreadState::Running,
        old(kctx).current_process_spec().handles().dom().len() < u32::MAX,
        spec_handle_is(old(kctx), handle, ObjectType::KClientPort) ==> spec_peer_ok(
            old(kctx),
            old(kctx).spec_lookup(handle).unwrap(),
            ObjectType::ServerPortHLE,
        ),
    ensures
        final(kctx).wf(),
        r is Ok == spec_handle_is(old(kctx), handle, ObjectType::KClientPort),
        r is Err ==> r == Err::<(Option<Reschedule>, Handle), u32>(HANDLE_TYPE_MISMATCH) && *final(kctx) == *old(kctx),
        r matches Ok((resched, h)) ==> {
            let o = old(kctx).spec_lookup(handle).unwrap();
            let s = spec_peer_of(old(kctx), o);
            let n = old(kctx).spec_objects()@.len();
            &&& resched == Some(Reschedule)
            &&& final(kctx).spec_objects()@.len() == n + 2
            &&& spec_sessions(final(kctx).spec_objects().obj(s).data) == spec_sessions(old(kctx).spec_objects().obj(s).data).push(
                KTypedObject { object: KObjectRef(n as usize), ty: ObjectType::KServerSession },
            )
            &&& final(kctx).spec_objects().obj(KObjectRef(n as usize)).data is ServerSession
            &&& final(kctx).spec_objects().obj(KObjectRef((n + 1) as usize)).data is ClientSession
            &&& !old(kctx).current_process_spec().handles().dom().contains(h.spec_raw())
            &&& final(kctx).current_process_spec().handles() == old(kctx).current_process_spec().handles().insert(
                h.spec_raw(),
                KObjectRef((n + 1) as usize),
            )
            &&& final(kctx).spec_current() == old(kctx).spec_current()
        },
{
    match lookup_typed(kctx, &handle, ObjectType::KClientPort) {
        Some(o) => {
            let ghost k0 = *kctx;
            let (objs, threads) = kctx.parts_mut();
            let (server, client) = crate::ports::make_session_pair(objs, threads);
            proof {
                Kernel::lemma_keeps_wf(&k0, kctx);
                assert(kctx.spec_objects()@[o.0 as int] == k0.spec_objects()@[o.0 as int]);
                let s = spec_peer_of(&k0, o);
                assert(kctx.spec_objects()@[s.0 as int] == k0.spec_objects()@[s.0 as int]);
            }
            let ghost k1 = *kctx;
            let (objs, threads) = kctx.parts_mut();
            objs.create_session_to_port(threads, o, server);
            proof {
                Kernel::lemma_keeps_wf(&k1, kctx);
                let tid = k0.spec_current().unwrap().1;
                k1.spec_threads().lemma_pos(tid);
                k1.spec_threads().lemma_same_threads(&kctx.spec_threads());
            }
            let ghost k2 = *kctx;
            let mut objects: Vec<KObjectRef> = Vec::new();
            objects.push(o);
            let waker = kctx.suspend_thread(objects, None, ThreadWaitType::WaitSync1);
            let ghost k3 = *kctx;
            proof {
                let tid = k0.spec_current().unwrap().1;
                k3.spec_threads().lemma_pos(tid);
                assert(k3.spec_threads().thread(tid).wait_objects@[0] == o);
                assert(k3.spec_objects().has_type(o, ObjectType::KSynchronizationObject)) by {
                    assert(k3.spec_objects()@[o.0 as int].data is ClientPort);
                }
            }
            let (objs, threads) = kctx.parts_mut();
            objs.sync_wait(threads, o, waker);
            proof {
                Kernel::lemma_keeps_wf(&k3, kctx);
            }
            let ghost k4 = *kctx;
            let h = kctx.new_handle(client.object);
            proof {
                let s = spec_peer_of(&k0, o);
                let n = k0.spec_objects()@.len();
                assert(kctx.spec_objects()@.len() == n + 2);
                assert(k4.spec_objects()@[s.0 as int] == k3.spec_objects()@[s.0 as int]);
                assert(spec_sessions(kctx.spec_objects().obj(s).data) == spec_sessions(k0.spec_objects().obj(s).data).push(
                    KTypedObject { object: KObjectRef(n as usize), ty: ObjectType::KServerSession }));
                assert(k2.spec_objects()@[n as int].data == k1.spec_objects()@[n as int].data);
                assert(k2.spec_objects()@[n as int + 1].data == k1.spec_objects()@[n as int + 1].data);
                assert(!spec_ready(k3.spec_objects().obj(o).data));
                assert(k4.spec_objects()@[n as int] == k3.spec_objects()@[n as int]);
                assert(k4.spec_objects()@[n as int + 1] == k3.spec_objects()@[n as int + 1]);
                assert(kctx.spec_objects().obj(KObjectRef(n as usize)).data is ServerSession);
                assert(kctx.spec_objects().obj(KObjectRef((n + 1) as usize)).data is ClientSession);
                assert(kctx.current_process_spec().handles() == k0.current_process_spec().handles().insert(
                    h.spec_raw(), KObjectRef((n + 1) as usize)));
            }
            Ok((Some(Reschedule), h))
        },
        None => Err(HANDLE_TYPE_MISMATCH),
    }
}

/// AcceptSession: takes the oldest session waiting on the server port a
/// handle refers to, waking a thread waiting on the port's client end, and
/// gives the running process a handle to it; when no session waits, the
/// running thread waits on the port and is to try again when woken.
/// `HANDLE_TYPE_MISMATCH` when the handle is no server port's.
pub fn accept_session(kctx: &mut Kernel, handle: Option<Handle>) -> (r: Result<Result<Handle, Reschedule>, u32>)
    requires
        old(kctx).wf(),
        old(kctx).spec_current().is_some(),
        old(kctx).current_thread_spec().state == ThreadState::Running,
        old(kctx).current_process_spec().handles().dom().len() < u32::MAX,
        spec_handle_is(old(kctx), handle, ObjectType::KServerPort) && spec_sessions(
            old(kctx).spec_objects().obj(old(kctx).spec_lookup(handle).unwrap()).data,
        ).len() > 0 ==> spec_peer_ok(old(kctx), old(kctx).spec_lookup(handle).unwrap(), ObjectType::ClientPortHLE)
            && old(kctx).spec_objects().valid(
            spec_sessions(old(kctx).spec_objects().obj(old(kctx).spec_lookup(handle).unwrap()).data)[0].object,
        ),
    ensures
        final(kctx).wf(),
        r is Ok == spec_handle_is(old(kctx), handle, ObjectType::KServerPort),
        r is Err ==> r == Err::<Result<Handle, Reschedule>, u32>(HANDLE_TYPE_MISMATCH) && *final(kctx) == *old(kctx),
        r is Ok ==> {
            let o = old(kctx).spec_lookup(handle).unwrap();
            let q = spec_sessions(old(kctx).spec_objects().obj(o).data);
            &&& (q.len() > 0 <==> r->Ok_0 is Ok)
            &&& r->Ok_0 is Ok ==> {
                let h = r->Ok_0->Ok_0;
                &&& !old(kctx).current_process_spec().handles().dom().contains(h.spec_raw())
                &&& final(kctx).current_process_spec().handles() == old(kctx).current_process_spec().handles().insert(
                    h.spec_raw(),
                    q[0].object,
                )
                &&& spec_sessions(final(kctx).spec_objects().obj(o).data) == q.subrange(1, q.len() as int)
            }
            &&& r->Ok_0 is Err ==> {
                &&& final(kctx).current_thread_spec().state == ThreadState::Waiting
                &&& final(kctx).current_thread_spec().wait_objects@ == seq![o]
                &&& final(kctx).spec_objects().obj(o).wakers@ == old(kctx).spec_objects().obj(o).wakers@.push(
                    QueuedWaker {
                        waker: Waker { thread: old(kctx).spec_current().unwrap().1, key: old(kctx).current_thread_spec().wake_key },
                        addr: 0,
                    },
                )
            }
            &&& final(kctx).spec_current() == old(kctx).spec_current()
        },
{
    match lookup_typed(kctx, &handle, ObjectType::KServerPort) {
        Some(o) => {
            let ghost k0 = *kctx;
            let (objs, threads) = kctx.parts_mut();
            let session = objs.accept_session(threads, o);
            proof {
                Kernel::lemma_keeps_wf(&k0, kctx);
            }
            match session {
                Some(s) => {
                    let h = kctx.new_handle(s.object);
                    Ok(Ok(h))
                },
                None => {
                    let mut objects: Vec<KObjectRef> = Vec::new();
                    objects.push(o);
                    let waker = kctx.suspend_thread(objects, None, ThreadWaitType::WaitSync1);
                    let ghost k1 = *kctx;
                    proof {
                        let tid = k0.spec_current().unwrap().1;
                        k1.spec_threads().lemma_pos(tid);
                        assert(k1.spec_threads().thread(tid).wait_objects@[0] == o);
                    }
                    let (objs, threads) = kctx.parts_mut();
                    objs.sync_wait(threads, o, waker);
                    proof {
                        Kernel::lemma_keeps_wf(&k1, kctx);
                    }
                    Ok(Err(Reschedule))
                },
            }
        },
        None => Err(HANDLE_TYPE_MISMATCH),
    }
}

/// Whether the running thread can reply on server session `s`: a request
/// waits there from another existing thread, the running thread's message
/// can be translated, the requesting process has room for the handles it
/// may receive, and the session's client end exists.
pub open spec fn spec_reply_ok(k: &Kernel, s: KObjectRef) -> bool {
    let q = spec_requests(k.spec_objects().obj(s).data);
    &&& q.len() > 0
    &&& k.spec_threads().has(q[0])
    &&& q[0] != k.spec_current().unwrap().1
    &&& spec_translatable(k.current_thread_spec().ipc_data@, true)
    &&& k.spec_processes().process(k.spec_threads().thread(q[0]).pid).handles().dom().len() + 64 <= u32::MAX
    &&& spec_peer_ok(k, s, ObjectType::ClientSessionHLE)
}

/// `spec_reply_ok` for a running thread whose IPC data area holds `msg`.
pub open spec fn spec_reply_ok_with(k: &Kernel, s: KObjectRef, msg: Seq<u8>) -> bool {
    let q = spec_requests(k.spec_objects().obj(s).data);
    &&& q.len() > 0
    &&& k.spec_threads().has(q[0])
    &&& q[0] != k.spec_current().unwrap().1
    &&& spec_translatable(msg, true)
    &&& k.spec_processes().process(k.spec_threads().thread(q[0]).pid).handles().dom().len() + 64 <= u32::MAX
    &&& spec_peer_ok(k, s, ObjectType::ClientSessionHLE)
}

/// Whether the running thread can reply on server session `s`.
pub fn can_reply(kctx: &Kernel, s: KObjectRef) -> (r: bool)
    requires
        kctx.wf(),
        kctx.spec_current().is_some(),
        kctx.spec_objects().has_type(s, ObjectType::KServerSession),
    ensures
        r == spec_reply_ok(kctx, s),
{
    let (_, tid) = kctx.current_pid_tid();
    match kctx.objects().front_request(s) {
        None => false,
        Some(q0) => {
            if !kctx.has_thread(q0) || q0 == tid {
                return false;
            }
            let mut data: Vec<u8> = Vec::new();
            kctx.thread_ipc_data(tid, &mut data);
            proof {
                kctx.spec_threads().lemma_pos(tid);
            }
            if !translatable(data.as_slice(), true) {
                return false;
            }
            let count = kctx.thread_process_handle_count(q0);
            if count > 0xFFFF_FFFFusize - 64 {
                return false;
            }
            peer_ok(kctx, s, ObjectType::ClientSessionHLE)
        },
    }
}

/// In `k1`, the oldest thread that waited in `k0` on the client end of
/// server session `s`, if any, has woken.
pub open spec fn spec_client_woken(k0: &Kernel, k1: &Kernel, s: KObjectRef) -> bool {
    let c = spec_peer_of(k0, s);
    let q = k0.spec_objects().obj(c).wakers@;
    q.len() > 0 ==> {
        let t0 = k0.spec_threads().thread(q[0].waker.thread);
        let t1 = k1.spec_threads().thread(q[0].waker.thread);
        &&& t0.state == ThreadState::Waiting
        &&& t1.state == ThreadState::Ready
        &&& t1.wake_key == spec_next_key(t0.wake_key)
        &&& t1.wait_objects@.len() == 0
    }
}

/// The running thread replies on server session `s`: the oldest request
/// leaves the queue, the reply is translated into the requesting thread's
/// IPC data area, and a thread waiting on the client end wakes.
fn reply(kctx: &mut Kernel, s: KObjectRef)
    requires
        old(kctx).wf(),
        old(kctx).spec_current().is_some(),
        old(kctx).current_thread_spec().state == ThreadState::Running,
        old(kctx).spec_objects().has_type(s, ObjectType::KServerSession),
        spec_reply_ok(old(kctx), s),
    ensures
        final(kctx).wf(),
        final(kctx).spec_current() == old(kctx).spec_current(),
        final(kctx).current_thread_spec().state == ThreadState::Running,
        final(kctx).spec_objects()@.len() == old(kctx).spec_objects()@.len(),
        spec_requests(final(kctx).spec_objects().obj(s).data) == spec_requests(old(kctx).spec_objects().obj(s).data).subrange(
            1,
            spec_requests(old(kctx).spec_objects().obj(s).data).len() as int,
        ),
        spec_message_translated(
            old(kctx),
            final(kctx),
            old(kctx).spec_current().unwrap().1,
            spec_requests(old(kctx).spec_objects().obj(s).data)[0],
            true,
        ),
        final(kctx).spec_objects().obj(s).data is ServerSession,
        old(kctx).spec_threads().same_threads(&final(kctx).spec_threads()),
        spec_client_woken(old(kctx), final(kctx), s),
{
    let ghost k0 = *kctx;
    let (_, tid) = kctx.current_pid_tid();
    let (objs, threads) = kctx.parts_mut();
    let popped = objs.pop_request(s);
    proof {
        crate::sync::lemma_data_keeps_queues(&k0.spec_objects(), &k0.spec_threads(), &kctx.spec_objects(), s);
        Kernel::lemma_keeps_wf(&k0, kctx);
    }
    match popped {
        Some(q0) => {
            let ghost k1 = *kctx;
            proof {
                k1.spec_threads().lemma_pos(tid);
            }
            kctx.translate_ipc(tid, q0, true);
            let ghost k2 = *kctx;
            proof {
                k1.spec_threads().lemma_pos(q0);
                crate::sync::lemma_thread_frame(&k1.spec_threads(), &k2.spec_threads(), k1.spec_threads().pos(q0), tid);
                assert(k2.spec_objects().obj(s).data is ServerSession);
            }
            let client = kctx.objects().peer(s).object;
            match client {
                Some(c) => {
                    let (objs, threads) = kctx.parts_mut();
                    objs.wake_thread(threads, c);
                    proof {
                        let q = k0.spec_objects().obj(c).wakers@;
                        assert(c == spec_peer_of(&k0, s));
                        assert(k2.spec_objects().obj(c) == k0.spec_objects().obj(c));
                        if q.len() > 0 {
                            let u = q[0].waker.thread;
                            assert(crate::sync::waker_ok(&k0.spec_threads(), k0.spec_objects()@[c.0 as int].wakers@[0].waker, c.0 as int));
                            assert(u != tid);
                            k0.spec_threads().lemma_pos(u);
                            k0.spec_threads().lemma_same_threads(&k1.spec_threads());
                            k1.spec_threads().lemma_pos(u);
                            k1.spec_threads().lemma_same_threads(&k2.spec_threads());
                            k2.spec_threads().lemma_pos(u);
                            if u != q0 {
                                k1.spec_threads().lemma_pos(q0);
                                crate::sync::lemma_thread_frame(&k1.spec_threads(), &k2.spec_threads(), k1.spec_threads().pos(q0), u);
                            }
                            assert(k2.spec_threads().thread(u).state == k0.spec_threads().thread(u).state);
                            assert(k2.spec_threads().thread(u).wake_key == k0.spec_threads().thread(u).wake_key);
                            k2.spec_threads().lemma_same_threads(&kctx.spec_threads());
                            kctx.spec_threads().lemma_pos(u);
                        }
                        Kernel::lemma_keeps_wf(&k2, kctx);
                        k2.spec_threads().lemma_pos(tid);
                        crate::sync::lemma_thread_at(&k2.spec_threads(), k2.spec_threads().pos(tid));
                        k2.spec_threads().lemma_same_threads(&kctx.spec_threads());
                        k2.spec_threads().lemma_pos(q0);
                        let o2 = k2.spec_objects().obj(c).wakers@;
                        if o2.len() > 0 {
                            k2.spec_threads().lemma_pos(o2[0].waker.thread);
                        }
                        assert(kctx.spec_threads().thread(q0).ipc_data == k2.spec_threads().thread(q0).ipc_data);
                    }
                },
                None => {},
            }
            proof {
                lemma_message_translated_kept(&k1, &k2, &k0, kctx, tid, q0, true);
            }
        },
        None => {},
    }
}

/// Whether every handle of a list refers to a synchronisation object.
pub open spec fn spec_all_sync(k: &Kernel, handles: Seq<Option<Handle>>) -> bool {
    forall|i: int| 0 <= i < handles.len() ==> spec_handle_is(k, #[trigger] handles[i], ObjectType::KSynchronizationObject)
}

/// Whether every handle of a list refers to a synchronisation object.
pub fn all_sync(kctx: &Kernel, handles: &[Option<Handle>]) -> (r: bool)
    requires
        kctx.wf(),
        kctx.spec_current().is_some(),
    ensures
        r == spec_all_sync(kctx, handles@),
{
    let mut i: usize = 0;
    while i < handles.len()
        invariant
            kctx.wf(),
            kctx.spec_current().is_some(),
            i <= handles@.len(),
            forall|j: int| 0 <= j < i ==> spec_handle_is(kctx, #[trigger] handles@[j], ObjectType::KSynchronizationObject),
        decreases handles@.len() - i,
    {
        if lookup_typed(kctx, &handles[i], ObjectType::KSynchronizationObject).is_none() {
            return false;
        }
        i = i + 1;
    }
    true
}

/// ReplyAndReceive, before the wait: replies on the server session
/// `reply_target` refers to, if any (its oldest request leaves the queue
/// and the running thread's message is translated into the requesting
/// thread's IPC data area), then waits without end on `handles`
/// as WaitSynchronizationN does. `HANDLE_TYPE_MISMATCH` when
/// `reply_target` is given and is no server session's; `Ok(None)`, which
/// callers take as a fault, when after the reply some handle of `handles`
/// is no synchronisation object's.
pub fn reply_and_receive_pre(kctx: &mut Kernel, handles: &[Option<Handle>], reply_target: Option<Handle>) -> (r: Result<
    Option<Reschedule>,
    u32,
>)
    requires
        old(kctx).wf(),
        old(kctx).spec_current().is_some(),
        old(kctx).current_thread_spec().state == ThreadState::Running,
        reply_target is Some && spec_handle_is(old(kctx), reply_target, ObjectType::KServerSession) ==> spec_reply_ok(
            old(kctx),
            old(kctx).spec_lookup(reply_target).unwrap(),
        ),
    ensures
        final(kctx).wf(),
        r is Err == (reply_target is Some && !spec_handle_is(old(kctx), reply_target, ObjectType::KServerSession)),
        r is Err ==> r == Err::<Option<Reschedule>, u32>(HANDLE_TYPE_MISMATCH) && *final(kctx) == *old(kctx),
        r is Ok ==> r == Ok::<Option<Reschedule>, u32>(Some(Reschedule)) || r == Ok::<Option<Reschedule>, u32>(None),
        reply_target is None ==> (r == Ok::<Option<Reschedule>, u32>(Some(Reschedule)) <==> spec_all_sync(old(kctx), handles@)),
        r == Ok::<Option<Reschedule>, u32>(None) <==> (r is Ok && !spec_all_sync(final(kctx), handles@)),
        reply_target is Some && spec_handle_is(old(kctx), reply_target, ObjectType::KServerSession) ==> {
            let s = old(kctx).spec_lookup(reply_target).unwrap();
            &&& spec_requests(final(kctx).spec_objects().obj(s).data) == spec_requests(old(kctx).spec_objects().obj(s).data).subrange(
                1,
                spec_requests(old(kctx).spec_objects().obj(s).data).len() as int,
            )
            &&& spec_message_translated(
                old(kctx),
                final(kctx),
                old(kctx).spec_current().unwrap().1,
                spec_requests(old(kctx).spec_objects().obj(s).data)[0],
                true,
            )
            &&& spec_client_woken(old(kctx), final(kctx), s)
        },
        r == Ok::<Option<Reschedule>, u32>(Some(Reschedule)) ==> final(kctx).current_thread_spec().wait_type == Some(
            ThreadWaitType::WaitSyncN,
        ),
        final(kctx).spec_current() == old(kctx).spec_current(),
{
    let ghost k0 = *kctx;
    match reply_target {
        Some(_) => {
            match lookup_typed(kctx, &reply_target, ObjectType::KServerSession) {
                Some(s) => reply(kctx, s),
                None => {
                    return Err(HANDLE_TYPE_MISMATCH);
                },
            }
        },
        None => {},
    }
    let ghost k1 = *kctx;
    if all_sync(kctx, handles) {
        let r = wait_sync_n(kctx, handles, false, -1);
        proof {
            lemma_all_sync_kept(&k1, kctx, handles@);
            if reply_target is Some && spec_handle_is(&k0, reply_target, ObjectType::KServerSession) {
                let s = k0.spec_lookup(reply_target).unwrap();
                let q0 = spec_requests(k0.spec_objects().obj(s).data)[0];
                let tid = k0.spec_current().unwrap().1;
                assert(kctx.spec_objects()@[s.0 as int].data == k1.spec_objects()@[s.0 as int].data);
                k0.spec_threads().lemma_same_threads(&k1.spec_threads());
                k1.spec_threads().lemma_pos(q0);
                k1.spec_threads().lemma_pos(tid);
                assert(kctx.spec_threads()@[k1.spec_threads().pos(q0)] == k1.spec_threads()@[k1.spec_threads().pos(q0)]);
                lemma_message_translated_kept(&k0, &k1, &k0, kctx, tid, q0, true);
                let c = spec_peer_of(&k0, s);
                let cq = k0.spec_objects().obj(c).wakers@;
                if cq.len() > 0 {
                    let u = cq[0].waker.thread;
                    assert(crate::sync::waker_ok(&k0.spec_threads(), k0.spec_objects()@[c.0 as int].wakers@[0].waker, c.0 as int));
                    k0.spec_threads().lemma_pos(u);
                    k1.spec_threads().lemma_pos(u);
                    assert(u != tid);
                    let pt = k1.spec_threads().pos(tid);
                    kctx.spec_threads().lemma_pos(tid);
                    let kt = kctx.spec_threads().pos(tid);
                    if kt != pt {
                        assert(k1.spec_threads()@[kt] == kctx.spec_threads()@[kt]);
                    }
                    crate::sync::lemma_thread_frame(&k1.spec_threads(), &kctx.spec_threads(), pt, u);
                }
            }
        }
        r
    } else {
        Ok(None)
    }
}

/// Whether the running thread can receive the oldest request on server
/// session `s`: the requesting thread exists and is another one, its
/// message can be translated, and the running process has room for the
/// handles it may receive.
pub open spec fn spec_receive_ok(k: &Kernel, s: KObjectRef) -> bool {
    let q = spec_requests(k.spec_objects().obj(s).data);
    q.len() > 0 ==> {
        &&& k.spec_threads().has(q[0])
        &&& q[0] != k.spec_current().unwrap().1
        &&& spec_translatable(k.spec_threads().thread(q[0]).ipc_data@, false)
        &&& k.current_process_spec().handles().dom().len() + 64 <= u32::MAX
    }
}

/// Whether the running thread can receive the oldest request, if any, on
/// server session `s`.
pub fn can_receive(kctx: &Kernel, s: KObjectRef) -> (r: bool)
    requires
        kctx.wf(),
        kctx.spec_current().is_some(),
        kctx.spec_objects().has_type(s, ObjectType::KServerSession),
    ensures
        r == spec_receive_ok(kctx, s),
{
    let (_, tid) = kctx.current_pid_tid();
    match kctx.objects().front_request(s) {
        None => true,
        Some(q0) => {
            if !kctx.has_thread(q0) || q0 == tid {
                return false;
            }
            let mut data: Vec<u8> = Vec::new();
            kctx.thread_ipc_data(q0, &mut data);
            if !translatable(data.as_slice(), false) {
                return false;
            }
            kctx.current_handle_count() <= 0xFFFF_FFFFusize - 64
        },
    }
}

/// ReplyAndReceive, after the wait: the object at position `index` of
/// `handles`, the one that ended the wait, is returned; when it is a server
/// session, its oldest request is translated into the running thread's IPC
/// data area, or `SESSION_EMPTY` is reported when it has none.
pub fn reply_and_receive_post(kctx: &mut Kernel, handles: &[Option<Handle>], resume: &ThreadResume) -> (r: (usize, Result<(), u32>))
    requires
        old(kctx).wf(),
        old(kctx).spec_current().is_some(),
        resume is WaitSyncN,
        resume->index < handles@.len(),
        spec_handle_is(old(kctx), handles@[resume->index as int], ObjectType::KServerSession) ==> spec_receive_ok(
            old(kctx),
            old(kctx).spec_lookup(handles@[resume->index as int]).unwrap(),
        ),
    ensures
        final(kctx).wf(),
        r.0 == resume->index,
        ({
            let h = handles@[resume->index as int];
            let s = old(kctx).spec_lookup(h).unwrap();
            let q = spec_requests(old(kctx).spec_objects().obj(s).data);
            &&& r.1 is Err == (spec_handle_is(old(kctx), h, ObjectType::KServerSession) && q.len() == 0)
            &&& r.1 is Err ==> r.1 == Err::<(), u32>(SESSION_EMPTY) && *final(kctx) == *old(kctx)
            &&& !spec_handle_is(old(kctx), h, ObjectType::KServerSession) ==> *final(kctx) == *old(kctx)
            &&& spec_handle_is(old(kctx), h, ObjectType::KServerSession) && q.len() > 0 ==> {
                &&& spec_message_translated(old(kctx), final(kctx), q[0], old(kctx).spec_current().unwrap().1, false)
                &&& final(kctx).spec_objects()@ == old(kctx).spec_objects()@
            }
        }),
        final(kctx).spec_current() == old(kctx).spec_current(),
{
    let index = match resume {
        ThreadResume::WaitSyncN { index } => *index,
        _ => 0,
    };
    match lookup_typed(kctx, &handles[index], ObjectType::KServerSession) {
        Some(s) => {
            let (_, tid) = kctx.current_pid_tid();
            match kctx.objects().front_request(s) {
                Some(q0) => {
                    proof {
                        kctx.spec_threads().lemma_pos(tid);
                        kctx.spec_processes().lemma_pos(kctx.spec_current().unwrap().0);
                    }
                    kctx.translate_ipc(q0, tid, false);
                    (index, Ok(()))
                },
                None => (index, Err(SESSION_EMPTY)),
            }
        },
        None => (index, Ok(())),
    }
}

/// CloseHandle: closes a handle of the running process;
/// `HANDLE_TYPE_MISMATCH` when there is no handle or it is not open.
pub fn close_handle(kctx: &mut Kernel, handle: Option<Handle>) -> (r: Result<(), u32>)
    requires
        old(kctx).wf(),
        old(kctx).spec_current().is_some(),
    ensures
        final(kctx).wf(),
        r is Ok == old(kctx).spec_lookup(handle).is_some(),
        r is Err ==> r == Err::<(), u32>(HANDLE_TYPE_MISMATCH),
        handle matches Some(h) ==> final(kctx).current_process_spec().handles()
            == old(kctx).current_process_spec().handles().remove(h.spec_raw()),
        handle is None ==> *final(kctx) == *old(kctx),
        final(kctx).spec_objects()@ == old(kctx).spec_objects()@,
        r is Err ==> old(kctx).spec_objects().same_counts(&final(kctx).spec_objects()),
        r is Ok ==> crate::kernel::spec_released(
            &old(kctx).spec_objects(),
            &final(kctx).spec_objects(),
            old(kctx).spec_lookup(handle).unwrap(),
        ),
        final(kctx).spec_threads() == old(kctx).spec_threads(),
        old(kctx).same_schedule(final(kctx)),
{
    let ok = match &handle {
        Some(h) => kctx.close_handle(h),
        None => false,
    };
    if ok {
        Ok(())
    } else {
        Err(HANDLE_TYPE_MISMATCH)
    }
}

} // verus!
