//! Ports and sessions: a client connects to a server port and gets a
//! session; requests on a session wait in order until the server replies.

use vstd::prelude::*;
use crate::object::{
    spec_kind, spec_mentions, spec_peer, spec_requests, spec_sessions, spec_without_thread, ClientPortHLE, ClientSessionHLE, KObjectData, KObjectRef,
    KTypedObject, KWeakTypedObject, ObjectManager, ObjectType, QueuedWaker, ServerPortHLE, ServerSessionHLE, Waker,
};
use crate::sync::{inv, lemma_data_keeps_queues, lemma_push_keeps_queues, spec_others_after_wake, spec_woken_from, waker_ok};
use crate::thread::{spec_woken, CommonThreadManager, ThreadWakeReason};
use crate::types::ThreadIndex;

verus! {

/// Adding objects without waiting threads keeps the invariant.
pub proof fn lemma_grow_keeps_inv(objs0: &ObjectManager, ct: &CommonThreadManager, objs1: &ObjectManager)
    requires
        inv(objs0, ct),
        objs1@.len() >= objs0@.len(),
        forall|j: int| 0 <= j < objs0@.len() ==> objs1@[j] == #[trigger] objs0@[j],
        forall|j: int| objs0@.len() <= j < objs1@.len() ==> (#[trigger] objs1@[j]).wakers@.len() == 0,
    ensures
        inv(objs1, ct),
{
    assert forall|j: int, i: int| 0 <= j < objs1@.len() && 0 <= i < objs1@[j].wakers@.len() implies waker_ok(
        ct,
        (#[trigger] objs1@[j].wakers@[i]).waker,
        j,
    ) by {
        assert(j < objs0@.len());
        assert(objs1@[j] == objs0@[j]);
        assert(waker_ok(ct, objs0@[j].wakers@[i].waker, j));
    }
    assert forall|k: int| 0 <= k < ct@.len() implies crate::thread::spec_refs_valid(#[trigger] ct@[k], objs1) by {
        assert(crate::thread::spec_refs_valid(ct@[k], objs0));
    }
}

/// Whether `s` and `c` are the server and client ends made together.
pub open spec fn spec_pair(objs: &ObjectManager, s: KTypedObject, c: KTypedObject) -> bool {
    &&& objs.valid(s.object)
    &&& objs.valid(c.object)
    &&& spec_peer(objs.obj(s.object).data).object == Some(c.object)
    &&& spec_peer(objs.obj(c.object).data).object == Some(s.object)
    &&& objs.obj(s.object).wakers@.len() == 0
    &&& objs.obj(c.object).wakers@.len() == 0
}

/// `after` is the session queue `before` of a server port after an
/// accept that gave `r`: the oldest session, taken off the queue, or none
/// from an empty queue, which stays empty.
pub open spec fn spec_accepted(before: Seq<KTypedObject>, after: Seq<KTypedObject>, r: Option<KTypedObject>) -> bool {
    &&& before.len() == 0 ==> r is None && after == before
    &&& before.len() > 0 ==> r == Some(before[0]) && after == before.subrange(1, before.len() as int)
}

/// Sessions queued on a server port are accepted oldest first, each once,
/// and once the queue is empty every accept gives none.
pub proof fn law_sessions_accepted_in_order(queues: Seq<Seq<KTypedObject>>, results: Seq<Option<KTypedObject>>)
    requires
        queues.len() == results.len() + 1,
        forall|i: int| 0 <= i < results.len() ==> #[trigger] spec_accepted(queues[i], queues[i + 1], results[i]),
    ensures
        forall|i: int| 0 <= i < results.len() ==> #[trigger] results[i] == if i < queues[0].len() {
            Some(queues[0][i])
        } else {
            None
        },
        results.len() <= queues[0].len() ==> queues[results.len() as int] == queues[0].subrange(results.len() as int, queues[0].len() as int),
        results.len() > queues[0].len() ==> queues[results.len() as int].len() == 0,
    decreases results.len(),
{
    if results.len() > 0 {
        let k = results.len() - 1;
        let qs = queues.subrange(0, k + 1);
        let rs = results.subrange(0, k);
        assert forall|i: int| 0 <= i < rs.len() implies #[trigger] spec_accepted(qs[i], qs[i + 1], rs[i]) by {
            assert(spec_accepted(queues[i], queues[i + 1], results[i]));
        }
        law_sessions_accepted_in_order(qs, rs);
        assert(qs[k] == queues[k]);
        assert(spec_accepted(queues[k], queues[k + 1], results[k]));
        if k < queues[0].len() {
            assert(queues[k][0] == queues[0][k]);
            assert(queues[k + 1] =~= queues[0].subrange(k + 1, queues[0].len() as int));
        }
        assert forall|i: int| 0 <= i < results.len() implies #[trigger] results[i] == if i < queues[0].len() {
            Some(queues[0][i])
        } else {
            None
        } by {
            if i < k {
                assert(rs[i] == results[i]);
            }
        }
    }
}

/// Makes a port: a server end and a client end that refer to each other.
pub fn make_port_pair(objs: &mut ObjectManager, ct: &CommonThreadManager) -> (r: (KTypedObject, KTypedObject))
    requires
        inv(old(objs), ct),
    ensures
        inv(final(objs), ct),
        final(objs)@.len() == old(objs)@.len() + 2,
        forall|j: int| 0 <= j < old(objs)@.len() ==> final(objs)@[j] == #[trigger] old(objs)@[j],
        r.0.object.0 == old(objs)@.len(),
        r.1.object.0 == old(objs)@.len() + 1,
        r.0.ty == ObjectType::KServerPort,
        r.1.ty == ObjectType::KClientPort,
        final(objs).obj(r.0.object).data is ServerPort,
        final(objs).obj(r.1.object).data is ClientPort,
        spec_sessions(final(objs).obj(r.0.object).data).len() == 0,
        spec_pair(final(objs), r.0, r.1),
        final(objs).spec_ref_count(r.0.object) == 1,
        final(objs).spec_ref_count(r.1.object) == 1,
        forall|o: KObjectRef| o.0 < old(objs)@.len() ==> #[trigger] final(objs).spec_ref_count(o) == old(objs).spec_ref_count(o),
{
    let ghost objs0 = *objs;
    let server = objs.new_object_typed(
        KObjectData::ServerPort(
            ServerPortHLE { session_queue: Vec::new(), client: KWeakTypedObject::empty(ObjectType::ClientPortHLE) },
        ),
    );
    let client = objs.new_object_typed(
        KObjectData::ClientPort(ClientPortHLE { server: KTypedObject::downgrade(&server) }),
    );
    objs.set_peer(server.object, KTypedObject::downgrade(&client));
    proof {
        lemma_grow_keeps_inv(&objs0, ct, objs);
    }
    (KTypedObject { object: server.object, ty: ObjectType::KServerPort }, KTypedObject {
        object: client.object,
        ty: ObjectType::KClientPort,
    })
}

/// Makes a session: a server end and a client end that refer to each other.
pub fn make_session_pair(objs: &mut ObjectManager, ct: &CommonThreadManager) -> (r: (KTypedObject, KTypedObject))
    requires
        inv(old(objs), ct),
    ensures
        inv(final(objs), ct),
        final(objs)@.len() == old(objs)@.len() + 2,
        forall|j: int| 0 <= j < old(objs)@.len() ==> final(objs)@[j] == #[trigger] old(objs)@[j],
        r.0.object.0 == old(objs)@.len(),
        r.1.object.0 == old(objs)@.len() + 1,
        r.0.ty == ObjectType::KServerSession,
        r.1.ty == ObjectType::KClientSession,
        final(objs).obj(r.0.object).data is ServerSession,
        final(objs).obj(r.1.object).data is ClientSession,
        spec_requests(final(objs).obj(r.0.object).data).len() == 0,
        spec_pair(final(objs), r.0, r.1),
        final(objs).spec_ref_count(r.0.object) == 1,
        final(objs).spec_ref_count(r.1.object) == 1,
        forall|o: KObjectRef| o.0 < old(objs)@.len() ==> #[trigger] final(objs).spec_ref_count(o) == old(objs).spec_ref_count(o),
{
    let ghost objs0 = *objs;
    let server = objs.new_object_typed(
        KObjectData::ServerSession(
            ServerSessionHLE {
                request_queue: Vec::new(),
                client: KWeakTypedObject::empty(ObjectType::ClientSessionHLE),
            },
        ),
    );
    let client = objs.new_object_typed(
        KObjectData::ClientSession(ClientSessionHLE { server: KTypedObject::downgrade(&server) }),
    );
    objs.set_peer(server.object, KTypedObject::downgrade(&client));
    proof {
        lemma_grow_keeps_inv(&objs0, ct, objs);
    }
    (KTypedObject { object: server.object, ty: ObjectType::KServerSession }, KTypedObject {
        object: client.object,
        ty: ObjectType::KClientSession,
    })
}

/// The effect of waking the oldest waiter of an object, if any.
pub open spec fn spec_woke_oldest(
    objs0: &ObjectManager,
    ct0: &CommonThreadManager,
    objs1: &ObjectManager,
    ct1: &CommonThreadManager,
    this: KObjectRef,
) -> bool {
    &&& objs0.obj(this).wakers@.len() == 0 ==> ct1@ == ct0@
    &&& objs0.obj(this).wakers@.len() > 0 ==> spec_woken(
        ct0.thread(objs0.obj(this).wakers@[0].waker.thread),
        ct1@[ct0.pos(objs0.obj(this).wakers@[0].waker.thread)],
        ThreadWakeReason::Object(this),
    )
    &&& objs0.obj(this).wakers@.len() > 0 ==> ct0.same_except(ct1, ct0.pos(objs0.obj(this).wakers@[0].waker.thread))
}

impl ObjectManager {
    /// Wakes the oldest thread waiting on a port or session end.
    pub fn wake_thread(&mut self, ct: &mut CommonThreadManager, this: KObjectRef)
        requires
            inv(old(self), old(ct)),
            old(self).valid(this),
        ensures
            old(ct).same_threads(final(ct)),
            inv(final(self), final(ct)),
            final(self)@.len() == old(self)@.len(),
            forall|j: int| 0 <= j < old(self)@.len() ==> (#[trigger] final(self)@[j]).data == old(self)@[j].data,
            spec_woke_oldest(old(self), old(ct), final(self), final(ct), this),
            spec_others_after_wake(old(self), old(ct), final(self), this),
            old(ct).keeps_unblocked(final(ct)),
    {
        let _ = self.signal_waiters(ct, this, false);
    }

    /// Queues a new session on a server port and wakes a thread waiting
    /// to accept one.
    pub fn enqueue_session(&mut self, ct: &mut CommonThreadManager, this: KObjectRef, session: KTypedObject)
        requires
            inv(old(self), old(ct)),
            old(self).valid(this),
            old(self).obj(this).data is ServerPort,
        ensures
            old(ct).keeps_unblocked(final(ct)),
            old(ct).same_threads(final(ct)),
            inv(final(self), final(ct)),
            final(self)@.len() == old(self)@.len(),
            forall|j: int| 0 <= j < old(self)@.len() && j != this.0 ==> (#[trigger] final(self)@[j]).data == old(self)@[j].data,
            final(self).obj(this).data is ServerPort,
            spec_sessions(final(self).obj(this).data) == spec_sessions(old(self).obj(this).data).push(session),
            spec_peer(final(self).obj(this).data) == spec_peer(old(self).obj(this).data),
            spec_woke_oldest(old(self), old(ct), final(self), final(ct), this),
    {
        let ghost objs0 = *self;
        self.push_session(this, session);
        proof {
            lemma_data_keeps_queues(&objs0, ct, self, this);
        }
        let ghost objs1 = *self;
        self.wake_thread(ct, this);
        proof {
            assert forall|j: int| 0 <= j < old(self)@.len() && j != this.0 implies (#[trigger] self@[j]).data == old(self)@[j].data by {
                assert(objs1@[j] == objs0@[j]);
            }
        }
    }

    /// Takes the oldest session waiting on a server port; when there is
    /// one, a thread waiting on the client end of the port wakes.
    pub fn accept_session(&mut self, ct: &mut CommonThreadManager, this: KObjectRef) -> (r: Option<KTypedObject>)
        requires
            inv(old(self), old(ct)),
            old(self).valid(this),
            old(self).obj(this).data is ServerPort,
            spec_sessions(old(self).obj(this).data).len() > 0 ==> (spec_peer(old(self).obj(this).data).object matches Some(
                c,
            ) && old(self).alive(c)),
        ensures
            old(ct).keeps_unblocked(final(ct)),
            old(ct).same_threads(final(ct)),
            inv(final(self), final(ct)),
            final(self)@.len() == old(self)@.len(),
            spec_sessions(old(self).obj(this).data).len() == 0 ==> r.is_none() && final(self)@ == old(self)@ && final(ct)@
                == old(ct)@,
            spec_sessions(old(self).obj(this).data).len() > 0 ==> r == Some(spec_sessions(old(self).obj(this).data)[0])
                && spec_sessions(final(self).obj(this).data) == spec_sessions(old(self).obj(this).data).subrange(
                1,
                spec_sessions(old(self).obj(this).data).len() as int,
            ),
            spec_accepted(spec_sessions(old(self).obj(this).data), spec_sessions(final(self).obj(this).data), r),
    {
        let ghost objs0 = *self;
        if let KObjectData::ServerPort(p) = &self.get(this).data {
            if p.session_queue.len() == 0 {
                return None;
            }
        }
        let session = self.pop_session(this);
        proof {
            lemma_data_keeps_queues(&objs0, ct, self, this);
        }
        match self.peer(this).object {
            Some(c) => {
                let ghost objs1 = *self;
                self.wake_thread(ct, c);
                proof {
                    assert(self@[this.0 as int].data == objs1@[this.0 as int].data);
                }
            },
            None => {},
        }
        session
    }

    /// Connects a client port to its server: the new session's server end
    /// is queued on the server port.
    pub fn create_session_to_port(&mut self, ct: &mut CommonThreadManager, this: KObjectRef, server_session: KTypedObject)
        requires
            inv(old(self), old(ct)),
            old(self).valid(this),
            old(self).obj(this).data is ClientPort,
            (spec_peer(old(self).obj(this).data).object matches Some(s) && old(self).alive(s) && old(self).obj(s).data is ServerPort),
        ensures
            old(ct).keeps_unblocked(final(ct)),
            old(ct).same_threads(final(ct)),
            inv(final(self), final(ct)),
            final(self)@.len() == old(self)@.len(),
            spec_sessions(final(self).obj(spec_peer(old(self).obj(this).data).object.unwrap()).data) == spec_sessions(
                old(self).obj(spec_peer(old(self).obj(this).data).object.unwrap()).data,
            ).push(server_session),
            final(self).obj(spec_peer(old(self).obj(this).data).object.unwrap()).data is ServerPort,
            forall|j: int| 0 <= j < old(self)@.len() && j != spec_peer(old(self).obj(this).data).object.unwrap().0
                ==> (#[trigger] final(self)@[j]).data == old(self)@[j].data,
    {
        match self.peer(this).object {
            Some(s) => {
                self.enqueue_session(ct, s, server_session);
            },
            None => {},
        }
    }

    /// Queues the request of thread `data` on a server session and wakes a
    /// server thread waiting on it.
    pub fn enqueue_sync_request(&mut self, ct: &mut CommonThreadManager, this: KObjectRef, data: ThreadIndex)
        requires
            inv(old(self), old(ct)),
            old(self).valid(this),
            old(self).obj(this).data is ServerSession,
        ensures
            old(ct).keeps_unblocked(final(ct)),
            old(ct).same_threads(final(ct)),
            inv(final(self), final(ct)),
            final(self)@.len() == old(self)@.len(),
            forall|j: int| 0 <= j < old(self)@.len() && j != this.0 ==> (#[trigger] final(self)@[j]).data == old(self)@[j].data,
            final(self).obj(this).data is ServerSession,
            spec_requests(final(self).obj(this).data) == spec_requests(old(self).obj(this).data).push(data),
            spec_peer(final(self).obj(this).data) == spec_peer(old(self).obj(this).data),
            spec_woke_oldest(old(self), old(ct), final(self), final(ct), this),
            spec_others_after_wake(old(self), old(ct), final(self), this),
    {
        let ghost objs0 = *self;
        self.push_request(this, data);
        proof {
            lemma_data_keeps_queues(&objs0, ct, self, this);
        }
        let ghost objs1 = *self;
        self.wake_thread(ct, this);
        proof {
            assert forall|j: int| 0 <= j < old(self)@.len() && j != this.0 implies (#[trigger] self@[j]).data == old(self)@[j].data by {
                assert(objs1@[j] == objs0@[j]);
            }
        }
    }

    /// Sends a request on a client session: the calling thread's waker
    /// waits on the client end and its request is queued on the server end.
    /// False, and nothing queued, when the session has no server end or
    /// its server end has been dropped.
    pub fn sync_request(&mut self, ct: &mut CommonThreadManager, this: KObjectRef, w: Waker) -> (r: bool)
        requires
            inv(old(self), old(ct)),
            old(self).valid(this),
            old(self).obj(this).data is ClientSession,
            waker_ok(old(ct), w, this.0 as int),
            old(ct).thread(w.thread).wait_objects@ == seq![this],
            (spec_peer(old(self).obj(this).data).object matches Some(s) ==> old(self).valid(s) && old(self).obj(s).data is ServerSession
                && s != this),
        ensures
            old(ct).keeps_unblocked(final(ct)),
            old(ct).same_threads(final(ct)),
            inv(final(self), final(ct)),
            final(self)@.len() == old(self)@.len(),
            r == (spec_peer(old(self).obj(this).data).object matches Some(s) && old(self).alive(s)),
            !r ==> final(self)@ == old(self)@ && final(ct)@ == old(ct)@ && old(self).same_counts(final(self)),
            r ==> spec_requests(final(self).obj(spec_peer(old(self).obj(this).data).object.unwrap()).data) == spec_requests(
                old(self).obj(spec_peer(old(self).obj(this).data).object.unwrap()).data,
            ).push(w.thread),
            final(ct).thread(w.thread) == old(ct).thread(w.thread),
            r && old(self).obj(spec_peer(old(self).obj(this).data).object.unwrap()).wakers@.len() > 0 ==> {
                let s = spec_peer(old(self).obj(this).data).object.unwrap();
                let u = old(self).obj(s).wakers@[0].waker.thread;
                spec_woken(old(ct).thread(u), final(ct)@[old(ct).pos(u)], ThreadWakeReason::Object(s))
            },
            r ==> {
                let s = spec_peer(old(self).obj(this).data).object.unwrap();
                let q = old(self).obj(s).wakers@;
                let queued = old(self).obj(this).wakers@.push(QueuedWaker { waker: w, addr: 0 });
                let dropped = q.len() > 0 && spec_mentions(old(ct).thread(q[0].waker.thread).wait_objects@, this.0 as int);
                &&& final(self).obj(this).data == old(self).obj(this).data
                &&& dropped ==> final(self).obj(this).wakers@ == spec_without_thread(queued, q[0].waker.thread.0 as u64)
                &&& !dropped ==> final(self).obj(this).wakers@ == queued
            },
    {
        let server = match self.peer(this).object {
            Some(so) => if self.is_alive(so) {
                Some(KTypedObject { object: so, ty: ObjectType::KServerSession })
            } else {
                None
            },
            None => None,
        };
        match server {
            Some(s) => {
                let ghost objs0 = *self;
                let ghost ct0 = *ct;
                let thread_id = w.thread_id();
                self.push_waker(this, QueuedWaker { waker: w, addr: 0 });
                proof {
                    lemma_push_keeps_queues(&objs0, ct, self, this, QueuedWaker { waker: w, addr: 0 });
                }
                let ghost objs1 = *self;
                self.enqueue_sync_request(ct, s.object, thread_id);
                proof {
                    assert(objs1.obj(s.object).wakers == objs0.obj(s.object).wakers);
                    ct0.lemma_pos(w.thread);
                    if objs1.obj(s.object).wakers@.len() > 0 {
                        let u = objs1.obj(s.object).wakers@[0].waker.thread;
                        assert(waker_ok(&ct0, objs1@[s.object.0 as int].wakers@[0].waker, s.object.0 as int));
                        if u == w.thread {
                            let k = choose|k: int| 0 <= k < ct0.thread(u).wait_objects@.len()
                                && (#[trigger] ct0.thread(u).wait_objects@[k]).0 == s.object.0;
                            assert(ct0.thread(u).wait_objects@[k] == this);
                        }
                        ct0.lemma_pos(u);
                    }
                }
                true
            },
            None => false,
        }
    }
}

} // verus!
