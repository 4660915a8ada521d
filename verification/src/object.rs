//! Kernel objects: their kinds and state, references to them, typed
//! references that know which interface an object offers, the waker queue
//! that every object keeps, and the manager that owns all objects.

use vstd::prelude::*;
use crate::types::{ResetType, Signal, ThreadIndex};

verus! {

/// A reference to a kernel object owned by an `ObjectManager`.
#[derive(Clone, Copy, Debug, PartialEq, Eq, Structural)]
pub struct KObjectRef(pub usize);

/// A reference that does not keep its object alive: the object may have
/// been dropped since (see `ObjectManager::alive`).
pub type KWeakObjectRef = KObjectRef;

/// A thread waiting on an object, with the wake key that the thread had
/// when it started to wait. A waker whose key no longer matches is stale.
#[derive(Clone, Copy, Debug, PartialEq, Eq, Structural)]
pub struct Waker {
    pub thread: ThreadIndex,
    pub key: u64,
}

impl Waker {
    /// Whether this waker belongs to the thread with the given opaque id.
    pub fn check_opaque_id(&self, id: u64) -> (r: bool)
        ensures
            r == spec_waker_of(*self, id),
    {
        self.thread.0 as u64 == id
    }

    /// The thread that this waker wakes.
    pub fn thread_id(&self) -> (r: ThreadIndex)
        ensures
            r == self.thread,
    {
        self.thread
    }
}

/// Whether a waker belongs to the thread with the given opaque id.
pub open spec fn spec_waker_of(w: Waker, id: u64) -> bool {
    w.thread.0 as u64 == id
}

/// A waker in an object's queue; an address arbiter also records the
/// address that the thread waits on.
#[derive(Clone, Copy, Debug, PartialEq, Eq, Structural)]
pub struct QueuedWaker {
    pub waker: Waker,
    pub addr: u32,
}

/// The deadline and period of a timer; negative values mean unset.
#[derive(Clone, Copy, Debug, PartialEq, Eq, Structural)]
pub struct TimerImplData {
    pub next_ns: i64,
    pub interval: i64,
}

impl TimerImplData {
    /// Whether the timer is armed.
    pub fn valid(&self) -> (r: bool)
        ensures
            r == (self.next_ns >= 0 && self.interval >= 0),
    {
        self.next_ns >= 0 && self.interval >= 0
    }
}

/// An event object.
#[derive(Clone, Copy, Debug)]
pub struct EventImpl {
    pub signal: Signal,
}

impl EventImpl {
    pub fn new(reset_type: ResetType) -> (r: EventImpl)
        ensures
            r.signal.reset_type == reset_type,
            !r.signal.signaled,
    {
        EventImpl { signal: Signal::new(reset_type) }
    }
}

/// A timer object.
#[derive(Clone, Copy, Debug)]
pub struct TimerImpl {
    pub signal: Signal,
    pub data: TimerImplData,
}

impl TimerImpl {
    /// An unsignalled timer that is not armed.
    pub fn new(reset_type: ResetType) -> (r: TimerImpl)
        ensures
            r.signal.reset_type == reset_type,
            !r.signal.signaled,
            r.data.next_ns == -1 && r.data.interval == -1,
    {
        TimerImpl { signal: Signal::new(reset_type), data: TimerImplData { next_ns: -1, interval: -1 } }
    }
}

/// A mutex object.
#[derive(Clone, Copy, Debug)]
pub struct MutexImpl {
    pub acquired: bool,
}

impl MutexImpl {
    pub fn new(acquired: bool) -> (r: MutexImpl)
        ensures
            r.acquired == acquired,
    {
        MutexImpl { acquired }
    }
}

/// An address arbiter object; its waiting threads are in its waker queue.
#[derive(Clone, Copy, Debug)]
pub struct ArbiterImpl {
    pub signals: u64,
}

impl ArbiterImpl {
    pub fn new() -> (r: ArbiterImpl)
        ensures
            r.signals == 0,
    {
        ArbiterImpl { signals: 0 }
    }
}

/// The kernel object of a thread; waiting on it waits for the thread to end.
#[derive(Clone, Copy, Debug)]
pub struct ThreadImpl {
    pub index: ThreadIndex,
    pub dead: bool,
}

impl ThreadImpl {
    pub fn new(index: ThreadIndex) -> (r: ThreadImpl)
        ensures
            r.index == index,
            !r.dead,
    {
        ThreadImpl { index, dead: false }
    }
}

/// The server end of a port: sessions created by clients wait here.
#[derive(Debug)]
pub struct ServerPortHLE {
    pub session_queue: Vec<KTypedObject>,
    pub client: KWeakTypedObject,
}

/// The client end of a port.
#[derive(Debug)]
pub struct ClientPortHLE {
    pub server: KWeakTypedObject,
}

/// The server end of a session: the threads whose requests wait for a reply.
#[derive(Debug)]
pub struct ServerSessionHLE {
    pub request_queue: Vec<ThreadIndex>,
    pub client: KWeakTypedObject,
}

/// The client end of a session.
#[derive(Debug)]
pub struct ClientSessionHLE {
    pub server: KWeakTypedObject,
}

/// A code set that starts a process with a thread run outside the kernel;
/// `main_thread` is that thread's token, taken when the process starts.
#[derive(Debug)]
pub struct HLECodeSetImpl {
    pub main_thread: Option<u64>,
    pub process_name: String,
}

impl HLECodeSetImpl {
    pub fn new(main_thread: u64, process_name: String) -> (r: HLECodeSetImpl)
        ensures
            r.main_thread == Some(main_thread),
            r.process_name@ == process_name@,
    {
        HLECodeSetImpl { main_thread: Some(main_thread), process_name }
    }
}

/// A loaded section of a program.
#[derive(Debug)]
pub struct LLECodeSetSection {
    pub start_addr: u32,
    pub data: Vec<u8>,
}

/// A code set built from a program image.
#[derive(Debug)]
pub struct LLECodeSetImpl {
    pub text: LLECodeSetSection,
    pub rodata: LLECodeSetSection,
    pub data: LLECodeSetSection,
    pub bss: u32,
    pub process_name: String,
    pub program_id: u64,
}

impl LLECodeSetImpl {
    pub fn new(
        text: LLECodeSetSection,
        rodata: LLECodeSetSection,
        data: LLECodeSetSection,
        bss: u32,
        process_name: String,
        program_id: u64,
    ) -> (r: LLECodeSetImpl)
        ensures
            r.text == text,
            r.rodata == rodata,
            r.data == data,
            r.bss == bss,
            r.process_name == process_name,
            r.program_id == program_id,
    {
        LLECodeSetImpl { text, rodata, data, bss, process_name, program_id }
    }
}

/// The state of a kernel object of each kind.
#[derive(Debug)]
pub enum KObjectData {
    Event(EventImpl),
    Timer(TimerImpl),
    Mutex(MutexImpl),
    Arbiter(ArbiterImpl),
    Thread(ThreadImpl),
    ServerPort(ServerPortHLE),
    ClientPort(ClientPortHLE),
    ServerSession(ServerSessionHLE),
    ClientSession(ClientSessionHLE),
    HLECodeSet(HLECodeSetImpl),
    LLECodeSet(LLECodeSetImpl),
}

/// The event state of an object that is an event.
pub open spec fn spec_event(d: KObjectData) -> EventImpl {
    match d {
        KObjectData::Event(e) => e,
        _ => arbitrary(),
    }
}

/// The timer state of an object that is a timer.
pub open spec fn spec_timer(d: KObjectData) -> TimerImpl {
    match d {
        KObjectData::Timer(t) => t,
        _ => arbitrary(),
    }
}

/// The thread state of an object that is a thread's kernel object.
pub open spec fn spec_thread_obj(d: KObjectData) -> ThreadImpl {
    match d {
        KObjectData::Thread(t) => t,
        _ => arbitrary(),
    }
}

/// The sessions waiting on a server port.
pub open spec fn spec_sessions(d: KObjectData) -> Seq<KTypedObject> {
    match d {
        KObjectData::ServerPort(p) => p.session_queue@,
        _ => Seq::empty(),
    }
}

/// The requests waiting on a server session, oldest first.
pub open spec fn spec_requests(d: KObjectData) -> Seq<ThreadIndex> {
    match d {
        KObjectData::ServerSession(s) => s.request_queue@,
        _ => Seq::empty(),
    }
}

/// The other end of a port or session end.
pub open spec fn spec_peer(d: KObjectData) -> KWeakTypedObject {
    match d {
        KObjectData::ServerPort(p) => p.client,
        KObjectData::ClientPort(p) => p.server,
        KObjectData::ServerSession(s) => s.client,
        KObjectData::ClientSession(s) => s.server,
        _ => arbitrary(),
    }
}

/// The interfaces that a kernel object may offer, and its concrete kinds.
#[derive(Clone, Copy, Debug, PartialEq, Eq, Structural)]
pub enum ObjectType {
    KSynchronizationObject,
    KClientSession,
    KServerSession,
    KClientPort,
    KServerPort,
    KTimer,
    KAddressArbiter,
    KEvent,
    KThread,
    KCodeSet,
    KMutex,
    KObjectDebug,
    EventImpl,
    TimerImpl,
    MutexImpl,
    ArbiterImpl,
    ThreadImpl,
    ServerPortHLE,
    ClientPortHLE,
    ServerSessionHLE,
    ClientSessionHLE,
    HLECodeSetImpl,
    LLECodeSetImpl,
}

/// The concrete type of an object's state.
pub open spec fn spec_kind(d: KObjectData) -> ObjectType {
    match d {
        KObjectData::Event(_) => ObjectType::EventImpl,
        KObjectData::Timer(_) => ObjectType::TimerImpl,
        KObjectData::Mutex(_) => ObjectType::MutexImpl,
        KObjectData::Arbiter(_) => ObjectType::ArbiterImpl,
        KObjectData::Thread(_) => ObjectType::ThreadImpl,
        KObjectData::ServerPort(_) => ObjectType::ServerPortHLE,
        KObjectData::ClientPort(_) => ObjectType::ClientPortHLE,
        KObjectData::ServerSession(_) => ObjectType::ServerSessionHLE,
        KObjectData::ClientSession(_) => ObjectType::ClientSessionHLE,
        KObjectData::HLECodeSet(_) => ObjectType::HLECodeSetImpl,
        KObjectData::LLECodeSet(_) => ObjectType::LLECodeSetImpl,
    }
}

/// Whether an object of kind `kind` offers the interface or is of the type `ty`.
pub open spec fn spec_supports(kind: ObjectType, ty: ObjectType) -> bool {
    match ty {
        ObjectType::KSynchronizationObject => match kind {
            ObjectType::EventImpl | ObjectType::TimerImpl | ObjectType::MutexImpl | ObjectType::ThreadImpl
            | ObjectType::ServerPortHLE | ObjectType::ClientPortHLE | ObjectType::ServerSessionHLE
            | ObjectType::ClientSessionHLE => true,
            _ => false,
        },
        ObjectType::KClientSession => kind == ObjectType::ClientSessionHLE,
        ObjectType::KServerSession => kind == ObjectType::ServerSessionHLE,
        ObjectType::KClientPort => kind == ObjectType::ClientPortHLE,
        ObjectType::KServerPort => kind == ObjectType::ServerPortHLE,
        ObjectType::KTimer => kind == ObjectType::TimerImpl,
        ObjectType::KAddressArbiter => kind == ObjectType::ArbiterImpl,
        ObjectType::KEvent => kind == ObjectType::EventImpl,
        ObjectType::KThread => kind == ObjectType::ThreadImpl,
        ObjectType::KCodeSet => kind == ObjectType::HLECodeSetImpl,
        ObjectType::KMutex => kind == ObjectType::MutexImpl,
        ObjectType::KObjectDebug => true,
        _ => kind == ty,
    }
}

impl KObjectData {
    /// The concrete type of this state.
    pub fn kind(&self) -> (r: ObjectType)
        ensures
            r == spec_kind(*self),
    {
        match self {
            KObjectData::Event(_) => ObjectType::EventImpl,
            KObjectData::Timer(_) => ObjectType::TimerImpl,
            KObjectData::Mutex(_) => ObjectType::MutexImpl,
            KObjectData::Arbiter(_) => ObjectType::ArbiterImpl,
            KObjectData::Thread(_) => ObjectType::ThreadImpl,
            KObjectData::ServerPort(_) => ObjectType::ServerPortHLE,
            KObjectData::ClientPort(_) => ObjectType::ClientPortHLE,
            KObjectData::ServerSession(_) => ObjectType::ServerSessionHLE,
            KObjectData::ClientSession(_) => ObjectType::ClientSessionHLE,
            KObjectData::HLECodeSet(_) => ObjectType::HLECodeSetImpl,
            KObjectData::LLECodeSet(_) => ObjectType::LLECodeSetImpl,
        }
    }
}

/// Whether objects of a kind offer an interface.
pub fn supports(kind: ObjectType, ty: ObjectType) -> (r: bool)
    ensures
        r == spec_supports(kind, ty),
{
    match ty {
        ObjectType::KSynchronizationObject => match kind {
            ObjectType::EventImpl | ObjectType::TimerImpl | ObjectType::MutexImpl | ObjectType::ThreadImpl
            | ObjectType::ServerPortHLE | ObjectType::ClientPortHLE | ObjectType::ServerSessionHLE
            | ObjectType::ClientSessionHLE => true,
            _ => false,
        },
        ObjectType::KClientSession => kind == ObjectType::ClientSessionHLE,
        ObjectType::KServerSession => kind == ObjectType::ServerSessionHLE,
        ObjectType::KClientPort => kind == ObjectType::ClientPortHLE,
        ObjectType::KServerPort => kind == ObjectType::ServerPortHLE,
        ObjectType::KTimer => kind == ObjectType::TimerImpl,
        ObjectType::KAddressArbiter => kind == ObjectType::ArbiterImpl,
        ObjectType::KEvent => kind == ObjectType::EventImpl,
        ObjectType::KThread => kind == ObjectType::ThreadImpl,
        ObjectType::KCodeSet => kind == ObjectType::HLECodeSetImpl,
        ObjectType::KMutex => kind == ObjectType::MutexImpl,
        ObjectType::KObjectDebug => true,
        _ => kind == ty,
    }
}

/// A kernel object: its state and the threads waiting on it, oldest first.
#[derive(Debug)]
pub struct KObject {
    pub data: KObjectData,
    pub wakers: Vec<QueuedWaker>,
}

/// A reference to an object known to offer an interface (or to be of a type).
#[derive(Clone, Copy, Debug, PartialEq, Eq, Structural)]
pub struct KTypedObject {
    pub object: KObjectRef,
    pub ty: ObjectType,
}

/// A non-owning typed reference; an empty one refers to nothing.
#[derive(Clone, Copy, Debug, PartialEq, Eq, Structural)]
pub struct KWeakTypedObject {
    pub object: Option<KObjectRef>,
    pub ty: ObjectType,
}

/// The queue that remains when every waker of a thread leaves it.
pub open spec fn spec_without_thread(q: Seq<QueuedWaker>, id: u64) -> Seq<QueuedWaker> {
    q.filter(|w: QueuedWaker| !spec_waker_of(w.waker, id))
}

/// Removing the wakers of a thread twice is removing them once.
pub proof fn lemma_without_thread_idempotent(q: Seq<QueuedWaker>, id: u64)
    ensures
        spec_without_thread(spec_without_thread(q, id), id) == spec_without_thread(q, id),
    decreases q.len(),
{
    reveal_with_fuel(Seq::filter, 2);
    if q.len() > 0 {
        lemma_without_thread_idempotent(q.drop_last(), id);
        let pred = |w: QueuedWaker| !spec_waker_of(w.waker, id);
        let t = q.drop_last().filter(pred);
        if pred(q.last()) {
            assert(t.push(q.last()).drop_last() =~= t);
        }
    }
}

/// Copies the wakers of a queue that do not belong to thread `id`.
fn without_thread(q: &Vec<QueuedWaker>, id: u64) -> (r: Vec<QueuedWaker>)
    ensures
        r@ == spec_without_thread(q@, id),
{
    let mut r: Vec<QueuedWaker> = Vec::new();
    let mut i: usize = 0;
    while i < q.len()
        invariant
            i <= q@.len(),
            r@ == spec_without_thread(q@.subrange(0, i as int), id),
        decreases q@.len() - i,
    {
        proof {
            reveal_with_fuel(Seq::filter, 1);
            assert(q@.subrange(0, i + 1).drop_last() =~= q@.subrange(0, i as int));
        }
        let w = q[i];
        if !w.waker.check_opaque_id(id) {
            r.push(w);
        }
        i = i + 1;
    }
    assert(q@.subrange(0, q@.len() as int) =~= q@);
    r
}

/// Whether a list of references names the object with index `j`.
pub open spec fn spec_mentions(targets: Seq<KObjectRef>, j: int) -> bool {
    exists|k: int| 0 <= k < targets.len() && (#[trigger] targets[k]).0 == j
}

/// How often `o` occurs in a list of references.
pub open spec fn spec_occurrences(targets: Seq<KObjectRef>, o: KObjectRef) -> nat
    decreases targets.len(),
{
    if targets.len() == 0 {
        0
    } else {
        spec_occurrences(targets.drop_last(), o) + if targets.last() == o { 1nat } else { 0nat }
    }
}

/// `a + b`, or `usize::MAX` when that is smaller.
pub open spec fn spec_more(a: nat, b: nat) -> nat {
    if a + b <= usize::MAX {
        a + b
    } else {
        usize::MAX as nat
    }
}

/// `a - b`, or zero when `b` is larger.
pub open spec fn spec_less(a: nat, b: nat) -> nat {
    if a >= b {
        (a - b) as nat
    } else {
        0
    }
}

/// The objects among the first `n` of a manager that are alive, in order.
pub open spec fn spec_live_from(objs: &ObjectManager, n: int) -> Seq<KObjectRef>
    decreases n,
{
    if n <= 0 {
        Seq::empty()
    } else if objs.alive(KObjectRef((n - 1) as usize)) {
        spec_live_from(objs, n - 1).push(KObjectRef((n - 1) as usize))
    } else {
        spec_live_from(objs, n - 1)
    }
}

/// Owns every kernel object; a reference is an object's index. Each object
/// counts the strong references to it: the handles, waits, queues and
/// tables that hold it, and the references handed out by `new_object`,
/// `acquire` and `upgrade`. An object whose count has dropped to zero is
/// dropped: it stays in the arena, but nothing reaches it any more.
pub struct ObjectManager {
    objects: Vec<KObject>,
    refs: Vec<usize>,
}

impl View for ObjectManager {
    type V = Seq<KObject>;

    closed spec fn view(&self) -> Seq<KObject> {
        self.objects@
    }
}

impl ObjectManager {
    /// Each object has its count.
    #[verifier::type_invariant]
    spec fn counts_match(self) -> bool {
        self.refs@.len() == self.objects@.len()
    }

    /// The number of strong references to the object named by `r`.
    pub closed spec fn spec_ref_count(&self, r: KObjectRef) -> nat {
        if r.0 < self.refs@.len() {
            self.refs@[r.0 as int] as nat
        } else {
            0
        }
    }

    /// Whether the object named by `r` exists and has not been dropped.
    pub open spec fn alive(&self, r: KObjectRef) -> bool {
        self.valid(r) && self.spec_ref_count(r) > 0
    }

    /// `new` has the same reference counts as `self`.
    pub open spec fn same_counts(&self, new: &ObjectManager) -> bool {
        forall|r: KObjectRef| #[trigger] new.spec_ref_count(r) == self.spec_ref_count(r)
    }

    /// The number of objects fits a `usize`.
    pub proof fn lemma_len_fits(&self)
        ensures
            self@.len() <= usize::MAX,
    {
        assert(self.objects@.len() == self.objects.len());
    }

    /// Whether a reference names an object of this manager.
    pub open spec fn valid(&self, r: KObjectRef) -> bool {
        r.0 < self@.len()
    }

    /// The object that a reference names.
    pub open spec fn obj(&self, r: KObjectRef) -> KObject {
        self@[r.0 as int]
    }

    /// Whether the object named by `r` offers the interface `ty`.
    pub open spec fn has_type(&self, r: KObjectRef, ty: ObjectType) -> bool {
        self.valid(r) && spec_supports(spec_kind(self.obj(r).data), ty)
    }

    /// `new` keeps every object except the one named by `r`.
    pub open spec fn same_except(&self, new: &ObjectManager, r: KObjectRef) -> bool {
        &&& new@.len() == self@.len()
        &&& forall|j: int| 0 <= j < self@.len() && j != r.0 ==> new@[j] == #[trigger] self@[j]
    }

    pub fn new() -> (r: ObjectManager)
        ensures
            r@.len() == 0,
            forall|o: KObjectRef| #[trigger] r.spec_ref_count(o) == 0,
    {
        ObjectManager { objects: Vec::new(), refs: Vec::new() }
    }

    /// The number of objects.
    pub fn len(&self) -> (r: usize)
        ensures
            r == self@.len(),
    {
        self.objects.len()
    }

    /// Adds an object with the given state and no waiting threads; the
    /// reference returned is the only strong one to it.
    pub fn new_object(&mut self, data: KObjectData) -> (r: KObjectRef)
        ensures
            r.0 == old(self)@.len(),
            final(self)@.len() == old(self)@.len() + 1,
            final(self).obj(r).data == data,
            final(self).obj(r).wakers@.len() == 0,
            forall|j: int| 0 <= j < old(self)@.len() ==> final(self)@[j] == #[trigger] old(self)@[j],
            final(self).spec_ref_count(r) == 1,
            forall|o: KObjectRef| o != r ==> #[trigger] final(self).spec_ref_count(o) == old(self).spec_ref_count(o),
    {
        proof {
            use_type_invariant(&*self);
        }
        let id = self.objects.len();
        let mut taken = ObjectManager { objects: Vec::new(), refs: Vec::new() };
        std::mem::swap(self, &mut taken);
        let ObjectManager { mut objects, mut refs } = taken;
        objects.push(KObject { data, wakers: Vec::new() });
        refs.push(1);
        *self = ObjectManager { objects, refs };
        KObjectRef(id)
    }

    /// Whether the object named by `r` is alive.
    pub fn is_alive(&self, r: KObjectRef) -> (b: bool)
        ensures
            b == self.alive(r),
    {
        proof {
            use_type_invariant(self);
        }
        r.0 < self.refs.len() && self.refs[r.0] > 0
    }

    /// Takes one more strong reference to an object (a count at
    /// `usize::MAX` stays there).
    pub fn acquire(&mut self, r: KObjectRef)
        requires
            old(self).valid(r),
        ensures
            final(self)@ == old(self)@,
            final(self).spec_ref_count(r) == if old(self).spec_ref_count(r) < usize::MAX {
                old(self).spec_ref_count(r) + 1
            } else {
                old(self).spec_ref_count(r)
            },
            forall|o: KObjectRef| o != r ==> #[trigger] final(self).spec_ref_count(o) == old(self).spec_ref_count(o),
    {
        proof {
            use_type_invariant(&*self);
        }
        let c = self.refs[r.0];
        if c < usize::MAX {
            self.refs[r.0] = c + 1;
        }
    }

    /// Gives up one strong reference to an object; when none is left the
    /// object is dropped.
    pub fn release(&mut self, r: KObjectRef)
        requires
            old(self).valid(r),
        ensures
            final(self)@ == old(self)@,
            final(self).spec_ref_count(r) == if old(self).spec_ref_count(r) > 0 {
                (old(self).spec_ref_count(r) - 1) as nat
            } else {
                0
            },
            forall|o: KObjectRef| o != r ==> #[trigger] final(self).spec_ref_count(o) == old(self).spec_ref_count(o),
    {
        proof {
            use_type_invariant(&*self);
        }
        let c = self.refs[r.0];
        if c > 0 {
            self.refs[r.0] = c - 1;
        }
    }

    /// Takes one more strong reference per entry of a list.
    pub fn acquire_all(&mut self, targets: &Vec<KObjectRef>)
        requires
            forall|i: int| 0 <= i < targets@.len() ==> old(self).valid(#[trigger] targets@[i]),
        ensures
            final(self)@ == old(self)@,
            forall|o: KObjectRef| #[trigger] final(self).spec_ref_count(o) == spec_more(
                old(self).spec_ref_count(o),
                spec_occurrences(targets@, o),
            ),
    {
        proof {
            use_type_invariant(&*self);
        }
        let mut i: usize = 0;
        while i < targets.len()
            invariant
                i <= targets@.len(),
                forall|k: int| 0 <= k < targets@.len() ==> old(self).valid(#[trigger] targets@[k]),
                self@ == old(self)@,
                forall|o: KObjectRef| #[trigger] self.spec_ref_count(o) == spec_more(
                    old(self).spec_ref_count(o),
                    spec_occurrences(targets@.subrange(0, i as int), o),
                ),
            decreases targets@.len() - i,
        {
            let t = targets[i];
            self.acquire(t);
            proof {
                assert(targets@.subrange(0, i + 1).drop_last() =~= targets@.subrange(0, i as int));
            }
            i = i + 1;
        }
        assert(targets@.subrange(0, targets@.len() as int) =~= targets@);
    }

    /// Gives up the strong references in a list, one per entry.
    pub fn release_all(&mut self, targets: &Vec<KObjectRef>)
        requires
            forall|i: int| 0 <= i < targets@.len() ==> old(self).valid(#[trigger] targets@[i]),
        ensures
            final(self)@ == old(self)@,
            forall|o: KObjectRef| #[trigger] final(self).spec_ref_count(o) == spec_less(
                old(self).spec_ref_count(o),
                spec_occurrences(targets@, o),
            ),
    {
        proof {
            use_type_invariant(&*self);
        }
        let mut i: usize = 0;
        while i < targets.len()
            invariant
                i <= targets@.len(),
                forall|k: int| 0 <= k < targets@.len() ==> old(self).valid(#[trigger] targets@[k]),
                self@ == old(self)@,
                forall|o: KObjectRef| #[trigger] self.spec_ref_count(o) == spec_less(
                    old(self).spec_ref_count(o),
                    spec_occurrences(targets@.subrange(0, i as int), o),
                ),
            decreases targets@.len() - i,
        {
            let t = targets[i];
            self.release(t);
            proof {
                assert(targets@.subrange(0, i + 1).drop_last() =~= targets@.subrange(0, i as int));
            }
            i = i + 1;
        }
        assert(targets@.subrange(0, targets@.len() as int) =~= targets@);
    }

    /// Adds an object and returns a reference typed by its concrete kind.
    pub fn new_object_typed(&mut self, data: KObjectData) -> (r: KTypedObject)
        ensures
            r.object.0 == old(self)@.len(),
            r.ty == spec_kind(data),
            final(self)@.len() == old(self)@.len() + 1,
            final(self).obj(r.object).data == data,
            final(self).obj(r.object).wakers@.len() == 0,
            forall|j: int| 0 <= j < old(self)@.len() ==> final(self)@[j] == #[trigger] old(self)@[j],
            final(self).spec_ref_count(r.object) == 1,
            forall|o: KObjectRef| o != r.object ==> #[trigger] final(self).spec_ref_count(o) == old(self).spec_ref_count(o),
    {
        let ty = data.kind();
        let object = self.new_object(data);
        KTypedObject { object, ty }
    }

    /// The objects that are alive, in the order they were made.
    pub fn live_objects(&self) -> (r: Vec<KObjectRef>)
        ensures
            r@ == spec_live_from(self, self@.len() as int),
    {
        let mut r: Vec<KObjectRef> = Vec::new();
        let mut i: usize = 0;
        while i < self.objects.len()
            invariant
                i <= self@.len(),
                r@ == spec_live_from(self, i as int),
            decreases self@.len() - i,
        {
            if self.is_alive(KObjectRef(i)) {
                r.push(KObjectRef(i));
            }
            i = i + 1;
        }
        r
    }

    /// The state of an object.
    pub fn get(&self, r: KObjectRef) -> (o: &KObject)
        requires
            self.valid(r),
        ensures
            *o == self.obj(r),
    {
        &self.objects[r.0]
    }

    /// The concrete kind of an object.
    pub fn kind_of(&self, r: KObjectRef) -> (k: ObjectType)
        requires
            self.valid(r),
        ensures
            k == spec_kind(self.obj(r).data),
    {
        self.objects[r.0].data.kind()
    }

    /// Replaces the state of an object, keeping its waiting threads.
    pub fn set_data(&mut self, r: KObjectRef, data: KObjectData)
        requires
            old(self).valid(r),
        ensures
            old(self).same_except(final(self), r),
            final(self).obj(r).data == data,
            final(self).obj(r).wakers == old(self).obj(r).wakers,
            old(self).same_counts(final(self)),
    {
        proof {
            use_type_invariant(&*self);
        }
        self.objects[r.0].data = data;
    }

    /// Appends a waiting thread to an object's queue.
    pub fn push_waker(&mut self, r: KObjectRef, w: QueuedWaker)
        requires
            old(self).valid(r),
        ensures
            old(self).same_except(final(self), r),
            final(self).obj(r).data == old(self).obj(r).data,
            final(self).obj(r).wakers@ == old(self).obj(r).wakers@.push(w),
            old(self).same_counts(final(self)),
    {
        proof {
            use_type_invariant(&*self);
        }
        self.objects[r.0].wakers.push(w);
    }

    /// Takes the oldest waiting thread off an object's queue.
    pub fn pop_front_waker(&mut self, r: KObjectRef) -> (w: Option<QueuedWaker>)
        requires
            old(self).valid(r),
        ensures
            old(self).same_except(final(self), r),
            final(self).obj(r).data == old(self).obj(r).data,
            old(self).obj(r).wakers@.len() == 0 ==> w.is_none() && final(self)@ == old(self)@,
            old(self).obj(r).wakers@.len() > 0 ==> w == Some(old(self).obj(r).wakers@[0])
                && final(self).obj(r).wakers@ == old(self).obj(r).wakers@.subrange(1, old(self).obj(r).wakers@.len() as int),
            old(self).same_counts(final(self)),
    {
        proof {
            use_type_invariant(&*self);
        }
        if self.objects[r.0].wakers.len() == 0 {
            None
        } else {
            Some(self.objects[r.0].wakers.remove(0))
        }
    }

    /// Takes every waiting thread off an object's queue.
    pub fn take_wakers(&mut self, r: KObjectRef) -> (q: Vec<QueuedWaker>)
        requires
            old(self).valid(r),
        ensures
            old(self).same_except(final(self), r),
            final(self).obj(r).data == old(self).obj(r).data,
            final(self).obj(r).wakers@.len() == 0,
            q@ == old(self).obj(r).wakers@,
            old(self).same_counts(final(self)),
    {
        proof {
            use_type_invariant(&*self);
        }
        let mut q: Vec<QueuedWaker> = Vec::new();
        std::mem::swap(&mut q, &mut self.objects[r.0].wakers);
        q
    }

    /// Puts a queue of waiting threads on an object.
    pub fn set_wakers(&mut self, r: KObjectRef, q: Vec<QueuedWaker>)
        requires
            old(self).valid(r),
        ensures
            old(self).same_except(final(self), r),
            final(self).obj(r).data == old(self).obj(r).data,
            final(self).obj(r).wakers@ == q@,
            old(self).same_counts(final(self)),
    {
        proof {
            use_type_invariant(&*self);
        }
        self.objects[r.0].wakers = q;
    }

    /// Removes the wakers of the thread with opaque id `id` from an object.
    pub fn remove_wakers_by_opaque_id(&mut self, r: KObjectRef, id: u64)
        requires
            old(self).valid(r),
        ensures
            old(self).same_except(final(self), r),
            final(self).obj(r).data == old(self).obj(r).data,
            final(self).obj(r).wakers@ == spec_without_thread(old(self).obj(r).wakers@, id),
            old(self).same_counts(final(self)),
    {
        proof {
            use_type_invariant(&*self);
        }
        let q = without_thread(&self.objects[r.0].wakers, id);
        self.objects[r.0].wakers = q;
    }

    /// Removes the wakers of thread `id` from each listed object.
    pub fn remove_wakers_from(&mut self, targets: &Vec<KObjectRef>, id: u64)
        requires
            forall|i: int| 0 <= i < targets@.len() ==> old(self).valid(#[trigger] targets@[i]),
        ensures
            final(self)@.len() == old(self)@.len(),
            forall|j: int| 0 <= j < old(self)@.len() ==> {
                &&& (#[trigger] final(self)@[j]).data == old(self)@[j].data
                &&& spec_mentions(targets@, j) ==> final(self)@[j].wakers@
                    == spec_without_thread(old(self)@[j].wakers@, id)
                &&& !spec_mentions(targets@, j) ==> final(self)@[j] == old(self)@[j]
            },
            old(self).same_counts(final(self)),
    {
        proof {
            use_type_invariant(&*self);
        }
        let mut i: usize = 0;
        while i < targets.len()
            invariant
                i <= targets@.len(),
                forall|k: int| 0 <= k < targets@.len() ==> old(self).valid(#[trigger] targets@[k]),
                self@.len() == old(self)@.len(),
                forall|j: int| 0 <= j < old(self)@.len() ==> {
                    &&& (#[trigger] self@[j]).data == old(self)@[j].data
                    &&& spec_mentions(targets@.subrange(0, i as int), j) ==> self@[j].wakers@
                        == spec_without_thread(old(self)@[j].wakers@, id)
                    &&& !spec_mentions(targets@.subrange(0, i as int), j) ==> self@[j] == old(self)@[j]
                },
                old(self).same_counts(self),
            decreases targets@.len() - i,
        {
            let t = targets[i];
            let ghost before = self@;
            self.remove_wakers_by_opaque_id(t, id);
            proof {
                lemma_without_thread_idempotent(old(self)@[t.0 as int].wakers@, id);
                assert forall|j: int| 0 <= j < old(self)@.len() implies {
                    &&& (#[trigger] self@[j]).data == old(self)@[j].data
                    &&& spec_mentions(targets@.subrange(0, i + 1), j) ==> self@[j].wakers@
                        == spec_without_thread(old(self)@[j].wakers@, id)
                    &&& !spec_mentions(targets@.subrange(0, i + 1), j) ==> self@[j] == old(self)@[j]
                } by {
                    let s0 = targets@.subrange(0, i as int);
                    let s1 = targets@.subrange(0, i + 1);
                    assert(s1 =~= s0.push(t));
                    assert(s1[i as int] == t);
                    if j != t.0 {
                        assert(self@[j] == before[j]);
                        assert(spec_mentions(s1, j) ==> spec_mentions(s0, j)) by {
                            if spec_mentions(s1, j) {
                                let k = choose|k: int| 0 <= k < s1.len() && (#[trigger] s1[k]).0 == j;
                                assert(k < s0.len());
                                assert(s0[k] == s1[k]);
                            }
                        }
                        assert(spec_mentions(s0, j) ==> spec_mentions(s1, j)) by {
                            if spec_mentions(s0, j) {
                                let k = choose|k: int| 0 <= k < s0.len() && (#[trigger] s0[k]).0 == j;
                                assert(s1[k] == s0[k]);
                            }
                        }
                    } else {
                        assert(s1[i as int] == t);
                        assert(spec_mentions(s1, j));
                    }
                }
            }
            i = i + 1;
        }
        assert(targets@.subrange(0, targets@.len() as int) =~= targets@);
    }
}

impl ObjectManager {
    /// Queues a session on a server port.
    pub fn push_session(&mut self, r: KObjectRef, session: KTypedObject)
        requires
            old(self).valid(r),
            old(self).obj(r).data is ServerPort,
        ensures
            old(self).same_except(final(self), r),
            final(self).obj(r).wakers == old(self).obj(r).wakers,
            final(self).obj(r).data is ServerPort,
            spec_sessions(final(self).obj(r).data) == spec_sessions(old(self).obj(r).data).push(session),
            spec_peer(final(self).obj(r).data) == spec_peer(old(self).obj(r).data),
            old(self).same_counts(final(self)),
    {
        proof {
            use_type_invariant(&*self);
        }
        match &mut self.objects[r.0].data {
            KObjectData::ServerPort(p) => p.session_queue.push(session),
            _ => {},
        }
    }

    /// Takes the oldest session off a server port.
    pub fn pop_session(&mut self, r: KObjectRef) -> (s: Option<KTypedObject>)
        requires
            old(self).valid(r),
            old(self).obj(r).data is ServerPort,
        ensures
            old(self).same_except(final(self), r),
            final(self).obj(r).wakers == old(self).obj(r).wakers,
            final(self).obj(r).data is ServerPort,
            spec_peer(final(self).obj(r).data) == spec_peer(old(self).obj(r).data),
            spec_sessions(old(self).obj(r).data).len() == 0 ==> s.is_none() && spec_sessions(final(self).obj(r).data)
                == spec_sessions(old(self).obj(r).data),
            spec_sessions(old(self).obj(r).data).len() > 0 ==> s == Some(spec_sessions(old(self).obj(r).data)[0])
                && spec_sessions(final(self).obj(r).data) == spec_sessions(old(self).obj(r).data).subrange(
                1,
                spec_sessions(old(self).obj(r).data).len() as int,
            ),
            old(self).same_counts(final(self)),
    {
        proof {
            use_type_invariant(&*self);
        }
        match &mut self.objects[r.0].data {
            KObjectData::ServerPort(p) => {
                if p.session_queue.len() == 0 {
                    None
                } else {
                    Some(p.session_queue.remove(0))
                }
            },
            _ => None,
        }
    }

    /// Queues the request of a thread on a server session.
    pub fn push_request(&mut self, r: KObjectRef, thread: ThreadIndex)
        requires
            old(self).valid(r),
            old(self).obj(r).data is ServerSession,
        ensures
            old(self).same_except(final(self), r),
            final(self).obj(r).wakers == old(self).obj(r).wakers,
            final(self).obj(r).data is ServerSession,
            spec_requests(final(self).obj(r).data) == spec_requests(old(self).obj(r).data).push(thread),
            spec_peer(final(self).obj(r).data) == spec_peer(old(self).obj(r).data),
            old(self).same_counts(final(self)),
    {
        proof {
            use_type_invariant(&*self);
        }
        match &mut self.objects[r.0].data {
            KObjectData::ServerSession(s) => s.request_queue.push(thread),
            _ => {},
        }
    }

    /// Takes the oldest request off a server session.
    pub fn pop_request(&mut self, r: KObjectRef) -> (t: Option<ThreadIndex>)
        requires
            old(self).valid(r),
            old(self).obj(r).data is ServerSession,
        ensures
            old(self).same_except(final(self), r),
            final(self).obj(r).wakers == old(self).obj(r).wakers,
            final(self).obj(r).data is ServerSession,
            spec_peer(final(self).obj(r).data) == spec_peer(old(self).obj(r).data),
            spec_requests(old(self).obj(r).data).len() == 0 ==> t.is_none() && spec_requests(final(self).obj(r).data)
                == spec_requests(old(self).obj(r).data),
            spec_requests(old(self).obj(r).data).len() > 0 ==> t == Some(spec_requests(old(self).obj(r).data)[0])
                && spec_requests(final(self).obj(r).data) == spec_requests(old(self).obj(r).data).subrange(
                1,
                spec_requests(old(self).obj(r).data).len() as int,
            ),
            old(self).same_counts(final(self)),
    {
        proof {
            use_type_invariant(&*self);
        }
        match &mut self.objects[r.0].data {
            KObjectData::ServerSession(s) => {
                if s.request_queue.len() == 0 {
                    None
                } else {
                    Some(s.request_queue.remove(0))
                }
            },
            _ => None,
        }
    }

    /// The oldest request on a server session.
    pub fn front_request(&self, r: KObjectRef) -> (t: Option<ThreadIndex>)
        requires
            self.valid(r),
            self.obj(r).data is ServerSession,
        ensures
            spec_requests(self.obj(r).data).len() == 0 ==> t.is_none(),
            spec_requests(self.obj(r).data).len() > 0 ==> t == Some(spec_requests(self.obj(r).data)[0]),
    {
        match &self.objects[r.0].data {
            KObjectData::ServerSession(s) => {
                if s.request_queue.len() == 0 {
                    None
                } else {
                    Some(s.request_queue[0])
                }
            },
            _ => None,
        }
    }

    /// The other end of a port or session end.
    pub fn peer(&self, r: KObjectRef) -> (p: KWeakTypedObject)
        requires
            self.valid(r),
            self.obj(r).data is ServerPort || self.obj(r).data is ClientPort || self.obj(r).data is ServerSession
                || self.obj(r).data is ClientSession,
        ensures
            p == spec_peer(self.obj(r).data),
    {
        match &self.objects[r.0].data {
            KObjectData::ServerPort(p) => p.client,
            KObjectData::ClientPort(p) => p.server,
            KObjectData::ServerSession(s) => s.client,
            KObjectData::ClientSession(s) => s.server,
            _ => KWeakTypedObject { object: None, ty: ObjectType::KObjectDebug },
        }
    }

    /// Connects a server port or server session to its client end.
    pub fn set_peer(&mut self, r: KObjectRef, peer: KWeakTypedObject)
        requires
            old(self).valid(r),
            old(self).obj(r).data is ServerPort || old(self).obj(r).data is ServerSession,
        ensures
            old(self).same_except(final(self), r),
            final(self).obj(r).wakers == old(self).obj(r).wakers,
            spec_kind(final(self).obj(r).data) == spec_kind(old(self).obj(r).data),
            spec_peer(final(self).obj(r).data) == peer,
            spec_sessions(final(self).obj(r).data) == spec_sessions(old(self).obj(r).data),
            spec_requests(final(self).obj(r).data) == spec_requests(old(self).obj(r).data),
            old(self).same_counts(final(self)),
    {
        proof {
            use_type_invariant(&*self);
        }
        match &mut self.objects[r.0].data {
            KObjectData::ServerPort(p) => p.client = peer,
            KObjectData::ServerSession(s) => s.client = peer,
            _ => {},
        }
    }
}

impl KTypedObject {
    /// A typed reference to `object` if it offers the interface `ty`; the
    /// reference is one more strong reference to the object.
    pub fn new(objects: &mut ObjectManager, object: &KObjectRef, ty: ObjectType) -> (r: Option<KTypedObject>)
        requires
            old(objects).valid(*object),
        ensures
            final(objects)@ == old(objects)@,
            r.is_some() == old(objects).has_type(*object, ty),
            r matches Some(t) ==> t.object == *object && t.ty == ty,
            r is Some ==> final(objects).spec_ref_count(*object) == if old(objects).spec_ref_count(*object) < usize::MAX {
                old(objects).spec_ref_count(*object) + 1
            } else {
                old(objects).spec_ref_count(*object)
            },
            r is None ==> old(objects).same_counts(final(objects)),
            forall|o: KObjectRef| o != *object ==> #[trigger] final(objects).spec_ref_count(o) == old(objects).spec_ref_count(o),
    {
        let kind = objects.kind_of(*object);
        if supports(kind, ty) {
            objects.acquire(*object);
            Some(KTypedObject { object: *object, ty })
        } else {
            None
        }
    }

    pub fn object(&self) -> (r: KObjectRef)
        ensures
            r == self.object,
    {
        self.object
    }

    pub fn into_object(self) -> (r: KObjectRef)
        ensures
            r == self.object,
    {
        self.object
    }

    /// The same object as another interface, if it offers it. The
    /// reference passed in becomes the one returned, so the count stays;
    /// when the cast fails the reference is given up.
    pub fn cast(this: KTypedObject, objects: &mut ObjectManager, ty: ObjectType) -> (r: Option<KTypedObject>)
        requires
            old(objects).valid(this.object),
        ensures
            final(objects)@ == old(objects)@,
            r.is_some() == old(objects).has_type(this.object, ty),
            r matches Some(t) ==> t.object == this.object && t.ty == ty,
            r is Some ==> old(objects).same_counts(final(objects)),
            r is None ==> final(objects).spec_ref_count(this.object) == spec_less(old(objects).spec_ref_count(this.object), 1),
            forall|o: KObjectRef| o != this.object ==> #[trigger] final(objects).spec_ref_count(o) == old(objects).spec_ref_count(
                o,
            ),
    {
        let kind = objects.kind_of(this.object);
        if supports(kind, ty) {
            Some(KTypedObject { object: this.object, ty })
        } else {
            objects.release(this.object);
            None
        }
    }

    /// A non-owning reference to the same object.
    pub fn downgrade(this: &KTypedObject) -> (r: KWeakTypedObject)
        ensures
            r.object == Some(this.object),
            r.ty == this.ty,
    {
        KWeakTypedObject { object: Some(this.object), ty: this.ty }
    }
}

impl KWeakTypedObject {
    /// A non-owning typed reference to `object` if it offers `ty`.
    pub fn new(objects: &ObjectManager, object: &KObjectRef, ty: ObjectType) -> (r: Option<KWeakTypedObject>)
        requires
            objects.valid(*object),
        ensures
            r.is_some() == objects.has_type(*object, ty),
            r matches Some(t) ==> t.object == Some(*object) && t.ty == ty,
    {
        let kind = objects.kind_of(*object);
        if supports(kind, ty) {
            Some(KWeakTypedObject { object: Some(*object), ty })
        } else {
            None
        }
    }

    /// A reference to nothing.
    pub fn empty(ty: ObjectType) -> (r: KWeakTypedObject)
        ensures
            r.object.is_none(),
            r.ty == ty,
    {
        KWeakTypedObject { object: None, ty }
    }

    pub fn object(&self) -> (r: Option<KObjectRef>)
        ensures
            r == self.object,
    {
        self.object
    }

    /// A strong reference to the object, unless this one refers to nothing
    /// or the object has been dropped; the object then counts one more
    /// strong reference.
    pub fn upgrade(&self, objects: &mut ObjectManager) -> (r: Option<KTypedObject>)
        requires
            self.object matches Some(o) ==> old(objects).valid(o),
        ensures
            final(objects)@ == old(objects)@,
            r == match self.object {
                Some(o) => if old(objects).alive(o) {
                    Some(KTypedObject { object: o, ty: self.ty })
                } else {
                    None
                },
                None => None,
            },
            r is None ==> old(objects).same_counts(final(objects)),
            r matches Some(t) ==> final(objects).spec_ref_count(t.object) == if old(objects).spec_ref_count(t.object)
                < usize::MAX {
                old(objects).spec_ref_count(t.object) + 1
            } else {
                old(objects).spec_ref_count(t.object)
            },
            r matches Some(t) ==> forall|o: KObjectRef| o != t.object ==> #[trigger] final(objects).spec_ref_count(o)
                == old(objects).spec_ref_count(o),
    {
        match self.object {
            Some(o) => {
                if objects.is_alive(o) {
                    objects.acquire(o);
                    Some(KTypedObject { object: o, ty: self.ty })
                } else {
                    None
                }
            },
            None => None,
        }
    }
}

} // verus!
