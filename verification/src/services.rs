//! System services that run as kernel-side threads: each takes a request
//! out of its IPC data area, acts on the kernel, and writes the reply in
//! its place.

use vstd::prelude::*;
use crate::ipc::{
    decode_handle, handle_count_field, IPCReader, IPCWriter, spec_encode_handles, word_at, IPCContext, IPCHandles, IPCHeaderCode, IPCResponse, IPCTranslateParameter,
    IPC_REQUEST_SIZE,
};
use crate::kernel::Kernel;
use crate::le::{le_bytes, le_u32, le_u32_at, read_u32_le, read_word, u32_to_le};
use crate::object::{spec_peer, EventImpl, KObjectData, KObjectRef, KTypedObject, MutexImpl, ObjectType};
use crate::ports::make_port_pair;
use crate::svc::{create_event, create_mutex, signal_event, spec_made_object};
use crate::types::{Handle, ResetType, Signal};

verus! {

/// Why a service could not answer a request.
#[derive(Clone, Copy, Debug, PartialEq, Eq, Structural)]
pub enum ServiceFault {
    /// The service has no command with this header.
    Unimplemented(IPCHeaderCode),
    /// No service is registered under the requested name.
    ServiceNotFound,
    /// A notification was published that a subscriber had asked for.
    NotificationSeen(u32),
    /// A reply did not carry the one handle it should.
    MalformedReply,
    /// Waiting for a request failed with this result code.
    ReceiveFailed(u32),
    /// The session at this index failed with this result code.
    Disconnected(usize, u32),
    /// A wait for a request ended with neither an index nor an error.
    NoIndex,
}

/// The header of the request in an IPC data area.
pub open spec fn spec_request_header(data: Seq<u8>) -> IPCHeaderCode {
    IPCHeaderCode::spec_decode(word_at(data, 0))
}

/// The `i`th normal parameter of the request in an IPC data area.
pub open spec fn spec_request_normal(data: Seq<u8>, i: int) -> u32 {
    word_at(data, 1 + i)
}

/// `data` is a reply of the full IPC data size to command `cmd` with the
/// result code `result`, then the normal parameters `normals`, then the
/// translate words `translate`.
pub open spec fn spec_reply(data: Seq<u8>, cmd: u16, result: u32, normals: Seq<u32>, translate: Seq<u32>) -> bool {
    &&& data.len() == IPC_REQUEST_SIZE
    &&& word_at(data, 0) == (IPCHeaderCode {
        command_id: cmd,
        normal_parameter_count: normals.len() as u8,
        translate_parameter_size: translate.len() as u8,
    }).spec_encode()
    &&& word_at(data, 1) == result
    &&& forall|i: int| 0 <= i < normals.len() ==> word_at(data, 2 + i) == #[trigger] normals[i]
    &&& forall|j: int| 0 <= j < translate.len() ==> word_at(data, 2 + normals.len() + j) == #[trigger] translate[j]
}

/// The translate words of one handle parameter that moves `handles`.
pub open spec fn spec_moved_handles(handles: Seq<Option<Handle>>) -> Seq<u32> {
    spec_encode_handles(true, false, handles)
}

/// Writes normal parameters after the result word of a fresh reply.
fn write_normals(res: &mut IPCResponse, normals: &[u32])
    requires
        old(res).spec_writer().wf(),
        old(res).spec_writer().spec_word() == 2,
        old(res).spec_writer().spec_normal_count() == 0,
        old(res).spec_writer().spec_translate_size() == 0,
        old(res).spec_writer().spec_data().len() == IPC_REQUEST_SIZE,
        normals@.len() <= 16,
    ensures
        final(res).spec_writer().wf(),
        final(res).spec_writer().spec_command_id() == old(res).spec_writer().spec_command_id(),
        final(res).spec_writer().spec_word() == 2 + normals@.len(),
        final(res).spec_writer().spec_normal_count() == normals@.len(),
        final(res).spec_writer().spec_translate_size() == 0,
        final(res).spec_writer().spec_data().len() == IPC_REQUEST_SIZE,
        word_at(final(res).spec_writer().spec_data(), 1) == word_at(old(res).spec_writer().spec_data(), 1),
        forall|i: int| 0 <= i < normals@.len() ==> word_at(final(res).spec_writer().spec_data(), 2 + i) == #[trigger] normals@[i],
{
    let mut k: usize = 0;
    while k < normals.len()
        invariant
            k <= normals@.len() <= 16,
            res.spec_writer().wf(),
            res.spec_writer().spec_command_id() == old(res).spec_writer().spec_command_id(),
            res.spec_writer().spec_word() == 2 + k,
            res.spec_writer().spec_normal_count() == k,
            res.spec_writer().spec_translate_size() == 0,
            res.spec_writer().spec_data().len() == IPC_REQUEST_SIZE,
            word_at(res.spec_writer().spec_data(), 1) == word_at(old(res).spec_writer().spec_data(), 1),
            forall|i: int| 0 <= i < k ==> word_at(res.spec_writer().spec_data(), 2 + i) == #[trigger] normals@[i],
        decreases normals@.len() - k,
    {
        let ghost before = res.spec_writer().spec_data();
        res.write_normal(normals[k]);
        proof {
            assert forall|i: int| 0 <= i < k + 1 implies word_at(res.spec_writer().spec_data(), 2 + i)
                == #[trigger] normals@[i] by {
                if i < k {
                    assert(word_at(res.spec_writer().spec_data(), 2 + i) == word_at(before, 2 + i));
                }
            }
        }
        k = k + 1;
    }
}

/// Replies to the request in `ipc` with `result` and the normal
/// parameters `normals`.
pub fn reply_normals(ipc: IPCContext, result: u32, normals: &[u32]) -> (r: Vec<u8>)
    requires
        ipc.spec_data().len() == IPC_REQUEST_SIZE,
        normals@.len() <= 16,
    ensures
        spec_reply(r@, spec_request_header(ipc.spec_data()).command_id, result, normals@, Seq::empty()),
{
    let ghost cmd = spec_request_header(ipc.spec_data()).command_id;
    let mut res = ipc.response(result);
    write_normals(&mut res, normals);
    res.into_data()
}

/// Replies to the request in `ipc` with `result`, the normal parameters
/// `normals` and one parameter that moves `handles` to the client.
pub fn reply_handles(ipc: IPCContext, result: u32, normals: &[u32], handles: Vec<Option<Handle>>) -> (r: Vec<u8>)
    requires
        ipc.spec_data().len() == IPC_REQUEST_SIZE,
        normals@.len() <= 16,
        1 <= handles@.len() <= 16,
    ensures
        spec_reply(
            r@,
            spec_request_header(ipc.spec_data()).command_id,
            result,
            normals@,
            spec_moved_handles(handles@),
        ),
{
    let mut res = ipc.response(result);
    write_normals(&mut res, normals);
    let ghost before = res.spec_writer().spec_data();
    let ghost w0 = res.spec_writer().spec_word();
    let ghost hs = handles@;
    let param = if handles.len() == 1 {
        let h = handles[0];
        assert(seq![h] =~= hs);
        IPCTranslateParameter::Handle { moved: true, calling_process: false, handles: IPCHandles::Single(h) }
    } else {
        IPCTranslateParameter::Handle { moved: true, calling_process: false, handles: IPCHandles::Multiple(handles) }
    };
    assert(param@->handles == hs);
    assert(param@->moved && !param@->calling_process);
    res.write_translate(&param);
    let ghost after = res.spec_writer().spec_data();
    let r = res.into_data();
    proof {
        let enc = spec_moved_handles(hs);
        assert forall|i: int| 0 <= i < normals@.len() implies word_at(r@, 2 + i) == #[trigger] normals@[i] by {
            assert(word_at(r@, 2 + i) == word_at(before, 2 + i));
        }
        assert(word_at(r@, 1) == word_at(before, 1));
        assert forall|j: int| 0 <= j < enc.len() implies word_at(r@, 2 + normals@.len() + j) == #[trigger] enc[j] by {
            assert(word_at(after, w0 + j) == enc[j]);
        }
    }
    r
}

/// The applet manager service, `APT:U`.
pub struct AptU;

/// The kernel after APT's GetLockHandle: a new free mutex and a handle to
/// it in the running process.
pub open spec fn spec_apt_lock(k0: &Kernel, k1: &Kernel, h: Handle) -> bool {
    spec_made_object(k0, k1, KObjectData::Mutex(MutexImpl { acquired: false }), h)
}

/// The kernel after APT's Initialize: a new one-shot notification event,
/// a new sticky resume event, each with a handle in the running process,
/// and the resume event signalled.
pub open spec fn spec_apt_initialized(k0: &Kernel, k3: &Kernel, notification: Handle, resume: Handle) -> bool {
    exists|k1: Kernel, k2: Kernel|
        {
            &&& spec_made_object(
                k0,
                &k1,
                KObjectData::Event(EventImpl { signal: Signal { reset_type: ResetType::OneShot, signaled: false } }),
                notification,
            )
            &&& spec_made_object(
                &k1,
                &k2,
                KObjectData::Event(EventImpl { signal: Signal { reset_type: ResetType::Sticky, signaled: false } }),
                resume,
            )
            &&& k3.spec_objects().obj(k2.spec_lookup(Some(resume)).unwrap()).data == KObjectData::Event(
                EventImpl { signal: Signal { reset_type: ResetType::Sticky, signaled: true } },
            )
            &&& k3.spec_objects()@.len() == k2.spec_objects()@.len()
            &&& forall|j: int|
                0 <= j < k2.spec_objects()@.len() && j != k2.spec_lookup(Some(resume)).unwrap().0
                    ==> (#[trigger] k3.spec_objects()@[j]).data == k2.spec_objects()@[j].data
            &&& k3.spec_threads()@ == k2.spec_threads()@
            &&& k3.spec_processes() == k2.spec_processes()
            &&& k2.same_schedule(k3)
        }
}

impl AptU {
    /// Handles one request: GetLockHandle (1) hands out a new free mutex
    /// and echoes the applet attributes with state 0; Initialize (2) hands
    /// out a notification and a signalled resume event; Enable (3) and
    /// NotifyToWait (67) succeed; GlanceParameter and ReceiveParameter (13,
    /// 14) report a wake-up from application 0 with no parameter;
    /// AppletUtility (75) answers 0. Other requests are not implemented.
    pub fn handle_ipc(&mut self, ipc: IPCContext, kctx: &mut Kernel) -> (r: Result<Vec<u8>, ServiceFault>)
        requires
            ipc.spec_data().len() == IPC_REQUEST_SIZE,
            old(kctx).wf(),
            old(kctx).spec_current().is_some(),
            old(kctx).current_process_spec().handles().dom().len() + 2 < u32::MAX,
        ensures
            final(kctx).wf(),
            ({
                let data = ipc.spec_data();
                let h = spec_request_header(data);
                match (h.command_id, h.normal_parameter_count, h.translate_parameter_size) {
                    (1, 1, 0) => r matches Ok(out) && exists|lock: Handle|
                        spec_apt_lock(old(kctx), final(kctx), lock) && spec_reply(
                            out@,
                            1,
                            0,
                            seq![spec_request_normal(data, 0), 0u32],
                            spec_moved_handles(seq![Some(lock)]),
                        ),
                    (2, 2, 0) => r matches Ok(out) && exists|n: Handle, s: Handle|
                        spec_apt_initialized(old(kctx), final(kctx), n, s) && spec_reply(
                            out@,
                            2,
                            0,
                            Seq::empty(),
                            spec_moved_handles(seq![Some(n), Some(s)]),
                        ),
                    (3, 1, 0) | (67, 1, 0) => r matches Ok(out) && *final(kctx) == *old(kctx) && spec_reply(
                        out@,
                        h.command_id,
                        0,
                        Seq::empty(),
                        Seq::empty(),
                    ),
                    (13, 2, 0) | (14, 2, 0) => r matches Ok(out) && *final(kctx) == *old(kctx) && spec_reply(
                        out@,
                        h.command_id,
                        0,
                        seq![0u32, 1u32, 0u32],
                        Seq::empty(),
                    ),
                    (75, 3, 0) => r matches Ok(out) && *final(kctx) == *old(kctx) && spec_reply(
                        out@,
                        75,
                        0,
                        seq![0u32],
                        Seq::empty(),
                    ),
                    _ => r == Err::<Vec<u8>, ServiceFault>(ServiceFault::Unimplemented(h)) && *final(kctx)
                        == *old(kctx),
                }
            }),
    {
        let header = ipc.header();
        let key = (header.command_id, header.normal_parameter_count, header.translate_parameter_size);
        match key {
            (1, 1, 0) => {
                let applet_attributes = {
                    let mut req = ipc.request();
                    req.read_normal()
                };
                let ghost k0 = *kctx;
                let lock = match create_mutex(kctx, false) {
                    Ok(h) => h,
                    Err(_) => { return Err(ServiceFault::Unimplemented(header)); },
                };
                let normals: [u32; 2] = [applet_attributes, 0];
                let mut hs: Vec<Option<Handle>> = Vec::new();
                hs.push(Some(lock));
                assert(hs@ =~= seq![Some(lock)]);
                assert(normals@ =~= seq![applet_attributes, 0u32]);
                let out = reply_handles(ipc, 0, normals.as_slice(), hs);
                assert(spec_apt_lock(&k0, kctx, lock));
                Ok(out)
            },
            (2, 2, 0) => {
                let ghost k0 = *kctx;
                let notification = match create_event(kctx, ResetType::OneShot) {
                    Ok(h) => h,
                    Err(_) => { return Err(ServiceFault::Unimplemented(header)); },
                };
                let ghost k1 = *kctx;
                proof {
                    k0.current_process_spec().lemma_handles_finite();
                }
                let resume = match create_event(kctx, ResetType::Sticky) {
                    Ok(h) => h,
                    Err(_) => { return Err(ServiceFault::Unimplemented(header)); },
                };
                let ghost k2 = *kctx;
                proof {
                    k2.spec_objects().lemma_len_fits();
                }
                let ghost o = crate::object::KObjectRef(k1.spec_objects()@.len() as usize);
                assert(o.0 == k1.spec_objects()@.len());
                assert(k2.spec_lookup(Some(resume)) == Some(o));
                assert(k2.spec_objects()@[o.0 as int].wakers@.len() == 0);
                let _ = signal_event(kctx, Some(resume));
                assert(kctx.spec_objects().obj(o).data == KObjectData::Event(
                    EventImpl { signal: Signal { reset_type: ResetType::Sticky, signaled: true } },
                ));
                let mut hs: Vec<Option<Handle>> = Vec::new();
                hs.push(Some(notification));
                hs.push(Some(resume));
                assert(hs@ =~= seq![Some(notification), Some(resume)]);
                let normals: [u32; 0] = [];
                assert(normals@ =~= Seq::<u32>::empty());
                let out = reply_handles(ipc, 0, normals.as_slice(), hs);
                proof {
                    let k3 = *kctx;
                    assert(spec_made_object(
                        &k0,
                        &k1,
                        KObjectData::Event(EventImpl { signal: Signal { reset_type: ResetType::OneShot, signaled: false } }),
                        notification,
                    ));
                    assert(spec_made_object(
                        &k1,
                        &k2,
                        KObjectData::Event(EventImpl { signal: Signal { reset_type: ResetType::Sticky, signaled: false } }),
                        resume,
                    ));
                    assert(k3.spec_threads()@ == k2.spec_threads()@);
                }
                assert(spec_apt_initialized(&k0, kctx, notification, resume));
                Ok(out)
            },
            (3, 1, 0) | (67, 1, 0) => {
                let normals: [u32; 0] = [];
                assert(normals@ =~= Seq::<u32>::empty());
                Ok(reply_normals(ipc, 0, normals.as_slice()))
            },
            (13, 2, 0) | (14, 2, 0) => {
                let normals: [u32; 3] = [0, 1, 0];
                assert(normals@ =~= seq![0u32, 1u32, 0u32]);
                Ok(reply_normals(ipc, 0, normals.as_slice()))
            },
            (75, 3, 0) => {
                let normals: [u32; 1] = [0];
                assert(normals@ =~= seq![0u32]);
                Ok(reply_normals(ipc, 0, normals.as_slice()))
            },
            _ => Err(ServiceFault::Unimplemented(header)),
        }
    }
}

/// The network daemon service, `ndm:u`: every request succeeds.
pub struct NdmU;

impl NdmU {
    /// Answers every request with success and no parameters.
    pub fn handle_ipc(&mut self, ipc: IPCContext) -> (r: Vec<u8>)
        requires
            ipc.spec_data().len() == IPC_REQUEST_SIZE,
        ensures
            spec_reply(r@, spec_request_header(ipc.spec_data()).command_id, 0, Seq::empty(), Seq::empty()),
    {
        let normals: [u32; 0] = [];
        assert(normals@ =~= Seq::<u32>::empty());
        reply_normals(ipc, 0, normals.as_slice())
    }
}

/// The sound processor service, `dsp::DSP`: every request succeeds.
pub struct DSP;

impl DSP {
    /// Answers every request with success and no parameters.
    pub fn handle_ipc(&mut self, ipc: IPCContext) -> (r: Vec<u8>)
        requires
            ipc.spec_data().len() == IPC_REQUEST_SIZE,
        ensures
            spec_reply(r@, spec_request_header(ipc.spec_data()).command_id, 0, Seq::empty(), Seq::empty()),
    {
        let normals: [u32; 0] = [];
        assert(normals@ =~= Seq::<u32>::empty());
        reply_normals(ipc, 0, normals.as_slice())
    }
}

/// The configuration service, `cfg:u`.
pub struct CfgU;

impl CfgU {
    /// GetConfigInfoBlk2 (1) succeeds with no parameters; other requests
    /// are not implemented.
    pub fn handle_ipc(&mut self, ipc: IPCContext) -> (r: Result<Vec<u8>, ServiceFault>)
        requires
            ipc.spec_data().len() == IPC_REQUEST_SIZE,
        ensures
            ({
                let h = spec_request_header(ipc.spec_data());
                if h == (IPCHeaderCode { command_id: 1, normal_parameter_count: 2, translate_parameter_size: 0 }) {
                    r matches Ok(out) && spec_reply(out@, 1, 0, Seq::empty(), Seq::empty())
                } else {
                    r == Err::<Vec<u8>, ServiceFault>(ServiceFault::Unimplemented(h))
                }
            }),
    {
        let header = ipc.header();
        if header.command_id == 1 && header.normal_parameter_count == 2 && header.translate_parameter_size == 0 {
            let normals: [u32; 0] = [];
            assert(normals@ =~= Seq::<u32>::empty());
            Ok(reply_normals(ipc, 0, normals.as_slice()))
        } else {
            Err(ServiceFault::Unimplemented(header))
        }
    }
}

/// The file system service, `fs:USER`.
pub struct FsUser;

impl FsUser {
    /// InitializeWithSDKVersion (2145), SetPriority (2146) and
    /// OpenFileDirectly (2051) succeed with no parameters; other requests
    /// are not implemented.
    pub fn handle_ipc(&mut self, ipc: IPCContext) -> (r: Result<Vec<u8>, ServiceFault>)
        requires
            ipc.spec_data().len() == IPC_REQUEST_SIZE,
        ensures
            ({
                let h = spec_request_header(ipc.spec_data());
                match (h.command_id, h.normal_parameter_count, h.translate_parameter_size) {
                    (2145, 1, 2) | (2146, 1, 0) | (2051, 8, 0) => r matches Ok(out) && spec_reply(
                        out@,
                        h.command_id,
                        0,
                        Seq::empty(),
                        Seq::empty(),
                    ),
                    _ => r == Err::<Vec<u8>, ServiceFault>(ServiceFault::Unimplemented(h)),
                }
            }),
    {
        let header = ipc.header();
        match (header.command_id, header.normal_parameter_count, header.translate_parameter_size) {
            (2145, 1, 2) | (2146, 1, 0) | (2051, 8, 0) => {
                let normals: [u32; 0] = [];
                assert(normals@ =~= Seq::<u32>::empty());
                Ok(reply_normals(ipc, 0, normals.as_slice()))
            },
            _ => Err(ServiceFault::Unimplemented(header)),
        }
    }
}


/// Makes a port and gives the running process a handle to each end.
fn new_port_handles(kctx: &mut Kernel) -> (r: (Handle, Handle))
    requires
        old(kctx).wf(),
        old(kctx).spec_current().is_some(),
        old(kctx).current_process_spec().handles().dom().len() + 1 < u32::MAX,
    ensures
        final(kctx).wf(),
        spec_made_port(old(kctx), final(kctx), r.0, r.1),
{
    let ghost k0 = *kctx;
    let (objs, threads) = kctx.parts_mut();
    let (server, client) = make_port_pair(objs, threads);
    proof {
        Kernel::lemma_keeps_wf(&k0, kctx);
    }
    let ghost k1 = *kctx;
    let hs = kctx.new_handle(server.object);
    proof {
        k0.current_process_spec().lemma_handles_finite();
    }
    let hc = kctx.new_handle(client.object);
    proof {
        let n = k0.spec_objects()@.len();
        assert(kctx.spec_objects()@[n as int] == k1.spec_objects()@[n as int]);
    }
    (hs, hc)
}

/// The kernel after a port was made: its server end is object `n` and its
/// client end object `n + 1`, each the other's peer, and the running
/// process got the handles `server` and `client` to them.
pub open spec fn spec_made_port(k0: &Kernel, k1: &Kernel, server: Handle, client: Handle) -> bool {
    let n = k0.spec_objects()@.len();
    let hs = k0.current_process_spec().handles();
    &&& k1.spec_objects()@.len() == n + 2
    &&& forall|j: int| 0 <= j < n ==> k1.spec_objects()@[j] == #[trigger] k0.spec_objects()@[j]
    &&& k1.spec_objects()@[n as int].data is ServerPort
    &&& k1.spec_objects()@[n + 1int].data is ClientPort
    &&& spec_peer(k1.spec_objects()@[n as int].data).object == Some(KObjectRef((n + 1) as usize))
    &&& spec_peer(k1.spec_objects()@[n + 1int].data).object == Some(KObjectRef(n as usize))
    &&& !hs.dom().contains(server.spec_raw())
    &&& !hs.insert(server.spec_raw(), KObjectRef(n as usize)).dom().contains(client.spec_raw())
    &&& k1.current_process_spec().handles() == hs.insert(server.spec_raw(), KObjectRef(n as usize)).insert(
        client.spec_raw(),
        KObjectRef((n + 1) as usize),
    )
    &&& k1.spec_threads() == k0.spec_threads()
    &&& k0.same_schedule(k1)
}

/// A service registered with the service manager.
#[derive(Clone, Copy, Debug)]
pub struct SrvService {
    pub name: [u8; 8],
    pub name_len: u8,
    pub max_sessions: u32,
    pub client_port: Handle,
}

/// Whether a service is registered under the first `len` bytes of `name`.
pub open spec fn spec_name_matches(s: SrvService, name: Seq<u8>, len: u8) -> bool {
    &&& s.name_len == len
    &&& s.name@.subrange(0, len as int) == name.subrange(0, len as int)
}

/// Whether `i` is the first service registered under `name`.
pub open spec fn spec_first_match(services: Seq<SrvService>, name: Seq<u8>, len: u8, i: int) -> bool {
    &&& 0 <= i < services.len()
    &&& spec_name_matches(services[i], name, len)
    &&& forall|j: int| 0 <= j < i ==> !spec_name_matches(#[trigger] services[j], name, len)
}

/// The eight name bytes that two request words carry, little-endian.
pub open spec fn spec_name_of_words(a: u32, b: u32) -> Seq<u8> {
    le_bytes(a) + le_bytes(b)
}

/// What the service manager is to do after handling a request.
pub enum SrvStep {
    /// Send this reply.
    Reply(Vec<u8>),
    /// Connect to the client port `port`, then answer the request kept in
    /// `ipc` with the new session (see `SrvContext::finish_connect`).
    Connect { port: Handle, ipc: IPCContext },
}

/// The service manager, `srv:`: the registered services and the
/// notifications subscribed to.
pub struct SrvContext {
    pub services: Vec<SrvService>,
    pub seen_notifications: Vec<u32>,
}

impl SrvContext {
    /// A manager with no services and no subscriptions.
    pub fn new() -> (r: SrvContext)
        ensures
            r.services@.len() == 0,
            r.seen_notifications@.len() == 0,
    {
        SrvContext { services: Vec::new(), seen_notifications: Vec::new() }
    }

    /// The first service registered under the first `name_len` bytes of
    /// `name`.
    pub fn find_service(&self, name: &[u8; 8], name_len: u8) -> (r: Option<usize>)
        requires
            name_len <= 8,
        ensures
            r matches Some(i) ==> spec_first_match(self.services@, name@, name_len, i as int),
            r is None ==> forall|j: int| 0 <= j < self.services@.len() ==> !spec_name_matches(
                #[trigger] self.services@[j],
                name@,
                name_len,
            ),
    {
        let mut i: usize = 0;
        while i < self.services.len()
            invariant
                i <= self.services@.len(),
                name_len <= 8,
                forall|j: int| 0 <= j < i ==> !spec_name_matches(#[trigger] self.services@[j], name@, name_len),
            decreases self.services@.len() - i,
        {
            let s = &self.services[i];
            if s.name_len == name_len {
                let mut k: usize = 0;
                let mut same = true;
                assert(s.name@.subrange(0, 0) =~= name@.subrange(0, 0));
                while k < name_len as usize
                    invariant
                        k <= name_len <= 8,
                        s.name_len == name_len,
                        same == (s.name@.subrange(0, k as int) == name@.subrange(0, k as int)),
                    decreases name_len - k,
                {
                    proof {
                        assert(s.name@.subrange(0, k + 1) == s.name@.subrange(0, k as int).push(s.name@[k as int]));
                        assert(name@.subrange(0, k + 1) == name@.subrange(0, k as int).push(name@[k as int]));
                        if s.name@.subrange(0, k as int) != name@.subrange(0, k as int) {
                            assert(s.name@.subrange(0, k + 1) != name@.subrange(0, k + 1)) by {
                                if s.name@.subrange(0, k + 1) == name@.subrange(0, k + 1) {
                                    assert(s.name@.subrange(0, k as int) =~= s.name@.subrange(0, k + 1).subrange(0, k as int));
                                    assert(name@.subrange(0, k as int) =~= name@.subrange(0, k + 1).subrange(0, k as int));
                                }
                            }
                        }
                        if s.name@[k as int] != name@[k as int] {
                            assert(s.name@.subrange(0, k + 1)[k as int] != name@.subrange(0, k + 1)[k as int]);
                        }
                    }
                    same = same && s.name[k] == name[k];
                    k = k + 1;
                }
                if same {
                    return Some(i);
                }
            }
            i = i + 1;
        }
        None
    }

    /// Registers a service.
    pub fn register_service(&mut self, service: SrvService)
        ensures
            final(self).services@ == old(self).services@.push(service),
            final(self).seen_notifications@ == old(self).seen_notifications@,
    {
        self.services.push(service);
    }

    /// Answers a request that waited to connect to a service with the
    /// session it got.
    pub fn finish_connect(ipc: IPCContext, session: Handle) -> (r: Vec<u8>)
        requires
            ipc.spec_data().len() == IPC_REQUEST_SIZE,
        ensures
            spec_reply(
                r@,
                spec_request_header(ipc.spec_data()).command_id,
                0,
                Seq::empty(),
                spec_moved_handles(seq![Some(session)]),
            ),
    {
        let mut hs: Vec<Option<Handle>> = Vec::new();
        hs.push(Some(session));
        assert(hs@ =~= seq![Some(session)]);
        let normals: [u32; 0] = [];
        assert(normals@ =~= Seq::<u32>::empty());
        reply_handles(ipc, 0, normals.as_slice(), hs)
    }
}

/// Whether a notification was subscribed to.
fn seen(v: &Vec<u32>, n: u32) -> (r: bool)
    ensures
        r == v@.contains(n),
{
    let mut i: usize = 0;
    while i < v.len()
        invariant
            i <= v@.len(),
            forall|j: int| 0 <= j < i ==> v@[j] != n,
        decreases v@.len() - i,
    {
        if v[i] == n {
            return true;
        }
        i = i + 1;
    }
    false
}

/// The reply that a service manager request gets, when it gets one, and
/// how the manager and the kernel changed; see `SrvContext::handle_ipc`.
pub open spec fn spec_srv_handled(
    s0: &SrvContext,
    s1: &SrvContext,
    k0: &Kernel,
    k1: &Kernel,
    data: Seq<u8>,
    r: Result<SrvStep, ServiceFault>,
) -> bool {
    let h = spec_request_header(data);
    let unchanged = s1.services@ == s0.services@ && s1.seen_notifications@ == s0.seen_notifications@ && *k1
        == *k0;
    match (h.command_id, h.normal_parameter_count, h.translate_parameter_size) {
        (1, 0, 2) => r matches Ok(SrvStep::Reply(out)) && unchanged && spec_reply(
            out@,
            1,
            0,
            Seq::empty(),
            Seq::empty(),
        ),
        (2, 0, 0) => r matches Ok(SrvStep::Reply(out)) && s1.services@ == s0.services@
            && s1.seen_notifications@ == s0.seen_notifications@ && exists|e: Handle|
            spec_made_object(
                k0,
                k1,
                KObjectData::Event(EventImpl { signal: Signal { reset_type: ResetType::OneShot, signaled: false } }),
                e,
            ) && spec_reply(out@, 2, 0, Seq::empty(), spec_moved_handles(seq![Some(e)])),
        (3, 4, 0) => r matches Ok(SrvStep::Reply(out)) && s1.seen_notifications@ == s0.seen_notifications@
            && exists|server: Handle, client: Handle|
            spec_made_port(k0, k1, server, client) && s1.services@ == s0.services@.push(
                SrvService {
                    name: s1.services@.last().name,
                    name_len: spec_request_normal(data, 2) as u8,
                    max_sessions: spec_request_normal(data, 3),
                    client_port: client,
                },
            ) && s1.services@.last().name@ == spec_name_of_words(spec_request_normal(data, 0), spec_request_normal(data, 1)) && spec_reply(
                out@,
                3,
                0,
                Seq::empty(),
                spec_moved_handles(seq![Some(server)]),
            ),
        (5, 4, 0) => unchanged && if (spec_request_normal(data, 2) as u8) <= 8 && exists|i: int|
            #[trigger] spec_first_match(s0.services@, spec_name_of_words(spec_request_normal(data, 0), spec_request_normal(data, 1)), spec_request_normal(data, 2) as u8, i) {
            r matches Ok(SrvStep::Connect { port, ipc }) && ipc.spec_data() == data && exists|i: int|
                #[trigger] spec_first_match(s0.services@, spec_name_of_words(spec_request_normal(data, 0), spec_request_normal(data, 1)), spec_request_normal(data, 2) as u8, i) && port
                    == s0.services@[i].client_port
        } else {
            r == Err::<SrvStep, ServiceFault>(ServiceFault::ServiceNotFound)
        },
        (9, 1, 0) => r matches Ok(SrvStep::Reply(out)) && s1.services@ == s0.services@
            && s1.seen_notifications@ == s0.seen_notifications@.push(spec_request_normal(data, 0)) && *k1 == *k0 && spec_reply(
            out@,
            9,
            0,
            Seq::empty(),
            Seq::empty(),
        ),
        (11, 0, 0) => r matches Ok(SrvStep::Reply(out)) && unchanged && spec_reply(
            out@,
            11,
            0,
            seq![0x206u32],
            Seq::empty(),
        ),
        (12, 2, 0) => unchanged && if s0.seen_notifications@.contains(spec_request_normal(data, 0)) {
            r == Err::<SrvStep, ServiceFault>(ServiceFault::NotificationSeen(spec_request_normal(data, 0)))
        } else {
            r matches Ok(SrvStep::Reply(out)) && spec_reply(out@, 12, 0, Seq::empty(), Seq::empty())
        },
        (13, 1, 0) => unchanged && if s0.seen_notifications@.contains(spec_request_normal(data, 0)) {
            r == Err::<SrvStep, ServiceFault>(ServiceFault::NotificationSeen(spec_request_normal(data, 0)))
        } else {
            r matches Ok(SrvStep::Reply(out)) && spec_reply(out@, 13, 0, seq![1u32, 1u32], Seq::empty())
        },
        _ => unchanged && r == Err::<SrvStep, ServiceFault>(ServiceFault::Unimplemented(h)),
    }
}

/// Reads the `i`th normal parameter of a request.
fn request_normal(ipc: &IPCContext, i: usize) -> (r: u32)
    requires
        ipc.spec_data().len() == IPC_REQUEST_SIZE,
        i < 8,
    ensures
        r == spec_request_normal(ipc.spec_data(), i as int),
{
    let data = ipc.data();
    crate::le::read_word(data.as_slice(), 4 * (i + 1))
}

impl SrvContext {
    /// Handles one request to the service manager: RegisterClient (1)
    /// succeeds; EnableNotification (2) hands out a new event;
    /// RegisterService (3) makes a port, records the service under the
    /// given name with the client end, and hands out the server end;
    /// GetServiceHandle (5) finds the first service under the given name
    /// and asks to connect to its port; Subscribe (9) records a
    /// notification; ReceiveNotification (11) answers 0x206;
    /// PublishToSubscriber (12) and PublishAndGetSubscriber (13) succeed
    /// unless the notification was subscribed to.
    pub fn handle_ipc(&mut self, ipc: IPCContext, kctx: &mut Kernel) -> (r: Result<SrvStep, ServiceFault>)
        requires
            ipc.spec_data().len() == IPC_REQUEST_SIZE,
            old(kctx).wf(),
            old(kctx).spec_current().is_some(),
            old(kctx).current_process_spec().handles().dom().len() + 1 < u32::MAX,
        ensures
            final(kctx).wf(),
            spec_srv_handled(old(self), final(self), old(kctx), final(kctx), ipc.spec_data(), r),
    {
        let header = ipc.header();
        let ghost data = ipc.spec_data();
        match (header.command_id, header.normal_parameter_count, header.translate_parameter_size) {
            (1, 0, 2) => {
                let normals: [u32; 0] = [];
                assert(normals@ =~= Seq::<u32>::empty());
                Ok(SrvStep::Reply(reply_normals(ipc, 0, normals.as_slice())))
            },
            (2, 0, 0) => {
                let ghost k0 = *kctx;
                let event = match create_event(kctx, ResetType::OneShot) {
                    Ok(h) => h,
                    Err(_) => { return Err(ServiceFault::Unimplemented(header)); },
                };
                let out = SrvContext::finish_connect(ipc, event);
                Ok(SrvStep::Reply(out))
            },
            (3, 4, 0) => {
                let a = request_normal(&ipc, 0);
                let b = request_normal(&ipc, 1);
                let name_length = request_normal(&ipc, 2);
                let max_sessions = request_normal(&ipc, 3);
                let ba = u32_to_le(a);
                let bb = u32_to_le(b);
                let name: [u8; 8] = [ba[0], ba[1], ba[2], ba[3], bb[0], bb[1], bb[2], bb[3]];
                assert(name@ =~= spec_name_of_words(a, b));
                let ghost k0 = *kctx;
                let (server_port, client_port) = new_port_handles(kctx);
                self.register_service(
                    SrvService { name, name_len: name_length as u8, max_sessions, client_port },
                );
                let out = SrvContext::finish_connect(ipc, server_port);
                proof {
                    assert(spec_made_port(&k0, kctx, server_port, client_port));
                }
                Ok(SrvStep::Reply(out))
            },
            (5, 4, 0) => {
                let a = request_normal(&ipc, 0);
                let b = request_normal(&ipc, 1);
                let name_length = request_normal(&ipc, 2);
                let ba = u32_to_le(a);
                let bb = u32_to_le(b);
                let name: [u8; 8] = [ba[0], ba[1], ba[2], ba[3], bb[0], bb[1], bb[2], bb[3]];
                assert(name@ =~= spec_name_of_words(a, b));
                let len = name_length as u8;
                if len > 8 {
                    return Err(ServiceFault::ServiceNotFound);
                }
                match self.find_service(&name, len) {
                    Some(i) => {
                        let port = self.services[i].client_port;
                        Ok(SrvStep::Connect { port, ipc })
                    },
                    None => Err(ServiceFault::ServiceNotFound),
                }
            },
            (9, 1, 0) => {
                let notification = request_normal(&ipc, 0);
                self.seen_notifications.push(notification);
                let normals: [u32; 0] = [];
                assert(normals@ =~= Seq::<u32>::empty());
                Ok(SrvStep::Reply(reply_normals(ipc, 0, normals.as_slice())))
            },
            (11, 0, 0) => {
                let normals: [u32; 1] = [0x206];
                assert(normals@ =~= seq![0x206u32]);
                Ok(SrvStep::Reply(reply_normals(ipc, 0, normals.as_slice())))
            },
            (12, 2, 0) => {
                let notification = request_normal(&ipc, 0);
                if seen(&self.seen_notifications, notification) {
                    return Err(ServiceFault::NotificationSeen(notification));
                }
                let normals: [u32; 0] = [];
                assert(normals@ =~= Seq::<u32>::empty());
                Ok(SrvStep::Reply(reply_normals(ipc, 0, normals.as_slice())))
            },
            (13, 1, 0) => {
                let notification = request_normal(&ipc, 0);
                if seen(&self.seen_notifications, notification) {
                    return Err(ServiceFault::NotificationSeen(notification));
                }
                let normals: [u32; 2] = [1, 1];
                assert(normals@ =~= seq![1u32, 1u32]);
                Ok(SrvStep::Reply(reply_normals(ipc, 0, normals.as_slice())))
            },
            _ => Err(ServiceFault::Unimplemented(header)),
        }
    }
}

/// What a service thread is to do after its wait for a request ended.
#[derive(Clone, Copy, Debug, PartialEq, Eq, Structural)]
pub enum ServerStep {
    /// The port has a new client: accept its session.
    Accept,
    /// The session at `index` sent a request: handle it, then reply to
    /// `reply_target`, the handle of that session.
    Handle { index: usize, reply_target: Option<Handle> },
}

/// Decides what a service thread does after its wait on `handles` (the
/// port first, then its sessions) ended with `index` and `res`.
pub fn server_step(handles: &[Option<Handle>], index: Option<usize>, res: Result<(), u32>) -> (r: Result<ServerStep, ServiceFault>)
    requires
        index matches Some(i) ==> i < handles@.len(),
    ensures
        r == match (index, res) {
            (Some(0), Ok(())) => Ok(ServerStep::Accept),
            (Some(i), Ok(())) => Ok(ServerStep::Handle { index: i, reply_target: handles@[i as int] }),
            (Some(i), Err(e)) => Err(ServiceFault::Disconnected(i, e)),
            (None, Err(e)) => Err(ServiceFault::ReceiveFailed(e)),
            (None, Ok(())) => Err(ServiceFault::NoIndex),
        },
{
    match (index, res) {
        (Some(0), Ok(())) => Ok(ServerStep::Accept),
        (Some(i), Ok(())) => Ok(ServerStep::Handle { index: i, reply_target: handles[i] }),
        (Some(i), Err(e)) => Err(ServiceFault::Disconnected(i, e)),
        (None, Err(e)) => Err(ServiceFault::ReceiveFailed(e)),
        (None, Ok(())) => Err(ServiceFault::NoIndex),
    }
}

/// Adds a newly accepted session to the handles that a service thread
/// waits on: after the port and the sessions accepted before it.
pub fn add_session(handles: &mut Vec<Option<Handle>>, session: Handle)
    ensures
        final(handles)@ == old(handles)@.push(Some(session)),
{
    handles.push(Some(session));
}

/// Some service is the first registered under a name, once any is.
pub proof fn lemma_first_match_exists(services: Seq<SrvService>, name: Seq<u8>, len: u8, j: int)
    requires
        0 <= j < services.len(),
        spec_name_matches(services[j], name, len),
    ensures
        exists|i: int| #[trigger] spec_first_match(services, name, len, i),
    decreases j,
{
    if exists|k: int| 0 <= k < j && spec_name_matches(#[trigger] services[k], name, len) {
        let k = choose|k: int| 0 <= k < j && spec_name_matches(#[trigger] services[k], name, len);
        lemma_first_match_exists(services, name, len, k);
    } else {
        assert(spec_first_match(services, name, len, j));
    }
}

/// A service registered under a name is found under that name afterwards:
/// some service, the first registered under it, answers.
pub proof fn law_registered_service_found(services: Seq<SrvService>, s: SrvService, name: Seq<u8>, len: u8)
    requires
        spec_name_matches(s, name, len),
    ensures
        exists|i: int| #[trigger] spec_first_match(services.push(s), name, len, i),
{
    let all = services.push(s);
    assert(all[services.len() as int] == s);
    lemma_first_match_exists(all, name, len, services.len() as int);
}

/// The name that RegisterService carries is the name that
/// GetServiceHandle carries for the same bytes: both pack the padded name
/// into the same two words.
pub proof fn law_name_words_agree(name: Seq<u8>)
    requires
        name.len() <= 8,
    ensures
        spec_name_of_words(spec_name_word(name, 0), spec_name_word(name, 1)).subrange(0, name.len() as int) == name,
{
    let w0 = spec_name_word(name, 0);
    let w1 = spec_name_word(name, 1);
    crate::le::lemma_le_roundtrip(w0);
    crate::le::lemma_le_roundtrip(w1);
    let b0 = le_bytes(w0);
    let b1 = le_bytes(w1);
    crate::le::lemma_bytes_of_le(spec_padded(name, 0), spec_padded(name, 1), spec_padded(name, 2), spec_padded(name, 3));
    crate::le::lemma_bytes_of_le(spec_padded(name, 4), spec_padded(name, 5), spec_padded(name, 6), spec_padded(name, 7));
    assert(spec_name_of_words(w0, w1).subrange(0, name.len() as int) =~= name);
}

/// The byte at index `i` of a service name padded with zeros to eight
/// bytes.
pub open spec fn spec_padded(name: Seq<u8>, i: int) -> u8 {
    if i < name.len() { name[i] } else { 0 }
}

/// The `k`th little-endian word of a service name padded to eight bytes.
pub open spec fn spec_name_word(name: Seq<u8>, k: int) -> u32 {
    le_u32(spec_padded(name, 4 * k), spec_padded(name, 4 * k + 1), spec_padded(name, 4 * k + 2), spec_padded(name, 4 * k + 3))
}

/// `data` is a request of the full IPC data size with command `cmd` and
/// the normal parameters `normals`.
pub open spec fn spec_request(data: Seq<u8>, cmd: u16, normals: Seq<u32>) -> bool {
    &&& data.len() == IPC_REQUEST_SIZE
    &&& word_at(data, 0) == (IPCHeaderCode {
        command_id: cmd,
        normal_parameter_count: normals.len() as u8,
        translate_parameter_size: 0,
    }).spec_encode()
    &&& forall|i: int| 0 <= i < normals.len() ==> word_at(data, 1 + i) == #[trigger] normals[i]
}

/// What the service manager's reply to RegisterService or
/// GetServiceHandle says: the error code it carries, the handle it moves,
/// or that it is malformed.
pub open spec fn spec_service_handle_reply(data: Seq<u8>) -> Result<Result<Handle, u32>, ServiceFault> {
    let h = IPCHeaderCode::spec_decode(word_at(data, 0));
    let d = word_at(data, 2);
    if word_at(data, 1) != 0 {
        Ok(Err(word_at(data, 1)))
    } else if h.normal_parameter_count != 0 || h.translate_parameter_size < 2 || d & 7u32 != 0
        || handle_count_field(d) != 0 {
        Err(ServiceFault::MalformedReply)
    } else {
        match decode_handle(word_at(data, 3), (d & 32u32) != 0) {
            Some(handle) => Ok(Ok(handle)),
            None => Err(ServiceFault::MalformedReply),
        }
    }
}

/// A client's session to the service manager.
pub struct SrvInterface(pub Handle);

impl SrvInterface {
    /// The interface over a session to the service manager.
    pub fn new(handle: Handle) -> (r: SrvInterface)
        ensures
            r.0 == handle,
    {
        SrvInterface(handle)
    }

    /// Packs a service name of at most eight bytes into two words.
    fn name_words(name: &[u8]) -> (r: (u32, u32))
        requires
            name@.len() <= 8,
        ensures
            r.0 == spec_name_word(name@, 0),
            r.1 == spec_name_word(name@, 1),
    {
        let mut raw: Vec<u8> = vec![0u8, 0u8, 0u8, 0u8, 0u8, 0u8, 0u8, 0u8];
        let mut i: usize = 0;
        while i < name.len()
            invariant
                i <= name@.len() <= 8,
                raw@.len() == 8,
                forall|j: int| 0 <= j < 8 ==> #[trigger] raw@[j] == if j < i { name@[j] } else { 0 },
            decreases name@.len() - i,
        {
            raw.set(i, name[i]);
            i = i + 1;
        }
        assert forall|j: int| 0 <= j < 8 implies #[trigger] raw@[j] == spec_padded(name@, j) by {}
        let a = read_word(raw.as_slice(), 0);
        let b = read_word(raw.as_slice(), 4);
        (a, b)
    }

    /// A request with command `cmd` and four normal parameters.
    fn request4(cmd: u16, w0: u32, w1: u32, w2: u32, w3: u32) -> (r: Vec<u8>)
        ensures
            spec_request(r@, cmd, seq![w0, w1, w2, w3]),
    {
        let mut writer = IPCWriter::new_request(cmd, vec![0u8; 256]);
        writer.write_normal(w0);
        writer.write_normal(w1);
        writer.write_normal(w2);
        writer.write_normal(w3);
        let r = writer.into_data();
        assert(word_at(r@, 1) == w0);
        r
    }

    /// The request that registers the service `name` (at most eight
    /// bytes) with at most `max_sessions` sessions: RegisterService with
    /// the padded name's two words, its length and the limit.
    pub fn register_service_request(&self, name: &[u8], max_sessions: u32) -> (r: Vec<u8>)
        requires
            name@.len() <= 8,
        ensures
            spec_request(
                r@,
                3,
                seq![spec_name_word(name@, 0), spec_name_word(name@, 1), name@.len() as u32, max_sessions],
            ),
    {
        let (a, b) = SrvInterface::name_words(name);
        SrvInterface::request4(3, a, b, name.len() as u32, max_sessions)
    }

    /// The request for a session to the service `name` (at most eight
    /// bytes): GetServiceHandle with the padded name's two words, its
    /// length and 1 when the caller is not to wait, else 0.
    pub fn get_service_handle_request(&self, name: &[u8], no_wait: bool) -> (r: Vec<u8>)
        requires
            name@.len() <= 8,
        ensures
            spec_request(
                r@,
                5,
                seq![
                    spec_name_word(name@, 0),
                    spec_name_word(name@, 1),
                    name@.len() as u32,
                    if no_wait { 1u32 } else { 0u32 },
                ],
            ),
    {
        let (a, b) = SrvInterface::name_words(name);
        SrvInterface::request4(5, a, b, name.len() as u32, if no_wait { 1 } else { 0 })
    }

    /// Reads the service manager's reply to RegisterService or
    /// GetServiceHandle.
    pub fn handle_from_reply(data: &[u8]) -> (r: Result<Result<Handle, u32>, ServiceFault>)
        requires
            data@.len() == IPC_REQUEST_SIZE,
        ensures
            r == spec_service_handle_reply(data@),
    {
        let mut reader = IPCReader::new_response(data);
        let res = reader.result();
        if res != 0 {
            return Ok(Err(res));
        }
        let header = reader.header();
        if header.normal_parameter_count != 0 || header.translate_parameter_size < 2 {
            return Err(ServiceFault::MalformedReply);
        }
        let d = read_word(data, 8);
        if d & 7u32 != 0 || (d & 0xFC000000u32) >> 26u32 != 0 {
            return Err(ServiceFault::MalformedReply);
        }
        let ghost rest = reader.spec_rest();
        proof {
            assert(rest[0] == d);
            assert(rest[1] == word_at(data@, 3));
        }
        let param = reader.read_translate();
        proof {
            assert(param@->handles[0] == decode_handle(word_at(data@, 3), (d & 32u32) != 0));
        }
        match param {
            IPCTranslateParameter::Handle { handles: IPCHandles::Single(Some(h)), .. } => Ok(Ok(h)),
            _ => Err(ServiceFault::MalformedReply),
        }
    }
}

} // verus!
