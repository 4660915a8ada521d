use std::cell::RefCell;

use pomelo::guest::{Memory, MemoryMap, Protection, Regs, SvcResult, ThreadRegs};
use pomelo::handler::{handle_resume, handle_svc, SvcFault, SvcRequest};
use pomelo::ipc::{IPCContext, IPCHandles, IPCReader, IPCTranslateParameter, IPCWriter};
use pomelo::kernel::{elapsed_ns, Kernel};
use pomelo::object::{EventImpl, HLECodeSetImpl, KObjectData, KTypedObject, KWeakTypedObject, MutexImpl, ObjectManager, ObjectType};
use pomelo::object_table::ObjectTable;
use pomelo::ports::{make_port_pair, make_session_pair};
use pomelo::svc::{create_event, create_timer, reply_and_receive_post, reply_and_receive_pre, send_sync_request, set_timer, signal_event, wait_sync_1};
use pomelo::types::{Handle, ResetType, ThreadResume};

struct FlatMemory {
    bytes: RefCell<Vec<u8>>,
}

impl Memory for FlatMemory {
    fn spec_byte(&self, addr: u32) -> u8 {
        self.bytes.borrow()[addr as usize]
    }

    fn read(&self, addr: u32, bytes: &mut Vec<u8>) {
        let b = self.bytes.borrow();
        for (i, x) in bytes.iter_mut().enumerate() {
            *x = b[addr as usize + i];
        }
    }

    fn write(&mut self, addr: u32, bytes: &[u8]) {
        let mut b = self.bytes.borrow_mut();
        for (i, x) in bytes.iter().enumerate() {
            b[addr as usize + i] = *x;
        }
    }
}

impl MemoryMap for FlatMemory {
    fn spec_mapped(&self, addr: u32) -> bool {
        (addr as usize) < self.bytes.borrow().len()
    }

    fn map(&mut self, _addr: u32, _size: u32, _name: &str, _init: Option<&[u8]>, _prot: Protection) {}
}

fn flat(svc: u32) -> FlatMemory {
    let mut m = FlatMemory { bytes: RefCell::new(vec![0u8; 0x4000]) };
    m.write(0x100, &(0xEF00_0000u32 | svc).to_le_bytes());
    m
}

fn regs_at_svc() -> ThreadRegs {
    let mut r = ThreadRegs::zero();
    r.regs[15] = 0x104;
    r
}

#[test]
fn object_table_hands_out_distinct_handles() {
    let mut t: ObjectTable<u32> = ObjectTable::new();
    let a = t.insert(10);
    let b = t.insert(20);
    assert_ne!(a, b);
    assert_ne!(a.raw(), 0);
    assert_eq!(t.len(), 2);
    assert_eq!(t.lookup(&a), Some(&10));
    assert_eq!(t.remove(&a), Some(10));
    assert_eq!(t.lookup(&a), None);
    assert_eq!(t.lookup(&b), Some(&20));
    assert_eq!(t.len(), 1);
}

#[test]
fn ipc_request_roundtrip() {
    let mut w = IPCWriter::new_request(0x10, vec![0u8; 256]);
    w.write_normal(5);
    w.write_normal(6);
    let hs = vec![Handle::from_raw(3), Handle::from_raw(4)];
    w.write_translate(&IPCTranslateParameter::Handle { moved: false, calling_process: false, handles: IPCHandles::Multiple(hs) });
    let data = w.into_data();
    let mut r = IPCReader::new_request(&data);
    assert_eq!(r.header().command_id, 0x10);
    assert_eq!(r.header().normal_parameter_count, 2);
    assert_eq!(r.header().translate_parameter_size, 3);
    assert_eq!(r.read_normal(), 5);
    assert_eq!(r.read_normal(), 6);
    match r.read_translate() {
        IPCTranslateParameter::Handle { moved, calling_process, handles: IPCHandles::Multiple(v) } => {
            assert!(!moved);
            assert!(!calling_process);
            assert_eq!(v, vec![Handle::from_raw(3), Handle::from_raw(4)]);
        },
        other => panic!("unexpected {:?}", other),
    }
    assert!(!r.has_more_translate_params());
}

#[test]
fn waiting_thread_is_woken_by_signal() {
    let mut k = Kernel::new();
    let pid = k.new_process("p".to_string());
    let (t1, _) = k.new_thread(pid);
    let (t2, _) = k.new_thread(pid);
    let (first, resume) = k.begin_run().unwrap();
    assert_eq!(first, t1);
    assert_eq!(resume, ThreadResume::Normal);
    let ev = create_event(&mut k, ResetType::OneShot).unwrap();
    assert!(wait_sync_1(&mut k, Some(ev), -1).unwrap().is_some());
    k.end_run();
    let (second, _) = k.begin_run().unwrap();
    assert_eq!(second, t2);
    assert_eq!(signal_event(&mut k, Handle::from_raw(0x1234)), Err(0xD8E007F7));
    signal_event(&mut k, Some(ev)).unwrap_or(());
    k.end_run();
    let (third, _) = k.begin_run().unwrap();
    assert_eq!(third, t1);
}

#[test]
fn signalled_sticky_event_wakes_at_once() {
    let mut k = Kernel::new();
    let pid = k.new_process("p".to_string());
    let _ = k.new_thread(pid);
    k.begin_run().unwrap();
    let ev = create_event(&mut k, ResetType::Sticky).unwrap();
    signal_event(&mut k, Some(ev)).unwrap();
    assert!(wait_sync_1(&mut k, Some(ev), -1).unwrap().is_some());
    k.end_run();
    let (_, resume) = k.begin_run().unwrap();
    assert_eq!(resume, ThreadResume::Normal);
    assert!(wait_sync_1(&mut k, Some(ev), -1).unwrap().is_some());
    k.end_run();
    assert!(k.begin_run().is_some());
}

#[test]
fn svc_create_event_returns_a_handle() {
    let mut k = Kernel::new();
    let pid = k.new_process("p".to_string());
    let _ = k.new_thread(pid);
    k.begin_run().unwrap();
    let mut mem = flat(0x17);
    let mut regs = regs_at_svc();
    regs.regs[1] = 1;
    let out = handle_svc(&mut regs, 0x1000, &mut mem, &mut k).unwrap();
    assert_eq!(out.result, SvcResult::Continue);
    assert_eq!(out.request, SvcRequest::Nothing);
    assert_eq!(regs.r(0).u32(), 0);
    let o = k.lookup(&Handle::from_raw(regs.regs[1])).unwrap();
    assert_eq!(k.kind_of(o), ObjectType::EventImpl);
}

#[test]
fn svc_faults() {
    let mut k = Kernel::new();
    let pid = k.new_process("p".to_string());
    let _ = k.new_thread(pid);
    k.begin_run().unwrap();
    let mut mem = flat(0x7F);
    let mut regs = regs_at_svc();
    assert_eq!(handle_svc(&mut regs, 0x1000, &mut mem, &mut k).err(), Some(SvcFault::UnknownSvc(0x7F)));
    let mut mem = flat(0x17);
    regs.regs[1] = 9;
    assert_eq!(handle_svc(&mut regs, 0x1000, &mut mem, &mut k).err(), Some(SvcFault::Unsupported(0x17)));
}

#[test]
fn svc_sleep_reschedules() {
    let mut k = Kernel::new();
    let pid = k.new_process("p".to_string());
    let _ = k.new_thread(pid);
    k.begin_run().unwrap();
    let mut mem = flat(0x0A);
    let mut regs = regs_at_svc();
    let out = handle_svc(&mut regs, 0x1000, &mut mem, &mut k).unwrap();
    assert_eq!(out.result, SvcResult::Reschedule);
}

#[test]
fn code_set_starts_its_process_once() {
    let mut k = Kernel::new();
    let first_tid = k.next_tid();
    let mut code_set = HLECodeSetImpl::new(7, "loader".to_string());
    let (pid, tid, token) = code_set.create_process(&mut k);
    assert_eq!(token, 7);
    assert!(code_set.main_thread.is_none());
    assert_eq!(code_set.process_name, "loader");
    assert_eq!(tid.get(), first_tid as usize);
    assert!(k.has_thread(tid));
    assert_eq!(k.next_tid(), first_tid + 1);
    let other = k.new_process("other".to_string());
    assert_ne!(pid, other);
}

#[test]
fn translated_message_moves_handles_to_the_receiver() {
    let mut k = Kernel::new();
    let p1 = k.new_process("sender".to_string());
    let p2 = k.new_process("receiver".to_string());
    let (t1, _) = k.new_thread(p1);
    let (t2, _) = k.new_thread(p2);
    let (first, _) = k.begin_run().unwrap();
    assert_eq!(first, t1);
    let ev = create_event(&mut k, ResetType::OneShot).unwrap();
    let mut w = IPCWriter::new_request(0x10, vec![0u8; 256]);
    w.write_normal(5);
    let hs = vec![Some(ev), Handle::from_raw(0x999)];
    w.write_translate(&IPCTranslateParameter::Handle { moved: true, calling_process: false, handles: IPCHandles::Multiple(hs) });
    k.set_thread_ipc_data(&w.into_data());
    k.translate_ipc(t1, t2, false);

    assert_eq!(k.lookup(&Some(ev)), None);
    assert_eq!(k.thread_process_handle_count(t2), 1);

    let mut out = Vec::new();
    k.thread_ipc_data(t2, &mut out);
    let mut r = IPCReader::new_request(&out);
    assert_eq!(r.header().command_id, 0x10);
    assert_eq!(r.header().normal_parameter_count, 1);
    assert_eq!(r.header().translate_parameter_size, 3);
    assert_eq!(r.read_normal(), 5);
    let moved_handles = match r.read_translate() {
        IPCTranslateParameter::Handle { moved: true, calling_process: false, handles: IPCHandles::Multiple(v) } => v,
        other => panic!("unexpected {:?}", other),
    };
    assert_eq!(moved_handles.len(), 2);
    assert!(moved_handles[0].is_some());
    assert_eq!(moved_handles[1], None);

    k.exit_thread();
    k.end_run();
    let (second, _) = k.begin_run().unwrap();
    assert_eq!(second, t2);
    let o = k.lookup(&moved_handles[0]).unwrap();
    assert_eq!(k.kind_of(o), ObjectType::EventImpl);
}

#[test]
fn timer_wakes_its_waiter_when_due() {
    let mut k = Kernel::new();
    let pid = k.new_process("p".to_string());
    let (t1, _) = k.new_thread(pid);
    let (first, _) = k.begin_run().unwrap();
    assert_eq!(first, t1);
    let timer = create_timer(&mut k, ResetType::OneShot).unwrap();
    set_timer(&mut k, Some(timer), 5_000, 0).unwrap();
    assert!(wait_sync_1(&mut k, Some(timer), -1).unwrap().is_some());
    k.end_run();
    k.tick_at(4_999);
    assert!(k.can_run_next());
    assert_eq!(k.begin_run(), None);
    k.tick_at(5_000);
    assert!(k.can_run_next());
    let (again, resume) = k.begin_run().unwrap();
    assert_eq!(again, t1);
    assert_eq!(resume, ThreadResume::Normal);
}

#[test]
fn request_and_reply_travel_over_a_session() {
    let mut k = Kernel::new();
    let server_pid = k.new_process("server".to_string());
    let client_pid = k.new_process("client".to_string());
    let (server_tid, _) = k.new_thread(server_pid);
    let (client_tid, _) = k.new_thread(client_pid);
    let (server_end, client_end) = {
        let (objs, threads) = k.parts_mut();
        make_session_pair(objs, threads)
    };

    let (first, _) = k.begin_run().unwrap();
    assert_eq!(first, server_tid);
    let hs = Some(k.new_handle(server_end.object));
    assert!(reply_and_receive_pre(&mut k, &[hs], None).unwrap().is_some());
    k.end_run();

    let (second, _) = k.begin_run().unwrap();
    assert_eq!(second, client_tid);
    let hc = Some(k.new_handle(client_end.object));
    let mut request = IPCWriter::new_request(0x42, vec![0u8; 256]);
    request.write_normal(7);
    k.set_thread_ipc_data(&request.into_data());
    assert!(send_sync_request(&mut k, hc).unwrap().is_some());
    k.end_run();

    let (third, resume) = k.begin_run().unwrap();
    assert_eq!(third, server_tid);
    assert_eq!(reply_and_receive_post(&mut k, &[hs], &resume), (0, Ok(())));
    let mut received = Vec::new();
    k.get_thread_ipc_data(&mut received);
    let mut r = IPCReader::new_request(&received);
    assert_eq!(r.header().command_id, 0x42);
    assert_eq!(r.read_normal(), 7);

    let mut reply = IPCWriter::new_response(0x42, 0, vec![0u8; 256]);
    reply.write_normal(99);
    k.set_thread_ipc_data(&reply.into_data());
    assert!(reply_and_receive_pre(&mut k, &[hs], hs).unwrap().is_some());
    k.end_run();

    let (fourth, _) = k.begin_run().unwrap();
    assert_eq!(fourth, client_tid);
    let mut answer = Vec::new();
    k.get_thread_ipc_data(&mut answer);
    let mut a = IPCReader::new_response(&answer);
    assert_eq!(a.header().command_id, 0x42);
    assert_eq!(a.result(), 0);
    assert_eq!(a.read_normal(), 99);
}

#[test]
fn resuming_from_a_wait_reports_the_timeout() {
    let mut k = Kernel::new();
    let pid = k.new_process("p".to_string());
    let _ = k.new_thread(pid);
    k.begin_run().unwrap();
    let mut mem = flat(0x24);
    let mut regs = regs_at_svc();
    regs.regs[0] = 5;
    assert_eq!(handle_resume(ThreadResume::TimeoutReached, &mut regs, 0x1000, &mut mem, &mut k), Ok(()));
    assert_eq!(regs.regs[0], 0x09401BFE);
    let mut regs = regs_at_svc();
    regs.regs[1] = 9;
    assert_eq!(handle_resume(ThreadResume::WaitSyncN { index: 2 }, &mut regs, 0x1000, &mut mem, &mut k), Ok(()));
    assert_eq!(regs.regs[1], 2);
}

#[test]
fn resuming_reply_and_receive_checks_the_handle_count() {
    let mut k = Kernel::new();
    let pid = k.new_process("p".to_string());
    let _ = k.new_thread(pid);
    k.begin_run().unwrap();
    let mut mem = flat(0x4F);
    let mut regs = regs_at_svc();
    regs.regs[2] = 0x4000_0000;
    assert_eq!(
        handle_resume(ThreadResume::WaitSyncN { index: 0 }, &mut regs, 0x1000, &mut mem, &mut k),
        Err(SvcFault::Exhausted)
    );
    regs.regs[2] = 1;
    assert_eq!(handle_resume(ThreadResume::Normal, &mut regs, 0x1000, &mut mem, &mut k), Err(SvcFault::Unsupported(0x4F)));
}

#[test]
fn elapsed_time_wraps_around() {
    assert_eq!(elapsed_ns(10, 3), 7);
    assert_eq!(elapsed_ns(5, 5), 0);
    assert_eq!(elapsed_ns(1, 3), u64::MAX - 1);
}

fn words(buf: &[u8], n: usize) -> Vec<u32> {
    (0..n).map(|i| u32::from_le_bytes([buf[4 * i], buf[4 * i + 1], buf[4 * i + 2], buf[4 * i + 3]])).collect()
}

#[test]
fn written_request_leaves_the_rest_of_the_buffer() {
    let mut w = IPCWriter::new_request(3, vec![0u8; 0x100]);
    w.write_normal(0x3A767273);
    w.write_normal(0);
    w.write_normal(4);
    w.write_normal(255);
    let buf = w.into_data();
    assert_eq!(words(&buf, 5), vec![0x00030100, 0x3A767273, 0, 4, 255]);
    assert!(buf[20..].iter().all(|b| *b == 0));
}

#[test]
fn response_keeps_the_bytes_after_its_result() {
    let mut buf = vec![0xAAu8; 0x40];
    buf[0..4].copy_from_slice(&0x0042_0080u32.to_le_bytes());
    let out = IPCContext::new(buf).response(0x1234).into_data();
    assert_eq!(words(&out, 2), vec![0x0042_0000, 0x1234]);
    assert!(out[8..].iter().all(|b| *b == 0xAA));
}

#[test]
fn close_handle_closes_it_and_keeps_other_registers() {
    let mut k = Kernel::new();
    let pid = k.new_process("p".to_string());
    let _ = k.new_thread(pid);
    k.begin_run().unwrap();
    let mut mem = flat(0x17);
    let mut regs = regs_at_svc();
    handle_svc(&mut regs, 0x1000, &mut mem, &mut k).unwrap();
    let h = regs.regs[1];
    let before = k.current_handle_count();
    let mut mem = flat(0x23);
    let mut regs = regs_at_svc();
    regs.regs[0] = h;
    regs.regs[2] = 77;
    let out = handle_svc(&mut regs, 0x1000, &mut mem, &mut k).unwrap();
    assert_eq!(out.result, SvcResult::Continue);
    assert_eq!(regs.regs[0], 0);
    assert_eq!(regs.regs[1], 0);
    assert_eq!(regs.regs[2], 77);
    assert_eq!(k.current_handle_count(), before - 1);
    assert!(k.lookup(&Handle::from_raw(h)).is_none());
    let mut regs = regs_at_svc();
    regs.regs[0] = h;
    handle_svc(&mut regs, 0x1000, &mut mem, &mut k).unwrap();
    assert_eq!(regs.regs[0], 0xD8E007F7);
}

#[test]
fn resuming_after_a_timeout_keeps_the_other_registers() {
    let mut k = Kernel::new();
    let pid = k.new_process("p".to_string());
    let _ = k.new_thread(pid);
    k.begin_run().unwrap();
    let mut mem = flat(0x24);
    let mut regs = regs_at_svc();
    regs.regs[1] = 11;
    regs.regs[2] = 22;
    assert_eq!(handle_resume(ThreadResume::TimeoutReached, &mut regs, 0x1000, &mut mem, &mut k), Ok(()));
    assert_eq!(regs.regs[0], 0x09401BFE);
    assert_eq!(regs.regs[1], 11);
    assert_eq!(regs.regs[2], 22);
    assert_eq!(regs.regs[15], 0x104);
}

#[test]
fn translated_message_between_threads_of_one_process_copies_handles() {
    let mut k = Kernel::new();
    let p = k.new_process("p".to_string());
    let (t1, _) = k.new_thread(p);
    let (t2, _) = k.new_thread(p);
    let (first, _) = k.begin_run().unwrap();
    assert_eq!(first, t1);
    let ev = create_event(&mut k, ResetType::OneShot).unwrap();
    let before = k.current_handle_count();
    let mut w = IPCWriter::new_request(0x11, vec![0u8; 256]);
    let hs = vec![Some(ev), None];
    w.write_translate(&IPCTranslateParameter::Handle { moved: false, calling_process: false, handles: IPCHandles::Multiple(hs) });
    k.set_thread_ipc_data(&w.into_data());
    k.translate_ipc(t1, t2, false);

    assert_eq!(k.current_handle_count(), before + 1);
    let mut out = Vec::new();
    k.thread_ipc_data(t2, &mut out);
    let mut r = IPCReader::new_request(&out);
    let copied = match r.read_translate() {
        IPCTranslateParameter::Handle { moved: false, calling_process: false, handles: IPCHandles::Multiple(v) } => v,
        other => panic!("unexpected {:?}", other),
    };
    assert_eq!(copied.len(), 2);
    assert_eq!(copied[1], None);
    let h = copied[0].unwrap();
    assert_ne!(h, ev);
    assert_eq!(k.lookup(&Some(h)), k.lookup(&Some(ev)));
    assert!(k.lookup(&Some(ev)).is_some());
}

#[test]
fn dropped_object_is_no_longer_listed() {
    let mut om = ObjectManager::new();
    let a = om.new_object(KObjectData::Event(EventImpl::new(ResetType::OneShot)));
    let b = om.new_object(KObjectData::Mutex(MutexImpl::new(false)));
    assert_eq!(om.live_objects(), vec![a, b]);
    om.release(a);
    assert!(!om.is_alive(a));
    assert!(om.is_alive(b));
    assert_eq!(om.live_objects(), vec![b]);
}

#[test]
fn typed_reference_keeps_its_object_alive() {
    let mut om = ObjectManager::new();
    let a = om.new_object(KObjectData::Event(EventImpl::new(ResetType::OneShot)));
    let t = KTypedObject::new(&mut om, &a, ObjectType::EventImpl).unwrap();
    assert!(KTypedObject::new(&mut om, &a, ObjectType::MutexImpl).is_none());
    om.release(a);
    assert!(om.is_alive(a));
    let weak = KTypedObject::downgrade(&t);
    let again = weak.upgrade(&mut om).unwrap();
    assert_eq!(again.object(), a);
    om.release(a);
    let failed = KTypedObject::cast(t, &mut om, ObjectType::MutexImpl);
    assert!(failed.is_none());
    assert!(!om.is_alive(a));
    assert!(weak.upgrade(&mut om).is_none());
    assert!(KWeakTypedObject::empty(ObjectType::EventImpl).upgrade(&mut om).is_none());
}

#[test]
fn request_fails_once_the_server_end_is_gone() {
    let mut k = Kernel::new();
    let pid = k.new_process("p".to_string());
    let _ = k.new_thread(pid);
    let (server_end, client_end) = {
        let (objs, threads) = k.parts_mut();
        make_session_pair(objs, threads)
    };
    k.begin_run().unwrap();
    let hs = k.new_handle(server_end.object);
    let hc = k.new_handle(client_end.object);
    assert!(k.objects().is_alive(server_end.object));
    assert!(k.close_handle(&hs));
    assert!(!k.objects().is_alive(server_end.object));
    assert!(!k.objects().live_objects().contains(&server_end.object));
    let mut mem = flat(0x32);
    let mut regs = regs_at_svc();
    regs.regs[0] = hc.raw();
    assert_eq!(handle_svc(&mut regs, 0x1000, &mut mem, &mut k).err(), Some(SvcFault::Disconnected));
}

#[test]
fn moved_handle_within_one_process_is_closed_and_made_again() {
    let mut k = Kernel::new();
    let p = k.new_process("p".to_string());
    let (t1, _) = k.new_thread(p);
    let (t2, _) = k.new_thread(p);
    let (first, _) = k.begin_run().unwrap();
    assert_eq!(first, t1);
    let ev = create_event(&mut k, ResetType::OneShot).unwrap();
    let obj = k.lookup(&Some(ev)).unwrap();
    let before = k.current_handle_count();
    let mut w = IPCWriter::new_request(0x12, vec![0u8; 256]);
    let hs = vec![Some(ev), Some(ev)];
    w.write_translate(&IPCTranslateParameter::Handle { moved: true, calling_process: false, handles: IPCHandles::Multiple(hs) });
    k.set_thread_ipc_data(&w.into_data());
    k.translate_ipc(t1, t2, false);

    assert_eq!(k.current_handle_count(), before);
    let mut out = Vec::new();
    k.thread_ipc_data(t2, &mut out);
    let mut r = IPCReader::new_request(&out);
    let moved = match r.read_translate() {
        IPCTranslateParameter::Handle { moved: true, calling_process: false, handles: IPCHandles::Multiple(v) } => v,
        other => panic!("unexpected {:?}", other),
    };
    assert_eq!(moved.len(), 2);
    let h = moved[0].unwrap();
    assert_eq!(k.lookup(&Some(h)), Some(obj));
    assert_eq!(moved[1], None);
    if h != ev {
        assert!(k.lookup(&Some(ev)).is_none());
    }
}

#[test]
fn copied_handle_stays_with_the_sender() {
    let mut k = Kernel::new();
    let p1 = k.new_process("sender".to_string());
    let p2 = k.new_process("receiver".to_string());
    let (t1, _) = k.new_thread(p1);
    let (t2, _) = k.new_thread(p2);
    let (first, _) = k.begin_run().unwrap();
    assert_eq!(first, t1);
    let ev = create_event(&mut k, ResetType::OneShot).unwrap();
    let obj = k.lookup(&Some(ev)).unwrap();
    let before = k.current_handle_count();
    let mut w = IPCWriter::new_request(0x13, vec![0u8; 256]);
    let hs = vec![Some(ev), Handle::from_raw(0x999)];
    w.write_translate(&IPCTranslateParameter::Handle { moved: false, calling_process: false, handles: IPCHandles::Multiple(hs) });
    k.set_thread_ipc_data(&w.into_data());
    k.translate_ipc(t1, t2, false);

    assert_eq!(k.current_handle_count(), before);
    assert_eq!(k.lookup(&Some(ev)), Some(obj));
    assert_eq!(k.thread_process_handle_count(t2), 1);
    let mut out = Vec::new();
    k.thread_ipc_data(t2, &mut out);
    let mut r = IPCReader::new_request(&out);
    let copied = match r.read_translate() {
        IPCTranslateParameter::Handle { moved: false, calling_process: false, handles: IPCHandles::Multiple(v) } => v,
        other => panic!("unexpected {:?}", other),
    };
    assert!(copied[0].is_some());
    assert_eq!(copied[1], None);
    k.exit_thread();
    k.end_run();
    let (second, _) = k.begin_run().unwrap();
    assert_eq!(second, t2);
    assert_eq!(k.lookup(&copied[0]), Some(obj));
}

#[test]
fn sessions_on_a_port_are_accepted_oldest_first() {
    let mut k = Kernel::new();
    let pid = k.new_process("p".to_string());
    let _ = k.new_thread(pid);
    let (objs, threads) = k.parts_mut();
    let (server_port, _client_port) = make_port_pair(objs, threads);
    let (s1, _c1) = make_session_pair(objs, threads);
    let (s2, _c2) = make_session_pair(objs, threads);
    let (o1, o2) = (s1.object(), s2.object());
    objs.enqueue_session(threads, server_port.object(), s1);
    objs.enqueue_session(threads, server_port.object(), s2);
    assert_eq!(objs.accept_session(threads, server_port.object()).map(|s| s.object()), Some(o1));
    assert_eq!(objs.accept_session(threads, server_port.object()).map(|s| s.object()), Some(o2));
    assert!(objs.accept_session(threads, server_port.object()).is_none());
    assert!(objs.accept_session(threads, server_port.object()).is_none());
}

#[test]
fn translate_words_remain_until_all_are_read() {
    let mut w = IPCWriter::new_request(0x20, vec![0u8; 256]);
    w.write_normal(9);
    w.write_translate(&IPCTranslateParameter::Handle { moved: false, calling_process: false, handles: IPCHandles::Single(Handle::from_raw(7)) });
    let hs = vec![Handle::from_raw(8), None, Handle::from_raw(10)];
    w.write_translate(&IPCTranslateParameter::Handle { moved: true, calling_process: false, handles: IPCHandles::Multiple(hs) });
    let data = w.into_data();
    let mut r = IPCReader::new_request(&data);
    assert_eq!(r.header().translate_parameter_size, 6);
    assert!(r.has_more_translate_params());
    assert_eq!(r.read_normal(), 9);
    assert!(r.has_more_translate_params());
    let _ = r.read_translate();
    assert!(r.has_more_translate_params());
    let _ = r.read_translate();
    assert!(!r.has_more_translate_params());
}
