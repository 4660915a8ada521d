use pomelo::formats::{ExHeader, Header};
use pomelo::ipc::{IPCContext, IPCHeaderCode};
use pomelo::kernel::Kernel;
use pomelo::le::{read_word, write_word};
use pomelo::object::ObjectType;
use pomelo::services::{
    add_session, reply_normals, server_step, AptU, CfgU, FsUser, NdmU, ServerStep, ServiceFault, SrvContext, SrvInterface, SrvStep, DSP,
};
use pomelo::types::Handle;

fn request(cmd: u16, normals: &[u32], translate: u8) -> Vec<u8> {
    let mut v = vec![0u8; 256];
    let h = IPCHeaderCode { command_id: cmd, normal_parameter_count: normals.len() as u8, translate_parameter_size: translate };
    write_word(&mut v, 0, h.to_word());
    for (i, w) in normals.iter().enumerate() {
        write_word(&mut v, 4 * (i + 1), *w);
    }
    v
}

fn header_of(v: &[u8]) -> IPCHeaderCode {
    IPCHeaderCode::from_word(read_word(v, 0))
}

fn running_kernel() -> Kernel {
    let mut k = Kernel::new();
    let pid = k.new_process("services".to_string());
    let _ = k.new_thread(pid);
    assert!(k.begin_run().is_some());
    k
}

#[test]
fn reply_carries_command_result_and_normals() {
    let out = reply_normals(IPCContext::new(request(0x42, &[1, 2], 0)), 0x1234, &[7, 8, 9]);
    let h = header_of(&out);
    assert_eq!(h.command_id, 0x42);
    assert_eq!(h.normal_parameter_count, 3);
    assert_eq!(h.translate_parameter_size, 0);
    assert_eq!(read_word(&out, 4), 0x1234);
    assert_eq!(read_word(&out, 8), 7);
    assert_eq!(read_word(&out, 16), 9);
}

#[test]
fn stub_services_succeed() {
    let out = NdmU.handle_ipc(IPCContext::new(request(0x15, &[3], 0)));
    assert_eq!(header_of(&out).command_id, 0x15);
    assert_eq!(read_word(&out, 4), 0);
    let out = DSP.handle_ipc(IPCContext::new(request(0x9, &[], 0)));
    assert_eq!(header_of(&out).command_id, 0x9);
    assert_eq!(header_of(&out).normal_parameter_count, 0);
}

#[test]
fn cfg_answers_only_config_blocks() {
    let out = CfgU.handle_ipc(IPCContext::new(request(1, &[4, 5], 0))).unwrap();
    assert_eq!(header_of(&out).command_id, 1);
    let h = IPCHeaderCode { command_id: 2, normal_parameter_count: 0, translate_parameter_size: 0 };
    assert_eq!(CfgU.handle_ipc(IPCContext::new(request(2, &[], 0))).err(), Some(ServiceFault::Unimplemented(h)));
}

#[test]
fn fs_user_commands() {
    assert!(FsUser.handle_ipc(IPCContext::new(request(2145, &[1], 2))).is_ok());
    assert!(FsUser.handle_ipc(IPCContext::new(request(2146, &[1], 0))).is_ok());
    assert!(FsUser.handle_ipc(IPCContext::new(request(2051, &[0; 8], 0))).is_ok());
    assert!(FsUser.handle_ipc(IPCContext::new(request(2145, &[1], 0))).is_err());
}

#[test]
fn apt_glance_parameter_reports_wakeup() {
    let mut k = running_kernel();
    let out = AptU.handle_ipc(IPCContext::new(request(13, &[0x300, 0x10], 0)), &mut k).unwrap();
    assert_eq!(header_of(&out).normal_parameter_count, 3);
    assert_eq!(read_word(&out, 8), 0);
    assert_eq!(read_word(&out, 12), 1);
    assert_eq!(read_word(&out, 16), 0);
    let out = AptU.handle_ipc(IPCContext::new(request(75, &[1, 2, 3], 0)), &mut k).unwrap();
    assert_eq!(header_of(&out).normal_parameter_count, 1);
    assert!(AptU.handle_ipc(IPCContext::new(request(99, &[], 0)), &mut k).is_err());
}

#[test]
fn apt_lock_handle_is_a_new_mutex() {
    let mut k = running_kernel();
    let out = AptU.handle_ipc(IPCContext::new(request(1, &[0x55], 0)), &mut k).unwrap();
    assert_eq!(read_word(&out, 8), 0x55);
    assert_eq!(read_word(&out, 12), 0);
    assert_eq!(read_word(&out, 16), 0x10);
    let lock = Handle::from_raw(read_word(&out, 20));
    let o = k.lookup(&lock).unwrap();
    assert_eq!(k.kind_of(o), ObjectType::MutexImpl);
}

#[test]
fn apt_initialize_hands_out_two_events() {
    let mut k = running_kernel();
    let out = AptU.handle_ipc(IPCContext::new(request(2, &[0x300, 0], 0)), &mut k).unwrap();
    let h = header_of(&out);
    assert_eq!(h.translate_parameter_size, 3);
    assert_eq!(read_word(&out, 8), 0x10 | (1 << 26));
    let a = k.lookup(&Handle::from_raw(read_word(&out, 12))).unwrap();
    let b = k.lookup(&Handle::from_raw(read_word(&out, 16))).unwrap();
    assert_eq!(k.kind_of(a), ObjectType::EventImpl);
    assert_eq!(k.kind_of(b), ObjectType::EventImpl);
    assert_ne!(a, b);
}

#[test]
fn srv_registers_and_finds_services() {
    let mut k = running_kernel();
    let mut srv = SrvContext::new();
    let iface = SrvInterface::new(Handle::from_raw(1).unwrap());
    let req = iface.register_service_request(b"fs:USER", 255);
    assert_eq!(header_of(&req).command_id, 3);
    assert_eq!(header_of(&req).normal_parameter_count, 4);
    assert_eq!(read_word(&req, 4), u32::from_le_bytes(*b"fs:U"));
    assert_eq!(read_word(&req, 8), u32::from_le_bytes([b'S', b'E', b'R', 0]));
    assert_eq!(read_word(&req, 12), 7);
    assert_eq!(read_word(&req, 16), 255);
    let reply = match srv.handle_ipc(IPCContext::new(req), &mut k).unwrap() {
        SrvStep::Reply(out) => out,
        SrvStep::Connect { .. } => panic!("registering does not connect"),
    };
    let server = SrvInterface::handle_from_reply(&reply).unwrap().unwrap();
    assert_eq!(k.kind_of(k.lookup(&Some(server)).unwrap()), ObjectType::ServerPortHLE);
    assert_eq!(srv.services.len(), 1);
    assert_eq!(srv.services[0].name_len, 7);
    assert_eq!(srv.services[0].max_sessions, 255);
    let client = srv.services[0].client_port;
    assert_eq!(k.kind_of(k.lookup(&Some(client)).unwrap()), ObjectType::ClientPortHLE);

    let req = iface.get_service_handle_request(b"fs:USER", true);
    assert_eq!(read_word(&req, 16), 1);
    match srv.handle_ipc(IPCContext::new(req), &mut k).unwrap() {
        SrvStep::Connect { port, ipc } => {
            assert_eq!(port, client);
            let session = Handle::from_raw(0x77).unwrap();
            let out = SrvContext::finish_connect(ipc, session);
            assert_eq!(SrvInterface::handle_from_reply(&out), Ok(Ok(session)));
        },
        SrvStep::Reply(_) => panic!("a known service is connected to"),
    }
    let req = iface.get_service_handle_request(b"cfg:u", false);
    assert!(matches!(srv.handle_ipc(IPCContext::new(req), &mut k), Err(ServiceFault::ServiceNotFound)));
}

#[test]
fn srv_notifications() {
    let mut k = running_kernel();
    let mut srv = SrvContext::new();
    let out = match srv.handle_ipc(IPCContext::new(request(11, &[], 0)), &mut k).unwrap() {
        SrvStep::Reply(out) => out,
        _ => panic!(),
    };
    assert_eq!(read_word(&out, 8), 0x206);
    assert!(srv.handle_ipc(IPCContext::new(request(12, &[0x100, 0], 0)), &mut k).is_ok());
    assert!(srv.handle_ipc(IPCContext::new(request(9, &[0x100], 0)), &mut k).is_ok());
    assert_eq!(srv.seen_notifications, vec![0x100]);
    assert!(matches!(
        srv.handle_ipc(IPCContext::new(request(12, &[0x100, 0], 0)), &mut k),
        Err(ServiceFault::NotificationSeen(0x100))
    ));
    let out = match srv.handle_ipc(IPCContext::new(request(13, &[0x200], 0)), &mut k).unwrap() {
        SrvStep::Reply(out) => out,
        _ => panic!(),
    };
    assert_eq!(read_word(&out, 8), 1);
    assert_eq!(read_word(&out, 12), 1);
    assert!(matches!(srv.handle_ipc(IPCContext::new(request(1, &[], 2)), &mut k), Ok(SrvStep::Reply(_))));
    assert!(matches!(srv.handle_ipc(IPCContext::new(request(4, &[], 0)), &mut k), Err(ServiceFault::Unimplemented(_))));
}

#[test]
fn srv_reply_errors_and_malformed_replies() {
    let mut r = request(3, &[], 0);
    write_word(&mut r, 4, 0xD8E0_07F7);
    assert_eq!(SrvInterface::handle_from_reply(&r), Ok(Err(0xD8E0_07F7)));
    let r = request(3, &[], 0);
    assert_eq!(SrvInterface::handle_from_reply(&r), Err(ServiceFault::MalformedReply));
}

#[test]
fn service_loop_decisions() {
    let port = Handle::from_raw(0x10).unwrap();
    let s1 = Handle::from_raw(0x20).unwrap();
    let s2 = Handle::from_raw(0x30).unwrap();
    let mut hs = vec![Some(port)];
    add_session(&mut hs, s1);
    add_session(&mut hs, s2);
    assert_eq!(hs, vec![Some(port), Some(s1), Some(s2)]);
    assert_eq!(server_step(&hs, Some(0), Ok(())), Ok(ServerStep::Accept));
    assert_eq!(server_step(&hs, Some(2), Ok(())), Ok(ServerStep::Handle { index: 2, reply_target: Some(s2) }));
    assert_eq!(server_step(&hs, Some(1), Ok(())), Ok(ServerStep::Handle { index: 1, reply_target: Some(s1) }));
    assert_eq!(server_step(&hs, Some(2), Err(5)), Err(ServiceFault::Disconnected(2, 5)));
    assert_eq!(server_step(&hs, None, Err(6)), Err(ServiceFault::ReceiveFailed(6)));
    assert_eq!(server_step(&hs, None, Ok(())), Err(ServiceFault::NoIndex));
}

#[test]
fn exheader_fields_come_from_their_offsets() {
    let mut b = vec![0u8; 0x800];
    b[0..8].copy_from_slice(b"AOBT\0\0\0\0");
    b[0xD] = 3;
    b[0xE] = 0x34;
    b[0xF] = 0x12;
    b[0x10..0x14].copy_from_slice(&0x0010_0000u32.to_le_bytes());
    b[0x14..0x18].copy_from_slice(&5u32.to_le_bytes());
    b[0x1C..0x20].copy_from_slice(&0x4000u32.to_le_bytes());
    b[0x3C..0x40].copy_from_slice(&0x2000u32.to_le_bytes());
    b[0x40] = 0xAB;
    b[0x1C0..0x1C8].copy_from_slice(&0x1122_3344_5566_7788u64.to_le_bytes());
    b[0x200..0x208].copy_from_slice(&0x0004_0000_0012_3400u64.to_le_bytes());
    b[0x20F] = 0x30;
    b[0x200 + 0x170..0x200 + 0x174].copy_from_slice(&0xE1u32.to_le_bytes());
    b[0x200 + 0x1FF] = 2;
    b[0x400] = 0x99;
    let mut e = ExHeader::zero();
    assert_eq!(e.sci.stack_size, 0);
    e.copy_from_bytes(&b);
    assert_eq!(&e.sci.title, b"AOBT\0\0\0\0");
    assert_eq!(e.sci.flag, 3);
    assert_eq!(e.sci.remaster_version, 0x1234);
    assert_eq!(e.sci.text_csi.address, 0x0010_0000);
    assert_eq!(e.sci.text_csi.size_in_pages, 5);
    assert_eq!(e.sci.stack_size, 0x4000);
    assert_eq!(e.sci.bss_size, 0x2000);
    assert_eq!(e.sci.dependency_list[0][0], 0xAB);
    assert_eq!(e.sci.system_info.savedata_size, 0x1122_3344_5566_7788);
    assert_eq!(e.aci.arm11_local_caps.program_id, 0x0004_0000_0012_3400);
    assert_eq!(e.aci.arm11_local_caps.priority, 0x30);
    assert_eq!(e.aci.arm11_kernel_caps.descriptors[0], 0xE1);
    assert_eq!(e.aci.arm9_access_control.descriptor_version, 2);
    assert_eq!(e.access_desc_sig[0], 0x99);
    assert_eq!(e.acli.arm11_local_caps.program_id, 0);
}

#[test]
fn ncch_header_fields() {
    let mut b = vec![0u8; 0x200];
    b[0x100..0x104].copy_from_slice(b"NCCH");
    b[0x104..0x108].copy_from_slice(&0x1234u32.to_le_bytes());
    b[0x110] = 0x30;
    b[0x111] = 0x31;
    b[0x180..0x184].copy_from_slice(&0x400u32.to_le_bytes());
    b[0x1A0..0x1A4].copy_from_slice(&0x5u32.to_le_bytes());
    let h = Header::parse(&b, 0);
    assert_eq!(&h.magic, b"NCCH");
    assert_eq!(h.content_size, 0x1234);
    assert_eq!(h.maker_code, 0x3130);
    assert_eq!(h.exheader_size, 0x400);
    assert_eq!(h.exefs_offset, 5);
}
