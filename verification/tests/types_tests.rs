use pomelo::ipc::IPCHeaderCode;
use pomelo::types::{ArbitrationAction, ArbitrationFail, ArbitrationType, Handle, ResetType, Signal, Timeout};

#[test]
fn handle_zero_is_none() {
    assert!(Handle::from_raw(0).is_none());
    assert_eq!(Handle::from_raw(5).unwrap().raw(), 5);
}

#[test]
fn header_word_roundtrip() {
    let h = IPCHeaderCode { command_id: 0x12, normal_parameter_count: 3, translate_parameter_size: 2 };
    let w = h.to_word();
    assert_eq!(w, 0x0012_00C2);
    let d = IPCHeaderCode::from_word(w);
    assert_eq!(d.command_id, 0x12);
    assert_eq!(d.normal_parameter_count, 3);
    assert_eq!(d.translate_parameter_size, 2);
}

#[test]
fn sticky_signal_is_not_consumed() {
    let mut s = Signal::new(ResetType::Sticky);
    assert!(!s.consume());
    s.signal();
    assert!(s.consume());
    assert!(s.consume());
}

#[test]
fn one_shot_signal_is_consumed_once() {
    let mut s = Signal::new(ResetType::OneShot);
    s.signal();
    assert!(s.consume());
    assert!(!s.consume());
}

#[test]
fn arbitrate_decrement_waits_when_less() {
    let (a, r) = ArbitrationType::DecrementAndWaitIfLessThan.arbitrate(1, 2);
    assert_eq!(a, Some(ArbitrationAction::Decrement));
    assert_eq!(r, Err(ArbitrationFail::Wait));
    let (a, r) = ArbitrationType::DecrementAndWaitIfLessThan.arbitrate(2, 2);
    assert_eq!(a, None);
    assert_eq!(r, Ok(()));
}

#[test]
fn timeout_deadline() {
    assert_eq!(Timeout::After(5).absolute(10), Some(15));
    assert_eq!(Timeout::Instant.absolute(10), Some(10));
    assert_eq!(Timeout::Forever.absolute(10), None);
    assert_eq!(Timeout::After(u64::MAX).deadline(10), Some(u64::MAX));
}
