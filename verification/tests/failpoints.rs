use kult_node::failpoints::Failpoints;
use kult_node::TransitionFailpoint;

#[test]
fn an_armed_point_interrupts_once() {
    let mut points = Failpoints::new();
    points.arm_transition_failpoint(TransitionFailpoint::BeforeEventDelivery);
    assert!(!points.reach(TransitionFailpoint::AfterEventDelivery));
    assert!(!points.transition_failpoint_fired());
    assert!(points.reach(TransitionFailpoint::BeforeEventDelivery));
    assert!(points.transition_failpoint_fired());
    assert!(!points.reach(TransitionFailpoint::BeforeEventDelivery));
}

#[test]
fn cryptographic_operations_are_numbered_from_arming() {
    let mut points = Failpoints::new();
    assert_eq!(points.begin_crypto_step(), Some(0));
    assert_eq!(points.begin_crypto_step(), Some(1));
    points.arm_transition_failpoint(TransitionFailpoint::BeforeCryptoStep(1));
    assert_eq!(points.begin_crypto_step(), Some(0));
    assert!(!points.finish_crypto_step(0));
    assert_eq!(points.begin_crypto_step(), None);
    assert_eq!(points.begin_crypto_step(), Some(1));
    points.arm_transition_failpoint(TransitionFailpoint::AfterCryptoStep(0));
    assert_eq!(points.begin_crypto_step(), Some(0));
    assert!(points.finish_crypto_step(0));
    assert!(!points.finish_crypto_step(0));
}
