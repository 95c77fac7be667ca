use lib::ndpi::{
    max_packets_before_giveup, parse_protocol, DetectionModule, DissectionReport, Flow,
    FlowAction, ModuleInit, Protocol,
};

fn proto(master: u16, app: u16) -> Protocol {
    Protocol { master_protocol: master, app_protocol: app }
}

fn report(detected: bool, unknown: bool, classified: bool, checked: u32, max: u32) -> DissectionReport {
    DissectionReport {
        protocol: proto(7, 91),
        detected,
        unknown,
        classified,
        extra_packets_checked: checked,
        max_extra_packets_to_check: max,
        risk: 0b100,
    }
}

fn fresh() -> Flow {
    Flow::new(0x1000).expect("non-null flow")
}

#[test]
fn module_setup_outcomes() {
    assert!(matches!(DetectionModule::new(0, 0), ModuleInit::NotCreated));
    assert!(matches!(DetectionModule::new(0x20, -1), ModuleInit::FinalizeFailed));
    match DetectionModule::new(0x20, 0) {
        ModuleInit::Ready(m) => assert_eq!(m.as_ptr(), 0x20),
        _ => panic!("expected a ready module"),
    }
}

#[test]
fn only_existing_modules_are_finalised() {
    assert!(!DetectionModule::needs_finalize(0));
    assert!(DetectionModule::needs_finalize(0x20));
}

#[test]
fn only_allocated_flows_are_zero_filled() {
    assert!(!Flow::needs_zero_fill(0));
    assert!(Flow::needs_zero_fill(0x1000));
}

#[test]
fn protocol_keyword_compares_with_the_detected_protocol() {
    let mut f = fresh();
    assert_eq!(f.protocol_query(proto(7, 0)), (proto(0, 0), proto(7, 0), false));
    f.process_packet(report(true, false, false, 0, 5), 6, 1);
    assert_eq!(f.protocol_query(proto(7, 0)), (proto(7, 91), proto(7, 0), false));
}

#[test]
fn flow_needs_an_allocation() {
    assert!(Flow::new(0).is_none());
    let f = fresh();
    assert_eq!(f.as_ptr(), 0x1000);
    assert!(!f.detection_completed());
    assert_eq!(f.detected_protocol(), proto(0, 0));
    assert!(f.risk_matches(0, false));
    assert!(!f.risk_matches(1, false));
}

#[test]
fn only_present_nonempty_packets_are_dissected() {
    let f = fresh();
    assert!(f.wants_packet(true, 60));
    assert!(!f.wants_packet(false, 60));
    assert!(!f.wants_packet(true, 0));
}

#[test]
fn classified_protocol_ends_detection() {
    let mut f = fresh();
    assert_eq!(f.process_packet(report(true, false, true, 0, 5), 6, 1), FlowAction::Continue);
    assert!(f.detection_completed());
    assert_eq!(f.detected_protocol(), proto(7, 91));
    assert!(!f.wants_packet(true, 60));
}

#[test]
fn extra_dissection_done_ends_detection() {
    let mut f = fresh();
    f.process_packet(report(true, false, false, 5, 5), 6, 3);
    assert!(f.detection_completed());
}

#[test]
fn extra_dissection_pending_keeps_detection_open() {
    let mut f = fresh();
    assert_eq!(f.process_packet(report(true, false, false, 2, 5), 6, 3), FlowAction::Continue);
    assert!(!f.detection_completed());
    assert!(f.wants_packet(true, 60));
}

#[test]
fn unknown_protocol_keeps_detection_open() {
    let mut f = fresh();
    f.process_packet(report(true, true, true, 9, 0), 6, 30);
    assert!(!f.detection_completed());
}

#[test]
fn udp_flow_is_given_up_after_eight_packets() {
    let mut f = fresh();
    assert_eq!(f.process_packet(report(false, true, false, 0, 0), 17, 8), FlowAction::Continue);
    assert_eq!(f.process_packet(report(false, true, false, 0, 0), 17, 9), FlowAction::GiveUp);
    assert!(!f.detection_completed());
    f.give_up(proto(5, 0), 0b11);
    assert!(f.detection_completed());
    assert_eq!(f.detected_protocol(), proto(5, 0));
    assert!(f.risk_matches(0b01, false));
    assert!(!f.wants_packet(true, 60));
}

#[test]
fn tcp_flow_is_given_up_after_twenty_four_packets() {
    let mut f = fresh();
    assert_eq!(f.process_packet(report(false, true, false, 0, 0), 6, 24), FlowAction::Continue);
    assert_eq!(f.process_packet(report(false, true, false, 0, 0), 6, 25), FlowAction::GiveUp);
}

#[test]
fn packet_limits() {
    assert_eq!(max_packets_before_giveup(17), 8);
    assert_eq!(max_packets_before_giveup(6), 24);
    assert_eq!(max_packets_before_giveup(1), 24);
}

#[test]
fn detected_flow_is_never_given_up() {
    let mut f = fresh();
    assert_eq!(f.process_packet(report(true, true, false, 0, 9), 17, 200), FlowAction::Continue);
}

#[test]
fn risk_keyword_needs_every_risk_of_the_mask() {
    let mut f = fresh();
    f.process_packet(report(true, false, false, 0, 5), 6, 1);
    assert_eq!(f.detection_completed(), false);
    assert!(f.risk_matches(0b100, false));
    assert!(!f.risk_matches(0b100, true));
    assert!(!f.risk_matches(0b110, false));
    assert!(f.risk_matches(0b110, true));
    assert!(f.risk_matches(0, false));
}

#[test]
fn protocol_keyword_negation() {
    let f = fresh();
    assert!(f.protocol_matches(true, false));
    assert!(!f.protocol_matches(true, true));
    assert!(!f.protocol_matches(false, false));
    assert!(f.protocol_matches(false, true));
}

#[test]
fn unknown_protocol_name_is_refused() {
    assert_eq!(parse_protocol(proto(0, 0), true), None);
    assert_eq!(parse_protocol(proto(7, 0), false), Some(proto(7, 0)));
}
