use kult_node::admission::{
    admission_transport, admission_transport_index, bounded_request_preview, check_admission,
    read_flight, AdmissionBudget, AdmissionClaim, AdmissionDescriptor, AdmissionProofKind,
    AdmissionTransportClass, FirstContent, Flight, IngressClass, PrekeyFacts, SenderFacts,
    SenderGate,
};
use kult_node::handshakes::{
    consume_handshake, HandshakeAction, HandshakeEvent, HandshakeStage,
};
use kult_node::upkeep::RequestRow;
use kult_node::Event;

fn facts() -> PrekeyFacts {
    PrekeyFacts {
        identity: vec![1, 2],
        spk_id: 1,
        spk: [3; 32],
        pqspk_id: 1,
        pqspk: vec![4, 5, 6],
    }
}

fn claim(kind: AdmissionProofKind) -> AdmissionClaim {
    AdmissionClaim {
        target_account: [1; 32],
        target_device: [2; 32],
        bundle_digest: [3; 32],
        validity_epoch: 4,
        flight_len: 500,
        proof_kind: kind,
        proof: [5; 32],
    }
}

const TERMS: AdmissionDescriptor = AdmissionDescriptor {
    bundle_digest: [3; 32],
    validity_epoch: 4,
    max_first_ciphertext: 500,
};

fn holds(claim: &AdmissionClaim, solved: bool, expected: Option<[u8; 32]>) -> bool {
    check_admission(claim, &TERMS, &facts(), [1; 32], &facts(), [2; 32], solved, expected)
}

#[test]
fn carriers_have_classes() {
    assert_eq!(admission_transport(IngressClass::Mesh), AdmissionTransportClass::Mesh);
    assert_eq!(admission_transport(IngressClass::Bridge), AdmissionTransportClass::Bridge);
    assert_eq!(admission_transport_index(AdmissionTransportClass::Unknown), 0);
    assert_eq!(admission_transport_index(AdmissionTransportClass::Bridge), 5);
}

#[test]
fn each_class_of_carrier_has_its_own_budget() {
    let mut budget = AdmissionBudget::fresh();
    assert_eq!(budget.carriers, [4, 4, 2, 2, 2, 2]);
    for _ in 0..2 {
        assert!(budget.reserve_admission_candidate(AdmissionTransportClass::Mesh, false));
    }
    assert!(!budget.reserve_admission_candidate(AdmissionTransportClass::Mesh, false));
    assert!(budget.reserve_admission_candidate(AdmissionTransportClass::Direct, false));
    assert!(!budget.reserve_admission_candidate(AdmissionTransportClass::Direct, true));
    assert_eq!(budget.carriers, [4, 3, 2, 0, 2, 2]);
    let mut closed = AdmissionBudget::closed();
    assert!(!closed.begin_admission(AdmissionTransportClass::Direct, false));
}

#[test]
fn puzzles_are_paid_for_one_by_one() {
    let mut budget = AdmissionBudget::fresh();
    budget.puzzles = 1;
    assert!(budget.begin_admission(AdmissionTransportClass::Direct, false));
    assert!(!budget.begin_admission(AdmissionTransportClass::Direct, false));
    assert_eq!((budget.puzzles, budget.carriers[1]), (0, 2));
}

#[test]
fn a_proof_is_a_solved_puzzle_or_the_invitation() {
    assert!(holds(&claim(AdmissionProofKind::Puzzle), true, None));
    assert!(!holds(&claim(AdmissionProofKind::Puzzle), false, Some([5; 32])));
    assert!(holds(&claim(AdmissionProofKind::Invitation), false, Some([5; 32])));
    assert!(!holds(&claim(AdmissionProofKind::Invitation), true, Some([6; 32])));
    assert!(!holds(&claim(AdmissionProofKind::Invitation), true, None));
}

#[test]
fn a_claim_fits_this_device_and_its_bundle() {
    let good = claim(AdmissionProofKind::Puzzle);
    for broken in [
        AdmissionClaim { target_account: [9; 32], ..good },
        AdmissionClaim { target_device: [9; 32], ..good },
        AdmissionClaim { bundle_digest: [9; 32], ..good },
        AdmissionClaim { validity_epoch: 5, ..good },
        AdmissionClaim { flight_len: 501, ..good },
    ] {
        assert!(!holds(&broken, true, None));
    }
    let mut old = facts();
    old.spk_id = 2;
    assert!(!check_admission(&good, &TERMS, &old, [1; 32], &facts(), [2; 32], true, None));
}

#[test]
fn flights_are_told_apart() {
    assert!(matches!(read_flight(vec![1, 2, 3]), Flight::Bare(bytes) if bytes == vec![1, 2, 3]));
    let account = b"KAI1\x01\x07\x01\x08".to_vec();
    assert!(matches!(read_flight(account), Flight::Account(f) if f.initial == vec![7]));
    let device = b"KDI2\x01\x07\x01\x08\x00".to_vec();
    assert!(matches!(read_flight(device), Flight::Device(f) if f.return_bundle == vec![8]));
}

#[test]
fn strangers_need_a_proof_room_and_budget() {
    let stranger = SenderFacts {
        has_admission: true,
        known: false,
        blocked: false,
        has_request: false,
        request_count: 0,
    };
    let mut budget = AdmissionBudget::fresh();
    budget.kems = 1;
    let gate = |budget: &mut AdmissionBudget, facts| budget.gate_sender(facts, 2);
    assert_eq!(gate(&mut budget, SenderFacts { has_admission: false, ..stranger }), SenderGate::Drop);
    assert_eq!(gate(&mut budget, SenderFacts { blocked: true, ..stranger }), SenderGate::Drop);
    assert_eq!(gate(&mut budget, SenderFacts { request_count: 2, ..stranger }), SenderGate::Drop);
    let repeated = SenderFacts { has_request: true, request_count: 2, ..stranger };
    assert_eq!(gate(&mut budget, repeated), SenderGate::Proceed);
    assert_eq!(gate(&mut budget, stranger), SenderGate::Later);
    assert_eq!(gate(&mut budget, SenderFacts { known: true, ..stranger }), SenderGate::Proceed);
    assert_eq!(budget.kems, 0);
}

#[test]
fn previews_end_between_characters() {
    assert_eq!(bounded_request_preview("hello", 3), "hel");
    assert_eq!(bounded_request_preview("héllo", 2), "h");
    assert_eq!(bounded_request_preview("héllo", 3), "hé");
    assert_eq!(bounded_request_preview("hi", 100), "hi");
    assert_eq!(bounded_request_preview("hi", 0), "");
}

#[test]
fn requests_are_staged_once_and_newer_ones_replace_older() {
    let mut budget = AdmissionBudget::fresh();
    budget.notifications = 1;
    let text = || FirstContent::Text("hello there".to_string());
    let first = budget
        .stage_request([1; 32], false, 11, 100, text(), 5, [2; 16], None, 60, 1_000)
        .unwrap();
    assert_eq!(first.preview, "hello");
    assert_eq!(first.event, Some(Event::MessageRequestReceived { request: [2; 16] }));
    assert_eq!((first.row.arrived_at, first.row.expires_at), (1_000, 1_060));
    let prior = RequestRow {
        request_id: [2; 16],
        account: [1; 32],
        arrived_at: 1_000,
        expires_at: 1_060,
    };
    assert!(budget
        .stage_request([1; 32], false, 11, 100, text(), 5, [2; 16], Some(prior), 60, 1_000)
        .is_none());
    let newer = budget
        .stage_request([1; 32], false, 0, 100, FirstContent::Empty, 5, [1; 16], Some(prior), 60, 1_001)
        .unwrap();
    assert_eq!((newer.preview.as_str(), newer.event), ("", None));
    for refused in [
        budget.stage_request([1; 32], true, 1, 100, text(), 5, [3; 16], None, 60, 1),
        budget.stage_request([1; 32], false, 101, 100, text(), 5, [3; 16], None, 60, 1),
        budget.stage_request([1; 32], false, 1, 100, FirstContent::Other, 5, [3; 16], None, 60, 1),
    ] {
        assert!(refused.is_none());
    }
}

fn opened() -> HandshakeEvent {
    HandshakeEvent::Opening {
        opened: true,
        bundle_valid: true,
        readable: true,
        by_initiator: true,
    }
}

#[test]
fn a_stranger_is_answered_after_proof_and_payment() {
    let mut budget = AdmissionBudget::fresh();
    let sender = SenderFacts {
        has_admission: true,
        known: false,
        blocked: false,
        has_request: false,
        request_count: 0,
    };
    let events = [
        HandshakeEvent::Arrival {
            carries_proof: true,
            transport: AdmissionTransportClass::Direct,
            time_over: false,
        },
        HandshakeEvent::Proof { holds: true },
        opened(),
        HandshakeEvent::Sender(sender),
        HandshakeEvent::Prekeys { found: true },
        HandshakeEvent::Response { succeeded: true },
    ];
    let mut stage = HandshakeStage::Arrived;
    let mut actions = Vec::new();
    for event in events {
        let (next, action) = consume_handshake(stage, event, &mut budget, 16);
        stage = next;
        actions.push(action);
    }
    assert_eq!(
        actions,
        vec![
            HandshakeAction::CheckProof,
            HandshakeAction::Open,
            HandshakeAction::LookUpSender,
            HandshakeAction::SelectPrekeys,
            HandshakeAction::Respond,
            HandshakeAction::Stage,
        ]
    );
    assert_eq!(stage, HandshakeStage::Decided);
    assert_eq!((budget.puzzles, budget.kems, budget.carriers[1]), (7, 3, 3));
}

#[test]
fn failures_retire_a_handshake_at_any_stage() {
    let mut budget = AdmissionBudget::fresh();
    let mut step = |stage, event| consume_handshake(stage, event, &mut budget, 16).1;
    let proving = HandshakeStage::Proving;
    assert_eq!(step(proving, HandshakeEvent::Proof { holds: false }), HandshakeAction::Retire);
    let selecting = HandshakeStage::Selecting { known: true };
    assert_eq!(step(selecting, HandshakeEvent::Prekeys { found: false }), HandshakeAction::Retire);
    let responding = HandshakeStage::Responding { known: true };
    assert_eq!(
        step(responding, HandshakeEvent::Response { succeeded: false }),
        HandshakeAction::Retire
    );
    assert_eq!(
        step(responding, HandshakeEvent::Response { succeeded: true }),
        HandshakeAction::Install
    );
    let late = HandshakeEvent::Arrival {
        carries_proof: true,
        transport: AdmissionTransportClass::Direct,
        time_over: true,
    };
    assert_eq!(step(HandshakeStage::Arrived, late), HandshakeAction::Later);
    let bare = HandshakeEvent::Arrival {
        carries_proof: false,
        transport: AdmissionTransportClass::Direct,
        time_over: true,
    };
    assert_eq!(step(HandshakeStage::Arrived, bare), HandshakeAction::Open);
}
