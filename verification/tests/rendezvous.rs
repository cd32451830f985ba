use kult_node::maintenance::{
    conclude_device_lookup, device_lookup, want_queued, DeviceLookup, DeviceService, InFlight,
    RendezvousPass,
};
use kult_node::providers::{Configured, ProviderSetOutcome, ServiceState};
use kult_node::records::{EnvelopeKind, QueueClass, QueueItem};
use kult_node::relations::WaitingDevice;
use kult_node::rendezvous::{
    begin_registration, conclude_registration, is_lookup_due, judge_lookup, may_start,
    note_rendezvous_failure, registration_record, rendezvous_jitter, settle_lookup, LookupRun,
    LookupStep, LookupVerdict, ProviderState, Registration, RegistrationRun, RegistrationStep,
    RendezvousOperationKind, RouteRecord, MAX_RENDEZVOUS_OPERATIONS_PER_TICK,
};
use kult_node::sessions::SessionBook;
use kult_node::NodeError;

fn provider() -> ProviderState {
    ProviderState {
        provider: [1; 32],
        publish_enabled: true,
        lookup_enabled: true,
        withdrawal_pending: false,
        publish_generation: 0,
        registration_confirmed_at: 0,
        next_register_at: 0,
        accepted_generation: 0,
        conflict_generation: None,
        clock_floor: 0,
        routes: Vec::new(),
        routes_expires_at: 0,
        next_lookup_at: 0,
        consecutive_failures: 0,
        circuit_open_until: 0,
    }
}

fn record(generation: u64, route: u8) -> RouteRecord {
    RouteRecord {
        epoch: 10,
        generation,
        issued_at: 1_000,
        expires_at: 9_000,
        routes: vec![vec![route]],
    }
}

#[test]
fn failures_back_off_and_open_the_circuit() {
    let mut state = provider();
    let mut waits = Vec::new();
    for _ in 0..5 {
        note_rendezvous_failure(&mut state, RendezvousOperationKind::Lookup, 1_000);
        waits.push(state.next_lookup_at - 1_000);
    }
    assert_eq!(waits, vec![5, 10, 20, 40, 1_800]);
    assert_eq!(state.circuit_open_until, 2_800);
    assert_eq!(state.next_register_at, 0);
    note_rendezvous_failure(&mut state, RendezvousOperationKind::Register, u64::MAX);
    assert_eq!(state.next_register_at, u64::MAX);
}

#[test]
fn jitter_is_at_most_five_minutes() {
    assert_eq!(rendezvous_jitter(300), 300);
    assert_eq!(rendezvous_jitter(301), 0);
    assert_eq!(rendezvous_jitter(605), 3);
}

#[test]
fn registrations_take_new_generations() {
    let mut state = provider();
    let first = begin_registration(&mut state, 7, 1_000).unwrap().unwrap();
    assert!(!first.withdrawal);
    let second = begin_registration(&mut state, 7, 1_000).unwrap().unwrap();
    assert!(second.generation > first.generation);
}

#[test]
fn a_registration_is_confirmed_in_every_epoch() {
    let mut run = RegistrationRun::new(10);
    let mut left = 6;
    let mut epochs = Vec::new();
    loop {
        match run.next_step(&mut left, false) {
            RegistrationStep::Register { epoch } | RegistrationStep::Confirm { epoch } => {
                epochs.push(epoch);
                run.record(true);
            }
            RegistrationStep::Finished { confirmed } => {
                assert!(confirmed);
                break;
            }
        }
    }
    assert_eq!(epochs.len(), 3);
    let mut late = RegistrationRun::new(10);
    assert_eq!(late.next_step(&mut left, true), RegistrationStep::Finished { confirmed: false });
    let mut broken = RegistrationRun::new(10);
    let mut left = 6;
    let _ = broken.next_step(&mut left, false);
    broken.record(false);
    assert_eq!(
        broken.next_step(&mut left, false),
        RegistrationStep::Finished { confirmed: false }
    );
}

#[test]
fn confirmed_registrations_are_refreshed_hourly() {
    let mut state = provider();
    state.consecutive_failures = 3;
    conclude_registration(&mut state, true, 0, 1_000);
    assert_eq!(state.registration_confirmed_at, 1_000);
    assert_eq!(state.consecutive_failures, 0);
    assert_eq!(state.next_register_at, 4_600);
    conclude_registration(&mut state, false, 0, 2_000);
    assert_eq!(state.consecutive_failures, 1);
    assert_eq!(state.next_register_at, 2_005);
}

#[test]
fn lookups_wait_for_their_time_and_an_open_circuit() {
    let mut state = provider();
    state.next_lookup_at = 2_000;
    assert!(!is_lookup_due(&state, false, 1_999));
    assert!(is_lookup_due(&state, false, 2_000));
    assert!(is_lookup_due(&state, true, 0));
    state.circuit_open_until = 5_000;
    assert!(!is_lookup_due(&state, true, 4_999));
    assert_eq!(LookupRun::new(0), None);
    assert_eq!(LookupRun::new(u64::MAX), None);
    let mut run = LookupRun::new(10).unwrap();
    let mut operations = 2;
    assert_eq!(run.next_epoch(), Some(9));
    assert_eq!(run.next_step(true, &mut operations, false), LookupStep::LookUp { epoch: 9 });
    assert_eq!(run.next_step(false, &mut operations, false), LookupStep::Skip);
    assert_eq!(operations, 1);
    assert_eq!(run.next_step(true, &mut operations, false), LookupStep::LookUp { epoch: 11 });
    assert_eq!(run.next_step(true, &mut operations, false), LookupStep::Finished);
    let mut run = LookupRun::new(10).unwrap();
    assert_eq!(run.next_step(true, &mut operations, false), LookupStep::Finished);
    let mut late = LookupRun::new(10).unwrap();
    let mut many = 9;
    assert_eq!(late.next_step(true, &mut many, true), LookupStep::Finished);
    assert_eq!(late.next_step(true, &mut many, false), LookupStep::Finished);
    assert_eq!(many, 9);
    assert!(may_start(3, false));
    assert!(!may_start(2, false));
    assert!(!may_start(3, true));
}

#[test]
fn the_newest_generation_is_taken() {
    let mut state = provider();
    let records = vec![record(2, 1), record(3, 2), record(3, 2)];
    assert!(matches!(judge_lookup(&records, &state), LookupVerdict::Accept { .. }));
    assert!(!settle_lookup(&mut state, &records, 0, 2_000));
    assert_eq!(state.accepted_generation, 3);
    assert_eq!(state.routes, vec![vec![2]]);
    assert_eq!(judge_lookup(&Vec::new(), &state), LookupVerdict::Nothing);
}

#[test]
fn contradicting_records_withdraw_the_routes() {
    let mut state = provider();
    assert!(!settle_lookup(&mut state, &vec![record(3, 1)], 0, 2_000));
    let records = vec![record(4, 2), record(4, 3)];
    assert_eq!(judge_lookup(&records, &state), LookupVerdict::Conflict { generation: 4 });
    assert!(settle_lookup(&mut state, &records, 0, 3_000));
    assert_eq!(state.conflict_generation, Some(4));
    assert!(state.routes.is_empty());
    assert_eq!(judge_lookup(&vec![record(4, 2)], &state), LookupVerdict::Nothing);
    assert!(matches!(judge_lookup(&vec![record(5, 2)], &state), LookupVerdict::Accept { .. }));
}

#[test]
fn provider_sets_only_go_forward() {
    let mut service = ServiceState::new(0);
    assert_eq!(
        service.merge_provider_set(2, &vec![[1; 32], [2; 32]]),
        ProviderSetOutcome::Accepted
    );
    assert_eq!(service.remote_generation(), 2);
    assert_eq!(
        service.merge_provider_set(2, &vec![[2; 32], [1; 32]]),
        ProviderSetOutcome::Accepted
    );
    assert_eq!(service.merge_provider_set(1, &vec![[1; 32]]), ProviderSetOutcome::Stale);
    assert_eq!(service.merge_provider_set(2, &vec![[1; 32]]), ProviderSetOutcome::Conflict);
    assert_eq!(service.remote_conflict(), Some(2));
    assert!(service.providers().iter().all(|p| !p.lookup_enabled));
    assert_eq!(service.merge_provider_set(2, &vec![[1; 32]]), ProviderSetOutcome::Stale);
    assert_eq!(service.merge_provider_set(3, &vec![[1; 32]]), ProviderSetOutcome::Accepted);
    assert_eq!(service.remote_conflict(), None);
}

#[test]
fn configured_providers_are_published_to_and_dropped_ones_withdrawn() {
    let mut service = ServiceState::new(0);
    service.synchronize(&vec![Configured { provider: [1; 32], draw: 0 }], 1_000);
    assert!(service.providers()[0].publish_enabled);
    assert_eq!(service.due_registrations(true, 1_000), vec![[1; 32]]);
    assert!(service.due_lookups(true, 1_000).is_empty());
    assert!(!service.has_fresh_route(1_000));
    let _ = service.merge_provider_set(1, &vec![[1; 32]]);
    assert_eq!(service.due_lookups(true, 1_000), vec![[1; 32]]);
    let found = RouteRecord { expires_at: 2_000, ..record(3, 1) };
    assert!(!service.settle_lookup(&[1; 32], &vec![found], 0, 1_000));
    assert_eq!(service.providers()[0].routes, vec![vec![1]]);
    assert!(!service.settle_lookup(&[9; 32], &vec![record(3, 2), record(3, 1)], 0, 1_000));
    assert!(service.has_fresh_route(1_999));
    assert!(!service.has_fresh_route(2_000));
    service.mark_publication_dirty();
    service.synchronize(&Vec::new(), 1_000);
    assert!(!service.providers()[0].publish_enabled);
}

#[test]
fn registrations_leave_the_first_routes_in_order() {
    let own = vec![vec![3], vec![1], vec![2], vec![1]];
    let live = Registration { withdrawal: false, generation: 7 };
    let record = registration_record(live, &own, 12, 2, 60, 1_000);
    assert_eq!((record.epoch, record.generation), (12, 7));
    assert_eq!((record.issued_at, record.expires_at), (1_000, 1_060));
    assert_eq!(record.routes, vec![vec![1], vec![2]]);
    assert_eq!(registration_record(live, &own, 12, 9, 60, u64::MAX).expires_at, u64::MAX);
    assert_eq!(registration_record(live, &own, 12, 9, 60, 0).routes.len(), 3);
    let gone = Registration { withdrawal: true, generation: 8 };
    assert!(registration_record(gone, &own, 12, 2, 60, 1_000).routes.is_empty());
}

#[test]
fn withdrawn_providers_go_once_the_withdrawal_is_confirmed() {
    let mut leaving = provider();
    leaving.publish_enabled = false;
    leaving.lookup_enabled = false;
    leaving.withdrawal_pending = true;
    let mut state = ServiceState::restored(0, None, vec![leaving]).unwrap();
    state.conclude_registration([1; 32], false, 0, 1_000);
    assert_eq!(state.providers().len(), 1);
    state.conclude_registration([9; 32], true, 0, 1_000);
    assert_eq!(state.providers().len(), 1);
    state.conclude_registration([1; 32], true, 0, 1_000);
    assert!(state.providers().is_empty());
}

#[test]
fn providers_are_on_record_in_order() {
    let with = |n: u8| ProviderState { provider: [n; 32], ..provider() };
    let state = ServiceState::restored(4, Some(3), vec![with(1), with(2), with(7)]).unwrap();
    assert_eq!((state.remote_generation(), state.remote_conflict()), (4, Some(3)));
    assert_eq!(state.providers().len(), 3);
    for providers in [vec![with(2), with(1)], vec![with(1), with(3), with(3)]] {
        assert!(ServiceState::restored(0, None, providers)
            .is_err_and(|e| e == NodeError::CorruptState));
    }
    assert!(ServiceState::restored(0, None, Vec::new()).is_ok());
}

#[test]
fn registrations_are_begun_with_providers_that_are_known() {
    let mut state = ServiceState::restored(0, None, vec![provider()]).unwrap();
    assert_eq!(state.begin_registration(&[9; 32], 7, 1_000), Ok(None));
    let begun = state.begin_registration(&[1; 32], 7, 1_000).unwrap().unwrap();
    assert_eq!(begun, Registration { withdrawal: false, generation: 7 });
    assert_eq!(state.providers()[0].publish_generation, 7);
    state.conclude_registration([1; 32], true, 0, 1_000);
    assert_eq!(state.begin_registration(&[1; 32], 7, 1_000), Ok(None));
    let worn = ProviderState { publish_generation: u64::MAX, ..provider() };
    let mut state = ServiceState::restored(0, None, vec![worn]).unwrap();
    assert_eq!(
        state.begin_registration(&[1; 32], 7, 1_000),
        Err(NodeError::RendezvousUnavailable)
    );
}

fn service(device: u8, providers: &[u8]) -> DeviceService {
    let providers =
        providers.iter().map(|n| ProviderState { provider: [*n; 32], ..provider() }).collect();
    let state = ServiceState::restored(0, None, providers).unwrap();
    DeviceService { device: [device; 32], state }
}

#[test]
fn a_pass_registers_in_order_and_within_its_operations() {
    let services = vec![service(5, &[1, 9]), service(2, &[3, 4, 8]), service(7, &[1])];
    assert!(RendezvousPass::begin(false, &services, true, 1_000).is_none());
    let mut pass = RendezvousPass::begin(true, &services, true, 1_000).unwrap();
    let mut begun = Vec::new();
    let mut operations = 0;
    while let Some((device, provider)) = pass.next_registration(false) {
        begun.push((device[0], provider[0]));
        let mut run = RegistrationRun::new(10);
        loop {
            match pass.registration_step(&mut run, false) {
                RegistrationStep::Finished { confirmed } => {
                    assert!(confirmed);
                    break;
                }
                _ => {
                    operations += 1;
                    run.record(true);
                }
            }
        }
    }
    assert_eq!(begun, vec![(2, 3), (2, 4), (2, 8), (5, 1), (5, 9)]);
    assert_eq!(operations, 15);
    assert!(!pass.may_ask(false));
    assert_eq!(pass.next_registration(false), None);
    let mut late = RendezvousPass::begin(true, &services, true, 1_000).unwrap();
    assert_eq!(late.next_registration(true), None);
    assert_eq!(late.next_registration(false), None);
    let mut unsure = RendezvousPass::begin(true, &services, false, 1_000).unwrap();
    assert_eq!(unsure.next_registration(false), None);
}

#[test]
fn a_pass_looks_up_what_is_wanted_in_order() {
    let mut book = SessionBook::new();
    book.want_routes(&vec![[6; 32]]);
    let waiting = vec![
        WaitingDevice { device: [4; 32], has_route: false },
        WaitingDevice { device: [3; 32], has_route: true },
    ];
    let mut pass = RendezvousPass::begin(true, &Vec::new(), true, 1_000).unwrap();
    pass.begin_lookups(&book, &waiting, &vec![[5; 32], [6; 32]]);
    assert_eq!(pass.next_lookup(false), Some([4; 32]));
    assert_eq!(device_lookup(&book, &[4; 32], false, true), DeviceLookup::Forget);
    assert_eq!(device_lookup(&book, &[4; 32], true, false), DeviceLookup::Forget);
    assert_eq!(
        device_lookup(&book, &[4; 32], true, true),
        DeviceLookup::LookUp { force: false }
    );
    assert_eq!(pass.next_lookup(false), Some([5; 32]));
    assert_eq!(pass.next_lookup(false), Some([6; 32]));
    assert_eq!(
        device_lookup(&book, &[6; 32], true, true),
        DeviceLookup::LookUp { force: true }
    );
    let mut run = LookupRun::new(10).unwrap();
    assert_eq!(pass.lookup_step(&mut run, true, false), LookupStep::LookUp { epoch: 9 });
    assert_eq!(pass.lookup_step(&mut run, false, false), LookupStep::Skip);
    assert!(pass.may_ask(false));
    assert!(!pass.may_ask(true));
    conclude_device_lookup(&mut book, &[6; 32]);
    assert!(!book.rendezvous_refresh_requested.contains(&[6; 32]));
    assert_eq!(pass.next_lookup(false), None);
}

#[test]
fn a_wake_collection_wants_the_routes_of_the_first_envelopes() {
    let item = |n: u8| QueueItem {
        sequence: i64::from(n),
        peer: [n; 32],
        msg_id: None,
        group_msg_id: None,
        class: QueueClass::Normal,
        created_at: 1,
        attempts: 0,
        next_attempt_at: 1,
        content_id: [n; 16],
        kind: EnvelopeKind::Message,
        encoded_len: 100,
        retention_until: None,
    };
    let queue: Vec<QueueItem> = (1..=20).map(item).collect();
    let mut book = SessionBook::new();
    want_queued(&mut book, &queue);
    assert!(book.rendezvous_refresh_requested.contains(&[1; 32]));
    let last = MAX_RENDEZVOUS_OPERATIONS_PER_TICK as u8;
    assert!(book.rendezvous_refresh_requested.contains(&[last; 32]));
    assert!(!book.rendezvous_refresh_requested.contains(&[last + 1; 32]));
}

#[test]
fn the_same_exchange_is_not_begun_twice() {
    let mut under_way = InFlight::new();
    let register = ([1; 32], [2; 32], RendezvousOperationKind::Register);
    let look_up = ([1; 32], [2; 32], RendezvousOperationKind::Lookup);
    assert!(under_way.begin(register));
    assert!(!under_way.begin(register));
    assert!(under_way.begin(look_up));
    under_way.end(&register);
    assert!(under_way.begin(register));
    assert!(!under_way.begin(look_up));
}
