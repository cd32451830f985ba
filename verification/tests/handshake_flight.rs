use kult_node::flights::{
    decide_inbound_session, decode_account_initial, decode_device_initial, encode_device_initial,
    DeviceHandshakeIntent, DeviceInitialFlight, HandshakeSessionDecision,
};

#[test]
fn device_initial_v2_round_trips_and_legacy_is_explicit() {
    let flight = DeviceInitialFlight {
        initial: vec![1, 2, 3],
        return_bundle: vec![4, 5],
        intent: DeviceHandshakeIntent::Replace { prior_session_id: [6u8; 32] },
    };
    let encoded = encode_device_initial(&flight).unwrap();
    assert!(encoded.starts_with(b"KDI2"));
    let decoded = decode_device_initial(&encoded).unwrap();
    assert_eq!(decoded.initial, flight.initial);
    assert_eq!(decoded.return_bundle, flight.return_bundle);
    assert_eq!(decoded.intent, flight.intent);

    let mut encoded_legacy = b"KDI1".to_vec();
    encoded_legacy.extend(postcard::to_allocvec(&(vec![7u8, 8], vec![9u8])).unwrap());
    let decoded_legacy = decode_device_initial(&encoded_legacy).unwrap();
    assert_eq!(decoded_legacy.initial, vec![7, 8]);
    assert_eq!(decoded_legacy.return_bundle, vec![9]);
    assert_eq!(decoded_legacy.intent, DeviceHandshakeIntent::Legacy);

    encoded_legacy.push(0);
    assert!(decode_device_initial(&encoded_legacy).is_none());
}

#[test]
fn every_intent_survives_its_encoding() {
    for intent in [
        DeviceHandshakeIntent::Establish,
        DeviceHandshakeIntent::Replace { prior_session_id: [9; 32] },
        DeviceHandshakeIntent::Reset,
        DeviceHandshakeIntent::Legacy,
    ] {
        let flight = DeviceInitialFlight {
            initial: vec![0; 200],
            return_bundle: Vec::new(),
            intent,
        };
        let decoded = decode_device_initial(&encode_device_initial(&flight).unwrap()).unwrap();
        assert_eq!(decoded.initial, flight.initial);
        assert!(decoded.return_bundle.is_empty());
        assert_eq!(decoded.intent, intent);
    }
}

#[test]
fn flights_are_laid_out_field_by_field() {
    let flight = DeviceInitialFlight {
        initial: vec![1, 2, 3],
        return_bundle: vec![4, 5],
        intent: DeviceHandshakeIntent::Reset,
    };
    let encoded = encode_device_initial(&flight).unwrap();
    assert_eq!(encoded, vec![b'K', b'D', b'I', b'2', 3, 1, 2, 3, 2, 4, 5, 2]);
}

#[test]
fn cut_or_lengthened_flights_are_not_read() {
    let flight = DeviceInitialFlight {
        initial: vec![1, 2, 3],
        return_bundle: vec![4, 5],
        intent: DeviceHandshakeIntent::Establish,
    };
    let encoded = encode_device_initial(&flight).unwrap();
    for end in 0..encoded.len() {
        assert!(decode_device_initial(&encoded[..end]).is_none());
    }
    let mut longer = encoded.clone();
    longer.push(0);
    assert!(decode_device_initial(&longer).is_none());
    assert!(decode_account_initial(&encoded).is_none());
}

#[test]
fn account_flights_are_read_whole_or_not_at_all() {
    let mut encoded = b"KAI1".to_vec();
    encoded.extend(postcard::to_allocvec(&(vec![7u8, 8], vec![9u8])).unwrap());
    let decoded = decode_account_initial(&encoded).unwrap();
    assert_eq!(decoded.initial, vec![7, 8]);
    assert_eq!(decoded.return_bundle, vec![9]);
    assert!(decode_device_initial(&encoded).is_none());
    encoded.push(1);
    assert!(decode_account_initial(&encoded).is_none());
}

#[test]
fn simultaneous_establishments_choose_one_device_initiator() {
    let lower = [1u8; 32];
    let higher = [2u8; 32];
    let lower_session = [3u8; 32];
    let higher_session = [4u8; 32];

    assert_eq!(
        decide_inbound_session(
            lower,
            higher,
            Some(&lower_session),
            DeviceHandshakeIntent::Establish,
        ),
        HandshakeSessionDecision::KeepPrior
    );
    assert_eq!(
        decide_inbound_session(
            higher,
            lower,
            Some(&higher_session),
            DeviceHandshakeIntent::Establish,
        ),
        HandshakeSessionDecision::AcceptInbound
    );
}

#[test]
fn replacement_is_bound_to_the_exact_prior_session() {
    let local = [1u8; 32];
    let peer = [2u8; 32];
    let prior = [3u8; 32];
    assert_eq!(
        decide_inbound_session(
            local,
            peer,
            Some(&prior),
            DeviceHandshakeIntent::Replace { prior_session_id: prior },
        ),
        HandshakeSessionDecision::AcceptInbound
    );
    assert_eq!(
        decide_inbound_session(
            local,
            peer,
            Some(&prior),
            DeviceHandshakeIntent::Replace { prior_session_id: [4u8; 32] },
        ),
        HandshakeSessionDecision::Reject
    );
    assert_eq!(
        decide_inbound_session(
            local,
            peer,
            None,
            DeviceHandshakeIntent::Replace { prior_session_id: prior },
        ),
        HandshakeSessionDecision::Reject
    );
    assert_eq!(
        decide_inbound_session(local, peer, Some(&prior), DeviceHandshakeIntent::Reset),
        HandshakeSessionDecision::AcceptInbound
    );
}

#[test]
fn numbers_are_read_as_they_are_written() {
    let intent = |tag: &[u8]| {
        let mut bytes = b"KDI2".to_vec();
        bytes.extend_from_slice(&[0, 0]);
        bytes.extend_from_slice(tag);
        decode_device_initial(&bytes).map(|flight| flight.intent)
    };
    assert_eq!(intent(&[0]), Some(DeviceHandshakeIntent::Establish));
    assert_eq!(intent(&[0x80, 0]), Some(DeviceHandshakeIntent::Establish));
    assert_eq!(
        intent(&[0x83, 0x80, 0x80, 0x80, 0]),
        Some(DeviceHandshakeIntent::Legacy)
    );
    assert_eq!(intent(&[0x80, 0x80, 0x80, 0x80, 0x10]), None);
    assert_eq!(intent(&[0x83, 0x80, 0x80, 0x80, 0x80, 0]), None);
    assert_eq!(intent(&[4]), None);
    let whole = |body: &[u8]| {
        let mut bytes = b"KAI1".to_vec();
        bytes.extend_from_slice(body);
        decode_account_initial(&bytes).map(|flight| (flight.initial, flight.return_bundle))
    };
    assert_eq!(whole(&[0x82, 0, 7, 8, 1, 9]), Some((vec![7, 8], vec![9])));
    assert_eq!(whole(&[2, 7]), None);
    assert_eq!(whole(&[1, 7, 0, 5]), None);
}
