//! First handshake flights: which session survives, and how a flight is framed.

use vstd::prelude::*;

use crate::bytes::{bytes_before, id_precedes, same, Id};
use crate::error::Result;
use crate::wire::{
    byte_string, encode_index, encode_pair, law_indices_read_back, law_pairs_read_back, take_index,
    take_pair, taken_index, taken_pair, varint,
};

verus! {

/// What the sender of a first flight wants done with an existing session.
#[derive(Clone, Copy, Debug, PartialEq, Eq)]
pub enum DeviceHandshakeIntent {
    /// Open a session; both sides may be doing so at once.
    Establish,
    /// Replace exactly the named session.
    Replace {
        /// The session to replace.
        prior_session_id: Id,
    },
    /// Replace whatever session there is.
    Reset,
    /// A flight from before intents were written down.
    Legacy,
}

/// What becomes of the sessions on an inbound first flight.
#[derive(Clone, Copy, Debug, PartialEq, Eq, Structural)]
pub enum HandshakeSessionDecision {
    /// The session that is already there stays.
    KeepPrior,
    /// The inbound session is installed.
    AcceptInbound,
    /// The flight is refused.
    Reject,
}

/// A replacement must name the session that is there. Of two devices that establish at
/// once, the one with the smaller identity keeps the session it opened.
pub open spec fn session_decision(
    local_device: Id,
    peer_device: Id,
    prior_session_id: Option<Id>,
    intent: DeviceHandshakeIntent,
) -> HandshakeSessionDecision {
    match intent {
        DeviceHandshakeIntent::Replace { prior_session_id: named } => if prior_session_id == Some(
            named,
        ) {
            HandshakeSessionDecision::AcceptInbound
        } else {
            HandshakeSessionDecision::Reject
        },
        DeviceHandshakeIntent::Establish => if prior_session_id is Some && bytes_before(
            local_device@,
            peer_device@,
        ) {
            HandshakeSessionDecision::KeepPrior
        } else {
            HandshakeSessionDecision::AcceptInbound
        },
        _ => HandshakeSessionDecision::AcceptInbound,
    }
}

/// Decide which session survives an inbound first flight.
pub fn decide_inbound_session(
    local_device: Id,
    peer_device: Id,
    prior_session_id: Option<&Id>,
    intent: DeviceHandshakeIntent,
) -> (decision: HandshakeSessionDecision)
    ensures
        decision == session_decision(
            local_device,
            peer_device,
            match prior_session_id {
                Some(id) => Some(*id),
                None => None,
            },
            intent,
        ),
{
    match intent {
        DeviceHandshakeIntent::Replace { prior_session_id: named } => match prior_session_id {
            Some(prior) => if same(prior, &named) {
                HandshakeSessionDecision::AcceptInbound
            } else {
                HandshakeSessionDecision::Reject
            },
            None => HandshakeSessionDecision::Reject,
        },
        DeviceHandshakeIntent::Establish => if prior_session_id.is_some() && id_precedes(
            &local_device,
            &peer_device,
        ) {
            HandshakeSessionDecision::KeepPrior
        } else {
            HandshakeSessionDecision::AcceptInbound
        },
        _ => HandshakeSessionDecision::AcceptInbound,
    }
}

/// Two different devices that establish sessions at once agree: exactly one of them
/// keeps the session it opened, and the other accepts that session.
pub proof fn law_simultaneous_establishments_agree(
    a: Id,
    b: Id,
    session_of_a: Id,
    session_of_b: Id,
)
    requires
        a@ != b@,
    ensures
        ({
            let at_a = session_decision(a, b, Some(session_of_a), DeviceHandshakeIntent::Establish);
            let at_b = session_decision(b, a, Some(session_of_b), DeviceHandshakeIntent::Establish);
            ||| at_a == HandshakeSessionDecision::KeepPrior && at_b
                == HandshakeSessionDecision::AcceptInbound
            ||| at_b == HandshakeSessionDecision::KeepPrior && at_a
                == HandshakeSessionDecision::AcceptInbound
        }),
{
    crate::bytes::lemma_before_total(a@, b@, 0);
}

/// A replacement is accepted exactly when the session it names is the one that is there.
pub proof fn law_replacement_names_the_prior_session(
    local: Id,
    peer: Id,
    prior: Option<Id>,
    named: Id,
)
    ensures
        ({
            let decision = session_decision(
                local,
                peer,
                prior,
                DeviceHandshakeIntent::Replace { prior_session_id: named },
            );
            &&& decision == HandshakeSessionDecision::AcceptInbound <==> prior == Some(named)
            &&& decision != HandshakeSessionDecision::KeepPrior
        }),
{
}

/// A first flight between devices.
pub struct DeviceInitialFlight {
    /// The handshake's first message.
    pub initial: Vec<u8>,
    /// The sender's own prekey bundle.
    pub return_bundle: Vec<u8>,
    /// What the sender wants done with an existing session.
    pub intent: DeviceHandshakeIntent,
}

/// A first flight to an account that names no device.
pub struct AccountInitialFlight {
    /// The handshake's first message.
    pub initial: Vec<u8>,
    /// The sender's own prekey bundle.
    pub return_bundle: Vec<u8>,
}

/// The contents of a device flight.
pub struct FlightView {
    /// The handshake's first message.
    pub initial: Seq<u8>,
    /// The sender's own prekey bundle.
    pub return_bundle: Seq<u8>,
    /// What the sender wants done with an existing session.
    pub intent: DeviceHandshakeIntent,
}

impl View for DeviceInitialFlight {
    type V = FlightView;

    open spec fn view(&self) -> FlightView {
        FlightView {
            initial: self.initial@,
            return_bundle: self.return_bundle@,
            intent: self.intent,
        }
    }
}

/// First bytes of a device flight that carries an intent.
pub open spec fn device_magic() -> Seq<u8> {
    seq![0x4bu8, 0x44, 0x49, 0x32]
}

/// First bytes of a device flight from before intents were written down.
pub open spec fn legacy_magic() -> Seq<u8> {
    seq![0x4bu8, 0x44, 0x49, 0x31]
}

/// First bytes of an account flight.
pub open spec fn account_magic() -> Seq<u8> {
    seq![0x4bu8, 0x41, 0x49, 0x31]
}

/// Number of an intent on the wire.
pub open spec fn intent_index(intent: DeviceHandshakeIntent) -> u32 {
    match intent {
        DeviceHandshakeIntent::Establish => 0,
        DeviceHandshakeIntent::Replace { .. } => 1,
        DeviceHandshakeIntent::Reset => 2,
        DeviceHandshakeIntent::Legacy => 3,
    }
}

/// What follows the number of an intent on the wire.
pub open spec fn intent_payload(intent: DeviceHandshakeIntent) -> Seq<u8> {
    match intent {
        DeviceHandshakeIntent::Replace { prior_session_id } => prior_session_id@,
        _ => Seq::empty(),
    }
}

/// A device flight on the wire.
pub open spec fn flight_bytes(flight: FlightView) -> Seq<u8> {
    device_magic() + byte_string(flight.initial) + byte_string(flight.return_bundle) + varint(
        intent_index(flight.intent) as nat,
    ) + intent_payload(flight.intent)
}

/// `bytes` without `magic` at their front.
pub open spec fn after_magic(bytes: Seq<u8>, magic: Seq<u8>) -> Option<Seq<u8>> {
    if bytes.len() >= magic.len() && bytes.take(magic.len() as int) == magic {
        Some(bytes.skip(magic.len() as int))
    } else {
        None
    }
}

/// The pair of byte strings that `body` holds and nothing else.
pub open spec fn whole_pair(body: Seq<u8>) -> Option<(Seq<u8>, Seq<u8>)> {
    match taken_pair(body, usize::BITS as nat) {
        Some((pair, rest)) => if rest.len() == 0 {
            Some(pair)
        } else {
            None
        },
        None => None,
    }
}

/// The intent that `bytes` hold and nothing else.
pub open spec fn whole_intent(bytes: Seq<u8>) -> Option<DeviceHandshakeIntent> {
    match taken_index(bytes) {
        Some((index, rest)) => if index == 0 && rest.len() == 0 {
            Some(DeviceHandshakeIntent::Establish)
        } else if index == 1 && rest.len() == 32 {
            Some(DeviceHandshakeIntent::Replace { prior_session_id: array_of(rest) })
        } else if index == 2 && rest.len() == 0 {
            Some(DeviceHandshakeIntent::Reset)
        } else if index == 3 && rest.len() == 0 {
            Some(DeviceHandshakeIntent::Legacy)
        } else {
            None
        },
        None => None,
    }
}

/// The array with the given 32 bytes.
pub open spec fn array_of(bytes: Seq<u8>) -> Id {
    choose|id: Id| id@ == bytes
}

/// The device flight that `bytes` hold: the current form with its intent, or the old
/// form without one.
pub open spec fn flight_in(bytes: Seq<u8>) -> Option<FlightView> {
    if let Some(body) = after_magic(bytes, device_magic()) {
        match taken_pair(body, usize::BITS as nat) {
            Some(((initial, return_bundle), rest)) => match whole_intent(rest) {
                Some(intent) => Some(FlightView { initial, return_bundle, intent }),
                None => None,
            },
            None => None,
        }
    } else if let Some(body) = after_magic(bytes, legacy_magic()) {
        match whole_pair(body) {
            Some((initial, return_bundle)) => Some(
                FlightView { initial, return_bundle, intent: DeviceHandshakeIntent::Legacy },
            ),
            None => None,
        }
    } else {
        None
    }
}

/// Append bytes.
fn push_all(out: &mut Vec<u8>, more: &[u8])
    ensures
        final(out)@ == old(out)@ + more@,
{
    let ghost first = out@;
    let mut i: usize = 0;
    assert(first + more@.take(0) =~= first);
    while i < more.len()
        invariant
            i <= more@.len(),
            out@ == first + more@.take(i as int),
        decreases more@.len() - i,
    {
        out.push(more[i]);
        i = i + 1;
        assert(out@ =~= first + more@.take(i as int));
    }
    assert(more@.take(more@.len() as int) =~= more@);
}

/// The bytes behind `magic`.
fn strip_magic(bytes: &[u8], magic: [u8; 4]) -> (res: Option<Vec<u8>>)
    ensures
        (match res {
            Some(body) => Some(body@),
            None => None,
        }) == after_magic(bytes@, magic@),
{
    if bytes.len() < 4 || bytes[0] != magic[0] || bytes[1] != magic[1] || bytes[2] != magic[2]
        || bytes[3] != magic[3] {
        proof {
            if bytes@.len() >= 4 && bytes@.take(4) == magic@ {
                assert(bytes@.take(4)[0] == bytes@[0] && bytes@.take(4)[1] == bytes@[1]
                    && bytes@.take(4)[2] == bytes@[2] && bytes@.take(4)[3] == bytes@[3]);
            }
        }
        return None;
    }
    assert(bytes@.take(4) =~= magic@);
    let mut body: Vec<u8> = Vec::new();
    let mut i: usize = 4;
    while i < bytes.len()
        invariant
            4 <= i <= bytes@.len(),
            body@ == bytes@.subrange(4, i as int),
        decreases bytes@.len() - i,
    {
        body.push(bytes[i]);
        i = i + 1;
        assert(body@ =~= bytes@.subrange(4, i as int));
    }
    assert(body@ =~= bytes@.skip(4));
    Some(body)
}

/// Encode a device flight. The encoding can be read back: it holds the flight and
/// nothing else.
pub fn encode_device_initial(flight: &DeviceInitialFlight) -> (res: Result<Vec<u8>>)
    ensures
        res matches Ok(out) && out@ == flight_bytes(flight@) && flight_in(out@) == Some(flight@),
{
    let magic: [u8; 4] = [0x4b, 0x44, 0x49, 0x32];
    let body = encode_pair(&flight.initial, &flight.return_bundle);
    let index: u32 = match flight.intent {
        DeviceHandshakeIntent::Establish => 0,
        DeviceHandshakeIntent::Replace { .. } => 1,
        DeviceHandshakeIntent::Reset => 2,
        DeviceHandshakeIntent::Legacy => 3,
    };
    let tag = encode_index(index);
    let mut out: Vec<u8> = Vec::new();
    push_all(&mut out, magic.as_slice());
    push_all(&mut out, body.as_slice());
    push_all(&mut out, tag.as_slice());
    if let DeviceHandshakeIntent::Replace { prior_session_id } = &flight.intent {
        push_all(&mut out, prior_session_id.as_slice());
    }
    proof {
        let payload = intent_payload(flight.intent);
        assert(magic@ =~= device_magic());
        assert(out@ =~= device_magic() + body@ + tag@ + payload);
        assert(out@ =~= flight_bytes(flight@));
        assert(out@.take(4) =~= device_magic());
        assert(out@.skip(4) =~= body@ + (tag@ + payload));
        assert(flight.initial.len() <= usize::MAX && flight.return_bundle.len() <= usize::MAX);
        law_pairs_read_back(flight.initial@, flight.return_bundle@, tag@ + payload);
        law_indices_read_back(index, payload);
        if let DeviceHandshakeIntent::Replace { prior_session_id } = flight.intent {
            lemma_array_of(prior_session_id);
        }
    }
    Ok(out)
}

/// The array is found again from its bytes.
pub proof fn lemma_array_of(id: Id)
    ensures
        array_of(id@) == id,
{
    let other = array_of(id@);
    assert(other@ == id@);
    assert forall|i: int| 0 <= i < 32 implies other[i] == id[i] by {
        assert(other@[i] == id@[i]);
    }
    assert(other =~= id);
}

/// The first 32 bytes as an array.
fn to_array(bytes: &Vec<u8>) -> (id: Id)
    requires
        bytes@.len() == 32,
    ensures
        id@ == bytes@,
{
    let mut id: Id = [0u8; 32];
    let mut i: usize = 0;
    while i < 32
        invariant
            i <= 32,
            bytes@.len() == 32,
            forall|k: int| 0 <= k < i ==> #[trigger] id@[k] == bytes@[k],
        decreases 32 - i,
    {
        id[i] = bytes[i];
        i = i + 1;
    }
    assert(id@ =~= bytes@);
    id
}

/// Decode a device flight.
pub fn decode_device_initial(bytes: &[u8]) -> (res: Option<DeviceInitialFlight>)
    ensures
        (match res {
            Some(flight) => Some(flight@),
            None => None,
        }) == flight_in(bytes@),
{
    let current: [u8; 4] = [0x4b, 0x44, 0x49, 0x32];
    let legacy: [u8; 4] = [0x4b, 0x44, 0x49, 0x31];
    assert(current@ =~= device_magic());
    assert(legacy@ =~= legacy_magic());
    if let Some(body) = strip_magic(bytes, current) {
        match take_pair(body.as_slice()) {
            Some(((initial, return_bundle), rest)) => match take_index(rest.as_slice()) {
                Some((index, payload)) => {
                    let intent = if index == 0 && payload.len() == 0 {
                        DeviceHandshakeIntent::Establish
                    } else if index == 1 && payload.len() == 32 {
                        let prior_session_id = to_array(&payload);
                        proof {
                            lemma_array_of(prior_session_id);
                        }
                        DeviceHandshakeIntent::Replace { prior_session_id }
                    } else if index == 2 && payload.len() == 0 {
                        DeviceHandshakeIntent::Reset
                    } else if index == 3 && payload.len() == 0 {
                        DeviceHandshakeIntent::Legacy
                    } else {
                        return None;
                    };
                    Some(DeviceInitialFlight { initial, return_bundle, intent })
                },
                None => None,
            },
            None => None,
        }
    } else if let Some(body) = strip_magic(bytes, legacy) {
        match take_pair(body.as_slice()) {
            Some(((initial, return_bundle), rest)) => if rest.len() == 0 {
                Some(
                    DeviceInitialFlight {
                        initial,
                        return_bundle,
                        intent: DeviceHandshakeIntent::Legacy,
                    },
                )
            } else {
                None
            },
            None => None,
        }
    } else {
        None
    }
}

/// Decode an account flight.
pub fn decode_account_initial(bytes: &[u8]) -> (res: Option<AccountInitialFlight>)
    ensures
        (match res {
            Some(flight) => Some((flight.initial@, flight.return_bundle@)),
            None => None,
        }) == (match after_magic(bytes@, account_magic()) {
            Some(body) => whole_pair(body),
            None => None,
        }),
{
    let magic: [u8; 4] = [0x4b, 0x41, 0x49, 0x31];
    assert(magic@ =~= account_magic());
    match strip_magic(bytes, magic) {
        Some(body) => match take_pair(body.as_slice()) {
            Some(((initial, return_bundle), rest)) => if rest.len() == 0 {
                Some(AccountInitialFlight { initial, return_bundle })
            } else {
                None
            },
            None => None,
        },
        None => None,
    }
}

/// Which session survives an inbound handshake: a reset or an old flight always sets up a new
/// one, and so does an establishment where there was none; where both sides established one
/// at once, the device with the smaller address keeps its own.
pub proof fn law_inbound_sessions(local: Id, peer: Id, prior: Id, kept: Option<Id>)
    ensures
        session_decision(local, peer, kept, DeviceHandshakeIntent::Reset)
            == HandshakeSessionDecision::AcceptInbound,
        session_decision(local, peer, kept, DeviceHandshakeIntent::Legacy)
            == HandshakeSessionDecision::AcceptInbound,
        session_decision(local, peer, None, DeviceHandshakeIntent::Establish)
            == HandshakeSessionDecision::AcceptInbound,
        bytes_before(local@, peer@) ==> session_decision(
            local,
            peer,
            Some(prior),
            DeviceHandshakeIntent::Establish,
        ) == HandshakeSessionDecision::KeepPrior,
        !bytes_before(local@, peer@) ==> session_decision(
            local,
            peer,
            Some(prior),
            DeviceHandshakeIntent::Establish,
        ) == HandshakeSessionDecision::AcceptInbound,
{
}

/// A flight starts with the letters of its form, and its kind of intent is told by number.
pub proof fn law_flights_start_with_their_form(flight: FlightView)
    ensures
        flight_bytes(flight).len() >= 4,
        flight_bytes(flight)[0] == 0x4b,
        flight_bytes(flight)[1] == 0x44,
        flight_bytes(flight)[2] == 0x49,
        flight_bytes(flight)[3] == 0x32,
        intent_index(DeviceHandshakeIntent::Establish) == 0,
        intent_index(DeviceHandshakeIntent::Reset) == 2,
        intent_index(DeviceHandshakeIntent::Legacy) == 3,
        flight.intent is Replace ==> intent_index(flight.intent) == 1 && intent_payload(
            flight.intent,
        ) == flight.intent->prior_session_id@,
        !(flight.intent is Replace) ==> intent_payload(flight.intent).len() == 0,
{
}

/// Bytes of another form are no flight; the older form brings no intent of its own.
pub proof fn law_forms_of_flights(bytes: Seq<u8>)
    ensures
        bytes.len() < 4 ==> flight_in(bytes) is None,
        bytes.len() >= 4 && bytes[0] != 0x4b ==> flight_in(bytes) is None,
        bytes.len() >= 4 && bytes[3] != 0x31 && bytes[3] != 0x32 ==> flight_in(bytes) is None,
        bytes.len() >= 4 && bytes[3] == 0x31 && flight_in(bytes) is Some ==> flight_in(
            bytes,
        )->0.intent == DeviceHandshakeIntent::Legacy,
{
    if bytes.len() >= 4 {
        let head = bytes.take(4);
        assert(head[0] == bytes[0] && head[3] == bytes[3]);
        assert(device_magic()[0] == 0x4b && device_magic()[3] == 0x32);
        assert(legacy_magic()[0] == 0x4b && legacy_magic()[3] == 0x31);
    }
}

/// An intent is read from its number and from nothing less or more than it holds: the prior
/// session takes thirty-two bytes, every other intent none.
pub proof fn law_intents_are_read_whole(bytes: Seq<u8>)
    ensures
        taken_index(bytes) is None ==> whole_intent(bytes) is None,
        taken_index(bytes) matches Some((index, rest)) ==> {
            &&& index == 0 ==> whole_intent(bytes) == if rest.len() == 0 {
                Some(DeviceHandshakeIntent::Establish)
            } else {
                None
            }
            &&& index == 1 && rest.len() != 32 ==> whole_intent(bytes) is None
            &&& index == 1 && rest.len() == 32 ==> (whole_intent(bytes) matches Some(
                DeviceHandshakeIntent::Replace { prior_session_id },
            ) && prior_session_id == array_of(rest))
            &&& index == 2 ==> whole_intent(bytes) == if rest.len() == 0 {
                Some(DeviceHandshakeIntent::Reset)
            } else {
                None
            }
            &&& index == 3 ==> whole_intent(bytes) == if rest.len() == 0 {
                Some(DeviceHandshakeIntent::Legacy)
            } else {
                None
            }
            &&& index > 3 ==> whole_intent(bytes) is None
        },
{
}

/// Nothing may follow the two parts of an account's flight.
pub proof fn law_pairs_are_read_whole(body: Seq<u8>)
    ensures
        taken_pair(body, usize::BITS as nat) is None ==> whole_pair(body) is None,
        taken_pair(body, usize::BITS as nat) matches Some((pair, rest)) ==> {
            &&& rest.len() == 0 ==> whole_pair(body) == Some(pair)
            &&& rest.len() > 0 ==> whole_pair(body) is None
        },
{
}

} // verus!
