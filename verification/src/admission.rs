//! First contact: what an inbound first flight must show before it costs anything, and
//! how a request of someone unknown is staged.

use vstd::prelude::*;

use crate::bytes::{bytes_before, id_precedes, same, same_bytes, ContentId, Id};
use crate::flights::{
    account_magic, after_magic, decode_account_initial, decode_device_initial, flight_in,
    whole_pair, AccountInitialFlight, DeviceInitialFlight,
};
use crate::records::Event;
use crate::text_grammar::{byte_len, byte_offset};
use crate::upkeep::RequestRow;
use crate::vault::PrekeyVault;
use crate::wire::constant_time_same;

verus! {

/// Admission puzzles verified in one pass.
pub const MAX_ADMISSION_PUZZLES_PER_TICK: usize = 8;

/// Decapsulations spent on first contact in one pass.
pub const MAX_ADMISSION_KEMS_PER_TICK: usize = 4;

/// Request notifications in one pass.
pub const MAX_ADMISSION_NOTIFICATIONS_PER_TICK: usize = 4;

/// How an envelope came in.
#[derive(Clone, Copy, Debug, PartialEq, Eq, Structural)]
pub enum IngressClass {
    /// Nobody knows.
    Unknown,
    /// Over a direct link.
    Direct,
    /// From a mailbox relay.
    Mailbox,
    /// Over the radio mesh.
    Mesh,
    /// With a courier.
    Delayed,
    /// Across a bridge.
    Bridge,
}

/// How a first flight came in, as it is recorded.
#[derive(Clone, Copy, Debug, PartialEq, Eq, Structural)]
pub enum AdmissionTransportClass {
    /// Nobody knows.
    Unknown,
    /// Over a direct link.
    Direct,
    /// From a mailbox relay.
    Mailbox,
    /// Over the radio mesh.
    Mesh,
    /// With a courier.
    Delayed,
    /// Across a bridge.
    Bridge,
}

/// How a first flight came in, as it is recorded.
pub open spec fn recorded_class(ingress: IngressClass) -> AdmissionTransportClass {
    match ingress {
        IngressClass::Unknown => AdmissionTransportClass::Unknown,
        IngressClass::Direct => AdmissionTransportClass::Direct,
        IngressClass::Mailbox => AdmissionTransportClass::Mailbox,
        IngressClass::Mesh => AdmissionTransportClass::Mesh,
        IngressClass::Delayed => AdmissionTransportClass::Delayed,
        IngressClass::Bridge => AdmissionTransportClass::Bridge,
    }
}

/// How a first flight came in, as it is recorded.
pub fn admission_transport(ingress: IngressClass) -> (res: AdmissionTransportClass)
    ensures
        res == recorded_class(ingress),
{
    match ingress {
        IngressClass::Unknown => AdmissionTransportClass::Unknown,
        IngressClass::Direct => AdmissionTransportClass::Direct,
        IngressClass::Mailbox => AdmissionTransportClass::Mailbox,
        IngressClass::Mesh => AdmissionTransportClass::Mesh,
        IngressClass::Delayed => AdmissionTransportClass::Delayed,
        IngressClass::Bridge => AdmissionTransportClass::Bridge,
    }
}

/// Position of a class in the per-carrier budget.
pub open spec fn class_index(transport: AdmissionTransportClass) -> int {
    match transport {
        AdmissionTransportClass::Unknown => 0,
        AdmissionTransportClass::Direct => 1,
        AdmissionTransportClass::Mailbox => 2,
        AdmissionTransportClass::Mesh => 3,
        AdmissionTransportClass::Delayed => 4,
        AdmissionTransportClass::Bridge => 5,
    }
}

/// Position of a class in the per-carrier budget.
pub fn admission_transport_index(transport: AdmissionTransportClass) -> (res: usize)
    ensures
        res == class_index(transport),
        res < 6,
{
    match transport {
        AdmissionTransportClass::Unknown => 0,
        AdmissionTransportClass::Direct => 1,
        AdmissionTransportClass::Mailbox => 2,
        AdmissionTransportClass::Mesh => 3,
        AdmissionTransportClass::Delayed => 4,
        AdmissionTransportClass::Bridge => 5,
    }
}

/// What first contact may still cost in one pass.
#[derive(Clone, Copy, Debug, PartialEq, Eq)]
pub struct AdmissionBudget {
    /// Candidates left for each class of carrier.
    pub carriers: [usize; 6],
    /// Puzzles left.
    pub puzzles: usize,
    /// Decapsulations left.
    pub kems: usize,
    /// Request notifications left.
    pub notifications: usize,
}

impl AdmissionBudget {
    /// No budget: a wake collection takes no introductions.
    pub fn closed() -> (budget: AdmissionBudget)
        ensures
            budget.carriers@ == seq![0usize, 0, 0, 0, 0, 0],
            budget.puzzles == 0,
            budget.kems == 0,
            budget.notifications == 0,
    {
        let budget = AdmissionBudget {
            carriers: [0, 0, 0, 0, 0, 0],
            puzzles: 0,
            kems: 0,
            notifications: 0,
        };
        assert(budget.carriers@ =~= seq![0usize, 0, 0, 0, 0, 0]);
        budget
    }

    /// The budget of one pass.
    pub fn fresh() -> (budget: AdmissionBudget)
        ensures
            budget.carriers@ == seq![4usize, 4, 2, 2, 2, 2],
            budget.puzzles == MAX_ADMISSION_PUZZLES_PER_TICK,
            budget.kems == MAX_ADMISSION_KEMS_PER_TICK,
            budget.notifications == MAX_ADMISSION_NOTIFICATIONS_PER_TICK,
    {
        let budget = AdmissionBudget {
            carriers: [4, 4, 2, 2, 2, 2],
            puzzles: MAX_ADMISSION_PUZZLES_PER_TICK,
            kems: MAX_ADMISSION_KEMS_PER_TICK,
            notifications: MAX_ADMISSION_NOTIFICATIONS_PER_TICK,
        };
        assert(budget.carriers@ =~= seq![4usize, 4, 2, 2, 2, 2]);
        budget
    }

    /// Reserve one candidate of a class of carrier, unless the time for first contact is
    /// over or the class has none left.
    pub fn reserve_admission_candidate(
        &mut self,
        transport: AdmissionTransportClass,
        time_over: bool,
    ) -> (res: bool)
        ensures
            res == (!time_over && old(self).carriers@[class_index(transport)] > 0),
            final(self).carriers@ == if res {
                old(self).carriers@.update(
                    class_index(transport),
                    (old(self).carriers@[class_index(transport)] - 1) as usize,
                )
            } else {
                old(self).carriers@
            },
            final(self).puzzles == old(self).puzzles,
            final(self).kems == old(self).kems,
            final(self).notifications == old(self).notifications,
    {
        if time_over {
            return false;
        }
        let index = admission_transport_index(transport);
        let left = self.carriers[index];
        if left == 0 {
            return false;
        }
        self.carriers[index] = left - 1;
        assert(self.carriers@ =~= old(self).carriers@.update(index as int, (left - 1) as usize));
        true
    }

    /// Pay for looking at a first flight that carries a proof: one candidate of its carrier
    /// class and one puzzle. Without either the flight has to wait.
    pub fn begin_admission(
        &mut self,
        transport: AdmissionTransportClass,
        time_over: bool,
    ) -> (res: bool)
        ensures
            ({
                let open = !time_over && old(self).carriers@[class_index(transport)] > 0;
                &&& res == (open && old(self).puzzles > 0)
                &&& final(self).carriers@ == if open {
                    old(self).carriers@.update(
                        class_index(transport),
                        (old(self).carriers@[class_index(transport)] - 1) as usize,
                    )
                } else {
                    old(self).carriers@
                }
                &&& final(self).puzzles == if res {
                    old(self).puzzles - 1
                } else {
                    old(self).puzzles as int
                }
                &&& final(self).kems == old(self).kems
                &&& final(self).notifications == old(self).notifications
            }),
    {
        if !self.reserve_admission_candidate(transport, time_over) {
            return false;
        }
        if self.puzzles == 0 {
            return false;
        }
        self.puzzles = self.puzzles - 1;
        true
    }
}

// ---- The proof ----

/// How a first flight earns attention.
#[derive(Clone, Copy, Debug, PartialEq, Eq, Structural)]
pub enum AdmissionProofKind {
    /// By a solved puzzle.
    Puzzle,
    /// By an invitation.
    Invitation,
}

/// What a first flight claims.
#[derive(Clone, Copy, Debug, PartialEq, Eq)]
pub struct AdmissionClaim {
    /// Account it is for.
    pub target_account: Id,
    /// Device it is for.
    pub target_device: Id,
    /// Digest of the bundle that it answers.
    pub bundle_digest: Id,
    /// Epoch of that bundle.
    pub validity_epoch: u64,
    /// Size of the sealed flight.
    pub flight_len: u64,
    /// How it earns attention.
    pub proof_kind: AdmissionProofKind,
    /// The proof.
    pub proof: Id,
}

/// What the bundle that a first flight answers allows.
#[derive(Clone, Copy, Debug, PartialEq, Eq)]
pub struct AdmissionDescriptor {
    /// Digest of the bundle.
    pub bundle_digest: Id,
    /// Epoch of the bundle.
    pub validity_epoch: u64,
    /// Largest sealed flight.
    pub max_first_ciphertext: u32,
}

/// Public identity of a device and its current prekeys, as encoded bytes.
pub struct PrekeyFacts {
    /// Public identity.
    pub identity: Vec<u8>,
    /// Number of the signed prekey.
    pub spk_id: u32,
    /// Public half of the signed prekey.
    pub spk: Id,
    /// Number of the post-quantum signed prekey.
    pub pqspk_id: u32,
    /// Public half of the post-quantum signed prekey.
    pub pqspk: Vec<u8>,
}

/// The claim is addressed to this device and stays within the bundle's terms.
pub open spec fn claim_holds(
    claim: AdmissionClaim,
    descriptor: AdmissionDescriptor,
    account: Id,
    device: Id,
) -> bool {
    &&& claim.target_account == account
    &&& claim.target_device == device
    &&& claim.bundle_digest == descriptor.bundle_digest
    &&& claim.validity_epoch == descriptor.validity_epoch
    &&& claim.flight_len <= descriptor.max_first_ciphertext
}

/// The proof is the solved puzzle, or exactly what the invitation demands.
pub open spec fn proof_holds(
    claim: AdmissionClaim,
    puzzle_solved: bool,
    invitation_proof: Option<Id>,
) -> bool {
    match claim.proof_kind {
        AdmissionProofKind::Puzzle => puzzle_solved,
        AdmissionProofKind::Invitation => invitation_proof == Some(claim.proof),
    }
}

/// The bundle offers exactly the prekeys that are current.
pub open spec fn prekeys_current(bundle: PrekeyFacts, current: PrekeyFacts) -> bool {
    &&& bundle.spk_id == current.spk_id
    &&& bundle.spk == current.spk
    &&& bundle.pqspk_id == current.pqspk_id
    &&& bundle.pqspk@ == current.pqspk@
}

/// Whether a first flight that carries a proof may go on: it is addressed to this device,
/// its proof holds, and it answers the current prekeys. `puzzle_solved` and
/// `invitation_proof` are what verifying the puzzle and looking the invitation up gave.
pub fn check_admission(
    claim: &AdmissionClaim,
    descriptor: &AdmissionDescriptor,
    bundle: &PrekeyFacts,
    account: Id,
    current: &PrekeyFacts,
    device: Id,
    puzzle_solved: bool,
    invitation_proof: Option<Id>,
) -> (res: bool)
    ensures
        res == (claim_holds(*claim, *descriptor, account, device) && bundle.identity@
            == current.identity@ && proof_holds(*claim, puzzle_solved, invitation_proof)
            && prekeys_current(*bundle, *current)),
{
    let addressed = same(&claim.target_account, &account) && same(&claim.target_device, &device)
        && same(&claim.bundle_digest, &descriptor.bundle_digest) && claim.validity_epoch
        == descriptor.validity_epoch && claim.flight_len <= descriptor.max_first_ciphertext as u64;
    let proven = match claim.proof_kind {
        AdmissionProofKind::Puzzle => puzzle_solved,
        AdmissionProofKind::Invitation => match invitation_proof {
            Some(expected) => {
                proof {
                    crate::bytes::lemma_same_id(expected, claim.proof);
                }
                constant_time_same(expected.as_slice(), claim.proof.as_slice())
            },
            None => false,
        },
    };
    addressed && same_bytes(&bundle.identity, &current.identity) && proven && bundle.spk_id
        == current.spk_id && same(&bundle.spk, &current.spk) && bundle.pqspk_id
        == current.pqspk_id && same_bytes(&bundle.pqspk, &current.pqspk)
}

// ---- The flight ----

/// A first flight once it is opened.
pub enum Flight {
    /// Between devices.
    Device(DeviceInitialFlight),
    /// To an account.
    Account(AccountInitialFlight),
    /// Only the handshake's first message.
    Bare(Vec<u8>),
}

/// What an opened first flight is.
pub open spec fn flight_of(bytes: Seq<u8>, flight: Flight) -> bool {
    match flight {
        Flight::Device(device) => flight_in(bytes) == Some(device@),
        Flight::Account(account) => {
            &&& flight_in(bytes) is None
            &&& after_magic(bytes, account_magic()) is Some
            &&& whole_pair(after_magic(bytes, account_magic())->0) == Some(
                (account.initial@, account.return_bundle@),
            )
        },
        Flight::Bare(initial) => {
            &&& flight_in(bytes) is None
            &&& after_magic(bytes, account_magic()) is None || whole_pair(
                after_magic(bytes, account_magic())->0,
            ) is None
            &&& initial@ == bytes
        },
    }
}

/// Tell what an opened first flight is.
pub fn read_flight(bytes: Vec<u8>) -> (res: Flight)
    ensures
        flight_of(bytes@, res),
{
    match decode_device_initial(bytes.as_slice()) {
        Some(flight) => Flight::Device(flight),
        None => match decode_account_initial(bytes.as_slice()) {
            Some(flight) => Flight::Account(flight),
            None => Flight::Bare(bytes),
        },
    }
}

/// What is known of the sender of a first flight.
#[derive(Clone, Copy, Debug, PartialEq, Eq, Structural)]
pub struct SenderFacts {
    /// The flight carried an accepted proof.
    pub has_admission: bool,
    /// The sender is a contact.
    pub known: bool,
    /// The sender is blocked.
    pub blocked: bool,
    /// A request of the sender is waiting.
    pub has_request: bool,
    /// Requests that are waiting.
    pub request_count: usize,
}

/// What happens to a first flight.
#[derive(Clone, Copy, Debug, PartialEq, Eq, Structural)]
pub enum SenderGate {
    /// It is refused for good.
    Drop,
    /// It has to wait.
    Later,
    /// It goes on.
    Proceed,
}

/// Blocked senders, and unknown ones without a proof or without room for their request,
/// are refused. An unknown sender costs a decapsulation.
pub open spec fn sender_gate(facts: SenderFacts, max_requests: usize, kems: usize) -> SenderGate {
    if facts.blocked || (!facts.known && !facts.has_admission) {
        SenderGate::Drop
    } else if facts.known {
        SenderGate::Proceed
    } else if !facts.has_request && facts.request_count >= max_requests {
        SenderGate::Drop
    } else if kems == 0 {
        SenderGate::Later
    } else {
        SenderGate::Proceed
    }
}

impl AdmissionBudget {
    /// Decide about the sender of a first flight; an unknown one that goes on costs a
    /// decapsulation.
    pub fn gate_sender(&mut self, facts: SenderFacts, max_requests: usize) -> (res: SenderGate)
        ensures
            res == sender_gate(facts, max_requests, old(self).kems),
            *final(self) == if res == SenderGate::Proceed && !facts.known {
                AdmissionBudget { kems: (old(self).kems - 1) as usize, ..*old(self) }
            } else {
                *old(self)
            },
    {
        if facts.blocked || (!facts.known && !facts.has_admission) {
            return SenderGate::Drop;
        }
        if !facts.known {
            if !facts.has_request && facts.request_count >= max_requests {
                return SenderGate::Drop;
            }
            if self.kems == 0 {
                return SenderGate::Later;
            }
            self.kems = self.kems - 1;
        }
        SenderGate::Proceed
    }
}

/// An unknown sender without a proof never reaches the expensive part, whatever the
/// budget.
pub proof fn law_strangers_need_proof(facts: SenderFacts, max_requests: usize, kems: usize)
    requires
        !facts.known,
        !facts.has_admission,
    ensures
        sender_gate(facts, max_requests, kems) == SenderGate::Drop,
{
}

/// A blocked sender is always refused.
pub proof fn law_blocked_senders_are_refused(facts: SenderFacts, max_requests: usize, kems: usize)
    requires
        facts.blocked,
    ensures
        sender_gate(facts, max_requests, kems) == SenderGate::Drop,
{
}

/// The one-time prekey that a first flight uses: `None` when it names prekeys that are not
/// current or a one-time prekey that is not there, `Some(None)` when it uses none.
pub fn select_prekeys(vault: &PrekeyVault, spk_id: u32, pqspk_id: u32, opk_id: Option<u32>) -> (res:
    Option<Option<[u8; 32]>>)
    ensures
        ({
            let current = spk_id == vault@.spk_id && pqspk_id == vault@.pqspk_id;
            match res {
                None => !current || (opk_id matches Some(id) && forall|k: int|
                    0 <= k < vault@.opks.len() ==> (#[trigger] vault@.opks[k]).0 != id),
                Some(None) => current && opk_id is None,
                Some(Some(secret)) => current && (opk_id matches Some(id) && exists|k: int|
                    {
                        &&& 0 <= k < vault@.opks.len()
                        &&& #[trigger] vault@.opks[k] == (id, secret@)
                        &&& forall|j: int| 0 <= j < k ==> (#[trigger] vault@.opks[j]).0 != id
                    }),
            }
        }),
{
    if spk_id != vault.spk().0 || pqspk_id != vault.pqspk_id() {
        return None;
    }
    match opk_id {
        Some(id) => match vault.opk(id) {
            Some(secret) => Some(Some(secret)),
            None => None,
        },
        None => Some(None),
    }
}

// ---- The request ----

/// What the first content of a request holds.
pub enum FirstContent {
    /// Nothing.
    Empty,
    /// Text.
    Text(String),
    /// Anything else, or nothing readable.
    Other,
}

/// Characters of the longest prefix of at most `limit` bytes.
pub open spec fn preview_len(text: Seq<char>, limit: int, k: int) -> int
    decreases k,
{
    if k <= 0 || byte_offset(text, k) <= limit {
        k
    } else {
        preview_len(text, limit, k - 1)
    }
}

/// The longest prefix of a text of at most `limit` bytes that ends between characters.
pub open spec fn preview_of(text: Seq<char>, limit: int) -> Seq<char> {
    text.take(preview_len(text, limit, text.len() as int))
}

proof fn lemma_preview_len(text: Seq<char>, limit: int, k: int)
    requires
        0 <= k,
        0 <= limit,
    ensures
        0 <= preview_len(text, limit, k) <= k,
        byte_offset(text, preview_len(text, limit, k)) <= limit,
        preview_len(text, limit, k) < k ==> byte_offset(
            text,
            preview_len(text, limit, k) + 1,
        ) > limit,
    decreases k,
{
    if k > 0 && byte_offset(text, k) > limit {
        lemma_preview_len(text, limit, k - 1);
    }
}

proof fn lemma_preview_is(text: Seq<char>, limit: int, k: int, at: int)
    requires
        0 <= at <= k,
        0 <= limit,
        byte_offset(text, at) <= limit,
        at < k ==> byte_offset(text, at + 1) > limit,
    ensures
        preview_len(text, limit, k) == at,
    decreases k,
{
    if at < k {
        lemma_offset_monotone(text, at + 1, k);
        lemma_preview_is(text, limit, k - 1, at);
    }
}

proof fn lemma_offset_monotone(text: Seq<char>, a: int, b: int)
    requires
        0 <= a <= b,
    ensures
        byte_offset(text, a) <= byte_offset(text, b),
    decreases b - a,
{
    if a < b {
        lemma_offset_monotone(text, a, b - 1);
    }
}

/// A preview never exceeds its bound in bytes, is a prefix of the text, and is the whole
/// text whenever that fits.
pub proof fn law_preview_is_bounded_prefix(text: Seq<char>, limit: int)
    requires
        0 <= limit,
    ensures
        byte_len(preview_of(text, limit)) <= limit,
        preview_of(text, limit).is_prefix_of(text),
        byte_len(text) <= limit ==> preview_of(text, limit) == text,
{
    lemma_preview_len(text, limit, text.len() as int);
    let k = preview_len(text, limit, text.len() as int);
    lemma_offset_of_prefix(text.take(k), text, k);
    if byte_len(text) <= limit {
        assert(text.take(text.len() as int) =~= text);
    }
    assert(preview_of(text, limit) =~= text.subrange(0, k));
}

proof fn lemma_offset_of_prefix(a: Seq<char>, b: Seq<char>, k: int)
    requires
        0 <= k <= a.len() <= b.len(),
        forall|i: int| 0 <= i < k ==> #[trigger] a[i] == b[i],
    ensures
        byte_offset(a, k) == byte_offset(b, k),
    decreases k,
{
    if k > 0 {
        lemma_offset_of_prefix(a, b, k - 1);
    }
}

/// The longest prefix of a text of at most `limit` bytes that ends between characters.
pub fn bounded_request_preview(text: &str, limit: usize) -> (res: String)
    requires
        limit <= usize::MAX - 4,
    ensures
        res@ == preview_of(text@, limit as int),
{
    let mut res: String = String::new();
    let mut used: usize = 0;
    for c in rest: text.chars()
        invariant
            limit <= usize::MAX - 4,
            rest.seq() == text@,
            res@ == text@.take(rest.index()),
            used == byte_offset(text@, rest.index()),
            used <= limit,
    {
        let more = used + crate::text_formatting::encoded_len(c);
        if more > limit {
            proof {
                lemma_preview_is(text@, limit as int, text@.len() as int, rest.index());
            }
            return res;
        }
        res.push(c);
        used = more;
        assert(res@ =~= text@.take(rest.index() + 1));
    }
    proof {
        lemma_preview_is(text@, limit as int, text@.len() as int, text@.len() as int);
    }
    res
}

/// A request to stage.
pub struct StagedRequest {
    /// When, by whom and until when.
    pub row: RequestRow,
    /// What is shown of the first content.
    pub preview: String,
    /// What is told.
    pub event: Option<Event>,
}

/// `(a, x)` comes after `(b, y)`: later, or at the same time with the greater identity.
pub open spec fn is_newer(a: u64, x: ContentId, b: u64, y: ContentId) -> bool {
    a > b || (a == b && bytes_before(y@, x@))
}

/// A request is staged when its sender has no devices on record yet, its first content is
/// nothing or text of bounded size, and it is newer than a request that waits already.
pub open spec fn stages(
    has_endpoints: bool,
    content_len: usize,
    max_content: usize,
    content: FirstContent,
    request_id: ContentId,
    prior: Option<RequestRow>,
    now: u64,
) -> bool {
    &&& !has_endpoints
    &&& content_len <= max_content
    &&& content !is Other
    &&& prior matches Some(p) ==> is_newer(now, request_id, p.arrived_at, p.request_id)
}

impl AdmissionBudget {
    /// Stage the request of an unknown sender, or refuse it. A staged request is told while
    /// notifications are left.
    pub fn stage_request(
        &mut self,
        account: Id,
        has_endpoints: bool,
        content_len: usize,
        max_content: usize,
        content: FirstContent,
        max_preview: usize,
        request_id: ContentId,
        prior: Option<RequestRow>,
        lifetime: u64,
        now: u64,
    ) -> (res: Option<StagedRequest>)
        requires
            max_preview <= usize::MAX - 4,
        ensures
            res is Some == stages(
                has_endpoints,
                content_len,
                max_content,
                content,
                request_id,
                prior,
                now,
            ),
            res matches Some(staged) ==> {
                &&& staged.row == (RequestRow {
                    request_id,
                    account,
                    arrived_at: now,
                    expires_at: if now + lifetime <= u64::MAX {
                        (now + lifetime) as u64
                    } else {
                        u64::MAX
                    },
                })
                &&& staged.preview@ == match content {
                    FirstContent::Text(text) => preview_of(text@, max_preview as int),
                    _ => Seq::empty(),
                }
                &&& staged.event == if old(self).notifications > 0 {
                    Some(Event::MessageRequestReceived { request: request_id })
                } else {
                    None
                }
            },
            *final(self) == if res is Some && old(self).notifications > 0 {
                AdmissionBudget {
                    notifications: (old(self).notifications - 1) as usize,
                    ..*old(self)
                }
            } else {
                *old(self)
            },
    {
        if has_endpoints || content_len > max_content {
            return None;
        }
        let preview = match &content {
            FirstContent::Empty => String::new(),
            FirstContent::Text(text) => bounded_request_preview(text.as_str(), max_preview),
            FirstContent::Other => {
                return None;
            },
        };
        if let Some(prior) = &prior {
            let newer = now > prior.arrived_at || (now == prior.arrived_at && id_precedes(
                &prior.request_id,
                &request_id,
            ));
            if !newer {
                return None;
            }
        }
        let event = if self.notifications == 0 {
            None
        } else {
            self.notifications = self.notifications - 1;
            Some(Event::MessageRequestReceived { request: request_id })
        };
        Some(
            StagedRequest {
                row: RequestRow {
                    request_id,
                    account,
                    arrived_at: now,
                    expires_at: now.saturating_add(lifetime),
                },
                preview,
                event,
            },
        )
    }
}

// ---- Laws of admission ----

/// The class of a carrier is recorded as it is, and every class has an allowance of its own.
pub proof fn law_carriers_have_their_own_allowance(
    a: AdmissionTransportClass,
    b: AdmissionTransportClass,
)
    ensures
        recorded_class(IngressClass::Unknown) == AdmissionTransportClass::Unknown,
        recorded_class(IngressClass::Direct) == AdmissionTransportClass::Direct,
        recorded_class(IngressClass::Mailbox) == AdmissionTransportClass::Mailbox,
        recorded_class(IngressClass::Mesh) == AdmissionTransportClass::Mesh,
        recorded_class(IngressClass::Delayed) == AdmissionTransportClass::Delayed,
        recorded_class(IngressClass::Bridge) == AdmissionTransportClass::Bridge,
        0 <= class_index(a) < 6,
        class_index(a) == class_index(b) ==> a == b,
        class_index(AdmissionTransportClass::Unknown) == 0,
        class_index(AdmissionTransportClass::Direct) == 1,
{
}

/// A claim holds exactly of the account, the device, the bundle and the epoch it was made
/// for, and of a flight that is not too long.
pub proof fn law_claims_are_bound(
    claim: AdmissionClaim,
    descriptor: AdmissionDescriptor,
    account: Id,
    device: Id,
)
    ensures
        claim.target_account != account ==> !claim_holds(claim, descriptor, account, device),
        claim.target_device != device ==> !claim_holds(claim, descriptor, account, device),
        claim.bundle_digest != descriptor.bundle_digest ==> !claim_holds(
            claim,
            descriptor,
            account,
            device,
        ),
        claim.validity_epoch != descriptor.validity_epoch ==> !claim_holds(
            claim,
            descriptor,
            account,
            device,
        ),
        claim.flight_len > descriptor.max_first_ciphertext ==> !claim_holds(
            claim,
            descriptor,
            account,
            device,
        ),
        claim.target_account == account && claim.target_device == device && claim.bundle_digest
            == descriptor.bundle_digest && claim.validity_epoch == descriptor.validity_epoch
            && claim.flight_len <= descriptor.max_first_ciphertext ==> claim_holds(
            claim,
            descriptor,
            account,
            device,
        ),
{
}

/// A puzzle counts when it is solved, an invitation when its proof is the expected one.
pub proof fn law_proofs_of_admission(
    claim: AdmissionClaim,
    solved: bool,
    invitation: Option<Id>,
)
    ensures
        claim.proof_kind == AdmissionProofKind::Puzzle ==> proof_holds(claim, solved, invitation)
            == solved,
        claim.proof_kind == AdmissionProofKind::Invitation && invitation is None ==> !proof_holds(
            claim,
            solved,
            invitation,
        ),
        claim.proof_kind == AdmissionProofKind::Invitation && invitation is Some ==> proof_holds(
            claim,
            solved,
            invitation,
        ) == (invitation->0 == claim.proof),
{
}

/// Prekeys are current only when both keys and both numbers are.
pub proof fn law_current_prekeys(bundle: PrekeyFacts, current: PrekeyFacts)
    ensures
        prekeys_current(bundle, current) <==> bundle.spk_id == current.spk_id && bundle.spk
            == current.spk && bundle.pqspk_id == current.pqspk_id && bundle.pqspk@
            == current.pqspk@,
{
}

/// A contact that is not blocked always gets through. An admitted stranger gets through as
/// long as there is room for its request and the allowance lasts.
pub proof fn law_who_gets_through(facts: SenderFacts, max_requests: usize, kems: usize)
    requires
        !facts.blocked,
    ensures
        facts.known ==> sender_gate(facts, max_requests, kems) == SenderGate::Proceed,
        !facts.known && facts.has_admission && !facts.has_request && facts.request_count
            >= max_requests ==> sender_gate(facts, max_requests, kems) == SenderGate::Drop,
        !facts.known && facts.has_admission && (facts.has_request || facts.request_count
            < max_requests) && kems == 0 ==> sender_gate(facts, max_requests, kems)
            == SenderGate::Later,
        !facts.known && facts.has_admission && (facts.has_request || facts.request_count
            < max_requests) && kems > 0 ==> sender_gate(facts, max_requests, kems)
            == SenderGate::Proceed,
{
}

/// A preview is as long as the limit allows.
pub proof fn law_previews_are_as_long_as_possible(text: Seq<char>, limit: int)
    requires
        0 <= limit,
        preview_of(text, limit).len() < text.len(),
    ensures
        byte_offset(text, preview_of(text, limit).len() as int + 1) > limit,
{
    lemma_preview_most(text, limit, text.len() as int);
}

proof fn lemma_preview_most(text: Seq<char>, limit: int, k: int)
    requires
        0 <= limit,
        0 <= k <= text.len(),
    ensures
        0 <= preview_len(text, limit, k) <= k,
        preview_len(text, limit, k) < k ==> byte_offset(text, preview_len(text, limit, k) + 1)
            > limit,
    decreases k,
{
    if k > 0 && byte_offset(text, k) > limit {
        lemma_preview_most(text, limit, k - 1);
    }
}

/// A request replaces an older one of the same account: the later one counts, and of two at
/// the same time the one with the greater identity.
pub proof fn law_newer_requests(a: u64, x: ContentId, b: u64, y: ContentId)
    ensures
        a > b ==> is_newer(a, x, b, y),
        a < b ==> !is_newer(a, x, b, y),
        a == b ==> is_newer(a, x, b, y) == bytes_before(y@, x@),
{
}

/// A request is staged unless the sender already has endpoints, the content is too long or of
/// another kind than text, or a newer request waits.
pub proof fn law_staged_requests(
    has_endpoints: bool,
    content_len: usize,
    max_content: usize,
    content: FirstContent,
    request_id: ContentId,
    prior: RequestRow,
    now: u64,
)
    ensures
        has_endpoints ==> !stages(
            has_endpoints,
            content_len,
            max_content,
            content,
            request_id,
            None,
            now,
        ),
        content_len > max_content ==> !stages(
            has_endpoints,
            content_len,
            max_content,
            content,
            request_id,
            None,
            now,
        ),
        content is Other ==> !stages(
            has_endpoints,
            content_len,
            max_content,
            content,
            request_id,
            None,
            now,
        ),
        !has_endpoints && content_len <= max_content && !(content is Other) ==> {
            &&& stages(false, content_len, max_content, content, request_id, None, now)
            &&& stages(false, content_len, max_content, content, request_id, Some(prior), now)
                == is_newer(now, request_id, prior.arrived_at, prior.request_id)
        },
{
}

/// Bytes are read as the flight of a device where they are one, else as that of an account,
/// and else as a bare first message.
pub proof fn law_how_flights_are_read(bytes: Seq<u8>, flight: Flight)
    requires
        flight_of(bytes, flight),
    ensures
        flight_in(bytes) is Some ==> (flight matches Flight::Device(device) && device@ == flight_in(
            bytes,
        )->0),
        flight_in(bytes) is None ==> !(flight is Device),
        flight is Bare ==> flight->Bare_0@ == bytes,
        flight_in(bytes) is None && bytes.len() < 4 ==> flight is Bare,
{
}

} // verus!
