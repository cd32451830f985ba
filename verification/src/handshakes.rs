//! An inbound handshake from its arrival to its effect: each step is taken only once the
//! cheaper ones before it have succeeded.

use vstd::prelude::*;

use crate::admission::{
    class_index, sender_gate, AdmissionBudget, AdmissionTransportClass, SenderFacts, SenderGate,
};
use crate::bytes::Id;
use crate::discovery::{DiscoveryState, BUNDLE_TTL_SECS};
use crate::vault::{PrekeyVault, VaultView, MAX_OPKS};

verus! {

/// How far a handshake has come.
#[derive(Clone, Copy, Debug, PartialEq, Eq, Structural)]
pub enum HandshakeStage {
    /// It has just arrived.
    Arrived,
    /// Its proof is being looked at.
    Proving,
    /// Its flight is being opened.
    Opening {
        /// It came with a proof that holds.
        proven: bool,
    },
    /// Its sender is being looked up.
    Identifying {
        /// It came with a proof that holds.
        proven: bool,
    },
    /// The prekeys that it uses are being looked up.
    Selecting {
        /// The sender is a contact.
        known: bool,
    },
    /// It is being answered.
    Responding {
        /// The sender is a contact.
        known: bool,
    },
    /// It is decided.
    Decided,
}

/// What came of the last step.
#[derive(Clone, Copy, Debug, PartialEq, Eq, Structural)]
pub enum HandshakeEvent {
    /// It came in.
    Arrival {
        /// It is wrapped in a proof.
        carries_proof: bool,
        /// Class of the carrier that handed it over.
        transport: AdmissionTransportClass,
        /// The time for first contact in this pass is over.
        time_over: bool,
    },
    /// The proof was looked at.
    Proof {
        /// It holds.
        holds: bool,
    },
    /// The flight was opened and read.
    Opening {
        /// It opened with the key of this device.
        opened: bool,
        /// The bundle that it brings, if any, can be read and verified.
        bundle_valid: bool,
        /// The handshake's first message can be read.
        readable: bool,
        /// The bundle that it brings, if any, is by the one who sent it.
        by_initiator: bool,
    },
    /// The sender was looked up.
    Sender(SenderFacts),
    /// The prekeys were looked up.
    Prekeys {
        /// They are current and still there.
        found: bool,
    },
    /// It was answered.
    Response {
        /// The answer came out.
        succeeded: bool,
    },
}

/// What is to be done next.
#[derive(Clone, Copy, Debug, PartialEq, Eq, Structural)]
pub enum HandshakeAction {
    /// Look at the proof.
    CheckProof,
    /// Open the flight.
    Open,
    /// Look the sender up.
    LookUpSender,
    /// Look the prekeys up.
    SelectPrekeys,
    /// Answer.
    Respond,
    /// Stage a request of an unknown sender.
    Stage,
    /// Install a session with a contact.
    Install,
    /// Retire the envelope.
    Retire,
    /// Leave the envelope for another pass.
    Later,
}

/// What first contact may still cost, as a value.
#[verifier::ext_equal]
pub struct BudgetView {
    /// Candidates left for each class of carrier.
    pub carriers: Seq<usize>,
    /// Puzzles left.
    pub puzzles: int,
    /// Decapsulations left.
    pub kems: int,
    /// Request notifications left.
    pub notifications: int,
}

/// A budget as a value.
pub open spec fn budget_view(budget: AdmissionBudget) -> BudgetView {
    BudgetView {
        carriers: budget.carriers@,
        puzzles: budget.puzzles as int,
        kems: budget.kems as int,
        notifications: budget.notifications as int,
    }
}

/// The event is what the stage waits for.
pub open spec fn expects(stage: HandshakeStage, event: HandshakeEvent) -> bool {
    match stage {
        HandshakeStage::Arrived => event is Arrival,
        HandshakeStage::Proving => event is Proof,
        HandshakeStage::Opening { .. } => event is Opening,
        HandshakeStage::Identifying { proven } => event matches HandshakeEvent::Sender(facts)
            && facts.has_admission == proven,
        HandshakeStage::Selecting { .. } => event is Prekeys,
        HandshakeStage::Responding { .. } => event is Response,
        HandshakeStage::Decided => false,
    }
}

/// The class of carrier has a candidate left and the time is not over.
pub open spec fn open_for(
    budget: BudgetView,
    transport: AdmissionTransportClass,
    time_over: bool,
) -> bool {
    !time_over && budget.carriers[class_index(transport)] > 0
}

/// The stage and the action that follow.
pub open spec fn handshake_next(
    stage: HandshakeStage,
    event: HandshakeEvent,
    budget: BudgetView,
    max_requests: usize,
) -> (HandshakeStage, HandshakeAction) {
    let retire = (HandshakeStage::Decided, HandshakeAction::Retire);
    let later = (HandshakeStage::Decided, HandshakeAction::Later);
    match (stage, event) {
        (
            HandshakeStage::Arrived,
            HandshakeEvent::Arrival { carries_proof, transport, time_over },
        ) => if !carries_proof {
            (HandshakeStage::Opening { proven: false }, HandshakeAction::Open)
        } else if open_for(budget, transport, time_over) && budget.puzzles > 0 {
            (HandshakeStage::Proving, HandshakeAction::CheckProof)
        } else {
            later
        },
        (HandshakeStage::Proving, HandshakeEvent::Proof { holds }) => if holds {
            (HandshakeStage::Opening { proven: true }, HandshakeAction::Open)
        } else {
            retire
        },
        (
            HandshakeStage::Opening { proven },
            HandshakeEvent::Opening { opened, bundle_valid, readable, by_initiator },
        ) => if opened && bundle_valid && readable && by_initiator {
            (HandshakeStage::Identifying { proven }, HandshakeAction::LookUpSender)
        } else {
            retire
        },
        (HandshakeStage::Identifying { .. }, HandshakeEvent::Sender(facts)) => match sender_gate(
            facts,
            max_requests,
            budget.kems as usize,
        ) {
            SenderGate::Drop => retire,
            SenderGate::Later => later,
            SenderGate::Proceed => (
                HandshakeStage::Selecting { known: facts.known },
                HandshakeAction::SelectPrekeys,
            ),
        },
        (HandshakeStage::Selecting { known }, HandshakeEvent::Prekeys { found }) => if found {
            (HandshakeStage::Responding { known }, HandshakeAction::Respond)
        } else {
            retire
        },
        (HandshakeStage::Responding { known }, HandshakeEvent::Response { succeeded }) => if !succeeded {
            retire
        } else if known {
            (HandshakeStage::Decided, HandshakeAction::Install)
        } else {
            (HandshakeStage::Decided, HandshakeAction::Stage)
        },
        _ => retire,
    }
}

/// What is left of the budget.
pub open spec fn budget_next(
    stage: HandshakeStage,
    event: HandshakeEvent,
    budget: BudgetView,
    max_requests: usize,
) -> BudgetView {
    match (stage, event) {
        (
            HandshakeStage::Arrived,
            HandshakeEvent::Arrival { carries_proof, transport, time_over },
        ) => if carries_proof && open_for(budget, transport, time_over) {
            BudgetView {
                carriers: budget.carriers.update(
                    class_index(transport),
                    (budget.carriers[class_index(transport)] - 1) as usize,
                ),
                puzzles: if budget.puzzles > 0 {
                    budget.puzzles - 1
                } else {
                    budget.puzzles
                },
                ..budget
            }
        } else {
            budget
        },
        (HandshakeStage::Identifying { .. }, HandshakeEvent::Sender(facts)) => if !facts.known
            && sender_gate(facts, max_requests, budget.kems as usize) == SenderGate::Proceed {
            BudgetView { kems: budget.kems - 1, ..budget }
        } else {
            budget
        },
        _ => budget,
    }
}

/// Take the next step with an inbound handshake: looking at a proof costs a candidate of the
/// carrier's class and a puzzle, answering someone unknown costs a decapsulation, and every
/// failure retires the envelope for good.
pub fn consume_handshake(
    stage: HandshakeStage,
    event: HandshakeEvent,
    budget: &mut AdmissionBudget,
    max_requests: usize,
) -> (res: (HandshakeStage, HandshakeAction))
    requires
        expects(stage, event),
    ensures
        res == handshake_next(stage, event, budget_view(*old(budget)), max_requests),
        budget_view(*final(budget)) == budget_next(
            stage,
            event,
            budget_view(*old(budget)),
            max_requests,
        ),
{
    let retire = (HandshakeStage::Decided, HandshakeAction::Retire);
    let later = (HandshakeStage::Decided, HandshakeAction::Later);
    match (stage, event) {
        (
            HandshakeStage::Arrived,
            HandshakeEvent::Arrival { carries_proof, transport, time_over },
        ) => {
            if !carries_proof {
                return (HandshakeStage::Opening { proven: false }, HandshakeAction::Open);
            }
            if !budget.begin_admission(transport, time_over) {
                return later;
            }
            (HandshakeStage::Proving, HandshakeAction::CheckProof)
        },
        (HandshakeStage::Proving, HandshakeEvent::Proof { holds }) => {
            if holds {
                (HandshakeStage::Opening { proven: true }, HandshakeAction::Open)
            } else {
                retire
            }
        },
        (
            HandshakeStage::Opening { proven },
            HandshakeEvent::Opening { opened, bundle_valid, readable, by_initiator },
        ) => {
            if opened && bundle_valid && readable && by_initiator {
                (HandshakeStage::Identifying { proven }, HandshakeAction::LookUpSender)
            } else {
                retire
            }
        },
        (HandshakeStage::Identifying { .. }, HandshakeEvent::Sender(facts)) => {
            match budget.gate_sender(facts, max_requests) {
                SenderGate::Drop => retire,
                SenderGate::Later => later,
                SenderGate::Proceed => (
                    HandshakeStage::Selecting { known: facts.known },
                    HandshakeAction::SelectPrekeys,
                ),
            }
        },
        (HandshakeStage::Selecting { known }, HandshakeEvent::Prekeys { found }) => {
            if found {
                (HandshakeStage::Responding { known }, HandshakeAction::Respond)
            } else {
                retire
            }
        },
        (HandshakeStage::Responding { known }, HandshakeEvent::Response { succeeded }) => {
            if !succeeded {
                retire
            } else if known {
                (HandshakeStage::Decided, HandshakeAction::Install)
            } else {
                (HandshakeStage::Decided, HandshakeAction::Stage)
            }
        },
        _ => retire,
    }
}

// ---- Whole runs ----

/// Where a handshake stands after the first `n` events, with the last action and what is
/// left of the budget.
pub open spec fn run(
    events: Seq<HandshakeEvent>,
    n: int,
    budget: BudgetView,
    max_requests: usize,
) -> (HandshakeStage, HandshakeAction, BudgetView)
    decreases n,
{
    if n <= 0 {
        (HandshakeStage::Arrived, HandshakeAction::Later, budget)
    } else {
        let (stage, _, left) = run(events, n - 1, budget, max_requests);
        let (next, action) = handshake_next(stage, events[n - 1], left, max_requests);
        (next, action, budget_next(stage, events[n - 1], left, max_requests))
    }
}

/// Every event is what its stage waits for.
pub open spec fn is_run(
    events: Seq<HandshakeEvent>,
    n: int,
    budget: BudgetView,
    max_requests: usize,
) -> bool
    decreases n,
{
    n <= 0 || (is_run(events, n - 1, budget, max_requests) && expects(
        run(events, n - 1, budget, max_requests).0,
        events[n - 1],
    ))
}

/// What has been paid when a stage is reached.
pub open spec fn paid(stage: HandshakeStage, before: BudgetView, left: BudgetView) -> bool {
    match stage {
        HandshakeStage::Arrived => left == before,
        HandshakeStage::Proving => left.puzzles == before.puzzles - 1 && left.kems == before.kems,
        HandshakeStage::Opening { proven } | HandshakeStage::Identifying { proven } => {
            &&& left.kems == before.kems
            &&& left.puzzles == if proven {
                before.puzzles - 1
            } else {
                before.puzzles
            }
        },
        HandshakeStage::Selecting { known } | HandshakeStage::Responding { known } => !known ==> {
            &&& left.puzzles == before.puzzles - 1
            &&& left.kems == before.kems - 1
        },
        HandshakeStage::Decided => true,
    }
}

proof fn lemma_paid(
    events: Seq<HandshakeEvent>,
    n: int,
    budget: BudgetView,
    max_requests: usize,
)
    requires
        0 <= n <= events.len(),
        is_run(events, n, budget, max_requests),
    ensures
        paid(
            run(events, n, budget, max_requests).0,
            budget,
            run(events, n, budget, max_requests).2,
        ),
    decreases n,
{
    if n > 0 {
        lemma_paid(events, n - 1, budget, max_requests);
    }
}

/// Whoever is not a contact is answered, and then gets a request staged, only at the price of
/// exactly one puzzle and one decapsulation of the pass's budget.
pub proof fn law_strangers_pay_for_attention(
    events: Seq<HandshakeEvent>,
    budget: BudgetView,
    max_requests: usize,
)
    requires
        is_run(events, events.len() as int, budget, max_requests),
        ({
            let (stage, action, _) = run(events, events.len() as int, budget, max_requests);
            stage == (HandshakeStage::Responding { known: false }) || action
                == HandshakeAction::Stage
        }),
        events.len() > 0,
    ensures
        run(events, events.len() as int, budget, max_requests).2.puzzles == budget.puzzles - 1,
        run(events, events.len() as int, budget, max_requests).2.kems == budget.kems - 1,
{
    let n = events.len() as int;
    lemma_paid(events, n, budget, max_requests);
    lemma_paid(events, n - 1, budget, max_requests);
}

/// A handshake ends after at most six steps.
pub proof fn law_handshakes_end(
    events: Seq<HandshakeEvent>,
    budget: BudgetView,
    max_requests: usize,
)
    requires
        is_run(events, events.len() as int, budget, max_requests),
    ensures
        events.len() <= 6,
{
    if events.len() > 6 {
        lemma_progress(events, 6, budget, max_requests);
        lemma_prefix_is_run(events, 7, events.len() as int, budget, max_requests);
    }
}

/// Steps that a stage has behind it at least.
spec fn depth(stage: HandshakeStage) -> int {
    match stage {
        HandshakeStage::Arrived => 0,
        HandshakeStage::Proving => 1,
        HandshakeStage::Opening { .. } => 2,
        HandshakeStage::Identifying { .. } => 3,
        HandshakeStage::Selecting { .. } => 4,
        HandshakeStage::Responding { .. } => 5,
        HandshakeStage::Decided => 6,
    }
}

proof fn lemma_prefix_is_run(
    events: Seq<HandshakeEvent>,
    k: int,
    n: int,
    budget: BudgetView,
    max_requests: usize,
)
    requires
        0 <= k <= n,
        is_run(events, n, budget, max_requests),
    ensures
        is_run(events, k, budget, max_requests),
    decreases n,
{
    if k < n {
        lemma_prefix_is_run(events, k, n - 1, budget, max_requests);
    }
}

proof fn lemma_progress(
    events: Seq<HandshakeEvent>,
    n: int,
    budget: BudgetView,
    max_requests: usize,
)
    requires
        0 <= n <= events.len(),
        is_run(events, events.len() as int, budget, max_requests),
    ensures
        depth(run(events, n, budget, max_requests).0) >= n,
    decreases n,
{
    if n > 0 {
        lemma_prefix_is_run(events, n, events.len() as int, budget, max_requests);
        lemma_progress(events, n - 1, budget, max_requests);
    }
}

// ---- Prekeys ----

/// What a prekey bundle that is handed to a prospective contact says.
#[derive(Clone, Copy, Debug, PartialEq, Eq)]
pub struct BundleTerms {
    /// Its one-time prekey, used in no other bundle.
    pub opk_id: u32,
    /// Until when it can be used.
    pub expires_at: u64,
    /// Capability behind the connect code.
    pub capability: Id,
    /// Generation of that capability.
    pub generation: u64,
}

/// Make a prekey bundle to hand to a prospective contact. Each takes a fresh one-time prekey,
/// of which `secret` is the newly drawn secret. The vault is a copy that comes into use once it
/// was recorded.
pub fn handshake_bundle(
    vault: &mut PrekeyVault,
    state: &DiscoveryState,
    secret: [u8; 32],
    now: u64,
) -> (res: BundleTerms)
    requires
        now <= u64::MAX - BUNDLE_TTL_SECS,
    ensures
        res == (BundleTerms {
            opk_id: old(vault)@.next_opk_id,
            expires_at: (now + BUNDLE_TTL_SECS) as u64,
            capability: state.capability,
            generation: state.generation,
        }),
        final(vault)@ == (VaultView {
            opks: {
                let all = old(vault)@.opks.push((res.opk_id, secret@));
                if all.len() > MAX_OPKS {
                    all.skip(1)
                } else {
                    all
                }
            },
            next_opk_id: old(vault)@.next_opk_id.wrapping_add(1),
            ..old(vault)@
        }),
        old(vault).bounded() ==> final(vault).bounded(),
{
    BundleTerms {
        opk_id: vault.fresh_opk(secret),
        expires_at: now + BUNDLE_TTL_SECS,
        capability: state.capability,
        generation: state.generation,
    }
}

/// The vault once a handshake has used a one-time prekey.
pub open spec fn vault_after(vault: VaultView, opk_id: Option<u32>) -> VaultView {
    match opk_id {
        Some(id) => VaultView {
            opks: vault.opks.filter(|o: (u32, Seq<u8>)| o.0 != id),
            ..vault
        },
        None => vault,
    }
}

/// Give up the one-time prekey that a handshake used. The result says whether the vault is
/// to be stored again, which using an invitation asks for too.
pub fn spend_prekeys(vault: &mut PrekeyVault, opk_id: Option<u32>, by_invitation: bool) -> (res:
    bool)
    ensures
        final(vault)@ == vault_after(old(vault)@, opk_id),
        old(vault).bounded() ==> final(vault).bounded(),
        res == (opk_id is Some || by_invitation),
{
    if let Some(id) = opk_id {
        vault.remove_opk(id);
    }
    opk_id.is_some() || by_invitation
}

/// A one-time prekey answers one handshake: afterwards it is gone, and the others are still
/// there.
pub proof fn law_one_time_prekeys_are_used_once(vault: VaultView, id: u32, k: int)
    requires
        0 <= k < vault.opks.len(),
    ensures
        forall|j: int|
            0 <= j < vault_after(vault, Some(id)).opks.len() ==> (#[trigger] vault_after(
                vault,
                Some(id),
            ).opks[j]).0 != id,
        vault.opks[k].0 != id ==> vault_after(vault, Some(id)).opks.contains(vault.opks[k]),
{
    crate::vault::law_removed_opk_is_gone(vault.opks, id);
    let keep = |o: (u32, Seq<u8>)| o.0 != id;
    if vault.opks[k].0 != id {
        vault.opks.lemma_filter_contains(keep, k);
    }
}

// ---- Laws of single steps ----

/// What carries no proof is opened at once; a proof is checked while the carrier's allowance,
/// the time and the allowance of puzzles last, and waits otherwise.
pub proof fn law_arrivals(
    transport: AdmissionTransportClass,
    time_over: bool,
    budget: BudgetView,
    max_requests: usize,
)
    ensures
        handshake_next(
            HandshakeStage::Arrived,
            HandshakeEvent::Arrival { carries_proof: false, transport, time_over },
            budget,
            max_requests,
        ) == (HandshakeStage::Opening { proven: false }, HandshakeAction::Open),
        budget_next(
            HandshakeStage::Arrived,
            HandshakeEvent::Arrival { carries_proof: false, transport, time_over },
            budget,
            max_requests,
        ) == budget,
        ({
            let event = HandshakeEvent::Arrival { carries_proof: true, transport, time_over };
            let next = handshake_next(HandshakeStage::Arrived, event, budget, max_requests);
            let left = budget.carriers[class_index(transport)];
            &&& !time_over && left > 0 && budget.puzzles > 0 ==> next == (
                HandshakeStage::Proving,
                HandshakeAction::CheckProof,
            )
            &&& time_over || left == 0 || budget.puzzles <= 0 ==> next == (
                HandshakeStage::Decided,
                HandshakeAction::Later,
            )
            &&& time_over || left == 0 ==> budget_next(
                HandshakeStage::Arrived,
                event,
                budget,
                max_requests,
            ) == budget
        }),
{
}

/// A proof that does not hold ends the handshake; what does not open, has no valid bundle, is
/// not readable or is not the initiator's own ends it too.
pub proof fn law_failed_steps_retire(
    proven: bool,
    known: bool,
    opened: bool,
    bundle_valid: bool,
    readable: bool,
    by_initiator: bool,
    budget: BudgetView,
    max_requests: usize,
)
    ensures
        handshake_next(
            HandshakeStage::Proving,
            HandshakeEvent::Proof { holds: false },
            budget,
            max_requests,
        ) == (HandshakeStage::Decided, HandshakeAction::Retire),
        handshake_next(
            HandshakeStage::Proving,
            HandshakeEvent::Proof { holds: true },
            budget,
            max_requests,
        ) == (HandshakeStage::Opening { proven: true }, HandshakeAction::Open),
        ({
            let next = handshake_next(
                HandshakeStage::Opening { proven },
                HandshakeEvent::Opening { opened, bundle_valid, readable, by_initiator },
                budget,
                max_requests,
            );
            &&& opened && bundle_valid && readable && by_initiator ==> next == (
                HandshakeStage::Identifying { proven },
                HandshakeAction::LookUpSender,
            )
            &&& !opened || !bundle_valid || !readable || !by_initiator ==> next == (
                HandshakeStage::Decided,
                HandshakeAction::Retire,
            )
        }),
        handshake_next(
            HandshakeStage::Selecting { known },
            HandshakeEvent::Prekeys { found: false },
            budget,
            max_requests,
        ) == (HandshakeStage::Decided, HandshakeAction::Retire),
        handshake_next(
            HandshakeStage::Selecting { known },
            HandshakeEvent::Prekeys { found: true },
            budget,
            max_requests,
        ) == (HandshakeStage::Responding { known }, HandshakeAction::Respond),
        handshake_next(
            HandshakeStage::Responding { known },
            HandshakeEvent::Response { succeeded: false },
            budget,
            max_requests,
        ) == (HandshakeStage::Decided, HandshakeAction::Retire),
{
}

/// A finished handshake of a contact is installed; that of a stranger is put before the user.
pub proof fn law_strangers_are_staged(budget: BudgetView, max_requests: usize)
    ensures
        handshake_next(
            HandshakeStage::Responding { known: true },
            HandshakeEvent::Response { succeeded: true },
            budget,
            max_requests,
        ) == (HandshakeStage::Decided, HandshakeAction::Install),
        handshake_next(
            HandshakeStage::Responding { known: false },
            HandshakeEvent::Response { succeeded: true },
            budget,
            max_requests,
        ) == (HandshakeStage::Decided, HandshakeAction::Stage),
{
}

/// The sender decides whether prekeys are spent: a refused one ends the handshake, one that
/// must wait waits, and only a stranger who proceeds uses up an allowance.
pub proof fn law_senders_decide(
    proven: bool,
    facts: SenderFacts,
    budget: BudgetView,
    max_requests: usize,
)
    ensures
        ({
            let stage = HandshakeStage::Identifying { proven };
            let event = HandshakeEvent::Sender(facts);
            let gate = sender_gate(facts, max_requests, budget.kems as usize);
            let next = handshake_next(stage, event, budget, max_requests);
            let left = budget_next(stage, event, budget, max_requests);
            &&& gate == SenderGate::Drop ==> next == (
                HandshakeStage::Decided,
                HandshakeAction::Retire,
            )
            &&& gate == SenderGate::Later ==> next == (
                HandshakeStage::Decided,
                HandshakeAction::Later,
            )
            &&& gate == SenderGate::Proceed ==> next == (
                HandshakeStage::Selecting { known: facts.known },
                HandshakeAction::SelectPrekeys,
            )
            &&& facts.known || gate != SenderGate::Proceed ==> left == budget
            &&& !facts.known && gate == SenderGate::Proceed ==> {
                &&& left.kems == budget.kems - 1
                &&& left.puzzles == budget.puzzles
                &&& left.carriers == budget.carriers
            }
        }),
{
}

} // verus!
