//! Opening a profile, and moving it to another authority.

use vstd::prelude::*;

use crate::bytes::{same, same_bytes, zero_id, Id};
use crate::discovery::DiscoveryState;
use crate::error::{NodeError, Result};
use crate::establish::DeviceEntry;
use crate::records::Event;

verus! {

/// The devices of a profile with the former layout.
#[derive(Clone, Copy, Debug, PartialEq, Eq)]
pub struct FormerState {
    /// Devices in its manifest.
    pub devices: usize,
    /// Channels between them.
    pub channels: usize,
}

/// The account's root was copied to other devices.
pub open spec fn was_copied(state: FormerState) -> bool {
    state.devices > 1 || state.channels > 0
}

/// Whether a profile can be opened as it is: one of the former layout has to be migrated, or
/// reset where its root was copied.
pub fn check_layout(former_root: bool, state: Option<FormerState>) -> (res: Result<()>)
    ensures
        match res {
            Ok(_) => !former_root,
            Err(e) => former_root && e == if state is Some && was_copied(state->0) {
                NodeError::AuthorityResetRequired
            } else {
                NodeError::AuthorityMigrationRequired
            },
        },
{
    if !former_root {
        return Ok(());
    }
    match state {
        Some(s) => if s.devices > 1 || s.channels > 0 {
            Err(NodeError::AuthorityResetRequired)
        } else {
            Err(NodeError::AuthorityMigrationRequired)
        },
        None => Err(NodeError::AuthorityMigrationRequired),
    }
}

/// A profile that exactly one device ever had.
pub open spec fn is_single(state: FormerState) -> bool {
    state.devices == 1 && state.channels == 0
}

/// Whether a migration can be prepared.
pub fn prepare_authority_migration(has_root: bool, state: Option<FormerState>) -> (res: Result<()>)
    ensures
        match res {
            Ok(_) => has_root && state is Some && is_single(state->0),
            Err(e) => if !has_root || state is None {
                e == NodeError::CorruptState
            } else {
                !is_single(state->0) && e == NodeError::AuthorityResetRequired
            },
        },
{
    if !has_root {
        return Err(NodeError::CorruptState);
    }
    match state {
        None => Err(NodeError::CorruptState),
        Some(s) => if s.devices != 1 || s.channels != 0 {
            Err(NodeError::AuthorityResetRequired)
        } else {
            Ok(())
        },
    }
}

/// How a change of authority goes on.
#[derive(Clone, Copy, Debug, PartialEq, Eq, Structural)]
pub enum AuthorityStep {
    /// It was done before: the profile is opened.
    AlreadyDone,
    /// It is done now.
    Proceed,
}

/// How completing a migration goes on. `opened` is the account that the recovery file opens,
/// `root` that of the profile's root, where there is one, `account` that of a profile that
/// was migrated before. A profile without prekeys is not whole.
pub open spec fn migration_step(
    opened: Id,
    root: Option<Id>,
    account: Option<Id>,
    state: Option<FormerState>,
    has_prekeys: bool,
) -> std::result::Result<AuthorityStep, NodeError> {
    match root {
        None => match account {
            None => Err(NodeError::CorruptState),
            Some(account) => if opened != account {
                Err(NodeError::RecoveryAuthorityRequired)
            } else if !has_prekeys {
                Err(NodeError::CorruptState)
            } else {
                Ok(AuthorityStep::AlreadyDone)
            },
        },
        Some(root) => match state {
            None => Err(NodeError::CorruptState),
            Some(state) => if !is_single(state) {
                Err(NodeError::AuthorityResetRequired)
            } else if opened != root {
                Err(NodeError::RecoveryAuthorityRequired)
            } else if !has_prekeys {
                Err(NodeError::CorruptState)
            } else {
                Ok(AuthorityStep::Proceed)
            },
        },
    }
}

/// How completing a migration goes on.
pub fn complete_authority_migration(
    opened: Id,
    root: Option<Id>,
    account: Option<Id>,
    state: Option<FormerState>,
    has_prekeys: bool,
) -> (res: Result<AuthorityStep>)
    ensures
        res == migration_step(opened, root, account, state, has_prekeys),
{
    match root {
        None => match account {
            None => Err(NodeError::CorruptState),
            Some(account) => if !same(&opened, &account) {
                Err(NodeError::RecoveryAuthorityRequired)
            } else if !has_prekeys {
                Err(NodeError::CorruptState)
            } else {
                Ok(AuthorityStep::AlreadyDone)
            },
        },
        Some(root) => match state {
            None => Err(NodeError::CorruptState),
            Some(state) => if state.devices != 1 || state.channels != 0 {
                Err(NodeError::AuthorityResetRequired)
            } else if !same(&opened, &root) {
                Err(NodeError::RecoveryAuthorityRequired)
            } else if !has_prekeys {
                Err(NodeError::CorruptState)
            } else {
                Ok(AuthorityStep::Proceed)
            },
        },
    }
}

/// How completing a reset goes on. `recorded` is the new account of the reset that the
/// profile has on record. A profile that was reset before has prekeys; one that is reset now
/// gets new ones.
pub open spec fn reset_step(
    opened: Id,
    root: Option<Id>,
    account: Option<Id>,
    recorded: Option<Id>,
    has_state: bool,
    has_prekeys: bool,
) -> std::result::Result<AuthorityStep, NodeError> {
    match root {
        None => match (account, recorded) {
            (None, _) => Err(NodeError::CorruptState),
            (Some(_), None) => Err(NodeError::RecoveryAuthorityRequired),
            (Some(account), Some(recorded)) => if account != opened || recorded != account {
                Err(NodeError::RecoveryAuthorityRequired)
            } else if !has_prekeys {
                Err(NodeError::CorruptState)
            } else {
                Ok(AuthorityStep::AlreadyDone)
            },
        },
        Some(root) => if !has_state {
            Err(NodeError::CorruptState)
        } else if root == opened {
            Err(NodeError::AuthorityResetRequired)
        } else {
            Ok(AuthorityStep::Proceed)
        },
    }
}

/// How completing a reset goes on: the new account has to be another one.
pub fn complete_authority_reset(
    opened: Id,
    root: Option<Id>,
    account: Option<Id>,
    recorded: Option<Id>,
    has_state: bool,
    has_prekeys: bool,
) -> (res: Result<AuthorityStep>)
    ensures
        res == reset_step(opened, root, account, recorded, has_state, has_prekeys),
{
    match root {
        None => match account {
            None => Err(NodeError::CorruptState),
            Some(account) => match recorded {
                None => Err(NodeError::RecoveryAuthorityRequired),
                Some(recorded) => if !same(&account, &opened) || !same(&recorded, &account) {
                    Err(NodeError::RecoveryAuthorityRequired)
                } else if !has_prekeys {
                    Err(NodeError::CorruptState)
                } else {
                    Ok(AuthorityStep::AlreadyDone)
                },
            },
        },
        Some(root) => if !has_state {
            Err(NodeError::CorruptState)
        } else if same(&root, &opened) {
            Err(NodeError::AuthorityResetRequired)
        } else {
            Ok(AuthorityStep::Proceed)
        },
    }
}

/// Whether a reset can be prepared: of a profile that still holds its root, to an account that
/// is not the one it had. `minted` is the new account.
pub fn prepare_authority_reset(root: Option<Id>, has_state: bool, minted: Id) -> (res: Result<()>)
    ensures
        match res {
            Ok(_) => root is Some && has_state && minted != root->0,
            Err(e) => (root is None || !has_state || minted == root->0) && e
                == NodeError::CorruptState,
        },
{
    match root {
        Some(root) => if !has_state || same(&minted, &root) {
            Err(NodeError::CorruptState)
        } else {
            Ok(())
        },
        None => Err(NodeError::CorruptState),
    }
}

// ---- What was recorded ----

/// What the records say once a migration was recorded: the root is gone, and the account and
/// the state of this device are those that were to be recorded.
pub open spec fn migration_recorded(
    root_left: bool,
    account: Id,
    recorded_account: Option<Id>,
    state: Seq<u8>,
    recorded_state: Option<Vec<u8>>,
) -> bool {
    &&& !root_left
    &&& recorded_account == Some(account)
    &&& recorded_state is Some && recorded_state->0@ == state
}

/// Hold a recorded migration against what was to be recorded. States of the device are
/// compared as they are encoded.
pub fn confirm_migration(
    root_left: bool,
    account: Id,
    recorded_account: Option<Id>,
    state: &Vec<u8>,
    recorded_state: &Option<Vec<u8>>,
) -> (res: Result<()>)
    ensures
        ({
            let right = migration_recorded(
                root_left,
                account,
                recorded_account,
                state@,
                *recorded_state,
            );
            match res {
                Ok(_) => right,
                Err(e) => !right && e == NodeError::CorruptState,
            }
        }),
{
    if root_left || !is_account(&recorded_account, &account) {
        return Err(NodeError::CorruptState);
    }
    match recorded_state {
        Some(recorded) => if same_bytes(recorded, state) {
            Ok(())
        } else {
            Err(NodeError::CorruptState)
        },
        None => Err(NodeError::CorruptState),
    }
}

fn is_account(recorded: &Option<Id>, account: &Id) -> (res: bool)
    ensures
        res == (*recorded == Some(*account)),
{
    match recorded {
        Some(recorded) => same(recorded, account),
        None => false,
    }
}

/// Hold a recorded reset against what was to be recorded: it leads from the one account to
/// the other, and the root is gone.
pub fn confirm_reset(
    root_left: bool,
    former: Id,
    account: Id,
    recorded_former: Id,
    recorded_account: Id,
) -> (res: Result<()>)
    ensures
        match res {
            Ok(_) => !root_left && recorded_former == former && recorded_account == account,
            Err(e) => (root_left || recorded_former != former || recorded_account != account) && e
                == NodeError::CorruptState,
        },
{
    if root_left || !same(&recorded_former, &former) || !same(&recorded_account, &account) {
        return Err(NodeError::CorruptState);
    }
    Ok(())
}

/// Hold a former backup that was restored with a reset against what was to be recorded: the
/// reset leads to the new account, which is the profile's, and no root came with it.
pub fn confirm_restored_reset(
    root_left: bool,
    account: Id,
    reset_account: Id,
    recorded_account: Option<Id>,
) -> (res: Result<()>)
    ensures
        match res {
            Ok(_) => !root_left && reset_account == account && recorded_account == Some(account),
            Err(e) => (root_left || reset_account != account || recorded_account != Some(account))
                && e == NodeError::CorruptState,
        },
{
    if root_left || !same(&reset_account, &account) || !is_account(&recorded_account, &account) {
        return Err(NodeError::CorruptState);
    }
    Ok(())
}

/// Completing a migration once more after it was confirmed finds it done.
pub proof fn law_confirmed_migrations_can_be_repeated(
    account: Id,
    recorded_account: Option<Id>,
    state: Seq<u8>,
    recorded_state: Option<Vec<u8>>,
    former: Option<FormerState>,
)
    requires
        migration_recorded(false, account, recorded_account, state, recorded_state),
    ensures
        migration_step(account, None, recorded_account, former, true) == Ok::<
            AuthorityStep,
            NodeError,
        >(AuthorityStep::AlreadyDone),
{
}

/// A migration keeps the account: it goes on only with the recovery file of the profile's
/// own root.
pub proof fn law_migration_keeps_the_account(
    opened: Id,
    root: Id,
    account: Option<Id>,
    state: Option<FormerState>,
    has_prekeys: bool,
)
    requires
        migration_step(opened, Some(root), account, state, has_prekeys) is Ok,
    ensures
        opened == root,
{
}

/// A reset never keeps the account: it goes on only with another one.
pub proof fn law_reset_changes_the_account(
    opened: Id,
    root: Id,
    account: Option<Id>,
    recorded: Option<Id>,
    has_state: bool,
    has_prekeys: bool,
)
    requires
        reset_step(opened, Some(root), account, recorded, has_state, has_prekeys) is Ok,
    ensures
        opened != root,
{
}

// ---- Starting ----

/// There is no connect code yet.
pub open spec fn has_no_code(state: DiscoveryState) -> bool {
    state.capability == zero_id()
}

/// Give a profile its first connect code, where it has none. `minted` is a newly drawn
/// capability. True says that the state has to be persisted.
pub fn first_connect_code(state: &mut DiscoveryState, minted: Id) -> (res: bool)
    ensures
        res == has_no_code(*old(state)),
        *final(state) == if res {
            DiscoveryState { capability: minted, generation: 1, legacy_v1_enabled: true }
        } else {
            *old(state)
        },
{
    let zeros: Id = [0u8; 32];
    if same(&state.capability, &zeros) {
        *state = DiscoveryState { capability: minted, generation: 1, legacy_v1_enabled: true };
        true
    } else {
        false
    }
}

/// A contact, as far as sessions depend on it.
#[derive(Clone, Copy, Debug, PartialEq, Eq)]
pub struct ContactEntry {
    /// The account.
    pub peer: Id,
    /// A session with the account itself is on record.
    pub has_session: bool,
}

/// The devices among the first `n` whose sessions are taken up.
pub open spec fn device_sessions(entries: Seq<DeviceEntry>, n: int) -> Seq<Id>
    decreases n,
{
    if n <= 0 {
        Seq::empty()
    } else if !entries[n - 1].revoked && entries[n - 1].has_session {
        device_sessions(entries, n - 1).push(entries[n - 1].device)
    } else {
        device_sessions(entries, n - 1)
    }
}

/// A device of that identity is on record.
pub open spec fn has_device(entries: Seq<DeviceEntry>, device: Id) -> bool {
    exists|i: int| 0 <= i < entries.len() && (#[trigger] entries[i]).device == device
}

/// The accounts among the first `n` contacts whose sessions are taken up: those that no
/// device is on record for.
pub open spec fn contact_sessions(
    entries: Seq<DeviceEntry>,
    contacts: Seq<ContactEntry>,
    n: int,
) -> Seq<Id>
    decreases n,
{
    if n <= 0 {
        Seq::empty()
    } else {
        let prior = contact_sessions(entries, contacts, n - 1);
        if contacts[n - 1].has_session && !has_device(entries, contacts[n - 1].peer) {
            prior.push(contacts[n - 1].peer)
        } else {
            prior
        }
    }
}

fn is_device(entries: &Vec<DeviceEntry>, device: &Id) -> (res: bool)
    ensures
        res == has_device(entries@, *device),
{
    let mut i: usize = 0;
    while i < entries.len()
        invariant
            i <= entries@.len(),
            forall|k: int| 0 <= k < i ==> (#[trigger] entries@[k]).device != *device,
        decreases entries@.len() - i,
    {
        if same(&entries[i].device, device) {
            assert(entries@[i as int].device == *device);
            return true;
        }
        i = i + 1;
    }
    false
}

/// The sessions that are taken up at a start: those of live devices, and those of contacts
/// of which no device is on record.
pub fn sessions_to_load(entries: &Vec<DeviceEntry>, contacts: &Vec<ContactEntry>) -> (res: Vec<Id>)
    ensures
        res@ == device_sessions(entries@, entries@.len() as int) + contact_sessions(
            entries@,
            contacts@,
            contacts@.len() as int,
        ),
{
    let mut out: Vec<Id> = Vec::new();
    let mut i: usize = 0;
    while i < entries.len()
        invariant
            i <= entries@.len(),
            out@ == device_sessions(entries@, i as int),
        decreases entries@.len() - i,
    {
        if !entries[i].revoked && entries[i].has_session {
            out.push(entries[i].device);
        }
        i = i + 1;
    }
    let ghost first = out@;
    let mut c: usize = 0;
    assert(first + contact_sessions(entries@, contacts@, 0) =~= first);
    while c < contacts.len()
        invariant
            c <= contacts@.len(),
            out@ == first + contact_sessions(entries@, contacts@, c as int),
        decreases contacts@.len() - c,
    {
        if contacts[c].has_session && !is_device(entries, &contacts[c].peer) {
            out.push(contacts[c].peer);
        }
        assert(out@ =~= first + contact_sessions(entries@, contacts@, c + 1));
        c = c + 1;
    }
    out
}

/// Sessions with revoked devices are not taken up again.
pub proof fn law_revoked_devices_have_no_session(entries: Seq<DeviceEntry>, n: int, k: int)
    requires
        0 <= n <= entries.len(),
        0 <= k < device_sessions(entries, n).len(),
    ensures
        exists|i: int|
            0 <= i < n && (#[trigger] entries[i]).device == device_sessions(entries, n)[k]
                && !entries[i].revoked,
    decreases n,
{
    if n > 0 {
        let prior = device_sessions(entries, n - 1);
        if k < prior.len() {
            law_revoked_devices_have_no_session(entries, n - 1, k);
        } else {
            assert(entries[n - 1].device == device_sessions(entries, n)[k]);
        }
    }
}

/// The conflicts that a session has on record.
pub struct SessionConflicts {
    /// Account of the peer.
    pub peer: Id,
    /// Device of the peer.
    pub device: Id,
    /// The peer's provider sets contradict each other.
    pub provider_set: bool,
    /// Providers that contradict themselves.
    pub providers: Vec<Id>,
    /// The generation in which wake capabilities contradict each other.
    pub wake: Option<u64>,
}

/// What is told of a session's providers, for the first `n` of them.
pub open spec fn provider_events(s: SessionConflicts, n: int) -> Seq<Event>
    decreases n,
{
    if n <= 0 {
        if s.provider_set {
            seq![
                Event::RendezvousConflict {
                    peer: s.peer,
                    device: s.device,
                    provider: zero_id(),
                },
            ]
        } else {
            Seq::empty()
        }
    } else {
        provider_events(s, n - 1).push(
            Event::RendezvousConflict {
                peer: s.peer,
                device: s.device,
                provider: s.providers@[n - 1],
            },
        )
    }
}

/// What is told of the providers of the first `n` sessions.
pub open spec fn rendezvous_events(sessions: Seq<SessionConflicts>, n: int) -> Seq<Event>
    decreases n,
{
    if n <= 0 {
        Seq::empty()
    } else {
        rendezvous_events(sessions, n - 1) + provider_events(
            sessions[n - 1],
            sessions[n - 1].providers@.len() as int,
        )
    }
}

/// What is told of the wake capabilities of the first `n` sessions.
pub open spec fn wake_events(sessions: Seq<SessionConflicts>, n: int) -> Seq<Event>
    decreases n,
{
    if n <= 0 {
        Seq::empty()
    } else {
        let prior = wake_events(sessions, n - 1);
        match sessions[n - 1].wake {
            Some(generation) => prior.push(
                Event::WakeConflict {
                    peer: sessions[n - 1].peer,
                    device: sessions[n - 1].device,
                    generation,
                },
            ),
            None => prior,
        }
    }
}

/// What is told at a start of conflicts on record.
pub fn conflict_events(sessions: &Vec<SessionConflicts>) -> (res: Vec<Event>)
    ensures
        res@ == rendezvous_events(sessions@, sessions@.len() as int) + wake_events(
            sessions@,
            sessions@.len() as int,
        ),
{
    let mut out: Vec<Event> = Vec::new();
    let mut i: usize = 0;
    while i < sessions.len()
        invariant
            i <= sessions@.len(),
            out@ == rendezvous_events(sessions@, i as int),
        decreases sessions@.len() - i,
    {
        let s = &sessions[i];
        let ghost before = out@;
        if s.provider_set {
            out.push(
                Event::RendezvousConflict { peer: s.peer, device: s.device, provider: [0u8; 32] },
            );
        }
        assert(out@ =~= before + provider_events(*s, 0));
        let mut k: usize = 0;
        while k < s.providers.len()
            invariant
                k <= s.providers@.len(),
                out@ == before + provider_events(*s, k as int),
            decreases s.providers@.len() - k,
        {
            out.push(
                Event::RendezvousConflict {
                    peer: s.peer,
                    device: s.device,
                    provider: s.providers[k],
                },
            );
            assert(out@ =~= before + provider_events(*s, k + 1));
            k = k + 1;
        }
        i = i + 1;
    }
    let ghost first = out@;
    let mut j: usize = 0;
    assert(first + wake_events(sessions@, 0) =~= first);
    while j < sessions.len()
        invariant
            j <= sessions@.len(),
            out@ == first + wake_events(sessions@, j as int),
        decreases sessions@.len() - j,
    {
        if let Some(generation) = sessions[j].wake {
            out.push(
                Event::WakeConflict {
                    peer: sessions[j].peer,
                    device: sessions[j].device,
                    generation,
                },
            );
        }
        assert(out@ =~= first + wake_events(sessions@, j + 1));
        j = j + 1;
    }
    out
}

// ---- Laws ----

/// A state is single when it has exactly one device and no channels; more devices or any
/// channel mean that it was copied.
pub proof fn law_former_states(state: FormerState)
    ensures
        is_single(state) <==> state.devices == 1 && state.channels == 0,
        state.devices >= 2 ==> was_copied(state),
        state.channels >= 1 ==> was_copied(state),
        state.devices <= 1 && state.channels == 0 ==> !was_copied(state),
        !(is_single(state) && was_copied(state)),
{
}

/// A migration goes on only of the own root, with one single state and prekeys; done before,
/// it is recognised by its account.
pub proof fn law_migration_steps(
    opened: Id,
    root: Id,
    account: Id,
    kept: Option<Id>,
    state: FormerState,
    former: Option<FormerState>,
    has_prekeys: bool,
)
    ensures
        migration_step(opened, None, None, former, has_prekeys) == Err::<AuthorityStep, NodeError>(
            NodeError::CorruptState,
        ),
        opened != account ==> migration_step(opened, None, Some(account), former, has_prekeys)
            == Err::<AuthorityStep, NodeError>(NodeError::RecoveryAuthorityRequired),
        migration_step(account, None, Some(account), former, true) == Ok::<
            AuthorityStep,
            NodeError,
        >(AuthorityStep::AlreadyDone),
        migration_step(account, None, Some(account), former, false) == Err::<
            AuthorityStep,
            NodeError,
        >(NodeError::CorruptState),
        migration_step(opened, Some(root), kept, None, has_prekeys) == Err::<
            AuthorityStep,
            NodeError,
        >(NodeError::CorruptState),
        !is_single(state) ==> migration_step(opened, Some(root), kept, Some(state), has_prekeys)
            == Err::<AuthorityStep, NodeError>(NodeError::AuthorityResetRequired),
        is_single(state) && opened != root ==> migration_step(
            opened,
            Some(root),
            kept,
            Some(state),
            has_prekeys,
        ) == Err::<AuthorityStep, NodeError>(NodeError::RecoveryAuthorityRequired),
        is_single(state) ==> migration_step(root, Some(root), kept, Some(state), false) == Err::<
            AuthorityStep,
            NodeError,
        >(NodeError::CorruptState),
        is_single(state) ==> migration_step(root, Some(root), kept, Some(state), true) == Ok::<
            AuthorityStep,
            NodeError,
        >(AuthorityStep::Proceed),
{
}

/// A reset goes on only to another root; done before, it is recognised by the account that
/// was recorded.
pub proof fn law_reset_steps(
    opened: Id,
    root: Id,
    account: Id,
    recorded: Id,
    kept: Option<Id>,
    record: Option<Id>,
    has_state: bool,
    has_prekeys: bool,
)
    ensures
        reset_step(opened, None, None, record, has_state, has_prekeys) == Err::<
            AuthorityStep,
            NodeError,
        >(NodeError::CorruptState),
        reset_step(opened, None, Some(account), None, has_state, has_prekeys) == Err::<
            AuthorityStep,
            NodeError,
        >(NodeError::RecoveryAuthorityRequired),
        account != opened || recorded != account ==> reset_step(
            opened,
            None,
            Some(account),
            Some(recorded),
            has_state,
            has_prekeys,
        ) == Err::<AuthorityStep, NodeError>(NodeError::RecoveryAuthorityRequired),
        reset_step(opened, None, Some(opened), Some(opened), has_state, true) == Ok::<
            AuthorityStep,
            NodeError,
        >(AuthorityStep::AlreadyDone),
        reset_step(opened, None, Some(opened), Some(opened), has_state, false) == Err::<
            AuthorityStep,
            NodeError,
        >(NodeError::CorruptState),
        reset_step(opened, Some(root), kept, record, false, has_prekeys) == Err::<
            AuthorityStep,
            NodeError,
        >(NodeError::CorruptState),
        reset_step(root, Some(root), kept, record, true, has_prekeys) == Err::<
            AuthorityStep,
            NodeError,
        >(NodeError::AuthorityResetRequired),
        opened != root ==> reset_step(opened, Some(root), kept, record, true, has_prekeys) == Ok::<
            AuthorityStep,
            NodeError,
        >(AuthorityStep::Proceed),
{
}

/// A migration is recorded only when the former root is gone and both the account and the
/// state are the ones that were written.
pub proof fn law_recorded_migrations(
    root_left: bool,
    account: Id,
    recorded: Option<Id>,
    state: Seq<u8>,
    kept: Vec<u8>,
)
    ensures
        !migration_recorded(true, account, recorded, state, Some(kept)),
        !migration_recorded(root_left, account, recorded, state, None),
        recorded != Some(account) ==> !migration_recorded(
            root_left,
            account,
            recorded,
            state,
            Some(kept),
        ),
        kept@ != state ==> !migration_recorded(root_left, account, recorded, state, Some(kept)),
        migration_recorded(false, account, Some(account), kept@, Some(kept)),
{
}

/// Every session of a device that is not revoked is loaded, and so is that of every contact
/// that is no such device.
pub proof fn law_sessions_are_loaded(
    entries: Seq<DeviceEntry>,
    contacts: Seq<ContactEntry>,
    n: int,
    m: int,
)
    requires
        0 <= n <= entries.len(),
        0 <= m <= contacts.len(),
    ensures
        forall|i: int|
            0 <= i < n && !(#[trigger] entries[i]).revoked && entries[i].has_session
                ==> device_sessions(entries, n).contains(entries[i].device),
        forall|i: int|
            0 <= i < m && (#[trigger] contacts[i]).has_session && (forall|j: int|
                0 <= j < entries.len() ==> (#[trigger] entries[j]).device != contacts[i].peer)
                ==> contact_sessions(entries, contacts, m).contains(contacts[i].peer),
    decreases n + m,
{
    if n > 0 {
        law_sessions_are_loaded(entries, contacts, n - 1, 0);
        let prior = device_sessions(entries, n - 1);
        let all = device_sessions(entries, n);
        assert forall|i: int|
            0 <= i < n && !(#[trigger] entries[i]).revoked
                && entries[i].has_session implies all.contains(entries[i].device) by {
            if i < n - 1 {
                let k = choose|k: int| 0 <= k < prior.len() && prior[k] == entries[i].device;
                assert(all[k] == entries[i].device);
            } else {
                assert(all.last() == entries[i].device);
            }
        }
    }
    if m > 0 {
        law_sessions_are_loaded(entries, contacts, 0, m - 1);
        let prior = contact_sessions(entries, contacts, m - 1);
        let all = contact_sessions(entries, contacts, m);
        assert forall|i: int|
            0 <= i < m && (#[trigger] contacts[i]).has_session && (forall|j: int|
                0 <= j < entries.len() ==> (#[trigger] entries[j]).device
                    != contacts[i].peer) implies all.contains(contacts[i].peer) by {
            if i < m - 1 {
                let k = choose|k: int| 0 <= k < prior.len() && prior[k] == contacts[i].peer;
                assert(all[k] == contacts[i].peer);
            } else {
                assert(!has_device(entries, contacts[i].peer));
                assert(all.last() == contacts[i].peer);
            }
        }
    }
}

/// Every conflict that a session remembers is told, each with the session it belongs to.
pub proof fn law_conflicts_are_told(sessions: Seq<SessionConflicts>, n: int, i: int)
    requires
        0 <= i < n <= sessions.len(),
    ensures
        ({
            let s = sessions[i];
            let told = rendezvous_events(sessions, n);
            &&& s.provider_set ==> told.contains(
                Event::RendezvousConflict { peer: s.peer, device: s.device, provider: zero_id() },
            )
            &&& forall|k: int|
                0 <= k < s.providers@.len() ==> told.contains(
                    Event::RendezvousConflict {
                        peer: s.peer,
                        device: s.device,
                        provider: #[trigger] s.providers@[k],
                    },
                )
            &&& s.wake is Some ==> wake_events(sessions, n).contains(
                Event::WakeConflict { peer: s.peer, device: s.device, generation: s.wake->0 },
            )
        }),
    decreases n,
{
    let s = sessions[i];
    let told = rendezvous_events(sessions, n);
    let woken = wake_events(sessions, n);
    let set = Event::RendezvousConflict { peer: s.peer, device: s.device, provider: zero_id() };
    let wake = Event::WakeConflict { peer: s.peer, device: s.device, generation: s.wake->0 };
    if i < n - 1 {
        law_conflicts_are_told(sessions, n - 1, i);
        let prior = rendezvous_events(sessions, n - 1);
        if s.provider_set {
            let k = choose|k: int| 0 <= k < prior.len() && prior[k] == set;
            assert(told[k] == set);
        }
        assert forall|k: int| 0 <= k < s.providers@.len() implies told.contains(
            Event::RendezvousConflict {
                peer: s.peer,
                device: s.device,
                provider: #[trigger] s.providers@[k],
            },
        ) by {
            let event = Event::RendezvousConflict {
                peer: s.peer,
                device: s.device,
                provider: s.providers@[k],
            };
            let m = choose|m: int| 0 <= m < prior.len() && prior[m] == event;
            assert(told[m] == event);
        }
        if s.wake is Some {
            let prior = wake_events(sessions, n - 1);
            let k = choose|k: int| 0 <= k < prior.len() && prior[k] == wake;
            assert(woken[k] == wake);
        }
    } else {
        let prior = rendezvous_events(sessions, n - 1);
        let own = provider_events(s, s.providers@.len() as int);
        lemma_provider_events(s, s.providers@.len() as int);
        if s.provider_set {
            let k = choose|k: int| 0 <= k < own.len() && own[k] == set;
            assert(told[prior.len() + k] == set);
        }
        assert forall|k: int| 0 <= k < s.providers@.len() implies told.contains(
            Event::RendezvousConflict {
                peer: s.peer,
                device: s.device,
                provider: #[trigger] s.providers@[k],
            },
        ) by {
            let event = Event::RendezvousConflict {
                peer: s.peer,
                device: s.device,
                provider: s.providers@[k],
            };
            let m = choose|m: int| 0 <= m < own.len() && own[m] == event;
            assert(told[prior.len() + m] == event);
        }
        if s.wake is Some {
            assert(woken.last() == wake);
        }
    }
}

proof fn lemma_provider_events(s: SessionConflicts, n: int)
    requires
        0 <= n <= s.providers@.len(),
    ensures
        s.provider_set ==> provider_events(s, n).contains(
            Event::RendezvousConflict { peer: s.peer, device: s.device, provider: zero_id() },
        ),
        forall|k: int|
            0 <= k < n ==> provider_events(s, n).contains(
                Event::RendezvousConflict {
                    peer: s.peer,
                    device: s.device,
                    provider: #[trigger] s.providers@[k],
                },
            ),
    decreases n,
{
    let all = provider_events(s, n);
    let set = Event::RendezvousConflict { peer: s.peer, device: s.device, provider: zero_id() };
    if n > 0 {
        lemma_provider_events(s, n - 1);
        let prior = provider_events(s, n - 1);
        if s.provider_set {
            let k = choose|k: int| 0 <= k < prior.len() && prior[k] == set;
            assert(all[k] == set);
        }
        assert forall|k: int| 0 <= k < n implies all.contains(
            Event::RendezvousConflict {
                peer: s.peer,
                device: s.device,
                provider: #[trigger] s.providers@[k],
            },
        ) by {
            let event = Event::RendezvousConflict {
                peer: s.peer,
                device: s.device,
                provider: s.providers@[k],
            };
            if k < n - 1 {
                let m = choose|m: int| 0 <= m < prior.len() && prior[m] == event;
                assert(all[m] == event);
            } else {
                assert(all.last() == event);
            }
        }
    } else if s.provider_set {
        assert(all[0] == set);
    }
}

/// A node has no connect code while its capability is all zeros.
pub proof fn law_nodes_without_a_code(state: DiscoveryState)
    ensures
        has_no_code(state) ==> forall|i: int| 0 <= i < 32 ==> #[trigger] state.capability@[i] == 0,
        (forall|i: int| 0 <= i < 32 ==> #[trigger] state.capability@[i] == 0) ==> has_no_code(
            state,
        ),
{
    let zero = zero_id();
    assert(zero@.len() == 32);
    if forall|i: int| 0 <= i < 32 ==> #[trigger] state.capability@[i] == 0 {
        assert(state.capability@ =~= zero@);
        crate::bytes::lemma_same_id(state.capability, zero);
    }
}

/// Only sessions that exist are loaded.
pub proof fn law_loaded_sessions_exist(
    entries: Seq<DeviceEntry>,
    contacts: Seq<ContactEntry>,
    n: int,
    m: int,
    k: int,
)
    requires
        0 <= n <= entries.len(),
        0 <= m <= contacts.len(),
    ensures
        0 <= k < device_sessions(entries, n).len() ==> exists|i: int|
            0 <= i < n && (#[trigger] entries[i]).device == device_sessions(entries, n)[k]
                && entries[i].has_session && !entries[i].revoked,
        0 <= k < contact_sessions(entries, contacts, m).len() ==> exists|i: int|
            0 <= i < m && (#[trigger] contacts[i]).peer == contact_sessions(
                entries,
                contacts,
                m,
            )[k] && contacts[i].has_session && !has_device(entries, contacts[i].peer),
    decreases n + m,
{
    if n > 0 {
        law_loaded_sessions_exist(entries, contacts, n - 1, 0, k);
        let prior = device_sessions(entries, n - 1);
        let all = device_sessions(entries, n);
        if 0 <= k < all.len() {
            if k < prior.len() {
                assert(all[k] == prior[k]);
            } else {
                assert(entries[n - 1].device == all[k]);
            }
        }
    }
    if m > 0 {
        law_loaded_sessions_exist(entries, contacts, 0, m - 1, k);
        let prior = contact_sessions(entries, contacts, m - 1);
        let all = contact_sessions(entries, contacts, m);
        if 0 <= k < all.len() {
            if k < prior.len() {
                assert(all[k] == prior[k]);
            } else {
                assert(contacts[m - 1].peer == all[k]);
            }
        }
    }
}

/// Nothing else is told: one event for each conflict.
pub proof fn law_conflicts_are_told_once(s: SessionConflicts, n: int)
    requires
        0 <= n <= s.providers@.len(),
    ensures
        s.provider_set ==> provider_events(s, n).len() == n + 1,
        !s.provider_set ==> provider_events(s, n).len() == n,
    decreases n,
{
    if n > 0 {
        law_conflicts_are_told_once(s, n - 1);
    }
}

/// A session without conflicts is not told of.
pub proof fn law_sessions_without_conflicts(sessions: Seq<SessionConflicts>, n: int)
    requires
        0 <= n < sessions.len(),
    ensures
        sessions[n].wake is None ==> wake_events(sessions, n + 1) == wake_events(sessions, n),
        sessions[n].wake is Some ==> wake_events(sessions, n + 1).len() == wake_events(
            sessions,
            n,
        ).len() + 1,
        !sessions[n].provider_set && sessions[n].providers@.len() == 0 ==> rendezvous_events(
            sessions,
            n + 1,
        ) == rendezvous_events(sessions, n),
{
    if !sessions[n].provider_set && sessions[n].providers@.len() == 0 {
        assert(provider_events(sessions[n], 0) =~= Seq::empty());
        assert(rendezvous_events(sessions, n + 1) =~= rendezvous_events(sessions, n));
    }
}

} // verus!
