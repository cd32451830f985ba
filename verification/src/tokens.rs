//! Delivery tokens: over which days they are recognised, and which ones are left with
//! mailbox relays.

use vstd::prelude::*;

use crate::bytes::Id;
use crate::wire::constant_time_same;

verus! {

/// Tokens of this many past days are recognised.
pub const TOKEN_LOOKBACK_EPOCHS: u64 = 35;

/// Tokens of this many days ahead are recognised.
pub const TOKEN_LOOKAHEAD_EPOCHS: u64 = 2;

/// Tokens of this many days ahead are left with mailbox relays.
pub const MAILBOX_AHEAD_EPOCHS: u64 = 35;

/// The first day that counts.
pub open spec fn first_epoch(today: u64) -> int {
    if today > TOKEN_LOOKBACK_EPOCHS {
        today - TOKEN_LOOKBACK_EPOCHS
    } else {
        0
    }
}

/// The days over which tokens are recognised, first and last.
pub fn token_window(today: u64) -> (res: (u64, u64))
    requires
        today + TOKEN_LOOKAHEAD_EPOCHS <= u64::MAX,
    ensures
        res.0 == first_epoch(today),
        res.1 == today + TOKEN_LOOKAHEAD_EPOCHS,
        res.0 <= today <= res.1,
{
    (today.saturating_sub(TOKEN_LOOKBACK_EPOCHS), today + TOKEN_LOOKAHEAD_EPOCHS)
}

/// The tokens of one session over the days that count.
pub struct SessionTokens {
    /// The device at the other end.
    pub peer: Id,
    /// Its tokens for this account and, where that is another, this device.
    pub tokens: Vec<Id>,
}

/// The token is one of those of the session.
pub open spec fn recognises(session: SessionTokens, token: Id) -> bool {
    exists|k: int| 0 <= k < session.tokens@.len() && (#[trigger] session.tokens@[k])@ == token@
}

/// The first session that recognises a token, counted from `from`.
pub open spec fn session_for(sessions: Seq<SessionTokens>, token: Id, from: int) -> Option<Id>
    decreases sessions.len() - from,
{
    if from >= sessions.len() {
        None
    } else if recognises(sessions[from], token) {
        Some(sessions[from].peer)
    } else {
        session_for(sessions, token, from + 1)
    }
}

fn holds_token(tokens: &Vec<Id>, token: &Id) -> (res: bool)
    ensures
        res == exists|k: int| 0 <= k < tokens@.len() && (#[trigger] tokens@[k])@ == token@,
{
    let mut k: usize = 0;
    while k < tokens.len()
        invariant
            k <= tokens@.len(),
            forall|m: int| 0 <= m < k ==> (#[trigger] tokens@[m])@ != token@,
        decreases tokens@.len() - k,
    {
        if constant_time_same(tokens[k].as_slice(), token.as_slice()) {
            assert(tokens@[k as int]@ == token@);
            return true;
        }
        k = k + 1;
    }
    false
}

/// The session that recognises a token.
pub fn match_session(sessions: &Vec<SessionTokens>, token: &Id) -> (res: Option<Id>)
    ensures
        res == session_for(sessions@, *token, 0),
{
    let mut i: usize = 0;
    while i < sessions.len()
        invariant
            i <= sessions@.len(),
            session_for(sessions@, *token, 0) == session_for(sessions@, *token, i as int),
        decreases sessions@.len() - i,
    {
        if holds_token(&sessions[i].tokens, token) {
            return Some(sessions[i].peer);
        }
        i = i + 1;
    }
    None
}

/// Whether a token is for this node: a session recognises it, or it is one of the own
/// introduction tokens. Those of the former kind count while that kind is enabled.
pub fn token_is_mine(
    sessions: &Vec<SessionTokens>,
    introductions: &Vec<Id>,
    former_introductions: &Vec<Id>,
    former_enabled: bool,
    token: &Id,
) -> (res: bool)
    ensures
        res == (session_for(sessions@, *token, 0) is Some || (exists|k: int|
            0 <= k < introductions@.len() && (#[trigger] introductions@[k])@ == token@) || (
        former_enabled && exists|k: int|
            0 <= k < former_introductions@.len() && (#[trigger] former_introductions@[k])@
                == token@)),
{
    match_session(sessions, token).is_some() || holds_token(introductions, token) || (former_enabled
        && holds_token(former_introductions, token))
}

// ---- Mailboxes ----

/// A token to derive.
#[derive(Clone, Copy, Debug, PartialEq, Eq, Structural)]
pub enum TokenRequest {
    /// Introduction token of this device.
    Introduction {
        /// The day.
        epoch: u64,
    },
    /// Introduction token of the account, of the former kind.
    FormerAccount {
        /// The day.
        epoch: u64,
    },
    /// Introduction token of this device, of the former kind.
    FormerDevice {
        /// The day.
        epoch: u64,
    },
    /// Token of a session for the account.
    SessionAccount {
        /// The day.
        epoch: u64,
        /// Position of the session.
        session: usize,
    },
    /// Token of a session for this device.
    SessionDevice {
        /// The day.
        epoch: u64,
        /// Position of the session.
        session: usize,
    },
}

/// The introduction tokens of a day.
pub open spec fn introductions_of(epoch: u64, former: bool, own_device: bool) -> Seq<TokenRequest> {
    if !former {
        seq![TokenRequest::Introduction { epoch }]
    } else if !own_device {
        seq![TokenRequest::Introduction { epoch }, TokenRequest::FormerAccount { epoch }]
    } else {
        seq![
            TokenRequest::Introduction { epoch },
            TokenRequest::FormerAccount { epoch },
            TokenRequest::FormerDevice { epoch },
        ]
    }
}

/// The tokens of a day for the first `n` sessions.
pub open spec fn sessions_of(epoch: u64, own_device: bool, n: int) -> Seq<TokenRequest>
    decreases n,
{
    if n <= 0 {
        Seq::empty()
    } else {
        let prior = sessions_of(epoch, own_device, n - 1).push(
            TokenRequest::SessionAccount { epoch, session: (n - 1) as usize },
        );
        if own_device {
            prior.push(TokenRequest::SessionDevice { epoch, session: (n - 1) as usize })
        } else {
            prior
        }
    }
}

/// The tokens of the first `n` days from `first` on.
pub open spec fn mailbox_requests(
    first: int,
    n: int,
    former: bool,
    own_device: bool,
    sessions: int,
) -> Seq<TokenRequest>
    decreases n,
{
    if n <= 0 {
        Seq::empty()
    } else {
        let epoch = (first + n - 1) as u64;
        mailbox_requests(first, n - 1, former, own_device, sessions) + introductions_of(
            epoch,
            former,
            own_device,
        ) + sessions_of(epoch, own_device, sessions)
    }
}

/// The tokens to leave with mailbox relays, day by day. `own_device` says that this device
/// has another identity than the account.
pub fn mailbox_tokens(today: u64, former: bool, own_device: bool, sessions: usize) -> (res: Vec<
    TokenRequest,
>)
    requires
        today + MAILBOX_AHEAD_EPOCHS < u64::MAX,
    ensures
        res@ == mailbox_requests(
            first_epoch(today),
            today + MAILBOX_AHEAD_EPOCHS - first_epoch(today) + 1,
            former,
            own_device,
            sessions as int,
        ),
{
    let lo: u64 = today.saturating_sub(TOKEN_LOOKBACK_EPOCHS);
    let hi: u64 = today + MAILBOX_AHEAD_EPOCHS;
    let mut out: Vec<TokenRequest> = Vec::new();
    let mut epoch: u64 = lo;
    while epoch <= hi
        invariant
            lo <= epoch <= hi + 1,
            hi < u64::MAX,
            lo == first_epoch(today),
            out@ == mailbox_requests(
                lo as int,
                epoch - lo,
                former,
                own_device,
                sessions as int,
            ),
        decreases hi + 1 - epoch,
    {
        let ghost before = out@;
        out.push(TokenRequest::Introduction { epoch });
        if former {
            out.push(TokenRequest::FormerAccount { epoch });
            if own_device {
                out.push(TokenRequest::FormerDevice { epoch });
            }
        }
        let ghost begun = before + introductions_of(epoch, former, own_device);
        assert(out@ =~= begun);
        let mut s: usize = 0;
        assert(begun + sessions_of(epoch, own_device, 0) =~= begun);
        while s < sessions
            invariant
                s <= sessions,
                out@ == begun + sessions_of(epoch, own_device, s as int),
            decreases sessions - s,
        {
            out.push(TokenRequest::SessionAccount { epoch, session: s });
            if own_device {
                out.push(TokenRequest::SessionDevice { epoch, session: s });
            }
            assert(out@ =~= begun + sessions_of(epoch, own_device, s + 1));
            s = s + 1;
        }
        assert((lo + (epoch - lo + 1) - 1) as u64 == epoch);
        epoch = epoch + 1;
    }
    out
}

/// The day of a token.
pub open spec fn epoch_of(request: TokenRequest) -> u64 {
    match request {
        TokenRequest::Introduction { epoch } => epoch,
        TokenRequest::FormerAccount { epoch } => epoch,
        TokenRequest::FormerDevice { epoch } => epoch,
        TokenRequest::SessionAccount { epoch, .. } => epoch,
        TokenRequest::SessionDevice { epoch, .. } => epoch,
    }
}

/// Mailboxes are asked for nothing outside the days that count, and for nothing of the
/// former kind once that is disabled.
pub proof fn law_mailbox_tokens_stay_in_window(
    first: int,
    n: int,
    former: bool,
    own_device: bool,
    sessions: int,
    k: int,
)
    requires
        0 <= first,
        first + n <= u64::MAX,
        0 <= k < mailbox_requests(first, n, former, own_device, sessions).len(),
    ensures
        ({
            let request = mailbox_requests(first, n, former, own_device, sessions)[k];
            &&& first <= epoch_of(request) < first + n
            &&& !former ==> !(request is FormerAccount) && !(request is FormerDevice)
        }),
    decreases n,
{
    if n > 0 {
        let epoch = (first + n - 1) as u64;
        let prior = mailbox_requests(first, n - 1, former, own_device, sessions);
        let own = introductions_of(epoch, former, own_device);
        if k < prior.len() {
            law_mailbox_tokens_stay_in_window(first, n - 1, former, own_device, sessions, k);
        } else if k >= prior.len() + own.len() {
            lemma_session_requests(epoch, own_device, sessions, k - prior.len() - own.len());
        }
    }
}

proof fn lemma_session_requests(epoch: u64, own_device: bool, n: int, k: int)
    requires
        0 <= k < sessions_of(epoch, own_device, n).len(),
    ensures
        ({
            let request = sessions_of(epoch, own_device, n)[k];
            epoch_of(request) == epoch && !(request is FormerAccount) && !(request is FormerDevice)
        }),
    decreases n,
{
    if n > 0 {
        if k < sessions_of(epoch, own_device, n - 1).len() {
            lemma_session_requests(epoch, own_device, n - 1, k);
        }
    }
}

/// Tokens are recognised from the last thirty-five epochs on, or from the very first.
pub proof fn law_token_lookback(today: u64)
    ensures
        today >= 35 ==> first_epoch(today) == today - 35,
        today < 35 ==> first_epoch(today) == 0,
{
}

/// A token belongs to the first session that holds it, and to none when none does.
pub proof fn law_tokens_find_their_session(
    sessions: Seq<SessionTokens>,
    token: Id,
    from: int,
    i: int,
    k: int,
)
    requires
        0 <= from <= sessions.len(),
    ensures
        from <= i < sessions.len() && 0 <= k < sessions[i].tokens@.len() && sessions[i].tokens@[k]
            == token && (forall|j: int|
            from <= j < i ==> !recognises(#[trigger] sessions[j], token)) ==> session_for(
            sessions,
            token,
            from,
        ) == Some(sessions[i].peer),
        (forall|j: int|
            from <= j < sessions.len() ==> !(#[trigger] sessions[j]).tokens@.contains(token))
            ==> session_for(sessions, token, from) is None,
    decreases sessions.len() - from,
{
    if from < sessions.len() {
        let s = sessions[from];
        law_tokens_find_their_session(sessions, token, from + 1, i, k);
        if i == from && 0 <= k < s.tokens@.len() && s.tokens@[k] == token {
            assert(s.tokens@[k]@ == token@);
            assert(recognises(s, token));
        }
        if recognises(s, token) {
            let m = choose|m: int|
                0 <= m < s.tokens@.len() && (#[trigger] s.tokens@[m])@ == token@;
            crate::bytes::lemma_same_id(s.tokens@[m], token);
            assert(s.tokens@.contains(token));
        }
    }
}

/// In every epoch of the window the mailbox is asked for the introduction, and for every
/// session; for a former account and an own device where there is one.
pub proof fn law_mailboxes_are_asked_for_everything(
    first: int,
    n: int,
    former: bool,
    own_device: bool,
    sessions: int,
    epoch: u64,
    session: usize,
)
    requires
        0 <= first,
        first + n <= u64::MAX,
        first <= epoch < first + n,
    ensures
        ({
            let all = mailbox_requests(first, n, former, own_device, sessions);
            &&& all.contains(TokenRequest::Introduction { epoch })
            &&& former ==> all.contains(TokenRequest::FormerAccount { epoch })
            &&& former && own_device ==> all.contains(TokenRequest::FormerDevice { epoch })
            &&& session < sessions <= usize::MAX ==> all.contains(
                TokenRequest::SessionAccount { epoch, session },
            )
            &&& session < sessions <= usize::MAX && own_device ==> all.contains(
                TokenRequest::SessionDevice { epoch, session },
            )
        }),
    decreases n,
{
    let prior = mailbox_requests(first, n - 1, former, own_device, sessions);
    let last = (first + n - 1) as u64;
    let own = introductions_of(last, former, own_device);
    let more = sessions_of(last, own_device, sessions);
    let all = mailbox_requests(first, n, former, own_device, sessions);
    assert(all =~= prior + own + more);
    if epoch < last {
        law_mailboxes_are_asked_for_everything(
            first,
            n - 1,
            former,
            own_device,
            sessions,
            epoch,
            session,
        );
        assert forall|r: TokenRequest| prior.contains(r) implies all.contains(r) by {
            let k = choose|k: int| 0 <= k < prior.len() && prior[k] == r;
            assert(all[k] == r);
        }
    } else {
        assert forall|r: TokenRequest| own.contains(r) implies all.contains(r) by {
            let k = choose|k: int| 0 <= k < own.len() && own[k] == r;
            assert(all[prior.len() + k] == r);
        }
        assert(own[0] == TokenRequest::Introduction { epoch });
        assert(own.contains(TokenRequest::Introduction { epoch }));
        if former {
            assert(own[1] == TokenRequest::FormerAccount { epoch });
            assert(own.contains(TokenRequest::FormerAccount { epoch }));
            if own_device {
                assert(own[2] == TokenRequest::FormerDevice { epoch });
                assert(own.contains(TokenRequest::FormerDevice { epoch }));
            }
        }
        if session < sessions <= usize::MAX {
            lemma_sessions_of(epoch, own_device, sessions, session);
            assert forall|r: TokenRequest| more.contains(r) implies all.contains(r) by {
                let k = choose|k: int| 0 <= k < more.len() && more[k] == r;
                assert(all[prior.len() + own.len() + k] == r);
            }
        }
    }
}

proof fn lemma_sessions_of(epoch: u64, own_device: bool, n: int, session: usize)
    requires
        session < n <= usize::MAX,
    ensures
        sessions_of(epoch, own_device, n).contains(TokenRequest::SessionAccount { epoch, session }),
        own_device ==> sessions_of(epoch, own_device, n).contains(
            TokenRequest::SessionDevice { epoch, session },
        ),
    decreases n,
{
    let all = sessions_of(epoch, own_device, n);
    let prior = sessions_of(epoch, own_device, n - 1);
    if session < n - 1 {
        lemma_sessions_of(epoch, own_device, n - 1, session);
        assert forall|r: TokenRequest| prior.contains(r) implies all.contains(r) by {
            let k = choose|k: int| 0 <= k < prior.len() && prior[k] == r;
            assert(all[k] == r);
        }
    } else {
        assert(all[prior.len() as int] == TokenRequest::SessionAccount { epoch, session });
        if own_device {
            assert(all[prior.len() as int + 1] == TokenRequest::SessionDevice { epoch, session });
        }
    }
}

/// Nothing else is asked for: without an own device no token of one, and as many as there are
/// sessions and former forms.
pub proof fn law_mailboxes_are_asked_for_nothing_else(
    first: int,
    n: int,
    former: bool,
    own_device: bool,
    sessions: int,
)
    requires
        0 <= first,
        0 <= n,
        0 <= sessions,
    ensures
        introductions_of(0, former, own_device).len() == if !former {
            1int
        } else if own_device {
            3
        } else {
            2
        },
        sessions_of(0, own_device, sessions).len() == if own_device {
            2 * sessions
        } else {
            sessions
        },
        n > 0 ==> mailbox_requests(first, n, former, own_device, sessions).len()
            == mailbox_requests(first, n - 1, former, own_device, sessions).len()
            + introductions_of(0, former, own_device).len() + sessions_of(
            0,
            own_device,
            sessions,
        ).len(),
        mailbox_requests(first, 0, former, own_device, sessions).len() == 0,
{
    lemma_sessions_len(0, own_device, sessions);
    if n > 0 {
        lemma_sessions_len((first + n - 1) as u64, own_device, sessions);
    }
}

proof fn lemma_sessions_len(epoch: u64, own_device: bool, n: int)
    requires
        0 <= n,
    ensures
        sessions_of(epoch, own_device, n).len() == if own_device {
            2 * n
        } else {
            n
        },
    decreases n,
{
    if n > 0 {
        lemma_sessions_len(epoch, own_device, n - 1);
    }
}

} // verus!
