//! The expiring token store: one-time verification tokens bound to an
//! identity, validated within a bounded lifetime and evicted by a periodic
//! sweep.  It follows the same single-writer-actor discipline as the session
//! registry; the command plumbing, the clock and the outbound email transport
//! live outside the verified core.

use crate::chan::random_token;
use crate::strmap::StrMap;
use vstd::prelude::*;

verus! {

/// How long an unvalidated token stays valid, in seconds.
pub const TOKEN_TTL_SECS: u64 = 3600;

/// What a token operation can fail with.
#[derive(Debug)]
pub enum TokenError {
    /// The token is absent: never issued, already consumed, or swept.
    NotFound,
    /// The outbound send failed; the description is passed on unchanged and
    /// no token is recorded.
    Transport(String),
}

/// A token issued at `issued` is still live at `now`.  A clock that reads
/// earlier than the issue instant counts as age zero.
pub open spec fn token_live(issued: u64, now: u64) -> bool {
    (now as int) < issued + TOKEN_TTL_SECS
}

/// The token map after a sweep at `now`: exactly the live entries, unchanged.
pub open spec fn sweep_spec(
    m: Map<Seq<char>, (String, u64)>,
    now: u64,
) -> Map<Seq<char>, (String, u64)> {
    Map::new(|t: Seq<char>| m.contains_key(t) && token_live(m[t].1, now), |t: Seq<char>| m[t])
}

/// Issuing a token: it is recorded with the identity it was sent to and the
/// issue instant.
pub open spec fn issue_spec(
    m: Map<Seq<char>, (String, u64)>,
    token: Seq<char>,
    email: String,
    now: u64,
) -> Map<Seq<char>, (String, u64)> {
    m.insert(token, (email, now))
}

/// The expiring token store: token to (identity, issue instant).  Only the
/// owning actor may call the mutating methods; instants are seconds on the
/// caller's monotonic clock.
pub struct EmailServer {
    tokens: StrMap<(String, u64)>,
}

impl View for EmailServer {
    type V = Map<Seq<char>, (String, u64)>;

    closed spec fn view(&self) -> Map<Seq<char>, (String, u64)> {
        self.tokens@
    }
}

impl EmailServer {
    /// The structural invariant of the underlying table.
    pub closed spec fn wf(&self) -> bool {
        self.tokens.wf()
    }

    /// A fresh store holding no tokens.
    pub fn new() -> (s: EmailServer)
        ensures
            s.wf(),
            s@ == Map::<Seq<char>, (String, u64)>::empty(),
    {
        EmailServer { tokens: StrMap::new() }
    }

    /// Draws a random token that is not currently recorded.  Each draw is a
    /// fresh random identifier, so a collision is improbable; after a bounded
    /// number of collisions the attempt is given up and `None` is returned
    /// rather than overwriting a live token.
    pub fn fresh_token(&self) -> (r: Option<String>)
        requires
            self.wf(),
        ensures
            r matches Some(t) ==> !self@.contains_key(t@),
    {
        let mut tries: usize = 0;
        while tries < 16
            invariant
                self.wf(),
            decreases 16 - tries,
        {
            let t = random_token();
            if self.tokens.get(&t).is_none() {
                return Some(t);
            }
            tries = tries + 1;
        }
        None
    }

    /// Completes the issuance of `token` for `email` after the outbound send
    /// attempt: the caller hands in what the external transport returned.
    /// Only on send success is the token recorded, stamped `now`; on a send
    /// failure nothing is recorded and the failure is passed on unchanged.
    pub fn send_token(
        &mut self,
        email: String,
        token: String,
        now: u64,
        sent: Result<(), String>,
    ) -> (r: Result<(), TokenError>)
        requires
            old(self).wf(),
        ensures
            final(self).wf(),
            match sent {
                Ok(()) => {
                    &&& r is Ok
                    &&& final(self)@ == issue_spec(old(self)@, token@, email, now)
                },
                Err(msg) => {
                    &&& r matches Err(e) && (e matches TokenError::Transport(m) && m == msg)
                    &&& final(self)@ == old(self)@
                },
            },
    {
        match sent {
            Ok(()) => {
                self.tokens.insert(token, (email, now));
                Ok(())
            },
            Err(msg) => Err(TokenError::Transport(msg)),
        }
    }

    /// Consumes a token: removes it if present (success), or fails with
    /// `NotFound` when it is absent — never issued, already consumed by an
    /// earlier validation, or evicted by the sweep.  Success exactly once.
    pub fn validate_token(&mut self, token: String) -> (r: Result<(), TokenError>)
        requires
            old(self).wf(),
        ensures
            final(self).wf(),
            old(self)@.contains_key(token@) ==> r is Ok && final(self)@ == old(self)@.remove(
                token@,
            ),
            !old(self)@.contains_key(token@) ==> (r matches Err(e) && e is NotFound)
                && final(self)@ == old(self)@,
    {
        match self.tokens.remove_key(&token) {
            Some(_) => Ok(()),
            None => Err(TokenError::NotFound),
        }
    }

    /// The periodic sweep: evicts every token whose age at `now` has reached
    /// the expiry window, and keeps every younger one unchanged.
    pub fn sweep(&mut self, now: u64)
        requires
            old(self).wf(),
        ensures
            final(self).wf(),
            final(self)@ == sweep_spec(old(self)@, now),
    {
        let ghost m0 = self.tokens@;
        let mut kept: StrMap<(String, u64)> = StrMap::new();
        loop
            invariant
                self.tokens.wf(),
                kept.wf(),
                forall|t: Seq<char>| #[trigger] self.tokens@.contains_key(t)
                    ==> m0.contains_key(t) && self.tokens@[t] == m0[t],
                forall|t: Seq<char>| #[trigger] kept@.contains_key(t)
                    ==> m0.contains_key(t) && kept@[t] == m0[t] && token_live(m0[t].1, now),
                forall|t: Seq<char>| #[trigger] m0.contains_key(t)
                    ==> self.tokens@.contains_key(t) || kept@.contains_key(t) == token_live(
                        m0[t].1,
                        now,
                    ),
            ensures
                kept.wf(),
                forall|t: Seq<char>| #[trigger] kept@.contains_key(t)
                    ==> m0.contains_key(t) && kept@[t] == m0[t] && token_live(m0[t].1, now),
                forall|t: Seq<char>| #[trigger] m0.contains_key(t)
                    ==> kept@.contains_key(t) == token_live(m0[t].1, now),
            decreases self.tokens.spec_len(),
        {
            match self.tokens.pop_entry() {
                None => {
                    break;
                },
                Some((token, record)) => {
                    let live = record.1 > now || now - record.1 < TOKEN_TTL_SECS;
                    proof {
                        assert(live == token_live(record.1, now));
                    }
                    if live {
                        kept.insert(token, record);
                    }
                },
            }
        }
        self.tokens = kept;
        proof {
            assert(self@ =~= sweep_spec(m0, now));
        }
    }
}

/// Law: a token is single-use — issuing it and validating it once removes it,
/// so the state a successful validation leaves behind no longer contains the
/// token and a replayed validation must fail.
pub proof fn lemma_token_single_use(
    m: Map<Seq<char>, (String, u64)>,
    token: Seq<char>,
    email: String,
    now: u64,
)
    ensures
        issue_spec(m, token, email, now).contains_key(token),
        !issue_spec(m, token, email, now).remove(token).contains_key(token),
{
}

/// Law: the sweep is exact — a token whose age has reached the expiry window
/// is gone afterwards, and a younger token survives with its record intact.
pub proof fn lemma_sweep_expiry(m: Map<Seq<char>, (String, u64)>, token: Seq<char>, now: u64)
    requires
        m.contains_key(token),
    ensures
        m[token].1 + TOKEN_TTL_SECS <= now ==> !sweep_spec(m, now).contains_key(token),
        (now as int) < m[token].1 + TOKEN_TTL_SECS ==> sweep_spec(m, now).contains_key(token)
            && sweep_spec(m, now)[token] == m[token],
{
}

/// Law: validating a token does not depend on the clock — only issuance and
/// the sweep do — so a token issued and validated within the window succeeds
/// regardless of how much of the window has passed.
pub proof fn lemma_validate_after_issue(
    m: Map<Seq<char>, (String, u64)>,
    token: Seq<char>,
    email: String,
    now: u64,
)
    ensures
        issue_spec(m, token, email, now).contains_key(token),
        issue_spec(m, token, email, now).remove(token) =~= m.remove(token),
{
}

} // verus!
