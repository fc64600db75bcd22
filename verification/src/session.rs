//! The session actor's state and every transition on it: the connection
//! table, the key-to-connection registry filled by authentication, and the
//! per-key backlog of payloads that could not be delivered at once.
//!
//! All mutation is meant to happen on one logical execution stream (the
//! actor); the command-channel plumbing that serializes callers lives outside
//! the verified core and only ever calls these methods one at a time.

use crate::chan::{random_u64, send_payload};
use crate::ConnId;
use crate::idmap::IdMap;
use crate::strmap::StrMap;
use vstd::prelude::*;

verus! {

/// The outbound send capability of one connection's transport task.
pub type OutboundTx = tokio::sync::mpsc::UnboundedSender<String>;

/// What a session-registry verification can fail with.
#[derive(Debug)]
pub enum VerifyError {
    /// The presented key has no matching record in the persisted key store.
    NotFound,
    /// The persisted key store itself failed; the description is passed on
    /// unchanged.
    Store(String),
}

/// The abstract state of the session actor.
#[verifier::ext_equal]
pub struct WsServerView {
    /// Connection identifier to outbound channel, for every live connection.
    pub sessions: Map<ConnId, OutboundTx>,
    /// Authenticated key to the connection it was last verified on.
    pub client_list: Map<Seq<char>, ConnId>,
    /// Per-key backlog of undelivered payloads, oldest first; a key is
    /// present exactly while its backlog is non-empty.
    pub pending: Map<Seq<char>, Seq<String>>,
    /// How many connections have ever been registered.
    pub visitor_count: int,
}

/// The backlog map denoted by the stored vectors.
pub open spec fn pending_view(m: Map<Seq<char>, Vec<String>>) -> Map<Seq<char>, Seq<String>> {
    Map::new(|k: Seq<char>| m.contains_key(k), |k: Seq<char>| m[k]@)
}

/// Appending one payload to a key's backlog, creating the backlog if absent.
pub open spec fn queue_one_spec(
    p: Map<Seq<char>, Seq<String>>,
    key: Seq<char>,
    payload: String,
) -> Map<Seq<char>, Seq<String>> {
    if p.contains_key(key) {
        p.insert(key, p[key].push(payload))
    } else {
        p.insert(key, seq![payload])
    }
}

/// The connection a key currently routes to: its registered connection, if
/// that connection is still in the session table.
pub open spec fn resolve_spec(v: WsServerView, key: Seq<char>) -> Option<ConnId> {
    if v.client_list.contains_key(key) && v.sessions.contains_key(v.client_list[key]) {
        Some(v.client_list[key])
    } else {
        None
    }
}

/// Registering a fresh connection.
pub open spec fn connect_spec(v: WsServerView, id: ConnId, tx: OutboundTx) -> WsServerView {
    WsServerView {
        sessions: v.sessions.insert(id, tx),
        visitor_count: v.visitor_count + 1,
        ..v
    }
}

/// Removing a connection from the session table; the key registry is left
/// alone and healed lazily at delivery time.
pub open spec fn disconnect_spec(v: WsServerView, conn_id: ConnId) -> WsServerView {
    WsServerView { sessions: v.sessions.remove(conn_id), ..v }
}

/// Recording a successful authentication: last verification wins.
pub open spec fn verify_ok_spec(v: WsServerView, key: Seq<char>, conn_id: ConnId) -> WsServerView {
    WsServerView { client_list: v.client_list.insert(key, conn_id), ..v }
}

/// What one maintenance pass may leave of one key's backlog: `None` when the
/// backlog was fully delivered, `Some(q)` when `q` is left queued.  A key
/// that does not resolve is left exactly as it was; a key that resolves is
/// drained in order from the front, so what remains is a contiguous tail.
pub open spec fn entry_result_ok(
    v: WsServerView,
    k: Seq<char>,
    pre_q: Seq<String>,
    entry: Option<Seq<String>>,
) -> bool {
    match entry {
        Some(q) => if resolve_spec(v, k) is None {
            q == pre_q
        } else {
            exists|n: int| 0 <= n < pre_q.len() && q == pre_q.skip(n)
        },
        None => resolve_spec(v, k) is Some,
    }
}

/// One key's backlog after a maintenance pass, as found in the whole backlog
/// map that the pass left behind.
pub open spec fn entry_after_tick(
    v: WsServerView,
    post: Map<Seq<char>, Seq<String>>,
    k: Seq<char>,
    pre_q: Seq<String>,
) -> bool {
    entry_result_ok(
        v,
        k,
        pre_q,
        if post.contains_key(k) {
            Some(post[k])
        } else {
            None
        },
    )
}

/// The session actor's state: the connection table, the key registry and the
/// pending-delivery backlog.  Only the owning actor may call the mutating
/// methods.
pub struct WsServer {
    sessions: IdMap<OutboundTx>,
    client_list: StrMap<ConnId>,
    pending_messages: StrMap<Vec<String>>,
    visitor_count: usize,
}

impl View for WsServer {
    type V = WsServerView;

    closed spec fn view(&self) -> WsServerView {
        WsServerView {
            sessions: self.sessions@,
            client_list: self.client_list@,
            pending: pending_view(self.pending_messages@),
            visitor_count: self.visitor_count as int,
        }
    }
}

impl WsServer {
    /// The structural invariant: distinct keys in each table, and a key has a
    /// backlog entry exactly while that backlog is non-empty.
    pub closed spec fn wf(&self) -> bool {
        &&& self.sessions.wf()
        &&& self.client_list.wf()
        &&& self.pending_messages.wf()
        &&& self@.sessions.dom().finite()
        &&& self@.sessions.dom().len() <= self@.visitor_count
        &&& forall|k: Seq<char>| #[trigger] self@.pending.contains_key(k)
            ==> self@.pending[k].len() > 0
    }

    /// A fresh actor state with no connections, no authenticated keys and no
    /// backlog.
    pub fn new() -> (s: WsServer)
        ensures
            s.wf(),
            s@.sessions == Map::<u64, OutboundTx>::empty(),
            s@.client_list == Map::<Seq<char>, u64>::empty(),
            s@.pending == Map::<Seq<char>, Seq<String>>::empty(),
            s@.visitor_count == 0,
    {
        let s = WsServer {
            sessions: IdMap::new(),
            client_list: StrMap::new(),
            pending_messages: StrMap::new(),
            visitor_count: 0,
        };
        proof {
            assert(s@.pending =~= Map::<Seq<char>, Seq<String>>::empty());
        }
        s
    }

    /// Registers a new connection under a fresh identifier and returns it.
    /// The identifier is drawn at random; in the improbable case that it
    /// collides with a registered connection, the smallest unregistered
    /// identifier is taken instead.  Either way the identifier is absent from
    /// the table it was issued against, so identifiers of live connections
    /// are pairwise distinct.
    pub fn connect(&mut self, conn_tx: OutboundTx) -> (id: ConnId)
        requires
            old(self).wf(),
            old(self)@.visitor_count < usize::MAX,
        ensures
            final(self).wf(),
            !old(self)@.sessions.contains_key(id),
            final(self)@ == connect_spec(old(self)@, id, conn_tx),
    {
        let drawn = random_u64();
        let id: u64 = if self.sessions.contains(drawn) {
            self.sessions.first_free_key()
        } else {
            drawn
        };
        self.sessions.insert(id, conn_tx);
        self.visitor_count = self.visitor_count + 1;
        proof {
            assert(self@ =~= connect_spec(old(self)@, id, conn_tx));
        }
        id
    }

    /// Removes a connection from the session table.  Idempotent: removing an
    /// unknown or already-removed identifier is a no-op, not an error.  The
    /// key registry is not cleaned here; a stale binding is tolerated and
    /// resolved lazily at delivery time.
    pub fn disconnect(&mut self, conn_id: ConnId)
        requires
            old(self).wf(),
        ensures
            final(self).wf(),
            final(self)@ == disconnect_spec(old(self)@, conn_id),
    {
        self.sessions.remove_key(conn_id);
        proof {
            assert(self@ =~= disconnect_spec(old(self)@, conn_id));
        }
    }

    /// Records the outcome of authenticating `key` on `conn_id` against the
    /// persisted key store.  The store itself is an external collaborator;
    /// the caller hands in what its lookup returned: `Ok(Some(name))` for a
    /// match, `Ok(None)` for no match, `Err` for a store-level failure.
    ///
    /// On a match the key is bound to `conn_id` — the last successful
    /// verification wins — and the identity name is returned.  On no match
    /// nothing changes and `NotFound` is returned.  On a store failure
    /// nothing changes and the failure is passed on unchanged.
    pub fn verify(&mut self, key: String, conn_id: ConnId, lookup: Result<Option<String>, String>)
        -> (r: Result<String, VerifyError>)
        requires
            old(self).wf(),
        ensures
            final(self).wf(),
            match lookup {
                Ok(Some(name)) => {
                    &&& r matches Ok(n) && n == name
                    &&& final(self)@ == verify_ok_spec(old(self)@, key@, conn_id)
                },
                Ok(None) => {
                    &&& r matches Err(e) && e is NotFound
                    &&& final(self)@ == old(self)@
                },
                Err(msg) => {
                    &&& r matches Err(e) && (e matches VerifyError::Store(m) && m == msg)
                    &&& final(self)@ == old(self)@
                },
            },
    {
        match lookup {
            Ok(Some(name)) => {
                self.client_list.insert(key, conn_id);
                proof {
                    assert(self@ =~= verify_ok_spec(old(self)@, key@, conn_id));
                }
                Ok(name)
            },
            Ok(None) => Err(VerifyError::NotFound),
            Err(msg) => Err(VerifyError::Store(msg)),
        }
    }

    /// Appends a payload to a key's backlog, creating the backlog on its
    /// first undelivered payload.
    pub fn queue_message(&mut self, key: String, player_id: String)
        requires
            old(self).wf(),
        ensures
            final(self).wf(),
            final(self)@.sessions == old(self)@.sessions,
            final(self)@.client_list == old(self)@.client_list,
            final(self)@.visitor_count == old(self)@.visitor_count,
            final(self)@.pending == queue_one_spec(old(self)@.pending, key@, player_id),
    {
        let mut q: Vec<String> = match self.pending_messages.remove_key(&key) {
            Some(q) => q,
            None => Vec::new(),
        };
        q.push(player_id);
        self.pending_messages.insert(key, q);
        proof {
            assert(self@.pending =~= queue_one_spec(old(self)@.pending, key@, player_id));
        }
    }

    /// Attempts to deliver a payload addressed to `key` at once: the key must
    /// resolve to a registered connection and the send into its outbound
    /// channel must be accepted.  Returns whether that happened.  On any
    /// failure — unknown key, stale or missing connection, closed channel —
    /// the payload is appended to the key's backlog instead of being
    /// discarded, to be retried by the next maintenance pass.
    pub fn add_player(&mut self, key: String, player_id: String) -> (delivered: bool)
        requires
            old(self).wf(),
        ensures
            final(self).wf(),
            final(self)@.sessions == old(self)@.sessions,
            final(self)@.client_list == old(self)@.client_list,
            final(self)@.visitor_count == old(self)@.visitor_count,
            delivered ==> resolve_spec(old(self)@, key@) is Some && final(self)@ == old(self)@,
            !delivered ==> final(self)@.pending == queue_one_spec(
                old(self)@.pending,
                key@,
                player_id,
            ),
    {
        let conn_opt: Option<u64> = match self.client_list.get(&key) {
            Some(c) => Some(*c),
            None => None,
        };
        if let Some(conn_id) = conn_opt {
            if let Some(tx) = self.sessions.get(conn_id) {
                if send_payload(tx, player_id.clone()) {
                    return true;
                }
            }
        }
        self.queue_message(key, player_id);
        false
    }

    /// One maintenance pass: for every key with a backlog, re-resolve its
    /// connection and drain the backlog in order from the front while sends
    /// are accepted; on the first refused send the rest stays queued, in
    /// order, for the next pass.  A backlog that empties is removed; a key
    /// that does not resolve is left untouched.
    pub fn process_pending_messages(&mut self)
        requires
            old(self).wf(),
        ensures
            final(self).wf(),
            final(self)@.sessions == old(self)@.sessions,
            final(self)@.client_list == old(self)@.client_list,
            final(self)@.visitor_count == old(self)@.visitor_count,
            forall|k: Seq<char>| #[trigger] final(self)@.pending.contains_key(k)
                ==> old(self)@.pending.contains_key(k),
            forall|k: Seq<char>| #[trigger] old(self)@.pending.contains_key(k)
                ==> entry_after_tick(old(self)@, final(self)@.pending, k, old(self)@.pending[k]),
    {
        let ghost v0 = self@;
        let ghost m0 = self.pending_messages@;
        let ghost cl0 = self.client_list@;
        let ghost ss0 = self.sessions@;
        proof {
            assert(v0.pending == pending_view(m0));
            assert(v0.client_list == cl0);
            assert(v0.sessions == ss0);
            assert(forall|k: Seq<char>| #[trigger] m0.contains_key(k)
                ==> pending_view(m0).contains_key(k) && pending_view(m0)[k] == m0[k]@
                    && m0[k]@.len() > 0);
            assert(forall|k: Seq<char>| #[trigger] pending_view(m0).contains_key(k)
                ==> m0.contains_key(k));
        }
        let mut remaining: StrMap<Vec<String>> = StrMap::new();
        loop
            invariant
                self.sessions.wf(),
                self.client_list.wf(),
                self.pending_messages.wf(),
                remaining.wf(),
                self.sessions@ == ss0,
                self.client_list@ == cl0,
                self.visitor_count as int == v0.visitor_count,
                v0.pending == pending_view(m0),
                v0.client_list == cl0,
                v0.sessions == ss0,
                forall|k: Seq<char>| #[trigger] self.pending_messages@.contains_key(k)
                    ==> m0.contains_key(k) && self.pending_messages@[k] == m0[k]
                        && m0[k]@.len() > 0,
                forall|k: Seq<char>| #[trigger] remaining@.contains_key(k)
                    ==> !self.pending_messages@.contains_key(k) && m0.contains_key(k)
                        && remaining@[k]@.len() > 0
                        && entry_result_ok(v0, k, m0[k]@, Some(remaining@[k]@)),
                forall|k: Seq<char>| #[trigger] m0.contains_key(k)
                    ==> self.pending_messages@.contains_key(k) || entry_result_ok(
                        v0,
                        k,
                        m0[k]@,
                        if remaining@.contains_key(k) {
                            Some(remaining@[k]@)
                        } else {
                            None
                        },
                    ),
            ensures
                self.sessions.wf(),
                self.client_list.wf(),
                remaining.wf(),
                self.sessions@ == ss0,
                self.client_list@ == cl0,
                self.visitor_count as int == v0.visitor_count,
                forall|k: Seq<char>| #[trigger] remaining@.contains_key(k)
                    ==> m0.contains_key(k) && remaining@[k]@.len() > 0
                        && entry_result_ok(v0, k, m0[k]@, Some(remaining@[k]@)),
                forall|k: Seq<char>| #[trigger] m0.contains_key(k)
                    ==> entry_result_ok(
                        v0,
                        k,
                        m0[k]@,
                        if remaining@.contains_key(k) {
                            Some(remaining@[k]@)
                        } else {
                            None
                        },
                    ),
            decreases self.pending_messages.spec_len(),
        {
            let ghost before = self.pending_messages@;
            match self.pending_messages.pop_entry() {
                None => {
                    break;
                },
                Some((key, queue)) => {
                    let ghost pre_q = queue@;
                    let ghost rem0 = remaining@;
                    proof {
                        assert(before.contains_key(key@));
                        assert(m0.contains_key(key@) && before[key@] == m0[key@]
                            && pre_q == m0[key@]@ && pre_q.len() > 0);
                    }
                    let mut q = queue;
                    let n0 = q.len();
                    let mut sent: usize = 0;
                    let mut did_resolve = false;
                    let conn_opt: Option<u64> = match self.client_list.get(&key) {
                        Some(c) => Some(*c),
                        None => None,
                    };
                    if let Some(conn_id) = conn_opt {
                        if let Some(tx) = self.sessions.get(conn_id) {
                            did_resolve = true;
                            assert(resolve_spec(v0, key@) == Some(conn_id));
                            let mut blocked = false;
                            while !blocked && q.len() > 0
                                invariant
                                    sent <= pre_q.len(),
                                    pre_q.len() == n0,
                                    q@ == pre_q.skip(sent as int),
                                decreases
                                    q@.len() + (if blocked { 0int } else { 1int }),
                            {
                                let payload = q[0].clone();
                                if send_payload(tx, payload) {
                                    let _ = q.remove(0);
                                    sent = sent + 1;
                                    proof {
                                        assert(q@ =~= pre_q.skip(sent as int));
                                    }
                                } else {
                                    blocked = true;
                                }
                            }
                        }
                    }
                    proof {
                        assert(did_resolve == resolve_spec(v0, key@) is Some);
                        assert(did_resolve ==> sent <= pre_q.len() && q@ == pre_q.skip(
                            sent as int,
                        ));
                        assert(!did_resolve ==> q@ == pre_q);
                    }
                    if q.len() > 0 {
                        proof {
                            if did_resolve {
                                assert(q@.len() == pre_q.len() - sent);
                                assert(0 <= sent < pre_q.len());
                            }
                            assert(entry_result_ok(v0, key@, pre_q, Some(q@)));
                        }
                        remaining.insert(key, q);
                    } else {
                        proof {
                            assert(did_resolve);
                            assert(entry_result_ok(v0, key@, pre_q, None));
                        }
                    }
                    assert forall|k: Seq<char>| #[trigger] m0.contains_key(k)
                        implies self.pending_messages@.contains_key(k) || entry_result_ok(
                        v0,
                        k,
                        m0[k]@,
                        if remaining@.contains_key(k) {
                            Some(remaining@[k]@)
                        } else {
                            None
                        },
                    ) by {
                        if !self.pending_messages@.contains_key(k) {
                            if k == key@ {
                            } else {
                                assert(!before.contains_key(k));
                                assert(!rem0.contains_key(k) ==> !remaining@.contains_key(k));
                                assert(rem0.contains_key(k) ==> remaining@.contains_key(k)
                                    && remaining@[k] == rem0[k]);
                            }
                        }
                    }
                },
            }
        }
        self.pending_messages = remaining;
        proof {
            assert(forall|k: Seq<char>| #[trigger] remaining@.contains_key(k)
                ==> pending_view(remaining@).contains_key(k)
                    && pending_view(remaining@)[k] == remaining@[k]@);
            assert(forall|k: Seq<char>| #[trigger] pending_view(remaining@).contains_key(k)
                ==> remaining@.contains_key(k));
            assert(self@.pending == pending_view(remaining@));
            assert forall|k: Seq<char>| #[trigger] old(self)@.pending.contains_key(k)
                implies entry_after_tick(old(self)@, self@.pending, k, old(self)@.pending[k]) by {
                assert(m0.contains_key(k));
                assert(old(self)@.pending[k] == m0[k]@);
                assert(entry_result_ok(
                    v0,
                    k,
                    m0[k]@,
                    if remaining@.contains_key(k) {
                        Some(remaining@[k]@)
                    } else {
                        None
                    },
                ));
            }
            assert(self@ =~= WsServerView {
                pending: pending_view(remaining@),
                ..old(self)@
            });
        }
    }

    /// The connection a key is currently bound to by the registry, whether or
    /// not that connection is still in the session table.
    pub fn bound_connection(&self, key: &String) -> (r: Option<ConnId>)
        requires
            self.wf(),
        ensures
            r == (if self@.client_list.contains_key(key@) {
                Some(self@.client_list[key@])
            } else {
                None::<u64>
            }),
    {
        match self.client_list.get(key) {
            Some(c) => Some(*c),
            None => None,
        }
    }

    /// Whether a connection identifier is currently registered.
    pub fn is_connected(&self, conn_id: ConnId) -> (r: bool)
        requires
            self.wf(),
        ensures
            r == self@.sessions.contains_key(conn_id),
    {
        self.sessions.contains(conn_id)
    }

    /// The backlog currently queued for a key, oldest first, or `None` when
    /// nothing is queued.
    pub fn pending_for(&self, key: &String) -> (r: Option<&Vec<String>>)
        requires
            self.wf(),
        ensures
            match r {
                Some(q) => self@.pending.contains_key(key@) && q@ == self@.pending[key@],
                None => !self@.pending.contains_key(key@),
            },
    {
        self.pending_messages.get(key)
    }

    /// How many connections have ever been registered.
    pub fn visitor_total(&self) -> (n: usize)
        ensures
            n == self@.visitor_count,
    {
        self.visitor_count
    }
}

/// Law: a connection identifier issued by `connect` — one absent from the
/// session table it was issued against — differs from every identifier still
/// registered in that table, so the identifiers of live connections are
/// pairwise distinct.
pub proof fn lemma_connect_ids_distinct(v: WsServerView, registered: ConnId, fresh: ConnId)
    requires
        v.sessions.contains_key(registered),
        !v.sessions.contains_key(fresh),
    ensures
        fresh != registered,
{
}

/// Law: `disconnect` is idempotent — removing the same identifier twice
/// leaves exactly the state that removing it once leaves — and removing an
/// identifier that is not registered changes nothing.
pub proof fn lemma_disconnect_idempotent(v: WsServerView, conn_id: ConnId)
    ensures
        disconnect_spec(disconnect_spec(v, conn_id), conn_id) == disconnect_spec(v, conn_id),
        !v.sessions.contains_key(conn_id) ==> disconnect_spec(v, conn_id) == v,
{
    assert(disconnect_spec(disconnect_spec(v, conn_id), conn_id) =~= disconnect_spec(v, conn_id));
    if !v.sessions.contains_key(conn_id) {
        assert(v.sessions.remove(conn_id) =~= v.sessions);
        assert(disconnect_spec(v, conn_id) =~= v);
    }
}

/// Law: after a successful `verify(key, conn_id)`, delivery for `key`
/// resolves to exactly `conn_id`, provided that connection is still
/// registered.
pub proof fn lemma_verify_binds_delivery(v: WsServerView, key: Seq<char>, conn_id: ConnId)
    requires
        verify_ok_spec(v, key, conn_id).sessions.contains_key(conn_id),
    ensures
        resolve_spec(verify_ok_spec(v, key, conn_id), key) == Some(conn_id),
{
}

/// Law: an unknown key leaves the registry untouched — the state after a
/// failed verification is the state before it, so no entry is created.  This
/// restates, over the abstract state, what `verify` ensures on `Ok(None)`.
pub proof fn lemma_verify_unknown_key_no_entry(v: WsServerView, key: Seq<char>)
    requires
        !v.client_list.contains_key(key),
    ensures
        resolve_spec(v, key) is None,
{
}

/// Law: backlogs keep submission order — queueing `a` and then `b` for one
/// key leaves that key's backlog equal to the prior backlog with `a` and `b`
/// appended, in that order.
/// Law: a maintenance pass never reorders a backlog — any two payloads still
/// queued for a key afterwards already stood in the backlog before the pass,
/// in the same relative order and the same positions relative to its tail.
pub proof fn lemma_tick_preserves_pairwise_order(
    v: WsServerView,
    post: Map<Seq<char>, Seq<String>>,
    k: Seq<char>,
    pre_q: Seq<String>,
    i: int,
    j: int,
)
    requires
        entry_after_tick(v, post, k, pre_q),
        post.contains_key(k),
        0 <= i < j < post[k].len(),
    ensures
        exists|i2: int, j2: int|
            0 <= i2 < j2 < pre_q.len() && pre_q[i2] == post[k][i] && pre_q[j2] == post[k][j],
{
    if resolve_spec(v, k) is None {
        assert(pre_q[i] == post[k][i] && pre_q[j] == post[k][j]);
    } else {
        let n = choose|n: int| 0 <= n < pre_q.len() && post[k] == pre_q.skip(n);
        assert(pre_q[n + i] == post[k][i] && pre_q[n + j] == post[k][j]);
    }
}

pub proof fn lemma_queue_preserves_order(
    p: Map<Seq<char>, Seq<String>>,
    key: Seq<char>,
    a: String,
    b: String,
)
    ensures
        ({
            let p2 = queue_one_spec(queue_one_spec(p, key, a), key, b);
            &&& p2.contains_key(key)
            &&& p2[key] == (if p.contains_key(key) {
                p[key]
            } else {
                Seq::<String>::empty()
            }) + seq![a, b]
        }),
{
    let p1 = queue_one_spec(p, key, a);
    let p2 = queue_one_spec(p1, key, b);
    if p.contains_key(key) {
        assert(p2[key] =~= p[key] + seq![a, b]);
    } else {
        assert(p2[key] =~= Seq::<String>::empty() + seq![a, b]);
    }
}

} // verus!
