//! Per-connection session handling: the authentication decision, channel
//! registration, and the broadcast plan for each inbound data event.
//!
//! A handler never writes to the network itself.  For every inbound data
//! event it produces a [`BroadcastPlan`] saying exactly which bytes must be
//! pushed to which registered handle (the fan-out) and what must be echoed
//! back to the sender; the surrounding transport code performs the writes and
//! may skip any recipient whose write fails, without touching the rest.

use crate::model::{
    distinct_keys, has_key, lookup, touch_entries, without_key, ChannelKey, Entry,
};
use crate::registry::Registry;
use vstd::prelude::*;

verus! {

/// The per-connection authentication policy, chosen when the connection is
/// constructed and stateless beyond its variant.
#[derive(Clone, Copy, Debug, PartialEq, Eq, Structural)]
pub enum AuthStrategy {
    /// Every credential is rejected; the connection never becomes active.
    RejectAll,
    /// Every credential is accepted; authentication never legitimately
    /// fails.
    AcceptAny,
}

/// The protocol-level answer to one authentication attempt.
#[derive(Clone, Copy, Debug, PartialEq, Eq, Structural)]
pub enum AuthOutcome {
    Accept,
    Reject,
}

/// One credential offered by the remote party.  The decision never depends
/// on its contents, only on the connection's [`AuthStrategy`].
#[derive(Clone, Debug)]
pub enum Credential {
    Password { user: String, password: String },
    PublicKey { key: Vec<u8> },
}

/// The connection's position in its lifecycle.  A handler is constructed
/// directly into `Authenticating`; `Closed` is reached on transport-level
/// disconnect, channel close, or timeout.
#[derive(Clone, Copy, Debug, PartialEq, Eq, Structural)]
pub enum SessionState {
    Authenticating,
    Active,
    ChannelOpen,
    Closed,
}

/// What a connection's [`AuthStrategy`] answers to any credential.
pub open spec fn auth_decision(strategy: AuthStrategy) -> AuthOutcome {
    match strategy {
        AuthStrategy::RejectAll => AuthOutcome::Reject,
        AuthStrategy::AcceptAny => AuthOutcome::Accept,
    }
}

/// One write the transport layer must perform on a registered handle.
pub struct OutboundWrite {
    pub session_id: u64,
    pub channel_id: u64,
    pub handle: u64,
    pub bytes: Vec<u8>,
}

/// Everything one inbound data event obliges the transport layer to write:
/// the fan-out to every other registered channel, and the echo back onto the
/// sender's own channel.
pub struct BroadcastPlan {
    pub fanout: Vec<OutboundWrite>,
    pub echo_channel: u64,
    pub echo_bytes: Vec<u8>,
}

/// The fan-out `fan` delivers `data` to exactly the entries of `targets`:
/// one write per target, aimed at its key and handle, in target order,
/// carrying the bytes verbatim.
pub open spec fn fanout_matches(fan: Seq<OutboundWrite>, targets: Seq<Entry>, data: Seq<u8>) -> bool {
    &&& fan.len() == targets.len()
    &&& forall|i: int|
        0 <= i < fan.len() ==> {
            &&& (#[trigger] fan[i]).session_id == targets[i].0.0
            &&& fan[i].channel_id == targets[i].0.1
            &&& fan[i].handle == targets[i].1
            &&& fan[i].bytes@ == data
        }
}

/// One accepted connection's session: its identity, its policy, and its
/// position in the lifecycle.  Everything here is owned by the connection's
/// own handler; only the registry is shared.
pub struct Handler {
    pub session_id: u64,
    pub strategy: AuthStrategy,
    pub state: SessionState,
    pub remote: Option<String>,
}

impl Handler {
    /// A fresh handler for a just-accepted connection, already past the
    /// transport handshake and waiting for credentials.
    pub fn new(session_id: u64, strategy: AuthStrategy, remote: Option<String>) -> (h: Handler)
        ensures
            h.session_id == session_id,
            h.strategy == strategy,
            h.state is Authenticating,
            h.remote == remote,
    {
        Handler { session_id, strategy, state: SessionState::Authenticating, remote }
    }

    /// Decides one authentication attempt.  The outcome depends on the
    /// strategy alone, never on the credential: under `AcceptAny` every
    /// attempt is accepted and the session becomes active; under `RejectAll`
    /// every attempt is rejected and the session stays in `Authenticating`
    /// until the remote gives up.
    pub fn on_auth_attempt(&mut self, credential: &Credential) -> (r: AuthOutcome)
        requires
            old(self).state is Authenticating,
        ensures
            r == auth_decision(old(self).strategy),
            final(self).session_id == old(self).session_id,
            final(self).strategy == old(self).strategy,
            final(self).remote == old(self).remote,
            final(self).state == (if r is Accept {
                SessionState::Active
            } else {
                SessionState::Authenticating
            }),
    {
        match self.strategy {
            AuthStrategy::AcceptAny => {
                self.state = SessionState::Active;
                AuthOutcome::Accept
            },
            AuthStrategy::RejectAll => AuthOutcome::Reject,
        }
    }

    /// Registers the write handle of a channel that just finished opening.
    /// Only an authenticated session may open a channel.  The entry becomes
    /// the registry's most recently used; a fresh key inserted into a full
    /// registry evicts the least recently used entry.
    pub fn on_channel_open(&mut self, registry: &mut Registry, channel_id: u64, handle: u64)
        requires
            old(self).state is Active || old(self).state is ChannelOpen,
            old(registry).wf(),
        ensures
            final(self).session_id == old(self).session_id,
            final(self).strategy == old(self).strategy,
            final(self).remote == old(self).remote,
            final(self).state is ChannelOpen,
            final(registry).wf(),
            final(registry).capacity() == old(registry).capacity(),
            final(registry).entries() == crate::model::put_entries(
                old(registry).entries(),
                old(registry).capacity(),
                (old(self).session_id, channel_id),
                handle,
            ),
    {
        registry.insert(self.session_id, channel_id, handle);
        self.state = SessionState::ChannelOpen;
    }

    /// Plans the broadcast for one inbound data event on channel
    /// `channel_id`: the bytes go, verbatim and in registry order, to every
    /// registered channel except the sender's own, and are echoed verbatim
    /// back onto the sender's channel.  The sender's registry entry is
    /// refreshed (counted as used); no other entry moves.
    pub fn on_data(&self, registry: &mut Registry, channel_id: u64, data: &[u8]) -> (p:
        BroadcastPlan)
        requires
            self.state is ChannelOpen,
            old(registry).wf(),
        ensures
            final(registry).wf(),
            final(registry).capacity() == old(registry).capacity(),
            final(registry).entries() == touch_entries(
                old(registry).entries(),
                (self.session_id, channel_id),
            ),
            fanout_matches(
                p.fanout@,
                without_key(old(registry).entries(), (self.session_id, channel_id)),
                data@,
            ),
            p.echo_channel == channel_id,
            p.echo_bytes@ == data@,
    {
        let ghost key: ChannelKey = (self.session_id, channel_id);
        registry.touch(self.session_id, channel_id);
        proof {
            crate::model::lemma_touch_entries(old(registry).entries(), key);
        }
        let targets = registry.recipients(self.session_id, channel_id);
        let ghost target_seq = targets@;
        let mut fanout: Vec<OutboundWrite> = Vec::new();
        let n = targets.len();
        let mut i: usize = 0;
        while i < n
            invariant
                n == target_seq.len(),
                i <= n,
                targets@ == target_seq,
                fanout_matches(fanout@, target_seq.take(i as int), data@),
            decreases n - i,
        {
            let t = targets[i];
            fanout.push(OutboundWrite {
                session_id: t.0.0,
                channel_id: t.0.1,
                handle: t.1,
                bytes: vstd::slice::slice_to_vec(data),
            });
            proof {
                assert(target_seq.take(i + 1).drop_last() =~= target_seq.take(i as int));
            }
            i = i + 1;
        }
        proof {
            assert(target_seq.take(n as int) =~= target_seq);
        }
        BroadcastPlan {
            fanout,
            echo_channel: channel_id,
            echo_bytes: vstd::slice::slice_to_vec(data),
        }
    }

    /// Tears the session down on transport-level disconnect, channel close
    /// or timeout: the channel's entry leaves the registry, so no future
    /// broadcast is aimed at it, and the handler is closed.
    pub fn on_close(&mut self, registry: &mut Registry, channel_id: u64)
        requires
            old(registry).wf(),
        ensures
            final(self).session_id == old(self).session_id,
            final(self).strategy == old(self).strategy,
            final(self).remote == old(self).remote,
            final(self).state is Closed,
            final(registry).wf(),
            final(registry).capacity() == old(registry).capacity(),
            final(registry).entries() == without_key(
                old(registry).entries(),
                (old(self).session_id, channel_id),
            ),
    {
        registry.remove(self.session_id, channel_id);
        self.state = SessionState::Closed;
    }
}

/// Law of broadcast delivery: when a plan's fan-out matches the registry
/// contents minus the sender — which [`Handler::on_data`] guarantees — every
/// other registered channel `b` receives the sender's bytes verbatim,
/// through exactly one write, aimed at `b`'s own registered handle.  Since a
/// handler performs one plan per inbound event and each channel's transport
/// preserves write order, `b` observes one sender's events in their send
/// order.
pub proof fn lemma_fanout_delivery(
    fan: Seq<OutboundWrite>,
    e: Seq<Entry>,
    sender: ChannelKey,
    b: ChannelKey,
    data: Seq<u8>,
)
    requires
        fanout_matches(fan, without_key(e, sender), data),
        distinct_keys(e),
        has_key(e, b),
        b != sender,
    ensures
        exists|i: int|
            {
                &&& 0 <= i < fan.len()
                &&& ((#[trigger] fan[i]).session_id, fan[i].channel_id) == b
                &&& Option::Some(fan[i].handle) == lookup(e, b)
                &&& fan[i].bytes@ == data
            },
        forall|i: int, j: int|
            (0 <= i < fan.len() && 0 <= j < fan.len() && ((#[trigger] fan[i]).session_id,
            fan[i].channel_id) == b && ((#[trigger] fan[j]).session_id, fan[j].channel_id) == b)
                ==> i == j,
{
    let t = without_key(e, sender);
    crate::model::lemma_without_key(e, sender);
    let i = choose|i: int| 0 <= i < t.len() && (#[trigger] t[i]).0 == b;
    crate::model::lemma_lookup_at_index(t, i);
    assert(lookup(t, b) == lookup(e, b));
    assert(((fan[i].session_id, fan[i].channel_id)) == t[i].0);
    assert(Option::Some(fan[i].handle) == lookup(e, b));
    assert forall|i1: int, j1: int|
        (0 <= i1 < fan.len() && 0 <= j1 < fan.len() && ((#[trigger] fan[i1]).session_id,
        fan[i1].channel_id) == b && ((#[trigger] fan[j1]).session_id, fan[j1].channel_id) == b)
            implies i1 == j1 by {
        assert(t[i1].0 == b && t[j1].0 == b);
        if i1 != j1 {
            assert(t[i1].0 != t[j1].0);
        }
    }
}

/// Law of self-exclusion: no write of a fan-out is aimed at the sender's own
/// channel — the sender sees its bytes only through the echo — and when the
/// sender's session has no other channel registered, no write is aimed at
/// that session at all.
pub proof fn lemma_no_self_delivery(
    fan: Seq<OutboundWrite>,
    e: Seq<Entry>,
    sender: ChannelKey,
    data: Seq<u8>,
)
    requires
        fanout_matches(fan, without_key(e, sender), data),
    ensures
        forall|i: int|
            0 <= i < fan.len() ==> ((#[trigger] fan[i]).session_id, fan[i].channel_id) != sender,
        (forall|j: int| 0 <= j < e.len() && (#[trigger] e[j]).0.0 == sender.0 ==> e[j].0 == sender)
            ==> forall|i: int| 0 <= i < fan.len() ==> (#[trigger] fan[i]).session_id != sender.0,
{
    let t = without_key(e, sender);
    crate::model::lemma_without_key(e, sender);
    crate::model::lemma_without_key_subset(e, sender);
    assert forall|i: int| 0 <= i < fan.len() implies ((#[trigger] fan[i]).session_id,
        fan[i].channel_id) != sender by {
        if (fan[i].session_id, fan[i].channel_id) == sender {
            assert(t[i].0 == sender);
            assert(has_key(t, sender));
        }
    }
    if forall|j: int| 0 <= j < e.len() && (#[trigger] e[j]).0.0 == sender.0 ==> e[j].0 == sender {
        assert forall|i: int| 0 <= i < fan.len() implies (#[trigger] fan[i]).session_id
            != sender.0 by {
            if fan[i].session_id == sender.0 {
                assert(t[i].0.0 == sender.0);
                let j = choose|j: int| 0 <= j < e.len() && e[j] == #[trigger] t[i];
                assert(e[j].0 == sender);
                assert(t[i].0 == sender);
                assert(has_key(t, sender));
            }
        }
    }
}

/// Law of send order: two plans computed against the same registry contents
/// place their write to any one recipient at the same fan-out position, so a
/// recipient's handle sees one sender's consecutive payloads as consecutive
/// writes, in the order they were sent.
pub proof fn lemma_send_order(
    fan1: Seq<OutboundWrite>,
    fan2: Seq<OutboundWrite>,
    targets: Seq<Entry>,
    data1: Seq<u8>,
    data2: Seq<u8>,
    i: int,
)
    requires
        fanout_matches(fan1, targets, data1),
        fanout_matches(fan2, targets, data2),
        0 <= i < targets.len(),
    ensures
        fan1[i].bytes@ == data1,
        fan2[i].bytes@ == data2,
        (fan1[i].session_id, fan1[i].channel_id) == (fan2[i].session_id, fan2[i].channel_id),
        fan1[i].handle == fan2[i].handle,
{
}

/// The handler state after `n` authentication attempts on a connection that
/// has seen nothing else: one accepted attempt activates the session, a
/// rejected one leaves it waiting for credentials.
pub open spec fn state_after_attempts(strategy: AuthStrategy, n: nat) -> SessionState
    decreases n,
{
    if n == 0 {
        SessionState::Authenticating
    } else if auth_decision(strategy) is Accept {
        SessionState::Active
    } else {
        state_after_attempts(strategy, (n - 1) as nat)
    }
}

/// Law of the rejecting policy: under `RejectAll`, however many credentials
/// are offered, the session never becomes active — and since
/// [`Handler::on_channel_open`] demands an active session, no channel of
/// such a connection is ever registered.
pub proof fn lemma_reject_all_never_activates(n: nat)
    ensures
        state_after_attempts(AuthStrategy::RejectAll, n) is Authenticating,
    decreases n,
{
    if n > 0 {
        lemma_reject_all_never_activates((n - 1) as nat);
    }
}

} // verus!
