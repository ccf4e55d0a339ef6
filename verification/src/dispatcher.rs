//! Acceptance of new connections: each one is given a fresh, unique session
//! identity and a handler bound to the shared registry.

use crate::session::{AuthStrategy, Handler};
use vstd::prelude::*;

verus! {

/// Allocates session identities monotonically and constructs a handler for
/// each accepted connection.  Identities are never reused, even after a
/// session closes, so a stale reference to an old identity can never collide
/// with a new session.
pub struct Dispatcher {
    pub next_id: u64,
    pub strategy: AuthStrategy,
}

impl Dispatcher {
    /// A dispatcher that will number its sessions from zero and give every
    /// connection the same authentication policy.
    pub fn new(strategy: AuthStrategy) -> (d: Dispatcher)
        ensures
            d.next_id == 0,
            d.strategy == strategy,
    {
        Dispatcher { next_id: 0, strategy }
    }

    /// Accepts one connection: hands out the next session identity and a
    /// fresh handler carrying it, and advances the counter.  The counter
    /// only ever grows, so no two calls return the same identity.
    pub fn new_session(&mut self, remote: Option<String>) -> (h: Handler)
        requires
            old(self).next_id < u64::MAX,
        ensures
            h.session_id == old(self).next_id,
            h.strategy == old(self).strategy,
            h.state is Authenticating,
            h.remote == remote,
            final(self).next_id == old(self).next_id + 1,
            final(self).strategy == old(self).strategy,
    {
        let id = self.next_id;
        self.next_id = self.next_id + 1;
        Handler::new(id, self.strategy, remote)
    }
}

/// The identities a dispatcher hands out from a starting counter value:
/// the `i`-th accepted connection receives `first + i`.
pub open spec fn issued_ids(first: u64, n: nat) -> Seq<int> {
    Seq::new(n, |i: int| first + i)
}

/// Session identities are unique across the process lifetime: no two
/// connections accepted by one dispatcher ever share an identity, however
/// many are accepted.
pub proof fn lemma_issued_ids_unique(first: u64, n: nat)
    ensures
        forall|i: int, j: int|
            0 <= i < j < n ==> issued_ids(first, n)[i] != issued_ids(first, n)[j],
{
}

} // verus!
