//! The pub/sub registry behind the live-update fan-out: clients, their
//! per-market subscriptions, and the recipient set of a broadcast. The
//! transport endpoints themselves live with the host program.

use vstd::prelude::*;


verus! {

/// The subscriber set of one market.
#[derive(Clone, Debug)]
pub struct MarketSubscribers {
    pub market_id: u128,
    pub subscribers: Vec<u64>,
}

/// Registry of live clients and their market subscriptions.
#[derive(Debug)]
pub struct WebSocketManager {
    /// Identifiers of connected clients.
    pub clients: Vec<u64>,
    /// Per-market subscriber sets.
    pub subscriptions: Vec<MarketSubscribers>,
    /// The identifier the next client will receive.
    pub next_client_id: u64,
}

impl WebSocketManager {
    /// Client ids unique and below the allocator's cursor; market sets
    /// keyed uniquely; no subscriber listed twice.
    pub open spec fn wf(self) -> bool {
        &&& forall|i: int|
            0 <= i < self.clients@.len() ==> (#[trigger] self.clients@[i]) < self.next_client_id
        &&& forall|i: int, j: int|
            #![trigger self.clients@[i], self.clients@[j]]
            0 <= i < j < self.clients@.len() ==> self.clients@[i] != self.clients@[j]
        &&& forall|i: int, j: int|
            #![trigger self.subscriptions@[i], self.subscriptions@[j]]
            0 <= i < j < self.subscriptions@.len() ==> self.subscriptions@[i].market_id
                != self.subscriptions@[j].market_id
        &&& forall|i: int|
            0 <= i < self.subscriptions@.len() ==> no_dup(
                (#[trigger] self.subscriptions@[i]).subscribers@,
            )
    }

    /// Whether `client_id` is subscribed to `market_id`.
    pub open spec fn subscribed(self, client_id: u64, market_id: u128) -> bool {
        exists|i: int|
            0 <= i < self.subscriptions@.len() && (#[trigger] self.subscriptions@[i]).market_id
                == market_id && self.subscriptions@[i].subscribers@.contains(client_id)
    }

    pub fn new() -> (r: WebSocketManager)
        ensures
            r.wf(),
            r.clients@.len() == 0,
            r.subscriptions@.len() == 0,
            r.next_client_id == 1,
    {
        WebSocketManager { clients: Vec::new(), subscriptions: Vec::new(), next_client_id: 1 }
    }

    /// Register a new client and hand out its fresh identifier.
    pub fn add_client(&mut self) -> (id: u64)
        requires
            old(self).wf(),
            old(self).next_client_id < u64::MAX,
        ensures
            final(self).wf(),
            id == old(self).next_client_id,
            !old(self).clients@.contains(id),
            final(self).clients@ == old(self).clients@.push(id),
            final(self).subscriptions@ == old(self).subscriptions@,
            final(self).next_client_id == old(self).next_client_id + 1,
    {
        let id = self.next_client_id;
        proof {
            if self.clients@.contains(id) {
                let k = choose|k: int| 0 <= k < self.clients@.len() && self.clients@[k] == id;
                assert(self.clients@[k] < self.next_client_id);
            }
        }
        self.clients.push(id);
        self.next_client_id = self.next_client_id + 1;
        proof {
            assert forall|i: int, j: int|
                #![trigger self.clients@[i], self.clients@[j]]
                0 <= i < j < self.clients@.len() implies self.clients@[i] != self.clients@[j] by {
                if j == self.clients@.len() - 1 {
                    assert(self.clients@[i] == old(self).clients@[i]);
                    assert(old(self).clients@.contains(old(self).clients@[i]));
                }
            }
        }
        id
    }

    /// Remove a client: it leaves the client list and every subscriber set.
    pub fn remove_client(&mut self, client_id: u64)
        requires
            old(self).wf(),
        ensures
            final(self).wf(),
            forall|c: u64|
                #![trigger final(self).clients@.contains(c)]
                final(self).clients@.contains(c) <==> (old(self).clients@.contains(c) && c
                    != client_id),
            final(self).subscriptions@.len() == old(self).subscriptions@.len(),
            forall|i: int|
                0 <= i < final(self).subscriptions@.len() ==> (
                #[trigger] final(self).subscriptions@[i]).market_id == old(self).subscriptions@[i].market_id,
            forall|i: int, c: u64|
                #![trigger final(self).subscriptions@[i].subscribers@.contains(c)]
                0 <= i < final(self).subscriptions@.len() ==> (final(self).subscriptions@[i].subscribers@.contains(c) <==> (old(self).subscriptions@[i].subscribers@.contains(c) && c != client_id)),
            final(self).next_client_id == old(self).next_client_id,
    {
        remove_id(&mut self.clients, client_id);
        let n = self.subscriptions.len();
        let mut i: usize = 0;
        #[verifier::loop_isolation(false)]
        while i < n
            invariant
                0 <= i <= n,
                n == self.subscriptions@.len(),
                no_dup(self.clients@),
                self.next_client_id == old(self).next_client_id,
                forall|c: u64|
                    #![trigger self.clients@.contains(c)]
                    self.clients@.contains(c) <==> (old(self).clients@.contains(c) && c
                        != client_id),
                forall|k: int|
                    0 <= k < n ==> (#[trigger] self.subscriptions@[k]).market_id == old(self).subscriptions@[k].market_id,
                forall|k: int|
                    0 <= k < n ==> no_dup((#[trigger] self.subscriptions@[k]).subscribers@),
                forall|k: int, c: u64|
                    #![trigger self.subscriptions@[k].subscribers@.contains(c)]
                    0 <= k < i ==> (self.subscriptions@[k].subscribers@.contains(c) <==> (old(self).subscriptions@[k].subscribers@.contains(c) && c != client_id)),
                forall|k: int|
                    i <= k < n ==> (#[trigger] self.subscriptions@[k]).subscribers@ == old(self).subscriptions@[k].subscribers@,
            decreases n - i,
        {
            let ghost prev = self.subscriptions@;
            let mut ms = self.subscriptions.remove(i);
            remove_id(&mut ms.subscribers, client_id);
            self.subscriptions.insert(i, ms);
            proof {
                assert(self.subscriptions@ =~= prev.update(
                    i as int,
                    self.subscriptions@[i as int],
                ));
            }
            i += 1;
        }
        proof {
            assert forall|ii: int|
                0 <= ii < self.clients@.len() implies (#[trigger] self.clients@[ii])
                < self.next_client_id by {
                assert(self.clients@.contains(self.clients@[ii]));
                let k = choose|k: int|
                    0 <= k < old(self).clients@.len() && old(self).clients@[k]
                        == self.clients@[ii];
            }
            assert forall|a: int, b: int|
                #![trigger self.subscriptions@[a], self.subscriptions@[b]]
                0 <= a < b < self.subscriptions@.len() implies self.subscriptions@[a].market_id
                != self.subscriptions@[b].market_id by {
                assert(old(self).subscriptions@[a].market_id != old(
                    self,
                ).subscriptions@[b].market_id);
            }
        }
    }

    /// Subscribe a client to a market's updates; the set is created on first
    /// use, and subscribing twice changes nothing.
    pub fn subscribe(&mut self, client_id: u64, market_id: u128)
        requires
            old(self).wf(),
        ensures
            final(self).wf(),
            final(self).subscribed(client_id, market_id),
            forall|c: u64, m: u128|
                !(c == client_id && m == market_id) ==> (#[trigger] final(self).subscribed(c, m)
                    <==> old(self).subscribed(c, m)),
            final(self).clients@ == old(self).clients@,
            final(self).next_client_id == old(self).next_client_id,
    {
        let n = self.subscriptions.len();
        let mut i: usize = 0;
        #[verifier::loop_isolation(false)]
        while i < n && self.subscriptions[i].market_id != market_id
            invariant
                0 <= i <= n,
                self.subscriptions@ == old(self).subscriptions@,
                forall|k: int|
                    0 <= k < i ==> (#[trigger] self.subscriptions@[k]).market_id != market_id,
            decreases n - i,
        {
            i += 1;
        }
        if i == n {
            let mut subscribers: Vec<u64> = Vec::new();
            subscribers.push(client_id);
            self.subscriptions.push(MarketSubscribers { market_id, subscribers });
            proof {
                let s = self.subscriptions@;
                assert(s[s.len() - 1].subscribers@.contains(client_id)) by {
                    assert(s[s.len() - 1].subscribers@[0] == client_id);
                }
                assert forall|c: u64, m: u128|
                    !(c == client_id && m == market_id) implies (#[trigger] self.subscribed(c, m) <==> old(self).subscribed(c, m)) by {
                    if self.subscribed(c, m) {
                        let k = choose|k: int|
                            0 <= k < s.len() && (#[trigger] s[k]).market_id == m
                                && s[k].subscribers@.contains(c);
                        if k < s.len() - 1 {
                            assert(old(self).subscriptions@[k] == s[k]);
                        } else {
                            assert(m == market_id);
                            assert(s[k].subscribers@[0] == client_id);
                            let ci = choose|ci: int|
                                0 <= ci < s[k].subscribers@.len() && s[k].subscribers@[ci] == c;
                            assert(ci == 0);
                            assert(false);
                        }
                    }
                    if old(self).subscribed(c, m) {
                        let k = choose|k: int|
                            0 <= k < old(self).subscriptions@.len() && (#[trigger] old(self).subscriptions@[k]).market_id == m && old(self).subscriptions@[k].subscribers@.contains(c);
                        assert(s[k] == old(self).subscriptions@[k]);
                    }
                }
            }
        } else {
            let already = contains_id(&self.subscriptions[i].subscribers, client_id);
            if already {
                proof {
                    assert(self.subscriptions@[i as int].subscribers@.contains(client_id));
                }
            } else {
                let mut ms = self.subscriptions.remove(i);
                ms.subscribers.push(client_id);
                self.subscriptions.insert(i, ms);
                proof {
                    let so = old(self).subscriptions@;
                    let s = self.subscriptions@;
                    assert(s =~= so.update(i as int, s[i as int]));
                    assert(s[i as int].subscribers@ == so[i as int].subscribers@.push(client_id));
                    assert(no_dup(s[i as int].subscribers@)) by {
                        let v = s[i as int].subscribers@;
                        assert forall|a: int, b: int|
                            #![trigger v[a], v[b]]
                            0 <= a < b < v.len() implies v[a] != v[b] by {
                            if b == v.len() - 1 {
                                assert(so[i as int].subscribers@.contains(v[a])) by {
                                    assert(v[a] == so[i as int].subscribers@[a]);
                                }
                            }
                        }
                    }
                    assert(s[i as int].subscribers@.contains(client_id)) by {
                        assert(s[i as int].subscribers@.last() == client_id);
                    }
                    assert forall|c: u64, m: u128|
                        !(c == client_id && m == market_id) implies (#[trigger] self.subscribed(c, m) <==> old(self).subscribed(c, m)) by {
                        if self.subscribed(c, m) {
                            let k = choose|k: int|
                                0 <= k < s.len() && (#[trigger] s[k]).market_id == m
                                    && s[k].subscribers@.contains(c);
                            if k != i as int {
                                assert(so[k] == s[k]);
                            } else {
                                assert(m == market_id);
                                let ci = choose|ci: int|
                                    0 <= ci < s[k].subscribers@.len() && s[k].subscribers@[ci]
                                        == c;
                                assert(ci < so[i as int].subscribers@.len());
                                assert(so[i as int].subscribers@.contains(c)) by {
                                    assert(so[i as int].subscribers@[ci] == c);
                                }
                            }
                        }
                        if old(self).subscribed(c, m) {
                            let k = choose|k: int|
                                0 <= k < so.len() && (#[trigger] so[k]).market_id == m
                                    && so[k].subscribers@.contains(c);
                            if k != i as int {
                                assert(s[k] == so[k]);
                            } else {
                                let ci = choose|ci: int|
                                    0 <= ci < so[k].subscribers@.len() && so[k].subscribers@[ci]
                                        == c;
                                assert(s[i as int].subscribers@[ci] == c);
                                assert(s[i as int].subscribers@.contains(c));
                            }
                        }
                    }
                }
            }
        }
    }

    /// Unsubscribe a client from one market. Other subscriptions stay.
    pub fn unsubscribe(&mut self, client_id: u64, market_id: u128)
        requires
            old(self).wf(),
        ensures
            final(self).wf(),
            !final(self).subscribed(client_id, market_id),
            forall|c: u64, m: u128|
                !(c == client_id && m == market_id) ==> (#[trigger] final(self).subscribed(c, m)
                    <==> old(self).subscribed(c, m)),
            final(self).clients@ == old(self).clients@,
            final(self).next_client_id == old(self).next_client_id,
    {
        let n = self.subscriptions.len();
        let mut i: usize = 0;
        #[verifier::loop_isolation(false)]
        while i < n && self.subscriptions[i].market_id != market_id
            invariant
                0 <= i <= n,
                self.subscriptions@ == old(self).subscriptions@,
                forall|k: int|
                    0 <= k < i ==> (#[trigger] self.subscriptions@[k]).market_id != market_id,
            decreases n - i,
        {
            i += 1;
        }
        if i < n {
            let mut ms = self.subscriptions.remove(i);
            remove_id(&mut ms.subscribers, client_id);
            self.subscriptions.insert(i, ms);
            proof {
                let so = old(self).subscriptions@;
                let s = self.subscriptions@;
                assert(s =~= so.update(i as int, s[i as int]));
                assert forall|c: u64, m: u128|
                    !(c == client_id && m == market_id) implies (#[trigger] self.subscribed(
                    c,
                    m,
                ) <==> old(self).subscribed(c, m)) by {
                    if self.subscribed(c, m) {
                        let k = choose|k: int|
                            0 <= k < s.len() && (#[trigger] s[k]).market_id == m
                                && s[k].subscribers@.contains(c);
                        if k != i as int {
                            assert(so[k] == s[k]);
                        } else {
                            assert(so[k].subscribers@.contains(c));
                        }
                    }
                    if old(self).subscribed(c, m) {
                        let k = choose|k: int|
                            0 <= k < so.len() && (#[trigger] so[k]).market_id == m
                                && so[k].subscribers@.contains(c);
                        if k != i as int {
                            assert(s[k] == so[k]);
                        } else {
                            assert(m == market_id);
                            assert(c != client_id);
                            assert(s[k].subscribers@.contains(c));
                        }
                    }
                }
                if self.subscribed(client_id, market_id) {
                    let k = choose|k: int|
                        0 <= k < s.len() && (#[trigger] s[k]).market_id == market_id
                            && s[k].subscribers@.contains(client_id);
                    if k != i as int {
                        if k > i as int {
                            assert(so[k].market_id != market_id);
                        }
                    }
                }
            }
        } else {
            proof {
                if self.subscribed(client_id, market_id) {
                    let k = choose|k: int|
                        0 <= k < self.subscriptions@.len() && (
                        #[trigger] self.subscriptions@[k]).market_id == market_id
                            && self.subscriptions@[k].subscribers@.contains(client_id);
                    assert(false);
                }
            }
        }
    }

    /// The clients a broadcast for `market_id` must reach: exactly the
    /// market's subscribers.
    pub fn broadcast_targets(&self, market_id: u128) -> (r: Vec<u64>)
        requires
            self.wf(),
        ensures
            forall|c: u64| #[trigger] r@.contains(c) <==> self.subscribed(c, market_id),
    {
        let n = self.subscriptions.len();
        let mut i: usize = 0;
        #[verifier::loop_isolation(false)]
        while i < n && self.subscriptions[i].market_id != market_id
            invariant
                0 <= i <= n,
                forall|k: int|
                    0 <= k < i ==> (#[trigger] self.subscriptions@[k]).market_id != market_id,
            decreases n - i,
        {
            i += 1;
        }
        if i < n {
            let r = clone_ids(&self.subscriptions[i].subscribers);
            proof {
                assert forall|c: u64| #[trigger] r@.contains(c) implies self.subscribed(
                    c,
                    market_id,
                ) by {
                    assert(self.subscriptions@[i as int].subscribers@.contains(c));
                }
                assert forall|c: u64| self.subscribed(c, market_id) implies r@.contains(c) by {
                    let k = choose|k: int|
                        0 <= k < self.subscriptions@.len() && (
                        #[trigger] self.subscriptions@[k]).market_id == market_id
                            && self.subscriptions@[k].subscribers@.contains(c);
                    if k != i as int {
                        if k > i as int {
                            assert(self.subscriptions@[k].market_id != market_id);
                        }
                    }
                }
            }
            r
        } else {
            let r: Vec<u64> = Vec::new();
            proof {
                assert forall|c: u64| self.subscribed(c, market_id) implies r@.contains(c) by {
                    let k = choose|k: int|
                        0 <= k < self.subscriptions@.len() && (
                        #[trigger] self.subscriptions@[k]).market_id == market_id
                            && self.subscriptions@[k].subscribers@.contains(c);
                    assert(false);
                }
            }
            r
        }
    }
}

/// No identifier occurs twice.
pub open spec fn no_dup(s: Seq<u64>) -> bool {
    forall|i: int, j: int| #![trigger s[i], s[j]] 0 <= i < j < s.len() ==> s[i] != s[j]
}

/// Whether the list holds `x`.
fn contains_id(v: &Vec<u64>, x: u64) -> (r: bool)
    ensures
        r == v@.contains(x),
{
    let n = v.len();
    let mut i: usize = 0;
    while i < n
        invariant
            0 <= i <= n,
            n == v@.len(),
            forall|k: int| 0 <= k < i ==> v@[k] != x,
        decreases n - i,
    {
        if v[i] == x {
            return true;
        }
        i += 1;
    }
    proof {
        if v@.contains(x) {
            let k = choose|k: int| 0 <= k < v@.len() && v@[k] == x;
            assert(false);
        }
    }
    false
}

/// Remove every occurrence of `x` (at most one, given no duplicates).
#[verifier::loop_isolation(false)]
fn remove_id(v: &mut Vec<u64>, x: u64)
    requires
        no_dup(old(v)@),
    ensures
        no_dup(final(v)@),
        forall|c: u64|
            #![trigger final(v)@.contains(c)]
            final(v)@.contains(c) <==> (old(v)@.contains(c) && c != x),
{
    let n = v.len();
    let mut i: usize = 0;
    while i < n
        invariant
            0 <= i <= n,
            n == v@.len(),
            v@ == old(v)@,
            forall|k: int| 0 <= k < i ==> v@[k] != x,
        decreases n - i,
    {
        if v[i] == x {
            v.remove(i);
            proof {
                let so = old(v)@;
                let s = v@;
                assert forall|a: int, b: int|
                    #![trigger s[a], s[b]]
                    0 <= a < b < s.len() implies s[a] != s[b] by {
                    let ao = if a < i {
                        a
                    } else {
                        a + 1 as int
                    };
                    let bo = if b < i {
                        b
                    } else {
                        b + 1 as int
                    };
                    assert(s[a] == so[ao] && s[b] == so[bo]);
                }
                assert forall|c: u64| #[trigger]
                    s.contains(c) implies (so.contains(c) && c != x) by {
                    let a = choose|a: int| 0 <= a < s.len() && s[a] == c;
                    let ao = if a < i {
                        a
                    } else {
                        a + 1 as int
                    };
                    assert(so[ao] == c);
                    if c == x {
                        assert(ao != i as int);
                        assert(so[i as int] == x);
                    }
                }
                assert forall|c: u64| (so.contains(c) && c != x) implies s.contains(c) by {
                    let a = choose|a: int| 0 <= a < so.len() && so[a] == c;
                    if a < i {
                        assert(s[a] == c);
                    } else {
                        assert(a != i as int);
                        assert(s[a - 1] == c);
                    }
                }
            }
            return ;
        }
        i += 1;
    }
    proof {
        if v@.contains(x) {
            let k = choose|k: int| 0 <= k < v@.len() && v@[k] == x;
            assert(false);
        }
    }
}

/// Copy a client-id list.
fn clone_ids(v: &Vec<u64>) -> (r: Vec<u64>)
    ensures
        r@ == v@,
{
    let n = v.len();
    let mut r: Vec<u64> = Vec::new();
    let mut i: usize = 0;
    while i < n
        invariant
            0 <= i <= n,
            n == v@.len(),
            r@ == v@.subrange(0, i as int),
        decreases n - i,
    {
        r.push(v[i]);
        proof {
            assert(r@ =~= v@.subrange(0, i + 1 as int));
        }
        i += 1;
    }
    proof {
        assert(v@.subrange(0, n as int) =~= v@);
    }
    r
}

} // verus!
