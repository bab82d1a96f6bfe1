//! The list of network clients that receive the audio stream: who is
//! registered, and who stays after a round of sends.
use vstd::prelude::*;
use vstd::seq_lib::to_multiset_update;
use vstd::seq_lib::to_multiset_remove;
use vstd::seq_lib::to_multiset_contains;

verus! {

/// A client's socket address as plain numbers: IP version, address,
/// port, and (for IPv6) flow information and scope id.  An IPv4 address
/// is held in the low 32 bits of `ip` with `flowinfo` and `scope_id` zero.
#[derive(Clone, Copy, Debug, PartialEq, Eq, Structural)]
pub struct ClientAddr {
    pub v6: bool,
    pub ip: u128,
    pub port: u16,
    pub flowinfo: u32,
    pub scope_id: u32,
}

/// Registers the sender of a datagram: a client not yet in the list is
/// appended and `true` is returned; a known client leaves the list as it
/// is and `false` is returned.  So a list without duplicates stays
/// without duplicates.
pub fn register_client(clients: &mut Vec<ClientAddr>, client: ClientAddr) -> (added: bool)
    requires
        old(clients)@.len() < usize::MAX,
    ensures
        added <==> !old(clients)@.contains(client),
        added ==> final(clients)@ == old(clients)@.push(client),
        !added ==> final(clients)@ == old(clients)@,
        old(clients)@.no_duplicates() ==> final(clients)@.no_duplicates(),
{
    let n = clients.len();
    let mut found = false;
    for i in 0..n
        invariant
            n == clients@.len(),
            clients@ == old(clients)@,
            found <==> clients@.take(i as int).contains(client),
    {
        let hit = clients[i] == client;
        proof {
            let t = clients@.take(i + 1);
            assert(t =~= clients@.take(i as int).push(clients@[i as int]));
            if clients@.take(i as int).contains(client) {
                let j = choose|j: int|
                    0 <= j < clients@.take(i as int).len() && clients@.take(i as int)[j] == client;
                assert(t[j] == client);
            }
            if hit {
                assert(t[i as int] == client);
            }
            if t.contains(client) {
                let j = choose|j: int| 0 <= j < t.len() && t[j] == client;
                if j < i {
                    assert(clients@.take(i as int)[j] == client);
                }
            }
        }
        if hit {
            found = true;
        }
    }
    assert(clients@.take(n as int) =~= clients@);
    if found {
        false
    } else {
        clients.push(client);
        proof {
            if old(clients)@.no_duplicates() {
                assert forall|i: int, j: int|
                    0 <= i < clients@.len() && 0 <= j < clients@.len() && i != j implies clients@[i]
                    != clients@[j] by {
                    if i == n as int {
                        assert(old(clients)@[j] == clients@[j]);
                    } else if j == n as int {
                        assert(old(clients)@[i] == clients@[i]);
                    }
                }
            }
        }
        true
    }
}

/// One step of sending to every registered client: after a send to
/// `clients[idx]`, a client that accepted the data is kept and the walk
/// moves on; a client whose send failed is dropped by moving the last
/// client into its place, and the walk stays at `idx`.  Returns the index
/// of the next client to send to.
pub fn after_send<C>(clients: &mut Vec<C>, idx: usize, sent: bool) -> (next: usize)
    requires
        idx < old(clients)@.len(),
    ensures
        sent ==> next == idx + 1 && final(clients)@ == old(clients)@,
        !sent ==> next == idx && final(clients)@ == old(clients)@.update(
            idx as int,
            old(clients)@.last(),
        ).drop_last(),
{
    let n = clients.len();
    if sent {
        assert(idx + 1 <= n);
        idx + 1
    } else {
        clients.swap_remove(idx);
        idx
    }
}

/// The list after a walk of [`after_send`] steps from position `idx` to
/// the end, where `sent(c)` says whether the send to client `c` succeeds.
pub open spec fn send_round<C>(clients: Seq<C>, idx: int, sent: spec_fn(C) -> bool) -> Seq<C>
    decreases clients.len() - idx,
{
    if idx < 0 || idx >= clients.len() {
        clients
    } else if sent(clients[idx]) {
        send_round(clients, idx + 1, sent)
    } else {
        send_round(clients.update(idx, clients.last()).drop_last(), idx, sent)
    }
}

/// The clients that the same walk sends to, in the order of the sends.
pub open spec fn send_round_attempts<C>(clients: Seq<C>, idx: int, sent: spec_fn(C) -> bool) -> Seq<
    C,
>
    decreases clients.len() - idx,
{
    if idx < 0 || idx >= clients.len() {
        Seq::empty()
    } else if sent(clients[idx]) {
        seq![clients[idx]] + send_round_attempts(clients, idx + 1, sent)
    } else {
        seq![clients[idx]] + send_round_attempts(
            clients.update(idx, clients.last()).drop_last(),
            idx,
            sent,
        )
    }
}

/// Dropping the failed client at `idx` (the last client takes its place)
/// removes one occurrence of it and keeps the clients before `idx`.
proof fn lemma_drop_failed<C>(clients: Seq<C>, idx: int)
    requires
        0 <= idx < clients.len(),
    ensures
        ({
            let next = clients.update(idx, clients.last()).drop_last();
            &&& next.to_multiset() == clients.to_multiset().remove(clients[idx])
            &&& forall|j: int| 0 <= j < idx ==> #[trigger] next[j] == clients[j]
            &&& next.len() == clients.len() - 1
        }),
{
    broadcast use vstd::multiset::group_multiset_axioms;

    let last = clients.last();
    let upd = clients.update(idx, last);
    let next = upd.drop_last();
    assert(next =~= upd.remove(upd.len() - 1));
    to_multiset_update(clients, idx, last);
    to_multiset_remove(upd, upd.len() - 1);
    assert(next.to_multiset() =~= clients.to_multiset().remove(clients[idx]));
}

proof fn lemma_send_round<C>(clients: Seq<C>, idx: int, sent: spec_fn(C) -> bool)
    requires
        0 <= idx <= clients.len(),
        forall|j: int| 0 <= j < idx ==> #[trigger] sent(clients[j]),
    ensures
        forall|c: C|
            #[trigger] send_round(clients, idx, sent).to_multiset().count(c) == if sent(c) {
                clients.to_multiset().count(c)
            } else {
                0
            },
    decreases clients.len() - idx,
{
    broadcast use vstd::multiset::group_multiset_axioms;

    if idx >= clients.len() {
        assert forall|c: C| #[trigger] send_round(clients, idx, sent).to_multiset().count(c) == if sent(
            c,
        ) {
            clients.to_multiset().count(c)
        } else {
            0
        } by {
            to_multiset_contains(clients, c);
            if !sent(c) && clients.contains(c) {
                let j = choose|j: int| 0 <= j < clients.len() && clients[j] == c;
                assert(sent(clients[j]));
            }
        }
    } else if sent(clients[idx]) {
        assert(send_round(clients, idx, sent) == send_round(clients, idx + 1, sent));
        lemma_send_round(clients, idx + 1, sent);
    } else {
        let next = clients.update(idx, clients.last()).drop_last();
        lemma_drop_failed(clients, idx);
        assert forall|j: int| 0 <= j < idx implies #[trigger] sent(next[j]) by {
            assert(next[j] == clients[j]);
        }
        lemma_send_round(next, idx, sent);
        assert(send_round(clients, idx, sent) == send_round(next, idx, sent));
        assert forall|c: C| #[trigger] send_round(clients, idx, sent).to_multiset().count(c) == if sent(
            c,
        ) {
            clients.to_multiset().count(c)
        } else {
            0
        } by {
            if sent(c) {
                assert(c != clients[idx]);
            }
        }
    }
}

/// An empty sequence counts nothing.
proof fn lemma_empty_counts<C>(s: Seq<C>)
    requires
        s.len() == 0,
    ensures
        forall|c: C| #[trigger] s.to_multiset().count(c) == 0,
{
    assert forall|c: C| #[trigger] s.to_multiset().count(c) == 0 by {
        to_multiset_contains(s, c);
    }
}

proof fn lemma_send_round_attempts<C>(clients: Seq<C>, idx: int, sent: spec_fn(C) -> bool)
    requires
        0 <= idx <= clients.len(),
    ensures
        forall|c: C|
            #[trigger] send_round_attempts(clients, idx, sent).to_multiset().count(c)
                + clients.take(idx).to_multiset().count(c) == clients.to_multiset().count(c),
    decreases clients.len() - idx,
{
    broadcast use vstd::multiset::group_multiset_axioms;
    broadcast use vstd::seq_lib::to_multiset_build;

    let a = send_round_attempts(clients, idx, sent);
    if idx >= clients.len() {
        assert(clients.take(idx) =~= clients);
        lemma_empty_counts(a);
    } else {
        let x = clients[idx];
        if sent(x) {
            let rest = send_round_attempts(clients, idx + 1, sent);
            lemma_send_round_attempts(clients, idx + 1, sent);
            assert(a == seq![x] + rest);
            vstd::seq_lib::lemma_seq_union_to_multiset_commutative(seq![x], rest);
            assert(rest + seq![x] == rest.push(x));
            assert(clients.take(idx + 1) =~= clients.take(idx).push(x));
            assert forall|c: C| #[trigger] a.to_multiset().count(c) + clients.take(
                idx,
            ).to_multiset().count(c) == clients.to_multiset().count(c) by {
                assert(a.to_multiset() =~= rest.to_multiset().insert(x));
                assert(clients.take(idx + 1).to_multiset() =~= clients.take(
                    idx,
                ).to_multiset().insert(x));
            }
        } else {
            let next = clients.update(idx, clients.last()).drop_last();
            lemma_drop_failed(clients, idx);
            let rest = send_round_attempts(next, idx, sent);
            lemma_send_round_attempts(next, idx, sent);
            assert(a == seq![x] + rest);
            vstd::seq_lib::lemma_seq_union_to_multiset_commutative(seq![x], rest);
            assert(rest + seq![x] == rest.push(x));
            assert(next.take(idx) =~= clients.take(idx));
            to_multiset_contains(clients, x);
            assert(clients.contains(x)) by {
                assert(clients[idx] == x);
            }
            assert forall|c: C| #[trigger] a.to_multiset().count(c) + clients.take(
                idx,
            ).to_multiset().count(c) == clients.to_multiset().count(c) by {
                assert(a.to_multiset() =~= rest.to_multiset().insert(x));
            }
        }
    }
}

/// A round of sends driven by [`after_send`] tries every client present at
/// its start exactly once (as often as it occurs in the list), and keeps
/// exactly the clients whose send succeeded, each as often as before (the
/// order may change); so a list without duplicates stays without
/// duplicates.
pub proof fn law_send_round<C>(clients: Seq<C>, sent: spec_fn(C) -> bool)
    ensures
        send_round_attempts(clients, 0, sent).to_multiset() == clients.to_multiset(),
        forall|c: C|
            #[trigger] send_round(clients, 0, sent).to_multiset().count(c) == if sent(c) {
                clients.to_multiset().count(c)
            } else {
                0
            },
        clients.no_duplicates() ==> send_round(clients, 0, sent).no_duplicates(),
{
    broadcast use vstd::multiset::group_multiset_axioms;

    lemma_send_round(clients, 0, sent);
    lemma_send_round_attempts(clients, 0, sent);
    lemma_empty_counts(clients.take(0));
    assert(send_round_attempts(clients, 0, sent).to_multiset() =~= clients.to_multiset());
    let r = send_round(clients, 0, sent);
    if clients.no_duplicates() {
        clients.lemma_multiset_has_no_duplicates();
        assert forall|x: C| r.to_multiset().contains(x) implies r.to_multiset().count(x) == 1 by {
            assert(r.to_multiset().count(x) == if sent(x) {
                clients.to_multiset().count(x)
            } else {
                0
            });
        }
        r.lemma_multiset_has_no_duplicates_conv();
    }
}

} // verus!
