//! What the benchmark of a broker needs to share its work out.

use vstd::prelude::*;

verus! {

/// The number of messages that falls to the client `i` when `num_msgs`
/// messages are shared out among `num_clients` clients as evenly as they
/// go: each gets the whole part of the quotient, and the first clients get
/// one more until the remainder is used up.
pub open spec fn share_of(num_msgs: nat, num_clients: nat, i: nat) -> nat {
    if num_clients == 0 {
        0
    } else if i < num_msgs % num_clients {
        num_msgs / num_clients + 1
    } else {
        num_msgs / num_clients
    }
}

/// The number of messages for each of `num_clients` clients that are to
/// send `num_msgs` messages between them.
pub fn msgs_per_client(num_msgs: usize, num_clients: usize) -> (counts: Vec<usize>)
    ensures
        counts@.len() == num_clients,
        forall|i: int|
            0 <= i < num_clients ==> counts@[i] == share_of(
                num_msgs as nat,
                num_clients as nat,
                i as nat,
            ),
{
    let mut counts: Vec<usize> = Vec::new();
    if num_clients == 0 {
        return counts;
    }
    let mc: usize = num_msgs / num_clients;
    let extra: usize = num_msgs % num_clients;
    assert(extra > 0 ==> mc < num_msgs) by (nonlinear_arith)
        requires
            mc == num_msgs / num_clients,
            extra == num_msgs % num_clients,
            num_clients > 0,
    {
        if extra > 0 && mc >= num_msgs {
            assert(num_msgs == num_clients * (num_msgs / num_clients) + num_msgs % num_clients);
            assert(num_clients * mc >= mc);
        }
    }
    let mut i: usize = 0;
    while i < num_clients
        invariant
            i <= num_clients,
            num_clients > 0,
            mc == num_msgs / num_clients,
            extra == num_msgs % num_clients,
            extra > 0 ==> mc < num_msgs,
            counts@.len() == i,
            forall|j: int|
                0 <= j < i ==> counts@[j] == share_of(num_msgs as nat, num_clients as nat, j as nat),
        decreases num_clients - i,
    {
        if i < extra {
            counts.push(mc + 1);
        } else {
            counts.push(mc);
        }
        i += 1;
    }
    counts
}

/// The number of messages that fall to the first `k` clients together.
pub open spec fn shares_sum(num_msgs: nat, num_clients: nat, k: nat) -> nat
    decreases k,
{
    if k == 0 {
        0
    } else {
        shares_sum(num_msgs, num_clients, (k - 1) as nat) + share_of(
            num_msgs,
            num_clients,
            (k - 1) as nat,
        )
    }
}

/// The first `k` clients get `k` times the whole part of the quotient, and
/// one more for each of them that is among the first of the remainder.
proof fn lemma_shares_upto(num_msgs: nat, num_clients: nat, k: nat)
    requires
        num_clients > 0,
        k <= num_clients,
    ensures
        shares_sum(num_msgs, num_clients, k) == k * (num_msgs / num_clients) + (if k < num_msgs
            % num_clients {
            k
        } else {
            num_msgs % num_clients
        }),
    decreases k,
{
    let q = num_msgs / num_clients;
    let r = num_msgs % num_clients;
    if k == 0 {
        assert(0 * q == 0) by (nonlinear_arith);
    } else {
        lemma_shares_upto(num_msgs, num_clients, (k - 1) as nat);
        assert(k * q == (k - 1) * q + q) by (nonlinear_arith);
        assert(share_of(num_msgs, num_clients, (k - 1) as nat) == if k - 1 < r {
            q + 1
        } else {
            q
        });
    }
}

/// Shared out as evenly as they go, the messages are all given out, no
/// client gets more than one message more than another, and no client gets
/// more than a client before it.
pub proof fn lemma_shares(num_msgs: nat, num_clients: nat, i: nat, j: nat)
    requires
        num_clients > 0,
        i < num_clients,
        j < num_clients,
    ensures
        shares_sum(num_msgs, num_clients, num_clients) == num_msgs,
        share_of(num_msgs, num_clients, i) <= share_of(num_msgs, num_clients, j) + 1,
        i <= j ==> share_of(num_msgs, num_clients, i) >= share_of(num_msgs, num_clients, j),
{
    lemma_shares_upto(num_msgs, num_clients, num_clients);
    assert(num_msgs == num_clients * (num_msgs / num_clients) + num_msgs % num_clients) by (nonlinear_arith)
        requires
            num_clients > 0,
    ;
    assert(num_msgs % num_clients < num_clients) by (nonlinear_arith)
        requires
            num_clients > 0,
    ;
}

} // verus!
