//! The assignment engine: from an order of the members to the pairings of a closed group.
//!
//! Every member gives to the member that follows it in the order, and the last
//! one gives to the first. Over members that are pairwise distinct this is one
//! cycle through all of them.

use crate::models::{Member, NewSanta};
use rand::seq::SliceRandom;
use vstd::prelude::*;

verus! {

/// The position before `k` on a ring of `n` positions.
pub open spec fn ring_before(k: int, n: int) -> int {
    if k == 0 {
        n - 1
    } else {
        k - 1
    }
}

/// The position reached from `i` after `steps` steps on a ring of `n` positions,
/// for `steps` up to `n`.
pub open spec fn ring_after(i: int, steps: int, n: int) -> int {
    if i + steps < n {
        i + steps
    } else {
        i + steps - n
    }
}

/// The pairs (santa, recipient) that an order of users gives: the pair at a
/// position holds the user at that position as the recipient and the user before
/// it on the ring as the santa.
pub open spec fn links(order: Seq<i32>) -> Seq<(i32, i32)> {
    Seq::new(order.len(), |k: int| (order[ring_before(k, order.len() as int)], order[k]))
}

/// The santas of a sequence of pairs, in its order.
pub open spec fn santa_ids(pairs: Seq<(i32, i32)>) -> Seq<i32> {
    Seq::new(pairs.len(), |k: int| pairs[k].0)
}

/// The recipients of a sequence of pairs, in its order.
pub open spec fn recipient_ids(pairs: Seq<(i32, i32)>) -> Seq<i32> {
    Seq::new(pairs.len(), |k: int| pairs[k].1)
}

/// The recipient of a pair whose santa is `santa`. Where every santa has one
/// pair, it is the recipient of that pair.
pub open spec fn recipient_of(pairs: Seq<(i32, i32)>, santa: i32) -> i32 {
    let k = choose|k: int| 0 <= k < pairs.len() && (#[trigger] pairs[k]).0 == santa;
    pairs[k].1
}

/// The user reached from `start` by going from santa to recipient `steps` times.
pub open spec fn walk(pairs: Seq<(i32, i32)>, start: i32, steps: nat) -> i32
    decreases steps,
{
    if steps == 0 {
        start
    } else {
        recipient_of(pairs, walk(pairs, start, (steps - 1) as nat))
    }
}

/// Every member is the santa of exactly one pair and the recipient of exactly
/// one pair, and nobody else is either.
pub open spec fn each_member_once(pairs: Seq<(i32, i32)>, members: Set<i32>) -> bool {
    &&& santa_ids(pairs).no_duplicates()
    &&& santa_ids(pairs).to_set() == members
    &&& recipient_ids(pairs).no_duplicates()
    &&& recipient_ids(pairs).to_set() == members
}

/// Nobody gives to themselves.
pub open spec fn no_self_gift(pairs: Seq<(i32, i32)>) -> bool {
    forall|k: int| 0 <= k < pairs.len() ==> (#[trigger] pairs[k]).0 != pairs[k].1
}

/// The walk from any member comes back to it after as many steps as there are
/// pairs and not before, passes no user twice on the way, and passes every member.
pub open spec fn one_round_trip(pairs: Seq<(i32, i32)>, members: Set<i32>) -> bool {
    &&& forall|m: i32| #[trigger] members.contains(m) ==> walk(pairs, m, pairs.len()) == m
    &&& forall|m: i32, a: nat, b: nat|
        members.contains(m) && a < b < pairs.len() ==> #[trigger] walk(pairs, m, a)
            != #[trigger] walk(pairs, m, b)
    &&& forall|m: i32, other: i32|
        #![trigger members.contains(m), members.contains(other)]
        members.contains(m) && members.contains(other) ==> exists|steps: nat|
            steps < pairs.len() && #[trigger] walk(pairs, m, steps) == other
}

/// The pairs form a single cycle through the members.
pub open spec fn is_single_cycle(pairs: Seq<(i32, i32)>, members: Set<i32>) -> bool {
    &&& each_member_once(pairs, members)
    &&& no_self_gift(pairs)
    &&& one_round_trip(pairs, members)
}

/// In the links of an order without repetition, the user at a position gives to
/// the user at the next position of the ring.
pub proof fn lemma_links_recipient(order: Seq<i32>, i: int)
    requires
        order.no_duplicates(),
        0 <= i < order.len(),
    ensures
        recipient_of(links(order), order[i]) == order[ring_after(i, 1, order.len() as int)],
{
    let pairs = links(order);
    let n = order.len() as int;
    let j = ring_after(i, 1, n);
    assert(ring_before(j, n) == i);
    assert(pairs[j].0 == order[i]);
    let k = choose|k: int| 0 <= k < pairs.len() && (#[trigger] pairs[k]).0 == order[i];
    assert(pairs[k].0 == order[ring_before(k, n)]);
    assert(ring_before(k, n) == i);
    assert(k == j);
}

/// In the links of an order without repetition, the walk from the user at a
/// position moves along the ring of positions.
pub proof fn lemma_links_walk(order: Seq<i32>, i: int, steps: nat)
    requires
        order.no_duplicates(),
        0 <= i < order.len(),
        steps <= order.len(),
    ensures
        walk(links(order), order[i], steps) == order[ring_after(i, steps as int, order.len() as int)],
    decreases steps,
{
    if steps > 0 {
        let n = order.len() as int;
        lemma_links_walk(order, i, (steps - 1) as nat);
        let at = ring_after(i, steps - 1, n);
        lemma_links_recipient(order, at);
        assert(ring_after(at, 1, n) == ring_after(i, steps as int, n));
    }
}

/// The links of an order of at least two users without repetition form a single
/// cycle through those users.
pub proof fn lemma_links_single_cycle(order: Seq<i32>)
    requires
        order.no_duplicates(),
        order.len() >= 2,
    ensures
        is_single_cycle(links(order), order.to_set()),
{
    let pairs = links(order);
    let members = order.to_set();
    let n = order.len() as int;
    assert(recipient_ids(pairs) =~= order);
    assert(santa_ids(pairs).no_duplicates()) by {
        assert forall|a: int, b: int|
            0 <= a < n && 0 <= b < n && a != b implies santa_ids(pairs)[a] != santa_ids(pairs)[b] by {
            assert(ring_before(a, n) != ring_before(b, n));
        }
    }
    assert(santa_ids(pairs).to_set() =~= members) by {
        assert forall|u: i32| santa_ids(pairs).to_set().contains(u) <==> members.contains(u) by {
            if santa_ids(pairs).to_set().contains(u) {
                let k = choose|k: int| 0 <= k < n && santa_ids(pairs)[k] == u;
                assert(order[ring_before(k, n)] == u);
            }
            if members.contains(u) {
                let i = choose|i: int| 0 <= i < n && order[i] == u;
                let k = ring_after(i, 1, n);
                assert(ring_before(k, n) == i);
                assert(santa_ids(pairs)[k] == u);
            }
        }
    }
    assert(no_self_gift(pairs)) by {
        assert forall|k: int| 0 <= k < pairs.len() implies (#[trigger] pairs[k]).0 != pairs[k].1 by {
            assert(ring_before(k, n) != k);
        }
    }
    assert forall|m: i32| #[trigger] members.contains(m) implies walk(pairs, m, pairs.len()) == m by {
        let i = choose|i: int| 0 <= i < n && order[i] == m;
        lemma_links_walk(order, i, n as nat);
    }
    assert forall|m: i32, a: nat, b: nat| members.contains(m) && a < b < pairs.len() implies #[trigger] walk(
        pairs,
        m,
        a,
    ) != #[trigger] walk(pairs, m, b) by {
        let i = choose|i: int| 0 <= i < n && order[i] == m;
        lemma_links_walk(order, i, a);
        lemma_links_walk(order, i, b);
        assert(ring_after(i, a as int, n) != ring_after(i, b as int, n));
    }
    assert forall|m: i32, other: i32|
        #![trigger members.contains(m), members.contains(other)]
        members.contains(m) && members.contains(other) implies exists|steps: nat|
        steps < pairs.len() && #[trigger] walk(pairs, m, steps) == other by {
        let i = choose|i: int| 0 <= i < n && order[i] == m;
        let j = choose|j: int| 0 <= j < n && order[j] == other;
        let steps: nat = if j >= i {
            (j - i) as nat
        } else {
            (j - i + n) as nat
        };
        lemma_links_walk(order, i, steps);
        assert(ring_after(i, steps as int, n) == j);
        assert(steps < pairs.len() && walk(pairs, m, steps) == other);
    }
}

/// The users of a sequence of memberships, in its order.
pub open spec fn user_ids(members: Seq<Member>) -> Seq<i32> {
    Seq::new(members.len(), |k: int| members[k].user_id)
}

/// The pairings of one group that an order of its members gives, as they are
/// written to the store: one for each pair of `links`, in the same order.
pub open spec fn pairings(group_id: i32, order: Seq<Member>) -> Seq<NewSanta> {
    Seq::new(
        order.len(),
        |k: int|
            NewSanta {
                group_id,
                santa_id: links(user_ids(order))[k].0,
                recipient_id: links(user_ids(order))[k].1,
            },
    )
}

/// Links every member to the member that follows it in `order`, and the last
/// member to the first.
pub fn link_cycle(group_id: i32, order: &Vec<Member>) -> (pairs: Vec<NewSanta>)
    ensures
        pairs@ == pairings(group_id, order@),
{
    let n: usize = order.len();
    let mut pairs: Vec<NewSanta> = Vec::new();
    let mut k: usize = 0;
    while k < n
        invariant
            n == order.len(),
            k <= n,
            pairs@ == pairings(group_id, order@).take(k as int),
        decreases n - k,
    {
        let before: usize = if k == 0 {
            n - 1
        } else {
            k - 1
        };
        pairs.push(
            NewSanta {
                group_id,
                santa_id: order[before].user_id,
                recipient_id: order[k].user_id,
            },
        );
        proof {
            assert(pairs@ =~= pairings(group_id, order@).take(k + 1));
        }
        k += 1;
    }
    proof {
        assert(pairs@ =~= pairings(group_id, order@));
    }
    pairs
}

/// One sequence of memberships holds the same memberships as the other, each as often.
pub open spec fn is_rearranged(order: Seq<Member>, members: Seq<Member>) -> bool {
    order.to_multiset() == members.to_multiset()
}

/// Puts the memberships into a random order. Calls `shuffle` of
/// `rand::seq::SliceRandom` on the slice with the generator of `rand::thread_rng`.
/// That function only swaps elements of the slice, so the contract claims that
/// the same memberships are there afterwards, each as often as before, and
/// nothing of their order.
#[verifier::external_body]
pub(crate) fn shuffle_members(members: &mut Vec<Member>)
    ensures
        is_rearranged(final(members)@, old(members)@),
{
    members.shuffle(&mut rand::thread_rng());
}

} // verus!
