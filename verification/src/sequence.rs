//! Arithmetic on RTP sequence numbers, which live on a ring of 65536 values,
//! and the reports of missing packets that are built from it.

use std::collections::HashSet;
use vstd::prelude::*;

verus! {

/// The sequence number reached from `base` in `steps` steps forward.
pub open spec fn seq_at(base: u16, steps: int) -> u16 {
    ((base + steps) % 65536) as u16
}

/// How many steps forward, fewer than a full turn, lead from `from` to `to`.
pub open spec fn gap(from: u16, to: u16) -> int {
    (to - from) % 65536
}

/// How many steps forward, at least one, lead from `from` to `to`.
pub open spec fn reach(from: u16, to: u16) -> int {
    if from == to {
        65536
    } else {
        gap(from, to)
    }
}

/// The length of the unbroken run of members of `set` that starts `k + 1`
/// steps after `base`, counted from `base`.
pub open spec fn run_end(base: u16, set: Set<u16>, k: nat) -> nat
    decreases 65536 - k,
{
    if k < 65536 && set.contains(seq_at(base, k as int + 1)) {
        run_end(base, set, k + 1)
    } else {
        k
    }
}

/// The members of `set` that are more than `n` steps after `base`.
pub open spec fn beyond(base: u16, set: Set<u16>, n: int) -> Set<u16> {
    Set::new(|x: u16| set.contains(x) && reach(base, x) > n)
}

/// The largest number of steps, at most `n`, that leads from `base` to a
/// member of `set`; zero where there is none.
pub open spec fn furthest(base: u16, set: Set<u16>, n: nat) -> nat
    decreases n,
{
    if n == 0 {
        0
    } else if set.contains(seq_at(base, n as int)) {
        n
    } else {
        furthest(base, set, (n - 1) as nat)
    }
}

/// The sequence numbers within `n` steps after `base`, in order, that are
/// neither received nor asked for.
pub open spec fn missing(base: u16, n: nat, received: Set<u16>, asked: Set<u16>) -> Seq<u16>
    decreases n,
{
    if n == 0 {
        Seq::empty()
    } else {
        let earlier = missing(base, (n - 1) as nat, received, asked);
        let item = seq_at(base, n as int);
        if received.contains(item) || asked.contains(item) {
            earlier
        } else {
            earlier.push(item)
        }
    }
}

/// The heads of the groups in which `seqs` is reported: a sequence number
/// more than 15 steps after the head of its group starts a new one.
pub open spec fn group_heads(seqs: Seq<u16>) -> Seq<u16>
    decreases seqs.len(),
{
    if seqs.len() == 0 {
        Seq::empty()
    } else {
        let earlier = group_heads(seqs.drop_last());
        if earlier.len() > 0 && gap(earlier.last(), seqs.last()) <= 15 {
            earlier
        } else {
            earlier.push(seqs.last())
        }
    }
}

/// The bit that stands for the sequence number `distance` steps after the
/// head of its group.
pub open spec fn follower_bit(distance: int) -> u16 {
    1u16 << ((distance - 1) as u16)
}

/// The groups in which `seqs` is reported, each a head and a bit field: the
/// lowest bit is set, and one for each follower.
pub open spec fn groups(seqs: Seq<u16>) -> Seq<(u16, u16)>
    decreases seqs.len(),
{
    if seqs.len() == 0 {
        Seq::empty()
    } else {
        let earlier = groups(seqs.drop_last());
        let item = seqs.last();
        if earlier.len() > 0 && gap(earlier.last().0, item) <= 15 {
            let (head, bits) = earlier.last();
            earlier.drop_last().push((head, bits | follower_bit(gap(head, item))))
        } else {
            earlier.push((item, 1u16))
        }
    }
}

/// Steps and distances are inverse to each other.
pub proof fn lemma_seq_at_gap(base: u16, a: int, b: int)
    requires
        0 <= a <= b,
        b - a < 65536,
    ensures
        gap(seq_at(base, a), seq_at(base, b)) == b - a,
        seq_at(seq_at(base, a), b - a) == seq_at(base, b),
{
    let x = (base + a) % 65536;
    let y = (base + b) % 65536;
    assert((y - x) % 65536 == (b - a) % 65536) by {
        let p = (base + a) / 65536;
        let q = (base + b) / 65536;
        assert(y - x == (b - a) + 65536 * (p - q));
    }
    assert((x + (b - a)) % 65536 == y) by {
        let p = (base + a) / 65536;
        assert(x + (b - a) == base + b - 65536 * p);
    }
}

/// Every sequence number is reached from every other.
pub proof fn lemma_reach(base: u16, x: u16)
    ensures
        1 <= reach(base, x) <= 65536,
        seq_at(base, reach(base, x)) == x,
        forall|d: int| 1 <= d <= 65536 && seq_at(base, d) == x ==> d == reach(base, x),
{
}

/// Distances in a ring below one full turn.
pub proof fn lemma_reach_of_seq_at(base: u16, d: int)
    requires
        1 <= d <= 65536,
    ensures
        reach(base, seq_at(base, d)) == d,
{
}

/// The members of `missing`: what is within `n` steps and neither received nor asked for.
pub proof fn lemma_missing(base: u16, n: nat, received: Set<u16>, asked: Set<u16>)
    requires
        n <= 65536,
    ensures
        forall|x: u16| #[trigger]
            missing(base, n, received, asked).contains(x) <==> (reach(base, x) <= n
                && !received.contains(x) && !asked.contains(x)),
    decreases n,
{
    let all = missing(base, n, received, asked);
    if n == 0 {
        assert forall|x: u16| !#[trigger] all.contains(x) && reach(base, x) > 0 by {
            lemma_reach(base, x);
        }
    } else {
        let earlier = missing(base, (n - 1) as nat, received, asked);
        let item = seq_at(base, n as int);
        lemma_missing(base, (n - 1) as nat, received, asked);
        lemma_reach_of_seq_at(base, n as int);
        assert forall|x: u16| #[trigger] reach(base, x) == n implies x == item by {
            lemma_reach(base, x);
        }
        if !(received.contains(item) || asked.contains(item)) {
            assert(all == earlier.push(item));
            assert forall|x: u16| #[trigger] all.contains(x) <==> (earlier.contains(x) || x == item) by {
                if earlier.contains(x) {
                    assert(all[earlier.index_of(x)] == x);
                }
                assert(all[earlier.len() as int] == item);
            }
        }
    }
}

/// Groups of missing sequence numbers are at least 16 steps apart, so there are few of them.
pub proof fn lemma_group_heads(base: u16, n: nat, received: Set<u16>, asked: Set<u16>)
    requires
        n <= 65536,
    ensures
        ({
            let heads = group_heads(missing(base, n, received, asked));
            &&& heads.len() <= 4096
            &&& heads.len() == 0 <==> missing(base, n, received, asked).len() == 0
            &&& heads.len() > 0 ==> 16 * (heads.len() - 1) < reach(base, heads.last()) <= n
        }),
    decreases n,
{
    if n > 0 {
        lemma_group_heads(base, (n - 1) as nat, received, asked);
        let earlier = missing(base, (n - 1) as nat, received, asked);
        let item = seq_at(base, n as int);
        lemma_reach_of_seq_at(base, n as int);
        if !(received.contains(item) || asked.contains(item)) {
            let all = earlier.push(item);
            assert(all.drop_last() =~= earlier);
            let heads = group_heads(earlier);
            if heads.len() > 0 {
                lemma_reach(base, heads.last());
                lemma_seq_at_gap(base, reach(base, heads.last()), n as int);
            }
        }
    }
}

/// A longer list of sequence numbers has no fewer groups.
pub proof fn lemma_group_heads_prefix(seqs: Seq<u16>, n: int)
    requires
        0 <= n <= seqs.len(),
    ensures
        group_heads(seqs.take(n)).len() <= group_heads(seqs).len(),
    decreases seqs.len() - n,
{
    if n < seqs.len() {
        lemma_group_heads_prefix(seqs, n + 1);
        assert(seqs.take(n + 1).drop_last() =~= seqs.take(n));
    } else {
        assert(seqs.take(n) =~= seqs);
    }
}

/// The groups have the group heads as heads.
pub proof fn lemma_groups_heads(seqs: Seq<u16>)
    ensures
        groups(seqs).len() == group_heads(seqs).len(),
        forall|i: int|
            0 <= i < groups(seqs).len() ==> #[trigger] groups(seqs)[i].0 == group_heads(seqs)[i],
    decreases seqs.len(),
{
    if seqs.len() > 0 {
        lemma_groups_heads(seqs.drop_last());
    }
}

/// Whether a group asks for `seq`: it is the head, or has its bit set.
pub open spec fn asks_for(group: (u16, u16), seq: u16) -> bool {
    seq == group.0 || (1 <= gap(group.0, seq) <= 15 && group.1 & follower_bit(gap(group.0, seq))
        != 0)
}

/// Every sequence number that is reported is asked for by one of the groups.
pub proof fn groups_ask_for_all(seqs: Seq<u16>, i: int)
    requires
        0 <= i < seqs.len(),
    ensures
        exists|g: int| 0 <= g < groups(seqs).len() && asks_for(#[trigger] groups(seqs)[g], seqs[i]),
    decreases seqs.len(),
{
    let earlier = groups(seqs.drop_last());
    let all = groups(seqs);
    let item = seqs.last();
    let joins = earlier.len() > 0 && gap(earlier.last().0, item) <= 15;
    if i < seqs.len() - 1 {
        groups_ask_for_all(seqs.drop_last(), i);
        let g = choose|g: int| 0 <= g < earlier.len() && asks_for(#[trigger] earlier[g], seqs[i]);
        if joins && g == earlier.len() - 1 {
            let (head, bits) = earlier.last();
            let added = follower_bit(gap(head, item));
            let bit = follower_bit(gap(head, seqs[i]));
            assert(bits & bit != 0 ==> (bits | added) & bit != 0) by (bit_vector);
            assert(asks_for(all[g], seqs[i]));
        } else {
            assert(all[g] == earlier[g]);
        }
    } else if joins {
        let (head, bits) = earlier.last();
        let distance = gap(head, item);
        let g = earlier.len() - 1;
        assert(all[g].0 == head);
        if distance == 0 {
            assert(head == item);
        } else {
            let shift = (distance - 1) as u16;
            assert((bits | (1u16 << shift)) & (1u16 << shift) != 0) by (bit_vector)
                requires
                    shift < 16,
            ;
        }
        assert(asks_for(all[g], seqs[i]));
    } else {
        assert(asks_for(all[earlier.len() as int], seqs[i]));
    }
}

/// Every sequence number that is reported is at most 15 steps after the head of a group.
pub proof fn heads_are_near(seqs: Seq<u16>, i: int)
    requires
        0 <= i < seqs.len(),
    ensures
        exists|g: int|
            0 <= g < group_heads(seqs).len() && gap(#[trigger] group_heads(seqs)[g], seqs[i]) <= 15,
    decreases seqs.len(),
{
    let earlier = group_heads(seqs.drop_last());
    let all = group_heads(seqs);
    if i < seqs.len() - 1 {
        heads_are_near(seqs.drop_last(), i);
        let g = choose|g: int| 0 <= g < earlier.len() && gap(#[trigger] earlier[g], seqs[i]) <= 15;
        assert(all[g] == earlier[g]);
    } else {
        assert(gap(all.last(), seqs[i]) <= 15);
    }
}

/// What is reported is what heads a group: nothing is asked for by name that is not missing.
pub proof fn lemma_heads_are_reported(seqs: Seq<u16>, g: int)
    requires
        0 <= g < group_heads(seqs).len(),
    ensures
        seqs.contains(group_heads(seqs)[g]),
    decreases seqs.len(),
{
    let earlier = group_heads(seqs.drop_last());
    if g < earlier.len() {
        lemma_heads_are_reported(seqs.drop_last(), g);
        let i = choose|i: int| 0 <= i < seqs.len() - 1 && seqs.drop_last()[i] == earlier[g];
        assert(seqs[i] == earlier[g]);
    } else {
        assert(seqs[seqs.len() - 1] == group_heads(seqs)[g]);
    }
}

/// Nothing follows the unbroken run without a break.
pub proof fn lemma_run_end(base: u16, set: Set<u16>, k: nat)
    requires
        k <= 65536,
    ensures
        k <= run_end(base, set, k) <= 65536,
        run_end(base, set, k) < 65536 ==> !set.contains(
            seq_at(base, run_end(base, set, k) as int + 1),
        ),
    decreases 65536 - k,
{
    if k < 65536 && set.contains(seq_at(base, k as int + 1)) {
        lemma_run_end(base, set, k + 1);
    }
}

/// The unbroken run is made of members of the set.
pub proof fn lemma_run_members(base: u16, set: Set<u16>, k: nat, j: int)
    requires
        k <= 65536,
        k < j <= run_end(base, set, k),
    ensures
        set.contains(seq_at(base, j)),
    decreases 65536 - k,
{
    if k < 65536 && set.contains(seq_at(base, k as int + 1)) && j > k + 1 {
        lemma_run_members(base, set, k + 1, j);
    }
}

/// Members right after `base` belong to the run.
pub proof fn lemma_run_prefix(base: u16, set: Set<u16>, k: nat, d: nat)
    requires
        k <= d <= 65536,
        forall|j: int| k < j <= d ==> set.contains(#[trigger] seq_at(base, j)),
    ensures
        run_end(base, set, k) == run_end(base, set, d),
    decreases d - k,
{
    if k < d {
        assert(set.contains(seq_at(base, k as int + 1)));
        lemma_run_prefix(base, set, k + 1, d);
    }
}

/// The member that is furthest ahead, and that nothing is further.
pub proof fn lemma_furthest(base: u16, set: Set<u16>, n: nat)
    ensures
        furthest(base, set, n) <= n,
        furthest(base, set, n) > 0 ==> set.contains(
            seq_at(base, furthest(base, set, n) as int),
        ),
        forall|j: int|
            furthest(base, set, n) < j <= n ==> !set.contains(#[trigger] seq_at(base, j)),
    decreases n,
{
    if n > 0 && !set.contains(seq_at(base, n as int)) {
        lemma_furthest(base, set, (n - 1) as nat);
    }
}

/// The set of the sequence numbers below `n`.
spec fn below(n: nat) -> Set<u16>
    decreases n,
{
    if n == 0 {
        Set::empty()
    } else {
        below((n - 1) as nat).insert((n - 1) as u16)
    }
}

proof fn lemma_below(n: nat)
    requires
        n <= 65536,
    ensures
        below(n).finite(),
        below(n).len() == n,
        forall|x: u16| below(n).contains(x) <==> x < n,
    decreases n,
{
    if n > 0 {
        lemma_below((n - 1) as nat);
    }
}

/// A set of sequence numbers is finite.
pub proof fn lemma_finite(set: Set<u16>)
    ensures
        set.finite(),
        set.len() <= 65536,
{
    lemma_below(65536);
    vstd::set_lib::lemma_len_subset(set, below(65536));
}

proof fn lemma_run_step(base: u16, arrived: Set<u16>, run: nat)
    requires
        run <= 65536,
    ensures
        beyond(base, arrived, run as int).contains(seq_at(base, run as int + 1)) <==> (run < 65536
            && arrived.contains(seq_at(base, run as int + 1))),
        run < 65536 ==> beyond(base, arrived, run as int).remove(seq_at(base, run as int + 1))
            == beyond(base, arrived, run as int + 1),
        run == 65536 ==> beyond(base, arrived, run as int) == Set::<u16>::empty(),
{
    let next = seq_at(base, run as int + 1);
    assert forall|x: u16| 1 <= #[trigger] reach(base, x) <= 65536 by {
        lemma_reach(base, x);
    }
    if run < 65536 {
        lemma_reach_of_seq_at(base, run as int + 1);
        assert forall|x: u16| #[trigger] reach(base, x) == run + 1 implies x == next by {
            lemma_reach(base, x);
        }
        assert(beyond(base, arrived, run as int).remove(next) =~= beyond(
            base,
            arrived,
            run as int + 1,
        ));
    } else {
        assert(beyond(base, arrived, run as int) =~= Set::<u16>::empty());
    }
}

/// Removes from `waiting` the unbroken run that starts right after `last`, and returns its
/// end: the last sequence number before which nothing is missing.
pub fn absorb_run(last: u16, waiting: &mut HashSet<u16>) -> (end: u16)
    ensures
        end == seq_at(last, run_end(last, old(waiting)@, 0) as int),
        final(waiting)@ == beyond(last, old(waiting)@, run_end(last, old(waiting)@, 0) as int),
{
    broadcast use vstd::std_specs::hash::group_hash_axioms;

    let ghost arrived = waiting@;
    let ghost mut run: nat = 0;
    let mut end: u16 = last;
    let mut next: u16 = last.wrapping_add(1);
    proof {
        assert(beyond(last, arrived, 0) =~= arrived) by {
            assert forall|x: u16| reach(last, x) > 0 by {
                lemma_reach(last, x);
            }
        }
        lemma_run_step(last, arrived, 0);
    }
    let mut found: bool = waiting.remove(&next);
    while found
        invariant
            run <= 65536,
            found == (run < 65536 && arrived.contains(next)),
            next == seq_at(last, run as int + 1),
            end == seq_at(last, run as int),
            found ==> waiting@ == beyond(last, arrived, run as int + 1),
            !found ==> waiting@ == beyond(last, arrived, run as int),
            run_end(last, arrived, run) == run_end(last, arrived, 0),
        decreases 65536 - run,
    {
        end = next;
        next = next.wrapping_add(1);
        proof {
            run = run + 1;
            lemma_run_step(last, arrived, run);
        }
        found = waiting.remove(&next);
    }
    end
}

} // verus!
