//! Sequence numbers: distances on their ring, and the reports of those that are
//! missing.

use crate::sequence::{
    asks_for, beyond, furthest, gap, group_heads, groups, lemma_furthest, lemma_groups_heads,
    lemma_missing, lemma_reach_of_seq_at, lemma_run_end, lemma_run_members, lemma_seq_at_gap,
    missing, reach, run_end, seq_at,
};
use vstd::prelude::*;

verus! {

/// Distances are how many steps lead, round the ring of 65536, from one sequence number to the
/// other.
pub proof fn distances_lead_there(from: u16, to: u16, steps: int)
    ensures
        0 <= gap(from, to) < 65536,
        (from + gap(from, to)) % 65536 == to,
        1 <= reach(from, to) <= 65536,
        (from + reach(from, to)) % 65536 == to,
        seq_at(from, steps) == (from + steps) % 65536,
{
}

/// The unbroken run is made of members of the set, and what would continue it is no member.
pub proof fn runs_go_as_far_as_they_can(base: u16, set: Set<u16>, j: int)
    ensures
        1 <= j <= run_end(base, set, 0) ==> set.contains(((base + j) % 65536) as u16),
        run_end(base, set, 0) < 65536 ==> !set.contains(
            ((base + run_end(base, set, 0) + 1) % 65536) as u16,
        ),
        run_end(base, set, 0) <= 65536,
{
    lemma_run_end(base, set, 0);
    if 1 <= j <= run_end(base, set, 0) {
        lemma_run_members(base, set, 0, j);
    }
}

/// What lies beyond a number of steps is what of the set is further away than that.
pub proof fn what_is_beyond_is_further_away(base: u16, set: Set<u16>, n: int, steps: int)
    requires
        1 <= steps <= 65536,
    ensures
        beyond(base, set, n).contains(((base + steps) % 65536) as u16) <==> set.contains(
            ((base + steps) % 65536) as u16,
        ) && steps > n,
{
    lemma_reach_of_seq_at(base, steps);
}

/// The furthest member is one, and there is none further away.
pub proof fn nothing_is_further_than_the_furthest(base: u16, set: Set<u16>, n: nat, steps: int)
    requires
        1 <= steps <= n,
    ensures
        set.contains(((base + steps) % 65536) as u16) ==> steps <= furthest(base, set, n),
        furthest(base, set, n) > 0 ==> set.contains(
            ((base + furthest(base, set, n)) % 65536) as u16,
        ),
        furthest(base, set, n) <= n,
{
    lemma_furthest(base, set, n);
    if steps > furthest(base, set, n) {
        assert(!set.contains(seq_at(base, steps)));
    }
}

/// What is missing is what lies within the steps and was neither received nor asked for; it is
/// listed in order, and nothing twice.
pub proof fn what_is_missing_is_listed_in_order(
    base: u16,
    n: nat,
    received: Set<u16>,
    asked: Set<u16>,
    steps: int,
)
    requires
        n <= 65536,
        1 <= steps <= 65536,
    ensures
        missing(base, n, received, asked).contains(((base + steps) % 65536) as u16) <==> steps <= n
            && !received.contains(((base + steps) % 65536) as u16) && !asked.contains(
            ((base + steps) % 65536) as u16,
        ),
        forall|i: int, j: int|
            0 <= i < j < missing(base, n, received, asked).len() ==> reach(
                base,
                #[trigger] missing(base, n, received, asked)[i],
            ) < reach(base, #[trigger] missing(base, n, received, asked)[j]),
{
    lemma_missing(base, n, received, asked);
    lemma_reach_of_seq_at(base, steps);
    lemma_ascending(base, n, received, asked);
}

proof fn lemma_ascending(base: u16, n: nat, received: Set<u16>, asked: Set<u16>)
    requires
        n <= 65536,
    ensures
        forall|i: int|
            0 <= i < missing(base, n, received, asked).len() ==> 1 <= reach(
                base,
                #[trigger] missing(base, n, received, asked)[i],
            ) <= n,
        forall|i: int, j: int|
            0 <= i < j < missing(base, n, received, asked).len() ==> reach(
                base,
                #[trigger] missing(base, n, received, asked)[i],
            ) < reach(base, #[trigger] missing(base, n, received, asked)[j]),
    decreases n,
{
    if n > 0 {
        lemma_ascending(base, (n - 1) as nat, received, asked);
        lemma_reach_of_seq_at(base, n as int);
        let earlier = missing(base, (n - 1) as nat, received, asked);
        let all = missing(base, n, received, asked);
        assert forall|i: int| 0 <= i < all.len() implies 1 <= reach(base, #[trigger] all[i])
            <= n by {
            if i < earlier.len() {
                assert(all[i] == earlier[i]);
            }
        }
        assert forall|i: int, j: int| 0 <= i < j < all.len() implies reach(
            base,
            #[trigger] all[i],
        ) < reach(base, #[trigger] all[j]) by {
            assert(all[i] == earlier[i]);
            if j < earlier.len() {
                assert(all[j] == earlier[j]);
            }
        }
    }
}

/// The groups of a report are more than 15 steps apart, each from the one before it.
pub proof fn groups_are_apart(seqs: Seq<u16>, g: int)
    requires
        0 <= g < groups(seqs).len() - 1,
    ensures
        gap(groups(seqs)[g].0, groups(seqs)[g + 1].0) > 15,
    decreases seqs.len(),
{
    let earlier = groups(seqs.drop_last());
    if g < earlier.len() - 1 {
        groups_are_apart(seqs.drop_last(), g);
    }
}

/// A group is headed by a sequence number that is reported, and its lowest bit is set. Any other
/// bit that is set stands for a sequence number that is reported, as many steps after the head
/// as the bit's place says, and one more.
pub proof fn groups_ask_for_nothing_else(seqs: Seq<u16>, g: int, place: u16)
    requires
        seqs.no_duplicates(),
        0 <= g < groups(seqs).len(),
        1 <= place < 16,
    ensures
        seqs.contains(groups(seqs)[g].0),
        groups(seqs)[g].1 & 1 == 1,
        groups(seqs)[g].1 & (1u16 << place) != 0 ==> seqs.contains(
            seq_at(groups(seqs)[g].0, place + 1),
        ),
        groups(seqs)[g].1 & (1u16 << place) != 0 ==> place < 15,
    decreases seqs.len(),
{
    let earlier = groups(seqs.drop_last());
    let item = seqs.last();
    let joins = earlier.len() > 0 && gap(earlier.last().0, item) <= 15;
    assert(seqs.contains(item)) by {
        assert(seqs[seqs.len() - 1] == item);
    }
    assert(1u16 & 1 == 1) by (bit_vector);
    assert(1u16 & (1u16 << place) == 0) by (bit_vector)
        requires
            1 <= place < 16,
    ;
    if g < earlier.len() {
        groups_ask_for_nothing_else(seqs.drop_last(), g, place);
        assert forall|x: u16| #[trigger] seqs.drop_last().contains(x) implies seqs.contains(x) by {
            let i = choose|i: int| 0 <= i < seqs.len() - 1 && seqs.drop_last()[i] == x;
            assert(seqs[i] == x);
        }
        let (head, bits) = earlier[g];
        if joins && g == earlier.len() - 1 {
            let distance = gap(head, item);
            let shift = (distance - 1) as u16;
            let i = choose|i: int| 0 <= i < seqs.len() - 1 && seqs.drop_last()[i] == head;
            assert(seqs[i] == head && seqs[seqs.len() - 1] == item);
            assert(distance != 0);
            assert((bits | (1u16 << shift)) & 1 == 1) by (bit_vector)
                requires
                    bits & 1 == 1,
            ;
            assert((bits | (1u16 << shift)) & (1u16 << place) != 0 ==> bits & (1u16 << place) != 0
                || shift == place) by (bit_vector)
                requires
                    shift < 16,
                    place < 16,
            ;
            lemma_seq_at_gap(head, 0, distance);
            assert(seq_at(head, distance) == item);
        }
    }
}

/// The heads of the groups are the same whether or not the followers are marked.
pub proof fn groups_have_the_group_heads(seqs: Seq<u16>, g: int)
    requires
        0 <= g < groups(seqs).len(),
    ensures
        groups(seqs).len() == group_heads(seqs).len(),
        groups(seqs)[g].0 == group_heads(seqs)[g],
{
    lemma_groups_heads(seqs);
}

/// A group asks for its head, and for the followers whose bits are set: that in the place `p` is
/// `p + 1` steps after the head.
pub proof fn bits_stand_for_followers(head: u16, bits: u16, place: u16)
    requires
        place < 15,
    ensures
        asks_for((head, bits), head),
        asks_for((head, bits), seq_at(head, place + 1)) <==> bits & (1u16 << place) != 0,
{
    lemma_seq_at_gap(head, 0, place + 1);
    assert(seq_at(head, 0) == head);
    assert(gap(head, seq_at(head, place + 1)) == place + 1);
}

} // verus!
