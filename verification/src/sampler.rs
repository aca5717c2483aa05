use vstd::prelude::*;
use vstd::multiset::{group_multiset_axioms, Multiset};
use vstd::seq_lib::{group_to_multiset_ensures, lemma_multiset_commutative};
use crate::error::EngineError;
use crate::registry::{swap_removed, Registry};

verus! {

/// The winners that the draws pick from `s`, in the order in which they are
/// drawn. Each draw is an index into what the earlier draws have left.
pub open spec fn winners_of<T>(s: Seq<T>, draws: Seq<usize>) -> Seq<T>
    decreases draws.len(),
{
    if draws.len() == 0 {
        Seq::empty()
    } else {
        seq![s[draws[0] as int]] + winners_of(swap_removed(s, draws[0] as int), draws.drop_first())
    }
}

/// What the draws leave of `s`, in the order in which the removals leave it.
pub open spec fn rest_of<T>(s: Seq<T>, draws: Seq<usize>) -> Seq<T>
    decreases draws.len(),
{
    if draws.len() == 0 {
        s
    } else {
        rest_of(swap_removed(s, draws[0] as int), draws.drop_first())
    }
}

/// The exclusive upper bound of draw number `i` from a registry that held
/// `count` entries before the first draw.
pub open spec fn draw_bound(count: nat, i: nat) -> nat {
    (count - i) as nat
}

/// Every draw is an index into what the draws before it have left of `count`
/// entries.
pub open spec fn draws_fit(count: nat, draws: Seq<usize>) -> bool {
    forall|i: int| 0 <= i < draws.len() ==> (#[trigger] draws[i]) < draw_bound(count, i as nat)
}

/// Why these draws cannot be made from `count` entries, if they cannot.
pub open spec fn extract_refusal(count: nat, draws: Seq<usize>) -> Option<EngineError> {
    if draws.len() > count {
        Some(EngineError::InsufficientParticipants)
    } else if !draws_fit(count, draws) {
        Some(EngineError::OutOfRange)
    } else {
        None
    }
}

/// Removal by swap takes one entry out of `s`, the one at `i`, and keeps all
/// the others.
pub proof fn lemma_swap_removed_takes_one<T>(s: Seq<T>, i: int)
    requires
        0 <= i < s.len(),
    ensures
        swap_removed(s, i).len() == s.len() - 1,
        swap_removed(s, i).to_multiset().insert(s[i]) == s.to_multiset(),
{
    broadcast use group_to_multiset_ensures;
    broadcast use group_multiset_axioms;

    let updated = s.update(i, s.last());
    let left = swap_removed(s, i);
    assert(updated =~= left.push(s.last()));
    assert(left.push(s.last()).to_multiset() == left.to_multiset().insert(s.last()));
    assert(updated.to_multiset() == s.to_multiset().insert(s.last()).remove(s[i]));
    assert(s.contains(s[i]));
    assert(s.to_multiset().count(s[i]) > 0);
    assert forall|x: T|
        left.to_multiset().insert(s[i]).count(x) == s.to_multiset().count(x) by {
        assert(left.to_multiset().insert(s.last()).count(x) == s.to_multiset().insert(
            s.last(),
        ).remove(s[i]).count(x));
    }
    assert(left.to_multiset().insert(s[i]) =~= s.to_multiset());
}

/// Draws that fit `count` entries fit, from the second draw on, the entries
/// that the first draw leaves.
pub proof fn lemma_later_draws_fit(count: nat, draws: Seq<usize>)
    requires
        draws.len() > 0,
        draws_fit(count, draws),
        draws.len() <= count,
    ensures
        draws[0] < count,
        draws_fit((count - 1) as nat, draws.drop_first()),
{
    assert(draws[0] < draw_bound(count, 0));
    assert forall|i: int| 0 <= i < draws.drop_first().len() implies (#[trigger] draws.drop_first()[i])
        < draw_bound((count - 1) as nat, i as nat) by {
        assert(draws[i + 1] < draw_bound(count, (i + 1) as nat));
    }
}

/// Winners that leave for good: for draws that are accepted, there is one
/// winner for each draw, the registry shrinks by as many, and the winners
/// together with what is left are exactly the entries that were there
/// before, each as often as before.
pub proof fn lemma_extract_partitions<T>(s: Seq<T>, draws: Seq<usize>)
    requires
        extract_refusal(s.len(), draws) is None,
    ensures
        winners_of(s, draws).len() == draws.len(),
        rest_of(s, draws).len() == s.len() - draws.len(),
        winners_of(s, draws).to_multiset().add(rest_of(s, draws).to_multiset()) == s.to_multiset(),
    decreases draws.len(),
{
    broadcast use group_to_multiset_ensures;
    broadcast use group_multiset_axioms;

    if draws.len() == 0 {
        assert(winners_of(s, draws).to_multiset().add(rest_of(s, draws).to_multiset())
            =~= s.to_multiset());
    } else {
        let first = draws[0] as int;
        let left = swap_removed(s, first);
        let later = draws.drop_first();
        lemma_later_draws_fit(s.len(), draws);
        lemma_swap_removed_takes_one(s, first);
        lemma_extract_partitions(left, later);
        lemma_multiset_commutative(seq![s[first]], winners_of(left, later));
        assert(seq![s[first]] =~= Seq::<T>::empty().push(s[first]));
        assert(seq![s[first]].to_multiset() =~= Multiset::<T>::empty().insert(s[first]));
        assert(winners_of(s, draws).to_multiset().add(rest_of(s, draws).to_multiset())
            =~= s.to_multiset());
    }
}

/// Winners that are put back: for draws that are accepted, the registry
/// afterwards is as long as before and holds exactly the entries that were
/// there before, each as often as before.
pub proof fn lemma_restoring_keeps_members<T>(s: Seq<T>, draws: Seq<usize>)
    requires
        extract_refusal(s.len(), draws) is None,
    ensures
        (rest_of(s, draws) + winners_of(s, draws)).len() == s.len(),
        (rest_of(s, draws) + winners_of(s, draws)).to_multiset() == s.to_multiset(),
{
    broadcast use group_multiset_axioms;

    lemma_extract_partitions(s, draws);
    lemma_multiset_commutative(rest_of(s, draws), winners_of(s, draws));
    assert((rest_of(s, draws) + winners_of(s, draws)).to_multiset() =~= s.to_multiset());
}

/// The places of a registry of `count` entries: 0, 1, and so on.
pub open spec fn places(count: nat) -> Seq<int> {
    Seq::new(count, |i: int| i)
}

/// The entries of `s` at the places `at`, in the order of `at`.
pub open spec fn entries_at<T>(s: Seq<T>, at: Seq<int>) -> Seq<T> {
    Seq::new(at.len(), |i: int| s[at[i]])
}

/// The places that the winners held before the first draw, in the order in
/// which they are drawn.
pub open spec fn winning_places(count: nat, draws: Seq<usize>) -> Seq<int> {
    winners_of(places(count), draws)
}

/// The places that the entries left by the draws held before the first draw.
pub open spec fn remaining_places(count: nat, draws: Seq<usize>) -> Seq<int> {
    rest_of(places(count), draws)
}

/// Drawing from the entries at some places gives the entries at the places
/// drawn: the draws look at where an entry sits, never at what it is.
pub proof fn lemma_draws_follow_places<T>(s: Seq<T>, at: Seq<int>, draws: Seq<usize>)
    requires
        extract_refusal(at.len(), draws) is None,
    ensures
        winners_of(entries_at(s, at), draws) == entries_at(s, winners_of(at, draws)),
        rest_of(entries_at(s, at), draws) == entries_at(s, rest_of(at, draws)),
    decreases draws.len(),
{
    if draws.len() == 0 {
        assert(winners_of(entries_at(s, at), draws) =~= entries_at(s, winners_of(at, draws)));
    } else {
        let first = draws[0] as int;
        let later = draws.drop_first();
        lemma_later_draws_fit(at.len(), draws);
        let left = swap_removed(at, first);
        assert(swap_removed(entries_at(s, at), first) =~= entries_at(s, left));
        lemma_draws_follow_places(s, left, later);
        lemma_extract_partitions(left, later);
        assert(winners_of(entries_at(s, at), draws) =~= entries_at(s, winners_of(at, draws)));
    }
}

/// The winners are entries of distinct places. For draws that are accepted,
/// the places of the winners followed by the places of what is left are all
/// the places of the registry, each of them once; the winners are the entries
/// that were at the first, and what is left the entries that were at the
/// others.
pub proof fn lemma_winners_hold_distinct_places<T>(s: Seq<T>, draws: Seq<usize>)
    requires
        extract_refusal(s.len(), draws) is None,
    ensures
        ({
            let won = winning_places(s.len(), draws);
            let kept = remaining_places(s.len(), draws);
            &&& won.len() == draws.len()
            &&& (won + kept).len() == s.len()
            &&& (won + kept).no_duplicates()
            &&& forall|j: int| 0 <= j < s.len() ==> 0 <= #[trigger] (won + kept)[j] < s.len()
            &&& winners_of(s, draws) == entries_at(s, won)
            &&& rest_of(s, draws) == entries_at(s, kept)
        }),
{
    broadcast use group_to_multiset_ensures;
    broadcast use group_multiset_axioms;

    let all = places(s.len());
    let won = winning_places(s.len(), draws);
    let kept = remaining_places(s.len(), draws);
    assert(entries_at(s, all) =~= s);
    lemma_draws_follow_places(s, all, draws);
    lemma_extract_partitions(all, draws);
    lemma_multiset_commutative(won, kept);
    assert((won + kept).to_multiset() =~= all.to_multiset());
    assert(all.no_duplicates());
    all.lemma_multiset_has_no_duplicates();
    (won + kept).lemma_multiset_has_no_duplicates_conv();
    assert forall|j: int| 0 <= j < s.len() implies 0 <= #[trigger] (won + kept)[j] < s.len() by {
        let place = (won + kept)[j];
        assert((won + kept).contains(place));
        assert(all.to_multiset().count(place) > 0);
        assert(all.contains(place));
        let i = choose|i: int| 0 <= i < all.len() && all[i] == place;
        assert(all[i] == i);
    }
}

/// The bounds within which `k` winners are drawn from `count` entries: draw
/// number `i` must be below entry `i` of the answer. More winners than
/// entries are refused.
pub fn draw_bounds(count: usize, k: usize) -> (r: Result<Vec<usize>, EngineError>)
    ensures
        k > count ==> r == Err::<Vec<usize>, EngineError>(EngineError::InsufficientParticipants),
        k <= count ==> (r matches Ok(bounds) && bounds@.len() == k && forall|i: int|
            0 <= i < k ==> (#[trigger] bounds@[i]) == draw_bound(count as nat, i as nat)),
{
    if k > count {
        return Err(EngineError::InsufficientParticipants);
    }
    let mut bounds: Vec<usize> = Vec::new();
    let mut i: usize = 0;
    while i < k
        invariant
            i <= k <= count,
            bounds@.len() == i,
            forall|j: int| 0 <= j < i ==> (#[trigger] bounds@[j]) == draw_bound(count as nat, j as nat),
        decreases k - i,
    {
        bounds.push(count - i);
        i += 1;
    }
    Ok(bounds)
}

/// Whether every draw is an index into what the draws before it leave of
/// `count` entries.
fn draws_are_in_range(count: usize, draws: &Vec<usize>) -> (r: bool)
    requires
        draws@.len() <= count,
    ensures
        r == draws_fit(count as nat, draws@),
{
    let mut i: usize = 0;
    while i < draws.len()
        invariant
            i <= draws@.len() <= count,
            forall|j: int| 0 <= j < i ==> (#[trigger] draws@[j]) < draw_bound(count as nat, j as nat),
        decreases draws@.len() - i,
    {
        if draws[i] >= count - i {
            return false;
        }
        i += 1;
    }
    true
}

/// Draws one winner for each entry of `draws`, without replacement: each draw
/// removes the entry at its index, the last entry taking the place of the one
/// removed. The winners leave the registry for good.
///
/// More draws than entries, or a draw beyond what the draws before it have
/// left, are refused before anything is removed.
pub fn extract<P: Copy>(registry: &mut Registry<P>, draws: &Vec<usize>) -> (r: Result<
    Vec<P>,
    EngineError,
>)
    ensures
        match extract_refusal(old(registry)@.len(), draws@) {
            Some(e) => r == Err::<Vec<P>, EngineError>(e) && final(registry)@ == old(registry)@,
            None => r matches Ok(winners) && winners@ == winners_of(old(registry)@, draws@)
                && final(registry)@ == rest_of(old(registry)@, draws@),
        },
{
    let count = registry.count();
    if draws.len() > count {
        return Err(EngineError::InsufficientParticipants);
    }
    if !draws_are_in_range(count, draws) {
        return Err(EngineError::OutOfRange);
    }
    let mut winners: Vec<P> = Vec::new();
    let mut i: usize = 0;
    proof {
        let all = winners_of(registry@, draws@);
        assert(draws@.subrange(0, draws@.len() as int) =~= draws@);
        assert(winners@ + all =~= all);
    }
    while i < draws.len()
        invariant
            i <= draws@.len() <= count,
            count == old(registry)@.len(),
            draws_fit(count as nat, draws@),
            registry@.len() == count - i,
            winners@ + winners_of(registry@, draws@.subrange(i as int, draws@.len() as int))
                == winners_of(old(registry)@, draws@),
            rest_of(registry@, draws@.subrange(i as int, draws@.len() as int)) == rest_of(
                old(registry)@,
                draws@,
            ),
        decreases draws@.len() - i,
    {
        let ghost before = registry@;
        let ghost todo = draws@.subrange(i as int, draws@.len() as int);
        let index = draws[i];
        assert(draws@[i as int] < draw_bound(count as nat, i as nat));
        let winner = registry.entries.swap_remove(index);
        winners.push(winner);
        i += 1;
        proof {
            assert(todo.drop_first() =~= draws@.subrange(i as int, draws@.len() as int));
            assert(todo[0] == index);
            assert(winners@ + winners_of(registry@, todo.drop_first()) =~= winners@.drop_last() + (
            seq![before[index as int]] + winners_of(registry@, todo.drop_first())));
        }
    }
    proof {
        assert(draws@.subrange(i as int, draws@.len() as int) =~= Seq::<usize>::empty());
        assert(winners@ + Seq::<P>::empty() =~= winners@);
    }
    Ok(winners)
}

/// Draws winners as `extract` does, then puts them back at the end of the
/// registry in the order in which they were drawn: the registry keeps its
/// members and loses its order.
pub fn extract_restoring<P: Copy>(registry: &mut Registry<P>, draws: &Vec<usize>) -> (r: Result<
    Vec<P>,
    EngineError,
>)
    ensures
        match extract_refusal(old(registry)@.len(), draws@) {
            Some(e) => r == Err::<Vec<P>, EngineError>(e) && final(registry)@ == old(registry)@,
            None => r matches Ok(winners) && winners@ == winners_of(old(registry)@, draws@)
                && final(registry)@ == rest_of(old(registry)@, draws@) + winners_of(
                old(registry)@,
                draws@,
            ),
        },
{
    let winners = match extract(registry, draws) {
        Ok(winners) => winners,
        Err(e) => {
            return Err(e);
        },
    };
    let ghost rest = registry@;
    let mut i: usize = 0;
    while i < winners.len()
        invariant
            i <= winners@.len(),
            registry@ == rest + winners@.subrange(0, i as int),
        decreases winners@.len() - i,
    {
        registry.append(winners[i]);
        i += 1;
        assert(registry@ =~= rest + winners@.subrange(0, i as int));
    }
    assert(winners@.subrange(0, i as int) =~= winners@);
    Ok(winners)
}

} // verus!
