//! Laws that relate several operations of a `Deque`, stated over the same
//! spec functions their contracts use.
use vstd::prelude::*;

use crate::deque::Deque;
use crate::iterators::{IterBack, IterFront};
use crate::token::Token;

verus! {

/// A handle handed out by an insertion at position `k` of value `v`
/// addresses `v`, at `k`.
pub proof fn lemma_inserted_handle_finds_value<T>(d0: Deque<T>, d1: Deque<T>, k: int, v: T, t: Token)
    requires
        d0.wf(),
        d1.wf(),
        0 <= k <= d0@.len(),
        d1@ == d0@.insert(k, v),
        d1.handles() == d0.handles().insert(k, t),
    ensures
        d1.contains_handle(t),
        d1.position(t) == k,
        d1.lookup(t) == Some(v),
{
    d0.lemma_ends();
    d1.lemma_ends();
    assert(d1.handles()[k] == t);
    d1.lemma_handle(t);
}

/// Once the element a handle addresses is removed, the handle addresses
/// nothing, though it stays on record as handed out.
pub proof fn lemma_removed_handle_is_stale<T>(d0: Deque<T>, d1: Deque<T>, t: Token)
    requires
        d0.wf(),
        d1.wf(),
        d0.contains_handle(t),
        d1.handles() == d0.handles().remove(d0.position(t)),
        d1.issued() == d0.issued(),
    ensures
        d1.issued().contains(t),
        !d1.contains_handle(t),
        d1.lookup(t) is None,
{
    d0.lemma_ends();
    d0.lemma_handle(t);
    let p = d0.position(t);
    if d1.contains_handle(t) {
        let k = choose|k: int| 0 <= k < d1.handles().len() && d1.handles()[k] == t;
        let k0 = if k < p { k } else { k + 1 };
        assert(d0.handles()[k0] == t);
    }
}

/// A handle that addresses nothing never addresses anything again: no
/// later operation brings it back, even when its slot holds a new element.
pub proof fn lemma_stale_handle_stays_stale<T>(d0: Deque<T>, d1: Deque<T>, t: Token)
    requires
        d1.descends_from(&d0),
        d0.issued().contains(t),
        !d0.contains_handle(t),
    ensures
        d1.issued().contains(t),
        !d1.contains_handle(t),
        d1.lookup(t) is None,
{
}

/// The number of live handles is the length: each element has exactly one
/// handle, and a handle retrieves an element exactly when it is live.
pub proof fn lemma_live_handles_count<T>(d: Deque<T>)
    requires
        d.wf(),
    ensures
        d.handles().no_duplicates(),
        d.handles().to_set().len() == d@.len(),
        forall|t: Token| #[trigger] d.lookup(t) is Some <==> d.handles().to_set().contains(t),
{
    d.lemma_ends();
    d.handles().unique_seq_to_set();
}

/// Slots are recycled, never discarded: an insertion adds a slot to the
/// arena only when the free list is empty, else it takes one from it.
pub proof fn lemma_insertion_counts<T>(d0: Deque<T>, d1: Deque<T>)
    requires
        d1@.len() == d0@.len() + 1,
        d1.free_len() == (if d0.free_len() == 0 {
            0
        } else {
            d0.free_len() - 1
        }),
    ensures
        d1@.len() + d1.free_len() == d0@.len() + d0.free_len() + (if d0.free_len() == 0 {
            1int
        } else {
            0int
        }),
{
}

/// Slots are recycled, never discarded: a removal moves its slot to the
/// free list, so the live and free slots together stay as many.
pub proof fn lemma_removal_counts<T>(d0: Deque<T>, d1: Deque<T>)
    requires
        d0@.len() > 0,
        d1@.len() == d0@.len() - 1,
        d1.free_len() == d0.free_len() + 1,
    ensures
        d1@.len() + d1.free_len() == d0@.len() + d0.free_len(),
{
}

/// Each step of `run` keeps the values of live handles and revives no
/// stale handle, as the contract of every operation that does not write
/// through a handle states.
pub open spec fn handle_safe_run<T>(run: Seq<Deque<T>>) -> bool {
    &&& forall|i: int| 0 <= i < run.len() ==> (#[trigger] run[i]).wf()
    &&& forall|i: int|
        0 <= i < run.len() - 1 ==> (#[trigger] run[i + 1]).keeps_values(&run[i]) && run[i + 1].descends_from(
            &run[i],
        )
}

/// Two steps that each keep values and revive nothing make one step that
/// does the same: a handle live at both ends was live in between.
pub proof fn lemma_steps_compose<T>(d0: Deque<T>, d1: Deque<T>, d2: Deque<T>)
    requires
        d0.wf(),
        d1.wf(),
        d1.keeps_values(&d0),
        d1.descends_from(&d0),
        d2.keeps_values(&d1),
        d2.descends_from(&d1),
    ensures
        d2.keeps_values(&d0),
        d2.descends_from(&d0),
{
    d0.lemma_ends();
    assert forall|t: Token| #[trigger]
        d2.contains_handle(t) && d0.contains_handle(t) implies d2.lookup(t) == d0.lookup(t) by {
        let k = choose|k: int| 0 <= k < d0.handles().len() && d0.handles()[k] == t;
        assert(d0.issued().contains(d0.handles()[k]));
        assert(d1.contains_handle(t));
    }
}

/// Handle round trip over any run of operations: a handle live at the
/// start and at the end of the run addresses the same value at both, and
/// a handle stale at the start is stale at the end.
pub proof fn lemma_handle_safe_run<T>(run: Seq<Deque<T>>)
    requires
        run.len() > 0,
        handle_safe_run(run),
    ensures
        run.last().keeps_values(&run[0]),
        run.last().descends_from(&run[0]),
    decreases run.len(),
{
    if run.len() == 1 {
        assert(run.last() == run[0]);
    } else {
        let prefix = run.drop_last();
        assert(handle_safe_run(prefix)) by {
            assert forall|i: int| 0 <= i < prefix.len() - 1 implies (#[trigger] prefix[i + 1]).keeps_values(
                &prefix[i],
            ) && prefix[i + 1].descends_from(&prefix[i]) by {
                assert(prefix[i + 1] == run[i + 1] && prefix[i] == run[i]);
            }
        }
        lemma_handle_safe_run(prefix);
        let i = run.len() - 2;
        assert(run[i + 1].keeps_values(&run[i]) && run[i + 1].descends_from(&run[i]));
        assert(prefix.last() == run[i]);
        assert(run.last() == run[i + 1]);
        assert(run[0].wf() && run[i].wf());
        lemma_steps_compose(run[0], run[i], run[i + 1]);
    }
}

/// One step of a run of insertions, pops and removals, as their contracts
/// state the two counts: an insertion, a removal, or nothing removed.
pub open spec fn counted_step<T>(a: Deque<T>, b: Deque<T>) -> bool {
    ||| b@.len() == a@.len() + 1 && b.free_len() == (if a.free_len() == 0 {
        0
    } else {
        a.free_len() - 1
    })
    ||| a@.len() > 0 && b@.len() == a@.len() - 1 && b.free_len() == a.free_len() + 1
    ||| b@.len() == a@.len() && b.free_len() == a.free_len()
}

/// The steps of `run` that inserted while the free list was empty, and so
/// grew the arena by one slot.
pub open spec fn fresh_slot_count<T>(run: Seq<Deque<T>>) -> nat
    decreases run.len(),
{
    if run.len() < 2 {
        0
    } else {
        let n = run.len() - 1;
        fresh_slot_count(run.drop_last()) + (if run[n - 1].free_len() == 0 && run[n]@.len()
            == run[n - 1]@.len() + 1 {
            1nat
        } else {
            0nat
        })
    }
}

/// Slots are recycled, never discarded: over any run of insertions, pops
/// and removals, live plus free slots at the end are those at the start
/// plus one for each insertion that found the free list empty.
pub proof fn lemma_counted_run<T>(run: Seq<Deque<T>>)
    requires
        run.len() > 0,
        forall|i: int| 0 <= i < run.len() - 1 ==> counted_step(run[i], #[trigger] run[i + 1]),
    ensures
        run.last()@.len() + run.last().free_len() == run[0]@.len() + run[0].free_len()
            + fresh_slot_count(run),
    decreases run.len(),
{
    if run.len() > 1 {
        let prefix = run.drop_last();
        assert forall|i: int| 0 <= i < prefix.len() - 1 implies counted_step(
            prefix[i],
            #[trigger] prefix[i + 1],
        ) by {
            assert(prefix[i + 1] == run[i + 1] && prefix[i] == run[i]);
        }
        lemma_counted_run(prefix);
        let i = run.len() - 2;
        assert(counted_step(run[i], run[i + 1]));
        assert(prefix.last() == run[i]);
        assert(run.last() == run[i + 1]);
    }
}

/// A walk from the front and a walk from the back, reversed, meet the same
/// elements, as many as the deque holds.
pub proof fn lemma_walks_agree<'a, T>(d: Deque<T>, f: IterFront<'a, T>, b: IterBack<'a, T>)
    requires
        d.wf(),
        f.remaining() == d@,
        b.remaining() == d@.reverse(),
    ensures
        f.remaining() == b.remaining().reverse(),
        f.remaining().len() == d@.len(),
        b.remaining().len() == d@.len(),
{
    assert(d@.reverse().reverse() =~= d@);
}

/// Moving the front element to the front changes nothing.
pub proof fn lemma_move_front_to_front<T>(d: Deque<T>, t: Token)
    requires
        d.wf(),
        d.contains_handle(t),
        d.position(t) == 0,
    ensures
        seq![d@[d.position(t)]] + d@.remove(d.position(t)) == d@,
        seq![t] + d.handles().remove(d.position(t)) == d.handles(),
{
    d.lemma_ends();
    d.lemma_handle(t);
    assert(seq![d@[0]] + d@.remove(0) =~= d@);
    assert(seq![t] + d.handles().remove(0) =~= d.handles());
}

/// Moving an element to the front twice in a row ends as moving it once:
/// after the first move it is the front, so the second changes nothing.
pub proof fn lemma_move_to_front_twice<T>(d0: Deque<T>, d1: Deque<T>, t: Token)
    requires
        d0.wf(),
        d1.wf(),
        d0.contains_handle(t),
        d1@ == seq![d0@[d0.position(t)]] + d0@.remove(d0.position(t)),
        d1.handles() == seq![t] + d0.handles().remove(d0.position(t)),
    ensures
        d1.contains_handle(t),
        d1.position(t) == 0,
        seq![d1@[d1.position(t)]] + d1@.remove(d1.position(t)) == d1@,
        seq![t] + d1.handles().remove(d1.position(t)) == d1.handles(),
{
    d0.lemma_ends();
    d0.lemma_handle(t);
    assert(d1.handles()[0] == t);
    d1.lemma_ends();
    d1.lemma_handle(t);
    lemma_move_front_to_front(d1, t);
}

/// Moving the back element to the back changes nothing.
pub proof fn lemma_move_back_to_back<T>(d: Deque<T>, t: Token)
    requires
        d.wf(),
        d.contains_handle(t),
        d.position(t) == d@.len() - 1,
    ensures
        d@.remove(d.position(t)).push(d@[d.position(t)]) == d@,
        d.handles().remove(d.position(t)).push(t) == d.handles(),
{
    d.lemma_ends();
    d.lemma_handle(t);
    let p = d.position(t);
    assert(d@.remove(p).push(d@[p]) =~= d@);
    assert(d.handles().remove(p).push(t) =~= d.handles());
}

/// Moving an element to the back twice in a row ends as moving it once.
pub proof fn lemma_move_to_back_twice<T>(d0: Deque<T>, d1: Deque<T>, t: Token)
    requires
        d0.wf(),
        d1.wf(),
        d0.contains_handle(t),
        d1@ == d0@.remove(d0.position(t)).push(d0@[d0.position(t)]),
        d1.handles() == d0.handles().remove(d0.position(t)).push(t),
    ensures
        d1.contains_handle(t),
        d1.position(t) == d1@.len() - 1,
        d1@.remove(d1.position(t)).push(d1@[d1.position(t)]) == d1@,
        d1.handles().remove(d1.position(t)).push(t) == d1.handles(),
{
    d0.lemma_ends();
    d0.lemma_handle(t);
    d1.lemma_ends();
    assert(d1.handles()[d1@.len() - 1] == t);
    d1.lemma_handle(t);
    lemma_move_back_to_back(d1, t);
}

/// Swapping two elements twice restores the order, and through both swaps
/// each handle keeps addressing its own element.
pub proof fn lemma_swap_twice<T>(d0: Deque<T>, d1: Deque<T>, a: Token, b: Token)
    requires
        d0.wf(),
        d1.wf(),
        d0.contains_handle(a),
        d0.contains_handle(b),
        d1@ == d0@.update(d0.position(a), d0@[d0.position(b)]).update(
            d0.position(b),
            d0@[d0.position(a)],
        ),
        d1.handles() == d0.handles().update(d0.position(a), b).update(d0.position(b), a),
    ensures
        d1.contains_handle(a),
        d1.contains_handle(b),
        d1.lookup(a) == d0.lookup(a),
        d1.lookup(b) == d0.lookup(b),
        d1@.update(d1.position(a), d1@[d1.position(b)]).update(
            d1.position(b),
            d1@[d1.position(a)],
        ) == d0@,
        d1.handles().update(d1.position(a), b).update(d1.position(b), a) == d0.handles(),
{
    d0.lemma_ends();
    d1.lemma_ends();
    d0.lemma_handle(a);
    d0.lemma_handle(b);
    let pa = d0.position(a);
    let pb = d0.position(b);
    assert(d1.handles()[pb] == a);
    assert(d1.handles()[pa] == b);
    d1.lemma_handle(a);
    d1.lemma_handle(b);
    assert(d1.position(a) == pb);
    assert(d1.position(b) == pa);
    assert(d1@.update(pb, d1@[pa]).update(pa, d1@[pb]) =~= d0@);
    assert(d1.handles().update(pb, b).update(pa, a) =~= d0.handles());
    if pa == pb {
        assert(a == b);
    }
}

/// Swapping an element with itself changes nothing.
pub proof fn lemma_swap_with_itself<T>(d: Deque<T>, a: Token)
    requires
        d.wf(),
        d.contains_handle(a),
    ensures
        d@.update(d.position(a), d@[d.position(a)]).update(d.position(a), d@[d.position(a)]) == d@,
        d.handles().update(d.position(a), a).update(d.position(a), a) == d.handles(),
{
    d.lemma_ends();
    d.lemma_handle(a);
    assert(d@.update(d.position(a), d@[d.position(a)]).update(d.position(a), d@[d.position(a)]) =~= d@);
    assert(d.handles().update(d.position(a), a).update(d.position(a), a) =~= d.handles());
}

} // verus!
