use vstd::prelude::*;

use crate::slot::{Free, Slot, Used, NONE};
use crate::token::Token;

verus! {

/// The index before position `k` of `chain`, or `NONE` at the front.
pub(crate) open spec fn prev_of(chain: Seq<usize>, k: int) -> usize {
    if k == 0 {
        NONE
    } else {
        chain[k - 1]
    }
}

/// The index after position `k` of `chain`, or `NONE` at the back.
pub(crate) open spec fn next_of(chain: Seq<usize>, k: int) -> usize {
    if k + 1 >= chain.len() {
        NONE
    } else {
        chain[k + 1]
    }
}

/// Slot `chain[k]` is used and its links name its two neighbours in `chain`.
pub(crate) open spec fn linked<T>(slots: Seq<Slot<T>>, chain: Seq<usize>, k: int) -> bool {
    &&& chain[k] < slots.len()
    &&& slots[chain[k] as int].is_used()
    &&& slots[chain[k] as int].used().front == prev_of(chain, k)
    &&& slots[chain[k] as int].used().back == next_of(chain, k)
}

/// Slot `free[k]` is free and names the next entry of `free` (or `NONE`).
pub(crate) open spec fn threaded<T>(slots: Seq<Slot<T>>, free: Seq<usize>, k: int) -> bool {
    &&& free[k] < slots.len()
    &&& slots[free[k] as int] is Free
    &&& slots[free[k] as int]->Free_0.next == next_of(free, k)
}

/// Relies on `Vec::capacity`: the capacity is never below the length.
#[verifier::external_body]
fn vec_capacity<T>(v: &Vec<T>) -> (r: usize)
    ensures
        r >= v@.len(),
{
    v.capacity()
}

/// A deque that removes, swaps and relocates elements anywhere in it, not
/// only at its two ends. Elements live in the slots of a growable arena
/// and are chained to their neighbours by slot index; removed slots go on
/// a free list and are used again before the arena grows.
pub struct Deque<T> {
    // Head of the free list; `NONE` when it is empty.
    pub(crate) free_list: usize,
    // Slot of the front element; `NONE` when the deque is empty.
    pub(crate) front: usize,
    // Slot of the back element; `NONE` when the deque is empty.
    pub(crate) back: usize,
    // The generation the next allocation gets.
    pub(crate) next_generation: usize,
    // Number of slots in the chain.
    pub(crate) len_used: usize,
    // Number of slots on the free list.
    pub(crate) len_free: usize,
    // The arena.
    pub(crate) slots: Vec<Slot<T>>,
    // The slots of the chain, front to back.
    pub(crate) chain: Ghost<Seq<usize>>,
    // The slots of the free list, head first.
    pub(crate) free: Ghost<Seq<usize>>,
    // Every handle handed out so far.
    pub(crate) issued: Ghost<Set<Token>>,
}

impl<T> View for Deque<T> {
    type V = Seq<T>;

    /// The elements, front to back.
    closed spec fn view(&self) -> Seq<T> {
        Seq::new(self.chain@.len(), |k: int| self.slots@[self.chain@[k] as int].used().data)
    }
}

impl<T> Default for Deque<T> {
    /// An empty deque with an empty arena.
    fn default() -> (r: Self)
        ensures
            r.wf(),
            r@ == Seq::<T>::empty(),
            r.handles() == Seq::<Token>::empty(),
            r.issued() == Set::<Token>::empty(),
            r.free_len() == 0,
            r.generation_count() == 0,
    {
        let r = Deque {
            free_list: NONE,
            front: NONE,
            back: NONE,
            next_generation: 0,
            len_used: 0,
            len_free: 0,
            slots: Vec::new(),
            chain: Ghost(Seq::empty()),
            free: Ghost(Seq::empty()),
            issued: Ghost(Set::empty()),
        };
        assert(r@ =~= Seq::<T>::empty());
        assert(r.handles() =~= Seq::<Token>::empty());
        r
    }
}

impl<T> Deque<T> {
    /// The handle of the element at position `k`.
    pub(crate) closed spec fn handle_at(&self, k: int) -> Token {
        Token {
            ix: self.chain@[k],
            generation: self.slots@[self.chain@[k] as int].used().generation,
        }
    }

    /// The handles of the elements, front to back.
    pub closed spec fn handles(&self) -> Seq<Token> {
        Seq::new(self.chain@.len(), |k: int| self.handle_at(k))
    }

    /// Every handle this deque has handed out, live or not.
    pub closed spec fn issued(&self) -> Set<Token> {
        self.issued@
    }

    /// The number of slots on the free list.
    pub closed spec fn free_len(&self) -> nat {
        self.free@.len()
    }

    /// The number of generations used so far: one for each insertion.
    pub closed spec fn generation_count(&self) -> nat {
        self.next_generation as nat
    }

    /// Handle `t` addresses an element of the deque.
    pub open spec fn contains_handle(&self, t: Token) -> bool {
        self.handles().contains(t)
    }

    /// The position of the element that `t` addresses.
    pub open spec fn position(&self, t: Token) -> int {
        choose|k: int| 0 <= k < self.handles().len() && self.handles()[k] == t
    }

    /// The element that `t` addresses, if it still addresses one.
    pub open spec fn lookup(&self, t: Token) -> Option<T> {
        if self.contains_handle(t) {
            Some(self@[self.position(t)])
        } else {
            None
        }
    }

    /// Every handle live in `self` was live in `prev` or is newer than
    /// it, and every handle `prev` had handed out is still on record.
    pub open spec fn descends_from(&self, prev: &Self) -> bool {
        &&& prev.issued().subset_of(self.issued())
        &&& forall|u: Token| #[trigger]
            self.contains_handle(u) ==> prev.contains_handle(u) || !prev.issued().contains(u)
    }

    /// Every handle live both in `prev` and in `self` addresses the same
    /// value in both.
    pub open spec fn keeps_values(&self, prev: &Self) -> bool {
        forall|t: Token|
            #[trigger] self.contains_handle(t) && prev.contains_handle(t) ==> self.lookup(t)
                == prev.lookup(t)
    }

    /// `self` keeps the values of `prev` where each position `k` of `self`
    /// that holds a handle of `prev` came from position `f(k)` of `prev`.
    pub(crate) proof fn lemma_keeps_values(&self, prev: &Self, f: spec_fn(int) -> int)
        requires
            self.wf(),
            prev.wf(),
            forall|k: int|
                0 <= k < self@.len() && prev.contains_handle(#[trigger] self.handles()[k]) ==> 0 <= f(k)
                    < prev@.len() && prev.handles()[f(k)] == self.handles()[k] && self@[k] == prev@[f(k)],
        ensures
            self.keeps_values(prev),
    {
        self.lemma_ends();
        prev.lemma_ends();
        assert forall|t: Token| #[trigger]
            self.contains_handle(t) && prev.contains_handle(t) implies self.lookup(t) == prev.lookup(t) by {
            self.lemma_handle(t);
            prev.lemma_handle(t);
            let k = self.position(t);
            assert(self.handles()[k] == t);
            assert(prev.handles()[f(k)] == t);
        }
    }

    pub(crate) closed spec fn free_ok(&self) -> bool {
        &&& self.free@.len() == self.len_free
        &&& self.free@.no_duplicates()
        &&& self.free_list == (if self.free@.len() == 0 { NONE } else { self.free@[0] })
        &&& forall|k: int| 0 <= k < self.free@.len() ==> #[trigger] threaded(self.slots@, self.free@, k)
    }

    pub(crate) closed spec fn chain_ok(&self) -> bool {
        &&& self.chain@.len() == self.len_used
        &&& self.chain@.no_duplicates()
        &&& self.front == (if self.chain@.len() == 0 { NONE } else { self.chain@[0] })
        &&& self.back == (if self.chain@.len() == 0 { NONE } else { self.chain@.last() })
        &&& forall|k: int| 0 <= k < self.chain@.len() ==> #[trigger] linked(self.slots@, self.chain@, k)
    }

    pub(crate) closed spec fn gen_ok(&self) -> bool {
        &&& forall|t: Token| #[trigger] self.issued@.contains(t) ==> t.generation < self.next_generation
        &&& forall|k: int| 0 <= k < self.chain@.len() ==> self.issued@.contains(#[trigger] self.handle_at(k))
    }

    pub(crate) closed spec fn partition_ok(&self) -> bool {
        &&& self.slots@.len() == self.chain@.len() + self.free@.len()
        &&& forall|ix: int| 0 <= ix < self.slots@.len() && (#[trigger] self.slots@[ix]).is_used()
            ==> self.chain@.contains(ix as usize)
    }

    /// The internal invariant: the chain and the free list are linked as
    /// their ghost sequences say, every used slot is in the chain, and
    /// every generation in use is below the counter.
    pub closed spec fn wf(&self) -> bool {
        &&& self.free_ok()
        &&& self.chain_ok()
        &&& self.gen_ok()
        &&& self.partition_ok()
    }

    /// Creates an empty deque. Nothing is allocated until an element is
    /// inserted.
    pub fn new() -> (r: Deque<T>)
        ensures
            r.wf(),
            r@ == Seq::<T>::empty(),
            r.handles() == Seq::<Token>::empty(),
            r.issued() == Set::<Token>::empty(),
            r.free_len() == 0,
            r.generation_count() == 0,
    {
        Self::default()
    }

    /// Creates an empty deque whose free list already holds `capacity`
    /// slots, so that the first `capacity` insertions do not grow the arena.
    pub fn with_capacity(capacity: usize) -> (r: Deque<T>)
        ensures
            r.wf(),
            r@ == Seq::<T>::empty(),
            r.handles() == Seq::<Token>::empty(),
            r.issued() == Set::<Token>::empty(),
            r.free_len() == capacity,
            r.generation_count() == 0,
    {
        let mut vec: Vec<Slot<T>> = Vec::with_capacity(capacity);
        let mut next: usize = NONE;
        let mut i: usize = 0;
        while i < capacity
            invariant
                i <= capacity,
                vec@.len() == i,
                next == (if i == 0 { NONE } else { (i - 1) as usize }),
                forall|j: int|
                    0 <= j < i ==> (#[trigger] vec@[j]) is Free && vec@[j]->Free_0.next == (if j
                        == 0 {
                        NONE
                    } else {
                        (j - 1) as usize
                    }),
            decreases capacity - i,
        {
            vec.push(Slot::new_free(next));
            next = i;
            i += 1;
        }
        let ghost free = Seq::new(capacity as nat, |k: int| (capacity - 1 - k) as usize);
        let r = Deque {
            free_list: next,
            front: NONE,
            back: NONE,
            next_generation: 0,
            len_used: 0,
            len_free: capacity,
            slots: vec,
            chain: Ghost(Seq::empty()),
            free: Ghost(free),
            issued: Ghost(Set::empty()),
        };
        assert forall|k: int| 0 <= k < free.len() implies #[trigger] threaded(r.slots@, free, k) by {
            assert(r.slots@[free[k] as int] == vec@[capacity - 1 - k]);
        }
        assert(r@ =~= Seq::<T>::empty());
        assert(r.handles() =~= Seq::<Token>::empty());
        r
    }

    /// Takes a slot for a new element linked to `front` and `back`: the
    /// head of the free list if there is one, else a new slot at the end of
    /// the arena. The chain and its links are the caller's to update.
    pub(crate) fn allocate(&mut self, front: usize, back: usize, data: T) -> (r: (usize, usize))
        requires
            old(self).wf(),
            old(self).generation_count() < usize::MAX,
            old(self)@.len() + old(self).free_len() < usize::MAX,
        ensures
            !old(self).issued().contains(Token { ix: r.0, generation: r.1 }),
            r.1 == old(self).next_generation,
            final(self).next_generation == old(self).next_generation + 1,
            r.0 < final(self).slots@.len(),
            !old(self).chain@.contains(r.0),
            old(self).free@.len() == 0 ==> r.0 == old(self).slots@.len() && final(self).slots@
                == old(self).slots@.push(Slot::Used(Used { front, back, generation: r.1, data })),
            old(self).free@.len() > 0 ==> r.0 == old(self).free@[0] && r.0 < old(self).slots@.len()
                && final(self).slots@
                == old(self).slots@.update(
                r.0 as int,
                Slot::Used(Used { front, back, generation: r.1, data }),
            ),
            final(self).free@ == (if old(self).free@.len() == 0 {
                old(self).free@
            } else {
                old(self).free@.drop_first()
            }),
            final(self).free_ok(),
            final(self).len_used == old(self).len_used + 1,
            final(self).chain == old(self).chain,
            final(self).front == old(self).front,
            final(self).back == old(self).back,
            final(self).detached(r.0),
            final(self).issued() == old(self).issued().insert(Token { ix: r.0, generation: r.1 }),
            final(self).free_len() == (if old(self).free_len() == 0 {
                0
            } else {
                old(self).free_len() - 1
            }),
            final(self).generation_count() == old(self).generation_count() + 1,
            final(self)@ == old(self)@,
            final(self).handles() == old(self).handles(),
    {
        let generation = self.next_generation;
        self.next_generation = self.next_generation + 1;
        self.len_used = self.len_used + 1;
        let ghost old_slots = self.slots@;
        let s = Slot::new_used(front, back, generation, data);
        proof {
            if self.free@.len() > 0 {
                assert(threaded(old_slots, self.free@, 0));
            }
        }
        let ix = if NONE == self.free_list {
            self.slots.push(s);
            assert forall|k: int| 0 <= k < self.free@.len() implies #[trigger] threaded(
                self.slots@,
                self.free@,
                k,
            ) by {
                assert(threaded(old_slots, self.free@, k));
            }
            self.slots.len() - 1
        } else {
            let ix = self.free_list;
            assert(threaded(old_slots, self.free@, 0));
            self.free_list = match self.slots[ix].get_free() {
                Some(f) => f.next(),
                None => NONE,
            };
            self.slots[ix] = s;
            self.len_free = self.len_free - 1;
            let ghost old_free = self.free@;
            self.free = Ghost(self.free@.drop_first());
            assert forall|k: int| 0 <= k < self.free@.len() implies #[trigger] threaded(
                self.slots@,
                self.free@,
                k,
            ) by {
                assert(threaded(old_slots, old_free, k + 1));
            }
            ix
        };
        assert forall|k: int| 0 <= k < self.chain@.len() implies self.chain@[k] != ix by {
            assert(linked(old_slots, self.chain@, k));
        }
        self.issued = Ghost(self.issued@.insert(Token { ix, generation }));
        proof {
            let c = self.chain@;
            assert forall|k: int| 0 <= k < c.len() implies #[trigger] linked(self.slots@, c, k) by {
                assert(linked(old_slots, c, k));
            }
            assert forall|k: int| 0 <= k < c.len() implies self.issued@.contains(
                #[trigger] self.handle_at(k),
            ) by {
                assert(linked(old_slots, c, k));
                assert(old(self).issued@.contains(old(self).handle_at(k)));
                assert(self.handle_at(k) == old(self).handle_at(k));
            }
            assert forall|i: int| 0 <= i < self.slots@.len() && (#[trigger] self.slots@[i]).is_used()
                implies c.contains(i as usize) || i == ix by {
                if i != ix {
                    assert(old_slots[i].is_used());
                }
            }
            assert(self@ =~= old(self)@) by {
                assert forall|k: int| 0 <= k < c.len() implies self@[k] == old(self)@[k] by {
                    assert(linked(old_slots, c, k));
                }
            }
            assert(self.handles() =~= old(self).handles()) by {
                assert forall|k: int| 0 <= k < c.len() implies self.handles()[k] == old(self).handles()[k] by {
                    assert(linked(old_slots, c, k));
                }
            }
        }
        (ix, generation)
    }

    /// Puts used slot `ix` on the free list and hands back what it held,
    /// its links included; re-linking its neighbours is the caller's work.
    /// Freeing a slot already taken out of the chain makes the deque whole.
    pub(crate) fn free(&mut self, ix: usize) -> (r: Slot<T>)
        requires
            old(self).wf() || old(self).detached(ix),
            ix < old(self).slots@.len(),
            old(self).slots@[ix as int].is_used(),
        ensures
            r == old(self).slots@[ix as int],
            final(self).slots@ == old(self).slots@.update(
                ix as int,
                Slot::Free(Free { next: old(self).free_list }),
            ),
            final(self).free_list == ix,
            final(self).free@ == seq![ix] + old(self).free@,
            final(self).free_ok(),
            final(self).len_used == old(self).len_used - 1,
            final(self).len_free == old(self).len_free + 1,
            final(self).chain == old(self).chain,
            final(self).front == old(self).front,
            final(self).back == old(self).back,
            final(self).next_generation == old(self).next_generation,
            final(self).issued == old(self).issued,
            old(self).detached(ix) ==> final(self).wf() && final(self)@ == old(self)@
                && final(self).handles() == old(self).handles(),
    {
        let ghost old_slots = self.slots@;
        let ghost old_free = self.free@;
        let ghost c = self.chain@;
        assert(self.slots@.len() == self.slots.len());
        assert forall|k: int| 0 <= k < old_free.len() implies old_free[k] != ix by {
            assert(threaded(old_slots, old_free, k));
        }
        self.len_used = self.len_used - 1;
        let mut v = Slot::new_free(self.free_list);
        std::mem::swap(&mut v, &mut self.slots[ix]);
        self.free_list = ix;
        self.len_free = self.len_free + 1;
        self.free = Ghost(seq![ix] + old_free);
        proof {
            assert forall|k: int| 0 <= k < self.free@.len() implies #[trigger] threaded(
                self.slots@,
                self.free@,
                k,
            ) by {
                if k > 0 {
                    assert(threaded(old_slots, old_free, k - 1));
                }
            }
        }
        proof {
            if old(self).detached(ix) {
                self.lemma_freed_detached(old(self), ix);
            }
        }
        v
    }

    /// Freeing detached slot `ix` leaves the deque whole, its elements and
    /// handles as they were.
    proof fn lemma_freed_detached(&self, s0: &Self, ix: usize)
        requires
            s0.detached(ix),
            self.slots@ == s0.slots@.update(ix as int, Slot::Free(Free { next: s0.free_list })),
            self.free@ == seq![ix] + s0.free@,
            self.free_ok(),
            self.len_used == s0.len_used - 1,
            self.chain == s0.chain,
            self.front == s0.front,
            self.back == s0.back,
            self.next_generation == s0.next_generation,
            self.issued == s0.issued,
        ensures
            self.wf(),
            self@ == s0@,
            self.handles() == s0.handles(),
    {
        let old_slots = s0.slots@;
        let c = self.chain@;
        assert(self.slots@.len() == self.slots.len());
        {
            assert forall|k: int| 0 <= k < c.len() implies #[trigger] linked(self.slots@, c, k) by {
                assert(linked(old_slots, c, k));
            }
            assert forall|k: int| 0 <= k < c.len() implies self.issued@.contains(
                #[trigger] self.handle_at(k),
            ) by {
                assert(linked(old_slots, c, k));
                assert(s0.issued@.contains(s0.handle_at(k)));
                assert(self.handle_at(k) == s0.handle_at(k));
            }
            assert forall|i: int| 0 <= i < self.slots@.len() && (#[trigger] self.slots@[i]).is_used()
                implies c.contains(i as usize) by {
                assert(old_slots[i].is_used());
            }
            assert(self@ =~= s0@) by {
                assert forall|k: int| 0 <= k < c.len() implies self@[k] == s0@[k] by {
                    assert(linked(old_slots, c, k));
                }
            }
            assert(self.handles() =~= s0.handles()) by {
                assert forall|k: int| 0 <= k < c.len() implies self.handles()[k] == s0.handles()[k] by {
                    assert(linked(old_slots, c, k));
                }
            }
        }
    }

    /// All fields but the arena are those of `o`.
    pub(crate) closed spec fn same_but_slots(&self, o: &Self) -> bool {
        &&& self.free_list == o.free_list
        &&& self.front == o.front
        &&& self.back == o.back
        &&& self.next_generation == o.next_generation
        &&& self.len_used == o.len_used
        &&& self.len_free == o.len_free
        &&& self.chain == o.chain
        &&& self.free == o.free
        &&& self.issued == o.issued
    }

    /// Points the front link of used slot `ix` at `front`.
    pub(crate) fn set_front(&mut self, ix: usize, front: usize)
        requires
            ix < old(self).slots@.len(),
            old(self).slots@[ix as int].is_used(),
        ensures
            final(self).slots@ == old(self).slots@.update(
                ix as int,
                Slot::Used(Used { front, ..old(self).slots@[ix as int].used() }),
            ),
            final(self).same_but_slots(old(self)),
            old(self).free_ok() ==> final(self).free_ok(),
    {
        let ghost old_slots = self.slots@;
        match &mut self.slots[ix] {
            Slot::Used(u) => {
                u.front = front;
            },
            Slot::Free(_) => {},
        }
        proof {
            if old(self).free_ok() {
                assert forall|k: int| 0 <= k < self.free@.len() implies #[trigger] threaded(
                    self.slots@,
                    self.free@,
                    k,
                ) by {
                    assert(threaded(old_slots, self.free@, k));
                }
            }
        }
    }

    /// Points the back link of used slot `ix` at `back`.
    pub(crate) fn set_back(&mut self, ix: usize, back: usize)
        requires
            ix < old(self).slots@.len(),
            old(self).slots@[ix as int].is_used(),
        ensures
            final(self).slots@ == old(self).slots@.update(
                ix as int,
                Slot::Used(Used { back, ..old(self).slots@[ix as int].used() }),
            ),
            final(self).same_but_slots(old(self)),
            old(self).free_ok() ==> final(self).free_ok(),
    {
        let ghost old_slots = self.slots@;
        match &mut self.slots[ix] {
            Slot::Used(u) => {
                u.back = back;
            },
            Slot::Free(_) => {},
        }
        proof {
            if old(self).free_ok() {
                assert forall|k: int| 0 <= k < self.free@.len() implies #[trigger] threaded(
                    self.slots@,
                    self.free@,
                    k,
                ) by {
                    assert(threaded(old_slots, self.free@, k));
                }
            }
        }
    }

    /// Inserts `data` at the front and returns its handle.
    pub fn push_front(&mut self, data: T) -> (t: Token)
        requires
            old(self).wf(),
            old(self).generation_count() < usize::MAX,
            old(self)@.len() + old(self).free_len() < usize::MAX,
        ensures
            final(self).wf(),
            final(self)@ == seq![data] + old(self)@,
            final(self).handles() == seq![t] + old(self).handles(),
            !old(self).issued().contains(t),
            final(self).issued() == old(self).issued().insert(t),
            final(self).free_len() == (if old(self).free_len() == 0 {
                0
            } else {
                old(self).free_len() - 1
            }),
            final(self).generation_count() == old(self).generation_count() + 1,
            final(self).descends_from(old(self)),
            final(self).keeps_values(old(self)),
    {
        let ghost s0 = *self;
        let front = self.front;
        let (new_ix, new_generation) = self.allocate(NONE, front, data);
        self.link_at(new_ix, Ghost(0), NONE, front);
        let t = Token { ix: new_ix, generation: new_generation };
        proof {
            assert(seq![data] + s0@ =~= s0@.insert(0, data));
            assert(seq![t] + s0.handles() =~= s0.handles().insert(0, t));
            s0.lemma_ends();
            self.lemma_keeps_values(&s0, |k: int| k - 1);
        }
        t
    }

    /// Inserts `data` at the back and returns its handle.
    pub fn push_back(&mut self, data: T) -> (t: Token)
        requires
            old(self).wf(),
            old(self).generation_count() < usize::MAX,
            old(self)@.len() + old(self).free_len() < usize::MAX,
        ensures
            final(self).wf(),
            final(self)@ == old(self)@.push(data),
            final(self).handles() == old(self).handles().push(t),
            !old(self).issued().contains(t),
            final(self).issued() == old(self).issued().insert(t),
            final(self).free_len() == (if old(self).free_len() == 0 {
                0
            } else {
                old(self).free_len() - 1
            }),
            final(self).generation_count() == old(self).generation_count() + 1,
            final(self).descends_from(old(self)),
            final(self).keeps_values(old(self)),
    {
        let ghost s0 = *self;
        let back = self.back;
        let (new_ix, new_generation) = self.allocate(back, NONE, data);
        self.link_at(new_ix, Ghost(s0.chain@.len() as int), back, NONE);
        let t = Token { ix: new_ix, generation: new_generation };
        proof {
            assert(s0@.push(data) =~= s0@.insert(s0@.len() as int, data));
            assert(s0.handles().push(t) =~= s0.handles().insert(s0@.len() as int, t));
            s0.lemma_ends();
            self.lemma_keeps_values(&s0, |k: int| k);
        }
        t
    }

    /// Unlinks the element at chain position `p`, in slot `ix`, puts its
    /// slot on the free list and returns the element.
    pub(crate) fn remove_unchecked(&mut self, ix: usize, Ghost(p): Ghost<int>) -> (r: T)
        requires
            old(self).wf(),
            0 <= p < old(self).chain@.len(),
            old(self).chain@[p] == ix,
        ensures
            final(self).wf(),
            r == old(self)@[p],
            final(self).chain@ == old(self).chain@.remove(p),
            final(self).free@ == seq![ix] + old(self).free@,
            final(self)@ == old(self)@.remove(p),
            final(self).handles() == old(self).handles().remove(p),
            final(self).issued() == old(self).issued(),
            final(self).free_len() == old(self).free_len() + 1,
            final(self).generation_count() == old(self).generation_count(),
            final(self).keeps_values(old(self)),
    {
        let ghost s0 = *self;
        proof {
            assert(linked(s0.slots@, s0.chain@, p));
        }
        self.unlink(ix, Ghost(p));
        let s = self.free(ix);
        let (_, data, _) = match s.into_used() {
            Some(u) => u.take(),
            None => vstd::pervasive::unreached(),
        };
        proof {
            self.lemma_keeps_values(&s0, |k: int| if k < p { k } else { k + 1 });
        }
        data
    }

    /// Removes the front element and returns it; `None`, with nothing
    /// changed, when the deque is empty.
    pub fn pop_front(&mut self) -> (r: Option<T>)
        requires
            old(self).wf(),
        ensures
            final(self).wf(),
            old(self)@.len() == 0 ==> r is None && *final(self) == *old(self),
            old(self)@.len() > 0 ==> r == Some(old(self)@[0]) && final(self)@ == old(self)@.drop_first()
                && final(self).handles() == old(self).handles().drop_first() && final(self).free_len()
                == old(self).free_len() + 1,
            final(self).issued() == old(self).issued(),
            final(self).generation_count() == old(self).generation_count(),
            final(self).descends_from(old(self)),
            final(self).keeps_values(old(self)),
    {
        proof {
            self.lemma_ends();
        }
        if NONE != self.front {
            let r = self.remove_unchecked(self.front, Ghost(0));
            assert(old(self)@.remove(0) =~= old(self)@.drop_first());
            assert(old(self).handles().remove(0) =~= old(self).handles().drop_first());
            Some(r)
        } else {
            None
        }
    }

    /// Removes the back element and returns it; `None`, with nothing
    /// changed, when the deque is empty.
    pub fn pop_back(&mut self) -> (r: Option<T>)
        requires
            old(self).wf(),
        ensures
            final(self).wf(),
            old(self)@.len() == 0 ==> r is None && *final(self) == *old(self),
            old(self)@.len() > 0 ==> r == Some(old(self)@.last()) && final(self)@ == old(self)@.drop_last()
                && final(self).handles() == old(self).handles().drop_last() && final(self).free_len()
                == old(self).free_len() + 1,
            final(self).issued() == old(self).issued(),
            final(self).generation_count() == old(self).generation_count(),
            final(self).descends_from(old(self)),
            final(self).keeps_values(old(self)),
    {
        proof {
            self.lemma_ends();
        }
        if NONE != self.back {
            let ghost n = self.chain@.len();
            let r = self.remove_unchecked(self.back, Ghost(n - 1));
            assert(old(self)@.remove(n - 1) =~= old(self)@.drop_last());
            assert(old(self).handles().remove(n - 1) =~= old(self).handles().drop_last());
            Some(r)
        } else {
            None
        }
    }

    /// The chain's ends are `NONE` exactly when it is empty, and every
    /// slot of the chain is a real index.
    pub(crate) proof fn lemma_ends(&self)
        requires
            self.wf(),
        ensures
            (self.front == NONE) == (self.chain@.len() == 0),
            (self.back == NONE) == (self.chain@.len() == 0),
            forall|k: int| 0 <= k < self.chain@.len() ==> #[trigger] self.chain@[k] != NONE,
            forall|k: int| 0 <= k < self.chain@.len() ==> linked(self.slots@, self.chain@, k),
            self.chain@.no_duplicates(),
            self.chain@.len() == self@.len(),
            self.chain@.len() == self.handles().len(),
            self.front == (if self.chain@.len() == 0 { NONE } else { self.chain@[0] }),
            self.back == (if self.chain@.len() == 0 { NONE } else { self.chain@.last() }),
            forall|ix: int| 0 <= ix < self.slots@.len() && (#[trigger] self.slots@[ix]).is_used()
                ==> self.chain@.contains(ix as usize),
            forall|k: int|
                0 <= k < self.chain@.len() ==> (#[trigger] self@[k]) == self.slots@[self.chain@[k] as int].used().data,
            forall|k: int|
                0 <= k < self.chain@.len() ==> (#[trigger] self.handles()[k]) == (Token {
                    ix: self.chain@[k],
                    generation: self.slots@[self.chain@[k] as int].used().generation,
                }),
            self.handles().no_duplicates(),
            forall|k: int| 0 <= k < self.chain@.len() ==> self.issued().contains(#[trigger] self.handles()[k]),
    {
        assert(self.slots@.len() == self.slots.len());
        assert forall|k: int| 0 <= k < self.chain@.len() implies self.issued().contains(
            #[trigger] self.handles()[k],
        ) by {
            assert(self.handles()[k] == self.handle_at(k));
        }
        assert forall|i: int, j: int|
            0 <= i < self.handles().len() && 0 <= j < self.handles().len() && i != j implies self.handles()[i]
            != self.handles()[j] by {
            assert(self.handles()[i].ix == self.chain@[i]);
            assert(self.handles()[j].ix == self.chain@[j]);
        }
        assert forall|k: int| 0 <= k < self.chain@.len() implies #[trigger] self.chain@[k] != NONE by {
            assert(linked(self.slots@, self.chain@, k));
        }
        if self.chain@.len() > 0 {
            assert(self.chain@[self.chain@.len() - 1] != NONE);
        }
    }

    /// A handle addresses an element exactly when its slot is used and
    /// carries its generation; it then stands at one position only.
    pub(crate) proof fn lemma_handle(&self, t: Token)
        requires
            self.wf(),
        ensures
            self.contains_handle(t) == (t.ix < self.slots@.len() && self.slots@[t.ix as int].is_used()
                && self.slots@[t.ix as int].used().generation == t.generation),
            self.contains_handle(t) ==> 0 <= self.position(t) < self.chain@.len() && self.chain@[self.position(t)]
                == t.ix && self.handles()[self.position(t)] == t,
            forall|k: int|
                0 <= k < self.chain@.len() && #[trigger] self.handles()[k] == t ==> self.position(t) == k,
    {
        let h = self.handles();
        assert forall|k: int| 0 <= k < self.chain@.len() && #[trigger] h[k] == t implies self.position(
            t,
        ) == k by {
            let j = self.position(t);
            assert(h[j] == t);
            assert(self.chain@[j] == self.chain@[k]);
        }
        if t.ix < self.slots@.len() && self.slots@[t.ix as int].is_used()
            && self.slots@[t.ix as int].used().generation == t.generation {
            assert(self.chain@.contains(t.ix));
            let k = choose|k: int| 0 <= k < self.chain@.len() && self.chain@[k] == t.ix;
            assert(h[k] == t);
        }
        if self.contains_handle(t) {
            let k = choose|k: int| 0 <= k < h.len() && h[k] == t;
            assert(linked(self.slots@, self.chain@, k));
        }
    }

    /// The element that `token` addresses; `None` once it has been
    /// removed, even if its slot holds another element by now.
    pub fn get(&self, token: &Token) -> (r: Option<&T>)
        requires
            self.wf(),
        ensures
            r is Some == self.contains_handle(*token),
            r is Some ==> *r.unwrap() == self@[self.position(*token)],
            r is Some ==> self.lookup(*token) == Some(*r.unwrap()),
    {
        proof {
            self.lemma_handle(*token);
        }
        let ix = token.ix;
        if ix < self.slots.len() {
            match self.slots[ix].get_used() {
                Some(u) => match u.as_generation(token.generation) {
                    Some(u) => Some(&u.data),
                    None => None,
                },
                None => None,
            }
        } else {
            None
        }
    }

    /// A mutable reference to the element that `token` addresses; `None`
    /// once it has been removed.
    pub fn get_mut(&mut self, token: &Token) -> (r: Option<&mut T>)
        requires
            old(self).wf(),
        ensures
            r is Some == old(self).contains_handle(*token),
            r is None ==> *final(self) == *old(self),
            r is Some ==> *r.unwrap() == old(self)@[old(self).position(*token)] && final(self)@
                == old(self)@.update(old(self).position(*token), *final(r.unwrap())),
            final(self).wf(),
            final(self).handles() == old(self).handles(),
            final(self).issued() == old(self).issued(),
            final(self).free_len() == old(self).free_len(),
            final(self).generation_count() == old(self).generation_count(),
    {
        proof {
            self.lemma_handle(*token);
        }
        let ix = token.ix;
        if self.is_live(token) {
            let ghost s0 = *self;
            let ghost p = s0.position(*token);
            match &mut self.slots[ix] {
                Slot::Used(u) => {
                    let r = &mut u.data;
                    proof {
                        s0.lemma_data_changed(after_borrow(*self), p, *final(r));
                    }
                    Some(r)
                },
                Slot::Free(_) => vstd::pervasive::unreached(),
            }
        } else {
            None
        }
    }

    /// Whether `token` addresses an element: its slot is used and carries
    /// its generation.
    pub(crate) fn is_live(&self, token: &Token) -> (r: bool)
        requires
            self.wf(),
        ensures
            r == self.contains_handle(*token),
    {
        proof {
            self.lemma_handle(*token);
        }
        let ix = token.ix;
        if ix < self.slots.len() {
            match self.slots[ix].get_used() {
                Some(u) => u.as_generation(token.generation).is_some(),
                None => false,
            }
        } else {
            false
        }
    }

    /// Replacing the element at position `p` by `v` in place keeps the
    /// invariant and changes only that element.
    pub(crate) proof fn lemma_data_changed(self, s1: Self, p: int, v: T)
        requires
            self.wf(),
            0 <= p < self.chain@.len(),
            s1.same_but_slots(&self),
            s1.slots@ == self.slots@.update(
                self.chain@[p] as int,
                Slot::Used(Used { data: v, ..self.slots@[self.chain@[p] as int].used() }),
            ),
        ensures
            s1.wf(),
            s1@ == self@.update(p, v),
            s1.handles() == self.handles(),
    {
        let c = self.chain@;
        assert(linked(self.slots@, c, p));
        assert forall|k: int| 0 <= k < c.len() implies #[trigger] linked(s1.slots@, c, k) by {
            assert(linked(self.slots@, c, k));
        }
        assert forall|k: int| 0 <= k < self.free@.len() implies #[trigger] threaded(s1.slots@, self.free@, k) by {
            assert(threaded(self.slots@, self.free@, k));
            assert(self.free@[k] != c[p]);
        }
        assert forall|k: int| 0 <= k < c.len() implies s1.issued@.contains(#[trigger] s1.handle_at(k)) by {
            assert(linked(self.slots@, c, k));
            assert(self.issued@.contains(self.handle_at(k)));
            assert(s1.handle_at(k) == self.handle_at(k));
        }
        assert forall|ix: int| 0 <= ix < s1.slots@.len() && (#[trigger] s1.slots@[ix]).is_used()
            implies s1.chain@.contains(ix as usize) by {
            if ix != c[p] {
                assert(self.slots@[ix].is_used());
            } else {
                assert(c[p] == ix);
            }
        }
        assert(s1@ =~= self@.update(p, v)) by {
            assert forall|k: int| 0 <= k < c.len() implies s1@[k] == self@.update(p, v)[k] by {
                assert(linked(self.slots@, c, k));
            }
        }
        assert(s1.handles() =~= self.handles()) by {
            assert forall|k: int| 0 <= k < c.len() implies s1.handles()[k] == self.handles()[k] by {
                assert(linked(self.slots@, c, k));
            }
        }
    }

    /// Removes the element that `token` addresses and returns it; `None`,
    /// with nothing changed, once it has been removed.
    pub fn remove(&mut self, token: &Token) -> (r: Option<T>)
        requires
            old(self).wf(),
        ensures
            final(self).wf(),
            r is Some == old(self).contains_handle(*token),
            r is None ==> *final(self) == *old(self),
            r is Some ==> r == old(self).lookup(*token) && final(self)@ == old(self)@.remove(
                old(self).position(*token),
            ) && final(self).handles() == old(self).handles().remove(old(self).position(*token))
                && final(self).free_len() == old(self).free_len() + 1,
            final(self).issued() == old(self).issued(),
            final(self).generation_count() == old(self).generation_count(),
            final(self).descends_from(old(self)),
            final(self).keeps_values(old(self)),
    {
        proof {
            self.lemma_handle(*token);
        }
        let ix = token.ix;
        if self.is_live(token) {
            let ghost p = self.position(*token);
            Some(self.remove_unchecked(ix, Ghost(p)))
        } else {
            None
        }
    }

    /// The number of elements.
    pub fn len(&self) -> (r: usize)
        requires
            self.wf(),
        ensures
            r == self@.len(),
    {
        self.len_used
    }

    /// Whether the deque holds no element.
    pub fn is_empty(&self) -> (r: bool)
        requires
            self.wf(),
        ensures
            r == (self@.len() == 0),
    {
        0 == self.len_used
    }

    /// The number of slots on the free list.
    pub fn len_freelist(&self) -> (r: usize)
        requires
            self.wf(),
        ensures
            r == self.free_len(),
    {
        self.len_free
    }

    /// How many elements the arena can hold before it has to grow. This
    /// is at least `len() + len_freelist()`, and may be more.
    pub fn capacity(&self) -> (r: usize)
        requires
            self.wf(),
        ensures
            r >= self@.len() + self.free_len(),
    {
        vec_capacity(&self.slots)
    }

    /// Makes room in the arena for at least `additional` more slots. The
    /// free list is left as it is: only the capacity grows.
    pub fn reserve(&mut self, additional: usize)
        requires
            old(self).wf(),
        ensures
            final(self).wf(),
            final(self)@ == old(self)@,
            final(self).handles() == old(self).handles(),
            final(self).issued() == old(self).issued(),
            final(self).free_len() == old(self).free_len(),
            final(self).generation_count() == old(self).generation_count(),
            final(self).keeps_values(old(self)),
    {
        let ghost s0 = *self;
        self.slots.reserve(additional);
        proof {
            assert(self.slots@ == s0.slots@);
            assert(self@ =~= s0@);
            assert(self.handles() =~= s0.handles());
            assert forall|k: int| 0 <= k < self.chain@.len() implies self.issued@.contains(
                #[trigger] self.handle_at(k),
            ) by {
                assert(self.handle_at(k) == s0.handle_at(k));
            }
            self.lemma_keeps_values(&s0, |k: int| k);
        }
    }

    /// The invariant while slot `ix` is used but out of the chain: between
    /// an allocation or an unlinking and the splice that follows.
    pub(crate) closed spec fn detached(&self, ix: usize) -> bool {
        &&& self.free_ok()
        &&& self.chain@.len() + 1 == self.len_used
        &&& self.chain@.no_duplicates()
        &&& self.front == (if self.chain@.len() == 0 { NONE } else { self.chain@[0] })
        &&& self.back == (if self.chain@.len() == 0 { NONE } else { self.chain@.last() })
        &&& forall|k: int| 0 <= k < self.chain@.len() ==> #[trigger] linked(self.slots@, self.chain@, k)
        &&& ix < self.slots@.len()
        &&& self.slots@[ix as int].is_used()
        &&& !self.chain@.contains(ix)
        &&& forall|t: Token| #[trigger] self.issued@.contains(t) ==> t.generation < self.next_generation
        &&& forall|k: int| 0 <= k < self.chain@.len() ==> self.issued@.contains(#[trigger] self.handle_at(k))
        &&& self.issued@.contains(Token { ix, generation: self.slots@[ix as int].used().generation })
        &&& self.slots@.len() == self.chain@.len() + 1 + self.free@.len()
        &&& forall|i: int| 0 <= i < self.slots@.len() && (#[trigger] self.slots@[i]).is_used() ==> self.chain@.contains(i as usize) || i == ix
    }

    /// The two arenas hold the same elements under the same generations in
    /// the same slots; only links may differ.
    pub(crate) open spec fn same_payloads(a: Seq<Slot<T>>, b: Seq<Slot<T>>) -> bool {
        &&& a.len() == b.len()
        &&& forall|i: int| 0 <= i < a.len() ==> (#[trigger] a[i]).is_used() == b[i].is_used()
        &&& forall|i: int| 0 <= i < a.len() && a[i].is_used() ==> (#[trigger] a[i]).used().data == b[i].used().data
            && a[i].used().generation == b[i].used().generation
    }

    /// Takes the element at chain position `p`, in slot `ix`, out of the
    /// chain and joins its two neighbours; the slot keeps its element.
    #[verifier::rlimit(40)]
    pub(crate) fn unlink(&mut self, ix: usize, Ghost(p): Ghost<int>)
        requires
            old(self).wf(),
            0 <= p < old(self).chain@.len(),
            old(self).chain@[p] == ix,
        ensures
            final(self).detached(ix),
            final(self).chain@ == old(self).chain@.remove(p),
            Self::same_payloads(final(self).slots@, old(self).slots@),
            final(self)@ == old(self)@.remove(p),
            final(self).handles() == old(self).handles().remove(p),
            final(self).slots@[ix as int] == old(self).slots@[ix as int],
            final(self).free == old(self).free,
            final(self).issued == old(self).issued,
            final(self).next_generation == old(self).next_generation,
    {
        let ghost s0 = *self;
        let ghost c0 = s0.chain@;
        proof {
            assert(self.slots@.len() == self.slots.len());
            assert(linked(s0.slots@, c0, p));
            if p > 0 {
                assert(linked(s0.slots@, c0, p - 1));
            }
            if p + 1 < c0.len() {
                assert(linked(s0.slots@, c0, p + 1));
            }
            assert(linked(s0.slots@, c0, 0));
            assert(linked(s0.slots@, c0, c0.len() - 1));
        }
        let (front, back) = match &self.slots[ix] {
            Slot::Used(u) => (u.front, u.back),
            Slot::Free(_) => vstd::pervasive::unreached(),
        };
        if NONE == front {
            self.front = back;
        } else {
            self.set_back(front, back);
        }
        if NONE == back {
            self.back = front;
        } else {
            self.set_front(back, front);
        }
        self.chain = Ghost(c0.remove(p));
        proof {
            let c = self.chain@;
            assert forall|k: int| 0 <= k < c.len() implies #[trigger] linked(self.slots@, c, k) by {
                let k0 = if k < p { k } else { k + 1 };
                assert(c[k] == c0[k0]);
                assert(linked(s0.slots@, c0, k0));
                if k0 > 0 {
                    assert(c0[k0 - 1] != c0[k0]);
                }
                if k0 + 1 < c0.len() {
                    assert(c0[k0 + 1] != c0[k0]);
                }
            }
            assert forall|i: int, j: int| 0 <= i < c.len() && 0 <= j < c.len() && i != j implies c[i]
                != c[j] by {
                let i0 = if i < p { i } else { i + 1 };
                let j0 = if j < p { j } else { j + 1 };
                assert(c[i] == c0[i0] && c[j] == c0[j0]);
            }
            assert forall|k: int| 0 <= k < c.len() implies self.issued@.contains(
                #[trigger] self.handle_at(k),
            ) by {
                let k0 = if k < p { k } else { k + 1 };
                assert(c[k] == c0[k0]);
                assert(linked(s0.slots@, c0, k0));
                assert(s0.issued@.contains(s0.handle_at(k0)));
            }
            assert(s0.issued@.contains(s0.handle_at(p)));
            assert forall|i: int| 0 <= i < self.slots@.len() && (#[trigger] self.slots@[i]).is_used()
                implies c.contains(i as usize) || i == ix by {
                if i != ix {
                    assert(c0.contains(i as usize));
                    let k0 = choose|k0: int| 0 <= k0 < c0.len() && c0[k0] == i as usize;
                    let k = if k0 < p { k0 } else { k0 - 1 };
                    assert(c[k] == c0[k0]);
                }
            }
            assert(self@ =~= s0@.remove(p)) by {
                assert forall|k: int| 0 <= k < c.len() implies self@[k] == s0@.remove(p)[k] by {
                    let k0 = if k < p { k } else { k + 1 };
                    assert(c[k] == c0[k0]);
                    assert(linked(s0.slots@, c0, k0));
                }
            }
            assert(self.handles() =~= s0.handles().remove(p)) by {
                assert forall|k: int| 0 <= k < c.len() implies self.handles()[k] == s0.handles().remove(
                    p,
                )[k] by {
                    let k0 = if k < p { k } else { k + 1 };
                    assert(c[k] == c0[k0]);
                    assert(linked(s0.slots@, c0, k0));
                }
            }
        }
    }

    /// Splices detached slot `ix` into the chain at position `p`, between
    /// `front` and `back`, the slots at positions `p - 1` and `p`.
    #[verifier::rlimit(40)]
    pub(crate) fn link_at(&mut self, ix: usize, Ghost(p): Ghost<int>, front: usize, back: usize)
        requires
            old(self).detached(ix),
            0 <= p <= old(self).chain@.len(),
            front == prev_of(old(self).chain@.insert(p, ix), p),
            back == next_of(old(self).chain@.insert(p, ix), p),
        ensures
            final(self).wf(),
            final(self).chain@ == old(self).chain@.insert(p, ix),
            Self::same_payloads(final(self).slots@, old(self).slots@),
            final(self)@ == old(self)@.insert(p, old(self).slots@[ix as int].used().data),
            final(self).handles() == old(self).handles().insert(
                p,
                Token { ix, generation: old(self).slots@[ix as int].used().generation },
            ),
            final(self).free == old(self).free,
            final(self).issued == old(self).issued,
            final(self).next_generation == old(self).next_generation,
            final(self).issued() == old(self).issued(),
            final(self).free_len() == old(self).free_len(),
            final(self).generation_count() == old(self).generation_count(),
    {
        let ghost s0 = *self;
        let ghost c0 = s0.chain@;
        let ghost c = c0.insert(p, ix);
        proof {
            assert(self.slots@.len() == self.slots.len());
            if p > 0 {
                assert(linked(s0.slots@, c0, p - 1));
                assert(c[p - 1] == c0[p - 1]);
            }
            if p < c0.len() {
                assert(linked(s0.slots@, c0, p));
                assert(c[p + 1] == c0[p]);
            }
            if c0.len() > 0 {
                assert(linked(s0.slots@, c0, 0));
                assert(linked(s0.slots@, c0, c0.len() - 1));
            }
        }
        self.set_front(ix, front);
        self.set_back(ix, back);
        if NONE == front {
            self.front = ix;
        } else {
            self.set_back(front, ix);
        }
        if NONE == back {
            self.back = ix;
        } else {
            self.set_front(back, ix);
        }
        self.chain = Ghost(c);
        proof {
            assert forall|k: int| 0 <= k < c.len() implies #[trigger] linked(self.slots@, c, k) by {
                if k != p {
                    let k0 = if k < p { k } else { k - 1 };
                    assert(c[k] == c0[k0]);
                    assert(linked(s0.slots@, c0, k0));
                    if k0 > 0 {
                        assert(c0[k0 - 1] != c0[k0]);
                    }
                    if k0 + 1 < c0.len() {
                        assert(c0[k0 + 1] != c0[k0]);
                    }
                }
            }
            assert forall|i: int, j: int| 0 <= i < c.len() && 0 <= j < c.len() && i != j implies c[i]
                != c[j] by {
                if i != p && j != p {
                    let i0 = if i < p { i } else { i - 1 };
                    let j0 = if j < p { j } else { j - 1 };
                    assert(c[i] == c0[i0] && c[j] == c0[j0]);
                } else if i == p {
                    let j0 = if j < p { j } else { j - 1 };
                    assert(c[j] == c0[j0]);
                } else {
                    let i0 = if i < p { i } else { i - 1 };
                    assert(c[i] == c0[i0]);
                }
            }
            assert forall|k: int| 0 <= k < c.len() implies self.issued@.contains(
                #[trigger] self.handle_at(k),
            ) by {
                if k != p {
                    let k0 = if k < p { k } else { k - 1 };
                    assert(c[k] == c0[k0]);
                    assert(linked(s0.slots@, c0, k0));
                    assert(s0.issued@.contains(s0.handle_at(k0)));
                }
            }
            assert forall|i: int| 0 <= i < self.slots@.len() && (#[trigger] self.slots@[i]).is_used()
                implies c.contains(i as usize) by {
                if i == ix {
                    assert(c[p] == ix);
                } else {
                    assert(s0.slots@[i].is_used());
                    assert(c0.contains(i as usize));
                    let k0 = choose|k0: int| 0 <= k0 < c0.len() && c0[k0] == i as usize;
                    let k = if k0 < p { k0 } else { k0 + 1 };
                    assert(c[k] == c0[k0]);
                }
            }
            let v = s0.slots@[ix as int].used().data;
            assert(self@ =~= s0@.insert(p, v)) by {
                assert forall|k: int| 0 <= k < c.len() implies self@[k] == s0@.insert(p, v)[k] by {
                    if k != p {
                        let k0 = if k < p { k } else { k - 1 };
                        assert(c[k] == c0[k0]);
                        assert(linked(s0.slots@, c0, k0));
                    }
                }
            }
            let t = Token { ix, generation: s0.slots@[ix as int].used().generation };
            assert(self.handles() =~= s0.handles().insert(p, t)) by {
                assert forall|k: int| 0 <= k < c.len() implies self.handles()[k] == s0.handles().insert(
                    p,
                    t,
                )[k] by {
                    if k != p {
                        let k0 = if k < p { k } else { k - 1 };
                        assert(c[k] == c0[k0]);
                        assert(linked(s0.slots@, c0, k0));
                    }
                }
            }
        }
    }

    /// An arena with the payloads of `s0` seen through the chain of `self`.
    pub(crate) proof fn lemma_payload_view(&self, s0: Self)
        requires
            self.wf(),
            Self::same_payloads(self.slots@, s0.slots@),
        ensures
            forall|k: int|
                0 <= k < self.chain@.len() ==> (#[trigger] self@[k]) == s0.slots@[self.chain@[k] as int].used().data,
            forall|k: int|
                0 <= k < self.chain@.len() ==> (#[trigger] self.handles()[k]) == (Token {
                    ix: self.chain@[k],
                    generation: s0.slots@[self.chain@[k] as int].used().generation,
                }),
    {
        assert forall|k: int|
            #![trigger self@[k]]
            #![trigger self.handles()[k]]
            0 <= k < self.chain@.len() implies self@[k] == s0.slots@[self.chain@[k] as int].used().data && self.handles()[k] == (Token {
            ix: self.chain@[k],
            generation: s0.slots@[self.chain@[k] as int].used().generation,
        }) by {
            assert(linked(self.slots@, self.chain@, k));
            let i = self.chain@[k] as int;
            assert(self.slots@[i].is_used());
            assert(self.slots@[i].used().data == s0.slots@[i].used().data);
            assert(self.slots@[i].used().generation == s0.slots@[i].used().generation);
        }
    }

    /// Moves the element that `token` addresses to the front, keeping its
    /// handle; `None`, with nothing changed, once it has been removed.
    pub fn move_to_front(&mut self, token: &Token) -> (r: Option<()>)
        requires
            old(self).wf(),
        ensures
            final(self).wf(),
            r is Some == old(self).contains_handle(*token),
            r is None ==> *final(self) == *old(self),
            r is Some ==> final(self)@ == seq![old(self)@[old(self).position(*token)]] + old(self)@.remove(
                old(self).position(*token),
            ) && final(self).handles() == seq![*token] + old(self).handles().remove(
                old(self).position(*token),
            ),
            final(self).issued() == old(self).issued(),
            final(self).free_len() == old(self).free_len(),
            final(self).generation_count() == old(self).generation_count(),
            final(self).descends_from(old(self)),
            final(self).keeps_values(old(self)),
    {
        if !self.is_live(token) {
            return None;
        }
        let ghost s0 = *self;
        let ghost p = self.position(*token);
        proof {
            self.lemma_handle(*token);
            self.lemma_ends();
            assert(linked(s0.slots@, s0.chain@, p));
        }
        let ix = token.ix;
        if self.front == ix {
            assert(p == 0);
            assert(s0@ =~= seq![s0@[0]] + s0@.remove(0));
            assert(s0.handles() =~= seq![*token] + s0.handles().remove(0));
            return Some(());
        }
        self.unlink(ix, Ghost(p));
        let front = self.front;
        self.link_at(ix, Ghost(0), NONE, front);
        proof {
            assert(seq![s0@[p]] + s0@.remove(p) =~= s0@.remove(p).insert(0, s0@[p]));
            assert(seq![*token] + s0.handles().remove(p) =~= s0.handles().remove(p).insert(
                0,
                *token,
            ));
            self.lemma_keeps_values(
                &s0,
                |k: int|
                    if k == 0 {
                        p
                    } else if k - 1 < p {
                        k - 1
                    } else {
                        k
                    },
            );
        }
        Some(())
    }

    /// Moves the element that `token` addresses to the back, keeping its
    /// handle; `None`, with nothing changed, once it has been removed.
    pub fn move_to_back(&mut self, token: &Token) -> (r: Option<()>)
        requires
            old(self).wf(),
        ensures
            final(self).wf(),
            r is Some == old(self).contains_handle(*token),
            r is None ==> *final(self) == *old(self),
            r is Some ==> final(self)@ == old(self)@.remove(old(self).position(*token)).push(
                old(self)@[old(self).position(*token)],
            ) && final(self).handles() == old(self).handles().remove(
                old(self).position(*token),
            ).push(*token),
            final(self).issued() == old(self).issued(),
            final(self).free_len() == old(self).free_len(),
            final(self).generation_count() == old(self).generation_count(),
            final(self).descends_from(old(self)),
            final(self).keeps_values(old(self)),
    {
        if !self.is_live(token) {
            return None;
        }
        let ghost s0 = *self;
        let ghost p = self.position(*token);
        let ghost n = s0.chain@.len();
        proof {
            self.lemma_handle(*token);
            self.lemma_ends();
            assert(linked(s0.slots@, s0.chain@, p));
        }
        let ix = token.ix;
        if self.back == ix {
            assert(p == n - 1);
            assert(s0@ =~= s0@.remove(p).push(s0@[p]));
            assert(s0.handles() =~= s0.handles().remove(p).push(*token));
            return Some(());
        }
        self.unlink(ix, Ghost(p));
        let back = self.back;
        self.link_at(ix, Ghost(n - 1), back, NONE);
        proof {
            assert(s0@.remove(p).push(s0@[p]) =~= s0@.remove(p).insert(n - 1, s0@[p]));
            assert(s0.handles().remove(p).push(*token) =~= s0.handles().remove(p).insert(
                n - 1,
                *token,
            ));
            self.lemma_keeps_values(
                &s0,
                |k: int|
                    if k == n - 1 {
                        p
                    } else if k < p {
                        k
                    } else {
                        k + 1
                    },
            );
        }
        Some(())
    }

    /// Exchanges the positions `pa` and `pb` of slots `ai` and `bi`, which
    /// are not neighbours: `b` moves in front of `a`, then `a` moves to
    /// where `b` was, between `b_front` and `b_back`.
    #[verifier::rlimit(100)]
    fn swap_apart(
        &mut self,
        ai: usize,
        bi: usize,
        Ghost(pa): Ghost<int>,
        Ghost(pb): Ghost<int>,
        a_front: usize,
        b_front: usize,
        b_back: usize,
    )
        requires
            old(self).wf(),
            0 <= pa < old(self).chain@.len(),
            0 <= pb < old(self).chain@.len(),
            pa != pb,
            pa != pb + 1,
            pb != pa + 1,
            old(self).chain@[pa] == ai,
            old(self).chain@[pb] == bi,
            a_front == prev_of(old(self).chain@, pa),
            b_front == prev_of(old(self).chain@, pb),
            b_back == next_of(old(self).chain@, pb),
        ensures
            final(self).wf(),
            final(self).chain@ == old(self).chain@.update(pa, bi).update(pb, ai),
            Self::same_payloads(final(self).slots@, old(self).slots@),
            final(self).issued() == old(self).issued(),
            final(self).free_len() == old(self).free_len(),
            final(self).generation_count() == old(self).generation_count(),
    {
        let ghost c = self.chain@;
        let ghost pa1 = if pa < pb { pa } else { pa - 1 };
        self.unlink(bi, Ghost(pb));
        let ghost c1 = self.chain@;
        assert(c1[pa1] == ai);
        self.link_at(bi, Ghost(pa1), a_front, ai);
        let ghost c2 = self.chain@;
        assert(c2[pa1 + 1] == ai);
        self.unlink(ai, Ghost(pa1 + 1));
        let ghost c3 = self.chain@;
        assert(c3 =~= c.remove(pb).update(pa1, bi));
        self.link_at(ai, Ghost(pb), b_front, b_back);
        assert(self.chain@ =~= c.update(pa, bi).update(pb, ai));
    }

    /// Exchanges the positions of the elements that `a` and `b` address;
    /// each handle still addresses its own element. `None`, with nothing
    /// changed, if either has been removed.
    #[verifier::rlimit(40)]
    pub fn swap(&mut self, a: &Token, b: &Token) -> (r: Option<()>)
        requires
            old(self).wf(),
        ensures
            final(self).wf(),
            r is Some == (old(self).contains_handle(*a) && old(self).contains_handle(*b)),
            r is None ==> *final(self) == *old(self),
            r is Some ==> final(self)@ == old(self)@.update(
                old(self).position(*a),
                old(self)@[old(self).position(*b)],
            ).update(old(self).position(*b), old(self)@[old(self).position(*a)])
                && final(self).handles() == old(self).handles().update(old(self).position(*a), *b).update(
                old(self).position(*b),
                *a,
            ),
            final(self).issued() == old(self).issued(),
            final(self).free_len() == old(self).free_len(),
            final(self).generation_count() == old(self).generation_count(),
            final(self).descends_from(old(self)),
            final(self).keeps_values(old(self)),
    {
        if !self.is_live(a) || !self.is_live(b) {
            return None;
        }
        let ghost s0 = *self;
        let ghost c = s0.chain@;
        let ghost pa = self.position(*a);
        let ghost pb = self.position(*b);
        proof {
            self.lemma_handle(*a);
            self.lemma_handle(*b);
            self.lemma_ends();
            assert(linked(s0.slots@, c, pa));
            assert(linked(s0.slots@, c, pb));
        }
        let ai = a.ix;
        let bi = b.ix;
        if ai == bi {
            assert(pa == pb);
            assert(s0@.update(pa, s0@[pb]).update(pb, s0@[pa]) =~= s0@);
            assert(s0.handles().update(pa, *b).update(pb, *a) =~= s0.handles());
            return Some(());
        }
        let (a_front, a_back) = match &self.slots[ai] {
            Slot::Used(u) => (u.front, u.back),
            Slot::Free(_) => vstd::pervasive::unreached(),
        };
        let (b_front, b_back) = match &self.slots[bi] {
            Slot::Used(u) => (u.front, u.back),
            Slot::Free(_) => vstd::pervasive::unreached(),
        };
        if a_back == bi {
            // `b` stands right behind `a`: move it in front of `a`.
            assert(c[pa + 1] == c[pb]);
            self.unlink(bi, Ghost(pb));
            self.link_at(bi, Ghost(pa), a_front, ai);
            assert(self.chain@ =~= c.update(pa, bi).update(pb, ai));
        } else if b_back == ai {
            // `a` stands right behind `b`: move it in front of `b`.
            assert(c[pb + 1] == c[pa]);
            self.unlink(ai, Ghost(pa));
            self.link_at(ai, Ghost(pb), b_front, bi);
            assert(self.chain@ =~= c.update(pa, bi).update(pb, ai));
        } else {
            self.swap_apart(ai, bi, Ghost(pa), Ghost(pb), a_front, b_front, b_back);
        }
        proof {
            self.lemma_payload_view(s0);
            s0.lemma_payload_view(s0);
            assert(self@ =~= s0@.update(pa, s0@[pb]).update(pb, s0@[pa]));
            assert(self.handles() =~= s0.handles().update(pa, *b).update(pb, *a));
            self.lemma_keeps_values(
                &s0,
                |k: int|
                    if k == pa {
                        pb
                    } else if k == pb {
                        pa
                    } else {
                        k
                    },
            );
        }
        Some(())
    }

    /// Builds a deque holding `items` in order, as repeated `push_back`
    /// calls would.
    pub fn from_vec(items: Vec<T>) -> (r: Deque<T>)
        ensures
            r.wf(),
            r@ == items@,
            r.free_len() == 0,
            r.generation_count() == items@.len(),
    {
        let ghost input = items@;
        assert(input.len() == items.len());
        let mut d = Deque::new();
        for x in it: items
            invariant
                d.wf(),
                it.seq() == input,
                d@ == input.take(it.index()),
                d.free_len() == 0,
                d.generation_count() == it.index(),
                input.len() <= usize::MAX,
        {
            d.push_back(x);
            assert(d@ =~= input.take(it.index() + 1));
        }
        assert(d@ =~= input);
        d
    }

    /// The front element; `None` when the deque is empty.
    pub fn get_front(&self) -> (r: Option<&T>)
        requires
            self.wf(),
        ensures
            r is Some == (self@.len() > 0),
            r is Some ==> *r.unwrap() == self@[0],
    {
        proof {
            self.lemma_ends();
        }
        if NONE != self.front {
            proof {
                assert(linked(self.slots@, self.chain@, 0));
            }
            match self.slots[self.front].get_used() {
                Some(u) => Some(&u.data),
                None => vstd::pervasive::unreached(),
            }
        } else {
            None
        }
    }

    /// The back element; `None` when the deque is empty.
    pub fn get_back(&self) -> (r: Option<&T>)
        requires
            self.wf(),
        ensures
            r is Some == (self@.len() > 0),
            r is Some ==> *r.unwrap() == self@.last(),
    {
        proof {
            self.lemma_ends();
        }
        if NONE != self.back {
            proof {
                assert(linked(self.slots@, self.chain@, self.chain@.len() - 1));
            }
            match self.slots[self.back].get_used() {
                Some(u) => Some(&u.data),
                None => vstd::pervasive::unreached(),
            }
        } else {
            None
        }
    }

    /// A mutable reference to the element in slot `ix`, at chain position
    /// `p`.
    pub(crate) fn data_mut_at(&mut self, ix: usize, Ghost(p): Ghost<int>) -> (r: &mut T)
        requires
            old(self).wf(),
            0 <= p < old(self).chain@.len(),
            old(self).chain@[p] == ix,
        ensures
            *r == old(self)@[p],
            final(self)@ == old(self)@.update(p, *final(r)),
            final(self).wf(),
            final(self).chain == old(self).chain,
            final(self).handles() == old(self).handles(),
            final(self).issued() == old(self).issued(),
            final(self).free_len() == old(self).free_len(),
            final(self).generation_count() == old(self).generation_count(),
    {
        let ghost s0 = *self;
        proof {
            assert(linked(s0.slots@, s0.chain@, p));
        }
        match &mut self.slots[ix] {
            Slot::Used(u) => {
                let r = &mut u.data;
                proof {
                    s0.lemma_data_changed(after_borrow(*self), p, *final(r));
                }
                r
            },
            Slot::Free(_) => vstd::pervasive::unreached(),
        }
    }

    /// A mutable reference to the front element; `None` when the deque is
    /// empty.
    pub fn get_front_mut(&mut self) -> (r: Option<&mut T>)
        requires
            old(self).wf(),
        ensures
            r is Some == (old(self)@.len() > 0),
            r is None ==> *final(self) == *old(self),
            r is Some ==> *r.unwrap() == old(self)@[0] && final(self)@ == old(self)@.update(
                0,
                *final(r.unwrap()),
            ),
            final(self).wf(),
            final(self).handles() == old(self).handles(),
            final(self).issued() == old(self).issued(),
            final(self).free_len() == old(self).free_len(),
            final(self).generation_count() == old(self).generation_count(),
    {
        proof {
            self.lemma_ends();
        }
        if NONE != self.front {
            let front = self.front;
            Some(self.data_mut_at(front, Ghost(0)))
        } else {
            None
        }
    }

    /// A mutable reference to the back element; `None` when the deque is
    /// empty.
    pub fn get_back_mut(&mut self) -> (r: Option<&mut T>)
        requires
            old(self).wf(),
        ensures
            r is Some == (old(self)@.len() > 0),
            r is None ==> *final(self) == *old(self),
            r is Some ==> *r.unwrap() == old(self)@.last() && final(self)@ == old(self)@.update(
                old(self)@.len() - 1,
                *final(r.unwrap()),
            ),
            final(self).wf(),
            final(self).handles() == old(self).handles(),
            final(self).issued() == old(self).issued(),
            final(self).free_len() == old(self).free_len(),
            final(self).generation_count() == old(self).generation_count(),
    {
        proof {
            self.lemma_ends();
        }
        if NONE != self.back {
            let back = self.back;
            let ghost p = self.chain@.len() - 1;
            Some(self.data_mut_at(back, Ghost(p)))
        } else {
            None
        }
    }
}

} // verus!
