use vstd::prelude::*;

use crate::deque::{linked, Deque};
use crate::slot::NONE;

verus! {

impl<T> Deque<T> {
    /// An iterator over the elements from the front.
    pub fn iter_front(&self) -> (r: IterFront<'_, T>)
        requires
            self.wf(),
        ensures
            r.wf(),
            r.remaining() == self@,
    {
        IterFront::new(self, self.front)
    }

    /// An iterator over the elements from the back.
    pub fn iter_back(&self) -> (r: IterBack<'_, T>)
        requires
            self.wf(),
        ensures
            r.wf(),
            r.remaining() == self@.reverse(),
    {
        IterBack::new(self, self.back)
    }

    /// A draining iterator from the front: each step removes the front
    /// element and puts its slot on the free list.
    pub fn drain_front(&mut self) -> (r: DrainFront<'_, T>)
        requires
            old(self).wf(),
        ensures
            r.wf(),
            r.deque() == *old(self),
            r.remaining() == old(self)@,
            *final(self) == *final(r.target),
    {
        DrainFront::new(self)
    }

    /// A draining iterator from the back: each step removes the back
    /// element and puts its slot on the free list.
    pub fn drain_back(&mut self) -> (r: DrainBack<'_, T>)
        requires
            old(self).wf(),
        ensures
            r.wf(),
            r.deque() == *old(self),
            r.remaining() == old(self)@.reverse(),
            *final(self) == *final(r.target),
    {
        DrainBack::new(self)
    }
}

/// The items of a list, separated by a comma and a space.
pub open spec fn joined(parts: Seq<Seq<char>>) -> Seq<char>
    decreases parts.len(),
{
    if parts.len() == 0 {
        Seq::empty()
    } else if parts.len() == 1 {
        parts[0]
    } else {
        joined(parts.drop_last()) + seq![',', ' '] + parts.last()
    }
}

/// A list as `Debug` renders it: the items, joined, in brackets.
pub open spec fn list_text(parts: Seq<Seq<char>>) -> Seq<char> {
    seq!['['] + joined(parts) + seq![']']
}

/// `text` is a list of `n` items as `Debug` renders it, whatever each
/// item's own rendering is.
pub open spec fn is_list_text(text: Seq<char>, n: nat) -> bool {
    exists|parts: Seq<Seq<char>>| parts.len() == n && #[trigger] list_text(parts) == text
}

/// Relies on the `Debug` formatting of `Vec` (`{:?}`, through
/// `Formatter::debug_list`): one rendering per item, in order, joined by
/// ", " and put in brackets.
#[verifier::external_body]
fn debug_list<T: std::fmt::Debug>(items: &Vec<&T>) -> (r: String)
    ensures
        is_list_text(r@, items@.len()),
{
    format!("{:?}", items)
}

impl<T: std::fmt::Debug> Deque<T> {
    /// The elements, front to back, rendered as a `Debug` list such as
    /// `[1, 2, 3]`: one rendering per element, in order; free slots do not
    /// show.
    pub fn debug_string(&self) -> (r: String)
        requires
            self.wf(),
        ensures
            is_list_text(r@, self@.len()),
            self@.len() == 0 ==> r@ == seq!['[', ']'],
    {
        let items = self.iter_front().collect();
        let r = debug_list(&items);
        proof {
            let parts = choose|parts: Seq<Seq<char>>| parts.len() == items@.len() && #[trigger] list_text(parts) == r@;
            if self@.len() == 0 {
                assert(joined(parts) =~= Seq::<char>::empty());
                assert(r@ =~= seq!['[', ']']);
            }
        }
        r
    }
}

/// An iterator over a `Deque` from the front to the back.
pub struct IterFront<'l, T> {
    target: &'l Deque<T>,
    next_index: usize,
    pos: Ghost<int>,
}

impl<'l, T> IterFront<'l, T> {
    /// The elements still to come, in order.
    pub closed spec fn remaining(&self) -> Seq<T> {
        self.target@.subrange(self.pos@, self.target@.len() as int)
    }

    pub closed spec fn wf(&self) -> bool {
        &&& self.target.wf()
        &&& 0 <= self.pos@ <= self.target.chain@.len()
        &&& self.next_index == (if self.pos@ == self.target.chain@.len() {
            NONE
        } else {
            self.target.chain@[self.pos@]
        })
    }

    pub(crate) fn new(target: &'l Deque<T>, next_index: usize) -> (r: Self)
        requires
            target.wf(),
            next_index == target.front,
        ensures
            r.wf(),
            r.remaining() == target@,
    {
        proof {
            target.lemma_ends();
        }
        let r = IterFront { target, next_index, pos: Ghost(0) };
        assert(r.remaining() =~= target@);
        r
    }

    /// The next element; `None` once all have been seen.
    pub fn next(&mut self) -> (r: Option<&'l T>)
        requires
            old(self).wf(),
        ensures
            final(self).wf(),
            old(self).remaining().len() == 0 ==> r is None && final(self).remaining() == old(self).remaining(),
            old(self).remaining().len() > 0 ==> r is Some && *r.unwrap() == old(self).remaining()[0]
                && final(self).remaining() == old(self).remaining().drop_first(),
    {
        proof {
            self.target.lemma_ends();
        }
        if NONE != self.next_index {
            let ghost p = self.pos@;
            proof {
                assert(linked(self.target.slots@, self.target.chain@, p));
            }
            let target = self.target;
            let (data, back) = match target.slots[self.next_index].get_used() {
                Some(u) => (&u.data, u.back),
                None => vstd::pervasive::unreached(),
            };
            self.next_index = back;
            self.pos = Ghost(p + 1);
            assert(self.remaining() =~= old(self).remaining().drop_first());
            Some(data)
        } else {
            None
        }
    }

    /// All the remaining elements, in order.
    pub fn collect(self) -> (r: Vec<&'l T>)
        requires
            self.wf(),
        ensures
            r@.len() == self.remaining().len(),
            forall|i: int| 0 <= i < r@.len() ==> *r@[i] == self.remaining()[i],
    {
        let ghost all = self.remaining();
        let mut it = self;
        let mut out: Vec<&'l T> = Vec::new();
        loop
            invariant
                it.wf(),
                all == self.remaining(),
                out@.len() + it.remaining().len() == all.len(),
                it.remaining() == all.subrange(out@.len() as int, all.len() as int),
                forall|i: int| 0 <= i < out@.len() ==> *out@[i] == all[i],
            decreases it.remaining().len(),
        {
            let ghost before = it.remaining();
            match it.next() {
                Some(x) => {
                    assert(before[0] == all[out@.len() as int]);
                    out.push(x);
                    assert(it.remaining() =~= all.subrange(out@.len() as int, all.len() as int));
                },
                None => {
                    return out;
                },
            }
        }
    }
}

/// An iterator over a `Deque` from the back to the front.
pub struct IterBack<'l, T> {
    target: &'l Deque<T>,
    next_index: usize,
    pos: Ghost<int>,
}

impl<'l, T> IterBack<'l, T> {
    /// The elements still to come, in order.
    pub closed spec fn remaining(&self) -> Seq<T> {
        self.target@.subrange(0, self.pos@).reverse()
    }

    pub closed spec fn wf(&self) -> bool {
        &&& self.target.wf()
        &&& 0 <= self.pos@ <= self.target.chain@.len()
        &&& self.next_index == (if self.pos@ == 0 {
            NONE
        } else {
            self.target.chain@[self.pos@ - 1]
        })
    }

    pub(crate) fn new(target: &'l Deque<T>, next_index: usize) -> (r: Self)
        requires
            target.wf(),
            next_index == target.back,
        ensures
            r.wf(),
            r.remaining() == target@.reverse(),
    {
        proof {
            target.lemma_ends();
        }
        let r = IterBack { target, next_index, pos: Ghost(target.chain@.len() as int) };
        assert(r.remaining() =~= target@.reverse());
        r
    }

    /// The next element; `None` once all have been seen.
    pub fn next(&mut self) -> (r: Option<&'l T>)
        requires
            old(self).wf(),
        ensures
            final(self).wf(),
            old(self).remaining().len() == 0 ==> r is None && final(self).remaining() == old(self).remaining(),
            old(self).remaining().len() > 0 ==> r is Some && *r.unwrap() == old(self).remaining()[0]
                && final(self).remaining() == old(self).remaining().drop_first(),
    {
        proof {
            self.target.lemma_ends();
        }
        if NONE != self.next_index {
            let ghost p = self.pos@;
            proof {
                assert(linked(self.target.slots@, self.target.chain@, p - 1));
            }
            let target = self.target;
            let (data, front) = match target.slots[self.next_index].get_used() {
                Some(u) => (&u.data, u.front),
                None => vstd::pervasive::unreached(),
            };
            self.next_index = front;
            self.pos = Ghost(p - 1);
            assert(self.remaining() =~= old(self).remaining().drop_first());
            Some(data)
        } else {
            None
        }
    }

    /// All the remaining elements, in order.
    pub fn collect(self) -> (r: Vec<&'l T>)
        requires
            self.wf(),
        ensures
            r@.len() == self.remaining().len(),
            forall|i: int| 0 <= i < r@.len() ==> *r@[i] == self.remaining()[i],
    {
        let ghost all = self.remaining();
        let mut it = self;
        let mut out: Vec<&'l T> = Vec::new();
        loop
            invariant
                it.wf(),
                all == self.remaining(),
                out@.len() + it.remaining().len() == all.len(),
                it.remaining() == all.subrange(out@.len() as int, all.len() as int),
                forall|i: int| 0 <= i < out@.len() ==> *out@[i] == all[i],
            decreases it.remaining().len(),
        {
            let ghost before = it.remaining();
            match it.next() {
                Some(x) => {
                    assert(before[0] == all[out@.len() as int]);
                    out.push(x);
                    assert(it.remaining() =~= all.subrange(out@.len() as int, all.len() as int));
                },
                None => {
                    return out;
                },
            }
        }
    }
}

/// A draining iterator over a `Deque` from the front: each step removes
/// the front element, so the deque stays well formed throughout.
pub struct DrainFront<'l, T> {
    /// The deque being drained.
    pub target: &'l mut Deque<T>,
}

impl<'l, T> DrainFront<'l, T> {
    /// The deque as the iterator sees it now.
    pub open spec fn deque(&self) -> Deque<T> {
        *self.target
    }

    /// The elements still to come, in order.
    pub open spec fn remaining(&self) -> Seq<T> {
        self.deque()@
    }

    pub open spec fn wf(&self) -> bool {
        self.deque().wf()
    }

    pub(crate) fn new(target: &'l mut Deque<T>) -> (r: Self)
        requires
            old(target).wf(),
        ensures
            r.wf(),
            r.deque() == *old(target),
            *final(r.target) == *final(target),
    {
        DrainFront { target }
    }

    /// Removes the front element and returns it; `None` once the deque is
    /// empty.
    pub fn next(&mut self) -> (r: Option<T>)
        requires
            old(self).wf(),
        ensures
            final(self).wf(),
            old(self).remaining().len() == 0 ==> r is None && final(self).deque() == old(self).deque(),
            old(self).remaining().len() > 0 ==> r == Some(old(self).remaining()[0]) && final(self).remaining() == old(self).remaining().drop_first() && final(self).deque().free_len()
                == old(self).deque().free_len() + 1 && final(self).deque().handles() == old(self).deque().handles().drop_first(),
            final(self).deque().keeps_values(&old(self).deque()),
            final(self).deque().descends_from(&old(self).deque()),
            final(self).deque().issued() == old(self).deque().issued(),
            final(self).deque().generation_count() == old(self).deque().generation_count(),
            *final(final(self).target) == *final(old(self).target),
    {
        self.target.pop_front()
    }

    /// Removes all the remaining elements and returns them in order; the
    /// deque is left empty, with their slots on the free list.
    pub fn collect(self) -> (r: Vec<T>)
        requires
            self.wf(),
        ensures
            r@ == self.remaining(),
            (*final(self.target)).wf(),
            (*final(self.target))@.len() == 0,
            (*final(self.target)).free_len() == self.deque().free_len() + self.remaining().len(),
            (*final(self.target)).issued() == self.deque().issued(),
    {
        let ghost all = self.remaining();
        let mut it = self;
        let mut out: Vec<T> = Vec::new();
        loop
            invariant
                it.wf(),
                all == self.remaining(),
                out@ + it.remaining() == all,
                *final(it.target) == *final(self.target),
                it.deque().free_len() == self.deque().free_len() + out@.len(),
                it.deque().issued() == self.deque().issued(),
            decreases it.remaining().len(),
        {
            let ghost before = it.remaining();
            match it.next() {
                Some(x) => {
                    out.push(x);
                    assert(out@ + it.remaining() =~= all) by {
                        assert(before =~= seq![x] + it.remaining());
                    }
                },
                None => {
                    assert(out@ =~= all);
                    return out;
                },
            }
        }
    }
}

/// A draining iterator over a `Deque` from the back: each step removes the
/// back element, so the deque stays well formed throughout.
pub struct DrainBack<'l, T> {
    /// The deque being drained.
    pub target: &'l mut Deque<T>,
}

impl<'l, T> DrainBack<'l, T> {
    /// The deque as the iterator sees it now.
    pub open spec fn deque(&self) -> Deque<T> {
        *self.target
    }

    /// The elements still to come, in order.
    pub open spec fn remaining(&self) -> Seq<T> {
        self.deque()@.reverse()
    }

    pub open spec fn wf(&self) -> bool {
        self.deque().wf()
    }

    pub(crate) fn new(target: &'l mut Deque<T>) -> (r: Self)
        requires
            old(target).wf(),
        ensures
            r.wf(),
            r.deque() == *old(target),
            *final(r.target) == *final(target),
    {
        DrainBack { target }
    }

    /// Removes the back element and returns it; `None` once the deque is
    /// empty.
    pub fn next(&mut self) -> (r: Option<T>)
        requires
            old(self).wf(),
        ensures
            final(self).wf(),
            old(self).remaining().len() == 0 ==> r is None && final(self).deque() == old(self).deque(),
            old(self).remaining().len() > 0 ==> r == Some(old(self).remaining()[0]) && final(self).remaining() == old(self).remaining().drop_first() && final(self).deque().free_len()
                == old(self).deque().free_len() + 1 && final(self).deque().handles() == old(self).deque().handles().drop_last(),
            final(self).deque().keeps_values(&old(self).deque()),
            final(self).deque().descends_from(&old(self).deque()),
            final(self).deque().issued() == old(self).deque().issued(),
            final(self).deque().generation_count() == old(self).deque().generation_count(),
            *final(final(self).target) == *final(old(self).target),
    {
        let r = self.target.pop_back();
        proof {
            if old(self).deque()@.len() > 0 {
                assert(old(self).deque()@.drop_last().reverse() =~= old(self).remaining().drop_first());
            }
        }
        r
    }

    /// Removes all the remaining elements and returns them in order; the
    /// deque is left empty, with their slots on the free list.
    pub fn collect(self) -> (r: Vec<T>)
        requires
            self.wf(),
        ensures
            r@ == self.remaining(),
            (*final(self.target)).wf(),
            (*final(self.target))@.len() == 0,
            (*final(self.target)).free_len() == self.deque().free_len() + self.remaining().len(),
            (*final(self.target)).issued() == self.deque().issued(),
    {
        let ghost all = self.remaining();
        let mut it = self;
        let mut out: Vec<T> = Vec::new();
        loop
            invariant
                it.wf(),
                all == self.remaining(),
                out@ + it.remaining() == all,
                *final(it.target) == *final(self.target),
                it.deque().free_len() == self.deque().free_len() + out@.len(),
                it.deque().issued() == self.deque().issued(),
            decreases it.remaining().len(),
        {
            let ghost before = it.remaining();
            match it.next() {
                Some(x) => {
                    out.push(x);
                    assert(out@ + it.remaining() =~= all) by {
                        assert(before =~= seq![x] + it.remaining());
                    }
                },
                None => {
                    assert(out@ =~= all);
                    return out;
                },
            }
        }
    }
}

} // verus!
