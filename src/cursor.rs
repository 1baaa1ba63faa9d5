use vstd::prelude::*;

use crate::deque::{linked, Deque};
use crate::slot::NONE;
use crate::token::Token;

verus! {

impl<T> Deque<T> {
    /// The chain position of slot `ix`.
    pub(crate) closed spec fn slot_position(&self, ix: usize) -> int {
        choose|k: int| 0 <= k < self.chain@.len() && self.chain@[k] == ix
    }

    pub(crate) proof fn lemma_slot_position(&self, ix: usize, k: int)
        requires
            self.wf(),
            0 <= k < self.chain@.len(),
            self.chain@[k] == ix,
        ensures
            self.slot_position(ix) == k,
            linked(self.slots@, self.chain@, k),
    {
        self.lemma_ends();
        let j = self.slot_position(ix);
        assert(self.chain@[j] == ix);
    }

    /// A cursor on the element that `token` addresses; `None` once it has
    /// been removed.
    pub fn cursor(&self, token: &Token) -> (r: Option<Cursor<'_, T>>)
        requires
            self.wf(),
        ensures
            r is Some == self.contains_handle(*token),
            r is Some ==> r.unwrap().wf() && r.unwrap().deque() == *self && r.unwrap().index()
                == self.position(*token),
    {
        proof {
            self.lemma_handle(*token);
        }
        if self.is_live(token) {
            proof {
                self.lemma_slot_position(token.ix, self.position(*token));
            }
            Some(Cursor::new(self, token.ix))
        } else {
            None
        }
    }

    /// A cursor on the front element; `None` when the deque is empty.
    pub fn cursor_front(&self) -> (r: Option<Cursor<'_, T>>)
        requires
            self.wf(),
        ensures
            r is Some == (self@.len() > 0),
            r is Some ==> r.unwrap().wf() && r.unwrap().deque() == *self && r.unwrap().index() == 0,
    {
        proof {
            self.lemma_ends();
        }
        if NONE != self.front {
            proof {
                self.lemma_slot_position(self.front, 0);
            }
            Some(Cursor::new(self, self.front))
        } else {
            None
        }
    }

    /// A cursor on the back element; `None` when the deque is empty.
    pub fn cursor_back(&self) -> (r: Option<Cursor<'_, T>>)
        requires
            self.wf(),
        ensures
            r is Some == (self@.len() > 0),
            r is Some ==> r.unwrap().wf() && r.unwrap().deque() == *self && r.unwrap().index()
                == self@.len() - 1,
    {
        proof {
            self.lemma_ends();
        }
        if NONE != self.back {
            proof {
                self.lemma_slot_position(self.back, self.chain@.len() - 1);
            }
            Some(Cursor::new(self, self.back))
        } else {
            None
        }
    }
}

/// A read-only cursor over a `Deque`: a focus on one element that steps
/// to either neighbour. While it lives the deque cannot change.
pub struct Cursor<'l, T> {
    target: &'l Deque<T>,
    focus: usize,
}

impl<'l, T> Cursor<'l, T> {
    /// The deque the cursor reads.
    pub closed spec fn deque(&self) -> Deque<T> {
        *self.target
    }

    /// The position of the focus in the deque.
    pub closed spec fn index(&self) -> int {
        self.target.slot_position(self.focus)
    }

    /// The deque is well formed and the focus is one of its elements.
    pub open spec fn wf(&self) -> bool {
        &&& self.deque().wf()
        &&& self.focus_in_chain()
    }

    /// The focus is one of the deque's elements.
    pub closed spec fn focus_in_chain(&self) -> bool {
        self.target.chain@.contains(self.focus)
    }

    proof fn lemma_focus(&self)
        requires
            self.wf(),
        ensures
            0 <= self.index() < self.target.chain@.len(),
            self.target.chain@[self.index()] == self.focus,
            linked(self.target.slots@, self.target.chain@, self.index()),
    {
        let k = choose|k: int| 0 <= k < self.target.chain@.len() && self.target.chain@[k] == self.focus;
        self.target.lemma_slot_position(self.focus, k);
    }

    pub(crate) fn new(target: &'l Deque<T>, focus: usize) -> (r: Self)
        requires
            target.wf(),
            target.chain@.contains(focus),
        ensures
            r.wf(),
            r.deque() == *target,
            r.index() == target.slot_position(focus),
    {
        let r = Cursor { target, focus };
        proof {
            r.lemma_focus();
        }
        r
    }

    /// The focused element.
    pub fn get(&self) -> (r: &T)
        requires
            self.wf(),
        ensures
            0 <= self.index() < self.deque()@.len(),
            *r == self.deque()@[self.index()],
    {
        proof {
            self.lemma_focus();
            self.target.lemma_ends();
        }
        match self.target.slots[self.focus].get_used() {
            Some(u) => &u.data,
            None => vstd::pervasive::unreached(),
        }
    }

    /// The handle of the focused element.
    pub fn get_token(&self) -> (r: Token)
        requires
            self.wf(),
        ensures
            0 <= self.index() < self.deque()@.len(),
            r == self.deque().handles()[self.index()],
    {
        proof {
            self.lemma_focus();
            self.target.lemma_ends();
        }
        let generation = match self.target.slots[self.focus].get_used() {
            Some(u) => u.generation,
            None => vstd::pervasive::unreached(),
        };
        Token { ix: self.focus, generation }
    }

    /// Steps the focus one element towards the front and returns the new
    /// focus; `None`, with the focus unchanged, at the front.
    pub fn move_front(&mut self) -> (r: Option<&T>)
        requires
            old(self).wf(),
        ensures
            final(self).wf(),
            final(self).deque() == old(self).deque(),
            old(self).index() == 0 ==> r is None && final(self).index() == 0,
            old(self).index() > 0 ==> final(self).index() == old(self).index() - 1 && r is Some
                && *r.unwrap() == old(self).deque()@[old(self).index() - 1],
    {
        proof {
            self.lemma_focus();
            self.target.lemma_ends();
        }
        let ghost p = self.index();
        let front = match self.target.slots[self.focus].get_used() {
            Some(u) => u.front,
            None => vstd::pervasive::unreached(),
        };
        if NONE == front {
            None
        } else {
            proof {
                self.target.lemma_slot_position(front, p - 1);
            }
            self.focus = front;
            let target = self.target;
            match target.slots[front].get_used() {
                Some(u) => Some(&u.data),
                None => vstd::pervasive::unreached(),
            }
        }
    }

    /// Steps the focus one element towards the back and returns the new
    /// focus; `None`, with the focus unchanged, at the back.
    pub fn move_back(&mut self) -> (r: Option<&T>)
        requires
            old(self).wf(),
        ensures
            final(self).wf(),
            final(self).deque() == old(self).deque(),
            old(self).index() == old(self).deque()@.len() - 1 ==> r is None && final(self).index()
                == old(self).index(),
            old(self).index() < old(self).deque()@.len() - 1 ==> final(self).index() == old(self).index()
                + 1 && r is Some && *r.unwrap() == old(self).deque()@[old(self).index() + 1],
    {
        proof {
            self.lemma_focus();
            self.target.lemma_ends();
        }
        let ghost p = self.index();
        let back = match self.target.slots[self.focus].get_used() {
            Some(u) => u.back,
            None => vstd::pervasive::unreached(),
        };
        if NONE == back {
            None
        } else {
            proof {
                self.target.lemma_slot_position(back, p + 1);
            }
            self.focus = back;
            let target = self.target;
            match target.slots[back].get_used() {
                Some(u) => Some(&u.data),
                None => vstd::pervasive::unreached(),
            }
        }
    }
}

impl<T> Deque<T> {
    /// A mutable cursor on the element that `token` addresses; `None`
    /// once it has been removed.
    pub fn cursor_mut(&mut self, token: &Token) -> (r: Option<CursorMut<'_, T>>)
        requires
            old(self).wf(),
        ensures
            r is Some == old(self).contains_handle(*token),
            r is None ==> *final(self) == *old(self),
            r is Some ==> r.unwrap().wf() && r.unwrap().deque() == *old(self) && r.unwrap().index()
                == old(self).position(*token) && *final(self) == *final(r.unwrap().target),
    {
        proof {
            self.lemma_handle(*token);
        }
        if self.is_live(token) {
            proof {
                self.lemma_slot_position(token.ix, self.position(*token));
            }
            Some(CursorMut::new(self, token.ix))
        } else {
            None
        }
    }

    /// A mutable cursor on the front element; `None` when the deque is
    /// empty.
    pub fn cursor_front_mut(&mut self) -> (r: Option<CursorMut<'_, T>>)
        requires
            old(self).wf(),
        ensures
            r is Some == (old(self)@.len() > 0),
            r is None ==> *final(self) == *old(self),
            r is Some ==> r.unwrap().wf() && r.unwrap().deque() == *old(self) && r.unwrap().index() == 0
                && *final(self) == *final(r.unwrap().target),
    {
        proof {
            self.lemma_ends();
        }
        if NONE != self.front {
            proof {
                self.lemma_slot_position(self.front, 0);
            }
            let focus = self.front;
            Some(CursorMut::new(self, focus))
        } else {
            None
        }
    }

    /// A mutable cursor on the back element; `None` when the deque is
    /// empty.
    pub fn cursor_back_mut(&mut self) -> (r: Option<CursorMut<'_, T>>)
        requires
            old(self).wf(),
        ensures
            r is Some == (old(self)@.len() > 0),
            r is None ==> *final(self) == *old(self),
            r is Some ==> r.unwrap().wf() && r.unwrap().deque() == *old(self) && r.unwrap().index()
                == old(self)@.len() - 1 && *final(self) == *final(r.unwrap().target),
    {
        proof {
            self.lemma_ends();
        }
        if NONE != self.back {
            proof {
                self.lemma_slot_position(self.back, self.chain@.len() - 1);
            }
            let focus = self.back;
            Some(CursorMut::new(self, focus))
        } else {
            None
        }
    }
}

/// A cursor over a `Deque` that also changes it: it reads and writes the
/// focused element, and inserts and removes next to it. While it lives the
/// deque can change through it alone.
pub struct CursorMut<'l, T> {
    /// The deque being edited.
    pub target: &'l mut Deque<T>,
    /// The slot of the focused element.
    pub focus: usize,
}

impl<'l, T> CursorMut<'l, T> {
    /// The deque as the cursor sees it now.
    pub open spec fn deque(&self) -> Deque<T> {
        *self.target
    }

    /// The position of the focus in the deque.
    pub closed spec fn index(&self) -> int {
        self.target.slot_position(self.focus)
    }

    /// The deque is well formed and the focus is one of its elements.
    pub open spec fn wf(&self) -> bool {
        &&& self.deque().wf()
        &&& self.focus_in_chain()
    }

    /// The focus is one of the deque's elements.
    pub closed spec fn focus_in_chain(&self) -> bool {
        self.target.chain@.contains(self.focus)
    }

    proof fn lemma_focus(&self)
        requires
            self.wf(),
        ensures
            0 <= self.index() < self.deque().chain@.len(),
            self.deque().chain@[self.index()] == self.focus,
            linked(self.deque().slots@, self.deque().chain@, self.index()),
    {
        let k = choose|k: int| 0 <= k < self.target.chain@.len() && self.target.chain@[k] == self.focus;
        self.target.lemma_slot_position(self.focus, k);
    }

    pub(crate) fn new(target: &'l mut Deque<T>, focus: usize) -> (r: Self)
        requires
            old(target).wf(),
            old(target).chain@.contains(focus),
        ensures
            r.wf(),
            r.deque() == *old(target),
            r.index() == old(target).slot_position(focus),
            *final(r.target) == *final(target),
    {
        CursorMut { target, focus }
    }

    /// The handle of the focused element.
    pub fn get_token(&self) -> (r: Token)
        requires
            self.wf(),
        ensures
            0 <= self.index() < self.deque()@.len(),
            r == self.deque().handles()[self.index()],
    {
        proof {
            self.lemma_focus();
            self.target.lemma_ends();
        }
        let generation = match self.target.slots[self.focus].get_used() {
            Some(u) => u.generation,
            None => vstd::pervasive::unreached(),
        };
        Token { ix: self.focus, generation }
    }

    /// The slot links of the focused element.
    fn links(&self) -> (r: (usize, usize))
        requires
            self.wf(),
        ensures
            0 <= self.index() < self.deque().chain@.len(),
            self.deque().chain@[self.index()] == self.focus,
            linked(self.deque().slots@, self.deque().chain@, self.index()),
            r.0 == self.deque().slots@[self.focus as int].used().front,
            r.1 == self.deque().slots@[self.focus as int].used().back,
    {
        proof {
            self.lemma_focus();
        }
        match self.target.slots[self.focus].get_used() {
            Some(u) => (u.front, u.back),
            None => vstd::pervasive::unreached(),
        }
    }
    /// A mutable reference to the focused element.
    pub fn get(&mut self) -> (r: &mut T)
        requires
            old(self).wf(),
        ensures
            0 <= old(self).index() < old(self).deque()@.len(),
            *r == old(self).deque()@[old(self).index()],
            final(self).wf(),
            final(self).index() == old(self).index(),
            final(self).deque()@ == old(self).deque()@.update(old(self).index(), *final(r)),
            final(self).deque().handles() == old(self).deque().handles(),
            final(self).deque().issued() == old(self).deque().issued(),
            final(self).deque().free_len() == old(self).deque().free_len(),
            final(self).deque().generation_count() == old(self).deque().generation_count(),
            *final(final(self).target) == *final(old(self).target),
    {
        proof {
            self.lemma_focus();
            self.target.lemma_ends();
        }
        let ghost p = self.index();
        let focus = self.focus;
        let r = self.target.data_mut_at(focus, Ghost(p));
        proof {
            after_borrow(*self).target.lemma_slot_position(focus, p);
        }
        r
    }

    /// Steps the focus one element towards the front and returns a mutable
    /// reference to it; `None`, with nothing changed, at the front.
    pub fn move_front(&mut self) -> (r: Option<&mut T>)
        requires
            old(self).wf(),
        ensures
            final(self).wf(),
            final(self).deque().handles() == old(self).deque().handles(),
            final(self).deque().issued() == old(self).deque().issued(),
            final(self).deque().free_len() == old(self).deque().free_len(),
            final(self).deque().generation_count() == old(self).deque().generation_count(),
            old(self).index() == 0 ==> r is None && final(self).index() == 0 && final(self).deque()@
                == old(self).deque()@,
            old(self).index() > 0 ==> final(self).index() == old(self).index() - 1 && r is Some
                && *r.unwrap() == old(self).deque()@[old(self).index() - 1] && final(self).deque()@
                == old(self).deque()@.update(old(self).index() - 1, *final(r.unwrap())),
            *final(final(self).target) == *final(old(self).target),
    {
        let (front, _) = self.links();
        let ghost p = self.index();
        proof {
            self.target.lemma_ends();
        }
        if NONE == front {
            None
        } else {
            proof {
                self.target.lemma_slot_position(front, p - 1);
            }
            self.focus = front;
            let r = self.target.data_mut_at(front, Ghost(p - 1));
            proof {
                after_borrow(*self).target.lemma_slot_position(front, p - 1);
            }
            Some(r)
        }
    }

    /// Steps the focus one element towards the back and returns a mutable
    /// reference to it; `None`, with nothing changed, at the back.
    pub fn move_back(&mut self) -> (r: Option<&mut T>)
        requires
            old(self).wf(),
        ensures
            final(self).wf(),
            final(self).deque().handles() == old(self).deque().handles(),
            final(self).deque().issued() == old(self).deque().issued(),
            final(self).deque().free_len() == old(self).deque().free_len(),
            final(self).deque().generation_count() == old(self).deque().generation_count(),
            old(self).index() == old(self).deque()@.len() - 1 ==> r is None && final(self).index()
                == old(self).index() && final(self).deque()@ == old(self).deque()@,
            old(self).index() < old(self).deque()@.len() - 1 ==> final(self).index() == old(self).index()
                + 1 && r is Some && *r.unwrap() == old(self).deque()@[old(self).index() + 1] && final(self).deque()@ == old(self).deque()@.update(old(self).index() + 1, *final(r.unwrap())),
            *final(final(self).target) == *final(old(self).target),
    {
        let (_, back) = self.links();
        let ghost p = self.index();
        proof {
            self.target.lemma_ends();
        }
        if NONE == back {
            None
        } else {
            proof {
                self.target.lemma_slot_position(back, p + 1);
            }
            self.focus = back;
            let r = self.target.data_mut_at(back, Ghost(p + 1));
            proof {
                after_borrow(*self).target.lemma_slot_position(back, p + 1);
            }
            Some(r)
        }
    }

    /// Inserts `data` right in front of the focus and returns its handle.
    /// The focus stays on the same element.
    pub fn push_front(&mut self, data: T) -> (t: Token)
        requires
            old(self).wf(),
            old(self).deque().generation_count() < usize::MAX,
            old(self).deque()@.len() + old(self).deque().free_len() < usize::MAX,
        ensures
            final(self).wf(),
            final(self).index() == old(self).index() + 1,
            final(self).deque()@ == old(self).deque()@.insert(old(self).index(), data),
            final(self).deque().handles() == old(self).deque().handles().insert(old(self).index(), t),
            !old(self).deque().issued().contains(t),
            final(self).deque().issued() == old(self).deque().issued().insert(t),
            final(self).deque().free_len() == (if old(self).deque().free_len() == 0 {
                0
            } else {
                old(self).deque().free_len() - 1
            }),
            final(self).deque().generation_count() == old(self).deque().generation_count() + 1,
            *final(final(self).target) == *final(old(self).target),
            final(self).deque().keeps_values(&old(self).deque()),
    {
        let (front, _) = self.links();
        let ghost p = self.index();
        proof {
            self.target.lemma_ends();
        }
        let focus = self.focus;
        let ghost s0 = *self.target;
        let (new_ix, new_generation) = self.target.allocate(front, focus, data);
        self.target.link_at(new_ix, Ghost(p), front, focus);
        proof {
            self.target.lemma_slot_position(focus, p + 1);
            s0.lemma_ends();
            self.target.lemma_keeps_values(&s0, |k: int| if k < p { k } else { k - 1 });
        }
        Token { ix: new_ix, generation: new_generation }
    }

    /// Inserts `data` right behind the focus and returns its handle. The
    /// focus stays on the same element.
    pub fn push_back(&mut self, data: T) -> (t: Token)
        requires
            old(self).wf(),
            old(self).deque().generation_count() < usize::MAX,
            old(self).deque()@.len() + old(self).deque().free_len() < usize::MAX,
        ensures
            final(self).wf(),
            final(self).index() == old(self).index(),
            final(self).deque()@ == old(self).deque()@.insert(old(self).index() + 1, data),
            final(self).deque().handles() == old(self).deque().handles().insert(
                old(self).index() + 1,
                t,
            ),
            !old(self).deque().issued().contains(t),
            final(self).deque().issued() == old(self).deque().issued().insert(t),
            final(self).deque().free_len() == (if old(self).deque().free_len() == 0 {
                0
            } else {
                old(self).deque().free_len() - 1
            }),
            final(self).deque().generation_count() == old(self).deque().generation_count() + 1,
            *final(final(self).target) == *final(old(self).target),
            final(self).deque().keeps_values(&old(self).deque()),
    {
        let (_, back) = self.links();
        let ghost p = self.index();
        proof {
            self.target.lemma_ends();
        }
        let focus = self.focus;
        let ghost s0 = *self.target;
        let (new_ix, new_generation) = self.target.allocate(focus, back, data);
        self.target.link_at(new_ix, Ghost(p + 1), focus, back);
        proof {
            self.target.lemma_slot_position(focus, p);
            s0.lemma_ends();
            self.target.lemma_keeps_values(&s0, |k: int| if k <= p { k } else { k - 1 });
        }
        Token { ix: new_ix, generation: new_generation }
    }

    /// Removes the element right in front of the focus and returns it;
    /// `None`, with nothing changed, when the focus is the front.
    pub fn remove_front(&mut self) -> (r: Option<T>)
        requires
            old(self).wf(),
        ensures
            final(self).wf(),
            final(self).deque().issued() == old(self).deque().issued(),
            final(self).deque().generation_count() == old(self).deque().generation_count(),
            old(self).index() == 0 ==> r is None && final(self).deque() == old(self).deque()
                && final(self).index() == 0,
            old(self).index() > 0 ==> r == Some(old(self).deque()@[old(self).index() - 1])
                && final(self).index() == old(self).index() - 1 && final(self).deque()@ == old(self).deque()@.remove(old(self).index() - 1) && final(self).deque().handles() == old(self).deque().handles().remove(old(self).index() - 1) && final(self).deque().free_len()
                == old(self).deque().free_len() + 1,
            *final(final(self).target) == *final(old(self).target),
            final(self).deque().keeps_values(&old(self).deque()),
    {
        let (front, _) = self.links();
        let ghost p = self.index();
        proof {
            self.target.lemma_ends();
        }
        if NONE == front {
            None
        } else {
            let focus = self.focus;
            let v = self.target.remove_unchecked(front, Ghost(p - 1));
            proof {
                assert(self.target.chain@[p - 1] == focus);
                self.target.lemma_slot_position(focus, p - 1);
            }
            Some(v)
        }
    }

    /// Removes the element right behind the focus and returns it; `None`,
    /// with nothing changed, when the focus is the back.
    pub fn remove_back(&mut self) -> (r: Option<T>)
        requires
            old(self).wf(),
        ensures
            final(self).wf(),
            final(self).deque().issued() == old(self).deque().issued(),
            final(self).deque().generation_count() == old(self).deque().generation_count(),
            old(self).index() == old(self).deque()@.len() - 1 ==> r is None && final(self).deque()
                == old(self).deque() && final(self).index() == old(self).index(),
            old(self).index() < old(self).deque()@.len() - 1 ==> r == Some(
                old(self).deque()@[old(self).index() + 1],
            ) && final(self).index() == old(self).index() && final(self).deque()@ == old(self).deque()@.remove(old(self).index() + 1) && final(self).deque().handles() == old(self).deque().handles().remove(old(self).index() + 1) && final(self).deque().free_len()
                == old(self).deque().free_len() + 1,
            *final(final(self).target) == *final(old(self).target),
            final(self).deque().keeps_values(&old(self).deque()),
    {
        let (_, back) = self.links();
        let ghost p = self.index();
        proof {
            self.target.lemma_ends();
        }
        if NONE == back {
            None
        } else {
            let focus = self.focus;
            let v = self.target.remove_unchecked(back, Ghost(p + 1));
            proof {
                assert(self.target.chain@[p] == focus);
                self.target.lemma_slot_position(focus, p);
            }
            Some(v)
        }
    }
}

} // verus!
