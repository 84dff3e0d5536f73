use vstd::prelude::*;

use crate::arena::{Arena, Entry, live_between, lemma_live_between_agree, lemma_live_between_one,
    lemma_live_between_split};
use crate::handle::ID;

verus! {

/// The values stored in the occupied slots of `s`, in ascending slot order.
pub(crate) open spec fn live_values_of<T>(s: Seq<Entry<T>>) -> Seq<T>
    decreases s.len(),
{
    if s.len() == 0 {
        Seq::empty()
    } else {
        match s[0] {
            Entry::Occupied(_, v) => seq![v] + live_values_of(s.drop_first()),
            Entry::Free { .. } => live_values_of(s.drop_first()),
        }
    }
}

/// Dropping a trailing slot drops exactly its contribution to
/// `live_values_of`.
pub(crate) proof fn lemma_live_values_back<T>(s: Seq<Entry<T>>)
    requires
        s.len() > 0,
    ensures
        s.last() matches Entry::Occupied(g, v) ==> live_values_of(s) == live_values_of(
            s.drop_last(),
        ) + seq![v],
        s.last() is Free ==> live_values_of(s) == live_values_of(s.drop_last()),
    decreases s.len(),
{
    if s.len() == 1 {
        assert(s.drop_last() =~= Seq::empty());
        assert(s.drop_first() =~= Seq::empty());
        if s.last() is Occupied {
            let v = s.last()->Occupied_1;
            assert(live_values_of(s) =~= live_values_of(s.drop_last()) + seq![v]);
        }
    } else {
        let tail = s.drop_first();
        lemma_live_values_back(tail);
        assert(tail.last() == s.last());
        assert(tail.drop_last() =~= s.drop_last().drop_first());
        assert(s.drop_last()[0] == s[0]);
        assert(s.drop_last().len() > 0);
        if s.last() is Occupied {
            let v = s.last()->Occupied_1;
            if s[0] is Occupied {
                assert(live_values_of(s) == seq![s[0]->Occupied_1] + live_values_of(tail));
                assert(live_values_of(s.drop_last()) == seq![s[0]->Occupied_1]
                    + live_values_of(tail.drop_last()));
                assert(live_values_of(s) =~= live_values_of(s.drop_last()) + seq![v]);
            } else {
                assert(live_values_of(s) =~= live_values_of(s.drop_last()) + seq![v]);
            }
        } else {
            assert(live_values_of(s) =~= live_values_of(s.drop_last()));
        }
    }
}

/// A slot's contribution to the live values does not depend on its
/// position: dropping the first slot shifts the range by one.
pub(crate) proof fn lemma_live_values_shift<T>(s: Seq<Entry<T>>, lo: int, hi: int)
    requires
        1 <= lo <= hi <= s.len(),
    ensures
        live_between(s, lo, hi).map_values(|p: (ID, T)| p.1) == live_between(
            s.drop_first(),
            lo - 1,
            hi - 1,
        ).map_values(|p: (ID, T)| p.1),
    decreases hi - lo,
{
    let vals = |p: (ID, T)| p.1;
    if lo < hi {
        lemma_live_values_shift(s, lo + 1, hi);
        assert(s.drop_first()[lo - 1] == s[lo]);
        if s[lo] is Occupied {
            let g = s[lo]->Occupied_0;
            let v = s[lo]->Occupied_1;
            assert(live_between(s, lo, hi).map_values(vals) =~= seq![v] + live_between(
                s,
                lo + 1,
                hi,
            ).map_values(vals));
            assert(live_between(s.drop_first(), lo - 1, hi - 1).map_values(vals) =~= seq![v]
                + live_between(s.drop_first(), lo, hi - 1).map_values(vals));
        }
    }
}

/// The values the consuming traversal yields are exactly the value half of
/// the pairs the borrowing traversal yields, in the same order.
pub(crate) proof fn lemma_live_values_match_pairs<T>(s: Seq<Entry<T>>)
    ensures
        live_values_of(s) == live_between(s, 0, s.len() as int).map_values(|p: (ID, T)| p.1),
    decreases s.len(),
{
    let vals = |p: (ID, T)| p.1;
    let n = s.len() as int;
    if s.len() == 0 {
        assert(live_values_of(s) =~= live_between(s, 0, n).map_values(vals));
    } else {
        lemma_live_values_match_pairs(s.drop_first());
        lemma_live_values_shift(s, 1, n);
        if s[0] is Occupied {
            let v = s[0]->Occupied_1;
            assert(live_between(s, 0, n).map_values(vals) =~= seq![v] + live_between(
                s,
                1,
                n,
            ).map_values(vals));
        }
    }
}

/// Consuming iteration agrees with borrowing iteration: the values
/// `into_iter` yields are exactly, and in the same order as, the value half
/// of the pairs `iter` yields.
pub proof fn lemma_consuming_iteration_matches<T>(a: Arena<T>)
    ensures
        a.live_values() == a.live_seq().map_values(|p: (ID, T)| p.1),
{
    lemma_live_values_match_pairs(a.entries@);
}

impl<T> Arena<T> {
    /// The values of the live entries, in ascending slot order: what
    /// consuming iteration yields.
    pub open(crate) spec fn live_values(self) -> Seq<T> {
        live_values_of(self.entries@)
    }

    /// A forward/backward iterator over the live (handle, value) pairs, in
    /// ascending slot order, borrowing the arena for its lifetime.
    pub fn iter<'a>(&'a self) -> (r: Iter<'a, T>)
        ensures
            r.wf(),
            r.remaining() == self.live_seq(),
    {
        Iter { entries: &self.entries, front: 0, back: self.entries.len() }
    }

    /// A cursor over the live entries for in-place mutation. The cursor
    /// holds no borrow itself; each [`IterMut::next`] call presents the
    /// arena afresh and yields the next live entry mutably.
    pub fn iter_mut(&self) -> (r: IterMut)
        ensures
            r.spec_front() == 0,
            r.spec_back() == self.num_slots(),
    {
        IterMut { front: 0, back: self.entries.len() }
    }

    /// A forward/backward iterator over the handles of the live entries, in
    /// ascending slot order.
    pub fn indices<'a>(&'a self) -> (r: Indices<'a, T>)
        ensures
            r.wf(),
            r.remaining() == self.live_seq().map_values(|p: (ID, T)| p.0),
    {
        let items = self.iter();
        Indices { items }
    }

    /// Consume the arena and iterate over the owned values of its live
    /// entries, forward or backward, in slot order.
    pub fn into_iter(self) -> (r: IntoIter<T>)
        ensures
            r.remaining() == self.live_values(),
    {
        IntoIter { entries: self.entries }
    }
}

/// A forward/backward iterator over the live (handle, value) pairs of an
/// arena, in ascending slot order. Free slots are skipped; every yielded
/// handle is rebuilt from its slot's stored generation, so it is valid for
/// the borrowed arena.
pub struct Iter<'a, T> {
    pub(crate) entries: &'a Vec<Entry<T>>,
    pub(crate) front: usize,
    pub(crate) back: usize,
}

impl<'a, T> Iter<'a, T> {
    /// The cursor stays within the borrowed slots.
    pub open(crate) spec fn wf(self) -> bool {
        self.front <= self.back <= self.entries@.len()
    }

    /// The (handle, value) pairs this iterator has yet to yield, in the
    /// order forward traversal yields them.
    pub open(crate) spec fn remaining(self) -> Seq<(ID, T)> {
        live_between(self.entries@, self.front as int, self.back as int)
    }

    /// Yield the first remaining live entry, or report exhaustion.
    pub fn next(&mut self) -> (r: Option<(ID, &'a T)>)
        requires
            old(self).wf(),
        ensures
            final(self).wf(),
            old(self).remaining().len() == 0 ==> (r is None && final(self).remaining() == old(
                self,
            ).remaining()),
            old(self).remaining().len() > 0 ==> (r matches Some(p) && p.0 == old(
                self,
            ).remaining()[0].0 && *p.1 == old(self).remaining()[0].1 && final(self).remaining()
                == old(self).remaining().drop_first()),
    {
        let entries: &'a Vec<Entry<T>> = self.entries;
        let ghost orig = *self;
        loop
            invariant
                orig == *old(self),
                entries == orig.entries,
                self.wf(),
                self.entries == orig.entries,
                self.back == orig.back,
                live_between(entries@, self.front as int, self.back as int) == orig.remaining(),
            decreases self.back - self.front,
        {
            if self.front >= self.back {
                return None;
            }
            let i = self.front;
            match &entries[i] {
                Entry::Occupied(g, item) => {
                    let id = ID::new(i, *g);
                    self.front = i + 1;
                    proof {
                        assert(orig.remaining().drop_first() =~= live_between(
                            entries@,
                            i + 1,
                            self.back as int,
                        ));
                    }
                    return Some((id, item));
                },
                Entry::Free { .. } => {
                    self.front = i + 1;
                },
            }
        }
    }

    /// Yield the last remaining live entry, or report exhaustion: the same
    /// traversal consumed from the opposite end.
    pub fn next_back(&mut self) -> (r: Option<(ID, &'a T)>)
        requires
            old(self).wf(),
        ensures
            final(self).wf(),
            old(self).remaining().len() == 0 ==> (r is None && final(self).remaining() == old(
                self,
            ).remaining()),
            old(self).remaining().len() > 0 ==> (r matches Some(p) && p.0
                == old(self).remaining()[old(self).remaining().len() - 1].0
                && *p.1 == old(self).remaining()[old(self).remaining().len() - 1].1
                && final(self).remaining() == old(self).remaining().drop_last()),
    {
        let entries: &'a Vec<Entry<T>> = self.entries;
        let ghost orig = *self;
        loop
            invariant
                orig == *old(self),
                entries == orig.entries,
                self.wf(),
                self.entries == orig.entries,
                self.front == orig.front,
                live_between(entries@, self.front as int, self.back as int) == orig.remaining(),
            decreases self.back - self.front,
        {
            if self.front >= self.back {
                return None;
            }
            let i = self.back - 1;
            proof {
                lemma_live_between_split(entries@, self.front as int, i as int, self.back as int);
                lemma_live_between_one(entries@, i as int);
            }
            match &entries[i] {
                Entry::Occupied(g, item) => {
                    let id = ID::new(i, *g);
                    self.back = i;
                    proof {
                        assert(orig.remaining().drop_last() =~= live_between(
                            entries@,
                            self.front as int,
                            i as int,
                        ));
                    }
                    return Some((id, item));
                },
                Entry::Free { .. } => {
                    self.back = i;
                    proof {
                        assert(live_between(entries@, self.front as int, i as int)
                            =~= orig.remaining());
                    }
                },
            }
        }
    }
}

/// A cursor for mutating the live entries of an arena in slot order,
/// forward or backward. It holds no borrow of the arena; each call to
/// [`IterMut::next`] or [`IterMut::next_back`] takes the arena anew and
/// yields a handle together with a mutable borrow of its value.
pub struct IterMut {
    pub(crate) front: usize,
    pub(crate) back: usize,
}

impl IterMut {
    /// The lower end of the unvisited slot range.
    pub open(crate) spec fn spec_front(self) -> usize {
        self.front
    }

    /// The upper end of the unvisited slot range.
    pub open(crate) spec fn spec_back(self) -> usize {
        self.back
    }

    /// The cursor stays within the slots of `a`.
    pub open spec fn wf_for<T>(self, a: Arena<T>) -> bool {
        self.spec_front() <= self.spec_back() <= a.num_slots()
    }

    /// The (handle, value) pairs the cursor has yet to visit in `a`, in the
    /// order forward traversal visits them.
    pub open(crate) spec fn remaining_in<T>(self, a: Arena<T>) -> Seq<(ID, T)> {
        live_between(a.entries@, self.front as int, self.back as int)
    }

    /// Visit the first unvisited live entry of `arena` and yield its handle
    /// and a mutable borrow of its value, or report exhaustion. Whatever the
    /// caller writes through the borrow replaces that value, and nothing
    /// else in the arena changes.
    pub fn next<'a, T>(&mut self, arena: &'a mut Arena<T>) -> (r: Option<(ID, &'a mut T)>)
        requires
            old(self).wf_for(*old(arena)),
        ensures
            final(self).spec_back() == old(self).spec_back(),
            final(self).wf_for(*final(arena)),
            old(self).remaining_in(*old(arena)).len() == 0 ==> (r is None && *final(arena) == *old(
                arena,
            ) && final(self).remaining_in(*final(arena)) == old(self).remaining_in(*old(arena))),
            old(self).remaining_in(*old(arena)).len() > 0 ==> (r matches Some((pid, pv))
                && pid == old(self).remaining_in(*old(arena))[0].0
                && *pv == old(self).remaining_in(*old(arena))[0].1
                && old(arena).value_updated(*final(arena), pid, *final(pv))
                && final(self).remaining_in(*final(arena))
                    == old(self).remaining_in(*old(arena)).drop_first()),
    {
        let ghost orig = *self;
        let ghost orig_arena = *arena;
        loop
            invariant
                orig == *old(self),
                orig_arena == *old(arena),
                self.wf_for(*arena),
                *arena == orig_arena,
                self.back == orig.back,
                live_between(arena.entries@, self.front as int, self.back as int)
                    == orig.remaining_in(orig_arena),
            ensures
                self.front < self.back,
                *arena == orig_arena,
                self.back == orig.back,
                arena.entries@[self.front as int] is Occupied,
                live_between(arena.entries@, self.front as int, self.back as int)
                    == orig.remaining_in(orig_arena),
            decreases self.back - self.front,
        {
            if self.front >= self.back {
                return None;
            }
            let occupied = match &arena.entries[self.front] {
                Entry::Occupied(..) => true,
                Entry::Free { .. } => false,
            };
            if occupied {
                break;
            }
            self.front = self.front + 1;
        }
        let i = self.front;
        let ghost old_s = arena.entries@;
        let ghost back = self.back as int;
        self.front = i + 1;
        let entry = &mut arena.entries[i];
        match entry {
            Entry::Occupied(g, item) => {
                let id = ID::new(i, *g);
                proof {
                    let gval = *g;
                    let new_e = Entry::Occupied(gval, *final(item));
                    let new_s = old_s.update(i as int, new_e);
                    if crate::arena::free_wf(old_s, orig_arena.free_list_head,
                        orig_arena.free_order@) {
                        crate::arena::lemma_free_wf_revalue(
                            old_s,
                            orig_arena.free_list_head,
                            orig_arena.free_order@,
                            i as int,
                            new_e,
                        );
                    }
                    crate::arena::lemma_live_update_len(old_s, i as int, new_e);
                    lemma_live_between_agree(new_s, old_s, i + 1, back);
                    assert(orig.remaining_in(orig_arena).drop_first() =~= live_between(
                        old_s,
                        i + 1,
                        back,
                    ));
                }
                Some((id, item))
            },
            Entry::Free { .. } => vstd::pervasive::unreached(),
        }
    }

    /// Visit the last unvisited live entry of `arena`, mutably: the same
    /// traversal consumed from the opposite end.
    pub fn next_back<'a, T>(&mut self, arena: &'a mut Arena<T>) -> (r: Option<(ID, &'a mut T)>)
        requires
            old(self).wf_for(*old(arena)),
        ensures
            final(self).spec_front() == old(self).spec_front(),
            final(self).wf_for(*final(arena)),
            old(self).remaining_in(*old(arena)).len() == 0 ==> (r is None && *final(arena) == *old(
                arena,
            ) && final(self).remaining_in(*final(arena)) == old(self).remaining_in(*old(arena))),
            old(self).remaining_in(*old(arena)).len() > 0 ==> (r matches Some((pid, pv))
                && pid == old(self).remaining_in(*old(arena))[old(self).remaining_in(*old(arena)).len() - 1].0
                && *pv == old(self).remaining_in(*old(arena))[old(self).remaining_in(*old(arena)).len() - 1].1
                && old(arena).value_updated(*final(arena), pid, *final(pv))
                && final(self).remaining_in(*final(arena)) == old(self).remaining_in(*old(arena)).drop_last()),
    {
        let ghost orig = *self;
        let ghost orig_arena = *arena;
        loop
            invariant
                orig == *old(self),
                orig_arena == *old(arena),
                self.wf_for(*arena),
                *arena == orig_arena,
                self.front == orig.front,
                live_between(arena.entries@, self.front as int, self.back as int)
                    == orig.remaining_in(orig_arena),
            ensures
                self.front < self.back,
                *arena == orig_arena,
                self.front == orig.front,
                arena.entries@[self.back as int - 1] is Occupied,
                live_between(arena.entries@, self.front as int, self.back as int)
                    == orig.remaining_in(orig_arena),
            decreases self.back - self.front,
        {
            if self.front >= self.back {
                return None;
            }
            let i = self.back - 1;
            proof {
                lemma_live_between_split(
                    arena.entries@,
                    self.front as int,
                    i as int,
                    self.back as int,
                );
                lemma_live_between_one(arena.entries@, i as int);
            }
            let occupied = match &arena.entries[i] {
                Entry::Occupied(..) => true,
                Entry::Free { .. } => false,
            };
            if occupied {
                break;
            }
            self.back = i;
            proof {
                assert(live_between(arena.entries@, self.front as int, i as int)
                    =~= orig.remaining_in(orig_arena));
            }
        }
        let i = self.back - 1;
        let ghost old_s = arena.entries@;
        let ghost front = self.front as int;
        proof {
            lemma_live_between_split(old_s, front, i as int, self.back as int);
            lemma_live_between_one(old_s, i as int);
        }
        self.back = i;
        let entry = &mut arena.entries[i];
        match entry {
            Entry::Occupied(g, item) => {
                let id = ID::new(i, *g);
                proof {
                    let gval = *g;
                    let new_e = Entry::Occupied(gval, *final(item));
                    let new_s = old_s.update(i as int, new_e);
                    if crate::arena::free_wf(old_s, orig_arena.free_list_head,
                        orig_arena.free_order@) {
                        crate::arena::lemma_free_wf_revalue(
                            old_s,
                            orig_arena.free_list_head,
                            orig_arena.free_order@,
                            i as int,
                            new_e,
                        );
                    }
                    crate::arena::lemma_live_update_len(old_s, i as int, new_e);
                    lemma_live_between_agree(new_s, old_s, front, i as int);
                    assert(orig.remaining_in(orig_arena).drop_last() =~= live_between(
                        old_s,
                        front,
                        i as int,
                    ));
                }
                Some((id, item))
            },
            Entry::Free { .. } => vstd::pervasive::unreached(),
        }
    }
}

/// A consuming iterator over the values of an arena's live entries, in slot
/// order, forward or backward. Handles are not reported; freed slots are
/// skipped.
pub struct IntoIter<T> {
    pub(crate) entries: Vec<Entry<T>>,
}

impl<T> IntoIter<T> {
    /// The values this iterator has yet to yield, in the order forward
    /// traversal yields them.
    pub open(crate) spec fn remaining(self) -> Seq<T> {
        live_values_of(self.entries@)
    }

    /// Yield the first remaining value, or report exhaustion.
    pub fn next(&mut self) -> (r: Option<T>)
        ensures
            old(self).remaining().len() == 0 ==> (r is None && final(self).remaining() == old(
                self,
            ).remaining()),
            old(self).remaining().len() > 0 ==> (r matches Some(v) && v == old(
                self,
            ).remaining()[0] && final(self).remaining() == old(self).remaining().drop_first()),
    {
        let ghost orig = *self;
        loop
            invariant
                orig == *old(self),
                live_values_of(self.entries@) == orig.remaining(),
            decreases self.entries@.len(),
        {
            if self.entries.len() == 0 {
                return None;
            }
            let ghost old_s = self.entries@;
            let e = self.entries.remove(0);
            proof {
                assert(old_s.remove(0) =~= old_s.drop_first());
            }
            match e {
                Entry::Occupied(_, v) => {
                    return Some(v);
                },
                Entry::Free { .. } => {},
            }
        }
    }

    /// Yield the last remaining value, or report exhaustion: the same
    /// traversal consumed from the opposite end.
    pub fn next_back(&mut self) -> (r: Option<T>)
        ensures
            old(self).remaining().len() == 0 ==> (r is None && final(self).remaining() == old(
                self,
            ).remaining()),
            old(self).remaining().len() > 0 ==> (r matches Some(v) && v == old(
                self,
            ).remaining()[old(self).remaining().len() - 1] && final(self).remaining() == old(
                self,
            ).remaining().drop_last()),
    {
        let ghost orig = *self;
        loop
            invariant
                orig == *old(self),
                live_values_of(self.entries@) == orig.remaining(),
            decreases self.entries@.len(),
        {
            if self.entries.len() == 0 {
                return None;
            }
            let ghost old_s = self.entries@;
            proof {
                lemma_live_values_back(old_s);
            }
            let e = self.entries.pop();
            match e {
                Some(Entry::Occupied(_, v)) => {
                    return Some(v);
                },
                Some(Entry::Free { .. }) => {},
                None => {
                    return None;
                },
            }
        }
    }
}

/// A forward iterator over the handles of an arena's live entries, in
/// ascending slot order: the handle half of [`Iter`].
pub struct Indices<'a, T> {
    pub(crate) items: Iter<'a, T>,
}

impl<'a, T> Indices<'a, T> {
    /// The cursor stays within the borrowed slots.
    pub open(crate) spec fn wf(self) -> bool {
        self.items.wf()
    }

    /// The handles this iterator has yet to yield, in order.
    pub open(crate) spec fn remaining(self) -> Seq<ID> {
        self.items.remaining().map_values(|p: (ID, T)| p.0)
    }

    /// Yield the handle of the first remaining live entry, or report
    /// exhaustion.
    pub fn next(&mut self) -> (r: Option<ID>)
        requires
            old(self).wf(),
        ensures
            final(self).wf(),
            old(self).remaining().len() == 0 ==> (r is None && final(self).remaining() == old(
                self,
            ).remaining()),
            old(self).remaining().len() > 0 ==> (r matches Some(v) && v == old(
                self,
            ).remaining()[0] && final(self).remaining() == old(self).remaining().drop_first()),
    {
        let ghost orig = *self;
        let r = match self.items.next() {
            Some((id, _)) => Some(id),
            None => None,
        };
        proof {
            if orig.remaining().len() > 0 {
                assert(final(self).remaining() =~= orig.remaining().drop_first());
            }
        }
        r
    }
}

} // verus!
