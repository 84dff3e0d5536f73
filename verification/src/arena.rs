use vstd::prelude::*;

use crate::handle::{Generation, ID, id_at};

verus! {

/// One storage position of the arena's backing sequence.
///
/// An occupied slot carries the generation its value was inserted under; a
/// free slot carries the generation to stamp on its next occupant and the
/// index of the next slot on the free list, if any.
#[derive(Copy, Clone, Debug)]
pub(crate) enum Entry<T> {
    Free { next_generation: Generation, next_free: Option<usize> },
    Occupied(Generation, T),
}

impl<T> Entry<T> {
    /// The generation this slot currently carries: the one its value was
    /// inserted under if occupied, the one its next occupant will get if
    /// free.
    pub(crate) open spec fn current_gen(self) -> Generation {
        match self {
            Entry::Free { next_generation, .. } => next_generation,
            Entry::Occupied(g, _) => g,
        }
    }

    /// The free-list link of this slot.
    pub(crate) open spec fn next_link(self) -> Option<usize>
        recommends
            self is Free,
    {
        match self {
            Entry::Free { next_free, .. } => next_free,
            Entry::Occupied(..) => None,
        }
    }

    /// The stored value of an occupied slot.
    pub(crate) open spec fn stored(self) -> T
        recommends
            self is Occupied,
    {
        match self {
            Entry::Occupied(_, v) => v,
            Entry::Free { .. } => vstd::pervasive::arbitrary(),
        }
    }
}

/// The live (handle, value) pairs among slots `lo..hi` of `s`, in ascending
/// index order, each handle rebuilt from its slot's stored generation.
pub(crate) open spec fn live_between<T>(s: Seq<Entry<T>>, lo: int, hi: int) -> Seq<(ID, T)>
    decreases hi - lo,
{
    if lo >= hi {
        Seq::empty()
    } else {
        match s[lo] {
            Entry::Occupied(g, v) => seq![(id_at(lo as usize, g), v)] + live_between(s, lo + 1, hi),
            Entry::Free { .. } => live_between(s, lo + 1, hi),
        }
    }
}

/// `live_between` ignores slots outside `lo..hi`.
pub(crate) proof fn lemma_live_between_agree<T>(s1: Seq<Entry<T>>, s2: Seq<Entry<T>>, lo: int, hi: int)
    requires
        forall|i: int| lo <= i < hi ==> s1[i] == s2[i],
    ensures
        live_between(s1, lo, hi) == live_between(s2, lo, hi),
    decreases hi - lo,
{
    if lo < hi {
        lemma_live_between_agree(s1, s2, lo + 1, hi);
    }
}

/// `live_between` over a range is the concatenation of its two halves.
pub(crate) proof fn lemma_live_between_split<T>(s: Seq<Entry<T>>, lo: int, mid: int, hi: int)
    ensures
        lo <= mid <= hi ==> live_between(s, lo, hi) == live_between(s, lo, mid) + live_between(
            s,
            mid,
            hi,
        ),
    decreases mid - lo,
{
    if lo <= mid <= hi {
        if lo == mid {
            assert(live_between(s, lo, hi) =~= live_between(s, lo, mid) + live_between(s, mid, hi));
        } else {
            lemma_live_between_split(s, lo + 1, mid, hi);
            assert(live_between(s, lo, hi) =~= live_between(s, lo, mid) + live_between(s, mid, hi));
        }
    }
}

/// `live_between` over a single slot is that slot's pair if it is occupied,
/// and empty otherwise.
pub(crate) proof fn lemma_live_between_one<T>(s: Seq<Entry<T>>, i: int)
    ensures
        s[i] matches Entry::Occupied(g, v) ==> live_between(s, i, i + 1) == seq![
            (id_at(i as usize, g), v),
        ],
        s[i] is Free ==> live_between(s, i, i + 1) == Seq::<(ID, T)>::empty(),
{
    assert(live_between(s, i + 1, i + 1) == Seq::<(ID, T)>::empty());
    if s[i] is Occupied {
        let g = s[i]->Occupied_0;
        let v = s[i]->Occupied_1;
        assert(live_between(s, i, i + 1) =~= seq![(id_at(i as usize, g), v)]);
    }
}

/// A range yields at most one pair per slot.
pub(crate) proof fn lemma_live_between_bound<T>(s: Seq<Entry<T>>, lo: int, hi: int)
    ensures
        live_between(s, lo, hi).len() <= (if hi >= lo {
            hi - lo
        } else {
            0
        }),
    decreases hi - lo,
{
    if lo < hi {
        lemma_live_between_bound(s, lo + 1, hi);
    }
}

/// Overwriting one slot changes the number of live pairs by the difference
/// in occupancy, and leaves the pairs of every other slot alone.
pub(crate) proof fn lemma_live_update_len<T>(s: Seq<Entry<T>>, i: int, e: Entry<T>)
    requires
        0 <= i < s.len(),
    ensures
        live_between(s.update(i, e), 0, s.len() as int).len() == live_between(
            s,
            0,
            s.len() as int,
        ).len() + (if e is Occupied {
            1int
        } else {
            0int
        }) - (if s[i] is Occupied {
            1int
        } else {
            0int
        }),
{
    let n = s.len() as int;
    let s2 = s.update(i, e);
    lemma_live_between_split(s, 0, i, n);
    lemma_live_between_split(s, i, i + 1, n);
    lemma_live_between_split(s2, 0, i, n);
    lemma_live_between_split(s2, i, i + 1, n);
    lemma_live_between_agree(s, s2, 0, i);
    lemma_live_between_agree(s, s2, i + 1, n);
    lemma_live_between_one(s, i);
    lemma_live_between_one(s2, i);
}

/// Every pair of `live_between(s, lo, hi)` records an occupied slot of
/// `lo..hi` faithfully, and the pairs come in strictly ascending slot order.
pub(crate) proof fn lemma_live_between_members<T>(s: Seq<Entry<T>>, lo: int, hi: int)
    requires
        0 <= lo,
        hi <= usize::MAX,
    ensures
        forall|k: int|
            0 <= k < live_between(s, lo, hi).len() ==> {
                let p = #[trigger] live_between(s, lo, hi)[k];
                lo <= p.0.idx() < hi && s[p.0.idx() as int] == Entry::Occupied(p.0.gen(), p.1)
            },
        forall|k1: int, k2: int|
            0 <= k1 < k2 < live_between(s, lo, hi).len()
                ==> (#[trigger] live_between(s, lo, hi)[k1]).0.idx()
                < (#[trigger] live_between(s, lo, hi)[k2]).0.idx(),
    decreases hi - lo,
{
    if lo < hi {
        lemma_live_between_members(s, lo + 1, hi);
        let cur = live_between(s, lo, hi);
        let rest = live_between(s, lo + 1, hi);
        if s[lo] is Occupied {
            assert forall|k: int| 0 <= k < cur.len() implies {
                let p = #[trigger] cur[k];
                lo <= p.0.idx() < hi && s[p.0.idx() as int] == Entry::Occupied(p.0.gen(), p.1)
            } by {
                if k > 0 {
                    assert(cur[k] == rest[k - 1]);
                }
            }
            assert forall|k1: int, k2: int|
                0 <= k1 < k2 < cur.len() implies (#[trigger] cur[k1]).0.idx()
                < (#[trigger] cur[k2]).0.idx() by {
                assert(cur[k2] == rest[k2 - 1]);
                if k1 > 0 {
                    assert(cur[k1] == rest[k1 - 1]);
                }
            }
        }
    }
}

/// Every occupied slot of `lo..hi` appears in `live_between(s, lo, hi)`,
/// under the handle rebuilt from its stored generation.
pub(crate) proof fn lemma_live_between_covers<T>(s: Seq<Entry<T>>, lo: int, hi: int, i: int)
    requires
        0 <= lo <= i < hi,
        s[i] is Occupied,
    ensures
        live_between(s, lo, hi).contains((id_at(i as usize, s[i].current_gen()), s[i].stored())),
    decreases hi - lo,
{
    let cur = live_between(s, lo, hi);
    let rest = live_between(s, lo + 1, hi);
    let p = (id_at(i as usize, s[i].current_gen()), s[i].stored());
    if i == lo {
        assert(cur[0] == p);
    } else {
        lemma_live_between_covers(s, lo + 1, hi, i);
        let k = choose|k: int| 0 <= k < rest.len() && rest[k] == p;
        if s[lo] is Occupied {
            assert(cur[k + 1] == p);
        } else {
            assert(cur[k] == p);
        }
    }
}

/// The free list is sound for the slots `entries`: `order` lists the indices
/// of exactly the free slots, each once; `head` is its first element; and
/// each listed slot links to the next listed one, the last to none.
pub(crate) open spec fn free_wf<T>(
    entries: Seq<Entry<T>>,
    head: Option<usize>,
    order: Seq<usize>,
) -> bool {
    &&& entries.len() <= usize::MAX
    &&& forall|k: int|
        0 <= k < order.len() ==> (#[trigger] order[k]) < entries.len()
            && entries[order[k] as int] is Free
    &&& forall|i: int| 0 <= i < entries.len() && (#[trigger] entries[i]) is Free
            ==> order.contains(i as usize)
    &&& order.no_duplicates()
    &&& head == (if order.len() == 0 { None::<usize> } else { Some(order[0]) })
    &&& forall|k: int|
        0 <= k < order.len() ==> entries[#[trigger] order[k] as int].next_link() == (
        if k + 1 < order.len() {
            Some(order[k + 1])
        } else {
            None::<usize>
        })
}

/// Popping the head of a sound free list and occupying that slot leaves a
/// sound free list, headed by the popped slot's link.
#[verifier::rlimit(100)]
pub(crate) proof fn lemma_free_wf_pop<T>(s: Seq<Entry<T>>, order: Seq<usize>, e: Entry<T>)
    requires
        order.len() > 0,
        free_wf(s, Some(order[0]), order),
        e is Occupied,
    ensures
        free_wf(s.update(order[0] as int, e), s[order[0] as int].next_link(), order.drop_first()),
{
    let h = order[0];
    let s2 = s.update(h as int, e);
    let ord2 = order.drop_first();
    assert forall|k: int| 0 <= k < ord2.len() implies (#[trigger] ord2[k]) < s2.len()
        && s2[ord2[k] as int] is Free by {
        assert(ord2[k] == order[k + 1]);
        assert(order[k + 1] != h);
    }
    assert forall|i: int|
        0 <= i < s2.len() && (#[trigger] s2[i]) is Free implies ord2.contains(i as usize) by {
        assert(i != h as int);
        assert(i as usize as int == i);
        assert(s[i] == s2[i]);
        assert(order.contains(i as usize));
        let k = choose|k: int| 0 <= k < order.len() && order[k] == i as usize;
        assert(k != 0);
        assert(ord2[k - 1] == i as usize);
    }
    assert forall|i: int, j: int|
        0 <= i < ord2.len() && 0 <= j < ord2.len() && i != j implies ord2[i] != ord2[j] by {
        assert(ord2[i] == order[i + 1] && ord2[j] == order[j + 1]);
    }
    assert forall|k: int| 0 <= k < ord2.len() implies s2[#[trigger] ord2[k] as int].next_link() == (
    if k + 1 < ord2.len() {
        Some(ord2[k + 1])
    } else {
        None::<usize>
    }) by {
        assert(ord2[k] == order[k + 1]);
        assert(order[k + 1] != h);
        assert(s2[ord2[k] as int] == s[order[k + 1] as int]);
        if k + 1 < ord2.len() {
            assert(ord2[k + 1] == order[k + 2]);
        }
    }
}

/// Vacating an occupied slot and linking it to the old head leaves a sound
/// free list, headed by the vacated slot.
#[verifier::rlimit(100)]
pub(crate) proof fn lemma_free_wf_push<T>(
    s: Seq<Entry<T>>,
    head: Option<usize>,
    order: Seq<usize>,
    i: usize,
    e: Entry<T>,
)
    requires
        free_wf(s, head, order),
        i < s.len(),
        s[i as int] is Occupied,
        e is Free,
        e.next_link() == head,
    ensures
        free_wf(s.update(i as int, e), Some(i), seq![i] + order),
{
    let s2 = s.update(i as int, e);
    let ord2 = seq![i] + order;
    assert forall|k: int| 0 <= k < ord2.len() implies (#[trigger] ord2[k]) < s2.len()
        && s2[ord2[k] as int] is Free by {
        if k > 0 {
            assert(ord2[k] == order[k - 1]);
            assert(order[k - 1] != i);
        }
    }
    assert forall|j: int|
        0 <= j < s2.len() && (#[trigger] s2[j]) is Free implies ord2.contains(j as usize) by {
        if j == i as int {
            assert(ord2[0] == j as usize);
        } else {
            assert(s[j] is Free);
            assert(order.contains(j as usize));
            let k = choose|k: int| 0 <= k < order.len() && order[k] == j as usize;
            assert(ord2[k + 1] == j as usize);
        }
    }
    assert forall|a: int, b: int|
        0 <= a < ord2.len() && 0 <= b < ord2.len() && a != b implies ord2[a] != ord2[b] by {
        if a == 0 {
            assert(ord2[b] == order[b - 1]);
            assert(order[b - 1] != i);
        } else if b == 0 {
            assert(ord2[a] == order[a - 1]);
            assert(order[a - 1] != i);
        } else {
            assert(ord2[a] == order[a - 1] && ord2[b] == order[b - 1]);
        }
    }
    assert forall|k: int| 0 <= k < ord2.len() implies s2[#[trigger] ord2[k] as int].next_link() == (
    if k + 1 < ord2.len() {
        Some(ord2[k + 1])
    } else {
        None::<usize>
    }) by {
        if k == 0 {
            if order.len() > 0 {
                assert(ord2[1] == order[0]);
            }
        } else {
            assert(ord2[k] == order[k - 1]);
            assert(order[k - 1] != i);
            assert(s2[ord2[k] as int] == s[order[k - 1] as int]);
            if k + 1 < ord2.len() {
                assert(ord2[k + 1] == order[k]);
            }
        }
    }
}

/// Replacing the value of an occupied slot touches no free slot and no
/// link, so a sound free list stays sound.
pub(crate) proof fn lemma_free_wf_revalue<T>(
    s: Seq<Entry<T>>,
    head: Option<usize>,
    order: Seq<usize>,
    i: int,
    e: Entry<T>,
)
    requires
        free_wf(s, head, order),
        0 <= i < s.len(),
        s[i] is Occupied,
        e is Occupied,
    ensures
        free_wf(s.update(i, e), head, order),
{
    let s2 = s.update(i, e);
    assert forall|k: int| 0 <= k < order.len() implies (#[trigger] order[k]) < s2.len()
        && s2[order[k] as int] is Free by {
        assert(order[k] as int != i);
    }
    assert forall|j: int|
        0 <= j < s2.len() && (#[trigger] s2[j]) is Free implies order.contains(j as usize) by {
        assert(j != i);
    }
    assert forall|k: int| 0 <= k < order.len() implies s2[#[trigger] order[k] as int].next_link()
        == (if k + 1 < order.len() {
        Some(order[k + 1])
    } else {
        None::<usize>
    }) by {
        assert(order[k] as int != i);
    }
}

/// A growable container that stores values in generation-stamped slots and
/// addresses them through [`ID`] handles.
///
/// The backing sequence never shrinks; vacated slots are threaded onto a
/// free list and reused by later insertions under a bumped generation, so a
/// handle to a removed value never again compares as valid.
#[derive(Clone)]
pub struct Arena<T> {
    pub(crate) entries: Vec<Entry<T>>,
    pub(crate) free_list_head: Option<usize>,
    pub(crate) length: usize,
    /// The indices of the free slots, in free-list order, head first.
    pub(crate) free_order: Ghost<Seq<usize>>,
}

impl<T> Arena<T> {
    /// How many slots the backing sequence holds, freed ones included.
    pub open(crate) spec fn num_slots(self) -> nat {
        self.entries@.len()
    }

    /// The live-entry count, which `len` returns.
    pub open(crate) spec fn spec_len(self) -> nat {
        self.length as nat
    }

    /// Whether slot `i` exists and is occupied.
    pub open(crate) spec fn slot_live(self, i: int) -> bool {
        0 <= i < self.entries@.len() && self.entries@[i] is Occupied
    }

    /// The generation slot `i` currently carries: the generation of its
    /// value if occupied, the generation its next occupant will get if free.
    pub open(crate) spec fn gen_of(self, i: int) -> Generation
        recommends
            0 <= i < self.num_slots(),
    {
        self.entries@[i].current_gen()
    }

    /// Whether `id` addresses a live value: its slot is occupied and holds
    /// the generation `id` was issued under.
    pub open spec fn valid(self, id: ID) -> bool {
        self.slot_live(id.idx() as int) && id.gen() == self.gen_of(id.idx() as int)
    }

    /// The value a valid handle addresses.
    pub open(crate) spec fn value_at(self, id: ID) -> T
        recommends
            self.valid(id),
    {
        self.entries@[id.idx() as int].stored()
    }

    /// What a lookup of `id` observes: the addressed value if `id` is valid,
    /// nothing otherwise.
    pub open spec fn spec_get(self, id: ID) -> Option<T> {
        if self.valid(id) {
            Some(self.value_at(id))
        } else {
            None
        }
    }

    /// The indices of the free slots, in free-list order, head first.
    pub open(crate) spec fn free_list(self) -> Seq<usize> {
        self.free_order@
    }

    /// The head of the free list.
    pub open(crate) spec fn free_head(self) -> Option<usize> {
        self.free_list_head
    }

    /// The live (handle, value) pairs of the arena, in ascending slot order.
    pub open(crate) spec fn live_seq(self) -> Seq<(ID, T)> {
        live_between(self.entries@, 0, self.entries@.len() as int)
    }

    /// The slot index the next insertion will use.
    pub open spec fn next_index(self) -> usize {
        if self.free_list().len() > 0 {
            self.free_list()[0]
        } else {
            self.num_slots() as usize
        }
    }

    /// The generation the next insertion will stamp on its handle.
    pub open spec fn next_generation(self) -> Generation {
        if self.free_list().len() > 0 {
            self.gen_of(self.free_list()[0] as int)
        } else {
            0
        }
    }

    /// The arena's internal invariant: the live count agrees with the number
    /// of occupied slots, and the free list is sound.
    pub open(crate) spec fn wf(self) -> bool {
        &&& self.length as int == live_between(
            self.entries@,
            0,
            self.entries@.len() as int,
        ).len()
        &&& free_wf(self.entries@, self.free_list_head, self.free_order@)
    }

    /// An empty arena: no slots, no live entries, an empty free list.
    pub fn new() -> (r: Self)
        ensures
            r.wf(),
            r.spec_len() == 0,
            r.num_slots() == 0,
            r.free_list() == Seq::<usize>::empty(),
            r.live_seq() == Seq::<(ID, T)>::empty(),
    {
        Self {
            entries: Vec::new(),
            free_list_head: None,
            length: 0,
            free_order: Ghost(Seq::empty()),
        }
    }

    /// The number of live entries, not the size of the backing sequence.
    pub fn len(&self) -> (r: usize)
        ensures
            r == self.spec_len(),
    {
        self.length
    }

    /// Whether the arena holds no live entry.
    pub fn is_empty(&self) -> (r: bool)
        ensures
            r == (self.spec_len() == 0),
    {
        self.len() == 0
    }

    /// How one insertion that returned handle `r` relates an arena (`self`)
    /// to its successor state (`post`): the handle is fresh, addresses the
    /// slot the free list offered (or a brand-new slot) under that slot's
    /// pending generation, the live count grew by one, no slot's generation
    /// moved, and every other handle observes exactly what it did before.
    pub open spec fn inserted(self, post: Arena<T>, r: ID) -> bool {
        &&& r.idx() == self.next_index()
        &&& r.gen() == self.next_generation()
        &&& !self.valid(r)
        &&& post.valid(r)
        &&& post.spec_len() == self.spec_len() + 1
        &&& post.num_slots() == (if self.free_list().len() > 0 {
            self.num_slots()
        } else {
            self.num_slots() + 1
        })
        &&& post.free_list() == (if self.free_list().len() > 0 {
            self.free_list().drop_first()
        } else {
            self.free_list()
        })
        &&& (forall|id: ID| id != r ==> (post.valid(id) <==> self.valid(id)))
        &&& (forall|id: ID|
            id != r && self.valid(id) ==> post.value_at(id) == self.value_at(id))
        &&& (forall|i: int| 0 <= i < self.num_slots() ==> post.gen_of(i) == self.gen_of(i))
        &&& post.gen_of(r.idx() as int) == r.gen()
        &&& (forall|i: int|
            0 <= i < post.num_slots() && i != r.idx() as int ==> (post.slot_live(i)
                <==> self.slot_live(i)))
        &&& post.slot_live(r.idx() as int)
    }

    /// Insert the value a builder produces, handing the builder the handle
    /// the value will live under, so that a value can embed its own handle.
    ///
    /// The slot is chosen and the handle computed before the builder runs;
    /// the slot is written only after the builder returns, and the builder
    /// runs exactly once.
    pub fn insert_with_id<F: FnOnce(ID) -> T>(&mut self, f: F) -> (r: ID)
        requires
            old(self).wf(),
            forall|id: ID|
                id.idx() == old(self).next_index() && id.gen() == old(self).next_generation()
                    ==> call_requires(f, (id,)),
        ensures
            final(self).wf(),
            old(self).inserted(*final(self), r),
            call_ensures(f, (r,), final(self).value_at(r)),
    {
        let ghost old_s = self.entries@;
        let ghost order = self.free_order@;
        proof {
            vstd::std_specs::vec::axiom_spec_len(&self.entries);
        }
        let id = match self.free_list_head {
            Some(free) => {
                proof {
                    assert(order.len() > 0);
                    assert(order[0] == free);
                }
                let (g, nf): (Generation, Option<usize>) = match &self.entries[free] {
                    Entry::Free { next_generation, next_free } => (*next_generation, *next_free),
                    Entry::Occupied(..) => (0, None),
                };
                self.free_list_head = nf;
                self.free_order = Ghost(order.drop_first());
                ID::new(free, g)
            },
            None => {
                let index = self.entries.len();
                self.entries.push(
                    Entry::Free { next_generation: 0, next_free: None },
                );
                proof {
                    vstd::std_specs::vec::axiom_spec_len(&self.entries);
                }
                ID::new(index, 0)
            },
        };
        proof {
            lemma_live_between_bound(old_s, 0, old_s.len() as int);
            if order.len() > 0 {
                lemma_live_between_split(old_s, 0, order[0] as int, old_s.len() as int);
                lemma_live_between_split(
                    old_s,
                    order[0] as int,
                    order[0] as int + 1,
                    old_s.len() as int,
                );
                lemma_live_between_one(old_s, order[0] as int);
                lemma_live_between_bound(old_s, 0, order[0] as int);
                lemma_live_between_bound(old_s, order[0] as int + 1, old_s.len() as int);
            }
        }
        self.length = self.length + 1;
        let item = f(id);
        let idx = id.index();
        self.entries.set(idx, Entry::Occupied(id.generation(), item));
        proof {
            let n = old_s.len() as int;
            let post = *self;
            if order.len() > 0 {
                let h = order[0] as int;
                lemma_free_wf_pop(old_s, order, post.entries@[h]);
                lemma_live_update_len(old_s, h, post.entries@[h]);
                assert(post.entries@ == old_s.update(h, post.entries@[h]));
            } else {
                assert(post.entries@ =~= old_s.push(post.entries@[n]));
                lemma_live_between_split(post.entries@, 0, n, n + 1);
                lemma_live_between_agree(post.entries@, old_s, 0, n);
                lemma_live_between_one(post.entries@, n);
            }
        }
        id
    }

    /// Insert a value and return the handle it now lives under. Reuses the
    /// head of the free list under that slot's pending generation, or
    /// appends a brand-new slot under generation zero. Never fails.
    pub fn insert(&mut self, t: T) -> (r: ID)
        requires
            old(self).wf(),
        ensures
            final(self).wf(),
            old(self).inserted(*final(self), r),
            final(self).value_at(r) == t,
            final(self).spec_get(r) == Some(t),
    {
        let build = |_id: ID| -> (res: T)
            ensures
                res == t,
            {
                t
            };
        let r = self.insert_with_id(build);
        r
    }

    /// How removal of the value behind `id` relates an arena (`self`) to its
    /// successor state (`post`): the handle's slot is vacated and becomes the
    /// new free-list head, pending a generation one above the handle's, the
    /// live count shrank by one, no other slot moved, and every other handle
    /// observes exactly what it did before.
    pub open spec fn removed(self, post: Arena<T>, id: ID) -> bool {
        &&& !post.valid(id)
        &&& post.spec_len() == self.spec_len() - 1
        &&& post.num_slots() == self.num_slots()
        &&& post.free_list() == seq![id.idx()] + self.free_list()
        &&& post.free_head() == Some(id.idx())
        &&& post.gen_of(id.idx() as int) == id.gen() + 1
        &&& !post.slot_live(id.idx() as int)
        &&& (forall|i: int|
            0 <= i < self.num_slots() && i != id.idx() as int ==> post.gen_of(i) == self.gen_of(
                i,
            ))
        &&& (forall|i: int|
            0 <= i < self.num_slots() && i != id.idx() as int ==> (post.slot_live(i)
                <==> self.slot_live(i)))
        &&& (forall|id2: ID| id2 != id ==> (post.valid(id2) <==> self.valid(id2)))
        &&& (forall|id2: ID|
            id2 != id && self.valid(id2) ==> post.value_at(id2) == self.value_at(id2))
    }

    /// Remove the value behind a handle and return it, passing ownership to
    /// the caller; a stale or unknown handle removes nothing and reports the
    /// absence. The vacated slot joins the free list, pending a bumped
    /// generation, so the presented handle is permanently invalidated.
    pub fn remove(&mut self, id: ID) -> (r: Option<T>)
        requires
            old(self).wf(),
            old(self).valid(id) ==> id.gen() < Generation::MAX,
        ensures
            final(self).wf(),
            old(self).valid(id) ==> r == Some(old(self).value_at(id)) && old(self).removed(
                *final(self),
                id,
            ),
            !old(self).valid(id) ==> r is None && *final(self) == *old(self),
    {
        if !self.contains(id) {
            return None;
        }
        let ghost old_s = self.entries@;
        let ghost order = self.free_order@;
        let idx = id.index();
        let g = id.generation();
        let mut slot = Entry::Free {
            next_generation: g + 1,
            next_free: self.free_list_head,
        };
        let ghost vacated = slot;
        self.entries.set_and_swap(idx, &mut slot);
        self.free_list_head = Some(idx);
        self.free_order = Ghost(seq![idx] + order);
        proof {
            lemma_free_wf_push(old_s, old(self).free_list_head, order, idx, vacated);
            lemma_live_update_len(old_s, idx as int, vacated);
        }
        self.length = self.length - 1;
        match slot {
            Entry::Occupied(_, item) => Some(item),
            Entry::Free { .. } => None,
        }
    }

    /// Borrow the value behind a handle, or observe that the handle is stale
    /// or unknown. No arena state changes either way.
    pub fn get(&self, id: ID) -> (r: Option<&T>)
        ensures
            self.valid(id) ==> (r matches Some(v) && *v == self.value_at(id)),
            !self.valid(id) ==> r is None,
    {
        let idx = id.index();
        if idx >= self.entries.len() {
            return None;
        }
        match &self.entries[idx] {
            Entry::Occupied(g, item) => {
                if *g == id.generation() {
                    Some(item)
                } else {
                    None
                }
            },
            Entry::Free { .. } => None,
        }
    }

    /// Whether a handle currently addresses a live value; defined to agree
    /// with `get` returning a value.
    pub fn contains(&self, id: ID) -> (r: bool)
        ensures
            r == self.valid(id),
    {
        match self.get(id) {
            Some(_) => true,
            None => false,
        }
    }

    /// The successor state after writing `w` through a handle: the same
    /// slots under the same generations and the same free list, every handle
    /// exactly as valid as before, and only the value behind `id` now `w`.
    pub open spec fn value_updated(self, post: Arena<T>, id: ID, w: T) -> bool {
        &&& post.valid(id)
        &&& post.value_at(id) == w
        &&& post.spec_len() == self.spec_len()
        &&& post.num_slots() == self.num_slots()
        &&& post.free_list() == self.free_list()
        &&& post.free_head() == self.free_head()
        &&& (forall|i: int| 0 <= i < self.num_slots() ==> post.gen_of(i) == self.gen_of(i))
        &&& (forall|i: int|
            0 <= i < self.num_slots() ==> (post.slot_live(i) <==> self.slot_live(i)))
        &&& (forall|id2: ID| post.valid(id2) <==> self.valid(id2))
        &&& (forall|id2: ID|
            id2 != id && self.valid(id2) ==> post.value_at(id2) == self.value_at(id2))
        &&& (self.wf() ==> post.wf())
    }

    /// Mutably borrow the value behind a handle the caller has already
    /// established as valid; the check is the caller's precondition rather
    /// than a recoverable outcome. Whatever the caller writes through the
    /// borrow replaces the value behind `id`, and nothing else changes.
    pub fn index_mut(&mut self, id: ID) -> (r: &mut T)
        requires
            old(self).valid(id),
        ensures
            *r == old(self).value_at(id),
            old(self).value_updated(*final(self), id, *final(r)),
    {
        let ghost old_s = self.entries@;
        let ghost order = self.free_order@;
        let ghost head = self.free_list_head;
        let idx = id.index();
        let entry = &mut self.entries[idx];
        match entry {
            Entry::Occupied(g, item) => {
                proof {
                    let gval = *g;
                    if free_wf(old_s, head, order) {
                        lemma_free_wf_revalue(
                            old_s,
                            head,
                            order,
                            idx as int,
                            Entry::Occupied(gval, *final(item)),
                        );
                    }
                    lemma_live_update_len(
                        old_s,
                        idx as int,
                        Entry::Occupied(gval, *final(item)),
                    );
                }
                item
            },
            Entry::Free { .. } => vstd::pervasive::unreached(),
        }
    }

    /// Mutably borrow the value behind a handle, or observe that the handle
    /// is stale or unknown. Whatever the caller writes through the borrow
    /// replaces the value behind `id`, and nothing else changes; a stale or
    /// unknown handle changes nothing at all.
    pub fn get_mut(&mut self, id: ID) -> (r: Option<&mut T>)
        ensures
            !old(self).valid(id) ==> (r is None && *final(self) == *old(self)),
            old(self).valid(id) ==> (r matches Some(v) && *v == old(self).value_at(id)
                && old(self).value_updated(*final(self), id, *final(v))),
    {
        if self.contains(id) {
            Some(self.index_mut(id))
        } else {
            None
        }
    }

    /// Borrow the value behind a handle whose validity the caller has
    /// already established; the check is the caller's precondition rather
    /// than a recoverable outcome.
    pub fn index(&self, id: ID) -> (r: &T)
        requires
            self.valid(id),
        ensures
            *r == self.value_at(id),
    {
        match self.get(id) {
            Some(v) => v,
            None => vstd::pervasive::unreached(),
        }
    }
}

/// Round trip: looking up the handle an insertion returned yields the
/// inserted value. `insert` is contracted to relate its states by
/// `inserted` and to store `t` behind the returned handle, and `get` to
/// report exactly `spec_get`.
pub proof fn lemma_get_after_insert<T>(pre: Arena<T>, post: Arena<T>, r: ID, t: T)
    requires
        pre.inserted(post, r),
        post.value_at(r) == t,
    ensures
        post.spec_get(r) == Some(t),
{
}

/// A handle that is not valid observes absence, and nothing else: `get`,
/// `get_mut` and `remove` are contracted to report exactly `spec_get`, which
/// is nothing for an invalid handle, and `contains` to report `valid`.
pub proof fn lemma_invalid_handle_absent<T>(a: Arena<T>, id: ID)
    requires
        !a.valid(id),
    ensures
        a.spec_get(id) is None,
{
}

/// A handle whose generation disagrees with its slot's current generation is
/// not valid, whatever else the arena holds. Since removal leaves the slot's
/// generation strictly above the removed handle's, and every operation's
/// contract keeps each slot's generation from decreasing, a removed handle
/// never becomes valid again, even after its slot is reused.
pub proof fn lemma_mismatched_generation_invalid<T>(a: Arena<T>, id: ID)
    requires
        a.gen_of(id.idx() as int) != id.gen(),
    ensures
        !a.valid(id),
{
}

/// The live count agrees with iteration: `len` is exactly the number of
/// pairs `iter` yields. A handle is valid exactly when its slot is occupied
/// under its generation, so each occupied slot admits exactly one valid
/// handle, and `len` is the number of currently valid handles.
pub proof fn lemma_len_counts_live<T>(a: Arena<T>)
    requires
        a.wf(),
    ensures
        a.spec_len() == a.live_seq().len(),
        forall|id: ID|
            a.valid(id) <==> (a.slot_live(id.idx() as int) && id.gen() == a.gen_of(
                id.idx() as int,
            )),
{
}

/// The free list holds exactly the indices of the free slots, each exactly
/// once, with no cycles: it is a finite sequence without duplicates, headed
/// by `free_head`, and membership in it coincides with not being live.
pub proof fn lemma_free_list_sound<T>(a: Arena<T>)
    requires
        a.wf(),
    ensures
        a.free_list().no_duplicates(),
        forall|k: int|
            0 <= k < a.free_list().len() ==> (#[trigger] a.free_list()[k]) < a.num_slots(),
        forall|i: int|
            0 <= i < a.num_slots() ==> (!a.slot_live(i) <==> a.free_list().contains(i as usize)),
        a.free_head() == (if a.free_list().len() == 0 {
            None::<usize>
        } else {
            Some(a.free_list()[0])
        }),
{
    let order = a.free_order@;
    assert forall|i: int|
        0 <= i < a.num_slots() implies (!a.slot_live(i) <==> order.contains(i as usize)) by {
        if order.contains(i as usize) {
            let k = choose|k: int| 0 <= k < order.len() && order[k] == i as usize;
            assert(a.entries@[order[k] as int] is Free);
        }
    }
}

/// Iteration is exact: `iter` yields precisely the live (handle, value)
/// pairs, each exactly once, in strictly ascending slot order — so the
/// reversed traversal yields the same pairs in strictly descending order.
pub proof fn lemma_iteration_exact<T>(a: Arena<T>)
    requires
        a.wf(),
    ensures
        forall|id: ID, v: T| #[trigger]
            a.live_seq().contains((id, v)) <==> (a.valid(id) && a.value_at(id) == v),
        forall|k1: int, k2: int|
            0 <= k1 < k2 < a.live_seq().len() ==> (#[trigger] a.live_seq()[k1]).0.idx() < (
            #[trigger] a.live_seq()[k2]).0.idx(),
{
    let s = a.entries@;
    let n = s.len() as int;
    lemma_live_between_members(s, 0, n);
    assert forall|id: ID, v: T| #[trigger]
        a.live_seq().contains((id, v)) <==> (a.valid(id) && a.value_at(id) == v) by {
        if a.live_seq().contains((id, v)) {
            let k = choose|k: int| 0 <= k < a.live_seq().len() && a.live_seq()[k] == (id, v);
            assert(s[id.idx() as int] == Entry::Occupied(id.gen(), v));
        }
        if a.valid(id) && a.value_at(id) == v {
            lemma_live_between_covers(s, 0, n, id.idx() as int);
            assert(id_at(id.idx(), s[id.idx() as int].current_gen()) == id);
        }
    }
}

} // verus!
