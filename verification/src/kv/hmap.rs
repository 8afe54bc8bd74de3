use vstd::prelude::*;
use vstd::multiset::Multiset;

use super::hnode::{
    accepts_all,
    always_accepts,
    always_rejects,
    lemma_accepted_value_matches,
    no_match,
    first_match,
    lemma_first_match_prefix,
    lemma_first_match_suffix,
    lemma_no_match_concat,
    lemma_concat_update_left,
    lemma_concat_update_right,
};
use super::htable::{HTab, TableView, max_slots, is_pow2, lemma_pow2_double};

verus! {

broadcast use vstd::seq_lib::group_to_multiset_ensures;

/// A table grows once it holds more than this many values per slot.
pub const MAX_LOAD_FACTOR: usize = 8;

/// The most values moved from the older table to the newer one per insertion.
pub const REHASH_CHUNK: usize = 128;

/// The most values a map can hold: each sits in a heap node of at least two
/// words, and all of them must fit in `isize::MAX` bytes.
pub open spec fn max_entries() -> nat {
    (isize::MAX as nat) / 16
}

/// A hash map that grows by progressive rehashing: when the table fills up it
/// becomes the older table, a table twice its size takes its place, and each
/// insertion then moves a bounded number of values from the older table over.
pub struct HMap<T: Clone> {
    newer: HTab<T>,
    older: Option<HTab<T>>,
    migrate_pos: usize,
}

/// What a map holds: its tables and how far the move from the older one has got.
pub struct MapView<T> {
    pub(crate) newer: TableView<T>,
    pub(crate) older: Option<TableView<T>>,
    pub(crate) migrate_pos: usize,
}

impl<T: Clone> View for HMap<T> {
    type V = MapView<T>;

    closed spec fn view(&self) -> MapView<T> {
        MapView {
            newer: self.newer@,
            older: match self.older {
                Some(o) => Some(o@),
                None => None,
            },
            migrate_pos: self.migrate_pos,
        }
    }
}

impl<T> MapView<T> {
    /// Both tables are well formed, the slots of the older table that the move
    /// has passed are empty, and the map is within its size limit.
    pub closed spec fn wf(self) -> bool {
        &&& self.newer.wf()
        &&& match self.older {
            None => true,
            Some(o) => {
                &&& o.wf()
                &&& self.migrate_pos <= o.capacity()
                &&& forall|s: int| 0 <= s < self.migrate_pos ==> #[trigger] o.slot_empty(s)
            },
        }
        &&& self.len() <= max_entries()
    }

    /// Number of stored values.
    pub closed spec fn len(self) -> nat {
        self.newer.len() + match self.older {
            Some(o) => o.len(),
            None => 0,
        }
    }

    /// Slots of the table that insertions go to.
    pub closed spec fn capacity(self) -> nat {
        self.newer.capacity()
    }

    /// Number of values in the table that insertions go to.
    pub closed spec fn newer_len(self) -> nat {
        self.newer.len()
    }

    /// Whether values still wait in an older table to be moved over.
    pub closed spec fn migrating(self) -> bool {
        self.older is Some
    }

    /// Number of values still waiting in the older table.
    pub closed spec fn pending(self) -> nat {
        match self.older {
            Some(o) => o.len(),
            None => 0,
        }
    }

    /// `self` is `before` with at most one of its two tables changed, each
    /// table keeping its number of slots, and the move between them where it was.
    pub closed spec fn one_table_changed(self, before: Self) -> bool {
        &&& self.migrate_pos == before.migrate_pos
        &&& self.newer.capacity() == before.newer.capacity()
        &&& match (self.older, before.older) {
            (Some(a), Some(b)) => a.capacity() == b.capacity(),
            (None, None) => true,
            _ => false,
        }
        &&& (self.newer == before.newer || self.older == before.older)
    }

    /// The values filed under hash code `h` in the newer table, in search order.
    pub closed spec fn newer_candidates(self, h: usize) -> Seq<T> {
        self.newer.candidates(h)
    }

    /// The values filed under hash code `h` in the older table, in search
    /// order; none when there is no older table.
    pub closed spec fn older_candidates(self, h: usize) -> Seq<T> {
        match self.older {
            Some(o) => o.candidates(h),
            None => Seq::empty(),
        }
    }

    /// The values filed under hash code `h`, in the order a search visits them:
    /// first those of the newer table, then those of the older one.
    pub closed spec fn candidates(self, h: usize) -> Seq<T> {
        match self.older {
            Some(o) => self.newer.candidates(h) + o.candidates(h),
            None => self.newer.candidates(h),
        }
    }
}

/// Moving values under one hash code from the older table to the newer one:
/// the first `k` values of `older` have been moved, one at a time, to the head
/// of the newer table's list, so they stand there in reverse order in front of
/// `newer`, and the older table keeps the rest in their order.
pub open spec fn moved_front<T>(
    newer: Seq<T>,
    older: Seq<T>,
    k: int,
    newer_after: Seq<T>,
    older_after: Seq<T>,
) -> bool {
    &&& 0 <= k <= older.len()
    &&& newer_after == older.take(k).reverse() + newer
    &&& older_after == older.skip(k)
}

/// Some number of the values of `older` under one hash code have been moved
/// to the front of the newer table's list, as `moved_front` says.
pub open spec fn moved_over<T>(
    newer: Seq<T>,
    older: Seq<T>,
    newer_after: Seq<T>,
    older_after: Seq<T>,
) -> bool {
    exists|k: int| moved_front(newer, older, k, newer_after, older_after)
}

/// The values under `h` once `val` is filed under `hash` at the head of `s`.
pub open spec fn after_filing<T>(s: Seq<T>, h: usize, hash: usize, val: T) -> Seq<T> {
    if h == hash {
        seq![val] + s
    } else {
        s
    }
}

/// Moving one more value puts it in front of those already moved.
proof fn lemma_reverse_take_step<T>(s: Seq<T>, d: int)
    requires
        0 <= d < s.len(),
    ensures
        s.take(d + 1).reverse() == seq![s[d]] + s.take(d).reverse(),
{
    assert(s.take(d + 1).reverse() =~= seq![s[d]] + s.take(d).reverse());
}

/// Moving nothing leaves both lists as they are.
proof fn lemma_moved_none<T>(newer: Seq<T>, older: Seq<T>)
    ensures
        moved_front(newer, older, 0, newer, older),
{
    assert(older.take(0).reverse() + newer =~= newer);
    assert(older.skip(0) =~= older);
}

impl<T: Clone> HMap<T> {
    /// An empty map whose table starts with `capacity` slots.
    pub fn with_capacity(capacity: usize) -> (m: Self)
        requires
            is_pow2(capacity as nat),
            capacity <= max_slots(),
        ensures
            m@.wf(),
            m@.len() == 0,
            m@.capacity() == capacity,
            !m@.migrating(),
            forall|h: usize| #[trigger] m@.candidates(h) == Seq::<T>::empty(),
    {
        HMap { newer: HTab::with_capacity(capacity), older: None, migrate_pos: 0 }
    }

    /// Files `val` under `hash`. The values already stored stay stored. When
    /// the newer table comes to hold more than `MAX_LOAD_FACTOR` values per slot
    /// and no move is under way, it becomes the older table behind an empty one
    /// with twice the slots; while a move is under way, each insertion moves
    /// `REHASH_CHUNK` values over, or all that remain when fewer do, and drops
    /// the older table once it has moved them all.
    pub fn insert(&mut self, hash: usize, val: T)
        requires
            old(self)@.wf(),
            old(self)@.len() < max_entries(),
        ensures
            final(self)@.wf(),
            final(self)@.len() == old(self)@.len() + 1,
            ({
                let grows = !old(self)@.migrating() && old(self)@.newer_len() + 1 > old(
                    self,
                )@.capacity() * MAX_LOAD_FACTOR;
                let moving = grows || old(self)@.migrating();
                let waiting = if grows {
                    old(self)@.newer_len() + 1
                } else {
                    old(self)@.pending()
                };
                &&& final(self)@.capacity() == if grows {
                    2 * old(self)@.capacity()
                } else {
                    old(self)@.capacity()
                }
                &&& !moving ==> !final(self)@.migrating()
                &&& moving && waiting < REHASH_CHUNK ==> !final(self)@.migrating()
                &&& moving && waiting >= REHASH_CHUNK ==> final(self)@.migrating()
                    && final(self)@.pending() + REHASH_CHUNK == waiting
                &&& forall|h: usize|
                    #![trigger final(self)@.newer_candidates(h)]
                    moved_over(
                        if grows {
                            Seq::empty()
                        } else {
                            after_filing(old(self)@.newer_candidates(h), h, hash, val)
                        },
                        if grows {
                            after_filing(old(self)@.newer_candidates(h), h, hash, val)
                        } else {
                            old(self)@.older_candidates(h)
                        },
                        final(self)@.newer_candidates(h),
                        final(self)@.older_candidates(h),
                    )
            }),
            forall|h: usize|
                #[trigger] final(self)@.candidates(h).to_multiset() == if h == hash {
                    old(self)@.candidates(h).to_multiset().insert(val)
                } else {
                    old(self)@.candidates(h).to_multiset()
                },
    {
        broadcast use vstd::seq_lib::lemma_multiset_commutative;

        let ghost pre = self@;
        self.newer.insert(hash, val);
        proof {
            assert forall|h: usize|
                #[trigger] self@.candidates(h).to_multiset() == if h == hash {
                    pre.candidates(h).to_multiset().insert(val)
                } else {
                    pre.candidates(h).to_multiset()
                } by {
                if h == hash {
                    let n = pre.newer.candidates(h);
                    if let Some(o) = pre.older {
                        assert(self@.candidates(h) =~= seq![val] + (n + o.candidates(h)));
                    } else {
                        assert(self@.candidates(h) =~= seq![val] + n);
                    }
                    assert(seq![val].to_multiset() =~= Multiset::empty().insert(val)) by {
                        assert(seq![val] =~= Seq::<T>::empty().push(val));
                    }
                }
            }
        }
        proof {
            self@.newer.lemma_capacity();
        }
        let ghost mid = self@;
        let grows = self.newer.entry_count() > self.newer.slot_count() * MAX_LOAD_FACTOR
            && self.older.is_none();
        if grows {
            self.trigger_rehashing();
        }
        let ghost mid2 = self@;
        let moving = self.older.is_some();
        if moving {
            self.rehash();
        }
        proof {
            assert forall|h: usize|
                #![trigger self@.newer_candidates(h)]
                moved_over(
                    if grows {
                        Seq::empty()
                    } else {
                        after_filing(pre.newer_candidates(h), h, hash, val)
                    },
                    if grows {
                        after_filing(pre.newer_candidates(h), h, hash, val)
                    } else {
                        pre.older_candidates(h)
                    },
                    self@.newer_candidates(h),
                    self@.older_candidates(h),
                ) by {
                assert(mid.newer_candidates(h) =~= after_filing(pre.newer_candidates(h), h, hash, val));
                assert(mid.older_candidates(h) == pre.older_candidates(h));
                if grows {
                    assert(mid2.newer_candidates(h) =~= Seq::<T>::empty());
                    assert(mid2.older_candidates(h) == mid.newer_candidates(h));
                } else {
                    assert(mid2 == mid);
                }
                if moving {
                    assert(moved_over(
                        mid2.newer_candidates(h),
                        mid2.older_candidates(h),
                        self@.newer_candidates(h),
                        self@.older_candidates(h),
                    ));
                } else {
                    lemma_moved_none(mid2.newer_candidates(h), mid2.older_candidates(h));
                    assert(mid2.older_candidates(h) =~= Seq::<T>::empty());
                }
            }
        }
    }

    /// Moves the full table aside as the older table, behind an empty one twice its size.
    fn trigger_rehashing(&mut self)
        requires
            old(self)@.wf(),
            old(self).older is None,
            old(self)@.newer.len() > old(self)@.newer.capacity() * 8,
        ensures
            final(self)@.wf(),
            final(self)@.older == Some(old(self)@.newer),
            final(self)@.newer.capacity() == 2 * old(self)@.newer.capacity(),
            final(self)@.newer.len() == 0,
            forall|h: usize| #[trigger] final(self)@.newer.candidates(h) == Seq::<T>::empty(),
            final(self)@.migrate_pos == 0,
            final(self)@.len() == old(self)@.len(),
            forall|h: usize| #[trigger] final(self)@.candidates(h) == old(self)@.candidates(h),
    {
        let new_cap = self.newer.slot_count() * 2;
        proof {
            self@.newer.lemma_capacity();
            lemma_pow2_double(self@.newer.capacity());
        }
        let mut fresh = HTab::with_capacity(new_cap);
        std::mem::swap(&mut self.newer, &mut fresh);
        self.older = Some(fresh);
        self.migrate_pos = 0;
        proof {
            assert forall|h: usize| #[trigger] self@.candidates(h) == old(self)@.candidates(h) by {
                assert(self@.candidates(h) =~= Seq::<T>::empty() + old(self)@.candidates(h));
            }
        }
    }

    /// Moves up to a chunk of values from the older table to the newer one,
    /// dropping the older table once it is empty.
    fn rehash(&mut self)
        requires
            old(self)@.wf(),
        ensures
            final(self)@.wf(),
            final(self)@.len() == old(self)@.len(),
            forall|h: usize|
                #[trigger] final(self)@.candidates(h).to_multiset() == old(
                    self,
                )@.candidates(h).to_multiset(),
            final(self)@.newer.capacity() == old(self)@.newer.capacity(),
            forall|h: usize|
                #[trigger] moved_over(
                    old(self)@.newer_candidates(h),
                    old(self)@.older_candidates(h),
                    final(self)@.newer_candidates(h),
                    final(self)@.older_candidates(h),
                ),
            old(self)@.older is None ==> final(self)@ == old(self)@,
            old(self)@.older matches Some(o) ==> if o.len() < REHASH_CHUNK {
                &&& final(self)@.older is None
                &&& final(self)@.newer.len() == old(self)@.newer.len() + o.len()
            } else {
                &&& final(self)@.older matches Some(o2) && o2.len() + REHASH_CHUNK == o.len()
                &&& final(self)@.newer.len() == old(self)@.newer.len() + REHASH_CHUNK
            },
    {
        broadcast use vstd::seq_lib::lemma_multiset_commutative;

        let ghost pre = self@;
        let mut moved: usize = 0;
        let mut older = match self.older.take() {
            Some(o) => o,
            None => {
                proof {
                    assert forall|h: usize|
                        #[trigger] moved_over(
                            old(self)@.newer_candidates(h),
                            old(self)@.older_candidates(h),
                            self@.newer_candidates(h),
                            self@.older_candidates(h),
                        ) by {
                        lemma_moved_none(pre.newer_candidates(h), pre.older_candidates(h));
                        assert(moved_front(
                            old(self)@.newer_candidates(h),
                            old(self)@.older_candidates(h),
                            0,
                            self@.newer_candidates(h),
                            self@.older_candidates(h),
                        ));
                    }
                }
                return ;
            },
        };
        let ghost start = older@;
        let ghost newer_start = self.newer@;
        proof {
            assert forall|h: usize|
                moved_front(
                    #[trigger] newer_start.candidates(h),
                    start.candidates(h),
                    start.candidates(h).len() - older@.candidates(h).len(),
                    self.newer@.candidates(h),
                    older@.candidates(h),
                ) by {
                lemma_moved_none(newer_start.candidates(h), start.candidates(h));
            }
        }
        while moved < REHASH_CHUNK
            invariant
                pre == old(self)@,
                pre.older == Some(start),
                pre.newer == newer_start,
                self.newer@.capacity() == newer_start.capacity(),
                older@.len() + moved == start.len(),
                self.newer@.len() == newer_start.len() + moved,
                self.newer@.wf(),
                older@.wf(),
                self.older is None,
                self.migrate_pos <= older@.capacity(),
                forall|s: int| 0 <= s < self.migrate_pos ==> #[trigger] older@.slot_empty(s),
                self.newer@.len() + older@.len() == pre.len(),
                pre.len() <= max_entries(),
                forall|h: usize|
                    #[trigger] (self.newer@.candidates(h) + older@.candidates(
                        h,
                    )).to_multiset() == pre.candidates(h).to_multiset(),
                moved <= REHASH_CHUNK,
                forall|h: usize|
                    moved_front(
                        #[trigger] newer_start.candidates(h),
                        start.candidates(h),
                        start.candidates(h).len() - older@.candidates(h).len(),
                        self.newer@.candidates(h),
                        older@.candidates(h),
                    ),
            decreases (REHASH_CHUNK - moved) + (older@.capacity() - self.migrate_pos),
        {
            if self.migrate_pos >= older.slot_count() {
                proof {
                    older@.lemma_all_slots_empty();
                    assert forall|h: usize| #[trigger] self@.candidates(h).to_multiset()
                        == pre.candidates(h).to_multiset() by {
                        assert(self.newer@.candidates(h) + older@.candidates(h)
                            =~= self.newer@.candidates(h));
                    }
                    assert(self@.len() == pre.len());
                    assert forall|h: usize|
                        #[trigger] moved_over(
                            old(self)@.newer_candidates(h),
                            old(self)@.older_candidates(h),
                            self@.newer_candidates(h),
                            self@.older_candidates(h),
                        ) by {
                        let k = start.candidates(h).len() - older@.candidates(h).len();
                        assert(moved_front(
                            newer_start.candidates(h),
                            start.candidates(h),
                            k,
                            self.newer@.candidates(h),
                            older@.candidates(h),
                        ));
                        assert(self@.older_candidates(h) =~= Seq::<T>::empty());
                        assert(moved_front(
                            old(self)@.newer_candidates(h),
                            old(self)@.older_candidates(h),
                            k,
                            self@.newer_candidates(h),
                            self@.older_candidates(h),
                        ));
                    }
                }
                return ;
            }
            let ghost n0 = self.newer@;
            let ghost o0 = older@;
            match older.take_head(self.migrate_pos) {
                None => {
                    self.migrate_pos = self.migrate_pos + 1;
                },
                Some((hc, v)) => {
                    self.newer.insert(hc, v);
                    moved = moved + 1;
                    proof {
                        assert forall|h: usize|
                            #[trigger] (self.newer@.candidates(h) + older@.candidates(
                                h,
                            )).to_multiset() == pre.candidates(h).to_multiset() by {
                            if h == hc {
                                let a = n0.candidates(h);
                                let b = older@.candidates(h);
                                assert(self.newer@.candidates(h) + b =~= seq![v] + (a + b));
                                assert(n0.candidates(h) + o0.candidates(h) =~= a + (seq![v]
                                    + b));
                                let sv = seq![v];
                                vstd::seq_lib::lemma_multiset_commutative(sv, a + b);
                                vstd::seq_lib::lemma_multiset_commutative(a, b);
                                vstd::seq_lib::lemma_multiset_commutative(a, sv + b);
                                vstd::seq_lib::lemma_multiset_commutative(sv, b);
                                assert((sv + (a + b)).to_multiset() =~= (a + (sv + b)).to_multiset());
                            }
                        }
                        assert forall|h: usize|
                            moved_front(
                                #[trigger] newer_start.candidates(h),
                                start.candidates(h),
                                start.candidates(h).len() - older@.candidates(h).len(),
                                self.newer@.candidates(h),
                                older@.candidates(h),
                            ) by {
                            let o = start.candidates(h);
                            let d = o.len() - o0.candidates(h).len();
                            assert(moved_front(
                                newer_start.candidates(h),
                                o,
                                d,
                                n0.candidates(h),
                                o0.candidates(h),
                            ));
                            if h == hc {
                                let c0 = o0.candidates(h);
                                let c1 = older@.candidates(h);
                                assert(c0 == seq![v] + c1);
                                assert(c0[0] == o[d]);
                                assert forall|j: int| 0 <= j < c1.len() implies c1[j] == o.skip(
                                    d + 1,
                                )[j] by {
                                    assert(c0[j + 1] == c1[j]);
                                    assert(c0[j + 1] == o[d + 1 + j]);
                                }
                                assert(c1 =~= o.skip(d + 1));
                                lemma_reverse_take_step(o, d);
                                assert(self.newer@.candidates(h) =~= o.take(d + 1).reverse()
                                    + newer_start.candidates(h));
                            }
                        }
                    }
                },
            }
        }
        self.older = Some(older);
        proof {
            assert forall|h: usize|
                #[trigger] moved_over(
                    old(self)@.newer_candidates(h),
                    old(self)@.older_candidates(h),
                    self@.newer_candidates(h),
                    self@.older_candidates(h),
                ) by {
                let k = start.candidates(h).len() - older@.candidates(h).len();
                assert(moved_front(
                    newer_start.candidates(h),
                    start.candidates(h),
                    k,
                    self.newer@.candidates(h),
                    older@.candidates(h),
                ));
                assert(moved_front(
                    old(self)@.newer_candidates(h),
                    old(self)@.older_candidates(h),
                    k,
                    self@.newer_candidates(h),
                    self@.older_candidates(h),
                ));
            }
        }
    }

    /// Finds the first value filed under `hash` that `eq` accepts:
    /// the newer table is searched before the older one.
    fn find<'a, F: Fn(&T) -> bool>(&'a self, hash: usize, eq: &F) -> (r: (Option<&'a T>, Ghost<int>))
        requires
            self@.wf(),
            accepts_all(*eq),
        ensures
            r.0 matches Some(v) ==> first_match(self@.candidates(hash), *eq, r.1@)
                && self@.candidates(hash)[r.1@] == *v,
            r.0 is None ==> no_match(self@.candidates(hash), *eq),
    {
        let (r, Ghost(i)) = self.newer.find(hash, eq);
        match r {
            Some(v) => {
                proof {
                    if let Some(o) = self@.older {
                        lemma_first_match_prefix(self@.newer.candidates(hash), o.candidates(hash), *eq, i);
                    }
                }
                (Some(v), Ghost(i))
            },
            None => match &self.older {
                Some(o) => {
                    let (r2, Ghost(j)) = o.find(hash, eq);
                    proof {
                        let a = self@.newer.candidates(hash);
                        let b = o@.candidates(hash);
                        if r2 is Some {
                            lemma_first_match_suffix(a, b, *eq, j);
                        } else {
                            lemma_no_match_concat(a, b, *eq);
                        }
                    }
                    (r2, Ghost(self@.newer.candidates(hash).len() + j))
                },
                None => (None, Ghost(0)),
            },
        }
    }

    /// Finds the first value filed under `hash` that `eq` accepts:
    /// the newer table is searched before the older one.
    pub fn lookup(&mut self, hash: usize, eq: impl Fn(&T) -> bool) -> (r: Option<&T>)
        requires
            old(self)@.wf(),
            accepts_all(eq),
        ensures
            *final(self) == *old(self),
            r matches Some(v) ==> exists|i: int|
                first_match(old(self)@.candidates(hash), eq, i) && old(self)@.candidates(hash)[i]
                    == *v,
            r is None ==> no_match(old(self)@.candidates(hash), eq),
    {
        let (r, Ghost(i)) = self.find(hash, &eq);
        r
    }

    /// Finds the first value filed under `hash` that `eq` accepts, for update in place.
    fn find_mut<'a, F: Fn(&T) -> bool>(&'a mut self, hash: usize, eq: &F) -> (r: (
        Option<&'a mut T>,
        Ghost<int>,
    ))
        requires
            old(self)@.wf(),
            accepts_all(*eq),
        ensures
            r.0 matches Some(v) ==> {
                &&& first_match(old(self)@.candidates(hash), *eq, r.1@)
                &&& old(self)@.candidates(hash)[r.1@] == *v
                &&& final(self)@.candidates(hash) == old(self)@.candidates(hash).update(
                    r.1@,
                    *final(v),
                )
                &&& final(self)@.wf()
                &&& final(self)@.len() == old(self)@.len()
                &&& forall|h: usize|
                    h != hash ==> #[trigger] final(self)@.candidates(h) == old(self)@.candidates(h)
            },
            r.0 is None ==> no_match(old(self)@.candidates(hash), *eq) && final(self)@ == old(
                self,
            )@,
            final(self)@.one_table_changed(old(self)@),
    {
        broadcast use {
            lemma_concat_update_left,
            lemma_concat_update_right,
            TableView::lemma_values_updated,
        };

        let ghost n = self@.newer.candidates(hash);
        let (r, Ghost(i)) = self.newer.find_mut(hash, eq);
        match r {
            Some(v) => {
                proof {
                    if let Some(o) = old(self)@.older {
                        lemma_first_match_prefix(n, o.candidates(hash), *eq, i);
                    }
                }
                (Some(v), Ghost(i))
            },
            None => match self.older.as_mut() {
                Some(o) => {
                    let ghost b = o@.candidates(hash);
                    let (r2, Ghost(j)) = o.find_mut(hash, eq);
                    proof {
                        if r2 is Some {
                            lemma_first_match_suffix(n, b, *eq, j);
                        } else {
                            lemma_no_match_concat(n, b, *eq);
                        }
                    }
                    (r2, Ghost(n.len() + j))
                },
                None => (None, Ghost(0)),
            },
        }
    }

    /// Finds the first value filed under `hash` that `eq` accepts, for update in place:
    /// the newer table is searched before the older one.
    pub fn lookup_mut(&mut self, hash: usize, eq: impl Fn(&T) -> bool) -> (r: Option<&mut T>)
        requires
            old(self)@.wf(),
            accepts_all(eq),
        ensures
            r matches Some(v) ==> exists|i: int|
                {
                    &&& first_match(old(self)@.candidates(hash), eq, i)
                    &&& old(self)@.candidates(hash)[i] == *v
                    &&& final(self)@.candidates(hash) == old(self)@.candidates(hash).update(
                        i,
                        *final(v),
                    )
                },
            r is Some ==> final(self)@.wf() && final(self)@.len() == old(self)@.len(),
            r is Some ==> forall|h: usize|
                h != hash ==> #[trigger] final(self)@.candidates(h) == old(self)@.candidates(h),
            r is None ==> no_match(old(self)@.candidates(hash), eq) && final(self)@ == old(self)@,
            final(self)@.one_table_changed(old(self)@),
    {
        let (r, Ghost(i)) = self.find_mut(hash, &eq);
        r
    }

    /// Unlinks the first value filed under `hash` that `eq` accepts and hands it back.
    fn remove_at<F: Fn(&T) -> bool>(&mut self, hash: usize, eq: &F) -> (r: (Option<T>, Ghost<int>))
        requires
            old(self)@.wf(),
            accepts_all(*eq),
        ensures
            final(self)@.wf(),
            r.0 matches Some(v) ==> {
                &&& first_match(old(self)@.candidates(hash), *eq, r.1@)
                &&& old(self)@.candidates(hash)[r.1@] == v
                &&& final(self)@.candidates(hash) == old(self)@.candidates(hash).remove(r.1@)
                &&& forall|h: usize|
                    h != hash ==> #[trigger] final(self)@.candidates(h) == old(self)@.candidates(h)
                &&& final(self)@.len() + 1 == old(self)@.len()
            },
            r.0 is None ==> no_match(old(self)@.candidates(hash), *eq) && final(self)@ == old(
                self,
            )@,
            final(self)@.one_table_changed(old(self)@),
    {
        let ghost pre = self@;
        let ghost n = self@.newer.candidates(hash);
        let (r, Ghost(i)) = self.newer.remove_at(hash, eq);
        match r {
            Some(v) => {
                proof {
                    if let Some(o) = pre.older {
                        lemma_first_match_prefix(n, o.candidates(hash), *eq, i);
                        assert(self@.candidates(hash) =~= (n + o.candidates(hash)).remove(i));
                    }
                }
                (Some(v), Ghost(i))
            },
            None => match self.older.take() {
                Some(mut o) => {
                    let ghost b = o@.candidates(hash);
                    let (r2, Ghost(j)) = o.remove_at(hash, eq);
                    self.older = Some(o);
                    proof {
                        if r2 is Some {
                            lemma_first_match_suffix(n, b, *eq, j);
                            assert(self@.candidates(hash) =~= (n + b).remove(n.len() + j));
                        } else {
                            lemma_no_match_concat(n, b, *eq);
                        }
                    }
                    (r2, Ghost(n.len() + j))
                },
                None => (None, Ghost(0)),
            },
        }
    }

    /// Unlinks the first value filed under `hash` that `eq` accepts and hands it back:
    /// the newer table is searched before the older one.
    pub fn remove(&mut self, hash: usize, eq: impl Fn(&T) -> bool) -> (r: Option<T>)
        requires
            old(self)@.wf(),
            accepts_all(eq),
        ensures
            final(self)@.wf(),
            r matches Some(v) ==> exists|i: int|
                {
                    &&& first_match(old(self)@.candidates(hash), eq, i)
                    &&& old(self)@.candidates(hash)[i] == v
                    &&& final(self)@.candidates(hash) == old(self)@.candidates(hash).remove(i)
                },
            r is Some ==> final(self)@.len() + 1 == old(self)@.len(),
            r is Some ==> forall|h: usize|
                h != hash ==> #[trigger] final(self)@.candidates(h) == old(self)@.candidates(h),
            r is None ==> no_match(old(self)@.candidates(hash), eq) && final(self)@ == old(self)@,
            final(self)@.one_table_changed(old(self)@),
    {
        let (r, Ghost(i)) = self.remove_at(hash, &eq);
        r
    }
}

/// A stored value is found: after `insert(hash, v)`, a lookup under `hash`
/// with a predicate that always accepts `v` finds a value, whatever rehashing
/// has moved in the meantime.
pub proof fn lemma_lookup_after_insert<T, F: Fn(&T) -> bool>(
    before: MapView<T>,
    after: MapView<T>,
    hash: usize,
    v: T,
    eq: F,
)
    requires
        after.candidates(hash).to_multiset() == before.candidates(hash).to_multiset().insert(v),
        always_accepts(eq, v),
    ensures
        !no_match(after.candidates(hash), eq),
{
    assert(after.candidates(hash).to_multiset().count(v) > 0);
    lemma_accepted_value_matches(after.candidates(hash), eq, v);
}

/// The inserted value itself is found: after `insert(hash, v)`, a lookup under
/// `hash` with a predicate that accepts `v` and rejects every value stored under
/// `hash` before finds `v`, whatever rehashing has moved in the meantime.
pub proof fn lemma_lookup_finds_inserted<T, F: Fn(&T) -> bool>(
    before: MapView<T>,
    after: MapView<T>,
    hash: usize,
    v: T,
    eq: F,
)
    requires
        after.candidates(hash).to_multiset() == before.candidates(hash).to_multiset().insert(v),
        always_accepts(eq, v),
        forall|j: int|
            0 <= j < before.candidates(hash).len() ==> always_rejects(
                eq,
                #[trigger] before.candidates(hash)[j],
            ),
    ensures
        !no_match(after.candidates(hash), eq),
        forall|i: int| first_match(after.candidates(hash), eq, i) ==> after.candidates(hash)[i] == v,
{
    let c = after.candidates(hash);
    let p = before.candidates(hash);
    assert(c.to_multiset().count(v) > 0);
    lemma_accepted_value_matches(c, eq, v);
    assert forall|i: int| first_match(c, eq, i) implies c[i] == v by {
        let x = c[i];
        if x != v {
            assert(c.to_multiset().count(x) > 0);
            assert(p.to_multiset().count(x) > 0);
            assert(p.contains(x));
            let j = choose|j: int| 0 <= j < p.len() && p[j] == x;
            assert(always_rejects(eq, p[j]));
        }
    }
}

/// A value stays stored until it is removed: if `v` is stored under `h` before
/// an insertion, it is stored under `h` after it.
pub proof fn lemma_insert_keeps_values<T>(
    before: MapView<T>,
    after: MapView<T>,
    hash: usize,
    val: T,
    h: usize,
    v: T,
)
    requires
        after.candidates(h).to_multiset() == if h == hash {
            before.candidates(h).to_multiset().insert(val)
        } else {
            before.candidates(h).to_multiset()
        },
        before.candidates(h).contains(v),
    ensures
        after.candidates(h).contains(v),
{
    assert(before.candidates(h).to_multiset().count(v) > 0);
    assert(after.candidates(h).to_multiset().count(v) > 0);
}

/// Each value is removed once: when the value that `remove(hash, eq)` took out
/// was the only one under `hash` that `eq` accepts, nothing under `hash`
/// matches afterwards, so a second removal or a lookup with `eq` finds nothing.
pub proof fn lemma_remove_only_match<T, F: Fn(&T) -> bool>(
    before: MapView<T>,
    after: MapView<T>,
    hash: usize,
    i: int,
    eq: F,
)
    requires
        first_match(before.candidates(hash), eq, i),
        after.candidates(hash) == before.candidates(hash).remove(i),
        forall|j: int|
            0 <= j < before.candidates(hash).len() && j != i ==> eq.ensures(
                (&before.candidates(hash)[j],),
                false,
            ),
    ensures
        no_match(after.candidates(hash), eq),
{
    let c = before.candidates(hash);
    assert forall|j: int| 0 <= j < c.remove(i).len() implies eq.ensures((&c.remove(i)[j],), false) by {
        if j < i {
            assert(c.remove(i)[j] == c[j]);
        } else {
            assert(c.remove(i)[j] == c[j + 1]);
        }
    }
}

/// A fresh map holds nothing: a lookup or removal under any hash code finds nothing.
pub proof fn lemma_empty_map_matches_nothing<T, F: Fn(&T) -> bool>(m: MapView<T>, hash: usize, eq: F)
    requires
        m.candidates(hash) == Seq::<T>::empty(),
    ensures
        no_match(m.candidates(hash), eq),
{
}

} // verus!
