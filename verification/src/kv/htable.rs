use vstd::prelude::*;

use super::hnode::{
    HNode,
    accepts_all,
    always_accepts,
    no_match,
    first_match,
    chain_len,
    chain_cands,
    chain_in_slot,
    links_agree,
    chain_find,
    chain_find_mut,
    chain_remove,
    lemma_links_agree_cands,
    lemma_links_agree_len,
    lemma_links_agree_in_slot,
    lemma_links_agree_refl,
};

verus! {

/// The most slots a table may have: its slot array must fit in `isize::MAX` bytes.
pub open spec fn max_slots() -> nat {
    (isize::MAX as nat) / 8
}

/// `n` is a power of two.
pub open spec fn is_pow2(n: nat) -> bool
    decreases n,
{
    if n == 1 {
        true
    } else if n < 2 || n % 2 != 0 {
        false
    } else {
        is_pow2(n / 2)
    }
}

/// Doubling a power of two gives a power of two.
pub proof fn lemma_pow2_double(n: nat)
    requires
        is_pow2(n),
    ensures
        is_pow2(2 * n),
{
    assert((2 * n) / 2 == n);
}

proof fn lemma_and_le(h: usize, m: usize)
    ensures
        h & m <= m,
{
    assert(h & m <= m) by (bit_vector);
}

/// Total number of links over all chains.
pub(crate) open spec fn chains_len<T>(s: Seq<Option<Box<HNode<T>>>>) -> nat
    decreases s.len(),
{
    if s.len() == 0 {
        0
    } else {
        chains_len(s.drop_last()) + chain_len(s.last())
    }
}

proof fn lemma_chains_len_update<T>(s: Seq<Option<Box<HNode<T>>>>, i: int, x: Option<Box<HNode<T>>>)
    requires
        0 <= i < s.len(),
    ensures
        chains_len(s.update(i, x)) + chain_len(s[i]) == chains_len(s) + chain_len(x),
    decreases s.len(),
{
    if i == s.len() - 1 {
        assert(s.update(i, x).drop_last() =~= s.drop_last());
    } else {
        lemma_chains_len_update(s.drop_last(), i, x);
        assert(s.update(i, x).drop_last() =~= s.drop_last().update(i, x));
    }
}

proof fn lemma_chains_len_ge<T>(s: Seq<Option<Box<HNode<T>>>>, i: int)
    requires
        0 <= i < s.len(),
    ensures
        chain_len(s[i]) <= chains_len(s),
    decreases s.len(),
{
    if i < s.len() - 1 {
        lemma_chains_len_ge(s.drop_last(), i);
    }
}

proof fn lemma_chains_len_all_none<T>(s: Seq<Option<Box<HNode<T>>>>)
    requires
        forall|i: int| 0 <= i < s.len() ==> s[i] is None,
    ensures
        chains_len(s) == 0,
    decreases s.len(),
{
    if s.len() > 0 {
        lemma_chains_len_all_none(s.drop_last());
    }
}

/// Replacing one slot's chain by a chain that belongs in that slot keeps every
/// chain in its slot.
proof fn lemma_slot_replaced<T>(
    tab: Seq<Option<Box<HNode<T>>>>,
    pos: int,
    head: Option<Box<HNode<T>>>,
    mask: usize,
)
    requires
        0 <= pos < tab.len(),
        forall|s: int| 0 <= s < tab.len() ==> chain_in_slot(#[trigger] tab[s], mask, s),
        chain_in_slot(head, mask, pos),
    ensures
        forall|s: int|
            0 <= s < tab.len() ==> chain_in_slot(#[trigger] tab.update(pos, head)[s], mask, s),
{
}

/// A fixed-size hash table with chaining. A value is filed under a hash code,
/// in the slot picked by the code's low bits, at the head of that slot's chain.
pub struct HTab<T> {
    pub(crate) tab: Vec<Option<Box<HNode<T>>>>,
    pub(crate) mask: usize,
    pub(crate) size: usize,
}

/// What a table holds: its chains, slot mask and value count.
pub struct TableView<T> {
    pub(crate) slots: Seq<Option<Box<HNode<T>>>>,
    pub(crate) mask: usize,
    pub(crate) size: usize,
}

impl<T> View for HTab<T> {
    type V = TableView<T>;

    closed spec fn view(&self) -> TableView<T> {
        TableView { slots: self.tab@, mask: self.mask, size: self.size }
    }
}

impl<T> TableView<T> {
    /// The table's shape holds together: a power-of-two slot count, every link
    /// in the slot its hash code picks, and the count matching the links.
    pub closed spec fn wf(self) -> bool {
        &&& self.slots.len() == self.mask + 1
        &&& is_pow2(self.mask as nat + 1)
        &&& self.mask + 1 <= max_slots()
        &&& forall|s: int|
            0 <= s < self.slots.len() ==> chain_in_slot(#[trigger] self.slots[s], self.mask, s)
        &&& self.size == chains_len(self.slots)
    }

    /// Number of slots.
    pub closed spec fn capacity(self) -> nat {
        self.mask as nat + 1
    }

    /// Number of stored values.
    pub closed spec fn len(self) -> nat {
        self.size as nat
    }

    /// The slot that hash code `h` picks.
    pub closed spec fn slot_of(self, h: usize) -> int {
        (h & self.mask) as int
    }

    /// The values filed under hash code `h`, in the order a search visits them.
    pub closed spec fn candidates(self, h: usize) -> Seq<T> {
        chain_cands(self.slots[self.slot_of(h)], h)
    }

    /// Slot `s` holds no value.
    pub closed spec fn slot_empty(self, s: int) -> bool {
        self.slots[s] is None
    }

    /// `self` is `old` with at most the values filed under `hash` replaced in place.
    pub closed spec fn values_updated_from(self, old: Self, hash: usize) -> bool {
        let pos = old.slot_of(hash);
        &&& self.mask == old.mask
        &&& self.size == old.size
        &&& self.slots == old.slots.update(pos, self.slots[pos])
        &&& links_agree(old.slots[pos], self.slots[pos], hash)
    }

    /// Updating values in place keeps the shape, the size, every slot's
    /// emptiness, and the values filed under every other hash code.
    pub broadcast proof fn lemma_values_updated(self, old: Self, hash: usize)
        requires
            #[trigger] self.values_updated_from(old, hash),
            old.wf(),
        ensures
            self.wf(),
            self.capacity() == old.capacity(),
            self.len() == old.len(),
            forall|h: usize| h != hash ==> #[trigger] self.candidates(h) == old.candidates(h),
            forall|s: int|
                0 <= s < old.capacity() ==> (#[trigger] self.slot_empty(s) <==> old.slot_empty(s)),
    {
        broadcast use {lemma_links_agree_cands, lemma_links_agree_len, lemma_links_agree_in_slot};

        let pos = old.slot_of(hash);
        lemma_and_le(hash, old.mask);
        assert forall|s: int| 0 <= s < self.slots.len() implies chain_in_slot(
            #[trigger] self.slots[s],
            self.mask,
            s,
        ) by {
            if s == pos {
                assert(chain_in_slot(old.slots[s], old.mask, s));
            }
        }
        lemma_chains_len_update(old.slots, pos, self.slots[pos]);
        assert forall|h: usize| h != hash implies #[trigger] self.candidates(h) == old.candidates(
            h,
        ) by {
            lemma_and_le(h, old.mask);
            if self.slot_of(h) == pos {
                lemma_links_agree_cands(old.slots[pos], self.slots[pos], hash, h);
            }
        }
    }

    /// A well-formed table has a power-of-two number of slots, within the limit.
    pub proof fn lemma_capacity(self)
        requires
            self.wf(),
        ensures
            is_pow2(self.capacity()),
            1 <= self.capacity() <= max_slots(),
    {
    }

    /// A table whose slots are all empty holds nothing.
    pub proof fn lemma_all_slots_empty(self)
        requires
            self.wf(),
            forall|s: int| 0 <= s < self.capacity() ==> #[trigger] self.slot_empty(s),
        ensures
            self.len() == 0,
            forall|h: usize| #[trigger] self.candidates(h) == Seq::<T>::empty(),
    {
        assert forall|i: int| 0 <= i < self.slots.len() implies self.slots[i] is None by {
            assert(self.slot_empty(i));
        }
        lemma_chains_len_all_none(self.slots);
        assert forall|h: usize| #[trigger] self.candidates(h) == Seq::<T>::empty() by {
            lemma_and_le(h, self.mask);
            assert(self.slot_empty(self.slot_of(h)));
        }
    }
}

impl<T: Clone> HTab<T> {
    /// An empty table with `capacity` slots.
    pub fn with_capacity(capacity: usize) -> (t: Self)
        requires
            is_pow2(capacity as nat),
            capacity <= max_slots(),
        ensures
            t@.wf(),
            t@.capacity() == capacity,
            t@.len() == 0,
            forall|h: usize| #[trigger] t@.candidates(h) == Seq::<T>::empty(),
            forall|s: int| 0 <= s < capacity ==> #[trigger] t@.slot_empty(s),
    {
        let mut tab: Vec<Option<Box<HNode<T>>>> = Vec::new();
        let mut i: usize = 0;
        while i < capacity
            invariant
                i <= capacity,
                tab@.len() == i,
                forall|s: int| 0 <= s < i ==> tab@[s] is None,
            decreases capacity - i,
        {
            tab.push(None);
            i = i + 1;
        }
        proof {
            lemma_chains_len_all_none(tab@);
        }
        let t = HTab { tab: tab, mask: capacity - 1, size: 0 };
        proof {
            assert forall|h: usize| #[trigger] t@.candidates(h) == Seq::<T>::empty() by {
                lemma_and_le(h, t.mask);
            }
        }
        t
    }

    /// Files `val` under `hash`, at the head of its chain.
    pub fn insert(&mut self, hash: usize, val: T)
        requires
            old(self)@.wf(),
            old(self)@.len() < usize::MAX,
        ensures
            final(self)@.wf(),
            final(self)@.capacity() == old(self)@.capacity(),
            final(self)@.len() == old(self)@.len() + 1,
            final(self)@.candidates(hash) == seq![val] + old(self)@.candidates(hash),
            forall|h: usize| h != hash ==> #[trigger] final(self)@.candidates(h) == old(self)@.candidates(h),
    {
        let mut node = HNode::new(val, hash);
        let pos = hash & self.mask;
        proof {
            lemma_and_le(hash, self.mask);
        }
        let ghost old_tab = self.tab@;
        let slot = &mut self.tab[pos];
        node.next = slot.take();
        *slot = Some(Box::new(node));
        self.size = self.size + 1;
        proof {
            let new_head = self.tab@[pos as int];
            assert(self.tab@ == old_tab.update(pos as int, new_head));
            lemma_chains_len_update(old_tab, pos as int, new_head);
            assert(chain_in_slot(old_tab[pos as int], self.mask, pos as int));
            lemma_slot_replaced(old_tab, pos as int, new_head, self.mask);
            assert forall|h: usize| h != hash implies #[trigger] self@.candidates(h)
                == old(self)@.candidates(h) by {
                lemma_and_le(h, self.mask);
            }
        }
    }

    /// Finds the first value filed under `hash` that `eq` accepts, searching from the chain's head.
    pub(crate) fn find<'a, F: Fn(&T) -> bool>(&'a self, hash: usize, eq: &F) -> (r: (
        Option<&'a T>,
        Ghost<int>,
    ))
        requires
            self@.wf(),
            accepts_all(*eq),
        ensures
            r.0 matches Some(v) ==> first_match(self@.candidates(hash), *eq, r.1@)
                && self@.candidates(hash)[r.1@] == *v,
            r.0 is None ==> no_match(self@.candidates(hash), *eq),
    {
        let pos = hash & self.mask;
        proof {
            lemma_and_le(hash, self.mask);
        }
        chain_find(&self.tab[pos], hash, eq)
    }

    /// Finds the first value filed under `hash` that `eq` accepts, searching from the chain's head.
    pub fn lookup(&mut self, hash: usize, eq: impl Fn(&T) -> bool) -> (r: Option<&T>)
        requires
            old(self)@.wf(),
            accepts_all(eq),
        ensures
            *final(self) == *old(self),
            r matches Some(v) ==> exists|i: int|
                first_match(old(self)@.candidates(hash), eq, i) && old(self)@.candidates(hash)[i]
                    == *v,
            r is None ==> no_match(old(self)@.candidates(hash), eq),
    {
        let (r, Ghost(i)) = self.find(hash, &eq);
        r
    }

    /// Finds the first value filed under `hash` that `eq` accepts, for update in place.
    pub(crate) fn find_mut<'a, F: Fn(&T) -> bool>(&'a mut self, hash: usize, eq: &F) -> (r: (
        Option<&'a mut T>,
        Ghost<int>,
    ))
        requires
            old(self)@.wf(),
            accepts_all(*eq),
        ensures
            r.0 matches Some(v) ==> {
                &&& first_match(old(self)@.candidates(hash), *eq, r.1@)
                &&& old(self)@.candidates(hash)[r.1@] == *v
                &&& final(self)@.candidates(hash) == old(self)@.candidates(hash).update(
                    r.1@,
                    *final(v),
                )
                &&& final(self)@.values_updated_from(old(self)@, hash)
            },
            r.0 is None ==> no_match(old(self)@.candidates(hash), *eq) && final(self)@ == old(self)@,
    {
        let pos = hash & self.mask;
        proof {
            lemma_and_le(hash, self.mask);
            lemma_links_agree_refl(self.tab@[pos as int], hash);
            assert(self.tab@.update(pos as int, self.tab@[pos as int]) =~= self.tab@);
        }
        chain_find_mut(&mut self.tab[pos], hash, eq)
    }

    /// Finds the first value filed under `hash` that `eq` accepts, for update in place.
    pub fn lookup_mut(&mut self, hash: usize, eq: impl Fn(&T) -> bool) -> (r: Option<&mut T>)
        requires
            old(self)@.wf(),
            accepts_all(eq),
        ensures
            r matches Some(v) ==> exists|i: int|
                {
                    &&& first_match(old(self)@.candidates(hash), eq, i)
                    &&& old(self)@.candidates(hash)[i] == *v
                    &&& final(self)@.candidates(hash) == old(self)@.candidates(hash).update(
                        i,
                        *final(v),
                    )
                },
            r matches Some(v) ==> final(self)@.values_updated_from(old(self)@, hash),
            r is None ==> no_match(old(self)@.candidates(hash), eq) && final(self)@ == old(self)@,
    {
        let (r, Ghost(i)) = self.find_mut(hash, &eq);
        r
    }

    /// Unlinks the first value filed under `hash` that `eq` accepts and hands it back.
    pub(crate) fn remove_at<F: Fn(&T) -> bool>(&mut self, hash: usize, eq: &F) -> (r: (
        Option<T>,
        Ghost<int>,
    ))
        requires
            old(self)@.wf(),
            accepts_all(*eq),
        ensures
            final(self)@.wf(),
            final(self)@.capacity() == old(self)@.capacity(),
            r.0 matches Some(v) ==> {
                &&& first_match(old(self)@.candidates(hash), *eq, r.1@)
                &&& old(self)@.candidates(hash)[r.1@] == v
                &&& final(self)@.candidates(hash) == old(self)@.candidates(hash).remove(r.1@)
                &&& forall|h: usize|
                    h != hash ==> #[trigger] final(self)@.candidates(h) == old(self)@.candidates(h)
                &&& final(self)@.len() + 1 == old(self)@.len()
                &&& forall|s: int|
                    0 <= s < old(self)@.capacity() && old(self)@.slot_empty(s)
                        ==> #[trigger] final(self)@.slot_empty(s)
            },
            r.0 is None ==> no_match(old(self)@.candidates(hash), *eq) && final(self)@ == old(self)@,
    {
        let pos = hash & self.mask;
        proof {
            lemma_and_le(hash, self.mask);
        }
        let ghost old_tab = self.tab@;
        proof {
            assert(old_tab.update(pos as int, old_tab[pos as int]) =~= old_tab);
        }
        let slot = &mut self.tab[pos];
        let (r, Ghost(i)) = chain_remove(slot, hash, eq);
        if r.is_some() {
            proof {
                lemma_chains_len_ge(old_tab, pos as int);
            }
            self.size = self.size - 1;
        }
        proof {
            let new_head = self.tab@[pos as int];
            assert(self.tab@ == old_tab.update(pos as int, new_head));
            lemma_chains_len_update(old_tab, pos as int, new_head);
            assert(chain_in_slot(old_tab[pos as int], self.mask, pos as int));
            lemma_slot_replaced(old_tab, pos as int, new_head, self.mask);
            if r is Some {
                assert forall|h: usize| h != hash implies #[trigger] self@.candidates(h)
                    == old(self)@.candidates(h) by {
                    lemma_and_le(h, self.mask);
                    if self@.slot_of(h) == pos {
                        assert(chain_cands(new_head, h) == chain_cands(old_tab[pos as int], h));
                    }
                }
            }
        }
        (r, Ghost(i))
    }

    /// Unlinks the first value filed under `hash` that `eq` accepts and hands it back.
    pub fn remove(&mut self, hash: usize, eq: impl Fn(&T) -> bool) -> (r: Option<T>)
        requires
            old(self)@.wf(),
            accepts_all(eq),
        ensures
            final(self)@.wf(),
            final(self)@.capacity() == old(self)@.capacity(),
            r matches Some(v) ==> exists|i: int|
                {
                    &&& first_match(old(self)@.candidates(hash), eq, i)
                    &&& old(self)@.candidates(hash)[i] == v
                    &&& final(self)@.candidates(hash) == old(self)@.candidates(hash).remove(i)
                },
            r is Some ==> final(self)@.len() + 1 == old(self)@.len(),
            r is Some ==> forall|h: usize|
                h != hash ==> #[trigger] final(self)@.candidates(h) == old(self)@.candidates(h),
            r is None ==> no_match(old(self)@.candidates(hash), eq) && final(self)@ == old(self)@,
    {
        let (r, Ghost(i)) = self.remove_at(hash, &eq);
        r
    }

    /// Number of stored values.
    pub(crate) fn entry_count(&self) -> (n: usize)
        ensures
            n == self@.len(),
    {
        self.size
    }

    /// Number of slots.
    pub(crate) fn slot_count(&self) -> (n: usize)
        requires
            self@.wf(),
        ensures
            n == self@.capacity(),
    {
        self.mask + 1
    }

    /// Unlinks the head of slot `pos` and hands back its hash code and value.
    pub(crate) fn take_head(&mut self, pos: usize) -> (r: Option<(usize, T)>)
        requires
            old(self)@.wf(),
            pos < old(self)@.capacity(),
        ensures
            final(self)@.wf(),
            final(self)@.capacity() == old(self)@.capacity(),
            r is None <==> old(self)@.slot_empty(pos as int),
            r is None ==> final(self)@ == old(self)@,
            r matches Some((hc, v)) ==> {
                &&& old(self)@.slot_of(hc) == pos
                &&& old(self)@.candidates(hc) == seq![v] + final(self)@.candidates(hc)
                &&& forall|h: usize|
                    h != hc ==> #[trigger] final(self)@.candidates(h) == old(self)@.candidates(h)
                &&& final(self)@.len() + 1 == old(self)@.len()
                &&& forall|s: int|
                    0 <= s < old(self)@.capacity() && s != pos ==> (#[trigger] final(self)@.slot_empty(s)
                        <==> old(self)@.slot_empty(s))
            },
    {
        let ghost old_tab = self.tab@;
        proof {
            assert(old_tab.update(pos as int, old_tab[pos as int]) =~= old_tab);
        }
        let slot = &mut self.tab[pos];
        match slot.take() {
            None => None,
            Some(b) => {
                let HNode { next, hcode, val } = *b;
                *slot = next;
                proof {
                    assert(chain_in_slot(old_tab[pos as int], self.mask, pos as int));
                    lemma_chains_len_update(old_tab, pos as int, self.tab@[pos as int]);
                    lemma_chains_len_ge(old_tab, pos as int);
                }
                self.size = self.size - 1;
                proof {
                    lemma_slot_replaced(old_tab, pos as int, self.tab@[pos as int], self.mask);
                    assert forall|h: usize| h != hcode implies #[trigger] self@.candidates(h)
                        == old(self)@.candidates(h) by {
                        lemma_and_le(h, self.mask);
                    }
                }
                Some((hcode, val))
            },
        }
    }
}

/// Newest first: right after `insert(hash, v)`, a lookup under `hash` with a
/// predicate that always accepts `v` finds `v` itself.
pub proof fn lemma_lookup_finds_newest<T, F: Fn(&T) -> bool>(
    before: TableView<T>,
    after: TableView<T>,
    hash: usize,
    v: T,
    eq: F,
)
    requires
        after.candidates(hash) == seq![v] + before.candidates(hash),
        always_accepts(eq, v),
    ensures
        !no_match(after.candidates(hash), eq),
        forall|i: int| first_match(after.candidates(hash), eq, i) ==> after.candidates(hash)[i] == v,
{
    let c = after.candidates(hash);
    assert(c[0] == v);
    assert(!eq.ensures((&c[0],), false));
    assert forall|i: int| first_match(c, eq, i) implies c[i] == v by {
        if i > 0 {
            assert(c.take(i)[0] == c[0]);
        }
    }
}

} // verus!
