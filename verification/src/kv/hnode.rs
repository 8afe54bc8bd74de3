use vstd::prelude::*;

verus! {

/// One link of a collision chain: a stored value, the full hash code it was
/// filed under, and the rest of the chain.
pub struct HNode<T> {
    pub(crate) next: Option<Box<HNode<T>>>,
    pub(crate) hcode: usize,
    pub(crate) val: T,
}

impl<T> HNode<T> {
    /// A chain of one link.
    pub(crate) fn new(val: T, hcode: usize) -> (node: HNode<T>)
        ensures
            node.next is None,
            node.hcode == hcode,
            node.val == val,
    {
        HNode { next: None, hcode: hcode, val: val }
    }
}

/// `eq` may be called on any value.
pub open spec fn accepts_all<T, F: Fn(&T) -> bool>(eq: F) -> bool {
    forall|v: &T| eq.requires((v,))
}

/// `eq` can answer `false` for every element of `s`.
pub open spec fn no_match<T, F: Fn(&T) -> bool>(s: Seq<T>, eq: F) -> bool {
    forall|j: int| 0 <= j < s.len() ==> eq.ensures((&s[j],), false)
}

/// `s[i]` is the first element of `s` on which `eq` answers `true`:
/// it can answer `true` there and `false` on every earlier element.
pub open spec fn first_match<T, F: Fn(&T) -> bool>(s: Seq<T>, eq: F, i: int) -> bool {
    &&& 0 <= i < s.len()
    &&& eq.ensures((&s[i],), true)
    &&& no_match(s.take(i), eq)
}

/// `eq` answers `true` on `v` whenever it is called on it.
pub open spec fn always_accepts<T, F: Fn(&T) -> bool>(eq: F, v: T) -> bool {
    forall|b: bool| eq.ensures((&v,), b) ==> b
}

/// `eq` answers `false` on `v` whenever it is called on it.
pub open spec fn always_rejects<T, F: Fn(&T) -> bool>(eq: F, v: T) -> bool {
    forall|b: bool| eq.ensures((&v,), b) ==> !b
}

/// A first match in `a` is a first match in `a + b`.
pub proof fn lemma_first_match_prefix<T, F: Fn(&T) -> bool>(a: Seq<T>, b: Seq<T>, eq: F, i: int)
    requires
        first_match(a, eq, i),
    ensures
        first_match(a + b, eq, i),
        (a + b)[i] == a[i],
{
    assert((a + b).take(i) =~= a.take(i));
}

/// When nothing in `a` matches, a first match in `b` is a first match in `a + b`.
pub proof fn lemma_first_match_suffix<T, F: Fn(&T) -> bool>(a: Seq<T>, b: Seq<T>, eq: F, j: int)
    requires
        no_match(a, eq),
        first_match(b, eq, j),
    ensures
        first_match(a + b, eq, a.len() + j),
        (a + b)[a.len() + j] == b[j],
{
    let c = a + b;
    let t = c.take(a.len() + j);
    assert(t =~= a + b.take(j));
    assert forall|k: int| 0 <= k < t.len() implies eq.ensures((&t[k],), false) by {
        if k < a.len() {
            assert(t[k] == a[k]);
        } else {
            assert(t[k] == b.take(j)[k - a.len()]);
        }
    }
}

/// Nothing matches in `a + b` when nothing matches in either part.
pub proof fn lemma_no_match_concat<T, F: Fn(&T) -> bool>(a: Seq<T>, b: Seq<T>, eq: F)
    requires
        no_match(a, eq),
        no_match(b, eq),
    ensures
        no_match(a + b, eq),
{
    assert forall|k: int| 0 <= k < (a + b).len() implies eq.ensures((&(a + b)[k],), false) by {
        if k < a.len() {
            assert((a + b)[k] == a[k]);
        } else {
            assert((a + b)[k] == b[k - a.len()]);
        }
    }
}

/// A sequence holding a value that `eq` always accepts has something `eq` matches.
pub proof fn lemma_accepted_value_matches<T, F: Fn(&T) -> bool>(s: Seq<T>, eq: F, v: T)
    requires
        s.contains(v),
        always_accepts(eq, v),
    ensures
        !no_match(s, eq),
{
    let j = choose|j: int| 0 <= j < s.len() && s[j] == v;
    assert(!eq.ensures((&s[j],), false));
}

/// Replacing an element of the first part of a concatenation.
pub broadcast proof fn lemma_concat_update_left<T>(a: Seq<T>, b: Seq<T>, k: int, x: T)
    requires
        0 <= k < a.len(),
    ensures
        #[trigger] (a.update(k, x) + b) == (a + b).update(k, x),
{
    assert(a.update(k, x) + b =~= (a + b).update(k, x));
}

/// Replacing an element of the second part of a concatenation.
pub broadcast proof fn lemma_concat_update_right<T>(a: Seq<T>, b: Seq<T>, k: int, x: T)
    requires
        0 <= k < b.len(),
    ensures
        #[trigger] (a + b.update(k, x)) == (a + b).update(a.len() + k, x),
{
    assert(a + b.update(k, x) =~= (a + b).update(a.len() + k, x));
}

/// Number of links in a chain.
pub(crate) open spec fn chain_len<T>(node: Option<Box<HNode<T>>>) -> nat
    decreases node,
{
    match node {
        None => 0,
        Some(n) => 1 + chain_len(n.next),
    }
}

/// The values filed under hash code `h` in a chain, head first.
pub(crate) open spec fn chain_cands<T>(node: Option<Box<HNode<T>>>, h: usize) -> Seq<T>
    decreases node,
{
    match node {
        None => Seq::empty(),
        Some(n) => if n.hcode == h {
            seq![n.val] + chain_cands(n.next, h)
        } else {
            chain_cands(n.next, h)
        },
    }
}

/// Every link of the chain belongs in slot `s` of a table with mask `mask`.
pub(crate) open spec fn chain_in_slot<T>(node: Option<Box<HNode<T>>>, mask: usize, s: int) -> bool
    decreases node,
{
    match node {
        None => true,
        Some(n) => (n.hcode & mask) == s && chain_in_slot(n.next, mask, s),
    }
}

/// `b` has the links of `a`, in the same order and under the same hash codes;
/// only values filed under `h` may differ.
pub(crate) open spec fn links_agree<T>(a: Option<Box<HNode<T>>>, b: Option<Box<HNode<T>>>, h: usize) -> bool
    decreases a,
{
    match a {
        None => b is None,
        Some(x) => match b {
            None => false,
            Some(y) => x.hcode == y.hcode && (x.hcode != h ==> x.val == y.val) && links_agree(
                x.next,
                y.next,
                h,
            ),
        },
    }
}

pub(crate) proof fn lemma_links_agree_refl<T>(a: Option<Box<HNode<T>>>, h: usize)
    ensures
        links_agree(a, a, h),
    decreases a,
{
    if let Some(x) = a {
        lemma_links_agree_refl(x.next, h);
    }
}

/// Chains whose links agree outside hash code `h` hold the same values under every other code.
pub(crate) broadcast proof fn lemma_links_agree_cands<T>(
    a: Option<Box<HNode<T>>>,
    b: Option<Box<HNode<T>>>,
    h: usize,
    h2: usize,
)
    requires
        #[trigger] links_agree(a, b, h),
        h2 != h,
    ensures
        #[trigger] chain_cands(b, h2) == chain_cands(a, h2),
    decreases a,
{
    if let Some(x) = a {
        lemma_links_agree_cands(x.next, b.unwrap().next, h, h2);
    }
}

/// Chains whose links agree have the same length.
pub(crate) broadcast proof fn lemma_links_agree_len<T>(
    a: Option<Box<HNode<T>>>,
    b: Option<Box<HNode<T>>>,
    h: usize,
)
    requires
        #[trigger] links_agree(a, b, h),
    ensures
        chain_len(b) == chain_len(a),
        b is None <==> a is None,
    decreases a,
{
    if let Some(x) = a {
        lemma_links_agree_len(x.next, b.unwrap().next, h);
    }
}

/// Chains whose links agree belong in the same slots.
pub(crate) broadcast proof fn lemma_links_agree_in_slot<T>(
    a: Option<Box<HNode<T>>>,
    b: Option<Box<HNode<T>>>,
    h: usize,
    m: usize,
    s: int,
)
    requires
        #[trigger] links_agree(a, b, h),
        chain_in_slot(a, m, s),
    ensures
        #[trigger] chain_in_slot(b, m, s),
    decreases a,
{
    if let Some(x) = a {
        lemma_links_agree_in_slot(x.next, b.unwrap().next, h, m, s);
    }
}

/// Finds the first value filed under `h` that `eq` accepts.
pub(crate) fn chain_find<'a, T, F: Fn(&T) -> bool>(
    node: &'a Option<Box<HNode<T>>>,
    h: usize,
    eq: &F,
) -> (r: (Option<&'a T>, Ghost<int>))
    requires
        accepts_all(*eq),
    ensures
        r.0 matches Some(v) ==> first_match(chain_cands(*node, h), *eq, r.1@) && chain_cands(
            *node,
            h,
        )[r.1@] == *v,
        r.0 is None ==> no_match(chain_cands(*node, h), *eq),
    decreases *node,
{
    match node {
        None => (None, Ghost(0)),
        Some(n) => {
            if n.hcode == h && eq(&n.val) {
                proof {
                    assert(first_match(chain_cands(*node, h), *eq, 0));
                }
                (Some(&n.val), Ghost(0))
            } else {
                let (r, Ghost(i)) = chain_find(&n.next, h, eq);
                proof {
                    let c = chain_cands(*node, h);
                    let t = chain_cands(n.next, h);
                    if n.hcode == h {
                        assert(c == seq![n.val] + t);
                        if r is Some {
                            assert(c.take(i + 1) =~= seq![n.val] + t.take(i));
                        }
                    }
                }
                if n.hcode == h {
                    (r, Ghost(i + 1))
                } else {
                    (r, Ghost(i))
                }
            }
        }
    }
}

/// Finds the first value filed under `h` that `eq` accepts, for update in place.
pub(crate) fn chain_find_mut<'a, T, F: Fn(&T) -> bool>(
    node: &'a mut Option<Box<HNode<T>>>,
    h: usize,
    eq: &F,
) -> (r: (Option<&'a mut T>, Ghost<int>))
    requires
        accepts_all(*eq),
    ensures
        r.0 matches Some(v) ==> {
            &&& first_match(chain_cands(*old(node), h), *eq, r.1@)
            &&& chain_cands(*old(node), h)[r.1@] == *v
            &&& chain_cands(*final(node), h) == chain_cands(*old(node), h).update(r.1@, *final(v))
            &&& links_agree(*old(node), *final(node), h)
        },
        r.0 is None ==> no_match(chain_cands(*old(node), h), *eq) && *final(node) == *old(node),
    decreases *old(node),
{
    match node {
        None => (None, Ghost(0)),
        Some(n) => {
            if n.hcode == h && eq(&n.val) {
                proof {
                    assert(first_match(chain_cands(*old(node), h), *eq, 0));
                    lemma_links_agree_refl(n.next, h);
                }
                (Some(&mut n.val), Ghost(0))
            } else {
                let ghost old_next = n.next;
                let (r, Ghost(i)) = chain_find_mut(&mut n.next, h, eq);
                proof {
                    let c = chain_cands(*old(node), h);
                    let t = chain_cands(old_next, h);
                    if n.hcode == h {
                        assert(c == seq![n.val] + t);
                        if r is Some {
                            assert(c.take(i + 1) =~= seq![n.val] + t.take(i));
                        }
                    }
                }
                if n.hcode == h {
                    (r, Ghost(i + 1))
                } else {
                    (r, Ghost(i))
                }
            }
        }
    }
}

/// Unlinks the first value filed under `h` that `eq` accepts, and hands it back.
pub(crate) fn chain_remove<T, F: Fn(&T) -> bool>(
    node: &mut Option<Box<HNode<T>>>,
    h: usize,
    eq: &F,
) -> (r: (Option<T>, Ghost<int>))
    requires
        accepts_all(*eq),
    ensures
        r.0 matches Some(v) ==> {
            &&& first_match(chain_cands(*old(node), h), *eq, r.1@)
            &&& chain_cands(*old(node), h)[r.1@] == v
            &&& chain_cands(*final(node), h) == chain_cands(*old(node), h).remove(r.1@)
            &&& forall|h2: usize|
                h2 != h ==> #[trigger] chain_cands(*final(node), h2) == chain_cands(*old(node), h2)
            &&& chain_len(*final(node)) + 1 == chain_len(*old(node))
            &&& forall|m: usize, s: int|
                chain_in_slot(*old(node), m, s) ==> #[trigger] chain_in_slot(*final(node), m, s)
        },
        r.0 is None ==> no_match(chain_cands(*old(node), h), *eq) && *final(node) == *old(node),
    decreases *old(node),
{
    match node.take() {
        None => (None, Ghost(0)),
        Some(mut b) => {
            if b.hcode == h && eq(&b.val) {
                let ghost c = chain_cands(*old(node), h);
                let HNode { next, hcode: _, val } = *b;
                *node = next;
                proof {
                    assert(first_match(c, *eq, 0));
                    assert(c.remove(0) =~= chain_cands(*node, h));
                    assert forall|h2: usize| h2 != h implies #[trigger] chain_cands(*node, h2)
                        == chain_cands(*old(node), h2) by {}
                    assert forall|m: usize, s: int| chain_in_slot(*old(node), m, s) implies #[trigger] chain_in_slot(*node, m, s) by {}
                }
                (Some(val), Ghost(0))
            } else {
                let ghost old_next = b.next;
                let (r, Ghost(i)) = chain_remove(&mut b.next, h, eq);
                proof {
                    let c = chain_cands(*old(node), h);
                    let t = chain_cands(old_next, h);
                    if b.hcode == h {
                        assert(c == seq![b.val] + t);
                        if r is Some {
                            assert(c.take(i + 1) =~= seq![b.val] + t.take(i));
                            assert(c.remove(i + 1) =~= seq![b.val] + t.remove(i));
                        }
                    }
                }
                let here = b.hcode == h;
                let ghost bh = b.hcode;
                let ghost bv = b.val;
                let ghost new_next = b.next;
                *node = Some(b);
                proof {
                    assert forall|h2: usize| h2 != h implies #[trigger] chain_cands(*node, h2)
                        == chain_cands(*old(node), h2) by {
                        if r is Some {
                            assert(chain_cands(new_next, h2) == chain_cands(old_next, h2));
                        }
                    }
                    assert forall|m: usize, s: int| chain_in_slot(*old(node), m, s) implies #[trigger] chain_in_slot(*node, m, s) by {
                        assert(chain_in_slot(old_next, m, s));
                        if r is None {
                            assert(new_next == old_next);
                        }
                        assert(chain_in_slot(new_next, m, s));
                    }
                }
                if here {
                    (r, Ghost(i + 1))
                } else {
                    (r, Ghost(i))
                }
            }
        }
    }
}

} // verus!
