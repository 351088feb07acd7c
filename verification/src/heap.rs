//! A binary min-heap of expiring keys, ordered by expiry time.
//!
//! The entry that expires first is always at the root, so it can be
//! looked at in constant time and removed in logarithmic time.
use vstd::multiset::Multiset;
use vstd::prelude::*;

use crate::expiring_key::ExpiringKey;

verus! {

broadcast use {vstd::seq_lib::group_to_multiset_ensures, vstd::multiset::group_multiset_axioms};

/// Entry `i` (not the root) expires no earlier than its parent.
pub open spec fn ordered_at<K>(s: Seq<ExpiringKey<K>>, i: int) -> bool {
    s[(i - 1) / 2].expiry_time <= s[i].expiry_time
}

/// The heap property of a sequence laid out as a complete binary tree.
pub open spec fn is_heap<K>(s: Seq<ExpiringKey<K>>) -> bool {
    forall|i: int| 0 < i < s.len() ==> #[trigger] ordered_at(s, i)
}

/// `e` expires no later than any entry of `m`.
pub open spec fn is_earliest<K>(m: Multiset<ExpiringKey<K>>, e: ExpiringKey<K>) -> bool {
    forall|x: ExpiringKey<K>| #[trigger] m.contains(x) ==> e.expiry_time <= x.expiry_time
}

/// `s` with the entries at `i` and `j` exchanged.
pub open spec fn swapped<T>(s: Seq<T>, i: int, j: int) -> Seq<T> {
    s.update(i, s[j]).update(j, s[i])
}

/// The heap property holds everywhere but between `pos` and its parent, and
/// the children of `pos` expire no earlier than the parent of `pos`.
spec fn sifting_up<K>(s: Seq<ExpiringKey<K>>, pos: int) -> bool {
    &&& forall|i: int| 0 < i < s.len() && i != pos ==> #[trigger] ordered_at(s, i)
    &&& pos > 0 ==> forall|i: int|
        0 < i < s.len() && (i - 1) / 2 == pos ==> s[(pos - 1) / 2].expiry_time
            <= #[trigger] s[i].expiry_time
}

/// The heap property holds everywhere but between `pos` and its children,
/// and the children of `pos` expire no earlier than the parent of `pos`.
spec fn sifting_down<K>(s: Seq<ExpiringKey<K>>, pos: int) -> bool {
    &&& forall|i: int| 0 < i < s.len() && (i - 1) / 2 != pos ==> #[trigger] ordered_at(s, i)
    &&& pos > 0 ==> forall|i: int|
        0 < i < s.len() && (i - 1) / 2 == pos ==> s[(pos - 1) / 2].expiry_time
            <= #[trigger] s[i].expiry_time
}

/// The root of a heap expires no later than the entry at `j`.
proof fn lemma_root_le<K>(s: Seq<ExpiringKey<K>>, j: int)
    requires
        is_heap(s),
        0 <= j < s.len(),
    ensures
        s[0].expiry_time <= s[j].expiry_time,
    decreases j,
{
    if j > 0 {
        lemma_root_le(s, (j - 1) / 2);
        assert(ordered_at(s, j));
    }
}

/// The root of a non-empty heap is one of its entries and the earliest one.
proof fn lemma_root_earliest<K>(s: Seq<ExpiringKey<K>>)
    requires
        is_heap(s),
        s.len() > 0,
    ensures
        s.to_multiset().contains(s[0]),
        is_earliest(s.to_multiset(), s[0]),
{
    assert(s.contains(s[0]));
    assert forall|x: ExpiringKey<K>| #[trigger] s.to_multiset().contains(x) implies s[0].expiry_time
        <= x.expiry_time by {
        assert(s.contains(x));
        let j = choose|j: int| 0 <= j < s.len() && s[j] == x;
        lemma_root_le(s, j);
    }
}

/// Exchanging two entries keeps the multiset of entries.
proof fn lemma_swapped_multiset<T>(s: Seq<T>, i: int, j: int)
    requires
        0 <= i < s.len(),
        0 <= j < s.len(),
    ensures
        swapped(s, i, j).to_multiset() =~= s.to_multiset(),
{
    let t1 = s.update(i, s[j]);
    assert(t1.to_multiset() =~= s.to_multiset().insert(s[j]).remove(s[i]));
    assert(t1.update(j, s[i]).to_multiset() =~= t1.to_multiset().insert(s[i]).remove(t1[j]));
    if i == j {
        assert(swapped(s, i, j) =~= s);
    }
}

proof fn lemma_sift_up_step<K>(s: Seq<ExpiringKey<K>>, pos: int)
    requires
        0 < pos < s.len(),
        sifting_up(s, pos),
        s[pos].expiry_time < s[(pos - 1) / 2].expiry_time,
    ensures
        sifting_up(swapped(s, (pos - 1) / 2, pos), (pos - 1) / 2),
{
    let p = (pos - 1) / 2;
    let t = swapped(s, p, pos);
    assert forall|i: int| 0 < i < t.len() && i != p implies #[trigger] ordered_at(t, i) by {
        if i == pos {
        } else if (i - 1) / 2 == pos {
            assert(s[p].expiry_time <= s[i].expiry_time);
        } else if (i - 1) / 2 == p {
            assert(ordered_at(s, i));
        } else {
            assert(ordered_at(s, i));
        }
    }
    if p > 0 {
        assert(ordered_at(s, p));
        assert forall|i: int| 0 < i < t.len() && (i - 1) / 2 == p implies t[(p - 1) / 2].expiry_time
            <= #[trigger] t[i].expiry_time by {
            if i != pos {
                assert(ordered_at(s, i));
            }
        }
    }
}

proof fn lemma_sift_down_step<K>(s: Seq<ExpiringKey<K>>, pos: int, m: int)
    requires
        0 <= pos < m < s.len(),
        (m - 1) / 2 == pos,
        sifting_down(s, pos),
        s[m].expiry_time < s[pos].expiry_time,
        forall|c: int| 0 < c < s.len() && (c - 1) / 2 == pos ==> s[m].expiry_time <= s[c].expiry_time,
    ensures
        sifting_down(swapped(s, pos, m), m),
{
    let t = swapped(s, pos, m);
    assert forall|i: int| 0 < i < t.len() && (i - 1) / 2 != m implies #[trigger] ordered_at(t, i) by {
        if i == m {
        } else if (i - 1) / 2 == pos {
            assert(s[m].expiry_time <= s[i].expiry_time);
        } else if i == pos {
            assert(s[(pos - 1) / 2].expiry_time <= s[m].expiry_time);
        } else {
            assert(ordered_at(s, i));
        }
    }
    assert forall|i: int| 0 < i < t.len() && (i - 1) / 2 == m implies t[(m - 1) / 2].expiry_time
        <= #[trigger] t[i].expiry_time by {
        assert(ordered_at(s, i));
    }
}

/// Calls the slice method `swap` of std on the vector's elements.
///
/// Trusted: std documents that it exchanges the elements at the two indices
/// and panics when either index is out of bounds, which `requires` rules out.
#[verifier::external_body]
fn swap_entries<T>(v: &mut Vec<T>, i: usize, j: usize)
    requires
        i < old(v).len(),
        j < old(v).len(),
    ensures
        final(v)@ == swapped(old(v)@, i as int, j as int),
{
    v.swap(i, j);
}

/// A min-heap of expiring keys: the entry that expires first is at the root.
#[derive(Debug)]
pub struct ExpirationHeap<K> {
    items: Vec<ExpiringKey<K>>,
}

impl<K> View for ExpirationHeap<K> {
    type V = Multiset<ExpiringKey<K>>;

    /// The entries of the heap, in no order.
    closed spec fn view(&self) -> Multiset<ExpiringKey<K>> {
        self.items@.to_multiset()
    }
}

impl<K> ExpirationHeap<K> {
    /// The heap is laid out as a complete binary tree in heap order.
    pub closed spec fn wf(&self) -> bool {
        is_heap(self.items@)
    }

    /// The entry at the root.
    pub closed spec fn first(&self) -> ExpiringKey<K> {
        self.items@[0]
    }

    /// The root of a non-empty heap is one of its entries and expires first.
    pub proof fn lemma_first_is_earliest(&self)
        requires
            self.wf(),
            self@.len() > 0,
        ensures
            self@.contains(self.first()),
            is_earliest(self@, self.first()),
    {
        lemma_root_earliest(self.items@);
    }

    pub fn new() -> (r: Self)
        ensures
            r.wf(),
            r@ =~= Multiset::empty(),
    {
        let r = Self { items: Vec::new() };
        assert(r.items@.to_multiset().len() == 0);
        r
    }

    pub fn len(&self) -> (r: usize)
        ensures
            r == self@.len(),
    {
        self.items.len()
    }

    /// The entry that expires first, if any.
    pub fn peek(&self) -> (r: Option<&ExpiringKey<K>>)
        requires
            self.wf(),
        ensures
            r is None <==> self@.len() == 0,
            r matches Some(e) ==> *e == self.first() && self@.contains(*e) && is_earliest(
                self@,
                *e,
            ),
    {
        if self.items.len() == 0 {
            None
        } else {
            proof {
                lemma_root_earliest(self.items@);
            }
            Some(&self.items[0])
        }
    }

    /// Adds an entry.
    pub fn push(&mut self, e: ExpiringKey<K>)
        requires
            old(self).wf(),
        ensures
            final(self).wf(),
            final(self)@ =~= old(self)@.insert(e),
    {
        let ghost start = self.items@;
        self.items.push(e);
        let ghost contents = self.items@.to_multiset();
        assert(contents =~= old(self)@.insert(e));
        let mut pos: usize = self.items.len() - 1;
        proof {
            let s = self.items@;
            assert forall|i: int| 0 < i < s.len() && i != pos implies #[trigger] ordered_at(s, i) by {
                assert(ordered_at(start, i));
            }
        }
        while pos > 0 && self.items[pos].expires_before(&self.items[(pos - 1) / 2])
            invariant
                0 <= pos < self.items@.len(),
                self.items@.to_multiset() == contents,
                sifting_up(self.items@, pos as int),
            decreases pos,
        {
            let parent = (pos - 1) / 2;
            let ghost before = self.items@;
            swap_entries(&mut self.items, parent, pos);
            proof {
                lemma_swapped_multiset(before, parent as int, pos as int);
                lemma_sift_up_step(before, pos as int);
            }
            pos = parent;
        }
        proof {
            let s = self.items@;
            assert forall|i: int| 0 < i < s.len() implies #[trigger] ordered_at(s, i) by {
                if i == pos {
                }
            }
        }
    }

    /// Removes and returns the entry that expires first, if any.
    pub fn pop(&mut self) -> (r: Option<ExpiringKey<K>>)
        requires
            old(self).wf(),
        ensures
            final(self).wf(),
            old(self)@.len() == 0 ==> r is None && final(self)@ == old(self)@,
            old(self)@.len() > 0 ==> {
                &&& r == Some(old(self).first())
                &&& old(self)@.contains(old(self).first())
                &&& is_earliest(old(self)@, old(self).first())
                &&& final(self)@ =~= old(self)@.remove(old(self).first())
            },
    {
        let n = self.items.len();
        if n == 0 {
            return None;
        }
        let ghost s0 = self.items@;
        proof {
            lemma_root_earliest(s0);
            lemma_swapped_multiset(s0, 0, n - 1);
        }
        swap_entries(&mut self.items, 0, n - 1);
        let ghost s1 = self.items@;
        let top = self.items.pop().unwrap();
        proof {
            assert(self.items@ =~= s1.remove(n - 1));
        }
        let ghost contents = self.items@.to_multiset();
        let len = self.items.len();
        let mut pos: usize = 0;
        let mut done = false;
        proof {
            let s = self.items@;
            assert forall|i: int| 0 < i < s.len() && (i - 1) / 2 != 0 implies #[trigger] ordered_at(
                s,
                i,
            ) by {
                assert(ordered_at(s0, i));
            }
        }
        while !done && pos < len / 2
            invariant
                len == self.items@.len(),
                pos <= len,
                self.items@.to_multiset() == contents,
                sifting_down(self.items@, pos as int),
                done ==> is_heap(self.items@),
            decreases len - pos + (if done {
                0int
            } else {
                1int
            }),
        {
            let left = 2 * pos + 1;
            let right = left + 1;
            let mut child = left;
            if right < len && self.items[right].expires_before(&self.items[left]) {
                child = right;
            }
            if self.items[child].expires_before(&self.items[pos]) {
                let ghost before = self.items@;
                swap_entries(&mut self.items, pos, child);
                proof {
                    lemma_swapped_multiset(before, pos as int, child as int);
                    lemma_sift_down_step(before, pos as int, child as int);
                }
                pos = child;
            } else {
                proof {
                    let s = self.items@;
                    assert forall|i: int| 0 < i < s.len() implies #[trigger] ordered_at(s, i) by {
                        if (i - 1) / 2 == pos {
                        }
                    }
                }
                done = true;
            }
        }
        proof {
            let s = self.items@;
            assert forall|i: int| 0 < i < s.len() implies #[trigger] ordered_at(s, i) by {
                if !done && (i - 1) / 2 == pos {
                }
            }
        }
        Some(top)
    }
}

} // verus!
