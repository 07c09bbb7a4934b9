use vstd::prelude::*;
use core::cmp::Ordering;
use crate::comparator::Comparator;

verus! {

/// The parent link at index `i` respects the order: the parent at
/// `(i - 1) / 2` is not greater than the child at `i`.
pub open spec fn parent_link_ok<T, C: Comparator<T>>(f: C, data: Seq<T>, i: int) -> bool {
    f.leq(data[(i - 1) / 2], data[i])
}

/// The min-heap property over the array encoding of a complete binary tree:
/// every element from index 1 up is not less than its parent.
pub open spec fn is_min_heap<T, C: Comparator<T>>(f: C, data: Seq<T>) -> bool {
    forall|i: int| 1 <= i < data.len() ==> #[trigger] parent_link_ok(f, data, i)
}

/// Whether index `i` lies in the subtree rooted at index `r` of the array
/// encoding, where the parent of `i` is `(i - 1) / 2`.
pub open spec fn in_subtree(r: int, i: int) -> bool
    decreases i,
{
    if i == r {
        true
    } else if 0 <= r && r < i && 1 <= i {
        in_subtree(r, (i - 1) / 2)
    } else {
        false
    }
}

/// A member of a subtree does not lie above the subtree's root.
pub proof fn lemma_in_subtree_ge(r: int, i: int)
    requires
        in_subtree(r, i),
    ensures
        r <= i,
{
}

/// Every index lies in the subtree rooted at index 0.
pub proof fn lemma_root_subtree(i: int)
    requires
        0 <= i,
    ensures
        in_subtree(0, i),
    decreases i,
{
    if i >= 1 {
        lemma_root_subtree((i - 1) / 2);
    }
}

/// A child of an index `p` is exactly `2p + 1` or `2p + 2`.
pub proof fn lemma_parent_child(p: int, j: int)
    requires
        1 <= j,
        (j - 1) / 2 == p,
    ensures
        j == 2 * p + 1 || j == 2 * p + 2,
{
    assert(j - 1 == 2 * ((j - 1) / 2) + ((j - 1) % 2));
}

/// Subtrees are closed downward: a child of a member is a member.
pub proof fn lemma_child_in_subtree(r: int, p: int, j: int)
    requires
        0 <= r,
        in_subtree(r, p),
        1 <= j,
        (j - 1) / 2 == p,
    ensures
        in_subtree(r, j),
{
    lemma_in_subtree_ge(r, p);
    lemma_parent_child(p, j);
}

/// In a min-heap the root is a minimum: it is not greater than any element.
pub proof fn lemma_root_is_min<T, C: Comparator<T>>(f: C, data: Seq<T>, i: int)
    requires
        is_min_heap(f, data),
        0 <= i < data.len(),
    ensures
        f.leq(data[0], data[i]),
    decreases i,
{
    if i == 0 {
        f.lemma_total(data[0], data[0]);
    } else {
        assert(parent_link_ok(f, data, i));
        lemma_root_is_min(f, data, (i - 1) / 2);
        f.lemma_transitive(data[0], data[(i - 1) / 2], data[i]);
    }
}

/// Relies on the standard slice `swap`: it exchanges the elements at the two
/// indices and changes nothing else.
#[verifier::external_body]
pub(crate) fn vec_swap<T>(v: &mut Vec<T>, i: usize, j: usize)
    requires
        i < old(v)@.len(),
        j < old(v)@.len(),
    ensures
        final(v)@ == old(v)@.update(i as int, old(v)@[j as int]).update(j as int, old(v)@[i as int]),
{
    v.as_mut_slice().swap(i, j);
}

/// A fixed-capacity binary min-heap laid out in a vector whose length never
/// changes, ordered by a caller-supplied comparator. The root (index 0) is
/// always a minimum of the stored elements, so `push` can decide in one
/// comparison whether a candidate belongs among the current elements.
pub struct FixedSizeMinHeap<T, C: Comparator<T>> {
    data: Vec<T>,
    f: C,
}

impl<T, C: Comparator<T>> View for FixedSizeMinHeap<T, C> {
    type V = Seq<T>;

    closed spec fn view(&self) -> Seq<T> {
        self.data@
    }
}

impl<T, C: Comparator<T>> FixedSizeMinHeap<T, C> {
    /// The comparator this heap orders by.
    pub closed spec fn cmp_spec(&self) -> C {
        self.f
    }

    /// Well-formedness: the stored elements satisfy the min-heap property.
    pub open spec fn wf(&self) -> bool {
        is_min_heap(self.cmp_spec(), self@)
    }

    /// Takes a pre-filled buffer and a comparator and restores the heap
    /// property over the buffer's existing contents via a bottom-up sift.
    pub fn from_array(data: Vec<T>, f: C) -> (h: Self)
        ensures
            h.cmp_spec() == f,
            h@.len() == data@.len(),
            h@.to_multiset() == data@.to_multiset(),
            h.wf(),
    {
        let mut heap = FixedSizeMinHeap { data, f };
        heap.build();
        heap
    }

    /// Hands the buffer back to the caller, heap-ordered.
    pub fn into_data(self) -> (v: Vec<T>)
        ensures
            v@ == self@,
    {
        self.data
    }

    /// Bottom-up build-heap: sifts each internal node down, from the last
    /// internal node to the root.
    #[verifier::loop_isolation(false)]
    pub fn build(&mut self)
        ensures
            final(self).cmp_spec() == old(self).cmp_spec(),
            final(self)@.len() == old(self)@.len(),
            final(self)@.to_multiset() == old(self)@.to_multiset(),
            final(self).wf(),
    {
        let ghost f = self.f;
        let ghost orig = self@;
        let len = self.data.len();
        let mut k = len / 2;
        proof {
            assert forall|i: int| 1 <= i < orig.len() && (i - 1) / 2 >= k as int
                implies parent_link_ok(f, self@, i) by {
                assert(i - 1 == 2 * ((i - 1) / 2) + ((i - 1) % 2));
                assert(len == 2 * (len / 2) + (len % 2));
                assert(false);
            }
        }
        while k > 0
            invariant
                self.f == f,
                len == orig.len(),
                self@.len() == orig.len(),
                self@.to_multiset() == orig.to_multiset(),
                k <= len,
                forall|i: int| 1 <= i < orig.len() && (i - 1) / 2 >= k as int
                    ==> #[trigger] parent_link_ok(f, self@, i),
            decreases k,
        {
            k = k - 1;
            let ghost pre = self@;
            proof {
                assert forall|i: int| 1 <= i < pre.len() && in_subtree(k as int, i) && i != k as int
                        && (i - 1) / 2 != k as int
                    implies parent_link_ok(f, pre, i) by {
                    let p = (i - 1) / 2;
                    assert(in_subtree(k as int, p));
                    lemma_in_subtree_ge(k as int, p);
                }
            }
            self.sift_down(k);
            proof {
                assert forall|i: int| 1 <= i < orig.len() && (i - 1) / 2 >= k as int
                    implies parent_link_ok(f, self@, i) by {
                    let p = (i - 1) / 2;
                    if in_subtree(k as int, i) {
                        if i == k as int {
                            assert(i - 1 == 2 * p + ((i - 1) % 2));
                            assert(false);
                        }
                    } else {
                        if in_subtree(k as int, p) {
                            lemma_child_in_subtree(k as int, p, i);
                            assert(false);
                        }
                        assert(self@[i] == pre[i]);
                        assert(self@[p] == pre[p]);
                        assert(p != k as int);
                        assert(parent_link_ok(f, pre, i));
                    }
                }
            }
        }
        proof {
            assert forall|i: int| 1 <= i < self@.len() implies #[trigger] parent_link_ok(f, self@, i) by {
                assert((i - 1) / 2 >= 0);
            }
        }
    }

    /// Sift-down: repeatedly swaps the element at `m` with its smaller child
    /// until neither child is smaller, restoring the heap property inside the
    /// subtree rooted at `m`. Elements outside that subtree are untouched.
    #[verifier::loop_isolation(false)]
    pub fn sift_down(&mut self, m: usize)
        requires
            forall|i: int|
                1 <= i < old(self)@.len() && in_subtree(m as int, i) && i != m as int
                    && (i - 1) / 2 != m as int
                    ==> #[trigger] parent_link_ok(old(self).cmp_spec(), old(self)@, i),
        ensures
            final(self).cmp_spec() == old(self).cmp_spec(),
            final(self)@.len() == old(self)@.len(),
            final(self)@.to_multiset() == old(self)@.to_multiset(),
            forall|j: int| 0 <= j < old(self)@.len() && !in_subtree(m as int, j)
                ==> final(self)@[j] == old(self)@[j],
            forall|i: int| 1 <= i < final(self)@.len() && in_subtree(m as int, i) && i != m as int
                ==> #[trigger] parent_link_ok(final(self).cmp_spec(), final(self)@, i),
    {
        let ghost f = self.f;
        let ghost orig = self@;
        let ghost m0 = m as int;
        let len = self.data.len();
        let mut m = m;
        proof {
            assert forall|i: int|
                1 <= i < orig.len() && in_subtree(m0, i) && i != m0 && (i - 1) / 2 != m as int
                implies parent_link_ok(f, self@, i) by {
                assert(parent_link_ok(old(self).cmp_spec(), old(self)@, i));
            }
        }
        loop
            invariant
                self.f == f,
                len == orig.len(),
                self@.len() == orig.len(),
                self@.to_multiset() == orig.to_multiset(),
                in_subtree(m0, m as int),
                forall|j: int| 0 <= j < orig.len() && !in_subtree(m0, j) ==> self@[j] == orig[j],
                forall|i: int|
                    1 <= i < orig.len() && in_subtree(m0, i) && i != m0 && (i - 1) / 2 != m as int
                        ==> #[trigger] parent_link_ok(f, self@, i),
                m as int != m0 ==> forall|j: int|
                    1 <= j < orig.len() && (j - 1) / 2 == m as int
                        ==> f.leq(self@[(m as int - 1) / 2], #[trigger] self@[j]),
            decreases orig.len() - m as int,
        {
            if m >= len {
                proof {
                    assert forall|i: int|
                        1 <= i < self@.len() && in_subtree(m0, i) && i != m0
                        implies parent_link_ok(f, self@, i) by {
                        assert((i - 1) / 2 < i);
                    }
                }
                return;
            }
            if m >= len / 2 {
                // no children: the subtree below `m` is a single node
                proof {
                    assert forall|i: int|
                        1 <= i < self@.len() && in_subtree(m0, i) && i != m0
                        implies parent_link_ok(f, self@, i) by {
                        if (i - 1) / 2 == m as int {
                            lemma_parent_child(m as int, i);
                            assert(len == 2 * (len / 2) + (len % 2));
                            assert(false);
                        }
                    }
                }
                return;
            }
            proof {
                assert(len == 2 * (len / 2) + (len % 2));
            }
            let l = 2 * m + 1;
            let r = 2 * m + 2;
            let mut n = m;
            proof {
                assert((l - 1) / 2 == m as int);
                assert((r - 1) / 2 == m as int);
            }
            let cl = self.f.compare(&self.data[l], &self.data[n]);
            match cl {
                Ordering::Less => {
                    n = l;
                }
                _ => {}
            }
            if r < len {
                let cr = self.f.compare(&self.data[r], &self.data[n]);
                match cr {
                    Ordering::Less => {
                        n = r;
                    }
                    _ => {}
                }
            }
            if m == n {
                // neither child is smaller: the subtree is a heap
                proof {
                    assert(f.leq(self@[m as int], self@[l as int]));
                    if r < len {
                        assert(f.leq(self@[m as int], self@[r as int]));
                    }
                    assert forall|i: int|
                        1 <= i < self@.len() && in_subtree(m0, i) && i != m0
                        implies parent_link_ok(f, self@, i) by {
                        if (i - 1) / 2 == m as int {
                            lemma_parent_child(m as int, i);
                        }
                    }
                }
                return;
            }
            // a child is smaller: record why the chosen child is the smallest
            // of the three before swapping it into place
            let ghost pre = self@;
            proof {
                lemma_child_in_subtree(m0, m as int, n as int);
                // the chosen child is not greater than the node...
                assert(f.leq(pre[n as int], pre[m as int])) by {
                    if n == l {
                        f.lemma_total(pre[l as int], pre[m as int]);
                    } else {
                        if matches!(cl, Ordering::Less) {
                            f.lemma_total(pre[r as int], pre[l as int]);
                            f.lemma_total(pre[l as int], pre[m as int]);
                            f.lemma_transitive(pre[r as int], pre[l as int], pre[m as int]);
                        } else {
                            f.lemma_total(pre[r as int], pre[m as int]);
                        }
                    }
                }
                // ... nor greater than its sibling
                if r < len {
                    assert(n == l ==> f.leq(pre[l as int], pre[r as int]));
                    assert(n == r ==> f.leq(pre[r as int], pre[l as int])) by {
                        if n == r {
                            if matches!(cl, Ordering::Less) {
                                f.lemma_total(pre[r as int], pre[l as int]);
                            } else {
                                f.lemma_total(pre[r as int], pre[m as int]);
                                f.lemma_transitive(pre[r as int], pre[m as int], pre[l as int]);
                            }
                        }
                    }
                }
            }
            vec_swap(&mut self.data, m, n);
            proof {
                let cur = self@;
                let mi = m as int;
                let ni = n as int;
                broadcast use vstd::seq_lib::group_to_multiset_ensures;

                assert(pre.contains(pre[mi]));
                assert(pre.contains(pre[ni]));
                vstd::seq_lib::to_multiset_update(pre, mi, pre[ni]);
                vstd::seq_lib::to_multiset_update(pre.update(mi, pre[ni]), ni, pre[mi]);
                assert(cur.to_multiset() =~= orig.to_multiset());
                assert forall|i: int|
                    1 <= i < orig.len() && in_subtree(m0, i) && i != m0 && (i - 1) / 2 != ni
                    implies parent_link_ok(f, cur, i) by {
                    let p = (i - 1) / 2;
                    if i == ni {
                        // the new value at the parent is the old child's value
                        assert(cur[p] == pre[ni]);
                    } else if i == mi {
                        // `m` is not the root of the sift: the bound carried on
                        // the parent of `m` covers the value that moved up
                        assert(cur[i] == pre[ni]);
                        assert(p != mi && p != ni);
                        assert(f.leq(pre[p], pre[ni]));
                    } else if p == mi {
                        // the sibling of the chosen child
                        lemma_parent_child(mi, i);
                        assert(cur[i] == pre[i]);
                    } else {
                        assert(p != mi && p != ni && i != mi && i != ni);
                        assert(cur[i] == pre[i] && cur[p] == pre[p]);
                        assert(parent_link_ok(f, pre, i));
                    }
                }
                assert forall|j: int|
                    1 <= j < orig.len() && (j - 1) / 2 == ni
                    implies f.leq(cur[(ni - 1) / 2], #[trigger] cur[j]) by {
                    // children of the chosen child kept their values, and the
                    // old child's value (now at `m`) was not greater than them
                    lemma_child_in_subtree(m0, ni, j);
                    lemma_parent_child(ni, j);
                    assert(cur[j] == pre[j]);
                    assert((ni - 1) / 2 == mi);
                    assert(parent_link_ok(f, pre, j));
                }
                assert forall|j: int| 0 <= j < orig.len() && !in_subtree(m0, j)
                    implies cur[j] == orig[j] by {
                    lemma_in_subtree_ge(m0, mi);
                }
            }
            m = n;
        }
    }

    /// Offer a candidate: if it is greater than the current minimum (the
    /// root), it replaces the root, which is discarded, and the heap property
    /// is restored; otherwise the candidate is discarded and nothing changes.
    /// Ties favour the resident element.
    pub fn push(&mut self, t: T)
        requires
            old(self).wf(),
            old(self)@.len() >= 1,
        ensures
            final(self).cmp_spec() == old(self).cmp_spec(),
            final(self)@.len() == old(self)@.len(),
            final(self).wf(),
            old(self).cmp_spec().leq(t, old(self)@[0]) ==> final(self)@ == old(self)@,
            !old(self).cmp_spec().leq(t, old(self)@[0]) ==> {
                &&& final(self)@.to_multiset()
                    == old(self)@.to_multiset().remove(old(self)@[0]).insert(t)
                &&& old(self).cmp_spec().leq(old(self)@[0], t)
            },
    {
        let ghost f = self.f;
        let ghost orig = self@;
        let o = self.f.compare(&t, &self.data[0]);
        match o {
            Ordering::Greater => {
                proof {
                    f.lemma_total(t, orig[0]);
                }
                self.data.set(0, t);
                let ghost seeded = self@;
                proof {
                    vstd::seq_lib::to_multiset_update(orig, 0, t);
                    assert(seeded.to_multiset() =~= orig.to_multiset().remove(orig[0]).insert(t));
                    assert forall|i: int|
                        1 <= i < seeded.len() && in_subtree(0, i) && i != 0 && (i - 1) / 2 != 0
                        implies parent_link_ok(f, seeded, i) by {
                        assert(parent_link_ok(f, orig, i));
                        assert(seeded[i] == orig[i]);
                        assert(seeded[(i - 1) / 2] == orig[(i - 1) / 2]);
                    }
                }
                self.sift_down(0);
                proof {
                    assert forall|i: int| 1 <= i < self@.len()
                        implies #[trigger] parent_link_ok(f, self@, i) by {
                        lemma_root_subtree(i);
                    }
                }
            }
            _ => {}
        }
    }
}

} // verus!
