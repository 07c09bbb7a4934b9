use vstd::prelude::*;
use vstd::multiset::Multiset;
use crate::comparator::Comparator;
use crate::fixed_size_min_heap::{FixedSizeMinHeap, is_min_heap, lemma_root_is_min, vec_swap};

verus! {

/// Selection failed because the input held fewer elements than requested.
/// The caller must guarantee at least K elements; this is a usage error, not
/// a recoverable condition, and no partial result is produced.
#[derive(Debug, Clone, Copy, PartialEq, Eq, Structural)]
pub enum SelectError {
    InsufficientElements,
}

/// Every element of `lo` is not greater than every element of `hi`.
pub open spec fn multiset_dominated<T, C: Comparator<T>>(
    f: C,
    lo: Multiset<T>,
    hi: Multiset<T>,
) -> bool {
    forall|x: T, y: T| #[trigger] lo.count(x) > 0 && #[trigger] hi.count(y) > 0 ==> f.leq(x, y)
}

/// `out` holds exactly the largest elements of `input` under `f`: the input
/// splits into the elements of `out` and a remainder, and nothing in the
/// remainder is greater than anything in `out`. This characterises the true
/// top-K of `input` (as a multiset, ignoring order) up to ties.
pub open spec fn is_top_selection<T, C: Comparator<T>>(f: C, input: Seq<T>, out: Seq<T>) -> bool {
    exists|left_out: Multiset<T>|
        input.to_multiset() == #[trigger] out.to_multiset().add(left_out)
            && multiset_dominated(f, left_out, out.to_multiset())
}

/// Single-pass top-K selection over a pre-filled buffer: builds a min-heap
/// over `data`'s existing contents, then offers every element of `rest` to
/// the heap, in order. The returned buffer holds exactly `data.len()` of the
/// largest elements of `data + rest`, heap-ordered, not sorted.
#[verifier::loop_isolation(false)]
pub fn max_n_by_with_slice<T, C: Comparator<T>>(data: Vec<T>, rest: Vec<T>, f: C) -> (out: Vec<T>)
    requires
        data@.len() > 0 || rest@.len() == 0,
    ensures
        out@.len() == data@.len(),
        is_min_heap(f, out@),
        is_top_selection(f, data@ + rest@, out@),
{
    let ghost data0 = data@;
    let ghost rest0 = rest@;
    let mut rest = rest;
    // Reverse the tail so that popping from its end walks the original
    // left-to-right; only the multiset of elements matters to the contract.
    let mut lo: usize = 0;
    let mut hi: usize = rest.len();
    while hi - lo > 1
        invariant
            lo <= hi <= rest@.len(),
            rest@.len() == rest0.len(),
            rest@.to_multiset() == rest0.to_multiset(),
        decreases hi - lo,
    {
        let ghost pre = rest@;
        vec_swap(&mut rest, lo, hi - 1);
        proof {
            broadcast use vstd::seq_lib::group_to_multiset_ensures;

            let li = lo as int;
            let hi1 = hi - 1;
            assert(pre.contains(pre[li]));
            assert(pre.contains(pre[hi1]));
            vstd::seq_lib::to_multiset_update(pre, li, pre[hi1]);
            vstd::seq_lib::to_multiset_update(pre.update(li, pre[hi1]), hi1, pre[li]);
            assert(rest@.to_multiset() =~= rest0.to_multiset());
        }
        lo = lo + 1;
        hi = hi - 1;
    }
    let mut heap = FixedSizeMinHeap::from_array(data, f);
    let ghost mut discarded: Multiset<T> = Multiset::empty();
    proof {
        assert(data0.to_multiset().add(rest0.to_multiset())
            =~= heap@.to_multiset().add(discarded).add(rest@.to_multiset()));
    }
    while rest.len() > 0
        invariant
            heap.cmp_spec() == f,
            heap@.len() == data0.len(),
            heap.wf(),
            rest@.len() <= rest0.len(),
            data0.to_multiset().add(rest0.to_multiset()) == heap@.to_multiset().add(
                discarded,
            ).add(rest@.to_multiset()),
            multiset_dominated(f, discarded, heap@.to_multiset()),
        decreases rest@.len(),
    {
        let ghost pre_heap = heap@;
        let ghost pre_rest = rest@;
        let v = rest.pop().unwrap();
        proof {
            broadcast use vstd::seq_lib::group_to_multiset_ensures;

            let last = pre_rest.len() - 1;
            assert(pre_rest.contains(pre_rest[last]));
            assert(rest@ =~= pre_rest.remove(last));
        }
        heap.push(v);
        proof {
            broadcast use vstd::seq_lib::group_to_multiset_ensures;

            let cur = heap@;
            if f.leq(v, pre_heap[0]) {
                discarded = discarded.insert(v);
                assert forall|x: T, y: T|
                    #[trigger] discarded.count(x) > 0 && #[trigger] cur.to_multiset().count(y) > 0
                    implies f.leq(x, y) by {
                    assert(cur.contains(y));
                    let i = choose|i: int| 0 <= i < cur.len() && cur[i] == y;
                    lemma_root_is_min(f, cur, i);
                    if x == v {
                        f.lemma_transitive(v, cur[0], y);
                    }
                }
            } else {
                let ghost root = pre_heap[0];
                let ghost pre_disc = discarded;
                discarded = discarded.insert(root);
                assert(pre_heap.contains(root));
                assert(pre_heap.to_multiset().count(root) > 0);
                assert forall|x: T, y: T|
                    #[trigger] discarded.count(x) > 0 && #[trigger] cur.to_multiset().count(y) > 0
                    implies f.leq(x, y) by {
                    if y == v {
                        if x == root {
                        } else {
                            assert(pre_disc.count(x) > 0);
                            assert(f.leq(x, root));
                            f.lemma_transitive(x, root, v);
                        }
                    } else {
                        assert(pre_heap.to_multiset().count(y) > 0);
                        assert(pre_heap.contains(y));
                        let i = choose|i: int| 0 <= i < pre_heap.len() && pre_heap[i] == y;
                        if x == root {
                            lemma_root_is_min(f, pre_heap, i);
                        }
                    }
                }
            }
            assert(data0.to_multiset().add(rest0.to_multiset()) =~= cur.to_multiset().add(
                discarded,
            ).add(rest@.to_multiset()));
        }
    }
    proof {
        broadcast use vstd::seq_lib::group_to_multiset_ensures;

        vstd::seq_lib::lemma_multiset_commutative(data0, rest0);
        assert(rest@.to_multiset() =~= Multiset::<T>::empty());
        assert((data0 + rest0).to_multiset() =~= heap@.to_multiset().add(discarded));
    }
    let out = heap.into_data();
    proof {
        assert((data0 + rest0).to_multiset() == out@.to_multiset().add(discarded));
    }
    out
}

/// Full top-K selection: seeds a buffer with the first `k` elements of
/// `input`, builds a min-heap over it, then streams the remaining elements
/// through the heap. Fails with `InsufficientElements` exactly when `input`
/// holds fewer than `k` elements, and produces no partial result.
pub fn max_n_by_from_iter<T, C: Comparator<T>>(input: Vec<T>, k: usize, f: C) -> (r: Result<
    Vec<T>,
    SelectError,
>)
    requires
        k > 0 || input@.len() == 0,
    ensures
        match r {
            Ok(out) => {
                &&& input@.len() >= k
                &&& out@.len() == k
                &&& is_min_heap(f, out@)
                &&& is_top_selection(f, input@, out@)
            },
            Err(e) => input@.len() < k && e == SelectError::InsufficientElements,
        },
{
    let ghost input0 = input@;
    if input.len() < k {
        return Err(SelectError::InsufficientElements);
    }
    let mut data = input;
    let rest = data.split_off(k);
    proof {
        assert(data@ + rest@ =~= input0);
    }
    let out = max_n_by_with_slice(data, rest, f);
    Ok(out)
}

/// Selecting with K equal to the input's length returns all of the input:
/// the result is a permutation of the whole input sequence.
pub proof fn lemma_selection_of_all<T, C: Comparator<T>>(f: C, input: Seq<T>, out: Seq<T>)
    requires
        is_top_selection(f, input, out),
        out.len() == input.len(),
    ensures
        out.to_multiset() == input.to_multiset(),
{
    broadcast use vstd::seq_lib::group_to_multiset_ensures;
    broadcast use vstd::multiset::lemma_multiset_empty_len;

    let left_out = choose|left_out: Multiset<T>|
        input.to_multiset() == #[trigger] out.to_multiset().add(left_out)
            && multiset_dominated(f, left_out, out.to_multiset());
    assert(input.to_multiset().len() == input.len());
    assert(out.to_multiset().len() == out.len());
    assert(input.to_multiset().len() == out.to_multiset().len() + left_out.len());
    assert(left_out.len() == 0);
    assert(out.to_multiset().add(left_out) =~= out.to_multiset());
}

/// Selecting with K = 1 returns the single overall maximum: the result's one
/// element is drawn from the input and is not less than any input element.
pub proof fn lemma_selection_of_one<T, C: Comparator<T>>(f: C, input: Seq<T>, out: Seq<T>)
    requires
        is_top_selection(f, input, out),
        out.len() == 1,
    ensures
        input.to_multiset().count(out[0]) > 0,
        forall|x: T| input.to_multiset().count(x) > 0 ==> f.leq(x, out[0]),
{
    broadcast use vstd::seq_lib::group_to_multiset_ensures;

    let left_out = choose|left_out: Multiset<T>|
        input.to_multiset() == #[trigger] out.to_multiset().add(left_out)
            && multiset_dominated(f, left_out, out.to_multiset());
    assert(out.contains(out[0]));
    assert(out.to_multiset().count(out[0]) > 0);
    assert forall|x: T| input.to_multiset().count(x) > 0 implies f.leq(x, out[0]) by {
        if left_out.count(x) == 0 {
            assert(out.to_multiset().count(x) > 0);
            assert(out.contains(x));
            assert(x == out[0]);
            f.lemma_total(x, x);
        }
    }
}

/// The sequence is ascending under `f`: no element is greater than one that
/// comes after it.
pub open spec fn sorted_under<T, C: Comparator<T>>(f: C, s: Seq<T>) -> bool {
    forall|i: int, j: int| 0 <= i < j < s.len() ==> f.leq(#[trigger] s[i], #[trigger] s[j])
}

/// The comparator ties only a value with itself, so comparing never loses
/// information: `x` not greater than `y` and `y` not greater than `x` forces
/// `x == y`.
pub open spec fn is_antisymmetric<T, C: Comparator<T>>(f: C) -> bool {
    forall|x: T, y: T| #[trigger] f.leq(x, y) && #[trigger] f.leq(y, x) ==> x == y
}

/// A multiset that is contained in another of the same size equals it.
proof fn lemma_submultiset_same_len_equal<T>(m1: Multiset<T>, m2: Multiset<T>)
    requires
        m1.len() == m2.len(),
        forall|x: T| #[trigger] m2.count(x) <= m1.count(x),
    ensures
        m1 == m2,
{
    broadcast use vstd::multiset::lemma_multiset_empty_len;

    assert(m1 =~= m2.add(m1.sub(m2)));
    assert(m1.sub(m2).len() == 0);
    assert(m1 =~= m2);
}

/// Under a comparator that ties only equal values, the top-K of an input is
/// unique as a multiset: two selections of the same size hold exactly the
/// same elements, however they were computed.
pub proof fn lemma_top_selection_unique<T, C: Comparator<T>>(
    f: C,
    input: Seq<T>,
    out1: Seq<T>,
    out2: Seq<T>,
)
    requires
        is_top_selection(f, input, out1),
        is_top_selection(f, input, out2),
        out1.len() == out2.len(),
        is_antisymmetric(f),
    ensures
        out1.to_multiset() == out2.to_multiset(),
{
    broadcast use vstd::seq_lib::group_to_multiset_ensures;

    let ms1 = out1.to_multiset();
    let ms2 = out2.to_multiset();
    let left1 = choose|left_out: Multiset<T>|
        input.to_multiset() == #[trigger] out1.to_multiset().add(left_out)
            && multiset_dominated(f, left_out, out1.to_multiset());
    let left2 = choose|left_out: Multiset<T>|
        input.to_multiset() == #[trigger] out2.to_multiset().add(left_out)
            && multiset_dominated(f, left_out, out2.to_multiset());
    assert(ms1.len() == ms2.len());
    assert forall|x: T| #[trigger] ms1.count(x) == ms2.count(x) by {
        lemma_top_selection_count_le(f, ms1, ms2, left1, left2, x);
        lemma_top_selection_count_le(f, ms2, ms1, left2, left1, x);
    }
    assert(ms1 =~= ms2);
}

/// One direction of the uniqueness argument: a surplus element of one
/// selection would have to tie a surplus element of the other, and a tie
/// means equality, a contradiction.
proof fn lemma_top_selection_count_le<T, C: Comparator<T>>(
    f: C,
    ms1: Multiset<T>,
    ms2: Multiset<T>,
    left1: Multiset<T>,
    left2: Multiset<T>,
    x: T,
)
    requires
        ms1.add(left1) == ms2.add(left2),
        multiset_dominated(f, left1, ms1),
        multiset_dominated(f, left2, ms2),
        ms1.len() == ms2.len(),
        is_antisymmetric(f),
    ensures
        ms1.count(x) <= ms2.count(x),
{
    broadcast use vstd::multiset::group_multiset_axioms;

    if ms1.count(x) > ms2.count(x) {
        assert(ms1.add(left1).count(x) == ms1.count(x) + left1.count(x));
        assert(ms2.add(left2).count(x) == ms2.count(x) + left2.count(x));
        assert(ms1.add(left1).count(x) == ms2.add(left2).count(x));
        assert(left2.count(x) > left1.count(x));
        if forall|y: T| #[trigger] ms2.count(y) <= ms1.count(y) {
            lemma_submultiset_same_len_equal(ms1, ms2);
        } else {
            let y = choose|y: T| !(#[trigger] ms2.count(y) <= ms1.count(y));
            assert(ms1.add(left1).count(y) == ms1.count(y) + left1.count(y));
            assert(ms2.add(left2).count(y) == ms2.count(y) + left2.count(y));
            assert(ms1.add(left1).count(y) == ms2.add(left2).count(y));
            assert(left1.count(y) > 0);
            assert(f.leq(y, x));
            assert(f.leq(x, y));
            assert(x == y);
        }
    }
}

/// Two sequences that are ascending under a comparator that ties only equal
/// values, and that hold the same elements, are the same sequence.
pub proof fn lemma_sorted_same_multiset_equal<T, C: Comparator<T>>(f: C, a: Seq<T>, b: Seq<T>)
    requires
        sorted_under(f, a),
        sorted_under(f, b),
        is_antisymmetric(f),
        a.to_multiset() == b.to_multiset(),
    ensures
        a =~= b,
    decreases a.len(),
{
    broadcast use vstd::seq_lib::group_to_multiset_ensures;

    assert(a.len() == a.to_multiset().len());
    assert(b.len() == b.to_multiset().len());
    if a.len() > 0 {
        assert(a.contains(a[0]));
        assert(b.to_multiset().count(a[0]) > 0);
        assert(b.contains(a[0]));
        let i = choose|i: int| 0 <= i < b.len() && b[i] == a[0];
        assert(f.leq(b[0], a[0])) by {
            if i == 0 {
                f.lemma_total(b[0], b[0]);
            }
        }
        assert(b.contains(b[0]));
        assert(a.to_multiset().count(b[0]) > 0);
        assert(a.contains(b[0]));
        let j = choose|j: int| 0 <= j < a.len() && a[j] == b[0];
        assert(f.leq(a[0], b[0])) by {
            if j == 0 {
                f.lemma_total(a[0], a[0]);
            }
        }
        assert(a[0] == b[0]);
        let a1 = a.drop_first();
        let b1 = b.drop_first();
        assert(a1 =~= a.remove(0));
        assert(b1 =~= b.remove(0));
        assert(a1.to_multiset() == b1.to_multiset());
        assert(sorted_under(f, a1));
        assert(sorted_under(f, b1));
        lemma_sorted_same_multiset_equal(f, a1, b1);
        assert forall|p: int| 0 <= p < a.len() implies a[p] == b[p] by {
            if p > 0 {
                assert(a1[p - 1] == b1[p - 1]);
            }
        }
    }
}

/// Selecting top-K and then sorting the result yields exactly the last K
/// elements of a full ascending sort of the input, for a comparator that ties
/// only equal values. (With a comparator that ties distinct values the two
/// may differ in which of the tied values they keep.)
pub proof fn lemma_sorted_selection_is_sorted_tail<T, C: Comparator<T>>(
    f: C,
    input: Seq<T>,
    out: Seq<T>,
    sorted_input: Seq<T>,
    sorted_out: Seq<T>,
)
    requires
        is_top_selection(f, input, out),
        is_antisymmetric(f),
        sorted_under(f, sorted_input),
        sorted_input.to_multiset() == input.to_multiset(),
        sorted_under(f, sorted_out),
        sorted_out.to_multiset() == out.to_multiset(),
    ensures
        out.len() <= input.len(),
        sorted_out =~= sorted_input.subrange(
            input.len() - out.len(),
            input.len() as int,
        ),
{
    broadcast use vstd::seq_lib::group_to_multiset_ensures;

    let left = choose|left_out: Multiset<T>|
        input.to_multiset() == #[trigger] out.to_multiset().add(left_out)
            && multiset_dominated(f, left_out, out.to_multiset());
    assert(input.to_multiset().len() == input.len());
    assert(out.to_multiset().len() == out.len());
    assert(input.to_multiset().len() == out.to_multiset().len() + left.len());
    let n = input.len() as int;
    let k = out.len() as int;
    assert(sorted_input.len() == n);
    let head = sorted_input.subrange(0, n - k);
    let tail = sorted_input.subrange(n - k, n);
    assert(sorted_input =~= head + tail);
    vstd::seq_lib::lemma_multiset_commutative(head, tail);
    // the sorted tail is itself a top-K selection: everything in the head is
    // not greater than everything in the tail
    assert forall|x: T, y: T|
        #[trigger] head.to_multiset().count(x) > 0 && #[trigger] tail.to_multiset().count(y) > 0
        implies f.leq(x, y) by {
        assert(head.contains(x));
        assert(tail.contains(y));
        let i = choose|i: int| 0 <= i < head.len() && head[i] == x;
        let j = choose|j: int| 0 <= j < tail.len() && tail[j] == y;
        assert(sorted_input[i] == x);
        assert(sorted_input[n - k + j] == y);
    }
    assert(input.to_multiset() == tail.to_multiset().add(head.to_multiset())) by {
        assert(tail.to_multiset().add(head.to_multiset()) =~= head.to_multiset().add(
            tail.to_multiset(),
        ));
    }
    assert(is_top_selection(f, input, tail));
    lemma_top_selection_unique(f, input, out, tail);
    assert(sorted_under(f, tail));
    lemma_sorted_same_multiset_equal(f, sorted_out, tail);
}

} // verus!
