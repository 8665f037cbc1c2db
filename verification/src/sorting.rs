use vstd::prelude::*;

verus! {

/// An element type the sorts can order: each value has a mathematical key,
/// and `le` decides the order by comparing keys.
pub trait Sortable: Sized + Copy {
    /// The mathematical key by which elements are ordered.
    spec fn key(self) -> int;

    /// Returns whether `self` sorts no later than `other`.
    fn le(self, other: Self) -> (r: bool)
        ensures
            r == (self.key() <= other.key()),
    ;
}

impl Sortable for i64 {
    open spec fn key(self) -> int {
        self as int
    }

    fn le(self, other: i64) -> bool {
        self <= other
    }
}

/// A value paired with the position it originally occupied, so that a
/// caller can observe how a sort arranges elements whose values compare
/// equal.
#[derive(Clone, Copy, Debug, PartialEq, Eq, Structural)]
pub struct Entry {
    /// The value the sorts compare by.
    pub value: i64,
    /// The position the value originally occupied.
    pub position: usize,
}

impl Sortable for Entry {
    open spec fn key(self) -> int {
        self.value as int
    }

    fn le(self, other: Entry) -> bool {
        self.value <= other.value
    }
}

/// The elements of `s` stand in non-decreasing key order.
pub open spec fn is_sorted<T: Sortable>(s: Seq<T>) -> bool {
    forall|i: int, j: int| 0 <= i <= j < s.len() ==> #[trigger] s[i].key() <= #[trigger] s[j].key()
}

/// The elements of `s` whose key is `k`, in the order `s` holds them.
pub open spec fn entries_with_key<T: Sortable>(s: Seq<T>, k: int) -> Seq<T> {
    s.filter(|x: T| x.key() == k)
}

/// Appending an element extends the entries of its own key and leaves the
/// entries of every other key unchanged.
proof fn lemma_entries_push<T: Sortable>(s: Seq<T>, x: T, k: int)
    ensures
        entries_with_key(s.push(x), k) == if x.key() == k {
            entries_with_key(s, k).push(x)
        } else {
            entries_with_key(s, k)
        },
{
    reveal(Seq::filter);
    assert(s.push(x).drop_last() =~= s);
    assert(s.push(x).last() == x);
}

/// A sequence none of whose elements carry key `k` has no entries with key
/// `k`.
proof fn lemma_entries_empty<T: Sortable>(s: Seq<T>, k: int)
    requires
        forall|q: int| 0 <= q < s.len() ==> #[trigger] s[q].key() != k,
    ensures
        entries_with_key(s, k) == Seq::<T>::empty(),
    decreases s.len(),
{
    reveal(Seq::filter);
    if s.len() > 0 {
        lemma_entries_empty(s.drop_last(), k);
    }
}

/// The entries of a concatenation are the entries of the parts, in order.
proof fn lemma_entries_concat<T: Sortable>(a: Seq<T>, b: Seq<T>, k: int)
    ensures
        entries_with_key(a + b, k) == entries_with_key(a, k) + entries_with_key(b, k),
    decreases b.len(),
{
    reveal(Seq::filter);
    if b.len() == 0 {
        assert(a + b =~= a);
        assert(entries_with_key(a, k) + entries_with_key(b, k) =~= entries_with_key(a, k));
    } else {
        let b0 = b.drop_last();
        let x = b.last();
        lemma_entries_concat(a, b0, k);
        lemma_entries_push(a + b0, x, k);
        lemma_entries_push(b0, x, k);
        assert(a + b =~= (a + b0).push(x));
        assert(b =~= b0.push(x));
        if x.key() == k {
            assert((entries_with_key(a, k) + entries_with_key(b0, k)).push(x)
                =~= entries_with_key(a, k) + entries_with_key(b0, k).push(x));
        }
    }
}

/// Emitting the next left element keeps the merge's entries-by-key account,
/// provided every right element already emitted has a strictly smaller key.
proof fn lemma_emit_left<T: Sortable>(l: Seq<T>, r: Seq<T>, m: Seq<T>, i: int, j: int)
    requires
        0 <= i < l.len(),
        0 <= j <= r.len(),
        forall|k: int| #[trigger] entries_with_key(m, k) == entries_with_key(l.subrange(0, i), k)
            + entries_with_key(r.subrange(0, j), k),
        forall|q: int| 0 <= q < j ==> #[trigger] r[q].key() < l[i].key(),
    ensures
        forall|k: int| #[trigger] entries_with_key(m.push(l[i]), k) == entries_with_key(
            l.subrange(0, i + 1),
            k,
        ) + entries_with_key(r.subrange(0, j), k),
{
    let x = l[i];
    assert forall|k: int| #[trigger] entries_with_key(m.push(x), k) == entries_with_key(
        l.subrange(0, i + 1),
        k,
    ) + entries_with_key(r.subrange(0, j), k) by {
        lemma_entries_push(m, x, k);
        assert(l.subrange(0, i + 1) =~= l.subrange(0, i).push(x));
        lemma_entries_push(l.subrange(0, i), x, k);
        if x.key() == k {
            assert forall|q: int| 0 <= q < r.subrange(0, j).len() implies #[trigger] r.subrange(
                0,
                j,
            )[q].key() != k by {
                assert(r.subrange(0, j)[q] == r[q]);
                assert(r[q].key() < x.key());
            }
            lemma_entries_empty(r.subrange(0, j), k);
            let la = entries_with_key(l.subrange(0, i), k);
            let rb = entries_with_key(r.subrange(0, j), k);
            assert((la + rb).push(x) =~= la.push(x) + rb);
        }
    }
}

/// Emitting the next right element keeps the merge's entries-by-key
/// account: it lands after everything already emitted for its key.
proof fn lemma_emit_right<T: Sortable>(l: Seq<T>, r: Seq<T>, m: Seq<T>, i: int, j: int)
    requires
        0 <= i <= l.len(),
        0 <= j < r.len(),
        forall|k: int| #[trigger] entries_with_key(m, k) == entries_with_key(l.subrange(0, i), k)
            + entries_with_key(r.subrange(0, j), k),
    ensures
        forall|k: int| #[trigger] entries_with_key(m.push(r[j]), k) == entries_with_key(
            l.subrange(0, i),
            k,
        ) + entries_with_key(r.subrange(0, j + 1), k),
{
    let x = r[j];
    assert forall|k: int| #[trigger] entries_with_key(m.push(x), k) == entries_with_key(
        l.subrange(0, i),
        k,
    ) + entries_with_key(r.subrange(0, j + 1), k) by {
        lemma_entries_push(m, x, k);
        assert(r.subrange(0, j + 1) =~= r.subrange(0, j).push(x));
        lemma_entries_push(r.subrange(0, j), x, k);
        let la = entries_with_key(l.subrange(0, i), k);
        let rb = entries_with_key(r.subrange(0, j), k);
        if x.key() == k {
            assert((la + rb).push(x) =~= la + rb.push(x));
        }
    }
}

/// Two sorted sequences arranging the same multiset of values are the same
/// sequence. So a sort that returns a sorted permutation of its input is a
/// function of the input's multiset alone: sorting an already-sorted
/// sequence changes nothing, and sorting twice equals sorting once.
pub proof fn lemma_sorted_permutation_unique(s1: Seq<i64>, s2: Seq<i64>)
    requires
        is_sorted(s1),
        is_sorted(s2),
        s1.to_multiset() == s2.to_multiset(),
    ensures
        s1 == s2,
{
    let leq = |a: i64, b: i64| a <= b;
    assert(vstd::relations::sorted_by(s1, leq)) by {
        assert forall|i: int, j: int| 0 <= i < j < s1.len() implies #[trigger] leq(s1[i], s1[j]) by {
            assert(s1[i].key() <= s1[j].key());
        }
    }
    assert(vstd::relations::sorted_by(s2, leq)) by {
        assert forall|i: int, j: int| 0 <= i < j < s2.len() implies #[trigger] leq(s2[i], s2[j]) by {
            assert(s2[i].key() <= s2[j].key());
        }
    }
    vstd::seq_lib::lemma_sorted_unique(s1, s2, leq);
}

/// The running state of a merge: `m` holds the first `i` elements of `l`
/// and the first `j` of `r`, in sorted order, with each key's entries from
/// `l` before those from `r`; everything emitted sorts no later than
/// anything still waiting, and every `r` element already emitted has a key
/// strictly below the waiting head of `l`.
spec fn merge_inv<T: Sortable>(l: Seq<T>, r: Seq<T>, m: Seq<T>, i: int, j: int) -> bool {
    &&& 0 <= i <= l.len()
    &&& 0 <= j <= r.len()
    &&& m.len() == i + j
    &&& is_sorted(m)
    &&& forall|p: int, q: int|
        0 <= p < m.len() && i <= q < l.len() ==> #[trigger] m[p].key() <= #[trigger] l[q].key()
    &&& forall|p: int, q: int|
        0 <= p < m.len() && j <= q < r.len() ==> #[trigger] m[p].key() <= #[trigger] r[q].key()
    &&& m.to_multiset() == l.subrange(0, i).to_multiset().add(r.subrange(0, j).to_multiset())
    &&& forall|k: int| #[trigger] entries_with_key(m, k) == entries_with_key(l.subrange(0, i), k)
        + entries_with_key(r.subrange(0, j), k)
    &&& forall|q: int| 0 <= q < j && i < l.len() ==> #[trigger] r[q].key() < l[i].key()
}

/// The merge state on taking the next element of `l`.
proof fn lemma_merge_step_left<T: Sortable>(l: Seq<T>, r: Seq<T>, m: Seq<T>, i: int, j: int)
    requires
        is_sorted(l),
        is_sorted(r),
        merge_inv(l, r, m, i, j),
        i < l.len(),
        forall|q: int| j <= q < r.len() ==> #[trigger] l[i].key() <= #[trigger] r[q].key(),
    ensures
        merge_inv(l, r, m.push(l[i]), i + 1, j),
{
    broadcast use vstd::seq_lib::group_to_multiset_ensures;
    broadcast use vstd::multiset::group_multiset_axioms;

    let x = l[i];
    let m2 = m.push(x);
    assert forall|a: int, b: int| 0 <= a <= b < m2.len() implies #[trigger] m2[a].key()
        <= #[trigger] m2[b].key() by {
        if b < m.len() {
            assert(m[a].key() <= m[b].key());
        } else if a < m.len() {
            assert(m[a].key() <= l[i].key());
        }
    }
    assert(l.subrange(0, i + 1) =~= l.subrange(0, i).push(x));
    assert(m2.to_multiset() =~= l.subrange(0, i + 1).to_multiset().add(
        r.subrange(0, j).to_multiset(),
    ));
    lemma_emit_left(l, r, m, i, j);
    assert forall|q: int| 0 <= q < j && i + 1 < l.len() implies #[trigger] r[q].key()
        < l[i + 1].key() by {
        assert(r[q].key() < l[i].key());
        assert(l[i].key() <= l[i + 1].key());
    }
}

/// The merge state on taking the next element of `r`.
proof fn lemma_merge_step_right<T: Sortable>(l: Seq<T>, r: Seq<T>, m: Seq<T>, i: int, j: int)
    requires
        is_sorted(l),
        is_sorted(r),
        merge_inv(l, r, m, i, j),
        j < r.len(),
        i < l.len() ==> r[j].key() < l[i].key(),
    ensures
        merge_inv(l, r, m.push(r[j]), i, j + 1),
{
    broadcast use vstd::seq_lib::group_to_multiset_ensures;
    broadcast use vstd::multiset::group_multiset_axioms;

    let x = r[j];
    let m2 = m.push(x);
    assert forall|a: int, b: int| 0 <= a <= b < m2.len() implies #[trigger] m2[a].key()
        <= #[trigger] m2[b].key() by {
        if b < m.len() {
            assert(m[a].key() <= m[b].key());
        } else if a < m.len() {
            assert(m[a].key() <= r[j].key());
        }
    }
    assert forall|p: int, q: int| 0 <= p < m2.len() && i <= q < l.len() implies #[trigger]
        m2[p].key() <= #[trigger] l[q].key() by {
        if p < m.len() {
            assert(m[p].key() <= l[q].key());
        } else {
            assert(x.key() < l[i].key());
            assert(l[i].key() <= l[q].key());
        }
    }
    assert(r.subrange(0, j + 1) =~= r.subrange(0, j).push(x));
    assert(m2.to_multiset() =~= l.subrange(0, i).to_multiset().add(
        r.subrange(0, j + 1).to_multiset(),
    ));
    lemma_emit_right(l, r, m, i, j);
}

/// Merges the two sorted vectors `left` and `right` into `merged`, which
/// must come in empty: the smaller head is emitted at each step, the left
/// head on ties, so elements of equal key keep the left half's entries
/// first and each half's own order (the merge is stable).
fn merge<T: Sortable>(left: &Vec<T>, right: &Vec<T>, merged: &mut Vec<T>)
    requires
        is_sorted(left@),
        is_sorted(right@),
        old(merged)@.len() == 0,
    ensures
        final(merged)@.len() == left@.len() + right@.len(),
        is_sorted(final(merged)@),
        final(merged)@.to_multiset() == left@.to_multiset().add(right@.to_multiset()),
        forall|k: int| #[trigger] entries_with_key(final(merged)@, k) == entries_with_key(left@, k)
            + entries_with_key(right@, k),
{
    let mut i: usize = 0;
    let mut j: usize = 0;
    proof {
        broadcast use vstd::seq_lib::group_to_multiset_ensures;
        broadcast use vstd::multiset::group_multiset_axioms;

        assert(left@.subrange(0, 0) =~= Seq::<T>::empty());
        assert(right@.subrange(0, 0) =~= Seq::<T>::empty());
        assert(merged@ =~= Seq::<T>::empty());
        assert(merged@.to_multiset() =~= Seq::<T>::empty().to_multiset().add(
            Seq::<T>::empty().to_multiset(),
        ));
        assert forall|k: int| #[trigger] entries_with_key(merged@, k) == entries_with_key(
            left@.subrange(0, 0),
            k,
        ) + entries_with_key(right@.subrange(0, 0), k) by {
            lemma_entries_empty(Seq::<T>::empty(), k);
            assert(entries_with_key(Seq::<T>::empty(), k) + entries_with_key(
                Seq::<T>::empty(),
                k,
            ) =~= Seq::<T>::empty());
        }
    }
    while i < left.len() && j < right.len()
        invariant
            is_sorted(left@),
            is_sorted(right@),
            merge_inv(left@, right@, merged@, i as int, j as int),
        decreases left@.len() - i + right@.len() - j,
    {
        if left[i].le(right[j]) {
            proof {
                assert forall|q: int| j <= q < right@.len() implies #[trigger] left@[
                    i as int
                ].key() <= #[trigger] right@[q].key() by {
                    assert(right@[j as int].key() <= right@[q].key());
                }
                lemma_merge_step_left(left@, right@, merged@, i as int, j as int);
            }
            merged.push(left[i]);
            i = i + 1;
        } else {
            proof {
                lemma_merge_step_right(left@, right@, merged@, i as int, j as int);
            }
            merged.push(right[j]);
            j = j + 1;
        }
    }
    while i < left.len()
        invariant
            is_sorted(left@),
            is_sorted(right@),
            i >= left@.len() || j == right@.len(),
            merge_inv(left@, right@, merged@, i as int, j as int),
        decreases left@.len() - i,
    {
        proof {
            lemma_merge_step_left(left@, right@, merged@, i as int, j as int);
        }
        merged.push(left[i]);
        i = i + 1;
    }
    while j < right.len()
        invariant
            is_sorted(left@),
            is_sorted(right@),
            i == left@.len(),
            merge_inv(left@, right@, merged@, i as int, j as int),
        decreases right@.len() - j,
    {
        proof {
            lemma_merge_step_right(left@, right@, merged@, i as int, j as int);
        }
        merged.push(right[j]);
        j = j + 1;
    }
    proof {
        assert(left@.subrange(0, left@.len() as int) =~= left@);
        assert(right@.subrange(0, right@.len() as int) =~= right@);
    }
}

/// Sorts the elements of the given vector in place by merge sort: the
/// vector is split at its midpoint, each half is sorted recursively, and
/// the sorted halves are merged into a fresh buffer that replaces the
/// original contents.
///
/// The merge takes the left half's element on ties, so the sort is stable:
/// for every key, the entries carrying that key keep the order the input
/// held them in, which the `entries_with_key` clause states exactly.
pub fn merge_sort<T: Sortable>(arr: &mut Vec<T>)
    ensures
        is_sorted(final(arr)@),
        final(arr)@.to_multiset() == old(arr)@.to_multiset(),
        forall|k: int| #[trigger] entries_with_key(final(arr)@, k) == entries_with_key(
            old(arr)@,
            k,
        ),
        old(arr)@.len() <= 1 ==> final(arr)@ == old(arr)@,
    decreases arr@.len(),
{
    let len = arr.len();
    if len <= 1 {
        return;
    }
    let mid = len / 2;
    let mut left: Vec<T> = Vec::new();
    let mut right: Vec<T> = Vec::new();
    let mut i: usize = 0;
    while i < mid
        invariant
            i <= mid <= len,
            len == arr@.len(),
            arr@ == old(arr)@,
            left@ == arr@.subrange(0, i as int),
        decreases mid - i,
    {
        left.push(arr[i]);
        proof {
            assert(arr@.subrange(0, i as int + 1) =~= arr@.subrange(0, i as int).push(
                arr@[i as int],
            ));
        }
        i = i + 1;
    }
    let mut j: usize = mid;
    while j < len
        invariant
            mid <= j <= len,
            len == arr@.len(),
            arr@ == old(arr)@,
            right@ == arr@.subrange(mid as int, j as int),
        decreases len - j,
    {
        right.push(arr[j]);
        proof {
            assert(arr@.subrange(mid as int, j as int + 1) =~= arr@.subrange(
                mid as int,
                j as int,
            ).push(arr@[j as int]));
        }
        j = j + 1;
    }
    let ghost l0 = left@;
    let ghost r0 = right@;
    proof {
        assert(old(arr)@ =~= l0 + r0);
    }
    merge_sort(&mut left);
    merge_sort(&mut right);
    let mut merged: Vec<T> = Vec::new();
    merge(&left, &right, &mut merged);
    proof {
        broadcast use vstd::seq_lib::group_to_multiset_ensures;
        broadcast use vstd::multiset::group_multiset_axioms;

        vstd::seq_lib::lemma_multiset_commutative(l0, r0);
        assert(merged@.to_multiset() =~= old(arr)@.to_multiset());
        assert forall|k: int| #[trigger] entries_with_key(merged@, k) == entries_with_key(
            old(arr)@,
            k,
        ) by {
            lemma_entries_concat(l0, r0, k);
        }
    }
    *arr = merged;
}

/// Sorts the elements of the given vector in place by insertion sort: each
/// element in turn is shifted left past every strictly greater predecessor
/// and dropped into the gap, so the processed prefix stays sorted.
pub fn insertion_sort<T: Sortable>(arr: &mut Vec<T>)
    ensures
        is_sorted(final(arr)@),
        final(arr)@.to_multiset() == old(arr)@.to_multiset(),
        old(arr)@.len() <= 1 ==> final(arr)@ == old(arr)@,
{
    let len = arr.len();
    let mut i: usize = 1;
    while i < len
        invariant
            1 <= i,
            i <= len || len == 0,
            len == arr@.len(),
            arr@.to_multiset() == old(arr)@.to_multiset(),
            len <= 1 ==> arr@ == old(arr)@,
            i <= len ==> is_sorted(arr@.subrange(0, i as int)),
        decreases len - i,
    {
        broadcast use vstd::seq_lib::group_to_multiset_ensures;
        broadcast use vstd::multiset::group_multiset_axioms;

        let cur = arr[i];
        let ghost pre = arr@;
        proof {
            assert(pre.update(i as int, cur) =~= pre);
        }
        let mut j: usize = i;
        while j > 0 && !arr[j - 1].le(cur)
            invariant
                j <= i < len,
                len == arr@.len(),
                is_sorted(pre.subrange(0, i as int)),
                cur == pre[i as int],
                forall|k: int| 0 <= k <= j ==> arr@[k] == pre[k],
                forall|k: int| j < k <= i ==> arr@[k] == pre[k - 1],
                forall|k: int| i < k < len ==> arr@[k] == pre[k],
                forall|k: int| j < k <= i ==> #[trigger] arr@[k].key() > cur.key(),
                arr@.update(j as int, cur).to_multiset() == pre.to_multiset(),
            decreases j,
        {
            broadcast use vstd::seq_lib::group_to_multiset_ensures;
            broadcast use vstd::multiset::group_multiset_axioms;

            let ghost before = arr@;
            let shifted = arr[j - 1];
            arr[j] = shifted;
            proof {
                assert(arr@ == before.update(j as int, shifted));
                assert(arr@.update(j as int - 1, cur).to_multiset() =~= before.update(
                    j as int,
                    cur,
                ).to_multiset());
            }
            j = j - 1;
        }
        let ghost before_place = arr@;
        arr[j] = cur;
        proof {
            assert(arr@ == before_place.update(j as int, cur));
            let sp = pre.subrange(0, i as int);
            assert forall|a: int, b: int| 0 <= a <= b <= i implies arr@[a].key()
                <= arr@[b].key() by {
                if a == b {
                } else if b < j {
                    assert(sp[a].key() <= sp[b].key());
                } else if a < j && b == j {
                    assert(sp[a].key() <= sp[j - 1].key());
                } else if a < j && b > j {
                    assert(sp[a].key() <= sp[b - 1].key());
                } else if a == j && b > j {
                    assert(arr@[b].key() > cur.key());
                } else if a > j {
                    assert(sp[a - 1].key() <= sp[b - 1].key());
                }
            }
            assert(is_sorted(arr@.subrange(0, i as int + 1))) by {
                let snew = arr@.subrange(0, i as int + 1);
                assert forall|a: int, b: int| 0 <= a <= b < snew.len() implies #[trigger] snew[a].key()
                    <= #[trigger] snew[b].key() by {
                    assert(snew[a] == arr@[a] && snew[b] == arr@[b]);
                    assert(arr@[a].key() <= arr@[b].key());
                }
            }
        }
        i = i + 1;
    }
    proof {
        if len > 1 {
            assert(arr@ =~= arr@.subrange(0, len as int));
        }
    }
}

} // verus!
