//! Lexicographic order, sorting by keys, and putting a rearranged list back in order.
use vstd::prelude::*;
use vstd::relations::total_ordering;
use vstd::seq_lib::lemma_multiset_commutative;
use vstd::set_lib::{lemma_int_range, lemma_subset_equality, set_int_range};

verus! {

broadcast use {vstd::seq_lib::group_to_multiset_ensures, vstd::multiset::group_multiset_axioms};

/// The lexicographic order of byte strings: at the first place where the two differ, `a` has
/// ended or has the smaller byte.
pub open spec fn lex_less(a: Seq<u8>, b: Seq<u8>) -> bool {
    exists|k: int|
        {
            &&& 0 <= k <= a.len()
            &&& k < b.len()
            &&& #[trigger] agree_up_to(a, b, k)
            &&& (k == a.len() || a[k] < b[k])
        }
}

/// `a` and `b` hold the same bytes in the first `k` places.
pub open spec fn agree_up_to(a: Seq<u8>, b: Seq<u8>, k: int) -> bool {
    forall|m: int| 0 <= m < k ==> a[m] == b[m]
}

/// Of two different byte strings, one comes first.
pub proof fn lemma_lex_total(a: Seq<u8>, b: Seq<u8>)
    ensures
        lex_less(a, b) || lex_less(b, a) || a == b,
{
    lemma_lex_total_from(a, b, 0);
}

proof fn lemma_lex_total_from(a: Seq<u8>, b: Seq<u8>, k: int)
    requires
        0 <= k <= a.len(),
        k <= b.len(),
        agree_up_to(a, b, k),
    ensures
        lex_less(a, b) || lex_less(b, a) || a == b,
    decreases a.len() - k,
{
    assert(agree_up_to(b, a, k));
    if k == a.len() && k == b.len() {
        assert(a =~= b);
    } else if k < a.len() && k < b.len() && a[k] == b[k] {
        lemma_lex_total_from(a, b, k + 1);
    }
}

/// No byte string comes both before and after another.
pub proof fn lemma_lex_asymmetric(a: Seq<u8>, b: Seq<u8>)
    requires
        lex_less(a, b),
    ensures
        !lex_less(b, a),
        a != b,
{
    let k = choose|k: int|
        {
            &&& 0 <= k <= a.len()
            &&& k < b.len()
            &&& #[trigger] agree_up_to(a, b, k)
            &&& (k == a.len() || a[k] < b[k])
        };
    if lex_less(b, a) {
        let m = choose|m: int|
            {
                &&& 0 <= m <= b.len()
                &&& m < a.len()
                &&& #[trigger] agree_up_to(b, a, m)
                &&& (m == b.len() || b[m] < a[m])
            };
        if k < m {
            assert(b[k] == a[k]);
        } else if m < k {
            assert(a[m] == b[m]);
        }
    }
}

/// The order is transitive.
pub proof fn lemma_lex_transitive(a: Seq<u8>, b: Seq<u8>, c: Seq<u8>)
    requires
        lex_less(a, b),
        lex_less(b, c),
    ensures
        lex_less(a, c),
{
    let k = choose|k: int|
        {
            &&& 0 <= k <= a.len()
            &&& k < b.len()
            &&& #[trigger] agree_up_to(a, b, k)
            &&& (k == a.len() || a[k] < b[k])
        };
    let m = choose|m: int|
        {
            &&& 0 <= m <= b.len()
            &&& m < c.len()
            &&& #[trigger] agree_up_to(b, c, m)
            &&& (m == b.len() || b[m] < c[m])
        };
    let first = if k < m { k } else { m };
    assert(agree_up_to(a, c, first));
}

/// "Before or equal" is a total order of byte strings.
pub proof fn lemma_lex_total_ordering()
    ensures
        total_ordering(|a: Seq<u8>, b: Seq<u8>| lex_less(a, b) || a == b),
{
    assert forall|a: Seq<u8>, b: Seq<u8>| lex_less(a, b) || lex_less(b, a) || a == b by {
        lemma_lex_total(a, b);
    }
    assert forall|a: Seq<u8>, b: Seq<u8>| #[trigger] lex_less(a, b) implies !lex_less(b, a) by {
        lemma_lex_asymmetric(a, b);
    }
    assert forall|a: Seq<u8>, b: Seq<u8>, c: Seq<u8>| #[trigger]
        lex_less(a, b) && #[trigger] lex_less(b, c) implies lex_less(a, c) by {
        lemma_lex_transitive(a, b, c);
    }
}

/// Whether `a` comes before `b` in lexicographic order.
pub fn is_lex_less(a: &[u8; 32], b: &[u8; 32]) -> (result: bool)
    ensures
        result == lex_less(a@, b@),
{
    let mut i: usize = 0;
    while i < 32
        invariant
            0 <= i <= 32,
            agree_up_to(a@, b@, i as int),
        decreases 32 - i,
    {
        if a[i] < b[i] {
            return true;
        }
        if b[i] < a[i] {
            proof {
                assert(agree_up_to(b@, a@, i as int));
                assert(lex_less(b@, a@));
                lemma_lex_asymmetric(b@, a@);
            }
            return false;
        }
        i += 1;
    }
    false
}

/// The key at index `i` comes before the key at index `j`; of equal keys, the one with the
/// smaller index does.
pub open spec fn index_before(keys: Seq<[u8; 32]>, i: usize, j: usize) -> bool {
    lex_less(keys[i as int]@, keys[j as int]@) || (keys[i as int]@ == keys[j as int]@ && i < j)
}

/// Every index in `indexes` comes before all that follow it.
pub open spec fn in_key_order(keys: Seq<[u8; 32]>, indexes: Seq<usize>) -> bool {
    forall|x: int, y: int|
        0 <= x < y < indexes.len() ==> #[trigger] index_before(keys, indexes[x], indexes[y])
}

proof fn lemma_index_before_transitive(keys: Seq<[u8; 32]>, i: usize, j: usize, k: usize)
    requires
        index_before(keys, i, j),
        index_before(keys, j, k),
    ensures
        index_before(keys, i, k),
{
    if lex_less(keys[i as int]@, keys[j as int]@) && lex_less(keys[j as int]@, keys[k as int]@) {
        lemma_lex_transitive(keys[i as int]@, keys[j as int]@, keys[k as int]@);
    }
}

/// The indexes from `lo` up to `hi`, in order.
pub open spec fn span(lo: int, hi: int) -> Seq<usize> {
    Seq::new((hi - lo) as nat, |i: int| (lo + i) as usize)
}

/// Merges two ordered runs of indexes into one.
fn merge(keys: &Vec<[u8; 32]>, left: &Vec<usize>, right: &Vec<usize>) -> (merged: Vec<usize>)
    requires
        forall|x: int| 0 <= x < left@.len() ==> (#[trigger] left@[x]) < keys@.len(),
        forall|y: int| 0 <= y < right@.len() ==> (#[trigger] right@[y]) < keys@.len(),
        forall|x: int, y: int|
            0 <= x < left@.len() && 0 <= y < right@.len() ==> #[trigger] left@[x]
                < #[trigger] right@[y],
        in_key_order(keys@, left@),
        in_key_order(keys@, right@),
    ensures
        in_key_order(keys@, merged@),
        merged@.to_multiset() == left@.to_multiset().add(right@.to_multiset()),
{
    let mut merged: Vec<usize> = Vec::new();
    let mut l: usize = 0;
    let mut r: usize = 0;
    proof {
        assert(left@.take(0) =~= Seq::empty());
        assert(right@.take(0) =~= Seq::empty());
    }
    while l < left.len() || r < right.len()
        invariant
            l <= left@.len(),
            r <= right@.len(),
            forall|x: int| 0 <= x < left@.len() ==> (#[trigger] left@[x]) < keys@.len(),
            forall|y: int| 0 <= y < right@.len() ==> (#[trigger] right@[y]) < keys@.len(),
            forall|x: int, y: int|
                0 <= x < left@.len() && 0 <= y < right@.len() ==> #[trigger] left@[x]
                    < #[trigger] right@[y],
            in_key_order(keys@, left@),
            in_key_order(keys@, right@),
            in_key_order(keys@, merged@),
            forall|m: int, x: int|
                0 <= m < merged@.len() && l <= x < left@.len() ==> #[trigger] index_before(
                    keys@,
                    merged@[m],
                    left@[x],
                ),
            forall|m: int, y: int|
                0 <= m < merged@.len() && r <= y < right@.len() ==> #[trigger] index_before(
                    keys@,
                    merged@[m],
                    right@[y],
                ),
            merged@.to_multiset() == left@.take(l as int).to_multiset().add(
                right@.take(r as int).to_multiset(),
            ),
        decreases left@.len() - l + right@.len() - r,
    {
        let ghost merged_before = merged@;
        let take_left = if r == right.len() {
            true
        } else if l == left.len() {
            false
        } else {
            !is_lex_less(&keys[right[r]], &keys[left[l]])
        };
        if take_left {
            proof {
                assert(left@.take(l + 1) =~= left@.take(l as int).push(left@[l as int]));
                if r < right@.len() {
                    lemma_lex_total(
                        keys@[right@[r as int] as int]@,
                        keys@[left@[l as int] as int]@,
                    );
                    assert(index_before(keys@, left@[l as int], right@[r as int]));
                    assert forall|y: int| r <= y < right@.len() implies #[trigger] index_before(
                        keys@,
                        left@[l as int],
                        right@[y],
                    ) by {
                        if y > r {
                            lemma_index_before_transitive(
                                keys@,
                                left@[l as int],
                                right@[r as int],
                                right@[y],
                            );
                        }
                    }
                }
            }
            merged.push(left[l]);
            l += 1;
        } else {
            proof {
                assert(right@.take(r + 1) =~= right@.take(r as int).push(right@[r as int]));
                if l < left@.len() {
                    assert(index_before(keys@, right@[r as int], left@[l as int]));
                    assert forall|x: int| l <= x < left@.len() implies #[trigger] index_before(
                        keys@,
                        right@[r as int],
                        left@[x],
                    ) by {
                        if x > l {
                            lemma_index_before_transitive(
                                keys@,
                                right@[r as int],
                                left@[l as int],
                                left@[x],
                            );
                        }
                    }
                }
            }
            merged.push(right[r]);
            r += 1;
        }
        proof {
            assert forall|x: int, y: int|
                0 <= x < y < merged@.len() implies #[trigger] index_before(
                keys@,
                merged@[x],
                merged@[y],
            ) by {
                if y < merged_before.len() {
                    assert(index_before(keys@, merged_before[x], merged_before[y]));
                }
            }
        }
    }
    proof {
        assert(left@.take(l as int) =~= left@);
        assert(right@.take(r as int) =~= right@);
    }
    merged
}

/// The indexes from `lo` up to `hi`, in the order of their keys.
fn sort_span(keys: &Vec<[u8; 32]>, lo: usize, hi: usize) -> (sorted: Vec<usize>)
    requires
        lo <= hi <= keys@.len(),
    ensures
        in_key_order(keys@, sorted@),
        sorted@.to_multiset() == span(lo as int, hi as int).to_multiset(),
        forall|x: int| 0 <= x < sorted@.len() ==> lo <= (#[trigger] sorted@[x]) < hi,
    decreases hi - lo,
{
    if hi - lo < 2 {
        let mut sorted: Vec<usize> = Vec::new();
        if lo < hi {
            sorted.push(lo);
        }
        assert(sorted@ =~= span(lo as int, hi as int));
        return sorted;
    }
    let mid: usize = lo + (hi - lo) / 2;
    let left = sort_span(keys, lo, mid);
    let right = sort_span(keys, mid, hi);
    let sorted = merge(keys, &left, &right);
    proof {
        let low = span(lo as int, mid as int);
        let high = span(mid as int, hi as int);
        assert(span(lo as int, hi as int) =~= low + high);
        lemma_multiset_commutative(low, high);
        assert(sorted@.to_multiset() =~= span(lo as int, hi as int).to_multiset());
        assert forall|x: int| 0 <= x < sorted@.len() implies lo <= (#[trigger] sorted@[x]) < hi by {
            assert(sorted@.contains(sorted@[x]));
            assert(span(lo as int, hi as int).to_multiset().count(sorted@[x]) > 0);
        }
    }
    sorted
}

/// The indexes of `keys` in the lexicographic order of the keys; equal keys keep their order.
pub fn sorted_indexes(keys: &Vec<[u8; 32]>) -> (sorted: Vec<usize>)
    ensures
        in_key_order(keys@, sorted@),
        sorted@.to_multiset() == span(0, keys@.len() as int).to_multiset(),
{
    sort_span(keys, 0, keys.len())
}

/// The numbers in `indexes` are those below its length, each once.
pub open spec fn is_permutation(indexes: Seq<usize>) -> bool {
    &&& forall|j: int| 0 <= j < indexes.len() ==> (#[trigger] indexes[j]) < indexes.len()
    &&& indexes.no_duplicates()
}

/// A permutation reaches every index.
pub proof fn lemma_permutation_onto(indexes: Seq<usize>, i: int)
    requires
        is_permutation(indexes),
        0 <= i < indexes.len(),
    ensures
        exists|j: int| 0 <= j < indexes.len() && #[trigger] indexes[j] == i,
{
    let n = indexes.len() as int;
    let numbers = indexes.map_values(|index: usize| index as int);
    assert(numbers.no_duplicates()) by {
        assert forall|x: int, y: int|
            0 <= x < numbers.len() && 0 <= y < numbers.len() && x != y implies numbers[x]
            != numbers[y] by {
            assert(indexes[x] != indexes[y]);
        }
    }
    numbers.unique_seq_to_set();
    lemma_int_range(0, n);
    assert(numbers.to_set().subset_of(set_int_range(0, n)));
    lemma_subset_equality(numbers.to_set(), set_int_range(0, n));
    assert(numbers.to_set().contains(i));
    let j = choose|j: int| 0 <= j < numbers.len() && numbers[j] == i;
    assert(indexes[j] == i);
}

/// A rearrangement of the indexes below `n` is a permutation.
pub proof fn lemma_rearranged_span(indexes: Seq<usize>, n: int)
    requires
        0 <= n <= usize::MAX,
        indexes.to_multiset() == span(0, n).to_multiset(),
    ensures
        indexes.len() == n,
        is_permutation(indexes),
{
    let all = span(0, n);
    assert(all.no_duplicates());
    all.lemma_multiset_has_no_duplicates();
    indexes.lemma_multiset_has_no_duplicates_conv();
    assert(indexes.len() == indexes.to_multiset().len());
    assert(all.len() == all.to_multiset().len());
    assert forall|j: int| 0 <= j < indexes.len() implies (#[trigger] indexes[j])
        < indexes.len() by {
        assert(indexes.contains(indexes[j]));
        assert(all.to_multiset().count(indexes[j]) > 0);
        assert(all.contains(indexes[j]));
    }
}

/// Rearranged sequences stay so when the same function is applied to all their items.
pub proof fn lemma_map_rearranged<A, B>(s: Seq<A>, t: Seq<A>, f: spec_fn(A) -> B)
    requires
        s.to_multiset() == t.to_multiset(),
    ensures
        s.map_values(f).to_multiset() == t.map_values(f).to_multiset(),
    decreases s.len(),
{
    assert(s.len() == s.to_multiset().len());
    assert(t.len() == t.to_multiset().len());
    if s.len() == 0 {
        assert(s.map_values(f) =~= t.map_values(f));
    } else {
        assert(s.contains(s.last()));
        assert(t.to_multiset().count(s.last()) > 0);
        assert(t.contains(s.last()));
        let i = choose|i: int| 0 <= i < t.len() && t[i] == s.last();
        let s_rest = s.remove(s.len() - 1);
        let t_rest = t.remove(i);
        assert(s_rest.to_multiset() =~= t_rest.to_multiset());
        lemma_map_rearranged(s_rest, t_rest, f);
        assert(s.map_values(f).remove(s.len() - 1) =~= s_rest.map_values(f));
        assert(t.map_values(f).remove(i) =~= t_rest.map_values(f));
        assert(s.map_values(f).to_multiset() =~= s.map_values(f).remove(
            s.len() - 1,
        ).to_multiset().insert(f(s.last())));
        assert(t.map_values(f).to_multiset() =~= t.map_values(f).remove(i).to_multiset().insert(
            f(t[i]),
        ));
    }
}

/// Taking the items of a sequence in the order of a permutation rearranges the sequence.
pub proof fn lemma_permuted_items<A>(items: Seq<A>, indexes: Seq<usize>)
    requires
        items.len() == indexes.len(),
        is_permutation(indexes),
    ensures
        indexes.map_values(|index: usize| items[index as int]).to_multiset()
            == items.to_multiset(),
{
    let n = items.len() as int;
    let f = |index: usize| items[index as int];
    if n > 0 {
        lemma_permutation_onto(indexes, n - 1);
    }
    assert(n - 1 <= usize::MAX);
    let all = span(0, n);
    assert(all.no_duplicates());
    all.lemma_multiset_has_no_duplicates();
    indexes.lemma_multiset_has_no_duplicates();
    assert(indexes.to_multiset() =~= all.to_multiset()) by {
        assert forall|x: usize| indexes.to_multiset().count(x) == all.to_multiset().count(x) by {
            if x < n {
                lemma_permutation_onto(indexes, x as int);
                assert(indexes.contains(x));
                assert(all[x as int] == x);
                assert(all.contains(x));
                assert(indexes.to_multiset().contains(x));
                assert(all.to_multiset().contains(x));
            } else {
                assert(!indexes.contains(x));
                assert(!all.contains(x));
            }
        }
    }
    lemma_map_rearranged(indexes, all, f);
    assert(all.map_values(f) =~= items);
}

/// Puts each item at the index that stands beside it.
pub fn collect_permutation<T>(items: Vec<(T, usize)>) -> (collected: Vec<T>)
    requires
        is_permutation(items@.map_values(|item: (T, usize)| item.1)),
    ensures
        collected@.len() == items@.len(),
        forall|j: int|
            0 <= j < items@.len() ==> collected@[(#[trigger] items@[j]).1 as int] == items@[j].0,
{
    let ghost all = items@;
    let ghost indexes = items@.map_values(|item: (T, usize)| item.1);
    let n: usize = items.len();
    let mut slots: Vec<Option<T>> = Vec::new();
    while slots.len() < n
        invariant
            slots@.len() <= n,
        decreases n - slots@.len(),
    {
        slots.push(None);
    }
    let mut rest = items;
    while rest.len() > 0
        invariant
            all.len() == n,
            indexes == all.map_values(|item: (T, usize)| item.1),
            is_permutation(indexes),
            slots@.len() == n,
            rest@.len() <= n,
            rest@ == all.take(rest@.len() as int),
            forall|j: int|
                rest@.len() <= j < n ==> slots@[(#[trigger] all[j]).1 as int] == Some(all[j].0),
        decreases rest@.len(),
    {
        let ghost last = rest@.len() - 1;
        if let Some((item, index)) = rest.pop() {
            assert(rest@ =~= all.take(last));
            assert(all[last] == (item, index));
            assert(indexes[last] == index);
            assert forall|j: int| last < j < n implies (#[trigger] all[j]).1 != index by {
                assert(indexes[j] != indexes[last]);
            }
            assert forall|j: int| last < j < n implies (#[trigger] all[j]).1 < n by {
                assert(indexes[j] < n);
            }
            slots.set(index, Some(item));
        }
    }
    let mut collected: Vec<T> = Vec::new();
    proof {
        assert forall|i: int| 0 <= i < n implies (#[trigger] slots@[i]) is Some by {
            lemma_permutation_onto(indexes, i);
            let j = choose|j: int| 0 <= j < indexes.len() && #[trigger] indexes[j] == i;
            assert(slots@[all[j].1 as int] == Some(all[j].0));
        }
    }
    let ghost filled = slots@;
    let mut i: usize = 0;
    while i < n
        invariant
            i <= n,
            slots@.len() == n,
            filled.len() == n,
            collected@.len() == i,
            forall|k: int| 0 <= k < n ==> (#[trigger] filled[k]) is Some,
            forall|k: int| i <= k < n ==> #[trigger] slots@[k] == filled[k],
            forall|k: int| 0 <= k < i ==> Some(#[trigger] collected@[k]) == filled[k],
        decreases n - i,
    {
        let slot = slots[i].take();
        assert(slot == filled[i as int]);
        if let Some(item) = slot {
            collected.push(item);
        }
        i += 1;
    }
    assert forall|j: int| 0 <= j < n implies collected@[(#[trigger] all[j]).1 as int]
        == all[j].0 by {
        assert(indexes[j] < n);
        assert(filled[all[j].1 as int] == Some(all[j].0));
    }
    collected
}

} // verus!
