//! Total orders on the library's fixed-point values and a stable verified
//! merge sort used wherever the pipeline needs a canonical order.

use vstd::multiset::Multiset;
use vstd::prelude::*;

verus! {

broadcast use vstd::seq_lib::group_to_multiset_ensures;

/// A total preorder with an executable comparison.
pub trait LexOrder: Sized {
    /// `self` is ordered no later than `other`.
    spec fn ordered_le(self, other: Self) -> bool;

    /// Any two values are comparable.
    proof fn lemma_le_total(a: Self, b: Self)
        ensures
            a.ordered_le(b) || b.ordered_le(a),
    ;

    /// The order is transitive.
    proof fn lemma_le_transitive(a: Self, b: Self, c: Self)
        requires
            a.ordered_le(b),
            b.ordered_le(c),
        ensures
            a.ordered_le(c),
    ;

    /// Compares two values.
    fn le(&self, other: &Self) -> (result: bool)
        ensures
            result == self.ordered_le(*other),
    ;
}

/// Every earlier entry is ordered no later than every later entry.
pub open spec fn sorted<T: LexOrder>(s: Seq<T>) -> bool {
    forall|i: int, j: int| 0 <= i < j < s.len() ==> (#[trigger] s[i]).ordered_le(#[trigger] s[j])
}

/// Every later entry is ordered no later than every earlier entry.
pub open spec fn sorted_descending<T: LexOrder>(s: Seq<T>) -> bool {
    forall|i: int, j: int| 0 <= i < j < s.len() ==> (#[trigger] s[j]).ordered_le(#[trigger] s[i])
}

/// Lexicographic order on integer pairs.
pub open spec fn pair_le(a: (int, int), b: (int, int)) -> bool {
    a.0 < b.0 || (a.0 == b.0 && a.1 <= b.1)
}

/// Lexicographic order on integer triples.
pub open spec fn triple_le(a: (int, int, int), b: (int, int, int)) -> bool {
    a.0 < b.0 || (a.0 == b.0 && pair_le((a.1, a.2), (b.1, b.2)))
}

/// Lexicographic order on integer quadruples.
pub open spec fn quad_le(a: (int, int, int, int), b: (int, int, int, int)) -> bool {
    a.0 < b.0 || (a.0 == b.0 && triple_le((a.1, a.2, a.3), (b.1, b.2, b.3)))
}

impl LexOrder for i64 {
    open spec fn ordered_le(self, other: Self) -> bool {
        self <= other
    }

    proof fn lemma_le_total(a: Self, b: Self) {
    }

    proof fn lemma_le_transitive(a: Self, b: Self, c: Self) {
    }

    fn le(&self, other: &Self) -> (result: bool) {
        *self <= *other
    }
}

/// Moves every entry of `source` into a new vector in reverse order.
fn reversed<T>(source: Vec<T>) -> (target: Vec<T>)
    ensures
        target@.len() == source@.len(),
        forall|i: int|
            0 <= i < source@.len() ==> #[trigger] target@[i] == source@[source@.len() - 1 - i],
        target@.to_multiset() == source@.to_multiset(),
{
    let mut source = source;
    let mut target: Vec<T> = Vec::new();
    let ghost initial = source@;
    while source.len() > 0
        invariant
            source@ == initial.subrange(0, source@.len() as int),
            source@.len() <= initial.len(),
            target@.len() == initial.len() - source@.len(),
            forall|i: int|
                0 <= i < target@.len() ==> #[trigger] target@[i] == initial[initial.len() - 1 - i],
            target@.to_multiset().add(source@.to_multiset()) == initial.to_multiset(),
        decreases source@.len(),
    {
        let ghost before_source = source@;
        let ghost before_target = target@;
        let item = source.pop().unwrap();
        proof {
            assert(before_source == source@.push(item));
        }
        target.push(item);
        proof {
            assert(target@ == before_target.push(item));
            assert(source@ =~= initial.subrange(0, source@.len() as int));
            assert(target@.to_multiset().add(source@.to_multiset()) =~= before_target.to_multiset().add(
                before_source.to_multiset(),
            ));
        }
    }
    proof {
        assert(source@.to_multiset() =~= Multiset::empty());
        assert(target@.to_multiset() =~= target@.to_multiset().add(source@.to_multiset()));
    }
    target
}

/// Merges two sorted vectors into one sorted vector holding the same entries;
/// entries of `left` precede equal entries of `right`.
fn merge<T: LexOrder>(left: Vec<T>, right: Vec<T>) -> (merged: Vec<T>)
    requires
        sorted(left@),
        sorted(right@),
    ensures
        sorted(merged@),
        merged@.to_multiset() == left@.to_multiset().add(right@.to_multiset()),
{
    let mut left = left;
    let mut right = right;
    let ghost initial_left = left@;
    let ghost initial_right = right@;
    let mut descending: Vec<T> = Vec::new();
    while left.len() > 0 || right.len() > 0
        invariant
            sorted(left@),
            sorted(right@),
            sorted_descending(descending@),
            forall|i: int, j: int|
                0 <= i < descending@.len() && 0 <= j < left@.len() ==> (#[trigger] left@[j]).ordered_le(
                    #[trigger] descending@[i],
                ),
            forall|i: int, j: int|
                0 <= i < descending@.len() && 0 <= j < right@.len() ==> (#[trigger] right@[j]).ordered_le(
                    #[trigger] descending@[i],
                ),
            descending@.to_multiset().add(left@.to_multiset()).add(right@.to_multiset())
                == initial_left.to_multiset().add(initial_right.to_multiset()),
        decreases left@.len() + right@.len(),
    {
        let take_left = if left.len() == 0 {
            false
        } else if right.len() == 0 {
            true
        } else {
            !left[left.len() - 1].le(&right[right.len() - 1])
        };
        let ghost before_left = left@;
        let ghost before_right = right@;
        let ghost before_descending = descending@;
        if take_left {
            let item = left.pop().unwrap();
            proof {
                assert(before_left == left@.push(item));
                if right@.len() > 0 {
                    T::lemma_le_total(item, right@.last());
                }
                assert forall|j: int| 0 <= j < right@.len() implies (#[trigger] right@[j]).ordered_le(
                    item,
                ) by {
                    if j < right@.len() - 1 {
                        T::lemma_le_transitive(right@[j], right@.last(), item);
                    }
                }
                assert forall|j: int| 0 <= j < left@.len() implies (#[trigger] left@[j]).ordered_le(
                    item,
                ) by {
                    assert(before_left[j] == left@[j]);
                    assert(before_left[before_left.len() - 1] == item);
                }
            }
            descending.push(item);
            proof {
                assert(descending@ == before_descending.push(item));
                assert forall|i: int, j: int|
                    0 <= i < descending@.len() && 0 <= j < left@.len() implies (#[trigger] left@[j]).ordered_le(
                    #[trigger] descending@[i],
                ) by {
                    if i < before_descending.len() {
                        assert(before_left[j] == left@[j]);
                    }
                }
                assert forall|i: int, j: int|
                    0 <= i < j < descending@.len() implies (#[trigger] descending@[j]).ordered_le(
                    #[trigger] descending@[i],
                ) by {
                    if j == descending@.len() - 1 {
                        assert(before_descending[i] == descending@[i]);
                        assert(before_left[before_left.len() - 1] == item);
                        assert(before_left[before_left.len() - 1].ordered_le(before_descending[i]));
                    } else {
                        assert(before_descending[i] == descending@[i]);
                        assert(before_descending[j] == descending@[j]);
                    }
                }
                assert(descending@.to_multiset().add(left@.to_multiset()).add(right@.to_multiset())
                    =~= before_descending.to_multiset().add(before_left.to_multiset()).add(
                    before_right.to_multiset(),
                ));
            }
        } else {
            let item = right.pop().unwrap();
            proof {
                assert(before_right == right@.push(item));
                if left@.len() > 0 {
                    T::lemma_le_total(item, left@.last());
                }
                assert forall|j: int| 0 <= j < left@.len() implies (#[trigger] left@[j]).ordered_le(
                    item,
                ) by {
                    if j < left@.len() - 1 {
                        T::lemma_le_transitive(left@[j], left@.last(), item);
                    }
                }
                assert forall|j: int| 0 <= j < right@.len() implies (#[trigger] right@[j]).ordered_le(
                    item,
                ) by {
                    assert(before_right[j] == right@[j]);
                    assert(before_right[before_right.len() - 1] == item);
                }
            }
            descending.push(item);
            proof {
                assert(descending@ == before_descending.push(item));
                assert forall|i: int, j: int|
                    0 <= i < descending@.len() && 0 <= j < right@.len() implies (#[trigger] right@[j]).ordered_le(
                    #[trigger] descending@[i],
                ) by {
                    if i < before_descending.len() {
                        assert(before_right[j] == right@[j]);
                    }
                }
                assert forall|i: int, j: int|
                    0 <= i < j < descending@.len() implies (#[trigger] descending@[j]).ordered_le(
                    #[trigger] descending@[i],
                ) by {
                    if j == descending@.len() - 1 {
                        assert(before_descending[i] == descending@[i]);
                        assert(before_right[before_right.len() - 1] == item);
                        assert(before_right[before_right.len() - 1].ordered_le(before_descending[i]));
                    } else {
                        assert(before_descending[i] == descending@[i]);
                        assert(before_descending[j] == descending@[j]);
                    }
                }
                assert(descending@.to_multiset().add(left@.to_multiset()).add(right@.to_multiset())
                    =~= before_descending.to_multiset().add(before_left.to_multiset()).add(
                    before_right.to_multiset(),
                ));
            }
        }
    }
    let ghost final_descending = descending@;
    let merged = reversed(descending);
    proof {
        assert(left@.to_multiset() =~= Multiset::empty());
        assert(right@.to_multiset() =~= Multiset::empty());
        assert(merged@.to_multiset() =~= final_descending.to_multiset());
        assert forall|i: int, j: int| 0 <= i < j < merged@.len() implies (#[trigger] merged@[i]).ordered_le(
            #[trigger] merged@[j],
        ) by {
            assert(merged@[i] == final_descending[final_descending.len() - 1 - i]);
            assert(merged@[j] == final_descending[final_descending.len() - 1 - j]);
        }
    }
    merged
}

/// Sorts `items` stably into the order given by [`LexOrder`].
pub fn sort_vec<T: LexOrder>(items: Vec<T>) -> (result: Vec<T>)
    ensures
        sorted(result@),
        result@.to_multiset() == items@.to_multiset(),
        result@.len() == items@.len(),
    decreases items@.len(),
{
    if items.len() <= 1 {
        return items;
    }
    let mut left = items;
    let middle = left.len() / 2;
    let ghost initial = left@;
    let right = left.split_off(middle);
    proof {
        assert(initial =~= left@ + right@);
        vstd::seq_lib::lemma_multiset_commutative(left@, right@);
    }
    let sorted_left = sort_vec(left);
    let sorted_right = sort_vec(right);
    let merged = merge(sorted_left, sorted_right);
    proof {
        merged@.to_multiset_ensures();
    }
    merged
}

/// Two sequences holding the same multiset of items have the same members.
pub proof fn lemma_same_members<T>(a: Seq<T>, b: Seq<T>)
    requires
        a.to_multiset() == b.to_multiset(),
    ensures
        forall|i: int| 0 <= i < b.len() ==> a.contains(#[trigger] b[i]),
{
    assert forall|i: int| 0 <= i < b.len() implies a.contains(#[trigger] b[i]) by {
        a.to_multiset_ensures();
        b.to_multiset_ensures();
        assert(b.contains(b[i]));
        assert(b.to_multiset().count(b[i]) > 0);
        assert(a.to_multiset().count(b[i]) > 0);
    }
}


/// The sum of `f` over a sequence.
pub open spec fn seq_sum<T>(s: Seq<T>, f: spec_fn(T) -> int) -> int
    decreases s.len(),
{
    if s.len() == 0 {
        0
    } else {
        seq_sum(s.drop_last(), f) + f(s.last())
    }
}

/// Appending adds one term.
pub proof fn lemma_seq_sum_push<T>(s: Seq<T>, x: T, f: spec_fn(T) -> int)
    ensures
        seq_sum(s.push(x), f) == seq_sum(s, f) + f(x),
{
    assert(s.push(x).drop_last() =~= s);
}

/// Removing one entry removes its term.
pub proof fn lemma_seq_sum_remove<T>(s: Seq<T>, i: int, f: spec_fn(T) -> int)
    requires
        0 <= i < s.len(),
    ensures
        seq_sum(s, f) == seq_sum(s.remove(i), f) + f(s[i]),
    decreases s.len(),
{
    if i == s.len() - 1 {
        assert(s.remove(i) =~= s.drop_last());
    } else {
        lemma_seq_sum_remove(s.drop_last(), i, f);
        assert(s.remove(i).drop_last() =~= s.drop_last().remove(i));
        assert(s.remove(i).last() == s.last());
    }
}

/// Mapping two permutations of each other gives permutations of each other.
pub proof fn lemma_map_permutation<A, B>(a: Seq<A>, b: Seq<A>, f: spec_fn(A) -> B)
    requires
        a.to_multiset() == b.to_multiset(),
    ensures
        a.map_values(f).to_multiset() == b.map_values(f).to_multiset(),
    decreases a.len(),
{
    broadcast use vstd::seq_lib::group_to_multiset_ensures;

    if a.len() == 0 {
        assert(b.len() == b.to_multiset().len());
        assert(a.map_values(f) =~= Seq::<B>::empty());
        assert(b.map_values(f) =~= Seq::<B>::empty());
    } else {
        let x = a.last();
        let rest = a.drop_last();
        assert(rest.push(x) =~= a);
        assert(a.contains(x)) by {
            assert(a[a.len() - 1] == x);
        }
        assert(a.to_multiset().count(x) > 0);
        assert(b.contains(x));
        let k = choose|k: int| 0 <= k < b.len() && b[k] == x;
        assert(rest.to_multiset() =~= a.to_multiset().remove(x));
        assert(b.remove(k).to_multiset() == b.to_multiset().remove(b[k]));
        lemma_map_permutation(rest, b.remove(k), f);
        assert(a.map_values(f) =~= rest.map_values(f).push(f(x)));
        assert(b.remove(k).map_values(f) =~= b.map_values(f).remove(k));
        assert(b.map_values(f)[k] == f(x));
        assert(b.map_values(f).remove(k).to_multiset() == b.map_values(f).to_multiset().remove(f(x)));
        assert(b.map_values(f).contains(f(x)));
        assert(b.map_values(f).to_multiset().count(f(x)) > 0);
        assert(a.map_values(f).to_multiset() =~= b.map_values(f).to_multiset().remove(f(x)).insert(f(x)));
    }
}

/// A sum does not depend on the order of its terms.
pub proof fn lemma_seq_sum_permutation<T>(a: Seq<T>, b: Seq<T>, f: spec_fn(T) -> int)
    requires
        a.to_multiset() == b.to_multiset(),
    ensures
        seq_sum(a, f) == seq_sum(b, f),
    decreases a.len(),
{
    broadcast use vstd::seq_lib::group_to_multiset_ensures;

    if a.len() == 0 {
        assert(b.len() == b.to_multiset().len());
    } else {
        let x = a.last();
        let rest = a.drop_last();
        assert(rest.push(x) =~= a);
        assert(a.contains(x)) by {
            assert(a[a.len() - 1] == x);
        }
        assert(a.to_multiset().count(x) > 0);
        assert(b.contains(x));
        let k = choose|k: int| 0 <= k < b.len() && b[k] == x;
        lemma_seq_sum_remove(b, k, f);
        assert(rest.to_multiset() =~= a.to_multiset().remove(x));
        assert(b.remove(k).to_multiset() == b.to_multiset().remove(b[k]));
        lemma_seq_sum_permutation(rest, b.remove(k), f);
    }
}

} // verus!
