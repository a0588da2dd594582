//! Ordering rows by their key without reordering rows of one key.

use vstd::prelude::*;
use vstd::seq_lib::{lemma_multiset_commutative, to_multiset_build};
use vstd::slice::slice_subrange;
use crate::line_item::{get_state_index, sort_key, LineItem};

verus! {

/// Whether the keys of the rows never fall from one row to the next.
pub open spec fn is_sorted(rows: Seq<LineItem>) -> bool {
    forall|i: int, j: int| 0 <= i <= j < rows.len() ==> sort_key(rows[i]) <= sort_key(rows[j])
}

/// The rows with the given key, in the order in which they stand.
pub open spec fn with_key(rows: Seq<LineItem>, key: int) -> Seq<LineItem>
    decreases rows.len(),
{
    if rows.len() == 0 {
        Seq::empty()
    } else if sort_key(rows.last()) == key {
        with_key(rows.drop_last(), key).push(rows.last())
    } else {
        with_key(rows.drop_last(), key)
    }
}

/// Whether `sorted` holds the rows of `rows` ordered by key, the rows of each
/// key in the order in which they stand in `rows`.
pub open spec fn is_stable_sort_of(sorted: Seq<LineItem>, rows: Seq<LineItem>) -> bool {
    &&& is_sorted(sorted)
    &&& sorted.len() == rows.len()
    &&& sorted.to_multiset() == rows.to_multiset()
    &&& forall|key: int| #[trigger] with_key(sorted, key) == with_key(rows, key)
}

/// The rows of one key in two stretches of rows that follow each other.
pub proof fn lemma_with_key_concat(front: Seq<LineItem>, back: Seq<LineItem>, key: int)
    ensures
        with_key(front + back, key) == with_key(front, key) + with_key(back, key),
    decreases back.len(),
{
    if back.len() == 0 {
        assert(front + back =~= front);
        assert(with_key(front, key) + with_key(back, key) =~= with_key(front, key));
    } else {
        lemma_with_key_concat(front, back.drop_last(), key);
        assert((front + back).drop_last() =~= front + back.drop_last());
        if sort_key(back.last()) == key {
            assert(with_key(front + back, key) =~= with_key(front, key) + with_key(back, key));
        }
    }
}

/// Rows that all have other keys hold no row of the key.
pub proof fn lemma_with_key_absent(rows: Seq<LineItem>, key: int)
    requires
        forall|i: int| 0 <= i < rows.len() ==> sort_key(#[trigger] rows[i]) != key,
    ensures
        with_key(rows, key) == Seq::<LineItem>::empty(),
    decreases rows.len(),
{
    if rows.len() > 0 {
        lemma_with_key_absent(rows.drop_last(), key);
    }
}

/// Rows have one stable sort: two sequences that both hold the rows ordered
/// by key, the rows of each key in their order, are the same.
pub proof fn lemma_stable_sort_unique(a: Seq<LineItem>, b: Seq<LineItem>, rows: Seq<LineItem>)
    requires
        is_stable_sort_of(a, rows),
        is_stable_sort_of(b, rows),
    ensures
        a == b,
{
    lemma_sorted_by_keys_unique(a, b);
}

/// Two sorted sequences of one length that agree on the rows of every key
/// are the same.
proof fn lemma_sorted_by_keys_unique(a: Seq<LineItem>, b: Seq<LineItem>)
    requires
        is_sorted(a),
        is_sorted(b),
        a.len() == b.len(),
        forall|key: int| #[trigger] with_key(a, key) == with_key(b, key),
    ensures
        a == b,
    decreases a.len(),
{
    if a.len() == 0 {
        assert(a =~= b);
    } else {
        let key_a = sort_key(a.last());
        let key_b = sort_key(b.last());
        // Each last row has the greatest key of its sequence, and the other
        // sequence holds a row of that key too.
        assert(with_key(a, key_a) == with_key(b, key_a));
        assert(with_key(a, key_b) == with_key(b, key_b));
        if key_a > key_b {
            lemma_with_key_absent(b, key_a);
        }
        if key_b > key_a {
            lemma_with_key_absent(a, key_b);
        }
        assert(with_key(a, key_a).last() == a.last());
        assert(with_key(b, key_a).last() == b.last());
        let front_a = a.drop_last();
        let front_b = b.drop_last();
        assert forall|key: int| #[trigger] with_key(front_a, key) == with_key(front_b, key) by {
            assert(with_key(a, key) == with_key(b, key));
            if key == key_a {
                assert(with_key(front_a, key) =~= with_key(a, key).drop_last());
                assert(with_key(front_b, key) =~= with_key(b, key).drop_last());
            }
        }
        lemma_sorted_by_keys_unique(front_a, front_b);
        assert(a =~= front_a.push(a.last()));
        assert(b =~= front_b.push(b.last()));
    }
}

/// The key of a row.
fn key_of(item: &LineItem) -> (key: usize)
    ensures
        key == sort_key(*item),
{
    get_state_index(&item.l_returnflag, &item.l_linestatus)
}

/// Merges two sorted stretches of rows into one. Of rows with one key, those
/// of `left` come first.
fn merge(left: &Vec<LineItem>, right: &Vec<LineItem>) -> (merged: Vec<LineItem>)
    requires
        is_sorted(left@),
        is_sorted(right@),
    ensures
        is_sorted(merged@),
        merged@.len() == left@.len() + right@.len(),
        merged@.to_multiset() == left@.to_multiset().add(right@.to_multiset()),
        forall|key: int| #[trigger]
            with_key(merged@, key) == with_key(left@, key) + with_key(right@, key),
{
    broadcast use {to_multiset_build, vstd::multiset::group_multiset_axioms};

    let mut merged: Vec<LineItem> = Vec::new();
    let mut li: usize = 0;
    let mut ri: usize = 0;
    assert(left@.take(0) =~= Seq::<LineItem>::empty());
    assert(right@.take(0) =~= Seq::<LineItem>::empty());
    proof {
        lemma_multiset_commutative(left@.take(0), right@.take(0));
        assert(merged@ =~= left@.take(0) + right@.take(0));
    }
    assert forall|key: int| #[trigger]
        with_key(merged@, key) == with_key(left@.take(0), key) + with_key(
            right@.take(0),
            key,
        ) by {
        assert(with_key(merged@, key) =~= with_key(left@.take(0), key) + with_key(
            right@.take(0),
            key,
        ));
    }
    while li < left.len() || ri < right.len()
        invariant
            li <= left@.len(),
            ri <= right@.len(),
            is_sorted(left@),
            is_sorted(right@),
            is_sorted(merged@),
            merged@.len() == li + ri,
            merged@.len() > 0 && li < left@.len() ==> sort_key(merged@.last()) <= sort_key(
                left@[li as int],
            ),
            merged@.len() > 0 && ri < right@.len() ==> sort_key(merged@.last()) <= sort_key(
                right@[ri as int],
            ),
            li < left@.len() ==> forall|k: int|
                0 <= k < ri ==> sort_key(#[trigger] right@[k]) < sort_key(left@[li as int]),
            merged@.to_multiset() == left@.take(li as int).to_multiset().add(
                right@.take(ri as int).to_multiset(),
            ),
            forall|key: int| #[trigger]
                with_key(merged@, key) == with_key(left@.take(li as int), key) + with_key(
                    right@.take(ri as int),
                    key,
                ),
        decreases left@.len() - li + (right@.len() - ri),
    {
        let ghost before = merged@;
        let ghost lt = left@.take(li as int);
        let ghost rt = right@.take(ri as int);
        let take_left = if ri >= right.len() {
            true
        } else if li >= left.len() {
            false
        } else {
            key_of(&left[li]) <= key_of(&right[ri])
        };
        if take_left {
            let item = left[li];
            merged.push(item);
            proof {
                assert(left@.take(li + 1) =~= lt.push(item));
                assert(merged@ == before.push(item));
                assert(merged@.drop_last() =~= before);
                to_multiset_build(before, item);
                to_multiset_build(lt, item);
                assert(merged@.to_multiset() =~= left@.take(li + 1).to_multiset().add(
                    rt.to_multiset(),
                ));
                assert forall|key: int| #[trigger]
                    with_key(merged@, key) == with_key(left@.take(li + 1), key) + with_key(
                        rt,
                        key,
                    ) by {
                    assert(lt.push(item).drop_last() =~= lt);
                    if sort_key(item) == key {
                        lemma_with_key_absent(rt, key);
                        assert(with_key(merged@, key) == with_key(before, key).push(item));
                        assert(with_key(lt.push(item), key) == with_key(lt, key).push(item));
                        assert(with_key(merged@, key) =~= with_key(left@.take(li + 1), key)
                            + with_key(rt, key));
                    } else {
                        assert(with_key(merged@, key) == with_key(before, key));
                        assert(with_key(lt.push(item), key) == with_key(lt, key));
                    }
                }
            }
            li = li + 1;
        } else {
            let item = right[ri];
            merged.push(item);
            proof {
                assert(right@.take(ri + 1) =~= rt.push(item));
                assert(merged@ == before.push(item));
                assert(merged@.drop_last() =~= before);
                to_multiset_build(before, item);
                to_multiset_build(rt, item);
                assert(merged@.to_multiset() =~= lt.to_multiset().add(
                    right@.take(ri + 1).to_multiset(),
                ));
                assert forall|key: int| #[trigger]
                    with_key(merged@, key) == with_key(lt, key) + with_key(
                        right@.take(ri + 1),
                        key,
                    ) by {
                    assert(rt.push(item).drop_last() =~= rt);
                    if sort_key(item) == key {
                        assert(with_key(merged@, key) == with_key(before, key).push(item));
                        assert(with_key(rt.push(item), key) == with_key(rt, key).push(item));
                        assert(with_key(merged@, key) =~= with_key(lt, key) + with_key(
                            right@.take(ri + 1),
                            key,
                        ));
                    } else {
                        assert(with_key(merged@, key) == with_key(before, key));
                        assert(with_key(rt.push(item), key) == with_key(rt, key));
                    }
                }
            }
            ri = ri + 1;
        }
    }
    proof {
        assert(left@.take(li as int) =~= left@);
        assert(right@.take(ri as int) =~= right@);
    }
    merged
}

/// The rows ordered by key. Rows of one key keep their order.
pub fn sort_line_items(rows: &[LineItem]) -> (sorted: Vec<LineItem>)
    ensures
        is_stable_sort_of(sorted@, rows@),
    decreases rows@.len(),
{
    let n = rows.len();
    if n <= 1 {
        let mut sorted: Vec<LineItem> = Vec::new();
        if n == 1 {
            sorted.push(rows[0]);
        }
        assert(sorted@ =~= rows@);
        return sorted;
    }
    let mid = n / 2;
    let front = slice_subrange(rows, 0, mid);
    let back = slice_subrange(rows, mid, n);
    let left = sort_line_items(front);
    let right = sort_line_items(back);
    let sorted = merge(&left, &right);
    proof {
        assert(rows@ =~= front@ + back@);
        lemma_multiset_commutative(front@, back@);
        assert forall|key: int| #[trigger] with_key(sorted@, key) == with_key(rows@, key) by {
            lemma_with_key_concat(front@, back@, key);
        }
    }
    sorted
}

} // verus!
