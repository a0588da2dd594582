//! Runs: a column of single-byte values as pairs of a value and the number
//! of times it repeats.

use vstd::prelude::*;

verus! {

/// How many values a sequence of runs stands for.
pub open spec fn total(runs: Seq<(u8, u32)>) -> nat
    decreases runs.len(),
{
    if runs.len() == 0 {
        0
    } else {
        total(runs.drop_last()) + runs.last().1 as nat
    }
}

/// The values that a sequence of runs stands for: each run's value as often
/// as its count says, run after run.
pub open spec fn expand(runs: Seq<(u8, u32)>) -> Seq<u8>
    decreases runs.len(),
{
    if runs.len() == 0 {
        Seq::empty()
    } else {
        expand(runs.drop_last()) + Seq::new(runs.last().1 as nat, |i: int| runs.last().0)
    }
}

/// Whether the runs are as long as they can be: none is empty, and no two
/// neighbours share a value.
pub open spec fn is_collapsed(runs: Seq<(u8, u32)>) -> bool {
    &&& forall|i: int| 0 <= i < runs.len() ==> (#[trigger] runs[i]).1 >= 1
    &&& forall|i: int| 0 < i < runs.len() ==> runs[i - 1].0 != (#[trigger] runs[i]).0
}

/// The runs of `values`: neighbours that are equal fall into one run, so that
/// each run is as long as it can be.
pub open spec fn collapse(values: Seq<u8>) -> Seq<(u8, u32)>
    decreases values.len(),
{
    if values.len() == 0 {
        Seq::empty()
    } else {
        let before = collapse(values.drop_last());
        if before.len() > 0 && before.last().0 == values.last() {
            before.drop_last().push((values.last(), (before.last().1 + 1) as u32))
        } else {
            before.push((values.last(), 1u32))
        }
    }
}

/// The runs stand for as many values as their counts add up to.
pub proof fn lemma_expand_len(runs: Seq<(u8, u32)>)
    ensures
        expand(runs).len() == total(runs),
    decreases runs.len(),
{
    if runs.len() > 0 {
        lemma_expand_len(runs.drop_last());
    }
}

/// Leaving out later runs leaves out values.
pub proof fn lemma_total_take(runs: Seq<(u8, u32)>, n: int)
    requires
        0 <= n <= runs.len(),
    ensures
        total(runs.take(n)) <= total(runs),
    decreases runs.len(),
{
    if n < runs.len() {
        assert(runs.drop_last().take(n) =~= runs.take(n));
        lemma_total_take(runs.drop_last(), n);
    } else {
        assert(runs.take(n) =~= runs);
    }
}

/// One more run adds its count to the total.
pub proof fn lemma_total_step(runs: Seq<(u8, u32)>, n: int)
    requires
        0 <= n < runs.len(),
    ensures
        total(runs.take(n + 1)) == total(runs.take(n)) + runs[n].1,
        expand(runs.take(n + 1)) == expand(runs.take(n)) + Seq::new(
            runs[n].1 as nat,
            |i: int| runs[n].0,
        ),
{
    assert(runs.take(n + 1).drop_last() =~= runs.take(n));
}

/// The values of run `n` stand behind those of the runs before it, and each
/// of them is the run's value.
pub proof fn lemma_expand_run(runs: Seq<(u8, u32)>, n: int, k: int)
    requires
        0 <= n < runs.len(),
        total(runs.take(n)) <= k < total(runs.take(n)) + runs[n].1,
    ensures
        k < total(runs),
        expand(runs)[k] == runs[n].0,
    decreases runs.len(),
{
    lemma_expand_len(runs.drop_last());
    if n == runs.len() - 1 {
        assert(runs.take(n) =~= runs.drop_last());
    } else {
        assert(runs.drop_last().take(n) =~= runs.take(n));
        lemma_expand_run(runs.drop_last(), n, k);
    }
}

/// Runs that are all at least one long are no more than the values they
/// stand for.
pub proof fn lemma_runs_at_most_total(runs: Seq<(u8, u32)>)
    requires
        forall|i: int| 0 <= i < runs.len() ==> (#[trigger] runs[i]).1 >= 1,
    ensures
        runs.len() <= total(runs),
    decreases runs.len(),
{
    if runs.len() > 0 {
        lemma_runs_at_most_total(runs.drop_last());
    }
}

/// The runs of some values end with the last value, and stand for as many
/// values as there are.
pub proof fn lemma_collapse_last(values: Seq<u8>)
    requires
        values.len() <= u32::MAX,
    ensures
        total(collapse(values)) == values.len(),
        values.len() > 0 ==> collapse(values).len() > 0 && collapse(values).last().0
            == values.last() && 1 <= collapse(values).last().1 <= values.len(),
        values.len() == 0 ==> collapse(values).len() == 0,
    decreases values.len(),
{
    if values.len() > 0 {
        let before = collapse(values.drop_last());
        lemma_collapse_last(values.drop_last());
        if before.len() > 0 && before.last().0 == values.last() {
            let joined = before.drop_last().push(
                (values.last(), (before.last().1 + 1) as u32),
            );
            assert(joined.drop_last() =~= before.drop_last());
        } else {
            assert(before.push((values.last(), 1u32)).drop_last() =~= before);
        }
    }
}

/// Expanding the runs of some values gives the values back.
pub proof fn lemma_expand_collapse(values: Seq<u8>)
    requires
        values.len() <= u32::MAX,
    ensures
        expand(collapse(values)) == values,
    decreases values.len(),
{
    if values.len() > 0 {
        let before = collapse(values.drop_last());
        let last = values.last();
        lemma_collapse_last(values.drop_last());
        lemma_expand_collapse(values.drop_last());
        if before.len() > 0 && before.last().0 == last {
            let count = before.last().1;
            let joined = before.drop_last().push((last, (count + 1) as u32));
            assert(joined.drop_last() =~= before.drop_last());
            assert(Seq::new((count + 1) as nat, |i: int| last) =~= Seq::new(
                count as nat,
                |i: int| last,
            ).push(last));
            assert(expand(joined) =~= expand(before).push(last));
        } else {
            assert(before.push((last, 1u32)).drop_last() =~= before);
            assert(Seq::new(1, |i: int| last) =~= seq![last]);
            assert(expand(before.push((last, 1u32))) =~= expand(before).push(last));
        }
        assert(values.drop_last().push(last) =~= values);
    }
}

/// The runs of some values are as long as they can be.
pub proof fn lemma_collapse_is_collapsed(values: Seq<u8>)
    requires
        values.len() <= u32::MAX,
    ensures
        is_collapsed(collapse(values)),
    decreases values.len(),
{
    if values.len() > 0 {
        lemma_collapse_last(values.drop_last());
        lemma_collapse_is_collapsed(values.drop_last());
    }
}

/// Values that all equal `value`, behind values that do not end with it, add
/// one run to the runs of what stands before them.
pub proof fn lemma_collapse_run(values: Seq<u8>, start: int, end: int, value: u8)
    requires
        values.len() <= u32::MAX,
        0 <= start < end <= values.len(),
        forall|k: int| start <= k < end ==> values[k] == value,
        start > 0 ==> values[start - 1] != value,
    ensures
        collapse(values.take(end)) == collapse(values.take(start)).push(
            (value, (end - start) as u32),
        ),
    decreases end - start,
{
    let shorter = values.take(end - 1);
    assert(values.take(end).drop_last() =~= shorter);
    lemma_collapse_last(shorter);
    if end == start + 1 {
    } else {
        lemma_collapse_run(values, start, end - 1, value);
        let before = collapse(values.take(start)).push((value, (end - 1 - start) as u32));
        assert(before.drop_last() =~= collapse(values.take(start)));
    }
}

/// Values have one sequence of runs that are as long as they can be: two
/// such sequences that stand for the same values are the same.
pub proof fn lemma_collapsed_unique(a: Seq<(u8, u32)>, b: Seq<(u8, u32)>)
    requires
        is_collapsed(a),
        is_collapsed(b),
        expand(a) == expand(b),
    ensures
        a == b,
    decreases a.len(),
{
    lemma_expand_len(a);
    lemma_expand_len(b);
    lemma_runs_at_most_total(a);
    lemma_runs_at_most_total(b);
    if a.len() == 0 || b.len() == 0 {
        assert(a =~= b);
    } else {
        let values = expand(a);
        let front_a = a.drop_last();
        let front_b = b.drop_last();
        let count_a = a.last().1 as int;
        let count_b = b.last().1 as int;
        lemma_expand_len(front_a);
        lemma_expand_len(front_b);
        lemma_runs_at_most_total(front_a);
        lemma_runs_at_most_total(front_b);
        assert(values.last() == a.last().0);
        assert(values.last() == b.last().0);
        if count_a < count_b {
            let k = values.len() - 1 - count_a;
            assert(values[k] == b.last().0);
            assert(values[k] == expand(front_a)[k]);
            assert(expand(front_a)[k] == front_a.last().0);
            assert(front_a.last() == a[a.len() - 2]);
        }
        if count_b < count_a {
            let k = values.len() - 1 - count_b;
            assert(values[k] == a.last().0);
            assert(values[k] == expand(front_b)[k]);
            assert(expand(front_b)[k] == front_b.last().0);
            assert(front_b.last() == b[b.len() - 2]);
        }
        assert(expand(front_a) =~= values.take(values.len() - count_a));
        assert(expand(front_b) =~= values.take(values.len() - count_b));
        lemma_collapsed_unique(front_a, front_b);
        assert(a =~= front_a.push(a.last()));
        assert(b =~= front_b.push(b.last()));
    }
}

} // verus!
