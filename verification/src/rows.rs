//! Sequences of rows: what it means to keep some rows of a table and drop the
//! others, and that doing so leaves the keys of a table distinct.

use vstd::prelude::*;

verus! {

/// What a sequence of values holds, each value taken by its view.
pub open spec fn rows_of<T: View>(v: Seq<T>) -> Seq<T::V> {
    Seq::new(v.len(), |i: int| v[i]@)
}

/// The rows whose flag is not set, in their order.
pub open spec fn keep_unflagged<A>(rows: Seq<A>, flags: Seq<bool>) -> Seq<A>
    decreases rows.len(),
{
    if rows.len() == 0 {
        Seq::empty()
    } else if flags.last() {
        keep_unflagged(rows.drop_last(), flags.drop_last())
    } else {
        keep_unflagged(rows.drop_last(), flags.drop_last()).push(rows.last())
    }
}

/// No two rows have the same key.
pub open spec fn distinct_by<A, K>(rows: Seq<A>, key: spec_fn(A) -> K) -> bool {
    forall|i: int, j: int|
        0 <= i < j < rows.len() ==> key(#[trigger] rows[i]) != key(#[trigger] rows[j])
}

/// Dropping the flagged rows commutes with taking views.
pub proof fn lemma_keep_rows<T: View>(v: Seq<T>, flags: Seq<bool>)
    requires
        flags.len() == v.len(),
    ensures
        rows_of(keep_unflagged(v, flags)) == keep_unflagged(rows_of(v), flags),
    decreases v.len(),
{
    if v.len() > 0 {
        lemma_keep_rows(v.drop_last(), flags.drop_last());
        assert(rows_of(v).drop_last() =~= rows_of(v.drop_last()));
        assert(rows_of(keep_unflagged(v, flags)) =~= keep_unflagged(rows_of(v), flags));
    } else {
        assert(rows_of(keep_unflagged(v, flags)) =~= keep_unflagged(rows_of(v), flags));
    }
}

/// Flags that mark the rows a predicate rejects leave what `filter` leaves.
pub proof fn lemma_keep_is_filter<A>(rows: Seq<A>, flags: Seq<bool>, pred: spec_fn(A) -> bool)
    requires
        flags.len() == rows.len(),
        forall|i: int| 0 <= i < rows.len() ==> #[trigger] flags[i] == !pred(rows[i]),
    ensures
        keep_unflagged(rows, flags) == rows.filter(pred),
    decreases rows.len(),
{
    reveal(Seq::filter);
    if rows.len() > 0 {
        let init = rows.drop_last();
        let finit = flags.drop_last();
        assert forall|i: int| 0 <= i < init.len() implies #[trigger] finit[i] == !pred(init[i]) by {
            assert(flags[i] == !pred(rows[i]));
        }
        lemma_keep_is_filter(init, finit, pred);
        assert(flags[rows.len() - 1] == !pred(rows[rows.len() - 1]));
    }
}

/// What `filter` holds: exactly the rows that the predicate accepts.
pub proof fn lemma_filter_members<A>(rows: Seq<A>, pred: spec_fn(A) -> bool)
    ensures
        forall|x: A| #[trigger] rows.filter(pred).contains(x) <==> rows.contains(x) && pred(x),
    decreases rows.len(),
{
    reveal(Seq::filter);
    if rows.len() > 0 {
        let init = rows.drop_last();
        let last = rows.last();
        lemma_filter_members(init, pred);
        let here = rows.filter(pred);
        let before = init.filter(pred);
        assert forall|x: A| #[trigger] here.contains(x) <==> rows.contains(x) && pred(x) by {
            if here.contains(x) {
                let i = choose|i: int| 0 <= i < here.len() && here[i] == x;
                if i < before.len() {
                    assert(before[i] == x);
                    assert(before.contains(x));
                    let k = choose|k: int| 0 <= k < init.len() && init[k] == x;
                    assert(rows[k] == x);
                } else {
                    assert(rows[rows.len() - 1] == x);
                }
            }
            if rows.contains(x) && pred(x) {
                let k = choose|k: int| 0 <= k < rows.len() && rows[k] == x;
                if k < init.len() {
                    assert(init[k] == x);
                    assert(init.contains(x));
                    assert(before.contains(x));
                    let i = choose|i: int| 0 <= i < before.len() && before[i] == x;
                    assert(here[i] == x);
                } else {
                    assert(here[here.len() - 1] == x);
                }
            }
        }
    }
}

/// Filtering a table leaves its keys distinct.
pub proof fn lemma_filter_distinct<A, K>(
    rows: Seq<A>,
    pred: spec_fn(A) -> bool,
    key: spec_fn(A) -> K,
)
    requires
        distinct_by(rows, key),
    ensures
        distinct_by(rows.filter(pred), key),
    decreases rows.len(),
{
    reveal(Seq::filter);
    if rows.len() > 0 {
        let init = rows.drop_last();
        let last = rows.last();
        assert forall|i: int, j: int| 0 <= i < j < init.len() implies key(#[trigger] init[i])
            != key(#[trigger] init[j]) by {
            assert(key(rows[i]) != key(rows[j]));
        }
        lemma_filter_distinct(init, pred, key);
        lemma_filter_members(init, pred);
        let here = rows.filter(pred);
        let before = init.filter(pred);
        assert forall|i: int, j: int| 0 <= i < j < here.len() implies key(#[trigger] here[i])
            != key(#[trigger] here[j]) by {
            if j < before.len() {
                assert(key(before[i]) != key(before[j]));
            } else {
                assert(here[j] == last);
                assert(before[i] == here[i]);
                assert(before.contains(here[i]));
                assert(init.contains(here[i]));
                let k = choose|k: int| 0 <= k < init.len() && init[k] == here[i];
                assert(key(rows[k]) != key(rows[rows.len() - 1]));
            }
        }
    }
}

/// Removes from a vector the elements whose flag is set; the others keep
/// their order.
pub fn remove_flagged<T>(v: &mut Vec<T>, flags: &Vec<bool>)
    requires
        flags@.len() == old(v)@.len(),
    ensures
        final(v)@ == keep_unflagged(old(v)@, flags@),
{
    let ghost orig = v@;
    let n: usize = flags.len();
    let mut i: usize = 0;
    let mut j: usize = 0;
    proof {
        assert(orig.subrange(0, 0) =~= Seq::<T>::empty());
        assert(orig.subrange(0, n as int) =~= orig);
    }
    while j < n
        invariant
            n == flags@.len(),
            n == orig.len(),
            i <= j <= n,
            i == keep_unflagged(orig.subrange(0, j as int), flags@.subrange(0, j as int)).len(),
            v@ == keep_unflagged(orig.subrange(0, j as int), flags@.subrange(0, j as int))
                + orig.subrange(j as int, n as int),
        decreases n - j,
    {
        let ghost head = keep_unflagged(orig.subrange(0, j as int), flags@.subrange(0, j as int));
        let ghost tail = orig.subrange(j as int, n as int);
        proof {
            assert(orig.subrange(0, j + 1).drop_last() =~= orig.subrange(0, j as int));
            assert(flags@.subrange(0, j + 1).drop_last() =~= flags@.subrange(0, j as int));
            assert(orig.subrange(0, j + 1).last() == orig[j as int]);
            assert(flags@.subrange(0, j + 1).last() == flags@[j as int]);
            assert(tail[0] == orig[j as int]);
        }
        if flags[j] {
            v.remove(i);
            proof {
                assert(v@ =~= head + orig.subrange(j + 1, n as int));
            }
        } else {
            proof {
                assert(v@ =~= head.push(orig[j as int]) + orig.subrange(j + 1, n as int));
            }
            i += 1;
        }
        j += 1;
    }
    proof {
        assert(orig.subrange(0, n as int) =~= orig);
        assert(flags@.subrange(0, n as int) =~= flags@);
        assert(orig.subrange(n as int, n as int) =~= Seq::<T>::empty());
        assert(v@ =~= keep_unflagged(orig, flags@));
    }
}

} // verus!
