use vstd::prelude::*;
use crate::symbol::Symbol;

verus! {

/// What a row of entries gives for the symbol `x`: the value of the last entry under `x`.
pub open spec fn row_lookup<V>(row: Seq<(Symbol, V)>, x: Symbol) -> Option<V>
    decreases row.len(),
{
    if row.len() == 0 {
        None
    } else if row.last().0 == x {
        Some(row.last().1)
    } else {
        row_lookup(row.drop_last(), x)
    }
}

/// A row with one more entry gives the new value under its symbol and is unchanged elsewhere.
pub proof fn lemma_row_push<V>(row: Seq<(Symbol, V)>, x: Symbol, v: V, y: Symbol)
    ensures
        row_lookup(row.push((x, v)), y) == if y == x {
            Some(v)
        } else {
            row_lookup(row, y)
        },
{
    assert(row.push((x, v)).drop_last() =~= row);
}

/// Nothing is found where no entry stands under the symbol.
pub proof fn lemma_row_absent<V>(row: Seq<(Symbol, V)>, x: Symbol)
    requires
        forall|j: int| 0 <= j < row.len() ==> (#[trigger] row[j]).0 != x,
    ensures
        row_lookup(row, x) is None,
    decreases row.len(),
{
    if row.len() > 0 {
        assert(row.last() == row[row.len() - 1]);
        assert forall|j: int| 0 <= j < row.drop_last().len() implies (#[trigger] row.drop_last()[j]).0
            != x by {
            assert(row.drop_last()[j] == row[j]);
        }
        lemma_row_absent(row.drop_last(), x);
    }
}

/// The last entry under a symbol is what the row gives for it.
pub proof fn lemma_row_last<V>(row: Seq<(Symbol, V)>, k: int)
    requires
        0 <= k < row.len(),
        forall|j: int| k < j < row.len() ==> (#[trigger] row[j]).0 != row[k].0,
    ensures
        row_lookup(row, row[k].0) == Some(row[k].1),
    decreases row.len(),
{
    if k < row.len() - 1 {
        assert(row.last() == row[row.len() - 1]);
        assert(row.drop_last()[k] == row[k]);
        assert forall|j: int| k < j < row.drop_last().len() implies (#[trigger] row.drop_last()[j]).0
            != row.drop_last()[k].0 by {
            assert(row.drop_last()[j] == row[j]);
        }
        lemma_row_last(row.drop_last(), k);
    }
}

/// Putting a new value in the place of the last entry under a symbol changes what the row
/// gives for that symbol and nothing else.
pub proof fn lemma_row_update<V>(row: Seq<(Symbol, V)>, k: int, v: V, y: Symbol)
    requires
        0 <= k < row.len(),
        forall|j: int| k < j < row.len() ==> (#[trigger] row[j]).0 != row[k].0,
    ensures
        row_lookup(row.update(k, (row[k].0, v)), y) == if y == row[k].0 {
            Some(v)
        } else {
            row_lookup(row, y)
        },
    decreases row.len(),
{
    let x = row[k].0;
    let new = row.update(k, (x, v));
    if k == row.len() - 1 {
        assert(new.drop_last() =~= row.drop_last());
    } else {
        assert(new.last() == row.last());
        assert(row.last() == row[row.len() - 1]);
        assert(row.drop_last()[k] == row[k]);
        assert forall|j: int| k < j < row.drop_last().len() implies (#[trigger] row.drop_last()[j]).0
            != row.drop_last()[k].0 by {
            assert(row.drop_last()[j] == row[j]);
        }
        lemma_row_update(row.drop_last(), k, v, y);
        assert(new.drop_last() =~= row.drop_last().update(k, (x, v)));
    }
}

/// The place of the last entry under `x`, if there is one.
pub fn row_find<V>(row: &Vec<(Symbol, V)>, x: Symbol) -> (r: Option<usize>)
    ensures
        match r {
            Some(k) => {
                &&& k < row@.len()
                &&& row@[k as int].0 == x
                &&& row_lookup(row@, x) == Some(row@[k as int].1)
                &&& forall|j: int| k < j < row@.len() ==> (#[trigger] row@[j]).0 != x
            },
            None => row_lookup(row@, x) is None,
        },
{
    let mut k: usize = row.len();
    while k > 0
        invariant
            k <= row@.len(),
            forall|j: int| k <= j < row@.len() ==> (#[trigger] row@[j]).0 != x,
        decreases k,
    {
        k -= 1;
        if row[k].0 == x {
            proof {
                lemma_row_last(row@, k as int);
            }
            return Some(k);
        }
    }
    proof {
        lemma_row_absent(row@, x);
    }
    None
}

} // verus!
