//! Counting the cells of a two-dimensional vector.

use vstd::prelude::*;

verus! {

/// The total number of elements in all inner vectors combined.
pub open spec fn spec_flat_len<T>(rows: Seq<Seq<T>>) -> int
    decreases rows.len(),
{
    if rows.len() == 0 {
        0
    } else {
        spec_flat_len(rows.drop_last()) + rows.last().len()
    }
}

/// Find out the number of elements in all inner vecs combined.
pub fn flat_len<T>(vec: &Vec<Vec<T>>) -> (r: usize)
    requires
        spec_flat_len(vec@.map_values(|row: Vec<T>| row@)) <= usize::MAX,
    ensures
        r == spec_flat_len(vec@.map_values(|row: Vec<T>| row@)),
{
    let ghost rows = vec@.map_values(|row: Vec<T>| row@);
    let mut len: usize = 0;
    let mut y: usize = 0;
    proof {
        lemma_flat_len_prefix_bounds(rows, rows.len() as int);
    }
    while y < vec.len()
        invariant
            0 <= y <= rows.len(),
            rows == vec@.map_values(|row: Vec<T>| row@),
            len == spec_flat_len(rows.take(y as int)),
            spec_flat_len(rows) <= usize::MAX,
            forall|k: int|
                0 <= k <= rows.len() ==> #[trigger] spec_flat_len(rows.take(k)) <= spec_flat_len(
                    rows,
                ),
        decreases rows.len() - y,
    {
        proof {
            assert(rows.take(y + 1).drop_last() =~= rows.take(y as int));
            assert(rows.take(y + 1).last() == rows[y as int]);
            assert(spec_flat_len(rows.take(y + 1)) <= spec_flat_len(rows));
        }
        len = len + vec[y].len();
        y = y + 1;
    }
    proof {
        assert(rows.take(rows.len() as int) =~= rows);
    }
    len
}

/// Every prefix of the rows counts at most as many elements as the whole.
proof fn lemma_flat_len_prefix_bounds<T>(rows: Seq<Seq<T>>, hi: int)
    requires
        0 <= hi <= rows.len(),
    ensures
        forall|k: int| 0 <= k <= hi ==> #[trigger] spec_flat_len(rows.take(k)) <= spec_flat_len(
            rows.take(hi),
        ),
        spec_flat_len(rows.take(hi)) <= spec_flat_len(rows),
        spec_flat_len(rows) >= 0,
    decreases rows.len() - hi + rows.len(),
{
    lemma_flat_len_monotone(rows, hi);
}

proof fn lemma_flat_len_nonneg<T>(rows: Seq<Seq<T>>)
    ensures
        spec_flat_len(rows) >= 0,
    decreases rows.len(),
{
    if rows.len() > 0 {
        lemma_flat_len_nonneg(rows.drop_last());
    }
}

proof fn lemma_flat_len_take_succ<T>(rows: Seq<Seq<T>>, k: int)
    requires
        0 <= k < rows.len(),
    ensures
        spec_flat_len(rows.take(k + 1)) == spec_flat_len(rows.take(k)) + rows[k].len(),
{
    assert(rows.take(k + 1).drop_last() =~= rows.take(k));
    assert(rows.take(k + 1).last() == rows[k]);
}

proof fn lemma_flat_len_monotone<T>(rows: Seq<Seq<T>>, hi: int)
    requires
        0 <= hi <= rows.len(),
    ensures
        forall|k: int| 0 <= k <= hi ==> #[trigger] spec_flat_len(rows.take(k)) <= spec_flat_len(
            rows.take(hi),
        ),
        spec_flat_len(rows.take(hi)) <= spec_flat_len(rows),
        spec_flat_len(rows) >= 0,
    decreases rows.len(),
{
    lemma_flat_len_nonneg(rows);
    if hi == rows.len() {
        assert(rows.take(hi) =~= rows);
    }
    // each step from k to k + 1 adds a nonnegative row length
    assert forall|k: int| 0 <= k <= hi implies #[trigger] spec_flat_len(rows.take(k))
        <= spec_flat_len(rows.take(hi)) by {
        lemma_flat_len_steps(rows, k, hi);
    }
    if hi < rows.len() {
        lemma_flat_len_steps(rows, hi, rows.len() as int);
        assert(rows.take(rows.len() as int) =~= rows);
    }
}

proof fn lemma_flat_len_steps<T>(rows: Seq<Seq<T>>, lo: int, hi: int)
    requires
        0 <= lo <= hi <= rows.len(),
    ensures
        spec_flat_len(rows.take(lo)) <= spec_flat_len(rows.take(hi)),
    decreases hi - lo,
{
    if lo < hi {
        lemma_flat_len_take_succ(rows, lo);
        lemma_flat_len_steps(rows, lo + 1, hi);
    }
}

} // verus!
