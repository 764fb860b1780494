//! Growing and clearing the resource matrices that the deadlock check reads.
use vstd::prelude::*;

verus! {

/// `row` padded with zeros up to length `m`; a longer row is kept as it is.
pub open spec fn grow_row(row: Seq<usize>, m: nat) -> Seq<usize> {
    if row.len() >= m {
        row
    } else {
        row + Seq::new((m - row.len()) as nat, |k: int| 0usize)
    }
}

/// The matrix after making sure that its first `n` rows exist and hold at
/// least `m` entries; missing rows are added empty, short rows are padded
/// with zeros, and rows from `n` on are kept as they are.
pub open spec fn grow_matrix(rows: Seq<Seq<usize>>, n: nat, m: nat) -> Seq<Seq<usize>> {
    Seq::new(
        if rows.len() >= n {
            rows.len()
        } else {
            n
        },
        |i: int|
            if i < n {
                grow_row(
                    if i < rows.len() {
                        rows[i]
                    } else {
                        Seq::empty()
                    },
                    m,
                )
            } else {
                rows[i]
            },
    )
}

/// The rows of a matrix, each by its view.
pub open spec fn rows_of(rows: Seq<Vec<usize>>) -> Seq<Seq<usize>> {
    Seq::new(rows.len(), |i: int| rows[i]@)
}

/// A row of `len` zeros.
pub open spec fn zeros(len: nat) -> Seq<usize> {
    Seq::new(len, |k: int| 0usize)
}

/// Pads `row` with zeros up to length `m`.
pub fn grow_row_in_place(row: &mut Vec<usize>, m: usize)
    ensures
        final(row)@ == grow_row(old(row)@, m as nat),
{
    if m > row.len() {
        let old_len = row.len();
        let ghost before = row@;
        while row.len() < m
            invariant
                old_len == before.len(),
                old_len <= row.len() <= m,
                row@.subrange(0, old_len as int) == before,
                forall|k: int| old_len <= k < row.len() ==> #[trigger] row@[k] == 0usize,
            decreases m - row.len(),
        {
            row.push(0);
        }
        assert(row@ =~= grow_row(before, m as nat)) by {
            assert forall|k: int| 0 <= k < row@.len() implies #[trigger] row@[k] == grow_row(
                before,
                m as nat,
            )[k] by {
                if k < old_len {
                    assert(row@.subrange(0, old_len as int)[k] == row@[k]);
                }
            }
        }
    }
}

/// Makes sure that the first `n` rows of `rows` exist and hold at least `m`
/// entries each.
pub fn grow_matrix_in_place(rows: &mut Vec<Vec<usize>>, n: usize, m: usize)
    ensures
        rows_of(final(rows)@) == grow_matrix(rows_of(old(rows)@), n as nat, m as nat),
{
    let ghost before = rows_of(rows@);
    while rows.len() < n
        invariant
            before.len() <= rows.len() <= if before.len() >= n {
                before.len()
            } else {
                n as nat
            },
            forall|i: int| 0 <= i < before.len() ==> #[trigger] rows@[i]@ == before[i],
            forall|i: int| before.len() <= i < rows.len() ==> #[trigger] rows@[i]@ == Seq::<usize>::empty(),
        decreases n - rows.len(),
    {
        rows.push(Vec::with_capacity(m));
    }
    let mut i: usize = 0;
    while i < n
        invariant
            i <= n,
            n <= rows.len(),
            rows.len() == (if before.len() >= n {
                before.len()
            } else {
                n as nat
            }),
            forall|k: int|
                0 <= k < i ==> #[trigger] rows@[k]@ == grow_matrix(before, n as nat, m as nat)[k],
            forall|k: int| i <= k < before.len() ==> #[trigger] rows@[k]@ == before[k],
            forall|k: int|
                before.len() <= k < rows.len() && i <= k ==> #[trigger] rows@[k]@
                    == Seq::<usize>::empty(),
        decreases n - i,
    {
        let mut row: Vec<usize> = Vec::new();
        std::mem::swap(&mut row, &mut rows[i]);
        grow_row_in_place(&mut row, m);
        rows.set(i, row);
        i = i + 1;
    }
    assert(rows_of(rows@) =~= grow_matrix(before, n as nat, m as nat));
}

/// Sets every entry of `row` to zero.
pub fn zero_row(row: &mut Vec<usize>)
    ensures
        final(row)@ == zeros(old(row)@.len()),
{
    let mut k: usize = 0;
    while k < row.len()
        invariant
            k <= row.len(),
            row.len() == old(row).len(),
            forall|j: int| 0 <= j < k ==> #[trigger] row@[j] == 0usize,
        decreases row.len() - k,
    {
        row.set(k, 0);
        k = k + 1;
    }
    assert(row@ =~= zeros(old(row)@.len()));
}

/// Sets every entry of row `r` of `rows` to zero.
pub fn zero_matrix_row(rows: &mut Vec<Vec<usize>>, r: usize)
    requires
        r < old(rows).len(),
    ensures
        final(rows).len() == old(rows).len(),
        final(rows)@[r as int]@ == zeros(old(rows)@[r as int]@.len()),
        forall|k: int|
            0 <= k < old(rows).len() && k != r ==> #[trigger] final(rows)@[k] == old(rows)@[k],
{
    let mut row: Vec<usize> = Vec::new();
    std::mem::swap(&mut row, &mut rows[r]);
    zero_row(&mut row);
    rows.set(r, row);
}

} // verus!
