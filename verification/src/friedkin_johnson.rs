use vstd::prelude::*;

verus! {

/// Why the inputs of a Friedkin-Johnson network do not describe a network.
#[derive(Clone, Copy, Debug, PartialEq, Eq, Structural)]
pub enum DimensionError {
    /// No susceptibility values were given.
    EmptySusceptibilities,
    /// The matrix does not have `size * size` entries.
    IncompatibleLengths,
}

/// Checks that `size` susceptibility values and a flat matrix of `matrix_len`
/// entries describe a network: there is at least one node, and the matrix is
/// `size` by `size`.
pub fn check_network_dimensions(size: usize, matrix_len: usize) -> (r: Result<(), DimensionError>)
    requires
        size * size <= usize::MAX,
    ensures
        r == if size == 0 {
            Err(DimensionError::EmptySusceptibilities)
        } else if size * size != matrix_len {
            Err(DimensionError::IncompatibleLengths)
        } else {
            Ok(())
        },
{
    if size == 0 {
        Err(DimensionError::EmptySusceptibilities)
    } else if size * size != matrix_len {
        Err(DimensionError::IncompatibleLengths)
    } else {
        Ok(())
    }
}

/// Number of `true` entries of `s`.
pub open spec fn count_true(s: Seq<bool>) -> nat
    decreases s.len(),
{
    if s.len() == 0 {
        0
    } else {
        count_true(s.drop_last()) + if s.last() { 1nat } else { 0nat }
    }
}

/// The positions of the `true` entries of `s`.
pub open spec fn true_positions(s: Seq<bool>) -> Set<int> {
    Set::new(|i: int| 0 <= i < s.len() && s[i])
}

/// Law: `count_true` counts the positions that hold `true`: the set of those
/// positions is finite and has `count_true(s)` elements.
pub proof fn lemma_count_true_is_number_of_true_entries(s: Seq<bool>)
    ensures
        true_positions(s).finite(),
        true_positions(s).len() == count_true(s),
    decreases s.len(),
{
    if s.len() == 0 {
        assert(true_positions(s) =~= Set::<int>::empty());
    } else {
        let d = s.drop_last();
        lemma_count_true_is_number_of_true_entries(d);
        let last = s.len() - 1;
        if s[last] {
            assert(true_positions(s) =~= true_positions(d).insert(last));
        } else {
            assert(true_positions(s) =~= true_positions(d));
        }
    }
}

proof fn lemma_column_bounds(size: int, j: int)
    requires
        0 <= j < size,
    ensures
        j * size + size <= size * size,
        (j + 1) * size == j * size + size,
{
    assert(j * size + size <= size * size) by (nonlinear_arith)
        requires
            0 <= j < size,
    {
        assert((j + 1) * size <= size * size);
    }
    assert((j + 1) * size == j * size + size) by (nonlinear_arith);
}

/// Number of `true` entries in each column of a `size` by `size` matrix of
/// flags stored column after column: entry `j` counts the flags in
/// `cells[j * size .. (j + 1) * size]`.
///
/// On an adjacency matrix whose entry `(i, j)` says whether `i` links to `j`
/// this counts the incoming edges of each node; on the flags "influence weight
/// is positive" of an influence matrix it counts how many nodes each node
/// influences directly.
pub fn column_true_counts(size: usize, cells: &[bool]) -> (r: Vec<usize>)
    requires
        size > 0,
        cells@.len() == size * size,
        size * size <= usize::MAX,
    ensures
        r@.len() == size,
        forall|j: int| 0 <= j < size ==> #[trigger] r@[j] == count_true(cells@.subrange(j * size, j * size + size)),
        forall|j: int| 0 <= j < size ==> #[trigger] r@[j] <= size,
        forall|j: int|
            0 <= j < size ==> #[trigger] r@[j] == Set::new(|i: int| 0 <= i < size && cells@[j * size + i]).len(),
{
    let mut r: Vec<usize> = Vec::new();
    let mut j: usize = 0;
    let mut start: usize = 0;
    while j < size
        invariant
            size > 0,
            cells@.len() == size * size,
            size * size <= usize::MAX,
            j <= size,
            start == j * size,
            r@.len() == j,
            forall|j2: int| 0 <= j2 < j ==> #[trigger] r@[j2] == count_true(cells@.subrange(j2 * size, j2 * size + size)),
            forall|j2: int| 0 <= j2 < j ==> #[trigger] r@[j2] <= size,
        decreases size - j,
    {
        proof {
            lemma_column_bounds(size as int, j as int);
        }
        let mut c: usize = 0;
        let mut i: usize = 0;
        while i < size
            invariant
                cells@.len() == size * size,
                size * size <= usize::MAX,
                start + size <= size * size,
                i <= size,
                c == count_true(cells@.subrange(start as int, start + i)),
                c <= i,
            decreases size - i,
        {
            proof {
                assert(cells@.subrange(start as int, start + i + 1).drop_last() =~= cells@.subrange(start as int, start + i));
            }
            if cells[start + i] {
                c = c + 1;
            }
            i = i + 1;
        }
        r.push(c);
        start = start + size;
        j = j + 1;
    }
    proof {
        assert forall|j: int| 0 <= j < size implies #[trigger] r@[j] == Set::new(
            |i: int| 0 <= i < size && cells@[j * size + i],
        ).len() by {
            lemma_column_bounds(size as int, j);
            let col = cells@.subrange(j * size, j * size + size);
            lemma_count_true_is_number_of_true_entries(col);
            assert(true_positions(col) =~= Set::new(|i: int| 0 <= i < size && cells@[j * size + i]));
        }
    }
    r
}

} // verus!
