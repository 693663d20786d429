use vstd::prelude::*;

verus! {

/// A square adjacency matrix backed by an `ndarray::Array2<u8>`. Verus
/// cannot take `ArrayBase`'s declaration (its `RawData` bound), so the array
/// sits in a hidden field and is reached only through the wrappers below,
/// whose contracts speak of `adj_entries` and `adj_dim`.
#[verifier::external_body]
pub struct AdjacencyMatrix {
    inner: ndarray::Array2<u8>,
}

/// What the adjacency matrix holds at each index pair.
pub uninterp spec fn adj_entries(m: AdjacencyMatrix) -> Map<(int, int), u8>;

/// The matrix's side length.
pub uninterp spec fn adj_dim(m: AdjacencyMatrix) -> int;

/// Relies on ndarray's `Array2::zeros`: an n-by-n array holding zeros (it
/// panics only when the element count overflows `isize`, which the
/// precondition rules out).
#[verifier::external_body]
pub(crate) fn adj_new(n: usize) -> (m: AdjacencyMatrix)
    requires
        n * n <= 0x7fff_ffff,
    ensures
        adj_dim(m) == n,
        forall|i: int, j: int| 0 <= i < n && 0 <= j < n ==> adj_entries(m)[(i, j)] == 0u8,
{
    AdjacencyMatrix { inner: ndarray::Array2::zeros((n, n)) }
}

/// Relies on ndarray's `IndexMut` for `Array2` with a pair index: writes the
/// one element at the pair, which the precondition keeps in range.
#[verifier::external_body]
pub(crate) fn adj_set(m: &mut AdjacencyMatrix, i: usize, j: usize)
    requires
        i < adj_dim(*old(m)),
        j < adj_dim(*old(m)),
    ensures
        adj_dim(*final(m)) == adj_dim(*old(m)),
        adj_entries(*final(m)) == adj_entries(*old(m)).insert((i as int, j as int), 1u8),
{
    m.inner[(i, j)] = 1;
}

/// Relies on ndarray's `Index` for `Array2` with a pair index: reads the one
/// element at the pair, which the precondition keeps in range.
#[verifier::external_body]
pub(crate) fn adj_get(m: &AdjacencyMatrix, i: usize, j: usize) -> (r: u8)
    requires
        i < adj_dim(*m),
        j < adj_dim(*m),
    ensures
        r == adj_entries(*m)[(i as int, j as int)],
{
    m.inner[(i, j)]
}

} // verus!
