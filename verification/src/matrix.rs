//! 4x4 matrices as the deployment hands them through.
//!
//! The numbers of a matrix are single-precision floats. Nothing here computes
//! with them: they are only moved, so each is held as its IEEE-754 bit pattern
//! (`f32::to_bits`, `f32::from_bits`).
use vstd::prelude::*;

verus! {

/// Sixteen numbers, as bit patterns. Cell `4 * i + j` is the `j`-th number of
/// the `i`-th group of four; whether a group is a row or a column is the
/// holder's convention.
#[derive(Clone, Copy, Debug, PartialEq, Eq)]
pub struct Matrix4 {
    pub cells: [u32; 16],
}

/// The number at position `j` of group `i` among the cells `m`.
pub open spec fn cell_at(m: Seq<u32>, i: int, j: int) -> u32 {
    m[4 * i + j]
}

/// The cells of `m` with groups and positions exchanged.
pub open spec fn transposed_cells(m: Seq<u32>) -> Seq<u32> {
    Seq::new(16, |k: int| cell_at(m, k % 4, k / 4))
}

impl View for Matrix4 {
    type V = Seq<u32>;

    open spec fn view(&self) -> Seq<u32> {
        self.cells@
    }
}

impl Matrix4 {
    /// The matrix with the given cells.
    pub fn new(cells: [u32; 16]) -> (m: Matrix4)
        ensures
            m@ == cells@,
    {
        Matrix4 { cells }
    }

    /// The number at position `j` of group `i`.
    pub fn cell(&self, i: usize, j: usize) -> (bits: u32)
        requires
            i < 4,
            j < 4,
        ensures
            bits == cell_at(self@, i as int, j as int),
    {
        self.cells[4 * i + j]
    }

    /// The transpose: a row-major matrix read as column-major, and back.
    pub fn transposed(&self) -> (t: Matrix4)
        ensures
            t@ == transposed_cells(self@),
            forall|i: int, j: int|
                0 <= i < 4 && 0 <= j < 4 ==> #[trigger] cell_at(t@, j, i) == cell_at(self@, i, j),
    {
        let c = &self.cells;
        let t = Matrix4 {
            cells: [
                c[0], c[4], c[8], c[12],
                c[1], c[5], c[9], c[13],
                c[2], c[6], c[10], c[14],
                c[3], c[7], c[11], c[15],
            ],
        };
        assert(t@ =~= transposed_cells(self@));
        t
    }
}

/// Transposing twice gives the matrix back.
pub proof fn lemma_transpose_involution(m: Seq<u32>)
    requires
        m.len() == 16,
    ensures
        transposed_cells(transposed_cells(m)) == m,
{
    assert(transposed_cells(transposed_cells(m)) =~= m);
}

} // verus!
