//! The rule matrix: an ordered sequence of rows of non-negative integers.
//! The row count is the matrix dimension; rows may be jagged (each row's
//! length is independently meaningful). A matrix with zero rows is invalid
//! and is rejected at construction time.

use vstd::prelude::*;

use crate::errors::FractalError;

verus! {

/// The subdivision rule: row `i`, element `j` gives the displacement index
/// along the third axis for the sub-cube at grid cell `(i, j)`.
///
/// An immutable value type: every edit replaces the whole matrix.
#[derive(Debug)]
pub struct RuleMatrix {
    rows: Vec<Vec<u32>>,
}

/// The mathematical content of a row table: a sequence of sequences of
/// entries.
pub open spec fn rows_model(rows: Seq<Vec<u32>>) -> Seq<Seq<u32>> {
    rows.map_values(|r: Vec<u32>| r@)
}

impl RuleMatrix {
    /// What the matrix holds, as a sequence of rows of entries.
    pub closed spec fn model(&self) -> Seq<Seq<u32>> {
        rows_model(self.rows@)
    }

    /// A matrix is well formed when it has at least one row.
    pub open spec fn wf(&self) -> bool {
        self.model().len() >= 1
    }

    /// Builds a matrix from a row table, rejecting an empty table.
    pub fn from_rows(rows: Vec<Vec<u32>>) -> (r: Result<RuleMatrix, FractalError>)
        ensures
            rows@.len() == 0 ==> r == Err::<RuleMatrix, FractalError>(FractalError::InvalidMatrix),
            rows@.len() >= 1 ==> (r matches Ok(m) && m.model() == rows_model(rows@) && m.wf()),
    {
        if rows.len() == 0 {
            Err(FractalError::InvalidMatrix)
        } else {
            Ok(RuleMatrix { rows })
        }
    }

    /// The number of rows.
    pub fn dimension(&self) -> (n: usize)
        ensures
            n == self.model().len(),
    {
        self.rows.len()
    }

    /// The elements of row `i`, or `IndexOutOfRange` when `i` is at or
    /// beyond the dimension.
    pub fn row(&self, i: usize) -> (r: Result<&Vec<u32>, FractalError>)
        ensures
            i < self.model().len() ==> (r matches Ok(v) && v@ == self.model()[i as int]),
            i >= self.model().len() ==> r == Err::<&Vec<u32>, FractalError>(
                FractalError::IndexOutOfRange,
            ),
    {
        if i < self.rows.len() {
            Ok(&self.rows[i])
        } else {
            Err(FractalError::IndexOutOfRange)
        }
    }

    /// The whole row table, for callers that walk every row.
    pub fn rows_ref(&self) -> (r: &Vec<Vec<u32>>)
        ensures
            rows_model(r@) == self.model(),
    {
        &self.rows
    }
}

/// The built-in subdivision rule: a 4 by 4 table of cyclically shifted
/// displacement indices.
pub open spec fn default_rules() -> Seq<Seq<u32>> {
    seq![
        seq![2u32, 3u32, 0u32, 1u32],
        seq![1u32, 2u32, 3u32, 0u32],
        seq![0u32, 1u32, 2u32, 3u32],
        seq![3u32, 0u32, 1u32, 2u32],
    ]
}

/// Builds one four-element row.
fn row4(a: u32, b: u32, c: u32, d: u32) -> (v: Vec<u32>)
    ensures
        v@ == seq![a, b, c, d],
{
    let mut v: Vec<u32> = Vec::new();
    v.push(a);
    v.push(b);
    v.push(c);
    v.push(d);
    proof {
        assert(v@ =~= seq![a, b, c, d]);
    }
    v
}

impl Default for RuleMatrix {
    /// The matrix every fresh configuration starts from.
    fn default() -> (m: RuleMatrix)
        ensures
            m.model() == default_rules(),
            m.wf(),
    {
        let mut rows: Vec<Vec<u32>> = Vec::new();
        rows.push(row4(2, 3, 0, 1));
        rows.push(row4(1, 2, 3, 0));
        rows.push(row4(0, 1, 2, 3));
        rows.push(row4(3, 0, 1, 2));
        let m = RuleMatrix { rows };
        proof {
            assert(m.model() =~= default_rules());
        }
        m
    }
}

} // verus!
