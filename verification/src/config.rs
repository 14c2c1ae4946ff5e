//! The current fractal definition: one rule matrix and one expansion
//! depth, owned by a single configuration slot. Every edit replaces the
//! corresponding part wholesale — a rejected edit leaves the previous
//! value in effect, and there is no partial application.

use vstd::prelude::*;

use crate::codec::{decode, decode_spec, encode, encode_spec};
use crate::errors::FractalError;
use crate::expand::{expand, models, expand_all, too_large, LeafPlacement, MAX_DEPTH};
use crate::matrix::{default_rules, RuleMatrix};

verus! {

/// The configuration slot: the matrix and the depth the next expansion
/// will use.
pub struct FractalConfig {
    matrix: RuleMatrix,
    depth: u32,
}

impl FractalConfig {
    /// The rule matrix currently in effect.
    pub closed spec fn matrix_model(&self) -> Seq<Seq<u32>> {
        self.matrix.model()
    }

    /// The expansion depth currently in effect.
    pub closed spec fn depth_model(&self) -> u32 {
        self.depth
    }

    /// A configuration always holds a matrix with at least one row and a
    /// depth within range.
    pub open spec fn wf(&self) -> bool {
        self.matrix_model().len() >= 1 && self.depth_model() <= MAX_DEPTH
    }

    /// A fresh configuration: the built-in rule at depth zero.
    pub fn new() -> (c: FractalConfig)
        ensures
            c.wf(),
            c.matrix_model() == default_rules(),
            c.depth_model() == 0,
    {
        FractalConfig { matrix: RuleMatrix::default(), depth: 0 }
    }

    /// The current depth.
    pub fn depth(&self) -> (d: u32)
        ensures
            d == self.depth_model(),
    {
        self.depth
    }

    /// The current matrix.
    pub fn matrix(&self) -> (m: &RuleMatrix)
        ensures
            m.model() == self.matrix_model(),
    {
        &self.matrix
    }

    /// Replaces the depth. A depth beyond the accepted range is rejected
    /// with `InvalidDepth` and the configuration is left unchanged.
    pub fn set_depth(&mut self, d: u32) -> (r: Result<(), FractalError>)
        ensures
            d <= MAX_DEPTH ==> (r == Ok::<(), FractalError>(()) && final(self).depth_model() == d
                && final(self).matrix_model() == old(self).matrix_model()),
            d > MAX_DEPTH ==> (r == Err::<(), FractalError>(FractalError::InvalidDepth)
                && *final(self) == *old(self)),
            old(self).wf() ==> final(self).wf(),
    {
        if d > MAX_DEPTH {
            Err(FractalError::InvalidDepth)
        } else {
            self.depth = d;
            Ok(())
        }
    }

    /// Replaces the whole matrix with the one the text decodes to.
    /// Decoding is lenient and always yields at least one row, so the
    /// replacement always succeeds.
    pub fn set_matrix_from_text(&mut self, text: &Vec<u8>) -> (r: Result<(), FractalError>)
        ensures
            r == Ok::<(), FractalError>(()),
            final(self).matrix_model() == decode_spec(text@),
            final(self).depth_model() == old(self).depth_model(),
            final(self).matrix_model().len() >= 1,
    {
        let rows = decode(text);
        match RuleMatrix::from_rows(rows) {
            Ok(m) => {
                self.matrix = m;
                Ok(())
            },
            Err(e) => Err(e),
        }
    }

    /// The text form of the current matrix, as an editor would show it.
    pub fn matrix_text(&self) -> (t: Vec<u8>)
        ensures
            t@ == encode_spec(self.matrix_model()),
    {
        encode(self.matrix.rows_ref())
    }

    /// Expands the current definition from a base cube of scale
    /// `base_scale` anchored at `(base_x, base_y, base_z)`, with the
    /// same contract as `expand`.
    pub fn expand_current(&self, base_scale: u64, base_x: u64, base_y: u64, base_z: u64) -> (r:
        Result<Vec<LeafPlacement>, FractalError>)
        requires
            base_scale >= 1,
        ensures
            self.matrix_model().len() == 0 ==> r == Err::<Vec<LeafPlacement>, FractalError>(
                FractalError::EmptyRuleMatrix,
            ),
            self.matrix_model().len() >= 1 && self.depth_model() > MAX_DEPTH ==> r == Err::<
                Vec<LeafPlacement>,
                FractalError,
            >(FractalError::InvalidDepth),
            self.matrix_model().len() >= 1 && self.depth_model() <= MAX_DEPTH && too_large(
                self.matrix_model(),
                self.depth_model() as nat,
                base_scale as int,
                base_x as int,
                base_y as int,
                base_z as int,
            ) ==> r == Err::<Vec<LeafPlacement>, FractalError>(FractalError::ExpansionTooLarge),
            self.matrix_model().len() >= 1 && self.depth_model() <= MAX_DEPTH && !too_large(
                self.matrix_model(),
                self.depth_model() as nat,
                base_scale as int,
                base_x as int,
                base_y as int,
                base_z as int,
            ) ==> (r matches Ok(v) && models(v@) == expand_all(
                self.matrix_model(),
                self.depth_model() as nat,
                base_scale as int,
                base_x as int,
                base_y as int,
                base_z as int,
                1,
            )),
            r matches Ok(v) ==> v@.len() == vstd::arithmetic::power::pow(
                crate::expand::cells(self.matrix_model()) as int,
                self.depth_model() as nat,
            ),
    {
        expand(self.matrix.rows_ref(), self.depth, base_scale, base_x, base_y, base_z)
    }
}

} // verus!
