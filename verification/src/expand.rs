//! The fractal expansion engine: walks a rule matrix to a given depth and
//! yields the leaf placements of the resulting cube fractal.
//!
//! Every quantity is exact. At each level the parent cube of scale `s` is
//! divided by the matrix dimension `n`, and the child at grid cell `(i, j)`
//! with entry `e` sits at offset `(i, j, e)` times the new scale. A leaf
//! placement therefore stores its scale and its three coordinates as
//! integer numerators over one common denominator: the scale is
//! `scale_num / denom` and coordinate `x` is `x_num / denom`, and after a
//! full expansion to depth `d` the denominator is exactly `n^d`.
//!
//! Because the leaf count is the product of the branching factors of all
//! levels, it grows explosively; a pre-flight guard rejects any request
//! whose projected leaf count exceeds a hard ceiling, or whose exact
//! numerators would not fit the machine word, before any recursion starts.

use vstd::prelude::*;

use vstd::arithmetic::mul::{lemma_mul_inequality, lemma_mul_nonnegative, lemma_mul_upper_bound};
use vstd::arithmetic::power::{
    pow,
    lemma0_pow,
    lemma_pow0,
    lemma_pow1,
    lemma_pow_adds,
    lemma_pow_increases,
};
use vstd::math::max3;

use crate::errors::FractalError;
use crate::matrix::rows_model;

verus! {

/// Hard ceiling on the number of leaf placements one expansion may yield.
pub const MAX_LEAF_COUNT: u64 = 1000000;

/// Largest accepted recursion depth.
pub const MAX_DEPTH: u32 = 8;

/// One terminal cube of the fractal: its edge length is
/// `scale_num / denom` and the coordinates of its anchor are
/// `x_num / denom`, `y_num / denom` and `z_num / denom`.
#[derive(Clone, Copy, Debug, PartialEq, Eq, Structural)]
pub struct LeafPlacement {
    pub scale_num: u64,
    pub x_num: u64,
    pub y_num: u64,
    pub z_num: u64,
    pub denom: u64,
}

/// The mathematical content of a placement, over unbounded integers.
pub struct PlacementModel {
    pub scale_num: int,
    pub x_num: int,
    pub y_num: int,
    pub z_num: int,
    pub denom: int,
}

/// Builds a placement model from its five numbers.
pub open spec fn leaf(sn: int, px: int, py: int, pz: int, den: int) -> PlacementModel {
    PlacementModel { scale_num: sn, x_num: px, y_num: py, z_num: pz, denom: den }
}

/// The model of an executable placement.
pub open spec fn placement_model(p: LeafPlacement) -> PlacementModel {
    leaf(p.scale_num as int, p.x_num as int, p.y_num as int, p.z_num as int, p.denom as int)
}

/// The models of a whole placement sequence.
pub open spec fn models(s: Seq<LeafPlacement>) -> Seq<PlacementModel> {
    s.map_values(|p: LeafPlacement| placement_model(p))
}

/// All leaf placements of an expansion of `m` to depth `d`, starting from
/// scale numerator `sn`, position numerators `px, py, pz` and denominator
/// `den`, in the order the expander emits them: pre-order descent over
/// (row index, element index).
pub open spec fn expand_all(
    m: Seq<Seq<u32>>,
    d: nat,
    sn: int,
    px: int,
    py: int,
    pz: int,
    den: int,
) -> Seq<PlacementModel>
    decreases d, m.len() + 1, 1int, 0int,
{
    if d == 0 {
        seq![leaf(sn, px, py, pz, den)]
    } else {
        expand_rows(m, 0, d, sn, px, py, pz, den)
    }
}

/// The placements contributed by rows `i, i + 1, ...` of one level.
pub open spec fn expand_rows(
    m: Seq<Seq<u32>>,
    i: int,
    d: nat,
    sn: int,
    px: int,
    py: int,
    pz: int,
    den: int,
) -> Seq<PlacementModel>
    decreases d, m.len() - i, 1int, 0int,
{
    if i < 0 || i >= m.len() {
        Seq::empty()
    } else {
        expand_row(m, i, 0, d, sn, px, py, pz, den) + expand_rows(
            m,
            i + 1,
            d,
            sn,
            px,
            py,
            pz,
            den,
        )
    }
}

/// The placements contributed by cells `j, j + 1, ...` of row `i`.
pub open spec fn expand_row(
    m: Seq<Seq<u32>>,
    i: int,
    j: int,
    d: nat,
    sn: int,
    px: int,
    py: int,
    pz: int,
    den: int,
) -> Seq<PlacementModel>
    decreases d, m.len() - i, 0int, m[i].len() - j,
{
    if d == 0 || i < 0 || i >= m.len() || j < 0 || j >= m[i].len() {
        Seq::empty()
    } else {
        let n = m.len() as int;
        expand_all(
            m,
            (d - 1) as nat,
            sn,
            px * n + i * sn,
            py * n + j * sn,
            pz * n + m[i][j] * sn,
            den * n,
        ) + expand_row(m, i, j + 1, d, sn, px, py, pz, den)
    }
}

/// The total number of cells of the matrix: the sum of all row lengths,
/// which is the branching factor of every level.
pub open spec fn cells(m: Seq<Seq<u32>>) -> nat
    decreases m.len(),
{
    if m.len() == 0 {
        0
    } else {
        cells(m.drop_last()) + m.last().len()
    }
}

/// The number of leaves an expansion of `m` to depth `d` would produce.
pub open spec fn projected_leaves(m: Seq<Seq<u32>>, d: nat) -> int {
    pow(cells(m) as int, d)
}

/// The largest entry of a row.
pub open spec fn row_max(r: Seq<u32>) -> int
    decreases r.len(),
{
    if r.len() == 0 {
        0
    } else {
        vstd::math::max(row_max(r.drop_last()), r.last() as int)
    }
}

/// The length of the longest row.
pub open spec fn max_row_len(m: Seq<Seq<u32>>) -> int
    decreases m.len(),
{
    if m.len() == 0 {
        0
    } else {
        vstd::math::max(max_row_len(m.drop_last()), m.last().len() as int)
    }
}

/// The largest entry of the whole matrix.
pub open spec fn max_entry(m: Seq<Seq<u32>>) -> int
    decreases m.len(),
{
    if m.len() == 0 {
        0
    } else {
        vstd::math::max(max_entry(m.drop_last()), row_max(m.last()))
    }
}

/// The largest factor any coordinate numerator is multiplied by at one
/// level: a row index, an element index, or a matrix entry.
pub open spec fn cmax(m: Seq<Seq<u32>>) -> int {
    max3(m.len() - 1, max_row_len(m) - 1, max_entry(m))
}

/// Whether a coordinate that starts at numerator `p` stays representable
/// through `d` levels when each level multiplies by `n` and adds at most
/// `c` times the scale numerator `sn`.
pub open spec fn coord_ok(n: int, c: int, sn: int, p: int, d: nat) -> bool
    decreases d,
{
    if d == 0 {
        true
    } else {
        p * n + c * sn <= u64::MAX && coord_ok(n, c, sn, p * n + c * sn, (d - 1) as nat)
    }
}

/// Whether the denominator stays representable through `d` levels of
/// multiplication by `n`.
pub open spec fn denom_ok(n: int, den: int, d: nat) -> bool
    decreases d,
{
    if d == 0 {
        true
    } else {
        den * n <= u64::MAX && denom_ok(n, den * n, (d - 1) as nat)
    }
}

/// The pre-flight guard: an expansion is refused when its projected leaf
/// count exceeds the ceiling, or when the exactly computed denominator or
/// some coordinate numerator could not be represented.
pub open spec fn too_large(m: Seq<Seq<u32>>, d: nat, sn: int, px: int, py: int, pz: int) -> bool {
    let n = m.len() as int;
    let c = cmax(m);
    ||| projected_leaves(m, d) > MAX_LEAF_COUNT as int
    ||| !denom_ok(n, 1, d)
    ||| !coord_ok(n, c, sn, px, d)
    ||| !coord_ok(n, c, sn, py, d)
    ||| !coord_ok(n, c, sn, pz, d)
}

/// Every row is at most as long as the longest row.
proof fn lemma_max_row_len_bound(m: Seq<Seq<u32>>)
    ensures
        forall|i: int| 0 <= i < m.len() ==> #[trigger] m[i].len() <= max_row_len(m),
    decreases m.len(),
{
    if m.len() > 0 {
        lemma_max_row_len_bound(m.drop_last());
        assert forall|i: int| 0 <= i < m.len() implies #[trigger] m[i].len() <= max_row_len(
            m,
        ) by {
            if i < m.len() - 1 {
                assert(m[i] == m.drop_last()[i]);
            } else {
                assert(m[i] == m.last());
            }
        }
    }
}

/// Every entry of a row is at most the row maximum.
proof fn lemma_row_max_bound(r: Seq<u32>)
    ensures
        forall|j: int| 0 <= j < r.len() ==> #[trigger] r[j] <= row_max(r),
    decreases r.len(),
{
    if r.len() > 0 {
        lemma_row_max_bound(r.drop_last());
        assert forall|j: int| 0 <= j < r.len() implies #[trigger] r[j] <= row_max(r) by {
            if j < r.len() - 1 {
                assert(r[j] == r.drop_last()[j]);
            } else {
                assert(r[j] == r.last());
            }
        }
    }
}

/// Every entry of the matrix is at most the matrix maximum.
proof fn lemma_max_entry_bound(m: Seq<Seq<u32>>)
    ensures
        forall|i: int, j: int|
            0 <= i < m.len() && 0 <= j < m[i].len() ==> #[trigger] m[i][j] <= max_entry(m),
    decreases m.len(),
{
    if m.len() > 0 {
        lemma_max_entry_bound(m.drop_last());
        lemma_row_max_bound(m.last());
        assert forall|i: int, j: int|
            0 <= i < m.len() && 0 <= j < m[i].len() implies #[trigger] m[i][j] <= max_entry(
            m,
        ) by {
            if i < m.len() - 1 {
                assert(m[i] == m.drop_last()[i]);
            } else {
                assert(m[i] == m.last());
            }
        }
    }
}

/// A coordinate bound is monotone: a smaller starting numerator stays
/// representable whenever a larger one does.
proof fn lemma_coord_ok_mono(n: int, c: int, sn: int, p1: int, p2: int, d: nat)
    requires
        n >= 1,
        c >= 0,
        sn >= 0,
        0 <= p1 <= p2,
        coord_ok(n, c, sn, p2, d),
    ensures
        coord_ok(n, c, sn, p1, d),
    decreases d,
{
    if d > 0 {
        lemma_mul_inequality(p1, p2, n);
        lemma_mul_nonnegative(p1, n);
        lemma_mul_nonnegative(c, sn);
        lemma_coord_ok_mono(n, c, sn, p1 * n + c * sn, p2 * n + c * sn, (d - 1) as nat);
    }
}

/// Appending one row adds that row's length to the cell count.
proof fn lemma_cells_snoc(m: Seq<Seq<u32>>, i: int)
    requires
        0 <= i < m.len(),
    ensures
        cells(m.subrange(0, i + 1)) == cells(m.subrange(0, i)) + m[i].len(),
{
    let s = m.subrange(0, i + 1);
    assert(s.drop_last() =~= m.subrange(0, i));
    assert(s.last() == m[i]);
}

/// Appending one row folds its length into the running maxima.
proof fn lemma_stats_snoc(m: Seq<Seq<u32>>, i: int)
    requires
        0 <= i < m.len(),
    ensures
        max_row_len(m.subrange(0, i + 1)) == vstd::math::max(
            max_row_len(m.subrange(0, i)),
            m[i].len() as int,
        ),
        max_entry(m.subrange(0, i + 1)) == vstd::math::max(
            max_entry(m.subrange(0, i)),
            row_max(m[i]),
        ),
{
    let s = m.subrange(0, i + 1);
    assert(s.drop_last() =~= m.subrange(0, i));
    assert(s.last() == m[i]);
}

/// Appending one entry folds it into the row maximum.
proof fn lemma_row_max_snoc(r: Seq<u32>, j: int)
    requires
        0 <= j < r.len(),
    ensures
        row_max(r.subrange(0, j + 1)) == vstd::math::max(row_max(r.subrange(0, j)), r[j] as int),
{
    let s = r.subrange(0, j + 1);
    assert(s.drop_last() =~= r.subrange(0, j));
    assert(s.last() == r[j]);
}

/// Sums the row lengths, capped just above the leaf ceiling.
#[verifier::loop_isolation(false)]
fn cells_capped(rows: &Vec<Vec<u32>>) -> (b: u64)
    ensures
        b as int == vstd::math::min(
            cells(rows_model(rows@)) as int,
            MAX_LEAF_COUNT as int + 1,
        ),
{
    let cap: u64 = MAX_LEAF_COUNT + 1;
    let mut b: u64 = 0;
    let mut i: usize = 0;
    proof {
        assert(rows_model(rows@).subrange(0, 0) =~= Seq::<Seq<u32>>::empty());
    }
    while i < rows.len()
        invariant
            i <= rows@.len(),
            b as int == vstd::math::min(
                cells(rows_model(rows@).subrange(0, i as int)) as int,
                cap as int,
            ),
        decreases rows@.len() - i,
    {
        let len = rows[i].len();
        let add_amt: u64 = if len as u64 > cap {
            cap
        } else {
            len as u64
        };
        b = b + add_amt;
        if b > cap {
            b = cap;
        }
        proof {
            lemma_cells_snoc(rows_model(rows@), i as int);
        }
        i = i + 1;
    }
    proof {
        assert(rows_model(rows@).subrange(0, rows@.len() as int) =~= rows_model(rows@));
    }
    b
}

/// Decides whether the projected leaf count exceeds the ceiling.
#[verifier::loop_isolation(false)]
fn leaves_exceed(rows: &Vec<Vec<u32>>, depth: u32) -> (ex: bool)
    ensures
        ex == (projected_leaves(rows_model(rows@), depth as nat) > MAX_LEAF_COUNT as int),
{
    let cap: u64 = MAX_LEAF_COUNT + 1;
    let ghost cl = cells(rows_model(rows@)) as int;
    if depth == 0 {
        proof {
            lemma_pow0(cl);
        }
        return false;
    }
    let b = cells_capped(rows);
    if b > MAX_LEAF_COUNT {
        proof {
            assert(cl > MAX_LEAF_COUNT);
            lemma_pow_increases(cl as nat, 1, depth as nat);
            lemma_pow1(cl);
        }
        return true;
    }
    let mut p: u64 = 1;
    let mut k: u32 = 0;
    proof {
        lemma_pow0(b as int);
    }
    while k < depth
        invariant
            k <= depth,
            b as int == cl <= MAX_LEAF_COUNT as int,
            p as int == vstd::math::min(pow(b as int, k as nat), cap as int),
        decreases depth - k,
    {
        proof {
            lemma_mul_upper_bound(p as int, cap as int, b as int, MAX_LEAF_COUNT as int);
            lemma_mul_nonnegative(p as int, b as int);
        }
        let q: u64 = p * b;
        proof {
            let bi = b as int;
            let pk = pow(bi, k as nat);
            lemma_pow_adds(bi, k as nat, 1);
            lemma_pow1(bi);
            assert((k + 1) as nat == k as nat + 1);
            assert(pow(bi, (k + 1) as nat) == pk * bi);
            if pk > cap as int {
                // the true power already exceeds the cap and can only grow
                assert(bi >= 1) by {
                    if b == 0 {
                        if k as nat == 0 {
                            lemma_pow0(0int);
                        } else {
                            lemma0_pow(k as nat);
                        }
                    }
                };
                assert(pk * bi >= pk) by (nonlinear_arith)
                    requires
                        bi >= 1,
                        pk >= 0,
                ;
                assert(q as int == cap as int * bi);
                assert(q as int >= cap as int) by (nonlinear_arith)
                    requires
                        bi >= 1,
                        q as int == cap as int * bi,
                        cap as int >= 0,
                ;
            } else {
                assert(p as int == pk);
                assert(q as int == pow(bi, (k + 1) as nat));
            }
        }
        p = if q > cap {
            cap
        } else {
            q
        };
        k = k + 1;
    }
    p > MAX_LEAF_COUNT
}

/// Decides the denominator bound exactly as `denom_ok` states it.
#[verifier::loop_isolation(false)]
fn denom_fits(n: u64, d: u32) -> (ok: bool)
    ensures
        ok == denom_ok(n as int, 1, d as nat),
{
    let mut den: u64 = 1;
    let mut k: u32 = 0;
    while k < d
        invariant
            k <= d,
            denom_ok(n as int, 1, d as nat) == denom_ok(n as int, den as int, (d - k) as nat),
        decreases d - k,
    {
        proof {
            lemma_mul_upper_bound(den as int, u64::MAX as int, n as int, u64::MAX as int);
            lemma_mul_nonnegative(den as int, n as int);
        }
        let q: u128 = (den as u128) * (n as u128);
        if q > u64::MAX as u128 {
            return false;
        }
        den = q as u64;
        k = k + 1;
    }
    true
}

/// Decides the coordinate bound exactly as `coord_ok` states it.
#[verifier::loop_isolation(false)]
fn coord_fits(n: u64, c: u64, sn: u64, p0: u64, d: u32) -> (ok: bool)
    ensures
        ok == coord_ok(n as int, c as int, sn as int, p0 as int, d as nat),
{
    let mut p: u64 = p0;
    let mut k: u32 = 0;
    while k < d
        invariant
            k <= d,
            coord_ok(n as int, c as int, sn as int, p0 as int, d as nat) == coord_ok(
                n as int,
                c as int,
                sn as int,
                p as int,
                (d - k) as nat,
            ),
        decreases d - k,
    {
        proof {
            lemma_mul_upper_bound(p as int, u64::MAX as int, n as int, u64::MAX as int);
            lemma_mul_upper_bound(c as int, u64::MAX as int, sn as int, u64::MAX as int);
            lemma_mul_nonnegative(p as int, n as int);
            lemma_mul_nonnegative(c as int, sn as int);
        }
        let q1: u128 = (p as u128) * (n as u128);
        let q2: u128 = (c as u128) * (sn as u128);
        if q1 > u64::MAX as u128 || q2 > u64::MAX as u128 {
            return false;
        }
        let q: u128 = q1 + q2;
        if q > u64::MAX as u128 {
            return false;
        }
        p = q as u64;
        k = k + 1;
    }
    true
}

/// Computes `cmax` of the matrix: the largest of row count minus one,
/// longest row length minus one, and largest entry.
#[verifier::loop_isolation(false)]
fn cmax_exec(rows: &Vec<Vec<u32>>) -> (c: u64)
    requires
        rows@.len() >= 1,
    ensures
        c as int == cmax(rows_model(rows@)),
{
    let ghost m = rows_model(rows@);
    let mut mrl: u64 = 0;
    let mut me: u64 = 0;
    let mut i: usize = 0;
    proof {
        assert(m.subrange(0, 0) =~= Seq::<Seq<u32>>::empty());
    }
    while i < rows.len()
        invariant
            i <= rows@.len(),
            mrl as int == max_row_len(m.subrange(0, i as int)),
            me as int == max_entry(m.subrange(0, i as int)),
        decreases rows@.len() - i,
    {
        let r = &rows[i];
        let rl = r.len();
        if rl as u64 > mrl {
            mrl = rl as u64;
        }
        let mut j: usize = 0;
        let mut rm: u64 = 0;
        proof {
            assert(m[i as int].subrange(0, 0) =~= Seq::<u32>::empty());
        }
        while j < rl
            invariant
                j <= rl,
                rm as int == row_max(m[i as int].subrange(0, j as int)),
            decreases rl - j,
        {
            let e = r[j];
            if e as u64 > rm {
                rm = e as u64;
            }
            proof {
                lemma_row_max_snoc(m[i as int], j as int);
            }
            j = j + 1;
        }
        proof {
            assert(m[i as int].subrange(0, rl as int) =~= m[i as int]);
            lemma_stats_snoc(m, i as int);
        }
        if rm > me {
            me = rm;
        }
        i = i + 1;
    }
    proof {
        assert(m.subrange(0, rows@.len() as int) =~= m);
    }
    let n = rows.len();
    let a: u64 = (n - 1) as u64;
    let lm: u64 = if mrl == 0 {
        0
    } else {
        mrl - 1
    };
    let mut c: u64 = a;
    if mrl >= 1 && lm > c {
        c = lm;
    }
    if me > c {
        c = me;
    }
    proof {
        assert(c as int == max3(m.len() - 1, max_row_len(m) - 1, max_entry(m)));
    }
    c
}

/// Evaluates the whole pre-flight guard.
fn expansion_too_large(rows: &Vec<Vec<u32>>, depth: u32, sn: u64, px: u64, py: u64, pz: u64) -> (r:
    bool)
    requires
        rows@.len() >= 1,
    ensures
        r == too_large(
            rows_model(rows@),
            depth as nat,
            sn as int,
            px as int,
            py as int,
            pz as int,
        ),
{
    if leaves_exceed(rows, depth) {
        return true;
    }
    let n: u64 = rows.len() as u64;
    let c = cmax_exec(rows);
    if !denom_fits(n, depth) {
        return true;
    }
    if !coord_fits(n, c, sn, px, depth) {
        return true;
    }
    if !coord_fits(n, c, sn, py, depth) {
        return true;
    }
    if !coord_fits(n, c, sn, pz, depth) {
        return true;
    }
    false
}

/// The cells of rows `i, i + 1, ...`: the sum of their lengths.
pub open spec fn cells_from(m: Seq<Seq<u32>>, i: int) -> nat
    decreases m.len() - i,
{
    if i < 0 || i >= m.len() {
        0
    } else {
        m[i].len() + cells_from(m, i + 1)
    }
}

/// Dropping the last row removes exactly its length from every suffix sum.
proof fn lemma_cells_from_drop_last(m: Seq<Seq<u32>>, i: int)
    requires
        m.len() >= 1,
        0 <= i <= m.len(),
    ensures
        i < m.len() ==> cells_from(m, i) == cells_from(m.drop_last(), i) + m.last().len(),
        i == m.len() ==> cells_from(m, i) == cells_from(m.drop_last(), i),
    decreases m.len() - i,
{
    if i < m.len() {
        lemma_cells_from_drop_last(m, i + 1);
        if i < m.len() - 1 {
            assert(m.drop_last()[i] == m[i]);
        }
    }
}

/// The full suffix sum equals the row-length sum.
proof fn lemma_cells_from_zero(m: Seq<Seq<u32>>)
    ensures
        cells_from(m, 0) == cells(m),
    decreases m.len(),
{
    if m.len() > 0 {
        lemma_cells_from_zero(m.drop_last());
        lemma_cells_from_drop_last(m, 0);
    }
}

/// Sequence concatenation is associative.
proof fn lemma_add_assoc(a: Seq<PlacementModel>, b: Seq<PlacementModel>, c: Seq<PlacementModel>)
    ensures
        (a + b) + c == a + (b + c),
{
    assert((a + b) + c =~= a + (b + c));
}

/// The empty sequence is a right identity of concatenation.
proof fn lemma_add_empty(a: Seq<PlacementModel>)
    ensures
        a + Seq::<PlacementModel>::empty() == a,
{
    assert(a + Seq::<PlacementModel>::empty() =~= a);
}

/// Taking models commutes with pushing one placement.
proof fn lemma_models_push(s: Seq<LeafPlacement>, p: LeafPlacement)
    ensures
        models(s.push(p)) == models(s).push(placement_model(p)),
{
    assert(models(s.push(p)) =~= models(s).push(placement_model(p)));
}

/// The models of an empty placement sequence are empty.
proof fn lemma_models_empty()
    ensures
        models(Seq::<LeafPlacement>::empty()) == Seq::<PlacementModel>::empty(),
{
    assert(models(Seq::<LeafPlacement>::empty()) =~= Seq::<PlacementModel>::empty());
}

/// The recursive heart of the expander. Appends to `out` every leaf
/// placement of the sub-fractal rooted at scale numerator `sn`, position
/// numerators `px, py, pz` and denominator `den`, `d` levels deep.
#[verifier::loop_isolation(false)]
fn expand_rec(
    rows: &Vec<Vec<u32>>,
    d: u32,
    sn: u64,
    px: u64,
    py: u64,
    pz: u64,
    den: u64,
    out: &mut Vec<LeafPlacement>,
)
    requires
        rows@.len() >= 1,
        denom_ok(rows@.len() as int, den as int, d as nat),
        coord_ok(rows@.len() as int, cmax(rows_model(rows@)), sn as int, px as int, d as nat),
        coord_ok(rows@.len() as int, cmax(rows_model(rows@)), sn as int, py as int, d as nat),
        coord_ok(rows@.len() as int, cmax(rows_model(rows@)), sn as int, pz as int, d as nat),
    ensures
        models(final(out)@) == models(old(out)@) + expand_all(
            rows_model(rows@),
            d as nat,
            sn as int,
            px as int,
            py as int,
            pz as int,
            den as int,
        ),
    decreases d,
{
    let ghost m = rows_model(rows@);
    let ghost c = cmax(m);
    if d == 0 {
        let placement = LeafPlacement {
            scale_num: sn,
            x_num: px,
            y_num: py,
            z_num: pz,
            denom: den,
        };
        out.push(placement);
        proof {
            lemma_models_push(old(out)@, placement);
            assert(models(old(out)@).push(placement_model(placement)) =~= models(old(out)@)
                + expand_all(m, 0, sn as int, px as int, py as int, pz as int, den as int));
        }
        return ;
    }
    let n = rows.len();
    proof {
        lemma_max_row_len_bound(m);
        lemma_max_entry_bound(m);
        lemma_mul_nonnegative(c, sn as int);
        lemma_mul_nonnegative(px as int, n as int);
        lemma_mul_nonnegative(py as int, n as int);
        lemma_mul_nonnegative(pz as int, n as int);
    }
    let mut i: usize = 0;
    while i < n
        invariant
            i <= n,
            models(out@) + expand_rows(
                m,
                i as int,
                d as nat,
                sn as int,
                px as int,
                py as int,
                pz as int,
                den as int,
            ) == models(old(out)@) + expand_all(
                m,
                d as nat,
                sn as int,
                px as int,
                py as int,
                pz as int,
                den as int,
            ),
        decreases n - i,
    {
        let r = &rows[i];
        let rl = r.len();
        let mut j: usize = 0;
        proof {
            lemma_add_assoc(
                models(out@),
                expand_row(
                    m,
                    i as int,
                    0,
                    d as nat,
                    sn as int,
                    px as int,
                    py as int,
                    pz as int,
                    den as int,
                ),
                expand_rows(
                    m,
                    i as int + 1,
                    d as nat,
                    sn as int,
                    px as int,
                    py as int,
                    pz as int,
                    den as int,
                ),
            );
        }
        while j < rl
            invariant
                j <= rl,
                rl == r@.len(),
                r@ == m[i as int],
                i < n,
                (models(out@) + expand_row(
                    m,
                    i as int,
                    j as int,
                    d as nat,
                    sn as int,
                    px as int,
                    py as int,
                    pz as int,
                    den as int,
                )) + expand_rows(
                    m,
                    i as int + 1,
                    d as nat,
                    sn as int,
                    px as int,
                    py as int,
                    pz as int,
                    den as int,
                ) == models(old(out)@) + expand_all(
                    m,
                    d as nat,
                    sn as int,
                    px as int,
                    py as int,
                    pz as int,
                    den as int,
                ),
            decreases rl - j,
        {
            let e = r[j];
            proof {
                // each per-level factor is at most cmax
                assert(i as int <= c);
                assert(j as int <= m[i as int].len() - 1 <= c);
                assert(e as int <= c);
                // the child numerators stay below the one-level bound
                lemma_mul_inequality(i as int, c, sn as int);
                lemma_mul_inequality(j as int, c, sn as int);
                lemma_mul_inequality(e as int, c, sn as int);
                lemma_mul_nonnegative(i as int, sn as int);
                lemma_mul_nonnegative(j as int, sn as int);
                lemma_mul_nonnegative(e as int, sn as int);
            }
            let nu = n as u64;
            let cx = px * nu + (i as u64) * sn;
            let cy = py * nu + (j as u64) * sn;
            let cz = pz * nu + (e as u64) * sn;
            let cden = den * nu;
            proof {
                let dd = (d - 1) as nat;
                lemma_coord_ok_mono(n as int, c, sn as int, cx as int, px as int * n as int + c
                    * sn as int, dd);
                lemma_coord_ok_mono(n as int, c, sn as int, cy as int, py as int * n as int + c
                    * sn as int, dd);
                lemma_coord_ok_mono(n as int, c, sn as int, cz as int, pz as int * n as int + c
                    * sn as int, dd);
            }
            let ghost out_before = out@;
            expand_rec(rows, d - 1, sn, cx, cy, cz, cden, out);
            proof {
                let dn = d as nat;
                let child = expand_all(
                    m,
                    (d - 1) as nat,
                    sn as int,
                    cx as int,
                    cy as int,
                    cz as int,
                    cden as int,
                );
                let tail = expand_row(
                    m,
                    i as int,
                    j as int + 1,
                    dn,
                    sn as int,
                    px as int,
                    py as int,
                    pz as int,
                    den as int,
                );
                let rest = expand_rows(
                    m,
                    i as int + 1,
                    dn,
                    sn as int,
                    px as int,
                    py as int,
                    pz as int,
                    den as int,
                );
                assert(expand_row(
                    m,
                    i as int,
                    j as int,
                    dn,
                    sn as int,
                    px as int,
                    py as int,
                    pz as int,
                    den as int,
                ) == child + tail);
                lemma_add_assoc(models(out_before), child, tail);
                lemma_add_assoc(models(out_before) + child, tail, rest);
            }
            j = j + 1;
        }
        proof {
            lemma_add_empty(models(out@));
        }
        i = i + 1;
    }
}

/// Expands the rule matrix `rows` to `depth` levels, starting from a cube
/// of scale `base_scale` anchored at `(base_x, base_y, base_z)`, and
/// returns every leaf placement in pre-order over (row index, element
/// index). The result is a pure function of the arguments: two calls with
/// identical arguments return identical sequences.
///
/// Fails fast, emitting nothing, with `EmptyRuleMatrix` on a
/// zero-dimension matrix, `InvalidDepth` on a depth beyond `MAX_DEPTH`,
/// and `ExpansionTooLarge` whenever the projected leaf count exceeds
/// `MAX_LEAF_COUNT` or the exact coordinates would overflow the machine
/// word; otherwise it succeeds.
pub fn expand(
    rows: &Vec<Vec<u32>>,
    depth: u32,
    base_scale: u64,
    base_x: u64,
    base_y: u64,
    base_z: u64,
) -> (r: Result<Vec<LeafPlacement>, FractalError>)
    requires
        base_scale >= 1,
    ensures
        rows@.len() == 0 ==> r == Err::<Vec<LeafPlacement>, FractalError>(
            FractalError::EmptyRuleMatrix,
        ),
        rows@.len() >= 1 && depth > MAX_DEPTH ==> r == Err::<Vec<LeafPlacement>, FractalError>(
            FractalError::InvalidDepth,
        ),
        rows@.len() >= 1 && depth <= MAX_DEPTH && too_large(
            rows_model(rows@),
            depth as nat,
            base_scale as int,
            base_x as int,
            base_y as int,
            base_z as int,
        ) ==> r == Err::<Vec<LeafPlacement>, FractalError>(FractalError::ExpansionTooLarge),
        rows@.len() >= 1 && depth <= MAX_DEPTH && !too_large(
            rows_model(rows@),
            depth as nat,
            base_scale as int,
            base_x as int,
            base_y as int,
            base_z as int,
        ) ==> (r matches Ok(v) && models(v@) == expand_all(
            rows_model(rows@),
            depth as nat,
            base_scale as int,
            base_x as int,
            base_y as int,
            base_z as int,
            1,
        )),
        rows@.len() >= 1 && depth == 0 ==> (r matches Ok(v) && models(v@) == seq![
            leaf(base_scale as int, base_x as int, base_y as int, base_z as int, 1),
        ]),
        r matches Ok(v) ==> v@.len() == pow(cells(rows_model(rows@)) as int, depth as nat),
        r matches Ok(v) ==> uniform_scale(
            models(v@),
            base_scale as int,
            pow(rows@.len() as int, depth as nat),
        ),
{
    if rows.len() == 0 {
        return Err(FractalError::EmptyRuleMatrix);
    }
    if depth > MAX_DEPTH {
        return Err(FractalError::InvalidDepth);
    }
    proof {
        if depth == 0 {
            lemma_pow0(cells(rows_model(rows@)) as int);
        }
    }
    if expansion_too_large(rows, depth, base_scale, base_x, base_y, base_z) {
        return Err(FractalError::ExpansionTooLarge);
    }
    let mut out: Vec<LeafPlacement> = Vec::new();
    proof {
        lemma_models_empty();
        lemma_add_empty(Seq::<PlacementModel>::empty());
    }
    expand_rec(rows, depth, base_scale, base_x, base_y, base_z, 1, &mut out);
    proof {
        let m = rows_model(rows@);
        lemma_leaf_count(
            m,
            depth as nat,
            base_scale as int,
            base_x as int,
            base_y as int,
            base_z as int,
            1,
        );
        lemma_scale_law(
            m,
            depth as nat,
            base_scale as int,
            base_x as int,
            base_y as int,
            base_z as int,
            1,
        );
        assert(1 * pow(m.len() as int, depth as nat) == pow(m.len() as int, depth as nat))
            by (nonlinear_arith);
        assert(rows@.len() == m.len());
        assert(Seq::<PlacementModel>::empty() + expand_all(
            rows_model(rows@),
            depth as nat,
            base_scale as int,
            base_x as int,
            base_y as int,
            base_z as int,
            1,
        ) =~= expand_all(
            rows_model(rows@),
            depth as nat,
            base_scale as int,
            base_x as int,
            base_y as int,
            base_z as int,
            1,
        ));
    }
    Ok(out)
}

/// The leaf count law. An expansion of `m` to depth `d` yields exactly
/// `cells(m) ^ d` placements: every level multiplies the count by the
/// total number of cells of the matrix, whatever the scale and position
/// arguments are.
pub proof fn lemma_leaf_count(
    m: Seq<Seq<u32>>,
    d: nat,
    sn: int,
    px: int,
    py: int,
    pz: int,
    den: int,
)
    ensures
        expand_all(m, d, sn, px, py, pz, den).len() == pow(cells(m) as int, d),
    decreases d, m.len() + 1, 1int, 0int,
{
    if d == 0 {
        lemma_pow0(cells(m) as int);
    } else {
        lemma_leaf_count_rows(m, 0, d, sn, px, py, pz, den);
        lemma_cells_from_zero(m);
        lemma_pow_adds(cells(m) as int, 1, (d - 1) as nat);
        lemma_pow1(cells(m) as int);
    }
}

/// Rows `i, i + 1, ...` contribute their cell count times the count of a
/// one-level-shallower expansion.
proof fn lemma_leaf_count_rows(
    m: Seq<Seq<u32>>,
    i: int,
    d: nat,
    sn: int,
    px: int,
    py: int,
    pz: int,
    den: int,
)
    requires
        d >= 1,
    ensures
        expand_rows(m, i, d, sn, px, py, pz, den).len() == cells_from(m, i) * pow(
            cells(m) as int,
            (d - 1) as nat,
        ),
    decreases d, m.len() - i, 1int, 0int,
{
    let p = pow(cells(m) as int, (d - 1) as nat);
    if i < 0 || i >= m.len() {
        assert(0int * p == 0) by (nonlinear_arith);
    } else {
        lemma_leaf_count_row(m, i, 0, d, sn, px, py, pz, den);
        lemma_leaf_count_rows(m, i + 1, d, sn, px, py, pz, den);
        assert((m[i].len() + cells_from(m, i + 1)) * p == m[i].len() * p + cells_from(m, i + 1)
            * p) by (nonlinear_arith);
    }
}

/// Cells `j, j + 1, ...` of row `i` contribute one shallower expansion
/// count each.
proof fn lemma_leaf_count_row(
    m: Seq<Seq<u32>>,
    i: int,
    j: int,
    d: nat,
    sn: int,
    px: int,
    py: int,
    pz: int,
    den: int,
)
    requires
        d >= 1,
        0 <= i < m.len(),
        0 <= j,
    ensures
        expand_row(m, i, j, d, sn, px, py, pz, den).len() == if j <= m[i].len() {
            (m[i].len() - j) * pow(cells(m) as int, (d - 1) as nat)
        } else {
            0
        },
    decreases d, m.len() - i, 0int, m[i].len() - j,
{
    let p = pow(cells(m) as int, (d - 1) as nat);
    if j >= m[i].len() {
        assert(0int * p == 0) by (nonlinear_arith);
    } else {
        let n = m.len() as int;
        lemma_leaf_count(
            m,
            (d - 1) as nat,
            sn,
            px * n + i * sn,
            py * n + j * sn,
            pz * n + m[i][j] * sn,
            den * n,
        );
        lemma_leaf_count_row(m, i, j + 1, d, sn, px, py, pz, den);
        assert((m[i].len() - j) * p == p + (m[i].len() - j - 1) * p) by (nonlinear_arith);
    }
}

/// The leaf count law for the common square case: when every row has
/// length `n` equal to the row count, depth `d` yields `(n * n) ^ d`
/// placements.
pub proof fn lemma_leaf_count_square(
    m: Seq<Seq<u32>>,
    d: nat,
    sn: int,
    px: int,
    py: int,
    pz: int,
    den: int,
)
    requires
        forall|i: int| 0 <= i < m.len() ==> #[trigger] m[i].len() == m.len(),
    ensures
        expand_all(m, d, sn, px, py, pz, den).len() == pow((m.len() * m.len()) as int, d),
{
    lemma_leaf_count(m, d, sn, px, py, pz, den);
    lemma_cells_uniform(m, m.len() as int);
}

/// A matrix whose rows all have length `l` has `rows * l` cells.
proof fn lemma_cells_uniform(m: Seq<Seq<u32>>, l: int)
    requires
        l >= 0,
        forall|i: int| 0 <= i < m.len() ==> #[trigger] m[i].len() == l,
    ensures
        cells(m) == m.len() * l,
    decreases m.len(),
{
    if m.len() == 0 {
        assert(0int * l == 0) by (nonlinear_arith);
    } else {
        lemma_cells_uniform(m.drop_last(), l);
        assert(m.last() == m[m.len() - 1]);
        assert(forall|i: int|
            0 <= i < m.len() - 1 ==> #[trigger] m.drop_last()[i] == m[i]);
        assert(m.len() * l == (m.len() - 1) * l + l) by (nonlinear_arith);
    }
}

/// Whether every placement of `s` has scale numerator `sn` and
/// denominator `den`.
pub open spec fn uniform_scale(s: Seq<PlacementModel>, sn: int, den: int) -> bool {
    forall|k: int|
        0 <= k < s.len() ==> (#[trigger] s[k]).scale_num == sn && s[k].denom == den
}

/// Concatenation preserves a uniform scale.
proof fn lemma_uniform_scale_concat(
    a: Seq<PlacementModel>,
    b: Seq<PlacementModel>,
    sn: int,
    den: int,
)
    requires
        uniform_scale(a, sn, den),
        uniform_scale(b, sn, den),
    ensures
        uniform_scale(a + b, sn, den),
{
    assert forall|k: int|
        0 <= k < (a + b).len() implies (#[trigger] (a + b)[k]).scale_num == sn && (a
        + b)[k].denom == den by {
        if k < a.len() {
            assert((a + b)[k] == a[k]);
        } else {
            assert((a + b)[k] == b[k - a.len()]);
        }
    }
}

/// The scale law. Every placement of an expansion to depth `d` has the
/// unchanged scale numerator `sn` and the denominator `den * n ^ d`: its
/// scale is the base scale divided by the matrix dimension once per
/// level.
pub proof fn lemma_scale_law(
    m: Seq<Seq<u32>>,
    d: nat,
    sn: int,
    px: int,
    py: int,
    pz: int,
    den: int,
)
    ensures
        uniform_scale(
            expand_all(m, d, sn, px, py, pz, den),
            sn,
            den * pow(m.len() as int, d),
        ),
    decreases d, m.len() + 1, 1int, 0int,
{
    let n = m.len() as int;
    if d == 0 {
        lemma_pow0(n);
        assert(den * 1 == den) by (nonlinear_arith);
    } else {
        lemma_scale_law_rows(m, 0, d, sn, px, py, pz, den);
    }
}

/// The scale law over rows `i, i + 1, ...` of one level.
proof fn lemma_scale_law_rows(
    m: Seq<Seq<u32>>,
    i: int,
    d: nat,
    sn: int,
    px: int,
    py: int,
    pz: int,
    den: int,
)
    requires
        d >= 1,
    ensures
        uniform_scale(
            expand_rows(m, i, d, sn, px, py, pz, den),
            sn,
            den * pow(m.len() as int, d),
        ),
    decreases d, m.len() - i, 1int, 0int,
{
    if !(i < 0 || i >= m.len()) {
        lemma_scale_law_row(m, i, 0, d, sn, px, py, pz, den);
        lemma_scale_law_rows(m, i + 1, d, sn, px, py, pz, den);
        lemma_uniform_scale_concat(
            expand_row(m, i, 0, d, sn, px, py, pz, den),
            expand_rows(m, i + 1, d, sn, px, py, pz, den),
            sn,
            den * pow(m.len() as int, d),
        );
    }
}

/// The scale law over cells `j, j + 1, ...` of row `i`.
proof fn lemma_scale_law_row(
    m: Seq<Seq<u32>>,
    i: int,
    j: int,
    d: nat,
    sn: int,
    px: int,
    py: int,
    pz: int,
    den: int,
)
    requires
        d >= 1,
        0 <= i < m.len(),
        0 <= j,
    ensures
        uniform_scale(
            expand_row(m, i, j, d, sn, px, py, pz, den),
            sn,
            den * pow(m.len() as int, d),
        ),
    decreases d, m.len() - i, 0int, m[i].len() - j,
{
    let n = m.len() as int;
    if !(j >= m[i].len()) {
        lemma_scale_law(
            m,
            (d - 1) as nat,
            sn,
            px * n + i * sn,
            py * n + j * sn,
            pz * n + m[i][j] * sn,
            den * n,
        );
        lemma_scale_law_row(m, i, j + 1, d, sn, px, py, pz, den);
        lemma_pow_adds(n, 1, (d - 1) as nat);
        lemma_pow1(n);
        assert((den * n) * pow(n, (d - 1) as nat) == den * (n * pow(n, (d - 1) as nat)))
            by (nonlinear_arith);
        lemma_uniform_scale_concat(
            expand_all(
                m,
                (d - 1) as nat,
                sn,
                px * n + i * sn,
                py * n + j * sn,
                pz * n + m[i][j] * sn,
                den * n,
            ),
            expand_row(m, i, j + 1, d, sn, px, py, pz, den),
            sn,
            den * pow(n, d),
        );
    }
}

/// Determinism at the value level: placement sequences with equal models
/// are equal. Together with the contract of `expand`, whose result's
/// models are a function of the arguments alone, two calls of `expand`
/// with identical arguments return identical placement sequences.
pub proof fn lemma_expand_deterministic(r1: Seq<LeafPlacement>, r2: Seq<LeafPlacement>)
    requires
        models(r1) == models(r2),
    ensures
        r1 == r2,
{
    assert(models(r1).len() == r1.len());
    assert(models(r2).len() == r2.len());
    assert forall|k: int| 0 <= k < r1.len() implies r1[k] == r2[k] by {
        assert(models(r1)[k] == placement_model(r1[k]));
        assert(models(r2)[k] == placement_model(r2[k]));
    }
    assert(r1 =~= r2);
}

} // verus!
