//! The design matrix: which rating enters which score difference.
//!
//! Row `r` of the matrix stands for the difference between the scores of
//! group `r` and group `r + 1`. Its columns are the ratings in flat order.
//! A cell holds the sign with which the rating's weight enters the
//! difference: `1` for a member of group `r`, `-1` for a member of group
//! `r + 1`, `0` for all others.

use crate::shape::{
    check_groups, check_shape, flatten, group_sizes, groups_accepted, groups_fault,
    lemma_default_flat, lemma_offset_monotone, lemma_same_shape_total, offset, rows_of,
    same_shape, shape_fault, total, validate_weights, well_shaped, ShapeError,
};
use nalgebra::DMatrix;
use vstd::prelude::*;

verus! {

/// A dense matrix of signs, kept in a `nalgebra::DMatrix`.
///
/// Nothing of the matrix is visible to the verifier but its rows, which
/// `sign_rows` names; what the functions below say of them is taken from
/// `nalgebra` and not proved.
#[verifier::external_body]
#[derive(Debug)]
pub struct SignMatrix {
    cells: DMatrix<i8>,
}

/// The cells of a matrix, row by row.
pub uninterp spec fn sign_rows(m: SignMatrix) -> Seq<Seq<i8>>;

impl View for SignMatrix {
    type V = Seq<Seq<i8>>;

    open spec fn view(&self) -> Seq<Seq<i8>> {
        sign_rows(*self)
    }
}

/// `DMatrix::from_element`: a matrix of `rows` by `cols` cells, each of
/// which holds `value`. The number of cells must not exceed what one
/// allocation can hold.
#[verifier::external_body]
fn filled(rows: usize, cols: usize, value: i8) -> (m: SignMatrix)
    requires
        rows * cols <= isize::MAX,
    ensures
        sign_rows(m) == Seq::new(rows as nat, |r: int| Seq::new(cols as nat, |c: int| value)),
{
    SignMatrix { cells: DMatrix::from_element(rows, cols, value) }
}

/// Assignment through `IndexMut<(usize, usize)>`: the cell at row `r` and
/// column `c` gets `value`, every other cell stays. The cell must exist.
#[verifier::external_body]
fn put(m: &mut SignMatrix, r: usize, c: usize, value: i8)
    requires
        r < sign_rows(*old(m)).len(),
        c < sign_rows(*old(m))[r as int].len(),
    ensures
        sign_rows(*final(m)) == sign_rows(*old(m)).update(
            r as int,
            sign_rows(*old(m))[r as int].update(c as int, value),
        ),
{
    m.cells[(r, c)] = value;
}

/// `Matrix::get` with a pair of indices: the cell at row `r` and column
/// `c`, or nothing where the matrix has no such cell.
#[verifier::external_body]
fn cell(m: &SignMatrix, r: usize, c: usize) -> (v: Option<i8>)
    ensures
        r < sign_rows(*m).len() && c < sign_rows(*m)[r as int].len() ==> v == Some(
            sign_rows(*m)[r as int][c as int],
        ),
        !(r < sign_rows(*m).len() && c < sign_rows(*m)[r as int].len()) ==> v.is_none(),
{
    m.cells.get((r, c)).copied()
}

/// `Matrix::shape`: the number of rows, and the number of columns, which
/// is the length of each row.
#[verifier::external_body]
fn dims(m: &SignMatrix) -> (d: (usize, usize))
    ensures
        d.0 == sign_rows(*m).len(),
        forall|r: int| 0 <= r < d.0 ==> (#[trigger] sign_rows(*m)[r]).len() == d.1,
{
    m.cells.shape()
}

impl SignMatrix {
    /// The number of rows.
    pub fn nrows(&self) -> (n: usize)
        ensures
            n == self@.len(),
    {
        dims(self).0
    }

    /// The number of columns: the length of every row.
    pub fn ncols(&self) -> (n: usize)
        ensures
            forall|r: int| 0 <= r < self@.len() ==> (#[trigger] self@[r]).len() == n,
    {
        dims(self).1
    }

    /// The sign at row `r` and column `c`, if the matrix has such a cell.
    pub fn get(&self, r: usize, c: usize) -> (v: Option<i8>)
        ensures
            r < self@.len() && c < self@[r as int].len() ==> v == Some(self@[r as int][c as int]),
            !(r < self@.len() && c < self@[r as int].len()) ==> v.is_none(),
    {
        cell(self, r, c)
    }
}

/// The sign with which the rating in flat position `c` enters the
/// difference between group `r` and group `r + 1`.
pub open spec fn design_sign(sizes: Seq<nat>, r: int, c: int) -> i8 {
    if offset(sizes, r) <= c < offset(sizes, r + 1) {
        1i8
    } else if offset(sizes, r + 1) <= c < offset(sizes, r + 2) {
        -1i8
    } else {
        0i8
    }
}

/// The design matrix of groups of the given sizes: one row for each pair
/// of adjacent groups, one column for each rating.
pub open spec fn design_rows(sizes: Seq<nat>) -> Seq<Seq<i8>> {
    Seq::new(
        if sizes.len() == 0 {
            0
        } else {
            (sizes.len() - 1) as nat
        },
        |r: int| Seq::new(total(sizes), |c: int| design_sign(sizes, r, c)),
    )
}

/// Builds the design matrix of `rating_groups`, or says why their shape
/// does not allow one. `flatten_weights` holds one weight for each rating,
/// in flat order; only their number is looked at.
pub fn rotate_a_matrix<R, W>(rating_groups: &[Vec<R>], flatten_weights: &Vec<W>) -> (r: Result<
    SignMatrix,
    ShapeError,
>)
    requires
        (rating_groups@.len() - 1) * flatten_weights@.len() <= isize::MAX,
    ensures
        (match r {
            Ok(m) => well_shaped(group_sizes(rating_groups@), flatten_weights@.len()) && m@
                == design_rows(group_sizes(rating_groups@)),
            Err(e) => shape_fault(group_sizes(rating_groups@), flatten_weights@.len(), e),
        }),
        rating_groups@.len() < 2 ==> r matches Err(ShapeError::TooFewGroups),
{
    let ghost sizes = group_sizes(rating_groups@);
    match check_shape(rating_groups, flatten_weights.len()) {
        Err(e) => {
            return Err(e);
        },
        Ok(()) => {},
    }
    let rows: usize = rating_groups.len() - 1;
    let cols: usize = flatten_weights.len();
    let mut m = filled(rows, cols, 0);
    let mut start: usize = 0;
    let mut i: usize = 0;
    while i < rows
        invariant
            i <= rows,
            rows + 1 == rating_groups.len(),
            sizes == group_sizes(rating_groups@),
            cols == total(sizes),
            start == offset(sizes, i as int),
            m@.len() == rows,
            forall|r: int| 0 <= r < rows ==> (#[trigger] m@[r]).len() == cols,
            forall|r: int, c: int|
                0 <= r < i && 0 <= c < cols ==> (#[trigger] m@[r][c]) == design_sign(sizes, r, c),
            forall|r: int, c: int| i <= r < rows && 0 <= c < cols ==> (#[trigger] m@[r][c]) == 0,
        decreases rows - i,
    {
        let own: usize = rating_groups[i].len();
        let next: usize = rating_groups[i + 1].len();
        proof {
            lemma_offset_monotone(sizes, i + 2, sizes.len() as int);
            assert(offset(sizes, i + 1) == start + own);
            assert(offset(sizes, i + 2) == start + own + next);
        }
        let split: usize = start + own;
        let end: usize = split + next;
        let ghost before = m@;
        let mut c: usize = start;
        while c < split
            invariant
                start <= c <= split <= cols,
                i < rows,
                m@.len() == rows,
                before.len() == rows,
                forall|r: int| 0 <= r < rows ==> (#[trigger] m@[r]).len() == cols,
                forall|r: int| 0 <= r < rows && r != i ==> (#[trigger] m@[r]) == before[r],
                forall|d: int|
                    0 <= d < cols ==> (#[trigger] m@[i as int][d]) == if start <= d < c {
                        1i8
                    } else {
                        0i8
                    },
            decreases split - c,
        {
            put(&mut m, i, c, 1);
            c += 1;
        }
        while c < end
            invariant
                split <= c <= end <= cols,
                start <= split,
                i < rows,
                m@.len() == rows,
                before.len() == rows,
                forall|r: int| 0 <= r < rows ==> (#[trigger] m@[r]).len() == cols,
                forall|r: int| 0 <= r < rows && r != i ==> (#[trigger] m@[r]) == before[r],
                forall|d: int|
                    0 <= d < cols ==> (#[trigger] m@[i as int][d]) == if start <= d < split {
                        1i8
                    } else if split <= d < c {
                        -1i8
                    } else {
                        0i8
                    },
            decreases end - c,
        {
            put(&mut m, i, c, -1);
            c += 1;
        }
        proof {
            assert forall|r: int, d: int| 0 <= r < i + 1 && 0 <= d < cols implies (#[trigger] m@[r][d])
                == design_sign(sizes, r, d) by {
                if r < i {
                    assert(m@[r] == before[r]);
                }
            }
            assert forall|r: int, d: int| i + 1 <= r < rows && 0 <= d < cols implies (
            #[trigger] m@[r][d]) == 0 by {
                assert(m@[r] == before[r]);
            }
        }
        start = split;
        i += 1;
    }
    proof {
        assert(m@ =~~= design_rows(sizes));
    }
    Ok(m)
}

/// What an evaluation works on: the design matrix of the groups, and one
/// weight for each rating, in flat order.
#[derive(Debug)]
pub struct Layout<W> {
    pub signs: SignMatrix,
    pub weights: Vec<W>,
}

/// The weights in flat order: those given, or `unit` for each rating.
pub open spec fn flat_weights<W>(sizes: Seq<nat>, weights: Option<Vec<Vec<W>>>, unit: W) -> Seq<
    W,
> {
    match weights {
        Some(given) => rows_of(given@).flatten(),
        None => Seq::new(total(sizes), |c: int| unit),
    }
}

/// Whether the weights, where some are given, have the shape of the
/// groups.
pub open spec fn weights_fit<R, W>(groups: Seq<Vec<R>>, weights: Option<Vec<Vec<W>>>) -> bool {
    weights matches Some(given) ==> same_shape(groups, given@)
}

/// Whether `e` is the fault that is reported for these groups and
/// weights. A fault of the groups comes before one of the weights.
pub open spec fn layout_fault<R, W>(
    groups: Seq<Vec<R>>,
    weights: Option<Vec<Vec<W>>>,
    e: ShapeError,
) -> bool {
    match e {
        ShapeError::WeightMismatch => groups_accepted(group_sizes(groups)) && !weights_fit(
            groups,
            weights,
        ),
        _ => groups_fault(group_sizes(groups), e),
    }
}

/// Lays out an evaluation of `rating_groups`: checks the groups, takes
/// the weights given or `unit` for each rating, flattens them, and builds
/// the design matrix.
pub fn layout<R, W: Copy>(
    rating_groups: &[Vec<R>],
    weights: Option<Vec<Vec<W>>>,
    unit: W,
) -> (r: Result<Layout<W>, ShapeError>)
    requires
        (rating_groups@.len() - 1) * total(group_sizes(rating_groups@)) <= isize::MAX,
    ensures
        (match r {
            Ok(l) => {
                &&& groups_accepted(group_sizes(rating_groups@))
                &&& weights_fit(rating_groups@, weights)
                &&& l.signs@ == design_rows(group_sizes(rating_groups@))
                &&& l.weights@ == flat_weights(group_sizes(rating_groups@), weights, unit)
            },
            Err(e) => layout_fault(rating_groups@, weights, e),
        }),
        rating_groups@.len() < 2 ==> r matches Err(ShapeError::TooFewGroups),
{
    let ghost sizes = group_sizes(rating_groups@);
    match check_groups(rating_groups) {
        Err(e) => {
            return Err(e);
        },
        Ok(()) => {},
    }
    let ghost asked = weights;
    let used = match validate_weights(rating_groups, weights, unit) {
        Err(e) => {
            return Err(e);
        },
        Ok(used) => used,
    };
    let flat = flatten(used.as_slice());
    proof {
        match asked {
            Some(given) => {
                lemma_same_shape_total(rating_groups@, given@);
            },
            None => {
                lemma_default_flat(sizes, unit);
            },
        }
    }
    match rotate_a_matrix(rating_groups, &flat) {
        Err(e) => Err(e),
        Ok(signs) => Ok(Layout { signs, weights: flat }),
    }
}

/// In the row that compares group `r` with the next, the member `k` of
/// group `g` has the sign `1` if `g` is `r`, `-1` if `g` is `r + 1`, and
/// `0` for every other group.
pub proof fn lemma_sign_by_group(sizes: Seq<nat>, r: int, g: int, k: int)
    requires
        0 <= r,
        r + 1 < sizes.len(),
        0 <= g < sizes.len(),
        0 <= k < sizes[g],
    ensures
        design_sign(sizes, r, offset(sizes, g) + k) == (if g == r {
            1i8
        } else if g == r + 1 {
            -1i8
        } else {
            0i8
        }),
{
    assert(offset(sizes, g + 1) == offset(sizes, g) + sizes[g]);
    if g < r {
        lemma_offset_monotone(sizes, g + 1, r);
    } else if g == r + 1 {
        lemma_offset_monotone(sizes, r, r + 1);
    } else if g > r + 1 {
        lemma_offset_monotone(sizes, r + 2, g);
        lemma_offset_monotone(sizes, r, r + 2);
    }
}

/// With two groups the matrix has one row: `1` for each member of the
/// first group, then `-1` for each member of the second.
pub proof fn lemma_one_versus_one(a: nat, b: nat)
    ensures
        design_rows(seq![a, b]) == seq![Seq::new(a, |c: int| 1i8) + Seq::new(b, |c: int| -1i8)],
{
    let sizes = seq![a, b];
    lemma_two_offsets(a, b);
    assert(design_rows(sizes) =~~= seq![
        Seq::new(a, |c: int| 1i8) + Seq::new(b, |c: int| -1i8),
    ]);
}

/// Swapping two groups negates the row, each rating being looked up at
/// its new place: a member of the first group moves up by the size of
/// the second, a member of the second moves to the front.
pub proof fn lemma_swap_negates(a: nat, b: nat, c: int)
    requires
        0 <= c < a + b,
    ensures
        design_sign(seq![b, a], 0, if c < a { c + b } else { c - a }) == -design_sign(seq![a, b], 0, c),
{
    lemma_two_offsets(a, b);
    lemma_two_offsets(b, a);
}

/// Where two groups of sizes `a` and `b` start and end.
proof fn lemma_two_offsets(a: nat, b: nat)
    ensures
        offset(seq![a, b], 0) == 0,
        offset(seq![a, b], 1) == a,
        offset(seq![a, b], 2) == a + b,
        total(seq![a, b]) == a + b,
{
    let sizes = seq![a, b];
    assert(offset(sizes, 0) == 0);
    assert(offset(sizes, 1) == offset(sizes, 0) + sizes[0]);
    assert(offset(sizes, 2) == offset(sizes, 1) + sizes[1]);
}

} // verus!
