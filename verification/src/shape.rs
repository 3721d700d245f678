//! Shapes of rating groups and of the weights that go with them.

use vstd::prelude::*;

verus! {

/// Why a list of groups, or the weights given with it, cannot be used.
#[derive(Clone, Copy, Debug, PartialEq, Eq, Structural)]
pub enum ShapeError {
    /// Fewer than two groups were given.
    TooFewGroups,
    /// The group at `index` is empty, and no group before it is.
    EmptyGroup { index: usize },
    /// The weights do not have the shape of the groups.
    WeightMismatch,
}

/// The members of each group, as sequences.
pub open spec fn rows_of<T>(groups: Seq<Vec<T>>) -> Seq<Seq<T>> {
    groups.map_values(|g: Vec<T>| g@)
}

/// How many members each group has, in the order of the groups.
pub open spec fn group_sizes<T>(groups: Seq<Vec<T>>) -> Seq<nat> {
    groups.map_values(|g: Vec<T>| g@.len())
}

/// How many members the first `g` groups have together: the flat position
/// at which group `g` starts.
pub open spec fn offset(sizes: Seq<nat>, g: int) -> nat
    decreases g,
{
    if g <= 0 {
        0
    } else if g > sizes.len() {
        offset(sizes, g - 1)
    } else {
        offset(sizes, g - 1) + sizes[g - 1]
    }
}

/// How many members all groups have together.
pub open spec fn total(sizes: Seq<nat>) -> nat {
    offset(sizes, sizes.len() as int)
}

/// Offsets never decrease from one group to the next.
pub proof fn lemma_offset_monotone(sizes: Seq<nat>, g: int, h: int)
    requires
        g <= h,
    ensures
        offset(sizes, g) <= offset(sizes, h),
    decreases h - g,
{
    if g < h {
        lemma_offset_monotone(sizes, g, h - 1);
    }
}

/// The flat sequence of a list of groups is as long as its sizes say, and
/// each group's members stand in it from the group's offset on.
pub proof fn lemma_flatten_layout<T>(groups: Seq<Vec<T>>, g: int, k: int)
    requires
        0 <= g < groups.len(),
        0 <= k < groups[g]@.len(),
    ensures
        rows_of(groups).flatten().len() == total(group_sizes(groups)),
        offset(group_sizes(groups), g) + k < total(group_sizes(groups)),
        rows_of(groups).flatten()[offset(group_sizes(groups), g) + k] == groups[g]@[k],
{
    lemma_flatten_prefix(groups, groups.len() as int);
    lemma_flatten_prefix(groups, g);
    lemma_flatten_prefix(groups, g + 1);
    assert(groups.take(groups.len() as int) =~= groups);
    lemma_offset_monotone(group_sizes(groups), g + 1, groups.len() as int);
    let whole = rows_of(groups).flatten();
    let upto = rows_of(groups.take(g + 1)).flatten();
    lemma_flatten_is_prefix(groups, g + 1);
    assert(whole[offset(group_sizes(groups), g) + k] == upto[offset(group_sizes(groups), g) + k]);
}

/// The first `g` groups flatten to `offset(.., g)` members, the last of
/// these groups at the end.
proof fn lemma_flatten_prefix<T>(groups: Seq<Vec<T>>, g: int)
    requires
        0 <= g <= groups.len(),
    ensures
        rows_of(groups.take(g)).flatten().len() == offset(group_sizes(groups), g),
        g > 0 ==> rows_of(groups.take(g)).flatten() == rows_of(groups.take(g - 1)).flatten()
            + groups[g - 1]@,
    decreases g,
{
    if g == 0 {
        assert(rows_of(groups.take(0)) =~= Seq::<Seq<T>>::empty());
    } else {
        lemma_flatten_prefix(groups, g - 1);
        let before = rows_of(groups.take(g - 1));
        assert(rows_of(groups.take(g)) =~= before.push(groups[g - 1]@));
        before.lemma_flatten_push(groups[g - 1]@);
    }
}

/// What the first `g` groups flatten to is the beginning of what all
/// groups flatten to.
proof fn lemma_flatten_is_prefix<T>(groups: Seq<Vec<T>>, g: int)
    requires
        0 <= g <= groups.len(),
    ensures
        rows_of(groups.take(g)).flatten().len() <= rows_of(groups).flatten().len(),
        forall|p: int|
            0 <= p < rows_of(groups.take(g)).flatten().len() ==> rows_of(
                groups.take(g),
            ).flatten()[p] == rows_of(groups).flatten()[p],
    decreases groups.len() - g,
{
    if g == groups.len() {
        assert(groups.take(g) =~= groups);
    } else {
        lemma_flatten_is_prefix(groups, g + 1);
        lemma_flatten_prefix(groups, g + 1);
    }
}

/// All members of all groups in one sequence, group after group.
pub fn flatten<T: Copy>(groups: &[Vec<T>]) -> (flat: Vec<T>)
    ensures
        flat@ == rows_of(groups@).flatten(),
{
    let mut flat: Vec<T> = Vec::new();
    let mut g: usize = 0;
    proof {
        lemma_flatten_prefix(groups@, 0);
        assert(flat@ =~= rows_of(groups@.take(0)).flatten());
    }
    while g < groups.len()
        invariant
            g <= groups.len(),
            flat@ == rows_of(groups@.take(g as int)).flatten(),
        decreases groups.len() - g,
    {
        let group = &groups[g];
        let ghost before = flat@;
        let mut k: usize = 0;
        while k < group.len()
            invariant
                k <= group.len(),
                flat@ == before + group@.take(k as int),
            decreases group.len() - k,
        {
            flat.push(group[k]);
            k += 1;
            assert(flat@ =~= before + group@.take(k as int));
        }
        proof {
            assert(group@.take(k as int) =~= group@);
            lemma_flatten_prefix(groups@, g + 1);
        }
        g += 1;
    }
    proof {
        assert(groups@.take(g as int) =~= groups@);
    }
    flat
}

/// Whether `weights` holds one weight for each member of each group.
pub open spec fn same_shape<R, W>(groups: Seq<Vec<R>>, weights: Seq<Vec<W>>) -> bool {
    group_sizes(weights) == group_sizes(groups)
}

/// The weights that stand for "none given": `unit` for each member of
/// each group.
pub open spec fn default_rows<W>(sizes: Seq<nat>, unit: W) -> Seq<Seq<W>> {
    Seq::new(sizes.len(), |g: int| Seq::new(sizes[g], |k: int| unit))
}

/// The weights to use for `rating_groups`: those given, if they have the
/// shape of the groups, and `unit` for every rating if none are given.
/// Weights of another shape are refused.
pub fn validate_weights<R, W: Copy>(
    rating_groups: &[Vec<R>],
    weights: Option<Vec<Vec<W>>>,
    unit: W,
) -> (r: Result<Vec<Vec<W>>, ShapeError>)
    ensures
        (match (weights, r) {
            (Some(given), Ok(used)) => same_shape(rating_groups@, given@) && used == given,
            (Some(given), Err(e)) => !same_shape(rating_groups@, given@) && e
                == ShapeError::WeightMismatch,
            (None, Ok(used)) => rows_of(used@) == default_rows(group_sizes(rating_groups@), unit),
            (None, Err(_)) => false,
        }),
{
    match weights {
        Some(given) => {
            if given.len() != rating_groups.len() {
                proof {
                    assert(group_sizes(given@).len() != group_sizes(rating_groups@).len());
                }
                return Err(ShapeError::WeightMismatch);
            }
            let mut g: usize = 0;
            while g < rating_groups.len()
                invariant
                    g <= rating_groups.len(),
                    weights == Some(given),
                    given.len() == rating_groups.len(),
                    forall|h: int| 0 <= h < g ==> given[h]@.len() == rating_groups[h]@.len(),
                decreases rating_groups.len() - g,
            {
                if given[g].len() != rating_groups[g].len() {
                    proof {
                        assert(group_sizes(given@)[g as int] != group_sizes(rating_groups@)[g as int]);
                    }
                    return Err(ShapeError::WeightMismatch);
                }
                g += 1;
            }
            proof {
                assert(group_sizes(given@) =~= group_sizes(rating_groups@));
            }
            Ok(given)
        },
        None => {
            let mut used: Vec<Vec<W>> = Vec::new();
            let mut g: usize = 0;
            while g < rating_groups.len()
                invariant
                    g <= rating_groups.len(),
                    used.len() == g,
                    forall|h: int|
                        0 <= h < g ==> used[h]@ == Seq::new(
                            rating_groups[h]@.len(),
                            |k: int| unit,
                        ),
                decreases rating_groups.len() - g,
            {
                let size = rating_groups[g].len();
                let mut row: Vec<W> = Vec::new();
                let mut k: usize = 0;
                while k < size
                    invariant
                        k <= size,
                        row.len() == k,
                        forall|j: int| 0 <= j < k ==> row[j] == unit,
                    decreases size - k,
                {
                    row.push(unit);
                    k += 1;
                }
                proof {
                    assert(row@ =~= Seq::new(size as nat, |k: int| unit));
                }
                used.push(row);
                g += 1;
            }
            proof {
                assert(rows_of(used@) =~= default_rows(group_sizes(rating_groups@), unit));
            }
            Ok(used)
        },
    }
}

/// Whether the group at `index` is empty and no group before it is.
pub open spec fn is_first_empty(sizes: Seq<nat>, index: int) -> bool {
    &&& 0 <= index < sizes.len()
    &&& sizes[index] == 0
    &&& forall|g: int| 0 <= g < index ==> sizes[g] > 0
}

/// Whether every group has a member.
pub open spec fn all_nonempty(sizes: Seq<nat>) -> bool {
    forall|g: int| 0 <= g < sizes.len() ==> sizes[g] > 0
}

/// Groups of these sizes can be compared: there are two or more, and none
/// is empty.
pub open spec fn groups_accepted(sizes: Seq<nat>) -> bool {
    &&& sizes.len() >= 2
    &&& all_nonempty(sizes)
}

/// Whether `e` is the fault that is reported for groups of these sizes.
/// Too few groups come before an empty group.
pub open spec fn groups_fault(sizes: Seq<nat>, e: ShapeError) -> bool {
    match e {
        ShapeError::TooFewGroups => sizes.len() < 2,
        ShapeError::EmptyGroup { index } => sizes.len() >= 2 && is_first_empty(
            sizes,
            index as int,
        ),
        ShapeError::WeightMismatch => false,
    }
}

/// Groups of these sizes, with `weight_count` weights in all, can be laid
/// out: the groups are accepted, and each member has its weight.
pub open spec fn well_shaped(sizes: Seq<nat>, weight_count: nat) -> bool {
    &&& groups_accepted(sizes)
    &&& total(sizes) == weight_count
}

/// Whether `e` is the fault that is reported for groups of these sizes
/// with `weight_count` weights. A fault of the groups comes before a
/// wrong number of weights.
pub open spec fn shape_fault(sizes: Seq<nat>, weight_count: nat, e: ShapeError) -> bool {
    match e {
        ShapeError::WeightMismatch => groups_accepted(sizes) && total(sizes) != weight_count,
        _ => groups_fault(sizes, e),
    }
}

/// Accepts the groups if there are two or more and none is empty, and
/// says what is wrong with them if not.
pub fn check_groups<R>(rating_groups: &[Vec<R>]) -> (r: Result<(), ShapeError>)
    ensures
        (match r {
            Ok(()) => groups_accepted(group_sizes(rating_groups@)),
            Err(e) => groups_fault(group_sizes(rating_groups@), e),
        }),
        rating_groups@.len() < 2 ==> r matches Err(ShapeError::TooFewGroups),
{
    let ghost sizes = group_sizes(rating_groups@);
    if rating_groups.len() < 2 {
        return Err(ShapeError::TooFewGroups);
    }
    let mut g: usize = 0;
    while g < rating_groups.len()
        invariant
            g <= rating_groups.len(),
            rating_groups.len() >= 2,
            sizes == group_sizes(rating_groups@),
            forall|h: int| 0 <= h < g ==> sizes[h] > 0,
        decreases rating_groups.len() - g,
    {
        if rating_groups[g].len() == 0 {
            assert(sizes[g as int] == 0);
            return Err(ShapeError::EmptyGroup { index: g });
        }
        g += 1;
    }
    Ok(())
}

/// Accepts the groups and the number of weights if they are well shaped,
/// and says what is wrong with them if they are not.
pub fn check_shape<R>(rating_groups: &[Vec<R>], weight_count: usize) -> (r: Result<
    (),
    ShapeError,
>)
    ensures
        (match r {
            Ok(()) => well_shaped(group_sizes(rating_groups@), weight_count as nat),
            Err(e) => shape_fault(group_sizes(rating_groups@), weight_count as nat, e),
        }),
        rating_groups@.len() < 2 ==> r matches Err(ShapeError::TooFewGroups),
{
    let ghost sizes = group_sizes(rating_groups@);
    match check_groups(rating_groups) {
        Err(e) => {
            return Err(e);
        },
        Ok(()) => {},
    }
    let mut seen: usize = 0;
    let mut g: usize = 0;
    while g < rating_groups.len()
        invariant
            g <= rating_groups.len(),
            sizes == group_sizes(rating_groups@),
            groups_accepted(sizes),
            seen == offset(sizes, g as int),
            seen <= weight_count,
        decreases rating_groups.len() - g,
    {
        let size = rating_groups[g].len();
        if size > weight_count - seen {
            proof {
                lemma_offset_monotone(sizes, g + 1, sizes.len() as int);
            }
            return Err(ShapeError::WeightMismatch);
        }
        seen += size;
        g += 1;
    }
    if seen != weight_count {
        return Err(ShapeError::WeightMismatch);
    }
    Ok(())
}

/// Weights of the shape of the groups flatten to one weight for each
/// rating.
pub proof fn lemma_same_shape_total<R, W>(groups: Seq<Vec<R>>, weights: Seq<Vec<W>>)
    requires
        same_shape(groups, weights),
    ensures
        rows_of(weights).flatten().len() == total(group_sizes(groups)),
{
    lemma_flatten_prefix(weights, weights.len() as int);
    assert(weights.take(weights.len() as int) =~= weights);
}

/// The weights that stand for "none given" flatten to `unit`, once for
/// each rating.
pub proof fn lemma_default_flat<W>(sizes: Seq<nat>, unit: W)
    ensures
        default_rows(sizes, unit).flatten() == Seq::new(total(sizes), |c: int| unit),
{
    lemma_default_prefix(sizes, unit, sizes.len() as int);
    assert(default_rows(sizes, unit).take(sizes.len() as int) =~= default_rows(sizes, unit));
}

/// The default weights of the first `g` groups flatten to `unit`, once
/// for each of their ratings.
proof fn lemma_default_prefix<W>(sizes: Seq<nat>, unit: W, g: int)
    requires
        0 <= g <= sizes.len(),
    ensures
        default_rows(sizes, unit).take(g).flatten() == Seq::new(
            offset(sizes, g),
            |c: int| unit,
        ),
    decreases g,
{
    let rows = default_rows(sizes, unit);
    if g == 0 {
        assert(rows.take(0) =~= Seq::<Seq<W>>::empty());
        assert(rows.take(0).flatten() =~= Seq::new(0nat, |c: int| unit));
    } else {
        lemma_default_prefix(sizes, unit, g - 1);
        let before = rows.take(g - 1);
        assert(rows.take(g) =~= before.push(rows[g - 1]));
        before.lemma_flatten_push(rows[g - 1]);
        assert(rows.take(g).flatten() =~= Seq::new(offset(sizes, g), |c: int| unit));
    }
}

} // verus!
