use nalgebra::DMatrix;
use trueskill::design::layout;
use trueskill::outcome::{gather, PairOutcome, QualityError};
use trueskill::pairing::pair_indices;
use trueskill::shape::ShapeError;

const BETA: f64 = 25.0 / 3.0 / 2.0;

/// A rating as its mean and its standard deviation.
type Rating = (f64, f64);

/// The draw probability of the groups, from the layout that the library
/// gives and the closed form of the integral.
fn quality_from_layout(
    groups: &[Vec<Rating>],
    weights: Option<Vec<Vec<f64>>>,
    beta: f64,
) -> Result<f64, QualityError> {
    let plan = layout(groups, weights, 1.0).map_err(QualityError::Shape)?;
    let flat: Vec<Rating> = groups.iter().flatten().copied().collect();
    let len = flat.len();
    let means: Vec<f64> = flat.iter().map(|r| r.0).collect();
    let variances: Vec<f64> = flat.iter().map(|r| r.1 * r.1).collect();
    let mean = DMatrix::from_column_slice(len, 1, &means);
    let var = DMatrix::from_partial_diagonal(len, len, &variances);
    let a = DMatrix::from_fn(plan.signs.nrows(), plan.signs.ncols(), |r, c| {
        match plan.signs.get(r, c) {
            Some(1) => plan.weights[c],
            Some(-1) => -plan.weights[c],
            _ => 0.0,
        }
    });
    let at = a.transpose();
    let perf = beta * beta * &a * &at;
    let skill = &a * &var * &at;
    let middle = perf.clone() + skill;
    let inverse = middle.clone().try_inverse().ok_or(QualityError::Singular)?;
    let e_arg = (-0.5 * mean.transpose() * &at * inverse * &a * &mean).determinant();
    let value = e_arg.exp() * (perf.determinant() / middle.determinant()).sqrt();
    if !value.is_finite() || value == 0.0 {
        return Err(QualityError::NonFinite);
    }
    Ok(value)
}

fn one_against_one(a: &[Rating], b: &[Rating], beta: f64) -> f64 {
    quality_from_layout(&[a.to_vec(), b.to_vec()], None, beta).unwrap()
}

fn mean_over_pairs(groups: &[Vec<Rating>], beta: f64) -> Result<f64, ShapeError> {
    let pairs = pair_indices(groups.len())?;
    let outcomes: Vec<PairOutcome<f64>> = pairs
        .iter()
        .map(|&(first, second)| PairOutcome {
            first,
            second,
            result: quality_from_layout(
                &[groups[first].clone(), groups[second].clone()],
                None,
                beta,
            ),
        })
        .collect();
    let values = gather(&outcomes).unwrap();
    Ok(values.iter().sum::<f64>() / values.len() as f64)
}

fn close(a: f64, b: f64) -> bool {
    (a - b).abs() <= 1e-9
}

#[test]
fn equal_ratings_give_the_quality_of_their_spread_alone() {
    let q = one_against_one(&[(25.0, 5.0)], &[(25.0, 5.0)], BETA);
    let expected = (2.0 * BETA * BETA / (2.0 * BETA * BETA + 50.0)).sqrt();
    assert!(close(q, expected));
    assert!(close(q, 0.640_184_399_664_479_9));
}

#[test]
fn a_team_against_itself_has_no_loss_from_the_means() {
    let team = vec![(25.0, 5.0), (31.0, 2.0), (18.5, 7.0)];
    let q = one_against_one(&team, &team, BETA);
    let spread: f64 = 2.0 * (25.0 + 4.0 + 49.0);
    let expected = (6.0 * BETA * BETA / (6.0 * BETA * BETA + spread)).sqrt();
    assert!(close(q, expected));
}

#[test]
fn ten_points_apart_is_a_markedly_worse_match() {
    let even = one_against_one(&[(25.0, 5.0)], &[(25.0, 5.0)], BETA);
    let apart = one_against_one(&[(25.0, 5.0)], &[(35.0, 5.0)], BETA);
    assert!(0.0 < apart && apart < 1.0);
    assert!(apart < 0.6 * even);
    let middle = 2.0 * BETA * BETA + 50.0;
    assert!(close(apart, (-50.0 / middle).exp() * (2.0 * BETA * BETA / middle).sqrt()));
}

#[test]
fn the_order_of_two_teams_does_not_matter() {
    let a = vec![(25.0, 5.0), (29.0, 3.0)];
    let b = vec![(22.0, 6.0), (35.0, 2.5), (27.0, 4.0)];
    assert!(close(one_against_one(&a, &b, BETA), one_against_one(&b, &a, BETA)));
}

#[test]
fn the_quality_falls_as_the_means_move_apart() {
    let mut last = one_against_one(&[(25.0, 5.0)], &[(25.0, 5.0)], BETA);
    for gap in [1.0, 2.5, 5.0, 10.0, 20.0, 40.0] {
        let q = one_against_one(&[(25.0, 5.0)], &[(25.0 + gap, 5.0)], BETA);
        assert!(q < last);
        let mirrored = one_against_one(&[(25.0, 5.0)], &[(25.0 - gap, 5.0)], BETA);
        assert!(close(q, mirrored));
        last = q;
    }
}

#[test]
fn weights_scale_each_rating_before_the_difference() {
    let groups = vec![vec![(20.0, 4.0), (30.0, 3.0)], vec![(26.0, 5.0)]];
    let weights = vec![vec![0.5, 0.5], vec![1.0]];
    let q = quality_from_layout(&groups, Some(weights), BETA).unwrap();
    let perf = BETA * BETA * 1.5;
    let middle = perf + 0.25 * 16.0 + 0.25 * 9.0 + 25.0;
    let gap: f64 = 0.5 * 20.0 + 0.5 * 30.0 - 26.0;
    assert!(close(q, (-0.5 * gap * gap / middle).exp() * (perf / middle).sqrt()));
}

#[test]
fn three_groups_give_a_value_between_nought_and_one() {
    let groups = vec![vec![(25.0, 5.0)], vec![(27.0, 4.0), (21.0, 6.0)], vec![(30.0, 3.0)]];
    let q = quality_from_layout(&groups, None, BETA).unwrap();
    assert!(0.0 < q && q < 1.0);
}

#[test]
fn identical_singletons_average_to_the_quality_of_one_pair() {
    let groups = vec![vec![(25.0, 5.0)]; 6];
    let pair = one_against_one(&groups[0], &groups[1], BETA);
    assert!(close(mean_over_pairs(&groups, BETA).unwrap(), pair));
}

#[test]
fn a_free_for_all_is_the_mean_over_its_pairs() {
    let groups = vec![vec![(25.0, 5.0)], vec![(30.0, 4.0)], vec![(20.0, 6.0)]];
    let sum = one_against_one(&groups[0], &groups[1], BETA)
        + one_against_one(&groups[0], &groups[2], BETA)
        + one_against_one(&groups[1], &groups[2], BETA);
    assert!(close(mean_over_pairs(&groups, BETA).unwrap(), sum / 3.0));
}

#[test]
fn no_quality_for_fewer_than_two_groups() {
    let none: Vec<Vec<Rating>> = Vec::new();
    let one = vec![vec![(25.0, 5.0)]];
    let too_few = Err(QualityError::Shape(ShapeError::TooFewGroups));
    assert_eq!(quality_from_layout(&none, None, BETA), too_few);
    assert_eq!(quality_from_layout(&one, None, BETA), too_few);
    assert_eq!(mean_over_pairs(&none, BETA), Err(ShapeError::TooFewGroups));
    assert_eq!(mean_over_pairs(&one, BETA), Err(ShapeError::TooFewGroups));
}

#[test]
fn no_quality_without_spread_and_chance() {
    let groups = vec![vec![(25.0, 0.0)], vec![(25.0, 0.0)]];
    assert_eq!(quality_from_layout(&groups, None, 0.0), Err(QualityError::Singular));
}
