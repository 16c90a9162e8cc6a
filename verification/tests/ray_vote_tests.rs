use truck_shapeops::ray_vote::{combine_votes, majority_vote, parity_class};

#[test]
fn odd_crossing_counts_mean_inside() {
    assert_eq!(parity_class(1), 1);
    assert_eq!(parity_class(-3), 1);
    assert_eq!(parity_class(0), 0);
    assert_eq!(parity_class(-2), 0);
    assert_eq!(parity_class(4), 0);
}

#[test]
fn three_agreeing_rays_decide() {
    let v = vec![Some(1), Some(-1), Some(3), Some(0), None, None, None, None];
    assert_eq!(majority_vote(&v), Some(1));
    let v = vec![Some(0), Some(2), Some(-2), Some(1), Some(1), None, None, None];
    assert_eq!(majority_vote(&v), Some(0));
}

#[test]
fn inside_wins_when_both_reach_three() {
    let v = vec![Some(1), Some(1), Some(1), Some(0), Some(0), Some(0), Some(2), Some(2)];
    assert_eq!(majority_vote(&v), Some(1));
}

#[test]
fn too_few_votes_leave_the_point_undecided() {
    let v = vec![Some(1), Some(1), Some(0), Some(0), None, None, None, None];
    assert_eq!(majority_vote(&v), None);
    assert_eq!(majority_vote(&vec![]), None);
}

#[test]
fn perturbed_votes_combine() {
    assert_eq!(combine_votes(Some(1), Some(1)), Some(1));
    assert_eq!(combine_votes(Some(0), Some(0)), Some(0));
    // Disagreement: the point lies on the boundary, counted as outside.
    assert_eq!(combine_votes(Some(1), Some(0)), Some(0));
    assert_eq!(combine_votes(None, Some(1)), Some(1));
    assert_eq!(combine_votes(Some(0), None), Some(0));
    assert_eq!(combine_votes(None, None), None);
}
