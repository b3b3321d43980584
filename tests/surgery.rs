use counting_components::enumerate::{
    coprime_pairs, count_components_upto_complexity, two_sided_multicurves_upto_complexity,
};
use counting_components::orbits::{count_components_with_orientability, has_one_component};
use counting_components::permutation::{PermutationError, SignedPermutation};
use counting_components::transition::{get_next_major_strand, Strand};

fn identity_two(flips: Vec<usize>) -> SignedPermutation {
    SignedPermutation::new(vec![0, 1], flips).unwrap()
}

#[test]
fn identity_without_flips_is_one_two_sided_component() {
    let perm = identity_two(vec![]);
    assert_eq!(has_one_component(&perm, 1, 1), (true, 0));
    assert_eq!(count_components_with_orientability(&perm, 1, 1), (1, 0));
}

#[test]
fn identity_with_flip_is_one_one_sided_component() {
    let perm = identity_two(vec![0]);
    assert_eq!(has_one_component(&perm, 1, 1), (true, 1));
    assert_eq!(count_components_with_orientability(&perm, 1, 1), (0, 1));
}

#[test]
fn duplicate_value_is_invalid_permutation() {
    let r = SignedPermutation::new(vec![0, 0], vec![]);
    assert_eq!(r.unwrap_err(), PermutationError::InvalidPermutation);
}

#[test]
fn out_of_range_value_is_invalid_permutation() {
    let r = SignedPermutation::new(vec![0, 2], vec![]);
    assert_eq!(r.unwrap_err(), PermutationError::InvalidPermutation);
}

#[test]
fn out_of_range_flip_is_invalid_flipset() {
    let r = SignedPermutation::new(vec![0, 1], vec![5]);
    assert_eq!(r.unwrap_err(), PermutationError::InvalidFlipset);
}

#[test]
fn permutation_is_checked_before_flips() {
    let r = SignedPermutation::new(vec![0, 0], vec![5]);
    assert_eq!(r.unwrap_err(), PermutationError::InvalidPermutation);
}

#[test]
fn empty_permutation_is_valid() {
    let perm = SignedPermutation::new(vec![], vec![]).unwrap();
    assert_eq!(perm.len(), 0);
    assert_eq!(count_components_with_orientability(&perm, 3, 2), (2, 0));
}

#[test]
fn call_gives_image_and_flip_bit() {
    let perm = identity_two(vec![0]);
    assert_eq!(perm.call(0), Ok((0, 1)));
    assert_eq!(perm.call(1), Ok((1, 0)));
    assert_eq!(perm.call(2), Err(PermutationError::InvalidPermutation));
}

#[test]
fn stored_bijection_is_inverse_of_input() {
    let perm = SignedPermutation::new(vec![1, 2, 0], vec![]).unwrap();
    assert_eq!(perm.call(0), Ok((2, 0)));
    assert_eq!(perm.call(1), Ok((0, 0)));
    assert_eq!(perm.call(2), Ok((1, 0)));
}

#[test]
fn strand_from_tag() {
    assert_eq!(Strand::new('t', 3, 0), Ok(Strand::Transverse(3)));
    assert_eq!(Strand::new('p', 1, 2), Ok(Strand::PermutationDirection(1, 2)));
    assert_eq!(Strand::new('x', 1, 2), Err(PermutationError::InvalidStrandType));
}

#[test]
fn transition_steps_along_the_orbit() {
    let perm = identity_two(vec![]);
    assert_eq!(
        get_next_major_strand(&perm, 1, 1, Strand::Transverse(0)),
        (Strand::PermutationDirection(0, 0), 0)
    );
    assert_eq!(
        get_next_major_strand(&perm, 1, 1, Strand::PermutationDirection(0, 0)),
        (Strand::PermutationDirection(1, 0), 0)
    );
    assert_eq!(
        get_next_major_strand(&perm, 1, 1, Strand::PermutationDirection(1, 0)),
        (Strand::Transverse(0), 0)
    );
}

#[test]
fn transition_through_flipped_index_reverses_copy() {
    let perm = identity_two(vec![0]);
    assert_eq!(
        get_next_major_strand(&perm, 2, 1, Strand::PermutationDirection(0, 0)),
        (Strand::PermutationDirection(1, 0), 1)
    );
    assert_eq!(
        get_next_major_strand(&perm, 2, 1, Strand::PermutationDirection(0, 1)),
        (Strand::PermutationDirection(0, 1), 1)
    );
}

#[test]
fn transition_is_a_bijection_on_small_spaces() {
    let perm = SignedPermutation::new(vec![2, 0, 1], vec![1]).unwrap();
    for m in 1..4usize {
        for n in 1..4usize {
            let mut strands = Vec::new();
            for i in 0..n {
                strands.push(Strand::Transverse(i));
            }
            for j in 0..3 {
                for k in 0..m {
                    strands.push(Strand::PermutationDirection(j, k));
                }
            }
            let mut images: Vec<Strand> = strands
                .iter()
                .map(|s| get_next_major_strand(&perm, m, n, *s).0)
                .collect();
            images.sort();
            let mut sorted = strands.clone();
            sorted.sort();
            assert_eq!(images, sorted);
        }
    }
}

#[test]
fn swap_splits_into_two_components() {
    let perm = SignedPermutation::new(vec![1, 0], vec![]).unwrap();
    assert_eq!(has_one_component(&perm, 1, 1), (false, 0));
    assert_eq!(count_components_with_orientability(&perm, 1, 1), (2, 0));
}

#[test]
fn flipped_copies_give_two_one_sided_components() {
    let perm = identity_two(vec![0]);
    assert_eq!(count_components_with_orientability(&perm, 2, 1), (0, 2));
    assert_eq!(count_components_with_orientability(&perm, 1, 2), (1, 1));
}

#[test]
fn one_component_agrees_with_full_count() {
    let perm = SignedPermutation::new(vec![2, 0, 1], vec![1]).unwrap();
    for m in 0..5usize {
        for n in 1..5usize {
            let (one, parity) = has_one_component(&perm, m, n);
            let (two_sided, one_sided) = count_components_with_orientability(&perm, m, n);
            assert_eq!(one, two_sided + one_sided == 1);
            if one {
                assert_eq!(parity == 1, one_sided == 1);
            }
        }
    }
}

#[test]
fn coprime_pairs_below_four() {
    assert_eq!(coprime_pairs(4), vec![(1, 1), (2, 1), (1, 2)]);
    assert_eq!(coprime_pairs(2), vec![]);
    assert_eq!(coprime_pairs(0), vec![]);
}

#[test]
fn full_report_below_four() {
    let perm = identity_two(vec![]);
    let mut report = count_components_upto_complexity(&perm, 4);
    report.sort();
    assert_eq!(
        report,
        vec![((1, 1), (1, 0)), ((1, 2), (2, 0)), ((2, 1), (1, 0))]
    );
}

#[test]
fn report_matches_direct_decomposition() {
    let perm = SignedPermutation::new(vec![2, 0, 1, 3], vec![1, 3]).unwrap();
    let report = count_components_upto_complexity(&perm, 9);
    for ((m, n), counts) in report.iter() {
        assert!(*m >= 1 && *n >= 1 && m + n < 9);
        assert_eq!(counts, &count_components_with_orientability(&perm, *m, *n));
    }
    assert_eq!(report.len(), coprime_pairs(9).len());
}

#[test]
fn two_sided_filter_below_four() {
    let perm = identity_two(vec![]);
    let mut pairs = two_sided_multicurves_upto_complexity(&perm, 4);
    pairs.sort();
    assert_eq!(pairs, vec![(1, 1), (1, 2), (2, 1)]);
    let flipped = identity_two(vec![0]);
    assert_eq!(two_sided_multicurves_upto_complexity(&flipped, 4), vec![]);
}

#[test]
fn repeated_queries_agree() {
    let perm = SignedPermutation::new(vec![3, 1, 0, 2], vec![0, 2]).unwrap();
    assert_eq!(has_one_component(&perm, 2, 3), has_one_component(&perm, 2, 3));
    assert_eq!(
        count_components_with_orientability(&perm, 3, 2),
        count_components_with_orientability(&perm, 3, 2)
    );
    assert_eq!(
        count_components_upto_complexity(&perm, 8),
        count_components_upto_complexity(&perm, 8)
    );
    assert_eq!(
        two_sided_multicurves_upto_complexity(&perm, 8),
        two_sided_multicurves_upto_complexity(&perm, 8)
    );
}

#[test]
fn coprime_pairs_skip_common_divisors() {
    assert_eq!(
        coprime_pairs(5),
        vec![(1, 1), (2, 1), (1, 2), (3, 1), (1, 3)]
    );
}

fn all_strands(len: usize, m: usize, n: usize) -> Vec<Strand> {
    let mut strands = Vec::new();
    for i in 0..n {
        strands.push(Strand::Transverse(i));
    }
    for j in 0..len {
        for k in 0..m {
            strands.push(Strand::PermutationDirection(j, k));
        }
    }
    strands
}

fn walk(perm: &SignedPermutation, m: usize, n: usize, start: Strand) -> (Vec<Strand>, usize) {
    let mut orbit = vec![start];
    let (mut next, mut flips) = get_next_major_strand(perm, m, n, start);
    while next != start {
        orbit.push(next);
        let (s, f) = get_next_major_strand(perm, m, n, next);
        flips += f;
        next = s;
    }
    (orbit, flips % 2)
}

#[test]
fn orbit_parity_same_from_every_start() {
    let perm = SignedPermutation::new(vec![2, 0, 3, 1], vec![0, 3]).unwrap();
    for (m, n) in [(1usize, 1usize), (2, 3), (3, 2), (4, 1)] {
        for start in all_strands(4, m, n) {
            let (orbit, parity) = walk(&perm, m, n, start);
            for other in orbit.iter() {
                let (other_orbit, other_parity) = walk(&perm, m, n, *other);
                assert_eq!(other_orbit.len(), orbit.len());
                assert_eq!(other_parity, parity);
            }
        }
    }
}

#[test]
fn orbit_lengths_add_up_to_strand_count() {
    let perm = SignedPermutation::new(vec![2, 0, 3, 1], vec![0, 3]).unwrap();
    for (m, n) in [(1usize, 1usize), (2, 3), (3, 2), (4, 1)] {
        let strands = all_strands(4, m, n);
        let mut total = 0;
        let mut orbits = 0;
        for start in strands.iter() {
            let (orbit, _) = walk(&perm, m, n, *start);
            if orbit.iter().all(|s| s >= start) {
                total += orbit.len();
                orbits += 1;
            }
        }
        assert_eq!(total, 4 * m + n);
        let (two_sided, one_sided) = count_components_with_orientability(&perm, m, n);
        assert_eq!(two_sided + one_sided, orbits);
    }
}
