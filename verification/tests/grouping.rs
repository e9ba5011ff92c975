use rand::SeedableRng;
use rand_pcg::Pcg32;
use random_grouping::GroupingError;
use random_grouping::RandomGrouping;
use random_grouping::Ratios;
use random_grouping::SizeRounding;
use std::collections::HashSet;

const SAMPLE_SIZE: usize = 30;

fn create_target() -> RandomGrouping<'static> {
    RandomGrouping::new().with_stable(true)
}

fn create_rng() -> Pcg32 {
    Pcg32::seed_from_u64(1)
}

fn create_samples() -> Vec<i32> {
    (0..SAMPLE_SIZE as i32).collect()
}

fn create_small_group_sizes() -> Vec<usize> {
    vec![8, 9, 10]
}

fn create_just_group_sizes() -> Vec<usize> {
    vec![9, 10, 11]
}

fn create_large_group_sizes() -> Vec<usize> {
    vec![10, 11, 12]
}

fn create_group_sizes_with_some_empty() -> Vec<usize> {
    vec![9, 0, 11]
}

fn sizes_to_ratios(sizes: &[usize], len: usize) -> Ratios {
    let nums = sizes.iter().map(|&x| x as i64).collect::<Vec<_>>();
    Ratios::new(nums, len as u64)
}

fn is_group_stable(group: &Vec<&i32>, samples: &[i32]) -> bool {
    let find_idx = |s: &i32| samples.iter().position(|x| s == x).unwrap();
    let idxs = group.iter().map(|&x| find_idx(x)).collect::<Vec<_>>();
    idxs.windows(2).all(|w| w[0] < w[1])
}

fn is_owned_group_stable(group: &Vec<i32>, samples: &[i32]) -> bool {
    let find_idx = |s: &i32| samples.iter().position(|x| s == x).unwrap();
    let idxs = group.iter().map(|x| find_idx(x)).collect::<Vec<_>>();
    idxs.windows(2).all(|w| w[0] < w[1])
}

fn check_target(target: &mut RandomGrouping) -> bool {
    let samples = create_samples();
    let sizes = create_just_group_sizes();
    let results = target.divide_by_size(samples.clone(), &sizes).unwrap();
    check_owned_groups(&results, &sizes, &samples)
}

fn check_groups(groups: &Vec<Vec<&i32>>, sizes: &[usize], samples: &[i32]) -> bool {
    if groups.len() != sizes.len() {
        return false;
    }
    let mut seen = HashSet::new();
    for group in groups {
        for &x in group {
            if !seen.insert(x) {
                return false;
            }
        }
    }
    for (idx, group) in groups.iter().enumerate() {
        let len_ok = group.len() == sizes[idx];
        let content_ok = group.iter().all(|x| samples.contains(x));
        if !(len_ok && content_ok) {
            return false;
        }
    }
    true
}

fn check_owned_groups(groups: &Vec<Vec<i32>>, sizes: &[usize], samples: &[i32]) -> bool {
    if groups.len() != sizes.len() {
        return false;
    }
    let mut seen = HashSet::new();
    for group in groups {
        for &x in group {
            if !seen.insert(x) {
                return false;
            }
        }
    }
    for (idx, group) in groups.iter().enumerate() {
        let len_ok = group.len() == sizes[idx];
        let content_ok = group.iter().all(|x| samples.contains(x));
        if !(len_ok && content_ok) {
            return false;
        }
    }
    true
}

#[test]
fn new() {
    let mut result = RandomGrouping::new();

    assert_eq!(result.stable(), true);
    assert_eq!(result.rounding(), SizeRounding::Floor);
    assert!(check_target(&mut result));
}

#[test]
fn auto_seed() {
    let mut result = RandomGrouping::auto_seed();

    assert_eq!(result.stable(), true);
    assert_eq!(result.rounding(), SizeRounding::Floor);
    assert!(check_target(&mut result));
}

#[test]
fn from_seed() {
    let mut result = RandomGrouping::from_seed(42);

    assert_eq!(result.stable(), true);
    assert_eq!(result.rounding(), SizeRounding::Floor);
    assert!(check_target(&mut result));
}

#[test]
fn from_rng() {
    let mut rng = create_rng();

    let mut result = RandomGrouping::from_rng(&mut rng);

    assert_eq!(result.stable(), true);
    assert_eq!(result.rounding(), SizeRounding::Floor);
    assert!(check_target(&mut result));
}

#[test]
fn divide_by_size() {
    // zero groups
    {
        let mut target = create_target();
        let samples = create_samples();
        let sizes = Vec::<usize>::new();

        let results = target.divide_by_size(samples.clone(), &sizes).unwrap();

        assert!(check_owned_groups(&results, &sizes, &samples));
    }
    // samples greater than group totals
    {
        let mut target = create_target();
        let samples = create_samples();
        let sizes = create_small_group_sizes();

        let results = target.divide_by_size(samples.clone(), &sizes).unwrap();

        assert!(check_owned_groups(&results, &sizes, &samples));
    }
    // samples equal to group totals
    {
        let mut target = create_target();
        let samples = create_samples();
        let sizes = create_just_group_sizes();

        let results = target.divide_by_size(samples.clone(), &sizes).unwrap();

        assert!(check_owned_groups(&results, &sizes, &samples));
    }
    // samples less than group totals
    {
        let mut target = create_target();
        let samples = create_samples();
        let sizes = create_large_group_sizes();

        let result = target.divide_by_size(samples, &sizes);

        assert!(matches!(result, Err(GroupingError::Oversubscribed)));
    }
    // stable order
    {
        let mut target = create_target().with_stable(true);
        let samples = create_samples();
        let sizes = create_just_group_sizes();

        let results = target.divide_by_size(samples.clone(), &sizes).unwrap();

        assert!(results.iter().all(|x| is_owned_group_stable(x, &samples)));
    }
    // duplicated run gives identical groups
    {
        let mut target_x = create_target();
        let mut target_y = create_target();
        let samples = create_samples();
        let sizes = create_just_group_sizes();

        let results_x = target_x.divide_by_size(samples.clone(), &sizes).unwrap();
        let results_y = target_y.divide_by_size(samples.clone(), &sizes).unwrap();

        assert_eq!(results_x, results_y);
    }
    // empty group in the middle
    {
        let mut target = create_target();
        let samples = create_samples();
        let sizes = create_group_sizes_with_some_empty();

        let results = target.divide_by_size(samples.clone(), &sizes).unwrap();

        assert!(check_owned_groups(&results, &sizes, &samples));
    }
}

#[test]
fn divide_by_ratio() {
    // zero groups
    {
        let mut target = create_target();
        let samples = create_samples();
        let sizes = Vec::<usize>::new();
        let ratios = sizes_to_ratios(&sizes, samples.len());

        let results = target.divide_by_ratio(samples.clone(), &ratios).unwrap();

        assert!(check_owned_groups(&results, &sizes, &samples));
    }
    // samples greater than group totals
    {
        let mut target = create_target();
        let samples = create_samples();
        let sizes = create_small_group_sizes();
        let ratios = sizes_to_ratios(&sizes, samples.len());

        let results = target.divide_by_ratio(samples.clone(), &ratios).unwrap();

        assert!(check_owned_groups(&results, &sizes, &samples));
    }
    // samples equal to group totals
    {
        let mut target = create_target();
        let samples = create_samples();
        let sizes = create_just_group_sizes();
        let ratios = sizes_to_ratios(&sizes, samples.len());

        let results = target.divide_by_ratio(samples.clone(), &ratios).unwrap();

        assert!(check_owned_groups(&results, &sizes, &samples));
    }
    // ratios total above one
    {
        let mut target = create_target();
        let samples = create_samples();
        let sizes = create_large_group_sizes();
        let ratios = sizes_to_ratios(&sizes, samples.len());

        let result = target.divide_by_ratio(samples, &ratios);

        assert!(matches!(result, Err(GroupingError::RatioOverflow)));
    }
    // empty group in the middle
    {
        let mut target = create_target();
        let samples = create_samples();
        let sizes = create_group_sizes_with_some_empty();
        let ratios = sizes_to_ratios(&sizes, samples.len());

        let results = target.divide_by_ratio(samples.clone(), &ratios).unwrap();

        assert!(check_owned_groups(&results, &sizes, &samples));
    }
    // a scale of zero denotes no ratios (not-a-number analogue)
    {
        let mut target = create_target();
        let samples = create_samples();
        let ratios = Ratios::new(vec![3, 3, 3], 0);

        let result = target.divide_by_ratio(samples, &ratios);

        assert!(matches!(result, Err(GroupingError::InvalidRatio)));
    }
    // a positive weight over a zero scale (infinity analogue)
    {
        let mut target = create_target();
        let samples = create_samples();
        let ratios = Ratios::new(vec![3, 3, i64::MAX], 0);

        let result = target.divide_by_ratio(samples, &ratios);

        assert!(matches!(result, Err(GroupingError::InvalidRatio)));
    }
    // a negative weight
    {
        let mut target = create_target();
        let samples = create_samples();
        let ratios = Ratios::new(vec![3, 3, -3], 10);

        let result = target.divide_by_ratio(samples, &ratios);

        assert!(matches!(result, Err(GroupingError::InvalidRatio)));
    }
    // stable order
    {
        let mut target = create_target().with_stable(true);
        let samples = create_samples();
        let sizes = create_just_group_sizes();
        let ratios = sizes_to_ratios(&sizes, samples.len());

        let results = target.divide_by_ratio(samples.clone(), &ratios).unwrap();

        assert!(results.iter().all(|x| is_owned_group_stable(x, &samples)));
    }
    // floor rounding
    {
        let mut target = create_target().with_rounding(SizeRounding::Floor);
        let samples = (0..10).collect::<Vec<_>>();
        let ratios = Ratios::new(vec![1, 1, 1], 4);

        let results = target.divide_by_ratio(samples.clone(), &ratios).unwrap();

        let expected_sizes = vec![2, 2, 2];
        assert!(check_owned_groups(&results, &expected_sizes, &samples));
    }
    // tail rounding
    {
        let mut target = create_target().with_rounding(SizeRounding::Tail);
        let samples = (0..10).collect::<Vec<_>>();
        let ratios = Ratios::new(vec![1, 1, 1, 1], 4);

        let results = target.divide_by_ratio(samples.clone(), &ratios).unwrap();

        let expected_sizes = vec![3, 3, 3, 1];
        assert!(check_owned_groups(&results, &expected_sizes, &samples));
    }
    // each rounding
    {
        let mut target = create_target().with_rounding(SizeRounding::Each);
        let samples = (0..10).collect::<Vec<_>>();
        let ratios = Ratios::new(vec![1, 1, 1], 3);

        let results = target.divide_by_ratio(samples.clone(), &ratios).unwrap();

        let expected_sizes = vec![3, 4, 3];
        assert!(check_owned_groups(&results, &expected_sizes, &samples));
    }
}

#[test]
fn divide_slice_by_size() {
    // zero groups
    {
        let mut target = create_target();
        let samples = create_samples();
        let sizes = Vec::<usize>::new();

        let results = target.divide_slice_by_size(&samples, &sizes).unwrap();

        assert!(check_groups(&results, &sizes, &samples));
    }
    // samples greater than group totals
    {
        let mut target = create_target();
        let samples = create_samples();
        let sizes = create_small_group_sizes();

        let results = target.divide_slice_by_size(&samples, &sizes).unwrap();

        assert!(check_groups(&results, &sizes, &samples));
    }
    // samples equal to group totals
    {
        let mut target = create_target();
        let samples = create_samples();
        let sizes = create_just_group_sizes();

        let results = target.divide_slice_by_size(&samples, &sizes).unwrap();

        assert!(check_groups(&results, &sizes, &samples));
    }
    // samples less than group totals
    {
        let mut target = create_target();
        let samples = create_samples();
        let sizes = create_large_group_sizes();

        let result = target.divide_slice_by_size(&samples, &sizes);

        assert!(matches!(result, Err(GroupingError::Oversubscribed)));
    }
    // stable order
    {
        let mut target = create_target().with_stable(true);
        let samples = create_samples();
        let sizes = create_just_group_sizes();

        let results = target.divide_slice_by_size(&samples, &sizes).unwrap();

        assert!(results.iter().all(|x| is_group_stable(x, &samples)));
    }
    // duplicated run gives identical groups
    {
        let mut target_x = create_target();
        let mut target_y = create_target();
        let samples = create_samples();
        let sizes = create_just_group_sizes();

        let results_x = target_x.divide_slice_by_size(&samples, &sizes).unwrap();
        let results_y = target_y.divide_slice_by_size(&samples, &sizes).unwrap();

        assert_eq!(results_x, results_y);
    }
    // empty group in the middle
    {
        let mut target = create_target();
        let samples = create_samples();
        let sizes = create_group_sizes_with_some_empty();

        let results = target.divide_slice_by_size(&samples, &sizes).unwrap();

        assert!(check_groups(&results, &sizes, &samples));
    }
}

#[test]
fn divide_slice_by_ratio() {
    // zero groups
    {
        let mut target = create_target();
        let samples = create_samples();
        let sizes = Vec::<usize>::new();
        let ratios = sizes_to_ratios(&sizes, samples.len());

        let results = target.divide_slice_by_ratio(&samples, &ratios).unwrap();

        assert!(check_groups(&results, &sizes, &samples));
    }
    // samples greater than group totals
    {
        let mut target = create_target();
        let samples = create_samples();
        let sizes = create_small_group_sizes();
        let ratios = sizes_to_ratios(&sizes, samples.len());

        let results = target.divide_slice_by_ratio(&samples, &ratios).unwrap();

        assert!(check_groups(&results, &sizes, &samples));
    }
    // samples equal to group totals
    {
        let mut target = create_target();
        let samples = create_samples();
        let sizes = create_just_group_sizes();
        let ratios = sizes_to_ratios(&sizes, samples.len());

        let results = target.divide_slice_by_ratio(&samples, &ratios).unwrap();

        assert!(check_groups(&results, &sizes, &samples));
    }
    // ratios total above one
    {
        let mut target = create_target();
        let samples = create_samples();
        let sizes = create_large_group_sizes();
        let ratios = sizes_to_ratios(&sizes, samples.len());

        let result = target.divide_slice_by_ratio(&samples, &ratios);

        assert!(matches!(result, Err(GroupingError::RatioOverflow)));
    }
    // empty group in the middle
    {
        let mut target = create_target();
        let samples = create_samples();
        let sizes = create_group_sizes_with_some_empty();
        let ratios = sizes_to_ratios(&sizes, samples.len());

        let results = target.divide_slice_by_ratio(&samples, &ratios).unwrap();

        assert!(check_groups(&results, &sizes, &samples));
    }
    // a scale of zero denotes no ratios (not-a-number analogue)
    {
        let mut target = create_target();
        let samples = create_samples();
        let ratios = Ratios::new(vec![3, 3, 3], 0);

        let result = target.divide_slice_by_ratio(&samples, &ratios);

        assert!(matches!(result, Err(GroupingError::InvalidRatio)));
    }
    // a positive weight over a zero scale (infinity analogue)
    {
        let mut target = create_target();
        let samples = create_samples();
        let ratios = Ratios::new(vec![3, 3, i64::MAX], 0);

        let result = target.divide_slice_by_ratio(&samples, &ratios);

        assert!(matches!(result, Err(GroupingError::InvalidRatio)));
    }
    // a negative weight
    {
        let mut target = create_target();
        let samples = create_samples();
        let ratios = Ratios::new(vec![3, 3, -3], 10);

        let result = target.divide_slice_by_ratio(&samples, &ratios);

        assert!(matches!(result, Err(GroupingError::InvalidRatio)));
    }
    // stable order
    {
        let mut target = create_target().with_stable(true);
        let samples = create_samples();
        let sizes = create_just_group_sizes();
        let ratios = sizes_to_ratios(&sizes, samples.len());

        let results = target.divide_slice_by_ratio(&samples, &ratios).unwrap();

        assert!(results.iter().all(|x| is_group_stable(x, &samples)));
    }
    // floor rounding
    {
        let mut target = create_target().with_rounding(SizeRounding::Floor);
        let samples = (0..10).collect::<Vec<_>>();
        let ratios = Ratios::new(vec![1, 1, 1], 4);

        let results = target.divide_slice_by_ratio(&samples, &ratios).unwrap();

        let expected_sizes = vec![2, 2, 2];
        assert!(check_groups(&results, &expected_sizes, &samples));
    }
    // tail rounding
    {
        let mut target = create_target().with_rounding(SizeRounding::Tail);
        let samples = (0..10).collect::<Vec<_>>();
        let ratios = Ratios::new(vec![1, 1, 1, 1], 4);

        let results = target.divide_slice_by_ratio(&samples, &ratios).unwrap();

        let expected_sizes = vec![3, 3, 3, 1];
        assert!(check_groups(&results, &expected_sizes, &samples));
    }
    // each rounding
    {
        let mut target = create_target().with_rounding(SizeRounding::Each);
        let samples = (0..10).collect::<Vec<_>>();
        let ratios = Ratios::new(vec![1, 1, 1], 3);

        let results = target.divide_slice_by_ratio(&samples, &ratios).unwrap();

        let expected_sizes = vec![3, 4, 3];
        assert!(check_groups(&results, &expected_sizes, &samples));
    }
}

#[test]
fn default() {
    let mut result = RandomGrouping::default();
    check_target(&mut result);
}
