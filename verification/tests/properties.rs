use random_grouping::grouping::{bucket_by_indices, group_slice_by_indices};
use random_grouping::ratio::check_ratios;
use random_grouping::GroupingError;
use random_grouping::RandomGrouping;
use random_grouping::Ratios;
use random_grouping::SizeRounding;
use random_grouping::SizedIter;
use random_grouping::Staff;
use std::collections::HashSet;

#[test]
fn same_seed_same_groups() {
    let samples = (0..20).collect::<Vec<i32>>();
    let sizes = vec![5, 0, 7];
    let ratios = Ratios::new(vec![1, 2], 5);

    let mut a = RandomGrouping::from_seed(7).with_stable(false);
    let mut b = RandomGrouping::from_seed(7).with_stable(false);

    let first_a = a.divide_by_size(samples.clone(), &sizes).unwrap();
    let first_b = b.divide_by_size(samples.clone(), &sizes).unwrap();
    assert_eq!(first_a, first_b);

    let second_a = a.divide_slice_by_ratio(&samples, &ratios).unwrap();
    let second_b = b.divide_slice_by_ratio(&samples, &ratios).unwrap();
    assert_eq!(second_a, second_b);
}

#[test]
fn invalid_ratios_consume_no_randomness() {
    let samples = (0..12).collect::<Vec<i32>>();
    let sizes = vec![4, 4];
    let bad_scale = Ratios::new(vec![1, 1], 0);
    let negative = Ratios::new(vec![1, -1], 4);
    let too_much = Ratios::new(vec![3, 3], 5);

    let mut touched = RandomGrouping::from_seed(99);
    assert!(touched.divide_by_ratio(samples.clone(), &bad_scale).is_err());
    assert!(touched.divide_by_ratio(samples.clone(), &negative).is_err());
    assert!(touched.divide_slice_by_ratio(&samples, &too_much).is_err());
    let after_failures = touched.divide_by_size(samples.clone(), &sizes).unwrap();

    let mut fresh = RandomGrouping::from_seed(99);
    let direct = fresh.divide_by_size(samples.clone(), &sizes).unwrap();

    assert_eq!(after_failures, direct);
}

#[test]
fn zero_groups_consume_no_randomness() {
    let samples = (0..12).collect::<Vec<i32>>();
    let sizes = vec![4, 4];

    let mut skipped = RandomGrouping::from_seed(5);
    let empty = skipped.divide_by_size(samples.clone(), &[]).unwrap();
    assert!(empty.is_empty());
    let empty_slice = skipped.divide_slice_by_size(&samples, &[]).unwrap();
    assert!(empty_slice.is_empty());
    let after_empty = skipped.divide_by_size(samples.clone(), &sizes).unwrap();

    let mut fresh = RandomGrouping::from_seed(5);
    let direct = fresh.divide_by_size(samples.clone(), &sizes).unwrap();

    assert_eq!(after_empty, direct);
}

#[test]
fn oversubscription_consumes_no_randomness() {
    let samples = (0..10).collect::<Vec<i32>>();
    let sizes = vec![4, 4];

    let mut refused = RandomGrouping::from_seed(11);
    assert!(matches!(
        refused.divide_by_size(samples.clone(), &[6, 6]),
        Err(GroupingError::Oversubscribed)
    ));
    assert!(matches!(
        refused.divide_slice_by_size(&samples, &[11]),
        Err(GroupingError::Oversubscribed)
    ));
    let after_refusal = refused.divide_by_size(samples.clone(), &sizes).unwrap();

    let mut fresh = RandomGrouping::from_seed(11);
    let direct = fresh.divide_by_size(samples.clone(), &sizes).unwrap();

    assert_eq!(after_refusal, direct);
}

#[test]
fn unstable_groups_keep_contents() {
    let samples = (0..24).collect::<Vec<i32>>();
    let sizes = vec![6, 10, 3];

    let mut stable = RandomGrouping::from_seed(3).with_stable(true);
    let mut unstable = RandomGrouping::from_seed(3).with_stable(false);

    let ordered = stable.divide_by_size(samples.clone(), &sizes).unwrap();
    let shuffled = unstable.divide_by_size(samples.clone(), &sizes).unwrap();

    assert_eq!(ordered.len(), shuffled.len());
    for (a, b) in ordered.iter().zip(shuffled.iter()) {
        let sa = a.iter().collect::<HashSet<_>>();
        let sb = b.iter().collect::<HashSet<_>>();
        assert_eq!(a.len(), b.len());
        assert_eq!(sa, sb);
    }
}

#[test]
fn bucket_by_indices_is_exact() {
    let samples = vec![10, 11, 12, 13, 14, 15];
    let sizes = vec![2, 0, 1];
    let idxs = vec![3, 0, 4];

    let groups = bucket_by_indices(samples, &sizes, &idxs);

    assert_eq!(groups, vec![vec![10, 13], vec![], vec![14]]);
}

#[test]
fn group_slice_by_indices_keeps_sampled_order() {
    let samples = vec![10, 11, 12, 13, 14, 15];
    let sizes = vec![2, 1];
    let idxs = vec![3, 0, 4];

    let unstable = group_slice_by_indices(&samples, &sizes, &idxs, false);
    assert_eq!(unstable, vec![vec![&13, &10], vec![&14]]);

    let stable = group_slice_by_indices(&samples, &sizes, &idxs, true);
    assert_eq!(stable, vec![vec![&10, &13], vec![&14]]);
}

#[test]
fn zero_size_in_the_middle_leaves_neighbours_alone() {
    let samples = vec![5, 6, 7, 8, 9];
    let idxs = vec![4, 1, 0];

    let narrow = bucket_by_indices(samples.clone(), &[2, 1], &idxs);
    let wide = bucket_by_indices(samples.clone(), &[2, 0, 1], &idxs);

    assert_eq!(wide.len(), narrow.len() + 1);
    assert!(wide[1].is_empty());
    assert_eq!(wide[0], narrow[0]);
    assert_eq!(wide[2], narrow[1]);
}

#[test]
fn resolution_concrete_cases() {
    let session = RandomGrouping::new();

    let floor = session.ratios_to_sizes(&Ratios::new(vec![1, 1, 1], 4), 10);
    assert_eq!(floor, vec![2, 2, 2]);

    let tail = session
        .with_rounding(SizeRounding::Tail)
        .ratios_to_sizes(&Ratios::new(vec![1, 1, 1, 1], 4), 10);
    assert_eq!(tail, vec![3, 3, 3, 1]);

    let each = RandomGrouping::new()
        .with_rounding(SizeRounding::Each)
        .ratios_to_sizes(&Ratios::new(vec![1, 1, 1], 3), 10);
    assert_eq!(each, vec![3, 4, 3]);
}

#[test]
fn resolution_never_oversubscribes() {
    let vectors = vec![
        (vec![1, 1, 1], 3u64),
        (vec![1, 2, 3, 4], 10u64),
        (vec![0, 0, 7], 7u64),
        (vec![999, 1], 1000u64),
        (vec![], 1u64),
    ];
    for n in [0usize, 1, 7, 10, 1000] {
        for (nums, den) in &vectors {
            for rounding in [SizeRounding::Floor, SizeRounding::Tail, SizeRounding::Each] {
                let session = RandomGrouping::new().with_rounding(rounding);
                let sizes = session.ratios_to_sizes(&Ratios::new(nums.clone(), *den), n);
                assert_eq!(sizes.len(), nums.len());
                assert!(sizes.iter().sum::<usize>() <= n);
            }
        }
    }
}

#[test]
fn ratio_checks_name_the_failure() {
    assert!(check_ratios(&Ratios::new(vec![1, 2], 4)).is_ok());
    assert!(check_ratios(&Ratios::new(vec![], 1)).is_ok());
    assert_eq!(
        check_ratios(&Ratios::new(vec![1], 0)),
        Err(GroupingError::InvalidRatio)
    );
    assert_eq!(
        check_ratios(&Ratios::new(vec![-1], 10)),
        Err(GroupingError::InvalidRatio)
    );
    assert_eq!(
        check_ratios(&Ratios::new(vec![6, 6], 10)),
        Err(GroupingError::RatioOverflow)
    );
    assert_eq!(
        check_ratios(&Ratios::new(vec![i64::MAX, i64::MAX, 2], u64::MAX)),
        Err(GroupingError::RatioOverflow)
    );
}

#[test]
fn sized_iter_walks_forward() {
    let mut it = SizedIter::new(vec![1, 2, 3]);
    assert_eq!(it.size_hint(), (3, Some(3)));
    assert_eq!(it.next(), Some(1));
    assert_eq!(it.size_hint(), (2, Some(2)));
    assert_eq!(it.next(), Some(2));
    assert_eq!(it.next(), Some(3));
    assert_eq!(it.size_hint(), (0, Some(0)));
    assert_eq!(it.next(), None);

    let mut empty: SizedIter<i32> = SizedIter::new(Vec::new());
    assert_eq!(empty.size_hint(), (0, Some(0)));
    assert_eq!(empty.next(), None);
}

#[test]
fn staff_owns_or_borrows() {
    let mut own: Staff<u32> = Staff::new_own(Box::new(5));
    *own.get_mut() += 1;
    assert_eq!(*own.get_mut(), 6);

    let mut value: u32 = 40;
    {
        let mut borrow = Staff::new_borrow(&mut value);
        *borrow.get_mut() += 2;
    }
    assert_eq!(value, 42);
}

#[test]
fn whole_input_in_one_group() {
    let samples = (0..9).collect::<Vec<i32>>();
    let mut target = RandomGrouping::from_seed(1);

    let groups = target.divide_by_size(samples.clone(), &[9]).unwrap();

    assert_eq!(groups.len(), 1);
    assert_eq!(groups[0], samples);
}
