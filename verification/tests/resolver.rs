use ndarray::Array1;
use process_hits::error::InputError;
use process_hits::offsets::TargetOffsets;

fn table(starts: Vec<i64>) -> TargetOffsets {
    TargetOffsets::new(&Array1::from_vec(starts)).unwrap()
}

/// The owner of `v` by its definition: the last target that starts at or below it.
fn owner(starts: &[i64], v: i64) -> Option<usize> {
    let mut found = None;
    for (j, start) in starts.iter().enumerate() {
        if *start <= v {
            found = Some(j);
        }
    }
    found
}

#[test]
fn raw_index_inside_a_bucket() {
    let targets = table(vec![0, 3, 7]);
    assert_eq!(targets.resolve(5), Some(1));
    assert_eq!(targets.resolve(4), Some(1));
    assert_eq!(targets.resolve(6), Some(1));
    assert_eq!(targets.resolve(1), Some(0));
}

#[test]
fn raw_index_in_the_open_last_bucket() {
    let targets = table(vec![0, 3, 7]);
    assert_eq!(targets.resolve(9), Some(2));
}

#[test]
fn raw_index_zero_is_the_first_target() {
    let targets = table(vec![0, 3, 7]);
    assert_eq!(targets.resolve(0), Some(0));
}

#[test]
fn raw_index_on_a_start_belongs_to_that_target() {
    let targets = table(vec![0, 3, 7]);
    assert_eq!(targets.resolve(3), Some(1));
    assert_eq!(targets.resolve(2), Some(0));
}

#[test]
fn last_start_and_far_beyond_resolve_to_the_last_target() {
    let targets = table(vec![0, 3, 7]);
    assert_eq!(targets.resolve(7), Some(2));
    assert_eq!(targets.resolve(1_000_000_000_000), Some(2));
    assert_eq!(targets.resolve(i64::MAX), Some(2));
}

#[test]
fn raw_index_below_the_first_start_has_no_target() {
    let targets = table(vec![2, 5]);
    assert_eq!(targets.resolve(1), None);
    assert_eq!(targets.resolve(0), None);
    assert_eq!(targets.resolve(-1), None);
    assert_eq!(targets.resolve(i64::MIN), None);
    assert_eq!(targets.resolve(2), Some(0));
}

#[test]
fn single_target_owns_everything_from_its_start() {
    let targets = table(vec![4]);
    assert_eq!(targets.len(), 1);
    assert_eq!(targets.resolve(3), None);
    assert_eq!(targets.resolve(4), Some(0));
    assert_eq!(targets.resolve(400), Some(0));
}

#[test]
fn resolver_agrees_with_the_definition_on_every_index() {
    let starts: Vec<i64> = vec![1, 2, 5, 6, 7, 12, 20, 21, 33];
    let targets = table(starts.clone());
    assert_eq!(targets.len(), 9);
    for v in -3..40 {
        assert_eq!(targets.resolve(v), owner(&starts, v), "raw index {}", v);
    }
}

#[test]
fn resolver_agrees_with_the_definition_on_tables_of_every_length() {
    for n in 1..20usize {
        let starts: Vec<i64> = (0..n as i64).map(|j| 3 * j + 2).collect();
        let targets = table(starts.clone());
        for v in 0..(3 * n as i64 + 5) {
            assert_eq!(targets.resolve(v), owner(&starts, v), "length {} raw index {}", n, v);
        }
    }
}

#[test]
fn empty_target_table_is_refused() {
    let r = TargetOffsets::new(&Array1::from_vec(Vec::<i64>::new()));
    assert_eq!(r.err(), Some(InputError::NoTargets));
}

#[test]
fn negative_first_start_is_refused() {
    let r = TargetOffsets::new(&Array1::from_vec(vec![-1i64, 3, 7]));
    assert_eq!(r.err(), Some(InputError::NegativeOffset));
    let r = TargetOffsets::new(&Array1::from_vec(vec![-5i64]));
    assert_eq!(r.err(), Some(InputError::NegativeOffset));
}

#[test]
fn starts_that_do_not_increase_are_refused() {
    let r = TargetOffsets::new(&Array1::from_vec(vec![0i64, 3, 3]));
    assert_eq!(r.err(), Some(InputError::UnorderedTargets));
    let r = TargetOffsets::new(&Array1::from_vec(vec![5i64, 2]));
    assert_eq!(r.err(), Some(InputError::UnorderedTargets));
    let r = TargetOffsets::new(&Array1::from_vec(vec![0i64, 4, 9, 8, 20]));
    assert_eq!(r.err(), Some(InputError::UnorderedTargets));
}

#[test]
fn first_start_may_be_any_non_negative_number() {
    assert!(TargetOffsets::new(&Array1::from_vec(vec![0i64])).is_ok());
    assert!(TargetOffsets::new(&Array1::from_vec(vec![17i64, 18])).is_ok());
}
