use ranges::Ranges;

#[test]
fn test_adding_small_ranges() {
    let mut ranges = Ranges::default();

    ranges.add_range(-5..5);
    ranges.add_range(-3..2);
    ranges.add_range(-10..10);
    ranges.add_range(2..15);

    assert_eq!(ranges.to_vec(), vec![(-10..15)]);
}

#[test]
fn test_adding_ranges_that_do_not_overlap() {
    let mut ranges = Ranges::default();

    ranges.add_range(8..12);
    ranges.add_range(-5..5);

    assert_eq!(ranges.to_vec(), vec![-5..5, 8..12]);

    ranges.add_range(7..12);

    assert_eq!(ranges.to_vec(), vec![-5..5, 7..12]);

    ranges.add_range(-7..-4);

    assert_eq!(ranges.to_vec(), vec![-7..5, 7..12]);
}

#[test]
fn test_adding_bigger_ranges_that_do_not_overlap() {
    let mut ranges = Ranges::default();

    ranges.add_range(3623251..4598144);
    ranges.add_range(2614409..4598144);
    ranges.add_range(3623251..3959890);
    ranges.add_range(3130981..4598144);
    ranges.add_range(-5..5000);

    assert_eq!(ranges.to_vec(), vec![-5..5000, 2614409..4598144]);
}

#[test]
fn test_adding_ranges_out_of_order() {
    let mut ranges = Ranges::default();

    ranges.add_range(1243425..3176262);
    ranges.add_range(-831125..1416346);
    ranges.add_range(3580256..4366587);
    ranges.add_range(3096778..3922331);

    assert_eq!(ranges.to_vec(), vec![-831125..4366587]);
}

#[test]
fn test_empty_collection_exports_nothing() {
    let ranges = Ranges::default();

    assert_eq!(ranges.to_vec(), vec![]);
}

#[test]
fn test_touching_ranges_merge() {
    let mut ranges = Ranges::default();

    ranges.add_range(0..1);
    ranges.add_range(2..3);
    ranges.add_range(1..2);

    assert_eq!(ranges.to_vec(), vec![0..3]);
}

#[test]
fn test_readding_covered_range_is_noop() {
    let mut ranges = Ranges::default();

    ranges.add_range(-5..5);
    ranges.add_range(8..12);
    let before = ranges.to_vec();

    ranges.add_range(-3..2);

    assert_eq!(ranges.to_vec(), before);
}

#[test]
fn test_export_does_not_depend_on_insertion_order() {
    let mut first = Ranges::default();
    first.add_range(-5..5);
    first.add_range(9..12);
    first.add_range(4..9);
    first.add_range(20..30);

    let mut second = Ranges::default();
    second.add_range(20..30);
    second.add_range(4..9);
    second.add_range(9..12);
    second.add_range(-5..5);

    assert_eq!(first.to_vec(), second.to_vec());
    assert_eq!(first.to_vec(), vec![-5..12, 20..30]);
}

#[test]
fn test_export_is_sorted_and_disjoint() {
    let mut ranges = Ranges::default();

    ranges.add_range(50..60);
    ranges.add_range(-20..-10);
    ranges.add_range(0..5);
    ranges.add_range(3..8);
    ranges.add_range(30..40);

    let exported = ranges.to_vec();
    assert_eq!(exported, vec![-20..-10, 0..8, 30..40, 50..60]);
    for i in 1..exported.len() {
        assert!(exported[i - 1].start <= exported[i].start);
        // Disjoint, not even touching: a gap separates consecutive ranges.
        assert!(exported[i - 1].end < exported[i].start);
    }
}

#[test]
fn test_every_added_point_stays_covered() {
    let added = [(-4i64, 3i64), (10, 14), (2, 6), (13, 20)];
    let mut ranges = Ranges::default();
    for (s, e) in added {
        ranges.add_range(s..e);
    }

    let exported = ranges.to_vec();
    for (s, e) in added {
        for x in s..e {
            let holders = exported.iter().filter(|r| r.start <= x && x < r.end).count();
            assert_eq!(holders, 1);
        }
    }
}

#[test]
fn test_extreme_bounds_merge() {
    let mut ranges = Ranges::default();

    ranges.add_range(i64::MIN..0);
    ranges.add_range(0..i64::MAX);

    assert_eq!(ranges.to_vec(), vec![i64::MIN..i64::MAX]);
}

#[test]
fn test_inverted_range_is_accepted() {
    let mut ranges = Ranges::default();

    ranges.add_range(0..3);
    ranges.add_range(7..5);

    assert_eq!(ranges.to_vec(), vec![0..3, 7..5]);
}
