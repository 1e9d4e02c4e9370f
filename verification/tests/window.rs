use kagami::window::{circular_dist, still_relevant, window_indices};

#[test]
fn distance_takes_the_shorter_way_round() {
    assert_eq!(circular_dist(0, 9, 10), 1);
    assert_eq!(circular_dist(9, 0, 10), 1);
    assert_eq!(circular_dist(2, 7, 10), 5);
    assert_eq!(circular_dist(3, 3, 10), 0);
    assert_eq!(circular_dist(0, 0, 0), usize::MAX);
}

#[test]
fn window_alternates_ahead_and_behind() {
    assert_eq!(window_indices(5, 100, 3, 2), vec![6, 4, 7, 3, 8]);
    assert_eq!(window_indices(0, 100, 2, 2), vec![1, 99, 2, 98]);
    assert_eq!(window_indices(99, 100, 1, 3), vec![0, 98, 97, 96]);
}

#[test]
fn window_of_a_short_list_lists_every_other_place_once() {
    assert_eq!(window_indices(0, 0, 3, 2), Vec::<usize>::new());
    assert_eq!(window_indices(0, 1, 3, 2), Vec::<usize>::new());
    assert_eq!(window_indices(1, 2, 3, 2), vec![0]);
    assert_eq!(window_indices(1, 4, 64, 64), vec![2, 0, 3]);
}

#[test]
fn window_members_are_relevant() {
    for count in 1..12usize {
        for cur in 0..count {
            for i in window_indices(cur, count, 3, 2) {
                assert!(still_relevant(i, cur, count, 3));
            }
            let near = window_indices(cur, count, 2, 2);
            for i in 0..count {
                assert_eq!(near.contains(&i), i != cur && circular_dist(i, cur, count) <= 2);
            }
        }
    }
}

#[test]
fn distance_is_the_same_both_ways() {
    for count in 1..12 {
        for a in 0..count {
            for b in 0..count {
                let d = circular_dist(a, b, count);
                assert_eq!(d, circular_dist(b, a, count));
                assert!(2 * d <= count);
                assert_eq!(d == 0, a == b);
            }
        }
    }
}
