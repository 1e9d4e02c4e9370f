use kagami::animation::frame_at;

#[test]
fn stills_never_change() {
    assert_eq!(frame_at(&vec![0], 1234), (0, None));
    assert_eq!(frame_at(&vec![500], 1234), (0, None));
    assert_eq!(frame_at(&Vec::new(), 0), (0, None));
    assert_eq!(frame_at(&vec![0, 0], 7), (0, None));
}

#[test]
fn frames_follow_their_delays_and_repeat() {
    let delays = vec![100, 0, 50, 250];
    assert_eq!(frame_at(&delays, 0), (0, Some(100)));
    assert_eq!(frame_at(&delays, 99), (0, Some(1)));
    assert_eq!(frame_at(&delays, 100), (2, Some(50)));
    assert_eq!(frame_at(&delays, 150), (3, Some(250)));
    assert_eq!(frame_at(&delays, 399), (3, Some(1)));
    assert_eq!(frame_at(&delays, 400), (0, Some(100)));
    assert_eq!(frame_at(&delays, 4_000_120), (2, Some(30)));
}
