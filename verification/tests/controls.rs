use kagami::controls::{
    controls_until, controls_visible, fmt_time, sets_volume, status_line, toggles_play, Icons,
    Pointing, Scrub, SeekAction,
};

#[test]
fn times_show_minutes_and_hours() {
    assert_eq!(fmt_time(Some(0)), "0:00");
    assert_eq!(fmt_time(Some(59)), "0:59");
    assert_eq!(fmt_time(Some(61)), "1:01");
    assert_eq!(fmt_time(Some(3599)), "59:59");
    assert_eq!(fmt_time(Some(3600)), "1:00:00");
    assert_eq!(fmt_time(Some(36_061)), "10:01:01");
    assert_eq!(fmt_time(None), "0:00");
}

#[test]
fn status_line_spells_out_the_state() {
    assert_eq!(
        status_line(false, Some(5), Some(65), Some(80)),
        ">  0:05 / 1:05      vol 80%"
    );
    assert_eq!(status_line(true, Some(5), None, None), "II  0:05 / 0:00      muted");
}

#[test]
fn icons_are_set_only_when_they_change() {
    let mut icons = Icons::new();
    assert_eq!(icons.update_play(false), Some("pause.fill"));
    assert_eq!(icons.update_play(false), None);
    assert_eq!(icons.update_play(true), Some("play.fill"));
    assert_eq!(icons.update_speaker(true), Some("speaker.slash.fill"));
    assert_eq!(icons.update_speaker(true), None);
    assert_eq!(icons.update_speaker(false), Some("speaker.wave.2.fill"));
}

#[test]
fn controls_linger_and_fade() {
    assert_eq!(controls_until(10, 1000, false, false), 10);
    assert_eq!(controls_until(10, 1000, true, false), 3500);
    assert_eq!(controls_until(10, 1000, false, true), 3500);
    assert!(controls_visible(false, 3499, 3500));
    assert!(!controls_visible(false, 3500, 3500));
    assert!(controls_visible(true, 9000, 3500));
}

fn still() -> Pointing {
    Pointing {
        target: None,
        on_bar: false,
        drag_started: false,
        dragged: false,
        drag_stopped: false,
        clicked: false,
    }
}

#[test]
fn a_drag_scrubs_at_a_limited_rate_and_lands_on_its_end() {
    let mut scrub = Scrub { target: None, last_sent: 0 };
    let start =
        Pointing { target: Some(100), on_bar: true, drag_started: true, dragged: true, ..still() };
    assert_eq!(scrub.route(start, 1000), (true, vec![SeekAction::ScrubTo(100)]));
    let moving = Pointing { target: Some(200), dragged: true, ..still() };
    assert_eq!(scrub.route(moving, 1010), (true, Vec::new()));
    let further = Pointing { target: Some(300), dragged: true, ..still() };
    assert_eq!(scrub.route(further, 1030), (true, vec![SeekAction::ScrubTo(300)]));
    let end = Pointing { target: Some(350), drag_stopped: true, ..still() };
    assert_eq!(
        scrub.route(end, 1040),
        (false, vec![SeekAction::SeekTo(300), SeekAction::EndScrub])
    );
    assert_eq!(scrub.target, None);
    assert_eq!(scrub.route(end, 1050), (false, Vec::new()));
}

#[test]
fn a_click_on_the_bar_seeks_once() {
    let mut scrub = Scrub { target: None, last_sent: 0 };
    let click = Pointing { target: Some(70), on_bar: true, clicked: true, ..still() };
    assert_eq!(scrub.route(click, 5), (true, vec![SeekAction::SeekTo(70)]));
    let beside = Pointing { target: Some(70), clicked: true, ..still() };
    assert_eq!(scrub.route(beside, 5), (false, Vec::new()));
    let unknown = Pointing { on_bar: true, clicked: true, ..still() };
    assert_eq!(scrub.route(unknown, 5), (false, Vec::new()));
}

#[test]
fn clicks_and_space_toggle_play() {
    assert!(toggles_play(true, false, false, false, false));
    assert!(!toggles_play(true, true, false, false, false));
    assert!(toggles_play(false, false, true, false, false));
    assert!(!toggles_play(false, false, true, true, false));
    assert!(!toggles_play(false, false, true, false, true));
    assert!(sets_volume(true, false, true));
    assert!(sets_volume(false, true, true));
    assert!(!sets_volume(true, true, false));
}
