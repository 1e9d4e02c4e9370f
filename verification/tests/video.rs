use kagami::video::{
    plugin_candidates, reported_position, Clock, Command, Served, StreamSrc, VideoKeys,
    VideoPlayer, SEEK_STEP,
};

fn at(now: u64, vlc_time: i64) -> Clock {
    Clock { now, vlc_time }
}

#[test]
fn seeks_chain_and_are_throttled() {
    let mut p = VideoPlayer::start();
    assert_eq!(p.seek_by(SEEK_STEP, at(1000, 20_000)), Some(Command::SetTime(25_000)));
    assert_eq!(p.position(at(1000, 20_000)), 25_000);
    // Within the flush interval nothing is sent, but the presses add up.
    assert_eq!(p.seek_by(SEEK_STEP, at(1100, 20_050)), None);
    assert_eq!(p.seek_by(SEEK_STEP, at(1150, 20_070)), None);
    assert_eq!(p.position(at(1150, 20_070)), 35_000);
    assert_eq!(p.update(at(1199, 20_100)), (Vec::new(), Some(50)));
    assert_eq!(p.update(at(1200, 20_100)), (vec![Command::SetTime(35_000)], Some(50)));
    assert_eq!(p.update(at(1300, 35_010)), (Vec::new(), Some(100)));
    // The sent target reads back while it settles, then libvlc's clock does.
    assert_eq!(p.position(at(1999, 20_200)), 35_000);
    assert_eq!(p.position(at(2000, 35_900)), 35_900);
}

#[test]
fn seeks_stop_at_the_start() {
    let mut p = VideoPlayer::start();
    assert_eq!(p.seek_by(-SEEK_STEP, at(0, 3_000)), Some(Command::SetTime(0)));
    let mut q = VideoPlayer::start();
    assert_eq!(q.seek_by(-SEEK_STEP, at(0, -1)), Some(Command::SetTime(0)));
    assert_eq!(q.seek_to(700, 500), Some(Command::SetTime(700)));
    assert_eq!(reported_position(-1), 0);
    assert_eq!(reported_position(42), 42);
}

#[test]
fn scrubbing_mutes_and_restores() {
    let mut p = VideoPlayer::start();
    assert_eq!(
        p.scrub_to(5_000, 1_000),
        vec![Command::SetMute(true), Command::SetTime(5_000)]
    );
    assert_eq!(p.scrub_to(6_000, 1_050), Vec::new());
    assert_eq!(p.end_scrub(1_060), vec![Command::SetTime(6_000), Command::SetMute(false)]);
    assert_eq!(p.end_scrub(1_070), Vec::new());
    // The user's own mute survives a scrub.
    assert_eq!(p.toggle_mute(), Command::SetMute(true));
    p.scrub_to(7_000, 9_000);
    assert_eq!(p.end_scrub(9_300), vec![Command::SetMute(true)]);
    assert!(p.is_muted());
}

#[test]
fn resuming_waits_for_the_input() {
    let mut p = VideoPlayer::start();
    p.resume_from(9_000);
    assert_eq!(p.position(at(0, -1)), 9_000);
    assert_eq!(p.update(at(10, -1)), (Vec::new(), Some(50)));
    assert_eq!(p.update(at(60, 0)), (vec![Command::SetTime(9_000)], Some(50)));
    assert_eq!(p.position(at(61, 5)), 9_000);
}

#[test]
fn pausing_stops_the_ticking() {
    let mut p = VideoPlayer::start();
    assert!(!p.is_paused());
    assert_eq!(p.update(at(0, 0)), (Vec::new(), Some(100)));
    assert_eq!(p.toggle_pause(), Command::SetPause(true));
    assert_eq!(p.update(at(0, 0)), (Vec::new(), None));
    assert_eq!(p.toggle_pause(), Command::SetPause(false));
}

#[test]
fn an_audible_volume_unmutes() {
    let mut p = VideoPlayer::start();
    assert_eq!(p.volume(), 100);
    p.toggle_mute();
    assert_eq!(p.set_volume(0, false), vec![Command::SetVolume(0)]);
    assert!(p.is_muted());
    assert_eq!(p.set_volume(30, true), vec![Command::SetMute(false), Command::SetVolume(30)]);
    assert!(!p.is_muted());
    assert_eq!(p.volume(), 30);
}

#[test]
fn rotations_cancel_and_change_the_layout() {
    let mut p = VideoPlayer::start();
    assert!(p.layout(800, 600));
    assert!(!p.layout(800, 600));
    p.rotate(1);
    assert_eq!(p.rotation, 1);
    assert!(p.layout(800, 600));
    p.rotate(3);
    assert_eq!(p.rotation, 0);
    p.rotate(3);
    assert_eq!(p.rotation, 3);
    p.reset_rotation();
    assert_eq!(p.rotation, 0);
    assert!(p.layout(600, 800));
}

#[test]
fn memory_streams_are_served_in_pieces() {
    let mut s = StreamSrc::Mem { data: vec![1, 2, 3, 4, 5], pos: 3 };
    assert_eq!(s.open(), 5);
    assert_eq!(s.read(2), Served::Mem { from: 0, to: 2 });
    assert_eq!(s.read(9), Served::Mem { from: 2, to: 5 });
    assert_eq!(s.read(9), Served::Mem { from: 5, to: 5 });
    assert!(s.seek(4));
    assert!(!s.seek(6));
    assert_eq!(s.read(9), Served::Mem { from: 4, to: 5 });
    assert_eq!(s.len(), 5);
}

#[test]
fn file_ranges_are_served_at_their_offset() {
    let mut s = StreamSrc::File { start: 1000, len: 10, offset: 0 };
    assert_eq!(s.open(), 10);
    assert_eq!(s.read(4), Served::File { offset: 1000, len: 4 });
    s.advance(3);
    assert_eq!(s.read(100), Served::File { offset: 1003, len: 7 });
    assert!(s.seek(10));
    assert_eq!(s.read(5), Served::File { offset: 1010, len: 0 });
    assert!(!s.seek(11));
}

#[test]
fn plugins_are_looked_for_beside_the_program_first() {
    assert_eq!(
        plugin_candidates(Some("/app/bin"), "/src"),
        vec![
            "/app/bin/../Frameworks/plugins",
            "/app/bin/Frameworks/plugins",
            "/app/bin/plugins",
            "/src/vendor/vlc/plugins",
            "/opt/homebrew/lib/vlc/plugins",
            "/usr/local/lib/vlc/plugins",
        ]
    );
    assert_eq!(plugin_candidates(None, "/src").len(), 3);
}

#[test]
fn unknown_lengths_count_as_nothing() {
    assert_eq!(VideoPlayer::start().duration(-1), 0);
    assert_eq!(VideoPlayer::start().duration(61_500), 61_500);
}

#[test]
fn reads_start_where_was_sought() {
    let mut mem = StreamSrc::Mem { data: vec![0; 10], pos: 3 };
    assert!(mem.seek(7));
    assert_eq!(mem.read(100), Served::Mem { from: 7, to: 10 });
    assert!(!mem.seek(11));
    assert_eq!(mem.read(1), Served::Mem { from: 10, to: 10 });
    let mut file = StreamSrc::File { start: 100, len: 10, offset: 0 };
    assert!(file.seek(4));
    assert_eq!(file.read(100), Served::File { offset: 104, len: 6 });
}

#[test]
fn keys_act_in_order() {
    let none = VideoKeys {
        seek_back: false,
        seek_forward: false,
        mute: false,
        clockwise: false,
        counterclockwise: false,
        upright: false,
    };
    let mut p = VideoPlayer::start();
    assert!(p.press(none, at(0, 20_000)).is_empty());
    let back = VideoKeys { seek_back: true, mute: true, clockwise: true, ..none };
    assert_eq!(
        p.press(back, at(0, 20_000)),
        vec![Command::SetTime(15_000), Command::SetMute(true)]
    );
    assert_eq!(p.rotation, 1);
    // The opposite key starts from the target, and waits its turn.
    let forth = VideoKeys { seek_forward: true, mute: true, counterclockwise: true, ..none };
    assert_eq!(p.press(forth, at(10, 20_000)), vec![Command::SetMute(false)]);
    assert_eq!(p.position(at(10, 20_000)), 20_000);
    assert_eq!(p.rotation, 0);
    let upright = VideoKeys { clockwise: true, upright: true, ..none };
    p.press(upright, at(20, 0));
    assert_eq!(p.rotation, 0);
}
