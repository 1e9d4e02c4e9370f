use kagami::archive::Item;
use kagami::browser::{
    texture_corner, Browser, DeletePlan, ExpandResult, NavigationKeys, Shared, WindowAction,
};
use kagami::scan::ScanResult;
use kagami::video::{Clock, Command};
use std::sync::Arc;

fn file(p: &str) -> Item {
    Item::File(p.to_string())
}

fn container(p: &str) -> Item {
    Item::Container { path: Arc::new(p.to_string()) }
}

fn archived(archive: &str, entry: &str) -> Item {
    Item::Archived { archive: Arc::new(archive.to_string()), entry: entry.to_string() }
}

fn browse(items: Vec<Item>) -> Browser {
    let mut b = Browser::new();
    b.install_scanned(ScanResult { root: "/r".to_string(), items });
    b
}

fn keys() -> NavigationKeys {
    NavigationKeys { right: false, left: false, backspace: false, command: false, space: false }
}

fn right() -> NavigationKeys {
    NavigationKeys { right: true, ..keys() }
}

fn left() -> NavigationKeys {
    NavigationKeys { left: true, ..keys() }
}

fn at(now: u64, vlc_time: i64) -> Clock {
    Clock { now, vlc_time }
}

#[test]
fn an_empty_view_says_why() {
    let mut b = Browser::new();
    assert_eq!(b.blank_message(), Some("No images found \u{2014} press N to open"));
    b.open_paths();
    assert_eq!(b.blank_message(), Some("Scanning\u{2026}"));
    b.install_scanned(ScanResult { root: "/r".to_string(), items: vec![file("/r/a.jpg")] });
    assert_eq!(b.blank_message(), None);
    b.trashed();
    assert_eq!(b.blank_message(), Some("No images found \u{2014} press N to open"));
}

#[test]
fn navigation_wraps_and_skips_trashed_items() {
    let mut b = browse(vec![file("/r/1.jpg"), file("/r/2.jpg"), file("/r/3.jpg"), file("/r/4.jpg")]);
    assert!(b.navigate(left()));
    assert_eq!(b.current_index(), 3);
    assert!(b.navigate(right()));
    assert!(b.navigate(right()));
    assert_eq!(b.current_index(), 1);
    assert!(b.trashed());
    assert_eq!(b.current_index(), 2);
    assert!(b.navigate(left()));
    assert_eq!(b.current_index(), 0);
    assert_eq!(b.neighbor(0, 1), Some(2));
    assert_eq!(b.neighbor(0, -1), Some(3));
    assert!(!b.navigate(keys()));
}

#[test]
fn backspace_goes_back_unless_it_trashes() {
    let mut b = browse(vec![file("/r/1.jpg"), file("/r/2.jpg")]);
    assert!(b.navigate(NavigationKeys { backspace: true, ..keys() }));
    assert_eq!(b.current_index(), 1);
    assert!(!b.navigate(NavigationKeys { backspace: true, command: true, ..keys() }));
    assert_eq!(b.current_index(), 1);
}

#[test]
fn space_advances_images_and_leaves_videos() {
    let mut b = browse(vec![file("/r/1.jpg"), file("/r/2.mp4")]);
    assert!(b.navigate(NavigationKeys { space: true, ..keys() }));
    assert_eq!(b.current_index(), 1);
    assert!(!b.navigate(NavigationKeys { space: true, ..keys() }));
    assert_eq!(b.current_index(), 1);
}

#[test]
fn only_plain_files_are_trashed() {
    let b = browse(vec![file("/r/s/1.jpg")]);
    assert!(matches!(b.delete_current(), DeletePlan::Trash(p) if p == "/r/s/1.jpg"));
    let b = browse(vec![archived("/r/a.zip", "p.jpg")]);
    assert!(matches!(b.delete_current(), DeletePlan::Refused(t) if t == "a.zip/p.jpg"));
    let b = browse(vec![container("/r/a.zip")]);
    assert!(matches!(b.delete_current(), DeletePlan::Nothing));
    assert!(matches!(Browser::new().delete_current(), DeletePlan::Nothing));
    let mut b = browse(vec![file("/r/1.jpg")]);
    assert!(!b.trashed());
    assert!(matches!(b.delete_current(), DeletePlan::Nothing));
    assert_eq!(b.neighbor(0, 1), None);
}

#[test]
fn titles_count_what_is_left() {
    let mut b = browse(vec![file("/r/1.jpg"), file("/r/s/2.jpg"), file("/r/3.jpg")]);
    assert_eq!(b.update_title(), Some("[1/3] 1.jpg - Kagami".to_string()));
    assert_eq!(b.update_title(), None);
    b.trashed();
    assert_eq!(b.update_title(), Some("[1/2] s/2.jpg - Kagami".to_string()));
    b.navigate(right());
    assert_eq!(b.update_title(), Some("[2/2] 3.jpg - Kagami".to_string()));
}

#[test]
fn containers_near_the_view_are_read_once() {
    let mut items: Vec<Item> = (0..20).map(|i| file(&format!("/r/{i:02}.jpg"))).collect();
    items[3] = container("/r/03.zip");
    items[4] = container("/r/04.zip");
    items[19] = container("/r/19.pdf");
    items[18] = container("/r/18.pdf");
    let mut b = browse(items);
    assert_eq!(b.maybe_expand(), vec!["/r/19.pdf", "/r/03.zip"]);
    assert!(b.maybe_expand().is_empty());
    b.navigate(right());
    assert_eq!(b.maybe_expand(), vec!["/r/04.zip"]);
    assert!(Browser::new().maybe_expand().is_empty());
}

#[test]
fn an_expansion_keeps_the_view_and_the_trash() {
    let mut b = browse(vec![file("/r/a.jpg"), container("/r/b.zip"), file("/r/c.jpg"), file("/r/d.jpg")]);
    b.navigate(left());
    b.trashed();
    assert_eq!(b.current_index(), 0);
    b.navigate(left());
    assert_eq!(b.current_index(), 2);
    let remap = b.apply_expansion(ExpandResult {
        path: "/r//b.zip".to_string(),
        entries: vec![archived("/r/b.zip", "2.jpg"), archived("/r/b.zip", "1.jpg")],
    });
    let names: Vec<String> = b.items().iter().map(|it| it.display("/r")).collect();
    assert_eq!(names, vec!["a.jpg", "b.zip/1.jpg", "b.zip/2.jpg", "c.jpg", "d.jpg"]);
    assert_eq!(remap, vec![Some(0), None, Some(3), Some(4)]);
    assert_eq!(b.current_index(), 3);
    assert_eq!(b.neighbor(3, 1), Some(0), "the trashed item is still skipped");
    assert_eq!(b.update_title(), Some("[4/4] c.jpg - Kagami".to_string()));
}

#[test]
fn expanding_the_item_on_screen_lands_on_its_first_entry() {
    let mut b = browse(vec![file("/r/a.jpg"), container("/r/b.zip")]);
    b.navigate(right());
    b.apply_expansion(ExpandResult {
        path: "/r/b.zip".to_string(),
        entries: vec![archived("/r/b.zip", "9.jpg"), archived("/r/b.zip", "10.jpg")],
    });
    assert_eq!(b.current_index(), 1);
    assert_eq!(b.items()[1].media_name(), "9.jpg");
    // An unreadable container vanishes, and the view goes back to the start.
    let mut b = browse(vec![file("/r/a.jpg"), container("/r/b.zip")]);
    b.navigate(right());
    let remap = b.apply_expansion(ExpandResult { path: "/r/b.zip".to_string(), entries: Vec::new() });
    assert_eq!((b.items().len(), b.current_index()), (1, 0));
    assert_eq!(remap, vec![Some(0), None]);
}

#[test]
fn textures_near_the_view_are_kept() {
    let mut b = browse((0..20).map(|i| file(&format!("/r/{i:02}.jpg"))).collect());
    b.navigate(left());
    let kept: Vec<usize> = (0..20).filter(|i| b.keeps_texture(*i)).collect();
    assert_eq!(kept, vec![0, 1, 2, 3, 15, 16, 17, 18, 19]);
}

#[test]
fn fullscreen_toggles_and_escape_leaves() {
    let mut b = Browser::new();
    assert_eq!(b.window_keys(false, false), WindowAction::Nothing);
    assert_eq!(b.window_keys(true, false), WindowAction::SetFullscreen(true));
    assert!(b.is_fullscreen());
    assert_eq!(b.window_keys(false, true), WindowAction::SetFullscreen(false));
    assert_eq!(b.window_keys(false, true), WindowAction::Close);
    assert_eq!(b.window_keys(true, true), WindowAction::SetFullscreen(true));
}

#[test]
fn rotation_turns_the_corners_and_resets_on_navigation() {
    let mut b = browse(vec![file("/r/1.jpg"), file("/r/2.jpg")]);
    b.rotate_view(true, false, false);
    assert_eq!(b.rotation(), 1);
    b.rotate_view(false, true, false);
    assert_eq!(b.rotation(), 0);
    b.rotate_view(false, true, false);
    assert_eq!(b.rotation(), 3);
    b.rotate_view(true, true, false);
    assert_eq!(b.rotation(), 3);
    b.rotate_view(true, false, true);
    assert_eq!(b.rotation(), 0);
    b.rotate_view(true, false, false);
    b.navigate(right());
    assert_eq!(b.rotation(), 0);
    b.rotate_view(true, false, false);
    b.reset_zoom();
    assert_eq!(b.rotation(), 0);
    assert_eq!([0, 1, 2, 3].map(|i| texture_corner(i, 1)), [3, 0, 1, 2]);
    assert_eq!([0, 1, 2, 3].map(|i| texture_corner(i, 3)), [1, 2, 3, 0]);
}

#[test]
fn videos_resume_where_they_were_left() {
    let mut b = browse(vec![file("/r/1.mp4"), file("/r/2.jpg")]);
    assert!(b.shows_video() && b.wants_video());
    b.video_opened();
    assert!(!b.wants_video());
    assert!(!b.close_stale_video(at(0, 30_000)));
    b.navigate(right());
    assert!(b.close_stale_video(at(0, 30_000)));
    assert!(!b.wants_video());
    b.navigate(right());
    assert!(b.wants_video());
    b.video_opened();
    let mut p = b.player().unwrap();
    assert_eq!(p.update(at(0, 0)).0, vec![Command::SetTime(30_000)]);
    b.set_player(p);
    assert_eq!(b.player().unwrap().resume_at, None);
    // Left within its first second, a video starts over.
    let mut b = browse(vec![file("/r/1.mp4"), file("/r/2.jpg")]);
    b.video_opened();
    b.navigate(right());
    b.close_stale_video(at(0, 1_000));
    b.navigate(right());
    b.video_opened();
    assert_eq!(b.player().unwrap().resume_at, None);
}

#[test]
fn a_video_that_cannot_play_says_why() {
    let mut b = browse(vec![file("/r/1.mp4")]);
    assert_eq!(b.video_message(), "Loading video...");
    b.video_failed("no window");
    assert_eq!(b.video_message(), "Cannot play video: no window");
    assert!(b.wants_video());
    b.video_opened();
    assert_eq!(b.video_message(), "Loading video...");
    b.trashed();
    assert!(b.player().is_none());
}

#[test]
fn an_empty_list_has_no_neighbors() {
    assert_eq!(Browser::new().neighbor(0, 1), None);
    assert_eq!(Browser::new().neighbor(0, -1), None);
    assert_eq!(Browser::new().neighbor(7, 1), None);
}

#[test]
fn names_that_differ_in_case_stay_apart_through_an_expansion() {
    let list = || vec![file("/r/A.jpg"), file("/r/a.jpg"), container("/r/z.zip")];
    let pages = || ExpandResult {
        path: "/r/z.zip".to_string(),
        entries: vec![archived("/r/z.zip", "1.jpg"), archived("/r/z.zip", "2.jpg")],
    };

    // The second of them is on screen.
    let mut b = browse(list());
    b.navigate(right());
    let remap = b.apply_expansion(pages());
    assert_eq!(remap, vec![Some(0), Some(1), None]);
    assert_eq!(b.current_index(), 1);
    assert_eq!(b.items()[1].disk_path(), "/r/a.jpg");

    // The second of them is in the Trash.
    let mut b = browse(list());
    b.navigate(right());
    b.trashed();
    b.navigate(left());
    assert_eq!(b.current_index(), 0);
    b.apply_expansion(pages());
    assert_eq!(b.current_index(), 0);
    assert_eq!(b.items()[0].disk_path(), "/r/A.jpg");
    assert_eq!(b.neighbor(0, 1), Some(2));
    assert_eq!(b.neighbor(0, -1), Some(3));
    assert_eq!(b.update_title(), Some("[1/3] A.jpg - Kagami".to_string()));
}

#[test]
fn an_expansion_in_the_middle_moves_what_follows() {
    let mut b = browse(vec![
        file("/r/1.jpg"),
        container("/r/2.zip"),
        file("/r/3.mp4"),
        file("/r/4.jpg"),
    ]);
    b.navigate(right());
    b.navigate(right());
    b.video_opened();
    let remap = b.apply_expansion(ExpandResult {
        path: "/r/2.zip".to_string(),
        entries: vec![archived("/r/2.zip", "a.jpg"), archived("/r/2.zip", "b.jpg")],
    });
    assert_eq!(remap, vec![Some(0), None, Some(3), Some(4)]);
    assert_eq!(b.current_index(), 3);
    assert_eq!(b.items()[3].disk_path(), "/r/3.mp4");
    assert!(b.player().is_some());
    assert!(!b.close_stale_video(at(0, 0)));
}

#[test]
fn the_workers_see_the_view() {
    let seen = |current_idx, image_count| Shared { current_idx, image_count };
    let mut b = Browser::new();
    assert_eq!(b.shared(), seen(0, 0));
    b.install_scanned(ScanResult {
        root: "/r".to_string(),
        items: vec![file("/r/1.jpg"), container("/r/2.zip"), file("/r/3.jpg")],
    });
    assert_eq!(b.shared(), seen(0, 3));
    b.navigate(left());
    assert_eq!(b.shared(), seen(2, 3));
    b.apply_expansion(ExpandResult {
        path: "/r/2.zip".to_string(),
        entries: vec![archived("/r/2.zip", "a.jpg"), archived("/r/2.zip", "b.jpg")],
    });
    assert_eq!(b.shared(), seen(3, 4));
    b.trashed();
    assert_eq!(b.shared(), seen(0, 4));
    b.open_paths();
    assert_eq!(b.shared(), seen(0, 0));
}
