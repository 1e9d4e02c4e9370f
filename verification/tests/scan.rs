use kagami::archive::{ArchiveEntry, Item, ReadEvent};
use kagami::positions::Positions;
use kagami::scan::{
    container_kind, downloads_png_path, expand_container, hydrate_file, scan_root, sort_natural,
    video_key, ContainerContent, ContainerKind, FileType, Walk,
};
use std::sync::Arc;

fn files(paths: &[&str]) -> Vec<Item> {
    paths.iter().map(|p| Item::File(p.to_string())).collect()
}

fn paths(items: &[Item]) -> Vec<String> {
    items.iter().map(|it| it.disk_path().to_string()).collect()
}

#[test]
fn items_sort_naturally_and_stably() {
    let sorted = sort_natural(files(&["/b10", "/B2", "/a", "/A", "/b1"]));
    assert_eq!(paths(&sorted), vec!["/a", "/A", "/b1", "/B2", "/b10"]);
}

#[test]
fn walking_collects_media_and_placeholders() {
    let mut walk = Walk::new();
    walk.open("/r".to_string(), true);
    assert_eq!(walk.next_directory(), Some("/r".to_string()));
    walk.visit("/r/sub".to_string(), FileType::Directory);
    walk.visit("/r/link.jpg".to_string(), FileType::Other);
    walk.visit("/r/b10.jpg".to_string(), FileType::File);
    walk.visit("/r/b9.mp4".to_string(), FileType::File);
    walk.visit("/r/notes.txt".to_string(), FileType::File);
    walk.visit("/r/c.zip".to_string(), FileType::File);
    walk.visit("/r/b9.5.pdf".to_string(), FileType::File);
    walk.visit("/r/dir.jpg".to_string(), FileType::Directory);
    assert_eq!(walk.next_directory(), Some("/r/dir.jpg".to_string()));
    assert_eq!(walk.next_directory(), Some("/r/sub".to_string()));
    assert_eq!(walk.next_directory(), None);
    let items = walk.finish();
    assert_eq!(paths(&items), vec!["/r/b9.5.pdf", "/r/b9.mp4", "/r/b10.jpg", "/r/c.zip"]);
    assert!(items[0].is_container() && items[3].is_container());
    assert!(!items[1].is_container());
}

#[test]
fn opened_files_are_browsed_whatever_their_name() {
    let mut walk = Walk::new();
    walk.open("/x.cbz".to_string(), false);
    walk.open("/notes.txt".to_string(), false);
    let items = walk.finish();
    assert_eq!(paths(&items), vec!["/notes.txt", "/x.cbz"]);
    assert!(!items[0].is_container() && items[1].is_container());
}

#[test]
fn titles_are_relative_to_the_opened_folder() {
    let v = |s: &[&str]| s.iter().map(|p| p.to_string()).collect::<Vec<String>>();
    assert_eq!(scan_root(&v(&[]), false), "");
    assert_eq!(scan_root(&v(&["/a/b"]), true), "/a/b");
    assert_eq!(scan_root(&v(&["/a/b.jpg"]), false), "/a");
    assert_eq!(scan_root(&v(&["/a/b", "/c"]), true), "/a");
    assert_eq!(scan_root(&v(&["/"]), false), ".");
    assert_eq!(scan_root(&v(&["b.jpg"]), false), "");
}

#[test]
fn containers_expand_by_their_kind() {
    assert_eq!(container_kind("/a.CBZ"), ContainerKind::Archive);
    assert_eq!(container_kind("/a.pdf"), ContainerKind::Pdf);
    assert_eq!(container_kind("/a.jpg"), ContainerKind::Neither);
    let entries = ContainerContent::Archive(vec![ArchiveEntry {
        name: "p.jpg".to_string(),
        bytes: None,
    }]);
    assert_eq!(expand_container("/a.zip", &entries).len(), 1);
    assert!(expand_container("/a.pdf", &entries).is_empty());
    assert!(expand_container("/a.zip", &ContainerContent::Unreadable).is_empty());
    assert!(expand_container("/a.pdf", &ContainerContent::Pdf(vec![0])).is_empty());
}

#[test]
fn hydration_reads_to_the_end_unless_it_is_stale() {
    assert_eq!(hydrate_file(true, &ReadEvent::Read(100)), None);
    assert_eq!(hydrate_file(true, &ReadEvent::Read(0)), Some(true));
    assert_eq!(hydrate_file(true, &ReadEvent::Failed), Some(false));
    assert_eq!(hydrate_file(false, &ReadEvent::Read(100)), Some(false));
}

#[test]
fn frames_are_saved_under_the_video_name() {
    assert_eq!(downloads_png_path("/home/u", "/v/clip.one.mp4", 1700), "/home/u/Downloads/clip.one_1700.png");
    assert_eq!(downloads_png_path("/home/u/", "/", 0), "/home/u/Downloads/frame_0.png");
}

#[test]
fn positions_are_kept_per_video() {
    let item = Item::Archived {
        archive: Arc::new("/a//b.zip".to_string()),
        entry: "x/./v.mp4".to_string(),
    };
    assert_eq!(video_key(&item), ("/a/b.zip".to_string(), "x/v.mp4".to_string()));
    let mut seen = Positions::new();
    assert_eq!(seen.get("a", "b"), None);
    seen.set("a".to_string(), "b".to_string(), 5);
    seen.set("a".to_string(), "c".to_string(), 6);
    seen.set("a".to_string(), "b".to_string(), 7);
    assert_eq!(seen.get("a", "b"), Some(7));
    assert_eq!(seen.get("a", "c"), Some(6));
    assert_eq!(seen.get("ab", ""), None);
    seen.clear();
    assert_eq!(seen.get("a", "b"), None);
}

#[test]
fn a_file_is_hydrated_by_a_series_of_rounds() {
    let run = |rounds: &[(bool, ReadEvent)]| {
        rounds.iter().find_map(|(relevant, event)| hydrate_file(*relevant, event))
    };
    let read = ReadEvent::Read;
    assert_eq!(run(&[(true, read(9)), (true, read(1)), (true, read(0))]), Some(true));
    assert_eq!(run(&[(true, read(9)), (false, read(1)), (true, read(0))]), Some(false));
    assert_eq!(run(&[(true, read(9)), (true, ReadEvent::Failed), (true, read(0))]), Some(false));
    assert_eq!(run(&[(true, read(0)), (true, ReadEvent::Failed)]), Some(true));
    assert_eq!(run(&[(true, read(9)), (true, read(9))]), None);
    assert_eq!(run(&[(true, ReadEvent::Cancelled)]), Some(false));
}

#[test]
fn a_walk_lists_each_visit_once() {
    let mut walk = Walk::new();
    walk.open("/r".to_string(), true);
    walk.open("/r/b.jpg".to_string(), false);
    let mut listed = Vec::new();
    while let Some(dir) = walk.next_directory() {
        if dir == "/r" {
            walk.visit("/r/b.jpg".to_string(), FileType::File);
            walk.visit("/r/a.zip".to_string(), FileType::File);
            walk.visit("/r/x".to_string(), FileType::Directory);
            walk.visit("/r/y".to_string(), FileType::Directory);
        }
        listed.push(dir);
    }
    assert_eq!(listed, vec!["/r", "/r/y", "/r/x"]);
    // A file that is met twice is listed twice.
    assert_eq!(paths(&walk.finish()), vec!["/r/a.zip", "/r/b.jpg", "/r/b.jpg"]);
}
