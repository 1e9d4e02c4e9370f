use kagami::archive::{
    entry_kind, has_ext, is_archive_file, is_junk, read_chunked, scan_archive, ArchiveEntry,
    EntryFacts, EntryKind, Item, ReadEvent, ReadSource, ReadStep, VideoSource, READ_CHUNK,
};
use kagami::media::{is_image_file, is_media_name};
use kagami::pdf::is_pdf_file;
use kagami::video::is_video_file;
use std::io::{Cursor, Read, Write};
use std::sync::Arc;

fn archived(archive: &str, entry: &str) -> Item {
    Item::Archived { archive: Arc::new(archive.to_string()), entry: entry.to_string() }
}

fn container(path: &str) -> Item {
    Item::Container { path: Arc::new(path.to_string()) }
}

#[test]
fn extensions_match_in_any_case() {
    assert!(has_ext("/a/b.JpG", &["png", "jpg"]));
    assert!(has_ext("b.jpg", &["JPG"]));
    assert!(!has_ext("b.jpeg", &["jpg"]));
    assert!(!has_ext("/a.jpg/b", &["jpg"]));
    assert!(!has_ext(".jpg", &["jpg"]));
    assert!(!has_ext("jpg", &["jpg"]));
    assert!(!has_ext("b.jpg", &[]));
}

#[test]
fn media_is_told_by_its_name() {
    assert!(is_archive_file("x.CBZ") && is_archive_file("x.zip") && !is_archive_file("x.rar"));
    assert!(is_pdf_file("x.Pdf") && !is_pdf_file("pdf"));
    for name in ["a.jpg", "a.jpeg", "a.png", "a.webp", "a.bmp", "a.gif", "a.tiff"] {
        assert!(is_image_file(name) && is_media_name(name) && !is_video_file(name));
    }
    for ext in ["mp4", "mov", "m4v", "mkv", "webm", "avi", "wmv", "flv", "mpg", "mpeg", "ts",
        "m2ts", "3gp"] {
        let name = format!("dir/a.{ext}");
        assert!(is_video_file(&name) && is_media_name(&name) && !is_image_file(&name));
    }
    assert!(!is_media_name("a.txt") && !is_media_name("a.tif"));
}

#[test]
fn names_paths_and_titles() {
    let file = Item::File("/root/sub/Img.JPG".to_string());
    assert_eq!(file.media_name(), "/root/sub/Img.JPG");
    assert_eq!(file.disk_path(), "/root/sub/Img.JPG");
    assert_eq!(file.display("/root"), "sub/Img.JPG");
    assert_eq!(file.display("/other"), "/root/sub/Img.JPG");
    assert_eq!(file.sort_key(), "/root/sub/img.jpg");

    let entry = archived("/root/sub/Comics.cbz", "Page01.jpg");
    assert_eq!(entry.media_name(), "Page01.jpg");
    assert_eq!(entry.disk_path(), "/root/sub/Comics.cbz");
    assert_eq!(entry.display("/root"), "sub/Comics.cbz/Page01.jpg");
    assert_eq!(entry.sort_key(), "/root/sub/comics.cbz/page01.jpg");

    let unopened = container("/root/a.zip");
    assert_eq!(unopened.media_name(), "/root/a.zip");
    assert_eq!(unopened.disk_path(), "/root/a.zip");
    assert_eq!(unopened.display("/root/"), "a.zip");
    assert_eq!(unopened.sort_key(), "/root/a.zip");
}

#[test]
fn variants_are_told_apart() {
    let (file, entry, unopened) =
        (Item::File("a".to_string()), archived("a", "b"), container("a"));
    assert!(!file.is_archived() && !file.is_pdf() && !file.is_container());
    assert!(entry.is_archived() && !entry.is_pdf() && !entry.is_container());
    assert!(!unopened.is_archived() && !unopened.is_pdf() && unopened.is_container());
    assert!(file.pdf_image().is_none() && entry.pdf_image().is_none());
    assert_eq!(entry.clone().display(""), "a/b");
}

#[test]
fn junk_is_recognised_in_any_part() {
    for name in ["__MACOSX/a.jpg", "x/__MACOSX", ".DS_Store", "a/._b.jpg", "a/.b/c.jpg", "./a"] {
        assert!(is_junk(name), "{name}");
    }
    for name in ["a.jpg", "a/b.c/d", "MACOSX/a", "__MACOSX2/a", "", "a//b"] {
        assert!(!is_junk(name), "{name}");
    }
}

#[test]
fn entries_are_sorted_into_kinds() {
    assert_eq!(entry_kind("dir/", &is_media_name), EntryKind::Skip);
    assert_eq!(entry_kind("dir.jpg/", &is_media_name), EntryKind::Skip);
    assert_eq!(entry_kind("._a.jpg", &is_media_name), EntryKind::Skip);
    assert_eq!(entry_kind("notes.txt", &is_media_name), EntryKind::Skip);
    assert_eq!(entry_kind("a/b.JPG", &is_media_name), EntryKind::Media);
    assert_eq!(entry_kind("clip.mp4", &is_media_name), EntryKind::Media);
    assert_eq!(entry_kind("book.pdf", &is_media_name), EntryKind::Pdf);
    assert_eq!(entry_kind("inner.zip", &is_media_name), EntryKind::Skip);
}

#[test]
fn unreadable_nested_pdfs_list_nothing() {
    let entry = |name: &str, bytes: Option<Vec<u8>>| ArchiveEntry { name: name.to_string(), bytes };
    let entries = vec![
        entry("b.jpg", None),
        entry("book.pdf", None),
        entry("broken.pdf", Some(vec![1, 2, 3])),
        entry("a.jpg", None),
    ];
    let items = scan_archive("/x.zip", &entries, is_media_name);
    let names: Vec<&str> = items.iter().map(|it| it.media_name()).collect();
    assert_eq!(names, vec!["b.jpg", "a.jpg"]);
    assert!(items.iter().all(|it| it.disk_path() == "/x.zip"));
}

#[test]
fn stored_videos_play_from_the_archive() {
    let facts = |stored: bool, encrypted: bool, data_start: Option<u64>| EntryFacts {
        stored,
        encrypted,
        data_start,
        size: 77,
    };
    let entry = archived("/a.zip", "v.mp4");
    let plain = facts(true, false, Some(40));
    assert!(!entry.needs_decompression(&plain));
    assert!(matches!(
        entry.video_source(Some(plain), None),
        Some(VideoSource::FileRange { path, start: 40, len: 77 }) if path == "/a.zip"
    ));
    for other in [facts(false, false, Some(40)), facts(true, true, Some(40)), facts(true, false, None)] {
        assert!(entry.needs_decompression(&other));
        assert!(matches!(
            entry.video_source(Some(other), Some(vec![1, 2])),
            Some(VideoSource::Bytes(b)) if b == vec![1, 2]
        ));
    }
    assert!(entry.video_source(Some(facts(false, false, None)), None).is_none());
    assert!(entry.video_source(None, Some(vec![1])).is_none());
    let file = Item::File("/v.mp4".to_string());
    assert!(matches!(file.video_source(None, None), Some(VideoSource::Path(p)) if p == "/v.mp4"));
    assert!(container("/a.zip").video_source(None, None).is_none());
}

#[test]
fn bytes_come_from_the_file_or_the_entry() {
    assert!(matches!(Item::File("f".to_string()).read_source(), ReadSource::File(p) if p == "f"));
    assert!(matches!(
        archived("a", "e").read_source(),
        ReadSource::Entry { archive, entry } if archive == "a" && entry == "e"
    ));
    assert!(matches!(container("c").read_source(), ReadSource::Nothing));
}

#[test]
fn chunks_are_collected_until_the_end() {
    let mut data = Vec::new();
    let buf = [1u8, 2, 3, 4];
    assert_eq!(read_chunked(&mut data, &buf, ReadEvent::Read(3)), ReadStep::Continue);
    assert_eq!(read_chunked(&mut data, &buf, ReadEvent::Read(1)), ReadStep::Continue);
    assert_eq!(data, vec![1, 2, 3, 1]);
    assert_eq!(read_chunked(&mut data, &buf, ReadEvent::Read(0)), ReadStep::Done);
    assert_eq!(read_chunked(&mut data, &buf, ReadEvent::Cancelled), ReadStep::Abandoned);
    assert_eq!(read_chunked(&mut data, &buf, ReadEvent::Failed), ReadStep::Abandoned);
    assert_eq!(data, vec![1, 2, 3, 1]);
    assert_eq!(READ_CHUNK, 1_048_576);
}

#[test]
fn the_caller_says_what_is_media() {
    let entry = |name: &str| ArchiveEntry { name: name.to_string(), bytes: None };
    let entries = vec![
        entry("a.jpg"),
        entry("b.txt"),
        entry("c.txt/"),
        entry("__MACOSX/d.txt"),
        entry("e.pdf"),
    ];
    let names = |items: Vec<Item>| -> Vec<String> {
        items.iter().map(|it| it.media_name().to_string()).collect()
    };
    let texts = scan_archive("/x.zip", &entries, |name: &str| name.ends_with(".txt"));
    assert_eq!(names(texts), vec!["b.txt"]);
    // What is media is not taken for a nested PDF.
    let all = scan_archive("/x.zip", &entries, |_: &str| true);
    assert_eq!(names(all), vec!["a.jpg", "b.txt", "e.pdf"]);
    assert!(scan_archive("/x.zip", &entries, |_: &str| false).is_empty());
    // Directories and clutter are not asked about.
    let asked = std::cell::RefCell::new(Vec::new());
    scan_archive("/x.zip", &entries, |name: &str| {
        asked.borrow_mut().push(name.to_string());
        false
    });
    assert_eq!(asked.into_inner(), vec!["a.jpg", "b.txt", "e.pdf"]);
    assert_eq!(entry_kind("b.txt", &|_: &str| true), EntryKind::Media);
    assert_eq!(entry_kind("e.pdf", &|_: &str| false), EntryKind::Pdf);
}

/// Read a source in chunks of up to `size` bytes, as long as `goes_on` says so.
fn collect(mut r: impl Read, size: usize, goes_on: &dyn Fn(usize) -> bool) -> Option<Vec<u8>> {
    let mut data = Vec::new();
    let mut buf = vec![0u8; size];
    let mut round = 0;
    loop {
        let event = if goes_on(round) {
            match r.read(&mut buf) {
                Ok(n) => ReadEvent::Read(n),
                Err(_) => ReadEvent::Failed,
            }
        } else {
            ReadEvent::Cancelled
        };
        round += 1;
        match read_chunked(&mut data, &buf, event) {
            ReadStep::Continue => {}
            ReadStep::Done => return Some(data),
            ReadStep::Abandoned => return None,
        }
    }
}

#[test]
fn an_entry_is_read_chunk_by_chunk() {
    let page: Vec<u8> = (0..10_000u32).map(|i| (i * i % 251) as u8).collect();
    let mut zw = zip::ZipWriter::new(Cursor::new(Vec::new()));
    zw.start_file("pages/p.jpg", zip::write::SimpleFileOptions::default()).unwrap();
    zw.write_all(&page).unwrap();
    let mut zip = zip::ZipArchive::new(Cursor::new(zw.finish().unwrap().into_inner())).unwrap();

    let item = archived("/x.cbz", "pages/p.jpg");
    let name = match item.read_source() {
        ReadSource::Entry { archive, entry } => {
            assert_eq!(archive, "/x.cbz");
            entry
        }
        _ => unreachable!("an archive entry is read from its archive"),
    };
    for size in [1, 7, 4096, READ_CHUNK] {
        let read = collect(zip.by_name(&name).unwrap(), size, &|_| true);
        assert_eq!(read.as_ref(), Some(&page));
    }
    // Nothing comes of a read that is given up, however late.
    assert_eq!(collect(zip.by_name(&name).unwrap(), 4096, &|_| false), None);
    assert_eq!(collect(zip.by_name(&name).unwrap(), 4096, &|round| round < 3), None);
}

#[test]
fn nothing_comes_of_a_stream_that_fails() {
    struct Broken(usize);
    impl Read for Broken {
        fn read(&mut self, buf: &mut [u8]) -> std::io::Result<usize> {
            if self.0 == 0 {
                return Err(std::io::Error::other("broken"));
            }
            self.0 -= 1;
            buf[0] = 1;
            Ok(1)
        }
    }
    assert_eq!(collect(Broken(0), 8, &|_| true), None);
    assert_eq!(collect(Broken(5), 8, &|_| true), None);
}
