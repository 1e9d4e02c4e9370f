use kagami::path::{extension, file_stem, join, normal_form, parent, same_path, strip_prefix};
use std::path::Path;

const SAMPLES: [&str; 34] = [
    "", "/", "//", ".", "..", "./", "../", "a", "a/", "a//", "./a", "./a/.", "a/.", "a/..", "a/b",
    "a//b", "a/./b", "/a", "//a", "/a/", "/a/b.jpg", "/a/b.tar.gz", ".hidden", ".hidden.txt",
    "a/.hidden", "name.", "..foo", "a.b/c", "/x/../y.zip", "x y/z\u{e9}.PNG", "././a", "/./a",
    "a/b/../c.d", "...",
];

fn text(p: &Path) -> String {
    p.to_string_lossy().into_owned()
}

#[test]
fn extension_and_stem_agree_with_the_standard_library() {
    for s in SAMPLES {
        let p = Path::new(s);
        let ext = p.extension().map(|e| e.to_string_lossy().into_owned());
        let stem = p.file_stem().map(|e| e.to_string_lossy().into_owned());
        assert_eq!(extension(s), ext, "extension of {s:?}");
        assert_eq!(file_stem(s), stem, "stem of {s:?}");
    }
}

#[test]
fn parent_is_the_same_path_as_in_the_standard_library() {
    for s in SAMPLES {
        match (parent(s), Path::new(s).parent()) {
            (Some(a), Some(b)) => assert_eq!(Path::new(&a), b, "parent of {s:?}"),
            (None, None) => {}
            (a, b) => panic!("parent of {s:?}: {a:?} and {b:?}"),
        }
    }
}

#[test]
fn same_path_and_normal_form_agree_with_the_standard_library() {
    for a in SAMPLES {
        assert_eq!(Path::new(&normal_form(a)), Path::new(a));
        for b in SAMPLES {
            let same = Path::new(a) == Path::new(b);
            assert_eq!(same_path(a, b), same, "{a:?} and {b:?}");
            assert_eq!(normal_form(a) == normal_form(b), same, "{a:?} and {b:?}");
        }
    }
    assert_eq!(normal_form("/a//b/./c/"), "/a/b/c");
    assert_eq!(normal_form("./a/."), "./a");
}

#[test]
fn strip_prefix_agrees_with_the_standard_library() {
    for a in SAMPLES {
        for b in SAMPLES {
            let expected = Path::new(a).strip_prefix(Path::new(b)).ok().map(text);
            assert_eq!(strip_prefix(a, b), expected, "{a:?} without {b:?}");
        }
    }
}

#[test]
fn join_agrees_with_the_standard_library() {
    for a in SAMPLES {
        for b in SAMPLES {
            assert_eq!(join(a, b), text(&Path::new(a).join(b)), "{a:?} and {b:?}");
        }
    }
}
