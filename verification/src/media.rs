//! Telling media files apart by their names.

use crate::archive::{archive_path, has_ext, has_extension, texts};
use crate::path::extension_of;
use crate::pdf::pdf_path;
use crate::text::lower;
use crate::video::{is_video_file, video_path};
use vstd::prelude::*;

verus! {

/// Whether a path names an image file.
pub open spec fn image_path(path: Seq<char>) -> bool {
    has_extension(
        path,
        seq!["jpg"@, "jpeg"@, "png"@, "webp"@, "bmp"@, "gif"@, "tiff"@],
    )
}

/// Whether a path names an image or a video file.
pub open spec fn media_path(path: Seq<char>) -> bool {
    image_path(path) || video_path(path)
}

pub fn is_image_file(path: &str) -> (r: bool)
    ensures
        r == image_path(path@),
{
    let exts = ["jpg", "jpeg", "png", "webp", "bmp", "gif", "tiff"];
    assert(texts(exts@) =~= seq![
        "jpg"@,
        "jpeg"@,
        "png"@,
        "webp"@,
        "bmp"@,
        "gif"@,
        "tiff"@,
    ]);
    has_ext(path, &exts)
}

pub fn is_media_name(path: &str) -> (r: bool)
    ensures
        r == media_path(path@),
{
    is_image_file(path) || is_video_file(path)
}

/// A text without capital letters is its own lower case.
pub proof fn small_letters_stay(s: Seq<char>)
    requires
        forall|i: int| 0 <= i < s.len() ==> !('A' <= #[trigger] s[i] <= 'Z'),
    ensures
        lower(s) == s,
{
    assert(lower(s) =~= s);
}

/// An image is told by its extension, in any case: one of jpg, jpeg, png, webp, bmp, gif and
/// tiff. A path without an extension is none.
pub proof fn images_are_told_by_extension(path: Seq<char>)
    ensures
        extension_of(path) is None ==> !image_path(path) && !video_path(path),
        extension_of(path) matches Some(e) ==> (image_path(path) <==> {
            let x = lower(e);
            x == "jpg"@ || x == "jpeg"@ || x == "png"@ || x == "webp"@ || x == "bmp"@ || x == "gif"@
                || x == "tiff"@
        }),
{
    reveal_strlit("jpg");
    reveal_strlit("jpeg");
    reveal_strlit("png");
    reveal_strlit("webp");
    reveal_strlit("bmp");
    reveal_strlit("gif");
    reveal_strlit("tiff");
    small_letters_stay("jpg"@);
    small_letters_stay("jpeg"@);
    small_letters_stay("png"@);
    small_letters_stay("webp"@);
    small_letters_stay("bmp"@);
    small_letters_stay("gif"@);
    small_letters_stay("tiff"@);
    let exts = seq!["jpg"@, "jpeg"@, "png"@, "webp"@, "bmp"@, "gif"@, "tiff"@];
    assert(exts[0] == "jpg"@ && exts[1] == "jpeg"@ && exts[2] == "png"@ && exts[3] == "webp"@
        && exts[4] == "bmp"@ && exts[5] == "gif"@ && exts[6] == "tiff"@);
}

/// A video is told by its extension, in any case.
pub proof fn videos_are_told_by_extension(path: Seq<char>)
    ensures
        extension_of(path) matches Some(e) ==> (video_path(path) <==> {
            let x = lower(e);
            x == "mp4"@ || x == "mov"@ || x == "m4v"@ || x == "mkv"@ || x == "webm"@ || x == "avi"@
                || x == "wmv"@ || x == "flv"@ || x == "mpg"@ || x == "mpeg"@ || x == "ts"@ || x
                == "m2ts"@ || x == "3gp"@
        }),
        media_path(path) <==> image_path(path) || video_path(path),
{
    reveal_strlit("mp4");
    reveal_strlit("mov");
    reveal_strlit("m4v");
    reveal_strlit("mkv");
    reveal_strlit("webm");
    reveal_strlit("avi");
    reveal_strlit("wmv");
    reveal_strlit("flv");
    reveal_strlit("mpg");
    reveal_strlit("mpeg");
    reveal_strlit("ts");
    reveal_strlit("m2ts");
    reveal_strlit("3gp");
    small_letters_stay("mp4"@);
    small_letters_stay("mov"@);
    small_letters_stay("m4v"@);
    small_letters_stay("mkv"@);
    small_letters_stay("webm"@);
    small_letters_stay("avi"@);
    small_letters_stay("wmv"@);
    small_letters_stay("flv"@);
    small_letters_stay("mpg"@);
    small_letters_stay("mpeg"@);
    small_letters_stay("ts"@);
    small_letters_stay("m2ts"@);
    small_letters_stay("3gp"@);
    let exts = seq![
        "mp4"@,
        "mov"@,
        "m4v"@,
        "mkv"@,
        "webm"@,
        "avi"@,
        "wmv"@,
        "flv"@,
        "mpg"@,
        "mpeg"@,
        "ts"@,
        "m2ts"@,
        "3gp"@,
    ];
    assert(exts[0] == "mp4"@ && exts[1] == "mov"@ && exts[2] == "m4v"@ && exts[3] == "mkv"@
        && exts[4] == "webm"@ && exts[5] == "avi"@ && exts[6] == "wmv"@ && exts[7] == "flv"@
        && exts[8] == "mpg"@ && exts[9] == "mpeg"@ && exts[10] == "ts"@ && exts[11] == "m2ts"@
        && exts[12] == "3gp"@);
}

/// An archive is told by the extension zip or cbz, a PDF by pdf, in any case; no media file
/// is either.
pub proof fn containers_are_told_by_extension(path: Seq<char>)
    ensures
        extension_of(path) is None ==> !archive_path(path) && !pdf_path(path),
        extension_of(path) matches Some(e) ==> (archive_path(path) <==> lower(e) == "zip"@ || lower(e)
            == "cbz"@) && (pdf_path(path) <==> lower(e) == "pdf"@),
        archive_path(path) ==> !pdf_path(path) && !media_path(path),
        pdf_path(path) ==> !media_path(path),
{
    reveal_strlit("zip");
    reveal_strlit("cbz");
    reveal_strlit("pdf");
    small_letters_stay("zip"@);
    small_letters_stay("cbz"@);
    small_letters_stay("pdf"@);
    let zips = seq!["zip"@, "cbz"@];
    assert(zips[0] == "zip"@ && zips[1] == "cbz"@);
    let pdfs = seq!["pdf"@];
    assert(pdfs[0] == "pdf"@);
    images_are_told_by_extension(path);
    videos_are_told_by_extension(path);
    reveal_strlit("jpg");
    reveal_strlit("jpeg");
    reveal_strlit("png");
    reveal_strlit("webp");
    reveal_strlit("bmp");
    reveal_strlit("gif");
    reveal_strlit("tiff");
    reveal_strlit("mp4");
    reveal_strlit("mov");
    reveal_strlit("m4v");
    reveal_strlit("mkv");
    reveal_strlit("webm");
    reveal_strlit("avi");
    reveal_strlit("wmv");
    reveal_strlit("flv");
    reveal_strlit("mpg");
    reveal_strlit("mpeg");
    reveal_strlit("ts");
    reveal_strlit("m2ts");
    reveal_strlit("3gp");
    if extension_of(path) is Some {
        let x = lower(extension_of(path).unwrap());
        let first = x[0];
        if x == "zip"@ || x == "cbz"@ {
            assert("zip"@[0] == 'z' && "cbz"@[0] == 'c' && "pdf"@[0] == 'p');
        }
        if x == "pdf"@ {
            assert("pdf"@[1] == 'd' && "png"@[1] == 'n');
        }
    }
}

} // verus!
