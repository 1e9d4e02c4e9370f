use image::codecs::gif::{GifEncoder, Repeat};
use image::codecs::jpeg::JpegEncoder;
use image::{Delay, Frame, Rgba, RgbaImage};
use kagami::animation::frame_at;
use kagami::archive::{scan_archive, ArchiveEntry};
use kagami::decode::{
    add_frame, decode_from_bytes, decode_gif, downscale_to_limit, pdf_decoded, plan_gif,
    show_still, still_image, DecodeError, Decoded, GifFrame, ANIM_RGBA_BUDGET,
    MAX_RESAMPLED_SIDE,
};
use kagami::media::is_media_name;
use kagami::pdf::PdfImage;
use kagami::rounding::fit_side;
use std::io::{Cursor, Read, Write};

fn encode_jpeg(w: u32, h: u32) -> Vec<u8> {
    let buf = image::RgbImage::from_pixel(w, h, image::Rgb([120, 80, 40]));
    let mut out = Vec::new();
    JpegEncoder::new(&mut out)
        .encode(&buf, w, h, image::ExtendedColorType::Rgb8)
        .unwrap();
    out
}

fn encode_gif(w: u32, h: u32, delays: &[u32]) -> Vec<u8> {
    let mut data = Vec::new();
    {
        let mut enc = GifEncoder::new(&mut data);
        enc.set_repeat(Repeat::Infinite).unwrap();
        for (i, ms) in delays.iter().enumerate() {
            let img = RgbaImage::from_pixel(w, h, Rgba([(i % 200) as u8, 0, 0, 255]));
            let delay = Delay::from_numer_denom_ms(*ms, 1);
            enc.encode_frame(Frame::from_parts(img, 0, 0, delay)).unwrap();
        }
    }
    data
}

#[test]
fn decodes_jpeg_wider_than_old_zune_limit() {
    // Wider than the 16384 pixels that a decoder may guard against by default.
    let data = encode_jpeg(17000, 64);
    let d = decode_from_bytes(&data, 4096).expect("should decode");
    assert!(d.width <= 4096 && d.height <= 4096, "downscaled: {}x{}", d.width, d.height);
    assert_eq!(d.frames[0].0.len(), (d.width * d.height * 4) as usize);
    assert_eq!((d.width, d.height), (4096, 15));
    assert_eq!(d.frames[0].1, 0);
}

#[test]
fn animated_gif_decodes_every_frame_with_delays() {
    let mut data = Vec::new();
    {
        let mut enc = GifEncoder::new(&mut data);
        enc.set_repeat(Repeat::Infinite).unwrap();
        for c in [0u8, 128, 255] {
            let img = RgbaImage::from_pixel(8, 8, Rgba([c, 0, 0, 255]));
            let delay = Delay::from_numer_denom_ms(200, 1);
            enc.encode_frame(Frame::from_parts(img, 0, 0, delay)).unwrap();
        }
    }
    let d = decode_from_bytes(&data, 4096).expect("gif decodes");
    assert_eq!(d.frames.len(), 3, "all frames kept");
    assert!(d.frames.iter().all(|(_, delay)| (*delay as f32 / 1000.0 - 0.2).abs() < 0.02));
    // The animation clock walks frames by their delays and wraps around.
    let clock: Vec<u64> = d.frames.iter().map(|f| f.1).collect();
    let at = |t: f64| {
        let (frame, next) = frame_at(&clock, (t * 1000.0) as u64);
        (frame, next.map_or(f32::INFINITY, |ms| ms as f32 / 1000.0))
    };
    assert_eq!(at(0.0).0, 0);
    assert_eq!(at(0.25).0, 1);
    assert_eq!(at(0.45).0, 2);
    assert_eq!(at(0.65).0, 0, "wraps after the last frame");
    let (_, next_in) = at(0.25);
    assert!((next_in - 0.15).abs() < 0.02, "repaint lands on the flip");
}

#[test]
fn archive_entries_list_and_decode_in_memory() {
    let path = "/tmp/kagami_test_1.cbz";
    let opts = zip::write::SimpleFileOptions::default();
    let mut zw = zip::ZipWriter::new(Cursor::new(Vec::new()));
    zw.start_file("pages/page1.jpg", opts).unwrap();
    zw.write_all(&encode_jpeg(64, 32)).unwrap();
    zw.start_file("__MACOSX/._page1.jpg", opts).unwrap();
    zw.write_all(b"resource fork junk").unwrap();
    zw.start_file("notes.txt", opts).unwrap();
    zw.write_all(b"not media").unwrap();
    let bytes = zw.finish().unwrap().into_inner();

    let mut zip = zip::ZipArchive::new(Cursor::new(bytes)).unwrap();
    let entries: Vec<ArchiveEntry> = zip
        .file_names()
        .map(|name| ArchiveEntry { name: name.unwrap().into_owned(), bytes: None })
        .collect();
    let items = scan_archive(path, &entries, is_media_name);
    assert_eq!(items.len(), 1, "junk and non-media entries are skipped");
    assert!(items[0].display("/").ends_with(".cbz/pages/page1.jpg"));

    let mut data = Vec::new();
    zip.by_name(items[0].media_name())
        .expect("entry decompresses to memory")
        .read_to_end(&mut data)
        .expect("entry decompresses to memory");
    let d = decode_from_bytes(&data, 4096).expect("entry decodes");
    assert_eq!((d.width, d.height), (64, 32));
}

#[test]
fn downscale_caps_both_sides() {
    let rgba = vec![255u8; (9000 * 9000 * 4) as usize];
    let (w, h, out) = downscale_to_limit(9000, 9000, rgba, 4096).unwrap();
    assert_eq!((w, h), (4096, 4096));
    assert_eq!(out.len(), (4096 * 4096 * 4) as usize);
}

#[test]
fn small_images_pass_through_unscaled() {
    let rgba: Vec<u8> = (0..24).collect();
    assert_eq!(downscale_to_limit(3, 2, rgba.clone(), 3), Ok((3, 2, rgba.clone())));
    // Even a buffer of the wrong length, as long as nothing is resampled.
    assert_eq!(downscale_to_limit(3, 2, vec![1], 3), Ok((3, 2, vec![1])));
    assert_eq!(downscale_to_limit(0, 0, Vec::new(), 0), Ok((0, 0, Vec::new())));
}

#[test]
fn downscaling_resamples_and_keeps_the_aspect() {
    // Uniform pixels stay uniform, at the new size.
    let rgba: Vec<u8> = [10, 20, 30, 255].repeat(600 * 300);
    let (w, h, out) = downscale_to_limit(600, 300, rgba, 100).unwrap();
    assert_eq!((w, h), (100, 50));
    assert_eq!(out, [10, 20, 30, 255].repeat(100 * 50));
    let (w, h, out) = downscale_to_limit(5000, 1, vec![7; 5000 * 4], 10).unwrap();
    assert_eq!((w, h, out.len()), (10, 1, 40));
}

#[test]
fn sizes_follow_double_precision() {
    for (w, h, max) in [(17000u32, 64u32, 4096u32), (9000, 9000, 4096), (4099, 4097, 4096),
        (65535, 65533, 333), (1000, 3, 7), (30000, 20011, 8192)] {
        let scale = (max as f64 / w as f64).min(max as f64 / h as f64);
        let nw = ((w as f64 * scale).floor() as u32).clamp(1, max);
        let nh = ((h as f64 * scale).floor() as u32).clamp(1, max);
        assert_eq!(kagami::rounding::fit_side(w, max, w.max(h)), nw);
        assert_eq!(kagami::rounding::fit_side(h, max, w.max(h)), nh);
    }
}

#[test]
fn short_buffers_are_reported() {
    assert_eq!(
        downscale_to_limit(20, 20, vec![0; 20 * 20 * 4 - 1], 10),
        Err(DecodeError::BufferMismatch)
    );
    assert_eq!(
        downscale_to_limit(u32::MAX, u32::MAX, vec![0; 16], 10),
        Err(DecodeError::BufferMismatch)
    );
    assert_eq!(still_image(20, 20, vec![0; 4], 10).err(), Some(DecodeError::BufferMismatch));
}

#[test]
fn text_is_no_image() {
    assert_eq!(decode_from_bytes(b"just some text", 100).err(), Some(DecodeError::NotAnImage));
    assert_eq!(decode_from_bytes(b"", 100).err(), Some(DecodeError::NotAnImage));
    assert_eq!(decode_gif(b"just some text", 100).err(), Some(DecodeError::BrokenGif));
}

#[test]
fn png_pixels_are_decoded() {
    let mut png = Vec::new();
    let img = RgbaImage::from_pixel(3, 2, Rgba([1, 2, 3, 200]));
    image::DynamicImage::ImageRgba8(img)
        .write_to(&mut Cursor::new(&mut png), image::ImageFormat::Png)
        .unwrap();
    let d = decode_from_bytes(&png, 100).unwrap();
    assert_eq!((d.width, d.height, d.frames.len()), (3, 2, 1));
    assert_eq!(d.frames[0].0, [1, 2, 3, 200].repeat(6));
}

#[test]
fn gif_header_without_frames_is_an_error() {
    // A header without a colour table, a comment and a trailer.
    let mut data = vec![b'G', b'I', b'F', b'8', b'9', b'a', 1, 0, 1, 0, 0, 0, 0];
    data.extend_from_slice(&[0x21, 0xfe, 1, b'c', 0, 0x3b]);
    assert_eq!(decode_gif(&data, 100).err(), Some(DecodeError::NoFrames));
    assert_eq!(decode_from_bytes(&data, 100).err(), Some(DecodeError::NotAnImage));
    data.truncate(10);
    assert_eq!(decode_gif(&data, 100).err(), Some(DecodeError::BrokenGif));
}

#[test]
fn broken_animation_falls_back_to_its_first_frame() {
    let whole = encode_gif(16, 16, &[100, 100, 100]);
    let cut = &whole[..whole.len() * 2 / 3];
    assert_eq!(decode_gif(cut, 100).err(), Some(DecodeError::BrokenGif));
    let d = decode_from_bytes(cut, 100).unwrap();
    assert_eq!(d.frames.len(), 1);
    assert_eq!(d.frames[0].1, 0);
}

#[test]
fn very_short_delays_play_at_a_tenth_of_a_second() {
    let d = decode_from_bytes(&encode_gif(4, 4, &[0, 20, 500]), 100).unwrap();
    let delays: Vec<u64> = d.frames.iter().map(|f| f.1).collect();
    assert_eq!(delays, vec![100, 20, 500]);
}

#[test]
fn long_animations_are_thinned_but_keep_their_length() {
    let d = decode_from_bytes(&encode_gif(2, 2, &[50; 600]), 100).unwrap();
    // Every third frame of 600 is kept.
    assert_eq!(d.frames.len(), 200);
    assert!(d.frames.iter().all(|f| f.1 == 150));
    assert_eq!(d.frames[1].0[0], 3);
}

#[test]
fn animation_plans_fit_the_budget() {
    assert_eq!(plan_gif(100, 50, 3, 4096), (1, 100));
    assert_eq!(plan_gif(100, 50, 3, 60), (1, 60));
    assert_eq!(plan_gif(100, 50, 256, 4096), (1, 100));
    assert_eq!(plan_gif(100, 50, 257, 4096), (2, 100));
    // 48 full-size frames of 2080 by 2648 pixels do not fit; scaled down they do.
    let (step, side) = plan_gif(2080, 2648, 48, 8192);
    assert_eq!((step, side), (1, 1334));
    let width = kagami::rounding::fit_side(2080, side, 2648) as u64;
    assert!(width * side as u64 * 4 * 48 <= 256 * 1024 * 1024);
    assert_eq!(plan_gif(0, 0, 1, 0), (1, 1));
}

#[test]
fn frames_of_changing_size_are_an_error() {
    let frame = |w: u32, ms: u32| GifFrame {
        width: w,
        height: 1,
        pixels: vec![w as u8; (w * 4) as usize],
        delay_ms: ms,
    };
    let empty = Decoded { width: 0, height: 0, frames: Vec::new() };
    let one = add_frame(empty, frame(2, 40), true, 10).unwrap();
    assert_eq!((one.width, one.height, one.frames.len()), (2, 1, 1));
    let longer = add_frame(one, frame(9, 5), false, 10).unwrap();
    assert_eq!(longer.frames, vec![(vec![2u8; 8], 140)]);
    let two = add_frame(longer, frame(2, 10), true, 10).unwrap();
    assert_eq!(two.frames[1], (vec![2u8; 8], 10));
    assert_eq!(
        add_frame(two, frame(3, 10), true, 10).err(),
        Some(DecodeError::FramesChangeSize)
    );
}

#[test]
fn pdf_images_decode_raw_or_through_the_codec() {
    let raw = PdfImage::Rgba { width: 2, height: 1, data: vec![5; 8] };
    let d = pdf_decoded(raw, 10).unwrap();
    assert_eq!((d.width, d.height), (2, 1));
    assert_eq!(d.frames, vec![(vec![5; 8], 0)]);
    let jpeg = PdfImage::Encoded(encode_jpeg(20, 10));
    let d = pdf_decoded(jpeg, 10).unwrap();
    assert_eq!((d.width, d.height), (10, 5));
    assert!(pdf_decoded(PdfImage::Encoded(vec![1, 2, 3]), 10).is_none());
    assert!(pdf_decoded(PdfImage::Rgba { width: 20, height: 1, data: vec![0; 3] }, 10).is_none());
}

#[test]
fn decoded_animations_fit_their_budget() {
    for (cw, ch, count) in [(2080u16, 2648u16, 48u64), (65535, 65535, 1000), (65535, 1, 1), (1, 1, 9)] {
        let (step, side) = plan_gif(cw, ch, count, 8192);
        let kept = count.div_ceil(step);
        let longest = cw.max(ch) as u32;
        let (w, h) = if longest <= side {
            (cw as u64, ch as u64)
        } else {
            (fit_side(cw as u32, side, longest) as u64, fit_side(ch as u32, side, longest) as u64)
        };
        assert!(w * h * 4 * kept <= ANIM_RGBA_BUDGET, "{cw}x{ch} {count}");
    }
    assert_eq!(plan_gif(65535, 65535, 1000, 100_000), (4, 518));
}

#[test]
fn long_images_are_resampled() {
    let long = 5_000_000u32;
    let pixels = || vec![9u8; long as usize * 4];
    let (w, h, out) = downscale_to_limit(long, 1, pixels(), 4096).unwrap();
    assert_eq!((w, h), (4096, 1));
    assert_eq!(out, vec![9; 4096 * 4]);
    let d = show_still(Some((1, long, pixels())), 10).unwrap();
    assert_eq!((d.width, d.height), (1, 10));
    assert_eq!(d.frames, vec![(vec![9; 40], 0)]);
    let page = PdfImage::Rgba { width: 1, height: long, data: pixels() };
    assert_eq!(pdf_decoded(page, 10).unwrap().frames, vec![(vec![9; 40], 0)]);
    // Up to the longest side that is resampled to.
    let most = MAX_RESAMPLED_SIDE;
    let (w, h, out) = downscale_to_limit(long, 1, pixels(), most).unwrap();
    assert_eq!((w, h), (most, 1));
    assert_eq!(out, vec![9; most as usize * 4]);
    let (w, _, out) = downscale_to_limit(most + 1, 1, vec![9; (most as usize + 1) * 4], most).unwrap();
    assert_eq!(w, most);
    assert_eq!(out, vec![9; most as usize * 4]);
}

#[test]
fn sides_that_cannot_be_resampled_to_are_reported() {
    let long = 5_000_000u32;
    let limit = MAX_RESAMPLED_SIDE + 1;
    let pixels = || vec![9u8; long as usize * 4];
    assert_eq!(
        show_still(Some((long, 1, pixels())), limit).err(),
        Some(DecodeError::TooLarge)
    );
    assert!(pdf_decoded(PdfImage::Rgba { width: 1, height: long, data: pixels() }, limit).is_none());
    // What needs no resampling is shown, however long.
    let d = show_still(Some((long, 1, pixels())), long).unwrap();
    assert_eq!((d.width, d.height, d.frames[0].0.len()), (long, 1, long as usize * 4));
    assert_eq!(
        show_still(Some((long, 1, vec![0; 4])), limit).err(),
        Some(DecodeError::BufferMismatch)
    );
    assert_eq!(show_still(None, 10).err(), Some(DecodeError::NotAnImage));
}

#[test]
fn decoded_frames_are_whole() {
    let d = decode_gif(&encode_gif(300, 200, &[40; 5]), 64).unwrap();
    assert_eq!((d.width, d.height, d.frames.len()), (64, 42, 5));
    assert!(d.frames.iter().all(|f| f.0.len() == 64 * 42 * 4));
    assert_eq!(d.frames.iter().map(|f| f.1).sum::<u64>(), 200);
    let d = decode_from_bytes(&encode_jpeg(333, 100), 50).unwrap();
    assert_eq!((d.width, d.height), (50, 15));
    assert_eq!(d.frames[0].0.len(), 50 * 15 * 4);
}
