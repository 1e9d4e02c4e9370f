//! Decoding images to RGBA frames that are ready to be uploaded as textures.
//! The codecs and the resampling are those of the `image` and `gif` crates; what
//! is decoded, how it is scaled and how animations are thinned is decided here.

use crate::animation::sum;
use crate::budget::{
    budget_is_used, fitted_side_shrinks, longest_side_meets_limit, scaled_sides_fit_budget,
    scaling_keeps_aspect, unscaled_area_fits_budget,
};
use crate::pdf::{ImageModel, PdfImage};
use crate::rounding::{budget_side, budgeted_side, fit_side, fitted_side};
use image::{AnimationDecoder, Frames};
use std::io::Cursor;
use vstd::prelude::*;

verus! {

/// Total decoded RGBA budget for one animation, in bytes. Decoding a large
/// animation whole exhausts memory, so its frames are scaled down to fit this
/// budget together.
pub const ANIM_RGBA_BUDGET: u64 = 268_435_456;

/// The same budget in pixels.
pub const ANIM_PIXEL_BUDGET: u64 = 67_108_864;

/// Animations longer than this keep every k-th frame (screen time merged into
/// the kept neighbour), so that the texture count stays sane.
pub const MAX_ANIM_FRAMES: u64 = 256;

/// The longest side that an image may be resampled to, far beyond what a texture
/// can have. The resampling does not tell the positions along much longer ones
/// apart, and then fails.
pub const MAX_RESAMPLED_SIDE: u32 = 1_048_576;

/// Why an image could not be decoded.
#[derive(Clone, Copy, PartialEq, Eq, Structural, Debug)]
pub enum DecodeError {
    /// The pixels are fewer than width and height ask for.
    BufferMismatch,
    /// A side would be too long for the image to be resampled to it.
    TooLarge,
    /// The data are no image of a known format.
    NotAnImage,
    /// The animation cannot be read to its end.
    BrokenGif,
    NoFrames,
    FramesChangeSize,
}

/// A fully decoded item ready for texture upload. `frames` holds RGBA frames
/// with their display durations in milliseconds: a still image is a single frame
/// of duration 0; animations carry every frame that is shown.
pub struct Decoded {
    pub width: u32,
    pub height: u32,
    pub frames: Vec<(Vec<u8>, u64)>,
}

pub struct DecodedModel {
    pub width: u32,
    pub height: u32,
    pub frames: Seq<(Seq<u8>, u64)>,
}

pub open spec fn frame_values(frames: Seq<(Vec<u8>, u64)>) -> Seq<(Seq<u8>, u64)> {
    frames.map_values(|f: (Vec<u8>, u64)| (f.0@, f.1))
}

impl View for Decoded {
    type V = DecodedModel;

    open spec fn view(&self) -> DecodedModel {
        DecodedModel { width: self.width, height: self.height, frames: frame_values(self.frames@) }
    }
}

/// The pixels that `image::imageops::resize` with a triangle filter makes of an
/// RGBA image of width `w` and height `h`, for the new size `nw` by `nh`.
pub uninterp spec fn resized(rgba: Seq<u8>, w: u32, h: u32, nw: u32, nh: u32) -> Seq<u8>;

/// Whether `still` is something that `image::ImageReader`, without limits, can make
/// of the data of a still image after guessing its format: the width, the height
/// and the RGBA pixels, or None for a failure. Some codecs compute with what the
/// processor offers, so the pixels need not be the same on every machine.
pub uninterp spec fn decodes_to(data: Seq<u8>, still: Option<(u32, u32, Seq<u8>)>) -> bool;

/// `image::imageops::resize` of an RGBA image, with a triangle filter. The pixels
/// are named; there are four bytes for each pixel of the new size. It is only asked
/// for sizes that the given ones are scaled down to, since it panics on a size that
/// cannot be addressed, and not for new sides beyond [`MAX_RESAMPLED_SIDE`]: it
/// places samples with 24 significant bits, and panics where all those of a new
/// pixel fall beside it. The old sides may have any length, since the reach of a
/// new pixel grows with them. An image without pixels is not sampled.
#[verifier::external_body]
fn resize(w: u32, h: u32, rgba: Vec<u8>, nw: u32, nh: u32) -> (r: Vec<u8>)
    requires
        w * h * 4 <= rgba@.len(),
        0 < nw,
        0 < nh,
        if w > 0 {
            nw <= w
        } else {
            nw == 1
        },
        if h > 0 {
            nh <= h
        } else {
            nh == 1
        },
        w > 0 && h > 0 ==> nw <= MAX_RESAMPLED_SIDE && nh <= MAX_RESAMPLED_SIDE,
    ensures
        r@ == resized(rgba@, w, h, nw, nh),
        r@.len() == nw * nh * 4,
{
    let buffer = image::RgbaImage::from_raw(w, h, rgba).unwrap();
    let filter = image::imageops::FilterType::Triangle;
    image::imageops::resize(&buffer, nw, nh, filter).into_raw()
}

/// The same, over mathematical values.
pub open spec fn still_value(still: Option<(u32, u32, Vec<u8>)>) -> Option<(u32, u32, Seq<u8>)> {
    match still {
        Some(p) => Some((p.0, p.1, p.2@)),
        None => None,
    }
}

/// `image::ImageReader::decode`, without limits, after its `with_guessed_format`,
/// converted to RGBA. There are four bytes for each pixel; that the pixels are the
/// same each time is not claimed.
#[verifier::external_body]
fn decode_still(data: &[u8]) -> (r: Option<(u32, u32, Vec<u8>)>)
    ensures
        decodes_to(data@, still_value(r)),
        r matches Some(p) ==> p.2@.len() == p.0 * p.1 * 4,
{
    let mut reader = image::ImageReader::new(Cursor::new(data)).with_guessed_format().ok()?;
    reader.no_limits();
    let rgba = reader.decode().ok()?.into_rgba8();
    Some((rgba.width(), rgba.height(), rgba.into_raw()))
}

/// What the data of an animation announce: the canvas size, the number of frames
/// that follow, and whether the end is reached without an error.
pub struct ProbeModel {
    pub width: u16,
    pub height: u16,
    pub frames: nat,
    pub sound: bool,
}

/// What `gif::Decoder` finds in the data when it skips the pixels; None if the
/// header is not that of a GIF.
pub uninterp spec fn probed(data: Seq<u8>) -> Option<ProbeModel>;

/// A `gif::Decoder` that is stepped from frame to frame without its pixels. It is
/// wrapped because its reader parameter keeps the type itself from being declared.
#[verifier::external_body]
pub struct GifProbe<'a> {
    decoder: gif::Decoder<Cursor<&'a [u8]>>,
}

/// What a probe still has in front of it.
pub uninterp spec fn probe_left(probe: GifProbe) -> ProbeModel;

/// `gif::DecodeOptions::read_info`: read the header of a GIF. Every frame takes
/// at least a byte of the data.
#[verifier::external_body]
fn open_probe<'a>(data: &'a [u8]) -> (r: Option<GifProbe<'a>>)
    ensures
        (match r {
            Some(probe) => probed(data@) == Some(probe_left(probe)) && probe_left(probe).frames
                <= data@.len(),
            None => probed(data@) is None,
        }),
{
    let mut options = gif::DecodeOptions::new();
    options.set_color_output(gif::ColorOutput::Indexed);
    let decoder = options.read_info(Cursor::new(data)).ok()?;
    Some(GifProbe { decoder })
}

/// `gif::Decoder::width` and `gif::Decoder::height`: the canvas size.
#[verifier::external_body]
fn probe_size(probe: &GifProbe) -> (r: (u16, u16))
    ensures
        r == (probe_left(*probe).width, probe_left(*probe).height),
{
    (probe.decoder.width(), probe.decoder.height())
}

/// `gif::Decoder::next_frame_info`: step over one frame. None stands for an
/// error, and the value tells whether there was a frame.
#[verifier::external_body]
fn probe_next(probe: &mut GifProbe) -> (r: Option<bool>)
    ensures
        probe_left(*old(probe)).frames > 0 ==> r == Some(true) && probe_left(*final(probe)) == (
        ProbeModel {
            frames: (probe_left(*old(probe)).frames - 1) as nat,
            ..probe_left(*old(probe))
        }),
        probe_left(*old(probe)).frames == 0 ==> r == (if probe_left(*old(probe)).sound {
            Some(false)
        } else {
            None
        }),
{
    probe.decoder.next_frame_info().ok().map(|frame| frame.is_some())
}

/// One frame of an animation as it is to be shown, with its delay.
pub struct GifFrame {
    pub width: u32,
    pub height: u32,
    pub pixels: Vec<u8>,
    pub delay_ms: u32,
}

pub struct FrameModel {
    pub width: u32,
    pub height: u32,
    pub pixels: Seq<u8>,
    pub delay_ms: u32,
}

impl View for GifFrame {
    type V = FrameModel;

    open spec fn view(&self) -> FrameModel {
        FrameModel {
            width: self.width,
            height: self.height,
            pixels: self.pixels@,
            delay_ms: self.delay_ms,
        }
    }
}

/// The frames of an animation up to its end, or up to the first error.
pub struct AnimationModel {
    pub frames: Seq<FrameModel>,
    pub sound: bool,
}

/// Whether a frame covers a canvas of the given size, with four bytes per pixel.
pub open spec fn covers_canvas(f: FrameModel, w: u16, h: u16) -> bool {
    f.width == w && f.height == h && f.pixels.len() == w * h * 4
}

/// Whether an animation is as announced: every frame covers the canvas, and there
/// are no more of them.
pub open spec fn is_as_probed(a: AnimationModel, p: ProbeModel) -> bool {
    &&& p.sound ==> a.frames.len() <= p.frames
    &&& forall|i: int|
        0 <= i < a.frames.len() ==> covers_canvas(#[trigger] a.frames[i], p.width, p.height)
}

/// What `image::codecs::gif::GifDecoder` finds in the data; None if the header is
/// not that of a GIF.
pub uninterp spec fn animation(data: Seq<u8>) -> Option<AnimationModel>;

/// The `image` crate's iterator over the frames of an animation.
#[verifier::external_type_specification]
#[verifier::external_body]
pub struct ExFrames<'a>(image::Frames<'a>);

/// What that iterator yields: a frame,
#[verifier::external_type_specification]
#[verifier::external_body]
pub struct ExFrame(image::Frame);

/// or an error.
#[verifier::external_type_specification]
#[verifier::external_body]
pub struct ExImageError(image::ImageError);

/// What an iterator over frames still has in front of it.
pub uninterp spec fn frames_left(frames: Frames) -> AnimationModel;

/// `image::codecs::gif::GifDecoder::new` and its `into_frames`: read the header of
/// an animation. It steps through the data with a `gif::Decoder` of its own, so it
/// meets no more frames than a probe of all the data does, and each is composited
/// onto a canvas of the announced size.
#[verifier::external_body]
fn open_frames<'a>(data: &'a [u8]) -> (r: Option<Frames<'a>>)
    ensures
        (match r {
            Some(frames) => animation(data@) == Some(frames_left(frames)) && (probed(
                data@,
            ) matches Some(p) ==> is_as_probed(frames_left(frames), p)),
            None => animation(data@) is None,
        }),
{
    let decoder = image::codecs::gif::GifDecoder::new(Cursor::new(data)).ok()?;
    Some(decoder.into_frames())
}

/// `image::Frames::next`: the next composited frame. None stands for the end, and
/// an inner None for an error. A GIF frame's delay is a whole number of
/// milliseconds.
#[verifier::external_body]
fn next_frame(frames: &mut Frames) -> (r: Option<Option<GifFrame>>)
    ensures
        frames_left(*old(frames)).frames.len() > 0 ==> {
            &&& r matches Some(Some(frame)) && frame@ == frames_left(*old(frames)).frames[0]
            &&& frames_left(*final(frames)) == (AnimationModel {
                frames: frames_left(*old(frames)).frames.skip(1),
                ..frames_left(*old(frames))
            })
        },
        frames_left(*old(frames)).frames.len() == 0 ==> if frames_left(*old(frames)).sound {
            r is None
        } else {
            r == Some(None::<GifFrame>)
        },
{
    let frame = match frames.next()? {
        Ok(frame) => frame,
        Err(_) => return Some(None),
    };
    let delay_ms = frame.delay().numer_denom_ms().0;
    let b = frame.into_buffer();
    Some(Some(GifFrame { width: b.width(), height: b.height(), delay_ms, pixels: b.into_raw() }))
}

/// An image of width `w` and height `h`, scaled down so that neither side exceeds
/// `limit`.
pub open spec fn scaled(w: u32, h: u32, rgba: Seq<u8>, limit: u32) -> Result<
    (u32, u32, Seq<u8>),
    DecodeError,
> {
    if w <= limit && h <= limit {
        Ok((w, h, rgba))
    } else if w * h * 4 > rgba.len() {
        Err(DecodeError::BufferMismatch)
    } else {
        let longest: nat = if w >= h {
            w as nat
        } else {
            h as nat
        };
        let nw = fitted_side(w as nat, limit as nat, longest) as u32;
        let nh = fitted_side(h as nat, limit as nat, longest) as u32;
        Ok((nw, nh, resized(rgba, w, h, nw, nh)))
    }
}

/// Whether an image of width `w` and height `h`, of which `len` bytes are there, can
/// be scaled down to `limit`: it fits already, there are no pixels or too few, or it
/// can be resampled to that size.
pub open spec fn can_scale(w: u32, h: u32, len: nat, limit: u32) -> bool {
    ||| w <= limit && h <= limit
    ||| w == 0
    ||| h == 0
    ||| w * h * 4 > len
    ||| limit <= MAX_RESAMPLED_SIDE
}

/// Downscale so that neither side exceeds `max_side`, preserving the aspect
/// ratio. Caps both the GPU texture limit and the display budget, and keeps
/// decode and upload cheap for huge source images.
pub fn downscale_to_limit(w: u32, h: u32, rgba: Vec<u8>, max_side: u32) -> (r: Result<
    (u32, u32, Vec<u8>),
    DecodeError,
>)
    requires
        max_side > 0 || (w == 0 && h == 0),
        can_scale(w, h, rgba@.len(), max_side),
    ensures
        rgba@.len() == w * h * 4 ==> (r matches Ok(p) ==> p.2@.len() == p.0 * p.1 * 4),
        (match r {
            Ok(p) => scaled(w, h, rgba@, max_side) == Ok::<(u32, u32, Seq<u8>), DecodeError>(
                (p.0, p.1, p.2@),
            ) && p.0 <= max_side && p.1 <= max_side,
            Err(e) => scaled(w, h, rgba@, max_side) == Err::<(u32, u32, Seq<u8>), DecodeError>(e),
        }),
{
    if w <= max_side && h <= max_side {
        return Ok((w, h, rgba));
    }
    assert(0 <= w * h <= 0xffff_ffff * 0xffff_ffff) by (nonlinear_arith)
        requires
            w <= 0xffff_ffff,
            h <= 0xffff_ffff,
    ;
    if w as u128 * h as u128 * 4 > rgba.len() as u128 {
        return Err(DecodeError::BufferMismatch);
    }
    let longest: u32 = if w >= h {
        w
    } else {
        h
    };
    let nw: u32 = fit_side(w, max_side, longest);
    let nh: u32 = fit_side(h, max_side, longest);
    proof {
        fitted_side_shrinks(w as nat, max_side as nat, longest as nat);
        fitted_side_shrinks(h as nat, max_side as nat, longest as nat);
    }
    Ok((nw, nh, resize(w, h, rgba, nw, nh)))
}

pub open spec fn one_frame(p: Result<(u32, u32, Seq<u8>), DecodeError>) -> Result<
    DecodedModel,
    DecodeError,
> {
    match p {
        Ok(p) => Ok(DecodedModel { width: p.0, height: p.1, frames: seq![(p.2, 0u64)] }),
        Err(e) => Err(e),
    }
}

pub open spec fn outcome(r: Result<Decoded, DecodeError>) -> Result<DecodedModel, DecodeError> {
    match r {
        Ok(d) => Ok(d@),
        Err(e) => Err(e),
    }
}

/// Whether every frame has four bytes for each of its pixels.
pub open spec fn is_whole(d: DecodedModel) -> bool {
    forall|i: int|
        0 <= i < d.frames.len() ==> (#[trigger] d.frames[i]).0.len() == d.width * d.height * 4
}

/// A still image with its longest side capped.
pub fn still_image(w: u32, h: u32, rgba: Vec<u8>, max_side: u32) -> (r: Result<
    Decoded,
    DecodeError,
>)
    requires
        max_side > 0 || (w == 0 && h == 0),
        can_scale(w, h, rgba@.len(), max_side),
    ensures
        outcome(r) == one_frame(scaled(w, h, rgba@, max_side)),
        r matches Ok(d) ==> d.width <= max_side && d.height <= max_side && (rgba@.len() == w * h
            * 4 ==> is_whole(d@)),
{
    match downscale_to_limit(w, h, rgba, max_side) {
        Ok((width, height, pixels)) => {
            let mut frames: Vec<(Vec<u8>, u64)> = Vec::new();
            frames.push((pixels, 0));
            assert(frame_values(frames@) =~= seq![(pixels@, 0u64)]);
            Ok(Decoded { width, height, frames })
        },
        Err(e) => Err(e),
    }
}

/// What a still image comes to that was decoded, or was not.
pub open spec fn shown_still(still: Option<(u32, u32, Seq<u8>)>, max_side: u32) -> Result<
    DecodedModel,
    DecodeError,
> {
    match still {
        Some(p) => if can_scale(p.0, p.1, p.2.len(), max_side) {
            one_frame(scaled(p.0, p.1, p.2, max_side))
        } else {
            Err(DecodeError::TooLarge)
        },
        None => Err(DecodeError::NotAnImage),
    }
}

/// What is shown of a still image that a decoder made this of: its width, its
/// height and its pixels, or None if the data are no image.
pub fn show_still(still: Option<(u32, u32, Vec<u8>)>, max_side: u32) -> (r: Result<
    Decoded,
    DecodeError,
>)
    requires
        max_side > 0,
    ensures
        outcome(r) == shown_still(still_value(still), max_side),
        r matches Ok(d) ==> d.width <= max_side && d.height <= max_side && (still matches Some(p)
            && (p.2@.len() == p.0 * p.1 * 4 ==> is_whole(d@))),
{
    let (w, h, rgba) = match still {
        Some(p) => p,
        None => return Err(DecodeError::NotAnImage),
    };
    assert(0 <= w * h <= 0xffff_ffff * 0xffff_ffff) by (nonlinear_arith)
        requires
            w <= 0xffff_ffff,
            h <= 0xffff_ffff,
    ;
    let fits: bool = w <= max_side && h <= max_side;
    let short: bool = w as u128 * h as u128 * 4 > rgba.len() as u128;
    if fits || w == 0 || h == 0 || short || max_side <= MAX_RESAMPLED_SIDE {
        still_image(w, h, rgba, max_side)
    } else {
        Err(DecodeError::TooLarge)
    }
}

/// Whether data carry the signature of a GIF.
pub open spec fn gif_signature(data: Seq<u8>) -> bool {
    data.len() >= 6 && (data.take(6) == seq![71u8, 73u8, 70u8, 56u8, 57u8, 97u8] || data.take(6)
        == seq![71u8, 73u8, 70u8, 56u8, 55u8, 97u8])
}

/// `image::guess_format`: whether it takes the data for a GIF, which it does by
/// the signature alone.
#[verifier::external_body]
fn is_gif(data: &[u8]) -> (r: bool)
    ensures
        r == gif_signature(data@),
{
    matches!(image::guess_format(data), Ok(image::ImageFormat::Gif))
}

pub open spec fn ceil_div(a: nat, b: nat) -> nat {
    if a % b == 0 {
        a / b
    } else {
        a / b + 1
    }
}

/// Every how many frames one is kept, of an animation of `count` frames.
pub open spec fn frame_step(count: nat) -> nat {
    ceil_div(count, MAX_ANIM_FRAMES as nat)
}

/// The longest side that the kept frames of an animation may have.
pub open spec fn frame_side(cw: u16, ch: u16, count: nat, max_side: u32) -> u32 {
    let kept = ceil_div(count, frame_step(count));
    let longest: nat = if cw >= ch {
        cw as nat
    } else {
        ch as nat
    };
    let side = budgeted_side(longest, ANIM_PIXEL_BUDGET as nat / kept, (cw * ch) as nat);
    if side < 1 || max_side < 1 {
        1
    } else if side < max_side {
        side as u32
    } else {
        max_side
    }
}

/// How an animation of `count` frames on a canvas of the given size is thinned
/// and scaled: every how many frames one is kept, and how long the sides of a
/// kept frame may be.
pub fn plan_gif(cw: u16, ch: u16, count: u64, max_side: u32) -> (r: (u64, u32))
    requires
        count > 0,
    ensures
        r.0 == frame_step(count as nat),
        r.1 == frame_side(cw, ch, count as nat, max_side),
        r.0 > 0,
        r.1 > 0,
{
    let step: u64 = if count % MAX_ANIM_FRAMES == 0 {
        count / MAX_ANIM_FRAMES
    } else {
        count / MAX_ANIM_FRAMES + 1
    };
    let whole: u64 = count / step;
    proof {
        assert(whole <= 256) by (nonlinear_arith)
            requires
                step > 0,
                step * 256 >= count,
                whole == count / step,
        ;
        if whole == 256 {
            assert(count % step == 0) by (nonlinear_arith)
                requires
                    step > 0,
                    step * 256 >= count,
                    count / step == 256,
            ;
        }
        if count % step == 0 {
            assert(whole > 0) by (nonlinear_arith)
                requires
                    step > 0,
                    count > 0,
                    count % step == 0,
                    whole == count / step,
            ;
        }
    }
    let kept: u64 = if count % step == 0 {
        whole
    } else {
        whole + 1
    };
    let longest: u32 = if cw >= ch {
        cw as u32
    } else {
        ch as u32
    };
    let budget: u64 = ANIM_PIXEL_BUDGET / kept;
    assert(0 < budget <= ANIM_PIXEL_BUDGET) by (nonlinear_arith)
        requires
            0 < kept <= 256,
            budget == ANIM_PIXEL_BUDGET / kept,
            ANIM_PIXEL_BUDGET == 67_108_864,
    ;
    assert(0 <= cw * ch <= 0xffff * 0xffff) by (nonlinear_arith)
        requires
            cw <= 0xffff,
            ch <= 0xffff,
    ;
    let side: u32 = budget_side(longest, budget as u32, cw as u32 * ch as u32);
    let capped: u32 = if side < 1 || max_side < 1 {
        1
    } else if side < max_side {
        side
    } else {
        max_side
    };
    (step, capped)
}

/// How long a frame is shown. A delay of 0 means "unspecified"; like other very
/// short ones it is played at 100 milliseconds.
pub open spec fn shown_ms(delay_ms: u32) -> u64 {
    if delay_ms < 10 {
        100
    } else {
        delay_ms as u64
    }
}

pub open spec fn add_ms(a: u64, b: u64) -> u64 {
    if a + b > u64::MAX {
        u64::MAX
    } else {
        (a + b) as u64
    }
}

/// The frames that are kept of `frames`: every `step`-th one, scaled down to
/// `side`, with the screen time of the frames dropped after it. Frames of
/// different sizes are an error.
pub open spec fn kept_frames(frames: Seq<FrameModel>, step: nat, side: u32) -> Result<
    DecodedModel,
    DecodeError,
>
    decreases frames.len(),
{
    if frames.len() == 0 {
        Ok(DecodedModel { width: 0, height: 0, frames: Seq::empty() })
    } else {
        match kept_frames(frames.drop_last(), step, side) {
            Err(e) => Err(e),
            Ok(d) => with_frame(d, frames.last(), (frames.len() - 1) as nat % step == 0, side),
        }
    }
}

/// An animation with one more frame, which is either kept or only adds its
/// screen time to the last kept one.
pub open spec fn with_frame(d: DecodedModel, f: FrameModel, keep: bool, side: u32) -> Result<
    DecodedModel,
    DecodeError,
> {
    if !keep {
        if d.frames.len() == 0 {
            Ok(d)
        } else {
            let last = d.frames.last();
            Ok(
                DecodedModel {
                    frames: d.frames.drop_last().push(
                        (last.0, add_ms(last.1, shown_ms(f.delay_ms))),
                    ),
                    ..d
                },
            )
        }
    } else {
        match scaled(f.width, f.height, f.pixels, side) {
            Err(e) => Err(e),
            Ok((w, h, pixels)) => if d.frames.len() > 0 && (w != d.width || h != d.height) {
                Err(DecodeError::FramesChangeSize)
            } else {
                Ok(
                    DecodedModel {
                        width: w,
                        height: h,
                        frames: d.frames.push((pixels, shown_ms(f.delay_ms))),
                    },
                )
            },
        }
    }
}

/// Add one frame to an animation: keep it, or only add its screen time to the
/// last kept one.
pub fn add_frame(d: Decoded, frame: GifFrame, keep: bool, side: u32) -> (r: Result<
    Decoded,
    DecodeError,
>)
    requires
        side > 0,
        keep ==> can_scale(frame.width, frame.height, frame.pixels@.len(), side),
    ensures
        outcome(r) == with_frame(d@, frame@, keep, side),
        is_whole(d@) && frame.pixels@.len() == frame.width * frame.height * 4 ==> (r matches Ok(n)
            ==> is_whole(n@)),
{
    let ms: u64 = if frame.delay_ms < 10 {
        100
    } else {
        frame.delay_ms as u64
    };
    let mut frames = d.frames;
    let ghost before = frames@;
    if !keep {
        let n: usize = frames.len();
        if n > 0 {
            match frames.pop() {
                Some((pixels, shown)) => {
                    let total: u64 = shown.saturating_add(ms);
                    frames.push((pixels, total));
                    assert(before.last() == (pixels, shown));
                    assert(frame_values(frames@) =~= frame_values(before).drop_last().push(
                        (pixels@, total),
                    ));
                    assert(is_whole(d@) ==> is_whole(
                        (DecodedModel { frames: frame_values(frames@), ..d@ }),
                    )) by {
                        let old_frames = frame_values(before);
                        assert(old_frames[n - 1].0 == pixels@);
                        assert forall|i: int|
                            is_whole(d@) && 0 <= i < n implies (#[trigger] frame_values(
                            frames@,
                        )[i]).0.len() == d.width * d.height * 4 by {
                            assert(old_frames[i].0 == frame_values(frames@)[i].0);
                        }
                    }
                },
                None => {},
            }
        }
        return Ok(Decoded { width: d.width, height: d.height, frames });
    }
    match downscale_to_limit(frame.width, frame.height, frame.pixels, side) {
        Err(e) => Err(e),
        Ok((w, h, pixels)) => {
            if frames.len() > 0 && (w != d.width || h != d.height) {
                return Err(DecodeError::FramesChangeSize);
            }
            frames.push((pixels, ms));
            assert(frame_values(frames@) =~= frame_values(before).push((pixels@, ms)));
            Ok(Decoded { width: w, height: h, frames })
        },
    }
}

/// What is shown of an animation: its announced size and frame count decide how
/// its frames are thinned and scaled.
pub open spec fn gif_of(probe: Option<ProbeModel>, anim: Option<AnimationModel>, max_side: u32) -> Result<
    DecodedModel,
    DecodeError,
> {
    match (probe, anim) {
        (Some(p), anim) => if !p.sound {
            Err(DecodeError::BrokenGif)
        } else if p.frames == 0 {
            Err(DecodeError::NoFrames)
        } else {
            match anim {
                Some(a) => match kept_frames(
                    a.frames,
                    frame_step(p.frames),
                    frame_side(p.width, p.height, p.frames, max_side),
                ) {
                    Err(e) => Err(e),
                    Ok(d) => if !a.sound {
                        Err(DecodeError::BrokenGif)
                    } else if d.frames.len() == 0 {
                        Err(DecodeError::NoFrames)
                    } else {
                        Ok(d)
                    },
                },
                None => Err(DecodeError::BrokenGif),
            }
        },
        (None, _) => Err(DecodeError::BrokenGif),
    }
}

/// The limits that a decoded animation keeps to: the number of its frames, their
/// sides, and the memory that they take together.
pub open spec fn fits_gif_limits(d: DecodedModel, max_side: u32) -> bool {
    let limit: u32 = if max_side < 1 {
        1
    } else {
        max_side
    };
    &&& 1 <= d.frames.len() <= MAX_ANIM_FRAMES
    &&& d.width <= limit
    &&& d.height <= limit
    &&& d.width * d.height * 4 * d.frames.len() <= ANIM_RGBA_BUDGET
}

/// The canvas size and the frame count of an animation, without its pixels.
fn probe_gif(data: &[u8]) -> (r: Option<(u16, u16, u64)>)
    ensures
        (match r {
            Some(p) => probed(data@) matches Some(m) && m.sound && p.0 == m.width && p.1 == m.height
                && p.2 == m.frames,
            None => probed(data@) matches Some(m) ==> !m.sound,
        }),
{
    let mut probe = match open_probe(data) {
        Some(probe) => probe,
        None => return None,
    };
    let ghost m = probe_left(probe);
    let (cw, ch) = probe_size(&probe);
    let bound: usize = data.len();
    let mut count: u64 = 0;
    loop
        invariant
            probed(data@) == Some(m),
            bound == data@.len(),
            m.frames <= bound,
            cw == m.width,
            ch == m.height,
            count + probe_left(probe).frames == m.frames,
            probe_left(probe).sound == m.sound,
        decreases probe_left(probe).frames,
    {
        match probe_next(&mut probe) {
            Some(true) => {
                count = count + 1;
            },
            Some(false) => return Some((cw, ch, count)),
            None => return None,
        }
    }
}

/// Decode an animation's frames, one at a time, so that peak memory is a single
/// full-size frame plus the kept ones, which together keep to the memory budget.
pub fn decode_gif(data: &[u8], max_side: u32) -> (r: Result<Decoded, DecodeError>)
    ensures
        outcome(r) == gif_of(probed(data@), animation(data@), max_side),
        r matches Ok(d) ==> fits_gif_limits(d@, max_side) && is_whole(d@) && (animation(
            data@,
        ) matches Some(a) && (total_shown(a.frames) <= u64::MAX ==> total_ms(d@.frames)
            == total_shown(a.frames))),
{
    let (cw, ch, count): (u16, u16, u64) = match probe_gif(data) {
        Some(p) => p,
        None => return Err(DecodeError::BrokenGif),
    };
    if count == 0 {
        return Err(DecodeError::NoFrames);
    }
    let (step, side) = plan_gif(cw, ch, count, max_side);
    let mut source = match open_frames(data) {
        Some(source) => source,
        None => return Err(DecodeError::BrokenGif),
    };
    let ghost a = frames_left(source);
    let ghost mut done: nat = 0;
    let mut d = Decoded { width: 0, height: 0, frames: Vec::new() };
    assert(frame_values(d.frames@) =~= Seq::<(Seq<u8>, u64)>::empty());
    // How many frames have been read since the last kept one, or 0.
    let mut phase: u64 = 0;
    assert(a.frames.take(0).len() == 0);
    assert(a.frames.skip(0) =~= a.frames);
    proof {
        vstd::arithmetic::div_mod::lemma_small_mod(0, step as nat);
    }
    loop
        invariant
            step > 0,
            side > 0,
            phase < step,
            done <= a.frames.len(),
            phase == done % step as nat,
            frames_left(source) == (AnimationModel { frames: a.frames.skip(done as int), ..a }),
            kept_frames(a.frames.take(done as int), step as nat, side) == Ok::<
                DecodedModel,
                DecodeError,
            >(d@),
            probed(data@) matches Some(p) && p.sound && p.frames == count && frame_step(p.frames)
                == step && frame_side(p.width, p.height, p.frames, max_side) == side,
            count > 0,
            probed(data@).unwrap().width == cw,
            probed(data@).unwrap().height == ch,
            animation(data@) == Some(a),
            is_as_probed(a, probed(data@).unwrap()),
            is_whole(d@),
        decreases frames_left(source).frames.len(),
    {
        match next_frame(&mut source) {
            None => {
                assert(a.frames.take(done as int) =~= a.frames);
                if d.frames.len() == 0 {
                    return Err(DecodeError::NoFrames);
                }
                proof {
                    animation_fits_limits(probed(data@).unwrap(), a, max_side);
                    if total_shown(a.frames) <= u64::MAX {
                        thinning_keeps_screen_time(a.frames, step as nat, side);
                    }
                }
                return Ok(d);
            },
            Some(None) => {
                assert(a.frames.take(done as int) =~= a.frames);
                return Err(DecodeError::BrokenGif);
            },
            Some(Some(frame)) => {
                let ghost upto = a.frames.take(done as int + 1);
                assert(upto.drop_last() =~= a.frames.take(done as int));
                assert(upto.last() == frame@);
                assert(covers_canvas(a.frames[done as int], cw, ch));
                assert(a.frames.skip(done as int).skip(1) =~= a.frames.skip(done as int + 1));
                match add_frame(d, frame, phase == 0, side) {
                    Ok(next) => {
                        d = next;
                    },
                    Err(e) => {
                        proof {
                            kept_error_stays(a.frames, done + 1, step as nat, side);
                        }
                        return Err(e);
                    },
                }
                proof {
                    next_phase(done, step as nat);
                    done = done + 1;
                }
                phase = if phase + 1 == step {
                    0
                } else {
                    phase + 1
                };
            },
        }
    }
}

/// Counting on by one, modulo `step`.
proof fn next_phase(done: nat, step: nat)
    requires
        step > 0,
    ensures
        (done + 1) % step == (if done % step + 1 == step {
            0
        } else {
            done % step + 1
        }),
{
    let r = (done % step) as int;
    vstd::arithmetic::div_mod::lemma_add_mod_noop(done as int, 1, step as int);
    vstd::arithmetic::div_mod::lemma_mod_bound(done as int, step as int);
    if step == 1 {
        vstd::arithmetic::div_mod::lemma_mod_self_0(1);
        assert((done + 1) % 1 == 0);
    } else {
        vstd::arithmetic::div_mod::lemma_small_mod(1, step);
        if r + 1 == step {
            vstd::arithmetic::div_mod::lemma_mod_self_0(step as int);
        } else {
            vstd::arithmetic::div_mod::lemma_small_mod((r + 1) as nat, step);
        }
    }
}

/// An error among the first frames is an error of the whole.
proof fn kept_error_stays(frames: Seq<FrameModel>, n: nat, step: nat, side: u32)
    requires
        n <= frames.len(),
        kept_frames(frames.take(n as int), step, side) is Err,
    ensures
        kept_frames(frames, step, side) == kept_frames(frames.take(n as int), step, side),
    decreases frames.len(),
{
    if n == frames.len() {
        assert(frames.take(n as int) =~= frames);
    } else {
        assert(frames.drop_last().take(n as int) =~= frames.take(n as int));
        kept_error_stays(frames.drop_last(), n, step, side);
    }
}

/// Whether an image's data may decode to `shown`. An animation is shown with all
/// its frames; if it is broken, its first frame is shown as a still. What a still
/// decodes to is the decoder's to say.
pub open spec fn decodes_image(
    data: Seq<u8>,
    max_side: u32,
    shown: Result<DecodedModel, DecodeError>,
) -> bool {
    let gif = gif_of(probed(data), animation(data), max_side);
    if gif_signature(data) && gif is Ok {
        shown == gif
    } else {
        exists|still: Option<(u32, u32, Seq<u8>)>| #[trigger]
            decodes_to(data, still) && shown == shown_still(still, max_side)
    }
}

/// Decode an image file's data to RGBA, with the longest side capped. The format
/// is told by the data and not by the file name.
pub fn decode_from_bytes(data: &[u8], max_side: u32) -> (r: Result<Decoded, DecodeError>)
    requires
        max_side > 0,
    ensures
        decodes_image(data@, max_side, outcome(r)),
        r matches Ok(d) ==> d.width <= max_side && d.height <= max_side && is_whole(d@),
{
    if is_gif(data) {
        if let Ok(d) = decode_gif(data, max_side) {
            return Ok(d);
        }
    }
    show_still(decode_still(data), max_side)
}

/// Whether an image's data may decode to `shown`, with no error told.
pub open spec fn decodes_data(data: Seq<u8>, max_side: u32, shown: Option<DecodedModel>) -> bool {
    exists|r: Result<DecodedModel, DecodeError>| #[trigger]
        decodes_image(data, max_side, r) && is_success(shown, r)
}

/// Whether a PDF page's image may decode to `shown`.
pub open spec fn decodes_page(image: ImageModel, max_side: u32, shown: Option<DecodedModel>) -> bool {
    match image {
        ImageModel::Rgba { width, height, data } => is_success(
            shown,
            shown_still(Some((width, height, data)), max_side),
        ),
        ImageModel::Encoded(data) => decodes_data(data, max_side, shown),
    }
}

/// Whether `shown` is what is left of an outcome when its error is dropped.
pub open spec fn is_success(shown: Option<DecodedModel>, r: Result<DecodedModel, DecodeError>) -> bool {
    match shown {
        Some(d) => r matches Ok(e) && d == e,
        None => r is Err,
    }
}

/// Whether an image that is not encoded has four bytes for each of its pixels.
pub open spec fn is_whole_page(image: ImageModel) -> bool {
    image matches ImageModel::Rgba { width, height, data } ==> data.len() == width * height * 4
}

/// Turn a PDF page's extracted image into a decoded frame. A raw image arrives as
/// ready RGBA; an embedded JPEG still goes through the decoder.
pub fn pdf_decoded(img: PdfImage, max_side: u32) -> (r: Option<Decoded>)
    requires
        max_side > 0,
    ensures
        decodes_page(
            img@,
            max_side,
            (match r {
                Some(d) => Some(d@),
                None => None,
            }),
        ),
        r matches Some(d) ==> d.width <= max_side && d.height <= max_side && (is_whole_page(img@)
            ==> is_whole(d@)),
{
    let shown = match img {
        PdfImage::Rgba { width, height, data } => show_still(
            Some((width, height, data)),
            max_side,
        ),
        PdfImage::Encoded(bytes) => {
            let shown = decode_from_bytes(bytes.as_slice(), max_side);
            assert(decodes_image(bytes@, max_side, outcome(shown)));
            shown
        },
    };
    match shown {
        Ok(d) => Some(d),
        Err(_) => None,
    }
}

/// How long the frames are shown together.
pub open spec fn total_shown(frames: Seq<FrameModel>) -> int
    decreases frames.len(),
{
    if frames.len() == 0 {
        0
    } else {
        total_shown(frames.drop_last()) + shown_ms(frames.last().delay_ms)
    }
}

/// The screen time of decoded frames together.
pub open spec fn total_ms(frames: Seq<(Seq<u8>, u64)>) -> int
    decreases frames.len(),
{
    if frames.len() == 0 {
        0
    } else {
        total_ms(frames.drop_last()) + frames.last().1
    }
}

/// Thinning an animation keeps its length: the screen time of dropped frames
/// stays on the frame kept before them. It keeps one frame in `step`, so at least
/// the first.
pub proof fn thinning_keeps_screen_time(frames: Seq<FrameModel>, step: nat, side: u32)
    requires
        step > 0,
        kept_frames(frames, step, side) is Ok,
        total_shown(frames) <= u64::MAX,
    ensures
        ({
            let d = kept_frames(frames, step, side)->Ok_0;
            &&& total_ms(d.frames) == total_shown(frames)
            &&& d.frames.len() == ceil_div(frames.len(), step)
            &&& frames.len() > 0 ==> d.frames.len() > 0
        }),
    decreases frames.len(),
{
    let d = kept_frames(frames, step, side)->Ok_0;
    if frames.len() == 0 {
        vstd::arithmetic::div_mod::lemma_small_mod(0, step);
        vstd::arithmetic::div_mod::lemma_div_basics(step as int);
    } else {
        let init = frames.drop_last();
        total_shown_is_positive(init);
        thinning_keeps_screen_time(init, step, side);
        let b = kept_frames(init, step, side)->Ok_0;
        next_ceil(init.len(), step);
        if init.len() == 0 {
            vstd::arithmetic::div_mod::lemma_small_mod(0, step);
        }
        if init.len() % step == 0 {
            assert(d.frames.drop_last() =~= b.frames);
        } else {
            assert(d.frames.drop_last() =~= b.frames.drop_last());
            total_ms_bounds(b.frames);
        }
    }
}

proof fn total_shown_is_positive(frames: Seq<FrameModel>)
    ensures
        0 <= total_shown(frames),
    decreases frames.len(),
{
    if frames.len() > 0 {
        total_shown_is_positive(frames.drop_last());
    }
}

proof fn total_ms_bounds(frames: Seq<(Seq<u8>, u64)>)
    ensures
        0 <= total_ms(frames),
        frames.len() > 0 ==> frames.last().1 <= total_ms(frames),
    decreases frames.len(),
{
    if frames.len() > 0 {
        total_ms_bounds(frames.drop_last());
    }
}

/// Counting one more adds one to the rounded-up quotient where a new group of
/// `step` begins.
proof fn next_ceil(n: nat, step: nat)
    requires
        step > 0,
    ensures
        ceil_div(n + 1, step) == ceil_div(n, step) + (if n % step == 0 {
            1nat
        } else {
            0nat
        }),
{
    let q = (n / step) as int;
    let r = (n % step) as int;
    vstd::arithmetic::div_mod::lemma_fundamental_div_mod(n as int, step as int);
    vstd::arithmetic::div_mod::lemma_mod_bound(n as int, step as int);
    if r + 1 == step {
        assert(n + 1 == (q + 1) * step) by (nonlinear_arith)
            requires
                n == step * q + r,
                r + 1 == step,
        ;
        vstd::arithmetic::div_mod::lemma_fundamental_div_mod_converse(
            n as int + 1,
            step as int,
            q + 1,
            0,
        );
    } else {
        assert(n + 1 == q * step + (r + 1)) by (nonlinear_arith)
            requires
                n == step * q + r,
        ;
        vstd::arithmetic::div_mod::lemma_fundamental_div_mod_converse(
            n as int + 1,
            step as int,
            q,
            r + 1,
        );
    }
}

/// Of an animation as long as announced, no more frames are kept than the limit
/// allows.
pub proof fn few_frames_are_kept(count: nat)
    requires
        count > 0,
    ensures
        frame_step(count) > 0,
        1 <= ceil_div(count, frame_step(count)) <= MAX_ANIM_FRAMES,
{
    let step = frame_step(count);
    let q = (count / step) as int;
    let r = (count % step) as int;
    vstd::arithmetic::div_mod::lemma_fundamental_div_mod(count as int, step as int);
    vstd::arithmetic::div_mod::lemma_mod_bound(count as int, step as int);
    assert(q <= 256 && (r > 0 ==> q < 256) && (r == 0 ==> q > 0) && q >= 0) by (nonlinear_arith)
        requires
            step > 0,
            step * 256 >= count,
            count > 0,
            count == step * q + r,
            0 <= r < step,
    ;
}

/// A canvas-sized frame, scaled down as planned, takes no more than an equal
/// share of the pixel budget.
proof fn frame_fits_budget(cw: u16, ch: u16, count: nat, max_side: u32, rgba: Seq<u8>)
    requires
        count > 0,
        scaled(cw as u32, ch as u32, rgba, frame_side(cw, ch, count, max_side)) is Ok,
    ensures
        ({
            let p = scaled(cw as u32, ch as u32, rgba, frame_side(cw, ch, count, max_side))->Ok_0;
            p.0 * p.1 * ceil_div(count, frame_step(count)) <= ANIM_PIXEL_BUDGET
        }),
{
    let side = frame_side(cw, ch, count, max_side);
    let p = scaled(cw as u32, ch as u32, rgba, side)->Ok_0;
    let kept = ceil_div(count, frame_step(count));
    few_frames_are_kept(count);
    let budget = ANIM_PIXEL_BUDGET as nat / kept;
    assert(0x4_0000 <= budget <= 0x400_0000 && budget * kept <= 0x400_0000) by (nonlinear_arith)
        requires
            1 <= kept <= 256,
            budget == 0x400_0000nat / kept,
    ;
    let long: nat = if cw >= ch {
        cw as nat
    } else {
        ch as nat
    };
    let short: nat = if cw >= ch {
        ch as nat
    } else {
        cw as nat
    };
    assert(cw * ch == long * short) by (nonlinear_arith)
        requires
            (long == cw && short == ch) || (long == ch && short == cw),
    ;
    let area = (cw * ch) as nat;
    assert(0 <= area <= 0xffff * 0xffff) by (nonlinear_arith)
        requires
            area == cw * ch,
            cw <= 0xffff,
            ch <= 0xffff,
    ;
    assert(p.0 * p.1 <= budget) by {
        if long <= side {
            if long <= budgeted_side(long, budget, area) {
                if long == 0 {
                    assert(area == 0) by (nonlinear_arith)
                        requires
                            area == long * short,
                            long == 0,
                    ;
                } else {
                    unscaled_area_fits_budget(long, budget, area);
                }
            } else {
                assert(area <= 1) by (nonlinear_arith)
                    requires
                        area == long * short,
                        long <= 1,
                        short <= long,
                ;
            }
        } else {
            scaled_sides_fit_budget(long, short, budget, side as nat);
            assert(p.0 * p.1 == p.1 * p.0) by (nonlinear_arith);
        }
    }
    assert(p.0 * p.1 * kept <= budget * kept) by (nonlinear_arith)
        requires
            0 <= p.0 * p.1 <= budget,
            kept >= 0,
    ;
}

/// The size and the number of the frames that are kept of canvas-sized ones.
proof fn kept_frames_are_alike(frames: Seq<FrameModel>, step: nat, side: u32, w: u32, h: u32)
    requires
        step > 0,
        frames.len() > 0,
        forall|i: int| 0 <= i < frames.len() ==> (#[trigger] frames[i]).width == w
            && frames[i].height == h,
        kept_frames(frames, step, side) is Ok,
    ensures
        ({
            let d = kept_frames(frames, step, side)->Ok_0;
            &&& d.frames.len() == ceil_div(frames.len(), step)
            &&& scaled(w, h, frames[0].pixels, side) matches Ok(p) && p.0 == d.width && p.1
                == d.height
        }),
    decreases frames.len(),
{
    let init = frames.drop_last();
    next_ceil(init.len(), step);
    if init.len() == 0 {
        vstd::arithmetic::div_mod::lemma_small_mod(0, step);
        vstd::arithmetic::div_mod::lemma_div_basics(step as int);
        assert(kept_frames(init, step, side) is Ok);
        assert(ceil_div(0, step) == 0);
    } else {
        assert forall|i: int| 0 <= i < init.len() implies (#[trigger] init[i]).width == w
            && init[i].height == h by {
            assert(init[i] == frames[i]);
        }
        kept_frames_are_alike(init, step, side, w, h);
    }
}

/// More frames are not fewer kept ones.
proof fn ceil_div_is_monotonic(a: nat, b: nat, step: nat)
    requires
        a <= b,
        step > 0,
    ensures
        ceil_div(a, step) <= ceil_div(b, step),
    decreases b - a,
{
    if a < b {
        next_ceil(a, step);
        ceil_div_is_monotonic(a + 1, b, step);
    }
}

/// An animation as announced is decoded to no more than its limits: the number of
/// frames, their sides, and the memory budget at four bytes for each pixel of each
/// frame.
pub proof fn animation_fits_limits(probe: ProbeModel, anim: AnimationModel, max_side: u32)
    requires
        gif_of(Some(probe), Some(anim), max_side) is Ok,
        is_as_probed(anim, probe),
    ensures
        fits_gif_limits(gif_of(Some(probe), Some(anim), max_side)->Ok_0, max_side),
{
    let d = gif_of(Some(probe), Some(anim), max_side)->Ok_0;
    let step = frame_step(probe.frames);
    let side = frame_side(probe.width, probe.height, probe.frames, max_side);
    few_frames_are_kept(probe.frames);
    assert(anim.frames.len() > 0);
    kept_frames_are_alike(anim.frames, step, side, probe.width as u32, probe.height as u32);
    ceil_div_is_monotonic(anim.frames.len(), probe.frames, step);
    frame_fits_budget(
        probe.width,
        probe.height,
        probe.frames,
        max_side,
        anim.frames[0].pixels,
    );
    let kept = ceil_div(probe.frames, step);
    let area = d.width * d.height;
    assert(area * 4 * d.frames.len() <= 4 * (area * kept)) by (nonlinear_arith)
        requires
            area >= 0,
            d.frames.len() <= kept,
    ;
    scaling_fits_limit(probe.width as u32, probe.height as u32, anim.frames[0].pixels, side);
}

/// A scaled image fits its limit, is not larger than before, keeps its aspect ratio
/// up to the rounding of each side, and keeps its pixels if it fits already.
pub proof fn scaling_fits_limit(w: u32, h: u32, rgba: Seq<u8>, limit: u32)
    requires
        limit > 0,
    ensures
        scaled(w, h, rgba, limit) matches Ok(p) ==> p.0 <= limit && p.1 <= limit,
        w > 0 && h > 0 ==> (scaled(w, h, rgba, limit) matches Ok(p) ==> p.0 <= w && p.1 <= h),
        scaled(w, h, rgba, limit) matches Ok(p) ==> p.0 * h <= p.1 * w + w + h && p.1 * w <= p.0 * h
            + w + h,
        w <= limit && h <= limit ==> scaled(w, h, rgba, limit) == Ok::<
            (u32, u32, Seq<u8>),
            DecodeError,
        >((w, h, rgba)),
{
    if w > limit || h > limit {
        let longest: nat = if w >= h {
            w as nat
        } else {
            h as nat
        };
        fitted_side_shrinks(w as nat, limit as nat, longest);
        fitted_side_shrinks(h as nat, limit as nat, longest);
        scaling_keeps_aspect(w as nat, h as nat, limit as nat, longest);
    } else {
        assert(w * h == h * w) by (nonlinear_arith);
    }
}

/// The delays that the file gives for frames, in milliseconds.
pub open spec fn file_delays(frames: Seq<FrameModel>) -> Seq<int> {
    frames.map_values(|f: FrameModel| f.delay_ms as int)
}

/// How long a file's frames are played, in milliseconds: a delay below 10 counts as 100.
pub open spec fn play_times(frames: Seq<FrameModel>) -> Seq<int> {
    frames.map_values(
        |f: FrameModel|
            if f.delay_ms < 10 {
                100int
            } else {
                f.delay_ms as int
            },
    )
}

/// How long decoded frames are shown, in milliseconds.
pub open spec fn screen_times(frames: Seq<(Seq<u8>, u64)>) -> Seq<int> {
    frames.map_values(|f: (Seq<u8>, u64)| f.1 as int)
}

/// A frame that is kept is shown for exactly the delay that the file gives, and only a
/// delay below 10 milliseconds counts as 100. It is added behind the others, which stay
/// as they are.
pub proof fn kept_frame_is_shown_for_its_delay(d: DecodedModel, f: FrameModel, side: u32)
    ensures
        with_frame(d, f, true, side) matches Ok(n) ==> {
            &&& n.frames.len() == d.frames.len() + 1
            &&& forall|i: int| 0 <= i < d.frames.len() ==> n.frames[i] == d.frames[i]
            &&& f.delay_ms >= 10 ==> n.frames.last().1 == f.delay_ms
            &&& f.delay_ms < 10 ==> n.frames.last().1 == 100
            &&& scaled(f.width, f.height, f.pixels, side) matches Ok(p) && p.0 == n.width && p.1
                == n.height && p.2 == n.frames.last().0
            &&& d.frames.len() > 0 ==> n.width == d.width && n.height == d.height
        },
{
}

/// A frame that is dropped adds its time to the one shown before it, and changes
/// nothing else.
pub proof fn dropped_frame_gives_its_time_away(d: DecodedModel, f: FrameModel, side: u32)
    requires
        d.frames.len() > 0,
        d.frames.last().1 + 100 <= u64::MAX,
        d.frames.last().1 + f.delay_ms <= u64::MAX,
    ensures
        with_frame(d, f, false, side) matches Ok(n) && {
            &&& n.width == d.width
            &&& n.height == d.height
            &&& n.frames.len() == d.frames.len()
            &&& forall|i: int| 0 <= i < d.frames.len() - 1 ==> n.frames[i] == d.frames[i]
            &&& n.frames.last().0 == d.frames.last().0
            &&& f.delay_ms >= 10 ==> n.frames.last().1 == d.frames.last().1 + f.delay_ms
            &&& f.delay_ms < 10 ==> n.frames.last().1 == d.frames.last().1 + 100
        },
{
}

/// Thinning keeps the length of an animation: where no delay is below 10 milliseconds,
/// the frames are shown for the plain sum of the file's delays.
pub proof fn screen_time_is_the_file_s(frames: Seq<FrameModel>, step: nat, side: u32)
    requires
        step > 0,
        kept_frames(frames, step, side) is Ok,
        forall|i: int| 0 <= i < frames.len() ==> (#[trigger] frames[i]).delay_ms >= 10,
        sum(file_delays(frames)) <= u64::MAX,
    ensures
        sum(screen_times((kept_frames(frames, step, side)->Ok_0).frames)) == sum(
            file_delays(frames),
        ),
{
    shown_is_sum_of_play_times(frames);
    assert(play_times(frames) =~= file_delays(frames)) by {
        assert forall|i: int| 0 <= i < frames.len() implies play_times(frames)[i] == file_delays(
            frames,
        )[i] by {
            assert(frames[i].delay_ms >= 10);
        }
    }
    thinning_keeps_screen_time(frames, step, side);
    total_is_sum((kept_frames(frames, step, side)->Ok_0).frames);
}

proof fn shown_is_sum_of_play_times(frames: Seq<FrameModel>)
    ensures
        total_shown(frames) == sum(play_times(frames)),
    decreases frames.len(),
{
    if frames.len() > 0 {
        let init = frames.drop_last();
        shown_is_sum_of_play_times(init);
        assert(play_times(frames).drop_last() =~= play_times(init));
        assert(frames[frames.len() - 1] == frames.last());
    }
}

proof fn total_is_sum(frames: Seq<(Seq<u8>, u64)>)
    ensures
        total_ms(frames) == sum(screen_times(frames)),
    decreases frames.len(),
{
    if frames.len() > 0 {
        total_is_sum(frames.drop_last());
        assert(screen_times(frames).drop_last() =~= screen_times(frames.drop_last()));
    }
}

/// Of the frames of an animation the first of every `step` is kept, scaled down as any
/// image is, with the times of the `step` together: kept frame `j` shows frame
/// `j * step`, up to when frame `(j + 1) * step` is due. Where every frame is kept, each
/// has its own delay, and only one below 10 milliseconds counts as 100.
pub proof fn every_step_th_frame_is_kept(frames: Seq<FrameModel>, step: nat, side: u32, j: int)
    requires
        step > 0,
        kept_frames(frames, step, side) is Ok,
        sum(play_times(frames)) <= u64::MAX,
        0 <= j < (kept_frames(frames, step, side)->Ok_0).frames.len(),
    ensures
        ({
            let d = kept_frames(frames, step, side)->Ok_0;
            let at = j * step;
            let end = if at + step <= frames.len() {
                at + step
            } else {
                frames.len() as int
            };
            &&& 0 <= at < end <= frames.len()
            &&& scaled(frames[at].width, frames[at].height, frames[at].pixels, side) matches Ok(p)
                && p.0 == d.width && p.1 == d.height && p.2 == d.frames[j].0
            &&& d.frames[j].1 == sum(play_times(frames.subrange(at, end)))
            &&& step == 1 && frames[j].delay_ms >= 10 ==> d.frames[j].1 == frames[j].delay_ms
            &&& step == 1 && frames[j].delay_ms < 10 ==> d.frames[j].1 == 100
        }),
    decreases frames.len(),
{
    let d = kept_frames(frames, step, side)->Ok_0;
    let n = frames.len() as int;
    shown_is_sum_of_play_times(frames);
    thinning_keeps_screen_time(frames, step, side);
    if n > 0 {
        let init = frames.drop_last();
        let b = kept_frames(init, step, side)->Ok_0;
        assert(frames[n - 1] == frames.last());
        assert(play_times(frames).drop_last() =~= play_times(init));
        shown_is_sum_of_play_times(init);
        thinning_keeps_screen_time(init, step, side);
        total_ms_bounds(b.frames);
        let at = j * step;
        let keep = (n - 1) as nat % step == 0;
        let q = (n - 1) / step as int;
        vstd::arithmetic::div_mod::lemma_fundamental_div_mod(n - 1, step as int);
        vstd::arithmetic::div_mod::lemma_mod_bound(n - 1, step as int);
        assert(step * q == q * step) by (nonlinear_arith);
        if j < b.frames.len() {
            every_step_th_frame_is_kept(init, step, side, j);
            assert(init[at] == frames[at]);
            let e0 = if at + step <= n - 1 {
                at + step
            } else {
                n - 1
            };
            if keep {
                assert(at + step <= n - 1) by (nonlinear_arith)
                    requires
                        at == j * step,
                        n - 1 == q * step,
                        j < q,
                        step > 0,
                ;
                assert(init.subrange(at, e0) =~= frames.subrange(at, e0));
            } else if j < b.frames.len() - 1 {
                assert(b.frames.len() == q + 1);
                assert(at + step <= n - 1) by (nonlinear_arith)
                    requires
                        at == j * step,
                        n - 1 >= q * step,
                        j < q,
                        step > 0,
                ;
                assert(init.subrange(at, e0) =~= frames.subrange(at, e0));
            } else {
                assert(j == q);
                assert(at == q * step);
                assert(e0 == n - 1);
                let now = frames.subrange(at, n);
                assert(at + step >= n);
                assert(play_times(now).drop_last() =~= play_times(init.subrange(at, n - 1)));
                assert(play_times(now).last() == shown_ms(frames.last().delay_ms));
                assert(d.frames[j] == d.frames.last());
                assert(d.frames[j].1 == add_ms(b.frames.last().1, shown_ms(frames.last().delay_ms)));
            }
        } else {
            assert(keep);
            assert(j == b.frames.len());
            assert(j == q);
            assert(at == n - 1);
            let now = frames.subrange(at, n);
            assert(play_times(now).drop_last() =~= Seq::<int>::empty());
            assert(play_times(now).last() == shown_ms(frames.last().delay_ms));
            assert(sum(play_times(now)) == sum(play_times(now).drop_last())
                + shown_ms(frames.last().delay_ms));
        }
        if step == 1 {
            assert(at == j) by (nonlinear_arith)
                requires
                    at == j * step,
                    step == 1,
            ;
            let one = frames.subrange(at, at + 1);
            assert(play_times(one).drop_last() =~= Seq::<int>::empty());
            assert(play_times(one).last() == shown_ms(frames[j].delay_ms));
            assert(sum(play_times(one)) == sum(play_times(one).drop_last()) + shown_ms(
                frames[j].delay_ms,
            ));
        }
    }
}

/// No more frames are dropped than have to be: one in `step` is kept, where `step` is
/// the least for which no more than 256 are. An animation of up to 256 frames keeps them
/// all.
pub proof fn no_frame_is_dropped_needlessly(count: nat)
    requires
        count > 0,
    ensures
        count <= frame_step(count) * 256,
        (frame_step(count) - 1) * 256 < count,
        count <= 256 ==> frame_step(count) == 1,
{
}

/// The frames of an animation are not scaled down where they fit both the texture limit
/// and, together, 67108864 pixels; and where they do not, they are scaled down to the
/// limit, or to about their share of those pixels.
pub proof fn frames_are_not_shrunk_needlessly(cw: u16, ch: u16, count: nat, max_side: u32)
    requires
        count > 0,
        max_side > 0,
    ensures
        ({
            let kept = ceil_div(count, frame_step(count));
            let share = 67_108_864nat / kept;
            let side = frame_side(cw, ch, count, max_side);
            let longest: nat = if cw >= ch {
                cw as nat
            } else {
                ch as nat
            };
            &&& cw * ch <= share && 0 < longest <= max_side ==> side == longest
            &&& cw * ch <= share && longest > max_side ==> side == max_side
            &&& cw * ch > share ==> side == max_side || ((longest * longest) * share) * 1023 <= (((
            side + 1) * (side + 1)) * (cw * ch)) * 1024
        }),
{
    few_frames_are_kept(count);
    let kept = ceil_div(count, frame_step(count));
    let share = 67_108_864nat / kept;
    assert(0x4_0000 <= share <= 0x400_0000) by (nonlinear_arith)
        requires
            1 <= kept <= 256,
            share == 67_108_864nat / kept,
    ;
    let longest: nat = if cw >= ch {
        cw as nat
    } else {
        ch as nat
    };
    let area = (cw * ch) as nat;
    assert(0 <= cw * ch <= 0xffff * 0xffff) by (nonlinear_arith)
        requires
            cw <= 0xffff,
            ch <= 0xffff,
    ;
    if area > share {
        budget_is_used(longest, share, area);
        let side = budgeted_side(longest, share, area);
        if side < 1 {
            assert(((side + 1) * (side + 1)) * area == area) by (nonlinear_arith)
                requires
                    side == 0,
            ;
            assert(((1nat + 1) * (1nat + 1)) * area >= area) by (nonlinear_arith);
        }
    }
}

/// An animation that can be read to its end is shown as an animation, with every frame
/// that is kept: its frames cover the canvas, so they all scale to one size.
pub proof fn sound_animation_is_shown(probe: ProbeModel, anim: AnimationModel, max_side: u32)
    requires
        probe.sound,
        anim.sound,
        0 < anim.frames.len() <= probe.frames,
        forall|i: int|
            0 <= i < anim.frames.len() ==> covers_canvas(
                #[trigger] anim.frames[i],
                probe.width,
                probe.height,
            ),
    ensures
        gif_of(Some(probe), Some(anim), max_side) matches Ok(d) && {
            &&& d == kept_frames(
                anim.frames,
                frame_step(probe.frames),
                frame_side(probe.width, probe.height, probe.frames, max_side),
            )->Ok_0
            &&& d.frames.len() > 0
        },
{
    few_frames_are_kept(probe.frames);
    let step = frame_step(probe.frames);
    let side = frame_side(probe.width, probe.height, probe.frames, max_side);
    canvas_frames_are_kept(anim.frames, step, side, probe.width, probe.height);
    kept_frames_are_alike(anim.frames, step, side, probe.width as u32, probe.height as u32);
    ceil_div_is_monotonic(1, anim.frames.len(), step);
    next_ceil(0, step);
    vstd::arithmetic::div_mod::lemma_small_mod(0, step);
    vstd::arithmetic::div_mod::lemma_div_basics(step as int);
}

proof fn canvas_frames_are_kept(frames: Seq<FrameModel>, step: nat, side: u32, w: u16, h: u16)
    requires
        step > 0,
        side > 0,
        forall|i: int| 0 <= i < frames.len() ==> covers_canvas(#[trigger] frames[i], w, h),
    ensures
        kept_frames(frames, step, side) is Ok,
    decreases frames.len(),
{
    if frames.len() > 0 {
        let init = frames.drop_last();
        assert forall|i: int| 0 <= i < init.len() implies covers_canvas(
            #[trigger] init[i],
            w,
            h,
        ) by {
            assert(init[i] == frames[i]);
        }
        canvas_frames_are_kept(init, step, side, w, h);
        assert(covers_canvas(frames[frames.len() - 1], w, h));
        if init.len() > 0 {
            assert forall|i: int| 0 <= i < init.len() implies (#[trigger] init[i]).width == w
                && init[i].height == h by {
                assert(covers_canvas(init[i], w, h));
            }
            kept_frames_are_alike(init, step, side, w as u32, h as u32);
        }
    }
}

/// An animation that cannot be read to its end, or has no frame, is not shown as one.
pub proof fn broken_animation_is_refused(
    probe: Option<ProbeModel>,
    anim: Option<AnimationModel>,
    max_side: u32,
)
    ensures
        probe is None ==> gif_of(probe, anim, max_side) == Err::<DecodedModel, DecodeError>(
            DecodeError::BrokenGif,
        ),
        probe matches Some(p) && !p.sound ==> gif_of(probe, anim, max_side) == Err::<
            DecodedModel,
            DecodeError,
        >(DecodeError::BrokenGif),
        probe matches Some(p) && p.sound && p.frames == 0 ==> gif_of(probe, anim, max_side) == Err::<
            DecodedModel,
            DecodeError,
        >(DecodeError::NoFrames),
        anim is None ==> gif_of(probe, anim, max_side) is Err,
        anim matches Some(a) && !a.sound ==> gif_of(probe, anim, max_side) is Err,
{
}

/// Data count as a GIF exactly if they begin with `GIF87a` or `GIF89a`.
pub proof fn gif_is_told_by_its_first_bytes(data: Seq<u8>)
    ensures
        gif_signature(data) <==> {
            &&& data.len() >= 6
            &&& data[0] == 71
            &&& data[1] == 73
            &&& data[2] == 70
            &&& data[3] == 56
            &&& data[4] == 55 || data[4] == 57
            &&& data[5] == 97
        },
{
    if data.len() >= 6 {
        let front = data.take(6);
        let new = seq![71u8, 73u8, 70u8, 56u8, 57u8, 97u8];
        let old_one = seq![71u8, 73u8, 70u8, 56u8, 55u8, 97u8];
        if data[0] == 71 && data[1] == 73 && data[2] == 70 && data[3] == 56 && data[5] == 97 {
            if data[4] == 57 {
                assert(front =~= new);
            }
            if data[4] == 55 {
                assert(front =~= old_one);
            }
        }
        if front == new {
            assert(new[4] == front[4]);
        }
        assert(front[0] == data[0] && front[1] == data[1] && front[2] == data[2] && front[3]
            == data[3] && front[4] == data[4] && front[5] == data[5]);
    }
}

/// A still that fits the limit is shown as it is, in one frame that never changes. A
/// larger one is shown in one frame too, resampled so that its longest side meets the
/// limit or falls short of it by one pixel; and the only things that can go wrong are
/// pixels that are missing and limits beyond 1048576.
pub proof fn still_is_shown_as_large_as_allowed(w: u32, h: u32, rgba: Seq<u8>, max_side: u32)
    requires
        max_side > 0,
        w > 0,
        h > 0,
    ensures
        ({
            let shown = shown_still(Some((w, h, rgba)), max_side);
            let fits = w <= max_side && h <= max_side;
            &&& fits ==> (shown matches Ok(d) && d.width == w && d.height == h && d.frames == seq![
                (rgba, 0u64),
            ])
            &&& !fits && rgba.len() < w * h * 4 ==> shown == Err::<DecodedModel, DecodeError>(
                DecodeError::BufferMismatch,
            )
            &&& !fits && rgba.len() >= w * h * 4 && max_side <= 1_048_576 ==> (shown matches Ok(d)
                && {
                let long = if d.width >= d.height {
                    d.width
                } else {
                    d.height
                };
                &&& d.frames.len() == 1
                &&& d.frames[0].1 == 0
                &&& d.frames[0].0 == resized(rgba, w, h, d.width, d.height)
                &&& max_side - 1 <= long <= max_side
                &&& 1 <= d.width <= w
                &&& 1 <= d.height <= h
                &&& d.width * h <= d.height * w + w + h
                &&& d.height * w <= d.width * h + w + h
            })
        }),
{
    let longest: nat = if w >= h {
        w as nat
    } else {
        h as nat
    };
    scaling_fits_limit(w, h, rgba, max_side);
    if w > max_side || h > max_side {
        longest_side_meets_limit(max_side as nat, longest);
        fitted_side_shrinks(w as nat, max_side as nat, longest);
        fitted_side_shrinks(h as nat, max_side as nat, longest);
    }
}

/// What is not an image is reported as such.
pub proof fn no_still_is_no_image(max_side: u32)
    ensures
        shown_still(None, max_side) == Err::<DecodedModel, DecodeError>(DecodeError::NotAnImage),
{
}

/// An image is decoded as an animation if it is a GIF that can be shown as one, and as
/// what the still decoder makes of it in every other case; the limit holds in both.
pub proof fn animations_come_before_stills(
    data: Seq<u8>,
    max_side: u32,
    shown: Result<DecodedModel, DecodeError>,
)
    requires
        decodes_image(data, max_side, shown),
    ensures
        data.len() >= 6 && data[0] == 71 && data[1] == 73 && data[2] == 70 && data[3] == 56 && (
        data[4] == 55 || data[4] == 57) && data[5] == 97 && gif_of(
            probed(data),
            animation(data),
            max_side,
        ) is Ok ==> shown == gif_of(probed(data), animation(data), max_side),
        data.len() > 0 && data[0] != 71 ==> exists|still: Option<(u32, u32, Seq<u8>)>| #[trigger]
            decodes_to(data, still) && shown == shown_still(still, max_side),
        gif_of(probed(data), animation(data), max_side) is Err ==> exists|
            still: Option<(u32, u32, Seq<u8>)>,
        | #[trigger]
            decodes_to(data, still) && shown == shown_still(still, max_side),
{
    gif_is_told_by_its_first_bytes(data);
}

/// A page's raw image is shown as a still of its pixels, and nothing is shown of one that
/// cannot be.
pub proof fn raw_page_is_shown_as_a_still(
    width: u32,
    height: u32,
    data: Seq<u8>,
    max_side: u32,
    shown: Option<DecodedModel>,
)
    requires
        decodes_page(ImageModel::Rgba { width, height, data }, max_side, shown),
    ensures
        shown matches Some(d) ==> shown_still(Some((width, height, data)), max_side) == Ok::<
            DecodedModel,
            DecodeError,
        >(d),
        shown is None ==> shown_still(Some((width, height, data)), max_side) is Err,
        width <= max_side && height <= max_side ==> (shown matches Some(d) && d.width == width
            && d.height == height && d.frames == seq![(data, 0u64)]),
{
}

/// What is shown of some data is its image, if it decodes to one; an error shows nothing.
pub proof fn only_images_are_shown(data: Seq<u8>, max_side: u32, d: DecodedModel)
    ensures
        decodes_data(data, max_side, Some(d)) <==> decodes_image(data, max_side, Ok(d)),
        decodes_data(data, max_side, None) <==> exists|e: DecodeError| #[trigger]
            decodes_image(data, max_side, Err(e)),
        decodes_page(ImageModel::Encoded(data), max_side, Some(d)) <==> decodes_data(
            data,
            max_side,
            Some(d),
        ),
        decodes_page(ImageModel::Encoded(data), max_side, None) <==> decodes_data(
            data,
            max_side,
            None,
        ),
{
    if decodes_image(data, max_side, Ok(d)) {
        assert(is_success(Some(d), Ok(d)));
    }
    if exists|e: DecodeError| #[trigger] decodes_image(data, max_side, Err(e)) {
        let e = choose|e: DecodeError| #[trigger] decodes_image(data, max_side, Err(e));
        let r = Err::<DecodedModel, DecodeError>(e);
        assert(decodes_image(data, max_side, r) && is_success(None, r));
    }
    if decodes_data(data, max_side, None) {
        let r = choose|r: Result<DecodedModel, DecodeError>| #[trigger]
            decodes_image(data, max_side, r) && is_success(None, r);
        let e = r->Err_0;
        assert(decodes_image(data, max_side, Err(e)));
    }
}

} // verus!
