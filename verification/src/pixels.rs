//! Expanding raw image samples to packed RGBA8.

use vstd::prelude::*;

verus! {

/// A PDF colour space, reduced to what is needed to expand samples to RGB.
pub enum ColorSpace {
    Gray,
    Rgb,
    Cmyk,
    /// A palette: the component count of its base space and the packed table.
    Indexed { base: usize, palette: Vec<u8> },
}

/// The same, over mathematical values.
pub enum ColorModel {
    Gray,
    Rgb,
    Cmyk,
    Indexed { base: nat, palette: Seq<u8> },
}

impl View for ColorSpace {
    type V = ColorModel;

    open spec fn view(&self) -> ColorModel {
        match self {
            ColorSpace::Gray => ColorModel::Gray,
            ColorSpace::Rgb => ColorModel::Rgb,
            ColorSpace::Cmyk => ColorModel::Cmyk,
            ColorSpace::Indexed { base, palette } => ColorModel::Indexed {
                base: *base as nat,
                palette: palette@,
            },
        }
    }
}

impl ColorModel {
    /// The number of components per pixel.
    pub open spec fn component_count(self) -> nat {
        match self {
            ColorModel::Gray => 1,
            ColorModel::Indexed { .. } => 1,
            ColorModel::Rgb => 3,
            ColorModel::Cmyk => 4,
        }
    }

    /// A palette's base space has one, three or four components.
    pub open spec fn wf(self) -> bool {
        match self {
            ColorModel::Indexed { base, .. } => base == 1 || base == 3 || base == 4,
            _ => true,
        }
    }
}

/// One colour channel of a multiplicative CMYK to RGB conversion.
pub open spec fn ink_channel(c: u8, k: u8) -> u8 {
    ((255 - c) * (255 - k) / 255) as u8
}

/// The palette byte at `at`; past the end of the table it reads as 0.
pub open spec fn palette_byte(palette: Seq<u8>, at: int) -> u8 {
    if 0 <= at < palette.len() {
        palette[at]
    } else {
        0
    }
}

/// The colour of palette entry `index`.
pub open spec fn palette_rgb(index: int, base: nat, palette: Seq<u8>) -> (u8, u8, u8) {
    let at = index * base;
    if base == 1 {
        let g = palette_byte(palette, at);
        (g, g, g)
    } else if base == 4 {
        let k = palette_byte(palette, at + 3);
        (
            ink_channel(palette_byte(palette, at), k),
            ink_channel(palette_byte(palette, at + 1), k),
            ink_channel(palette_byte(palette, at + 2), k),
        )
    } else {
        (
            palette_byte(palette, at),
            palette_byte(palette, at + 1),
            palette_byte(palette, at + 2),
        )
    }
}

/// The bytes of one row of 1-bit samples, which is padded to a whole byte.
pub open spec fn bit_stride(w: nat) -> nat {
    if w % 8 == 0 {
        w / 8
    } else {
        w / 8 + 1
    }
}

/// Bit `x` of a row of 1-bit samples, counted from the most significant bit.
pub open spec fn bit_set(byte: u8, x: int) -> bool {
    (byte >> ((7 - x % 8) as u8)) & 1u8 == 1u8
}

/// How many sample bytes an image takes; None for a layout that is not handled.
pub open spec fn bytes_needed(w: nat, h: nat, bpc: int, cs: ColorModel) -> Option<nat> {
    if bpc == 8 {
        match cs {
            ColorModel::Gray => Some(w * h),
            ColorModel::Rgb => Some(w * h * 3),
            ColorModel::Cmyk => Some(w * h * 4),
            ColorModel::Indexed { .. } => Some(w * h),
        }
    } else if bpc == 1 && cs is Gray {
        Some(bit_stride(w) * h)
    } else {
        None
    }
}

/// The colour of pixel `i`, counted row by row from the top left.
pub open spec fn pixel_rgb(raw: Seq<u8>, w: nat, bpc: int, cs: ColorModel, i: int) -> (u8, u8, u8) {
    if bpc == 1 {
        let v: u8 = if bit_set(
            raw[(i / w as int) * bit_stride(w) + (i % w as int) / 8],
            i % w as int,
        ) {
            255
        } else {
            0
        };
        (v, v, v)
    } else {
        match cs {
            ColorModel::Gray => (raw[i], raw[i], raw[i]),
            ColorModel::Rgb => (raw[i * 3], raw[i * 3 + 1], raw[i * 3 + 2]),
            ColorModel::Cmyk => (
                ink_channel(raw[i * 4], raw[i * 4 + 3]),
                ink_channel(raw[i * 4 + 1], raw[i * 4 + 3]),
                ink_channel(raw[i * 4 + 2], raw[i * 4 + 3]),
            ),
            ColorModel::Indexed { base, palette } => palette_rgb(raw[i] as int, base, palette),
        }
    }
}

/// Byte `k` of the packed image: red, green, blue, and an opaque alpha.
pub open spec fn rgba_byte(raw: Seq<u8>, w: nat, bpc: int, cs: ColorModel, k: int) -> u8 {
    let p = pixel_rgb(raw, w, bpc, cs, k / 4);
    if k % 4 == 0 {
        p.0
    } else if k % 4 == 1 {
        p.1
    } else if k % 4 == 2 {
        p.2
    } else {
        255
    }
}

/// The packed RGBA image.
pub open spec fn rgba(raw: Seq<u8>, w: nat, h: nat, bpc: int, cs: ColorModel) -> Seq<u8> {
    Seq::new(w * h * 4, |k: int| rgba_byte(raw, w, bpc, cs, k))
}

/// What a raw image expands to: nothing if the packed image is too large to
/// address, the layout is not handled, or there are too few samples.
pub open spec fn expanded(raw: Seq<u8>, w: nat, h: nat, bpc: int, cs: ColorModel) -> Option<
    Seq<u8>,
> {
    match bytes_needed(w, h, bpc, cs) {
        Some(n) => if w * h * 4 <= usize::MAX && raw.len() >= n {
            Some(rgba(raw, w, h, bpc, cs))
        } else {
            None
        },
        None => None,
    }
}

/// An expanded image has four bytes for each pixel, and every pixel is opaque.
pub proof fn expanded_pixels_are_opaque(
    raw: Seq<u8>,
    w: nat,
    h: nat,
    bpc: int,
    cs: ColorModel,
    pixel: int,
)
    requires
        expanded(raw, w, h, bpc, cs) is Some,
        0 <= pixel < w * h,
    ensures
        expanded(raw, w, h, bpc, cs).unwrap().len() == w * h * 4,
        expanded(raw, w, h, bpc, cs).unwrap()[pixel * 4 + 3] == 255,
{
}

/// The number of components per pixel.
pub fn components(cs: &ColorSpace) -> (r: usize)
    ensures
        r == cs@.component_count(),
{
    match cs {
        ColorSpace::Gray => 1,
        ColorSpace::Indexed { .. } => 1,
        ColorSpace::Rgb => 3,
        ColorSpace::Cmyk => 4,
    }
}

/// Naive multiplicative CMYK to RGB: enough for the greyscale-plus-tint scans
/// this path sees, without colour management.
pub fn cmyk_to_rgb(c: u8, k: u8) -> (r: u8)
    ensures
        r == ink_channel(c, k),
{
    let a: u32 = 255 - c as u32;
    let b: u32 = 255 - k as u32;
    assert(0 <= a * b <= 255 * 255) by (nonlinear_arith)
        requires
            a <= 255,
            b <= 255,
    ;
    (a * b / 255) as u8
}

fn read_palette(palette: &Vec<u8>, at: usize) -> (r: u8)
    ensures
        r == palette_byte(palette@, at as int),
{
    if at < palette.len() {
        palette[at]
    } else {
        0
    }
}

/// Write the colour of palette entry `index` to `out[o..o + 3]`.
pub fn write_palette(out: &mut Vec<u8>, o: usize, index: usize, base: usize, palette: &Vec<u8>)
    requires
        o + 3 <= old(out)@.len(),
        index * base + 3 <= usize::MAX,
    ensures
        ({
            let p = palette_rgb(index as int, base as nat, palette@);
            final(out)@ == old(out)@.update(o as int, p.0).update(o + 1, p.1).update(o + 2, p.2)
        }),
{
    let at: usize = index * base;
    let len: usize = out.len();
    assert(o + 3 <= len);
    if base == 1 {
        let g: u8 = read_palette(palette, at);
        out.set(o, g);
        out.set(o + 1, g);
        out.set(o + 2, g);
    } else if base == 4 {
        let c: u8 = read_palette(palette, at);
        let m: u8 = read_palette(palette, at + 1);
        let y: u8 = read_palette(palette, at + 2);
        let k: u8 = read_palette(palette, at + 3);
        out.set(o, cmyk_to_rgb(c, k));
        out.set(o + 1, cmyk_to_rgb(m, k));
        out.set(o + 2, cmyk_to_rgb(y, k));
    } else {
        out.set(o, read_palette(palette, at));
        out.set(o + 1, read_palette(palette, at + 1));
        out.set(o + 2, read_palette(palette, at + 2));
    }
}

/// Row and column of pixel `i` of an image of width `w`, and where its bit lies
/// among the samples.
proof fn bit_position(w: nat, h: nat, i: int)
    requires
        0 <= i < w * h,
    ensures
        0 <= i / w as int,
        i / (w as int) < h,
        0 <= i % w as int,
        i % (w as int) < w,
        0 <= (i / w as int) * bit_stride(w),
        (i / w as int) * bit_stride(w) + (i % w as int) / 8 < bit_stride(w) * h,
{
    assert(w > 0) by (nonlinear_arith)
        requires
            i < w * h,
            0 <= i,
            0 <= w,
    ;
    let y = i / w as int;
    let x = i % w as int;
    vstd::arithmetic::div_mod::lemma_fundamental_div_mod(i, w as int);
    assert(0 <= x < w && 0 <= y) by (nonlinear_arith)
        requires
            w > 0,
            0 <= i,
            y == i / w as int,
            x == i % w as int,
    ;
    assert(y < h) by (nonlinear_arith)
        requires
            i == w * y + x,
            i < w * h,
            0 <= x,
            w > 0,
    ;
    let s = bit_stride(w) as int;
    assert(x / 8 < s);
    assert(y * s + x / 8 < s * h) by (nonlinear_arith)
        requires
            0 <= y < h,
            x / 8 < s,
            0 <= s,
    ;
    assert(0 <= y * s) by (nonlinear_arith)
        requires
            0 <= y,
            0 <= s,
    ;
}

/// The pixel's four bytes complete the image by one pixel.
proof fn one_more_pixel(out: Seq<u8>, raw: Seq<u8>, w: nat, h: nat, bpc: int, cs: ColorModel, i: int)
    requires
        0 <= i < w * h,
        out == rgba(raw, w, h, bpc, cs).take(i * 4),
    ensures
        ({
            let p = pixel_rgb(raw, w, bpc, cs, i);
            out.push(p.0).push(p.1).push(p.2).push(255) == rgba(raw, w, h, bpc, cs).take(
                (i + 1) * 4,
            )
        }),
{
    let p = pixel_rgb(raw, w, bpc, cs, i);
    let now = out.push(p.0).push(p.1).push(p.2).push(255);
    let all = rgba(raw, w, h, bpc, cs);
    assert(all.len() == w * h * 4);
    assert forall|k: int| 0 <= k < now.len() implies now[k] == all.take((i + 1) * 4)[k] by {
        assert(all[k] == rgba_byte(raw, w, bpc, cs, k));
        if k < i * 4 {
            assert(now[k] == out[k]);
        } else {
            assert(k / 4 == i);
        }
    }
    assert(now =~= all.take((i + 1) * 4));
}

/// Expand raw image samples to packed RGBA8 with opaque alpha, the layout that
/// is uploaded as a texture. Only the sample layouts that scanned and exported
/// PDFs use are handled: 8-bit for every colour space, and 1-bit greyscale.
pub fn samples_to_rgba(raw: &[u8], width: u32, height: u32, bpc: i64, cs: &ColorSpace) -> (r:
    Option<Vec<u8>>)
    requires
        cs@.wf(),
    ensures
        (match r {
            Some(out) => expanded(raw@, width as nat, height as nat, bpc as int, cs@) == Some(out@),
            None => expanded(raw@, width as nat, height as nat, bpc as int, cs@) is None,
        }),
{
    let w: usize = width as usize;
    let h: usize = height as usize;
    let ghost (gw, gh) = (w as nat, h as nat);
    assert(0 <= gw * gh) by (nonlinear_arith);
    let px: usize = match w.checked_mul(h) {
        Some(px) => px,
        None => return None,
    };
    let total: usize = match px.checked_mul(4) {
        Some(n) => n,
        None => return None,
    };
    let ghost all = rgba(raw@, gw, gh, bpc as int, cs@);
    let mut out: Vec<u8> = Vec::new();
    assert(out@ =~= all.take(0));
    match (bpc, cs) {
        (8, ColorSpace::Gray) => {
            if raw.len() < px {
                return None;
            }
            for i in 0..px
                invariant
                    px == gw * gh,
                    px <= raw@.len(),
                    bpc == 8,
                    cs@ == ColorModel::Gray,
                    all == rgba(raw@, gw, gh, bpc as int, cs@),
                    out@ == all.take(i * 4),
            {
                let g: u8 = raw[i];
                proof {
                    one_more_pixel(out@, raw@, gw, gh, bpc as int, cs@, i as int);
                }
                out.push(g);
                out.push(g);
                out.push(g);
                out.push(255);
            }
        },
        (8, ColorSpace::Rgb) => {
            if raw.len() < px * 3 {
                return None;
            }
            for i in 0..px
                invariant
                    px == gw * gh,
                    px * 4 <= usize::MAX,
                    px * 3 <= raw@.len(),
                    bpc == 8,
                    cs@ == ColorModel::Rgb,
                    all == rgba(raw@, gw, gh, bpc as int, cs@),
                    out@ == all.take(i * 4),
            {
                proof {
                    one_more_pixel(out@, raw@, gw, gh, bpc as int, cs@, i as int);
                }
                out.push(raw[i * 3]);
                out.push(raw[i * 3 + 1]);
                out.push(raw[i * 3 + 2]);
                out.push(255);
            }
        },
        (8, ColorSpace::Cmyk) => {
            if raw.len() < px * 4 {
                return None;
            }
            for i in 0..px
                invariant
                    px == gw * gh,
                    px * 4 <= usize::MAX,
                    px * 4 <= raw@.len(),
                    bpc == 8,
                    cs@ == ColorModel::Cmyk,
                    all == rgba(raw@, gw, gh, bpc as int, cs@),
                    out@ == all.take(i * 4),
            {
                proof {
                    one_more_pixel(out@, raw@, gw, gh, bpc as int, cs@, i as int);
                }
                let k: u8 = raw[i * 4 + 3];
                out.push(cmyk_to_rgb(raw[i * 4], k));
                out.push(cmyk_to_rgb(raw[i * 4 + 1], k));
                out.push(cmyk_to_rgb(raw[i * 4 + 2], k));
                out.push(255);
            }
        },
        (8, ColorSpace::Indexed { base, palette }) => {
            if raw.len() < px {
                return None;
            }
            for i in 0..px
                invariant
                    px == gw * gh,
                    px * 4 <= usize::MAX,
                    px <= raw@.len(),
                    bpc == 8,
                    cs@ == (ColorModel::Indexed { base: *base as nat, palette: palette@ }),
                    cs@.wf(),
                    all == rgba(raw@, gw, gh, bpc as int, cs@),
                    out@ == all.take(i * 4),
            {
                proof {
                    one_more_pixel(out@, raw@, gw, gh, bpc as int, cs@, i as int);
                }
                let ghost before = out@;
                let index: usize = raw[i] as usize;
                let o: usize = out.len();
                out.push(0);
                out.push(0);
                out.push(0);
                out.push(255);
                assert(index * *base <= 255 * 4) by (nonlinear_arith)
                    requires
                        index <= 255,
                        *base <= 4,
                ;
                write_palette(&mut out, o, index, *base, palette);
                let ghost p = palette_rgb(index as int, *base as nat, palette@);
                assert(out@ =~= before.push(p.0).push(p.1).push(p.2).push(255));
            }
        },
        (1, ColorSpace::Gray) => {
            let stride: usize = if w % 8 == 0 {
                w / 8
            } else {
                w / 8 + 1
            };
            assert(stride * h <= px) by (nonlinear_arith)
                requires
                    px == w * h,
                    0 <= stride <= w,
                    0 <= h,
            ;
            let len: usize = raw.len();
            if len < stride * h {
                return None;
            }
            for i in 0..px
                invariant
                    px == gw * gh,
                    px * 4 <= usize::MAX,
                    w == gw,
                    stride == bit_stride(gw),
                    stride * gh <= raw@.len(),
                    len == raw@.len(),
                    bpc == 1,
                    cs@ == ColorModel::Gray,
                    all == rgba(raw@, gw, gh, bpc as int, cs@),
                    out@ == all.take(i * 4),
            {
                proof {
                    one_more_pixel(out@, raw@, gw, gh, bpc as int, cs@, i as int);
                    bit_position(gw, gh, i as int);
                }
                let y: usize = i / w;
                let x: usize = i % w;
                assert(0 <= y * stride);
                assert(y * stride + x / 8 < len);
                let byte: u8 = raw[y * stride + x / 8];
                let bit: u8 = (byte >> ((7 - (x % 8)) as u8)) & 1;
                let v: u8 = if bit == 1 {
                    255
                } else {
                    0
                };
                out.push(v);
                out.push(v);
                out.push(v);
                out.push(255);
            }
        },
        _ => return None,
    }
    assert(out@ =~= all);
    Some(out)
}

/// An image can be expanded exactly if its packed form can be addressed and its
/// samples are there: one, three or four bytes for each pixel at 8 bits, and for 1-bit
/// greyscale a bit for each, in rows of whole bytes. There is no other layout.
pub proof fn expansion_needs_all_samples(raw: Seq<u8>, w: nat, h: nat, bpc: int, cs: ColorModel)
    ensures
        expanded(raw, w, h, bpc, cs) is Some <==> {
            let per_pixel: nat = match cs {
                ColorModel::Rgb => 3,
                ColorModel::Cmyk => 4,
                _ => 1,
            };
            &&& w * h * 4 <= usize::MAX
            &&& (bpc == 8 && raw.len() >= w * h * per_pixel) || (bpc == 1 && cs is Gray && raw.len()
                >= ((w + 7) / 8) * h)
        },
{
    assert(w * h * 1 == w * h) by (nonlinear_arith);
    assert(bit_stride(w) == (w + 7) / 8);
}

/// Every pixel is determined by its own samples: two 8-bit images of the same colour
/// space that agree on the samples of a pixel agree on its colour, whatever the other
/// pixels are.
pub proof fn pixel_depends_on_its_own_samples(
    a: Seq<u8>,
    b: Seq<u8>,
    w: nat,
    h: nat,
    cs: ColorModel,
    i: int,
)
    requires
        expanded(a, w, h, 8, cs) is Some,
        expanded(b, w, h, 8, cs) is Some,
        0 <= i < w * h,
        ({
            let n: int = match cs {
                ColorModel::Rgb => 3,
                ColorModel::Cmyk => 4,
                _ => 1,
            };
            forall|k: int| i * n <= k < i * n + n ==> a[k] == b[k]
        }),
    ensures
        forall|k: int|
            i * 4 <= k < i * 4 + 4 ==> #[trigger] expanded(a, w, h, 8, cs).unwrap()[k] == expanded(
                b,
                w,
                h,
                8,
                cs,
            ).unwrap()[k],
{
    assert forall|k: int| i * 4 <= k < i * 4 + 4 implies #[trigger] expanded(
        a,
        w,
        h,
        8,
        cs,
    ).unwrap()[k] == expanded(b, w, h, 8, cs).unwrap()[k] by {
        assert(k / 4 == i);
    }
}

/// A greyscale pixel has its sample as all three of its channels, and an RGB pixel its
/// three samples.
pub proof fn gray_and_rgb_samples_are_channels(raw: Seq<u8>, w: nat, h: nat, i: int)
    requires
        0 <= i < w * h,
    ensures
        expanded(raw, w, h, 8, ColorModel::Gray) matches Some(out) ==> {
            &&& out[i * 4] == raw[i]
            &&& out[i * 4 + 1] == raw[i]
            &&& out[i * 4 + 2] == raw[i]
        },
        expanded(raw, w, h, 8, ColorModel::Rgb) matches Some(out) ==> {
            &&& out[i * 4] == raw[i * 3]
            &&& out[i * 4 + 1] == raw[i * 3 + 1]
            &&& out[i * 4 + 2] == raw[i * 3 + 2]
        },
{
    channel_places(i);
}

proof fn channel_places(i: int)
    ensures
        i * 4 / 4 == i && i * 4 % 4 == 0,
        (i * 4 + 1) / 4 == i && (i * 4 + 1) % 4 == 1,
        (i * 4 + 2) / 4 == i && (i * 4 + 2) % 4 == 2,
        (i * 4 + 3) / 4 == i && (i * 4 + 3) % 4 == 3,
{
}

/// What is left of a channel's light under two inks: the exact share, rounded down.
pub open spec fn is_light_left(v: u8, ink: u8, black: u8) -> bool {
    v * 255 <= (255 - ink) * (255 - black) < (v + 1) * 255
}

/// Ink takes away light: no ink leaves all of it, a full ink or full black none, and
/// more ink never leaves more.
pub proof fn ink_takes_away_light(ink: u8, black: u8, more: u8)
    requires
        ink <= more,
    ensures
        is_light_left(ink_channel(ink, black), ink, black),
        ink_channel(0, 0) == 255,
        ink_channel(255, black) == 0,
        ink_channel(ink, 255) == 0,
        ink_channel(ink, 0) == 255 - ink,
        ink_channel(more, black) <= ink_channel(ink, black),
        ink_channel(black, more) <= ink_channel(black, ink),
{
    ink_is_exact(ink, black);
    ink_is_exact(more, black);
    ink_is_exact(black, ink);
    ink_is_exact(black, more);
    ink_is_exact(0, 0);
    ink_is_exact(255, black);
    ink_is_exact(ink, 255);
    ink_is_exact(ink, 0);
    assert((255 - more) * (255 - black) <= (255 - ink) * (255 - black)) by (nonlinear_arith)
        requires
            ink <= more,
            black <= 255,
    ;
    assert((255 - black) * (255 - more) <= (255 - black) * (255 - ink)) by (nonlinear_arith)
        requires
            ink <= more,
            black <= 255,
    ;
    assert((255 - 255) * (255 - black) == 0) by (nonlinear_arith);
}

proof fn ink_is_exact(ink: u8, black: u8)
    ensures
        is_light_left(ink_channel(ink, black), ink, black),
{
    let p = (255 - ink) * (255 - black);
    assert(0 <= p <= 255 * 255) by (nonlinear_arith)
        requires
            p == (255 - ink) * (255 - black),
            ink <= 255,
            black <= 255,
    ;
}

/// Each channel of a CMYK pixel is what its own ink and its own black leave of the
/// light: full black comes out black, no ink at all white, whatever the other pixels
/// are.
pub proof fn cmyk_pixel_is_its_own_inks(raw: Seq<u8>, w: nat, h: nat, i: int)
    requires
        expanded(raw, w, h, 8, ColorModel::Cmyk) is Some,
        0 <= i < w * h,
    ensures
        ({
            let out = expanded(raw, w, h, 8, ColorModel::Cmyk).unwrap();
            let black = raw[i * 4 + 3];
            &&& is_light_left(out[i * 4], raw[i * 4], black)
            &&& is_light_left(out[i * 4 + 1], raw[i * 4 + 1], black)
            &&& is_light_left(out[i * 4 + 2], raw[i * 4 + 2], black)
            &&& black == 255 ==> out[i * 4] == 0 && out[i * 4 + 1] == 0 && out[i * 4 + 2] == 0
            &&& black == 0 && raw[i * 4] == 0 ==> out[i * 4] == 255
            &&& black == 0 && raw[i * 4 + 1] == 0 ==> out[i * 4 + 1] == 255
            &&& black == 0 && raw[i * 4 + 2] == 0 ==> out[i * 4 + 2] == 255
        }),
{
    channel_places(i);
    let black = raw[i * 4 + 3];
    ink_is_exact(raw[i * 4], black);
    ink_is_exact(raw[i * 4 + 1], black);
    ink_is_exact(raw[i * 4 + 2], black);
    if black == 255 {
        ink_takes_away_light(raw[i * 4], 255, 255);
        ink_takes_away_light(raw[i * 4 + 1], 255, 255);
        ink_takes_away_light(raw[i * 4 + 2], 255, 255);
    }
    ink_takes_away_light(0, 0, 0);
}

/// The sample of an indexed pixel selects an entry of the table; what lies past the
/// table's end reads as 0. An entry is a grey, three channels, or four inks.
pub proof fn indexed_pixel_is_its_table_entry(
    raw: Seq<u8>,
    w: nat,
    h: nat,
    base: nat,
    palette: Seq<u8>,
    i: int,
)
    requires
        expanded(raw, w, h, 8, ColorModel::Indexed { base, palette }) is Some,
        0 <= i < w * h,
        base == 1 || base == 3 || base == 4,
    ensures
        ({
            let out = expanded(raw, w, h, 8, ColorModel::Indexed { base, palette }).unwrap();
            let at = raw[i] * base;
            let (x, y, z) = (out[i * 4], out[i * 4 + 1], out[i * 4 + 2]);
            &&& base == 1 ==> x == y && y == z && x == (if at < palette.len() {
                palette[at]
            } else {
                0
            })
            &&& base == 3 && at + 2 < palette.len() ==> x == palette[at] && y == palette[at + 1]
                && z == palette[at + 2]
            &&& base == 3 && at >= palette.len() ==> x == 0 && y == 0 && z == 0
            &&& base == 3 && at + 1 == palette.len() ==> x == palette[at] && y == 0 && z == 0
            &&& base == 3 && at + 2 == palette.len() ==> x == palette[at] && y == palette[at + 1]
                && z == 0
            &&& base == 4 && at + 3 < palette.len() ==> is_light_left(
                x,
                palette[at],
                palette[at + 3],
            ) && is_light_left(y, palette[at + 1], palette[at + 3]) && is_light_left(
                z,
                palette[at + 2],
                palette[at + 3],
            )
            &&& base == 4 && at >= palette.len() ==> x == 255 && y == 255 && z == 255
        }),
{
    channel_places(i);
    let at = raw[i] * base;
    assert(at >= 0) by (nonlinear_arith)
        requires
            at == raw[i] * base,
    ;
    assert(raw[i] as int * base == at);
    if base == 4 && at + 3 < palette.len() {
        ink_is_exact(palette[at], palette[at + 3]);
        ink_is_exact(palette[at + 1], palette[at + 3]);
        ink_is_exact(palette[at + 2], palette[at + 3]);
    }
    ink_takes_away_light(0, 0, 0);
}

/// The pixel in column `x` and row `y` of a 1-bit image is white exactly if its bit is
/// set: rows start at whole bytes, and the leftmost pixel of a byte is the highest bit.
pub proof fn bits_are_pixels(raw: Seq<u8>, w: nat, h: nat, x: int, y: int)
    requires
        expanded(raw, w, h, 1, ColorModel::Gray) is Some,
        0 <= x < w,
        0 <= y < h,
    ensures
        ({
            let out = expanded(raw, w, h, 1, ColorModel::Gray).unwrap();
            let at = (y * w + x) * 4;
            let byte = raw[y * ((w + 7) / 8) + x / 8];
            let place: int = seq![128int, 64, 32, 16, 8, 4, 2, 1][x % 8];
            let v: u8 = if (byte as int / place) % 2 == 1 {
                255
            } else {
                0
            };
            out[at] == v && out[at + 1] == v && out[at + 2] == v
        }),
{
    let i = y * w + x;
    assert(0 <= i < w * h) by (nonlinear_arith)
        requires
            i == y * w + x,
            0 <= x < w,
            0 <= y < h,
    ;
    channel_places(i);
    vstd::arithmetic::div_mod::lemma_fundamental_div_mod_converse(i, w as int, y, x);
    assert(bit_stride(w) == (w + 7) / 8);
    let byte = raw[y * ((w + 7) / 8) + x / 8];
    assert((byte >> 7u8) & 1u8 == (byte / 128) % 2 && (byte >> 6u8) & 1u8 == (byte / 64) % 2 && (
    byte >> 5u8) & 1u8 == (byte / 32) % 2 && (byte >> 4u8) & 1u8 == (byte / 16) % 2 && (byte >> 3u8)
        & 1u8 == (byte / 8) % 2 && (byte >> 2u8) & 1u8 == (byte / 4) % 2 && (byte >> 1u8) & 1u8 == (
    byte / 2) % 2 && (byte >> 0u8) & 1u8 == (byte / 1) % 2) by (bit_vector);
    let k = x % 8;
    assert(k == 0 || k == 1 || k == 2 || k == 3 || k == 4 || k == 5 || k == 6 || k == 7);
}

} // verus!
