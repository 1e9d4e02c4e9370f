//! Image-only PDFs, browsed in place the same way archives are. A PDF is treated
//! as nothing more than a bag of images: each page's embedded image is pulled
//! straight out of the file and handed to the image decoder. No page is ever
//! rasterised, so a PDF that isn't just scanned or exported images yields no
//! viewable entries. The document is parsed once and shared across its pages.

use crate::archive::{has_ext, has_extension, texts, Item};
use crate::pdf_extract::{
    ascii, filters_of, followed_key_exists, image_plan, images_of, page_images, plan_of, space_of,
    ImagePlan, PaletteModel, PaletteSource, PlanModel, Space, SpaceModel, DEREF_LIMIT,
};
use crate::pdf_load::{
    held, import_document, inflate, load_document, parses_to, stream_content, stream_data, DocModel,
};
use crate::pdf_model::{keys_of, object_key, ObjModel, PdfFile};
use crate::pixels::{expanded, samples_to_rgba, ColorModel, ColorSpace};
use crate::media::image_path;
use crate::natural::{natural_rank, numbers_are_ordered_by_value, Rank};
use crate::path::{extension_of, last_dot, single_name};
use crate::text::{
    decimal, decimal_width, is_digit, lower, padded, padded_reads_back, push_padded,
};
use lopdf::Document;
use std::sync::Arc;
use vstd::prelude::*;

verus! {

/// Whether a path names a PDF file.
pub open spec fn pdf_path(path: Seq<char>) -> bool {
    has_extension(path, seq!["pdf"@])
}

pub fn is_pdf_file(path: &str) -> (r: bool)
    ensures
        r == pdf_path(path@),
{
    let exts = ["pdf"];
    assert(texts(exts@) =~= seq!["pdf"@]);
    has_ext(path, &exts)
}

/// One page's image, in whichever form is cheapest to hand to the decoder: raw
/// images are expanded straight to RGBA, while an embedded JPEG or JPEG 2000 is
/// passed through as it is.
pub enum PdfImage {
    Rgba { width: u32, height: u32, data: Vec<u8> },
    Encoded(Vec<u8>),
}

pub enum ImageModel {
    Rgba { width: u32, height: u32, data: Seq<u8> },
    Encoded(Seq<u8>),
}

impl View for PdfImage {
    type V = ImageModel;

    open spec fn view(&self) -> ImageModel {
        match self {
            PdfImage::Rgba { width, height, data } => ImageModel::Rgba {
                width: *width,
                height: *height,
                data: data@,
            },
            PdfImage::Encoded(data) => ImageModel::Encoded(data@),
        }
    }
}

/// A palette's table, decompressed where it has to be.
pub open spec fn table_of(m: DocModel, palette: PaletteModel) -> Option<Seq<u8>> {
    match palette {
        PaletteModel::Bytes(b) => Some(b),
        PaletteModel::Stream(key) => stream_data(m, key),
    }
}

/// A colour space with its palette at hand.
pub open spec fn color_of(m: DocModel, space: SpaceModel) -> Option<ColorModel> {
    match space {
        SpaceModel::Gray => Some(ColorModel::Gray),
        SpaceModel::Rgb => Some(ColorModel::Rgb),
        SpaceModel::Cmyk => Some(ColorModel::Cmyk),
        SpaceModel::Indexed { base, palette } => match table_of(m, palette) {
            Some(t) => Some(ColorModel::Indexed { base, palette: t }),
            None => None,
        },
    }
}

/// The image of width `w` and height `h` that the samples `raw` describe.
pub open spec fn image_of_samples(
    raw: Seq<u8>,
    w: u32,
    h: u32,
    bpc: i64,
    cs: ColorModel,
) -> Option<ImageModel> {
    match expanded(raw, w as nat, h as nat, bpc as int, cs) {
        Some(data) => Some(ImageModel::Rgba { width: w, height: h, data }),
        None => None,
    }
}

/// The image with the given key, extracted from a document.
pub open spec fn extracted(m: DocModel, key: u64) -> Option<ImageModel> {
    match plan_of(m.file.objects, key) {
        Some(PlanModel::Encoded(k)) => Some(ImageModel::Encoded(m.content[k])),
        Some(PlanModel::Raw { key: k, width, height, bpc, space }) => match (
            stream_data(m, k),
            color_of(m, space),
        ) {
            (Some(raw), Some(cs)) => image_of_samples(raw, width, height, bpc, cs),
            _ => None,
        },
        None => None,
    }
}

/// Expand raw samples to an image.
pub fn samples_image(raw: &Vec<u8>, width: u32, height: u32, bpc: i64, cs: &ColorSpace) -> (r:
    Option<PdfImage>)
    requires
        cs@.wf(),
    ensures
        (match r {
            Some(image) => image_of_samples(raw@, width, height, bpc, cs@) == Some(image@),
            None => image_of_samples(raw@, width, height, bpc, cs@) is None,
        }),
{
    match samples_to_rgba(raw.as_slice(), width, height, bpc, cs) {
        Some(data) => Some(PdfImage::Rgba { width, height, data }),
        None => None,
    }
}

/// A palette that is taken from a stream is taken from a stream of the file, and
/// its base space has one, three or four components.
proof fn palette_stream_is_stream(objs: Map<u64, ObjModel>, o: ObjModel, refs: nat)
    ensures
        space_of(objs, o, refs) matches Some(SpaceModel::Indexed { base, palette }) ==> {
            &&& base == 1 || base == 3 || base == 4
            &&& palette matches PaletteModel::Stream(k) ==> objs.contains_key(k)
                && objs[k] is Stream
        },
    decreases refs, o,
{
    match o {
        ObjModel::Reference(key) => {
            if refs > 0 {
                match crate::pdf_extract::object_at(objs, key) {
                    Some(target) => {
                        palette_stream_is_stream(objs, target, (refs - 1) as nat);
                    },
                    None => {},
                }
            }
        },
        ObjModel::Array(items) => {
            if items.len() >= 4 {
                match items[3] {
                    ObjModel::Reference(key) => {
                        followed_key_exists(objs, key, DEREF_LIMIT as nat);
                    },
                    _ => {},
                }
            }
        },
        _ => {},
    }
}

/// A parsed PDF plus, in page order, the id of each page's main image. Shared
/// across all of the PDF's [`Item`]s; the parsed document stays resident, so
/// extracting a page is a single stream decompress and not a re-parse. A PDF
/// nested inside an archive still points `disk` at the archive.
pub struct PdfDoc {
    disk: String,
    doc: Document,
    file: PdfFile,
    /// One image id per browsable page, in reading order.
    images: Vec<(u32, u16)>,
}

impl PdfDoc {
    #[verifier::type_invariant]
    spec fn inv(self) -> bool {
        self.file@ == held(self.doc).file
    }

    /// The path of the file on disk that backs this PDF.
    pub closed spec fn disk_text(&self) -> Seq<char> {
        self.disk@
    }

    /// What the document holds.
    pub closed spec fn contents(&self) -> DocModel {
        held(self.doc)
    }

    /// The keys of the browsable pages' images.
    pub closed spec fn image_keys(&self) -> Seq<u64> {
        keys_of(self.images@)
    }

    /// A document with the images of its pages.
    fn open(doc: Document, disk: String) -> (r: Self)
        ensures
            r.disk_text() == disk@,
            r.contents() == held(doc),
            r.image_keys() == images_of(held(doc).file.objects, held(doc).file.pages),
    {
        let file = import_document(&doc);
        let images = page_images(&file);
        PdfDoc { disk, doc, file, images }
    }

    /// The file on disk backing this PDF: the PDF itself, or the archive it lives
    /// inside.
    pub fn disk(&self) -> (r: &str)
        ensures
            r@ == self.disk_text(),
    {
        self.disk.as_str()
    }

    /// The number of browsable pages.
    pub fn page_count(&self) -> (r: usize)
        ensures
            r == self.image_keys().len(),
    {
        self.images.len()
    }

    /// The extracted image of `page`. None for a page whose image uses an
    /// encoding that cannot be turned into pixels, or past the last page.
    pub fn page_image(&self, page: usize) -> (r: Option<PdfImage>)
        ensures
            (match r {
                Some(image) => page < self.image_keys().len() && extracted(
                    self.contents(),
                    self.image_keys()[page as int],
                ) == Some(image@),
                None => page < self.image_keys().len() ==> extracted(
                    self.contents(),
                    self.image_keys()[page as int],
                ) is None,
            }),
    {
        proof {
            use_type_invariant(self);
        }
        if page >= self.images.len() {
            return None;
        }
        let (number, generation) = self.images[page];
        assert(self.image_keys()[page as int] == object_key(number, generation));
        self.extract(number, generation)
    }

    /// The extracted image with the given id.
    fn extract(&self, number: u32, generation: u16) -> (r: Option<PdfImage>)
        ensures
            (match r {
                Some(image) => extracted(self.contents(), object_key(number, generation)) == Some(
                    image@,
                ),
                None => extracted(self.contents(), object_key(number, generation)) is None,
            }),
    {
        proof {
            use_type_invariant(self);
        }
        let ghost m = self.contents();
        let ghost objs = m.file.objects;
        proof {
            followed_key_exists(objs, object_key(number, generation), DEREF_LIMIT as nat);
        }
        match image_plan(&self.file, number, generation) {
            Some(ImagePlan::Encoded(n, g)) => {
                Some(PdfImage::Encoded(stream_content(&self.doc, (n, g))))
            },
            Some(ImagePlan::Raw { number: n, generation: g, width, height, bpc, space }) => {
                proof {
                    let d = objs[object_key(n, g)]->Stream_0;
                    let cs = crate::pdf_extract::entry_at(
                        d,
                        crate::pdf_extract::ascii("ColorSpace"@),
                    ).unwrap();
                    palette_stream_is_stream(objs, cs, objs.len());
                }
                let raw = inflate(&self.doc, (n, g));
                let cs = self.with_palette(space);
                match (raw, cs) {
                    (Some(raw), Some(cs)) => samples_image(&raw, width, height, bpc, &cs),
                    _ => None,
                }
            },
            None => None,
        }
    }

    /// A colour space with its palette at hand.
    fn with_palette(&self, space: Space) -> (r: Option<ColorSpace>)
        requires
            (match space@ {
                SpaceModel::Indexed { base, palette } => (base == 1 || base == 3 || base == 4) && (
                match palette {
                    PaletteModel::Stream(k) => self.contents().file.objects.contains_key(k)
                        && self.contents().file.objects[k] is Stream,
                    _ => true,
                }),
                _ => true,
            }),
        ensures
            (match r {
                Some(cs) => cs@.wf() && color_of(self.contents(), space@) == Some(cs@),
                None => color_of(self.contents(), space@) is None,
            }),
    {
        match space {
            Space::Gray => Some(ColorSpace::Gray),
            Space::Rgb => Some(ColorSpace::Rgb),
            Space::Cmyk => Some(ColorSpace::Cmyk),
            Space::Indexed { base, palette: PaletteSource::Bytes(palette) } => Some(
                ColorSpace::Indexed { base, palette },
            ),
            Space::Indexed { base, palette: PaletteSource::Stream(n, g) } => match inflate(
                &self.doc,
                (n, g),
            ) {
                Some(palette) => Some(ColorSpace::Indexed { base, palette }),
                None => None,
            },
        }
    }
}

/// The synthetic name of page `page` of `count` pages: it reads as an image, and
/// sorts and titles in page order.
pub open spec fn page_name(page: nat, count: nat) -> Seq<char> {
    padded(page + 1, decimal(count).len()) + ".bmp"@
}

pub open spec fn text_of(s: Option<String>) -> Option<Seq<char>> {
    match s {
        Some(s) => Some(s@),
        None => None,
    }
}

/// Whether `item` is page `page` of the document `m` with the given images.
pub open spec fn is_page_item(
    item: Item,
    m: DocModel,
    images: Seq<u64>,
    disk: Seq<char>,
    inner: Option<Seq<char>>,
    page: int,
) -> bool {
    match item {
        Item::Pdf { doc, page: p, inner: i, name } => {
            &&& doc.contents() == m
            &&& doc.image_keys() == images
            &&& doc.disk_text() == disk
            &&& p == page
            &&& text_of(i) == inner
            &&& name@ == page_name(page as nat, images.len())
        },
        _ => false,
    }
}

/// Whether `items` are the browsable pages of the document `m`, in order.
pub open spec fn are_page_items(
    items: Seq<Item>,
    m: DocModel,
    disk: Seq<char>,
    inner: Option<Seq<char>>,
) -> bool {
    let images = images_of(m.file.objects, m.file.pages);
    &&& items.len() == images.len()
    &&& forall|i: int|
        0 <= i < items.len() ==> is_page_item(#[trigger] items[i], m, images, disk, inner, i)
}

/// Whether `items` are what a document lists: nothing if the file could not be
/// parsed, else its browsable pages.
pub open spec fn lists_document(
    items: Seq<Item>,
    doc: Option<DocModel>,
    disk: Seq<char>,
    inner: Option<Seq<char>>,
) -> bool {
    match doc {
        Some(m) => are_page_items(items, m, disk, inner),
        None => items.len() == 0,
    }
}

/// Whether `items` are what the PDF file `bytes` lists, as it was parsed.
pub open spec fn lists_pdf(
    items: Seq<Item>,
    bytes: Seq<u8>,
    disk: Seq<char>,
    inner: Option<Seq<char>>,
) -> bool {
    exists|doc: Option<DocModel>| #[trigger]
        parses_to(bytes, doc) && lists_document(items, doc, disk, inner)
}

/// The synthetic name of page `page` of `count` pages.
pub fn page_file_name(page: usize, count: usize) -> (r: String)
    ensures
        r@ == page_name(page as nat, count as nat),
{
    let mut name = String::new();
    push_padded(&mut name, page as u128 + 1, decimal_width(count));
    name.append(".bmp");
    assert(name@ =~= page_name(page as nat, count as nat));
    name
}

fn copy_text(s: &Option<String>) -> (r: Option<String>)
    ensures
        text_of(r) == text_of(*s),
{
    match s {
        Some(t) => Some(t.clone()),
        None => None,
    }
}

/// The browsable pages of a parsed document.
pub fn build_items(doc: Document, disk: String, inner: Option<String>) -> (r: Vec<Item>)
    ensures
        are_page_items(r@, held(doc), disk@, text_of(inner)),
{
    let doc = Arc::new(PdfDoc::open(doc, disk));
    let count: usize = doc.page_count();
    let mut items: Vec<Item> = Vec::new();
    let ghost m = doc.contents();
    let ghost images = doc.image_keys();
    for page in 0..count
        invariant
            count == images.len(),
            doc.contents() == m,
            doc.image_keys() == images,
            doc.disk_text() == disk@,
            items@.len() == page,
            forall|i: int|
                0 <= i < items@.len() ==> is_page_item(
                    #[trigger] items@[i],
                    m,
                    images,
                    disk@,
                    text_of(inner),
                    i,
                ),
    {
        let name = page_file_name(page, count);
        items.push(Item::Pdf { doc: Arc::clone(&doc), page, inner: copy_text(&inner), name });
    }
    items
}

/// List the per-page images of the PDF file at `path`, whose contents are
/// `bytes`. A PDF with no extractable image yields an empty list, exactly like
/// an unreadable archive.
pub fn scan_pdf(path: &str, bytes: &[u8]) -> (r: Vec<Item>)
    ensures
        lists_pdf(r@, bytes@, path@, None),
{
    match load_document(bytes) {
        Some(doc) => build_items(doc, path.to_string(), None),
        None => Vec::new(),
    }
}

/// Same as [`scan_pdf`], for a PDF that lives inside an archive: parsed from the
/// decompressed entry, backed on disk by the archive, and titled under it.
pub fn scan_pdf_bytes(disk: &str, entry: &str, bytes: &[u8]) -> (r: Vec<Item>)
    ensures
        lists_pdf(r@, bytes@, disk@, Some(entry@)),
{
    match load_document(bytes) {
        Some(doc) => build_items(doc, disk.to_string(), Some(entry.to_string())),
        None => Vec::new(),
    }
}

/// The pages of a PDF sort in page order, whatever the path of the file.
pub proof fn pages_sort_in_page_order(
    items: Seq<Item>,
    m: DocModel,
    disk: Seq<char>,
    inner: Option<Seq<char>>,
    i: int,
    j: int,
)
    requires
        are_page_items(items, m, disk, inner),
        0 <= i < j < items.len(),
    ensures
        natural_rank(items[i].key(), items[j].key()) == Rank::Before,
{
    let images = images_of(m.file.objects, m.file.pages);
    let n = images.len();
    assert(is_page_item(items[i], m, images, disk, inner, i));
    assert(is_page_item(items[j], m, images, disk, inner, j));
    reveal_strlit("/");
    reveal_strlit(".bmp");
    let front = match inner {
        Some(e) => disk + "/"@ + e + "/"@,
        None => disk + "/"@,
    };
    let width = decimal(n).len();
    page_key(items[i], front, i as nat, n);
    page_key(items[j], front, j as nat, n);
    padded_reads_back(i as nat + 1, width);
    padded_reads_back(j as nat + 1, width);
    assert(front.last() == '/');
    assert(lower(front).last() == '/');
    let rest = lower(".bmp"@);
    assert(rest[0] == '.');
    numbers_are_ordered_by_value(
        lower(front),
        padded(i as nat + 1, width),
        padded(j as nat + 1, width),
        rest,
        rest,
    );
}

/// The sort key of a page: its number stands between the path and the suffix.
proof fn page_key(item: Item, front: Seq<char>, page: nat, count: nat)
    requires
        item.placed(item.disk()) == front + page_name(page, count),
    ensures
        item.key() == lower(front) + (padded(page + 1, decimal(count).len()) + lower(".bmp"@)),
{
    let number = padded(page + 1, decimal(count).len());
    padded_reads_back(page + 1, decimal(count).len());
    assert(lower(number) =~= number) by {
        assert forall|k: int| 0 <= k < number.len() implies lower(number)[k] == number[k] by {
            assert(is_digit(number[k]));
        }
    }
    assert(item.key() =~= lower(front) + (lower(number) + lower(".bmp"@)));
}

/// A PDF's pages are browsed as images.
pub proof fn pages_are_images(page: nat, count: nat)
    ensures
        image_path(page_name(page, count)),
{
    let number = padded(page + 1, decimal(count).len());
    let name = page_name(page, count);
    padded_reads_back(page + 1, decimal(count).len());
    reveal_strlit(".bmp");
    reveal_strlit("bmp");
    assert(number.len() > 0 && is_digit(number[0]));
    assert(name =~= number + seq!['.', 'b', 'm', 'p']);
    assert forall|k: int| 0 <= k < name.len() implies name[k] != '/' by {
        if k < number.len() {
            assert(is_digit(number[k]));
        }
    }
    single_name(name);
    let n = name.len() as int;
    let dot = n - 4;
    assert(name.drop_last().drop_last().drop_last().last() == '.');
    reveal_with_fuel(last_dot, 5);
    assert(last_dot(name) == dot);
    assert(name.skip(dot + 1) =~= "bmp"@);
    assert(extension_of(name) == Some("bmp"@));
    let exts = seq!["jpg"@, "jpeg"@, "png"@, "webp"@, "bmp"@, "gif"@, "tiff"@];
    assert(exts[4] == "bmp"@);
    assert(lower("bmp"@) == lower(exts[4]));
}

/// An embedded JPEG or JPEG 2000 file is handed on byte for byte.
pub proof fn embedded_files_are_handed_on(m: DocModel, key: u64, d: Seq<(Seq<u8>, ObjModel)>)
    requires
        m.file.objects.contains_key(key),
        m.file.objects[key] == ObjModel::Stream(d),
        filters_of(m.file.objects, d).len() > 0,
        filters_of(m.file.objects, d).last() == ascii("DCTDecode"@) || filters_of(
            m.file.objects,
            d,
        ).last() == ascii("JPXDecode"@),
    ensures
        extracted(m, key) == Some(ImageModel::Encoded(m.content[key])),
{
}

/// Samples become an image of the size and in the colours that are planned; without them, or
/// without the table of a palette, there is no image.
pub proof fn samples_become_the_planned_image(
    m: DocModel,
    key: u64,
    k: u64,
    width: u32,
    height: u32,
    bpc: i64,
    space: SpaceModel,
)
    requires
        plan_of(m.file.objects, key) == Some(PlanModel::Raw { key: k, width, height, bpc, space }),
    ensures
        stream_data(m, k) is None ==> extracted(m, key) is None,
        stream_data(m, k) matches Some(raw) ==> {
            &&& space is Gray ==> extracted(m, key) == image_of_samples(
                raw,
                width,
                height,
                bpc,
                ColorModel::Gray,
            )
            &&& space is Rgb ==> extracted(m, key) == image_of_samples(
                raw,
                width,
                height,
                bpc,
                ColorModel::Rgb,
            )
            &&& space is Cmyk ==> extracted(m, key) == image_of_samples(
                raw,
                width,
                height,
                bpc,
                ColorModel::Cmyk,
            )
            &&& space matches SpaceModel::Indexed { base, palette } ==> match palette {
                PaletteModel::Bytes(t) => extracted(m, key) == image_of_samples(
                    raw,
                    width,
                    height,
                    bpc,
                    ColorModel::Indexed { base, palette: t },
                ),
                PaletteModel::Stream(p) => match stream_data(m, p) {
                    Some(t) => extracted(m, key) == image_of_samples(
                        raw,
                        width,
                        height,
                        bpc,
                        ColorModel::Indexed { base, palette: t },
                    ),
                    None => extracted(m, key) is None,
                },
            }
        },
{
}

/// The image of some samples has the given size, and the pixels that they expand to.
pub proof fn image_has_the_size_of_its_samples(
    raw: Seq<u8>,
    w: u32,
    h: u32,
    bpc: i64,
    cs: ColorModel,
)
    ensures
        image_of_samples(raw, w, h, bpc, cs) is None <==> expanded(
            raw,
            w as nat,
            h as nat,
            bpc as int,
            cs,
        ) is None,
        image_of_samples(raw, w, h, bpc, cs) matches Some(image) ==> (
        image matches ImageModel::Rgba { width, height, data } && width == w && height == h
            && expanded(raw, w as nat, h as nat, bpc as int, cs) == Some(data)),
{
}

/// Page after page, each with its own image: the item at a place stands for the page at that
/// place, in the document that was read, on disk where that is.
pub proof fn items_stand_for_their_pages(
    items: Seq<Item>,
    m: DocModel,
    disk: Seq<char>,
    entry: Option<Seq<char>>,
    i: int,
)
    requires
        are_page_items(items, m, disk, entry),
        0 <= i < items.len(),
    ensures
        items.len() == images_of(m.file.objects, m.file.pages).len(),
        items[i] matches Item::Pdf { doc, page, inner, name } && page == i && doc.contents() == m
            && doc.image_keys()[i] == images_of(m.file.objects, m.file.pages)[i]
            && doc.disk_text() == disk && (entry matches Some(e) ==> (inner matches Some(t) && t@
            == e)) && (entry is None ==> inner is None),
{
    let images = images_of(m.file.objects, m.file.pages);
    assert(is_page_item(items[i], m, images, disk, entry, i));
}

/// Pages are numbered from one, in the decimal system, with as many digits as the last page
/// has at least, and named as images.
pub proof fn pages_are_numbered_from_one(page: nat, count: nat)
    ensures
        page_name(page, count) == padded(page + 1, decimal(count).len()) + seq!['.', 'b', 'm', 'p'],
{
    reveal_strlit(".bmp");
    assert(".bmp"@ =~= seq!['.', 'b', 'm', 'p']);
}

/// A file that could not be parsed lists nothing.
pub proof fn unparsed_file_lists_nothing(
    items: Seq<Item>,
    doc: Option<DocModel>,
    disk: Seq<char>,
    entry: Option<Seq<char>>,
)
    requires
        lists_document(items, doc, disk, entry),
    ensures
        doc is None ==> items.len() == 0,
        doc matches Some(m) ==> are_page_items(items, m, disk, entry),
{
}

} // verus!
