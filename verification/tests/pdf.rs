use kagami::archive::{scan_archive, ArchiveEntry, Item};
use kagami::media::{is_image_file, is_media_name};
use kagami::pdf::{page_file_name, samples_image, scan_pdf, scan_pdf_bytes, PdfImage};
use kagami::pdf_extract::{
    color_space, filter_names, image_plan, is_image, locate, named_space, page_image, page_images,
    page_xobjects, palette_source, resolve, ImagePlan, PaletteSource, Space,
};
use kagami::pdf_model::{PdfEntry, PdfFile, PdfObject};
use kagami::pixels::ColorSpace;
use kagami::scan::sort_natural;
use lopdf::{Dictionary, Document, Object, ObjectId, Stream, StringFormat};

fn name(n: &str) -> Object {
    Object::Name(n.as_bytes().to_vec())
}

fn dict(entries: Vec<(&str, Object)>) -> Dictionary {
    let mut d = Dictionary::new();
    for (k, v) in entries {
        d.set(k, v);
    }
    d
}

fn image_dict(w: i64, h: i64, extra: Vec<(&str, Object)>) -> Dictionary {
    let mut d = dict(vec![
        ("Type", name("XObject")),
        ("Subtype", name("Image")),
        ("Width", Object::Integer(w)),
        ("Height", Object::Integer(h)),
        ("BitsPerComponent", Object::Integer(8)),
    ]);
    for (k, v) in extra {
        d.set(k, v);
    }
    d
}

/// A document with one page for each set of XObjects.
fn save(mut doc: Document, pages: Vec<Vec<(&str, ObjectId)>>) -> Vec<u8> {
    let tree = doc.new_object_id();
    let mut kids = Vec::new();
    let count = pages.len() as i64;
    for xobjects in pages {
        let mut x = Dictionary::new();
        for (n, id) in xobjects {
            x.set(n, Object::Reference(id));
        }
        let page = doc.add_object(Object::Dictionary(dict(vec![
            ("Type", name("Page")),
            ("Parent", Object::Reference(tree)),
            ("Resources", Object::Dictionary(dict(vec![("XObject", Object::Dictionary(x))]))),
        ])));
        kids.push(Object::Reference(page));
    }
    let pages = dict(vec![
        ("Type", name("Pages")),
        ("Kids", Object::Array(kids)),
        ("Count", Object::Integer(count)),
    ]);
    doc.objects.insert(tree, Object::Dictionary(pages));
    let catalog = doc.add_object(Object::Dictionary(dict(vec![
        ("Type", name("Catalog")),
        ("Pages", Object::Reference(tree)),
    ])));
    doc.trailer.set("Root", Object::Reference(catalog));
    let mut out = Vec::new();
    doc.save_to(&mut out).unwrap();
    out
}

fn rgb_image(doc: &mut Document, w: i64, h: i64, fill: u8) -> ObjectId {
    let d = image_dict(w, h, vec![("ColorSpace", name("DeviceRGB"))]);
    let mut stream = Stream::new(d, vec![fill; (w * h * 3) as usize]);
    stream.compress().unwrap();
    doc.add_object(Object::Stream(stream))
}

fn rgba(item: &Item) -> (u32, u32, Vec<u8>) {
    match item.pdf_image() {
        Some(PdfImage::Rgba { width, height, data }) => (width, height, data),
        _ => panic!("no raw image"),
    }
}

#[test]
fn pages_become_items_in_reading_order() {
    let mut doc = Document::with_version("1.5");
    let pages: Vec<Vec<(&str, ObjectId)>> =
        (0..12).map(|i| vec![("Im0", rgb_image(&mut doc, 20, 10, i as u8))]).collect();
    let bytes = save(doc, pages);
    let items = scan_pdf("/docs/Book.pdf", &bytes);
    assert_eq!(items.len(), 12);
    assert_eq!(items[0].media_name(), "01.bmp");
    assert_eq!(items[11].media_name(), "12.bmp");
    assert!(items.iter().all(|it| it.is_pdf() && is_image_file(it.media_name())));
    assert_eq!(items[3].display("/docs"), "Book.pdf/04.bmp");
    assert_eq!(items[3].sort_key(), "/docs/book.pdf/04.bmp");
    assert_eq!(items[3].disk_path(), "/docs/Book.pdf");
    for (i, item) in items.iter().enumerate() {
        let (w, h, data) = rgba(item);
        assert_eq!((w, h, data.len()), (20, 10, 800));
        assert_eq!(&data[..4], &[i as u8, i as u8, i as u8, 255]);
    }
    let mut shuffled: Vec<Item> = items.iter().rev().cloned().collect();
    shuffled.rotate_left(5);
    let sorted = sort_natural(shuffled);
    let names: Vec<&str> = sorted.iter().map(|it| it.media_name()).collect();
    let expected: Vec<&str> = items.iter().map(|it| it.media_name()).collect();
    assert_eq!(names, expected);
}

#[test]
fn nested_pdfs_are_titled_under_their_archive() {
    let mut doc = Document::with_version("1.5");
    let im = rgb_image(&mut doc, 4, 4, 9);
    let bytes = save(doc, vec![vec![("Im0", im)]]);
    let items = scan_pdf_bytes("/x/a.cbz", "in/b.pdf", &bytes);
    assert_eq!(items.len(), 1);
    assert_eq!(items[0].display("/x"), "a.cbz/in/b.pdf/1.bmp");
    assert_eq!(items[0].sort_key(), "/x/a.cbz/in/b.pdf/1.bmp");
    assert_eq!(items[0].disk_path(), "/x/a.cbz");
    let entries = vec![
        ArchiveEntry { name: "z.jpg".to_string(), bytes: None },
        ArchiveEntry { name: "in/b.pdf".to_string(), bytes: Some(bytes) },
    ];
    let listed = scan_archive("/x/a.cbz", &entries, is_media_name);
    assert_eq!(listed.len(), 2);
    assert!(listed[0].is_archived() && listed[1].is_pdf());
}

#[test]
fn jpeg_pages_pass_through_untouched() {
    let mut doc = Document::with_version("1.5");
    let d = image_dict(3, 3, vec![
        ("ColorSpace", name("DeviceRGB")),
        ("Filter", name("DCTDecode")),
    ]);
    let jpeg = vec![0xff, 0xd8, 1, 2, 3];
    let im = doc.add_object(Object::Stream(Stream::new(d, jpeg.clone())));
    let bytes = save(doc, vec![vec![("Im0", im)]]);
    let items = scan_pdf("/a.pdf", &bytes);
    assert!(matches!(items[0].pdf_image(), Some(PdfImage::Encoded(b)) if b == jpeg));
}

#[test]
fn indexed_palettes_come_from_strings_and_streams() {
    let mut doc = Document::with_version("1.5");
    let text = Object::String(vec![1, 2, 3, 4, 5, 6], StringFormat::Hexadecimal);
    let indexed = |table: Object| {
        Object::Array(vec![name("Indexed"), name("DeviceRGB"), Object::Integer(1), table])
    };
    let direct = image_dict(2, 1, vec![("ColorSpace", indexed(text))]);
    let a = doc.add_object(Object::Stream(Stream::new(direct, vec![1, 0])));
    let mut table = Stream::new(Dictionary::new(), vec![7; 60]);
    table.compress().unwrap();
    let table = doc.add_object(Object::Stream(table));
    let space = doc.add_object(indexed(Object::Reference(table)));
    let shared = image_dict(2, 1, vec![("ColorSpace", Object::Reference(space))]);
    let b = doc.add_object(Object::Stream(Stream::new(shared, vec![1, 0])));
    let bytes = save(doc, vec![vec![("A", a)], vec![("B", b)]]);
    let items = scan_pdf("/a.pdf", &bytes);
    assert_eq!(rgba(&items[0]), (2, 1, vec![4, 5, 6, 255, 1, 2, 3, 255]));
    assert_eq!(rgba(&items[1]), (2, 1, vec![7, 7, 7, 255, 7, 7, 7, 255]));
}

#[test]
fn the_largest_image_of_a_page_is_shown() {
    let mut doc = Document::with_version("1.5");
    let small = rgb_image(&mut doc, 2, 2, 1);
    let large = rgb_image(&mut doc, 6, 5, 2);
    let equal = rgb_image(&mut doc, 5, 6, 3);
    let bytes = save(doc, vec![vec![("A", small), ("B", large), ("C", equal)], vec![]]);
    let items = scan_pdf("/a.pdf", &bytes);
    assert_eq!(items.len(), 1, "a page without images is passed over");
    assert_eq!(rgba(&items[0]).0, 6);
}

#[test]
fn unsupported_images_are_listed_but_give_no_pixels() {
    let mut doc = Document::with_version("1.5");
    let d = image_dict(2, 2, vec![
        ("ColorSpace", name("DeviceGray")),
        ("Filter", name("CCITTFaxDecode")),
    ]);
    let fax = doc.add_object(Object::Stream(Stream::new(d, vec![0; 9])));
    let short = image_dict(50, 50, vec![("ColorSpace", name("DeviceGray"))]);
    let short = doc.add_object(Object::Stream(Stream::new(short, vec![0; 9])));
    let bytes = save(doc, vec![vec![("A", fax)], vec![("B", short)]]);
    let items = scan_pdf("/a.pdf", &bytes);
    assert_eq!(items.len(), 2);
    assert!(items.iter().all(|it| it.pdf_image().is_none()));
}

#[test]
fn what_is_no_pdf_lists_nothing() {
    assert!(scan_pdf("/a.pdf", b"no pdf at all").is_empty());
    assert!(scan_pdf_bytes("/a.zip", "b.pdf", b"").is_empty());
    let empty = save(Document::with_version("1.5"), vec![vec![]]);
    assert!(scan_pdf("/a.pdf", &empty).is_empty());
}

fn entry(key: &str, value: PdfObject) -> PdfEntry {
    PdfEntry { key: key.as_bytes().to_vec(), value }
}

fn pdf_name(n: &str) -> PdfObject {
    PdfObject::Name(n.as_bytes().to_vec())
}

fn image(w: i64, h: i64) -> PdfObject {
    PdfObject::Stream(vec![
        entry("Subtype", pdf_name("Image")),
        entry("Width", PdfObject::Integer(w)),
        entry("Height", PdfObject::Integer(h)),
        entry("ColorSpace", pdf_name("DeviceGray")),
    ])
}

#[test]
fn references_are_followed_a_limited_way() {
    let mut file = PdfFile::new();
    for i in 1..=200u32 {
        file.insert(i, 0, PdfObject::Reference(i + 1, 0));
    }
    file.insert(201, 0, PdfObject::Integer(5));
    assert_eq!(locate(&file, 73, 0), Some((201, 0)));
    assert_eq!(locate(&file, 72, 0), None);
    assert_eq!(locate(&file, 201, 1), None);
    file.insert(300, 7, PdfObject::Reference(300, 7));
    assert_eq!(locate(&file, 300, 7), None);
    assert!(matches!(
        resolve(&file, &PdfObject::Reference(100, 0)),
        Some(PdfObject::Integer(5))
    ));
    assert!(matches!(resolve(&file, &PdfObject::Integer(8)), Some(PdfObject::Integer(8))));
}

#[test]
fn resources_are_inherited_from_parents() {
    let mut file = PdfFile::new();
    let xobjects = vec![
        entry("A", PdfObject::Reference(10, 0)),
        entry("B", PdfObject::Reference(11, 0)),
        entry("C", PdfObject::Integer(1)),
        entry("D", PdfObject::Reference(12, 0)),
    ];
    file.insert(10, 0, image(10, 10));
    file.insert(11, 0, image(20, 5));
    file.insert(12, 0, PdfObject::Stream(vec![entry("Subtype", pdf_name("Form"))]));
    let resources = PdfObject::Dictionary(vec![entry("XObject", PdfObject::Dictionary(xobjects))]);
    file.insert(1, 0, PdfObject::Dictionary(vec![entry("Resources", resources)]));
    file.insert(2, 0, PdfObject::Dictionary(vec![entry("Parent", PdfObject::Reference(1, 0))]));
    file.insert(3, 0, PdfObject::Dictionary(vec![
        entry("Resources", PdfObject::Dictionary(Vec::new())),
        entry("Parent", PdfObject::Reference(2, 0)),
    ]));
    file.insert(4, 0, PdfObject::Dictionary(vec![entry("Parent", PdfObject::Reference(4, 0))]));
    assert_eq!(page_xobjects(&file, 3, 0).map(|d| d.len()), Some(4));
    assert!(page_xobjects(&file, 4, 0).is_none());
    assert!(page_xobjects(&file, 10, 0).is_none());
    assert_eq!(page_image(&file, 3, 0), Some((10, 0)));
    file.push_page(4, 0);
    file.push_page(3, 0);
    file.push_page(1, 0);
    assert_eq!(page_images(&file), vec![(10, 0), (10, 0)]);
}

#[test]
fn images_are_told_by_their_subtype() {
    let mut file = PdfFile::new();
    file.insert(1, 0, pdf_name("Image"));
    assert!(is_image(&file, &vec![entry("Subtype", PdfObject::Reference(1, 0))]));
    assert!(!is_image(&file, &vec![entry("Subtype", pdf_name("Form"))]));
    assert!(!is_image(&file, &Vec::new()));
}

#[test]
fn filters_are_listed_in_order() {
    let mut file = PdfFile::new();
    file.insert(1, 0, pdf_name("DCTDecode"));
    let one = vec![entry("Filter", pdf_name("FlateDecode"))];
    assert_eq!(filter_names(&file, &one), vec![b"FlateDecode".to_vec()]);
    let many = vec![entry("Filter", PdfObject::Array(vec![
        pdf_name("ASCII85Decode"),
        PdfObject::Integer(3),
        PdfObject::Reference(1, 0),
    ]))];
    assert_eq!(
        filter_names(&file, &many),
        vec![b"ASCII85Decode".to_vec(), b"DCTDecode".to_vec()]
    );
    assert!(filter_names(&file, &Vec::new()).is_empty());
}

fn kind(space: Option<Space>) -> &'static str {
    match space {
        Some(Space::Gray) => "gray",
        Some(Space::Rgb) => "rgb",
        Some(Space::Cmyk) => "cmyk",
        Some(Space::Indexed { .. }) => "indexed",
        None => "none",
    }
}

#[test]
fn colour_spaces_by_name_and_profile() {
    let mut file = PdfFile::new();
    for (n, expected) in [("DeviceGray", "gray"), ("G", "gray"), ("CalGray", "gray"),
        ("DeviceRGB", "rgb"), ("RGB", "rgb"), ("CalRGB", "rgb"), ("DeviceCMYK", "cmyk"),
        ("CMYK", "cmyk"), ("Pattern", "none"), ("Lab", "none")] {
        assert_eq!(kind(named_space(&n.as_bytes().to_vec())), expected);
        assert_eq!(kind(color_space(&file, &pdf_name(n), 0)), expected);
    }
    for (n, expected) in [(1, "gray"), (4, "cmyk"), (3, "rgb"), (2, "rgb")] {
        file.insert(9, 0, PdfObject::Stream(vec![entry("N", PdfObject::Integer(n))]));
        let space = PdfObject::Array(vec![pdf_name("ICCBased"), PdfObject::Reference(9, 0)]);
        assert_eq!(kind(color_space(&file, &space, 0)), expected);
    }
    file.insert(9, 0, PdfObject::Stream(Vec::new()));
    let icc = PdfObject::Array(vec![pdf_name("ICCBased"), PdfObject::Reference(9, 0)]);
    assert_eq!(kind(color_space(&file, &icc, 0)), "none");
    for (head, expected) in [("CalRGB", "rgb"), ("Lab", "rgb"), ("CalGray", "gray"),
        ("Separation", "none"), ("ICCBased", "none")] {
        let space = PdfObject::Array(vec![pdf_name(head)]);
        assert_eq!(kind(color_space(&file, &space, 0)), expected);
    }
    assert_eq!(kind(color_space(&file, &PdfObject::Array(Vec::new()), 0)), "none");
    assert_eq!(kind(color_space(&file, &PdfObject::Integer(1), 0)), "none");
}

#[test]
fn indexed_spaces_know_their_base_and_table() {
    let mut file = PdfFile::new();
    file.insert(5, 0, PdfObject::Stream(Vec::new()));
    let indexed = |base: PdfObject, table: PdfObject| {
        PdfObject::Array(vec![pdf_name("I"), base, PdfObject::Integer(255), table])
    };
    let space = indexed(pdf_name("DeviceCMYK"), PdfObject::Text(vec![1, 2]));
    assert!(matches!(
        color_space(&file, &space, 0),
        Some(Space::Indexed { base: 4, palette: PaletteSource::Bytes(b) }) if b == vec![1, 2]
    ));
    let nested = indexed(space, PdfObject::Reference(5, 0));
    assert!(matches!(
        color_space(&file, &nested, 0),
        Some(Space::Indexed { base: 1, palette: PaletteSource::Stream(5, 0) })
    ));
    assert!(palette_source(&file, &PdfObject::Integer(1)).is_none());
    // A space that is its own base is none.
    file.insert(6, 0, indexed(PdfObject::Reference(6, 0), PdfObject::Text(vec![0])));
    assert_eq!(kind(color_space(&file, &PdfObject::Reference(6, 0), 2)), "none");
    file.insert(7, 0, pdf_name("RGB"));
    file.insert(8, 0, indexed(PdfObject::Reference(7, 0), PdfObject::Text(vec![0])));
    assert_eq!(kind(color_space(&file, &PdfObject::Reference(8, 0), 2)), "indexed");
    assert_eq!(kind(color_space(&file, &PdfObject::Reference(8, 0), 1)), "none");
}

#[test]
fn plans_tell_codecs_from_samples() {
    let mut file = PdfFile::new();
    file.insert(1, 0, image(7, 9));
    file.insert(2, 0, PdfObject::Reference(1, 0));
    assert!(matches!(
        image_plan(&file, 2, 0),
        Some(ImagePlan::Raw { number: 1, generation: 0, width: 7, height: 9, bpc: 8,
            space: Space::Gray })
    ));
    for codec in ["DCTDecode", "JPXDecode"] {
        file.insert(3, 0, PdfObject::Stream(vec![entry("Filter", PdfObject::Array(vec![
            pdf_name("FlateDecode"),
            pdf_name(codec),
        ]))]));
        assert!(matches!(image_plan(&file, 3, 0), Some(ImagePlan::Encoded(3, 0))));
    }
    // A codec that is not the last filter does not count.
    file.insert(3, 0, PdfObject::Stream(vec![entry("Filter", PdfObject::Array(vec![
        pdf_name("DCTDecode"),
        pdf_name("FlateDecode"),
    ]))]));
    assert!(image_plan(&file, 3, 0).is_none());
    file.insert(4, 0, image(0, 9));
    assert!(image_plan(&file, 4, 0).is_none());
    file.insert(4, 0, image(1 << 32, 9));
    assert!(image_plan(&file, 4, 0).is_none());
    file.insert(4, 0, image((1 << 32) + 5, 9));
    assert!(matches!(image_plan(&file, 4, 0), Some(ImagePlan::Raw { width: 5, .. })));
    file.insert(5, 0, PdfObject::Dictionary(Vec::new()));
    assert!(image_plan(&file, 5, 0).is_none());
    assert!(image_plan(&file, 6, 0).is_none());
}

#[test]
fn samples_make_an_image() {
    assert!(matches!(
        samples_image(&vec![3, 4], 2, 1, 8, &ColorSpace::Gray),
        Some(PdfImage::Rgba { width: 2, height: 1, data }) if data == vec![3, 3, 3, 255, 4, 4, 4, 255]
    ));
    assert!(samples_image(&vec![3], 2, 1, 8, &ColorSpace::Gray).is_none());
}

#[test]
fn page_names_are_padded_to_one_width() {
    assert_eq!(page_file_name(0, 9), "1.bmp");
    assert_eq!(page_file_name(0, 10), "01.bmp");
    assert_eq!(page_file_name(99, 1000), "0100.bmp");
}

#[test]
fn as_many_references_as_objects_are_enough() {
    // A chain of palettes, each the base of the next.
    let mut file = PdfFile::new();
    file.insert(1, 0, pdf_name("DeviceRGB"));
    for i in 2..=20u32 {
        file.insert(i, 0, PdfObject::Array(vec![
            pdf_name("Indexed"),
            PdfObject::Reference(i - 1, 0),
            PdfObject::Integer(0),
            PdfObject::Text(vec![0]),
        ]));
    }
    let top = PdfObject::Reference(20, 0);
    assert_eq!(kind(color_space(&file, &top, file.object_count())), "indexed");
    assert_eq!(kind(color_space(&file, &top, 1000)), "indexed");
    assert_eq!(kind(color_space(&file, &top, file.object_count() - 1)), "none");
}
