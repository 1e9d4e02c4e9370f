use image::{Rgba, RgbaImage};
use kagami::archive::Item;
use kagami::coord::DecodeOutcome;
use kagami::pdf::scan_pdf;
use kagami::task::{decode_item, texture_limit};
use lopdf::{Dictionary, Document, Object, Stream};
use std::io::Cursor;

fn png() -> Vec<u8> {
    let mut out = Vec::new();
    let img = RgbaImage::from_pixel(2, 1, Rgba([9, 8, 7, 255]));
    image::DynamicImage::ImageRgba8(img)
        .write_to(&mut Cursor::new(&mut out), image::ImageFormat::Png)
        .unwrap();
    out
}

fn name(n: &str) -> Object {
    Object::Name(n.as_bytes().to_vec())
}

/// The page of a PDF whose image is gray, with the given filter if there is one.
fn page(filter: Option<&str>) -> Item {
    let mut doc = Document::with_version("1.5");
    let mut image = Dictionary::new();
    image.set("Subtype", name("Image"));
    image.set("Width", Object::Integer(2));
    image.set("Height", Object::Integer(1));
    image.set("ColorSpace", name("DeviceGray"));
    if let Some(filter) = filter {
        image.set("Filter", name(filter));
    }
    let id = doc.add_object(Object::Stream(Stream::new(image, vec![1, 2])));
    let mut xobjects = Dictionary::new();
    xobjects.set("Im", Object::Reference(id));
    let mut resources = Dictionary::new();
    resources.set("XObject", Object::Dictionary(xobjects));
    let tree = doc.new_object_id();
    let mut page = Dictionary::new();
    page.set("Type", name("Page"));
    page.set("Parent", Object::Reference(tree));
    page.set("Resources", Object::Dictionary(resources));
    let page = doc.add_object(Object::Dictionary(page));
    let mut pages = Dictionary::new();
    pages.set("Type", name("Pages"));
    pages.set("Kids", Object::Array(vec![Object::Reference(page)]));
    pages.set("Count", Object::Integer(1));
    doc.objects.insert(tree, Object::Dictionary(pages));
    let mut catalog = Dictionary::new();
    catalog.set("Type", name("Catalog"));
    catalog.set("Pages", Object::Reference(tree));
    let catalog = doc.add_object(Object::Dictionary(catalog));
    doc.trailer.set("Root", Object::Reference(catalog));
    let mut bytes = Vec::new();
    doc.save_to(&mut bytes).unwrap();
    scan_pdf("/a.pdf", &bytes).remove(0)
}

#[test]
fn files_decode_from_their_bytes() {
    let item = Item::File("/a.png".to_string());
    let (outcome, decoded) = decode_item(&item, Some(png()), false, 100);
    assert!(outcome == DecodeOutcome::Decoded);
    assert_eq!(decoded.unwrap().frames[0].0, vec![9, 8, 7, 255, 9, 8, 7, 255]);
    let (outcome, decoded) = decode_item(&item, Some(vec![1, 2, 3]), false, 100);
    assert!(outcome == DecodeOutcome::Failed && decoded.is_none());
}

#[test]
fn only_a_real_failure_counts() {
    let item = Item::File("/a.png".to_string());
    assert!(decode_item(&item, None, false, 100).0 == DecodeOutcome::Failed);
    assert!(decode_item(&item, None, true, 100).0 == DecodeOutcome::Aborted);
    // What has been read is decoded even if the viewer has moved away meanwhile.
    assert!(decode_item(&item, Some(png()), true, 100).0 == DecodeOutcome::Decoded);
}

#[test]
fn pages_decode_from_the_document() {
    let item = page(None);
    let (outcome, decoded) = decode_item(&item, None, false, 100);
    assert!(outcome == DecodeOutcome::Decoded);
    assert_eq!(decoded.unwrap().frames[0].0, vec![1, 1, 1, 255, 2, 2, 2, 255]);
    assert!(decode_item(&item, None, true, 100).0 == DecodeOutcome::Aborted);
    assert!(decode_item(&page(Some("JBIG2Decode")), None, false, 100).0 == DecodeOutcome::Failed);
}

#[test]
fn texture_sides_are_positive() {
    assert_eq!(texture_limit(None), 8192);
    assert_eq!(texture_limit(Some(16384)), 16384);
    assert_eq!(texture_limit(Some(0)), 1);
}
