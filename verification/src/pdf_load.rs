//! Reading PDF documents. The parsing, the page tree walk and the stream filters
//! are lopdf's; this module takes a parsed document apart into the plain values
//! of [`crate::pdf_model`].

use crate::pdf_model::{
    array_values, composite_value, entry_values, key_of, keys_of, object_key, FileModel, ObjModel,
    PdfEntry, PdfFile, PdfObject,
};
use lopdf::{Document, Object};
use vstd::prelude::*;

verus! {

broadcast use composite_value;

/// lopdf's parsed document.
#[verifier::external_type_specification]
#[verifier::external_body]
pub struct ExDocument(lopdf::Document);

/// One object of a parsed document.
#[verifier::external_type_specification]
#[verifier::external_body]
pub struct ExObject(lopdf::Object);

/// What a document holds: its objects and pages, and the data of its streams by
/// object key.
pub struct DocModel {
    pub file: FileModel,
    pub content: Map<u64, Seq<u8>>,
}

/// Whether `doc` is something that `lopdf::Document::load_mem` can make of a file's
/// bytes: the contents of a document, or None for a failure.
pub uninterp spec fn parses_to(bytes: Seq<u8>, doc: Option<DocModel>) -> bool;

/// What a parsed document holds.
pub uninterp spec fn held(doc: Document) -> DocModel;

/// What a parsed object holds.
pub uninterp spec fn object_model(o: Object) -> ObjModel;

/// What `lopdf::Stream::decompressed_content` makes of a stream with the given
/// dictionary and data, or None if it fails.
pub uninterp spec fn inflated(dict: Seq<(Seq<u8>, ObjModel)>, content: Seq<u8>) -> Option<Seq<u8>>;

/// The entries of a dictionary or of a stream's dictionary.
pub open spec fn dict_of(o: ObjModel) -> Seq<(Seq<u8>, ObjModel)> {
    match o {
        ObjModel::Dictionary(d) => d,
        ObjModel::Stream(d) => d,
        _ => Seq::empty(),
    }
}

/// The direct parts of an array, a dictionary or a stream's dictionary.
pub open spec fn parts(o: ObjModel) -> Seq<ObjModel> {
    match o {
        ObjModel::Array(items) => items,
        _ => dict_of(o).map_values(|e: (Seq<u8>, ObjModel)| e.1),
    }
}

/// One object without its parts, which are only counted.
pub enum PdfNode {
    Other,
    Integer(i64),
    Name(Vec<u8>),
    Text(Vec<u8>),
    Array(usize),
    Dictionary(usize),
    Stream(usize),
    Reference(u32, u16),
}

/// Whether `node` describes `o`.
pub open spec fn describes(node: PdfNode, o: ObjModel) -> bool {
    match node {
        PdfNode::Other => o is Other,
        PdfNode::Integer(n) => o == ObjModel::Integer(n),
        PdfNode::Name(n) => o == ObjModel::Name(n@),
        PdfNode::Text(t) => o == ObjModel::Text(t@),
        PdfNode::Array(len) => o is Array && parts(o).len() == len,
        PdfNode::Dictionary(len) => o is Dictionary && parts(o).len() == len,
        PdfNode::Stream(len) => o is Stream && parts(o).len() == len,
        PdfNode::Reference(n, g) => o == ObjModel::Reference(object_key(n, g)),
    }
}

/// `lopdf::Document::load_mem`: parse a PDF file. That the same bytes parse to the
/// same document each time is not claimed: the object streams of an encrypted file
/// are unpacked in the order of a hash map, and where one holds an object of the same
/// number as another stream's container, the order shows.
#[verifier::external_body]
pub(crate) fn load_document(bytes: &[u8]) -> (r: Option<Document>)
    ensures
        (match r {
            Some(doc) => parses_to(bytes@, Some(held(doc))),
            None => parses_to(bytes@, None),
        }),
{
    Document::load_mem(bytes).ok()
}

/// The keys of `lopdf::Document::objects`: every object id of the document.
#[verifier::external_body]
fn object_ids(doc: &Document) -> (r: Vec<(u32, u16)>)
    ensures
        held(*doc).file.objects.dom() == keys_of(r@).to_set(),
{
    doc.objects.keys().copied().collect()
}

/// A lookup in `lopdf::Document::objects`, which follows no references.
#[verifier::external_body]
fn find_object<'a>(doc: &'a Document, id: (u32, u16)) -> (r: Option<&'a Object>)
    ensures
        (match r {
            Some(o) => held(*doc).file.objects.contains_key(key_of(id))
                && held(*doc).file.objects[key_of(id)] == object_model(*o),
            None => !held(*doc).file.objects.contains_key(key_of(id)),
        }),
{
    doc.objects.get(&id)
}

/// `lopdf::Document::get_pages`: the ids of the pages, in reading order.
#[verifier::external_body]
fn page_ids(doc: &Document) -> (r: Vec<(u32, u16)>)
    ensures
        keys_of(r@) == held(*doc).file.pages,
{
    doc.get_pages().into_values().collect()
}

/// The variant of a `lopdf::Object`, with its scalar value or the number of its
/// parts.
#[verifier::external_body]
fn object_node(o: &Object) -> (r: PdfNode)
    ensures
        describes(r, object_model(*o)),
{
    match o {
        Object::Integer(n) => PdfNode::Integer(*n),
        Object::Name(n) => PdfNode::Name(n.clone()),
        Object::String(t, _) => PdfNode::Text(t.clone()),
        Object::Array(a) => PdfNode::Array(a.len()),
        Object::Dictionary(d) => PdfNode::Dictionary(d.len()),
        Object::Stream(s) => PdfNode::Stream(s.dict.len()),
        Object::Reference((n, g)) => PdfNode::Reference(*n, *g),
        _ => PdfNode::Other,
    }
}

/// Part `i` of a `lopdf::Object`: an array's element, or a value of the
/// dictionary of a dictionary or stream, in `lopdf::Dictionary::iter` order.
#[verifier::external_body]
fn object_part<'a>(o: &'a Object, i: usize) -> (r: &'a Object)
    requires
        i < parts(object_model(*o)).len(),
    ensures
        object_model(*r) == parts(object_model(*o))[i as int],
{
    match o {
        Object::Array(a) => &a[i],
        Object::Dictionary(d) => d.iter().nth(i).unwrap().1,
        Object::Stream(s) => s.dict.iter().nth(i).unwrap().1,
        _ => o,
    }
}

/// Key `i` of the dictionary of a `lopdf::Object` that is a dictionary or a
/// stream, in `lopdf::Dictionary::iter` order.
#[verifier::external_body]
fn object_part_key(o: &Object, i: usize) -> (r: Vec<u8>)
    requires
        i < dict_of(object_model(*o)).len(),
    ensures
        r@ == dict_of(object_model(*o))[i as int].0,
{
    match o {
        Object::Dictionary(d) => d.iter().nth(i).unwrap().0.clone(),
        Object::Stream(s) => s.dict.iter().nth(i).unwrap().0.clone(),
        _ => Vec::new(),
    }
}

/// The `content` of the `lopdf::Stream` with the given id.
#[verifier::external_body]
pub(crate) fn stream_content(doc: &Document, id: (u32, u16)) -> (r: Vec<u8>)
    requires
        held(*doc).file.objects.contains_key(key_of(id)),
        held(*doc).file.objects[key_of(id)] is Stream,
    ensures
        r@ == held(*doc).content[key_of(id)],
{
    match doc.objects.get(&id) {
        Some(Object::Stream(s)) => s.content.clone(),
        _ => Vec::new(),
    }
}

/// `lopdf::Stream::decompressed_content` of the stream with the given id: its
/// data with all filters undone, which depends on its dictionary and its data.
#[verifier::external_body]
pub(crate) fn inflate(doc: &Document, id: (u32, u16)) -> (r: Option<Vec<u8>>)
    requires
        held(*doc).file.objects.contains_key(key_of(id)),
        held(*doc).file.objects[key_of(id)] is Stream,
    ensures
        (match r {
            Some(data) => Some(data@),
            None => None,
        }) == inflated(
            dict_of(held(*doc).file.objects[key_of(id)]),
            held(*doc).content[key_of(id)],
        ),
{
    match doc.objects.get(&id) {
        Some(Object::Stream(s)) => s.decompressed_content().ok(),
        _ => None,
    }
}

/// The data of a document's stream with all filters undone.
pub open spec fn stream_data(m: DocModel, key: u64) -> Option<Seq<u8>> {
    inflated(dict_of(m.file.objects[key]), m.content[key])
}

/// The plain value of a parsed object.
fn import_object(o: &Object) -> (r: PdfObject)
    ensures
        r@ == object_model(*o),
    decreases object_model(*o), 1int,
{
    let ghost m = object_model(*o);
    match object_node(o) {
        PdfNode::Other => PdfObject::Other,
        PdfNode::Integer(n) => PdfObject::Integer(n),
        PdfNode::Name(n) => PdfObject::Name(n),
        PdfNode::Text(t) => PdfObject::Text(t),
        PdfNode::Reference(n, g) => PdfObject::Reference(n, g),
        PdfNode::Array(len) => {
            let mut items: Vec<PdfObject> = Vec::new();
            for i in 0..len
                invariant
                    m == object_model(*o),
                    m is Array,
                    len == parts(m).len(),
                    array_values(items@) == parts(m).take(i as int),
            {
                let part = object_part(o, i);
                assert(object_model(*part) == m->Array_0[i as int]);
                let item = import_object(part);
                let ghost before = items@;
                items.push(item);
                assert(array_values(items@) =~= array_values(before).push(item@));
                assert(array_values(items@) =~= parts(m).take(i + 1));
            }
            assert(array_values(items@) =~= m->Array_0);
            PdfObject::Array(items)
        },
        PdfNode::Dictionary(len) => {
            let entries = import_entries(o, len);
            PdfObject::Dictionary(entries)
        },
        PdfNode::Stream(len) => {
            let entries = import_entries(o, len);
            PdfObject::Stream(entries)
        },
    }
}

/// The plain values of the entries of a dictionary or of a stream's dictionary.
fn import_entries(o: &Object, len: usize) -> (r: Vec<PdfEntry>)
    requires
        object_model(*o) is Dictionary || object_model(*o) is Stream,
        len == dict_of(object_model(*o)).len(),
    ensures
        entry_values(r@) == dict_of(object_model(*o)),
    decreases object_model(*o), 0int,
{
    let ghost m = object_model(*o);
    let ghost d = dict_of(m);
    let mut entries: Vec<PdfEntry> = Vec::new();
    assert(entry_values(entries@) =~= d.take(0));
    for i in 0..len
        invariant
            m == object_model(*o),
            m is Dictionary || m is Stream,
            d == dict_of(m),
            len == d.len(),
            entry_values(entries@) == d.take(i as int),
    {
        let key = object_part_key(o, i);
        let part = object_part(o, i);
        assert(object_model(*part) == d[i as int].1);
        let value = import_object(part);
        let ghost before = entries@;
        entries.push(PdfEntry { key, value });
        assert(entry_values(entries@) =~= entry_values(before).push((key@, value@)));
        assert(entry_values(entries@) =~= d.take(i + 1));
    }
    assert(entry_values(entries@) =~= d);
    entries
}

/// The plain values of a parsed document.
pub(crate) fn import_document(doc: &Document) -> (r: PdfFile)
    ensures
        r@ == held(*doc).file,
{
    let ghost m = held(*doc).file;
    let ids = object_ids(doc);
    let mut file = PdfFile::new();
    for i in 0..ids.len()
        invariant
            m == held(*doc).file,
            m.objects.dom() == keys_of(ids@).to_set(),
            file@.pages.len() == 0,
            file@.objects.dom() =~= keys_of(ids@).take(i as int).to_set(),
            forall|k: u64| #[trigger]
                file@.objects.contains_key(k) ==> file@.objects[k] == m.objects[k],
    {
        let id = ids[i];
        let ghost key = key_of(id);
        assert(keys_of(ids@)[i as int] == key);
        assert(keys_of(ids@).contains(key));
        assert(m.objects.dom().contains(key));
        let ghost before = file@;
        if let Some(o) = find_object(doc, id) {
            let object = import_object(o);
            file.insert(id.0, id.1, object);
            assert(file@.objects =~= before.objects.insert(key, m.objects[key]));
        }
        assert(file@.objects.dom() =~= keys_of(ids@).take(i + 1).to_set()) by {
            let old_keys = keys_of(ids@).take(i as int);
            let new_keys = keys_of(ids@).take(i + 1);
            assert(new_keys =~= old_keys.push(key));
            assert forall|k: u64| new_keys.to_set().contains(k) <==> file@.objects.dom().contains(
                k,
            ) by {
                if new_keys.contains(k) {
                    let j = choose|j: int| 0 <= j < new_keys.len() && new_keys[j] == k;
                    if j < old_keys.len() {
                        assert(old_keys[j] == k);
                        assert(old_keys.to_set().contains(k));
                    }
                }
                if old_keys.contains(k) {
                    let j = choose|j: int| 0 <= j < old_keys.len() && old_keys[j] == k;
                    assert(new_keys[j] == k);
                }
                if k == key {
                    assert(new_keys[i as int] == k);
                }
            }
        }
    }
    assert(keys_of(ids@).take(ids@.len() as int) =~= keys_of(ids@));
    file.pages = page_ids(doc);
    assert(file@.objects =~= m.objects);
    file
}

} // verus!
