//! The objects of a PDF file as plain values: what the image extraction reads of
//! a document, without the data of its streams.

use std::collections::HashMap;
use vstd::prelude::*;

verus! {

broadcast use vstd::std_specs::hash::group_hash_axioms;

/// One PDF object. A dictionary is a list of key and value pairs, in file order;
/// a stream is represented by its dictionary.
pub enum PdfObject {
    /// Null, booleans and real numbers, which the extraction never looks into.
    Other,
    Integer(i64),
    Name(Vec<u8>),
    Text(Vec<u8>),
    Array(Vec<PdfObject>),
    Dictionary(Vec<PdfEntry>),
    Stream(Vec<PdfEntry>),
    /// An indirect reference: object number and generation.
    Reference(u32, u16),
}

/// One entry of a dictionary.
pub struct PdfEntry {
    pub key: Vec<u8>,
    pub value: PdfObject,
}

/// The mathematical value of a [`PdfObject`]; references hold object keys.
pub enum ObjModel {
    Other,
    Integer(i64),
    Name(Seq<u8>),
    Text(Seq<u8>),
    Array(Seq<ObjModel>),
    Dictionary(Seq<(Seq<u8>, ObjModel)>),
    Stream(Seq<(Seq<u8>, ObjModel)>),
    Reference(u64),
}

/// The key under which object `number` of generation `generation` is kept.
pub open spec fn object_key(number: u32, generation: u16) -> u64 {
    (number * 65536 + generation) as u64
}

/// The key of an object id.
pub open spec fn key_of(id: (u32, u16)) -> u64 {
    object_key(id.0, id.1)
}

pub open spec fn keys_of(ids: Seq<(u32, u16)>) -> Seq<u64> {
    ids.map_values(|id: (u32, u16)| key_of(id))
}

/// Different object ids have different keys.
pub proof fn object_keys_differ(a: (u32, u16), b: (u32, u16))
    ensures
        key_of(a) == key_of(b) <==> a == b,
{
    assert(key_of(a) == a.0 * 65536 + a.1);
    assert(key_of(b) == b.0 * 65536 + b.1);
    assert(key_of(a) / 65536 == a.0 as u64 && key_of(a) % 65536 == a.1 as u64);
    assert(key_of(b) / 65536 == b.0 as u64 && key_of(b) % 65536 == b.1 as u64);
}

pub open spec fn object_value(o: PdfObject) -> ObjModel
    decreases o,
{
    match o {
        PdfObject::Other => ObjModel::Other,
        PdfObject::Integer(n) => ObjModel::Integer(n),
        PdfObject::Name(n) => ObjModel::Name(n@),
        PdfObject::Text(t) => ObjModel::Text(t@),
        PdfObject::Array(v) => ObjModel::Array(
            Seq::new(
                v@.len(),
                |i: int|
                    if 0 <= i < v@.len() {
                        object_value(v@[i])
                    } else {
                        ObjModel::Other
                    },
            ),
        ),
        PdfObject::Dictionary(v) => ObjModel::Dictionary(
            Seq::new(
                v@.len(),
                |i: int|
                    if 0 <= i < v@.len() {
                        (v@[i].key@, object_value(v@[i].value))
                    } else {
                        (Seq::empty(), ObjModel::Other)
                    },
            ),
        ),
        PdfObject::Stream(v) => ObjModel::Stream(
            Seq::new(
                v@.len(),
                |i: int|
                    if 0 <= i < v@.len() {
                        (v@[i].key@, object_value(v@[i].value))
                    } else {
                        (Seq::empty(), ObjModel::Other)
                    },
            ),
        ),
        PdfObject::Reference(n, g) => ObjModel::Reference(object_key(n, g)),
    }
}

pub open spec fn array_values(v: Seq<PdfObject>) -> Seq<ObjModel> {
    v.map_values(|o: PdfObject| object_value(o))
}

pub open spec fn entry_values(v: Seq<PdfEntry>) -> Seq<(Seq<u8>, ObjModel)> {
    v.map_values(|e: PdfEntry| (e.key@, object_value(e.value)))
}

impl View for PdfObject {
    type V = ObjModel;

    open spec fn view(&self) -> ObjModel {
        object_value(*self)
    }
}

/// The value of a composite object, element by element.
pub broadcast proof fn composite_value(o: PdfObject)
    ensures
        (match o {
            PdfObject::Array(v) => #[trigger] object_value(o) == ObjModel::Array(array_values(v@)),
            PdfObject::Dictionary(v) => object_value(o) == ObjModel::Dictionary(entry_values(v@)),
            PdfObject::Stream(v) => object_value(o) == ObjModel::Stream(entry_values(v@)),
            _ => true,
        }),
{
    match o {
        PdfObject::Array(v) => {
            assert(object_value(o)->Array_0 =~= array_values(v@));
        },
        PdfObject::Dictionary(v) => {
            assert(object_value(o)->Dictionary_0 =~= entry_values(v@));
        },
        PdfObject::Stream(v) => {
            assert(object_value(o)->Stream_0 =~= entry_values(v@));
        },
        _ => {},
    }
}

/// The objects of a file by key, and the keys of its pages in reading order.
pub struct FileModel {
    pub objects: Map<u64, ObjModel>,
    pub pages: Seq<u64>,
}

/// A PDF file's objects and pages.
pub struct PdfFile {
    pub objects: HashMap<u64, PdfObject>,
    pub pages: Vec<(u32, u16)>,
}

impl View for PdfFile {
    type V = FileModel;

    open spec fn view(&self) -> FileModel {
        FileModel {
            objects: self.objects@.map_values(|o: PdfObject| o@),
            pages: keys_of(self.pages@),
        }
    }
}

/// The key of an object id.
pub fn pack(number: u32, generation: u16) -> (r: u64)
    ensures
        r == object_key(number, generation),
{
    number as u64 * 65536 + generation as u64
}

impl PdfFile {
    /// A file without objects and pages.
    pub fn new() -> (r: Self)
        ensures
            r@.objects == Map::<u64, ObjModel>::empty(),
            r@.pages == Seq::<u64>::empty(),
    {
        let r = PdfFile { objects: HashMap::new(), pages: Vec::new() };
        assert(r@.objects =~= Map::<u64, ObjModel>::empty());
        assert(r@.pages =~= Seq::<u64>::empty());
        r
    }

    /// Add an object, or replace the one with the same id.
    pub fn insert(&mut self, number: u32, generation: u16, object: PdfObject)
        ensures
            final(self)@.objects == old(self)@.objects.insert(
                object_key(number, generation),
                object@,
            ),
            final(self)@.pages == old(self)@.pages,
    {
        self.objects.insert(pack(number, generation), object);
        assert(self@.objects =~= old(self)@.objects.insert(object_key(number, generation), object@));
    }

    /// Add a page after the others.
    pub fn push_page(&mut self, number: u32, generation: u16)
        ensures
            final(self)@.objects == old(self)@.objects,
            final(self)@.pages == old(self)@.pages.push(object_key(number, generation)),
    {
        self.pages.push((number, generation));
        assert(self@.pages =~= old(self)@.pages.push(object_key(number, generation)));
    }

    /// The object with the given id, as it stands in the file.
    pub fn get(&self, number: u32, generation: u16) -> (r: Option<&PdfObject>)
        ensures
            (match r {
                Some(o) => self@.objects.contains_key(object_key(number, generation))
                    && self@.objects[object_key(number, generation)] == o@,
                None => !self@.objects.contains_key(object_key(number, generation)),
            }),
    {
        self.objects.get(&pack(number, generation))
    }

    /// The number of objects.
    pub fn object_count(&self) -> (r: usize)
        ensures
            r == self@.objects.len(),
    {
        assert(self@.objects.dom() =~= self.objects@.dom());
        self.objects.len()
    }
}

} // verus!
