//! Finding and describing the images of a PDF file's pages, over the plain
//! values of [`crate::pdf_model`].

use crate::pdf_model::{
    array_values, composite_value, entry_values, key_of, keys_of, object_key, ObjModel, PdfEntry,
    PdfFile, PdfObject,
};
use crate::text::to_chars;
use vstd::prelude::*;

verus! {

broadcast use composite_value;

/// How many references in a row are followed before giving up.
pub const DEREF_LIMIT: usize = 128;

/// How many levels of the page tree are searched for inherited resources.
pub const PAGE_TREE_LEVELS: usize = 64;

/// The bytes of an ASCII text.
pub open spec fn ascii(s: Seq<char>) -> Seq<u8> {
    s.map_values(|c: char| c as u8)
}

/// The object that `key` stands for, once references have been followed, by its
/// own key.
pub open spec fn follow(objs: Map<u64, ObjModel>, key: u64, hops: nat) -> Option<u64>
    decreases hops,
{
    if !objs.contains_key(key) {
        None
    } else {
        match objs[key] {
            ObjModel::Reference(next) => if hops == 0 {
                None
            } else {
                follow(objs, next, (hops - 1) as nat)
            },
            _ => Some(key),
        }
    }
}

/// The object with the given key, once references have been followed.
pub open spec fn object_at(objs: Map<u64, ObjModel>, key: u64) -> Option<ObjModel> {
    match follow(objs, key, DEREF_LIMIT as nat) {
        Some(k) => Some(objs[k]),
        None => None,
    }
}

/// What `o` stands for: the object it refers to, or itself.
pub open spec fn resolved(objs: Map<u64, ObjModel>, o: ObjModel) -> Option<ObjModel> {
    match o {
        ObjModel::Reference(key) => object_at(objs, key),
        _ => Some(o),
    }
}

/// The value of `key` in a dictionary.
pub open spec fn entry_at(d: Seq<(Seq<u8>, ObjModel)>, key: Seq<u8>) -> Option<ObjModel>
    decreases d.len(),
{
    if d.len() == 0 {
        None
    } else if d[0].0 == key {
        Some(d[0].1)
    } else {
        entry_at(d.skip(1), key)
    }
}

/// What the value of `key` in a dictionary stands for.
pub open spec fn resolved_entry(
    objs: Map<u64, ObjModel>,
    d: Seq<(Seq<u8>, ObjModel)>,
    key: Seq<u8>,
) -> Option<ObjModel> {
    match entry_at(d, key) {
        Some(o) => resolved(objs, o),
        None => None,
    }
}

/// An integer entry of a dictionary.
pub open spec fn int_entry(
    objs: Map<u64, ObjModel>,
    d: Seq<(Seq<u8>, ObjModel)>,
    key: Seq<u8>,
) -> Option<i64> {
    match resolved_entry(objs, d, key) {
        Some(ObjModel::Integer(n)) => Some(n),
        _ => None,
    }
}

/// A dictionary entry of a dictionary.
pub open spec fn dict_entry(
    objs: Map<u64, ObjModel>,
    d: Seq<(Seq<u8>, ObjModel)>,
    key: Seq<u8>,
) -> Option<Seq<(Seq<u8>, ObjModel)>> {
    match resolved_entry(objs, d, key) {
        Some(ObjModel::Dictionary(e)) => Some(e),
        _ => None,
    }
}

/// The XObject dictionary of a page, which may be inherited from a node above it
/// in the page tree.
pub open spec fn xobjects(objs: Map<u64, ObjModel>, node: u64, levels: nat) -> Option<
    Seq<(Seq<u8>, ObjModel)>,
>
    decreases levels,
{
    if levels == 0 {
        None
    } else {
        match object_at(objs, node) {
            Some(ObjModel::Dictionary(d)) => {
                let own = match dict_entry(objs, d, ascii("Resources"@)) {
                    Some(res) => dict_entry(objs, res, ascii("XObject"@)),
                    None => None,
                };
                match own {
                    Some(x) => Some(x),
                    None => match entry_at(d, ascii("Parent"@)) {
                        Some(ObjModel::Reference(up)) => xobjects(objs, up, (levels - 1) as nat),
                        _ => None,
                    },
                }
            },
            _ => None,
        }
    }
}

/// Whether a stream's dictionary says that it is an image.
pub open spec fn image_dict(objs: Map<u64, ObjModel>, d: Seq<(Seq<u8>, ObjModel)>) -> bool {
    resolved_entry(objs, d, ascii("Subtype"@)) == Some(ObjModel::Name(ascii("Image"@)))
}

pub open spec fn or_zero(n: Option<i64>) -> int {
    match n {
        Some(n) => n as int,
        None => 0,
    }
}

/// The key and the area of the image that an XObject entry refers to.
pub open spec fn candidate(objs: Map<u64, ObjModel>, value: ObjModel) -> Option<(u64, int)> {
    match value {
        ObjModel::Reference(key) => match object_at(objs, key) {
            Some(ObjModel::Stream(d)) => if image_dict(objs, d) {
                Some(
                    (
                        key,
                        or_zero(int_entry(objs, d, ascii("Width"@))) * or_zero(
                            int_entry(objs, d, ascii("Height"@)),
                        ),
                    ),
                )
            } else {
                None
            },
            _ => None,
        },
        _ => None,
    }
}

/// The first image of the largest area among the entries of an XObject
/// dictionary.
pub open spec fn largest(objs: Map<u64, ObjModel>, d: Seq<(Seq<u8>, ObjModel)>) -> Option<
    (u64, int),
>
    decreases d.len(),
{
    if d.len() == 0 {
        None
    } else {
        let before = largest(objs, d.drop_last());
        match (before, candidate(objs, d.last().1)) {
            (Some(b), Some(c)) => if c.1 > b.1 {
                Some(c)
            } else {
                Some(b)
            },
            (None, c) => c,
            (b, None) => b,
        }
    }
}

/// The key of a page's image, if it has one.
pub open spec fn image_of_page(objs: Map<u64, ObjModel>, page: u64) -> Option<u64> {
    match xobjects(objs, page, PAGE_TREE_LEVELS as nat) {
        Some(d) => match largest(objs, d) {
            Some(b) => Some(b.0),
            None => None,
        },
        None => None,
    }
}

/// The images of the given pages, in order; a page without one is passed over.
pub open spec fn images_of(objs: Map<u64, ObjModel>, pages: Seq<u64>) -> Seq<u64>
    decreases pages.len(),
{
    if pages.len() == 0 {
        Seq::empty()
    } else {
        let before = images_of(objs, pages.drop_last());
        match image_of_page(objs, pages.last()) {
            Some(key) => before.push(key),
            None => before,
        }
    }
}

/// The names among the given objects.
pub open spec fn names_among(objs: Map<u64, ObjModel>, items: Seq<ObjModel>) -> Seq<Seq<u8>>
    decreases items.len(),
{
    if items.len() == 0 {
        Seq::empty()
    } else {
        let before = names_among(objs, items.drop_last());
        match resolved(objs, items.last()) {
            Some(ObjModel::Name(n)) => before.push(n),
            _ => before,
        }
    }
}

/// The filters of a stream, in decoding order.
pub open spec fn filters_of(objs: Map<u64, ObjModel>, d: Seq<(Seq<u8>, ObjModel)>) -> Seq<
    Seq<u8>,
> {
    match resolved_entry(objs, d, ascii("Filter"@)) {
        Some(ObjModel::Name(n)) => seq![n],
        Some(ObjModel::Array(items)) => names_among(objs, items),
        _ => Seq::empty(),
    }
}

/// Where a palette's table is found.
pub enum PaletteModel {
    Bytes(Seq<u8>),
    /// The decompressed data of the stream with this key.
    Stream(u64),
}

/// A colour space whose palette may still be compressed.
pub enum SpaceModel {
    Gray,
    Rgb,
    Cmyk,
    Indexed { base: nat, palette: PaletteModel },
}

impl SpaceModel {
    /// The number of components per pixel.
    pub open spec fn component_count(self) -> nat {
        match self {
            SpaceModel::Gray => 1,
            SpaceModel::Indexed { .. } => 1,
            SpaceModel::Rgb => 3,
            SpaceModel::Cmyk => 4,
        }
    }
}

/// The device and calibrated spaces by name.
pub open spec fn space_by_name(n: Seq<u8>) -> Option<SpaceModel> {
    if n == ascii("DeviceGray"@) || n == ascii("G"@) || n == ascii("CalGray"@) {
        Some(SpaceModel::Gray)
    } else if n == ascii("DeviceRGB"@) || n == ascii("RGB"@) || n == ascii("CalRGB"@) {
        Some(SpaceModel::Rgb)
    } else if n == ascii("DeviceCMYK"@) || n == ascii("CMYK"@) {
        Some(SpaceModel::Cmyk)
    } else {
        None
    }
}

/// A palette's table: a byte string, or a stream. A stream is always an
/// indirect object.
pub open spec fn palette_of(objs: Map<u64, ObjModel>, o: ObjModel) -> Option<PaletteModel> {
    match o {
        ObjModel::Text(t) => Some(PaletteModel::Bytes(t)),
        ObjModel::Reference(key) => match follow(objs, key, DEREF_LIMIT as nat) {
            Some(k) => match objs[k] {
                ObjModel::Text(t) => Some(PaletteModel::Bytes(t)),
                ObjModel::Stream(d) => Some(PaletteModel::Stream(k)),
                _ => None,
            },
            None => None,
        },
        _ => None,
    }
}

/// The colour space of an ICC profile, by its number of components.
pub open spec fn icc_space(objs: Map<u64, ObjModel>, items: Seq<ObjModel>) -> Option<SpaceModel> {
    if items.len() < 2 {
        None
    } else {
        match resolved(objs, items[1]) {
            Some(ObjModel::Stream(d)) => match int_entry(objs, d, ascii("N"@)) {
                Some(n) => if n == 1 {
                    Some(SpaceModel::Gray)
                } else if n == 4 {
                    Some(SpaceModel::Cmyk)
                } else {
                    Some(SpaceModel::Rgb)
                },
                None => None,
            },
            _ => None,
        }
    }
}

/// The colour space that `o` describes. `refs` bounds how many references are
/// followed from one space to its base, so a space that refers to itself is
/// none.
pub open spec fn space_of(objs: Map<u64, ObjModel>, o: ObjModel, refs: nat) -> Option<SpaceModel>
    decreases refs, o,
{
    match o {
        ObjModel::Reference(key) => if refs == 0 {
            None
        } else {
            match object_at(objs, key) {
                Some(ObjModel::Reference(_)) => None,
                Some(target) => space_of(objs, target, (refs - 1) as nat),
                None => None,
            }
        },
        ObjModel::Name(n) => space_by_name(n),
        ObjModel::Array(items) => if items.len() == 0 {
            None
        } else {
            match items[0] {
                ObjModel::Name(head) => if head == ascii("ICCBased"@) {
                    icc_space(objs, items)
                } else if head == ascii("CalRGB"@) || head == ascii("Lab"@) {
                    Some(SpaceModel::Rgb)
                } else if head == ascii("CalGray"@) {
                    Some(SpaceModel::Gray)
                } else if head == ascii("Indexed"@) || head == ascii("I"@) {
                    if items.len() < 4 {
                        None
                    } else {
                        match (space_of(objs, items[1], refs), palette_of(objs, items[3])) {
                            (Some(base), Some(palette)) => Some(
                                SpaceModel::Indexed { base: base.component_count(), palette },
                            ),
                            _ => None,
                        }
                    }
                } else {
                    None
                },
                _ => None,
            }
        },
        _ => None,
    }
}

/// How a page's image is turned into pixels.
pub enum PlanModel {
    /// The stream's data is a whole JPEG or JPEG 2000 file.
    Encoded(u64),
    /// The stream decompresses to samples.
    Raw { key: u64, width: u32, height: u32, bpc: i64, space: SpaceModel },
}

/// The plan for the image with the given key; None for an image whose encoding
/// cannot be turned into pixels.
pub open spec fn plan_of(objs: Map<u64, ObjModel>, key: u64) -> Option<PlanModel> {
    match follow(objs, key, DEREF_LIMIT as nat) {
        Some(k) => match objs[k] {
            ObjModel::Stream(d) => {
                let filters = filters_of(objs, d);
                if filters.len() > 0 && (filters.last() == ascii("DCTDecode"@) || filters.last()
                    == ascii("JPXDecode"@)) {
                    Some(PlanModel::Encoded(k))
                } else {
                    match (
                        int_entry(objs, d, ascii("Width"@)),
                        int_entry(objs, d, ascii("Height"@)),
                        entry_at(d, ascii("ColorSpace"@)),
                    ) {
                        (Some(w), Some(h), Some(cs)) => match space_of(objs, cs, objs.len()) {
                            Some(space) => if w as u32 == 0 || h as u32 == 0 {
                                None
                            } else {
                                Some(
                                    PlanModel::Raw {
                                        key: k,
                                        width: w as u32,
                                        height: h as u32,
                                        bpc: match int_entry(objs, d, ascii("BitsPerComponent"@)) {
                                            Some(n) => n,
                                            None => 8,
                                        },
                                        space,
                                    },
                                )
                            },
                            None => None,
                        },
                        _ => None,
                    }
                }
            },
            _ => None,
        },
        None => None,
    }
}

/// The chosen image is the largest: no image of the dictionary has a larger
/// area, and every image in front of it has a smaller one. There is none only
/// if the dictionary holds no image.
pub proof fn largest_image_is_first_of_largest_area(
    objs: Map<u64, ObjModel>,
    d: Seq<(Seq<u8>, ObjModel)>,
)
    ensures
        (match largest(objs, d) {
            Some(b) => exists|i: int|
                #![trigger d[i]]
                0 <= i < d.len() && candidate(objs, d[i].1) == Some(b) && (forall|j: int|
                    #![trigger d[j]]
                    0 <= j < d.len() ==> match candidate(objs, d[j].1) {
                        Some(c) => c.1 <= b.1 && (j < i ==> c.1 < b.1),
                        None => true,
                    }),
            None => forall|j: int|
                #![trigger d[j]]
                0 <= j < d.len() ==> candidate(objs, d[j].1) is None,
        }),
    decreases d.len(),
{
    if d.len() > 0 {
        let init = d.drop_last();
        let n = init.len() as int;
        largest_image_is_first_of_largest_area(objs, init);
        assert forall|j: int| 0 <= j < n implies #[trigger] d[j] == init[j] by {}
        assert(d.last() == d[n]);
        match (largest(objs, init), candidate(objs, d.last().1)) {
            (Some(b), c) => {
                let i = choose|i: int|
                    #![trigger init[i]]
                    0 <= i < init.len() && candidate(objs, init[i].1) == Some(b) && (forall|j: int|
                        #![trigger init[j]]
                        0 <= j < init.len() ==> match candidate(objs, init[j].1) {
                            Some(c) => c.1 <= b.1 && (j < i ==> c.1 < b.1),
                            None => true,
                        });
                let w = match c {
                    Some(c) => if c.1 > b.1 {
                        n
                    } else {
                        i
                    },
                    None => i,
                };
                assert(d[w] == d[w]);
                assert(d[i] == init[i]);
                assert forall|j: int| #![trigger d[j]] 0 <= j < d.len() implies match candidate(
                    objs,
                    d[j].1,
                ) {
                    Some(x) => x.1 <= largest(objs, d).unwrap().1 && (j < w ==> x.1 < largest(
                        objs,
                        d,
                    ).unwrap().1),
                    None => true,
                } by {
                    if j < n {
                        assert(d[j] == init[j]);
                    }
                }
            },
            (None, Some(c)) => {
                assert(d[n] == d.last());
                assert forall|j: int| #![trigger d[j]] 0 <= j < d.len() implies match candidate(
                    objs,
                    d[j].1,
                ) {
                    Some(x) => x.1 <= c.1 && (j < n ==> x.1 < c.1),
                    None => true,
                } by {
                    if j < n {
                        assert(d[j] == init[j]);
                    }
                }
            },
            (None, None) => {
                assert forall|j: int| #![trigger d[j]] 0 <= j < d.len() implies candidate(
                    objs,
                    d[j].1,
                ) is None by {
                    if j < n {
                        assert(d[j] == init[j]);
                    }
                }
            },
        }
    }
}

/// A larger bound on references never changes a colour space that was found.
pub proof fn space_bound_is_generous(objs: Map<u64, ObjModel>, o: ObjModel, refs: nat, more: nat)
    requires
        refs <= more,
        space_of(objs, o, refs) is Some,
    ensures
        space_of(objs, o, more) == space_of(objs, o, refs),
    decreases refs, o,
{
    match o {
        ObjModel::Reference(key) => {
            space_bound_is_generous(
                objs,
                object_at(objs, key).unwrap(),
                (refs - 1) as nat,
                (more - 1) as nat,
            );
        },
        ObjModel::Array(items) => {
            match items[0] {
                ObjModel::Name(head) => {
                    if head != ascii("ICCBased"@) && head != ascii("CalRGB"@) && head != ascii(
                        "Lab"@,
                    ) && head != ascii("CalGray"@) {
                        space_bound_is_generous(objs, items[1], refs, more);
                    }
                },
                _ => {},
            }
        },
        _ => {},
    }
}

/// What references lead to is an object of the file.
pub proof fn followed_key_exists(objs: Map<u64, ObjModel>, key: u64, hops: nat)
    ensures
        follow(objs, key, hops) matches Some(k) ==> objs.contains_key(k),
    decreases hops,
{
    if objs.contains_key(key) {
        match objs[key] {
            ObjModel::Reference(next) => {
                if hops > 0 {
                    followed_key_exists(objs, next, (hops - 1) as nat);
                }
            },
            _ => {},
        }
    }
}

/// That `o` describes a colour space which takes exactly `refs` references.
spec fn takes(objs: Map<u64, ObjModel>, o: ObjModel, refs: nat) -> bool {
    &&& space_of(objs, o, refs) is Some
    &&& refs > 0 ==> space_of(objs, o, (refs - 1) as nat) is None
}

/// That the object with the given key takes exactly `refs` references.
spec fn key_takes(objs: Map<u64, ObjModel>, key: u64, refs: nat) -> bool {
    objs.contains_key(key) && takes(objs, objs[key], refs)
}

/// A key whose object takes exactly `refs` references, if there is one.
spec fn key_taking(objs: Map<u64, ObjModel>, refs: nat) -> u64 {
    choose|key: u64| key_takes(objs, key, refs)
}

/// A space that takes references passes by an object for each lesser count.
proof fn lesser_counts_occur(objs: Map<u64, ObjModel>, o: ObjModel, refs: nat, j: nat)
    requires
        takes(objs, o, refs),
        j < refs,
    ensures
        exists|key: u64| key_takes(objs, key, j),
    decreases refs, o,
{
    match o {
        ObjModel::Reference(key) => {
            followed_key_exists(objs, key, DEREF_LIMIT as nat);
            let k = follow(objs, key, DEREF_LIMIT as nat).unwrap();
            assert(key_takes(objs, k, (refs - 1) as nat));
            if j < refs - 1 {
                lesser_counts_occur(objs, objs[k], (refs - 1) as nat, j);
            }
        },
        ObjModel::Array(items) => {
            lesser_counts_occur(objs, items[1], refs, j);
        },
        _ => {},
    }
}

/// A space that takes references takes no more of them than there are objects.
proof fn count_is_bounded(objs: Map<u64, ObjModel>, o: ObjModel, refs: nat)
    requires
        objs.dom().finite(),
        takes(objs, o, refs),
    ensures
        refs <= objs.len(),
{
    let keys = Seq::new(refs, |j: int| key_taking(objs, j as nat));
    assert forall|j: int| 0 <= j < refs implies key_takes(objs, #[trigger] keys[j], j as nat) by {
        lesser_counts_occur(objs, o, refs, j as nat);
    }
    assert forall|i: int, j: int| 0 <= i < j < refs implies keys[i] != keys[j] by {
        assert(key_takes(objs, keys[i], i as nat) && key_takes(objs, keys[j], j as nat));
        if keys[i] == keys[j] {
            space_bound_is_generous(objs, objs[keys[i]], i as nat, (j - 1) as nat);
        }
    }
    assert(keys.no_duplicates());
    keys.unique_seq_to_set();
    assert(keys.to_set().subset_of(objs.dom()));
    vstd::set_lib::lemma_len_subset(keys.to_set(), objs.dom());
}

/// As many references as the file has objects are enough: a colour space that is
/// found with any bound is found with that one.
pub proof fn object_count_bounds_spaces(objs: Map<u64, ObjModel>, o: ObjModel, refs: nat)
    requires
        objs.dom().finite(),
        space_of(objs, o, refs) is Some,
    ensures
        space_of(objs, o, objs.len()) == space_of(objs, o, refs),
    decreases refs,
{
    if takes(objs, o, refs) {
        count_is_bounded(objs, o, refs);
        space_bound_is_generous(objs, o, refs, objs.len());
    } else {
        object_count_bounds_spaces(objs, o, (refs - 1) as nat);
        space_bound_is_generous(objs, o, (refs - 1) as nat, refs);
    }
}

/// Where a palette's table is found.
pub enum PaletteSource {
    Bytes(Vec<u8>),
    Stream(u32, u16),
}

/// A colour space whose palette may still be compressed.
pub enum Space {
    Gray,
    Rgb,
    Cmyk,
    Indexed { base: usize, palette: PaletteSource },
}

/// How a page's image is turned into pixels.
pub enum ImagePlan {
    Encoded(u32, u16),
    Raw { number: u32, generation: u16, width: u32, height: u32, bpc: i64, space: Space },
}

impl View for PaletteSource {
    type V = PaletteModel;

    open spec fn view(&self) -> PaletteModel {
        match self {
            PaletteSource::Bytes(b) => PaletteModel::Bytes(b@),
            PaletteSource::Stream(n, g) => PaletteModel::Stream(object_key(*n, *g)),
        }
    }
}

impl View for Space {
    type V = SpaceModel;

    open spec fn view(&self) -> SpaceModel {
        match self {
            Space::Gray => SpaceModel::Gray,
            Space::Rgb => SpaceModel::Rgb,
            Space::Cmyk => SpaceModel::Cmyk,
            Space::Indexed { base, palette } => SpaceModel::Indexed {
                base: *base as nat,
                palette: palette@,
            },
        }
    }
}

impl View for ImagePlan {
    type V = PlanModel;

    open spec fn view(&self) -> PlanModel {
        match self {
            ImagePlan::Encoded(n, g) => PlanModel::Encoded(object_key(*n, *g)),
            ImagePlan::Raw { number, generation, width, height, bpc, space } => PlanModel::Raw {
                key: object_key(*number, *generation),
                width: *width,
                height: *height,
                bpc: *bpc,
                space: space@,
            },
        }
    }
}

/// Whether `v` holds the bytes of `text`.
fn bytes_are(v: &Vec<u8>, text: &str) -> (r: bool)
    ensures
        r == (v@ == ascii(text@)),
{
    let t = to_chars(text);
    if v.len() != t.len() {
        assert(v@.len() != ascii(text@).len());
        return false;
    }
    for i in 0..v.len()
        invariant
            v@.len() == t@.len(),
            t@ == text@,
            forall|j: int| 0 <= j < i ==> v@[j] == ascii(text@)[j],
    {
        if v[i] != t[i] as u8 {
            assert(v@[i as int] != ascii(text@)[i as int]);
            return false;
        }
    }
    assert(v@ =~= ascii(text@));
    true
}

/// The id of the object that the given id stands for, once references have been
/// followed.
pub fn locate(file: &PdfFile, number: u32, generation: u16) -> (r: Option<(u32, u16)>)
    ensures
        (match r {
            Some(id) => follow(file@.objects, object_key(number, generation), DEREF_LIMIT as nat)
                == Some(key_of(id)) && file@.objects.contains_key(key_of(id)),
            None => follow(
                file@.objects,
                object_key(number, generation),
                DEREF_LIMIT as nat,
            ) is None,
        }),
{
    let ghost objs = file@.objects;
    let ghost start = object_key(number, generation);
    let mut n: u32 = number;
    let mut g: u16 = generation;
    let mut hops: usize = DEREF_LIMIT;
    loop
        invariant
            objs == file@.objects,
            start == object_key(number, generation),
            follow(objs, start, DEREF_LIMIT as nat) == follow(objs, object_key(n, g), hops as nat),
        decreases hops,
    {
        match file.get(n, g) {
            None => return None,
            Some(PdfObject::Reference(n2, g2)) => {
                if hops == 0 {
                    return None;
                }
                n = *n2;
                g = *g2;
                hops = hops - 1;
            },
            Some(_) => return Some((n, g)),
        }
    }
}

/// The object with the given id, once references have been followed.
fn object_by_id<'a>(file: &'a PdfFile, number: u32, generation: u16) -> (r: Option<&'a PdfObject>)
    ensures
        (match r {
            Some(o) => object_at(file@.objects, object_key(number, generation)) == Some(o@),
            None => object_at(file@.objects, object_key(number, generation)) is None,
        }),
{
    match locate(file, number, generation) {
        Some((n, g)) => file.get(n, g),
        None => None,
    }
}

/// Follow an indirect reference to the object it names; pass other objects
/// through unchanged.
pub fn resolve<'a>(file: &'a PdfFile, o: &'a PdfObject) -> (r: Option<&'a PdfObject>)
    ensures
        (match r {
            Some(x) => resolved(file@.objects, o@) == Some(x@),
            None => resolved(file@.objects, o@) is None,
        }),
{
    match o {
        PdfObject::Reference(n, g) => object_by_id(file, *n, *g),
        _ => Some(o),
    }
}

/// The value of `key` in a dictionary.
fn find_entry<'a>(d: &'a Vec<PdfEntry>, key: &str) -> (r: Option<&'a PdfObject>)
    ensures
        (match r {
            Some(o) => entry_at(entry_values(d@), ascii(key@)) == Some(o@),
            None => entry_at(entry_values(d@), ascii(key@)) is None,
        }),
{
    let ghost all = entry_values(d@);
    assert(all.skip(0) =~= all);
    for i in 0..d.len()
        invariant
            all == entry_values(d@),
            entry_at(all, ascii(key@)) == entry_at(all.skip(i as int), ascii(key@)),
    {
        let ghost rest = all.skip(i as int);
        assert(rest[0] == (d@[i as int].key@, d@[i as int].value@));
        if bytes_are(&d[i].key, key) {
            return Some(&d[i].value);
        }
        assert(rest.skip(1) =~= all.skip(i + 1));
    }
    None
}

/// What the value of `key` in a dictionary stands for.
fn find_resolved<'a>(file: &'a PdfFile, d: &'a Vec<PdfEntry>, key: &str) -> (r: Option<
    &'a PdfObject,
>)
    ensures
        (match r {
            Some(o) => resolved_entry(file@.objects, entry_values(d@), ascii(key@)) == Some(o@),
            None => resolved_entry(file@.objects, entry_values(d@), ascii(key@)) is None,
        }),
{
    match find_entry(d, key) {
        Some(o) => resolve(file, o),
        None => None,
    }
}

/// An integer entry of a dictionary.
pub fn dict_int(file: &PdfFile, d: &Vec<PdfEntry>, key: &str) -> (r: Option<i64>)
    ensures
        r == int_entry(file@.objects, entry_values(d@), ascii(key@)),
{
    match find_resolved(file, d, key) {
        Some(PdfObject::Integer(n)) => Some(*n),
        _ => None,
    }
}

/// A dictionary entry of a dictionary.
pub fn resolve_dict<'a>(file: &'a PdfFile, d: &'a Vec<PdfEntry>, key: &str) -> (r: Option<
    &'a Vec<PdfEntry>,
>)
    ensures
        (match r {
            Some(e) => dict_entry(file@.objects, entry_values(d@), ascii(key@)) == Some(
                entry_values(e@),
            ),
            None => dict_entry(file@.objects, entry_values(d@), ascii(key@)) is None,
        }),
{
    match find_resolved(file, d, key) {
        Some(PdfObject::Dictionary(e)) => Some(e),
        _ => None,
    }
}

/// A page's XObject dictionary, resolving resources inherited from an ancestor
/// in the page tree.
pub fn page_xobjects<'a>(file: &'a PdfFile, number: u32, generation: u16) -> (r: Option<
    &'a Vec<PdfEntry>,
>)
    ensures
        (match r {
            Some(d) => xobjects(
                file@.objects,
                object_key(number, generation),
                PAGE_TREE_LEVELS as nat,
            ) == Some(entry_values(d@)),
            None => xobjects(
                file@.objects,
                object_key(number, generation),
                PAGE_TREE_LEVELS as nat,
            ) is None,
        }),
{
    let ghost objs = file@.objects;
    let ghost start = object_key(number, generation);
    let mut n: u32 = number;
    let mut g: u16 = generation;
    let mut levels: usize = PAGE_TREE_LEVELS;
    while levels > 0
        invariant
            objs == file@.objects,
            start == object_key(number, generation),
            xobjects(objs, start, PAGE_TREE_LEVELS as nat) == xobjects(
                objs,
                object_key(n, g),
                levels as nat,
            ),
        decreases levels,
    {
        let dict: &'a Vec<PdfEntry> = match object_by_id(file, n, g) {
            Some(PdfObject::Dictionary(d)) => d,
            _ => return None,
        };
        if let Some(res) = resolve_dict(file, dict, "Resources") {
            if let Some(x) = resolve_dict(file, res, "XObject") {
                return Some(x);
            }
        }
        match find_entry(dict, "Parent") {
            Some(PdfObject::Reference(n2, g2)) => {
                n = *n2;
                g = *g2;
            },
            _ => return None,
        }
        levels = levels - 1;
    }
    None
}

/// Whether a stream's dictionary says that it is an image.
pub fn is_image(file: &PdfFile, d: &Vec<PdfEntry>) -> (r: bool)
    ensures
        r == image_dict(file@.objects, entry_values(d@)),
{
    match find_resolved(file, d, "Subtype") {
        Some(PdfObject::Name(n)) => bytes_are(n, "Image"),
        _ => false,
    }
}

/// The area of the image that the given id stands for.
fn image_area(file: &PdfFile, number: u32, generation: u16) -> (r: Option<i128>)
    ensures
        (match r {
            Some(a) => candidate(
                file@.objects,
                ObjModel::Reference(object_key(number, generation)),
            ) == Some((object_key(number, generation), a as int)),
            None => candidate(
                file@.objects,
                ObjModel::Reference(object_key(number, generation)),
            ) is None,
        }),
{
    match object_by_id(file, number, generation) {
        Some(PdfObject::Stream(d)) => {
            if !is_image(file, d) {
                return None;
            }
            let w: i64 = match dict_int(file, d, "Width") {
                Some(w) => w,
                None => 0,
            };
            let h: i64 = match dict_int(file, d, "Height") {
                Some(h) => h,
                None => 0,
            };
            assert(-0x4000_0000_0000_0000_0000_0000_0000_0000 <= w * h
                <= 0x4000_0000_0000_0000_0000_0000_0000_0000) by (nonlinear_arith)
                requires
                    -0x8000_0000_0000_0000 <= w <= 0x7fff_ffff_ffff_ffff,
                    -0x8000_0000_0000_0000 <= h <= 0x7fff_ffff_ffff_ffff,
            ;
            Some(w as i128 * h as i128)
        },
        _ => None,
    }
}

/// The id of a page's largest image, if it has any; of equally large images the
/// first. Images nested inside form XObjects are not looked for.
pub fn page_image(file: &PdfFile, number: u32, generation: u16) -> (r: Option<(u32, u16)>)
    ensures
        (match r {
            Some(id) => image_of_page(file@.objects, object_key(number, generation)) == Some(
                key_of(id),
            ),
            None => image_of_page(file@.objects, object_key(number, generation)) is None,
        }),
{
    let d: &Vec<PdfEntry> = match page_xobjects(file, number, generation) {
        Some(d) => d,
        None => return None,
    };
    let ghost all = entry_values(d@);
    let mut best: Option<(i128, u32, u16)> = None;
    for i in 0..d.len()
        invariant
            all == entry_values(d@),
            (match best {
                Some(b) => largest(file@.objects, all.take(i as int)) == Some(
                    (object_key(b.1, b.2), b.0 as int),
                ),
                None => largest(file@.objects, all.take(i as int)) is None,
            }),
    {
        let ghost upto = all.take(i + 1);
        assert(upto.drop_last() =~= all.take(i as int));
        assert(upto.last().1 == d@[i as int].value@);
        if let PdfObject::Reference(n, g) = &d[i].value {
            if let Some(area) = image_area(file, *n, *g) {
                let better: bool = match best {
                    Some((a, _, _)) => area > a,
                    None => true,
                };
                if better {
                    best = Some((area, *n, *g));
                }
            }
        }
    }
    assert(all.take(d@.len() as int) =~= all);
    match best {
        Some((_, n, g)) => Some((n, g)),
        None => None,
    }
}

/// The images of a file's pages, in reading order.
pub fn page_images(file: &PdfFile) -> (r: Vec<(u32, u16)>)
    ensures
        keys_of(r@) == images_of(file@.objects, file@.pages),
{
    let mut images: Vec<(u32, u16)> = Vec::new();
    let ghost pages = file@.pages;
    assert(keys_of(images@) =~= images_of(file@.objects, pages.take(0)));
    for i in 0..file.pages.len()
        invariant
            pages == keys_of(file.pages@),
            pages == file@.pages,
            keys_of(images@) == images_of(file@.objects, pages.take(i as int)),
    {
        let ghost upto = pages.take(i + 1);
        assert(upto.drop_last() =~= pages.take(i as int));
        let (n, g) = file.pages[i];
        assert(upto.last() == object_key(n, g));
        if let Some(id) = page_image(file, n, g) {
            let ghost before = keys_of(images@);
            images.push(id);
            assert(keys_of(images@) =~= before.push(key_of(id)));
        }
    }
    assert(pages.take(file.pages@.len() as int) =~= pages);
    images
}

fn copy_bytes(b: &Vec<u8>) -> (r: Vec<u8>)
    ensures
        r@ == b@,
{
    let mut out: Vec<u8> = Vec::new();
    out.extend_from_slice(b.as_slice());
    assert(out@ =~= b@);
    out
}

/// The last filter of a stream, which is the image's own pixel codec.
fn last_filter(file: &PdfFile, d: &Vec<PdfEntry>) -> (r: Option<Vec<u8>>)
    ensures
        ({
            let filters = filters_of(file@.objects, entry_values(d@));
            match r {
                Some(n) => filters.len() > 0 && n@ == filters.last(),
                None => filters.len() == 0,
            }
        }),
{
    let names = filter_names(file, d);
    if names.len() == 0 {
        None
    } else {
        Some(copy_bytes(&names[names.len() - 1]))
    }
}

/// The filters of a stream, in decoding order.
pub fn filter_names(file: &PdfFile, d: &Vec<PdfEntry>) -> (r: Vec<Vec<u8>>)
    ensures
        r@.map_values(|n: Vec<u8>| n@) == filters_of(file@.objects, entry_values(d@)),
{
    let mut out: Vec<Vec<u8>> = Vec::new();
    match find_resolved(file, d, "Filter") {
        Some(PdfObject::Name(n)) => {
            out.push(copy_bytes(n));
            assert(out@.map_values(|n: Vec<u8>| n@) =~= seq![n@]);
        },
        Some(PdfObject::Array(items)) => {
            let ghost all = array_values(items@);
            assert(out@.map_values(|n: Vec<u8>| n@) =~= names_among(file@.objects, all.take(0)));
            for i in 0..items.len()
                invariant
                    all == array_values(items@),
                    out@.map_values(|n: Vec<u8>| n@) == names_among(
                        file@.objects,
                        all.take(i as int),
                    ),
            {
                let ghost upto = all.take(i + 1);
                assert(upto.drop_last() =~= all.take(i as int));
                assert(upto.last() == items@[i as int]@);
                let ghost before = out@.map_values(|n: Vec<u8>| n@);
                if let Some(PdfObject::Name(n)) = resolve(file, &items[i]) {
                    out.push(copy_bytes(n));
                    assert(out@.map_values(|n: Vec<u8>| n@) =~= before.push(n@));
                }
            }
            assert(all.take(items@.len() as int) =~= all);
        },
        _ => {
            assert(out@.map_values(|n: Vec<u8>| n@) =~= Seq::<Seq<u8>>::empty());
        },
    }
    out
}

/// The device and calibrated spaces by name.
pub fn named_space(name: &Vec<u8>) -> (r: Option<Space>)
    ensures
        (match r {
            Some(s) => space_by_name(name@) == Some(s@),
            None => space_by_name(name@) is None,
        }),
{
    if bytes_are(name, "DeviceGray") || bytes_are(name, "G") || bytes_are(name, "CalGray") {
        Some(Space::Gray)
    } else if bytes_are(name, "DeviceRGB") || bytes_are(name, "RGB") || bytes_are(name, "CalRGB") {
        Some(Space::Rgb)
    } else if bytes_are(name, "DeviceCMYK") || bytes_are(name, "CMYK") {
        Some(Space::Cmyk)
    } else {
        None
    }
}

fn space_components(s: &Space) -> (r: usize)
    ensures
        r == s@.component_count(),
{
    match s {
        Space::Gray => 1,
        Space::Indexed { .. } => 1,
        Space::Rgb => 3,
        Space::Cmyk => 4,
    }
}

/// Where the table of an indexed space is found, which may be a byte string or
/// a stream.
pub fn palette_source(file: &PdfFile, o: &PdfObject) -> (r: Option<PaletteSource>)
    ensures
        (match r {
            Some(p) => palette_of(file@.objects, o@) == Some(p@),
            None => palette_of(file@.objects, o@) is None,
        }),
{
    match o {
        PdfObject::Text(t) => Some(PaletteSource::Bytes(copy_bytes(t))),
        PdfObject::Reference(n, g) => match locate(file, *n, *g) {
            Some((n, g)) => match file.get(n, g) {
                Some(PdfObject::Text(t)) => Some(PaletteSource::Bytes(copy_bytes(t))),
                Some(PdfObject::Stream(_)) => Some(PaletteSource::Stream(n, g)),
                _ => None,
            },
            None => None,
        },
        _ => None,
    }
}

/// The colour space that `o` describes. `refs` bounds how many references are
/// followed from one space to its base.
pub fn color_space(file: &PdfFile, o: &PdfObject, refs: usize) -> (r: Option<Space>)
    ensures
        (match r {
            Some(s) => space_of(file@.objects, o@, refs as nat) == Some(s@),
            None => space_of(file@.objects, o@, refs as nat) is None,
        }),
    decreases refs, o,
{
    match o {
        PdfObject::Reference(n, g) => {
            if refs == 0 {
                return None;
            }
            match object_by_id(file, *n, *g) {
                Some(PdfObject::Reference(_, _)) => None,
                Some(target) => color_space(file, target, refs - 1),
                None => None,
            }
        },
        PdfObject::Name(n) => named_space(n),
        PdfObject::Array(items) => {
            let ghost all = array_values(items@);
            if items.len() == 0 {
                return None;
            }
            assert(all[0] == items@[0]@);
            match &items[0] {
                PdfObject::Name(head) => {
                    if bytes_are(head, "ICCBased") {
                        if items.len() < 2 {
                            return None;
                        }
                        assert(all[1] == items@[1]@);
                        match resolve(file, &items[1]) {
                            Some(PdfObject::Stream(d)) => match dict_int(file, d, "N") {
                                Some(1) => Some(Space::Gray),
                                Some(4) => Some(Space::Cmyk),
                                Some(_) => Some(Space::Rgb),
                                None => None,
                            },
                            _ => None,
                        }
                    } else if bytes_are(head, "CalRGB") || bytes_are(head, "Lab") {
                        Some(Space::Rgb)
                    } else if bytes_are(head, "CalGray") {
                        Some(Space::Gray)
                    } else if bytes_are(head, "Indexed") || bytes_are(head, "I") {
                        if items.len() < 4 {
                            return None;
                        }
                        assert(all[1] == items@[1]@);
                        assert(all[3] == items@[3]@);
                        match (color_space(file, &items[1], refs), palette_source(file, &items[3])) {
                            (Some(base), Some(palette)) => Some(
                                Space::Indexed { base: space_components(&base), palette },
                            ),
                            _ => None,
                        }
                    } else {
                        None
                    }
                },
                _ => None,
            }
        },
        _ => None,
    }
}

/// How the image with the given id is turned into pixels. An image whose last
/// filter is a JPEG or JPEG 2000 codec passes through untouched; everything else
/// is decompressed and expanded.
pub fn image_plan(file: &PdfFile, number: u32, generation: u16) -> (r: Option<ImagePlan>)
    ensures
        (match r {
            Some(p) => plan_of(file@.objects, object_key(number, generation)) == Some(p@),
            None => plan_of(file@.objects, object_key(number, generation)) is None,
        }),
{
    let (n, g): (u32, u16) = match locate(file, number, generation) {
        Some(id) => id,
        None => return None,
    };
    let dict: &Vec<PdfEntry> = match file.get(n, g) {
        Some(PdfObject::Stream(d)) => d,
        _ => return None,
    };
    if let Some(codec) = last_filter(file, dict) {
        if bytes_are(&codec, "DCTDecode") || bytes_are(&codec, "JPXDecode") {
            return Some(ImagePlan::Encoded(n, g));
        }
    }
    let width: u32 = match dict_int(file, dict, "Width") {
        Some(w) => w as u32,
        None => return None,
    };
    let height: u32 = match dict_int(file, dict, "Height") {
        Some(h) => h as u32,
        None => return None,
    };
    let bpc: i64 = match dict_int(file, dict, "BitsPerComponent") {
        Some(b) => b,
        None => 8,
    };
    let cs: &PdfObject = match find_entry(dict, "ColorSpace") {
        Some(cs) => cs,
        None => return None,
    };
    match color_space(file, cs, file.object_count()) {
        Some(space) => if width == 0 || height == 0 {
            None
        } else {
            Some(ImagePlan::Raw { number: n, generation: g, width, height, bpc, space })
        },
        None => None,
    }
}

/// Where a dictionary holds a key more than once, its first entry counts; a key that it does
/// not hold has no value.
pub proof fn first_entry_counts(d: Seq<(Seq<u8>, ObjModel)>, key: Seq<u8>, i: int)
    requires
        0 <= i <= d.len(),
        forall|j: int| 0 <= j < i ==> (#[trigger] d[j]).0 != key,
    ensures
        i < d.len() && d[i].0 == key ==> entry_at(d, key) == Some(d[i].1),
        i == d.len() ==> entry_at(d, key) is None,
    decreases i,
{
    if i > 0 {
        assert(d[0].0 != key);
        let rest = d.skip(1);
        assert forall|j: int| 0 <= j < i - 1 implies (#[trigger] rest[j]).0 != key by {
            assert(rest[j] == d[j + 1]);
        }
        if i < d.len() {
            assert(rest[i - 1] == d[i]);
        }
        first_entry_counts(rest, key, i - 1);
    }
}

/// A text stands for its characters, one byte each.
pub proof fn names_are_spelled_out(s: Seq<char>, i: int)
    requires
        0 <= i < s.len(),
    ensures
        ascii(s).len() == s.len(),
        ascii(s)[i] == s[i] as u8,
{
}

/// Whether each object of a chain refers to the next one, and the last one to none.
pub open spec fn is_reference_chain(objs: Map<u64, ObjModel>, chain: Seq<u64>) -> bool {
    &&& chain.len() > 0
    &&& forall|i: int| 0 <= i < chain.len() ==> objs.contains_key(#[trigger] chain[i])
    &&& forall|i: int|
        0 <= i < chain.len() - 1 ==> objs[#[trigger] chain[i]] == ObjModel::Reference(chain[i + 1])
    &&& objs[chain.last()] !is Reference
}

proof fn chain_is_followed(objs: Map<u64, ObjModel>, chain: Seq<u64>, hops: nat)
    requires
        is_reference_chain(objs, chain),
    ensures
        follow(objs, chain[0], hops) == (if chain.len() <= hops + 1 {
            Some(chain.last())
        } else {
            None
        }),
    decreases chain.len(),
{
    assert(objs.contains_key(chain[0]));
    if chain.len() > 1 {
        assert(objs[chain[0]] == ObjModel::Reference(chain[1]));
        let rest = chain.skip(1);
        if hops > 0 {
            assert forall|i: int| 0 <= i < rest.len() implies objs.contains_key(
                #[trigger] rest[i],
            ) by {
                assert(rest[i] == chain[i + 1]);
            }
            assert forall|i: int| 0 <= i < rest.len() - 1 implies objs[#[trigger] rest[i]]
                == ObjModel::Reference(rest[i + 1]) by {
                assert(rest[i] == chain[i + 1]);
                assert(rest[i + 1] == chain[i + 2]);
            }
            assert(rest.last() == chain.last());
            assert(rest[0] == chain[1]);
            chain_is_followed(objs, rest, (hops - 1) as nat);
        }
    }
}

/// References are followed to the object that is none, over up to 128 of them; a reference
/// to a missing object leads nowhere, and anything else stands for itself.
pub proof fn references_lead_to_their_object(objs: Map<u64, ObjModel>, chain: Seq<u64>)
    requires
        is_reference_chain(objs, chain),
    ensures
        chain.len() <= 129 ==> follow(objs, chain[0], DEREF_LIMIT as nat) == Some(chain.last()),
        chain.len() <= 129 ==> object_at(objs, chain[0]) == Some(objs[chain.last()]),
        chain.len() <= 129 ==> resolved(objs, ObjModel::Reference(chain[0])) == Some(
            objs[chain.last()],
        ),
        chain.len() > 129 ==> object_at(objs, chain[0]) is None,
        forall|key: u64|
            !objs.contains_key(key) ==> #[trigger] resolved(objs, ObjModel::Reference(key)) is None,
        forall|o: ObjModel| o !is Reference ==> #[trigger] resolved(objs, o) == Some(o),
{
    chain_is_followed(objs, chain, DEREF_LIMIT as nat);
}

/// A page's images are those of its own resources, or else of the nearest node above it that
/// has some, up to 64 nodes in all.
pub proof fn resources_are_inherited(
    objs: Map<u64, ObjModel>,
    chain: Seq<u64>,
    dicts: Seq<Seq<(Seq<u8>, ObjModel)>>,
    own: Seq<(Seq<u8>, ObjModel)>,
    images: Seq<(Seq<u8>, ObjModel)>,
    levels: nat,
)
    requires
        0 < chain.len() <= levels,
        dicts.len() == chain.len(),
        forall|i: int|
            0 <= i < chain.len() ==> object_at(objs, chain[i]) == Some(
                ObjModel::Dictionary(#[trigger] dicts[i]),
            ),
        forall|i: int|
            0 <= i < chain.len() - 1 ==> entry_at(#[trigger] dicts[i], ascii("Parent"@)) == Some(
                ObjModel::Reference(chain[i + 1]),
            ) && match dict_entry(objs, dicts[i], ascii("Resources"@)) {
                Some(r) => dict_entry(objs, r, ascii("XObject"@)) is None,
                None => true,
            },
        dict_entry(objs, dicts.last(), ascii("Resources"@)) == Some(own),
        dict_entry(objs, own, ascii("XObject"@)) == Some(images),
    ensures
        xobjects(objs, chain[0], levels) == Some(images),
        levels == 64 ==> image_of_page(objs, chain[0]) == (match largest(objs, images) {
            Some(b) => Some(b.0),
            None => None,
        }),
    decreases chain.len(),
{
    assert(object_at(objs, chain[0]) == Some(ObjModel::Dictionary(dicts[0])));
    if chain.len() > 1 {
        assert(entry_at(dicts[0], ascii("Parent"@)) == Some(ObjModel::Reference(chain[1])));
        let up = chain.skip(1);
        let rest = dicts.skip(1);
        assert forall|i: int| 0 <= i < up.len() implies object_at(objs, up[i]) == Some(
            ObjModel::Dictionary(#[trigger] rest[i]),
        ) by {
            assert(rest[i] == dicts[i + 1]);
            assert(up[i] == chain[i + 1]);
        }
        assert forall|i: int| 0 <= i < up.len() - 1 implies entry_at(
            #[trigger] rest[i],
            ascii("Parent"@),
        ) == Some(ObjModel::Reference(up[i + 1])) && match dict_entry(
            objs,
            rest[i],
            ascii("Resources"@),
        ) {
            Some(r) => dict_entry(objs, r, ascii("XObject"@)) is None,
            None => true,
        } by {
            assert(rest[i] == dicts[i + 1]);
            assert(up[i + 1] == chain[i + 2]);
        }
        assert(rest.last() == dicts.last());
        resources_are_inherited(objs, up, rest, own, images, (levels - 1) as nat);
    }
}

/// Only a stream that says it is an image is one, and only where it is referred to; its area
/// is its width times its height.
pub proof fn images_are_streams_that_say_so(
    objs: Map<u64, ObjModel>,
    key: u64,
    d: Seq<(Seq<u8>, ObjModel)>,
    o: ObjModel,
)
    ensures
        o !is Reference ==> candidate(objs, o) is None,
        !(object_at(objs, key) matches Some(ObjModel::Stream(_))) ==> candidate(
            objs,
            ObjModel::Reference(key),
        ) is None,
        object_at(objs, key) == Some(ObjModel::Stream(d)) && resolved_entry(
            objs,
            d,
            ascii("Subtype"@),
        ) != Some(ObjModel::Name(ascii("Image"@))) ==> candidate(objs, ObjModel::Reference(key)) is None,
        object_at(objs, key) == Some(ObjModel::Stream(d)) && resolved_entry(
            objs,
            d,
            ascii("Subtype"@),
        ) == Some(ObjModel::Name(ascii("Image"@))) ==> {
            let w = int_entry(objs, d, ascii("Width"@));
            let h = int_entry(objs, d, ascii("Height"@));
            &&& candidate(objs, ObjModel::Reference(key)) matches Some(c) && c.0 == key
            &&& w is Some && h is Some ==> candidate(objs, ObjModel::Reference(key)).unwrap().1
                == w.unwrap() * h.unwrap()
            &&& w is None || h is None ==> candidate(objs, ObjModel::Reference(key)).unwrap().1 == 0
        },
{
    if object_at(objs, key) == Some(ObjModel::Stream(d)) {
        let w = int_entry(objs, d, ascii("Width"@));
        let h = int_entry(objs, d, ascii("Height"@));
        assert(or_zero(w) * 0 == 0 && 0 * or_zero(h) == 0) by (nonlinear_arith);
    }
}

/// The pages bring their images one after the other: each page at most one, whatever the
/// pages before and after it.
pub proof fn pages_bring_their_own_image(
    objs: Map<u64, ObjModel>,
    before: Seq<u64>,
    page: u64,
    after: Seq<u64>,
)
    ensures
        images_of(objs, before + seq![page] + after) == images_of(objs, before) + images_of(
            objs,
            seq![page],
        ) + images_of(objs, after),
        images_of(objs, Seq::empty()) == Seq::<u64>::empty(),
        image_of_page(objs, page) matches Some(key) ==> images_of(objs, seq![page]) == seq![key],
        image_of_page(objs, page) is None ==> images_of(objs, seq![page]) == Seq::<u64>::empty(),
{
    images_of_both(objs, before, seq![page]);
    images_of_both(objs, before + seq![page], after);
    assert(seq![page].drop_last() =~= Seq::<u64>::empty());
    assert(images_of(objs, Seq::empty()) =~= Seq::<u64>::empty());
    match image_of_page(objs, page) {
        Some(key) => {
            assert(images_of(objs, seq![page]) =~= seq![key]);
        },
        None => {},
    }
}

proof fn images_of_both(objs: Map<u64, ObjModel>, a: Seq<u64>, b: Seq<u64>)
    ensures
        images_of(objs, a + b) == images_of(objs, a) + images_of(objs, b),
    decreases b.len(),
{
    if b.len() == 0 {
        assert(a + b =~= a);
        assert(images_of(objs, a) + images_of(objs, b) =~= images_of(objs, a));
    } else {
        images_of_both(objs, a, b.drop_last());
        assert((a + b).drop_last() =~= a + b.drop_last());
        assert((a + b).last() == b.last());
        assert(images_of(objs, a + b) =~= images_of(objs, a) + images_of(objs, b));
    }
}

/// A stream has the one filter that it names, or those of its list, in their order; without
/// either it has none.
pub proof fn filters_are_as_listed(
    objs: Map<u64, ObjModel>,
    d: Seq<(Seq<u8>, ObjModel)>,
    items: Seq<ObjModel>,
    names: Seq<Seq<u8>>,
)
    ensures
        resolved_entry(objs, d, ascii("Filter"@)) is None ==> filters_of(objs, d).len() == 0,
        resolved_entry(objs, d, ascii("Filter"@)) matches Some(ObjModel::Name(n)) ==> filters_of(
            objs,
            d,
        ) == seq![n],
        resolved_entry(objs, d, ascii("Filter"@)) == Some(ObjModel::Array(items)) && items.len()
            == names.len() && (forall|i: int|
            0 <= i < items.len() ==> resolved(objs, #[trigger] items[i]) == Some(
                ObjModel::Name(names[i]),
            )) ==> filters_of(objs, d) == names,
{
    if items.len() == names.len() && (forall|i: int|
        0 <= i < items.len() ==> resolved(objs, #[trigger] items[i]) == Some(
            ObjModel::Name(names[i]),
        )) {
        all_names_are_taken(objs, items, names);
    }
}

proof fn all_names_are_taken(
    objs: Map<u64, ObjModel>,
    items: Seq<ObjModel>,
    names: Seq<Seq<u8>>,
)
    requires
        items.len() == names.len(),
        forall|i: int|
            0 <= i < items.len() ==> resolved(objs, #[trigger] items[i]) == Some(
                ObjModel::Name(names[i]),
            ),
    ensures
        names_among(objs, items) == names,
    decreases items.len(),
{
    if items.len() == 0 {
        assert(names =~= Seq::<Seq<u8>>::empty());
    } else {
        let n = items.len() - 1;
        assert(resolved(objs, items[n]) == Some(ObjModel::Name(names[n])));
        assert forall|i: int| 0 <= i < n implies resolved(objs, #[trigger] items.drop_last()[i])
            == Some(ObjModel::Name(names.drop_last()[i])) by {
            assert(items.drop_last()[i] == items[i]);
        }
        all_names_are_taken(objs, items.drop_last(), names.drop_last());
        assert(names.drop_last().push(names[n]) =~= names);
    }
}

/// The colour spaces that are known by name.
pub proof fn spaces_go_by_their_names(objs: Map<u64, ObjModel>, n: Seq<u8>, refs: nat)
    ensures
        space_of(objs, ObjModel::Name(n), refs) == (if n == ascii("DeviceGray"@) || n == ascii("G"@)
            || n == ascii("CalGray"@) {
            Some(SpaceModel::Gray)
        } else if n == ascii("DeviceRGB"@) || n == ascii("RGB"@) || n == ascii("CalRGB"@) {
            Some(SpaceModel::Rgb)
        } else if n == ascii("DeviceCMYK"@) || n == ascii("CMYK"@) {
            Some(SpaceModel::Cmyk)
        } else {
            None
        }),
{
}

/// A space that is described by a list: a profile counts by its number of components,
/// calibrated and Lab spaces count as what they are shown in, and a palette brings the number
/// of components of its base.
pub proof fn spaces_go_by_their_description(
    objs: Map<u64, ObjModel>,
    items: Seq<ObjModel>,
    refs: nat,
    profile: Seq<(Seq<u8>, ObjModel)>,
    n: i64,
    base: SpaceModel,
    palette: PaletteModel,
)
    requires
        items.len() > 0,
    ensures
        ({
            let space = space_of(objs, ObjModel::Array(items), refs);
            &&& items[0] == ObjModel::Name(ascii("ICCBased"@)) && items.len() >= 2 && resolved(
                objs,
                items[1],
            ) == Some(ObjModel::Stream(profile)) && int_entry(objs, profile, ascii("N"@)) == Some(n)
                ==> {
                &&& n == 1 ==> space == Some(SpaceModel::Gray)
                &&& n == 4 ==> space == Some(SpaceModel::Cmyk)
                &&& n != 1 && n != 4 ==> space == Some(SpaceModel::Rgb)
            }
            &&& items[0] == ObjModel::Name(ascii("CalRGB"@)) ==> space == Some(SpaceModel::Rgb)
            &&& items[0] == ObjModel::Name(ascii("Lab"@)) ==> space == Some(SpaceModel::Rgb)
            &&& items[0] == ObjModel::Name(ascii("CalGray"@)) ==> space == Some(SpaceModel::Gray)
            &&& (items[0] == ObjModel::Name(ascii("Indexed"@)) || items[0] == ObjModel::Name(
                ascii("I"@),
            )) && items.len() >= 4 && space_of(objs, items[1], refs) == Some(base) && palette_of(
                objs,
                items[3],
            ) == Some(palette) ==> {
                &&& base is Gray ==> space == Some(SpaceModel::Indexed { base: 1, palette })
                &&& base is Rgb ==> space == Some(SpaceModel::Indexed { base: 3, palette })
                &&& base is Cmyk ==> space == Some(SpaceModel::Indexed { base: 4, palette })
                &&& base is Indexed ==> space == Some(SpaceModel::Indexed { base: 1, palette })
            }
        }),
{
    reveal_strlit("ICCBased");
    reveal_strlit("CalRGB");
    reveal_strlit("Lab");
    reveal_strlit("CalGray");
    reveal_strlit("Indexed");
    reveal_strlit("I");
    assert(ascii("ICCBased"@).len() == 8);
    assert(ascii("CalRGB"@).len() == 6);
    assert(ascii("Lab"@).len() == 3);
    assert(ascii("CalGray"@).len() == 7);
    assert(ascii("Indexed"@).len() == 7);
    assert(ascii("I"@).len() == 1);
    assert(ascii("CalGray"@)[0] == 'C' as u8);
    assert(ascii("Indexed"@)[0] == 'I' as u8);
}

/// A palette is the text that it is given by, or the stream that is referred to.
pub proof fn palettes_are_texts_or_streams(
    objs: Map<u64, ObjModel>,
    t: Seq<u8>,
    chain: Seq<u64>,
)
    requires
        is_reference_chain(objs, chain),
        chain.len() <= 129,
    ensures
        palette_of(objs, ObjModel::Text(t)) == Some(PaletteModel::Bytes(t)),
        objs[chain.last()] matches ObjModel::Text(b) ==> palette_of(
            objs,
            ObjModel::Reference(chain[0]),
        ) == Some(PaletteModel::Bytes(b)),
        objs[chain.last()] is Stream ==> palette_of(objs, ObjModel::Reference(chain[0])) == Some(
            PaletteModel::Stream(chain.last()),
        ),
{
    references_lead_to_their_object(objs, chain);
}

/// A stream whose last filter is that of a JPEG or JPEG 2000 file is handed on as it is. Any
/// other image needs its size, which is not zero, and a known colour space; its samples have
/// eight bits unless it says otherwise.
pub proof fn images_are_planned_by_their_entries(
    objs: Map<u64, ObjModel>,
    key: u64,
    d: Seq<(Seq<u8>, ObjModel)>,
    w: i64,
    h: i64,
    cs: ObjModel,
    space: SpaceModel,
)
    requires
        objs.contains_key(key),
        objs[key] == ObjModel::Stream(d),
    ensures
        ({
            let filters = filters_of(objs, d);
            let is_file = filters.len() > 0 && (filters.last() == ascii("DCTDecode"@)
                || filters.last() == ascii("JPXDecode"@));
            let is_sound = int_entry(objs, d, ascii("Width"@)) == Some(w) && int_entry(
                objs,
                d,
                ascii("Height"@),
            ) == Some(h) && 0 < w <= u32::MAX && 0 < h <= u32::MAX && entry_at(
                d,
                ascii("ColorSpace"@),
            ) == Some(cs) && space_of(objs, cs, objs.len()) == Some(space);
            &&& is_file ==> plan_of(objs, key) == Some(PlanModel::Encoded(key))
            &&& !is_file && is_sound ==> (plan_of(objs, key) matches Some(
                PlanModel::Raw { key: k, width, height, bpc, space: s },
            ) && k == key && width == w && height == h && s == space && (int_entry(
                objs,
                d,
                ascii("BitsPerComponent"@),
            ) matches Some(n) ==> bpc == n) && (int_entry(objs, d, ascii("BitsPerComponent"@)) is None
                ==> bpc == 8))
            &&& !is_file && (int_entry(objs, d, ascii("Width"@)) is None || int_entry(
                objs,
                d,
                ascii("Height"@),
            ) is None || entry_at(d, ascii("ColorSpace"@)) is None) ==> plan_of(objs, key) is None
            &&& !is_file && (int_entry(objs, d, ascii("Width"@)) == Some(0i64) || int_entry(
                objs,
                d,
                ascii("Height"@),
            ) == Some(0i64)) ==> plan_of(objs, key) is None
            &&& !is_file && entry_at(d, ascii("ColorSpace"@)) == Some(cs) && space_of(
                objs,
                cs,
                objs.len(),
            ) is None ==> plan_of(objs, key) is None
        }),
{
}

} // verus!
