//! One decode task: what it hands to the view, and what it reports to the
//! coordinator.

use crate::archive::Item;
use crate::coord::DecodeOutcome;
use crate::decode::{
    decode_from_bytes, decodes_data, decodes_image, decodes_page, is_whole, is_whole_page, outcome,
    pdf_decoded, Decoded, DecodedModel,
};
use crate::pdf::{extracted, ImageModel};
use vstd::prelude::*;

verus! {

/// The image that a PDF page holds; None for every other item.
pub open spec fn page_of(item: Item) -> Option<ImageModel> {
    match item {
        Item::Pdf { doc, page, .. } => if page < doc.image_keys().len() {
            extracted(doc.contents(), doc.image_keys()[page as int])
        } else {
            None
        },
        _ => None,
    }
}

/// Whether an item may decode to `shown`: a PDF page from the resident document,
/// and everything else from the bytes that were read of it, if they could be read.
pub open spec fn decodes_item(
    item: Item,
    data: Option<Seq<u8>>,
    max_side: u32,
    shown: Option<DecodedModel>,
) -> bool {
    if item is Pdf {
        match page_of(item) {
            Some(image) => decodes_page(image, max_side, shown),
            None => shown is None,
        }
    } else {
        match data {
            Some(data) => decodes_data(data, max_side, shown),
            None => shown is None,
        }
    }
}

/// Whether a task is given up because the viewer has moved away: a PDF page
/// before it is decoded, and any other item when its bytes were not read.
pub open spec fn is_aborted(item: Item, data: Option<Seq<u8>>, cancelled: bool) -> bool {
    cancelled && (item is Pdf || data is None)
}

/// Whether a task may report `outcome` and hand over `shown`.
pub open spec fn is_outcome(
    item: Item,
    data: Option<Seq<u8>>,
    cancelled: bool,
    max_side: u32,
    outcome: DecodeOutcome,
    shown: Option<DecodedModel>,
) -> bool {
    if is_aborted(item, data, cancelled) {
        outcome == DecodeOutcome::Aborted && shown is None
    } else {
        &&& outcome == (match shown {
            Some(_) => DecodeOutcome::Decoded,
            None => DecodeOutcome::Failed,
        })
        &&& decodes_item(item, data, max_side, shown)
    }
}

/// Decode one item. `data` are the bytes read of it, None if reading failed or
/// was given up, and `cancelled` whether the viewer has moved away. Only a real
/// failure counts against the retry budget.
pub fn decode_item(item: &Item, data: Option<Vec<u8>>, cancelled: bool, max_side: u32) -> (r: (
    DecodeOutcome,
    Option<Decoded>,
))
    requires
        max_side > 0,
    ensures
        is_outcome(
            *item,
            (match data {
                Some(d) => Some(d@),
                None => None,
            }),
            cancelled,
            max_side,
            r.0,
            (match r.1 {
                Some(d) => Some(d@),
                None => None,
            }),
        ),
        r.1 matches Some(d) ==> d.width <= max_side && d.height <= max_side && is_whole(d@),
{
    let decoded = if item.is_pdf() {
        if cancelled {
            return (DecodeOutcome::Aborted, None);
        }
        proof {
            pages_are_whole(*item);
        }
        match item.pdf_image() {
            Some(image) => pdf_decoded(image, max_side),
            None => None,
        }
    } else {
        match data {
            Some(bytes) => {
                let shown = decode_from_bytes(bytes.as_slice(), max_side);
                assert(decodes_image(bytes@, max_side, outcome(shown)));
                match shown {
                    Ok(d) => Some(d),
                    Err(_) => None,
                }
            },
            None => {
                if cancelled {
                    return (DecodeOutcome::Aborted, None);
                }
                None
            },
        }
    };
    match decoded {
        Some(d) => (DecodeOutcome::Decoded, Some(d)),
        None => (DecodeOutcome::Failed, None),
    }
}

/// A PDF page's image that is not encoded has four bytes for each of its pixels.
pub proof fn pages_are_whole(item: Item)
    ensures
        page_of(item) matches Some(image) ==> is_whole_page(image),
{
}

/// The longest side of a texture, from the limit that the graphics device reports.
pub open spec fn side_limit(reported: Option<u32>) -> u32 {
    match reported {
        Some(n) => if n < 1 {
            1u32
        } else {
            n
        },
        None => 8192u32,
    }
}

/// The longest side of a texture, from the limit that the graphics device
/// reports, if it does.
pub fn texture_limit(reported: Option<u32>) -> (r: u32)
    ensures
        r == side_limit(reported),
        r > 0,
{
    match reported {
        Some(n) => if n < 1 {
            1
        } else {
            n
        },
        None => 8192,
    }
}

/// The device's own limit is used wherever there can be a texture at all, and 8192 where it
/// reports none.
pub proof fn device_limit_is_used(n: u32)
    ensures
        n >= 1 ==> side_limit(Some(n)) == n,
        side_limit(Some(0)) == 1,
        side_limit(None) == 8192,
{
}

/// A task is given up only when the viewer has moved away: always for a PDF page, which is
/// decoded from memory, and otherwise only where the bytes were not read. Bytes that were
/// read are decoded all the same.
pub proof fn only_unread_work_is_given_up(item: Item, data: Option<Seq<u8>>, cancelled: bool)
    ensures
        !cancelled ==> !is_aborted(item, data, cancelled),
        cancelled && item is Pdf ==> is_aborted(item, data, cancelled),
        cancelled && data is None ==> is_aborted(item, data, cancelled),
        item !is Pdf && data is Some ==> !is_aborted(item, data, cancelled),
{
}

/// What is shown of an item comes from its own data: a PDF page from the image at its own
/// place in the document, everything else from the bytes read of it. Without data nothing is
/// shown.
pub proof fn items_are_decoded_from_their_own_data(
    item: Item,
    data: Option<Seq<u8>>,
    max_side: u32,
    shown: Option<DecodedModel>,
)
    requires
        decodes_item(item, data, max_side, shown),
    ensures
        item !is Pdf ==> (data matches Some(d) ==> decodes_data(d, max_side, shown)),
        item !is Pdf && data is None ==> shown is None,
        item matches Item::Pdf { doc, page, .. } ==> (page >= doc.image_keys().len()
            ==> shown is None),
        item matches Item::Pdf { doc, page, .. } ==> (page < doc.image_keys().len() ==> match extracted(
            doc.contents(),
            doc.image_keys()[page as int],
        ) {
            Some(image) => decodes_page(image, max_side, shown),
            None => shown is None,
        }),
{
}

/// An item counts as decoded exactly if something is shown of it. A task is given up only
/// after the viewer has moved away; one that was not, and shows nothing, has failed. What is
/// shown is what the item decodes to.
pub proof fn outcome_tells_what_is_shown(
    item: Item,
    data: Option<Seq<u8>>,
    cancelled: bool,
    max_side: u32,
    outcome: DecodeOutcome,
    shown: Option<DecodedModel>,
)
    requires
        is_outcome(item, data, cancelled, max_side, outcome, shown),
    ensures
        outcome == DecodeOutcome::Decoded <==> shown is Some,
        outcome == DecodeOutcome::Aborted <==> cancelled && (item is Pdf || data is None),
        outcome == DecodeOutcome::Failed <==> shown is None && (!cancelled || (item !is Pdf
            && data is Some)),
        outcome != DecodeOutcome::Aborted && item !is Pdf ==> (data matches Some(d)
            ==> decodes_data(d, max_side, shown)),
        outcome != DecodeOutcome::Aborted && item is Pdf ==> (page_of(item) matches Some(image)
            ==> decodes_page(image, max_side, shown)),
        outcome == DecodeOutcome::Decoded ==> decodes_item(item, data, max_side, shown),
{
}

} // verus!
