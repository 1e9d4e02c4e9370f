//! Media inside archives, browsed in place, and the items that are browsed.
//! Entries are listed from the archive's central directory, and each image or
//! video is decompressed straight into memory when it is needed: nothing is ever
//! extracted to a temporary file.

use crate::path::{
    extension, extension_of, is_plain_relative, part_end, part_end_bounds, part_end_is,
    path_below_root_is_the_rest, strip_prefix, stripped,
};
use crate::pdf::{
    extracted, is_pdf_file, lists_pdf, pdf_path, scan_pdf_bytes, PdfDoc, PdfImage,
};
use crate::text::{from_chars, lower, same_text, to_chars, to_lower};
use std::sync::Arc;
use vstd::prelude::*;

verus! {

/// How many bytes are read at a time.
pub const READ_CHUNK: usize = 1 << 20;

/// Whether the extension of `path` is one of `exts`, whatever its case.
pub open spec fn has_extension(path: Seq<char>, exts: Seq<Seq<char>>) -> bool {
    match extension_of(path) {
        Some(e) => exists|i: int| 0 <= i < exts.len() && lower(e) == lower(#[trigger] exts[i]),
        None => false,
    }
}

pub open spec fn texts(v: Seq<&str>) -> Seq<Seq<char>> {
    Seq::new(v.len(), |i: int| v[i]@)
}

/// Whether the extension of `path` is one of `exts`, whatever its case.
pub fn has_ext(path: &str, exts: &[&str]) -> (r: bool)
    ensures
        r == has_extension(path@, texts(exts@)),
{
    let ext = match extension(path) {
        Some(e) => to_lower(e.as_str()),
        None => return false,
    };
    let ghost all = texts(exts@);
    for i in 0..exts.len()
        invariant
            all == texts(exts@),
            extension_of(path@) is Some,
            ext@ == lower(extension_of(path@).unwrap()),
            forall|j: int| 0 <= j < i ==> ext@ != lower(#[trigger] all[j]),
    {
        assert(all[i as int] == exts@[i as int]@);
        if same_text(ext.as_str(), to_lower(exts[i]).as_str()) {
            return true;
        }
    }
    false
}

/// Whether a path names an archive.
pub open spec fn archive_path(path: Seq<char>) -> bool {
    has_extension(path, seq!["zip"@, "cbz"@])
}

pub fn is_archive_file(path: &str) -> (r: bool)
    ensures
        r == archive_path(path@),
{
    let exts = ["zip", "cbz"];
    assert(texts(exts@) =~= seq!["zip"@, "cbz"@]);
    has_ext(path, &exts)
}

/// One browsable media item: a plain file on disk, or one entry inside an
/// archive. Only the code that fetches bytes cares which variant it is.
pub enum Item {
    File(String),
    /// `archive` is shared across all entries of the same archive.
    Archived { archive: Arc<String>, entry: String },
    /// One page's embedded image inside an image-only PDF. `doc` is shared
    /// across every page; `name` is a synthetic image file name giving the page
    /// its order and title. `inner` names the PDF's entry within its archive when
    /// the PDF is itself nested inside one, and is None for a PDF file on disk.
    Pdf { doc: Arc<PdfDoc>, page: usize, inner: Option<String>, name: String },
    /// An archive or PDF that has not been opened yet. Reading it to list its
    /// entries can force the whole file to download, so it stays a single
    /// placeholder in the browse list, sorted where the file lives, until the
    /// viewer navigates near it; then it is expanded in place.
    Container { path: Arc<String> },
}

impl Clone for Item {
    fn clone(&self) -> (r: Self)
        ensures
            r == *self,
    {
        match self {
            Item::File(p) => Item::File(p.clone()),
            Item::Archived { archive, entry } => Item::Archived {
                archive: Arc::clone(archive),
                entry: entry.clone(),
            },
            Item::Pdf { doc, page, inner, name } => Item::Pdf {
                doc: Arc::clone(doc),
                page: *page,
                inner: match inner {
                    Some(e) => Some(e.clone()),
                    None => None,
                },
                name: name.clone(),
            },
            Item::Container { path } => Item::Container { path: Arc::clone(path) },
        }
    }
}

impl Item {
    /// The name whose extension decides how the item is handled.
    pub open spec fn media(&self) -> Seq<char> {
        match self {
            Item::File(p) => p@,
            Item::Archived { archive, entry } => entry@,
            Item::Pdf { doc, page, inner, name } => name@,
            Item::Container { path } => path@,
        }
    }

    /// The path of the file on disk that backs the item.
    pub open spec fn disk(&self) -> Seq<char> {
        match self {
            Item::File(p) => p@,
            Item::Archived { archive, entry } => archive@,
            Item::Pdf { doc, page, inner, name } => doc.disk_text(),
            Item::Container { path } => path@,
        }
    }

    /// `disk` followed by the item's place inside that file.
    pub open spec fn placed(&self, disk: Seq<char>) -> Seq<char> {
        match self {
            Item::File(_) => disk,
            Item::Archived { archive, entry } => disk + "/"@ + entry@,
            Item::Pdf { doc, page, inner, name } => match inner {
                Some(e) => disk + "/"@ + e@ + "/"@ + name@,
                None => disk + "/"@ + name@,
            },
            Item::Container { path } => disk,
        }
    }

    /// The title relative to `root`.
    pub open spec fn title(&self, root: Seq<char>) -> Seq<char> {
        match stripped(self.disk(), root) {
            Some(rest) => self.placed(rest),
            None => self.placed(self.disk()),
        }
    }

    /// The text that the browsing list is sorted by.
    pub open spec fn key(&self) -> Seq<char> {
        lower(self.placed(self.disk()))
    }

    /// The name whose extension decides how the item is handled.
    pub fn media_name(&self) -> (r: &str)
        ensures
            r@ == self.media(),
    {
        match self {
            Item::File(p) => p.as_str(),
            Item::Archived { entry, .. } => entry.as_str(),
            Item::Pdf { name, .. } => name.as_str(),
            Item::Container { path } => path.as_str(),
        }
    }

    /// The file on disk backing this item: the archive itself for archived
    /// entries. This is what hydration touches and what the Trash would take.
    pub fn disk_path(&self) -> (r: &str)
        ensures
            r@ == self.disk(),
    {
        match self {
            Item::File(p) => p.as_str(),
            Item::Archived { archive, .. } => archive.as_str(),
            Item::Pdf { doc, .. } => doc.disk(),
            Item::Container { path } => path.as_str(),
        }
    }

    pub fn is_archived(&self) -> (r: bool)
        ensures
            r == (self is Archived),
    {
        matches!(self, Item::Archived { .. })
    }

    pub fn is_pdf(&self) -> (r: bool)
        ensures
            r == (self is Pdf),
    {
        matches!(self, Item::Pdf { .. })
    }

    /// An archive or PDF that has not been expanded yet.
    pub fn is_container(&self) -> (r: bool)
        ensures
            r == (self is Container),
    {
        matches!(self, Item::Container { .. })
    }

    /// `disk` followed by the item's place inside that file.
    fn place(&self, disk: &str) -> (r: String)
        ensures
            r@ == self.placed(disk@),
    {
        let mut out = disk.to_string();
        match self {
            Item::File(_) => {},
            Item::Archived { entry, .. } => {
                out.append("/");
                out.append(entry.as_str());
            },
            Item::Pdf { inner, name, .. } => {
                if let Some(e) = inner {
                    out.append("/");
                    out.append(e.as_str());
                }
                out.append("/");
                out.append(name.as_str());
            },
            Item::Container { .. } => {},
        }
        out
    }

    /// Title string relative to the opened root: `sub/img.jpg`, or
    /// `sub/comics.cbz/page01.jpg` for an archived entry.
    pub fn display(&self, root: &str) -> (r: String)
        ensures
            r@ == self.title(root@),
    {
        let disk = self.disk_path();
        match strip_prefix(disk, root) {
            Some(rest) => self.place(rest.as_str()),
            None => self.place(disk),
        }
    }

    /// Lower-case string the browsing list is natural-sorted by; entries slot in
    /// under their container's own path.
    pub fn sort_key(&self) -> (r: String)
        ensures
            r@ == self.key(),
    {
        to_lower(self.place(self.disk_path()).as_str())
    }

    /// A PDF page's extracted image, taken straight from the resident document.
    /// None for every other item.
    pub fn pdf_image(&self) -> (r: Option<PdfImage>)
        ensures
            (match (self, r) {
                (Item::Pdf { doc, page, .. }, Some(image)) => *page < doc.image_keys().len()
                    && extracted(doc.contents(), doc.image_keys()[*page as int]) == Some(image@),
                (Item::Pdf { doc, page, .. }, None) => *page < doc.image_keys().len() ==> extracted(
                    doc.contents(),
                    doc.image_keys()[*page as int],
                ) is None,
                (_, r) => r is None,
            }),
    {
        match self {
            Item::Pdf { doc, page, .. } => doc.page_image(*page),
            _ => None,
        }
    }
}

impl Item {
    /// Whether `entry` can be played straight out of the archive file: it is
    /// stored without compression or encryption, and its data can be located.
    pub open spec fn plays_in_place(&self, entry: EntryFacts) -> bool {
        &&& self is Archived
        &&& entry.stored
        &&& !entry.encrypted
        &&& entry.data_start is Some
    }

    /// Whether `r` is what the video player is handed for the item, given what the
    /// archive says about its entry and the entry's decompressed data.
    pub open spec fn is_played_from(
        &self,
        entry: Option<EntryFacts>,
        bytes: Option<Vec<u8>>,
        r: Option<VideoSource>,
    ) -> bool {
        match self {
            Item::File(p) => r matches Some(VideoSource::Path(q)) && q@ == p@,
            Item::Archived { archive, .. } => match entry {
                Some(e) => if self.plays_in_place(e) {
                    r matches Some(VideoSource::FileRange { path, start, len }) && path@ == archive@
                        && Some(start) == e.data_start && len == e.size
                } else {
                    match bytes {
                        Some(b) => r == Some(VideoSource::Bytes(b)),
                        None => r is None,
                    }
                },
                None => r is None,
            },
            _ => r is None,
        }
    }

    /// Whether `r` is where the item's bytes are read from.
    pub open spec fn is_read_from(&self, r: ReadSource) -> bool {
        match self {
            Item::File(p) => r matches ReadSource::File(q) && q@ == p@,
            Item::Archived { archive, entry } => r matches ReadSource::Entry {
                archive: a,
                entry: e,
            } && a@ == archive@ && e@ == entry@,
            _ => r is Nothing,
        }
    }

    /// Whether the item's entry has to be decompressed before it can be played.
    pub open spec fn is_unpacked(&self, entry: EntryFacts) -> bool {
        self is Archived && !self.plays_in_place(entry)
    }

    /// How to hand this item to the video player without a temporary file.
    /// Stored archive entries, the common case for video, play straight out of
    /// the archive file at a byte range; compressed entries have to be
    /// decompressed fully into memory, the only seekable option without
    /// extraction. `entry` is what the archive says about the item's entry, if it
    /// could be opened, and `bytes` its decompressed data.
    pub fn video_source(&self, entry: Option<EntryFacts>, bytes: Option<Vec<u8>>) -> (r: Option<
        VideoSource,
    >)
        ensures
            self.is_played_from(entry, bytes, r),
    {
        match self {
            Item::File(p) => Some(VideoSource::Path(p.clone())),
            Item::Archived { archive, .. } => {
                let e = match entry {
                    Some(e) => e,
                    None => return None,
                };
                if e.stored && !e.encrypted {
                    if let Some(start) = e.data_start {
                        return Some(
                            VideoSource::FileRange {
                                path: archive.as_str().to_string(),
                                start,
                                len: e.size,
                            },
                        );
                    }
                }
                match bytes {
                    Some(b) => Some(VideoSource::Bytes(b)),
                    None => None,
                }
            },
            Item::Pdf { .. } => None,
            Item::Container { .. } => None,
        }
    }

    /// Whether the item's entry has to be decompressed before it can be played.
    pub fn needs_decompression(&self, entry: &EntryFacts) -> (r: bool)
        ensures
            r == self.is_unpacked(*entry),
    {
        match self {
            Item::Archived { .. } => !(entry.stored && !entry.encrypted
                && entry.data_start.is_some()),
            _ => false,
        }
    }

    /// Where the item's bytes come from. PDF pages are taken from the resident
    /// document instead, and a placeholder has no bytes: it is expanded, not
    /// read.
    pub fn read_source(&self) -> (r: ReadSource)
        ensures
            self.is_read_from(r),
    {
        match self {
            Item::File(p) => ReadSource::File(p.clone()),
            Item::Archived { archive, entry } => ReadSource::Entry {
                archive: archive.as_str().to_string(),
                entry: entry.clone(),
            },
            Item::Pdf { .. } => ReadSource::Nothing,
            Item::Container { .. } => ReadSource::Nothing,
        }
    }
}

/// What an archive says about one of its entries.
pub struct EntryFacts {
    pub stored: bool,
    pub encrypted: bool,
    pub data_start: Option<u64>,
    pub size: u64,
}

/// See [`Item::video_source`].
pub enum VideoSource {
    Path(String),
    FileRange { path: String, start: u64, len: u64 },
    Bytes(Vec<u8>),
}

/// See [`Item::read_source`].
pub enum ReadSource {
    File(String),
    Entry { archive: String, entry: String },
    Nothing,
}

/// Whether a part of an entry's name marks it as clutter.
pub open spec fn junk_part(part: Seq<char>) -> bool {
    (part.len() > 0 && part[0] == '.') || part == "__MACOSX"@
}

/// Whether a part of `name` starts at `i`.
pub open spec fn starts_part(name: Seq<char>, i: int) -> bool {
    0 <= i <= name.len() && (i == 0 || name[i - 1] == '/')
}

/// Whether any part of an entry's name marks it as clutter.
pub open spec fn junk_name(name: Seq<char>) -> bool {
    exists|i: int| #[trigger]
        starts_part(name, i) && junk_part(name.subrange(i, part_end(name, i)))
}

/// macOS archives are littered with `__MACOSX/` resource forks and dotfiles; none
/// of them are viewable media even when the extension says so.
pub fn is_junk(name: &str) -> (r: bool)
    ensures
        r == junk_name(name@),
{
    let v = to_chars(name);
    let n: usize = v.len();
    let mut i: usize = 0;
    loop
        invariant
            v@ == name@,
            n == v@.len(),
            starts_part(v@, i as int),
            forall|j: int| #[trigger]
                starts_part(v@, j) && j < i ==> !junk_part(v@.subrange(j, part_end(v@, j))),
        decreases n - i,
    {
        let mut e: usize = i;
        while e < n && v[e] != '/'
            invariant
                n == v@.len(),
                i <= e <= n,
                part_end(v@, i as int) == part_end(v@, e as int),
                forall|k: int| i <= k < e ==> v@[k] != '/',
            decreases n - e,
        {
            e = e + 1;
        }
        assert(e == part_end(v@, i as int));
        let ghost part = v@.subrange(i as int, e as int);
        let dot: bool = e > i && v[i] == '.';
        let named: bool = same_text(from_chars(&v, i, e).as_str(), "__MACOSX");
        assert(junk_part(part) == (dot || named));
        if dot || named {
            return true;
        }
        assert forall|j: int| #[trigger] starts_part(v@, j) && j <= e implies !junk_part(
            v@.subrange(j, part_end(v@, j)),
        ) by {
            if j > i {
                assert(v@[j - 1] != '/');
            }
        }
        if e >= n {
            return false;
        }
        i = e + 1;
    }
}

/// What is done with an archive entry.
#[derive(Clone, Copy, PartialEq, Eq, Structural, Debug)]
pub enum EntryKind {
    /// A directory, clutter, or no media.
    Skip,
    Media,
    /// A nested PDF, which is expanded in place into its pages.
    Pdf,
}

/// Whether an entry is a directory or clutter, whatever its extension.
pub open spec fn is_clutter(name: Seq<char>) -> bool {
    (name.len() > 0 && name.last() == '/') || junk_name(name)
}

/// What is done with the archive entry of the given name, if it is `media` or not.
pub open spec fn kind_of_entry(name: Seq<char>, media: bool) -> EntryKind {
    if is_clutter(name) {
        EntryKind::Skip
    } else if media {
        EntryKind::Media
    } else if pdf_path(name) {
        EntryKind::Pdf
    } else {
        EntryKind::Skip
    }
}

/// Whether `is_media` can be asked about every name.
pub open spec fn takes_names<F: Fn(&str) -> bool>(is_media: F) -> bool {
    forall|s: &str| #[trigger] call_requires(is_media, (s,))
}

/// Whether `media` is an answer of `is_media` to a name.
pub open spec fn answers<F: Fn(&str) -> bool>(is_media: F, name: Seq<char>, media: bool) -> bool {
    exists|s: &str| s@ == name && #[trigger] call_ensures(is_media, (s,), media)
}

/// What is done with the archive entry of the given name. `is_media` is not asked
/// about directories and clutter.
pub fn entry_kind<F: Fn(&str) -> bool>(name: &str, is_media: &F) -> (r: EntryKind)
    requires
        takes_names(*is_media),
    ensures
        is_clutter(name@) ==> r == EntryKind::Skip,
        !is_clutter(name@) ==> exists|media: bool| #[trigger]
            answers(*is_media, name@, media) && r == kind_of_entry(name@, media),
{
    let v = to_chars(name);
    if (v.len() > 0 && v[v.len() - 1] == '/') || is_junk(name) {
        return EntryKind::Skip;
    }
    let media: bool = is_media(name);
    assert(answers(*is_media, name@, media));
    if media {
        EntryKind::Media
    } else if is_pdf_file(name) {
        EntryKind::Pdf
    } else {
        EntryKind::Skip
    }
}

/// An archive entry: its name and, for a nested PDF that could be read, its
/// decompressed contents.
pub struct ArchiveEntry {
    pub name: String,
    pub bytes: Option<Vec<u8>>,
}

/// Whether `items` are what one entry of the archive at `path` lists, if it is
/// `media` or not.
pub open spec fn lists_entry(
    items: Seq<Item>,
    path: Seq<char>,
    e: ArchiveEntry,
    media: bool,
) -> bool {
    match kind_of_entry(e.name@, media) {
        EntryKind::Skip => items.len() == 0,
        EntryKind::Media => items.len() == 1 && (items[0] matches Item::Archived { archive, entry }
            && archive@ == path && entry@ == e.name@),
        EntryKind::Pdf => match e.bytes {
            Some(b) => lists_pdf(items, b@, path, Some(e.name@)),
            None => items.len() == 0,
        },
    }
}

/// Whether `items` are what the entries of the archive at `path` list, one entry
/// after the other, where `media` says of each entry whether it is media.
pub open spec fn lists_archive(
    items: Seq<Item>,
    path: Seq<char>,
    entries: Seq<ArchiveEntry>,
    media: Seq<bool>,
) -> bool
    decreases entries.len(),
{
    if entries.len() == 0 {
        items.len() == 0
    } else {
        exists|k: int|
            0 <= k <= items.len() && lists_archive(
                #[trigger] items.take(k),
                path,
                entries.drop_last(),
                media.drop_last(),
            ) && lists_entry(items.skip(k), path, entries.last(), media.last())
    }
}

/// Whether `media` are answers of `is_media` to the names of the entries, but for
/// directories and clutter, which are not asked about.
pub open spec fn answers_all<F: Fn(&str) -> bool>(
    is_media: F,
    entries: Seq<ArchiveEntry>,
    media: Seq<bool>,
) -> bool {
    &&& media.len() == entries.len()
    &&& forall|i: int|
        0 <= i < entries.len() && !is_clutter((#[trigger] entries[i]).name@) ==> answers(
            is_media,
            entries[i].name@,
            media[i],
        )
}

/// List an archive's media entries (per `is_media`), skipping directories and
/// clutter. Nested PDFs are expanded in place into their page images, the same way a
/// PDF on disk is.
pub fn scan_archive<F: Fn(&str) -> bool>(
    path: &str,
    entries: &Vec<ArchiveEntry>,
    is_media: F,
) -> (r: Vec<Item>)
    requires
        takes_names(is_media),
    ensures
        exists|media: Seq<bool>| #[trigger]
            answers_all(is_media, entries@, media) && lists_archive(r@, path@, entries@, media),
{
    let archive = Arc::new(path.to_string());
    let mut items: Vec<Item> = Vec::new();
    let ghost mut media: Seq<bool> = Seq::empty();
    for i in 0..entries.len()
        invariant
            takes_names(is_media),
            archive@ == path@,
            answers_all(is_media, entries@.take(i as int), media),
            lists_archive(items@, path@, entries@.take(i as int), media),
    {
        let ghost before = items@;
        let e = &entries[i];
        let kind = entry_kind(e.name.as_str(), &is_media);
        let ghost said = choose|m: bool| #[trigger]
            answers(is_media, e.name@, m) && kind == kind_of_entry(e.name@, m);
        match kind {
            EntryKind::Skip => {},
            EntryKind::Media => {
                items.push(
                    Item::Archived { archive: Arc::clone(&archive), entry: e.name.clone() },
                );
            },
            EntryKind::Pdf => {
                if let Some(bytes) = &e.bytes {
                    let mut pages = scan_pdf_bytes(path, e.name.as_str(), bytes.as_slice());
                    let ghost listed = pages@;
                    items.append(&mut pages);
                    assert(items@.skip(before.len() as int) =~= listed);
                }
            },
        }
        proof {
            let upto = entries@.take(i + 1);
            let k = before.len() as int;
            let asked = media.push(said);
            assert(asked.drop_last() =~= media);
            assert(upto.drop_last() =~= entries@.take(i as int));
            assert(upto.last() == *e);
            assert forall|j: int|
                0 <= j < upto.len() && !is_clutter((#[trigger] upto[j]).name@) implies answers(
                is_media,
                upto[j].name@,
                asked[j],
            ) by {
                if j < i {
                    assert(entries@.take(i as int)[j] == upto[j]);
                }
            }
            assert(items@.take(k) =~= before);
            assert(lists_archive(items@.take(k), path@, upto.drop_last(), asked.drop_last()));
            assert(lists_entry(items@.skip(k), path@, upto.last(), asked.last()));
            media = asked;
        }
    }
    assert(entries@.take(entries@.len() as int) =~= entries@);
    items
}

/// What one round of reading a stream brought.
pub enum ReadEvent {
    /// The reader is no longer interested.
    Cancelled,
    /// So many bytes were put at the front of the buffer; none at the end.
    Read(usize),
    Failed,
}

/// What follows one round of reading a stream.
#[derive(Clone, Copy, PartialEq, Eq, Structural, Debug)]
pub enum ReadStep {
    /// Read on.
    Continue,
    /// All bytes have been read.
    Done,
    /// Nothing comes of this.
    Abandoned,
}

/// What follows a round that brought this.
pub open spec fn step_after(event: ReadEvent) -> ReadStep {
    match event {
        ReadEvent::Read(n) => if n == 0 {
            ReadStep::Done
        } else {
            ReadStep::Continue
        },
        _ => ReadStep::Abandoned,
    }
}

/// The bytes that a round brought.
pub open spec fn chunk(buf: Seq<u8>, event: ReadEvent) -> Seq<u8> {
    match event {
        ReadEvent::Read(n) => buf.take(n as int),
        _ => Seq::empty(),
    }
}

/// One round of reading a stream into memory, chunk by chunk: what was read into
/// `buf` is appended to `data`.
pub fn read_chunked(data: &mut Vec<u8>, buf: &[u8], event: ReadEvent) -> (r: ReadStep)
    requires
        event matches ReadEvent::Read(n) ==> n <= buf@.len(),
    ensures
        r == step_after(event),
        final(data)@ == old(data)@ + chunk(buf@, event),
{
    match event {
        ReadEvent::Read(n) => {
            if n == 0 {
                ReadStep::Done
            } else {
                let ghost before = data@;
                for i in 0..n
                    invariant
                        n <= buf@.len(),
                        data@ == before + buf@.take(i as int),
                {
                    data.push(buf[i]);
                    assert(data@ =~= before + buf@.take(i + 1));
                }
                ReadStep::Continue
            }
        },
        _ => ReadStep::Abandoned,
    }
}

/// One round of reading a stream: the buffer afterwards, and what happened.
pub struct ReadRound {
    pub buf: Seq<u8>,
    pub event: ReadEvent,
}

/// What a reader holds after the rounds, and what the last one came to, if it goes on
/// for as long as it is told to.
pub open spec fn stream_read(rounds: Seq<ReadRound>) -> (Seq<u8>, ReadStep)
    decreases rounds.len(),
{
    if rounds.len() == 0 {
        (Seq::empty(), ReadStep::Continue)
    } else {
        let (data, step) = stream_read(rounds.drop_last());
        if step == ReadStep::Continue {
            (
                data + chunk(rounds.last().buf, rounds.last().event),
                step_after(rounds.last().event),
            )
        } else {
            (data, step)
        }
    }
}

/// The chunks that the rounds brought, one after the other.
pub open spec fn all_chunks(rounds: Seq<ReadRound>) -> Seq<u8>
    decreases rounds.len(),
{
    if rounds.len() == 0 {
        Seq::empty()
    } else {
        all_chunks(rounds.drop_last()) + chunk(rounds.last().buf, rounds.last().event)
    }
}

/// Whether round `k` is the first that does not go on.
pub open spec fn ends_at(rounds: Seq<ReadRound>, k: int) -> bool {
    &&& 0 <= k < rounds.len()
    &&& step_after(rounds[k].event) != ReadStep::Continue
    &&& forall|j: int|
        0 <= j < k ==> step_after((#[trigger] rounds[j]).event) == ReadStep::Continue
}

/// A stream is read up to the first round that does not go on. If that was the end of
/// the stream, everything was read and the reader holds exactly the chunks before it,
/// one after the other; if it was an error, or the reader was no longer interested,
/// nothing comes of it.
pub proof fn stream_is_read_to_its_end(rounds: Seq<ReadRound>)
    ensures
        forall|k: int| #[trigger]
            ends_at(rounds, k) ==> stream_read(rounds) == (
                all_chunks(rounds.take(k)),
                step_after(rounds[k].event),
            ),
        stream_read(rounds).1 != ReadStep::Continue ==> exists|k: int| ends_at(rounds, k),
        stream_read(rounds).1 == ReadStep::Continue ==> stream_read(rounds).0 == all_chunks(rounds),
        stream_read(rounds).1 == ReadStep::Done <==> exists|k: int| #[trigger]
            ends_at(rounds, k) && rounds[k].event == ReadEvent::Read(0),
        stream_read(rounds).1 == ReadStep::Abandoned <==> exists|k: int| #[trigger]
            ends_at(rounds, k) && (rounds[k].event is Cancelled || rounds[k].event is Failed),
    decreases rounds.len(),
{
    if rounds.len() > 0 {
        let init = rounds.drop_last();
        let n = init.len() as int;
        stream_is_read_to_its_end(init);
        assert forall|k: int| #[trigger] ends_at(init, k) implies ends_at(rounds, k)
            && init.take(k) == rounds.take(k) by {
            assert forall|j: int| 0 <= j < k implies step_after((#[trigger] rounds[j]).event)
                == ReadStep::Continue by {
                assert(init[j] == rounds[j]);
            }
            assert(init[k] == rounds[k]);
            assert(init.take(k) =~= rounds.take(k));
        }
        assert forall|k: int| #[trigger] ends_at(rounds, k) && k < n implies ends_at(init, k) by {
            assert forall|j: int| 0 <= j < k implies step_after((#[trigger] init[j]).event)
                == ReadStep::Continue by {
                assert(init[j] == rounds[j]);
            }
            assert(init[k] == rounds[k]);
        }
        if stream_read(init).1 == ReadStep::Continue {
            assert forall|j: int| 0 <= j < n implies step_after((#[trigger] rounds[j]).event)
                == ReadStep::Continue by {
                first_end_exists(init, j);
            }
            assert(rounds.take(n) =~= init);
            if step_after(rounds.last().event) != ReadStep::Continue {
                assert(ends_at(rounds, n));
                assert(chunk(rounds.last().buf, rounds.last().event) =~= Seq::<u8>::empty());
                assert(all_chunks(init) + chunk(rounds.last().buf, rounds.last().event)
                    =~= all_chunks(init));
            }
        } else {
            let k = choose|k: int| ends_at(init, k);
            assert(ends_at(rounds, k));
            assert(!ends_at(rounds, n)) by {
                assert(step_after(rounds[k].event) != ReadStep::Continue);
            }
        }
    }
}

/// Where a round does not go on, there is a first one.
proof fn first_end_exists(rounds: Seq<ReadRound>, j: int)
    requires
        0 <= j < rounds.len(),
    ensures
        step_after(rounds[j].event) != ReadStep::Continue ==> exists|k: int| ends_at(rounds, k),
    decreases j,
{
    if step_after(rounds[j].event) != ReadStep::Continue {
        if exists|i: int| 0 <= i < j && step_after((#[trigger] rounds[i]).event)
            != ReadStep::Continue {
            let i = choose|i: int| 0 <= i < j && step_after((#[trigger] rounds[i]).event)
                != ReadStep::Continue;
            first_end_exists(rounds, i);
        } else {
            assert(ends_at(rounds, j));
        }
    }
}

/// Nothing follows the end of a stream, nor an error or a lost interest: more rounds
/// change neither the bytes nor what came of them.
pub proof fn nothing_follows_the_end(rounds: Seq<ReadRound>, more: Seq<ReadRound>)
    requires
        stream_read(rounds).1 != ReadStep::Continue,
    ensures
        stream_read(rounds + more) == stream_read(rounds),
    decreases more.len(),
{
    if more.len() == 0 {
        assert(rounds + more =~= rounds);
    } else {
        assert((rounds + more).drop_last() =~= rounds + more.drop_last());
        nothing_follows_the_end(rounds, more.drop_last());
    }
}

/// A plain file and an unopened container are named and backed by their own path; an
/// archive's entry is named by itself and backed by the archive; a PDF page is named by its
/// synthetic name and backed by the document's file.
pub proof fn items_are_backed_by_their_files(item: Item)
    ensures
        item matches Item::File(p) ==> item.media() == p@ && item.disk() == p@,
        item matches Item::Container { path } ==> item.media() == path@ && item.disk() == path@,
        item matches Item::Archived { archive, entry } ==> item.media() == entry@ && item.disk()
            == archive@,
        item matches Item::Pdf { doc, page, inner, name } ==> item.media() == name@ && item.disk()
            == doc.disk_text(),
{
}

/// The title of an item below the opened root is its path from there, followed by its place
/// inside that file, if it is inside one.
pub proof fn titles_start_below_the_root(item: Item, root: Seq<char>, rel: Seq<char>)
    requires
        root.len() > 0,
        is_plain_relative(rel),
        item.disk() == root + seq!['/'] + rel,
    ensures
        item is File || item is Container ==> item.title(root) == rel,
        item matches Item::Archived { archive, entry } ==> item.title(root) == rel + seq!['/']
            + entry@,
        item matches Item::Pdf { doc, page, inner, name } ==> item.title(root) == (match inner {
            Some(e) => rel + seq!['/'] + e@ + seq!['/'] + name@,
            None => rel + seq!['/'] + name@,
        }),
{
    reveal_strlit("/");
    assert("/"@ =~= seq!['/']);
    path_below_root_is_the_rest(root, rel);
}

/// An item elsewhere is titled by its whole path.
pub proof fn items_elsewhere_keep_their_path(item: Item, root: Seq<char>)
    requires
        stripped(item.disk(), root) is None,
    ensures
        item is File || item is Container ==> item.title(root) == item.disk(),
        item matches Item::Archived { archive, entry } ==> item.title(root) == item.disk()
            + seq!['/'] + entry@,
        item matches Item::Pdf { doc, page, inner, name } ==> item.title(root) == (match inner {
            Some(e) => item.disk() + seq!['/'] + e@ + seq!['/'] + name@,
            None => item.disk() + seq!['/'] + name@,
        }),
{
    reveal_strlit("/");
    assert("/"@ =~= seq!['/']);
}

/// What is inside a container is sorted by the container's own key, followed by its place
/// in there; files and unopened containers are sorted by their path. Case does not matter.
pub proof fn keys_follow_the_paths(item: Item)
    ensures
        item is File || item is Container ==> item.key() == lower(item.disk()),
        item matches Item::Archived { archive, entry } ==> item.key() == lower(archive@) + seq!['/']
            + lower(entry@),
        item matches Item::Pdf { doc, page, inner, name } ==> item.key() == (match inner {
            Some(e) => lower(doc.disk_text()) + seq!['/'] + lower(e@) + seq!['/'] + lower(name@),
            None => lower(doc.disk_text()) + seq!['/'] + lower(name@),
        }),
{
    reveal_strlit("/");
    match item {
        Item::Archived { archive, entry } => {
            assert(item.key() =~= lower(archive@) + seq!['/'] + lower(entry@));
        },
        Item::Pdf { doc, page, inner, name } => match inner {
            Some(e) => {
                assert(item.key() =~= lower(doc.disk_text()) + seq!['/'] + lower(e@) + seq!['/']
                    + lower(name@));
            },
            None => {
                assert(item.key() =~= lower(doc.disk_text()) + seq!['/'] + lower(name@));
            },
        },
        _ => {},
    }
}

/// A plain file is played from disk. An entry that is stored as it is, and whose data can be
/// found, is played out of its archive, at its place there; every other entry from its
/// decompressed data. Nothing else can be played.
pub proof fn videos_are_played_without_extraction(
    item: Item,
    entry: Option<EntryFacts>,
    bytes: Option<Vec<u8>>,
    r: Option<VideoSource>,
)
    requires
        item.is_played_from(entry, bytes, r),
    ensures
        item matches Item::File(p) ==> (r matches Some(VideoSource::Path(q)) && q@ == p@),
        item is Pdf || item is Container ==> r is None,
        item is Archived && entry is None ==> r is None,
        item matches Item::Archived { archive, .. } ==> (entry matches Some(e) ==> (if e.stored
            && !e.encrypted && e.data_start is Some {
            r == Some(
                VideoSource::FileRange {
                    path: r.unwrap()->path,
                    start: e.data_start.unwrap(),
                    len: e.size,
                },
            ) && r.unwrap()->path@ == archive@
        } else {
            (bytes matches Some(b) ==> r == Some(VideoSource::Bytes(b))) && (bytes is None
                ==> r is None)
        })),
        entry matches Some(e) ==> (item.is_unpacked(e) <==> item is Archived && (!e.stored
            || e.encrypted || e.data_start is None)),
{
}

/// A file is read from disk and an entry from its archive; a PDF page and an unopened
/// container are not read.
pub proof fn items_are_read_where_they_are(item: Item, r: ReadSource)
    requires
        item.is_read_from(r),
    ensures
        item matches Item::File(p) ==> (r matches ReadSource::File(q) && q@ == p@),
        item matches Item::Archived { archive, entry } ==> (r matches ReadSource::Entry {
            archive: a,
            entry: e,
        } && a@ == archive@ && e@ == entry@),
        item is Pdf || item is Container ==> r is Nothing,
{
}

/// An entry is clutter where any part of its name begins with a dot or is `__MACOSX`,
/// whatever comes before and after that part; it is skipped even if it is media.
pub proof fn clutter_is_told_by_any_part(
    front: Seq<char>,
    part: Seq<char>,
    rest: Seq<char>,
    media: bool,
)
    requires
        front.len() == 0 || front.last() == '/',
        rest.len() == 0 || rest[0] == '/',
        forall|i: int| 0 <= i < part.len() ==> part[i] != '/',
        (part.len() > 0 && part[0] == '.') || part == "__MACOSX"@,
    ensures
        junk_name(front + part + rest),
        is_clutter(front + part + rest),
        kind_of_entry(front + part + rest, media) == EntryKind::Skip,
{
    let name = front + part + rest;
    let i = front.len() as int;
    let e = i + part.len();
    assert(starts_part(name, i));
    assert forall|j: int| i <= j < e implies name[j] != '/' by {
        assert(name[j] == part[j - i]);
    }
    if e < name.len() {
        assert(name[e] == rest[0]);
    }
    part_end_is(name, i, e);
    assert(name.subrange(i, e) =~= part);
}

/// A directory is skipped; any other entry with no part that begins with a dot or is
/// `__MACOSX` is taken if it is media, and expanded if it is a PDF.
pub proof fn other_entries_are_taken(name: Seq<char>)
    ensures
        name.len() > 0 && name.last() == '/' ==> is_clutter(name) && kind_of_entry(name, true)
            == EntryKind::Skip && kind_of_entry(name, false) == EntryKind::Skip,
        (name.len() == 0 || name.last() != '/') && (forall|i: int|
            0 <= i < name.len() && (i == 0 || name[i - 1] == '/') ==> #[trigger] name[i] != '.' && !(
            i + 8 <= name.len() && name.subrange(i, i + 8) == "__MACOSX"@ && (i + 8 == name.len()
                || name[i + 8] == '/'))) ==> {
            &&& !is_clutter(name)
            &&& kind_of_entry(name, true) == EntryKind::Media
            &&& kind_of_entry(name, false) == (if pdf_path(name) {
                EntryKind::Pdf
            } else {
                EntryKind::Skip
            })
        },
{
    reveal_strlit("__MACOSX");
    if (name.len() == 0 || name.last() != '/') && (forall|i: int|
        0 <= i < name.len() && (i == 0 || name[i - 1] == '/') ==> #[trigger] name[i] != '.' && !(i + 8
            <= name.len() && name.subrange(i, i + 8) == "__MACOSX"@ && (i + 8 == name.len()
            || name[i + 8] == '/'))) {
        assert forall|i: int| #[trigger] starts_part(name, i) implies !junk_part(
            name.subrange(i, part_end(name, i)),
        ) by {
            part_end_bounds(name, i);
            let e = part_end(name, i);
            let part = name.subrange(i, e);
            if part.len() > 0 {
                assert(part[0] == name[i]);
                assert(name[i] != '.');
                if part == "__MACOSX"@ {
                    assert(e == i + 8);
                }
            }
        }
    }
}

/// An archive without entries lists nothing, and directories, clutter and entries that are
/// neither media nor PDFs add nothing to a listing.
pub proof fn clutter_adds_nothing(
    items: Seq<Item>,
    path: Seq<char>,
    entries: Seq<ArchiveEntry>,
    media: Seq<bool>,
    e: ArchiveEntry,
    is_media: bool,
)
    requires
        is_clutter(e.name@) || (!is_media && !pdf_path(e.name@)),
    ensures
        lists_archive(items, path, Seq::empty(), Seq::empty()) <==> items.len() == 0,
        lists_archive(items, path, entries.push(e), media.push(is_media)) <==> lists_archive(
            items,
            path,
            entries,
            media,
        ),
{
    let n = items.len() as int;
    assert(entries.push(e).drop_last() =~= entries);
    assert(media.push(is_media).drop_last() =~= media);
    assert(items.take(n) =~= items);
    if lists_archive(items, path, entries.push(e), media.push(is_media)) {
        let k = choose|k: int|
            0 <= k <= items.len() && lists_archive(#[trigger] items.take(k), path, entries, media)
                && lists_entry(items.skip(k), path, e, is_media);
        assert(items.skip(k).len() == n - k);
    }
    if lists_archive(items, path, entries, media) {
        assert(lists_archive(items.take(n), path, entries, media));
        assert(lists_entry(items.skip(n), path, e, is_media));
    }
}

/// A media entry that is no clutter is listed once, under its own name, after the entries
/// before it.
pub proof fn media_entry_is_listed_last(
    items: Seq<Item>,
    path: Seq<char>,
    entries: Seq<ArchiveEntry>,
    media: Seq<bool>,
    e: ArchiveEntry,
)
    requires
        !is_clutter(e.name@),
    ensures
        lists_archive(items, path, entries.push(e), media.push(true)) <==> items.len() > 0
            && lists_archive(items.drop_last(), path, entries, media) && (
        items.last() matches Item::Archived { archive, entry } && archive@ == path && entry@
            == e.name@),
{
    let n = items.len() as int;
    assert(entries.push(e).drop_last() =~= entries);
    assert(media.push(true).drop_last() =~= media);
    if lists_archive(items, path, entries.push(e), media.push(true)) {
        let k = choose|k: int|
            0 <= k <= items.len() && lists_archive(#[trigger] items.take(k), path, entries, media)
                && lists_entry(items.skip(k), path, e, true);
        assert(k == n - 1);
        assert(items.take(k) =~= items.drop_last());
        assert(items.skip(k)[0] == items.last());
    }
    if items.len() > 0 && lists_archive(items.drop_last(), path, entries, media) && (
    items.last() matches Item::Archived { archive, entry } && archive@ == path && entry@
        == e.name@) {
        assert(items.take(n - 1) =~= items.drop_last());
        assert(items.skip(n - 1)[0] == items.last());
        assert(lists_entry(items.skip(n - 1), path, e, true));
    }
}

/// A round that brings bytes adds exactly those, from the front of the buffer, and reading
/// goes on; an empty round is the end; an error or a lost interest comes to nothing.
pub proof fn rounds_add_what_they_bring(rounds: Seq<ReadRound>, round: ReadRound)
    requires
        stream_read(rounds).1 == ReadStep::Continue,
    ensures
        round.event matches ReadEvent::Read(n) ==> (n > 0 ==> stream_read(rounds.push(round)) == (
            stream_read(rounds).0 + round.buf.take(n as int),
            ReadStep::Continue,
        )),
        round.event == ReadEvent::Read(0) ==> stream_read(rounds.push(round)) == (
            stream_read(rounds).0,
            ReadStep::Done,
        ),
        round.event is Cancelled || round.event is Failed ==> stream_read(rounds.push(round)) == (
            stream_read(rounds).0,
            ReadStep::Abandoned,
        ),
        stream_read(Seq::empty()) == (Seq::<u8>::empty(), ReadStep::Continue),
{
    assert(rounds.push(round).drop_last() =~= rounds);
    let data = stream_read(rounds).0;
    assert(data + Seq::<u8>::empty() =~= data);
    assert(round.buf.take(0) =~= Seq::<u8>::empty());
}

} // verus!
