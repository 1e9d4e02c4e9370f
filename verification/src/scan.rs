//! Turning an opened selection into a browsing list. The tree is walked with
//! metadata only: archives and PDFs become single placeholders, so nothing is
//! downloaded until the viewer browses near it.

use crate::archive::{
    answers_all, archive_path, is_archive_file, is_clutter, lists_archive, lists_entry,
    scan_archive, ArchiveEntry, Item, ReadEvent,
};
use crate::media::{is_media_name, media_path};
use crate::path::{
    appended_name_is_last, can_be_name, child, child_is_put_behind, components, file_stem, join,
    normal, normal_form, normal_text_identifies_path, parent, parent_of, same, stem_of,
};
use crate::pdf::{is_pdf_file, lists_pdf, pdf_path, scan_pdf};
use crate::natural::{natural_rank, Rank};
use crate::sort::{
    goes_before, index_ints, is_natural_order, key_texts, natural_order,
    natural_order_is_permutation, sorted_order,
};
use crate::text::{decimal, push_decimal, to_chars};
use std::sync::Arc;
use vstd::prelude::*;

verus! {

/// The keys that a list of items is sorted by.
pub open spec fn sort_keys(items: Seq<Item>) -> Seq<Seq<char>> {
    items.map_values(|it: Item| it.key())
}

/// Whether `out` holds `items` in natural order of their keys; items with equal
/// keys keep their order.
pub open spec fn is_sorted_list(items: Seq<Item>, out: Seq<Item>) -> bool {
    exists|p: Seq<int>| #[trigger]
        is_natural_order(sort_keys(items), p) && out == arranged(items, p)
}

/// `items` in the order that `p` lists their positions in.
pub open spec fn arranged(items: Seq<Item>, p: Seq<int>) -> Seq<Item> {
    p.map_values(|i: int| items[i])
}

/// The positions of `items` in natural order of their keys.
pub open spec fn item_order(items: Seq<Item>) -> Seq<int> {
    sorted_order(sort_keys(items))
}

/// The positions of `items` in natural order of their keys; items with equal keys
/// keep their order.
pub fn order_items(items: &Vec<Item>) -> (r: Vec<usize>)
    ensures
        index_ints(r@) == item_order(items@),
        is_natural_order(sort_keys(items@), index_ints(r@)),
        r@.len() == items@.len(),
        forall|i: int| 0 <= i < r@.len() ==> #[trigger] r@[i] < items@.len(),
{
    let mut keys: Vec<Vec<char>> = Vec::new();
    for i in 0..items.len()
        invariant
            key_texts(keys@) == sort_keys(items@).take(i as int),
    {
        let key = to_chars(items[i].sort_key().as_str());
        let ghost before = keys@;
        keys.push(key);
        assert(key_texts(keys@) =~= key_texts(before).push(key@));
        assert(key_texts(keys@) =~= sort_keys(items@).take(i + 1));
    }
    assert(key_texts(keys@) =~= sort_keys(items@));
    assert(keys@.len() == key_texts(keys@).len());
    natural_order(&keys)
}

/// `items` in the order that `order` lists their positions in.
pub fn arrange(items: &Vec<Item>, order: &Vec<usize>) -> (r: Vec<Item>)
    requires
        forall|i: int| 0 <= i < order@.len() ==> #[trigger] order@[i] < items@.len(),
    ensures
        r@ == arranged(items@, index_ints(order@)),
{
    let mut out: Vec<Item> = Vec::new();
    for i in 0..order.len()
        invariant
            forall|j: int| 0 <= j < order@.len() ==> #[trigger] order@[j] < items@.len(),
            out@.len() == i,
            forall|j: int| 0 <= j < i ==> #[trigger] out@[j] == items@[order@[j] as int],
    {
        out.push(items[order[i]].clone());
    }
    assert(out@ =~= arranged(items@, index_ints(order@)));
    out
}

/// Sort in natural order (1, 2, ... 9, 10) rather than lexically (1, 10, 2).
pub fn sort_natural(items: Vec<Item>) -> (r: Vec<Item>)
    ensures
        r@ == arranged(items@, item_order(items@)),
        is_sorted_list(items@, r@),
        r@.len() == items@.len(),
{
    let order = order_items(&items);
    arrange(&items, &order)
}

/// Sorting neither loses nor invents items, and leaves no item before one that
/// belongs in front of it.
pub proof fn sorting_keeps_items(items: Seq<Item>, out: Seq<Item>)
    requires
        is_sorted_list(items, out),
    ensures
        forall|i: int| 0 <= i < items.len() ==> out.contains(#[trigger] items[i]),
        forall|i: int| 0 <= i < out.len() ==> items.contains(#[trigger] out[i]),
        out.len() == items.len(),
        forall|i: int, j: int|
            0 <= i < j < out.len() ==> natural_rank(
                (#[trigger] out[i]).key(),
                (#[trigger] out[j]).key(),
            ) != Rank::After,
{
    let p = choose|p: Seq<int>| #[trigger]
        is_natural_order(sort_keys(items), p) && out == arranged(items, p);
    natural_order_is_permutation(sort_keys(items), p);
    assert forall|i: int| 0 <= i < items.len() implies out.contains(#[trigger] items[i]) by {
        assert(p.contains(i));
        let k = choose|k: int| 0 <= k < p.len() && p[k] == i;
        assert(out[k] == items[i]);
    }
    assert forall|i: int| 0 <= i < out.len() implies items.contains(#[trigger] out[i]) by {
        assert(0 <= p[i] < sort_keys(items).len());
        assert(out[i] == items[p[i]]);
    }
    assert forall|i: int, j: int| 0 <= i < j < out.len() implies natural_rank(
        (#[trigger] out[i]).key(),
        (#[trigger] out[j]).key(),
    ) != Rank::After by {
        assert(goes_before(sort_keys(items), p[i], p[j]));
    }
}

/// What the directory listing says about an entry.
#[derive(Clone, Copy, PartialEq, Eq, Structural)]
pub enum FileType {
    Directory,
    File,
    /// A symbolic link, which is not followed and so cannot cause loops, or an
    /// entry whose type cannot be told.
    Other,
}

/// What has been found of an opened selection, and the directories still to be
/// listed.
pub struct Walk {
    pub pending: Vec<String>,
    pub media: Vec<Item>,
    pub containers: Vec<String>,
}

pub open spec fn path_texts(v: Seq<String>) -> Seq<Seq<char>> {
    v.map_values(|s: String| s@)
}

pub open spec fn container_path(path: Seq<char>) -> bool {
    archive_path(path) || pdf_path(path)
}

/// What happens in a walk.
pub enum WalkEvent {
    /// A path of the selection is opened.
    Opened { path: String, is_dir: bool },
    /// The directory found last is taken to be listed.
    Listed,
    /// An entry of a directory is visited.
    Visited { path: String, kind: FileType },
}

impl WalkEvent {
    /// The item that is browsed because of an event: a file, or the placeholder of an
    /// archive or PDF. A file that was asked for by name is browsed whatever its name.
    pub open spec fn item(self) -> Option<Item> {
        match self {
            WalkEvent::Opened { path, is_dir } => if is_dir {
                None
            } else if container_path(path@) {
                Some(Item::Container { path: Arc::new(path) })
            } else {
                Some(Item::File(path))
            },
            WalkEvent::Listed => None,
            WalkEvent::Visited { path, kind } => if kind != FileType::File {
                None
            } else if media_path(path@) {
                Some(Item::File(path))
            } else if container_path(path@) {
                Some(Item::Container { path: Arc::new(path) })
            } else {
                None
            },
        }
    }

    /// The directory that is to be listed because of an event.
    pub open spec fn directory(self) -> Option<String> {
        match self {
            WalkEvent::Opened { path, is_dir } => if is_dir {
                Some(path)
            } else {
                None
            },
            WalkEvent::Listed => None,
            WalkEvent::Visited { path, kind } => if kind == FileType::Directory {
                Some(path)
            } else {
                None
            },
        }
    }
}

/// The state of a walk.
pub struct WalkModel {
    pub pending: Seq<String>,
    pub media: Seq<Item>,
    pub containers: Seq<String>,
}

impl WalkModel {
    /// The state after an event.
    pub open spec fn after(self, event: WalkEvent) -> WalkModel {
        WalkModel {
            pending: match event {
                WalkEvent::Listed => if self.pending.len() > 0 {
                    self.pending.drop_last()
                } else {
                    self.pending
                },
                _ => match event.directory() {
                    Some(path) => self.pending.push(path),
                    None => self.pending,
                },
            },
            media: match event.item() {
                Some(Item::File(path)) => self.media.push(Item::File(path)),
                _ => self.media,
            },
            containers: match event.item() {
                Some(Item::Container { path }) => self.containers.push(*path),
                _ => self.containers,
            },
        }
    }

    /// Everything that was found, placeholders after files, before sorting.
    pub open spec fn found(self) -> Seq<Item> {
        self.media + placeholders(self.containers)
    }
}

/// The placeholders of archives and PDFs.
pub open spec fn placeholders(containers: Seq<String>) -> Seq<Item> {
    containers.map_values(|c: String| Item::Container { path: Arc::new(c) })
}

/// A walk on which nothing has happened.
pub open spec fn fresh_walk() -> WalkModel {
    WalkModel { pending: Seq::empty(), media: Seq::empty(), containers: Seq::empty() }
}

impl View for Walk {
    type V = WalkModel;

    open spec fn view(&self) -> WalkModel {
        WalkModel {
            pending: self.pending@,
            media: self.media@,
            containers: self.containers@,
        }
    }
}

impl Walk {
    pub fn new() -> (r: Self)
        ensures
            r@ == fresh_walk(),
    {
        Walk { pending: Vec::new(), media: Vec::new(), containers: Vec::new() }
    }

    /// The directory to list next: the one found last.
    pub fn next_directory(&mut self) -> (r: Option<String>)
        ensures
            final(self)@ == old(self)@.after(WalkEvent::Listed),
            r == (if old(self)@.pending.len() > 0 {
                Some(old(self)@.pending.last())
            } else {
                None
            }),
    {
        self.pending.pop()
    }

    /// An entry of a directory. Subdirectories are listed later; media are
    /// browsed, and archives and PDFs are only recorded, not opened.
    pub fn visit(&mut self, path: String, kind: FileType)
        ensures
            final(self)@ == old(self)@.after(WalkEvent::Visited { path, kind }),
    {
        match kind {
            FileType::Directory => {
                self.pending.push(path);
            },
            FileType::File => {
                if is_media_name(path.as_str()) {
                    self.media.push(Item::File(path));
                } else if is_archive_file(path.as_str()) || is_pdf_file(path.as_str()) {
                    self.containers.push(path);
                }
            },
            FileType::Other => {},
        }
    }

    /// An opened path. A directory is listed; a file that was asked for by name
    /// is browsed whatever its name.
    pub fn open(&mut self, path: String, is_dir: bool)
        ensures
            final(self)@ == old(self)@.after(WalkEvent::Opened { path, is_dir }),
    {
        if is_dir {
            self.pending.push(path);
        } else if is_archive_file(path.as_str()) || is_pdf_file(path.as_str()) {
            self.containers.push(path);
        } else {
            self.media.push(Item::File(path));
        }
    }

    /// The browsing list: every file that was found, and a placeholder for each
    /// archive and PDF, in natural order.
    pub fn finish(self) -> (r: Vec<Item>)
        ensures
            is_sorted_list(self@.found(), r@),
            r@.len() == self@.media.len() + self@.containers.len(),
    {
        let ghost found = self@.found();
        let mut items = self.media;
        let containers = self.containers;
        let ghost media = items@;
        assert(items@ =~= media + placeholders(containers@.take(0)));
        for i in 0..containers.len()
            invariant
                items@ == media + placeholders(containers@.take(i as int)),
        {
            let path = containers[i].clone();
            items.push(Item::Container { path: Arc::new(path) });
            assert(items@ =~= media + placeholders(containers@.take(i + 1)));
        }
        assert(items@ =~= found);
        sort_natural(items)
    }
}

/// The state of a walk after the events, from its beginning.
pub open spec fn walked(events: Seq<WalkEvent>) -> WalkModel
    decreases events.len(),
{
    if events.len() == 0 {
        fresh_walk()
    } else {
        walked(events.drop_last()).after(events.last())
    }
}

/// The items that are browsed because of the events, one for each that brings one.
pub open spec fn items_met(events: Seq<WalkEvent>) -> Seq<Item>
    decreases events.len(),
{
    if events.len() == 0 {
        Seq::empty()
    } else {
        match events.last().item() {
            Some(item) => items_met(events.drop_last()).push(item),
            None => items_met(events.drop_last()),
        }
    }
}

/// The directories that were met in the events, one for each that brings one.
pub open spec fn directories_met(events: Seq<WalkEvent>) -> Seq<String>
    decreases events.len(),
{
    if events.len() == 0 {
        Seq::empty()
    } else {
        match events.last().directory() {
            Some(path) => directories_met(events.drop_last()).push(path),
            None => directories_met(events.drop_last()),
        }
    }
}

/// The directories that were taken to be listed in the events.
pub open spec fn directories_listed(events: Seq<WalkEvent>) -> Seq<String>
    decreases events.len(),
{
    if events.len() == 0 {
        Seq::empty()
    } else {
        let before = directories_listed(events.drop_last());
        let pending = walked(events.drop_last()).pending;
        if events.last() is Listed && pending.len() > 0 {
            before.push(pending.last())
        } else {
            before
        }
    }
}

/// Whatever the events of a walk, its browsing list holds each file and each
/// placeholder that they bring exactly once, and nothing else.
pub proof fn walk_lists_everything_once(events: Seq<WalkEvent>, list: Seq<Item>)
    requires
        is_sorted_list(walked(events).found(), list),
    ensures
        list.to_multiset() == items_met(events).to_multiset(),
        list.len() == items_met(events).len(),
{
    walk_finds_everything_once(events);
    sorting_keeps_counts(walked(events).found(), list);
    items_met(events).to_multiset_ensures();
    list.to_multiset_ensures();
}

/// Every directory that a walk meets is listed exactly once, or waits to be.
pub proof fn walk_lists_each_directory_once(events: Seq<WalkEvent>)
    ensures
        directories_met(events).to_multiset() == (directories_listed(events) + walked(
            events,
        ).pending).to_multiset(),
    decreases events.len(),
{
    if events.len() == 0 {
        assert(directories_listed(events) + walked(events).pending =~= directories_met(events));
    } else {
        let init = events.drop_last();
        let before = walked(init);
        let listed = directories_listed(init);
        walk_lists_each_directory_once(init);
        match events.last().directory() {
            Some(path) => {
                assert(listed + before.pending.push(path) =~= (listed + before.pending).push(path));
                vstd::seq_lib::to_multiset_build(listed + before.pending, path);
                vstd::seq_lib::to_multiset_build(directories_met(init), path);
            },
            None => {
                if events.last() is Listed && before.pending.len() > 0 {
                    let path = before.pending.last();
                    let rest = before.pending.drop_last();
                    assert(listed + before.pending =~= (listed + rest).push(path));
                    vstd::seq_lib::to_multiset_build(listed + rest, path);
                    vstd::seq_lib::lemma_multiset_commutative(listed, rest);
                    vstd::seq_lib::lemma_multiset_commutative(listed.push(path), rest);
                    vstd::seq_lib::to_multiset_build(listed, path);
                    assert((listed.push(path) + rest).to_multiset() =~= (listed
                        + before.pending).to_multiset());
                }
            },
        }
    }
}

proof fn walk_finds_everything_once(events: Seq<WalkEvent>)
    ensures
        walked(events).found().to_multiset() == items_met(events).to_multiset(),
    decreases events.len(),
{
    if events.len() == 0 {
        assert(walked(events).found() =~= items_met(events));
    } else {
        let init = events.drop_last();
        let before = walked(init);
        let after = walked(events);
        walk_finds_everything_once(init);
        match events.last().item() {
            Some(item) => {
                vstd::seq_lib::to_multiset_build(items_met(init), item);
                let rest = placeholders(before.containers);
                match item {
                    Item::File(_) => {
                        vstd::seq_lib::lemma_multiset_commutative(before.media, rest);
                        vstd::seq_lib::lemma_multiset_commutative(before.media.push(item), rest);
                        vstd::seq_lib::to_multiset_build(before.media, item);
                        assert(after.found() =~= before.media.push(item) + rest);
                        assert(after.found().to_multiset() =~= before.found().to_multiset().insert(
                            item,
                        ));
                    },
                    _ => {
                        assert(after.found() =~= before.found().push(item));
                        vstd::seq_lib::to_multiset_build(before.found(), item);
                    },
                }
            },
            None => {
                assert(after.found() =~= before.found());
            },
        }
    }
}

/// Sorting keeps how often each item occurs.
pub proof fn sorting_keeps_counts(items: Seq<Item>, out: Seq<Item>)
    requires
        is_sorted_list(items, out),
    ensures
        out.to_multiset() == items.to_multiset(),
{
    let p = choose|p: Seq<int>| #[trigger]
        is_natural_order(sort_keys(items), p) && out == arranged(items, p);
    natural_order_is_permutation(sort_keys(items), p);
    arranging_keeps_counts(items, p);
}

proof fn arranging_keeps_counts(items: Seq<Item>, p: Seq<int>)
    requires
        p.len() == items.len(),
        p.no_duplicates(),
        forall|i: int| 0 <= i < p.len() ==> 0 <= #[trigger] p[i] < items.len(),
        forall|k: int| 0 <= k < items.len() ==> #[trigger] p.contains(k),
    ensures
        arranged(items, p).to_multiset() == items.to_multiset(),
    decreases items.len(),
{
    let out = arranged(items, p);
    if items.len() == 0 {
        assert(out =~= items);
    } else {
        let n = items.len() - 1;
        let init = items.drop_last();
        assert(p.contains(n));
        let k = p.index_of(n);
        let q = p.remove(k);
        assert forall|i: int| 0 <= i < q.len() implies 0 <= #[trigger] q[i] < init.len() by {
            let j = if i < k {
                i
            } else {
                i + 1
            };
            assert(q[i] == p[j] && p[j] != p[k]);
        }
        assert forall|m: int| 0 <= m < init.len() implies #[trigger] q.contains(m) by {
            assert(p.contains(m));
            let j = p.index_of(m);
            if j < k {
                assert(q[j] == m);
            } else {
                assert(q[j - 1] == m);
            }
        }
        assert(q.no_duplicates());
        arranging_keeps_counts(init, q);
        assert(out.remove(k) =~= arranged(init, q));
        vstd::seq_lib::to_multiset_remove(out, k);
        out.to_multiset_ensures();
        assert(out.contains(out[k]));
        vstd::seq_lib::to_multiset_build(init, items[n]);
        assert(items =~= init.push(items[n]));
        assert(out.to_multiset() =~= out.remove(k).to_multiset().insert(items[n]));
    }
}

/// The root that titles are shown relative to: a single opened directory itself,
/// otherwise the first path's parent.
pub open spec fn root_of(opened: Seq<Seq<char>>, first_is_dir: bool) -> Seq<char> {
    if opened.len() == 0 {
        Seq::empty()
    } else if opened.len() == 1 && first_is_dir {
        opened[0]
    } else {
        match parent_of(opened[0]) {
            Some(p) => p,
            None => "."@,
        }
    }
}

pub fn scan_root(opened: &Vec<String>, first_is_dir: bool) -> (r: String)
    ensures
        r@ == root_of(path_texts(opened@), first_is_dir),
{
    let ghost all = path_texts(opened@);
    if opened.len() == 0 {
        let r = String::new();
        assert(r@ =~= Seq::<char>::empty());
        return r;
    }
    assert(all[0] == opened@[0]@);
    if opened.len() == 1 && first_is_dir {
        return opened[0].clone();
    }
    match parent(opened[0].as_str()) {
        Some(p) => p,
        None => ".".to_string(),
    }
}

/// The result of a completed folder scan: the browsing list and the root that
/// titles are shown relative to.
pub struct ScanResult {
    pub root: String,
    pub items: Vec<Item>,
}

/// What could be read of an archive or PDF.
pub enum ContainerContent {
    Archive(Vec<ArchiveEntry>),
    Pdf(Vec<u8>),
    Unreadable,
}

/// How an archive or PDF is read.
#[derive(Clone, Copy, PartialEq, Eq, Structural, Debug)]
pub enum ContainerKind {
    Archive,
    Pdf,
    Neither,
}

pub open spec fn kind_of_container(path: Seq<char>) -> ContainerKind {
    if archive_path(path) {
        ContainerKind::Archive
    } else if pdf_path(path) {
        ContainerKind::Pdf
    } else {
        ContainerKind::Neither
    }
}

pub fn container_kind(path: &str) -> (r: ContainerKind)
    ensures
        r == kind_of_container(path@),
{
    if is_archive_file(path) {
        ContainerKind::Archive
    } else if is_pdf_file(path) {
        ContainerKind::Pdf
    } else {
        ContainerKind::Neither
    }
}

/// Which of an archive's entries are media by their names.
pub open spec fn media_names(entries: Seq<ArchiveEntry>) -> Seq<bool> {
    entries.map_values(|e: ArchiveEntry| media_path(e.name@))
}

/// What is said of directories and clutter does not matter to what an archive lists.
proof fn clutter_is_not_asked_about(
    items: Seq<Item>,
    path: Seq<char>,
    entries: Seq<ArchiveEntry>,
    media: Seq<bool>,
    other: Seq<bool>,
)
    requires
        media.len() == entries.len(),
        other.len() == entries.len(),
        forall|i: int|
            0 <= i < entries.len() && !is_clutter((#[trigger] entries[i]).name@) ==> media[i]
                == other[i],
        lists_archive(items, path, entries, media),
    ensures
        lists_archive(items, path, entries, other),
    decreases entries.len(),
{
    if entries.len() > 0 {
        let k = choose|k: int|
            0 <= k <= items.len() && lists_archive(
                #[trigger] items.take(k),
                path,
                entries.drop_last(),
                media.drop_last(),
            ) && lists_entry(items.skip(k), path, entries.last(), media.last());
        assert forall|i: int|
            0 <= i < entries.len() - 1 && !is_clutter(
                (#[trigger] entries.drop_last()[i]).name@,
            ) implies media.drop_last()[i] == other.drop_last()[i] by {
            assert(entries[i] == entries.drop_last()[i]);
        }
        clutter_is_not_asked_about(
            items.take(k),
            path,
            entries.drop_last(),
            media.drop_last(),
            other.drop_last(),
        );
        assert(entries[entries.len() - 1] == entries.last());
        assert(lists_entry(items.skip(k), path, entries.last(), other.last()));
    }
}

/// Whether `items` are what the archive or PDF at `path` lists, given what could be read
/// of it.
pub open spec fn lists_container(
    items: Seq<Item>,
    path: Seq<char>,
    content: ContainerContent,
) -> bool {
    match (kind_of_container(path), content) {
        (ContainerKind::Archive, ContainerContent::Archive(entries)) => lists_archive(
            items,
            path,
            entries@,
            media_names(entries@),
        ),
        (ContainerKind::Pdf, ContainerContent::Pdf(bytes)) => lists_pdf(items, bytes@, path, None),
        _ => items.len() == 0,
    }
}

/// Enumerate the browsable entries of the archive or PDF at `path`, given what
/// could be read of it.
pub fn expand_container(path: &str, content: &ContainerContent) -> (r: Vec<Item>)
    ensures
        lists_container(r@, path@, *content),
{
    match (container_kind(path), content) {
        (ContainerKind::Archive, ContainerContent::Archive(entries)) => {
            let items = scan_archive(path, entries, is_media_name);
            proof {
                let media = choose|media: Seq<bool>| #[trigger]
                    answers_all(is_media_name, entries@, media) && lists_archive(
                        items@,
                        path@,
                        entries@,
                        media,
                    );
                clutter_is_not_asked_about(
                    items@,
                    path@,
                    entries@,
                    media,
                    media_names(entries@),
                );
            }
            items
        },
        (ContainerKind::Pdf, ContainerContent::Pdf(bytes)) => scan_pdf(path, bytes.as_slice()),
        _ => Vec::new(),
    }
}

/// What a round of reading a file to have it pulled local comes to: to read on
/// (None), or whether the file has been read to its end.
pub open spec fn hydration_step(relevant: bool, event: ReadEvent) -> Option<bool> {
    if !relevant {
        Some(false)
    } else {
        match event {
            ReadEvent::Read(n) => if n == 0 {
                Some(true)
            } else {
                None
            },
            _ => Some(false),
        }
    }
}

/// Reading a whole file only to have it pulled local: whether to read on (None),
/// or whether it has been read to its end.
pub fn hydrate_file(relevant: bool, event: &ReadEvent) -> (r: Option<bool>)
    ensures
        r == hydration_step(relevant, *event),
{
    if !relevant {
        return Some(false);
    }
    match event {
        ReadEvent::Read(n) => {
            if *n == 0 {
                Some(true)
            } else {
                None
            }
        },
        _ => Some(false),
    }
}

/// One round of reading a file: whether the viewer was still near it before, and
/// what the round brought.
pub struct HydrateRound {
    pub relevant: bool,
    pub event: ReadEvent,
}

impl HydrateRound {
    pub open spec fn step(self) -> Option<bool> {
        hydration_step(self.relevant, self.event)
    }
}

/// What the rounds come to, of a reader that goes on for as long as it is told to.
pub open spec fn hydrated(rounds: Seq<HydrateRound>) -> Option<bool>
    decreases rounds.len(),
{
    if rounds.len() == 0 {
        None
    } else {
        match hydrated(rounds.drop_last()) {
            Some(done) => Some(done),
            None => rounds.last().step(),
        }
    }
}

/// Whether round `k` is the first that does not go on: before it, the viewer was near
/// each time and each round brought bytes.
pub open spec fn stops_at(rounds: Seq<HydrateRound>, k: int) -> bool {
    &&& 0 <= k < rounds.len()
    &&& rounds[k].step() is Some
    &&& forall|j: int|
        0 <= j < k ==> (#[trigger] rounds[j]).relevant && (rounds[j].event matches ReadEvent::Read(
            n,
        ) && n > 0)
}

/// A file has been pulled local exactly if the viewer was near it in every round and
/// the first round without bytes was the end of the file, with no error before it. It
/// is given up exactly if the viewer moved away, or there was an error, before that.
pub proof fn file_is_hydrated_to_its_end(rounds: Seq<HydrateRound>)
    ensures
        hydrated(rounds) == Some(true) <==> exists|k: int| #[trigger]
            stops_at(rounds, k) && rounds[k].relevant && rounds[k].event == ReadEvent::Read(0),
        hydrated(rounds) == Some(false) <==> exists|k: int| #[trigger]
            stops_at(rounds, k) && (!rounds[k].relevant || rounds[k].event is Cancelled
                || rounds[k].event is Failed),
        hydrated(rounds) is None <==> forall|j: int|
            0 <= j < rounds.len() ==> (#[trigger] rounds[j]).relevant && (
            rounds[j].event matches ReadEvent::Read(n) && n > 0),
        forall|k: int| #[trigger] stops_at(rounds, k) ==> hydrated(rounds) == rounds[k].step(),
    decreases rounds.len(),
{
    if rounds.len() > 0 {
        let init = rounds.drop_last();
        let n = init.len() as int;
        file_is_hydrated_to_its_end(init);
        assert forall|k: int| #[trigger] stops_at(init, k) implies stops_at(rounds, k) by {
            assert(init[k] == rounds[k]);
            assert forall|j: int| 0 <= j < k implies (#[trigger] rounds[j]).relevant && (
            rounds[j].event matches ReadEvent::Read(n) && n > 0) by {
                assert(init[j] == rounds[j]);
            }
        }
        assert forall|k: int| #[trigger] stops_at(rounds, k) && k < n implies stops_at(init, k) by {
            assert(init[k] == rounds[k]);
            assert forall|j: int| 0 <= j < k implies (#[trigger] init[j]).relevant && (
            init[j].event matches ReadEvent::Read(n) && n > 0) by {
                assert(init[j] == rounds[j]);
            }
        }
        if hydrated(init) is None {
            assert forall|j: int| 0 <= j < n implies (#[trigger] rounds[j]).relevant && (
            rounds[j].event matches ReadEvent::Read(n) && n > 0) by {
                assert(init[j] == rounds[j]);
            }
            if rounds.last().step() is Some {
                assert(stops_at(rounds, n));
            }
        } else {
            let k = choose|k: int| #[trigger] stops_at(init, k);
            assert(stops_at(rounds, k));
            assert(init[k] == rounds[k]);
            assert(!stops_at(rounds, n)) by {
                assert(rounds[k].step() is Some);
            }
        }
    }
}

/// Once a file has been read or given up, nothing follows.
pub proof fn nothing_follows_hydration(rounds: Seq<HydrateRound>, more: Seq<HydrateRound>)
    requires
        hydrated(rounds) is Some,
    ensures
        hydrated(rounds + more) == hydrated(rounds),
    decreases more.len(),
{
    if more.len() == 0 {
        assert(rounds + more =~= rounds);
    } else {
        assert((rounds + more).drop_last() =~= rounds + more.drop_last());
        nothing_follows_hydration(rounds, more.drop_last());
    }
}

/// What a video's playback position is remembered by: its file and its name, as
/// paths.
pub open spec fn position_key(item: Item) -> (Seq<char>, Seq<char>) {
    (normal(item.disk()), normal(item.media()))
}

pub fn video_key(item: &Item) -> (r: (String, String))
    ensures
        (r.0@, r.1@) == position_key(*item),
{
    (normal_form(item.disk_path()), normal_form(item.media_name()))
}

/// A fresh path for a frame saved from the video `src`, in the downloads folder.
pub open spec fn png_path(home: Seq<char>, src: Seq<char>, timestamp_ms: nat) -> Seq<char> {
    let stem = match stem_of(src) {
        Some(s) => s,
        None => "frame"@,
    };
    child(child(home, "Downloads"@), stem + "_"@ + decimal(timestamp_ms) + ".png"@)
}

pub fn downloads_png_path(home: &str, src: &str, timestamp_ms: u128) -> (r: String)
    ensures
        r@ == png_path(home@, src@, timestamp_ms as nat),
{
    let mut name = match file_stem(src) {
        Some(s) => s,
        None => "frame".to_string(),
    };
    name.append("_");
    push_decimal(&mut name, timestamp_ms);
    name.append(".png");
    join(join(home, "Downloads").as_str(), name.as_str())
}

/// A file that is met in a directory is browsed if it is media, and waits as a placeholder if
/// it is an archive or a PDF; anything else is passed over. Directories are listed later, and
/// links are not followed.
pub proof fn entries_are_met_by_their_type(path: String, kind: FileType)
    ensures
        ({
            let met = WalkEvent::Visited { path, kind };
            &&& kind == FileType::Directory ==> met.directory() == Some(path) && met.item() is None
            &&& kind == FileType::Other ==> met.directory() is None && met.item() is None
            &&& kind == FileType::File ==> met.directory() is None
            &&& kind == FileType::File && media_path(path@) ==> met.item() == Some(Item::File(path))
            &&& kind == FileType::File && !media_path(path@) && (archive_path(path@) || pdf_path(
                path@,
            )) ==> met.item() == Some(Item::Container { path: Arc::new(path) })
            &&& kind == FileType::File && !media_path(path@) && !archive_path(path@) && !pdf_path(
                path@,
            ) ==> met.item() is None
        }),
{
}

/// A directory that is opened is listed; a file that is opened is browsed whatever its name,
/// as a placeholder if it is an archive or a PDF.
pub proof fn opened_paths_are_browsed(path: String, is_dir: bool)
    ensures
        ({
            let opened = WalkEvent::Opened { path, is_dir };
            &&& is_dir ==> opened.directory() == Some(path) && opened.item() is None
            &&& !is_dir ==> opened.directory() is None
            &&& !is_dir && (archive_path(path@) || pdf_path(path@)) ==> opened.item() == Some(
                Item::Container { path: Arc::new(path) },
            )
            &&& !is_dir && !archive_path(path@) && !pdf_path(path@) ==> opened.item() == Some(
                Item::File(path),
            )
        }),
{
}

/// What a directory holds is met before what was found beside it: the directory found last is
/// listed first, and taking it leaves the others as they were.
pub proof fn last_directory_is_listed_first(walk: WalkModel, path: String, is_dir: bool)
    ensures
        walk.after(WalkEvent::Visited { path, kind: FileType::Directory }).pending.last() == path,
        walk.after(WalkEvent::Visited { path, kind: FileType::Directory }).after(WalkEvent::Listed)
            == walk,
        walk.after(WalkEvent::Opened { path, is_dir: true }).after(WalkEvent::Listed) == walk,
        walk.pending.len() == 0 ==> walk.after(WalkEvent::Listed) == walk,
{
    assert(walk.pending.push(path).drop_last() =~= walk.pending);
}

/// Items that are ranked alike stay in the order that they were in.
pub proof fn sorting_is_stable(items: Seq<Item>, p: Seq<int>, a: int, b: int)
    requires
        is_natural_order(sort_keys(items), p),
        0 <= a < b < p.len(),
        natural_rank(items[p[a]].key(), items[p[b]].key()) == Rank::Same,
    ensures
        p[a] < p[b],
{
    assert(goes_before(sort_keys(items), p[a], p[b]));
    assert(0 <= p[a] < sort_keys(items).len());
    assert(0 <= p[b] < sort_keys(items).len());
}

/// Titles start at the directory that was opened, if it was the only path; otherwise at the
/// directory that the first path is in.
pub proof fn root_is_what_was_opened(dir: Seq<char>, name: Seq<char>, more: Seq<Seq<char>>)
    requires
        dir.len() > 0,
        can_be_name(name),
    ensures
        root_of(seq![dir], true) == dir,
        same(root_of(seq![dir + seq!['/'] + name], false), dir),
        more.len() > 0 ==> same(root_of(seq![dir + seq!['/'] + name] + more, true), dir),
        more.len() > 0 ==> same(root_of(seq![dir + seq!['/'] + name] + more, false), dir),
        root_of(Seq::empty(), true) == Seq::<char>::empty(),
{
    appended_name_is_last(dir, name);
    let first = seq![dir + seq!['/'] + name];
    assert((first + more)[0] == dir + seq!['/'] + name);
}

/// An archive is read as one, a PDF as one, and nothing else is read.
pub proof fn containers_are_read_by_extension(path: Seq<char>)
    ensures
        archive_path(path) ==> kind_of_container(path) == ContainerKind::Archive,
        pdf_path(path) && !archive_path(path) ==> kind_of_container(path) == ContainerKind::Pdf,
        !pdf_path(path) && !archive_path(path) ==> kind_of_container(path)
            == ContainerKind::Neither,
{
}

/// A position is remembered for one video: two items share one exactly if they have the same
/// file and the same name.
pub proof fn positions_are_kept_apart(a: Item, b: Item)
    ensures
        position_key(a) == position_key(b) <==> same(a.disk(), b.disk()) && same(
            a.media(),
            b.media(),
        ),
{
    normal_text_identifies_path(a.disk(), b.disk());
    normal_text_identifies_path(a.media(), b.media());
}

/// A saved frame goes to the downloads folder, under the video's stem and the time.
pub proof fn frames_are_saved_to_downloads(
    home: Seq<char>,
    src: Seq<char>,
    stem: Seq<char>,
    timestamp_ms: nat,
)
    requires
        home.len() > 0,
        home.last() != '/',
        stem_of(src) == Some(stem),
        stem.len() > 0,
        stem[0] != '/',
    ensures
        png_path(home, src, timestamp_ms) == home + "/Downloads/"@ + stem + "_"@ + decimal(
            timestamp_ms,
        ) + ".png"@,
{
    reveal_strlit("/Downloads/");
    reveal_strlit("Downloads");
    let name = stem + "_"@ + decimal(timestamp_ms) + ".png"@;
    let folder = child(home, "Downloads"@);
    child_is_put_behind(home, "Downloads"@);
    assert(folder.last() == 's');
    assert(name[0] == stem[0]);
    child_is_put_behind(folder, name);
    assert(png_path(home, src, timestamp_ms) =~= home + "/Downloads/"@ + stem + "_"@ + decimal(
        timestamp_ms,
    ) + ".png"@);
}

/// The entries of an archive count as media by their own names.
pub proof fn entries_are_media_by_name(entries: Seq<ArchiveEntry>, i: int)
    requires
        0 <= i < entries.len(),
    ensures
        media_names(entries).len() == entries.len(),
        media_names(entries)[i] == media_path(entries[i].name@),
{
}

/// An archive lists its entries, by their names, and a PDF its pages; what could not be read
/// lists nothing.
pub proof fn containers_list_their_contents(
    items: Seq<Item>,
    path: Seq<char>,
    content: ContainerContent,
)
    requires
        lists_container(items, path, content),
    ensures
        archive_path(path) ==> (content matches ContainerContent::Archive(entries)
            ==> lists_archive(
            items,
            path,
            entries@,
            Seq::new(entries@.len(), |i: int| media_path(entries@[i].name@)),
        )),
        pdf_path(path) && !archive_path(path) ==> (content matches ContainerContent::Pdf(bytes)
            ==> lists_pdf(items, bytes@, path, None)),
        content is Unreadable ==> items.len() == 0,
        !archive_path(path) && !pdf_path(path) ==> items.len() == 0,
{
    if let ContainerContent::Archive(entries) = content {
        assert(media_names(entries@) =~= Seq::new(
            entries@.len(),
            |i: int| media_path(entries@[i].name@),
        ));
    }
}

} // verus!
